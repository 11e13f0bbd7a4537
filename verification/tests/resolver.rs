use depsolver::packages::{Packages, RegistryError, RelVersionedPackageNum};
use depsolver::version::{Version, VersionRelation};

fn v(text: &str, rank: u64) -> Version {
    Version::new(text.to_string(), rank)
}

fn any(package_num: i32) -> RelVersionedPackageNum {
    RelVersionedPackageNum { package_num, rel_version: None }
}

fn rel(package_num: i32, relation: VersionRelation, text: &str, rank: u64) -> RelVersionedPackageNum {
    RelVersionedPackageNum { package_num, rel_version: Some((relation, v(text, rank))) }
}

/// A depends on [B (>= 2.0) | C]; B installed at 1.0, on offer at 2.0; C not
/// installed, on offer at 1.0.
fn upgrade_scenario() -> (Packages, i32, i32, i32) {
    let mut pkgs = Packages::new();
    let a = pkgs.get_package_num_inserting("A");
    let b = pkgs.get_package_num_inserting("B");
    let c = pkgs.get_package_num_inserting("C");
    pkgs.set_installed(b, v("1.0", 10)).unwrap();
    pkgs.set_available(b, v("2.0", 20)).unwrap();
    pkgs.set_available(c, v("1.0", 10)).unwrap();
    pkgs.set_dependencies(a, vec![vec![rel(b, VersionRelation::GreaterOrEqual, "2.0", 20), any(c)]])
        .unwrap();
    (pkgs, a, b, c)
}

#[test]
fn package_numbers_follow_first_mention() {
    let mut pkgs = Packages::new();
    assert_eq!(pkgs.package_count(), 0);
    assert_eq!(pkgs.get_package_num_inserting("alpha"), 0);
    assert_eq!(pkgs.get_package_num_inserting("beta"), 1);
    assert_eq!(pkgs.get_package_num_inserting("alpha"), 0);
    assert_eq!(pkgs.package_count(), 2);
    assert!(pkgs.package_exists("beta"));
    assert!(!pkgs.package_exists("gamma"));
    assert_eq!(pkgs.find_package("beta"), Some(1));
    assert_eq!(pkgs.find_package("gamma"), None);
    assert_eq!(pkgs.get_package_num("beta"), 1);
    assert_eq!(pkgs.get_package_name(0), "alpha");
}

#[test]
fn versions_are_recorded_per_package() {
    let mut pkgs = Packages::new();
    let a = pkgs.get_package_num_inserting("a");
    let b = pkgs.get_package_num_inserting("b");
    pkgs.set_installed(a, v("1.0", 1)).unwrap();
    pkgs.set_available(a, v("2.0", 2)).unwrap();
    pkgs.set_md5sum(a, "d41d8cd9".to_string()).unwrap();
    assert_eq!(pkgs.installed_version(a).unwrap().rank, 1);
    assert_eq!(pkgs.available_version(a).unwrap().text, "2.0");
    assert_eq!(pkgs.get_installed_debver("a").unwrap().text, "1.0");
    assert_eq!(pkgs.get_available_debver("a").unwrap().rank, 2);
    assert!(pkgs.installed_version(b).is_none());
    assert!(pkgs.get_available_debver("b").is_none());
    assert_eq!(pkgs.md5sum(a).unwrap(), "d41d8cd9");
    assert!(pkgs.md5sum(b).is_none());
    assert_eq!(pkgs.installed_count(), 1);
    assert_eq!(pkgs.available_count(), 1);
}

#[test]
fn unknown_package_numbers_are_turned_down() {
    let mut pkgs = Packages::new();
    let a = pkgs.get_package_num_inserting("a");
    assert_eq!(pkgs.set_installed(7, v("1.0", 1)), Err(RegistryError::UnknownPackage));
    assert_eq!(pkgs.set_available(-1, v("1.0", 1)), Err(RegistryError::UnknownPackage));
    assert_eq!(pkgs.set_md5sum(1, "x".to_string()), Err(RegistryError::UnknownPackage));
    assert_eq!(pkgs.set_dependencies(3, vec![vec![any(a)]]), Err(RegistryError::UnknownPackage));
    assert!(pkgs.installed_version(7).is_none());
    assert_eq!(pkgs.installed_count(), 0);
}

#[test]
fn malformed_clauses_are_turned_down() {
    let mut pkgs = Packages::new();
    let a = pkgs.get_package_num_inserting("a");
    assert_eq!(pkgs.set_dependencies(a, vec![vec![]]), Err(RegistryError::MalformedClause));
    assert_eq!(pkgs.set_dependencies(a, vec![vec![any(5)]]), Err(RegistryError::MalformedClause));
    assert_eq!(
        pkgs.set_dependencies(a, vec![vec![any(a)], vec![any(a), any(-2)]]),
        Err(RegistryError::MalformedClause)
    );
    assert!(pkgs.dependency_clauses(a).is_none());
    assert!(pkgs.clause_is_valid(&vec![any(a)]));
    assert!(!pkgs.clause_is_valid(&vec![]));
    assert_eq!(pkgs.set_dependencies(a, vec![]), Ok(()));
    assert_eq!(pkgs.dependency_clauses(a).unwrap().len(), 0);
}

#[test]
fn each_relation_compares_ranks() {
    let low = v("1.0", 1);
    let high = v("2.0", 2);
    let same = v("0:1.0", 1);
    assert!(low.compare(&VersionRelation::StrictlyLess, &high));
    assert!(!low.compare(&VersionRelation::StrictlyLess, &same));
    assert!(low.compare(&VersionRelation::LessOrEqual, &same));
    assert!(!high.compare(&VersionRelation::LessOrEqual, &low));
    assert!(low.compare(&VersionRelation::Equal, &same));
    assert!(!low.compare(&VersionRelation::Equal, &high));
    assert!(high.compare(&VersionRelation::GreaterOrEqual, &low));
    assert!(!low.compare(&VersionRelation::GreaterOrEqual, &high));
    assert!(high.compare(&VersionRelation::StrictlyGreater, &low));
    assert!(!low.compare(&VersionRelation::StrictlyGreater, &same));
}

#[test]
fn duplicate_keeps_text_and_rank() {
    let version = v("1.2-3", 42);
    let copy = version.duplicate();
    assert_eq!(copy.text, "1.2-3");
    assert_eq!(copy.rank, 42);
}

#[test]
fn no_dependencies_give_empty_results() {
    let mut pkgs = Packages::new();
    let a = pkgs.get_package_num_inserting("a");
    pkgs.get_package_num_inserting("b");
    pkgs.set_dependencies(a, vec![]).unwrap();
    assert_eq!(pkgs.transitive_dep_solution("a"), Vec::<i32>::new());
    assert_eq!(pkgs.compute_how_to_install("a"), Vec::<i32>::new());
    // a package that never declared anything
    assert_eq!(pkgs.transitive_dep_solution("b"), Vec::<i32>::new());
    assert_eq!(pkgs.try_compute_how_to_install("b"), Some(vec![]));
}

#[test]
fn unknown_name_gives_empty_results() {
    let (pkgs, _, _, _) = upgrade_scenario();
    assert_eq!(pkgs.transitive_dep_solution("nowhere"), Vec::<i32>::new());
    assert_eq!(pkgs.compute_how_to_install("nowhere"), Vec::<i32>::new());
    assert_eq!(pkgs.try_compute_how_to_install("nowhere"), Some(vec![]));
    assert!(pkgs.deps_available("nowhere").is_none());
}

#[test]
fn clause_of_unknown_packages_is_not_met() {
    let (pkgs, _, _, _) = upgrade_scenario();
    let clause = vec![any(40), rel(41, VersionRelation::Equal, "1.0", 10)];
    assert_eq!(pkgs.dep_is_satisfied(&clause), None);
    assert_eq!(pkgs.dep_satisfied_by_wrong_version(&clause), Vec::<&str>::new());
}

#[test]
fn satisfier_is_installed_and_meets_its_relation() {
    let mut pkgs = Packages::new();
    let b = pkgs.get_package_num_inserting("B");
    let c = pkgs.get_package_num_inserting("C");
    pkgs.set_installed(b, v("1.0", 10)).unwrap();
    pkgs.set_installed(c, v("3.0", 30)).unwrap();
    let clause = vec![
        rel(b, VersionRelation::GreaterOrEqual, "2.0", 20),
        rel(c, VersionRelation::StrictlyGreater, "2.0", 20),
    ];
    let by = pkgs.dep_is_satisfied(&clause).unwrap();
    assert_eq!(by, "C");
    let installed = pkgs.get_installed_debver(by).unwrap();
    assert!(installed.compare(&VersionRelation::StrictlyGreater, &v("2.0", 20)));
}

#[test]
fn first_met_alternative_wins() {
    let mut pkgs = Packages::new();
    let b = pkgs.get_package_num_inserting("B");
    let c = pkgs.get_package_num_inserting("C");
    pkgs.set_installed(b, v("1.0", 10)).unwrap();
    pkgs.set_installed(c, v("1.0", 10)).unwrap();
    assert_eq!(pkgs.dep_is_satisfied(&vec![any(b), any(c)]), Some("B"));
    assert_eq!(pkgs.dep_is_satisfied(&vec![any(c), any(b)]), Some("C"));
    assert_eq!(pkgs.dep_is_satisfied(&vec![]), None);
}

#[test]
fn wrong_version_does_not_hide_later_alternative() {
    let mut pkgs = Packages::new();
    let b = pkgs.get_package_num_inserting("B");
    let c = pkgs.get_package_num_inserting("C");
    pkgs.set_installed(b, v("1.0", 10)).unwrap();
    pkgs.set_installed(c, v("1.0", 10)).unwrap();
    let clause = vec![rel(b, VersionRelation::StrictlyLess, "1.0", 10), any(c)];
    assert_eq!(pkgs.dep_is_satisfied(&clause), Some("C"));
}

#[test]
fn wrong_version_candidates_come_in_clause_order() {
    let mut pkgs = Packages::new();
    let b = pkgs.get_package_num_inserting("B");
    let c = pkgs.get_package_num_inserting("C");
    let d = pkgs.get_package_num_inserting("D");
    pkgs.set_installed(b, v("1.0", 10)).unwrap();
    pkgs.set_installed(d, v("1.0", 10)).unwrap();
    let clause = vec![
        rel(d, VersionRelation::Equal, "2.0", 20),
        any(c),
        rel(b, VersionRelation::StrictlyGreater, "1.0", 10),
    ];
    assert_eq!(pkgs.dep_is_satisfied(&clause), None);
    assert_eq!(pkgs.dep_satisfied_by_wrong_version(&clause), vec!["D", "B"]);
    assert_eq!(pkgs.candidates_of(&clause), vec![d, b]);
}

#[test]
fn wrong_version_alternative_is_planned() {
    let (pkgs, _, b, c) = upgrade_scenario();
    let clause = vec![rel(b, VersionRelation::GreaterOrEqual, "2.0", 20), any(c)];
    assert_eq!(pkgs.dep_is_satisfied(&clause), None);
    assert_eq!(pkgs.dep_satisfied_by_wrong_version(&clause), vec!["B"]);
    assert_eq!(pkgs.compute_how_to_install("A"), vec![b]);
    assert_eq!(pkgs.try_compute_how_to_install("A"), Some(vec![b]));
}

#[test]
fn planned_package_brings_its_own_dependencies() {
    let (mut pkgs, _, b, c) = upgrade_scenario();
    let d = pkgs.get_package_num_inserting("D");
    let e = pkgs.get_package_num_inserting("E");
    pkgs.set_available(d, v("1.0", 10)).unwrap();
    pkgs.set_available(e, v("1.0", 10)).unwrap();
    pkgs.set_dependencies(b, vec![vec![any(d)], vec![any(c)]]).unwrap();
    pkgs.set_dependencies(d, vec![vec![any(e)]]).unwrap();
    assert_eq!(pkgs.compute_how_to_install("A"), vec![b, d, c, e]);
}

#[test]
fn highest_offer_wins_when_nothing_is_installed() {
    let mut pkgs = Packages::new();
    let p = pkgs.get_package_num_inserting("P");
    let x = pkgs.get_package_num_inserting("X");
    let y = pkgs.get_package_num_inserting("Y");
    pkgs.set_available(x, v("1.0", 10)).unwrap();
    pkgs.set_available(y, v("2.0", 20)).unwrap();
    pkgs.set_dependencies(p, vec![vec![any(x), any(y)]]).unwrap();
    assert_eq!(pkgs.candidates_of(&vec![any(x), any(y)]), vec![x, y]);
    assert_eq!(pkgs.choose_highest(&vec![x, y]), Some(y));
    assert_eq!(pkgs.compute_how_to_install("P"), vec![y]);
    assert_eq!(pkgs.transitive_dep_solution("P"), vec![x]);
}

#[test]
fn first_wins_among_equal_offers() {
    let mut pkgs = Packages::new();
    let p = pkgs.get_package_num_inserting("P");
    let x = pkgs.get_package_num_inserting("X");
    let y = pkgs.get_package_num_inserting("Y");
    let z = pkgs.get_package_num_inserting("Z");
    pkgs.set_available(x, v("1.0", 10)).unwrap();
    pkgs.set_available(y, v("0:1.0", 10)).unwrap();
    pkgs.set_available(z, v("0.5", 5)).unwrap();
    pkgs.set_dependencies(p, vec![vec![any(y), any(x)]]).unwrap();
    assert_eq!(pkgs.choose_highest(&vec![x, y]), Some(x));
    assert_eq!(pkgs.choose_highest(&vec![y, x]), Some(y));
    assert_eq!(pkgs.choose_highest(&vec![z, y, x]), Some(y));
    assert_eq!(pkgs.compute_how_to_install("P"), vec![y]);
}

#[test]
fn highest_among_wrong_versions_wins_over_uninstalled() {
    let mut pkgs = Packages::new();
    let p = pkgs.get_package_num_inserting("P");
    let x = pkgs.get_package_num_inserting("X");
    let y = pkgs.get_package_num_inserting("Y");
    let z = pkgs.get_package_num_inserting("Z");
    pkgs.set_installed(x, v("1.0", 10)).unwrap();
    pkgs.set_installed(y, v("1.0", 10)).unwrap();
    pkgs.set_available(x, v("2.0", 20)).unwrap();
    pkgs.set_available(y, v("3.0", 30)).unwrap();
    pkgs.set_available(z, v("9.0", 90)).unwrap();
    pkgs.set_dependencies(
        p,
        vec![vec![
            rel(x, VersionRelation::GreaterOrEqual, "2.0", 20),
            any(z),
            rel(y, VersionRelation::GreaterOrEqual, "2.0", 20),
        ]],
    )
    .unwrap();
    assert_eq!(pkgs.compute_how_to_install("P"), vec![y]);
}

#[test]
fn choose_highest_needs_every_candidate_on_offer() {
    let mut pkgs = Packages::new();
    let x = pkgs.get_package_num_inserting("X");
    let y = pkgs.get_package_num_inserting("Y");
    pkgs.set_available(x, v("1.0", 10)).unwrap();
    assert_eq!(pkgs.choose_highest(&vec![]), None);
    assert_eq!(pkgs.choose_highest(&vec![x]), Some(x));
    assert_eq!(pkgs.choose_highest(&vec![x, y]), None);
    assert_eq!(pkgs.choose_highest(&vec![y, x]), None);
}

#[test]
fn there_is_no_plan_without_an_offer() {
    let mut pkgs = Packages::new();
    let p = pkgs.get_package_num_inserting("P");
    let x = pkgs.get_package_num_inserting("X");
    let y = pkgs.get_package_num_inserting("Y");
    pkgs.set_available(x, v("1.0", 10)).unwrap();
    pkgs.set_dependencies(p, vec![vec![any(x), any(y)]]).unwrap();
    assert_eq!(pkgs.try_compute_how_to_install("P"), None);
    // once the clause is met, what is on offer no longer matters
    pkgs.set_installed(y, v("1.0", 10)).unwrap();
    assert_eq!(pkgs.try_compute_how_to_install("P"), Some(vec![]));
}

#[test]
fn plan_lists_each_package_once() {
    let mut pkgs = Packages::new();
    let top = pkgs.get_package_num_inserting("top");
    let left = pkgs.get_package_num_inserting("left");
    let right = pkgs.get_package_num_inserting("right");
    let base = pkgs.get_package_num_inserting("base");
    for id in [top, left, right, base] {
        pkgs.set_available(id, v("1.0", 10)).unwrap();
    }
    pkgs.set_dependencies(top, vec![vec![any(left)], vec![any(right)], vec![any(left)]]).unwrap();
    pkgs.set_dependencies(left, vec![vec![any(base)]]).unwrap();
    pkgs.set_dependencies(right, vec![vec![any(base)], vec![any(left)]]).unwrap();
    assert_eq!(pkgs.compute_how_to_install("top"), vec![left, right, base]);
    assert_eq!(pkgs.transitive_dep_solution("top"), vec![left, right, base]);
}

#[test]
fn cycles_are_absorbed() {
    let mut pkgs = Packages::new();
    let a = pkgs.get_package_num_inserting("a");
    let b = pkgs.get_package_num_inserting("b");
    pkgs.set_available(a, v("1.0", 10)).unwrap();
    pkgs.set_available(b, v("1.0", 10)).unwrap();
    pkgs.set_dependencies(a, vec![vec![any(b)]]).unwrap();
    pkgs.set_dependencies(b, vec![vec![any(a)]]).unwrap();
    assert_eq!(pkgs.transitive_dep_solution("a"), vec![b, a]);
    assert_eq!(pkgs.compute_how_to_install("a"), vec![b, a]);
}

#[test]
fn closure_follows_first_alternatives_only() {
    let mut pkgs = Packages::new();
    let a = pkgs.get_package_num_inserting("a");
    let b = pkgs.get_package_num_inserting("b");
    let c = pkgs.get_package_num_inserting("c");
    let d = pkgs.get_package_num_inserting("d");
    let e = pkgs.get_package_num_inserting("e");
    pkgs.set_dependencies(a, vec![vec![any(b), any(c)], vec![any(d)]]).unwrap();
    pkgs.set_dependencies(b, vec![vec![any(e), any(a)]]).unwrap();
    pkgs.set_dependencies(c, vec![vec![any(a)]]).unwrap();
    pkgs.set_dependencies(d, vec![vec![any(b)], vec![any(c)]]).unwrap();
    assert_eq!(pkgs.transitive_dep_solution("a"), vec![b, d, e, c, a]);
}

#[test]
fn closure_ignores_what_is_installed_and_plan_does_not() {
    let mut pkgs = Packages::new();
    let a = pkgs.get_package_num_inserting("a");
    let b = pkgs.get_package_num_inserting("b");
    let c = pkgs.get_package_num_inserting("c");
    pkgs.set_installed(b, v("1.0", 10)).unwrap();
    pkgs.set_installed(c, v("2.0", 20)).unwrap();
    pkgs.set_dependencies(
        a,
        vec![vec![any(b)], vec![rel(c, VersionRelation::GreaterOrEqual, "2.0", 20), any(b)]],
    )
    .unwrap();
    assert_eq!(pkgs.transitive_dep_solution("a"), vec![b, c]);
    assert_eq!(pkgs.compute_how_to_install("a"), Vec::<i32>::new());
}

#[test]
fn report_tells_what_meets_each_clause() {
    let (mut pkgs, a, b, c) = upgrade_scenario();
    pkgs.set_installed(c, v("0.9", 9)).unwrap();
    pkgs.set_dependencies(
        a,
        vec![
            vec![rel(b, VersionRelation::GreaterOrEqual, "2.0", 20)],
            vec![rel(b, VersionRelation::GreaterOrEqual, "2.0", 20), any(c)],
        ],
    )
    .unwrap();
    let report = pkgs.deps_available("A").unwrap();
    assert_eq!(report.len(), 2);
    assert_eq!(report[0].clause.len(), 1);
    assert!(report[0].satisfied_by.is_none());
    assert_eq!(report[1].clause.len(), 2);
    let (name, version) = report[1].satisfied_by.unwrap();
    assert_eq!(name, "C");
    assert_eq!(version.text, "0.9");
    assert_eq!(pkgs.deps_available("B").unwrap().len(), 0);
}

/// A database with a choice at every level and a cycle at the bottom.
fn layered() -> (Packages, Vec<i32>) {
    let mut pkgs = Packages::new();
    let names = ["app", "gui", "tui", "toolkit", "curses", "core", "extra"];
    let ids: Vec<i32> = names.iter().map(|name| pkgs.get_package_num_inserting(name)).collect();
    for id in ids.iter() {
        pkgs.set_available(*id, v("1.0", 10)).unwrap();
    }
    pkgs.set_installed(ids[5], v("0.9", 9)).unwrap();
    pkgs.set_dependencies(ids[0], vec![vec![any(ids[1]), any(ids[2])], vec![any(ids[5])]]).unwrap();
    pkgs.set_dependencies(ids[1], vec![vec![any(ids[3])]]).unwrap();
    pkgs.set_dependencies(ids[2], vec![vec![any(ids[4]), any(ids[3])]]).unwrap();
    pkgs.set_dependencies(ids[3], vec![vec![rel(ids[5], VersionRelation::GreaterOrEqual, "1.0", 10)]])
        .unwrap();
    pkgs.set_dependencies(ids[4], vec![vec![any(ids[6])]]).unwrap();
    pkgs.set_dependencies(ids[5], vec![vec![any(ids[3])]]).unwrap();
    (pkgs, ids)
}

#[test]
fn closure_holds_every_first_choice_of_its_members() {
    let (pkgs, ids) = layered();
    let closure = pkgs.transitive_dep_solution("app");
    assert_eq!(closure, vec![ids[1], ids[5], ids[3]]);
    let mut owners = vec![ids[0]];
    owners.extend(closure.iter().copied());
    for owner in owners {
        if let Some(clauses) = pkgs.dependency_clauses(owner) {
            for clause in clauses {
                assert!(closure.contains(&clause[0].package_num));
            }
        }
    }
}

#[test]
fn plan_settles_every_clause_of_its_members() {
    let (pkgs, ids) = layered();
    let plan = pkgs.compute_how_to_install("app");
    // gui and tui tie at the top, so gui, the first, is chosen; the toolkit
    // needs a newer core, which is installed at a wrong version
    assert_eq!(plan, vec![ids[1], ids[3], ids[5]]);
    let mut owners = vec![ids[0]];
    owners.extend(plan.iter().copied());
    for owner in owners {
        if let Some(clauses) = pkgs.dependency_clauses(owner) {
            for clause in clauses {
                if pkgs.dep_is_satisfied(clause).is_none() {
                    let chosen = pkgs.choose_highest(&pkgs.candidates_of(clause)).unwrap();
                    assert!(plan.contains(&chosen));
                }
            }
        }
    }
    let mut seen = plan.clone();
    seen.sort();
    seen.dedup();
    assert_eq!(seen.len(), plan.len());
}

#[test]
fn resolvable_database_has_a_plan_for_every_package() {
    let (mut pkgs, ids) = layered();
    assert!(pkgs.is_resolvable());
    for name in ["app", "gui", "tui", "toolkit", "curses", "core", "extra"] {
        assert!(pkgs.try_compute_how_to_install(name).is_some());
    }
    // one unmet clause with a candidate that is not on offer is enough
    let ghost_pkg = pkgs.get_package_num_inserting("ghost");
    pkgs.set_dependencies(ids[6], vec![vec![any(ids[0]), any(ghost_pkg)]]).unwrap();
    assert!(!pkgs.is_resolvable());
    assert_eq!(pkgs.try_compute_how_to_install("extra"), None);
    // packages that do not come to that clause still have their plan
    assert_eq!(pkgs.try_compute_how_to_install("gui"), Some(vec![ids[3], ids[5]]));
    // a met clause needs no offer
    pkgs.set_installed(ghost_pkg, v("1.0", 10)).unwrap();
    assert!(pkgs.is_resolvable());
    assert_eq!(pkgs.try_compute_how_to_install("extra"), Some(vec![]));
    assert!(Packages::new().is_resolvable());
}
