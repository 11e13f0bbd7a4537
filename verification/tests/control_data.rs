use depsolver::control::ParseError;
use depsolver::packages::parsers::version_texts;
use depsolver::packages::Packages;
use depsolver::version::{VersionRanks, VersionRelation};

fn lines(text: &[&str]) -> Vec<String> {
    text.iter().map(|line| line.to_string()).collect()
}

/// Ranks in the order that Debian gives these versions.
fn ranks() -> VersionRanks {
    let mut table = VersionRanks::new();
    for (rank, text) in ["1.0-1", "1.0-2", "1.1-1", "1.9-5", "2.0", "2.4", "2:1.0-1"].iter().enumerate() {
        table.insert(text, rank as u64);
    }
    table.insert("0:1.0-1", 0);
    table
}

#[test]
fn ranked_versions_compare_in_rank_order() {
    let table = ranks();
    let a = table.version("1.0-1").unwrap();
    let b = table.version("1.0-2").unwrap();
    let c = table.version("1.1-1").unwrap();
    let old = table.version("1.9-5").unwrap();
    let epoch = table.version("2:1.0-1").unwrap();
    let zero_epoch = table.version("0:1.0-1").unwrap();
    assert!(a.compare(&VersionRelation::StrictlyLess, &b));
    assert!(b.compare(&VersionRelation::StrictlyLess, &c));
    assert!(epoch.compare(&VersionRelation::StrictlyGreater, &old));
    assert!(a.compare(&VersionRelation::Equal, &zero_epoch));
    assert_eq!(a.text, "1.0-1");
    assert!(table.version("not-ranked").is_none());
}

#[test]
fn relation_symbols_are_read_and_written() {
    let all = [
        (VersionRelation::StrictlyLess, "<<"),
        (VersionRelation::LessOrEqual, "<="),
        (VersionRelation::Equal, "="),
        (VersionRelation::GreaterOrEqual, ">="),
        (VersionRelation::StrictlyGreater, ">>"),
    ];
    for (relation, symbol) in all {
        assert_eq!(relation.symbol(), symbol);
        assert_eq!(VersionRelation::from_symbol(symbol), Some(relation));
    }
    assert_eq!(VersionRelation::from_symbol("<"), None);
    assert_eq!(VersionRelation::from_symbol("=="), None);
    assert_eq!(VersionRelation::from_symbol(""), None);
}

#[test]
fn installed_record_is_read() {
    let mut pkgs = Packages::new();
    let data = lines(&[
        "Package: libc6",
        "Status: install ok installed",
        "Version: 2.4  ",
        "",
        "Package: bash",
        "Depends: libc6 (>= 2.0)",
        "Version: 1.0-2",
    ]);
    assert_eq!(pkgs.parse_installed(&data, &ranks()), Ok(()));
    assert_eq!(pkgs.package_count(), 2);
    assert_eq!(pkgs.installed_count(), 2);
    assert_eq!(pkgs.available_count(), 0);
    assert_eq!(pkgs.get_installed_debver("libc6").unwrap().text, "2.4");
    assert_eq!(pkgs.get_installed_debver("libc6").unwrap().rank, 5);
    assert_eq!(pkgs.get_installed_debver("bash").unwrap().text, "1.0-2");
    // the record of what is installed declares no dependencies
    assert!(pkgs.dependency_clauses(pkgs.get_package_num("bash")).is_none());
}

#[test]
fn offered_list_is_read() {
    let mut pkgs = Packages::new();
    let data = lines(&[
        "Package: bash",
        "Version: 1.1-1",
        "MD5sum: 0123abcd ",
        "Depends: libc6 (>= 2.4), dash | zsh (<< 2.0) | fish",
        "Description: a shell",
    ]);
    assert_eq!(pkgs.parse_packages(&data, &ranks()), Ok(()));
    assert_eq!(pkgs.package_count(), 5);
    let bash = pkgs.get_package_num("bash");
    assert_eq!(bash, 0);
    assert_eq!(pkgs.get_package_num("libc6"), 1);
    assert_eq!(pkgs.get_package_num("dash"), 2);
    assert_eq!(pkgs.get_package_num("zsh"), 3);
    assert_eq!(pkgs.get_package_num("fish"), 4);
    assert_eq!(pkgs.get_available_debver("bash").unwrap().text, "1.1-1");
    assert_eq!(pkgs.md5sum(bash).unwrap(), "0123abcd");
    let clauses = pkgs.dependency_clauses(bash).unwrap();
    assert_eq!(clauses.len(), 2);
    assert_eq!(clauses[0].len(), 1);
    assert_eq!(clauses[0][0].package_num, 1);
    let (relation, required) = clauses[0][0].rel_version.as_ref().unwrap();
    assert_eq!(*relation, VersionRelation::GreaterOrEqual);
    assert_eq!(required.text, "2.4");
    assert_eq!(required.rank, 5);
    assert_eq!(clauses[1].len(), 3);
    assert_eq!(clauses[1][0].package_num, 2);
    assert!(clauses[1][0].rel_version.is_none());
    assert_eq!(clauses[1][1].package_num, 3);
    let (relation, required) = clauses[1][1].rel_version.as_ref().unwrap();
    assert_eq!(*relation, VersionRelation::StrictlyLess);
    assert_eq!(required.text, "2.0");
    assert_eq!(clauses[1][2].package_num, 4);
}

#[test]
fn lines_without_a_field_say_nothing() {
    let mut pkgs = Packages::new();
    let data = lines(&["", "no field here", " continuation", "Package:", "Package:x"]);
    assert_eq!(pkgs.parse_packages(&data, &ranks()), Ok(()));
    assert_eq!(pkgs.package_count(), 0);
}

#[test]
fn field_before_any_package_is_dropped() {
    let mut pkgs = Packages::new();
    let data = lines(&["Version: 2.0", "MD5sum: abc", "Package: a"]);
    assert_eq!(pkgs.parse_packages(&data, &ranks()), Ok(()));
    assert_eq!(pkgs.package_count(), 1);
    assert_eq!(pkgs.available_count(), 0);
    assert!(pkgs.md5sum(0).is_none());
}

#[test]
fn text_that_is_no_version_is_an_error() {
    let mut pkgs = Packages::new();
    let data = lines(&["Package: a", "Version: 7.7"]);
    assert_eq!(pkgs.parse_packages(&data, &ranks()), Err(ParseError::MalformedVersion));
    assert_eq!(pkgs.parse_installed(&data, &ranks()), Err(ParseError::MalformedVersion));
    let data = lines(&["Package: b", "Depends: c (>= 7.7)"]);
    assert_eq!(pkgs.parse_packages(&data, &ranks()), Err(ParseError::MalformedVersion));
    // what was read before the error stays
    assert!(pkgs.package_exists("a"));
    assert!(pkgs.package_exists("c"));
}

#[test]
fn unknown_relation_is_an_error() {
    let mut pkgs = Packages::new();
    let data = lines(&["Package: a", "Depends: b (<> 2.0)"]);
    assert_eq!(pkgs.parse_packages(&data, &ranks()), Err(ParseError::MalformedConstraint));
    let data = lines(&["Package: a", "Depends: b (> 2.0)"]);
    assert_eq!(pkgs.parse_packages(&data, &ranks()), Err(ParseError::MalformedConstraint));
}

#[test]
fn clause_without_alternative_is_an_error() {
    let mut pkgs = Packages::new();
    let data = lines(&["Package: a", "Depends: b, , c"]);
    assert_eq!(pkgs.parse_packages(&data, &ranks()), Err(ParseError::EmptyClause));
    let mut pkgs = Packages::new();
    let data = lines(&["Package: a", "Depends: b,"]);
    assert_eq!(pkgs.parse_packages(&data, &ranks()), Err(ParseError::EmptyClause));
}

#[test]
fn empty_alternative_is_passed_over() {
    let mut pkgs = Packages::new();
    let data = lines(&["Package: a", "Depends: b | | c"]);
    assert_eq!(pkgs.parse_packages(&data, &ranks()), Ok(()));
    let clauses = pkgs.dependency_clauses(0).unwrap();
    assert_eq!(clauses.len(), 1);
    assert_eq!(clauses[0].len(), 2);
}

#[test]
fn version_texts_are_collected_in_order() {
    let data = lines(&[
        "Package: bash",
        "Version:  1.1-1 ",
        "Depends: libc6 (>= 2.4), dash | zsh (<< 2.0) | fish",
        "MD5sum: 1.0-1",
        "Package: dash",
        "Version: 1.0-2",
    ]);
    assert_eq!(
        version_texts(&data),
        Ok(vec!["1.1-1".to_string(), "2.4".to_string(), "2.0".to_string(), "1.0-2".to_string()])
    );
    assert_eq!(version_texts(&Vec::new()), Ok(Vec::<String>::new()));
}

#[test]
fn a_table_of_the_collected_texts_is_enough() {
    let data = lines(&[
        "Package: a",
        "Version: 5.5",
        "Depends: b (= 6.6) | c, d (<< 0.1)",
    ]);
    let mut table = VersionRanks::new();
    for (rank, text) in version_texts(&data).unwrap().iter().enumerate() {
        table.insert(text, rank as u64);
    }
    let mut pkgs = Packages::new();
    assert_eq!(pkgs.parse_packages(&data, &table), Ok(()));
    assert_eq!(pkgs.parse_installed(&data, &table), Ok(()));
}

#[test]
fn both_files_together_give_a_plan() {
    let installed = lines(&["Package: B", "Version: 1.0-1"]);
    let offered = lines(&[
        "Package: A",
        "Version: 1.0-1",
        "Depends: B (>= 2.0) | C",
        "Package: B",
        "Version: 2.0",
        "Depends: D",
        "Package: C",
        "Version: 1.0-1",
        "Package: D",
        "Version: 1.1-1",
    ]);
    let mut pkgs = Packages::new();
    assert_eq!(pkgs.parse_installed(&installed, &ranks()), Ok(()));
    assert_eq!(pkgs.parse_packages(&offered, &ranks()), Ok(()));
    let b = pkgs.get_package_num("B");
    let d = pkgs.get_package_num("D");
    assert_eq!(b, 0);
    let clause = &pkgs.dependency_clauses(pkgs.get_package_num("A")).unwrap()[0];
    assert_eq!(pkgs.dep_is_satisfied(clause), None);
    assert_eq!(pkgs.dep_satisfied_by_wrong_version(clause), vec!["B"]);
    assert_eq!(pkgs.compute_how_to_install("A"), vec![b, d]);
    assert_eq!(pkgs.transitive_dep_solution("A"), vec![b, d]);
}

#[test]
fn white_space_around_a_version_is_dropped() {
    let mut pkgs = Packages::new();
    let data = lines(&[
        "Package: a",
        "Version: \t 1.0-2\u{a0}\u{3000}",
        "Package: b",
        "Version: 1.1-1\r",
        "MD5sum:   00ff \u{2003}",
    ]);
    assert_eq!(pkgs.parse_packages(&data, &ranks()), Ok(()));
    assert_eq!(pkgs.get_available_debver("a").unwrap().text, "1.0-2");
    assert_eq!(pkgs.get_available_debver("b").unwrap().text, "1.1-1");
    assert_eq!(pkgs.md5sum(1).unwrap(), "00ff");
    assert_eq!(
        version_texts(&data),
        Ok(vec!["1.0-2".to_string(), "1.1-1".to_string()])
    );
}

#[test]
fn white_space_inside_a_version_stays() {
    let mut pkgs = Packages::new();
    let data = lines(&["Package: a", "Version: 1.0 -2"]);
    assert_eq!(version_texts(&data), Ok(vec!["1.0 -2".to_string()]));
    assert_eq!(pkgs.parse_packages(&data, &ranks()), Err(ParseError::MalformedVersion));
}

#[test]
fn separators_at_the_ends_leave_empty_pieces() {
    // a bar at either end leaves an empty alternative, which is passed over
    let mut pkgs = Packages::new();
    let data = lines(&["Package: a", "Depends: | b |"]);
    assert_eq!(pkgs.parse_packages(&data, &ranks()), Ok(()));
    assert_eq!(pkgs.dependency_clauses(0).unwrap()[0].len(), 1);
    // a comma at the front leaves an empty clause, which is an error
    let mut pkgs = Packages::new();
    let data = lines(&["Package: a", "Depends: ,b"]);
    assert_eq!(pkgs.parse_packages(&data, &ranks()), Err(ParseError::EmptyClause));
}

#[test]
fn later_declaration_replaces_earlier() {
    let mut pkgs = Packages::new();
    let data = lines(&[
        "Package: a",
        "Version: 1.0-1",
        "Depends: b",
        "Package: a",
        "Version: 1.0-2",
        "Depends: c, d",
    ]);
    assert_eq!(pkgs.parse_packages(&data, &ranks()), Ok(()));
    assert_eq!(pkgs.package_count(), 4);
    assert_eq!(pkgs.get_available_debver("a").unwrap().text, "1.0-2");
    assert_eq!(pkgs.transitive_dep_solution("a"), vec![2, 3]);
}

#[test]
fn reading_goes_on_from_what_is_known() {
    let mut pkgs = Packages::new();
    assert_eq!(pkgs.parse_installed(&lines(&["Package: x", "Version: 2.0"]), &ranks()), Ok(()));
    // a field before any package of the second file is about package number 0
    assert_eq!(pkgs.parse_packages(&lines(&["Version: 2.4", "Package: y"]), &ranks()), Ok(()));
    assert_eq!(pkgs.get_installed_debver("x").unwrap().text, "2.0");
    assert_eq!(pkgs.get_available_debver("x").unwrap().text, "2.4");
    assert!(pkgs.get_available_debver("y").is_none());
}

#[test]
fn ascending_versions_are_ranked_in_order() {
    let texts: Vec<String> =
        ["1.0-1", "0:1.0-1", "1.0-2", "1.1-1", "1.9-5", "2:1.0-1"].iter().map(|t| t.to_string()).collect();
    let same_as_previous = vec![false, true, false, false, false, false];
    let table = VersionRanks::from_ascending(&texts, &same_as_previous).unwrap();
    assert_eq!(table.version("1.0-1").unwrap().rank, 0);
    assert_eq!(table.version("0:1.0-1").unwrap().rank, 0);
    assert_eq!(table.version("1.0-2").unwrap().rank, 1);
    assert_eq!(table.version("1.1-1").unwrap().rank, 2);
    assert_eq!(table.version("1.9-5").unwrap().rank, 3);
    assert_eq!(table.version("2:1.0-1").unwrap().rank, 4);
    assert!(table.version("3.0").is_none());
    // the mark of the first version plays no part
    let table = VersionRanks::from_ascending(&texts[..2].to_vec(), &vec![true, false]).unwrap();
    assert_eq!(table.version("1.0-1").unwrap().rank, 0);
    assert_eq!(table.version("0:1.0-1").unwrap().rank, 1);
    assert!(VersionRanks::from_ascending(&texts, &vec![false]).is_none());
    assert!(VersionRanks::from_ascending(&Vec::new(), &Vec::new()).unwrap().version("1.0-1").is_none());
}
