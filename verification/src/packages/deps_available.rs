//! Whether a dependency clause is met by what is installed.

use vstd::prelude::*;
use vstd::std_specs::hash::*;
use crate::lemmas::{lemma_id_of_name, lemma_installed_ids_push};
use crate::text::texts;
use crate::model::Clause;
use crate::packages::{Dependency, Packages};
use crate::version::Version;

verus! {

broadcast use vstd::std_specs::hash::group_hash_axioms;

/// How one clause of a package stands: the clause, and the package that
/// meets it with the version at which that package is installed, if any
/// does.
pub struct DependencyStatus<'a> {
    pub clause: &'a Dependency,
    pub satisfied_by: Option<(&'a str, &'a Version)>,
}

impl Packages {
    /// What meets a clause, as [`Packages::deps_available`] reports it.
    pub open spec fn status_matches(
        &self,
        dd: Clause,
        satisfied_by: Option<(&str, &Version)>,
    ) -> bool {
        &&& satisfied_by is Some <==> self@.is_satisfied(dd)
        &&& satisfied_by matches Some((name, version)) ==> exists|i: int| #[trigger]
            self@.met_first_at(dd, i) && name@ == self@.names[dd[i].package_num as int]
                && version@ == self@.installed[dd[i].package_num]
    }

    /// For each clause that a package declares, in declared order, whether it
    /// is met and by which installed package at which version. `None` for an
    /// unknown name.
    pub fn deps_available(&self, package_name: &str) -> (report: Option<Vec<DependencyStatus>>)
        requires
            self.wf(),
        ensures
            report is Some <==> self@.has_name(package_name@),
            report matches Some(lines) ==> {
                let declared = self@.clauses(self@.id_of(package_name@));
                &&& lines@.len() == declared.len()
                &&& forall|j: int|
                    0 <= j < lines@.len() ==> (#[trigger] lines@[j]).clause.deep_view()
                        == declared[j] && self.status_matches(declared[j], lines@[j].satisfied_by)
            },
    {
        let package_num = match self.find_package(package_name) {
            Some(num) => num,
            None => {
                return None;
            },
        };
        let mut lines: Vec<DependencyStatus> = Vec::new();
        if let Some(deps) = self.dependency_clauses(package_num) {
            let ghost declared = self@.clauses(package_num);
            let mut j: usize = 0;
            while j < deps.len()
                invariant
                    j <= deps.len(),
                    self.wf(),
                    deps.deep_view() == declared,
                    lines@.len() == j,
                    forall|m: int|
                        0 <= m < j ==> (#[trigger] lines@[m]).clause.deep_view() == declared[m]
                            && self.status_matches(declared[m], lines@[m].satisfied_by),
                decreases deps.len() - j,
            {
                let dep = &deps[j];
                proof {
                    assert(deps.deep_view()[j as int] == dep.deep_view());
                }
                let satisfied_by = match self.dep_is_satisfied(dep) {
                    None => None,
                    Some(name) => {
                        match self.get_installed_debver(name) {
                            Some(version) => {
                                proof {
                                    let i = choose|i: int| #[trigger]
                                        self@.met_first_at(dep.deep_view(), i) && name@
                                            == self@.names[dep.deep_view()[i].package_num as int];
                                    lemma_id_of_name(self@, dep.deep_view()[i].package_num);
                                }
                                Some((name, version))
                            },
                            None => None,
                        }
                    },
                };
                lines.push(DependencyStatus { clause: dep, satisfied_by });
                j += 1;
            }
        }
        Some(lines)
    }

    /// The package that meets the clause: the first alternative, in declared
    /// order, whose package is installed at a version that the alternative
    /// accepts. An alternative that is installed at a version it does not
    /// accept is passed over, so a later alternative can still meet the
    /// clause. `None` where no alternative is met.
    pub fn dep_is_satisfied(&self, dd: &Dependency) -> (by: Option<&str>)
        requires
            self.wf(),
        ensures
            by is Some <==> self@.is_satisfied(dd.deep_view()),
            by matches Some(name) ==> exists|i: int| #[trigger]
                self@.met_first_at(dd.deep_view(), i) && name@ == self@.names[dd.deep_view()[i].package_num as int],
            by matches Some(name) ==> self@.has_name(name@) && self@.installed.contains_key(
                self@.id_of(name@),
            ),
    {
        let mut i: usize = 0;
        while i < dd.len()
            invariant
                i <= dd.len(),
                self.wf(),
                forall|j: int| 0 <= j < i ==> !self@.alternative_met(#[trigger] dd.deep_view()[j]),
            decreases dd.len() - i,
        {
            let dep = &dd[i];
            if let Some(installed) = self.installed_version(dep.package_num) {
                let accepted = match &dep.rel_version {
                    Some((op, required)) => installed.compare(op, required),
                    None => true,
                };
                if accepted {
                    let name = self.get_package_name(dep.package_num);
                    proof {
                        assert(self@.met_first_at(dd.deep_view(), i as int));
                        assert(self@.names.index_of(name@) == dep.package_num);
                    }
                    return Some(name);
                }
            }
            i += 1;
        }
        None
    }

    /// The packages of the clause that are installed, whatever their version,
    /// by name and in declared order: the ones that are present but not good
    /// enough. To be asked only of a clause that is not met.
    pub fn dep_satisfied_by_wrong_version(&self, dd: &Dependency) -> (present: Vec<&str>)
        requires
            self.wf(),
            !self@.is_satisfied(dd.deep_view()),
        ensures
            texts(present@) == self@.names_of(self@.installed_ids(dd.deep_view())),
    {
        let mut result: Vec<&str> = Vec::new();
        let mut i: usize = 0;
        proof {
            assert(dd.deep_view().take(0) =~= Seq::empty());
            assert(self@.installed_ids(dd.deep_view().take(0)) =~= Seq::empty());
            assert(texts(result@) =~= self@.names_of(self@.installed_ids(dd.deep_view().take(0))));
        }
        while i < dd.len()
            invariant
                i <= dd.len(),
                self.wf(),
                texts(result@) == self@.names_of(self@.installed_ids(dd.deep_view().take(i as int))),
            decreases dd.len() - i,
        {
            let dep = &dd[i];
            proof {
                lemma_installed_ids_push(self@, dd.deep_view().take(i as int), dd.deep_view()[i as int]);
                assert(dd.deep_view().take(i + 1) =~= dd.deep_view().take(i as int).push(dd.deep_view()[i as int]));
            }
            if self.installed_version(dep.package_num).is_some() {
                let ghost before = result@;
                let name = self.get_package_name(dep.package_num);
                result.push(name);
                proof {
                    let ids = self@.installed_ids(dd.deep_view().take(i as int));
                    assert(texts(result@) =~= texts(before).push(name@));
                    assert(self@.names_of(ids.push(dep.package_num)) =~= self@.names_of(ids).push(
                        name@,
                    ));
                }
            }
            i += 1;
        }
        proof {
            assert(dd.deep_view().take(dd.len() as int) =~= dd.deep_view());
        }
        result
    }
}

} // verus!
