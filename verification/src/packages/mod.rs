//! The executable package database.
//!
//! [`Packages`] numbers packages in the order in which their names are first
//! seen and keeps four maps keyed by that number. Its invariant is the
//! well-formedness of its view, so whoever holds a `Packages` holds a
//! database without dangling numbers or empty clauses.

use std::collections::HashMap;
use vstd::hash_map::StringHashMap;
use vstd::prelude::*;
use vstd::std_specs::hash::*;
use crate::model::{Alternative, Clause, Registry};
use crate::version::{Version, VersionRelation};

pub mod deps_available;
pub mod parsers;
pub mod solvers;

verus! {

broadcast use vstd::std_specs::hash::group_hash_axioms;

/// One alternative of a dependency clause: a package, and optionally the
/// relation that its installed version must bear to a required version.
#[derive(Debug)]
pub struct RelVersionedPackageNum {
    pub package_num: i32,
    pub rel_version: Option<(VersionRelation, Version)>,
}

impl View for RelVersionedPackageNum {
    type V = Alternative;

    open spec fn view(&self) -> Alternative {
        Alternative {
            package_num: self.package_num,
            rel_version: match self.rel_version {
                Some((rel, required)) => Some((rel, required@)),
                None => None,
            },
        }
    }
}

impl DeepView for RelVersionedPackageNum {
    type V = Alternative;

    open spec fn deep_view(&self) -> Alternative {
        self@
    }
}

/// A dependency clause: alternatives in declared order, any one of which
/// meets the dependency.
pub type Dependency = Vec<RelVersionedPackageNum>;

/// Why a change to the database was turned down.
#[derive(Clone, Copy, Debug, PartialEq, Eq, Structural)]
pub enum RegistryError {
    /// The package number is not that of a known package.
    UnknownPackage,
    /// A clause has no alternative, or an alternative that names no known
    /// package.
    MalformedClause,
}

/// The package database: names, installed and offered versions, declared
/// dependencies and checksums.
pub struct Packages {
    package_name_to_num: StringHashMap<i32>,
    package_num_to_name: Vec<String>,
    available_debvers: HashMap<i32, Version>,
    installed_debvers: HashMap<i32, Version>,
    dependencies: HashMap<i32, Vec<Dependency>>,
    md5sums: HashMap<i32, String>,
}

impl View for Packages {
    type V = Registry;

    closed spec fn view(&self) -> Registry {
        Registry {
            names: self.package_num_to_name@.map_values(|s: String| s@),
            installed: self.installed_debvers@.map_values(|v: Version| v@),
            available: self.available_debvers@.map_values(|v: Version| v@),
            dependencies: self.dependencies@.map_values(
                |cs: Vec<Dependency>| cs.deep_view(),
            ),
            md5sums: self.md5sums@.map_values(|s: String| s@),
        }
    }
}

impl Packages {
    /// The name index agrees with the list of names, both ways.
    pub closed spec fn index_agrees(&self) -> bool {
        &&& forall|i: int|
            0 <= i < self@.names.len() ==> {
                &&& self.package_name_to_num@.contains_key(#[trigger] self@.names[i])
                &&& self.package_name_to_num@[self@.names[i]] == i
            }
        &&& forall|name: Seq<char>| #[trigger]
            self.package_name_to_num@.contains_key(name) ==> {
                &&& 0 <= self.package_name_to_num@[name] < self@.names.len()
                &&& self@.names[self.package_name_to_num@[name] as int] == name
            }
    }

    /// The invariant of the database: its view is well formed and its index
    /// of names is in step. [`Packages::new`] establishes it and every
    /// operation that changes the database keeps it.
    pub open spec fn wf(&self) -> bool {
        &&& self@.wf()
        &&& self.index_agrees()
    }

    /// A database without packages.
    pub fn new() -> (pkgs: Packages)
        ensures
            pkgs.wf(),
            pkgs@ == Registry::empty(),
    {
        let pkgs = Packages {
            package_name_to_num: StringHashMap::new(),
            package_num_to_name: Vec::new(),
            available_debvers: HashMap::new(),
            installed_debvers: HashMap::new(),
            dependencies: HashMap::new(),
            md5sums: HashMap::new(),
        };
        proof {
            assert(pkgs@.names =~= Seq::empty());
            assert(pkgs@.installed =~= Map::empty());
            assert(pkgs@.available =~= Map::empty());
            assert(pkgs@.dependencies =~= Map::empty());
            assert(pkgs@.md5sums =~= Map::empty());
        }
        pkgs
    }

    /// How many packages are known.
    pub fn package_count(&self) -> (n: usize)
        ensures
            n == self@.names.len(),
    {
        self.package_num_to_name.len()
    }

    /// How many packages are installed.
    pub fn installed_count(&self) -> (n: usize)
        requires
            self.wf(),
        ensures
            n == self@.installed.len(),
    {
        proof {
            assert(self@.installed.dom() =~= self.installed_debvers@.dom());
        }
        self.installed_debvers.len()
    }

    /// How many packages are on offer.
    pub fn available_count(&self) -> (n: usize)
        requires
            self.wf(),
        ensures
            n == self@.available.len(),
    {
        proof {
            assert(self@.available.dom() =~= self.available_debvers@.dom());
        }
        self.available_debvers.len()
    }

    /// Whether a package of this name is known.
    pub fn package_exists(&self, package_name: &str) -> (known: bool)
        requires
            self.wf(),
        ensures
            known == self@.has_name(package_name@),
    {
        let known = self.package_name_to_num.contains_key(package_name);
        proof {
            if known {
                let i = self.package_name_to_num@[package_name@] as int;
                assert(self@.names[i] == package_name@);
            }
        }
        known
    }

    /// The number of the package of this name, if it is known.
    pub fn find_package(&self, package_name: &str) -> (found: Option<i32>)
        requires
            self.wf(),
        ensures
            found is Some <==> self@.has_name(package_name@),
            found matches Some(id) ==> id == self@.id_of(package_name@) && self@.registered(id),
    {
        match self.package_name_to_num.get(package_name) {
            Some(num) => {
                proof {
                    let i = *num as int;
                    assert(self@.names[i] == package_name@);
                    let j = self@.names.index_of(package_name@);
                    assert(self@.names[j] == package_name@);
                }
                Some(*num)
            },
            None => None,
        }
    }

    /// The number of a known package.
    pub fn get_package_num(&self, package_name: &str) -> (id: i32)
        requires
            self.wf(),
            self@.has_name(package_name@),
        ensures
            id == self@.id_of(package_name@),
            self@.registered(id),
    {
        match self.find_package(package_name) {
            Some(num) => num,
            None => 0,
        }
    }

    /// The name of a known package.
    pub fn get_package_name(&self, package_num: i32) -> (name: &str)
        requires
            self.wf(),
            self@.registered(package_num),
        ensures
            name@ == self@.names[package_num as int],
    {
        self.package_num_to_name[package_num as usize].as_str()
    }

    /// The number of the package of this name, which is entered under the next
    /// free number where it is not yet known.
    pub fn get_package_num_inserting(&mut self, package_name: &str) -> (id: i32)
        requires
            old(self).wf(),
            old(self)@.has_name(package_name@) || old(self)@.names.len() < i32::MAX,
        ensures
            final(self).wf(),
            old(self)@.has_name(package_name@) ==> *final(self) == *old(self) && id == old(
                self,
            )@.id_of(package_name@),
            !old(self)@.has_name(package_name@) ==> id == old(self)@.names.len() && final(self)@
                == (Registry { names: old(self)@.names.push(package_name@), ..old(self)@ }),
            final(self)@.registered(id),
            final(self)@.names[id as int] == package_name@,
    {
        match self.find_package(package_name) {
            Some(num) => num,
            None => {
                let num = self.package_num_to_name.len() as i32;
                let ghost before = self@;
                self.package_num_to_name.push(package_name.to_owned());
                self.package_name_to_num.insert(package_name.to_owned(), num);
                proof {
                    assert(self@.names =~= before.names.push(package_name@));
                    assert forall|i: int, j: int|
                        0 <= i < self@.names.len() && 0 <= j < self@.names.len() && i != j implies self@.names[i]
                        != self@.names[j] by {
                        if i == num as int {
                            assert(before.names[j] == self@.names[j]);
                        } else if j == num as int {
                            assert(before.names[i] == self@.names[i]);
                        }
                    }
                    assert forall|id: i32| #[trigger]
                        self@.dependencies.contains_key(id) implies self@.registered(id)
                        && self@.clauses_wf(self@.dependencies[id]) by {
                        assert(before.clauses_wf(before.dependencies[id]));
                    }
                }
                num
            },
        }
    }

    /// Records `version` as the installed version of a known package.
    pub fn set_installed(&mut self, package_num: i32, version: Version) -> (done: Result<
        (),
        RegistryError,
    >)
        requires
            old(self).wf(),
        ensures
            final(self).wf(),
            done is Ok <==> old(self)@.registered(package_num),
            done is Ok ==> final(self)@ == (Registry {
                installed: old(self)@.installed.insert(package_num, version@),
                ..old(self)@
            }),
            done is Err ==> *final(self) == *old(self) && done == Err::<(), RegistryError>(
                RegistryError::UnknownPackage,
            ),
    {
        if package_num < 0 || package_num as usize >= self.package_num_to_name.len() {
            return Err(RegistryError::UnknownPackage);
        }
        let ghost before = self@;
        let ghost recorded = version@;
        self.installed_debvers.insert(package_num, version);
        proof {
            assert(self@.installed =~= before.installed.insert(package_num, recorded));
        }
        Ok(())
    }

    /// Records `version` as the version of a known package that is on offer.
    pub fn set_available(&mut self, package_num: i32, version: Version) -> (done: Result<
        (),
        RegistryError,
    >)
        requires
            old(self).wf(),
        ensures
            final(self).wf(),
            done is Ok <==> old(self)@.registered(package_num),
            done is Ok ==> final(self)@ == (Registry {
                available: old(self)@.available.insert(package_num, version@),
                ..old(self)@
            }),
            done is Err ==> *final(self) == *old(self) && done == Err::<(), RegistryError>(
                RegistryError::UnknownPackage,
            ),
    {
        if package_num < 0 || package_num as usize >= self.package_num_to_name.len() {
            return Err(RegistryError::UnknownPackage);
        }
        let ghost before = self@;
        let ghost recorded = version@;
        self.available_debvers.insert(package_num, version);
        proof {
            assert(self@.available =~= before.available.insert(package_num, recorded));
        }
        Ok(())
    }

    /// Records the checksum of a known package.
    pub fn set_md5sum(&mut self, package_num: i32, md5sum: String) -> (done: Result<
        (),
        RegistryError,
    >)
        requires
            old(self).wf(),
        ensures
            final(self).wf(),
            done is Ok <==> old(self)@.registered(package_num),
            done is Ok ==> final(self)@ == (Registry {
                md5sums: old(self)@.md5sums.insert(package_num, md5sum@),
                ..old(self)@
            }),
            done is Err ==> *final(self) == *old(self) && done == Err::<(), RegistryError>(
                RegistryError::UnknownPackage,
            ),
    {
        if package_num < 0 || package_num as usize >= self.package_num_to_name.len() {
            return Err(RegistryError::UnknownPackage);
        }
        let ghost before = self@;
        self.md5sums.insert(package_num, md5sum);
        proof {
            assert(self@.md5sums =~= before.md5sums.insert(package_num, md5sum@));
        }
        Ok(())
    }

    /// Whether a clause is fit to be stored: it has an alternative, and each
    /// of its alternatives names a known package.
    pub fn clause_is_valid(&self, dd: &Dependency) -> (valid: bool)
        requires
            self.wf(),
        ensures
            valid == self@.clause_wf(dd.deep_view()),
    {
        if dd.len() == 0 {
            return false;
        }
        let count = self.package_num_to_name.len();
        let mut k: usize = 0;
        while k < dd.len()
            invariant
                k <= dd.len(),
                count == self@.names.len(),
                forall|m: int| 0 <= m < k ==> self@.registered(#[trigger] dd.deep_view()[m].package_num),
            decreases dd.len() - k,
        {
            let num = dd[k].package_num;
            proof {
                assert(dd.deep_view()[k as int].package_num == num);
            }
            if num < 0 || num as usize >= count {
                proof {
                    assert(!self@.registered(dd.deep_view()[k as int].package_num));
                }
                return false;
            }
            k += 1;
        }
        true
    }

    /// Records the clauses that a known package declares, in place of any
    /// recorded before. A declaration with an empty clause, or with an
    /// alternative that names no known package, is turned down.
    pub fn set_dependencies(&mut self, package_num: i32, deps: Vec<Dependency>) -> (done: Result<
        (),
        RegistryError,
    >)
        requires
            old(self).wf(),
        ensures
            final(self).wf(),
            done is Ok <==> old(self)@.registered(package_num) && old(self)@.clauses_wf(
                deps.deep_view(),
            ),
            done is Ok ==> final(self)@ == (Registry {
                dependencies: old(self)@.dependencies.insert(package_num, deps.deep_view()),
                ..old(self)@
            }),
            done is Err ==> *final(self) == *old(self),
            done == Err::<(), RegistryError>(RegistryError::UnknownPackage) <==> !old(
                self,
            )@.registered(package_num),
    {
        if package_num < 0 || package_num as usize >= self.package_num_to_name.len() {
            return Err(RegistryError::UnknownPackage);
        }
        let mut j: usize = 0;
        while j < deps.len()
            invariant
                j <= deps.len(),
                self.wf(),
                self@.registered(package_num),
                forall|m: int| 0 <= m < j ==> self@.clause_wf(#[trigger] deps.deep_view()[m]),
            decreases deps.len() - j,
        {
            if !self.clause_is_valid(&deps[j]) {
                proof {
                    assert(deps.deep_view()[j as int] == deps@[j as int].deep_view());
                }
                return Err(RegistryError::MalformedClause);
            }
            proof {
                assert(deps.deep_view()[j as int] == deps@[j as int].deep_view());
            }
            j += 1;
        }
        let ghost before = self@;
        let ghost stored = deps.deep_view();
        self.dependencies.insert(package_num, deps);
        proof {
            assert(self@.dependencies =~= before.dependencies.insert(package_num, stored));
            assert forall|id: i32| #[trigger]
                self@.dependencies.contains_key(id) implies self@.registered(id)
                && self@.clauses_wf(self@.dependencies[id]) by {
                if id != package_num {
                    assert(before.dependencies.contains_key(id));
                }
            }
        }
        Ok(())
    }

    /// The installed version of a package, if it has one.
    pub fn installed_version(&self, package_num: i32) -> (version: Option<&Version>)
        requires
            self.wf(),
        ensures
            version is Some <==> self@.installed.contains_key(package_num),
            version matches Some(v) ==> v@ == self@.installed[package_num],
    {
        self.installed_debvers.get(&package_num)
    }

    /// The version of a package that is on offer, if there is one.
    pub fn available_version(&self, package_num: i32) -> (version: Option<&Version>)
        requires
            self.wf(),
        ensures
            version is Some <==> self@.available.contains_key(package_num),
            version matches Some(v) ==> v@ == self@.available[package_num],
    {
        self.available_debvers.get(&package_num)
    }

    /// The installed version of a known package, by its name.
    pub fn get_installed_debver(&self, package_name: &str) -> (version: Option<&Version>)
        requires
            self.wf(),
            self@.has_name(package_name@),
        ensures
            version is Some <==> self@.installed.contains_key(self@.id_of(package_name@)),
            version matches Some(v) ==> v@ == self@.installed[self@.id_of(package_name@)],
    {
        self.installed_version(self.get_package_num(package_name))
    }

    /// The version on offer of a known package, by its name.
    pub fn get_available_debver(&self, package_name: &str) -> (version: Option<&Version>)
        requires
            self.wf(),
            self@.has_name(package_name@),
        ensures
            version is Some <==> self@.available.contains_key(self@.id_of(package_name@)),
            version matches Some(v) ==> v@ == self@.available[self@.id_of(package_name@)],
    {
        self.available_version(self.get_package_num(package_name))
    }

    /// The checksum of a package, if one is recorded.
    pub fn md5sum(&self, package_num: i32) -> (sum: Option<&String>)
        requires
            self.wf(),
        ensures
            sum is Some <==> self@.md5sums.contains_key(package_num),
            sum matches Some(s) ==> s@ == self@.md5sums[package_num],
    {
        self.md5sums.get(&package_num)
    }

    /// The clauses that a package declares, if it declares any.
    pub fn dependency_clauses(&self, package_num: i32) -> (declared: Option<&Vec<Dependency>>)
        requires
            self.wf(),
        ensures
            declared is Some <==> self@.dependencies.contains_key(package_num),
            declared matches Some(cs) ==> cs.deep_view() == self@.clauses(package_num),
            declared is None ==> self@.clauses(package_num) == Seq::<Clause>::empty(),
    {
        self.dependencies.get(&package_num)
    }
}

} // verus!
