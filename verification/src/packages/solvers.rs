//! The closure of a package's dependencies and the plan of what to install.

use std::collections::VecDeque;
use vstd::prelude::*;
use crate::laws::{
    law_closure_is_known, law_closure_no_duplicates, law_plan_is_on_offer, law_plan_no_duplicates,
};
use crate::lemmas::{
    lemma_absorb, lemma_best_member, lemma_first_choices_registered, lemma_id_of_name,
    lemma_installed_ids_members, lemma_unseen_push,
};
use crate::model::{absorb, clause_ids, Clause};
use crate::packages::{Dependency, Packages};
use crate::text::texts;
use crate::version::VersionRelation;

verus! {

/// A queue of clauses as specifications see it.
pub open spec fn queued(queue: Seq<&Dependency>) -> Seq<Clause> {
    queue.map_values(|d: &Dependency| d.deep_view())
}

/// Whether `id` stands in `ids`.
fn contains_id(ids: &Vec<i32>, id: i32) -> (found: bool)
    ensures
        found == ids@.contains(id),
{
    let mut k: usize = 0;
    while k < ids.len()
        invariant
            k <= ids.len(),
            forall|m: int| 0 <= m < k ==> ids@[m] != id,
        decreases ids.len() - k,
    {
        if ids[k] == id {
            return true;
        }
        k += 1;
    }
    false
}

/// The package numbers that a clause names, in declared order.
fn alternative_numbers(dd: &Dependency) -> (ids: Vec<i32>)
    ensures
        ids@ == clause_ids(dd.deep_view()),
{
    let mut ids: Vec<i32> = Vec::new();
    let mut k: usize = 0;
    while k < dd.len()
        invariant
            k <= dd.len(),
            ids@.len() == k,
            forall|m: int| 0 <= m < k ==> ids@[m] == dd.deep_view()[m].package_num,
        decreases dd.len() - k,
    {
        ids.push(dd[k].package_num);
        k += 1;
    }
    proof {
        assert(ids@ =~= clause_ids(dd.deep_view()));
    }
    ids
}

impl Packages {
    /// Appends to `work` the first choice of each clause of `package_num`
    /// that `work` does not hold yet.
    fn absorb_first_choices(&self, package_num: i32, work: &mut Vec<i32>)
        requires
            self.wf(),
        ensures
            final(work)@ == absorb(old(work)@, self@.first_choices(package_num)),
    {
        let ghost start = work@;
        let ghost choices = self@.first_choices(package_num);
        if let Some(deps) = self.dependency_clauses(package_num) {
            let mut j: usize = 0;
            proof {
                assert(choices.take(0) =~= Seq::empty());
            }
            while j < deps.len()
                invariant
                    j <= deps.len(),
                    self.wf(),
                    self@.dependencies.contains_key(package_num),
                    deps.deep_view() == self@.clauses(package_num),
                    choices == self@.first_choices(package_num),
                    work@ == absorb(start, choices.take(j as int)),
                decreases deps.len() - j,
            {
                proof {
                    assert(self@.clause_wf(self@.dependencies[package_num][j as int]));
                    assert(deps.deep_view()[j as int] == deps@[j as int].deep_view());
                    assert(choices.take(j + 1).drop_last() =~= choices.take(j as int));
                    assert(choices.take(j + 1).last() == choices[j as int]);
                }
                let dep_num = deps[j][0].package_num;
                if !contains_id(work, dep_num) {
                    work.push(dep_num);
                }
                j += 1;
            }
            proof {
                assert(choices.take(deps.len() as int) =~= choices);
            }
        }
    }

    /// The closure of the dependencies of a package over first alternatives:
    /// where a clause offers a choice, its first alternative is followed.
    /// What is installed plays no part. The packages are numbered in the
    /// order in which they are found, each once; for an unknown name there are
    /// none.
    pub fn transitive_dep_solution(&self, package_name: &str) -> (closure: Vec<i32>)
        requires
            self.wf(),
        ensures
            closure@ == self@.closure_for_name(package_name@),
            closure@.no_duplicates(),
            forall|k: int| 0 <= k < closure@.len() ==> self@.registered(#[trigger] closure@[k]),
    {
        let root = match self.find_package(package_name) {
            Some(num) => num,
            None => {
                return Vec::new();
            },
        };
        let mut dependency_set: Vec<i32> = Vec::new();
        self.absorb_first_choices(root, &mut dependency_set);
        let mut i: usize = 0;
        while i < dependency_set.len()
            invariant
                self.wf(),
                self@.closure_scan(dependency_set@, i as nat) == self@.closure(root),
            decreases self@.unseen(dependency_set@), dependency_set.len() - i,
        {
            let pkg_num = dependency_set[i];
            proof {
                lemma_first_choices_registered(self@, pkg_num);
                lemma_absorb(self@, dependency_set@, self@.first_choices(pkg_num));
            }
            self.absorb_first_choices(pkg_num, &mut dependency_set);
            i = i + 1;
        }
        proof {
            law_closure_no_duplicates(self@, root);
            law_closure_is_known(self@, root);
        }
        dependency_set
    }

    /// The numbers of known packages given by name, one for one.
    fn numbers_of(&self, names: &Vec<&str>) -> (ids: Vec<i32>)
        requires
            self.wf(),
            forall|k: int| 0 <= k < names@.len() ==> self@.has_name(#[trigger] names@[k]@),
        ensures
            ids@.len() == names@.len(),
            forall|k: int| 0 <= k < ids@.len() ==> ids@[k] == self@.id_of(#[trigger] names@[k]@),
    {
        let mut ids: Vec<i32> = Vec::new();
        let mut k: usize = 0;
        while k < names.len()
            invariant
                k <= names.len(),
                self.wf(),
                ids@.len() == k,
                forall|m: int| 0 <= m < names@.len() ==> self@.has_name(#[trigger] names@[m]@),
                forall|m: int| 0 <= m < k ==> ids@[m] == self@.id_of(#[trigger] names@[m]@),
            decreases names.len() - k,
        {
            ids.push(self.get_package_num(names[k]));
            k += 1;
        }
        ids
    }

    /// The candidate with the highest version on offer, the earliest of them
    /// where several share it. `None` where there is no candidate, or one
    /// that is not on offer.
    pub fn choose_highest(&self, candidates: &Vec<i32>) -> (chosen: Option<i32>)
        requires
            self.wf(),
        ensures
            chosen is Some <==> candidates@.len() > 0 && self@.all_offered(candidates@),
            chosen matches Some(id) ==> id == self@.best(candidates@),
    {
        if candidates.len() == 0 {
            return None;
        }
        let mut dep_to_add = candidates[0];
        let mut max = match self.available_version(dep_to_add) {
            Some(version) => version,
            None => {
                return None;
            },
        };
        let mut k: usize = 1;
        proof {
            assert(candidates@.take(1).len() == 1);
        }
        while k < candidates.len()
            invariant
                1 <= k <= candidates.len(),
                self.wf(),
                dep_to_add == self@.best(candidates@.take(k as int)),
                self@.available.contains_key(dep_to_add),
                max@ == self@.available[dep_to_add],
                forall|m: int| 0 <= m < k ==> self@.available.contains_key(#[trigger] candidates@[m]),
            decreases candidates.len() - k,
        {
            proof {
                assert(candidates@.take(k + 1).drop_last() =~= candidates@.take(k as int));
                assert(candidates@.take(k + 1).last() == candidates@[k as int]);
            }
            match self.available_version(candidates[k]) {
                None => {
                    return None;
                },
                Some(version) => {
                    if version.compare(&VersionRelation::StrictlyGreater, max) {
                        max = version;
                        dep_to_add = candidates[k];
                    }
                },
            }
            k += 1;
        }
        proof {
            assert(candidates@.take(candidates.len() as int) =~= candidates@);
        }
        Some(dep_to_add)
    }

    /// The packages among which an unmet clause is resolved: those of its
    /// alternatives that are installed, at a wrong version, where there are
    /// any; else all its alternatives.
    pub fn candidates_of(&self, dd: &Dependency) -> (ids: Vec<i32>)
        requires
            self.wf(),
            !self@.is_satisfied(dd.deep_view()),
        ensures
            ids@ == self@.candidates(dd.deep_view()),
    {
        let wrong_ver_deps = self.dep_satisfied_by_wrong_version(dd);
        proof {
            let present = self@.installed_ids(dd.deep_view());
            lemma_installed_ids_members(self@, dd.deep_view());
            assert(texts(wrong_ver_deps@).len() == wrong_ver_deps@.len());
            assert(self@.names_of(present).len() == present.len());
            assert forall|k: int| 0 <= k < wrong_ver_deps@.len() implies self@.has_name(
                #[trigger] wrong_ver_deps@[k]@,
            ) && self@.id_of(wrong_ver_deps@[k]@) == present[k] by {
                assert(texts(wrong_ver_deps@)[k] == wrong_ver_deps@[k]@);
                assert(self@.names_of(present)[k] == self@.names[present[k] as int]);
                lemma_id_of_name(self@, present[k]);
            }
        }
        if wrong_ver_deps.len() != 0 {
            let ids = self.numbers_of(&wrong_ver_deps);
            proof {
                let present = self@.installed_ids(dd.deep_view());
                assert(ids@.len() == present.len());
                assert forall|k: int| 0 <= k < ids@.len() implies ids@[k] == present[k] by {
                    assert(ids@[k] == self@.id_of(wrong_ver_deps@[k]@));
                }
                assert(ids@ =~= present);
            }
            ids
        } else {
            alternative_numbers(dd)
        }
    }

    /// Whether the planner can deal with every clause of the database: each
    /// is met, or all its candidates are on offer. On such a database there
    /// is a plan for every package.
    pub fn is_resolvable(&self) -> (ok: bool)
        requires
            self.wf(),
        ensures
            ok == self@.resolvable(),
    {
        let count = self.package_count();
        let mut num: usize = 0;
        while num < count
            invariant
                num <= count,
                count == self@.names.len(),
                self.wf(),
                forall|id: i32, m: int|
                    0 <= id < num && 0 <= m < self@.clauses(id).len() ==> self@.clause_resolvable(
                        #[trigger] self@.clauses(id)[m],
                    ),
            decreases count - num,
        {
            let id = num as i32;
            if let Some(deps) = self.dependency_clauses(id) {
                let mut j: usize = 0;
                while j < deps.len()
                    invariant
                        j <= deps.len(),
                        self.wf(),
                        self@.dependencies.contains_key(id),
                        deps.deep_view() == self@.clauses(id),
                        forall|m: int|
                            0 <= m < j ==> self@.clause_resolvable(#[trigger] self@.clauses(id)[m]),
                    decreases deps.len() - j,
                {
                    let dep = &deps[j];
                    proof {
                        assert(deps.deep_view()[j as int] == dep.deep_view());
                    }
                    if self.dep_is_satisfied(dep).is_none() {
                        let candidates = self.candidates_of(dep);
                        if self.choose_highest(&candidates).is_none() {
                            proof {
                                assert(self@.dependencies.contains_key(id));
                                assert(self@.clause_wf(self@.dependencies[id][j as int]));
                                assert(clause_ids(dep.deep_view()).len() == dep.deep_view().len());
                                assert(!self@.clause_resolvable(self@.clauses(id)[j as int]));
                            }
                            return false;
                        }
                    }
                    j += 1;
                }
            }
            num += 1;
        }
        proof {
            assert forall|id: i32, m: int| 0 <= m < self@.clauses(id).len() implies self@.clause_resolvable(
                #[trigger] self@.clauses(id)[m],
            ) by {
                assert(self@.dependencies.contains_key(id));
                assert(self@.registered(id));
            }
        }
        true
    }

    /// Puts the clauses that `package_num` declares at the back of the queue.
    fn enqueue_clauses<'a>(&'a self, package_num: i32, queue: &mut VecDeque<&'a Dependency>)
        requires
            self.wf(),
        ensures
            queued(final(queue)@) == queued(old(queue)@) + self@.clauses(package_num),
    {
        let ghost start = queued(queue@);
        let ghost declared = self@.clauses(package_num);
        match self.dependency_clauses(package_num) {
            Some(deps) => {
                let mut j: usize = 0;
                proof {
                    assert(queued(queue@) =~= start + declared.take(0));
                }
                while j < deps.len()
                    invariant
                        j <= deps.len(),
                        deps.deep_view() == declared,
                        queued(queue@) == start + declared.take(j as int),
                    decreases deps.len() - j,
                {
                    let ghost before = queue@;
                    queue.push_back(&deps[j]);
                    proof {
                        assert(deps.deep_view()[j as int] == deps@[j as int].deep_view());
                        assert(queued(queue@) =~= queued(before).push(deps@[j as int].deep_view()));
                        assert(start + declared.take(j + 1) =~= (start + declared.take(
                            j as int,
                        )).push(declared[j as int]));
                    }
                    j += 1;
                }
                proof {
                    assert(declared.take(deps.len() as int) =~= declared);
                }
            },
            None => {
                proof {
                    assert(start + declared =~= start);
                }
            },
        }
    }

    /// What to install so that the dependencies of a package can be met,
    /// given what is installed now.
    ///
    /// The clauses of the package are looked at in turn. One that is met asks
    /// for nothing. For one that is not, a package is chosen: among its
    /// alternatives that are installed at a wrong version where there are
    /// any, else among all its alternatives, the one with the highest version
    /// on offer, the earliest of them where several share it. A package chosen
    /// for the first time joins the plan, and its own clauses are looked at
    /// after those already waiting.
    ///
    /// `None` where the planner comes to an unmet clause that is empty or has
    /// a candidate that is not on offer. For an unknown name the plan is
    /// empty.
    pub fn try_compute_how_to_install(&self, package_name: &str) -> (plan: Option<Vec<i32>>)
        requires
            self.wf(),
        ensures
            plan is Some <==> self@.plan_for_name(package_name@) is Some,
            plan matches Some(ids) ==> self@.plan_for_name(package_name@) == Some(ids@),
            plan matches Some(ids) ==> ids@.no_duplicates(),
            plan matches Some(ids) ==> forall|k: int|
                0 <= k < ids@.len() ==> self@.registered(#[trigger] ids@[k])
                    && self@.available.contains_key(ids@[k]),
    {
        let root = match self.find_package(package_name) {
            Some(num) => num,
            None => {
                return Some(Vec::new());
            },
        };
        let mut dependencies_to_add: Vec<i32> = Vec::new();
        let mut dependency_queue: VecDeque<&Dependency> = VecDeque::new();
        proof {
            assert(queued(dependency_queue@) =~= Seq::empty());
        }
        self.enqueue_clauses(root, &mut dependency_queue);
        proof {
            assert(queued(dependency_queue@) =~= self@.clauses(root));
        }
        while dependency_queue.len() > 0
            invariant
                self.wf(),
                self@.plan_for_name(package_name@) == self@.plan(root),
                self@.plan_from(queued(dependency_queue@), dependencies_to_add@) == self@.plan(
                    root,
                ),
            decreases self@.unseen(dependencies_to_add@), dependency_queue.len(),
        {
            let ghost waiting = dependency_queue@;
            let pkgs = match dependency_queue.pop_front() {
                Some(front) => front,
                None => {
                    return None;
                },
            };
            proof {
                assert(queued(waiting).first() == pkgs.deep_view());
                assert(queued(dependency_queue@) =~= queued(waiting).drop_first());
            }
            if self.dep_is_satisfied(pkgs).is_some() {
                continue;
            }
            let candidates = self.candidates_of(pkgs);
            match self.choose_highest(&candidates) {
                None => {
                    proof {
                        assert(clause_ids(pkgs.deep_view()).len() == pkgs.deep_view().len());
                        assert(self@.plan_from(queued(waiting), dependencies_to_add@) is None);
                    }
                    return None;
                },
                Some(dep_to_add) => {
                    proof {
                        assert(clause_ids(pkgs.deep_view()).len() == pkgs.deep_view().len());
                        lemma_best_member(self@, pkgs.deep_view());
                    }
                    if !contains_id(&dependencies_to_add, dep_to_add) {
                        proof {
                            lemma_unseen_push(self@, dependencies_to_add@, dep_to_add);
                        }
                        dependencies_to_add.push(dep_to_add);
                        self.enqueue_clauses(dep_to_add, &mut dependency_queue);
                    }
                },
            }
        }
        proof {
            law_plan_no_duplicates(self@, root);
            law_plan_is_on_offer(self@, root);
        }
        Some(dependencies_to_add)
    }

    /// What to install so that the dependencies of a package can be met,
    /// where the planner is known to come to a plan, as it does on every
    /// database that [`Packages::is_resolvable`] accepts.
    pub fn compute_how_to_install(&self, package_name: &str) -> (plan: Vec<i32>)
        requires
            self.wf(),
            self@.plan_for_name(package_name@) is Some,
        ensures
            self@.plan_for_name(package_name@) == Some(plan@),
            plan@.no_duplicates(),
            forall|k: int|
                0 <= k < plan@.len() ==> self@.registered(#[trigger] plan@[k])
                    && self@.available.contains_key(plan@[k]),
    {
        match self.try_compute_how_to_install(package_name) {
            Some(ids) => ids,
            None => Vec::new(),
        }
    }
}

} // verus!
