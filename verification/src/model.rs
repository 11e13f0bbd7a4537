//! The mathematical model of a package database and of the three questions
//! the resolver answers about it.
//!
//! Everything here is specification: sequences, maps and functions over
//! them. The executable database in [`crate::packages`] has a [`Registry`] as
//! its view, and every executable operation is stated against the functions of
//! this module.

use vstd::prelude::*;
use crate::lemmas::{
    lemma_absorb, lemma_best_member, lemma_first_choices_registered, lemma_unseen_push,
};
use crate::version::{relation_holds, VersionRelation, VersionView};

verus! {

/// One alternative of a dependency clause: a package, and optionally the
/// relation that its installed version must bear to a required version.
pub struct Alternative {
    pub package_num: i32,
    pub rel_version: Option<(VersionRelation, VersionView)>,
}

/// A dependency clause: alternatives in declared order, any one of which
/// meets the dependency.
pub type Clause = Seq<Alternative>;

/// The package database as a mathematical value.
///
/// A package's number is its index in `names`. The four maps are partial: a
/// package without an entry in `installed` is not installed, one without an
/// entry in `available` is not on offer, one without an entry in
/// `dependencies` declares none.
pub struct Registry {
    pub names: Seq<Seq<char>>,
    pub installed: Map<i32, VersionView>,
    pub available: Map<i32, VersionView>,
    pub dependencies: Map<i32, Seq<Clause>>,
    pub md5sums: Map<i32, Seq<char>>,
}

/// The package numbers that a clause names, in declared order.
pub open spec fn clause_ids(dd: Clause) -> Seq<i32> {
    dd.map_values(|alt: Alternative| alt.package_num)
}

/// `work` with each of `ids` appended that it does not hold yet, in order.
pub open spec fn absorb(work: Seq<i32>, ids: Seq<i32>) -> Seq<i32>
    decreases ids.len(),
{
    if ids.len() == 0 {
        work
    } else {
        let sofar = absorb(work, ids.drop_last());
        if sofar.contains(ids.last()) {
            sofar
        } else {
            sofar.push(ids.last())
        }
    }
}

impl Registry {
    /// The database without any package.
    pub open spec fn empty() -> Registry {
        Registry {
            names: Seq::empty(),
            installed: Map::empty(),
            available: Map::empty(),
            dependencies: Map::empty(),
            md5sums: Map::empty(),
        }
    }

    /// Whether `id` is the number of a known package.
    pub open spec fn registered(self, id: i32) -> bool {
        0 <= id < self.names.len()
    }

    /// Whether a package of this name is known.
    pub open spec fn has_name(self, name: Seq<char>) -> bool {
        self.names.contains(name)
    }

    /// The number of the package called `name`; meaningful where it exists.
    pub open spec fn id_of(self, name: Seq<char>) -> i32 {
        self.names.index_of(name) as i32
    }

    /// The clauses that `id` declares; none where it declares none.
    pub open spec fn clauses(self, id: i32) -> Seq<Clause> {
        if self.dependencies.contains_key(id) {
            self.dependencies[id]
        } else {
            Seq::empty()
        }
    }

    /// Every alternative of every clause in `cs` names a known package, and no
    /// clause is empty.
    pub open spec fn clauses_wf(self, cs: Seq<Clause>) -> bool {
        forall|j: int| 0 <= j < cs.len() ==> self.clause_wf(#[trigger] cs[j])
    }

    /// A clause that may stand in the database: not empty, and naming known
    /// packages only.
    pub open spec fn clause_wf(self, dd: Clause) -> bool {
        &&& dd.len() > 0
        &&& forall|k: int| 0 <= k < dd.len() ==> self.registered(#[trigger] dd[k].package_num)
    }

    /// The invariant of a database: names are unique and few enough to be
    /// numbered, no map speaks of an unknown package, and every stored clause
    /// is well formed.
    pub open spec fn wf(self) -> bool {
        &&& self.names.no_duplicates()
        &&& self.names.len() <= i32::MAX
        &&& forall|id: i32| #[trigger] self.installed.contains_key(id) ==> self.registered(id)
        &&& forall|id: i32| #[trigger] self.available.contains_key(id) ==> self.registered(id)
        &&& forall|id: i32| #[trigger] self.md5sums.contains_key(id) ==> self.registered(id)
        &&& forall|id: i32| #[trigger]
            self.dependencies.contains_key(id) ==> self.registered(id) && self.clauses_wf(
                self.dependencies[id],
            )
    }

    /// The names of the given packages, one for one.
    pub open spec fn names_of(self, ids: Seq<i32>) -> Seq<Seq<char>> {
        ids.map_values(|id: i32| self.names[id as int])
    }

    /// Whether one alternative is met by what is installed: its package is
    /// installed and, where a relation is demanded, the installed version
    /// stands in that relation to the required one.
    pub open spec fn alternative_met(self, alt: Alternative) -> bool {
        &&& self.installed.contains_key(alt.package_num)
        &&& match alt.rel_version {
            None => true,
            Some((rel, required)) => relation_holds(
                rel,
                self.installed[alt.package_num].rank,
                required.rank,
            ),
        }
    }

    /// Whether some alternative of the clause is met.
    pub open spec fn is_satisfied(self, dd: Clause) -> bool {
        exists|i: int| 0 <= i < dd.len() && self.alternative_met(#[trigger] dd[i])
    }

    /// Whether alternative `i` is the first of the clause that is met.
    pub open spec fn met_first_at(self, dd: Clause, i: int) -> bool {
        &&& 0 <= i < dd.len()
        &&& self.alternative_met(dd[i])
        &&& forall|j: int| 0 <= j < i ==> !self.alternative_met(#[trigger] dd[j])
    }

    /// The packages of the clause that are installed, whatever their version,
    /// in declared order.
    pub open spec fn installed_ids(self, dd: Clause) -> Seq<i32> {
        clause_ids(dd).filter(|id: i32| self.installed.contains_key(id))
    }

    /// The packages among which an unmet clause is resolved: the installed
    /// ones where there are any, else all that the clause names.
    pub open spec fn candidates(self, dd: Clause) -> Seq<i32> {
        if self.installed_ids(dd).len() > 0 {
            self.installed_ids(dd)
        } else {
            clause_ids(dd)
        }
    }

    /// Whether every one of `ids` is on offer.
    pub open spec fn all_offered(self, ids: Seq<i32>) -> bool {
        forall|i: int| 0 <= i < ids.len() ==> self.available.contains_key(#[trigger] ids[i])
    }

    /// The rank of the version of `id` that is on offer.
    pub open spec fn offered_rank(self, id: i32) -> u64 {
        self.available[id].rank
    }

    /// The candidate with the highest version on offer. The first candidate is
    /// the running choice, and a later one replaces it only where its version
    /// is strictly greater, so the earliest of several highest wins.
    pub open spec fn best(self, ids: Seq<i32>) -> i32
        decreases ids.len(),
    {
        if ids.len() <= 1 {
            ids[0]
        } else {
            let running = self.best(ids.drop_last());
            if self.offered_rank(ids.last()) > self.offered_rank(running) {
                ids.last()
            } else {
                running
            }
        }
    }

    /// Whether position `k` holds the earliest of the candidates with the
    /// highest version on offer.
    pub open spec fn highest_first_at(self, ids: Seq<i32>, k: int) -> bool {
        &&& 0 <= k < ids.len()
        &&& forall|i: int|
            0 <= i < ids.len() ==> self.offered_rank(#[trigger] ids[i]) <= self.offered_rank(ids[k])
        &&& forall|i: int|
            0 <= i < k ==> self.offered_rank(#[trigger] ids[i]) < self.offered_rank(ids[k])
    }

    /// The numbers of the known packages.
    pub open spec fn universe(self) -> Set<i32> {
        Set::new(|id: i32| self.registered(id))
    }

    /// How many known packages are not among `seen`.
    pub open spec fn unseen(self, seen: Seq<i32>) -> nat {
        self.universe().difference(seen.to_set()).len()
    }

    /// The first alternative of each clause that `id` declares, in declared
    /// order.
    pub open spec fn first_choices(self, id: i32) -> Seq<i32> {
        self.clauses(id).map_values(|c: Clause| c[0].package_num)
    }

    /// The scan that builds the closure. `work` holds the packages found so
    /// far, each once, and `i` is the next of them to look at: its first
    /// choices are appended where they are new, and the scan moves on. It ends
    /// when it has looked at every package it found.
    pub open spec fn closure_scan(self, work: Seq<i32>, i: nat) -> Seq<i32>
        decreases self.unseen(work), work.len() - i,
        when self.wf()
        via Self::closure_scan_decreases
    {
        if i >= work.len() {
            work
        } else {
            self.closure_scan(absorb(work, self.first_choices(work[i as int])), i + 1)
        }
    }

    #[via_fn]
    proof fn closure_scan_decreases(self, work: Seq<i32>, i: nat) {
        if i < work.len() {
            lemma_first_choices_registered(self, work[i as int]);
            lemma_absorb(self, work, self.first_choices(work[i as int]));
        }
    }

    /// The closure of the dependencies of `id` over first alternatives: what
    /// installing `id` would pull in if every clause were met by its first
    /// alternative and nothing were installed yet. Packages stand in the order
    /// in which the scan finds them, each once.
    pub open spec fn closure(self, id: i32) -> Seq<i32> {
        self.closure_scan(absorb(Seq::empty(), self.first_choices(id)), 0)
    }

    /// The closure for a package given by name; empty for an unknown name.
    pub open spec fn closure_for_name(self, name: Seq<char>) -> Seq<i32> {
        if self.has_name(name) {
            self.closure(self.id_of(name))
        } else {
            Seq::empty()
        }
    }

    /// The planner's work list. `queue` holds the clauses still to be looked
    /// at, `out` the packages planned so far. The clause at the front is
    /// dropped where it is met. Where it is not, the best of its candidates is
    /// planned, unless it is planned already, and the clauses of a newly
    /// planned package join the back of the queue. A package's clauses are
    /// queued when it is planned and not again: looking at them a second time
    /// would choose the same packages, all planned by then.
    ///
    /// There is no plan (`None`) where an unmet clause is empty or has a
    /// candidate that is not on offer.
    pub open spec fn plan_from(self, queue: Seq<Clause>, out: Seq<i32>) -> Option<Seq<i32>>
        decreases self.unseen(out), queue.len(),
        when self.wf()
        via Self::plan_from_decreases
    {
        if queue.len() == 0 {
            Some(out)
        } else {
            let front = queue.first();
            let rest = queue.drop_first();
            if self.is_satisfied(front) {
                self.plan_from(rest, out)
            } else if front.len() == 0 || !self.all_offered(self.candidates(front)) {
                None
            } else {
                let chosen = self.best(self.candidates(front));
                if out.contains(chosen) {
                    self.plan_from(rest, out)
                } else {
                    self.plan_from(rest + self.clauses(chosen), out.push(chosen))
                }
            }
        }
    }

    #[via_fn]
    proof fn plan_from_decreases(self, queue: Seq<Clause>, out: Seq<i32>) {
        if queue.len() > 0 {
            let front = queue.first();
            if !self.is_satisfied(front) && front.len() > 0 && self.all_offered(
                self.candidates(front),
            ) {
                let chosen = self.best(self.candidates(front));
                lemma_best_member(self, front);
                if !out.contains(chosen) {
                    lemma_unseen_push(self, out, chosen);
                }
            }
        }
    }

    /// Whether a clause asks for nothing more, given what is planned: it is
    /// met, or the package that would be chosen for it is planned.
    pub open spec fn resolved(self, dd: Clause, out: Seq<i32>) -> bool {
        self.is_satisfied(dd) || (dd.len() > 0 && self.all_offered(self.candidates(dd))
            && out.contains(self.best(self.candidates(dd))))
    }

    /// Whether the planner can deal with a clause: it is met, or all its
    /// candidates are on offer.
    pub open spec fn clause_resolvable(self, dd: Clause) -> bool {
        self.is_satisfied(dd) || self.all_offered(self.candidates(dd))
    }

    /// Whether the planner can deal with every clause of the database.
    pub open spec fn resolvable(self) -> bool {
        forall|id: i32, m: int|
            0 <= m < self.clauses(id).len() ==> self.clause_resolvable(
                #[trigger] self.clauses(id)[m],
            )
    }

    /// What to install so that the dependencies of `id` can be met, in the
    /// order in which the planner decides on it.
    pub open spec fn plan(self, id: i32) -> Option<Seq<i32>> {
        self.plan_from(self.clauses(id), Seq::empty())
    }

    /// The plan for a package given by name; the empty plan for an unknown
    /// name.
    pub open spec fn plan_for_name(self, name: Seq<char>) -> Option<Seq<i32>> {
        if self.has_name(name) {
            self.plan(self.id_of(name))
        } else {
            Some(Seq::empty())
        }
    }
}

} // verus!
