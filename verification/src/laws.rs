//! What holds of the resolver on every database.
//!
//! Each law is a proof over the model of [`crate::model`]; since every
//! executable operation is stated against that model, each holds of what the
//! operations return.

use vstd::prelude::*;
use crate::lemmas::{
    lemma_absorb, lemma_absorb_no_duplicates, lemma_best_member, lemma_first_choices_registered,
    lemma_installed_ids_members, lemma_unseen_push,
};
use crate::model::{absorb, clause_ids, Clause, Registry};
use crate::version::relation_holds;

verus! {

/// A package that declares no dependencies has an empty closure and an empty
/// plan.
pub proof fn law_no_dependencies(reg: Registry, id: i32)
    requires
        reg.wf(),
        reg.clauses(id).len() == 0,
    ensures
        reg.closure(id) == Seq::<i32>::empty(),
        reg.plan(id) == Some(Seq::<i32>::empty()),
{
    assert(reg.first_choices(id).len() == 0);
    assert(absorb(Seq::empty(), reg.first_choices(id)) == Seq::<i32>::empty());
}

/// For a name that the database does not know, the closure is empty and so is
/// the plan.
pub proof fn law_unknown_name(reg: Registry, name: Seq<char>)
    requires
        !reg.has_name(name),
    ensures
        reg.closure_for_name(name) == Seq::<i32>::empty(),
        reg.plan_for_name(name) == Some(Seq::<i32>::empty()),
{
}

/// A clause that names unknown packages only is not met, and none of its
/// packages is installed at a wrong version.
pub proof fn law_unknown_alternatives(reg: Registry, dd: Clause)
    requires
        reg.wf(),
        forall|k: int| 0 <= k < dd.len() ==> !reg.registered(#[trigger] dd[k].package_num),
    ensures
        !reg.is_satisfied(dd),
        reg.installed_ids(dd) == Seq::<i32>::empty(),
{
    lemma_installed_ids_members(reg, dd);
    let present = reg.installed_ids(dd);
    if present.len() > 0 {
        let id = present[0];
        assert(reg.installed.contains_key(id));
        assert(clause_ids(dd).contains(id));
        let k = choose|k: int| 0 <= k < clause_ids(dd).len() && clause_ids(dd)[k] == id;
        assert(dd[k].package_num == id);
    }
    assert(present =~= Seq::empty());
}

/// The alternative that meets a clause is installed, and where it demands a
/// relation, the installed version stands in that relation to the required
/// one.
pub proof fn law_met_alternative(reg: Registry, dd: Clause, i: int)
    requires
        reg.met_first_at(dd, i),
    ensures
        reg.is_satisfied(dd),
        reg.installed.contains_key(dd[i].package_num),
        dd[i].rel_version matches Some((rel, required)) ==> relation_holds(
            rel,
            reg.installed[dd[i].package_num].rank,
            required.rank,
        ),
{
}

/// A clause is met by at most one first alternative.
pub proof fn law_first_met_is_unique(reg: Registry, dd: Clause, i: int, j: int)
    requires
        reg.met_first_at(dd, i),
        reg.met_first_at(dd, j),
    ensures
        i == j,
{
}

/// The packages installed at a wrong version are asked for only of a clause
/// that is not met; of such a clause, every one of them is installed and fails
/// the relation that its alternative demands.
pub proof fn law_wrong_version_fails_relation(reg: Registry, dd: Clause, k: int)
    requires
        !reg.is_satisfied(dd),
        0 <= k < dd.len(),
        reg.installed.contains_key(dd[k].package_num),
    ensures
        dd[k].rel_version matches Some((rel, required)) && !relation_holds(
            rel,
            reg.installed[dd[k].package_num].rank,
            required.rank,
        ),
{
    assert(!reg.alternative_met(dd[k]));
}

/// The chosen candidate has the highest version on offer, and is the earliest
/// candidate that has it.
pub proof fn law_best_is_earliest_highest(reg: Registry, ids: Seq<i32>) -> (k: int)
    requires
        ids.len() > 0,
    ensures
        reg.highest_first_at(ids, k),
        reg.best(ids) == ids[k],
    decreases ids.len(),
{
    if ids.len() == 1 {
        0
    } else {
        let front = ids.drop_last();
        let running = law_best_is_earliest_highest(reg, front);
        assert(forall|i: int| 0 <= i < front.len() ==> front[i] == ids[i]);
        if reg.offered_rank(ids.last()) > reg.offered_rank(reg.best(front)) {
            let k = ids.len() - 1;
            assert forall|i: int| 0 <= i < k implies reg.offered_rank(#[trigger] ids[i])
                < reg.offered_rank(ids[k]) by {
                assert(reg.offered_rank(front[i]) <= reg.offered_rank(front[running]));
            }
            k
        } else {
            assert forall|i: int| 0 <= i < ids.len() implies reg.offered_rank(#[trigger] ids[i])
                <= reg.offered_rank(ids[running]) by {
                if i < front.len() {
                    assert(reg.offered_rank(front[i]) <= reg.offered_rank(front[running]));
                }
            }
            assert forall|i: int| 0 <= i < running implies reg.offered_rank(#[trigger] ids[i])
                < reg.offered_rank(ids[running]) by {
                assert(reg.offered_rank(front[i]) < reg.offered_rank(front[running]));
            }
            running
        }
    }
}

/// Of two candidates whose versions on offer are equal, the first is chosen.
pub proof fn law_tie_goes_to_first(reg: Registry, first: i32, second: i32)
    requires
        reg.offered_rank(first) == reg.offered_rank(second),
    ensures
        reg.best(seq![first, second]) == first,
{
    let ids = seq![first, second];
    assert(ids.drop_last() =~= seq![first]);
    assert(reg.best(seq![first]) == first);
    assert(ids.last() == second);
}

/// Where neither of a clause's two alternatives is installed and their
/// versions on offer are equal, the planner decides for the first.
pub proof fn law_planner_prefers_first_of_equals(
    reg: Registry,
    dd: Clause,
    rest: Seq<Clause>,
    out: Seq<i32>,
)
    requires
        reg.wf(),
        dd.len() == 2,
        !reg.installed.contains_key(dd[0].package_num),
        !reg.installed.contains_key(dd[1].package_num),
        reg.available.contains_key(dd[0].package_num),
        reg.available.contains_key(dd[1].package_num),
        reg.offered_rank(dd[0].package_num) == reg.offered_rank(dd[1].package_num),
    ensures
        !reg.is_satisfied(dd),
        reg.best(reg.candidates(dd)) == dd[0].package_num,
        reg.plan_from(seq![dd] + rest, out) == if out.contains(dd[0].package_num) {
            reg.plan_from(rest, out)
        } else {
            reg.plan_from(rest + reg.clauses(dd[0].package_num), out.push(dd[0].package_num))
        },
{
    lemma_installed_ids_members(reg, dd);
    let present = reg.installed_ids(dd);
    if present.len() > 0 {
        let id = present[0];
        let k = choose|k: int| 0 <= k < clause_ids(dd).len() && clause_ids(dd)[k] == id;
        assert(dd[k].package_num == id);
    }
    assert(clause_ids(dd) =~= seq![dd[0].package_num, dd[1].package_num]);
    law_tie_goes_to_first(reg, dd[0].package_num, dd[1].package_num);
    let queue = seq![dd] + rest;
    assert(queue.first() == dd);
    assert(queue.drop_first() =~= rest);
    assert(reg.all_offered(reg.candidates(dd)));
}

/// The planner's work list never lets a package stand twice.
pub proof fn lemma_plan_from_no_duplicates(reg: Registry, queue: Seq<Clause>, out: Seq<i32>)
    requires
        reg.wf(),
        out.no_duplicates(),
    ensures
        reg.plan_from(queue, out) matches Some(ids) ==> ids.no_duplicates() && out.is_prefix_of(
            ids,
        ),
    decreases reg.unseen(out), queue.len(),
{
    if queue.len() > 0 {
        let front = queue.first();
        let rest = queue.drop_first();
        if reg.is_satisfied(front) {
            lemma_plan_from_no_duplicates(reg, rest, out);
        } else if front.len() == 0 || !reg.all_offered(reg.candidates(front)) {
        } else {
            let chosen = reg.best(reg.candidates(front));
            if out.contains(chosen) {
                lemma_plan_from_no_duplicates(reg, rest, out);
            } else {
                lemma_best_member(reg, front);
                lemma_unseen_push(reg, out, chosen);
                lemma_plan_from_no_duplicates(reg, rest + reg.clauses(chosen), out.push(chosen));
            }
        }
    }
}

/// Every package of a plan stands in it exactly once.
pub proof fn law_plan_no_duplicates(reg: Registry, id: i32)
    requires
        reg.wf(),
    ensures
        reg.plan(id) matches Some(ids) ==> ids.no_duplicates(),
{
    lemma_plan_from_no_duplicates(reg, reg.clauses(id), Seq::empty());
}

/// The scan that builds the closure never lets a package stand twice, and
/// keeps what it has found.
pub proof fn lemma_closure_scan_no_duplicates(reg: Registry, work: Seq<i32>, i: nat)
    requires
        reg.wf(),
        work.no_duplicates(),
    ensures
        reg.closure_scan(work, i).no_duplicates(),
        work.is_prefix_of(reg.closure_scan(work, i)),
    decreases reg.unseen(work), work.len() - i,
{
    if i < work.len() {
        let next = absorb(work, reg.first_choices(work[i as int]));
        lemma_first_choices_registered(reg, work[i as int]);
        lemma_absorb(reg, work, reg.first_choices(work[i as int]));
        lemma_absorb_no_duplicates(work, reg.first_choices(work[i as int]));
        lemma_closure_scan_no_duplicates(reg, next, i + 1);
    }
}

/// Every package of a closure stands in it exactly once.
pub proof fn law_closure_no_duplicates(reg: Registry, id: i32)
    requires
        reg.wf(),
    ensures
        reg.closure(id).no_duplicates(),
{
    let seeds = absorb(Seq::empty(), reg.first_choices(id));
    lemma_absorb_no_duplicates(Seq::empty(), reg.first_choices(id));
    lemma_closure_scan_no_duplicates(reg, seeds, 0);
}

/// Clauses that are met ask for nothing: the work list passes over them.
pub proof fn lemma_met_clauses_plan_nothing(reg: Registry, queue: Seq<Clause>, out: Seq<i32>)
    requires
        reg.wf(),
        forall|j: int| 0 <= j < queue.len() ==> reg.is_satisfied(#[trigger] queue[j]),
    ensures
        reg.plan_from(queue, out) == Some(out),
    decreases queue.len(),
{
    if queue.len() > 0 {
        let rest = queue.drop_first();
        assert(reg.is_satisfied(queue[0]));
        assert forall|j: int| 0 <= j < rest.len() implies reg.is_satisfied(#[trigger] rest[j]) by {
            assert(rest[j] == queue[j + 1]);
        }
        lemma_met_clauses_plan_nothing(reg, rest, out);
    }
}

/// The closure does not look at what is installed, the plan does: for a
/// package whose clauses are all met, the plan is empty, while the closure
/// holds the first alternative of its first clause.
pub proof fn law_met_clauses_plan_nothing(reg: Registry, id: i32)
    requires
        reg.wf(),
        reg.clauses(id).len() > 0,
        forall|j: int| 0 <= j < reg.clauses(id).len() ==> reg.is_satisfied(#[trigger] reg.clauses(id)[j]),
    ensures
        reg.plan(id) == Some(Seq::<i32>::empty()),
        reg.closure(id).len() > 0,
        reg.closure(id)[0] == reg.clauses(id)[0][0].package_num,
{
    lemma_met_clauses_plan_nothing(reg, reg.clauses(id), Seq::empty());
    let choices = reg.first_choices(id);
    let seeds = absorb(Seq::empty(), choices);
    lemma_first_choices_registered(reg, id);
    lemma_absorb_first(choices);
    lemma_absorb_no_duplicates(Seq::empty(), choices);
    lemma_closure_scan_no_duplicates(reg, seeds, 0);
}

/// Absorbing into an empty list puts the first of the packages first.
pub proof fn lemma_absorb_first(ids: Seq<i32>)
    requires
        ids.len() > 0,
    ensures
        absorb(Seq::empty(), ids).len() > 0,
        absorb(Seq::empty(), ids)[0] == ids[0],
    decreases ids.len(),
{
    if ids.len() > 1 {
        lemma_absorb_first(ids.drop_last());
    } else {
        assert(ids.drop_last().len() == 0);
        assert(absorb(Seq::empty(), ids.drop_last()) == Seq::<i32>::empty());
    }
}

/// Absorbing adds exactly the packages given: what the list holds afterwards
/// is what it held before and what was given.
pub proof fn lemma_absorb_members(work: Seq<i32>, ids: Seq<i32>)
    ensures
        forall|x: i32| #[trigger]
            absorb(work, ids).contains(x) <==> work.contains(x) || ids.contains(x),
        work.is_prefix_of(absorb(work, ids)),
    decreases ids.len(),
{
    if ids.len() > 0 {
        let front = ids.drop_last();
        let sofar = absorb(work, front);
        lemma_absorb_members(work, front);
        assert forall|x: i32| #[trigger]
            absorb(work, ids).contains(x) <==> work.contains(x) || ids.contains(x) by {
            if ids.contains(x) {
                let k = choose|k: int| 0 <= k < ids.len() && ids[k] == x;
                if k < front.len() {
                    assert(front[k] == x);
                    assert(sofar.contains(x));
                }
            }
            if front.contains(x) {
                let k = choose|k: int| 0 <= k < front.len() && front[k] == x;
                assert(ids[k] == x);
            }
            if sofar.contains(x) && !sofar.contains(ids.last()) {
                let k = choose|k: int| 0 <= k < sofar.len() && sofar[k] == x;
                assert(sofar.push(ids.last())[k] == x);
            }
            if !sofar.contains(ids.last()) {
                assert(sofar.push(ids.last())[sofar.len() as int] == ids.last());
            }
            assert(ids[ids.len() - 1] == ids.last());
        }
    }
}

/// Whether the package at position `k` of `all` is a first choice of a
/// package that stands before it, at position `from` or later.
pub open spec fn found_through(reg: Registry, all: Seq<i32>, from: int, k: int) -> bool {
    exists|j: int| from <= j < k && #[trigger] reg.first_choices(all[j]).contains(all[k])
}

/// What the scan returns holds the first choices of every package it looked
/// at, and each package it added is a first choice of a package that stands
/// before it.
pub proof fn lemma_closure_scan_closed(reg: Registry, work: Seq<i32>, i: nat)
    requires
        reg.wf(),
    ensures
        work.is_prefix_of(reg.closure_scan(work, i)),
        forall|k: int, m: int|
            i <= k < reg.closure_scan(work, i).len() && 0 <= m < reg.first_choices(
                reg.closure_scan(work, i)[k],
            ).len() ==> reg.closure_scan(work, i).contains(
                #[trigger] reg.first_choices(reg.closure_scan(work, i)[k])[m],
            ),
        forall|k: int|
            work.len() <= k < reg.closure_scan(work, i).len() ==> #[trigger] found_through(
                reg,
                reg.closure_scan(work, i),
                i as int,
                k,
            ),
    decreases reg.unseen(work), work.len() - i,
{
    if i < work.len() {
        let choices = reg.first_choices(work[i as int]);
        let next = absorb(work, choices);
        let all = reg.closure_scan(work, i);
        lemma_first_choices_registered(reg, work[i as int]);
        lemma_absorb(reg, work, choices);
        lemma_absorb_members(work, choices);
        lemma_closure_scan_closed(reg, next, i + 1);
        assert(all == reg.closure_scan(next, i + 1));
        assert(all[i as int] == work[i as int]);
        assert forall|k: int, m: int|
            i <= k < all.len() && 0 <= m < reg.first_choices(all[k]).len() implies all.contains(
            #[trigger] reg.first_choices(all[k])[m],
        ) by {
            if k == i {
                let x = choices[m];
                assert(choices.contains(x));
                assert(next.contains(x));
                let at = choose|at: int| 0 <= at < next.len() && next[at] == x;
                assert(all[at] == x);
            }
        }
        assert forall|k: int| work.len() <= k < all.len() implies #[trigger] found_through(
            reg,
            all,
            i as int,
            k,
        ) by {
            if k < next.len() {
                assert(next[k] == all[k]);
                assert(next.contains(all[k]));
                if work.contains(all[k]) {
                    let at = choose|at: int| 0 <= at < work.len() && work[at] == all[k];
                    lemma_absorb_no_duplicates_from(work, choices, at, k);
                }
                assert(reg.first_choices(all[i as int]).contains(all[k]));
            } else {
                assert(found_through(reg, all, (i + 1) as int, k));
                let j = choose|j: int|
                    i + 1 <= j < k && #[trigger] reg.first_choices(all[j]).contains(all[k]);
                assert(i <= j < k);
            }
        }
    }
}

/// A package that absorbing appended was not in the list before.
pub proof fn lemma_absorb_no_duplicates_from(work: Seq<i32>, ids: Seq<i32>, at: int, k: int)
    requires
        0 <= at < work.len(),
        work.len() <= k < absorb(work, ids).len(),
    ensures
        absorb(work, ids)[k] != work[at],
    decreases ids.len(),
{
    if ids.len() > 0 {
        let sofar = absorb(work, ids.drop_last());
        lemma_absorb_members(work, ids.drop_last());
        if k < sofar.len() {
            lemma_absorb_no_duplicates_from(work, ids.drop_last(), at, k);
        } else {
            assert(sofar[at] == work[at]);
        }
    }
}

/// The closure holds the first alternative of every clause of the package it
/// is taken of and of every package it holds, and nothing else: each of its
/// packages is such a first alternative, of the package itself or of a
/// package that stands earlier in the closure.
pub proof fn law_closure_is_closed(reg: Registry, id: i32)
    requires
        reg.wf(),
    ensures
        forall|m: int|
            0 <= m < reg.first_choices(id).len() ==> reg.closure(id).contains(
                #[trigger] reg.first_choices(id)[m],
            ),
        forall|k: int, m: int|
            0 <= k < reg.closure(id).len() && 0 <= m < reg.first_choices(reg.closure(id)[k]).len()
                ==> reg.closure(id).contains(#[trigger] reg.first_choices(reg.closure(id)[k])[m]),
        forall|k: int|
            0 <= k < reg.closure(id).len() ==> reg.first_choices(id).contains(
                #[trigger] reg.closure(id)[k],
            ) || found_through(reg, reg.closure(id), 0, k),
{
    let seeds = absorb(Seq::empty(), reg.first_choices(id));
    let all = reg.closure(id);
    lemma_absorb_members(Seq::empty(), reg.first_choices(id));
    lemma_closure_scan_closed(reg, seeds, 0);
    assert forall|m: int| 0 <= m < reg.first_choices(id).len() implies all.contains(
        #[trigger] reg.first_choices(id)[m],
    ) by {
        let x = reg.first_choices(id)[m];
        assert(reg.first_choices(id).contains(x));
        assert(seeds.contains(x));
        let at = choose|at: int| 0 <= at < seeds.len() && seeds[at] == x;
        assert(all[at] == x);
    }
    assert forall|k: int| 0 <= k < all.len() implies reg.first_choices(id).contains(
        #[trigger] all[k],
    ) || found_through(reg, all, 0, k) by {
        if k < seeds.len() {
            assert(seeds[k] == all[k]);
            assert(seeds.contains(all[k]));
        } else {
            assert(found_through(reg, all, 0, k));
        }
    }
}

/// Whether `dd` is an unmet clause for which the planner chooses `id`.
pub open spec fn asks_for(reg: Registry, dd: Clause, id: i32) -> bool {
    &&& !reg.is_satisfied(dd)
    &&& dd.len() > 0
    &&& reg.all_offered(reg.candidates(dd))
    &&& reg.best(reg.candidates(dd)) == id
}

/// Whether the package at position `k` of `ids` was asked for by a clause of
/// `queue`, or by a clause of a package that stands before it in `ids`, at
/// position `from` or later.
pub open spec fn planned_through(
    reg: Registry,
    queue: Seq<Clause>,
    ids: Seq<i32>,
    from: int,
    k: int,
) -> bool {
    ||| exists|q: int| 0 <= q < queue.len() && asks_for(reg, #[trigger] queue[q], ids[k])
    ||| exists|j: int, m: int|
        from <= j < k && 0 <= m < reg.clauses(ids[j]).len() && asks_for(
            reg,
            #[trigger] reg.clauses(ids[j])[m],
            ids[k],
        )
}

/// What the work list returns settles every clause it was given and every
/// clause of every package it planned, and each package it planned was asked
/// for by a clause it was given or by a clause of a package planned before.
pub proof fn lemma_plan_from_closed(reg: Registry, queue: Seq<Clause>, out: Seq<i32>)
    requires
        reg.wf(),
    ensures
        reg.plan_from(queue, out) matches Some(ids) ==> {
            &&& out.is_prefix_of(ids)
            &&& forall|q: int| 0 <= q < queue.len() ==> reg.resolved(#[trigger] queue[q], ids)
            &&& forall|k: int, m: int|
                out.len() <= k < ids.len() && 0 <= m < reg.clauses(ids[k]).len() ==> reg.resolved(
                    #[trigger] reg.clauses(ids[k])[m],
                    ids,
                )
            &&& forall|k: int|
                out.len() <= k < ids.len() ==> #[trigger] planned_through(
                    reg,
                    queue,
                    ids,
                    out.len() as int,
                    k,
                )
        },
    decreases reg.unseen(out), queue.len(),
{
    if queue.len() > 0 {
        let front = queue.first();
        let rest = queue.drop_first();
        if reg.is_satisfied(front) {
            lemma_plan_from_closed(reg, rest, out);
            if let Some(ids) = reg.plan_from(queue, out) {
                assert forall|q: int| 0 <= q < queue.len() implies reg.resolved(
                    #[trigger] queue[q],
                    ids,
                ) by {
                    if q > 0 {
                        assert(queue[q] == rest[q - 1]);
                    }
                }
                assert forall|k: int| out.len() <= k < ids.len() implies #[trigger] planned_through(
                        reg,
                        queue,
                        ids,
                        out.len() as int,
                        k,
                    ) by {
                    assert(planned_through(reg, rest, ids, out.len() as int, k));
                    if exists|q: int| 0 <= q < rest.len() && asks_for(reg, #[trigger] rest[q], ids[k]) {
                        let q = choose|q: int|
                            0 <= q < rest.len() && asks_for(reg, #[trigger] rest[q], ids[k]);
                        assert(queue[q + 1] == rest[q]);
                    }
                }
            }
        } else if front.len() == 0 || !reg.all_offered(reg.candidates(front)) {
        } else {
            let chosen = reg.best(reg.candidates(front));
            if out.contains(chosen) {
                lemma_plan_from_closed(reg, rest, out);
                if let Some(ids) = reg.plan_from(queue, out) {
                    let at = choose|at: int| 0 <= at < out.len() && out[at] == chosen;
                    assert(out.len() <= ids.len());
                    assert(ids[at] == chosen);
                    assert forall|q: int| 0 <= q < queue.len() implies reg.resolved(
                        #[trigger] queue[q],
                        ids,
                    ) by {
                        if q > 0 {
                            assert(queue[q] == rest[q - 1]);
                        }
                    }
                    assert forall|k: int| out.len() <= k < ids.len() implies #[trigger] planned_through(
                        reg,
                        queue,
                        ids,
                        out.len() as int,
                        k,
                    ) by {
                        assert(planned_through(reg, rest, ids, out.len() as int, k));
                        if exists|q: int|
                            0 <= q < rest.len() && asks_for(reg, #[trigger] rest[q], ids[k]) {
                            let q = choose|q: int|
                                0 <= q < rest.len() && asks_for(reg, #[trigger] rest[q], ids[k]);
                            assert(queue[q + 1] == rest[q]);
                        }
                    }
                }
            } else {
                let declared = reg.clauses(chosen);
                let longer = rest + declared;
                let more = out.push(chosen);
                lemma_best_member(reg, front);
                lemma_unseen_push(reg, out, chosen);
                lemma_plan_from_closed(reg, longer, more);
                if let Some(ids) = reg.plan_from(queue, out) {
                    assert(more.len() <= ids.len());
                    assert(ids[out.len() as int] == more[out.len() as int]);
                    assert(ids[out.len() as int] == chosen);
                    assert(out.is_prefix_of(ids)) by {
                        assert forall|x: int| 0 <= x < out.len() implies out[x] == ids[x] by {
                            assert(more[x] == out[x]);
                        }
                    }
                    assert forall|q: int| 0 <= q < queue.len() implies reg.resolved(
                        #[trigger] queue[q],
                        ids,
                    ) by {
                        if q > 0 {
                            assert(queue[q] == longer[q - 1]);
                        }
                    }
                    assert forall|k: int, m: int|
                        out.len() <= k < ids.len() && 0 <= m < reg.clauses(
                            ids[k],
                        ).len() implies reg.resolved(#[trigger] reg.clauses(ids[k])[m], ids) by {
                        if k == out.len() {
                            assert(declared[m] == longer[rest.len() + m]);
                        }
                    }
                    assert forall|k: int| out.len() <= k < ids.len() implies #[trigger] planned_through(
                        reg,
                        queue,
                        ids,
                        out.len() as int,
                        k,
                    ) by {
                        if k == out.len() {
                            assert(asks_for(reg, queue[0], ids[k]));
                        } else {
                            assert(planned_through(reg, longer, ids, more.len() as int, k));
                            if exists|q: int|
                                0 <= q < longer.len() && asks_for(reg, #[trigger] longer[q], ids[k]) {
                                let q = choose|q: int|
                                    0 <= q < longer.len() && asks_for(
                                        reg,
                                        #[trigger] longer[q],
                                        ids[k],
                                    );
                                if q < rest.len() {
                                    assert(queue[q + 1] == longer[q]);
                                } else {
                                    let m = q - rest.len();
                                    assert(reg.clauses(ids[out.len() as int])[m] == longer[q]);
                                }
                            } else {
                                let (j, m) = choose|j: int, m: int|
                                    more.len() <= j < k && 0 <= m < reg.clauses(ids[j]).len()
                                        && asks_for(reg, #[trigger] reg.clauses(ids[j])[m], ids[k]);
                                assert(out.len() <= j < k);
                            }
                        }
                    }
                }
            }
        }
    }
}

/// A plan settles every clause of the package it is made for and of every
/// package it holds: each such clause is met, or the package chosen for it is
/// in the plan. And a plan holds nothing else: each of its packages was chosen
/// for an unmet clause of the package itself or of a package that stands
/// earlier in the plan.
pub proof fn law_plan_is_closed(reg: Registry, id: i32)
    requires
        reg.wf(),
    ensures
        reg.plan(id) matches Some(ids) ==> {
            &&& forall|m: int|
                0 <= m < reg.clauses(id).len() ==> reg.resolved(#[trigger] reg.clauses(id)[m], ids)
            &&& forall|k: int, m: int|
                0 <= k < ids.len() && 0 <= m < reg.clauses(ids[k]).len() ==> reg.resolved(
                    #[trigger] reg.clauses(ids[k])[m],
                    ids,
                )
            &&& forall|k: int|
                0 <= k < ids.len() ==> #[trigger] planned_through(reg, reg.clauses(id), ids, 0, k)
        },
{
    lemma_plan_from_closed(reg, reg.clauses(id), Seq::empty());
}

/// On a database that it can deal with, the work list comes to a plan.
pub proof fn lemma_plan_from_exists(reg: Registry, queue: Seq<Clause>, out: Seq<i32>)
    requires
        reg.wf(),
        reg.resolvable(),
        forall|q: int|
            0 <= q < queue.len() ==> (#[trigger] queue[q]).len() > 0 && (reg.is_satisfied(queue[q])
                || reg.all_offered(reg.candidates(queue[q]))),
    ensures
        reg.plan_from(queue, out) is Some,
    decreases reg.unseen(out), queue.len(),
{
    if queue.len() > 0 {
        let front = queue.first();
        let rest = queue.drop_first();
        assert(front == queue[0]);
        assert forall|q: int| 0 <= q < rest.len() implies (#[trigger] rest[q]).len() > 0 && (
        reg.is_satisfied(rest[q]) || reg.all_offered(reg.candidates(rest[q]))) by {
            assert(rest[q] == queue[q + 1]);
        }
        if reg.is_satisfied(front) {
            lemma_plan_from_exists(reg, rest, out);
        } else {
            let chosen = reg.best(reg.candidates(front));
            if out.contains(chosen) {
                lemma_plan_from_exists(reg, rest, out);
            } else {
                let declared = reg.clauses(chosen);
                let longer = rest + declared;
                lemma_best_member(reg, front);
                lemma_unseen_push(reg, out, chosen);
                assert forall|q: int| 0 <= q < longer.len() implies (#[trigger] longer[q]).len() > 0
                    && (reg.is_satisfied(longer[q]) || reg.all_offered(
                    reg.candidates(longer[q]),
                )) by {
                    if q < rest.len() {
                        assert(longer[q] == rest[q]);
                    } else {
                        let m = q - rest.len();
                        assert(longer[q] == reg.clauses(chosen)[m]);
                        assert(reg.dependencies.contains_key(chosen));
                        assert(reg.clause_wf(reg.dependencies[chosen][m]));
                    }
                }
                lemma_plan_from_exists(reg, longer, out.push(chosen));
            }
        }
    }
}

/// Where every unmet clause of the database has all its candidates on offer,
/// there is a plan for every package.
pub proof fn law_plan_exists(reg: Registry, id: i32)
    requires
        reg.wf(),
        reg.resolvable(),
    ensures
        reg.plan(id) is Some,
{
    let queue = reg.clauses(id);
    assert forall|q: int| 0 <= q < queue.len() implies (#[trigger] queue[q]).len() > 0 && (
    reg.is_satisfied(queue[q]) || reg.all_offered(reg.candidates(queue[q]))) by {
        assert(reg.dependencies.contains_key(id));
        assert(reg.clause_wf(reg.dependencies[id][q]));
    }
    lemma_plan_from_exists(reg, queue, Seq::empty());
}

/// Every package of a closure is a known package.
pub proof fn law_closure_is_known(reg: Registry, id: i32)
    requires
        reg.wf(),
    ensures
        forall|k: int| 0 <= k < reg.closure(id).len() ==> reg.registered(#[trigger] reg.closure(id)[k]),
{
    let all = reg.closure(id);
    law_closure_is_closed(reg, id);
    assert forall|k: int| 0 <= k < all.len() implies reg.registered(#[trigger] all[k]) by {
        if reg.first_choices(id).contains(all[k]) {
            lemma_first_choices_registered(reg, id);
        } else {
            assert(found_through(reg, all, 0, k));
            let j = choose|j: int| 0 <= j < k && #[trigger] reg.first_choices(all[j]).contains(all[k]);
            lemma_first_choices_registered(reg, all[j]);
        }
    }
}

/// Every package of a plan is a known package, and is on offer.
pub proof fn law_plan_is_on_offer(reg: Registry, id: i32)
    requires
        reg.wf(),
    ensures
        reg.plan(id) matches Some(ids) ==> forall|k: int|
            0 <= k < ids.len() ==> reg.registered(#[trigger] ids[k]) && reg.available.contains_key(
                ids[k],
            ),
{
    law_plan_is_closed(reg, id);
    if let Some(ids) = reg.plan(id) {
        assert forall|k: int| 0 <= k < ids.len() implies reg.registered(#[trigger] ids[k])
            && reg.available.contains_key(ids[k]) by {
            assert(planned_through(reg, reg.clauses(id), ids, 0, k));
            if exists|m: int|
                0 <= m < reg.clauses(id).len() && asks_for(reg, #[trigger] reg.clauses(id)[m], ids[k]) {
                let m = choose|m: int|
                    0 <= m < reg.clauses(id).len() && asks_for(
                        reg,
                        #[trigger] reg.clauses(id)[m],
                        ids[k],
                    );
                lemma_best_member(reg, reg.clauses(id)[m]);
            } else {
                let (j, m) = choose|j: int, m: int|
                    0 <= j < k && 0 <= m < reg.clauses(ids[j]).len() && asks_for(
                        reg,
                        #[trigger] reg.clauses(ids[j])[m],
                        ids[k],
                    );
                lemma_best_member(reg, reg.clauses(ids[j])[m]);
            }
        }
    }
}

} // verus!
