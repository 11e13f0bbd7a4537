//! The planner, step by step, and why queuing a package's clauses once is
//! enough.
//!
//! Told step by step, the planner puts the clauses of the chosen package at
//! the back of its queue every time it chooses one, whether or not the
//! package is planned already. On a database with a cycle among packages that
//! are not installed, that never ends. [`Registry::plan_from`] queues the
//! clauses of a package only when the package joins the plan, and always
//! ends. This module shows that nothing is lost: whenever the step-by-step
//! planner comes to an end, it comes to the result of
//! [`Registry::plan_from`].

use vstd::prelude::*;
use crate::lemmas::lemma_best_member;
use crate::model::{Clause, Registry};

verus! {

impl Registry {
    /// The planner told step by step, for at most `steps` steps. The outer
    /// `None` says that the steps did not suffice; the inner one, that the
    /// planner came to an unmet clause that is empty or has a candidate that
    /// is not on offer.
    pub open spec fn replay(self, queue: Seq<Clause>, out: Seq<i32>, steps: nat) -> Option<
        Option<Seq<i32>>,
    >
        decreases steps,
    {
        if queue.len() == 0 {
            Some(Some(out))
        } else if steps == 0 {
            None
        } else {
            let front = queue.first();
            let rest = queue.drop_first();
            if self.is_satisfied(front) {
                self.replay(rest, out, (steps - 1) as nat)
            } else if front.len() == 0 || !self.all_offered(self.candidates(front)) {
                Some(None)
            } else {
                let chosen = self.best(self.candidates(front));
                let planned = if out.contains(chosen) {
                    out
                } else {
                    out.push(chosen)
                };
                self.replay(rest + self.clauses(chosen), planned, (steps - 1) as nat)
            }
        }
    }
}

/// The clauses of the queue that are marked, in order.
pub open spec fn marked(queue: Seq<Clause>, live: Seq<bool>) -> Seq<Clause>
    decreases queue.len(),
{
    if queue.len() == 0 {
        Seq::empty()
    } else {
        let later = marked(queue.drop_first(), live.drop_first());
        if live[0] {
            seq![queue[0]] + later
        } else {
            later
        }
    }
}

/// `n` marks, all alike.
pub open spec fn marks(flag: bool, n: nat) -> Seq<bool> {
    Seq::new(n, |i: int| flag)
}

/// Whether position `j` of the queue is marked and holds `dd`.
pub open spec fn waits_at(queue: Seq<Clause>, live: Seq<bool>, dd: Clause, j: int) -> bool {
    0 <= j < queue.len() && live[j] && queue[j] == dd
}

/// Whether `dd` waits, marked, before position `k` of the queue.
pub open spec fn waits_before(queue: Seq<Clause>, live: Seq<bool>, dd: Clause, k: int) -> bool {
    exists|j: int| j < k && #[trigger] waits_at(queue, live, dd, j)
}

/// Whether `dd` is settled: it asks for nothing more, or it waits, marked,
/// before position `k`.
pub open spec fn settled(
    reg: Registry,
    queue: Seq<Clause>,
    live: Seq<bool>,
    out: Seq<i32>,
    dd: Clause,
    k: int,
) -> bool {
    reg.resolved(dd, out) || waits_before(queue, live, dd, k)
}

/// Clause `b` of member `a`.
pub open spec fn clause_at(reg: Registry, members: Seq<i32>, a: int, b: int) -> Clause {
    reg.clauses(members[a])[b]
}

/// Every clause of every member is settled somewhere in the queue.
pub open spec fn covered(
    reg: Registry,
    members: Seq<i32>,
    queue: Seq<Clause>,
    live: Seq<bool>,
    out: Seq<i32>,
) -> bool {
    forall|a: int, b: int|
        0 <= a < members.len() && 0 <= b < reg.clauses(members[a]).len() ==> settled(
            reg,
            queue,
            live,
            out,
            #[trigger] clause_at(reg, members, a, b),
            queue.len() as int,
        )
}

/// Whether position `k` of the queue, if unmarked, is settled before `k`.
pub open spec fn excused_at(
    reg: Registry,
    queue: Seq<Clause>,
    live: Seq<bool>,
    out: Seq<i32>,
    k: int,
) -> bool {
    live[k] || settled(reg, queue, live, out, queue[k], k)
}

/// Every unmarked clause of the queue is settled before its own position.
pub open spec fn excused(reg: Registry, queue: Seq<Clause>, live: Seq<bool>, out: Seq<i32>) -> bool {
    forall|k: int| 0 <= k < queue.len() ==> #[trigger] excused_at(reg, queue, live, out, k)
}

/// Marked clauses of two queues in a row are those of the first, then those
/// of the second.
proof fn lemma_marked_append(q1: Seq<Clause>, l1: Seq<bool>, q2: Seq<Clause>, l2: Seq<bool>)
    requires
        q1.len() == l1.len(),
        q2.len() == l2.len(),
    ensures
        marked(q1 + q2, l1 + l2) == marked(q1, l1) + marked(q2, l2),
    decreases q1.len(),
{
    if q1.len() == 0 {
        assert(q1 + q2 =~= q2);
        assert(l1 + l2 =~= l2);
        assert(marked(q1, l1) + marked(q2, l2) =~= marked(q2, l2));
    } else {
        assert((q1 + q2).drop_first() =~= q1.drop_first() + q2);
        assert((l1 + l2).drop_first() =~= l1.drop_first() + l2);
        lemma_marked_append(q1.drop_first(), l1.drop_first(), q2, l2);
        let later = marked(q1.drop_first(), l1.drop_first());
        assert((seq![q1[0]] + later) + marked(q2, l2) =~= seq![q1[0]] + (later + marked(q2, l2)));
    }
}

/// Of a queue, all marked or all unmarked, the marked clauses are all or
/// none.
proof fn lemma_marked_alike(queue: Seq<Clause>, flag: bool)
    ensures
        marked(queue, marks(flag, queue.len())) == if flag {
            queue
        } else {
            Seq::empty()
        },
    decreases queue.len(),
{
    if queue.len() > 0 {
        assert(marks(flag, queue.len()).drop_first() =~= marks(flag, queue.drop_first().len()));
        lemma_marked_alike(queue.drop_first(), flag);
        if flag {
            assert(seq![queue[0]] + queue.drop_first() =~= queue);
        }
    }
}

/// Planning more never unsettles a clause.
proof fn lemma_resolved_grows(reg: Registry, dd: Clause, out: Seq<i32>, more: Seq<i32>)
    requires
        reg.resolved(dd, out),
        forall|x: i32| out.contains(x) ==> more.contains(x),
    ensures
        reg.resolved(dd, more),
{
}

/// Taking the front off the queue keeps every clause settled, where the
/// front, if marked, asks for nothing more after the step.
proof fn lemma_pop_keeps(
    reg: Registry,
    members: Seq<i32>,
    queue: Seq<Clause>,
    live: Seq<bool>,
    out: Seq<i32>,
    more: Seq<i32>,
)
    requires
        queue.len() > 0,
        live.len() == queue.len(),
        covered(reg, members, queue, live, out),
        excused(reg, queue, live, out),
        forall|x: i32| out.contains(x) ==> more.contains(x),
        live[0] ==> reg.resolved(queue[0], more),
    ensures
        covered(reg, members, queue.drop_first(), live.drop_first(), more),
        excused(reg, queue.drop_first(), live.drop_first(), more),
{
    let rest = queue.drop_first();
    let flags = live.drop_first();
    assert forall|dd: Clause, k: int|
        1 <= k <= queue.len() && settled(reg, queue, live, out, dd, k) implies settled(
        reg,
        rest,
        flags,
        more,
        dd,
        k - 1,
    ) by {
        if reg.resolved(dd, out) {
            lemma_resolved_grows(reg, dd, out, more);
        } else {
            let j = choose|j: int| j < k && #[trigger] waits_at(queue, live, dd, j);
            if j == 0 {
                assert(queue[0] == dd);
            } else {
                assert(waits_at(rest, flags, dd, j - 1));
            }
        }
    }
    assert forall|a: int, b: int|
        0 <= a < members.len() && 0 <= b < reg.clauses(members[a]).len() implies settled(
        reg,
        rest,
        flags,
        more,
        #[trigger] clause_at(reg, members, a, b),
        rest.len() as int,
    ) by {
        assert(settled(reg, queue, live, out, clause_at(reg, members, a, b), queue.len() as int));
    }
    assert forall|k: int| 0 <= k < rest.len() implies #[trigger] excused_at(
        reg,
        rest,
        flags,
        more,
        k,
    ) by {
        assert(excused_at(reg, queue, live, out, k + 1));
        assert(rest[k] == queue[k + 1]);
        assert(flags[k] == live[k + 1]);
    }
}

/// Putting clauses at the back of the queue keeps every clause settled,
/// where the new ones are marked or settled already.
proof fn lemma_append_keeps(
    reg: Registry,
    members: Seq<i32>,
    queue: Seq<Clause>,
    live: Seq<bool>,
    out: Seq<i32>,
    extra: Seq<Clause>,
    flag: bool,
)
    requires
        live.len() == queue.len(),
        covered(reg, members, queue, live, out),
        excused(reg, queue, live, out),
        !flag ==> forall|b: int|
            0 <= b < extra.len() ==> settled(
                reg,
                queue,
                live,
                out,
                #[trigger] extra[b],
                queue.len() as int,
            ),
    ensures
        covered(reg, members, queue + extra, live + marks(flag, extra.len()), out),
        excused(reg, queue + extra, live + marks(flag, extra.len()), out),
{
    let longer = queue + extra;
    let flags = live + marks(flag, extra.len());
    assert forall|dd: Clause, k: int|
        0 <= k <= queue.len() && settled(reg, queue, live, out, dd, k) implies settled(
        reg,
        longer,
        flags,
        out,
        dd,
        k,
    ) by {
        if !reg.resolved(dd, out) {
            let j = choose|j: int| j < k && #[trigger] waits_at(queue, live, dd, j);
            assert(waits_at(longer, flags, dd, j));
        }
    }
    assert forall|a: int, b: int|
        0 <= a < members.len() && 0 <= b < reg.clauses(members[a]).len() implies settled(
        reg,
        longer,
        flags,
        out,
        #[trigger] clause_at(reg, members, a, b),
        longer.len() as int,
    ) by {
        let dd = clause_at(reg, members, a, b);
        assert(settled(reg, queue, live, out, dd, queue.len() as int));
        assert(settled(reg, longer, flags, out, dd, queue.len() as int));
        if !reg.resolved(dd, out) {
            let j = choose|j: int| j < queue.len() && #[trigger] waits_at(longer, flags, dd, j);
            assert(j < longer.len());
        }
    }
    assert forall|k: int| 0 <= k < longer.len() implies #[trigger] excused_at(
        reg,
        longer,
        flags,
        out,
        k,
    ) by {
        if k < queue.len() {
            assert(excused_at(reg, queue, live, out, k));
            assert(longer[k] == queue[k]);
            assert(flags[k] == live[k]);
        } else {
            assert(flags[k] == flag);
            if !flag {
                let b = k - queue.len();
                assert(longer[k] == extra[b]);
                assert(settled(reg, queue, live, out, extra[b], queue.len() as int));
                assert(settled(reg, longer, flags, out, extra[b], queue.len() as int));
                if !reg.resolved(extra[b], out) {
                    let j = choose|j: int|
                        j < queue.len() && #[trigger] waits_at(longer, flags, extra[b], j);
                    assert(j < k);
                }
            }
        }
    }
}

/// A package whose clauses have just joined the queue, marked, is a member
/// whose clauses are settled.
proof fn lemma_member_joins(
    reg: Registry,
    members: Seq<i32>,
    queue: Seq<Clause>,
    live: Seq<bool>,
    out: Seq<i32>,
    chosen: i32,
)
    requires
        live.len() == queue.len(),
        covered(
            reg,
            members,
            queue + reg.clauses(chosen),
            live + marks(true, reg.clauses(chosen).len()),
            out,
        ),
    ensures
        covered(
            reg,
            members.push(chosen),
            queue + reg.clauses(chosen),
            live + marks(true, reg.clauses(chosen).len()),
            out,
        ),
{
    let longer = queue + reg.clauses(chosen);
    let flags = live + marks(true, reg.clauses(chosen).len());
    let joined = members.push(chosen);
    assert forall|a: int, b: int|
        0 <= a < joined.len() && 0 <= b < reg.clauses(joined[a]).len() implies settled(
        reg,
        longer,
        flags,
        out,
        #[trigger] clause_at(reg, joined, a, b),
        longer.len() as int,
    ) by {
        if a < members.len() {
            assert(clause_at(reg, joined, a, b) == clause_at(reg, members, a, b));
        } else {
            let dd = clause_at(reg, joined, a, b);
            assert(waits_at(longer, flags, dd, queue.len() + b));
        }
    }
}

/// The step-by-step planner and the work list agree, where the work list
/// holds the marked clauses of the step-by-step queue and every unmarked
/// clause is settled.
proof fn lemma_replay_agrees(
    reg: Registry,
    queue: Seq<Clause>,
    live: Seq<bool>,
    out: Seq<i32>,
    steps: nat,
)
    requires
        reg.wf(),
        live.len() == queue.len(),
        covered(reg, out, queue, live, out),
        excused(reg, queue, live, out),
    ensures
        reg.replay(queue, out, steps) matches Some(result) ==> result == reg.plan_from(
            marked(queue, live),
            out,
        ),
    decreases steps, 1nat,
{
    if queue.len() == 0 || steps == 0 {
    } else {
        lemma_replay_step(reg, queue, live, out, steps);
    }
}

/// One step of [`lemma_replay_agrees`], on a queue that is not empty.
proof fn lemma_replay_step(
    reg: Registry,
    queue: Seq<Clause>,
    live: Seq<bool>,
    out: Seq<i32>,
    steps: nat,
)
    requires
        reg.wf(),
        live.len() == queue.len(),
        covered(reg, out, queue, live, out),
        excused(reg, queue, live, out),
        queue.len() > 0,
        steps > 0,
    ensures
        reg.replay(queue, out, steps) matches Some(result) ==> result == reg.plan_from(
            marked(queue, live),
            out,
        ),
    decreases steps, 0nat,
{
    let front = queue.first();
    let rest = queue.drop_first();
    let flags = live.drop_first();
    let waiting = marked(queue, live);
    let later = marked(rest, flags);
    let fewer = (steps - 1) as nat;
    if live[0] {
        assert(waiting.first() == front);
        assert(waiting.drop_first() =~= later);
    } else {
        assert(excused_at(reg, queue, live, out, 0));
        assert(reg.resolved(front, out));
    }
    if reg.is_satisfied(front) {
        lemma_pop_keeps(reg, out, queue, live, out, out);
        lemma_replay_agrees(reg, rest, flags, out, fewer);
    } else if front.len() == 0 || !reg.all_offered(reg.candidates(front)) {
    } else {
        let chosen = reg.best(reg.candidates(front));
        let declared = reg.clauses(chosen);
        if out.contains(chosen) {
            lemma_pop_keeps(reg, out, queue, live, out, out);
            let a = choose|a: int| 0 <= a < out.len() && out[a] == chosen;
            assert forall|b: int| 0 <= b < declared.len() implies settled(
                reg,
                rest,
                flags,
                out,
                #[trigger] declared[b],
                rest.len() as int,
            ) by {
                assert(declared[b] == clause_at(reg, out, a, b));
            }
            lemma_append_keeps(reg, out, rest, flags, out, declared, false);
            lemma_marked_append(rest, flags, declared, marks(false, declared.len()));
            lemma_marked_alike(declared, false);
            assert(later + Seq::<Clause>::empty() =~= later);
            lemma_replay_agrees(
                reg,
                rest + declared,
                flags + marks(false, declared.len()),
                out,
                fewer,
            );
        } else {
            let more = out.push(chosen);
            assert(more.contains(chosen)) by {
                assert(more[out.len() as int] == chosen);
            }
            assert forall|x: i32| out.contains(x) implies more.contains(x) by {
                let i = choose|i: int| 0 <= i < out.len() && out[i] == x;
                assert(more[i] == x);
            }
            lemma_pop_keeps(reg, out, queue, live, out, more);
            lemma_append_keeps(reg, out, rest, flags, more, declared, true);
            lemma_member_joins(reg, out, rest, flags, more, chosen);
            lemma_marked_append(rest, flags, declared, marks(true, declared.len()));
            lemma_marked_alike(declared, true);
            lemma_replay_agrees(
                reg,
                rest + declared,
                flags + marks(true, declared.len()),
                more,
                fewer,
            );
        }
    }
}

/// Whenever the planner told step by step comes to an end, it comes to the
/// plan: to the same packages in the same order, or to the same failure.
pub proof fn law_requeuing_changes_nothing(reg: Registry, id: i32, steps: nat)
    requires
        reg.wf(),
    ensures
        reg.replay(reg.clauses(id), Seq::empty(), steps) matches Some(result) ==> result
            == reg.plan(id),
{
    let queue = reg.clauses(id);
    let live = marks(true, queue.len());
    let out = Seq::<i32>::empty();
    assert forall|k: int| 0 <= k < queue.len() implies #[trigger] excused_at(
        reg,
        queue,
        live,
        out,
        k,
    ) by {
        assert(live[k]);
    }
    lemma_marked_alike(queue, true);
    lemma_replay_agrees(reg, queue, live, out, steps);
}

} // verus!
