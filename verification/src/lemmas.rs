//! Facts about the model that the executable code and the laws lean on.

use vstd::prelude::*;
use vstd::set_lib::lemma_len_subset;
use crate::model::{absorb, clause_ids, Alternative, Clause, Registry};

verus! {

/// The installed packages of a clause grow with the clause one alternative at a
/// time: a further alternative adds its package exactly where that package is
/// installed.
pub proof fn lemma_installed_ids_push(reg: Registry, dd: Clause, alt: Alternative)
    ensures
        reg.installed_ids(dd.push(alt)) == if reg.installed.contains_key(alt.package_num) {
            reg.installed_ids(dd).push(alt.package_num)
        } else {
            reg.installed_ids(dd)
        },
        clause_ids(dd.push(alt)) == clause_ids(dd).push(alt.package_num),
{
    let pick = |a: Alternative| a.package_num;
    let keep = |id: i32| reg.installed.contains_key(id);
    dd.lemma_push_map_commute(pick, alt);
    assert(clause_ids(dd.push(alt)) =~= clause_ids(dd).push(alt.package_num));
    clause_ids(dd).lemma_filter_push(alt.package_num, keep);
}

/// Every installed package of a clause is one the clause names, and is
/// installed.
pub proof fn lemma_installed_ids_members(reg: Registry, dd: Clause)
    ensures
        forall|i: int|
            0 <= i < reg.installed_ids(dd).len() ==> {
                &&& reg.installed.contains_key(#[trigger] reg.installed_ids(dd)[i])
                &&& clause_ids(dd).contains(reg.installed_ids(dd)[i])
            },
{
    let keep = |id: i32| reg.installed.contains_key(id);
    let kept = clause_ids(dd).filter(keep);
    assert forall|i: int| 0 <= i < kept.len() implies reg.installed.contains_key(
        #[trigger] kept[i],
    ) && clause_ids(dd).contains(kept[i]) by {
        clause_ids(dd).lemma_filter_pred(keep, i);
        assert(kept.contains(kept[i]));
        clause_ids(dd).lemma_filter_contains_rev(keep, kept[i]);
    }
}

/// The numbers from 0 up to, not including, `n`.
pub open spec fn below(n: int) -> Set<i32> {
    Set::new(|id: i32| 0 <= id < n)
}

/// There are finitely many package numbers below any bound.
pub proof fn lemma_below_finite(n: int)
    requires
        0 <= n,
    ensures
        below(n).finite(),
    decreases n,
{
    if n == 0 {
        assert(below(0) =~= Set::empty());
    } else {
        lemma_below_finite(n - 1);
        if n - 1 <= i32::MAX {
            assert(below(n) =~= below(n - 1).insert((n - 1) as i32));
        } else {
            assert(below(n) =~= below(n - 1));
        }
    }
}

/// A database knows finitely many packages.
pub proof fn lemma_universe_finite(reg: Registry)
    ensures
        reg.universe().finite(),
{
    lemma_below_finite(reg.names.len() as int);
    assert(reg.universe() =~= below(reg.names.len() as int));
}

/// Seeing one more known package leaves one fewer unseen.
pub proof fn lemma_unseen_push(reg: Registry, seen: Seq<i32>, d: i32)
    requires
        reg.registered(d),
        !seen.contains(d),
    ensures
        reg.unseen(seen.push(d)) + 1 == reg.unseen(seen),
{
    lemma_universe_finite(reg);
    let before = reg.universe().difference(seen.to_set());
    let after = reg.universe().difference(seen.push(d).to_set());
    assert(seen.push(d).to_set() =~= seen.to_set().insert(d)) by {
        seen.lemma_push_to_set_commute(d);
    }
    assert(after =~= before.remove(d));
    assert(before.contains(d));
}

/// What absorbing known packages does to a work list: the list so far stays
/// in front, and each package added is one fewer unseen.
pub proof fn lemma_absorb(reg: Registry, work: Seq<i32>, ids: Seq<i32>)
    requires
        forall|k: int| 0 <= k < ids.len() ==> reg.registered(#[trigger] ids[k]),
    ensures
        work.is_prefix_of(absorb(work, ids)),
        reg.unseen(absorb(work, ids)) + absorb(work, ids).len() == reg.unseen(work) + work.len(),
        absorb(work, ids).len() == work.len() ==> absorb(work, ids) == work,
    decreases ids.len(),
{
    if ids.len() > 0 {
        let sofar = absorb(work, ids.drop_last());
        assert forall|k: int| 0 <= k < ids.drop_last().len() implies reg.registered(
            #[trigger] ids.drop_last()[k],
        ) by {
            assert(ids.drop_last()[k] == ids[k]);
        }
        lemma_absorb(reg, work, ids.drop_last());
        if !sofar.contains(ids.last()) {
            lemma_unseen_push(reg, sofar, ids.last());
        }
        assert(absorb(work, ids).len() == work.len() ==> absorb(work, ids) =~= work);
    }
}

/// Absorbing never lets a package stand twice.
pub proof fn lemma_absorb_no_duplicates(work: Seq<i32>, ids: Seq<i32>)
    requires
        work.no_duplicates(),
    ensures
        absorb(work, ids).no_duplicates(),
    decreases ids.len(),
{
    if ids.len() > 0 {
        lemma_absorb_no_duplicates(work, ids.drop_last());
    }
}

/// In a well-formed database the first choices of a package are known
/// packages.
pub proof fn lemma_first_choices_registered(reg: Registry, id: i32)
    requires
        reg.wf(),
    ensures
        forall|k: int|
            0 <= k < reg.first_choices(id).len() ==> reg.registered(
                #[trigger] reg.first_choices(id)[k],
            ),
{
    assert forall|k: int| 0 <= k < reg.first_choices(id).len() implies reg.registered(
        #[trigger] reg.first_choices(id)[k],
    ) by {
        assert(reg.dependencies.contains_key(id));
        assert(reg.clause_wf(reg.dependencies[id][k]));
    }
}

/// The candidates of a clause that has an alternative are not none.
pub proof fn lemma_candidates_nonempty(reg: Registry, dd: Clause)
    requires
        dd.len() > 0,
    ensures
        reg.candidates(dd).len() > 0,
{
}

/// The best of some candidates is one of them.
pub proof fn lemma_best_in(reg: Registry, ids: Seq<i32>)
    requires
        ids.len() > 0,
    ensures
        ids.contains(reg.best(ids)),
    decreases ids.len(),
{
    if ids.len() > 1 {
        lemma_best_in(reg, ids.drop_last());
        let k = choose|k: int| 0 <= k < ids.drop_last().len() && ids.drop_last()[k] == reg.best(ids.drop_last());
        assert(ids[k] == reg.best(ids.drop_last()));
        assert(ids[ids.len() - 1] == ids.last());
    } else {
        assert(ids[0] == reg.best(ids));
    }
}

/// In a well-formed database, the package chosen for a clause whose
/// candidates are all on offer is a known package that is on offer.
pub proof fn lemma_best_member(reg: Registry, dd: Clause)
    requires
        reg.wf(),
        dd.len() > 0,
        reg.all_offered(reg.candidates(dd)),
    ensures
        reg.candidates(dd).contains(reg.best(reg.candidates(dd))),
        reg.available.contains_key(reg.best(reg.candidates(dd))),
        reg.registered(reg.best(reg.candidates(dd))),
{
    lemma_candidates_nonempty(reg, dd);
    lemma_best_in(reg, reg.candidates(dd));
}

/// In a well-formed database a package's name leads back to its number.
pub proof fn lemma_id_of_name(reg: Registry, id: i32)
    requires
        reg.wf(),
        reg.registered(id),
    ensures
        reg.has_name(reg.names[id as int]),
        reg.id_of(reg.names[id as int]) == id,
{
    let name = reg.names[id as int];
    assert(reg.names.contains(name));
    let j = reg.names.index_of(name);
    assert(reg.names[j] == name);
}

} // verus!
