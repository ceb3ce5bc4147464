//! The decisions of the one-shot immediate snapshot: a process lowers its
//! level step by step, and settles on the processes at or below its level
//! as soon as there are at least as many of them as the level.

use vstd::prelude::*;
use std::collections::HashSet;

use crate::indices::lemma_bounded_indices;

verus! {

broadcast use vstd::std_specs::hash::group_hash_axioms;

/// The processes whose published level is at or below `floor`.
pub open spec fn at_or_below(levels: Seq<usize>, floor: usize) -> Set<usize> {
    Set::new(|j: usize| j < levels.len() && levels[j as int] <= floor)
}

/// The processes at or below a level form a finite set.
pub proof fn lemma_at_or_below_finite(levels: Seq<usize>, floor: usize)
    ensures
        at_or_below(levels, floor).finite(),
        at_or_below(levels, floor).len() <= levels.len(),
{
    lemma_bounded_indices(at_or_below(levels, floor), levels.len());
}

/// One round of the immediate snapshot at level `floor`, after reading the
/// levels that all processes published: the processes at or below `floor`
/// when there are at least `floor` of them, otherwise nothing (the process
/// goes one level down).
pub fn view_at_level(levels: &[usize], floor: usize) -> (viewed: Option<HashSet<usize>>)
    ensures
        at_or_below(levels@, floor).finite(),
        viewed is Some <==> at_or_below(levels@, floor).len() >= floor,
        viewed matches Some(set) ==> set@ == at_or_below(levels@, floor),
        viewed is None ==> floor > 0,
        // The view holds exactly the processes whose level is at or below `floor`,
        viewed matches Some(set) ==> forall|j: usize|
            #[trigger] set@.contains(j) <==> (j < levels@.len() && levels@[j as int] <= floor),
        // and it is reported when there are at least `floor` of them: the
        // round settles for every `floor` up to the number of such processes.
        viewed matches Some(set) ==> set@.len() >= floor,
        viewed is None ==> exists|s: Set<usize>|
            s.finite() && s.len() < floor && forall|j: usize|
                #[trigger] s.contains(j) <==> (j < levels@.len() && levels@[j as int] <= floor),
{
    proof {
        lemma_at_or_below_finite(levels@, floor);
    }
    let mut viewed: HashSet<usize> = HashSet::new();
    let mut j: usize = 0;
    while j < levels.len()
        invariant
            j <= levels@.len(),
            viewed@ == Set::new(|k: usize| k < j && levels@[k as int] <= floor),
        decreases levels@.len() - j,
    {
        if levels[j] <= floor {
            viewed.insert(j);
        }
        assert(viewed@ =~= Set::new(|k: usize| k < j + 1 && levels@[k as int] <= floor));
        j = j + 1;
    }
    assert(viewed@ =~= at_or_below(levels@, floor));
    if viewed.len() >= floor {
        Some(viewed)
    } else {
        None
    }
}

/// The level every process starts from, one above the top level `num_procs`:
/// the first round of a process is at level `num_procs`.
pub fn initial_level(num_procs: usize) -> (level: usize)
    requires
        num_procs < usize::MAX,
    ensures
        level == num_procs + 1,
{
    num_procs + 1
}

/// The next level of the descent, after a round at level `floor` that did
/// not settle.
pub fn lower_level(floor: usize) -> (level: usize)
    requires
        floor > 0,
    ensures
        level == floor - 1,
{
    floor - 1
}

/// Copies into the process's local values the values it read for the
/// processes of its view, and keeps the others: `fresh` holds a read value
/// exactly at the positions of the view.
pub fn merge_viewed<T>(local: &mut [T], viewed: &HashSet<usize>, fresh: Vec<Option<T>>)
    requires
        fresh@.len() == old(local)@.len(),
        forall|j: int|
            0 <= j < fresh@.len() ==> ((#[trigger] fresh@[j]) is Some <==> viewed@.contains(
                j as usize,
            )),
    ensures
        final(local)@.len() == old(local)@.len(),
        forall|j: int|
            0 <= j < old(local)@.len() ==> #[trigger] final(local)@[j] == if viewed@.contains(
                j as usize,
            ) {
                fresh@[j]->0
            } else {
                old(local)@[j]
            },
{
    let ghost before = local@;
    let ghost all = fresh@;
    let mut rest = fresh;
    let mut j: usize = rest.len();
    while j > 0
        invariant
            j == rest@.len(),
            j <= all.len(),
            all.len() == before.len(),
            rest@ == all.subrange(0, j as int),
            local@.len() == before.len(),
            forall|k: int| 0 <= k < j ==> local@[k] == before[k],
            forall|k: int|
                j <= k < before.len() ==> local@[k] == if viewed@.contains(k as usize) {
                    all[k]->0
                } else {
                    before[k]
                },
            forall|k: int| 0 <= k < all.len() ==> ((#[trigger] all[k]) is Some <==> viewed@.contains(k as usize)),
        decreases j,
    {
        j = j - 1;
        let value = rest.pop().unwrap();
        if let Some(v) = value {
            local[j] = v;
        }
    }
    assert(forall|k: int| 0 <= k < before.len() ==> #[trigger] local@[k] == if viewed@.contains(k as usize) {
        all[k]->0
    } else {
        before[k]
    });
}

/// A round that does not settle, for a process that reads back its own
/// level, is at a level of at least 2, so the next level is at least 1.
pub proof fn lemma_unsettled_stays_above_one(levels: Seq<usize>, floor: usize, me: usize)
    requires
        me < levels.len(),
        levels[me as int] <= floor,
        at_or_below(levels, floor).len() < floor,
    ensures
        floor >= 2,
{
    if floor <= 1 {
        lemma_settles_by_level_one(levels, floor, me);
    }
}

/// Self-inclusion: a process whose own published level is at or below the
/// level it settles on is in the view it settles on.
pub proof fn lemma_view_includes_self(levels: Seq<usize>, floor: usize, me: usize)
    requires
        me < levels.len(),
        levels[me as int] <= floor,
    ensures
        at_or_below(levels, floor).contains(me),
{
}

/// A process that reads back its own level settles at the latest at level 1,
/// so the descent from level `n + 1` never goes below level 1.
pub proof fn lemma_settles_by_level_one(levels: Seq<usize>, floor: usize, me: usize)
    requires
        me < levels.len(),
        levels[me as int] <= floor,
        floor <= 1,
    ensures
        at_or_below(levels, floor).len() >= floor,
{
    lemma_at_or_below_finite(levels, floor);
    if floor == 1 {
        assert(at_or_below(levels, floor).contains(me));
        vstd::set_lib::lemma_len_subset(set![me], at_or_below(levels, floor));
    }
}

} // verus!
