//! Facts about sets of indices.

use vstd::prelude::*;

verus! {

/// A set of indices below `n` is finite and has at most `n` members.
pub(crate) proof fn lemma_bounded_indices(indices: Set<usize>, n: nat)
    requires
        forall|j: usize| #[trigger] indices.contains(j) ==> j < n,
    ensures
        indices.finite(),
        indices.len() <= n,
    decreases n,
{
    if n == 0 {
        assert(indices =~= Set::<usize>::empty());
    } else {
        let top = (n - 1) as usize;
        let below = indices.remove(top);
        lemma_bounded_indices(below, (n - 1) as nat);
        if indices.contains(top) {
            assert(indices =~= below.insert(top));
        } else {
            assert(indices =~= below);
        }
    }
}

/// A proper subset of a finite set has fewer members.
pub(crate) proof fn lemma_proper_subset_len<A>(small: Set<A>, large: Set<A>)
    requires
        large.finite(),
        small.subset_of(large),
        small != large,
    ensures
        small.len() < large.len(),
{
    if forall|x: A| large.contains(x) ==> small.contains(x) {
        assert(small =~= large);
    }
    let extra = choose|x: A| large.contains(x) && !small.contains(x);
    vstd::set_lib::lemma_len_subset(small, large.remove(extra));
}

} // verus!
