//! Random orderings, from the `rand` crate.
use vstd::prelude::*;
use rand::seq::SliceRandom;

verus! {

/// `perm` maps each position of `b` to a distinct position of `a` holding the same item.
pub open spec fn is_permutation_witness(a: Seq<usize>, b: Seq<usize>, perm: Seq<int>) -> bool {
    &&& perm.len() == a.len()
    &&& forall|i: int| 0 <= i < perm.len() ==> 0 <= #[trigger] perm[i] < a.len()
    &&& forall|i: int, j: int| 0 <= i < j < perm.len() ==> #[trigger] perm[i] != #[trigger] perm[j]
    &&& forall|i: int| 0 <= i < perm.len() ==> #[trigger] b[i] == a[perm[i]]
}

/// `b` holds the items of `a` in some order.
pub open spec fn is_permutation(a: Seq<usize>, b: Seq<usize>) -> bool {
    a.len() == b.len() && exists|perm: Seq<int>| is_permutation_witness(a, b, perm)
}

/// `SliceRandom::shuffle` of `rand` with `thread_rng()`: the items are put in
/// a random order. Its source swaps items pairwise, so what comes out is a
/// permutation of what went in; which permutation is left to chance.
#[verifier::external_body]
pub(crate) fn shuffle_positions(order: &mut [usize; 81])
    ensures
        is_permutation(old(order)@, final(order)@),
{
    order.shuffle(&mut rand::thread_rng());
}

} // verus!
