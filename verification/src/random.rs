use vstd::prelude::*;

use rand::rngs::ThreadRng;
use rand::seq::SliceRandom;

verus! {

/// rand's thread-local random generator, carried through to the draws.
#[verifier::external_type_specification]
#[verifier::external_body]
pub struct ExThreadRng(rand::rngs::ThreadRng);

/// rand's `thread_rng`: a handle to the thread-local generator. Nothing is
/// claimed of it.
#[verifier::external_body]
pub(crate) fn thread_rng() -> (rng: ThreadRng) {
    rand::thread_rng()
}

/// Shuffles the vector with rand's `SliceRandom::shuffle`. Claimed of rand:
/// the result holds the same elements as before, each as often (the
/// shuffle only swaps elements); which order comes out is left open, as it
/// rests on chance.
#[verifier::external_body]
pub(crate) fn shuffle_indices(v: &mut Vec<usize>, rng: &mut ThreadRng)
    ensures
        final(v)@.to_multiset() == old(v)@.to_multiset(),
{
    v.shuffle(rng);
}

/// Each element of `picked` is taken from its own position of `from`: some
/// positions of `from`, all different, hold the picked elements in order.
pub open spec fn picked_from(picked: Seq<usize>, from: Seq<usize>) -> bool {
    exists|pos: Seq<int>|
        #![trigger pos.len()]
        pos.len() == picked.len() && (forall|i: int|
            0 <= i < pos.len() ==> 0 <= #[trigger] pos[i] < from.len() && picked[i] == from[pos[i]])
            && (forall|i: int, j: int| 0 <= i < j < pos.len() ==> #[trigger] pos[i] != #[trigger] pos[j])
}

/// Picks `amount` elements of `v` at random with rand's
/// `SliceRandom::choose_multiple`, as many as there are when `v` is
/// shorter. Claimed of rand: each picked element sits at its own position of
/// `v` (rand samples distinct indices); which positions, and in what order,
/// is left open, as it rests on chance.
#[verifier::external_body]
pub(crate) fn choose_multiple_indices(v: &Vec<usize>, rng: &mut ThreadRng, amount: usize) -> (res: Vec<usize>)
    ensures
        res@.len() == if amount <= v@.len() { amount as int } else { v@.len() as int },
        picked_from(res@, v@),
{
    v.choose_multiple(rng, amount).cloned().collect()
}

} // verus!
