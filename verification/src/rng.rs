//! The random choices the maze makes, drawn from a seedable generator that
//! the caller owns and passes in.

use vstd::prelude::*;
use rand::rngs::StdRng;
use rand::seq::{IteratorRandom, SliceRandom};
use rand::Rng;
use crate::grid::Pos;

verus! {

/// `rand::rngs::StdRng`, carried through as an opaque value.
#[verifier::external_type_specification]
#[verifier::external_body]
pub struct ExStdRng(rand::rngs::StdRng);

/// Calls `Rng::gen_range` on `0..bound`. Trusted: the value drawn lies in
/// the range, whatever the generator's state. An empty range is left out
/// because the call panics on it.
#[verifier::external_body]
pub(crate) fn random_below(rng: &mut StdRng, bound: usize) -> (r: usize)
    requires
        bound > 0,
    ensures
        r < bound,
{
    rng.gen_range(0..bound)
}

/// Calls `SliceRandom::shuffle`. Trusted: the slice is permuted in place by
/// swaps, so it holds the same cells as before, each as often as before.
#[verifier::external_body]
pub(crate) fn shuffle(items: &mut Vec<Pos>, rng: &mut StdRng)
    ensures
        final(items)@.to_multiset() == old(items)@.to_multiset(),
{
    items.shuffle(rng);
}

/// Calls `SliceRandom::choose`. Trusted: the result is `None` exactly when
/// the slice is empty, and otherwise one of its elements.
#[verifier::external_body]
pub(crate) fn choose_from_slice<T: Copy>(items: &Vec<T>, rng: &mut StdRng) -> (r: Option<T>)
    ensures
        r.is_none() <==> items@.len() == 0,
        r.is_some() ==> items@.contains(r.unwrap()),
{
    items.choose(rng).copied()
}

/// Calls `IteratorRandom::choose` on the iterator over a vector. Trusted:
/// the result is `None` exactly when the iterator yields nothing, and
/// otherwise one of the elements it yields.
#[verifier::external_body]
pub(crate) fn choose_from_iter<T: Copy>(items: &Vec<T>, rng: &mut StdRng) -> (r: Option<T>)
    ensures
        r.is_none() <==> items@.len() == 0,
        r.is_some() ==> items@.contains(r.unwrap()),
{
    items.iter().choose(rng).copied()
}

} // verus!
