//! The random choices of the puzzle generator, made by `rand`'s `StdRng`.
use vstd::prelude::*;
use rand::seq::SliceRandom;

verus! {

#[verifier::external_type_specification]
#[verifier::external_body]
pub struct ExStdRng(rand::rngs::StdRng);

/// Calls `SliceRandom::shuffle`, which puts the cells in a random order by
/// swapping them: the result holds the same cells.
#[verifier::external_body]
pub(crate) fn shuffle_cells(rng: &mut rand::rngs::StdRng, cells: &mut Vec<(usize, usize)>)
    ensures final(cells)@.to_multiset() == old(cells)@.to_multiset(),
{
    cells.shuffle(rng);
}

/// Calls `SliceRandom::choose`: a random digit of `digits`, or `None` when
/// there is none.
#[verifier::external_body]
pub(crate) fn choose_digit(rng: &mut rand::rngs::StdRng, digits: &Vec<u8>) -> (r: Option<u8>)
    ensures
        r is None <==> digits@.len() == 0,
        r matches Some(d) ==> digits@.contains(d),
{
    digits.choose(rng).copied()
}

} // verus!
