use rand::rngs::StdRng;
use rand::seq::SliceRandom;
use rand::Rng;
use vstd::prelude::*;

use crate::coordinates::Coordinates;

verus! {

/// The generator that every random decision of the game is drawn from.
/// Nothing is known of its state.
#[verifier::external_type_specification]
#[verifier::external_body]
pub struct ExStdRng(StdRng);

/// Calls `Rng::gen_range` on the half-open range `0..bound`. The call
/// panics on an empty range, so `bound` must be positive; the number that
/// comes back lies in the range, and nothing more is claimed of it.
#[verifier::external_body]
pub(crate) fn random_below(rng: &mut StdRng, bound: u8) -> (r: u8)
    requires
        bound > 0,
    ensures
        r < bound,
{
    rng.gen_range(0..bound)
}

/// Calls `SliceRandom::choose` on the cells given. An empty slice gives
/// `None`; any other gives one of its elements, and nothing is claimed of
/// which one.
#[verifier::external_body]
pub(crate) fn choose_coordinates(rng: &mut StdRng, cells: &Vec<Coordinates>) -> (r: Option<
    Coordinates,
>)
    ensures
        cells@.len() == 0 ==> r is None,
        cells@.len() > 0 ==> r is Some && cells@.contains(r.unwrap()),
{
    cells.choose(rng).copied()
}

} // verus!
