//! Chance: the random numbers of a game, drawn from a generator of the rand
//! crate that the caller seeds.

use vstd::prelude::*;
use rand::rngs::StdRng;
use rand::Rng;

verus! {

/// Makes `StdRng` of rand known as a type whose values are carried through:
/// nothing is claimed of what a generator holds.
#[verifier::external_type_specification]
#[verifier::external_body]
pub struct ExStdRng(StdRng);

/// Calls `Rng::gen_range` of rand on the range from zero up to, not
/// including, `bound`.
///
/// The contract claims that the number that comes back is in that range, and
/// leaves an empty range out, on which the call panics.
#[verifier::external_body]
pub(crate) fn roll_below(rng: &mut StdRng, bound: usize) -> (r: usize)
    requires
        bound > 0,
    ensures
        r < bound,
{
    rng.gen_range(0..bound)
}

/// Whether an ability of the given availability, in parts of a thousand, is
/// there when the roll, a number below a thousand, is `roll`.
pub open spec fn is_there(availability: u32, roll: int) -> bool {
    roll < availability
}

/// Whether an ability of the given availability is there this time.
///
/// An ability that is always available is there without a roll; any other
/// is there if a roll below a thousand falls below its availability.
pub fn happens(availability: u32, rng: &mut StdRng) -> (r: bool)
    ensures
        availability >= 1000 ==> r,
        availability == 0 ==> !r,
{
    if availability >= 1000 {
        return true;
    }
    let roll = roll_below(rng, 1000);
    decide(availability, roll)
}

/// Whether an ability of the given availability is there, given the roll.
pub fn decide(availability: u32, roll: usize) -> (r: bool)
    ensures
        r == is_there(availability, roll as int),
{
    roll < availability as usize
}

} // verus!
