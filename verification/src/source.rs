//! The source of random draws: a `StdRng` of the `rand` crate, handed in by
//! the caller, so that a seeded generator gives the same floor again.

use rand::rngs::StdRng;
use rand::Rng;
use vstd::prelude::*;

verus! {

/// `StdRng` of `rand`, carried through as it is: nothing is known of what it
/// holds.
#[verifier::external_type_specification]
#[verifier::external_body]
pub struct ExStdRng(rand::rngs::StdRng);

/// One uniform draw from `low..high`, by `Rng::gen_range` of `rand`.
///
/// Trusted, not proved: `gen_range` returns a number of the half-open range
/// it is given, and panics only where that range is empty, which `requires`
/// excludes. Nothing is claimed of which number comes.
#[verifier::external_body]
pub(crate) fn draw(rng: &mut StdRng, low: usize, high: usize) -> (n: usize)
    requires
        low < high,
    ensures
        low <= n < high,
{
    rng.gen_range(low..high)
}

} // verus!
