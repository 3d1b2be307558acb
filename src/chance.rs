use rand::seq::SliceRandom;
use rand::Rng;
use vstd::prelude::*;

verus! {

/// Relies on rand's `SliceRandom::choose`, drawn from the thread-local
/// generator: `None` exactly when the vector is empty, otherwise one of its
/// elements.
#[verifier::external_body]
pub(crate) fn choose_position(cells: &Vec<(usize, usize)>) -> (r: Option<(usize, usize)>)
    ensures
        r is None <==> cells@.len() == 0,
        r matches Some(p) ==> cells@.contains(p),
{
    cells.choose(&mut rand::thread_rng()).copied()
}

/// Relies on rand's `Rng::gen_ratio`, drawn from the thread-local
/// generator: `true` with probability `numerator / denominator`. Nothing is
/// promised of a single draw. `Bernoulli::from_ratio` panics unless
/// `numerator <= denominator` and `denominator > 0`.
#[verifier::external_body]
pub(crate) fn gen_ratio(numerator: u32, denominator: u32) -> (r: bool)
    requires
        denominator > 0,
        numerator <= denominator,
{
    rand::thread_rng().gen_ratio(numerator, denominator)
}

} // verus!
