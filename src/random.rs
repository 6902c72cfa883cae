use vstd::prelude::*;

verus! {

/// Relies on rand's `SliceRandom::choose` with the thread-local generator: it
/// returns `None` exactly when the slice is empty, and otherwise one of its
/// elements, picked uniformly.
#[verifier::external_body]
pub(crate) fn choose_one(items: &Vec<(usize, usize)>) -> (r: Option<(usize, usize)>)
    ensures
        r is None <==> items@.len() == 0,
        r matches Some(p) ==> items@.contains(p),
{
    rand::seq::SliceRandom::choose(items.as_slice(), &mut rand::thread_rng()).copied()
}

/// Relies on rand's `Rng::gen_ratio` with the thread-local generator: `true`
/// with probability `numerator / denominator`, always `true` when the two are
/// equal and always `false` when the numerator is zero. It panics on a zero
/// denominator or on a numerator above the denominator.
#[verifier::external_body]
pub(crate) fn draw_ratio(numerator: u32, denominator: u32) -> (r: bool)
    requires
        0 < denominator,
        numerator <= denominator,
    ensures
        numerator == denominator ==> r,
        numerator == 0 ==> !r,
{
    rand::Rng::gen_ratio(&mut rand::thread_rng(), numerator, denominator)
}

} // verus!
