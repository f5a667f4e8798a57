use vstd::prelude::*;

verus! {

/// Relies on rand's `Rng::gen_range` on `rand::thread_rng()`: it returns a value of
/// the half-open range `[lo, hi)` and panics when that range is empty.
#[verifier::external_body]
pub(crate) fn random_below(lo: u128, hi: u128) -> (r: u128)
    requires
        lo < hi,
    ensures
        lo <= r < hi,
{
    rand::Rng::gen_range(&mut rand::thread_rng(), lo..hi)
}

} // verus!
