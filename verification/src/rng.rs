use vstd::prelude::*;

verus! {

/// Relies on rand::Rng::gen_range (through rand::thread_rng): the sample is
/// drawn from the inclusive range, and the call panics only when the range
/// is empty.
#[verifier::external_body]
pub(crate) fn rand_range_i32(lo: i32, hi: i32) -> (r: i32)
    requires
        lo <= hi,
    ensures
        lo <= r <= hi,
{
    rand::Rng::gen_range(&mut rand::thread_rng(), lo..=hi)
}

/// Relies on rand::Rng::gen_ratio (through rand::thread_rng): true with
/// probability numerator/denominator; the call panics only when the
/// denominator is zero or the numerator exceeds it. Nothing is promised of
/// the outcome.
#[verifier::external_body]
pub(crate) fn rand_ratio(numerator: u32, denominator: u32) -> bool
    requires
        0 < denominator,
        numerator <= denominator,
{
    rand::Rng::gen_ratio(&mut rand::thread_rng(), numerator, denominator)
}

/// Relies on rand::random: an arbitrary value from the thread-local
/// generator. Nothing is promised of the outcome.
#[verifier::external_body]
pub(crate) fn rand_usize() -> usize {
    rand::random::<usize>()
}

} // verus!
