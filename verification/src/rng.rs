//! Trusted access to the process-wide random number generators. Every
//! randomized routine of the library draws its numbers here and is verified
//! for every value these functions may hand back: nothing is promised of a
//! sample beyond its range.

use vstd::prelude::*;

verus! {

/// Relies on rand::Rng::gen_range on a half-open range, which returns a
/// sample inside the range and panics only when the range is empty.
#[verifier::external_body]
pub(crate) fn rand_usize_below(bound: usize) -> (r: usize)
    requires
        bound > 0,
    ensures
        r < bound,
{
    rand::Rng::gen_range(&mut rand::thread_rng(), 0..bound)
}

/// Relies on rand::Rng::gen_range on a half-open range, which returns a
/// sample inside the range and panics only when the range is empty.
#[verifier::external_body]
pub(crate) fn rand_i16_range(lo: i16, hi: i16) -> (r: i16)
    requires
        lo < hi,
    ensures
        lo <= r < hi,
{
    rand::Rng::gen_range(&mut rand::thread_rng(), lo..hi)
}

/// Relies on fastrand::usize on a half-open range, which returns a sample
/// inside the range and panics only when the range is empty.
#[verifier::external_body]
pub(crate) fn fastrand_usize_below(bound: usize) -> (r: usize)
    requires
        bound > 0,
    ensures
        r < bound,
{
    fastrand::usize(0..bound)
}

} // verus!
