//! The wall clock and the source of random ids.
use rand::Rng;
use vstd::prelude::*;

verus! {

/// `SystemTime::elapsed` on the Unix epoch, in milliseconds; 0 for a clock
/// that stands before the epoch. The result depends on the clock, so nothing
/// is stated of it.
#[verifier::external_body]
fn epoch_elapsed_millis() -> u128 {
    std::time::UNIX_EPOCH.elapsed().unwrap_or_default().as_millis()
}

/// `Rng::random` on the generator of the current thread. The result is
/// random, so nothing is stated of it.
#[verifier::external_body]
pub(crate) fn random_u128() -> u128 {
    rand::rng().random::<u128>()
}

/// `millis` as a 64 bit number, or the largest one if it does not fit.
pub fn clamp_millis(millis: u128) -> (r: u64)
    ensures
        r == if millis <= u64::MAX {
            millis as u64
        } else {
            u64::MAX
        },
{
    if millis <= 0xffff_ffff_ffff_ffff {
        millis as u64
    } else {
        0xffff_ffff_ffff_ffff
    }
}

/// Milliseconds since the Unix epoch, clamped to 64 bits.
pub(crate) fn now_millis() -> u64 {
    clamp_millis(epoch_elapsed_millis())
}

} // verus!
