//! Spans of time, counted in whole nanoseconds and milliseconds.

use core::time::Duration;
use vstd::prelude::*;

verus! {

/// The length of a span in nanoseconds.
pub uninterp spec fn span_nanos(d: Duration) -> nat;

/// The length of a span in whole milliseconds, the rest dropped.
pub open spec fn span_ms(d: Duration) -> nat {
    span_nanos(d) / 1_000_000
}

/// A count of milliseconds, capped at what 64 bits hold.
pub open spec fn clamp(ms: nat) -> u64 {
    if ms <= u64::MAX {
        ms as u64
    } else {
        u64::MAX
    }
}

/// Calls `Duration::as_nanos`: the total number of nanoseconds in the span,
/// which depends on the span alone.
#[verifier::external_body]
pub(crate) fn as_nanos(d: Duration) -> (n: u128)
    ensures
        n == span_nanos(d),
{
    d.as_nanos()
}

/// Calls the division of a `Duration` by a number: whole nanoseconds, the
/// rest dropped. Zero, on which the division panics, is left out.
#[verifier::external_body]
pub(crate) fn divided(d: Duration, by: u32) -> (r: Duration)
    requires
        by != 0,
    ensures
        span_nanos(r) == span_nanos(d) / (by as nat),
{
    d / by
}

/// Calls `Duration::from_millis`: a span of that many milliseconds.
#[verifier::external_body]
pub(crate) fn from_ms(ms: u64) -> (r: Duration)
    ensures
        span_nanos(r) == ms * 1_000_000,
{
    Duration::from_millis(ms)
}

/// The length of a span in whole milliseconds, capped at what 64 bits hold.
pub fn clamp_ms(d: Duration) -> (r: u64)
    ensures
        r == clamp(span_ms(d)),
{
    let ms: u128 = as_nanos(d) / 1_000_000;
    if ms <= 0xFFFF_FFFF_FFFF_FFFF {
        ms as u64
    } else {
        0xFFFF_FFFF_FFFF_FFFF
    }
}

} // verus!
