//! Lengths of time, as the deployment's clock counts them.
//!
//! `Duration` is opaque to the verifier; what the library needs of it is that a count of
//! milliseconds makes one, that different counts make different ones, and whether two are the
//! same.
use std::time::Duration;

use vstd::prelude::*;

verus! {

/// The duration `Duration::from_millis(ms)` makes.
pub uninterp spec fn millis_duration(ms: u64) -> Duration;

/// `Duration::from_millis`: the duration of `ms` milliseconds. Different counts of
/// milliseconds make different durations.
#[verifier::external_body]
pub(crate) fn duration_from_millis(ms: u64) -> (d: Duration)
    ensures
        d == millis_duration(ms),
        forall|other: u64| #[trigger] millis_duration(other) == d <==> other == ms,
{
    Duration::from_millis(ms)
}

/// `Duration == Duration`: whether the two are the same length of time.
#[verifier::external_body]
pub(crate) fn same_duration(a: &Duration, b: &Duration) -> (r: bool)
    ensures
        r == (*a == *b),
{
    a == b
}

} // verus!
