//! Reading the system clock.

use std::time::{Duration, SystemTime, UNIX_EPOCH};
use vstd::prelude::*;

verus! {

#[verifier::external_type_specification]
#[verifier::external_body]
pub struct ExSystemTime(SystemTime);

/// `SystemTime::now()`: the wall-clock time of the call. It depends on when
/// the call is made, so nothing is stated of it.
#[verifier::external_body]
fn system_now() -> SystemTime {
    SystemTime::now()
}

/// `t.duration_since(UNIX_EPOCH)`, `None` when the call reports an error
/// (`t` before the epoch). `t` is opaque here, so nothing is stated of the
/// result.
#[verifier::external_body]
fn since_epoch(t: &SystemTime) -> Option<Duration> {
    t.duration_since(UNIX_EPOCH).ok()
}

/// `Duration::as_nanos`. The duration is opaque here, so nothing is stated
/// of the result.
#[verifier::external_body]
fn duration_nanos(d: &Duration) -> u128 {
    d.as_nanos()
}

/// `Duration::as_secs`. The duration is opaque here, so nothing is stated
/// of the result.
#[verifier::external_body]
fn duration_secs(d: &Duration) -> u64 {
    d.as_secs()
}

/// Nanoseconds since the Unix epoch, truncated to 64 bits (0 if the clock
/// reads before the epoch).
pub(crate) fn now_ns() -> u64 {
    match since_epoch(&system_now()) {
        Some(d) => duration_nanos(&d) as u64,
        None => 0,
    }
}

/// Whole seconds since the Unix epoch (0 if the clock reads before the
/// epoch).
pub(crate) fn now_s() -> u64 {
    match since_epoch(&system_now()) {
        Some(d) => duration_secs(&d),
        None => 0,
    }
}

} // verus!
