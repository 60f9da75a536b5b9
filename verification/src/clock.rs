//! The wall clock, as nanoseconds since the Unix epoch.
use std::time::Duration;
use std::time::SystemTime;
use std::time::SystemTimeError;
use vstd::prelude::*;

verus! {

/// `std::time::SystemTime`, carried through as an opaque value.
#[verifier::external_type_specification]
#[verifier::external_body]
pub struct ExSystemTime(SystemTime);

/// `std::time::SystemTimeError`, carried through as an opaque value.
#[verifier::external_type_specification]
#[verifier::external_body]
pub struct ExSystemTimeError(SystemTimeError);

/// `SystemTime::now` reads the system clock. Nothing is claimed of the
/// reading: two calls may differ in either direction.
pub assume_specification[ SystemTime::now ]() -> (t: SystemTime)
;

/// `SystemTime::duration_since` gives the time elapsed from `earlier` to
/// `t`, or an error when `earlier` is the later of the two. Nothing is claimed
/// of which it is, nor of the amount.
pub assume_specification[ SystemTime::duration_since ](t: &SystemTime, earlier: SystemTime) -> (r:
    Result<Duration, SystemTimeError>)
;

/// `Duration::as_secs` gives the whole seconds of a duration. Nothing is
/// claimed of the number.
pub assume_specification[ Duration::as_secs ](d: &Duration) -> (s: u64)
;

/// `Duration::subsec_nanos` gives the part of a duration below one second,
/// in nanoseconds; std documents that it is less than one billion.
pub assume_specification[ Duration::subsec_nanos ](d: &Duration) -> (n: u32)
    ensures
        n < 1_000_000_000,
;

/// The constant `std::time::UNIX_EPOCH`.
#[verifier::external_body]
fn unix_epoch() -> SystemTime {
    std::time::UNIX_EPOCH
}

/// Nanoseconds in one second.
pub const NANOS_PER_SEC: u128 = 1_000_000_000;

/// The largest reading that [`unix_nanos`] can give.
pub open spec fn max_unix_nanos() -> nat {
    (u64::MAX * 1_000_000_000 + 999_999_999) as nat
}

/// Whole seconds and the nanoseconds below a second, as one count of
/// nanoseconds.
pub open spec fn nanos_of(secs: nat, subsec: nat) -> nat {
    secs * 1_000_000_000 + subsec
}

/// Puts whole seconds and the nanoseconds below a second together as one
/// count of nanoseconds. This is what becomes of a reading of the clock.
pub fn to_nanos(secs: u64, subsec: u32) -> (ns: u128)
    ensures
        ns == nanos_of(secs as nat, subsec as nat),
{
    (secs as u128) * NANOS_PER_SEC + (subsec as u128)
}

/// Converts a count of whole seconds to nanoseconds.
pub fn secs_to_nanos(secs: u64) -> (ns: u128)
    ensures
        ns == nanos_of(secs as nat, 0),
        ns <= max_unix_nanos(),
{
    to_nanos(secs, 0)
}

/// Reads the system clock as nanoseconds since the Unix epoch.
///
/// `None` when the clock stands before the epoch, where there is no such
/// count. The reading itself is whatever the clock says: the seconds and
/// nanoseconds that it gives, put together by [`to_nanos`].
pub fn unix_nanos() -> (now: Option<u128>)
    ensures
        now matches Some(n) ==> n <= max_unix_nanos(),
{
    let t = SystemTime::now();
    match t.duration_since(unix_epoch()) {
        Ok(d) => {
            let secs: u64 = d.as_secs();
            let subsec: u32 = d.subsec_nanos();
            Some(to_nanos(secs, subsec))
        },
        Err(_) => None,
    }
}

} // verus!
