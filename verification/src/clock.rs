//! The wall clock, in milliseconds since the Unix epoch.

use vstd::prelude::*;

verus! {

/// `std::time::SystemTime`, a point in time.
#[verifier::external_type_specification]
#[verifier::external_body]
pub struct ExSystemTime(std::time::SystemTime);

/// `std::time::SystemTimeError`, what std reports where a point in time is not
/// behind another.
#[verifier::external_type_specification]
#[verifier::external_body]
pub struct ExSystemTimeError(std::time::SystemTimeError);

/// `SystemTime::now`. What it gives is the machine's own.
#[verifier::external_body]
fn current_time() -> (r: std::time::SystemTime) {
    std::time::SystemTime::now()
}

/// `SystemTime::duration_since` the Unix epoch.
#[verifier::external_body]
fn since_epoch(t: std::time::SystemTime) -> (r: Result<
    std::time::Duration,
    std::time::SystemTimeError,
>) {
    t.duration_since(std::time::UNIX_EPOCH)
}

/// `Duration::as_millis`: the whole milliseconds of a span.
#[verifier::external_body]
fn whole_millis(d: std::time::Duration) -> (r: u128) {
    d.as_millis()
}

/// The clock stands before the Unix epoch.
#[derive(Debug, Clone, Copy, PartialEq, Eq, Structural)]
pub struct ClockBeforeEpoch;

/// What the clock says, given the milliseconds since the Unix epoch where it
/// stands behind it: the milliseconds, or the most that 64 bits can hold.
pub open spec fn clock_reading(millis: Option<u128>) -> Result<u64, ClockBeforeEpoch> {
    match millis {
        None => Err(ClockBeforeEpoch),
        Some(ms) => if ms <= u64::MAX {
            Ok(ms as u64)
        } else {
            Ok(u64::MAX)
        },
    }
}

/// What the clock says, given the milliseconds since the Unix epoch where it
/// stands behind it.
pub fn read_clock(millis: Option<u128>) -> (r: Result<u64, ClockBeforeEpoch>)
    ensures
        r == clock_reading(millis),
{
    match millis {
        None => Err(ClockBeforeEpoch),
        Some(ms) => if ms <= u64::MAX as u128 {
            Ok(ms as u64)
        } else {
            Ok(u64::MAX)
        },
    }
}

/// The wall-clock time in milliseconds since the Unix epoch.
///
/// The result is the machine's own: it is what [`read_clock`] makes of some
/// reading, and nothing more holds of every result.
pub fn now_ms() -> (r: Result<u64, ClockBeforeEpoch>)
    ensures
        exists|millis: Option<u128>| r == #[trigger] clock_reading(millis),
{
    let millis = match since_epoch(current_time()) {
        Ok(d) => Some(whole_millis(d)),
        Err(_) => None,
    };
    read_clock(millis)
}

} // verus!
