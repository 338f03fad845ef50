//! Wall-clock readings in Unix milliseconds.

use vstd::prelude::*;

verus! {

/// `std::time::SystemTime`, carried opaquely.
#[verifier::external_type_specification]
#[verifier::external_body]
pub struct ExSystemTime(std::time::SystemTime);

/// `std::time::SystemTimeError`, carried opaquely.
#[verifier::external_type_specification]
#[verifier::external_body]
pub struct ExSystemTimeError(std::time::SystemTimeError);

/// Calls `std::time::SystemTime::now`. Nothing is claimed of the reading.
#[verifier::external_body]
fn system_now() -> std::time::SystemTime {
    std::time::SystemTime::now()
}

/// Calls `SystemTime::duration_since(UNIX_EPOCH)`. Nothing is claimed of
/// the outcome: it depends on the clock.
#[verifier::external_body]
fn since_unix_epoch(t: &std::time::SystemTime) -> std::result::Result<
    core::time::Duration,
    std::time::SystemTimeError,
> {
    t.duration_since(std::time::UNIX_EPOCH)
}

/// Calls `Duration::as_millis`. Nothing is claimed beyond the type.
#[verifier::external_body]
fn duration_millis(d: &core::time::Duration) -> u128 {
    d.as_millis()
}

/// Milliseconds since the Unix epoch from the elapsed milliseconds read
/// off the clock (`None` when the clock reads before the epoch): the count
/// truncated to `i64` as an `as` cast does, or 0.
pub fn ms_of(elapsed: Option<u128>) -> (m: i64)
    ensures
        m == match elapsed {
            Some(x) => x as i64,
            None => 0,
        },
{
    match elapsed {
        Some(x) => x as i64,
        None => 0,
    }
}

/// Milliseconds since the Unix epoch at the current clock reading (see
/// `ms_of`).
pub fn unix_ms() -> i64 {
    let elapsed = match since_unix_epoch(&system_now()) {
        Ok(d) => Some(duration_millis(&d)),
        Err(_) => None,
    };
    ms_of(elapsed)
}

} // verus!
