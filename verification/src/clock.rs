//! The time of day in milliseconds.
use std::time::{Duration, SystemTime, SystemTimeError};
use vstd::prelude::*;

verus! {

/// `std::time::SystemTime`, a reading of the clock.
#[verifier::external_type_specification]
#[verifier::external_body]
pub struct ExSystemTime(SystemTime);

/// `std::time::SystemTimeError`, that one reading is before another.
#[verifier::external_type_specification]
#[verifier::external_body]
pub struct ExSystemTimeError(SystemTimeError);

/// `SystemTime::now`: reads the clock, of which nothing is claimed.
pub assume_specification[ SystemTime::now ]() -> SystemTime;

/// `SystemTime::duration_since`: the time between two readings, of which nothing is claimed, as a
/// reading has no value here.
pub assume_specification[ SystemTime::duration_since ](
    later: &SystemTime,
    earlier: SystemTime,
) -> Result<Duration, SystemTimeError>;

/// `Duration::as_millis`: the whole milliseconds of a duration, of which nothing is claimed, as a
/// duration has no value here.
pub assume_specification[ Duration::as_millis ](duration: &Duration) -> u128;

/// The constant `std::time::UNIX_EPOCH`, of which nothing is claimed.
#[verifier::external_body]
fn unix_epoch() -> SystemTime {
    std::time::UNIX_EPOCH
}

/// What is kept of the milliseconds since the epoch that the clock shows: the low 64 bits, and zero
/// for a clock that is set before the epoch.
pub open spec fn kept_ms(since_epoch: Option<u128>) -> u64 {
    match since_epoch {
        Some(ms) => (ms % 0x1_0000_0000_0000_0000) as u64,
        None => 0,
    }
}

/// The milliseconds since the epoch that are kept of those that the clock shows.
pub fn epoch_ms(since_epoch: Option<u128>) -> (r: u64)
    ensures
        r == kept_ms(since_epoch),
{
    match since_epoch {
        Some(ms) => (ms % 0x1_0000_0000_0000_0000) as u64,
        None => 0,
    }
}

/// Whether a reading of the clock, held against the epoch, may give `since`.
spec fn read_against(
    now: SystemTime,
    epoch: SystemTime,
    since: Result<Duration, SystemTimeError>,
) -> bool {
    &&& call_ensures(SystemTime::now, (), now)
    &&& call_ensures(unix_epoch, (), epoch)
    &&& call_ensures(SystemTime::duration_since, (&now, epoch), since)
}

/// Whether a reading of the clock may be this far from the epoch.
spec fn reading(since: Result<Duration, SystemTimeError>) -> bool {
    exists|now: SystemTime, epoch: SystemTime| #[trigger] read_against(now, epoch, since)
}

/// Whether `since_epoch` are the whole milliseconds of a time since the epoch; none for a time
/// before it.
spec fn in_millis(since: Result<Duration, SystemTimeError>, since_epoch: Option<u128>) -> bool {
    match since {
        Ok(d) => since_epoch is Some && call_ensures(Duration::as_millis, (&d,), since_epoch->0),
        Err(_) => since_epoch is None,
    }
}

/// Whether the clock may show these milliseconds since the epoch: those of a reading of it, none
/// for a reading before the epoch.
pub closed spec fn clock_shows(since_epoch: Option<u128>) -> bool {
    exists|since: Result<Duration, SystemTimeError>|
        #[trigger] reading(since) && in_millis(since, since_epoch)
}

/// The time since the epoch in milliseconds: what is kept of a reading of the clock.
pub fn now_ms() -> (r: u64)
    ensures
        exists|since_epoch: Option<u128>| #[trigger]
            clock_shows(since_epoch) && r == kept_ms(since_epoch),
{
    let now: SystemTime = SystemTime::now();
    let epoch: SystemTime = unix_epoch();
    let since: Result<Duration, SystemTimeError> = now.duration_since(epoch);
    assert(read_against(now, epoch, since));
    let ghost taken = since;
    let since_epoch: Option<u128> = match since {
        Ok(d) => Some(d.as_millis()),
        Err(_) => None,
    };
    assert(reading(taken) && in_millis(taken, since_epoch));
    assert(clock_shows(since_epoch));
    epoch_ms(since_epoch)
}

} // verus!
