use std::time::{Duration, SystemTime, SystemTimeError, UNIX_EPOCH};
use vstd::prelude::*;

verus! {

/// `std::time::SystemTime`, carried through unread.
#[verifier::external_type_specification]
#[verifier::external_body]
pub struct ExSystemTime(SystemTime);

/// `std::time::SystemTimeError`, carried through unread.
#[verifier::external_type_specification]
#[verifier::external_body]
pub struct ExSystemTimeError(SystemTimeError);

/// `SystemTime::now` reads the clock: nothing is known of the result.
pub assume_specification[ SystemTime::now ]() -> SystemTime
;

/// `Duration::as_secs`: how long a reading of the clock turns out to be is not known.
pub assume_specification[ Duration::as_secs ](d: &Duration) -> u64
;

/// `SystemTime::duration_since` at the Unix epoch; it fails on a time before it.
#[verifier::external_body]
fn since_epoch(time: &SystemTime) -> std::result::Result<Duration, SystemTimeError> {
    time.duration_since(UNIX_EPOCH)
}

/// The signed number with the same 64 bits.
pub open spec fn signed(n: u64) -> int {
    if n < 0x8000_0000_0000_0000 {
        n as int
    } else {
        n - 0x1_0000_0000_0000_0000
    }
}

/// The unsigned number with the same 64 bits.
pub open spec fn unsigned(n: i64) -> int {
    if n >= 0 {
        n as int
    } else {
        n + 0x1_0000_0000_0000_0000
    }
}

/// Reinterprets the bits as a signed number.
pub(crate) fn to_signed(n: u64) -> (r: i64)
    ensures
        r == signed(n),
        unsigned(r) == n,
{
    assert(n < 0x8000_0000_0000_0000 ==> (n as i64) >= 0 && (n as i64) as u64 == n) by (bit_vector);
    assert(n >= 0x8000_0000_0000_0000 ==> (n as i64) < 0 && (n as i64) == n
        - 0x1_0000_0000_0000_0000) by (bit_vector);
    #[verifier::truncate]
    (n as i64)
}

/// Reinterprets the bits as an unsigned number.
pub(crate) fn to_unsigned(n: i64) -> (r: u64)
    ensures
        r == unsigned(n),
        signed(r) == n,
{
    assert(n < 0 ==> (n as u64) == n + 0x1_0000_0000_0000_0000) by (bit_vector);
    #[verifier::truncate]
    (n as u64)
}

/// The nearest number that 64 bits can hold.
pub open spec fn saturated(n: int) -> int {
    if n > i64::MAX {
        i64::MAX as int
    } else if n < i64::MIN {
        i64::MIN as int
    } else {
        n
    }
}

/// The time in seconds since the Unix epoch, from what the clock says; a clock before the epoch
/// counts as the epoch.
pub fn epoch_seconds(elapsed: Option<u64>) -> (r: i64)
    ensures
        r == (match elapsed {
            Some(seconds) => signed(seconds),
            None => 0,
        }),
{
    match elapsed {
        Some(seconds) => to_signed(seconds),
        None => 0,
    }
}

/// Whether this is what a clock that shows `time` counts: the whole seconds since the Unix epoch,
/// zero on a time before it.
spec fn counts_from_epoch(time: SystemTime, r: i64) -> bool {
    exists|elapsed: std::result::Result<Duration, SystemTimeError>|
        #[trigger] call_ensures(since_epoch, (&time,), elapsed) && match elapsed {
            Ok(d) => exists|seconds: u64|
                #[trigger] call_ensures(Duration::as_secs, (&d,), seconds) && r == signed(seconds),
            Err(_) => r == 0,
        }
}

/// Whether this is a time that the clock may give, in seconds since the Unix epoch.
pub closed spec fn clock_reading(r: i64) -> bool {
    exists|time: SystemTime|
        #[trigger] call_ensures(SystemTime::now, (), time) && counts_from_epoch(time, r)
}

/// The time in seconds since the Unix epoch. What the clock reads is not known beforehand.
pub fn now_epoch() -> (r: i64)
    ensures
        clock_reading(r),
{
    let time = SystemTime::now();
    match since_epoch(&time) {
        Ok(elapsed) => epoch_seconds(Some(elapsed.as_secs())),
        Err(_) => epoch_seconds(None),
    }
}

/// Numbers keep their value where 64 bits with a sign can hold them, and are read back from the same
/// bits as they were written in any case.
pub proof fn bits_keep_numbers(n: u64, m: i64)
    ensures
        n <= i64::MAX ==> signed(n) == n,
        m >= 0 ==> unsigned(m) == m,
        i64::MIN <= signed(n) <= i64::MAX,
        unsigned(signed(n) as i64) == n,
        0 <= unsigned(m) <= u64::MAX,
        signed(unsigned(m) as u64) == m,
{
}

/// A sum that 64 bits cannot hold stays at the end that it would pass; any other is kept.
pub proof fn saturation_stops_at_the_ends(n: int)
    ensures
        i64::MIN <= n <= i64::MAX ==> saturated(n) == n,
        n > i64::MAX ==> saturated(n) == i64::MAX,
        n < i64::MIN ==> saturated(n) == i64::MIN,
{
}

/// A clock before the epoch counts as the epoch; any other gives the seconds that it shows.
pub proof fn seconds_count_from_the_epoch(elapsed: Option<u64>, r: i64)
    requires
        call_ensures(epoch_seconds, (elapsed,), r),
    ensures
        elapsed is None ==> r == 0,
        elapsed matches Some(seconds) ==> seconds <= i64::MAX ==> r == seconds,
{
}

} // verus!
