//! Spans of time and clock readings.
//!
//! A clock reading is a number of nanoseconds since some fixed moment. A
//! deadline is a reading that lies ahead; it is wide enough for every interval
//! that can be configured.

use vstd::prelude::*;

verus! {

/// Nanoseconds in a millisecond.
pub const NANOS_PER_MS: u128 = 1_000_000;

/// A span of time.
#[derive(Debug, Clone, Copy, PartialEq, Eq, Structural)]
pub struct Duration {
    pub nanos: u128,
}

impl Duration {
    /// A span of so many milliseconds.
    pub fn from_millis(ms: u64) -> (r: Self)
        ensures
            r.nanos == ms * NANOS_PER_MS,
    {
        Duration { nanos: ms as u128 * NANOS_PER_MS }
    }

    /// A span of so many seconds.
    pub fn from_secs(secs: u64) -> (r: Self)
        ensures
            r.nanos == secs * 1000 * NANOS_PER_MS,
    {
        Duration { nanos: secs as u128 * 1000 * NANOS_PER_MS }
    }
}

/// The deadline so many milliseconds after a reading.
pub open spec fn after_ms(now: u64, ms: u64) -> int {
    now + ms * NANOS_PER_MS
}

/// The deadline so many milliseconds after a reading.
pub fn deadline(now: u64, ms: u64) -> (r: u128)
    ensures
        r == after_ms(now, ms),
{
    now as u128 + ms as u128 * NANOS_PER_MS
}

/// Whole milliseconds from a reading until a deadline, none where it has passed.
pub open spec fn ms_left(deadline: int, now: u64) -> int {
    if deadline > now {
        (deadline - now) / NANOS_PER_MS as int
    } else {
        0
    }
}

/// Whole milliseconds until a deadline, capped at the largest 64-bit number.
pub fn ms_until(deadline: u128, now: u64) -> (r: u64)
    ensures
        r == (if ms_left(deadline as int, now) <= u64::MAX {
            ms_left(deadline as int, now)
        } else {
            u64::MAX as int
        }),
{
    if deadline > now as u128 {
        let ms: u128 = (deadline - now as u128) / NANOS_PER_MS;
        if ms <= u64::MAX as u128 {
            ms as u64
        } else {
            u64::MAX
        }
    } else {
        0
    }
}

} // verus!
