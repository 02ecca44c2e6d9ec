//! Time: an instant with the local offset from UTC, and the end of the
//! learner's day.
//!
//! Instants are whole seconds since 1970-01-01T00:00:00Z. The learner's day
//! ends at four in the morning, local time, so that a session that runs past
//! midnight still belongs to the day it began in.

use vstd::prelude::*;

verus! {

/// The first instant of the year 0: the earliest `LocalTime`.
pub const MIN_UNIX_SECS: i64 = -62_167_219_200;

/// The last second of the year 9999: the latest `LocalTime`.
pub const MAX_UNIX_SECS: i64 = 253_402_300_799;

/// Seconds in a day.
pub const SECS_PER_DAY: i64 = 86_400;

/// Seconds in an hour.
pub const SECS_PER_HOUR: i64 = 3_600;

/// The hour of the local day at which the learner's day ends.
pub const DAY_END_HOUR: i64 = 4;

/// An instant and the offset of local time from UTC at that instant, both in
/// seconds, as unbounded numbers.
pub struct Instant {
    /// Seconds since 1970-01-01T00:00:00Z.
    pub secs: int,
    /// Local time less UTC, in seconds.
    pub offset: int,
}

impl Instant {
    /// Whether a `LocalTime` can hold the instant: it lies in the years 0 to
    /// 9999, and local time is less than a day from UTC.
    pub open spec fn valid(self) -> bool {
        &&& MIN_UNIX_SECS <= self.secs <= MAX_UNIX_SECS
        &&& -SECS_PER_DAY < self.offset < SECS_PER_DAY
    }

    /// What a local clock shows, in seconds since its 1970-01-01T00:00:00.
    pub open spec fn local_secs(self) -> int {
        self.secs + self.offset
    }

    /// Seconds since the last local midnight.
    pub open spec fn second_of_day(self) -> int {
        self.local_secs() % (SECS_PER_DAY as int)
    }

    /// The hour that a local clock shows, from 0 to 23.
    pub open spec fn hour(self) -> int {
        self.second_of_day() / (SECS_PER_HOUR as int)
    }

    /// The instant at which the learner's day ends: the next time that a
    /// local clock shows 04:00:00. Before four in the morning that is on the
    /// same local day, and from four on it is on the next.
    pub open spec fn end_of_day(self) -> int {
        let midnight = self.secs - self.second_of_day();
        if self.hour() < DAY_END_HOUR {
            midnight + DAY_END_HOUR * SECS_PER_HOUR
        } else {
            midnight + SECS_PER_DAY + DAY_END_HOUR * SECS_PER_HOUR
        }
    }
}

/// The end of the day lies after the instant it is taken from, and no more
/// than a day after it. At the end of the day a local clock shows 04:00:00.
pub proof fn law_end_of_day_is_near(t: Instant)
    ensures
        t.secs < t.end_of_day() <= t.secs + SECS_PER_DAY,
        (Instant { secs: t.end_of_day(), offset: t.offset }).second_of_day() == DAY_END_HOUR
            * SECS_PER_HOUR,
{
}

/// An instant with the offset of local time from UTC.
#[derive(Clone, Copy, Debug)]
pub struct LocalTime {
    unix_secs: i64,
    utc_offset_secs: i32,
}

impl View for LocalTime {
    type V = Instant;

    closed spec fn view(&self) -> Instant {
        Instant { secs: self.unix_secs as int, offset: self.utc_offset_secs as int }
    }
}

impl LocalTime {
    #[verifier::type_invariant]
    spec fn in_range(self) -> bool {
        self@.valid()
    }

    /// The instant `unix_secs` seconds after 1970-01-01T00:00:00Z, where
    /// local time is `utc_offset_secs` seconds ahead of UTC; `None` outside
    /// the years 0 to 9999 and for an offset of a day or more.
    pub fn new(unix_secs: i64, utc_offset_secs: i32) -> (time: Option<LocalTime>)
        ensures
            match time {
                Some(t) => t@ == (Instant { secs: unix_secs as int, offset: utc_offset_secs as int })
                    && t@.valid(),
                None => !(Instant { secs: unix_secs as int, offset: utc_offset_secs as int }).valid(),
            },
    {
        if MIN_UNIX_SECS <= unix_secs && unix_secs <= MAX_UNIX_SECS && -86_400 < utc_offset_secs
            && utc_offset_secs < 86_400 {
            Some(LocalTime { unix_secs, utc_offset_secs })
        } else {
            None
        }
    }

    /// Seconds since 1970-01-01T00:00:00Z.
    pub fn unix_secs(&self) -> (secs: i64)
        ensures
            secs == self@.secs,
            self@.valid(),
    {
        proof {
            use_type_invariant(self);
        }
        self.unix_secs
    }

    /// Local time less UTC, in seconds.
    pub fn utc_offset_secs(&self) -> (offset: i32)
        ensures
            offset == self@.offset,
            self@.valid(),
    {
        proof {
            use_type_invariant(self);
        }
        self.utc_offset_secs
    }

    /// The instant at which the learner's day ends, in seconds since
    /// 1970-01-01T00:00:00Z.
    pub fn end_of_day(&self) -> (boundary: i64)
        ensures
            boundary == self@.end_of_day(),
            self@.secs < boundary <= self@.secs + SECS_PER_DAY,
    {
        proof {
            use_type_invariant(self);
        }
        let local: i64 = self.unix_secs + self.utc_offset_secs as i64;
        // A whole number of days that lifts every local time above zero.
        let lifted: u64 = (local + 719_529 * SECS_PER_DAY) as u64;
        let second_of_day: i64 = (lifted % 86_400) as i64;
        assert(second_of_day == self@.second_of_day());
        let midnight: i64 = self.unix_secs - second_of_day;
        if second_of_day / SECS_PER_HOUR < DAY_END_HOUR {
            midnight + DAY_END_HOUR * SECS_PER_HOUR
        } else {
            midnight + SECS_PER_DAY + DAY_END_HOUR * SECS_PER_HOUR
        }
    }
}

} // verus!
