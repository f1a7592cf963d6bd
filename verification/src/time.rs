//! A point in time with nanosecond precision and a fixed offset from UTC,
//! with checked addition and subtraction of seconds and rounding of the
//! fraction of a second.

pub mod civil;

use crate::time::civil::{civil_of, civil_time, time_of_civil, unix_time_of, Civil};
use vstd::prelude::*;

verus! {

/// The number of nanoseconds in a second.
pub const NANOS_IN_SECOND: u32 = 1_000_000_000;

/// The offset of a time from UTC.
#[derive(Debug, Clone, Copy, PartialEq, Eq)]
pub enum Offset {
    /// No offset.
    Utc,
    /// A fixed number of seconds east of UTC.
    Fixed(i32),
}

/// Why a time could not be made.
#[derive(Debug, Clone, Copy, PartialEq, Eq)]
pub enum TimeError {
    /// A number of seconds does not fit the integer type that counts them.
    IntOverflow,
    /// The time lies outside the range of years that the calendar covers.
    OutOfRange,
    /// The parts of a date or of a time of day do not name one.
    InvalidComponent,
}

/// A point in time, counted in seconds and nanoseconds from the Unix
/// epoch, together with its calendar date and time of day at an offset from
/// UTC.
#[derive(Debug, Clone, Copy)]
pub struct Time {
    unix_time: i64,
    nanoseconds: u32,
    offset: Offset,
    civil: Civil,
}

impl Offset {
    /// The offset in seconds east of UTC.
    pub open spec fn seconds(self) -> i32 {
        match self {
            Offset::Utc => 0,
            Offset::Fixed(seconds) => seconds,
        }
    }

    /// The offset in seconds east of UTC.
    pub fn ut_offset(&self) -> (seconds: i32)
        ensures
            seconds == self.seconds(),
    {
        match self {
            Offset::Utc => 0,
            Offset::Fixed(seconds) => *seconds,
        }
    }
}

/// The seconds and nanoseconds that adding a duration to a time gives, or
/// `None` if the seconds do not fit an `i64`. A sum of exactly one second's
/// worth of nanoseconds is not carried over.
pub open spec fn sum_of(
    unix_time: i64,
    nanoseconds: u32,
    seconds: u64,
    subsec_nanos: u32,
) -> Option<(i64, u32)> {
    let carry: int = if nanoseconds + subsec_nanos > NANOS_IN_SECOND {
        1
    } else {
        0
    };
    if seconds > i64::MAX || unix_time + seconds + carry > i64::MAX || nanoseconds + subsec_nanos
        > u32::MAX {
        None
    } else {
        Some(
            (
                (unix_time + seconds + carry) as i64,
                (nanoseconds + subsec_nanos - carry * NANOS_IN_SECOND) as u32,
            ),
        )
    }
}

/// The seconds and nanoseconds that subtracting a duration from a time
/// gives, or `None` if the seconds do not fit an `i64`.
pub open spec fn difference_of(
    unix_time: i64,
    nanoseconds: u32,
    seconds: u64,
    subsec_nanos: u32,
) -> Option<(i64, u32)> {
    let borrow: int = if nanoseconds < subsec_nanos {
        1
    } else {
        0
    };
    if seconds > i64::MAX || unix_time - seconds - borrow < i64::MIN || nanoseconds
        + NANOS_IN_SECOND - subsec_nanos > u32::MAX {
        None
    } else {
        Some(
            (
                (unix_time - seconds - borrow) as i64,
                (nanoseconds + borrow * NANOS_IN_SECOND - subsec_nanos) as u32,
            ),
        )
    }
}

/// Ten to the power of `exponent`.
pub open spec fn pow10(exponent: nat) -> nat
    decreases exponent,
{
    if exponent == 0 {
        1
    } else {
        10 * pow10((exponent - 1) as nat)
    }
}

/// `nanoseconds` rounded to `digits` decimal digits of a second, half up;
/// the result may be a whole second.
pub open spec fn rounded_nanos(nanoseconds: u32, digits: u32) -> int {
    if digits >= 9 {
        nanoseconds as int
    } else {
        let unit = pow10((9 - digits) as nat) as int;
        let half = unit / 2;
        ((nanoseconds + half) / unit) * unit
    }
}

/// The seconds and nanoseconds of a time rounded to `digits` decimal
/// digits of a second. With nine digits or more they stay as they are.
pub open spec fn rounded(unix_time: i64, nanoseconds: u32, digits: u32) -> (int, int) {
    let nanos = rounded_nanos(nanoseconds, digits);
    if digits >= 9 {
        (unix_time as int, nanoseconds as int)
    } else if nanos >= NANOS_IN_SECOND {
        (unix_time + 1, nanos - NANOS_IN_SECOND)
    } else {
        (unix_time as int, nanos)
    }
}

impl Time {
    #[verifier::type_invariant]
    spec fn inv(self) -> bool {
        &&& self.nanoseconds <= NANOS_IN_SECOND
        &&& civil_of(self.unix_time, self.nanoseconds, self.offset.seconds()) == Some(self.civil)
    }

    /// The number of seconds from the Unix epoch.
    pub closed spec fn unix_time(self) -> i64 {
        self.unix_time
    }

    /// The nanoseconds within the second.
    pub closed spec fn nanos(self) -> u32 {
        self.nanoseconds
    }

    /// The offset from UTC.
    pub closed spec fn offset(self) -> Offset {
        self.offset
    }

    /// The time at `seconds` and `nanoseconds` from the Unix epoch, seen
    /// at `offset`, or the error `OutOfRange` if the calendar does not
    /// reach that far.
    pub closed spec fn at(seconds: i64, nanoseconds: u32, offset: Offset) -> Result<
        Time,
        TimeError,
    > {
        match civil_of(seconds, nanoseconds, offset.seconds()) {
            Some(civil) => Ok(Time { unix_time: seconds, nanoseconds, offset, civil }),
            None => Err(TimeError::OutOfRange),
        }
    }

    /// What [`Time::at`] gives: a time with the given seconds, nanoseconds
    /// and offset, where the calendar reaches that far.
    pub proof fn lemma_at(seconds: i64, nanoseconds: u32, offset: Offset)
        ensures
            Time::at(seconds, nanoseconds, offset) is Ok <==> civil_of(
                seconds,
                nanoseconds,
                offset.seconds(),
            ) is Some,
            Time::at(seconds, nanoseconds, offset) is Ok ==> {
                let time = Time::at(seconds, nanoseconds, offset)->Ok_0;
                time.unix_time() == seconds && time.nanos() == nanoseconds && time.offset()
                    == offset
            },
            Time::at(seconds, nanoseconds, offset) is Err ==> Time::at(
                seconds,
                nanoseconds,
                offset,
            ) == Err::<Time, TimeError>(TimeError::OutOfRange),
    {
    }

    /// The time that lies `seconds` and `subsec_nanos` nanoseconds after
    /// this one, or why there is none.
    pub open spec fn added(self, seconds: u64, subsec_nanos: u32) -> Result<Time, TimeError> {
        match sum_of(self.unix_time(), self.nanos(), seconds, subsec_nanos) {
            None => Err(TimeError::IntOverflow),
            Some((s, n)) => Time::at(s, n, self.offset()),
        }
    }

    /// The time that lies `seconds` and `subsec_nanos` nanoseconds before
    /// this one, or why there is none.
    pub open spec fn subtracted(self, seconds: u64, subsec_nanos: u32) -> Result<
        Time,
        TimeError,
    > {
        match difference_of(self.unix_time(), self.nanos(), seconds, subsec_nanos) {
            None => Err(TimeError::IntOverflow),
            Some((s, n)) => Time::at(s, n, self.offset()),
        }
    }

    /// The time at `seconds` and `nanoseconds` from the Unix epoch, seen
    /// at `offset`. Fails if the calendar does not reach that far.
    pub fn with_timespec_and_offset(seconds: i64, nanoseconds: u32, offset: Offset) -> (made: Result<
        Time,
        TimeError,
    >)
        requires
            nanoseconds <= NANOS_IN_SECOND,
        ensures
            made == Time::at(seconds, nanoseconds, offset),
    {
        match civil_time(seconds, nanoseconds, offset.ut_offset()) {
            Some(civil) => Ok(Time { unix_time: seconds, nanoseconds, offset, civil }),
            None => Err(TimeError::OutOfRange),
        }
    }

    /// The time of the given date and time of day in UTC. Fails if the
    /// parts do not name a date and a time of day, or if the calendar does
    /// not reach that far.
    pub fn utc(
        year: i32,
        month: u8,
        day: u8,
        hour: u8,
        minute: u8,
        second: u8,
        nanoseconds: u32,
    ) -> (made: Result<Time, TimeError>)
        ensures
            made == if nanoseconds >= NANOS_IN_SECOND {
                Err::<Time, TimeError>(TimeError::InvalidComponent)
            } else {
                match unix_time_of(year, month, day, hour, minute, second, nanoseconds, 0) {
                    Some(seconds) => Time::at(seconds, nanoseconds, Offset::Utc),
                    None => Err::<Time, TimeError>(TimeError::InvalidComponent),
                }
            },
    {
        if nanoseconds >= NANOS_IN_SECOND {
            return Err(TimeError::InvalidComponent);
        }
        match time_of_civil(year, month, day, hour, minute, second, nanoseconds, 0) {
            Some(seconds) => Time::with_timespec_and_offset(seconds, nanoseconds, Offset::Utc),
            None => Err(TimeError::InvalidComponent),
        }
    }

    /// The number of seconds from the Unix epoch.
    pub fn to_int(&self) -> (seconds: i64)
        ensures
            seconds == self.unix_time(),
    {
        self.unix_time
    }

    /// The nanoseconds within the second.
    pub fn nanoseconds(&self) -> (nanoseconds: u32)
        ensures
            nanoseconds == self.nanos(),
            nanoseconds <= NANOS_IN_SECOND,
    {
        proof {
            use_type_invariant(self);
        }
        self.nanoseconds
    }

    /// The offset from UTC in seconds.
    pub fn utc_offset(&self) -> (seconds: i32)
        ensures
            seconds == self.offset().seconds(),
    {
        self.offset.ut_offset()
    }

    /// The calendar date and the time of day at the offset of the time.
    pub fn civil(&self) -> (civil: Civil)
        ensures
            Some(civil) == civil_of(self.unix_time(), self.nanos(), self.offset().seconds()),
    {
        proof {
            use_type_invariant(self);
        }
        self.civil
    }

    /// The year.
    pub fn year(&self) -> (year: i32)
        ensures
            civil_of(self.unix_time(), self.nanos(), self.offset().seconds()) is Some,
            year == civil_of(self.unix_time(), self.nanos(), self.offset().seconds())->0.year,
    {
        self.civil().year
    }

    /// The month, from 1 to 12.
    pub fn month(&self) -> (month: u8)
        ensures
            civil_of(self.unix_time(), self.nanos(), self.offset().seconds()) is Some,
            month == civil_of(self.unix_time(), self.nanos(), self.offset().seconds())->0.month,
    {
        self.civil().month
    }

    /// The day of the month, from 1 to 31.
    pub fn day(&self) -> (day: u8)
        ensures
            civil_of(self.unix_time(), self.nanos(), self.offset().seconds()) is Some,
            day == civil_of(self.unix_time(), self.nanos(), self.offset().seconds())->0.day,
    {
        self.civil().day
    }

    /// The hour of the day, from 0 to 23.
    pub fn hour(&self) -> (hour: u8)
        ensures
            civil_of(self.unix_time(), self.nanos(), self.offset().seconds()) is Some,
            hour == civil_of(self.unix_time(), self.nanos(), self.offset().seconds())->0.hour,
    {
        self.civil().hour
    }

    /// The minute of the hour, from 0 to 59.
    pub fn minute(&self) -> (minute: u8)
        ensures
            civil_of(self.unix_time(), self.nanos(), self.offset().seconds()) is Some,
            minute == civil_of(self.unix_time(), self.nanos(), self.offset().seconds())->0.minute,
    {
        self.civil().minute
    }

    /// The second of the minute, from 0 to 60.
    pub fn second(&self) -> (second: u8)
        ensures
            civil_of(self.unix_time(), self.nanos(), self.offset().seconds()) is Some,
            second == civil_of(self.unix_time(), self.nanos(), self.offset().seconds())->0.second,
    {
        self.civil().second
    }

    /// The time that lies `seconds` and `subsec_nanos` nanoseconds after
    /// this one, at the same offset. Fails with `IntOverflow` if the number
    /// of seconds does not fit an `i64`, and with `OutOfRange` if the
    /// calendar does not reach that far.
    pub fn checked_add(self, seconds: u64, subsec_nanos: u32) -> (sum: Result<Time, TimeError>)
        requires
            subsec_nanos < NANOS_IN_SECOND,
        ensures
            sum == self.added(seconds, subsec_nanos),
    {
        proof {
            use_type_invariant(self);
        }
        if seconds > i64::MAX as u64 {
            return Err(TimeError::IntOverflow);
        }
        let duration_seconds = seconds as i64;
        let added = match self.unix_time.checked_add(duration_seconds) {
            Some(added) => added,
            None => return Err(TimeError::IntOverflow),
        };
        let mut nanoseconds = match self.nanoseconds.checked_add(subsec_nanos) {
            Some(nanoseconds) => nanoseconds,
            None => return Err(TimeError::IntOverflow),
        };
        let mut total = added;
        if nanoseconds > NANOS_IN_SECOND {
            total = match added.checked_add(1) {
                Some(total) => total,
                None => return Err(TimeError::IntOverflow),
            };
            nanoseconds = nanoseconds - NANOS_IN_SECOND;
        }
        Time::with_timespec_and_offset(total, nanoseconds, self.offset)
    }

    /// The time that lies `seconds` seconds after this one, or before it if
    /// `seconds` is negative.
    pub fn checked_add_i64(&self, seconds: i64) -> (sum: Result<Time, TimeError>)
        ensures
            seconds >= 0 ==> sum == self.added(seconds as u64, 0),
            i64::MIN < seconds < 0 ==> sum == self.subtracted((-seconds) as u64, 0),
            seconds == i64::MIN ==> sum == Err::<Time, TimeError>(TimeError::IntOverflow),
    {
        if seconds < 0 {
            if seconds == i64::MIN {
                Err(TimeError::IntOverflow)
            } else {
                self.checked_sub_u64((-seconds) as u64)
            }
        } else {
            self.checked_add_u64(seconds as u64)
        }
    }

    /// The time that lies `seconds` seconds after this one.
    pub fn checked_add_u64(&self, seconds: u64) -> (sum: Result<Time, TimeError>)
        ensures
            sum == self.added(seconds, 0),
    {
        (*self).checked_add(seconds, 0)
    }

    /// The time that lies `seconds` and `subsec_nanos` nanoseconds before
    /// this one, at the same offset. Fails with `IntOverflow` if the number
    /// of seconds does not fit an `i64`, and with `OutOfRange` if the
    /// calendar does not reach that far.
    pub fn checked_sub(self, seconds: u64, subsec_nanos: u32) -> (difference: Result<
        Time,
        TimeError,
    >)
        requires
            subsec_nanos < NANOS_IN_SECOND,
        ensures
            difference == self.subtracted(seconds, subsec_nanos),
    {
        proof {
            use_type_invariant(self);
        }
        if seconds > i64::MAX as u64 {
            return Err(TimeError::IntOverflow);
        }
        let duration_seconds = seconds as i64;
        let mut total = match self.unix_time.checked_sub(duration_seconds) {
            Some(total) => total,
            None => return Err(TimeError::IntOverflow),
        };
        let nanoseconds = match self.nanoseconds.checked_sub(subsec_nanos) {
            Some(nanoseconds) => nanoseconds,
            None => {
                total = match total.checked_sub(1) {
                    Some(total) => total,
                    None => return Err(TimeError::IntOverflow),
                };
                self.nanoseconds + NANOS_IN_SECOND - subsec_nanos
            },
        };
        Time::with_timespec_and_offset(total, nanoseconds, self.offset)
    }

    /// The time that lies `seconds` seconds before this one, or after it
    /// if `seconds` is negative.
    pub fn checked_sub_i64(self, seconds: i64) -> (difference: Result<Time, TimeError>)
        ensures
            seconds >= 0 ==> difference == self.subtracted(seconds as u64, 0),
            i64::MIN < seconds < 0 ==> difference == self.added((-seconds) as u64, 0),
            seconds == i64::MIN ==> difference == Err::<Time, TimeError>(TimeError::IntOverflow),
    {
        if seconds < 0 {
            if seconds == i64::MIN {
                Err(TimeError::IntOverflow)
            } else {
                self.checked_add_u64((-seconds) as u64)
            }
        } else {
            self.checked_sub_u64(seconds as u64)
        }
    }

    /// The time that lies `seconds` seconds before this one.
    pub fn checked_sub_u64(self, seconds: u64) -> (difference: Result<Time, TimeError>)
        ensures
            difference == self.subtracted(seconds, 0),
    {
        self.checked_sub(seconds, 0)
    }
    /// This time rounded to `digits` decimal digits of a second, half up,
    /// or why there is no such time.
    pub open spec fn rounding(self, digits: u32) -> Result<Time, TimeError> {
        let (seconds, nanos) = rounded(self.unix_time(), self.nanos(), digits);
        if seconds > i64::MAX {
            Err(TimeError::IntOverflow)
        } else {
            Time::at(seconds as i64, nanos as u32, self.offset())
        }
    }

    /// This time rounded to `digits` decimal digits of a second, half up.
    /// With nine digits or more the time stays as it is. The caller sees to
    /// it that the rounded time exists; [`Time::checked_round`] does so for
    /// every time.
    pub fn round(&self, digits: u32) -> (rounded: Time)
        requires
            self.rounding(digits) is Ok,
        ensures
            rounded == self.rounding(digits)->Ok_0,
    {
        proof {
            use_type_invariant(self);
        }
        if digits >= 9 {
            return *self;
        }
        let (seconds, nanos) = round_timespec(self.unix_time, self.nanoseconds, digits);
        match seconds {
            Some(seconds) => match Time::with_timespec_and_offset(seconds, nanos, self.offset) {
                Ok(rounded) => rounded,
                Err(_) => *self,
            },
            None => *self,
        }
    }

    /// This time rounded to `digits` decimal digits of a second, half up,
    /// or the reason why there is no such time: `IntOverflow` if its
    /// seconds do not fit an `i64`, and `OutOfRange` if the calendar does
    /// not reach that far.
    pub fn checked_round(&self, digits: u32) -> (rounded: Result<Time, TimeError>)
        ensures
            rounded == self.rounding(digits),
    {
        proof {
            use_type_invariant(self);
        }
        if digits >= 9 {
            return Ok(*self);
        }
        let (seconds, nanos) = round_timespec(self.unix_time, self.nanoseconds, digits);
        match seconds {
            Some(seconds) => match Time::with_timespec_and_offset(seconds, nanos, self.offset) {
                Ok(_) => Ok(self.round(digits)),
                Err(error) => Err(error),
            },
            None => Err(TimeError::IntOverflow),
        }
    }
}

/// Ten to the power of `exponent`.
pub fn pow10_u64(exponent: u32) -> (power: u64)
    requires
        exponent <= 9,
    ensures
        power == pow10(exponent as nat),
        1 <= power <= 1_000_000_000,
{
    proof {
        reveal_with_fuel(pow10, 10);
    }
    match exponent {
        0 => 1,
        1 => 10,
        2 => 100,
        3 => 1_000,
        4 => 10_000,
        5 => 100_000,
        6 => 1_000_000,
        7 => 10_000_000,
        8 => 100_000_000,
        _ => 1_000_000_000,
    }
}

/// The seconds and nanoseconds of a time rounded to `digits` decimal
/// digits of a second; no seconds if they do not fit an `i64`.
pub fn round_timespec(unix_time: i64, nanoseconds: u32, digits: u32) -> (parts: (Option<i64>, u32))
    requires
        nanoseconds <= NANOS_IN_SECOND,
        digits < 9,
    ensures
        parts.1 == rounded(unix_time, nanoseconds, digits).1,
        parts.1 < NANOS_IN_SECOND,
        rounded(unix_time, nanoseconds, digits).0 <= i64::MAX ==> parts.0 == Some(
            rounded(unix_time, nanoseconds, digits).0 as i64,
        ),
        rounded(unix_time, nanoseconds, digits).0 > i64::MAX ==> parts.0 is None,
{
    let unit = pow10_u64(9 - digits);
    let half = unit / 2;
    let shifted = nanoseconds as u64 + half;
    let whole = shifted / unit;
    proof {
        assert(whole * unit <= shifted) by (nonlinear_arith)
            requires
                whole == shifted / unit,
                unit > 0,
        ;
        assert(whole * unit >= 0) by (nonlinear_arith)
            requires
                whole >= 0,
                unit > 0,
        ;
    }
    let nanos = whole * unit;
    if nanos >= NANOS_IN_SECOND as u64 {
        let rest = (nanos - NANOS_IN_SECOND as u64) as u32;
        (unix_time.checked_add(1), rest)
    } else {
        (Some(unix_time), nanos as u32)
    }
}

} // verus!
