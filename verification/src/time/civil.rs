//! The calendar: the calls into the time zone crate that turn seconds
//! from the Unix epoch into a date and a time of day, and back.

use vstd::prelude::*;

verus! {

/// A date of the proleptic Gregorian calendar and a time of day.
#[derive(Debug, Clone, Copy, PartialEq, Eq, Structural)]
pub struct Civil {
    /// The year.
    pub year: i32,
    /// The month, from 1 to 12.
    pub month: u8,
    /// The day of the month, from 1 to 31.
    pub day: u8,
    /// The hour of the day, from 0 to 23.
    pub hour: u8,
    /// The minute of the hour, from 0 to 59.
    pub minute: u8,
    /// The second of the minute, from 0 to 60.
    pub second: u8,
}

/// The date and the time of day that `tz`'s
/// `DateTime::from_timespec_and_local` gives for a time at an offset of
/// `ut_offset` seconds from UTC, or `None` where it gives an error.
pub uninterp spec fn civil_of(unix_time: i64, nanoseconds: u32, ut_offset: i32) -> Option<Civil>;

/// The seconds from the Unix epoch that `tz`'s `DateTime::new` gives for a
/// date and a time of day at an offset of `ut_offset` seconds from UTC, or
/// `None` where it gives an error.
pub uninterp spec fn unix_time_of(
    year: i32,
    month: u8,
    day: u8,
    hour: u8,
    minute: u8,
    second: u8,
    nanoseconds: u32,
    ut_offset: i32,
) -> Option<i64>;

/// Calls `tz`'s `LocalTimeType::with_ut_offset` and
/// `DateTime::from_timespec_and_local`, and hands out the date and the time
/// of day of the result. The result is a function of the arguments alone.
#[verifier::external_body]
pub(crate) fn civil_time(unix_time: i64, nanoseconds: u32, ut_offset: i32) -> (civil: Option<Civil>)
    ensures
        civil == civil_of(unix_time, nanoseconds, ut_offset),
{
    let local = tz::timezone::LocalTimeType::with_ut_offset(ut_offset).ok()?;
    let found = tz::datetime::DateTime::from_timespec_and_local(unix_time, nanoseconds, local).ok()?;
    Some(
        Civil {
            year: found.year(),
            month: found.month(),
            day: found.month_day(),
            hour: found.hour(),
            minute: found.minute(),
            second: found.second(),
        },
    )
}

/// Calls `tz`'s `LocalTimeType::with_ut_offset` and `DateTime::new`, and
/// hands out the Unix time of the result. The result is a function of the
/// arguments alone.
#[verifier::external_body]
pub(crate) fn time_of_civil(
    year: i32,
    month: u8,
    day: u8,
    hour: u8,
    minute: u8,
    second: u8,
    nanoseconds: u32,
    ut_offset: i32,
) -> (unix_time: Option<i64>)
    ensures
        unix_time == unix_time_of(year, month, day, hour, minute, second, nanoseconds, ut_offset),
{
    let local = tz::timezone::LocalTimeType::with_ut_offset(ut_offset).ok()?;
    let found = tz::datetime::DateTime::new(
        year, month, day, hour, minute, second, nanoseconds, local,
    ).ok()?;
    Some(found.unix_time())
}

} // verus!
