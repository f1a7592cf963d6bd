use spinoso::time::{Offset, Time, TimeError};

fn datetime() -> Time {
    // halfway through a second
    Time::utc(2019, 4, 7, 23, 59, 59, 500_000_000).unwrap()
}

#[test]
fn rounding() {
    let dt = Time::utc(2010, 3, 30, 5, 43, 25, 123_456_789).unwrap();
    assert_eq!(0, dt.round(0).nanoseconds());
    assert_eq!(100_000_000, dt.round(1).nanoseconds());
    assert_eq!(120_000_000, dt.round(2).nanoseconds());
    assert_eq!(123_000_000, dt.round(3).nanoseconds());
    assert_eq!(123_500_000, dt.round(4).nanoseconds());
    assert_eq!(123_460_000, dt.round(5).nanoseconds());
    assert_eq!(123_457_000, dt.round(6).nanoseconds());
    assert_eq!(123_456_800, dt.round(7).nanoseconds());
    assert_eq!(123_456_790, dt.round(8).nanoseconds());
    assert_eq!(123_456_789, dt.round(9).nanoseconds());
    assert_eq!(123_456_789, dt.round(10).nanoseconds());
    assert_eq!(123_456_789, dt.round(11).nanoseconds());
}

#[test]
fn rounding_rollup() {
    let dt = Time::utc(1999, 12, 31, 23, 59, 59, 900_000_000).unwrap();
    let rounded = dt.round(0);
    let dt_unix = dt.to_int();
    let rounded_unix = rounded.to_int();
    assert_eq!(0, rounded.nanoseconds());
    assert_eq!(dt_unix + 1, rounded_unix);
}

#[test]
fn add_int_to_time() {
    let dt = datetime();
    let succ: Time = dt.checked_add_u64(1).unwrap();
    assert_eq!(dt.to_int() + 1, succ.to_int());
    assert_eq!(dt.year(), succ.year());
    assert_eq!(dt.month(), succ.month());
    assert_ne!(dt.day(), succ.day());
    assert_ne!(dt.hour(), succ.hour());
    assert_ne!(dt.minute(), succ.minute());
    assert_eq!(succ.second(), 0);
    // handle in-exactitude of float arithmetic
    if succ.nanoseconds() > 500_000_000 {
        assert!(succ.nanoseconds() - 500_000_000 < 50);
    } else {
        assert!(500_000_000 - succ.nanoseconds() < 50);
    }
}

#[test]
fn sub_int_to_time() {
    let dt = datetime();
    let succ: Time = dt.checked_sub_u64(1).unwrap();
    assert_eq!(dt.to_int() - 1, succ.to_int());
    assert_eq!(dt.year(), succ.year());
    assert_eq!(dt.month(), succ.month());
    assert_eq!(dt.day(), succ.day());
    assert_eq!(dt.hour(), succ.hour());
    assert_eq!(dt.minute(), succ.minute());
    assert_eq!(succ.second(), 58);
    // handle in-exactitude of float arithmetic
    if succ.nanoseconds() > 500_000_000 {
        assert!(succ.nanoseconds() - 500_000_000 < 50);
    } else {
        assert!(500_000_000 - succ.nanoseconds() < 50);
    }
}

#[test]
fn utc_gives_the_calendar_fields_back() {
    let dt = datetime();
    assert_eq!(dt.to_int(), 1_554_681_599);
    assert_eq!(
        (dt.year(), dt.month(), dt.day(), dt.hour(), dt.minute(), dt.second()),
        (2019, 4, 7, 23, 59, 59)
    );
    assert_eq!(dt.nanoseconds(), 500_000_000);
    assert_eq!(dt.utc_offset(), 0);
}

#[test]
fn with_timespec_and_offset_projects_into_the_offset() {
    let dt = Time::with_timespec_and_offset(0, 0, Offset::Fixed(3600)).unwrap();
    assert_eq!((dt.year(), dt.month(), dt.day(), dt.hour()), (1970, 1, 1, 1));
    assert_eq!(dt.utc_offset(), 3600);
    let dt = Time::with_timespec_and_offset(86_400 + 61, 7, Offset::Utc).unwrap();
    assert_eq!(
        (dt.year(), dt.month(), dt.day(), dt.hour(), dt.minute(), dt.second()),
        (1970, 1, 2, 0, 1, 1)
    );
    assert_eq!(dt.nanoseconds(), 7);
}

#[test]
fn addition_carries_nanoseconds_into_seconds() {
    let dt = datetime();
    let sum = dt.checked_add(2, 700_000_000).unwrap();
    assert_eq!(sum.to_int(), dt.to_int() + 3);
    assert_eq!(sum.nanoseconds(), 200_000_000);
}

#[test]
fn addition_does_not_carry_exactly_one_second_of_nanoseconds() {
    let dt = datetime();
    let sum = dt.checked_add(0, 500_000_000).unwrap();
    assert_eq!(sum.to_int(), dt.to_int());
    assert_eq!(sum.nanoseconds(), 1_000_000_000);
}

#[test]
fn subtraction_borrows_a_second() {
    let dt = datetime();
    let difference = dt.checked_sub(1, 700_000_000).unwrap();
    assert_eq!(difference.to_int(), dt.to_int() - 2);
    assert_eq!(difference.nanoseconds(), 800_000_000);
}

#[test]
fn signed_seconds_go_both_ways() {
    let dt = datetime();
    assert_eq!(dt.checked_add_i64(-5).unwrap().to_int(), dt.to_int() - 5);
    assert_eq!(dt.checked_add_i64(5).unwrap().to_int(), dt.to_int() + 5);
    assert_eq!(dt.checked_sub_i64(-5).unwrap().to_int(), dt.to_int() + 5);
    assert_eq!(dt.checked_sub_i64(5).unwrap().to_int(), dt.to_int() - 5);
}

#[test]
fn seconds_that_do_not_fit_are_an_overflow() {
    let dt = datetime();
    assert_eq!(dt.checked_add_u64(u64::MAX).err(), Some(TimeError::IntOverflow));
    assert_eq!(dt.checked_sub_u64(u64::MAX).err(), Some(TimeError::IntOverflow));
    assert_eq!(dt.checked_add_i64(i64::MIN).err(), Some(TimeError::IntOverflow));
    assert_eq!(dt.checked_sub_i64(i64::MIN).err(), Some(TimeError::IntOverflow));
    assert_eq!(dt.checked_add_u64(i64::MAX as u64).err(), Some(TimeError::IntOverflow));
}

#[test]
fn times_beyond_the_calendar_are_out_of_range() {
    let dt = datetime();
    assert_eq!(
        dt.checked_add_u64(i64::MAX as u64 - 2_000_000_000).err(),
        Some(TimeError::OutOfRange)
    );
    assert_eq!(
        Time::with_timespec_and_offset(i64::MAX, 0, Offset::Utc).err(),
        Some(TimeError::OutOfRange)
    );
    assert_eq!(
        Time::with_timespec_and_offset(0, 0, Offset::Fixed(i32::MIN)).err(),
        Some(TimeError::OutOfRange)
    );
}

#[test]
fn parts_that_name_no_date_are_refused() {
    assert_eq!(Time::utc(2019, 2, 30, 0, 0, 0, 0).err(), Some(TimeError::InvalidComponent));
    assert_eq!(Time::utc(2019, 13, 1, 0, 0, 0, 0).err(), Some(TimeError::InvalidComponent));
    assert_eq!(
        Time::utc(2019, 1, 1, 0, 0, 0, 1_000_000_000).err(),
        Some(TimeError::InvalidComponent)
    );
}

#[test]
fn checked_round_agrees_with_round() {
    let dt = Time::utc(2010, 3, 30, 5, 43, 25, 987_654_321).unwrap();
    let rounded = dt.checked_round(2).unwrap();
    assert_eq!(rounded.nanoseconds(), 990_000_000);
    assert_eq!(rounded.to_int(), dt.to_int());
    let rounded = dt.checked_round(1).unwrap();
    assert_eq!(rounded.nanoseconds(), 0);
    assert_eq!(rounded.to_int(), dt.to_int() + 1);
    assert_eq!(dt.round(1).to_int(), dt.to_int() + 1);
}
