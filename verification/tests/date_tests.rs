use yield_curves::date::{civil_from_days, days_from_civil, days_in_month, is_leap};
use yield_curves::{Date, DateError, Period, Unit, Weekday};

#[test]
fn epoch_serial_is_zero() {
    assert_eq!(Date::new(1970, 1, 1).unwrap().serial(), 0);
    assert_eq!(Date::new(1970, 1, 2).unwrap().serial(), 1);
    assert_eq!(Date::new(1969, 12, 31).unwrap().serial(), -1);
}

#[test]
fn ymd_roundtrips_over_wide_range() {
    // Walk every day across two centuries and check the serial round-trips
    // through civil_from_days back to the same (y, m, d).
    let start = Date::new(1900, 1, 1).unwrap().serial();
    let end = Date::new(2100, 12, 31).unwrap().serial();
    for s in start..=end {
        let (y, m, d) = civil_from_days(s);
        assert_eq!(days_from_civil(y, m, d), s, "roundtrip failed at serial {s}");
    }
}

#[test]
fn leap_year_rules() {
    assert!(is_leap(2000)); // divisible by 400
    assert!(!is_leap(1900)); // divisible by 100, not 400
    assert!(is_leap(2024));
    assert!(!is_leap(2023));
    assert!(Date::new(2024, 2, 29).unwrap().is_leap_year());
}

#[test]
fn days_in_month_handles_february() {
    assert_eq!(days_in_month(2024, 2), 29);
    assert_eq!(days_in_month(2023, 2), 28);
    assert_eq!(days_in_month(2024, 4), 30);
    assert_eq!(days_in_month(2024, 12), 31);
    assert_eq!(days_in_month(2024, 13), 0);
}

#[test]
fn weekday_known_anchors() {
    assert_eq!(Date::new(1970, 1, 1).unwrap().weekday(), Weekday::Thursday);
    assert_eq!(Date::new(2000, 1, 1).unwrap().weekday(), Weekday::Saturday);
    assert_eq!(Date::new(2024, 2, 29).unwrap().weekday(), Weekday::Thursday);
    assert_eq!(Date::new(2025, 6, 5).unwrap().weekday(), Weekday::Thursday);
}

#[test]
fn weekend_detection() {
    assert!(Date::new(2000, 1, 1).unwrap().is_weekend()); // Saturday
    assert!(Date::new(2000, 1, 2).unwrap().is_weekend()); // Sunday
    assert!(!Date::new(2000, 1, 3).unwrap().is_weekend()); // Monday
}

#[test]
fn rejects_invalid_dates() {
    assert!(Date::new(2023, 2, 29).is_err()); // not a leap year
    assert!(Date::new(2024, 0, 1).is_err()); // month 0
    assert!(Date::new(2024, 13, 1).is_err()); // month 13
    assert!(Date::new(2024, 1, 0).is_err()); // day 0
    assert!(Date::new(2024, 4, 31).is_err()); // April has 30
    assert!(Date::new(2024, 2, 29).is_ok()); // leap-year Feb 29 is fine
}

#[test]
fn day_arithmetic_and_difference() {
    let a = Date::new(2024, 1, 1).unwrap();
    let b = a.add_days(31);
    assert_eq!(b, Date::new(2024, 2, 1).unwrap());
    assert_eq!(a.days_until(b), 31);
    assert_eq!(b - a, 31);
    assert_eq!(a.add_days(-1), Date::new(2023, 12, 31).unwrap());
}

#[test]
fn add_months_clamps_end_of_month() {
    let jan31 = Date::new(2021, 1, 31).unwrap();
    assert_eq!(jan31 + Period::months(1), Date::new(2021, 2, 28).unwrap());

    let jan31_leap = Date::new(2020, 1, 31).unwrap();
    assert_eq!(jan31_leap + Period::months(1), Date::new(2020, 2, 29).unwrap());

    // Crossing a year boundary.
    assert_eq!(
        Date::new(2024, 11, 30).unwrap() + Period::months(3),
        Date::new(2025, 2, 28).unwrap()
    );
}

#[test]
fn add_years_handles_leap_day() {
    let leap = Date::new(2020, 2, 29).unwrap();
    assert_eq!(leap + Period::years(1), Date::new(2021, 2, 28).unwrap());
    assert_eq!(leap + Period::years(4), Date::new(2024, 2, 29).unwrap());
}

#[test]
fn subtract_period_moves_backward() {
    let d = Date::new(2025, 3, 31).unwrap();
    assert_eq!(d - Period::months(1), Date::new(2025, 2, 28).unwrap());
    assert_eq!(d - Period::days(1), Date::new(2025, 3, 30).unwrap());
    assert_eq!(d - Period::weeks(1), Date::new(2025, 3, 24).unwrap());
}

#[test]
fn add_period_weeks_and_days() {
    let d = Date::new(2025, 1, 1).unwrap();
    assert_eq!(d + Period::weeks(2), Date::new(2025, 1, 15).unwrap());
    assert_eq!(d + Period::days(10), Date::new(2025, 1, 11).unwrap());
}

#[test]
fn end_of_month_helpers() {
    let mid = Date::new(2024, 2, 15).unwrap();
    assert_eq!(mid.end_of_month(), Date::new(2024, 2, 29).unwrap());
    assert!(!mid.is_end_of_month());
    assert!(Date::new(2024, 2, 29).unwrap().is_end_of_month());
    assert!(Date::new(2025, 4, 30).unwrap().is_end_of_month());
}

#[test]
fn ordering_matches_calendar() {
    let a = Date::new(2024, 1, 1).unwrap();
    let b = Date::new(2024, 6, 1).unwrap();
    let c = Date::new(2025, 1, 1).unwrap();
    assert!(a < b);
    assert!(b < c);
    let mut v = vec![c, a, b];
    v.sort();
    assert_eq!(v, vec![a, b, c]);
}

#[test]
fn display_is_iso() {
    assert_eq!(Date::new(2025, 6, 5).unwrap().to_string(), "2025-06-05");
    assert_eq!(Date::new(999, 1, 9).unwrap().to_string(), "0999-01-09");
    assert_eq!(Period::months(3).to_string(), "3M");
    assert_eq!(Period::days(-5).to_string(), "-5D");
}

#[test]
fn serial_roundtrip_via_from_serial() {
    let d = Date::new(2030, 7, 4).unwrap();
    assert_eq!(Date::from_serial(d.serial()), d);
}

// ---------------------------------------------------------------------------

#[test]
fn ymd_accessors_agree() {
    let d = Date::new(2024, 2, 29).unwrap();
    assert_eq!(d.ymd(), (2024, 2, 29));
    assert_eq!(d.year(), 2024);
    assert_eq!(d.month(), 2);
    assert_eq!(d.day(), 29);
}

#[test]
fn negative_years_round_trip() {
    let d = Date::new(-44, 3, 15).unwrap();
    assert_eq!(d.ymd(), (-44, 3, 15));
    assert_eq!(d.to_string(), "-044-03-15");
    assert_eq!(Date::new(0, 2, 29).unwrap().ymd(), (0, 2, 29)); // year 0 is a leap year
}

#[test]
fn serial_extremes_have_valid_dates() {
    for s in [i32::MIN, i32::MIN + 1, -1, 0, i32::MAX - 1, i32::MAX] {
        let (y, m, d) = civil_from_days(s);
        assert!((1..=12).contains(&m));
        assert!(d >= 1 && d <= days_in_month(y, m));
        assert_eq!(days_from_civil(y, m, d), s);
        assert_eq!(Date::new(y, m, d).unwrap().serial(), s);
    }
}

#[test]
fn invalid_date_error_reports_the_triple() {
    let err = Date::new(2023, 2, 29).unwrap_err();
    assert_eq!(err, DateError::InvalidDate { year: 2023, month: 2, day: 29 });
    assert_eq!(err.to_string(), "invalid date: 2023-02-29");
}

#[test]
fn out_of_range_date_is_reported() {
    let err = Date::new(i32::MAX, 1, 1).unwrap_err();
    assert!(matches!(err, DateError::OutOfRange(_)));
    assert!(err.to_string().starts_with("date out of range: "));
    assert!(matches!(Date::new(-6_000_000, 1, 1), Err(DateError::OutOfRange(_))));
}

#[test]
fn weekday_numbers_and_weekend_flags() {
    assert_eq!(Weekday::Monday.number(), 1);
    assert_eq!(Weekday::Wednesday.number(), 3);
    assert_eq!(Weekday::Sunday.number(), 7);
    assert!(Weekday::Saturday.is_weekend());
    assert!(!Weekday::Friday.is_weekend());
}

#[test]
fn weekday_repeats_every_seven_days() {
    let d = Date::new(2025, 6, 5).unwrap();
    assert_eq!(d.add_days(7).weekday(), d.weekday());
    assert_eq!(d.add_days(-700).weekday(), d.weekday());
    assert_eq!(Date::from_serial(-1).weekday(), Weekday::Wednesday);
}

#[test]
fn period_constructors_and_text() {
    assert_eq!(Period::weeks(2), Period { num: 2, unit: Unit::Weeks });
    assert_eq!(Period::years(-1).to_string(), "-1Y");
    assert_eq!(Period::weeks(10).to_string(), "10W");
}

#[test]
fn add_then_subtract_days_is_identity() {
    let d = Date::new(2031, 12, 31).unwrap();
    assert_eq!(d.add_days(400).add_days(-400), d);
    assert_eq!(d.days_until(d.add_days(400)), 400);
}

#[test]
fn month_arithmetic_across_many_years() {
    let d = Date::new(2024, 1, 31).unwrap();
    assert_eq!(d + Period::months(-13), Date::new(2022, 12, 31).unwrap());
    assert_eq!(d + Period::months(25), Date::new(2026, 2, 28).unwrap());
    assert_eq!(d - Period::years(4), Date::new(2020, 1, 31).unwrap());
}
