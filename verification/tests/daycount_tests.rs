use yield_curves::{Date, DayCount, YearFractionTerms};

fn d(y: i32, m: u32, day: u32) -> Date {
    Date::new(y, m, day).unwrap()
}

#[test]
fn thirty_360_us_adjusts_d1_31() {
    // 2025-01-31 → 2025-02-28: d1 31→30, d2 28. 30*1 + (28-30) = 28.
    let n = DayCount::Thirty360Us.day_count(d(2025, 1, 31), d(2025, 2, 28));
    assert_eq!(n, 28);
}

#[test]
fn thirty_360_us_vs_30e_differ_on_d2_31() {
    // US: d2=31 but d1<=29 → d2 stays 31: 30*2 + (31-15) = 76.
    // 30E: d2 31→30: 30*2 + (30-15) = 75.
    let us = DayCount::Thirty360Us.day_count(d(2025, 1, 15), d(2025, 3, 31));
    let e = DayCount::ThirtyE360.day_count(d(2025, 1, 15), d(2025, 3, 31));
    assert_eq!(us, 76);
    assert_eq!(e, 75);
}

#[test]
fn thirty_e_360_adjusts_both_31() {
    // 2025-01-31 → 2025-03-31: both 31→30. 30*2 + 0 = 60.
    let n = DayCount::ThirtyE360.day_count(d(2025, 1, 31), d(2025, 3, 31));
    assert_eq!(n, 60);
}

#[test]
fn name_and_display() {
    assert_eq!(DayCount::Act360.name(), "act/360");
    assert_eq!(DayCount::ThirtyE360.to_string(), "30e/360");
}

// ---------------------------------------------------------------------------

#[test]
fn actual_conventions_count_calendar_days() {
    let (a, b) = (d(2024, 1, 1), d(2025, 1, 1));
    assert_eq!(DayCount::Act360.day_count(a, b), 366);
    assert_eq!(DayCount::Act365Fixed.day_count(a, b), 366);
    assert_eq!(DayCount::ActActIsda.day_count(a, b), 366);
    assert_eq!(DayCount::Act360.day_count(b, a), -366);
}

#[test]
fn thirty_360_half_year_and_reversal() {
    let (a, b) = (d(2025, 1, 1), d(2025, 7, 1));
    assert_eq!(DayCount::Thirty360Us.day_count(a, b), 180);
    assert_eq!(DayCount::Thirty360Us.day_count(b, a), -180);
    assert_eq!(DayCount::ThirtyE360.day_count(d(2023, 2, 28), d(2024, 2, 29)), 361);
}

#[test]
fn thirty_360_us_d2_rule_when_d1_is_30() {
    // d1 = 30 (> 29) → d2 31 becomes 30: 30*1 + 0 = 30.
    assert_eq!(DayCount::Thirty360Us.day_count(d(2025, 4, 30), d(2025, 5, 31)), 30);
}

#[test]
fn all_names() {
    assert_eq!(DayCount::Act365Fixed.name(), "act/365f");
    assert_eq!(DayCount::ActActIsda.name(), "act/act-isda");
    assert_eq!(DayCount::Thirty360Us.to_string(), "30/360-us");
}

/// The year fraction the pieces stand for.
fn value(t: YearFractionTerms) -> f64 {
    let v = t.first_days as f64 / t.first_basis as f64
        + t.whole_years as f64
        + t.last_days as f64 / t.last_basis as f64;
    if t.negative {
        -v
    } else {
        v
    }
}

fn yf(dc: DayCount, a: Date, b: Date) -> f64 {
    value(dc.year_fraction_terms(a, b))
}

fn approx(a: f64, b: f64) -> bool {
    (a - b).abs() < 1e-9
}

#[test]
fn act_360_basic() {
    // 2025-01-01 → 2025-07-01 is 181 actual days.
    let t = DayCount::Act360.year_fraction_terms(d(2025, 1, 1), d(2025, 7, 1));
    assert_eq!(
        t,
        YearFractionTerms {
            negative: false,
            first_days: 181,
            first_basis: 360,
            whole_years: 0,
            last_days: 0,
            last_basis: 360,
        }
    );
    assert!(approx(value(t), 181.0 / 360.0));
}

#[test]
fn act_365_fixed_basic() {
    assert!(approx(yf(DayCount::Act365Fixed, d(2025, 1, 1), d(2025, 7, 1)), 181.0 / 365.0));
}

#[test]
fn act_365_fixed_ignores_leap() {
    // A full leap year is 366/365 > 1 under ACT/365F.
    let t = DayCount::Act365Fixed.year_fraction_terms(d(2024, 1, 1), d(2025, 1, 1));
    assert_eq!((t.first_days, t.first_basis), (366, 365));
    assert!(approx(value(t), 366.0 / 365.0));
}

#[test]
fn act_act_isda_same_year_non_leap() {
    let t = DayCount::ActActIsda.year_fraction_terms(d(2025, 1, 1), d(2025, 7, 1));
    assert_eq!((t.first_days, t.first_basis, t.whole_years, t.last_days), (181, 365, 0, 0));
    assert!(approx(value(t), 181.0 / 365.0));
    let leap = DayCount::ActActIsda.year_fraction_terms(d(2024, 1, 1), d(2024, 3, 1));
    assert_eq!((leap.first_days, leap.first_basis), (60, 366));
}

#[test]
fn act_act_isda_full_leap_year_is_one() {
    let t = DayCount::ActActIsda.year_fraction_terms(d(2024, 1, 1), d(2025, 1, 1));
    assert_eq!(
        (t.first_days, t.first_basis, t.whole_years, t.last_days, t.last_basis),
        (366, 366, 0, 0, 365)
    );
    assert!(approx(value(t), 1.0));
}

#[test]
fn act_act_isda_isda_reference_example() {
    // ISDA 2006 worked example: 2003-11-01 → 2004-05-01,
    // 61 days of 2003 (/365) + 121 days of 2004 (/366).
    let t = DayCount::ActActIsda.year_fraction_terms(d(2003, 11, 1), d(2004, 5, 1));
    assert_eq!(
        (t.first_days, t.first_basis, t.whole_years, t.last_days, t.last_basis),
        (61, 365, 0, 121, 366)
    );
    let expected = 61.0 / 365.0 + 121.0 / 366.0;
    assert!(approx(value(t), expected));
    assert!(approx(value(t), 0.497_724_380_165_289));
}

#[test]
fn act_act_isda_multi_year_span() {
    // 2022-07-01 → 2025-07-01: 184/365 + 2 whole years + 181/365.
    let t = DayCount::ActActIsda.year_fraction_terms(d(2022, 7, 1), d(2025, 7, 1));
    assert_eq!(
        (t.first_days, t.first_basis, t.whole_years, t.last_days, t.last_basis),
        (184, 365, 2, 181, 365)
    );
    let expected = 184.0 / 365.0 + 2.0 + 181.0 / 365.0;
    assert!(approx(value(t), expected));
}

#[test]
fn thirty_360_us_half_year() {
    // 30*(7-1) + (1-1) = 180 → 0.5.
    let t = DayCount::Thirty360Us.year_fraction_terms(d(2025, 1, 1), d(2025, 7, 1));
    assert_eq!((t.first_days, t.first_basis), (180, 360));
    assert!(approx(value(t), 0.5));
    let e = DayCount::ThirtyE360.year_fraction_terms(d(2025, 1, 31), d(2025, 3, 31));
    assert_eq!((e.first_days, e.first_basis), (60, 360));
}

#[test]
fn same_date_is_zero() {
    for dc in [
        DayCount::Act360,
        DayCount::Act365Fixed,
        DayCount::ActActIsda,
        DayCount::Thirty360Us,
        DayCount::ThirtyE360,
    ] {
        let t = dc.year_fraction_terms(d(2025, 3, 15), d(2025, 3, 15));
        assert!(!t.negative);
        assert_eq!((t.first_days, t.whole_years, t.last_days), (0, 0, 0));
        assert_eq!(value(t), 0.0);
    }
}

#[test]
fn reversed_is_negated() {
    let a = d(2024, 2, 10);
    let b = d(2025, 8, 20);
    for dc in [
        DayCount::Act360,
        DayCount::Act365Fixed,
        DayCount::ActActIsda,
        DayCount::Thirty360Us,
        DayCount::ThirtyE360,
    ] {
        let fwd = dc.year_fraction_terms(a, b);
        let back = dc.year_fraction_terms(b, a);
        assert!(!fwd.negative);
        assert!(back.negative);
        assert_eq!(YearFractionTerms { negative: false, ..back }, fwd);
        assert!(approx(value(fwd), -value(back)));
    }
}

#[test]
fn actual_year_fractions_add_up_across_years() {
    let (a, b, c) = (d(2023, 10, 5), d(2024, 2, 29), d(2026, 3, 1));
    for dc in [DayCount::Act360, DayCount::Act365Fixed, DayCount::ActActIsda] {
        assert!(approx(yf(dc, a, b) + yf(dc, b, c), yf(dc, a, c)));
    }
}
