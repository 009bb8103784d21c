use yield_curves::{
    easter, third_wednesday, Brazil, BusinessDayConvention, Calendar, Date, DateGeneration,
    DayCount, JoinCalendar, JoinRule, Period, Schedule, StubConvention, Target2, Unit, Weekday,
    YearFractionTerms,
};

fn approx(a: f64, b: f64, eps: f64) -> bool {
    (a - b).abs() < eps
}

/// The year fraction the pieces stand for.
fn value(t: YearFractionTerms) -> f64 {
    let v = t.first_days as f64 / t.first_basis as f64
        + t.whole_years as f64
        + t.last_days as f64 / t.last_basis as f64;
    if t.negative {
        -v
    } else {
        v
    }
}

/// Cross-currency payment: a date that is a holiday in either market must
/// roll off it under a joint calendar, and `advance` must skip it.
#[test]
fn multicurrency_joint_calendar() {
    let joint = JoinCalendar::new(vec![Box::new(Brazil), Box::new(Target2)], JoinRule::JoinHolidays);

    // Corpus Christi (2025-06-19) is a Brazil holiday but a TARGET2 business day.
    let corpus = Date::new(2025, 6, 19).unwrap();
    assert!(Target2.is_business_day(corpus));
    assert!(!joint.is_business_day(corpus), "joint must drop Corpus Christi");

    let rolled = joint.adjust(corpus, BusinessDayConvention::Following);
    assert!(joint.is_business_day(rolled));
    assert_eq!(rolled, Date::new(2025, 6, 20).unwrap());

    // Advancing one joint business day from the prior day skips Corpus Christi.
    let prev = Date::new(2025, 6, 18).unwrap();
    assert!(joint.is_business_day(prev));
    assert_eq!(joint.advance(prev, 1), Date::new(2025, 6, 20).unwrap());
}

/// IMM futures strip: third-Wednesday generation lands every pillar on the
/// third Wednesday of its quarter.
#[test]
fn imm_third_wednesday_schedule() {
    let sched = Schedule::builder(
        Date::new(2025, 3, 19).unwrap(),
        Date::new(2026, 3, 18).unwrap(),
        Period::months(3),
    )
    .rule(DateGeneration::ThirdWednesday)
    .convention(BusinessDayConvention::Unadjusted)
    .termination_convention(BusinessDayConvention::Unadjusted)
    .stub(StubConvention::ShortFront)
    .build()
    .unwrap();

    for &date in sched.dates() {
        assert_eq!(date.weekday(), Weekday::Wednesday, "{} not a Wednesday", date.to_string());
        assert_eq!(date, third_wednesday(date.year(), date.month()));
    }
}

/// A 2-year semiannual schedule on the Brazil calendar has five dates.
#[test]
fn semiannual_brazil_schedule_has_five_dates() {
    let sched = Schedule::builder(
        Date::new(2025, 1, 15).unwrap(),
        Date::new(2027, 1, 15).unwrap(),
        Period::months(6),
    )
    .calendar(Box::new(Brazil))
    .convention(BusinessDayConvention::ModifiedFollowing)
    .build()
    .unwrap();
    assert_eq!(sched.len(), 5);
}

/// Roll a 6-month maturity onto a Brazilian business day and count business
/// days to it.
#[test]
fn brazil_maturity_roll_and_count() {
    let cal = Brazil;
    let trade = Date::new(2025, 1, 2).unwrap();
    assert!(cal.is_business_day(trade));
    let maturity = cal.adjust(trade + Period::months(6), BusinessDayConvention::Following);
    assert_eq!(maturity, Date::new(2025, 7, 2).unwrap());
    let n = cal.business_days_between(trade, maturity);
    assert!(n > 0 && n < 182);
}

/// Day-count year fractions are additive over a schedule's partition: the sum
/// over consecutive periods equals the fraction over the whole interval.
#[test]
fn daycount_telescopes_over_schedule() {
    let sched = Schedule::builder(
        Date::new(2023, 3, 31).unwrap(),
        Date::new(2026, 3, 31).unwrap(),
        Period::months(6),
    )
    .convention(BusinessDayConvention::Unadjusted)
    .termination_convention(BusinessDayConvention::Unadjusted)
    .build()
    .unwrap();

    let dates = sched.dates();
    let whole_start = sched.effective_date();
    let whole_end = sched.termination_date();

    for dc in [DayCount::Act365Fixed, DayCount::ActActIsda, DayCount::Act360] {
        let piecewise: f64 = dates
            .windows(2)
            .map(|w| value(dc.year_fraction_terms(w[0], w[1])))
            .sum();
        let whole = value(dc.year_fraction_terms(whole_start, whole_end));
        assert!(
            approx(piecewise, whole, 1e-12),
            "{} not additive: {piecewise} vs {whole}",
            dc.name()
        );
    }
}

/// Touches the re-exported surface (Date arithmetic, Period units, Easter,
/// DayCount variants).
#[test]
fn public_api_surface_smoke() {
    // Date arithmetic and accessors.
    let d = Date::new(2024, 2, 29).unwrap();
    assert!(d.is_leap_year());
    assert_eq!((d + Period::years(1)).ymd(), (2025, 2, 28)); // EOM clamp
    assert_eq!(Period::weeks(1).unit, Unit::Weeks);
    assert_eq!(d.weekday(), Weekday::Thursday);

    // Easter anchor and every DayCount variant is callable.
    assert_eq!(easter(2025), Date::new(2025, 4, 20).unwrap());
    let (a, b) = (
        Date::new(2025, 1, 1).unwrap(),
        Date::new(2025, 7, 1).unwrap(),
    );
    for dc in [
        DayCount::Act360,
        DayCount::Act365Fixed,
        DayCount::ActActIsda,
        DayCount::Thirty360Us,
        DayCount::ThirtyE360,
    ] {
        assert!(value(dc.year_fraction_terms(a, b)) > 0.0);
    }
}
