use yield_curves::{
    third_wednesday, Brazil, BusinessDayConvention, Calendar, Date, DateGeneration, Period,
    Schedule, ScheduleBuilder, ScheduleError, StubConvention, Weekday,
};

fn d(y: i32, m: u32, day: u32) -> Date {
    Date::new(y, m, day).unwrap()
}

fn unadjusted_builder(eff: Date, term: Date, tenor: Period) -> ScheduleBuilder {
    Schedule::builder(eff, term, tenor)
        .convention(BusinessDayConvention::Unadjusted)
        .termination_convention(BusinessDayConvention::Unadjusted)
}

#[test]
fn third_wednesday_known() {
    // March 2025: Wednesdays are 5, 12, 19, 26 → third is the 19th.
    assert_eq!(third_wednesday(2025, 3), d(2025, 3, 19));
    // December 2025: Wednesdays 3, 10, 17, 24, 31 → third is the 17th.
    assert_eq!(third_wednesday(2025, 12), d(2025, 12, 17));
}

#[test]
fn backward_even_periods_no_stub() {
    let s = unadjusted_builder(d(2024, 1, 15), d(2025, 1, 15), Period::months(6)).build().unwrap();
    assert_eq!(s.dates(), &[d(2024, 1, 15), d(2024, 7, 15), d(2025, 1, 15)]);
    assert_eq!(s.len(), 3);
    assert_eq!(s.effective_date(), d(2024, 1, 15));
    assert_eq!(s.termination_date(), d(2025, 1, 15));
}

#[test]
fn backward_short_front_stub() {
    let s = unadjusted_builder(d(2024, 2, 10), d(2026, 1, 15), Period::months(6)).build().unwrap();
    assert_eq!(
        s.dates(),
        &[
            d(2024, 2, 10), // short front stub
            d(2024, 7, 15),
            d(2025, 1, 15),
            d(2025, 7, 15),
            d(2026, 1, 15),
        ]
    );
}

#[test]
fn backward_long_front_stub() {
    let s = unadjusted_builder(d(2024, 2, 10), d(2026, 1, 15), Period::months(6))
        .stub(StubConvention::LongFront)
        .build()
        .unwrap();
    // First regular date (2024-07-15) merged into a long initial period.
    assert_eq!(s.dates(), &[d(2024, 2, 10), d(2025, 1, 15), d(2025, 7, 15), d(2026, 1, 15)]);
}

#[test]
fn forward_short_back_stub() {
    let s = unadjusted_builder(d(2024, 1, 15), d(2025, 4, 10), Period::months(6))
        .rule(DateGeneration::Forward)
        .build()
        .unwrap();
    assert_eq!(
        s.dates(),
        &[
            d(2024, 1, 15),
            d(2024, 7, 15),
            d(2025, 1, 15),
            d(2025, 4, 10), // short back stub
        ]
    );
}

#[test]
fn forward_long_back_stub() {
    let s = unadjusted_builder(d(2024, 1, 15), d(2025, 4, 10), Period::months(6))
        .rule(DateGeneration::Forward)
        .stub(StubConvention::LongBack)
        .build()
        .unwrap();
    // Last regular date (2025-01-15) merged into a long final period.
    assert_eq!(s.dates(), &[d(2024, 1, 15), d(2024, 7, 15), d(2025, 4, 10)]);
}

#[test]
fn zero_rule_is_endpoints_only() {
    let s = unadjusted_builder(d(2024, 1, 15), d(2034, 1, 15), Period::months(6))
        .rule(DateGeneration::Zero)
        .build()
        .unwrap();
    assert_eq!(s.dates(), &[d(2024, 1, 15), d(2034, 1, 15)]);
}

#[test]
fn end_of_month_rolling() {
    // Anchor 2024-07-31 is month-end; monthly backward dates roll to EOM.
    let s = unadjusted_builder(d(2024, 1, 31), d(2024, 7, 31), Period::months(1))
        .end_of_month(true)
        .build()
        .unwrap();
    assert_eq!(
        s.dates(),
        &[
            d(2024, 1, 31),
            d(2024, 2, 29), // leap-year February end
            d(2024, 3, 31),
            d(2024, 4, 30),
            d(2024, 5, 31),
            d(2024, 6, 30),
            d(2024, 7, 31),
        ]
    );
}

#[test]
fn third_wednesday_rule_snaps_dates() {
    // Quarterly IMM dates measured back from 2025-12-17 (3rd Wed Dec).
    let s = unadjusted_builder(d(2025, 3, 19), d(2025, 12, 17), Period::months(3))
        .rule(DateGeneration::ThirdWednesday)
        .build()
        .unwrap();
    assert_eq!(s.dates(), &[d(2025, 3, 19), d(2025, 6, 18), d(2025, 9, 17), d(2025, 12, 17)]);
}

#[test]
fn adjustment_moves_dates_to_business_days() {
    let s = Schedule::builder(d(2024, 1, 13), d(2024, 7, 13), Period::months(3))
        .calendar(Box::new(Brazil))
        .convention(BusinessDayConvention::Following)
        .build()
        .unwrap();
    for &date in s.dates() {
        assert!(Brazil.is_business_day(date), "{} should be adjusted", date.to_string());
    }
}

#[test]
fn rejects_empty_range() {
    let err = unadjusted_builder(d(2025, 1, 15), d(2025, 1, 15), Period::months(6)).build().unwrap_err();
    assert!(matches!(err, ScheduleError::EmptyRange { .. }));
}

#[test]
fn rejects_non_positive_tenor() {
    let err = unadjusted_builder(d(2024, 1, 15), d(2025, 1, 15), Period::months(0)).build().unwrap_err();
    assert!(matches!(err, ScheduleError::NonPositiveTenor(0)));
}

#[test]
fn rejects_stub_direction_mismatch() {
    let err = unadjusted_builder(d(2024, 1, 15), d(2025, 1, 15), Period::months(6))
        .rule(DateGeneration::Backward)
        .stub(StubConvention::ShortBack)
        .build()
        .unwrap_err();
    assert!(matches!(err, ScheduleError::StubDirectionMismatch { .. }));
}

#[test]
fn iteration_and_indexing() {
    let s = unadjusted_builder(d(2024, 1, 15), d(2025, 1, 15), Period::months(6)).build().unwrap();
    assert_eq!(s[0], d(2024, 1, 15));
    let collected: Vec<Date> = s.iter().copied().collect();
    assert_eq!(collected, s.dates().to_vec());
    assert_eq!((&s).into_iter().count(), 3);
}

// ---------------------------------------------------------------------------

#[test]
fn schedule_error_messages() {
    let err = unadjusted_builder(d(2025, 1, 15), d(2025, 1, 10), Period::months(6)).build().unwrap_err();
    assert_eq!(err.to_string(), "termination 2025-01-10 must be after effective 2025-01-15");
    assert_eq!(ScheduleError::NonPositiveTenor(-3).to_string(), "tenor must be positive, got -3");
    let err = unadjusted_builder(d(2024, 1, 15), d(2025, 1, 15), Period::months(6))
        .rule(DateGeneration::Forward)
        .stub(StubConvention::LongFront)
        .build()
        .unwrap_err();
    assert_eq!(err.to_string(), "stub LongFront is incompatible with rule Forward");
}

#[test]
fn zero_rule_ignores_tenor() {
    let s = unadjusted_builder(d(2024, 1, 15), d(2025, 1, 15), Period::months(0))
        .rule(DateGeneration::Zero)
        .build()
        .unwrap();
    assert_eq!(s.len(), 2);
}

#[test]
fn weekly_forward_schedule() {
    let s = unadjusted_builder(d(2025, 1, 1), d(2025, 1, 20), Period::weeks(1))
        .rule(DateGeneration::Forward)
        .build()
        .unwrap();
    assert_eq!(s.dates(), &[d(2025, 1, 1), d(2025, 1, 8), d(2025, 1, 15), d(2025, 1, 20)]);
}

#[test]
fn yearly_backward_schedule_with_day_tenor_error() {
    let s = unadjusted_builder(d(2020, 6, 30), d(2024, 6, 30), Period::years(1)).build().unwrap();
    assert_eq!(s.len(), 5);
    assert_eq!(s[2], d(2022, 6, 30));
    let err = unadjusted_builder(d(2020, 6, 30), d(2024, 6, 30), Period::days(-1)).build().unwrap_err();
    assert_eq!(err, ScheduleError::NonPositiveTenor(-1));
}

#[test]
fn adjustment_collapses_duplicates() {
    // Sat 2025-01-04 → Sun 2025-01-05, daily: both roll to Mon Jan 6, which
    // leaves a single date: no schedule.
    let err = Schedule::builder(d(2025, 1, 4), d(2025, 1, 5), Period::days(1))
        .convention(BusinessDayConvention::Following)
        .termination_convention(BusinessDayConvention::Following)
        .build()
        .unwrap_err();
    assert_eq!(err, ScheduleError::AdjustedDatesNotAscending { dates: vec![d(2025, 1, 6)] });
    assert_eq!(err.to_string(), "adjusted dates are not at least two strictly ascending dates");
    // Duplicates inside a longer schedule are removed: Fri 2025-01-03 and the
    // weekend days all roll to Monday, later days stay.
    let s = Schedule::builder(d(2025, 1, 3), d(2025, 1, 7), Period::days(1))
        .rule(DateGeneration::Forward)
        .convention(BusinessDayConvention::Following)
        .termination_convention(BusinessDayConvention::Following)
        .build()
        .unwrap();
    assert_eq!(s.dates(), &[d(2025, 1, 3), d(2025, 1, 6), d(2025, 1, 7)]);
    assert!(!s.is_empty());
}

#[test]
fn third_wednesdays_are_wednesdays() {
    for y in 2020..2030 {
        for m in 1..=12 {
            let w = third_wednesday(y, m);
            assert_eq!(w.weekday(), Weekday::Wednesday);
            assert!((15..=21).contains(&w.day()));
            assert_eq!(w.month(), m);
        }
    }
}

fn ascending(s: &Schedule) -> bool {
    s.dates().windows(2).all(|w| w[0] < w[1])
}

#[test]
fn schedules_are_strictly_ascending_under_one_convention() {
    let eff = d(2024, 1, 31);
    let term = d(2026, 11, 30);
    for conv in [
        BusinessDayConvention::Unadjusted,
        BusinessDayConvention::Following,
        BusinessDayConvention::ModifiedFollowing,
        BusinessDayConvention::Preceding,
        BusinessDayConvention::ModifiedPreceding,
    ] {
        for rule in [
            DateGeneration::Backward,
            DateGeneration::Forward,
            DateGeneration::Zero,
            DateGeneration::ThirdWednesday,
        ] {
            for tenor in [Period::months(1), Period::months(3), Period::weeks(2), Period::years(1)] {
                let s = Schedule::builder(eff, term, tenor)
                    .calendar(Box::new(Brazil))
                    .convention(conv)
                    .termination_convention(conv)
                    .rule(rule)
                    .build()
                    .unwrap();
                assert!(ascending(&s), "{conv:?} {rule:?} {tenor:?}");
            }
        }
    }
}

#[test]
fn schedule_endpoints_are_adjusted_effective_and_termination() {
    // 2025-03-01 is a Saturday, 2025-09-07 a Sunday (and Independence Day).
    let eff = d(2025, 3, 1);
    let term = d(2025, 9, 7);
    let s = Schedule::builder(eff, term, Period::months(2))
        .calendar(Box::new(Brazil))
        .convention(BusinessDayConvention::Following)
        .termination_convention(BusinessDayConvention::Preceding)
        .build()
        .unwrap();
    assert_eq!(s.effective_date(), Brazil.adjust(eff, BusinessDayConvention::Following));
    assert_eq!(s.termination_date(), Brazil.adjust(term, BusinessDayConvention::Preceding));
    assert_eq!(s.termination_date(), d(2025, 9, 5));
    assert!(s.len() >= 2);
}

#[test]
fn mixed_conventions_can_break_order() {
    // Saturday effective rolled forward, Sunday termination rolled back: the
    // dates would run backwards, so nothing is built.
    let err = Schedule::builder(d(2025, 1, 4), d(2025, 1, 5), Period::days(1))
        .rule(DateGeneration::Zero)
        .convention(BusinessDayConvention::Following)
        .termination_convention(BusinessDayConvention::Preceding)
        .build()
        .unwrap_err();
    assert_eq!(
        err,
        ScheduleError::AdjustedDatesNotAscending { dates: vec![d(2025, 1, 6), d(2025, 1, 3)] }
    );
    // Saturday 2025-05-31 to Sunday 2025-06-01 under the same conventions.
    let err = Schedule::builder(d(2025, 5, 31), d(2025, 6, 1), Period::days(1))
        .rule(DateGeneration::Zero)
        .convention(BusinessDayConvention::Following)
        .termination_convention(BusinessDayConvention::Preceding)
        .build()
        .unwrap_err();
    assert!(matches!(err, ScheduleError::AdjustedDatesNotAscending { .. }));
    // Under the default ModifiedFollowing both ends land on Monday 2025-01-06.
    let err = Schedule::builder(d(2025, 1, 4), d(2025, 1, 5), Period::days(1))
        .rule(DateGeneration::Zero)
        .build()
        .unwrap_err();
    assert_eq!(err, ScheduleError::AdjustedDatesNotAscending { dates: vec![d(2025, 1, 6)] });
}

#[test]
fn built_schedules_have_two_ascending_dates() {
    let s = Schedule::builder(d(2025, 1, 15), d(2027, 1, 15), Period::months(6))
        .calendar(Box::new(Brazil))
        .build()
        .unwrap();
    assert!(s.len() >= 2);
    assert!(!s.is_empty());
    assert!(ascending(&s));
    assert_eq!(s.len(), s.dates().len());
}

#[test]
fn forward_end_of_month_rolling_from_effective() {
    // Effective 2023-02-28 is a month end; quarterly forward dates roll to
    // month ends, the stub ends on the (mid-month) termination date.
    let s = unadjusted_builder(d(2023, 2, 28), d(2024, 1, 15), Period::months(3))
        .rule(DateGeneration::Forward)
        .end_of_month(true)
        .build()
        .unwrap();
    assert_eq!(
        s.dates(),
        &[d(2023, 2, 28), d(2023, 5, 31), d(2023, 8, 31), d(2023, 11, 30), d(2024, 1, 15)]
    );
    for w in &s.dates()[..s.len() - 1] {
        assert!(w.is_end_of_month());
    }
}
