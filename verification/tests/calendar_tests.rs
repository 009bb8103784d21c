use yield_curves::{
    easter, Brazil, BusinessDayConvention, Calendar, Date, JoinCalendar, JoinRule, Target2,
    WeekendsOnly,
};

fn d(y: i32, m: u32, day: u32) -> Date {
    Date::new(y, m, day).unwrap()
}

#[test]
fn easter_known_values() {
    assert_eq!(easter(2024), d(2024, 3, 31));
    assert_eq!(easter(2025), d(2025, 4, 20));
    assert_eq!(easter(2000), d(2000, 4, 23));
    assert_eq!(easter(2027), d(2027, 3, 28));
}

#[test]
fn weekends_only_marks_weekends() {
    let cal = WeekendsOnly;
    assert!(!cal.is_business_day(d(2025, 1, 4))); // Saturday
    assert!(!cal.is_business_day(d(2025, 1, 5))); // Sunday
    assert!(cal.is_business_day(d(2025, 1, 6))); // Monday
    assert!(cal.is_business_day(d(2025, 1, 1))); // New Year is a business day here
}

#[test]
fn brazil_fixed_holidays() {
    let cal = Brazil;
    assert!(!cal.is_business_day(d(2025, 1, 1))); // New Year (Wed)
    assert!(!cal.is_business_day(d(2025, 4, 21))); // Tiradentes (Mon)
    assert!(cal.is_holiday(d(2025, 4, 21)));
    assert!(cal.is_business_day(d(2025, 1, 2))); // Thursday, ordinary day
}

#[test]
fn brazil_moving_holidays_2025() {
    let cal = Brazil;
    // Easter 2025 = Apr 20.
    assert!(!cal.is_business_day(d(2025, 3, 3))); // Carnival Monday
    assert!(!cal.is_business_day(d(2025, 3, 4))); // Carnival Tuesday
    assert!(!cal.is_business_day(d(2025, 4, 18))); // Good Friday
    assert!(!cal.is_business_day(d(2025, 6, 19))); // Corpus Christi
}

#[test]
fn brazil_black_awareness_from_2024() {
    let cal = Brazil;
    // 2023-11-20 is a Monday and an ordinary business day (pre-national).
    assert!(cal.is_business_day(d(2023, 11, 20)));
    // 2024-11-20 is a Wednesday and now a national holiday.
    assert!(!cal.is_business_day(d(2024, 11, 20)));
}

#[test]
fn target2_holidays_2025() {
    let cal = Target2;
    assert!(!cal.is_business_day(d(2025, 1, 1)));
    assert!(!cal.is_business_day(d(2025, 4, 18))); // Good Friday
    assert!(!cal.is_business_day(d(2025, 4, 21))); // Easter Monday
    assert!(!cal.is_business_day(d(2025, 5, 1)));
    assert!(!cal.is_business_day(d(2025, 12, 26)));
    assert!(cal.is_business_day(d(2025, 12, 24))); // ordinary in TARGET2
}

#[test]
fn following_rolls_forward() {
    let cal = WeekendsOnly;
    // 2025-01-04 is Saturday → Monday Jan 6.
    let adj = cal.adjust(d(2025, 1, 4), BusinessDayConvention::Following);
    assert_eq!(adj, d(2025, 1, 6));
}

#[test]
fn preceding_rolls_backward() {
    let cal = WeekendsOnly;
    // 2025-01-05 is Sunday → Friday Jan 3.
    let adj = cal.adjust(d(2025, 1, 5), BusinessDayConvention::Preceding);
    assert_eq!(adj, d(2025, 1, 3));
}

#[test]
fn modified_following_stays_in_month() {
    let cal = WeekendsOnly;
    // 2025-05-31 is Saturday. Following → Jun 2 (next month) →
    // ModifiedFollowing rolls back to Fri May 30.
    let saturday = d(2025, 5, 31);
    assert_eq!(cal.adjust(saturday, BusinessDayConvention::Following), d(2025, 6, 2));
    let mf = cal.adjust(saturday, BusinessDayConvention::ModifiedFollowing);
    assert_eq!(mf, d(2025, 5, 30));
    assert_eq!(mf.month(), 5);
}

#[test]
fn modified_preceding_stays_in_month() {
    let cal = WeekendsOnly;
    // 2025-06-01 is Sunday. Preceding → May 30 (prev month) →
    // ModifiedPreceding rolls forward to Mon Jun 2.
    let sunday = d(2025, 6, 1);
    assert_eq!(cal.adjust(sunday, BusinessDayConvention::Preceding), d(2025, 5, 30));
    let mp = cal.adjust(sunday, BusinessDayConvention::ModifiedPreceding);
    assert_eq!(mp, d(2025, 6, 2));
    assert_eq!(mp.month(), 6);
}

#[test]
fn unadjusted_is_identity() {
    let cal = Brazil;
    let holiday = d(2025, 1, 1);
    assert_eq!(cal.adjust(holiday, BusinessDayConvention::Unadjusted), holiday);
}

#[test]
fn adjust_business_day_unchanged() {
    let cal = WeekendsOnly;
    let wed = d(2025, 1, 8);
    assert_eq!(cal.adjust(wed, BusinessDayConvention::Following), wed);
    assert_eq!(cal.adjust(wed, BusinessDayConvention::Preceding), wed);
}

#[test]
fn advance_business_days() {
    let cal = WeekendsOnly;
    // Friday Jan 3 2025 + 1 business day = Monday Jan 6.
    assert_eq!(cal.advance(d(2025, 1, 3), 1), d(2025, 1, 6));
    // Monday Jan 6 - 1 business day = Friday Jan 3.
    assert_eq!(cal.advance(d(2025, 1, 6), -1), d(2025, 1, 3));
    // Zero is identity even on a weekend.
    assert_eq!(cal.advance(d(2025, 1, 4), 0), d(2025, 1, 4));
}

#[test]
fn business_days_between_half_open() {
    let cal = WeekendsOnly;
    // [Mon Jan 6, Fri Jan 10) = Mon,Tue,Wed,Thu = 4.
    assert_eq!(cal.business_days_between(d(2025, 1, 6), d(2025, 1, 10)), 4);
    // Equal dates = 0; reversed = negative.
    assert_eq!(cal.business_days_between(d(2025, 1, 6), d(2025, 1, 6)), 0);
    assert_eq!(cal.business_days_between(d(2025, 1, 10), d(2025, 1, 6)), -4);
}

#[test]
fn business_days_between_differs_by_calendar() {
    // [2025-01-01, 2025-01-08): Jan 1 Wed,2,3 Fri, 4 Sat,5 Sun,6 Mon,7 Tue.
    let start = d(2025, 1, 1);
    let end = d(2025, 1, 8);
    // WeekendsOnly counts 1,2,3,6,7 = 5.
    assert_eq!(WeekendsOnly.business_days_between(start, end), 5);
    // Brazil drops Jan 1 (holiday) → 4.
    assert_eq!(Brazil.business_days_between(start, end), 4);
}

#[test]
fn join_holidays_is_intersection_of_business_days() {
    let joint = JoinCalendar::new(vec![Box::new(Brazil), Box::new(Target2)], JoinRule::JoinHolidays);
    // Corpus Christi 2025-06-19 (Thu): Brazil holiday, TARGET2 business.
    assert!(!joint.is_business_day(d(2025, 6, 19)));
    // Dec 26 2025 (Fri): TARGET2 holiday, Brazil business → not business.
    assert!(!joint.is_business_day(d(2025, 12, 26)));
    // An ordinary weekday in both is a business day.
    assert!(joint.is_business_day(d(2025, 1, 2)));
}

#[test]
fn join_business_days_is_union_of_business_days() {
    let joint =
        JoinCalendar::new(vec![Box::new(Brazil), Box::new(Target2)], JoinRule::JoinBusinessDays);
    // Corpus Christi: business in TARGET2 → business under JoinBusinessDays.
    assert!(joint.is_business_day(d(2025, 6, 19)));
    // Dec 26: business in Brazil → business.
    assert!(joint.is_business_day(d(2025, 12, 26)));
    // New Year is a holiday in both → not a business day.
    assert!(!joint.is_business_day(d(2025, 1, 1)));
    // Weekend remains non-business under either rule.
    assert!(!joint.is_business_day(d(2025, 1, 4)));
}

// ---------------------------------------------------------------------------

#[test]
fn calendar_names() {
    assert_eq!(WeekendsOnly.name(), "WeekendsOnly");
    assert_eq!(Brazil.name(), "Brazil");
    assert_eq!(Target2.name(), "TARGET2");
    let joint = JoinCalendar::new(vec![Box::new(Brazil)], JoinRule::JoinHolidays);
    assert_eq!(joint.name(), "Joint");
}

#[test]
fn easter_more_years_and_sunday() {
    assert_eq!(easter(1961), d(1961, 4, 2));
    assert_eq!(easter(2019), d(2019, 4, 21));
    assert_eq!(easter(2038), d(2038, 4, 25)); // latest possible
    assert_eq!(easter(2285), d(2285, 3, 22)); // earliest possible
    for y in 1583..2400 {
        let e = easter(y);
        assert_eq!(e.weekday(), yield_curves::Weekday::Sunday, "easter {y}");
        assert!(e.month() == 3 || e.month() == 4);
    }
}

#[test]
fn brazil_carnival_and_corpus_christi_follow_easter() {
    let e = easter(2026); // 2026-04-05
    assert_eq!(e, d(2026, 4, 5));
    assert!(!Brazil.is_business_day(e.add_days(-48)));
    assert!(!Brazil.is_business_day(e.add_days(-47)));
    assert!(!Brazil.is_business_day(e.add_days(-2)));
    assert!(!Brazil.is_business_day(e.add_days(60)));
    assert!(Brazil.is_business_day(e.add_days(-46))); // Ash Wednesday trades
    assert!(Target2.is_business_day(e.add_days(60)));
    assert!(!Target2.is_business_day(e.add_days(1))); // Easter Monday
}

#[test]
fn holiday_is_not_weekend() {
    // 2022-01-01 is a Saturday: a weekend, not a holiday.
    assert!(!Brazil.is_holiday(d(2022, 1, 1)));
    assert!(!Brazil.is_business_day(d(2022, 1, 1)));
    assert!(Brazil.is_holiday(d(2025, 12, 25)));
    assert!(!WeekendsOnly.is_holiday(d(2025, 12, 25)));
}

#[test]
fn advance_several_business_days_skips_holidays() {
    // Thu 2025-04-17 + 2 Brazil business days: skips Good Friday and the
    // weekend and Tiradentes (Mon Apr 21) → Tue Apr 22, Wed Apr 23.
    assert_eq!(Brazil.advance(d(2025, 4, 17), 2), d(2025, 4, 23));
    assert_eq!(Brazil.advance(d(2025, 4, 23), -2), d(2025, 4, 17));
    assert_eq!(WeekendsOnly.advance(d(2025, 1, 6), 10), d(2025, 1, 20));
}

#[test]
fn modified_conventions_keep_ordinary_rolls() {
    let cal = WeekendsOnly;
    // Saturday 2025-01-11: Following stays in January.
    assert_eq!(cal.adjust(d(2025, 1, 11), BusinessDayConvention::ModifiedFollowing), d(2025, 1, 13));
    assert_eq!(cal.adjust(d(2025, 1, 11), BusinessDayConvention::ModifiedPreceding), d(2025, 1, 10));
}

#[test]
fn empty_join_degenerates() {
    let all = JoinCalendar::new(Vec::new(), JoinRule::JoinHolidays);
    assert!(all.is_business_day(d(2025, 1, 4)));
    let none = JoinCalendar::new(Vec::new(), JoinRule::JoinBusinessDays);
    assert!(!none.is_business_day(d(2025, 1, 6)));
}

#[test]
fn joint_adjust_and_count() {
    let joint = JoinCalendar::new(vec![Box::new(Brazil), Box::new(Target2)], JoinRule::JoinHolidays);
    // Thu Dec 25 2025 and Fri Dec 26 closed → Mon Dec 29.
    assert_eq!(joint.adjust(d(2025, 12, 25), BusinessDayConvention::Following), d(2025, 12, 29));
    assert_eq!(joint.business_days_between(d(2025, 12, 22), d(2025, 12, 29)), 3);
}

#[test]
fn adjust_lands_on_nearest_business_day() {
    let cal = Brazil;
    let mut day = d(2025, 1, 1);
    while day <= d(2025, 12, 31) {
        let f = cal.adjust(day, BusinessDayConvention::Following);
        let p = cal.adjust(day, BusinessDayConvention::Preceding);
        assert!(cal.is_business_day(f) && cal.is_business_day(p));
        assert!(p <= day && day <= f);
        // Nothing between the date and its rolls is a business day.
        let mut t = day;
        while t < f {
            assert!(!cal.is_business_day(t));
            t = t.add_days(1);
        }
        let mut t = day;
        while t > p {
            assert!(!cal.is_business_day(t));
            t = t.add_days(-1);
        }
        if cal.is_business_day(day) {
            for conv in [
                BusinessDayConvention::Following,
                BusinessDayConvention::ModifiedFollowing,
                BusinessDayConvention::Preceding,
                BusinessDayConvention::ModifiedPreceding,
            ] {
                assert_eq!(cal.adjust(day, conv), day);
            }
        }
        day = day.add_days(1);
    }
}

#[test]
fn adjust_keeps_date_order() {
    let cal = Target2;
    for conv in [
        BusinessDayConvention::Following,
        BusinessDayConvention::ModifiedFollowing,
        BusinessDayConvention::Preceding,
        BusinessDayConvention::ModifiedPreceding,
    ] {
        let mut day = d(2025, 3, 1);
        while day < d(2025, 6, 1) {
            let next = day.add_days(1);
            assert!(cal.adjust(day, conv) <= cal.adjust(next, conv));
            day = next;
        }
    }
}

#[test]
fn business_day_counts_reverse_and_add_up() {
    let cal = Brazil;
    let a = d(2025, 1, 10);
    let b = d(2025, 4, 30);
    let c = d(2025, 9, 2);
    let ab = cal.business_days_between(a, b);
    let bc = cal.business_days_between(b, c);
    let ac = cal.business_days_between(a, c);
    assert_eq!(ab + bc, ac);
    assert_eq!(cal.business_days_between(b, a), -ab);
    assert_eq!(cal.business_days_between(c, a), -ac);
    assert_eq!(cal.business_days_between(a, a), 0);
}

#[test]
fn advance_then_count_gives_the_step() {
    let cal = Brazil;
    let start = d(2025, 2, 27);
    for n in 1..40 {
        let r = cal.advance(start, n);
        assert!(cal.is_business_day(r));
        assert_eq!(cal.business_days_between(start.add_days(1), r.add_days(1)), n);
        let back = cal.advance(start, -n);
        assert_eq!(cal.business_days_between(back, start), n);
    }
    assert_eq!(cal.advance(d(2025, 3, 1), 0), d(2025, 3, 1));
}

#[test]
fn single_member_join_matches_member() {
    for rule in [JoinRule::JoinHolidays, JoinRule::JoinBusinessDays] {
        let joint = JoinCalendar::new(vec![Box::new(Target2)], rule);
        let mut day = d(2025, 12, 20);
        while day < d(2026, 1, 10) {
            assert_eq!(joint.is_business_day(day), Target2.is_business_day(day));
            day = day.add_days(1);
        }
    }
}

#[test]
fn bus252_year_fraction() {
    let cal = WeekendsOnly;
    // 5 business days / 252.
    let days = cal.business_days_between(d(2025, 1, 1), d(2025, 1, 8));
    assert_eq!(days, 5);
    let yf = f64::from(days) / 252.0;
    assert!((yf - 5.0 / 252.0).abs() < 1e-12);
}
