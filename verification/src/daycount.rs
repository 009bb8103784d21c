//! Day-count conventions: how many days a convention counts between two
//! dates, and the exact integer pieces of the year fraction between them.
//!
//! The actual conventions count calendar days; the 30/360 family counts
//! months as 30 days with the ISDA 2006 §4.16(f)/(g) day-31 rules; ACT/ACT
//! ISDA splits an interval at year boundaries (§4.16(b)). A year fraction is
//! non-negative for ordered dates and the negative of the forward one for a
//! reversed pair.

use vstd::prelude::*;
use crate::civil::{civil_of, day_of, epoch_day, leap_year, month_of, valid_ymd, year_of};
use crate::date::{fits_i32, lemma_date_order, lemma_date_range, Date};

verus! {

broadcast use lemma_date_range;

/// A day-count convention.
#[derive(Debug, Clone, Copy, PartialEq, Eq, Hash, Structural)]
#[non_exhaustive]
pub enum DayCount {
    /// Actual days / 360.
    Act360,
    /// Actual days / 365 (leap years ignored).
    Act365Fixed,
    /// ACT/ACT ISDA: actual days, leap days weighted 1/366, others 1/365.
    ActActIsda,
    /// 30/360 "Bond Basis" (ISDA 2006 §4.16(f)). Also called 30/360 US.
    Thirty360Us,
    /// 30E/360 "Eurobond Basis" (ISDA 2006 §4.16(g)).
    ThirtyE360,
}

/// 30/360 count from `(y1, m1, d1)` to `(y2, m2, d2)` once the days have been
/// adjusted.
pub open spec fn thirty_360(y1: int, m1: int, d1: int, y2: int, m2: int, d2: int) -> int {
    360 * (y2 - y1) + 30 * (m2 - m1) + (d2 - d1)
}

/// 30/360 Bond Basis days between day numbers `a` and `b`: `d1` becomes 30
/// if it is 31; `d2` becomes 30 if it is 31 and the adjusted `d1` is over 29.
pub open spec fn days_30360_us_spec(a: int, b: int) -> int {
    let (y1, m1, d1) = civil_of(a);
    let (y2, m2, d2) = civil_of(b);
    let e1 = if d1 == 31 { 30 } else { d1 };
    let e2 = if d2 == 31 && e1 > 29 { 30 } else { d2 };
    thirty_360(y1, m1, e1, y2, m2, e2)
}

/// 30E/360 Eurobond Basis days between day numbers `a` and `b`: both day 31s
/// become 30.
pub open spec fn days_30e360_spec(a: int, b: int) -> int {
    let (y1, m1, d1) = civil_of(a);
    let (y2, m2, d2) = civil_of(b);
    let e1 = if d1 == 31 { 30 } else { d1 };
    let e2 = if d2 == 31 { 30 } else { d2 };
    thirty_360(y1, m1, e1, y2, m2, e2)
}

/// The number of days `dc` counts from day `a` to day `b`.
pub open spec fn day_count_spec(dc: DayCount, a: int, b: int) -> int {
    match dc {
        DayCount::Act360 | DayCount::Act365Fixed | DayCount::ActActIsda => b - a,
        DayCount::Thirty360Us => days_30360_us_spec(a, b),
        DayCount::ThirtyE360 => days_30e360_spec(a, b),
    }
}

/// The identifier of a convention.
pub open spec fn day_count_name(dc: DayCount) -> Seq<char> {
    match dc {
        DayCount::Act360 => "act/360"@,
        DayCount::Act365Fixed => "act/365f"@,
        DayCount::ActActIsda => "act/act-isda"@,
        DayCount::Thirty360Us => "30/360-us"@,
        DayCount::ThirtyE360 => "30e/360"@,
    }
}

impl DayCount {
    /// The number of days the convention counts between `start` and `end`.
    ///
    /// For the actual conventions this is the calendar day difference; for
    /// the 30/360 family it is the adjusted 30-day-month count. ACT/ACT has no
    /// single integer day count independent of the year boundary, so it
    /// returns the plain calendar difference.
    pub fn day_count(self, start: Date, end: Date) -> (r: i32)
        requires
            fits_i32(day_count_spec(self, start@, end@)),
        ensures
            r == day_count_spec(self, start@, end@),
    {
        match self {
            DayCount::Act360 | DayCount::Act365Fixed | DayCount::ActActIsda => end - start,
            DayCount::Thirty360Us => days_30360_us_wide(start, end) as i32,
            DayCount::ThirtyE360 => days_30e360_wide(start, end) as i32,
        }
    }

    /// Stable identifier, e.g. `"act/360"`, `"30e/360"`.
    pub fn name(self) -> (r: &'static str)
        ensures
            r@ == day_count_name(self),
    {
        match self {
            DayCount::Act360 => "act/360",
            DayCount::Act365Fixed => "act/365f",
            DayCount::ActActIsda => "act/act-isda",
            DayCount::Thirty360Us => "30/360-us",
            DayCount::ThirtyE360 => "30e/360",
        }
    }

    /// The identifier as an owned string.
    pub fn to_string(&self) -> (r: String)
        ensures
            r@ == day_count_name(*self),
    {
        self.name().to_owned()
    }
}

/// The integer pieces of a year fraction: the fraction is
/// `first_days / first_basis + whole_years + last_days / last_basis`,
/// negated when `negative` is set.
///
/// Every convention but ACT/ACT uses only the first piece (the counted days
/// over the basis); ACT/ACT ISDA splits the interval at year boundaries.
#[derive(Debug, Clone, Copy, PartialEq, Eq, Structural)]
pub struct YearFractionTerms {
    pub negative: bool,
    pub first_days: i64,
    pub first_basis: i64,
    pub whole_years: i64,
    pub last_days: i64,
    pub last_basis: i64,
}

/// Days in year `y`.
pub open spec fn year_basis(y: int) -> int {
    if leap_year(y) { 366 } else { 365 }
}

/// A year fraction made of one piece: `days / basis`.
pub open spec fn single_terms(days: int, basis: int) -> YearFractionTerms {
    YearFractionTerms {
        negative: false,
        first_days: days as i64,
        first_basis: basis as i64,
        whole_years: 0,
        last_days: 0,
        last_basis: basis as i64,
    }
}

/// The year-fraction pieces of `dc` from day `a` to day `b`, for `a <= b`.
pub open spec fn forward_terms(dc: DayCount, a: int, b: int) -> YearFractionTerms {
    match dc {
        DayCount::Act360 => single_terms(b - a, 360),
        DayCount::Act365Fixed => single_terms(b - a, 365),
        DayCount::Thirty360Us => single_terms(days_30360_us_spec(a, b), 360),
        DayCount::ThirtyE360 => single_terms(days_30e360_spec(a, b), 360),
        DayCount::ActActIsda => {
            let y1 = year_of(a);
            let y2 = year_of(b);
            if y1 == y2 {
                single_terms(b - a, year_basis(y1))
            } else {
                YearFractionTerms {
                    negative: false,
                    first_days: (epoch_day(y1 + 1, 1, 1) - a) as i64,
                    first_basis: year_basis(y1) as i64,
                    whole_years: (y2 - y1 - 1) as i64,
                    last_days: (b - epoch_day(y2, 1, 1)) as i64,
                    last_basis: year_basis(y2) as i64,
                }
            }
        },
    }
}

/// The year-fraction pieces of `dc` from day `a` to day `b`: the forward
/// pieces of the ordered pair, negated when `b` is before `a`.
pub open spec fn year_fraction_terms_spec(dc: DayCount, a: int, b: int) -> YearFractionTerms {
    if b < a {
        YearFractionTerms { negative: true, ..forward_terms(dc, b, a) }
    } else {
        forward_terms(dc, a, b)
    }
}

impl DayCount {
    /// The pieces of the year fraction from `start` to `end` (see
    /// [`YearFractionTerms`]): non-negative when `start <= end`, the negative
    /// of the forward value when reversed, zero days when the dates are
    /// equal.
    pub fn year_fraction_terms(self, start: Date, end: Date) -> (r: YearFractionTerms)
        ensures
            r == year_fraction_terms_spec(self, start@, end@),
    {
        if end.serial() < start.serial() {
            let t = self.forward_year_fraction_terms(end, start);
            YearFractionTerms { negative: true, ..t }
        } else {
            self.forward_year_fraction_terms(start, end)
        }
    }

    /// The pieces for `start <= end`.
    fn forward_year_fraction_terms(self, start: Date, end: Date) -> (r: YearFractionTerms)
        requires
            start@ <= end@,
        ensures
            r == forward_terms(self, start@, end@),
    {
        match self {
            DayCount::Act360 => single(end.serial() as i64 - start.serial() as i64, 360),
            DayCount::Act365Fixed => single(end.serial() as i64 - start.serial() as i64, 365),
            DayCount::Thirty360Us => single(days_30360_us_wide(start, end), 360),
            DayCount::ThirtyE360 => single(days_30e360_wide(start, end), 360),
            DayCount::ActActIsda => act_act_isda_terms(start, end),
        }
    }
}

/// One piece: `days / basis`.
fn single(days: i64, basis: i64) -> (r: YearFractionTerms)
    ensures
        r == single_terms(days as int, basis as int),
{
    YearFractionTerms {
        negative: false,
        first_days: days,
        first_basis: basis,
        whole_years: 0,
        last_days: 0,
        last_basis: basis,
    }
}

/// Days in `year`.
fn basis_of(year: i32) -> (r: i64)
    ensures
        r == year_basis(year as int),
{
    if crate::date::is_leap(year) { 366 } else { 365 }
}

/// ACT/ACT ISDA pieces for `start <= end` (ISDA 2006 §4.16(b)): the portion
/// in each calendar year over that year's length, whole years in between
/// counting 1 each.
fn act_act_isda_terms(start: Date, end: Date) -> (r: YearFractionTerms)
    requires
        start@ <= end@,
    ensures
        r == forward_terms(DayCount::ActActIsda, start@, end@),
{
    let y1 = start.year();
    let y2 = end.year();
    if y1 == y2 {
        return single(end.serial() as i64 - start.serial() as i64, basis_of(y1));
    }
    proof {
        lemma_date_order(start@, end@);
        crate::civil::lemma_civil_exists(start@);
        crate::civil::lemma_civil_exists(end@);
        crate::civil::lemma_year_range(y1 as int, month_of(start@), day_of(start@));
        crate::civil::lemma_year_range(y2 as int, month_of(end@), day_of(end@));
        assert(valid_ymd(y1 + 1, 1, 1));
        assert(valid_ymd(y2 as int, 1, 1));
        crate::civil::lemma_civil_of_epoch_day(y1 + 1, 1, 1);
        crate::civil::lemma_civil_of_epoch_day(y2 as int, 1, 1);
        // Jan 1 of the year after `start` and Jan 1 of `end`'s year lie in [start, end].
        lemma_date_order(start@, epoch_day(y1 + 1, 1, 1));
        lemma_date_order(epoch_day(y1 + 1, 1, 1), end@);
        lemma_date_order(epoch_day(y2 as int, 1, 1), end@);
        lemma_date_order(end@, epoch_day(y2 as int, 1, 1));
        lemma_date_order(end@, epoch_day(y1 + 1, 1, 1));
    }
    let next_year_start = crate::date::days_from_civil(y1 + 1, 1, 1);
    let end_year_start = crate::date::days_from_civil(y2, 1, 1);
    YearFractionTerms {
        negative: false,
        first_days: next_year_start as i64 - start.serial() as i64,
        first_basis: basis_of(y1),
        whole_years: y2 as i64 - y1 as i64 - 1,
        last_days: end.serial() as i64 - end_year_start as i64,
        last_basis: basis_of(y2),
    }
}

/// 30/360 "Bond Basis" adjusted day count (ISDA 2006 §4.16(f)), in `i64`
/// (no overflow for any pair of dates).
fn days_30360_us_wide(start: Date, end: Date) -> (r: i64)
    ensures
        r == days_30360_us_spec(start@, end@),
{
    let (y1, m1, d1u) = start.ymd();
    let (y2, m2, d2u) = end.ymd();
    let mut d1 = d1u as i64;
    let mut d2 = d2u as i64;
    if d1 == 31 {
        d1 = 30;
    }
    if d2 == 31 && d1 > 29 {
        d2 = 30;
    }
    proof {
        crate::civil::lemma_year_range(y1 as int, m1 as int, d1u as int);
        crate::civil::lemma_year_range(y2 as int, m2 as int, d2u as int);
    }
    360 * (y2 as i64 - y1 as i64) + 30 * (m2 as i64 - m1 as i64) + (d2 - d1)
}

/// 30E/360 "Eurobond Basis" adjusted day count (ISDA 2006 §4.16(g)), in
/// `i64`.
fn days_30e360_wide(start: Date, end: Date) -> (r: i64)
    ensures
        r == days_30e360_spec(start@, end@),
{
    let (y1, m1, d1u) = start.ymd();
    let (y2, m2, d2u) = end.ymd();
    let mut d1 = d1u as i64;
    let mut d2 = d2u as i64;
    if d1 == 31 {
        d1 = 30;
    }
    if d2 == 31 {
        d2 = 30;
    }
    proof {
        crate::civil::lemma_year_range(y1 as int, m1 as int, d1u as int);
        crate::civil::lemma_year_range(y2 as int, m2 as int, d2u as int);
    }
    360 * (y2 as i64 - y1 as i64) + 30 * (m2 as i64 - m1 as i64) + (d2 - d1)
}


/// A year fraction's pieces all vanish or are non-negative, and its bases
/// are positive.
pub open spec fn terms_non_negative(t: YearFractionTerms) -> bool {
    &&& t.first_days >= 0 && t.whole_years >= 0 && t.last_days >= 0
    &&& t.first_basis > 0 && t.last_basis > 0
}

/// The year fraction of a reversed pair is the negative of the forward one:
/// the same pieces with the sign flipped. Equal dates give zero days.
pub proof fn lemma_year_fraction_reversed(dc: DayCount, a: int, b: int)
    requires
        a != b,
    ensures
        year_fraction_terms_spec(dc, b, a) == (YearFractionTerms {
            negative: !year_fraction_terms_spec(dc, a, b).negative,
            ..year_fraction_terms_spec(dc, a, b)
        }),
{
}

/// From a date to itself every convention counts zero days.
pub proof fn lemma_year_fraction_same_date(dc: DayCount, a: int)
    ensures
        !year_fraction_terms_spec(dc, a, a).negative,
        year_fraction_terms_spec(dc, a, a).first_days == 0,
        year_fraction_terms_spec(dc, a, a).whole_years == 0,
        year_fraction_terms_spec(dc, a, a).last_days == 0,
{
}

/// From `a` to a date `b` not before it the year fraction is non-negative:
/// no piece is negative and no basis is zero.
pub proof fn lemma_year_fraction_non_negative(dc: DayCount, a: int, b: int)
    requires
        a <= b,
        fits_i32(a),
        fits_i32(b),
    ensures
        !year_fraction_terms_spec(dc, a, b).negative,
        terms_non_negative(year_fraction_terms_spec(dc, a, b)),
{
    lemma_date_order(a, b);
    crate::civil::lemma_civil_exists(a);
    crate::civil::lemma_civil_exists(b);
    let (y1, m1, d1) = civil_of(a);
    let (y2, m2, d2) = civil_of(b);
    crate::civil::lemma_year_range(y1, m1, d1);
    crate::civil::lemma_year_range(y2, m2, d2);
    if a == b {
        return;
    }
    match dc {
        DayCount::ActActIsda => {
            if y1 != y2 {
                assert(valid_ymd(y1 + 1, 1, 1));
                assert(valid_ymd(y2, 1, 1));
                crate::civil::lemma_civil_of_epoch_day(y1 + 1, 1, 1);
                crate::civil::lemma_civil_of_epoch_day(y2, 1, 1);
                lemma_date_order(a, epoch_day(y1 + 1, 1, 1));
                lemma_date_order(epoch_day(y1 + 1, 1, 1), a);
                lemma_date_order(b, epoch_day(y2, 1, 1));
            }
        },
        _ => {},
    }
}


/// The numerator of a year fraction's value over `terms_den`:
/// `first_days / first_basis + whole_years + last_days / last_basis`
/// brought to the common denominator `first_basis · last_basis`.
pub open spec fn terms_num(t: YearFractionTerms) -> int {
    t.first_days * t.last_basis + t.whole_years * t.first_basis * t.last_basis + t.last_days * t.first_basis
}

/// The common denominator of a year fraction's value.
pub open spec fn terms_den(t: YearFractionTerms) -> int {
    t.first_basis * t.last_basis
}

/// An actual-day convention: ACT/360, ACT/365F or ACT/ACT ISDA.
pub open spec fn is_actual(dc: DayCount) -> bool {
    dc == DayCount::Act360 || dc == DayCount::Act365Fixed || dc == DayCount::ActActIsda
}

/// Denominator of the year position of day `s` under `dc`.
pub open spec fn position_basis(dc: DayCount, s: int) -> int {
    match dc {
        DayCount::Act360 => 360,
        DayCount::Act365Fixed => 365,
        _ => year_basis(year_of(s)),
    }
}

/// Numerator of the year position of day `s` under an actual-day
/// convention: the day number (over 360 or 365), or for ACT/ACT ISDA the
/// year plus the part of it elapsed at `s` (over that year's length).
pub open spec fn position_num(dc: DayCount, s: int) -> int {
    match dc {
        DayCount::Act360 | DayCount::Act365Fixed => s,
        _ => year_of(s) * year_basis(year_of(s)) + (s - epoch_day(year_of(s), 1, 1)),
    }
}

/// Under an actual-day convention the year fraction from `a` to `b` is the
/// year position of `b` minus that of `a`.
pub proof fn lemma_actual_year_fraction_is_position_difference(dc: DayCount, a: int, b: int)
    requires
        is_actual(dc),
        a <= b,
        fits_i32(a),
        fits_i32(b),
    ensures
        terms_den(year_fraction_terms_spec(dc, a, b)) == position_basis(dc, a) * position_basis(dc, b),
        terms_num(year_fraction_terms_spec(dc, a, b))
            == position_num(dc, b) * position_basis(dc, a) - position_num(dc, a) * position_basis(dc, b),
{
    let t = year_fraction_terms_spec(dc, a, b);
    let ba = position_basis(dc, a);
    let bb = position_basis(dc, b);
    let pa = position_num(dc, a);
    let pb = position_num(dc, b);
    lemma_year_fraction_non_negative(dc, a, b);
    crate::civil::lemma_civil_exists(a);
    crate::civil::lemma_civil_exists(b);
    let (y1, m1, d1) = civil_of(a);
    let (y2, m2, d2) = civil_of(b);
    crate::civil::lemma_year_range(y1, m1, d1);
    crate::civil::lemma_year_range(y2, m2, d2);
    if dc == DayCount::ActActIsda && y1 != y2 {
        crate::civil::lemma_year_length(y1);
        let ja = epoch_day(y1, 1, 1);
        let jn = epoch_day(y1 + 1, 1, 1);
        let jb = epoch_day(y2, 1, 1);
        assert(jn - ja == ba);
        lemma_date_order(a, b);
        assert(t.first_days == jn - a && t.last_days == b - jb && t.whole_years == y2 - y1 - 1);
        assert(t.first_basis == ba && t.last_basis == bb);
        assert(terms_num(t) == pb * ba - pa * bb) by (nonlinear_arith)
            requires
                terms_num(t) == t.first_days * t.last_basis + t.whole_years * t.first_basis * t.last_basis
                    + t.last_days * t.first_basis,
                t.first_days == jn - a,
                t.last_days == b - jb,
                t.whole_years == y2 - y1 - 1,
                t.first_basis == ba,
                t.last_basis == bb,
                jn - ja == ba,
                pa == y1 * ba + (a - ja),
                pb == y2 * bb + (b - jb),
        ;
    } else {
        assert(t.first_basis == ba && t.last_basis == bb && t.whole_years == 0 && t.last_days == 0);
        assert(dc == DayCount::ActActIsda ==> ba == bb);
        assert(pb - pa == t.first_days);
        assert(terms_num(t) == pb * ba - pa * bb) by (nonlinear_arith)
            requires
                terms_num(t) == t.first_days * t.last_basis + t.whole_years * t.first_basis * t.last_basis
                    + t.last_days * t.first_basis,
                t.first_basis == ba,
                t.last_basis == bb,
                ba == bb,
                t.whole_years == 0,
                t.last_days == 0,
                pb - pa == t.first_days,
        ;
    }
}

/// Actual-day year fractions add up over adjacent periods: the fraction
/// from `a` to `b` plus the one from `b` to `c` is the one from `a` to `c`
/// (the values compared by cross-multiplication).
pub proof fn lemma_actual_year_fraction_additive(dc: DayCount, a: int, b: int, c: int)
    requires
        is_actual(dc),
        a <= b <= c,
        fits_i32(a),
        fits_i32(b),
        fits_i32(c),
    ensures
        ({
            let ab = year_fraction_terms_spec(dc, a, b);
            let bc = year_fraction_terms_spec(dc, b, c);
            let ac = year_fraction_terms_spec(dc, a, c);
            terms_num(ab) * terms_den(bc) * terms_den(ac) + terms_num(bc) * terms_den(ab) * terms_den(ac)
                == terms_num(ac) * terms_den(ab) * terms_den(bc)
        }),
{
    lemma_actual_year_fraction_is_position_difference(dc, a, b);
    lemma_actual_year_fraction_is_position_difference(dc, b, c);
    lemma_actual_year_fraction_is_position_difference(dc, a, c);
    let ab = year_fraction_terms_spec(dc, a, b);
    let bc = year_fraction_terms_spec(dc, b, c);
    let ac = year_fraction_terms_spec(dc, a, c);
    let (ba, bb, bc_) = (position_basis(dc, a), position_basis(dc, b), position_basis(dc, c));
    let (pa, pb, pc) = (position_num(dc, a), position_num(dc, b), position_num(dc, c));
    let (nab, nbc, nac) = (terms_num(ab), terms_num(bc), terms_num(ac));
    let (dab, dbc, dac) = (terms_den(ab), terms_den(bc), terms_den(ac));
    assert(nab * bc_ + nbc * ba == nac * bb) by (nonlinear_arith)
        requires
            nab == pb * ba - pa * bb,
            nbc == pc * bb - pb * bc_,
            nac == pc * ba - pa * bc_,
    ;
    let k = ba * bb * bc_;
    assert(nab * dbc * dac == (nab * bc_) * k) by (nonlinear_arith)
        requires
            dbc == bb * bc_,
            dac == ba * bc_,
            k == ba * bb * bc_,
    ;
    assert(nbc * dab * dac == (nbc * ba) * k) by (nonlinear_arith)
        requires
            dab == ba * bb,
            dac == ba * bc_,
            k == ba * bb * bc_,
    ;
    assert(nac * dab * dbc == (nac * bb) * k) by (nonlinear_arith)
        requires
            dab == ba * bb,
            dbc == bb * bc_,
            k == ba * bb * bc_,
    ;
    assert((nab * bc_) * k + (nbc * ba) * k == (nac * bb) * k) by (nonlinear_arith)
        requires
            nab * bc_ + nbc * ba == nac * bb,
    ;
}


/// The counts of the actual and 30/360 conventions, from the calendar dates:
/// the actual conventions count calendar days; 30/360 Bond Basis counts 360
/// days a year and 30 a month, a 31st first date counting as the 30th and a
/// 31st last date as the 30th when the first date is the 30th or 31st;
/// 30E/360 counts any 31st as the 30th.
pub proof fn lemma_day_counts(a: int, b: int)
    ensures
        day_count_spec(DayCount::Act360, a, b) == b - a,
        day_count_spec(DayCount::Act365Fixed, a, b) == b - a,
        day_count_spec(DayCount::ActActIsda, a, b) == b - a,
        ({
            let (y1, m1, d1) = civil_of(a);
            let (y2, m2, d2) = civil_of(b);
            let e1 = if d1 == 31 { 30 } else { d1 };
            &&& day_count_spec(DayCount::Thirty360Us, a, b) == 360 * (y2 - y1) + 30 * (m2 - m1)
                + ((if d2 == 31 && e1 == 30 { 30 } else { d2 }) - e1)
            &&& day_count_spec(DayCount::ThirtyE360, a, b) == 360 * (y2 - y1) + 30 * (m2 - m1)
                + ((if d2 == 31 { 30 } else { d2 }) - e1)
        }),
{
    crate::civil::lemma_civil_exists(a);
}

/// A whole calendar year counts 360 days under both 30/360 conventions, and
/// 30/360 Bond Basis and 30E/360 agree when neither date is a 31st.
pub proof fn lemma_thirty_360_year(y: int, m: int, d: int, a: int, b: int)
    requires
        valid_ymd(y, m, d),
        valid_ymd(y + 1, m, d),
    ensures
        day_count_spec(DayCount::Thirty360Us, epoch_day(y, m, d), epoch_day(y + 1, m, d)) == 360,
        day_count_spec(DayCount::ThirtyE360, epoch_day(y, m, d), epoch_day(y + 1, m, d)) == 360,
        day_of(a) != 31 && day_of(b) != 31 ==> day_count_spec(DayCount::Thirty360Us, a, b)
            == day_count_spec(DayCount::ThirtyE360, a, b),
{
    crate::civil::lemma_civil_of_epoch_day(y, m, d);
    crate::civil::lemma_civil_of_epoch_day(y + 1, m, d);
    lemma_day_counts(epoch_day(y, m, d), epoch_day(y + 1, m, d));
    lemma_day_counts(a, b);
}

/// The year-fraction pieces of the single-piece conventions from `a` to a
/// later `b`: the counted days over 360 (ACT/360, 30/360, 30E/360) or 365
/// (ACT/365F).
pub proof fn lemma_single_piece_bases(a: int, b: int)
    requires
        a <= b,
        fits_i32(a),
        fits_i32(b),
    ensures
        year_fraction_terms_spec(DayCount::Act360, a, b).first_basis == 360,
        year_fraction_terms_spec(DayCount::Act365Fixed, a, b).first_basis == 365,
        year_fraction_terms_spec(DayCount::Thirty360Us, a, b).first_basis == 360,
        year_fraction_terms_spec(DayCount::ThirtyE360, a, b).first_basis == 360,
        year_fraction_terms_spec(DayCount::Act360, a, b).first_days == day_count_spec(DayCount::Act360, a, b),
        year_fraction_terms_spec(DayCount::Act365Fixed, a, b).first_days
            == day_count_spec(DayCount::Act365Fixed, a, b),
        year_fraction_terms_spec(DayCount::Thirty360Us, a, b).first_days
            == day_count_spec(DayCount::Thirty360Us, a, b),
        year_fraction_terms_spec(DayCount::ThirtyE360, a, b).first_days
            == day_count_spec(DayCount::ThirtyE360, a, b),
{
    crate::civil::lemma_civil_exists(a);
    crate::civil::lemma_civil_exists(b);
    crate::civil::lemma_year_range(civil_of(a).0, civil_of(a).1, civil_of(a).2);
    crate::civil::lemma_year_range(civil_of(b).0, civil_of(b).1, civil_of(b).2);
}

} // verus!
