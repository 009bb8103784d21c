//! Holiday calendars and business-day adjustment.
//!
//! A [`Calendar`] says which days are business days; adjustment, advancing
//! and counting business days are provided methods. Concrete calendars:
//! [`Brazil`] (ANBIMA national), [`Target2`], [`WeekendsOnly`], and
//! [`JoinCalendar`] to combine several.

use vstd::prelude::*;
use vstd::arithmetic::div_mod::{lemma_fundamental_div_mod, lemma_fundamental_div_mod_converse};
use crate::civil::{epoch_day, month_of, valid_ymd, year_of, civil_of};
use crate::date::{fits_i32, lemma_date_range, weekday_of, weekend, Date, Weekday};

verus! {

broadcast use lemma_date_range;

/// How to move a date that falls on a non-business day onto a business day.
#[derive(Debug, Clone, Copy, PartialEq, Eq, Hash, Structural)]
#[non_exhaustive]
pub enum BusinessDayConvention {
    /// Leave the date unchanged.
    Unadjusted,
    /// Roll forward to the next business day.
    Following,
    /// Roll forward, unless that crosses into the next month — then roll back.
    ModifiedFollowing,
    /// Roll backward to the previous business day.
    Preceding,
    /// Roll backward, unless that crosses into the previous month — then forward.
    ModifiedPreceding,
}

/// A holiday calendar: which dates are business days, plus date arithmetic
/// that respects them.
///
/// Implementors give [`name`](Calendar::name) and
/// [`is_business_day`](Calendar::is_business_day), with the two spec
/// functions that describe the latter; the rest is provided.
pub trait Calendar {
    /// Day number `s` is a business day of this calendar.
    spec fn spec_business_day(&self, s: int) -> bool;

    /// `is_business_day` returns normally on day number `s`.
    spec fn spec_defined(&self, s: int) -> bool;

    /// Stable identifier, e.g. `"Brazil"`, `"TARGET2"`.
    fn name(&self) -> &'static str;

    /// True if `date` is a business day for this market (neither a weekend nor
    /// a holiday).
    fn is_business_day(&self, date: Date) -> (r: bool)
        requires
            self.spec_defined(date@),
        ensures
            r == self.spec_business_day(date@),
    ;

    /// True if `date` is a non-weekend holiday. Weekends are not holidays.
    fn is_holiday(&self, date: Date) -> (r: bool)
        requires
            weekend(date@) || self.spec_defined(date@),
        ensures
            r == (!weekend(date@) && !self.spec_business_day(date@)),
    {
        !date.is_weekend() && !self.is_business_day(date)
    }

    /// Adjusts `date` onto a business day per `conv`. A date that is already
    /// a business day is returned unchanged.
    fn adjust(&self, date: Date, conv: BusinessDayConvention) -> (r: Date)
        requires
            can_adjust(|t: int| self.spec_business_day(t), |t: int| self.spec_defined(t), date@, conv),
        ensures
            r@ == adjusted(|t: int| self.spec_business_day(t), date@, conv),
    {
        match conv {
            BusinessDayConvention::Unadjusted => date,
            BusinessDayConvention::Following => self.roll(date, 1),
            BusinessDayConvention::Preceding => self.roll(date, -1),
            BusinessDayConvention::ModifiedFollowing => {
                let rolled = self.roll(date, 1);
                if rolled.month() != date.month() {
                    self.roll(date, -1)
                } else {
                    rolled
                }
            },
            BusinessDayConvention::ModifiedPreceding => {
                let rolled = self.roll(date, -1);
                if rolled.month() != date.month() {
                    self.roll(date, 1)
                } else {
                    rolled
                }
            },
        }
    }

    /// Advances `date` by `n` business days (negative `n` moves backward).
    /// `n == 0` returns `date` unchanged, even if it is not a business day.
    fn advance(&self, date: Date, n: i32) -> (r: Date)
        requires
            can_advance(|t: int| self.spec_business_day(t), |t: int| self.spec_defined(t), date@, n as int),
        ensures
            n == 0 ==> r == date,
            n > 0 ==> r@ > date@ && self.spec_business_day(r@)
                && business_count(|t: int| self.spec_business_day(t), date@ + 1, r@ + 1) == n,
            n < 0 ==> r@ < date@ && self.spec_business_day(r@)
                && business_count(|t: int| self.spec_business_day(t), r@, date@) == -n,
    {
        if n == 0 {
            return date;
        }
        let step: i32 = if n > 0 { 1 } else { -1 };
        let mut remaining: i32 = if n > 0 { n } else { -n };
        let mut d = date;
        let ghost biz = |t: int| self.spec_business_day(t);
        let ghost def = |t: int| self.spec_defined(t);
        let ghost s = date@;
        let ghost goal = remaining as int;
        assert(step == direction(n as int) && goal == magnitude(n as int));
        let ghost k = choose|k: nat| advance_reach(biz, def, s, step as int, goal, k);
        let ghost mut j: nat = 0;
        while remaining > 0
            invariant
                biz == (|t: int| self.spec_business_day(t)),
                def == (|t: int| self.spec_defined(t)),
                step == 1 || step == -1,
                step == 1 <==> n > 0,
                goal == (if n > 0 { n as int } else { -n }),
                goal > 0,
                advance_reach(biz, def, s, step as int, goal, k),
                d@ == s + step * j,
                j <= k,
                0 <= remaining <= goal,
                steps_count(biz, s, step as int, j) == goal - remaining,
                remaining == 0 ==> self.spec_business_day(d@),
            decreases k - j,
        {
            proof {
                lemma_steps_count_mono(biz, s, step as int, j, k);
                if j == k {
                    assert(false);
                }
                lemma_reach_fits(biz, def, s, step as int, goal, k, j + 1);
                assert(s + step * (j + 1) == d@ + step) by (nonlinear_arith)
                    requires
                        d@ == s + step * j,
                ;
            }
            d = d.add_days(step);
            proof {
                j = j + 1;
            }
            if self.is_business_day(d) {
                remaining = remaining - 1;
            }
        }
        proof {
            lemma_steps_count_range(biz, s, step as int, j);
        }
        d
    }

    /// Number of business days in the half-open interval `[start, end)`:
    /// negative when `end < start`, `0` when the dates are equal.
    fn business_days_between(&self, start: Date, end: Date) -> (r: i32)
        requires
            can_count(|t: int| self.spec_business_day(t), |t: int| self.spec_defined(t), start@, end@),
        ensures
            start@ <= end@ ==> r == business_count(|t: int| self.spec_business_day(t), start@, end@),
            end@ < start@ ==> r == -business_count(|t: int| self.spec_business_day(t), end@, start@),
    {
        if start == end {
            return 0;
        }
        let reversed = end.serial() < start.serial();
        let (lo, hi) = if reversed { (end, start) } else { (start, end) };
        let ghost biz = |t: int| self.spec_business_day(t);
        let ghost def = |t: int| self.spec_defined(t);
        let mut count: i32 = 0;
        let mut d = lo;
        while d.serial() < hi.serial()
            invariant
                lo@ <= d@ <= hi@,
                lo@ <= hi@,
                biz == (|t: int| self.spec_business_day(t)),
                def == (|t: int| self.spec_defined(t)),
                forall|t: int| lo@ <= t < hi@ ==> #[trigger] def(t),
                business_count(biz, lo@, hi@) <= i32::MAX,
                count == business_count(biz, lo@, d@),
                0 <= count,
            decreases hi@ - d@,
        {
            proof {
                lemma_business_count_bound(biz, lo@, d@ + 1, hi@);
                assert(def(d@));
            }
            if self.is_business_day(d) {
                count = count + 1;
            }
            d = d.add_days(1);
        }
        if reversed { -count } else { count }
    }

    /// Rolls `date` in `step` direction until it is a business day; a
    /// business day is returned unchanged. Used by `adjust`.
    fn roll(&self, date: Date, step: i32) -> (r: Date)
        requires
            can_roll(|t: int| self.spec_business_day(t), |t: int| self.spec_defined(t), date@, step as int),
        ensures
            r@ == roll_target(|t: int| self.spec_business_day(t), date@, step as int),
    {
        let mut d = date;
        let ghost biz = |t: int| self.spec_business_day(t);
        let ghost def = |t: int| self.spec_defined(t);
        let ghost s = date@;
        let ghost k = choose|k: nat| roll_reach(biz, def, s, step as int, k);
        let ghost mut j: nat = 0;
        proof {
            lemma_reach_point(biz, def, s, step as int, k, 0);
        }
        while !self.is_business_day(d)
            invariant
                biz == (|t: int| self.spec_business_day(t)),
                def == (|t: int| self.spec_defined(t)),
                roll_reach(biz, def, s, step as int, k),
                d@ == s + step * j,
                j <= k,
                fits_i32(d@),
                self.spec_defined(d@),
                forall|i: nat| i < j ==> !self.spec_business_day(#[trigger] (s + step * i)),
            decreases k - j,
        {
            proof {
                if j == k {
                    assert(false);
                }
                lemma_reach_point(biz, def, s, step as int, k, j + 1);
                assert(s + step * (j + 1) == d@ + step) by (nonlinear_arith)
                    requires
                        d@ == s + step * j,
                ;
            }
            d = d.add_days(step);
            proof {
                j = j + 1;
            }
        }
        proof {
            lemma_roll_target(biz, s, step as int, j);
        }
        d
    }
}

// ---------------------------------------------------------------------------
// Easter and the market calendars
// ---------------------------------------------------------------------------

/// Integer division rounding toward zero (Rust's `/` on signed integers),
/// for a positive divisor.
pub open spec fn trunc_div(a: int, b: int) -> int {
    if a >= 0 { a / b } else { -((-a) / b) }
}

/// Remainder of `trunc_div` (Rust's `%` on signed integers).
pub open spec fn trunc_rem(a: int, b: int) -> int {
    if a >= 0 { a % b } else { -((-a) % b) }
}

/// `(month, day)` of Gregorian Easter Sunday by the Meeus/Jones/Butcher
/// computus, evaluated with Rust's signed integer division.
pub open spec fn computus(year: int) -> (int, int) {
    let a = trunc_rem(year, 19);
    let b = trunc_div(year, 100);
    let c = trunc_rem(year, 100);
    let d = trunc_div(b, 4);
    let e = trunc_rem(b, 4);
    let f = trunc_div(b + 8, 25);
    let g = trunc_div(b - f + 1, 3);
    let h = trunc_rem(19 * a + b - d - g + 15, 30);
    let i = trunc_div(c, 4);
    let k = trunc_rem(c, 4);
    let l = trunc_rem(32 + 2 * e + 2 * i - h - k, 7);
    let m = trunc_div(a + 11 * h + 22 * l, 451);
    (trunc_div(h + l - 7 * m + 114, 31), trunc_rem(h + l - 7 * m + 114, 31) + 1)
}

/// The computus gives a real date of `year` whose serial fits in `i32`
/// (true for every year from 0 on whose dates have `i32` serials; false for
/// some negative years).
pub open spec fn easter_defined(year: int) -> bool {
    valid_ymd(year, computus(year).0, computus(year).1)
        && fits_i32(epoch_day(year, computus(year).0, computus(year).1))
}

/// Day number of Easter Sunday of `year`.
pub open spec fn easter_day(year: int) -> int {
    epoch_day(year, computus(year).0, computus(year).1)
}

/// Rust's `/` on `i32`, for a positive divisor.
fn quot(a: i32, b: i32) -> (r: i32)
    requires
        b > 0,
    ensures
        r == trunc_div(a as int, b as int),
        a >= 0 ==> 0 <= r <= a,
        a < 0 ==> a <= r <= 0,
{
    a / b
}

/// Rust's `%` on `i32`, for a positive divisor.
fn rem(a: i32, b: i32) -> (r: i32)
    requires
        b > 0,
    ensures
        r == trunc_rem(a as int, b as int),
        -(b as int) < r < b,
        a >= 0 ==> r >= 0,
{
    a % b
}

/// The computus: `(month, day)` of Easter Sunday.
#[verifier::rlimit(40)]
fn computus_month_day(year: i32) -> (r: (i32, i32))
    ensures
        (r.0 as int, r.1 as int) == computus(year as int),
{
    let a = rem(year, 19);
    let b = quot(year, 100);
    let c = rem(year, 100);
    let d = quot(b, 4);
    let e = rem(b, 4);
    let f = quot(b + 8, 25);
    let g = quot(b - f + 1, 3);
    let h = rem(19 * a + b - d - g + 15, 30);
    let i = quot(c, 4);
    let k = rem(c, 4);
    let l = rem(32 + 2 * e + 2 * i - h - k, 7);
    let m = quot(a + 11 * h + 22 * l, 451);
    let month = quot(h + l - 7 * m + 114, 31);
    let day = rem(h + l - 7 * m + 114, 31) + 1;
    (month, day)
}

/// Gregorian Easter Sunday for `year` (Meeus/Jones/Butcher computus).
///
/// Carnival, Good Friday, Corpus Christi, and Easter Monday are all fixed
/// offsets from this date.
pub fn easter(year: i32) -> (r: Date)
    requires
        easter_defined(year as int),
    ensures
        r@ == easter_day(year as int),
        civil_of(r@) == (year as int, computus(year as int).0, computus(year as int).1),
{
    let (month, day) = computus_month_day(year);
    proof {
        crate::civil::lemma_civil_of_epoch_day(year as int, month as int, day as int);
    }
    Date::new(year, month as u32, day as u32).expect("computus yields a valid date")
}


/// Easter is the first Sunday strictly after the paschal full moon (itself
/// between March 21 and April 18), so it falls between March 22 and April
/// 25, for every year from 0 on.
pub proof fn lemma_easter_is_sunday(y: int)
    requires
        y >= 0,
    ensures
        computus(y).0 == 3 || computus(y).0 == 4,
        valid_ymd(y, computus(y).0, computus(y).1),
        weekday_of(easter_day(y)) == Weekday::Sunday,
        paschal_full_moon(y) < easter_day(y) <= paschal_full_moon(y) + 7,
        epoch_day(y, 3, 21) <= paschal_full_moon(y) <= epoch_day(y, 3, 21) + 28,
        epoch_day(y, 3, 22) <= easter_day(y) <= epoch_day(y, 4, 25),
{
    let a = y % 19;
    let b = y / 100;
    let c = y % 100;
    let d = b / 4;
    let e = b % 4;
    lemma_fundamental_div_mod(y, 19);
    lemma_fundamental_div_mod(y, 100);
    lemma_fundamental_div_mod(b, 4);
    assert(trunc_rem(y, 19) == a && trunc_div(y, 100) == b && trunc_rem(y, 100) == c);
    assert(trunc_div(b, 4) == d && trunc_rem(b, 4) == e);
    let f = (b + 8) / 25;
    lemma_fundamental_div_mod(b + 8, 25);
    assert(trunc_div(b + 8, 25) == f);
    assert(b - f + 1 >= 0);
    let g = (b - f + 1) / 3;
    lemma_fundamental_div_mod(b - f + 1, 3);
    assert(trunc_div(b - f + 1, 3) == g);
    assert(19 * a + b - d - g + 15 >= 0);
    let h = (19 * a + b - d - g + 15) % 30;
    lemma_fundamental_div_mod(19 * a + b - d - g + 15, 30);
    assert(trunc_rem(19 * a + b - d - g + 15, 30) == h);
    let i = c / 4;
    let k = c % 4;
    lemma_fundamental_div_mod(c, 4);
    assert(trunc_div(c, 4) == i && trunc_rem(c, 4) == k);
    let lx = 32 + 2 * e + 2 * i - h - k;
    assert(lx >= 0);
    let l = lx % 7;
    let q = lx / 7;
    lemma_fundamental_div_mod(lx, 7);
    assert(trunc_rem(lx, 7) == l);
    let mx = a + 11 * h + 22 * l;
    let m = mx / 451;
    lemma_fundamental_div_mod(mx, 451);
    assert(trunc_div(mx, 451) == m);
    assert(0 <= m <= 1);
    let x = h + l - 7 * m + 114;
    lemma_fundamental_div_mod(x, 31);
    assert(trunc_div(x, 31) == x / 31 && trunc_rem(x, 31) == x % 31);
    assert(computus(y) == (x / 31, x % 31 + 1));
    let month = x / 31;
    let day = x % 31 + 1;
    if x < 124 {
        lemma_fundamental_div_mod_converse(x, 31, 3, x - 93);
    } else {
        lemma_fundamental_div_mod_converse(x, 31, 4, x - 124);
    }
    crate::civil::lemma_days_before_month_table(y, 3);
    crate::civil::lemma_days_before_month_table(y, month);
    // The day number of Easter, from March 22.
    assert(easter_day(y) == crate::civil::days_before_year(y) + 59
        + (if crate::civil::leap_year(y) { 1int } else { 0int }) + 21 + h + l - 7 * m);
    // Leap years up to and including `y`.
    crate::civil::lemma_leap_years_step(y);
    lemma_fundamental_div_mod(y, 4);
    lemma_fundamental_div_mod(y, 400);
    lemma_fundamental_div_mod_converse(y, 4, 25 * b + i, k);
    lemma_fundamental_div_mod_converse(y, 400, d, 100 * e + c);
    assert(crate::civil::leap_years_before(y + 1) == 25 * b + i - b + d);
    lemma_fundamental_div_mod_converse(1969, 4, 492, 1);
    lemma_fundamental_div_mod_converse(1969, 100, 19, 69);
    lemma_fundamental_div_mod_converse(1969, 400, 4, 369);
    assert(crate::civil::leap_years_before(1970) == 477);
    let w = 52 * y + 71 * d + 18 * e + i - q - m - 102774;
    assert(easter_day(y) + 3 == 7 * w + 6);
    lemma_fundamental_div_mod_converse(easter_day(y) + 3, 7, w, 6);
    // The paschal full moon, and Easter as the Sunday after it.
    assert(epoch_day(y, 3, 21) == crate::civil::days_before_year(y) + 59
        + (if crate::civil::leap_year(y) { 1int } else { 0int }) + 20);
    let ex: int = if h == 29 || (h == 28 && a > 10) { 1 } else { 0 };
    assert(paschal_full_moon(y) == epoch_day(y, 3, 21) + h - ex);
    crate::civil::lemma_days_before_month_table(y, 4);
    assert(0 <= l - 7 * m + ex <= 6) by {
        assert(451 * m <= mx < 451 * m + 451);
        if h == 29 {
        } else if h == 28 {
        } else {
            assert(h <= 27);
        }
    }
}

/// Day number of the Gregorian paschal full moon of year `y` (from the year
/// 0 on): the ecclesiastical full moon, March 21 plus the epact offset `h` of
/// the Gregorian lunar tables, a day earlier when `h` is 29, or 28 in the
/// second half of the Metonic cycle.
pub open spec fn paschal_full_moon(y: int) -> int {
    let a = y % 19;
    let b = y / 100;
    let h = (19 * a + b - b / 4 - (b - (b + 8) / 25 + 1) / 3 + 15) % 30;
    let ex: int = if h == 29 || (h == 28 && a > 10) { 1 } else { 0 };
    epoch_day(y, 3, 21) + h - ex
}

/// A day from January 1 of `y` to before January 1 of `y + 1` is in year `y`.
proof fn lemma_in_year(s: int, y: int)
    requires
        epoch_day(y, 1, 1) <= s < epoch_day(y + 1, 1, 1),
    ensures
        year_of(s) == y,
{
    assert(valid_ymd(y, 1, 1));
    assert(valid_ymd(y + 1, 1, 1));
    crate::civil::lemma_civil_exists(s);
    crate::civil::lemma_civil_of_epoch_day(y, 1, 1);
    crate::civil::lemma_civil_of_epoch_day(y + 1, 1, 1);
    crate::date::lemma_date_order(s, epoch_day(y, 1, 1));
    crate::date::lemma_date_order(s, epoch_day(y + 1, 1, 1));
}

/// Brazil's business days are exactly the weekdays other than January 1,
/// April 21, May 1, September 7, October 12, November 2, November 15,
/// December 25, November 20 from 2024 on, Carnival Monday and Tuesday (48
/// and 47 days before Easter), Good Friday and Corpus Christi (60 days after
/// Easter).
pub proof fn lemma_brazil_business_days(s: int)
    ensures
        Brazil.spec_business_day(s) <==> {
            let (y, m, d) = civil_of(s);
            let e = easter_day(y);
            &&& !weekend(s)
            &&& !(m == 1 && d == 1) && !(m == 4 && d == 21) && !(m == 5 && d == 1)
            &&& !(m == 9 && d == 7) && !(m == 10 && d == 12) && !(m == 11 && d == 2)
            &&& !(m == 11 && d == 15) && !(m == 12 && d == 25) && !(m == 11 && d == 20 && y >= 2024)
            &&& s != e - 48 && s != e - 47 && s != e - 2 && s != e + 60
        },
{
}

/// TARGET2's business days are exactly the weekdays other than January 1,
/// May 1, December 25, December 26, Good Friday and Easter Monday.
pub proof fn lemma_target2_business_days(s: int)
    ensures
        Target2.spec_business_day(s) <==> {
            let (y, m, d) = civil_of(s);
            let e = easter_day(y);
            &&& !weekend(s)
            &&& !(m == 1 && d == 1) && !(m == 5 && d == 1) && !(m == 12 && d == 25) && !(m == 12 && d == 26)
            &&& s != e - 2 && s != e + 1
        },
{
}

/// Every year's fixed and Easter-based Brazilian holidays are no business
/// days (the Easter-based ones from the year 0 on).
pub proof fn lemma_brazil_holidays(y: int)
    ensures
        !Brazil.spec_business_day(epoch_day(y, 1, 1)),
        !Brazil.spec_business_day(epoch_day(y, 4, 21)),
        !Brazil.spec_business_day(epoch_day(y, 5, 1)),
        !Brazil.spec_business_day(epoch_day(y, 9, 7)),
        !Brazil.spec_business_day(epoch_day(y, 10, 12)),
        !Brazil.spec_business_day(epoch_day(y, 11, 2)),
        !Brazil.spec_business_day(epoch_day(y, 11, 15)),
        !Brazil.spec_business_day(epoch_day(y, 12, 25)),
        y >= 2024 ==> !Brazil.spec_business_day(epoch_day(y, 11, 20)),
        y >= 0 ==> !Brazil.spec_business_day(easter_day(y) - 48),
        y >= 0 ==> !Brazil.spec_business_day(easter_day(y) - 47),
        y >= 0 ==> !Brazil.spec_business_day(easter_day(y) - 2),
        y >= 0 ==> !Brazil.spec_business_day(easter_day(y) + 60),
{
    lemma_brazil_fixed_date(y, 1, 1);
    lemma_brazil_fixed_date(y, 4, 21);
    lemma_brazil_fixed_date(y, 5, 1);
    lemma_brazil_fixed_date(y, 9, 7);
    lemma_brazil_fixed_date(y, 10, 12);
    lemma_brazil_fixed_date(y, 11, 2);
    lemma_brazil_fixed_date(y, 11, 15);
    lemma_brazil_fixed_date(y, 12, 25);
    if y >= 2024 {
        lemma_brazil_fixed_date(y, 11, 20);
    }
    if y >= 0 {
        lemma_brazil_easter_date(y, -48);
        lemma_brazil_easter_date(y, -47);
        lemma_brazil_easter_date(y, -2);
        lemma_brazil_easter_date(y, 60);
    }
}

proof fn lemma_brazil_fixed_date(y: int, m: int, d: int)
    requires
        valid_ymd(y, m, d),
        brazil_fixed_holiday(y, m, d),
    ensures
        !Brazil.spec_business_day(epoch_day(y, m, d)),
{
    crate::civil::lemma_civil_of_epoch_day(y, m, d);
}

proof fn lemma_brazil_easter_date(y: int, k: int)
    requires
        y >= 0,
        k == -48 || k == -47 || k == -2 || k == 60,
    ensures
        !Brazil.spec_business_day(easter_day(y) + k),
{
    lemma_easter_window(y, k, k);
}

/// Every year's fixed and Easter-based TARGET2 holidays are no business
/// days (the Easter-based ones from the year 0 on).
pub proof fn lemma_target2_holidays(y: int)
    ensures
        !Target2.spec_business_day(epoch_day(y, 1, 1)),
        !Target2.spec_business_day(epoch_day(y, 5, 1)),
        !Target2.spec_business_day(epoch_day(y, 12, 25)),
        !Target2.spec_business_day(epoch_day(y, 12, 26)),
        y >= 0 ==> !Target2.spec_business_day(easter_day(y) - 2),
        y >= 0 ==> !Target2.spec_business_day(easter_day(y) + 1),
{
    assert(!Target2.spec_business_day(epoch_day(y, 1, 1))) by {
        assert(valid_ymd(y, 1, 1));
        crate::civil::lemma_civil_of_epoch_day(y, 1, 1);
    }
    assert(!Target2.spec_business_day(epoch_day(y, 5, 1))) by {
        assert(valid_ymd(y, 5, 1));
        crate::civil::lemma_civil_of_epoch_day(y, 5, 1);
    }
    assert(!Target2.spec_business_day(epoch_day(y, 12, 25))) by {
        assert(valid_ymd(y, 12, 25));
        crate::civil::lemma_civil_of_epoch_day(y, 12, 25);
    }
    assert(!Target2.spec_business_day(epoch_day(y, 12, 26))) by {
        assert(valid_ymd(y, 12, 26));
        crate::civil::lemma_civil_of_epoch_day(y, 12, 26);
    }
    if y >= 0 {
        lemma_easter_window(y, -2, 1);
        assert(!Target2.spec_business_day(easter_day(y) - 2)) by {
            assert(year_of(easter_day(y) - 2) == y);
        }
        assert(!Target2.spec_business_day(easter_day(y) + 1)) by {
            assert(year_of(easter_day(y) + 1) == y);
        }
    }
}

/// Days from 48 before to 60 after Easter lie in Easter's year.
proof fn lemma_easter_window(y: int, lo: int, hi: int)
    requires
        y >= 0,
        -48 <= lo <= hi <= 60,
    ensures
        year_of(easter_day(y) + lo) == y,
        year_of(easter_day(y) + hi) == y,
        forall|k: int| lo <= k <= hi ==> year_of(#[trigger] (easter_day(y) + k)) == y,
{
    lemma_easter_is_sunday(y);
    crate::civil::lemma_days_before_month_table(y, 3);
    crate::civil::lemma_days_before_month_table(y, 4);
    crate::civil::lemma_days_before_month_table(y, 1);
    crate::civil::lemma_year_length(y);
    assert forall|k: int| lo <= k <= hi implies year_of(#[trigger] (easter_day(y) + k)) == y by {
        lemma_in_year(easter_day(y) + k, y);
    }
    lemma_in_year(easter_day(y) + lo, y);
    lemma_in_year(easter_day(y) + hi, y);
}

/// Saturdays and Sundays are non-business; no named holidays.
#[derive(Debug, Clone, Copy, Default)]
pub struct WeekendsOnly;

impl Calendar for WeekendsOnly {
    open spec fn spec_business_day(&self, s: int) -> bool {
        !weekend(s)
    }

    open spec fn spec_defined(&self, s: int) -> bool {
        true
    }

    fn name(&self) -> (r: &'static str)
        ensures
            r@ == "WeekendsOnly"@,
    {
        "WeekendsOnly"
    }

    fn is_business_day(&self, date: Date) -> (r: bool) {
        !date.is_weekend()
    }
}

/// Brazil's fixed-date national holidays, Black Awareness Day included from
/// 2024.
pub open spec fn brazil_fixed_holiday(y: int, m: int, d: int) -> bool {
    ||| m == 1 && d == 1
    ||| m == 4 && d == 21
    ||| m == 5 && d == 1
    ||| m == 9 && d == 7
    ||| m == 10 && d == 12
    ||| m == 11 && d == 2
    ||| m == 11 && d == 15
    ||| m == 12 && d == 25
    ||| m == 11 && d == 20 && y >= 2024
}

/// Easter of `year` and the days `lo` and `hi` days from it have `i32`
/// serials.
pub open spec fn easter_window_fits(year: int, lo: int, hi: int) -> bool {
    easter_defined(year) && fits_i32(easter_day(year) + lo) && fits_i32(easter_day(year) + hi)
}

/// Day `s` is a named Brazilian holiday: a fixed one, Carnival Monday or
/// Tuesday, Good Friday, or Corpus Christi.
pub open spec fn brazil_named(s: int) -> bool {
    let c = civil_of(s);
    let e = easter_day(c.0);
    brazil_fixed_holiday(c.0, c.1, c.2) || s == e - 48 || s == e - 47 || s == e - 2 || s == e + 60
}

/// The named-holiday test for Brazil returns normally on day `s`.
pub open spec fn brazil_named_defined(s: int) -> bool {
    let c = civil_of(s);
    brazil_fixed_holiday(c.0, c.1, c.2) || easter_window_fits(c.0, -48, 60)
}

/// ANBIMA national financial calendar for Brazil — the BUS/252 basis.
///
/// Holidays: New Year (Jan 1), Tiradentes (Apr 21), Labour (May 1),
/// Independence (Sep 7), Our Lady of Aparecida (Oct 12), All Souls (Nov 2),
/// Republic (Nov 15), Black Awareness (Nov 20, national from 2024), Christmas
/// (Dec 25); plus Carnival Monday/Tuesday, Good Friday, and Corpus Christi
/// derived from [`easter`].
#[derive(Debug, Clone, Copy, Default)]
pub struct Brazil;

impl Brazil {
    fn is_named_holiday(date: Date) -> (r: bool)
        requires
            brazil_named_defined(date@),
        ensures
            r == brazil_named(date@),
    {
        let (y, m, d) = date.ymd();
        if (m == 1 && d == 1) || (m == 4 && d == 21) || (m == 5 && d == 1) || (m == 9 && d == 7)
            || (m == 10 && d == 12) || (m == 11 && d == 2) || (m == 11 && d == 15)
            || (m == 12 && d == 25) {
            return true;
        }
        // Black Awareness Day became a national holiday in 2024 (Law 14.759/2023).
        if m == 11 && d == 20 && y >= 2024 {
            return true;
        }
        let easter = easter(y);
        let s = date.serial();
        s == easter.add_days(-48).serial()  // Carnival Monday
            || s == easter.add_days(-47).serial()  // Carnival Tuesday
            || s == easter.add_days(-2).serial()  // Good Friday
            || s == easter.add_days(60).serial()  // Corpus Christi
    }
}

impl Calendar for Brazil {
    open spec fn spec_business_day(&self, s: int) -> bool {
        !weekend(s) && !brazil_named(s)
    }

    open spec fn spec_defined(&self, s: int) -> bool {
        weekend(s) || brazil_named_defined(s)
    }

    fn name(&self) -> (r: &'static str)
        ensures
            r@ == "Brazil"@,
    {
        "Brazil"
    }

    fn is_business_day(&self, date: Date) -> (r: bool) {
        !date.is_weekend() && !Brazil::is_named_holiday(date)
    }
}

/// TARGET2's fixed-date holidays.
pub open spec fn target2_fixed_holiday(m: int, d: int) -> bool {
    (m == 1 && d == 1) || (m == 5 && d == 1) || (m == 12 && d == 25) || (m == 12 && d == 26)
}

/// Day `s` is a named TARGET2 holiday: a fixed one, Good Friday or Easter
/// Monday.
pub open spec fn target2_named(s: int) -> bool {
    let c = civil_of(s);
    let e = easter_day(c.0);
    target2_fixed_holiday(c.1, c.2) || s == e - 2 || s == e + 1
}

/// The named-holiday test for TARGET2 returns normally on day `s`.
pub open spec fn target2_named_defined(s: int) -> bool {
    let c = civil_of(s);
    target2_fixed_holiday(c.1, c.2) || easter_window_fits(c.0, -2, 1)
}

/// Eurosystem TARGET2 settlement calendar.
///
/// Holidays: New Year (Jan 1), Good Friday, Easter Monday, Labour (May 1),
/// Christmas (Dec 25), and Dec 26.
#[derive(Debug, Clone, Copy, Default)]
pub struct Target2;

impl Target2 {
    fn is_named_holiday(date: Date) -> (r: bool)
        requires
            target2_named_defined(date@),
        ensures
            r == target2_named(date@),
    {
        let (_, m, d) = date.ymd();
        if (m == 1 && d == 1) || (m == 5 && d == 1) || (m == 12 && d == 25) || (m == 12 && d == 26) {
            return true;
        }
        let easter = easter(date.year());
        let s = date.serial();
        s == easter.add_days(-2).serial()  // Good Friday
            || s == easter.add_days(1).serial()  // Easter Monday
    }
}

impl Calendar for Target2 {
    open spec fn spec_business_day(&self, s: int) -> bool {
        !weekend(s) && !target2_named(s)
    }

    open spec fn spec_defined(&self, s: int) -> bool {
        weekend(s) || target2_named_defined(s)
    }

    fn name(&self) -> (r: &'static str)
        ensures
            r@ == "TARGET2"@,
    {
        "TARGET2"
    }

    fn is_business_day(&self, date: Date) -> (r: bool) {
        !date.is_weekend() && !Target2::is_named_holiday(date)
    }
}

/// How to combine the business days of several calendars.
#[derive(Debug, Clone, Copy, PartialEq, Eq, Hash, Structural)]
pub enum JoinRule {
    /// A date is a business day only if it is a business day in **every**
    /// calendar (the union of holidays). Standard for multi-currency curves.
    JoinHolidays,
    /// A date is a business day if it is a business day in **any** calendar
    /// (the intersection of holidays).
    JoinBusinessDays,
}

/// Combines multiple calendars under a [`JoinRule`].
pub struct JoinCalendar {
    calendars: Vec<Box<dyn Calendar>>,
    rule: JoinRule,
}

impl JoinCalendar {
    /// The joined calendars, in order.
    pub closed spec fn members(&self) -> Seq<Box<dyn Calendar>> {
        self.calendars@
    }

    /// The rule that combines them.
    pub closed spec fn join_rule(&self) -> JoinRule {
        self.rule
    }

    /// Builds a joint calendar from `calendars` under `rule`.
    ///
    /// An empty set degenerates: `JoinHolidays` makes every day a business
    /// day, `JoinBusinessDays` makes none.
    pub fn new(calendars: Vec<Box<dyn Calendar>>, rule: JoinRule) -> (r: Self)
        ensures
            r.members() == calendars@,
            r.join_rule() == rule,
    {
        JoinCalendar { calendars, rule }
    }
}

/// Day `s` is a business day of every calendar in `cals`.
pub open spec fn all_business(cals: Seq<Box<dyn Calendar>>, s: int) -> bool {
    forall|i: int| 0 <= i < cals.len() ==> #[trigger] cals[i].spec_business_day(s)
}

/// Day `s` is a business day of some calendar in `cals`.
pub open spec fn any_business(cals: Seq<Box<dyn Calendar>>, s: int) -> bool {
    exists|i: int| 0 <= i < cals.len() && #[trigger] cals[i].spec_business_day(s)
}

impl Calendar for JoinCalendar {
    open spec fn spec_business_day(&self, s: int) -> bool {
        match self.join_rule() {
            JoinRule::JoinHolidays => all_business(self.members(), s),
            JoinRule::JoinBusinessDays => any_business(self.members(), s),
        }
    }

    /// Each member is asked in order until the answer is settled (the first
    /// non-business day under `JoinHolidays`, the first business day under
    /// `JoinBusinessDays`); every member asked must be defined on `s`.
    open spec fn spec_defined(&self, s: int) -> bool {
        let cals = self.members();
        forall|i: int| 0 <= i < cals.len() ==> (
            (forall|j: int| 0 <= j < i ==> (#[trigger] cals[j].spec_business_day(s)
                == (self.join_rule() == JoinRule::JoinHolidays)))
            ==> #[trigger] cals[i].spec_defined(s))
    }

    fn name(&self) -> (r: &'static str)
        ensures
            r@ == "Joint"@,
    {
        "Joint"
    }

    fn is_business_day(&self, date: Date) -> (r: bool) {
        let all = match self.rule {
            JoinRule::JoinHolidays => true,
            JoinRule::JoinBusinessDays => false,
        };
        let mut i: usize = 0;
        while i < self.calendars.len()
            invariant
                i <= self.calendars.len(),
                all == (self.rule == JoinRule::JoinHolidays),
                self.spec_defined(date@),
                forall|j: int| 0 <= j < i ==> (#[trigger] self.calendars@[j].spec_business_day(date@)) == all,
            decreases self.calendars.len() - i,
        {
            proof {
                let cals = self.members();
                assert(forall|j: int| 0 <= j < i ==> (#[trigger] cals[j].spec_business_day(date@)
                    == (self.join_rule() == JoinRule::JoinHolidays)));
                assert(cals[i as int].spec_defined(date@));
            }
            let b = self.calendars[i].is_business_day(date);
            if b != all {
                return b;
            }
            i = i + 1;
        }
        all
    }
}

// ---------------------------------------------------------------------------
// The specification of rolling, adjusting, advancing and counting
// ---------------------------------------------------------------------------

/// Stepping `k` times by `step` from `s` ends on a business day, and every
/// day on the way (ends included) is in the `i32` range and in the domain of
/// `is_business_day`.
pub open spec fn roll_reach(biz: spec_fn(int) -> bool, def: spec_fn(int) -> bool, s: int, step: int, k: nat) -> bool {
    &&& biz(s + step * k)
    &&& forall|i: nat| i <= k ==> fits_i32(#[trigger] (s + step * i)) && def(s + step * i)
}

/// Rolling from `s` by `step` reaches a business day.
pub open spec fn can_roll(biz: spec_fn(int) -> bool, def: spec_fn(int) -> bool, s: int, step: int) -> bool {
    exists|k: nat| roll_reach(biz, def, s, step, k)
}

/// `k` is the number of steps to the first business day.
pub open spec fn first_roll(biz: spec_fn(int) -> bool, s: int, step: int, k: nat) -> bool {
    &&& biz(s + step * k)
    &&& forall|i: nat| i < k ==> !biz(#[trigger] (s + step * i))
}

/// The first business day met when stepping from `s` by `step` (`s` itself
/// when it is a business day).
pub open spec fn roll_target(biz: spec_fn(int) -> bool, s: int, step: int) -> int {
    s + step * (choose|k: nat| first_roll(biz, s, step, k))
}

/// The day number that `adjust` gives for day `s` under `conv`.
pub open spec fn adjusted(biz: spec_fn(int) -> bool, s: int, conv: BusinessDayConvention) -> int {
    match conv {
        BusinessDayConvention::Unadjusted => s,
        BusinessDayConvention::Following => roll_target(biz, s, 1),
        BusinessDayConvention::Preceding => roll_target(biz, s, -1),
        BusinessDayConvention::ModifiedFollowing => {
            let f = roll_target(biz, s, 1);
            if month_of(f) != month_of(s) { roll_target(biz, s, -1) } else { f }
        },
        BusinessDayConvention::ModifiedPreceding => {
            let p = roll_target(biz, s, -1);
            if month_of(p) != month_of(s) { roll_target(biz, s, 1) } else { p }
        },
    }
}

/// `adjust` returns normally on day `s` under `conv`: every roll it makes
/// reaches a business day.
pub open spec fn can_adjust(biz: spec_fn(int) -> bool, def: spec_fn(int) -> bool, s: int, conv: BusinessDayConvention) -> bool {
    match conv {
        BusinessDayConvention::Unadjusted => true,
        BusinessDayConvention::Following => can_roll(biz, def, s, 1),
        BusinessDayConvention::Preceding => can_roll(biz, def, s, -1),
        BusinessDayConvention::ModifiedFollowing => can_roll(biz, def, s, 1)
            && (month_of(roll_target(biz, s, 1)) != month_of(s) ==> can_roll(biz, def, s, -1)),
        BusinessDayConvention::ModifiedPreceding => can_roll(biz, def, s, -1)
            && (month_of(roll_target(biz, s, -1)) != month_of(s) ==> can_roll(biz, def, s, 1)),
    }
}

/// Number of business days among the day numbers `a, a+1, …, b-1`.
pub open spec fn business_count(biz: spec_fn(int) -> bool, a: int, b: int) -> int
    decreases b - a,
{
    if b <= a {
        0
    } else {
        business_count(biz, a, b - 1) + (if biz(b - 1) { 1int } else { 0int })
    }
}

/// Business days among the first `j` days after `s` in direction `step`.
pub open spec fn steps_count(biz: spec_fn(int) -> bool, s: int, step: int, j: nat) -> int
    decreases j,
{
    if j == 0 {
        0
    } else {
        steps_count(biz, s, step, (j - 1) as nat)
            + (if biz(s + step * j) { 1int } else { 0int })
    }
}

/// Within `k` steps from `s` in direction `step`, `goal` business days are
/// met, every day on the way being in range and in the calendar's domain.
pub open spec fn advance_reach(biz: spec_fn(int) -> bool, def: spec_fn(int) -> bool, s: int, step: int, goal: int, k: nat) -> bool {
    &&& steps_count(biz, s, step, k) >= goal
    &&& forall|i: nat| 1 <= i <= k ==> fits_i32(#[trigger] (s + step * i)) && def(s + step * i)
}

/// `+1` for positive `n`, `-1` otherwise.
pub open spec fn direction(n: int) -> int {
    if n > 0 { 1 } else { -1 }
}

/// Absolute value.
pub open spec fn magnitude(n: int) -> int {
    if n >= 0 { n } else { -n }
}

/// `advance` returns normally from day `s` for `n` business days.
pub open spec fn can_advance(biz: spec_fn(int) -> bool, def: spec_fn(int) -> bool, s: int, n: int) -> bool {
    n != i32::MIN && (n != 0 ==> exists|k: nat| #[trigger] advance_reach(biz, def, s, direction(n), magnitude(n), k))
}

/// `business_days_between` returns normally for `[a, b)` (or `[b, a)`): each
/// day is in the calendar's domain and the count fits in `i32`.
pub open spec fn can_count(biz: spec_fn(int) -> bool, def: spec_fn(int) -> bool, a: int, b: int) -> bool {
    let lo = if a <= b { a } else { b };
    let hi = if a <= b { b } else { a };
    &&& forall|t: int| lo <= t < hi ==> #[trigger] def(t)
    &&& business_count(biz, lo, hi) <= i32::MAX
}

// ---------------------------------------------------------------------------
// Lemmas for the provided methods
// ---------------------------------------------------------------------------

proof fn lemma_reach_point(biz: spec_fn(int) -> bool, def: spec_fn(int) -> bool, s: int, step: int, k: nat, i: nat)
    requires
        roll_reach(biz, def, s, step, k),
        i <= k,
    ensures
        fits_i32(s + step * i),
        def(s + step * i),
{
}

proof fn lemma_roll_target(biz: spec_fn(int) -> bool, s: int, step: int, j: nat)
    requires
        first_roll(biz, s, step, j),
    ensures
        roll_target(biz, s, step) == s + step * j,
{
    let c = choose|k: nat| first_roll(biz, s, step, k);
    assert(first_roll(biz, s, step, c));
    if c < j {
        assert(!biz(s + step * c));
    }
    if j < c {
        assert(!biz(s + step * j));
    }
}

/// A roll that can be made lands on a business day.
pub proof fn lemma_roll_target_business(biz: spec_fn(int) -> bool, def: spec_fn(int) -> bool, s: int, step: int)
    requires
        can_roll(biz, def, s, step),
    ensures
        biz(roll_target(biz, s, step)),
        exists|k: nat| first_roll(biz, s, step, k),
{
    let k = choose|k: nat| roll_reach(biz, def, s, step, k);
    lemma_first_roll_exists(biz, s, step, k);
    let c = choose|c: nat| first_roll(biz, s, step, c);
    assert(first_roll(biz, s, step, c));
}

proof fn lemma_first_roll_exists(biz: spec_fn(int) -> bool, s: int, step: int, k: nat)
    requires
        biz(s + step * k),
    ensures
        exists|c: nat| c <= k && first_roll(biz, s, step, c),
    decreases k,
{
    if exists|i: nat| i < k && biz(#[trigger] (s + step * i)) {
        let i = choose|i: nat| i < k && biz(#[trigger] (s + step * i));
        lemma_first_roll_exists(biz, s, step, i);
    } else {
        assert(first_roll(biz, s, step, k));
    }
}

proof fn lemma_reach_fits(biz: spec_fn(int) -> bool, def: spec_fn(int) -> bool, s: int, step: int, goal: int, k: nat, i: nat)
    requires
        advance_reach(biz, def, s, step, goal, k),
        1 <= i <= k,
    ensures
        fits_i32(s + step * i),
        def(s + step * i),
{
}

proof fn lemma_steps_count_mono(biz: spec_fn(int) -> bool, s: int, step: int, a: nat, b: nat)
    requires
        a <= b,
    ensures
        steps_count(biz, s, step, a) <= steps_count(biz, s, step, b),
    decreases b - a,
{
    if a < b {
        lemma_steps_count_mono(biz, s, step, a, (b - 1) as nat);
    }
}

/// `steps_count` in direction +1 or -1 is a `business_count` over a range.
proof fn lemma_steps_count_range(biz: spec_fn(int) -> bool, s: int, step: int, j: nat)
    requires
        step == 1 || step == -1,
    ensures
        step == 1 ==> steps_count(biz, s, step, j) == business_count(biz, s + 1, s + j + 1),
        step == -1 ==> steps_count(biz, s, step, j) == business_count(biz, s - j, s),
    decreases j,
{
    if j > 0 {
        lemma_steps_count_range(biz, s, step, (j - 1) as nat);
        if step == -1 {
            lemma_business_count_front(biz, s - j, s);
        }
    }
}

/// Splitting off the first day of a counted range.
proof fn lemma_business_count_front(biz: spec_fn(int) -> bool, a: int, b: int)
    requires
        a < b,
    ensures
        business_count(biz, a, b) == business_count(biz, a + 1, b)
            + (if biz(a) { 1int } else { 0int }),
    decreases b - a,
{
    reveal_with_fuel(business_count, 2);
    if a + 1 < b {
        lemma_business_count_front(biz, a, b - 1);
    }
}

/// Counting over a sub-range gives no more.
proof fn lemma_business_count_bound(biz: spec_fn(int) -> bool, a: int, m: int, b: int)
    requires
        a <= m <= b,
    ensures
        business_count(biz, a, m) <= business_count(biz, a, b),
    decreases b - m,
{
    if m < b {
        lemma_business_count_bound(biz, a, m, b - 1);
    }
}


// ---------------------------------------------------------------------------
// Laws of adjustment and counting
// ---------------------------------------------------------------------------

/// Adjusting under any convention but `Unadjusted` lands on a business day,
/// and a business day is left where it is under every convention.
pub proof fn lemma_adjust_business_day(
    biz: spec_fn(int) -> bool,
    def: spec_fn(int) -> bool,
    s: int,
    conv: BusinessDayConvention,
)
    requires
        can_adjust(biz, def, s, conv),
    ensures
        conv != BusinessDayConvention::Unadjusted ==> biz(adjusted(biz, s, conv)),
        biz(s) ==> adjusted(biz, s, conv) == s,
{
    if conv != BusinessDayConvention::Unadjusted {
        if can_roll(biz, def, s, 1) {
            lemma_roll_target_business(biz, def, s, 1);
        }
        if can_roll(biz, def, s, -1) {
            lemma_roll_target_business(biz, def, s, -1);
        }
    }
    if biz(s) {
        assert(first_roll(biz, s, 1, 0));
        assert(first_roll(biz, s, -1, 0));
        lemma_roll_target(biz, s, 1, 0);
        lemma_roll_target(biz, s, -1, 0);
    }
}

/// Rolling forward reaches the first business day on or after `s`, rolling
/// backward the last one on or before it: no day in between is a business
/// day.
pub proof fn lemma_roll_nearest(biz: spec_fn(int) -> bool, def: spec_fn(int) -> bool, s: int, step: int)
    requires
        can_roll(biz, def, s, step),
        step == 1 || step == -1,
    ensures
        biz(roll_target(biz, s, step)),
        step == 1 ==> s <= roll_target(biz, s, step),
        step == -1 ==> roll_target(biz, s, step) <= s,
        step == 1 ==> forall|t: int| s <= t < roll_target(biz, s, step) ==> !#[trigger] biz(t),
        step == -1 ==> forall|t: int| roll_target(biz, s, step) < t <= s ==> !#[trigger] biz(t),
{
    lemma_roll_target_business(biz, def, s, step);
    let k = choose|k: nat| first_roll(biz, s, step, k);
    assert(first_roll(biz, s, step, k));
    lemma_roll_target(biz, s, step, k);
    if step == 1 {
        assert forall|t: int| s <= t < roll_target(biz, s, step) implies !#[trigger] biz(t) by {
            let i = (t - s) as nat;
            assert(s + step * i == t);
            assert(i < k);
        }
    } else {
        assert forall|t: int| roll_target(biz, s, step) < t <= s implies !#[trigger] biz(t) by {
            let i = (s - t) as nat;
            assert(s + step * i == t);
            assert(i < k);
        }
    }
}

/// Counting is additive over adjacent half-open ranges:
/// `[a, b)` and `[b, c)` together count as `[a, c)`.
pub proof fn lemma_business_count_additive(biz: spec_fn(int) -> bool, a: int, b: int, c: int)
    requires
        a <= b <= c,
    ensures
        business_count(biz, a, b) + business_count(biz, b, c) == business_count(biz, a, c),
    decreases c - b,
{
    if b < c {
        lemma_business_count_additive(biz, a, b, c - 1);
    }
}

/// The business days `business_days_between` reports from `a` to `b`:
/// the count over `[a, b)`, negated when `b` is before `a`.
pub open spec fn signed_business_count(biz: spec_fn(int) -> bool, a: int, b: int) -> int {
    if a <= b { business_count(biz, a, b) } else { -business_count(biz, b, a) }
}

/// Reversing the dates negates the signed count, signed counts add up along
/// any three dates, and the count from a day to the next is one exactly when
/// that first day is a business day (the range includes its start and
/// excludes its end).
pub proof fn lemma_signed_count_laws(biz: spec_fn(int) -> bool, a: int, b: int, c: int)
    ensures
        signed_business_count(biz, a, b) == -signed_business_count(biz, b, a),
        signed_business_count(biz, a, a) == 0,
        signed_business_count(biz, a, b) + signed_business_count(biz, b, c)
            == signed_business_count(biz, a, c),
        signed_business_count(biz, a, a + 1) == (if biz(a) { 1int } else { 0int }),
{
    assert(business_count(biz, a, a) == 0);
    if a <= b && b <= c {
        lemma_business_count_additive(biz, a, b, c);
    } else if a <= c && c <= b {
        lemma_business_count_additive(biz, a, c, b);
    } else if b <= a && a <= c {
        lemma_business_count_additive(biz, b, a, c);
    } else if b <= c && c <= a {
        lemma_business_count_additive(biz, b, c, a);
    } else if c <= a && a <= b {
        lemma_business_count_additive(biz, c, a, b);
    } else {
        lemma_business_count_additive(biz, c, b, a);
    }
}

/// There is a business day among the `n` days from `t` on.
pub open spec fn business_day_within(biz: spec_fn(int) -> bool, t: int, n: int) -> bool {
    exists|i: int| 0 <= i < n && #[trigger] biz(t + i)
}

/// Under the weekend-only calendar every three consecutive days hold a
/// business day, so every roll of a date whose neighbours have `i32`
/// serials reaches one.
pub proof fn lemma_weekends_only_dense(t: int, step: int)
    requires
        step == 1 || step == -1,
        fits_i32(t - 2),
        fits_i32(t + 2),
    ensures
        business_day_within(|u: int| WeekendsOnly.spec_business_day(u), t, 3),
        can_roll(|u: int| WeekendsOnly.spec_business_day(u), |u: int| WeekendsOnly.spec_defined(u), t, step),
{
    let biz = |u: int| WeekendsOnly.spec_business_day(u);
    let def = |u: int| WeekendsOnly.spec_defined(u);
    vstd::arithmetic::div_mod::lemma_fundamental_div_mod(t + 3, 7);
    vstd::arithmetic::div_mod::lemma_fundamental_div_mod(t + 4, 7);
    vstd::arithmetic::div_mod::lemma_fundamental_div_mod(t + 5, 7);
    vstd::arithmetic::div_mod::lemma_fundamental_div_mod(t + 2, 7);
    vstd::arithmetic::div_mod::lemma_fundamental_div_mod(t + 1, 7);
    let w = (t + 3) % 7;
    let i: int = if w < 5 { 0 } else if w == 5 { 2 } else { 1 };
    assert(biz(t + i));
    assert(business_day_within(biz, t, 3));
    let k: nat = if w < 5 { 0 } else if step == 1 {
        if w == 5 { 2 } else { 1 }
    } else {
        if w == 5 { 1 } else { 2 }
    };
    assert(biz(t + step * k));
    assert forall|j: nat| j <= k implies fits_i32(#[trigger] (t + step * j)) && def(t + step * j) by {
    }
    assert(roll_reach(biz, def, t, step, k));
}


/// Under `JoinHolidays` a day is a business day of the join exactly when it
/// is one of every member; under `JoinBusinessDays`, exactly when it is one
/// of some member.
pub proof fn lemma_join_rules(j: &JoinCalendar, s: int)
    ensures
        j.join_rule() == JoinRule::JoinHolidays ==> (j.spec_business_day(s) <==> forall|i: int|
            0 <= i < j.members().len() ==> #[trigger] j.members()[i].spec_business_day(s)),
        j.join_rule() == JoinRule::JoinBusinessDays ==> (j.spec_business_day(s) <==> exists|i: int|
            0 <= i < j.members().len() && #[trigger] j.members()[i].spec_business_day(s)),
{
}

/// A join of no calendars makes every day a business day under
/// `JoinHolidays` and none under `JoinBusinessDays`; a join of one calendar
/// has that calendar's business days under either rule.
pub proof fn lemma_join_degenerate(j: &JoinCalendar, s: int)
    ensures
        j.members().len() == 0 ==> (j.spec_business_day(s) <==> j.join_rule() == JoinRule::JoinHolidays),
        j.members().len() == 1 ==> (j.spec_business_day(s) <==> j.members()[0].spec_business_day(s)),
{
    if j.members().len() == 1 {
        if j.members()[0].spec_business_day(s) {
            assert(any_business(j.members(), s));
        }
    }
}


/// Under the weekend-only calendar no closure ever lasts four weeks.
pub proof fn lemma_weekends_only_no_closures(lo: int, hi: int)
    ensures
        dense_business_days(|u: int| WeekendsOnly.spec_business_day(u), lo, hi),
{
    let biz = |u: int| WeekendsOnly.spec_business_day(u);
    assert forall|t: int| lo <= t <= hi implies #[trigger] business_day_within(biz, t, 28) by {
        lemma_fundamental_div_mod(t + 3, 7);
        lemma_fundamental_div_mod(t + 4, 7);
        lemma_fundamental_div_mod(t + 5, 7);
        let w = (t + 3) % 7;
        let i: int = if w < 5 { 0 } else if w == 5 { 2 } else { 1 };
        assert(biz(t + i));
    }
}

/// Moving `k` days forward within a month keeps the year and month.
proof fn lemma_civil_shift(s: int, k: int)
    requires
        0 <= k,
        civil_of(s).2 + k <= crate::civil::month_length(civil_of(s).0, civil_of(s).1),
    ensures
        civil_of(s + k) == (civil_of(s).0, civil_of(s).1, civil_of(s).2 + k),
{
    crate::civil::lemma_civil_exists(s);
    let (y, m, d) = civil_of(s);
    assert(valid_ymd(y, m, d + k));
    assert(epoch_day(y, m, d + k) == s + k);
    crate::civil::lemma_civil_of_epoch_day(y, m, d + k);
}

/// One week after December 25 is January 1 of the next year, two weeks
/// after it January 8.
proof fn lemma_christmas_weeks(s: int)
    requires
        civil_of(s).1 == 12,
        civil_of(s).2 == 25,
    ensures
        civil_of(s + 7) == (civil_of(s).0 + 1, 1int, 1int),
        civil_of(s + 14) == (civil_of(s).0 + 1, 1int, 8int),
{
    crate::civil::lemma_civil_exists(s);
    let y = civil_of(s).0;
    crate::civil::lemma_year_length(y);
    crate::civil::lemma_days_before_month_table(y, 12);
    assert(valid_ymd(y + 1, 1, 1));
    assert(valid_ymd(y + 1, 1, 8));
    assert(epoch_day(y + 1, 1, 1) == s + 7);
    assert(epoch_day(y + 1, 1, 8) == s + 14);
    crate::civil::lemma_civil_of_epoch_day(y + 1, 1, 1);
    crate::civil::lemma_civil_of_epoch_day(y + 1, 1, 8);
}

/// A Wednesday of a year from 0 on is never Carnival, Good Friday, Corpus
/// Christi or Easter Monday: those fall on Monday, Tuesday, Friday, Thursday
/// and Monday of Easter's week pattern.
proof fn lemma_wednesday_not_easter_based(s: int)
    requires
        (s + 3) % 7 == 2,
        year_of(s) >= 0,
    ensures
        ({
            let e = easter_day(year_of(s));
            s != e - 48 && s != e - 47 && s != e - 2 && s != e + 1 && s != e + 60
        }),
{
    let e = easter_day(year_of(s));
    lemma_easter_is_sunday(year_of(s));
    lemma_fundamental_div_mod(e + 3, 7);
    lemma_fundamental_div_mod(s + 3, 7);
}

/// Of the three Wednesdays `s`, `s + 7` and `s + 14` (from the year 0 on),
/// one is a business day of a calendar whose Wednesday holidays are among
/// the fixed dates listed: of those, only New Year falls a week after
/// another (Christmas), and two weeks after Christmas is no holiday.
proof fn lemma_three_wednesdays(biz: spec_fn(int) -> bool, s: int)
    requires
        (s + 3) % 7 == 2,
        year_of(s) >= 0,
        forall|t: int| (t + 3) % 7 == 2 && year_of(t) >= 0 && !#[trigger] biz(t) ==> {
            let c = civil_of(t);
            ||| c.1 == 1 && c.2 == 1
            ||| c.1 == 4 && c.2 == 21
            ||| c.1 == 5 && c.2 == 1
            ||| c.1 == 9 && c.2 == 7
            ||| c.1 == 10 && c.2 == 12
            ||| c.1 == 11 && (c.2 == 2 || c.2 == 15 || c.2 == 20)
            ||| c.1 == 12 && (c.2 == 25 || c.2 == 26)
        },
    ensures
        biz(s) || biz(s + 7) || biz(s + 14),
{
    crate::civil::lemma_civil_exists(s);
    lemma_fundamental_div_mod(s + 3, 7);
    lemma_fundamental_div_mod(s + 10, 7);
    lemma_fundamental_div_mod(s + 17, 7);
    crate::date::lemma_date_order(s, s + 7);
    crate::date::lemma_date_order(s, s + 14);
    let (y, m, d) = civil_of(s);
    if !biz(s) {
        if m == 12 && d == 25 {
            lemma_christmas_weeks(s);
            assert(biz(s + 14));
        } else if m == 12 && d == 26 {
            assert(valid_ymd(y, 12, 25));
            assert(epoch_day(y, 12, 25) == s - 1);
            crate::civil::lemma_civil_of_epoch_day(y, 12, 25);
            lemma_christmas_weeks(s - 1);
            lemma_civil_shift(s + 6, 1);
            assert(biz(s + 7));
        } else {
            lemma_civil_shift(s, 7);
            assert(biz(s + 7));
        }
    }
}

/// Every 28 consecutive days starting from `lo` to `hi` hold a business day:
/// no closure there lasts four weeks.
pub open spec fn dense_business_days(biz: spec_fn(int) -> bool, lo: int, hi: int) -> bool {
    forall|t: int| lo <= t <= hi ==> #[trigger] business_day_within(biz, t, 28)
}

/// Days from 0000-01-01 on lie in years from 0 on.
proof fn lemma_year_from_zero(x: int)
    requires
        x >= epoch_day(0, 1, 1),
    ensures
        year_of(x) >= 0,
{
    assert(valid_ymd(0, 1, 1));
    crate::civil::lemma_civil_of_epoch_day(0, 1, 1);
    crate::date::lemma_date_order(x, epoch_day(0, 1, 1));
}

/// From any day of a year from 0 on, one of the first three Wednesdays is a
/// business day of a calendar whose Wednesday holidays are fixed ones (with
/// New Year the only one a week after another).
proof fn lemma_wednesday_window(biz: spec_fn(int) -> bool, t: int)
    requires
        t >= epoch_day(0, 1, 1),
        forall|u: int| (u + 3) % 7 == 2 && year_of(u) >= 0 && !#[trigger] biz(u) ==> {
            let c = civil_of(u);
            ||| c.1 == 1 && c.2 == 1
            ||| c.1 == 4 && c.2 == 21
            ||| c.1 == 5 && c.2 == 1
            ||| c.1 == 9 && c.2 == 7
            ||| c.1 == 10 && c.2 == 12
            ||| c.1 == 11 && (c.2 == 2 || c.2 == 15 || c.2 == 20)
            ||| c.1 == 12 && (c.2 == 25 || c.2 == 26)
        },
    ensures
        business_day_within(biz, t, 28),
{
    lemma_fundamental_div_mod(t + 3, 7);
    let w = (t + 3) % 7;
    let k: int = if w <= 2 { 2 - w } else { 9 - w };
    lemma_fundamental_div_mod(t + k + 3, 7);
    assert((t + k + 3) % 7 == 2);
    lemma_year_from_zero(t + k);
    lemma_three_wednesdays(biz, t + k);
    if biz(t + k) {
        assert(biz(t + k));
    } else if biz(t + k + 7) {
        assert(biz(t + (k + 7)));
    } else {
        assert(biz(t + (k + 14)));
    }
}

/// From the year 0 on, no Brazilian closure lasts four weeks: every 28
/// consecutive days hold a business day.
pub proof fn lemma_brazil_no_closures(lo: int, hi: int)
    requires
        lo >= epoch_day(0, 1, 1),
    ensures
        dense_business_days(|u: int| Brazil.spec_business_day(u), lo, hi),
{
    let biz = |u: int| Brazil.spec_business_day(u);
    assert forall|u: int| (u + 3) % 7 == 2 && year_of(u) >= 0 && !#[trigger] biz(u) implies {
        let c = civil_of(u);
        ||| c.1 == 1 && c.2 == 1
        ||| c.1 == 4 && c.2 == 21
        ||| c.1 == 5 && c.2 == 1
        ||| c.1 == 9 && c.2 == 7
        ||| c.1 == 10 && c.2 == 12
        ||| c.1 == 11 && (c.2 == 2 || c.2 == 15 || c.2 == 20)
        ||| c.1 == 12 && (c.2 == 25 || c.2 == 26)
    } by {
        lemma_wednesday_not_easter_based(u);
    }
    assert forall|t: int| lo <= t <= hi implies #[trigger] business_day_within(biz, t, 28) by {
        lemma_wednesday_window(biz, t);
    }
}

/// From the year 0 on, no TARGET2 closure lasts four weeks: every 28
/// consecutive days hold a business day.
pub proof fn lemma_target2_no_closures(lo: int, hi: int)
    requires
        lo >= epoch_day(0, 1, 1),
    ensures
        dense_business_days(|u: int| Target2.spec_business_day(u), lo, hi),
{
    let biz = |u: int| Target2.spec_business_day(u);
    assert forall|u: int| (u + 3) % 7 == 2 && year_of(u) >= 0 && !#[trigger] biz(u) implies {
        let c = civil_of(u);
        ||| c.1 == 1 && c.2 == 1
        ||| c.1 == 4 && c.2 == 21
        ||| c.1 == 5 && c.2 == 1
        ||| c.1 == 9 && c.2 == 7
        ||| c.1 == 10 && c.2 == 12
        ||| c.1 == 11 && (c.2 == 2 || c.2 == 15 || c.2 == 20)
        ||| c.1 == 12 && (c.2 == 25 || c.2 == 26)
    } by {
        lemma_wednesday_not_easter_based(u);
    }
    assert forall|t: int| lo <= t <= hi implies #[trigger] business_day_within(biz, t, 28) by {
        lemma_wednesday_window(biz, t);
    }
}

/// Two days less than four weeks apart with the same month number are in the
/// same month of the same year, and so is every day between them.
proof fn lemma_month_window(x: int, z: int, y: int)
    requires
        x <= z <= y,
        y - x < 28,
        month_of(x) == month_of(y),
    ensures
        year_of(x) == year_of(y),
        year_of(z) == year_of(x),
        month_of(z) == month_of(x),
{
    crate::civil::lemma_civil_exists(x);
    crate::civil::lemma_civil_exists(y);
    crate::civil::lemma_civil_exists(z);
    crate::date::lemma_date_order(x, y);
    crate::date::lemma_date_order(x, z);
    crate::date::lemma_date_order(z, y);
    let (yx, m, dx) = civil_of(x);
    let (yy, m2, dy) = civil_of(y);
    if yx != yy {
        assert(yx < yy);
        crate::civil::lemma_days_before_year_mono(yx, yy);
        crate::civil::lemma_days_before_month_table(yx, m);
        crate::civil::lemma_days_before_month_table(yy, m);
        assert(y - x >= 334);
    }
}

/// Days `a` and `b` lie in the same month of the same year.
pub open spec fn same_month(a: int, b: int) -> bool {
    year_of(a) == year_of(b) && month_of(a) == month_of(b)
}

/// A day between two days of one month is in that month.
proof fn lemma_same_month_between(x: int, z: int, y: int)
    requires
        x <= z <= y,
        same_month(x, y),
    ensures
        same_month(z, x),
{
    crate::civil::lemma_civil_exists(x);
    crate::civil::lemma_civil_exists(y);
    crate::civil::lemma_civil_exists(z);
    crate::date::lemma_date_order(x, z);
    crate::date::lemma_date_order(z, y);
}

/// Modified Following keeps a date in its own month whenever that month has
/// a business day (`t`): it gives the first business day on or after the
/// date when the month has one, and otherwise the last business day before
/// it. (Without four-week closures after the date, so that a forward roll
/// into another month is seen as one.)
pub proof fn lemma_modified_following(biz: spec_fn(int) -> bool, def: spec_fn(int) -> bool, s: int, t: int)
    requires
        can_adjust(biz, def, s, BusinessDayConvention::ModifiedFollowing),
        dense_business_days(biz, s, s),
        biz(t),
        same_month(t, s),
    ensures
        ({
            let r = adjusted(biz, s, BusinessDayConvention::ModifiedFollowing);
            &&& biz(r)
            &&& same_month(r, s)
            &&& s <= r ==> forall|u: int| s <= u < r ==> !#[trigger] biz(u)
            &&& r < s ==> forall|u: int| r < u <= s ==> !#[trigger] biz(u)
            &&& r < s ==> forall|u: int| s <= u && same_month(u, s) ==> !#[trigger] biz(u)
        }),
{
    let f = roll_target(biz, s, 1);
    lemma_roll_nearest(biz, def, s, 1);
    if same_month(f, s) {
    } else {
        lemma_dense_roll(biz, def, s, 1);
        if month_of(f) == month_of(s) {
            lemma_month_window(s, s, f);
        }
        assert(month_of(f) != month_of(s));
        let p = roll_target(biz, s, -1);
        lemma_roll_nearest(biz, def, s, -1);
        assert forall|u: int| s <= u && same_month(u, s) implies !#[trigger] biz(u) by {
            if biz(u) {
                assert(f <= u);
                lemma_same_month_between(s, f, u);
            }
        }
        assert(t < s);
        assert(t <= p);
        lemma_same_month_between(t, p, s);
    }
}

/// Modified Preceding keeps a date in its own month whenever that month has
/// a business day (`t`): it gives the last business day on or before the
/// date when the month has one, and otherwise the first business day after
/// it. (Without four-week closures before the date.)
pub proof fn lemma_modified_preceding(biz: spec_fn(int) -> bool, def: spec_fn(int) -> bool, s: int, t: int)
    requires
        can_adjust(biz, def, s, BusinessDayConvention::ModifiedPreceding),
        dense_business_days(biz, s - 27, s - 27),
        biz(t),
        same_month(t, s),
    ensures
        ({
            let r = adjusted(biz, s, BusinessDayConvention::ModifiedPreceding);
            &&& biz(r)
            &&& same_month(r, s)
            &&& r <= s ==> forall|u: int| r < u <= s ==> !#[trigger] biz(u)
            &&& s < r ==> forall|u: int| s <= u < r ==> !#[trigger] biz(u)
            &&& s < r ==> forall|u: int| u <= s && same_month(u, s) ==> !#[trigger] biz(u)
        }),
{
    let p = roll_target(biz, s, -1);
    lemma_roll_nearest(biz, def, s, -1);
    if same_month(p, s) {
    } else {
        lemma_dense_roll(biz, def, s, -1);
        if month_of(p) == month_of(s) {
            lemma_month_window(p, s, s);
        }
        assert(month_of(p) != month_of(s));
        let f = roll_target(biz, s, 1);
        lemma_roll_nearest(biz, def, s, 1);
        assert forall|u: int| u <= s && same_month(u, s) implies !#[trigger] biz(u) by {
            if biz(u) {
                assert(u <= p);
                lemma_same_month_between(u, p, s);
            }
        }
        assert(s < t);
        assert(f <= t);
        lemma_same_month_between(s, f, t);
    }
}

/// Rolling in a fixed direction keeps the order of the days rolled.
pub proof fn lemma_roll_monotone(biz: spec_fn(int) -> bool, def: spec_fn(int) -> bool, s1: int, s2: int, step: int)
    requires
        s1 <= s2,
        step == 1 || step == -1,
        can_roll(biz, def, s1, step),
        can_roll(biz, def, s2, step),
    ensures
        roll_target(biz, s1, step) <= roll_target(biz, s2, step),
{
    lemma_roll_nearest(biz, def, s1, step);
    lemma_roll_nearest(biz, def, s2, step);
    let r1 = roll_target(biz, s1, step);
    let r2 = roll_target(biz, s2, step);
    if r2 < r1 {
        if step == 1 {
            assert(!biz(r2));
        } else {
            assert(!biz(r1));
        }
    }
}

/// From `s`, the first business day on or after it is less than four weeks
/// away, and so is the last one on or before it.
proof fn lemma_dense_roll(biz: spec_fn(int) -> bool, def: spec_fn(int) -> bool, s: int, step: int)
    requires
        step == 1 ==> dense_business_days(biz, s, s),
        step == -1 ==> dense_business_days(biz, s - 27, s - 27),
        can_roll(biz, def, s, step),
        step == 1 || step == -1,
    ensures
        step == 1 ==> roll_target(biz, s, step) - s < 28,
        step == -1 ==> s - roll_target(biz, s, step) < 28,
{
    lemma_roll_nearest(biz, def, s, step);
    if step == 1 {
        assert(business_day_within(biz, s, 28));
        let i = choose|i: int| 0 <= i < 28 && #[trigger] biz(s + i);
        assert(biz(s + i));
    } else {
        assert(business_day_within(biz, s - 27, 28));
        let i = choose|i: int| 0 <= i < 28 && #[trigger] biz(s - 27 + i);
        assert(biz(s - 27 + i));
    }
}

/// Adjusting under one convention keeps the order of the days adjusted.
/// The modified conventions need business days to be dense around the two
/// days (a roll that jumps a year could come back to the same month
/// number).
pub proof fn lemma_adjusted_monotone(
    biz: spec_fn(int) -> bool,
    def: spec_fn(int) -> bool,
    s1: int,
    s2: int,
    conv: BusinessDayConvention,
)
    requires
        s1 <= s2,
        can_adjust(biz, def, s1, conv),
        can_adjust(biz, def, s2, conv),
        conv == BusinessDayConvention::ModifiedFollowing || conv == BusinessDayConvention::ModifiedPreceding
            ==> dense_business_days(biz, s1 - 27, s2),
    ensures
        adjusted(biz, s1, conv) <= adjusted(biz, s2, conv),
{
    match conv {
        BusinessDayConvention::Unadjusted => {},
        BusinessDayConvention::Following => {
            lemma_roll_monotone(biz, def, s1, s2, 1);
        },
        BusinessDayConvention::Preceding => {
            lemma_roll_monotone(biz, def, s1, s2, -1);
        },
        BusinessDayConvention::ModifiedFollowing => {
            let f1 = roll_target(biz, s1, 1);
            let f2 = roll_target(biz, s2, 1);
            lemma_roll_nearest(biz, def, s1, 1);
            lemma_roll_nearest(biz, def, s2, 1);
            lemma_roll_monotone(biz, def, s1, s2, 1);
            let in1 = month_of(f1) == month_of(s1);
            let in2 = month_of(f2) == month_of(s2);
            if !in1 {
                lemma_roll_nearest(biz, def, s1, -1);
            }
            if !in2 {
                lemma_roll_nearest(biz, def, s2, -1);
            }
            if !in1 && !in2 {
                lemma_roll_monotone(biz, def, s1, s2, -1);
            }
            if in1 && !in2 {
                if f1 >= s2 {
                    assert(!(f1 < f2) ==> f1 == f2);
                    if f1 < f2 {
                        assert(!biz(f1));
                    }
                    lemma_dense_roll(biz, def, s1, 1);
                    lemma_month_window(s1, s2, f1);
                    assert(false);
                }
                let p2 = roll_target(biz, s2, -1);
                if f1 > p2 {
                    assert(!biz(f1));
                }
            }
        },
        BusinessDayConvention::ModifiedPreceding => {
            let p1 = roll_target(biz, s1, -1);
            let p2 = roll_target(biz, s2, -1);
            lemma_roll_nearest(biz, def, s1, -1);
            lemma_roll_nearest(biz, def, s2, -1);
            lemma_roll_monotone(biz, def, s1, s2, -1);
            let in1 = month_of(p1) == month_of(s1);
            let in2 = month_of(p2) == month_of(s2);
            if !in1 {
                lemma_roll_nearest(biz, def, s1, 1);
            }
            if !in2 {
                lemma_roll_nearest(biz, def, s2, 1);
            }
            if !in1 && !in2 {
                lemma_roll_monotone(biz, def, s1, s2, 1);
            }
            if !in1 && in2 {
                if p2 <= s1 {
                    if p1 > p2 {
                        assert(!biz(p1));
                    }
                    lemma_dense_roll(biz, def, s2, -1);
                    lemma_month_window(p2, s1, s2);
                    assert(false);
                }
                let f1 = roll_target(biz, s1, 1);
                if f1 > p2 {
                    assert(!biz(p2));
                }
            }
        },
    }
}

} // verus!
