//! Calendar dates, weekdays, and date periods.
//!
//! A [`Date`] is a proleptic Gregorian calendar date stored as a single `i32`
//! serial number: the count of days since 1970-01-01. Conversions between
//! `(year, month, day)` and the serial number use Howard Hinnant's
//! `days_from_civil` / `civil_from_days` algorithms, proved here against the
//! calendar model of [`crate::civil`].

use vstd::prelude::*;
use crate::civil::{
    civil_of, day_of, epoch_day, lemma_civil_of_epoch_day, lemma_civil_triple, lemma_epoch_day_era,
    lemma_month_of_year, lemma_year_of_era, lemma_year_range, lemma_civil_exists,
    lemma_epoch_day_strictly_increasing, ymd_before, leap_year, month_length, month_of, valid_ymd, year_of,
};
use crate::text::{
    padded_decimal, push_padded, push_signed, push_signed_padded, signed_decimal, signed_padded,
};

verus! {

/// Errors from date construction and arithmetic.
#[derive(Debug, Clone, PartialEq, Eq)]
#[non_exhaustive]
pub enum DateError {
    /// `(year, month, day)` is not a valid Gregorian calendar date.
    InvalidDate { year: i32, month: u32, day: u32 },
    /// A serial number or arithmetic result fell outside the supported range.
    OutOfRange(String),
}

impl DateError {
    /// Human-readable message, e.g. `invalid date: 2023-02-29`.
    pub fn to_string(&self) -> (r: String)
        ensures
            match self {
                DateError::InvalidDate { year, month, day } => r@ == "invalid date: "@
                    + signed_padded(*year as int, 4) + "-"@ + padded_decimal(*month as nat, 2) + "-"@
                    + padded_decimal(*day as nat, 2),
                DateError::OutOfRange(msg) => r@ == "date out of range: "@ + msg@,
            },
    {
        match self {
            DateError::InvalidDate { year, month, day } => {
                let mut s = "invalid date: ".to_owned();
                push_signed_padded(&mut s, *year as i64, 4);
                s.append("-");
                push_padded(&mut s, *month as u64, 2);
                s.append("-");
                push_padded(&mut s, *day as u64, 2);
                s
            },
            DateError::OutOfRange(msg) => {
                let mut s = "date out of range: ".to_owned();
                s.append(msg.as_str());
                s
            },
        }
    }
}

/// Day of the week, ISO order (Monday = 1 … Sunday = 7).
#[derive(Debug, Clone, Copy, PartialEq, Eq, Hash, Structural)]
pub enum Weekday {
    Monday,
    Tuesday,
    Wednesday,
    Thursday,
    Friday,
    Saturday,
    Sunday,
}

/// ISO number of a weekday, Monday = 1 … Sunday = 7.
pub open spec fn weekday_number(w: Weekday) -> int {
    match w {
        Weekday::Monday => 1,
        Weekday::Tuesday => 2,
        Weekday::Wednesday => 3,
        Weekday::Thursday => 4,
        Weekday::Friday => 5,
        Weekday::Saturday => 6,
        Weekday::Sunday => 7,
    }
}

/// Weekday of day number `s`; day 0 (1970-01-01) was a Thursday.
pub open spec fn weekday_of(s: int) -> Weekday {
    let i = (s + 3) % 7;
    if i == 0 { Weekday::Monday }
    else if i == 1 { Weekday::Tuesday }
    else if i == 2 { Weekday::Wednesday }
    else if i == 3 { Weekday::Thursday }
    else if i == 4 { Weekday::Friday }
    else if i == 5 { Weekday::Saturday }
    else { Weekday::Sunday }
}

/// Day number `s` falls on a Saturday or Sunday.
pub open spec fn weekend(s: int) -> bool {
    (s + 3) % 7 >= 5
}

impl Weekday {
    /// ISO weekday number, Monday = 1 … Sunday = 7.
    pub fn number(self) -> (r: u32)
        ensures
            r == weekday_number(self),
    {
        match self {
            Weekday::Monday => 1,
            Weekday::Tuesday => 2,
            Weekday::Wednesday => 3,
            Weekday::Thursday => 4,
            Weekday::Friday => 5,
            Weekday::Saturday => 6,
            Weekday::Sunday => 7,
        }
    }

    /// True for Saturday and Sunday.
    pub fn is_weekend(self) -> (r: bool)
        ensures
            r == (self == Weekday::Saturday || self == Weekday::Sunday),
    {
        match self {
            Weekday::Saturday | Weekday::Sunday => true,
            _ => false,
        }
    }
}

/// Unit of a [`Period`].
#[derive(Debug, Clone, Copy, PartialEq, Eq, Hash, Structural)]
pub enum Unit {
    Days,
    Weeks,
    Months,
    Years,
}

/// A signed span of calendar time, e.g. `3 months` or `-2 weeks`.
///
/// `Days`/`Weeks` add a fixed number of days. `Months`/`Years` are calendar
/// arithmetic: the day of month is kept where possible and clamped to the last
/// day of the target month otherwise.
#[derive(Debug, Clone, Copy, PartialEq, Eq, Hash, Structural)]
pub struct Period {
    pub num: i32,
    pub unit: Unit,
}

impl Period {
    /// `n` days.
    pub fn days(n: i32) -> (r: Self)
        ensures
            r == (Period { num: n, unit: Unit::Days }),
    {
        Period { num: n, unit: Unit::Days }
    }

    /// `n` weeks (7 days each).
    pub fn weeks(n: i32) -> (r: Self)
        ensures
            r == (Period { num: n, unit: Unit::Weeks }),
    {
        Period { num: n, unit: Unit::Weeks }
    }

    /// `n` calendar months.
    pub fn months(n: i32) -> (r: Self)
        ensures
            r == (Period { num: n, unit: Unit::Months }),
    {
        Period { num: n, unit: Unit::Months }
    }

    /// `n` calendar years.
    pub fn years(n: i32) -> (r: Self)
        ensures
            r == (Period { num: n, unit: Unit::Years }),
    {
        Period { num: n, unit: Unit::Years }
    }

    /// Compact form: the signed count then `D`, `W`, `M` or `Y` (e.g. `3M`).
    pub fn to_string(&self) -> (r: String)
        ensures
            r@ == signed_decimal(self.num as int) + seq![unit_suffix(self.unit)],
    {
        let mut s = String::new();
        push_signed(&mut s, self.num as i64);
        let suffix = match self.unit {
            Unit::Days => "D",
            Unit::Weeks => "W",
            Unit::Months => "M",
            Unit::Years => "Y",
        };
        proof {
            reveal_strlit("D");
            reveal_strlit("W");
            reveal_strlit("M");
            reveal_strlit("Y");
        }
        s.append(suffix);
        s
    }
}

/// Suffix letter of a period unit.
pub open spec fn unit_suffix(u: Unit) -> char {
    match u {
        Unit::Days => 'D',
        Unit::Weeks => 'W',
        Unit::Months => 'M',
        Unit::Years => 'Y',
    }
}

/// The period with the opposite sign.
pub open spec fn negated(p: Period) -> Period {
    Period { num: -p.num as i32, unit: p.unit }
}

/// Day number `s` moved by `n` calendar months, the day of month clamped to
/// the length of the target month.
pub open spec fn add_months_serial(s: int, n: int) -> int {
    let c = civil_of(s);
    let total = 12 * c.0 + c.1 - 1 + n;
    let y = total / 12;
    let m = total % 12 + 1;
    let d = if c.2 <= month_length(y, m) { c.2 } else { month_length(y, m) };
    epoch_day(y, m, d)
}

/// Last day of the month of day number `s`.
pub open spec fn end_of_month_serial(s: int) -> int {
    epoch_day(year_of(s), month_of(s), month_length(year_of(s), month_of(s)))
}

/// Day number `s` is the last day of its month.
pub open spec fn is_end_of_month_serial(s: int) -> bool {
    day_of(s) == month_length(year_of(s), month_of(s))
}

/// The target of a month shift is a real date, in the target month.
pub proof fn lemma_add_months_civil(s: int, n: int)
    ensures
        ({
            let c = civil_of(s);
            let total = 12 * c.0 + c.1 - 1 + n;
            let y = total / 12;
            let m = total % 12 + 1;
            let d = if c.2 <= month_length(y, m) { c.2 } else { month_length(y, m) };
            &&& valid_ymd(y, m, d)
            &&& civil_of(add_months_serial(s, n)) == (y, m, d)
        }),
{
    lemma_civil_exists(s);
    let c = civil_of(s);
    let total = 12 * c.0 + c.1 - 1 + n;
    let y = total / 12;
    let m = total % 12 + 1;
    let d = if c.2 <= month_length(y, m) { c.2 } else { month_length(y, m) };
    assert(valid_ymd(y, m, d));
    lemma_civil_of_epoch_day(y, m, d);
}

/// Shifting by `n` months moves the month count (12 × year + month) by `n`
/// and keeps the day of month, clamped to the length of the target month.
pub proof fn lemma_add_months_law(s: int, n: int)
    ensures
        ({
            let (y, m, d) = civil_of(s);
            let (y2, m2, d2) = civil_of(add_months_serial(s, n));
            &&& 12 * y2 + m2 == 12 * y + m + n
            &&& 1 <= m2 <= 12
            &&& d2 == (if d <= month_length(y2, m2) { d } else { month_length(y2, m2) })
        }),
{
    lemma_add_months_civil(s, n);
    let c = civil_of(s);
    let total = 12 * c.0 + c.1 - 1 + n;
    vstd::arithmetic::div_mod::lemma_fundamental_div_mod(total, 12);
}

/// Shifting by more months lands strictly later, also after rolling to the
/// end of the month.
pub proof fn lemma_add_months_increasing(s: int, n1: int, n2: int)
    requires
        n1 < n2,
    ensures
        add_months_serial(s, n1) < add_months_serial(s, n2),
        end_of_month_serial(add_months_serial(s, n1)) < end_of_month_serial(add_months_serial(s, n2)),
{
    lemma_add_months_civil(s, n1);
    lemma_add_months_civil(s, n2);
    let c = civil_of(s);
    let t1 = 12 * c.0 + c.1 - 1 + n1;
    let t2 = 12 * c.0 + c.1 - 1 + n2;
    vstd::arithmetic::div_mod::lemma_fundamental_div_mod(t1, 12);
    vstd::arithmetic::div_mod::lemma_fundamental_div_mod(t2, 12);
    let a1 = civil_of(add_months_serial(s, n1));
    let a2 = civil_of(add_months_serial(s, n2));
    assert(ymd_before(a1.0, a1.1, a1.2, a2.0, a2.1, a2.2));
    lemma_epoch_day_strictly_increasing(a1.0, a1.1, a1.2, a2.0, a2.1, a2.2);
    let l1 = month_length(a1.0, a1.1);
    let l2 = month_length(a2.0, a2.1);
    assert(ymd_before(a1.0, a1.1, l1, a2.0, a2.1, l2));
    lemma_epoch_day_strictly_increasing(a1.0, a1.1, l1, a2.0, a2.1, l2);
}

/// Day number `s` moved by `num` units.
pub open spec fn shift_serial(s: int, num: int, unit: Unit) -> int {
    match unit {
        Unit::Days => s + num,
        Unit::Weeks => s + 7 * num,
        Unit::Months => add_months_serial(s, num),
        Unit::Years => add_months_serial(s, 12 * num),
    }
}

/// Day number `s` moved by `p`.
pub open spec fn add_period_serial(s: int, p: Period) -> int {
    shift_serial(s, p.num as int, p.unit)
}

/// Moving day number `s` by `p` stays within the `i32` serial range (and the
/// scaling of a week or year count to days or months fits in `i32`).
pub open spec fn add_period_fits(s: int, p: Period) -> bool {
    &&& (p.unit == Unit::Weeks ==> i32::MIN <= 7 * p.num <= i32::MAX)
    &&& (p.unit == Unit::Years ==> i32::MIN <= 12 * p.num <= i32::MAX)
    &&& i32::MIN <= add_period_serial(s, p) <= i32::MAX
}

/// The value fits in an `i32`.
pub open spec fn fits_i32(v: int) -> bool {
    i32::MIN <= v <= i32::MAX
}

/// A proleptic Gregorian calendar date stored as days since 1970-01-01.
///
/// Ordering and equality are by serial number, so they coincide with calendar
/// order (see `lemma_date_order`).
#[derive(Debug, Clone, Copy, PartialEq, Eq, PartialOrd, Ord, Hash, Structural)]
pub struct Date {
    serial: i32,
}

impl View for Date {
    type V = int;

    /// The day number.
    closed spec fn view(&self) -> int {
        self.serial as int
    }
}

/// Every date's day number lies in the `i32` range.
pub broadcast proof fn lemma_date_range(d: Date)
    ensures
        #![trigger d@]
        fits_i32(d@),
{
}

impl Date {
    /// Constructs a date from a calendar `(year, month, day)`.
    ///
    /// Returns [`DateError::InvalidDate`] when the triple is not a real date
    /// (month outside 1–12, day 0, February 30, …), and
    /// [`DateError::OutOfRange`] when the date's serial does not fit in `i32`.
    pub fn new(year: i32, month: u32, day: u32) -> (r: Result<Date, DateError>)
        ensures
            match r {
                Ok(d) => valid_ymd(year as int, month as int, day as int)
                    && d@ == epoch_day(year as int, month as int, day as int),
                Err(DateError::InvalidDate { year: y, month: m, day: dd }) =>
                    !valid_ymd(year as int, month as int, day as int)
                    && y == year && m == month && dd == day,
                Err(DateError::OutOfRange(msg)) => valid_ymd(year as int, month as int, day as int)
                    && !fits_i32(epoch_day(year as int, month as int, day as int))
                    && msg@ == "serial outside the i32 range"@,
            },
    {
        if month < 1 || month > 12 || day < 1 || day > days_in_month(year, month) {
            return Err(DateError::InvalidDate { year, month, day });
        }
        let s = days_from_civil_wide(year, month, day);
        if s < i32::MIN as i64 || s > i32::MAX as i64 {
            return Err(DateError::OutOfRange("serial outside the i32 range".to_owned()));
        }
        Ok(Date { serial: s as i32 })
    }

    /// Constructs a date directly from its serial number (days since
    /// 1970-01-01). Always valid.
    pub fn from_serial(serial: i32) -> (r: Self)
        ensures
            r@ == serial,
    {
        Date { serial }
    }

    /// The serial number: days since 1970-01-01 (negative before the epoch).
    pub fn serial(self) -> (r: i32)
        ensures
            r == self@,
    {
        self.serial
    }

    /// Calendar year.
    pub fn year(self) -> (r: i32)
        ensures
            r == year_of(self@),
    {
        civil_from_days(self.serial).0
    }

    /// Calendar month, 1–12.
    pub fn month(self) -> (r: u32)
        ensures
            r == month_of(self@),
            1 <= r <= 12,
    {
        civil_from_days(self.serial).1
    }

    /// Day of month, 1–31.
    pub fn day(self) -> (r: u32)
        ensures
            r == day_of(self@),
            1 <= r <= 31,
    {
        civil_from_days(self.serial).2
    }

    /// `(year, month, day)` in one call.
    pub fn ymd(self) -> (r: (i32, u32, u32))
        ensures
            (r.0 as int, r.1 as int, r.2 as int) == civil_of(self@),
            valid_ymd(r.0 as int, r.1 as int, r.2 as int),
            epoch_day(r.0 as int, r.1 as int, r.2 as int) == self@,
    {
        civil_from_days(self.serial)
    }

    /// Day of the week.
    pub fn weekday(self) -> (r: Weekday)
        ensures
            r == weekday_of(self@),
    {
        let k = (self.serial as i64 + 3) % 7;
        let i = if k < 0 { k + 7 } else { k };
        if i == 0 { Weekday::Monday }
        else if i == 1 { Weekday::Tuesday }
        else if i == 2 { Weekday::Wednesday }
        else if i == 3 { Weekday::Thursday }
        else if i == 4 { Weekday::Friday }
        else if i == 5 { Weekday::Saturday }
        else { Weekday::Sunday }
    }

    /// True if the date falls on a Saturday or Sunday.
    pub fn is_weekend(self) -> (r: bool)
        ensures
            r == weekend(self@),
    {
        self.weekday().is_weekend()
    }

    /// True if the date's year is a Gregorian leap year.
    pub fn is_leap_year(self) -> (r: bool)
        ensures
            r == leap_year(year_of(self@)),
    {
        is_leap(self.year())
    }

    /// Returns this date advanced by `n` days (negative moves backward).
    pub fn add_days(self, n: i32) -> (r: Self)
        requires
            fits_i32(self@ + n),
        ensures
            r@ == self@ + n,
    {
        Date { serial: self.serial + n }
    }

    /// Signed number of days from `self` to `other` (`other - self`).
    pub fn days_until(self, other: Self) -> (r: i32)
        requires
            fits_i32(other@ - self@),
        ensures
            r == other@ - self@,
    {
        other.serial - self.serial
    }

    /// The last day of this date's month, in the same year and month.
    pub fn end_of_month(self) -> (r: Self)
        requires
            fits_i32(end_of_month_serial(self@)),
        ensures
            r@ == end_of_month_serial(self@),
            civil_of(r@) == (year_of(self@), month_of(self@), month_length(year_of(self@), month_of(self@))),
    {
        let (y, m, _) = self.ymd();
        let d = days_in_month(y, m);
        let s = days_from_civil(y, m, d);
        proof {
            lemma_civil_of_epoch_day(y as int, m as int, d as int);
        }
        Date { serial: s }
    }

    /// True if this date is the last day of its month.
    pub fn is_end_of_month(self) -> (r: bool)
        ensures
            r == is_end_of_month_serial(self@),
    {
        let (y, m, d) = self.ymd();
        d == days_in_month(y, m)
    }

    /// Returns this date advanced by `period` (negative periods move backward).
    ///
    /// Days/weeks add a fixed day count. Months/years use calendar arithmetic
    /// with end-of-month clamping.
    pub fn add_period(self, period: Period) -> (r: Self)
        requires
            add_period_fits(self@, period),
        ensures
            r@ == add_period_serial(self@, period),
    {
        match period.unit {
            Unit::Days => self.add_days(period.num),
            Unit::Weeks => self.add_days(period.num * 7),
            Unit::Months => self.add_months(period.num),
            Unit::Years => self.add_months(period.num * 12),
        }
    }

    /// Adds `n` calendar months with end-of-month clamping.
    fn add_months(self, n: i32) -> (r: Self)
        requires
            fits_i32(add_months_serial(self@, n as int)),
        ensures
            r@ == add_months_serial(self@, n as int),
    {
        let (y, m, d) = self.ymd();
        proof {
            lemma_year_range(y as int, m as int, d as int);
        }
        let total: i64 = (y as i64 * 12 + m as i64 - 1) + n as i64;
        let q: i64 = if total >= 0 { total / 12 } else { (total - 11) / 12 };
        proof {
            vstd::arithmetic::div_mod::lemma_fundamental_div_mod(total as int, 12);
            assert(q == total / 12);
        }
        let new_year = q as i32;
        let new_month = (total - q * 12 + 1) as u32;
        let dim = days_in_month(new_year, new_month);
        let new_day = if d <= dim { d } else { dim };
        let s = days_from_civil(new_year, new_month, new_day);
        Date { serial: s }
    }

    /// ISO 8601 `YYYY-MM-DD` (the year zero-padded to four characters, sign
    /// included).
    pub fn to_string(&self) -> (r: String)
        ensures
            r@ == iso_text(civil_of(self@)),
    {
        let (y, m, d) = self.ymd();
        let mut s = String::new();
        push_signed_padded(&mut s, y as i64, 4);
        s.append("-");
        push_padded(&mut s, m as u64, 2);
        s.append("-");
        push_padded(&mut s, d as u64, 2);
        proof {
            reveal_strlit("-");
            assert(s@ =~= iso_text(civil_of(self@)));
        }
        s
    }
}

impl Date {
    /// The date whose day number is `s` (meaningful when `s` fits in `i32`).
    pub closed spec fn with_day_number(s: int) -> Date {
        Date { serial: s as i32 }
    }
}

/// `with_day_number` builds the date with that day number.
pub broadcast proof fn lemma_with_day_number(s: int)
    requires
        fits_i32(s),
    ensures
        #[trigger] Date::with_day_number(s)@ == s,
{
}

/// Two dates are equal exactly when their day numbers are.
pub proof fn lemma_date_eq(a: Date, b: Date)
    ensures
        (a@ == b@) <==> a == b,
{
}

/// Date order is calendar order: one day number is below another exactly
/// when its `(year, month, day)` comes first.
pub proof fn lemma_date_order(s: int, t: int)
    ensures
        s < t <==> ymd_before(year_of(s), month_of(s), day_of(s), year_of(t), month_of(t), day_of(t)),
{
    lemma_civil_exists(s);
    lemma_civil_exists(t);
    let a = civil_of(s);
    let b = civil_of(t);
    if ymd_before(a.0, a.1, a.2, b.0, b.1, b.2) {
        lemma_epoch_day_strictly_increasing(a.0, a.1, a.2, b.0, b.1, b.2);
    } else if ymd_before(b.0, b.1, b.2, a.0, a.1, a.2) {
        lemma_epoch_day_strictly_increasing(b.0, b.1, b.2, a.0, a.1, a.2);
    }
}

/// Weekdays repeat every seven days, each day is followed by the next
/// weekday (Sunday by Monday), the weekend is Saturday and Sunday,
/// 1970-01-01 was a Thursday, and weekdays are numbered 1 (Monday) to 7.
pub proof fn lemma_weekday_cycle(s: int)
    ensures
        weekday_of(s + 7) == weekday_of(s),
        weekday_number(weekday_of(s + 1)) == weekday_number(weekday_of(s)) % 7 + 1,
        weekend(s) <==> (weekday_of(s) == Weekday::Saturday || weekday_of(s) == Weekday::Sunday),
        weekday_of(epoch_day(1970, 1, 1)) == Weekday::Thursday,
        weekday_number(weekday_of(s)) == 1 <==> weekday_of(s) == Weekday::Monday,
        1 <= weekday_number(weekday_of(s)) <= 7,
{
    vstd::arithmetic::div_mod::lemma_fundamental_div_mod(s + 3, 7);
    vstd::arithmetic::div_mod::lemma_fundamental_div_mod(s + 4, 7);
    vstd::arithmetic::div_mod::lemma_fundamental_div_mod(s + 10, 7);
}

/// The month end of a day lies in the same year and month, is a month end,
/// and is not before the day; a day is a month end exactly when it is its
/// own month end.
pub proof fn lemma_end_of_month(s: int)
    ensures
        year_of(end_of_month_serial(s)) == year_of(s),
        month_of(end_of_month_serial(s)) == month_of(s),
        is_end_of_month_serial(end_of_month_serial(s)),
        s <= end_of_month_serial(s),
        is_end_of_month_serial(s) <==> end_of_month_serial(s) == s,
{
    lemma_civil_exists(s);
    let c = civil_of(s);
    let l = month_length(c.0, c.1);
    assert(valid_ymd(c.0, c.1, l));
    lemma_civil_of_epoch_day(c.0, c.1, l);
    if c.2 < l {
        assert(ymd_before(c.0, c.1, c.2, c.0, c.1, l));
        lemma_epoch_day_strictly_increasing(c.0, c.1, c.2, c.0, c.1, l);
    }
}

/// Day and week periods are undone by subtracting them: moving forward by
/// the period and back by it returns to the start. (Month and year periods
/// are not: Jan 31 + 1 month − 1 month is Jan 28.)
pub proof fn lemma_day_period_roundtrip(s: int, p: Period)
    requires
        p.unit == Unit::Days || p.unit == Unit::Weeks,
        p.num != i32::MIN,
    ensures
        add_period_serial(add_period_serial(s, p), negated(p)) == s,
{
}

/// A day is the last of its month exactly when the next day is in another
/// month.
pub proof fn lemma_end_of_month_next_day(s: int)
    ensures
        is_end_of_month_serial(s) <==> month_of(s + 1) != month_of(s),
{
    lemma_civil_exists(s);
    let (y, m, d) = civil_of(s);
    crate::civil::lemma_days_before_month_table(y, m);
    if d < month_length(y, m) {
        assert(valid_ymd(y, m, d + 1));
        lemma_civil_of_epoch_day(y, m, d + 1);
    } else if m < 12 {
        crate::civil::lemma_days_before_month_table(y, m + 1);
        assert(valid_ymd(y, m + 1, 1));
        assert(epoch_day(y, m + 1, 1) == s + 1);
        lemma_civil_of_epoch_day(y, m + 1, 1);
    } else {
        crate::civil::lemma_year_length(y);
        assert(valid_ymd(y + 1, 1, 1));
        assert(epoch_day(y + 1, 1, 1) == s + 1);
        lemma_civil_of_epoch_day(y + 1, 1, 1);
    }
}

/// `add_days` and `days_until` undo each other: moving `n` days from `a` and
/// counting the days back gives `n`, and moving from `a` by the days until
/// `b` lands on `b`.
pub proof fn lemma_add_days_days_until(a: Date, b: Date, n: int)
    requires
        fits_i32(a@ + n),
    ensures
        Date::with_day_number(a@ + n)@ - a@ == n,
        Date::with_day_number(a@ + (b@ - a@)) == b,
{
    lemma_date_range(b);
    lemma_date_eq(Date::with_day_number(a@ + (b@ - a@)), b);
}

impl core::ops::Add<Period> for Date {
    type Output = Date;

    /// Same as [`Date::add_period`].
    fn add(self, period: Period) -> (r: Date) {
        self.add_period(period)
    }
}

impl vstd::std_specs::ops::AddSpecImpl<Period> for Date {
    open spec fn obeys_add_spec() -> bool {
        true
    }

    open spec fn add_req(self, rhs: Period) -> bool {
        add_period_fits(self@, rhs)
    }

    open spec fn add_spec(self, rhs: Period) -> Date {
        Date::with_day_number(add_period_serial(self@, rhs))
    }
}

impl core::ops::Sub<Period> for Date {
    type Output = Date;

    /// The date moved back by `period`: `add_period` of the negated period.
    fn sub(self, period: Period) -> (r: Date) {
        self.add_period(Period { num: -period.num, unit: period.unit })
    }
}

impl vstd::std_specs::ops::SubSpecImpl<Period> for Date {
    open spec fn obeys_sub_spec() -> bool {
        true
    }

    open spec fn sub_req(self, rhs: Period) -> bool {
        rhs.num != i32::MIN && add_period_fits(self@, negated(rhs))
    }

    open spec fn sub_spec(self, rhs: Period) -> Date {
        Date::with_day_number(add_period_serial(self@, negated(rhs)))
    }
}

impl core::ops::Sub<Date> for Date {
    type Output = i32;

    /// Difference in days (`self - rhs`).
    fn sub(self, rhs: Date) -> (r: i32) {
        self.serial - rhs.serial
    }
}

impl vstd::std_specs::ops::SubSpecImpl<Date> for Date {
    open spec fn obeys_sub_spec() -> bool {
        true
    }

    open spec fn sub_req(self, rhs: Date) -> bool {
        fits_i32(self@ - rhs@)
    }

    open spec fn sub_spec(self, rhs: Date) -> i32 {
        (self@ - rhs@) as i32
    }
}

/// `YYYY-MM-DD` text of a civil date.
pub open spec fn iso_text(c: (int, int, int)) -> Seq<char> {
    signed_padded(c.0, 4) + seq!['-'] + padded_decimal(c.1 as nat, 2) + seq!['-']
        + padded_decimal(c.2 as nat, 2)
}

/// True if `year` is a Gregorian leap year.
pub fn is_leap(year: i32) -> (r: bool)
    ensures
        r == leap_year(year as int),
{
    let by4 = year % 4 == 0;
    assert(by4 == (year as int % 4 == 0));
    let by100 = year % 100 == 0;
    assert(by100 == (year as int % 100 == 0));
    let by400 = year % 400 == 0;
    assert(by400 == (year as int % 400 == 0));
    (by4 && !by100) || by400
}

/// Number of days in `(year, month)`; 0 for a month outside 1–12.
pub fn days_in_month(year: i32, month: u32) -> (r: u32)
    ensures
        r == month_length(year as int, month as int),
{
    match month {
        1 | 3 | 5 | 7 | 8 | 10 | 12 => 31,
        4 | 6 | 9 | 11 => 30,
        2 => if is_leap(year) { 29 } else { 28 },
        _ => 0,
    }
}

/// Days since 1970-01-01 for a valid civil date whose day number fits in
/// `i32`.
pub fn days_from_civil(year: i32, month: u32, day: u32) -> (r: i32)
    requires
        valid_ymd(year as int, month as int, day as int),
        fits_i32(epoch_day(year as int, month as int, day as int)),
    ensures
        r == epoch_day(year as int, month as int, day as int),
{
    days_from_civil_wide(year, month, day) as i32
}

/// Days since 1970-01-01 for a valid civil date (Howard Hinnant's algorithm),
/// computed in `i64`.
fn days_from_civil_wide(year: i32, month: u32, day: u32) -> (r: i64)
    requires
        valid_ymd(year as int, month as int, day as int),
    ensures
        r == epoch_day(year as int, month as int, day as int),
{
    let y: i64 = year as i64 - (if month <= 2 { 1i64 } else { 0i64 });
    let era: i64 = (if y >= 0 { y } else { y - 399 }) / 400;
    let yoe: i64 = y - era * 400;
    let m: i64 = month as i64;
    let mp: i64 = if m > 2 { m - 3 } else { m + 9 };
    let doy: i64 = (153 * mp + 2) / 5 + day as i64 - 1;
    let doe: i64 = yoe * 365 + yoe / 4 - yoe / 100 + doy;
    proof {
        lemma_epoch_day_era(year as int, month as int, day as int, era as int, yoe as int);
    }
    era * 146097 + doe - 719468
}

/// Civil `(year, month, day)` from days since 1970-01-01 (the inverse of
/// `days_from_civil`, Howard Hinnant's algorithm).
pub fn civil_from_days(serial: i32) -> (r: (i32, u32, u32))
    ensures
        (r.0 as int, r.1 as int, r.2 as int) == civil_of(serial as int),
        valid_ymd(r.0 as int, r.1 as int, r.2 as int),
        epoch_day(r.0 as int, r.1 as int, r.2 as int) == serial,
{
    let z: i64 = serial as i64 + 719468;
    let era: i64 = (if z >= 0 { z } else { z - 146096 }) / 146097;
    let doe: i64 = z - era * 146097;
    proof {
        vstd::arithmetic::div_mod::lemma_fundamental_div_mod(z as int, 146097);
        lemma_year_of_era(doe as int);
    }
    let yoe: i64 = (doe - doe / 1460 + doe / 36524 - doe / 146096) / 365;
    let y: i64 = yoe + era * 400;
    let doy: i64 = doe - (365 * yoe + yoe / 4 - yoe / 100);
    proof {
        lemma_month_of_year(doy as int, leap_year(yoe + 1));
    }
    let mp: i64 = (5 * doy + 2) / 153;
    let d: i64 = doy - (153 * mp + 2) / 5 + 1;
    let m: i64 = if mp < 10 { mp + 3 } else { mp - 9 };
    let yy: i64 = y + (if m <= 2 { 1i64 } else { 0i64 });
    proof {
        lemma_civil_triple(serial as int, yy as int, m as int, d as int, era as int, yoe as int,
            doy as int, mp as int);
    }
    (yy as i32, m as u32, d as u32)
}

} // verus!
