//! The proleptic Gregorian calendar as mathematics: leap years, month lengths,
//! and the day number of a civil date counted from 1970-01-01.
//!
//! The executable conversions live in [`crate::date`]; this module holds the
//! model they are proved against, and the lemmas about it.

use vstd::prelude::*;
use vstd::arithmetic::div_mod::lemma_fundamental_div_mod_converse;
use vstd::arithmetic::div_mod::lemma_fundamental_div_mod;

verus! {

/// Gregorian leap year: divisible by 4, except centuries not divisible by 400.
pub open spec fn leap_year(y: int) -> bool {
    (y % 4 == 0 && y % 100 != 0) || y % 400 == 0
}

/// Number of days in month `m` of year `y`; 0 for a month outside 1–12.
pub open spec fn month_length(y: int, m: int) -> int {
    if m == 1 || m == 3 || m == 5 || m == 7 || m == 8 || m == 10 || m == 12 {
        31
    } else if m == 4 || m == 6 || m == 9 || m == 11 {
        30
    } else if m == 2 {
        if leap_year(y) { 29 } else { 28 }
    } else {
        0
    }
}

/// `(y, m, d)` names a real calendar day.
pub open spec fn valid_ymd(y: int, m: int, d: int) -> bool {
    1 <= m <= 12 && 1 <= d <= month_length(y, m)
}

/// Total length of the months of year `y` that precede month `m`.
pub open spec fn days_before_month(y: int, m: int) -> int
    decreases m,
{
    if m <= 1 {
        0
    } else {
        days_before_month(y, m - 1) + month_length(y, m - 1)
    }
}

/// Number of leap years in `[1, y)` for `y >= 1`; extended to all years by the
/// same floor-division formula, so that differences count the leap years in
/// between for any two years.
pub open spec fn leap_years_before(y: int) -> int {
    (y - 1) / 4 - (y - 1) / 100 + (y - 1) / 400
}

/// Days from 1970-01-01 to January 1 of year `y` (negative before 1970).
pub open spec fn days_before_year(y: int) -> int {
    365 * (y - 1970) + leap_years_before(y) - leap_years_before(1970)
}

/// Day number of `(y, m, d)`: days from 1970-01-01 (which is day 0).
pub open spec fn epoch_day(y: int, m: int, d: int) -> int {
    days_before_year(y) + days_before_month(y, m) + d - 1
}

/// The civil date of day number `s`: the one valid triple whose day number is
/// `s` (it exists and is unique: see `lemma_civil_exists` and
/// `lemma_epoch_day_injective`).
pub open spec fn civil_of(s: int) -> (int, int, int) {
    choose|t: (int, int, int)| valid_ymd(t.0, t.1, t.2) && epoch_day(t.0, t.1, t.2) == s
}

/// Year of day number `s`.
pub open spec fn year_of(s: int) -> int {
    civil_of(s).0
}

/// Month of day number `s`.
pub open spec fn month_of(s: int) -> int {
    civil_of(s).1
}

/// Day of month of day number `s`.
pub open spec fn day_of(s: int) -> int {
    civil_of(s).2
}

/// `(y1, m1, d1)` comes strictly before `(y2, m2, d2)` in calendar order.
pub open spec fn ymd_before(y1: int, m1: int, d1: int, y2: int, m2: int, d2: int) -> bool {
    y1 < y2 || (y1 == y2 && m1 < m2) || (y1 == y2 && m1 == m2 && d1 < d2)
}

// ---------------------------------------------------------------------------
// Arithmetic helpers
// ---------------------------------------------------------------------------

proof fn lemma_div_is(x: int, d: int, q: int)
    requires
        d > 0,
        q * d <= x < q * d + d,
    ensures
        x / d == q,
        x % d == x - q * d,
{
    lemma_fundamental_div_mod_converse(x, d, q, x - q * d);
}

/// Stepping a year across a multiple of `k` adds one to the floor quotient.
proof fn lemma_div_step(y: int, k: int)
    requires
        k > 0,
    ensures
        y / k - (y - 1) / k == (if y % k == 0 { 1int } else { 0int }),
{
    lemma_fundamental_div_mod(y, k);
    let q = y / k;
    assert((q - 1) * k == q * k - k) by (nonlinear_arith);
    assert(k * q == q * k) by (nonlinear_arith);
    assert(0 <= y % k < k);
    if y % k == 0 {
        lemma_div_is(y - 1, k, q - 1);
    } else {
        lemma_div_is(y - 1, k, q);
    }
}

/// The leap-year count grows by one exactly across leap years.
pub proof fn lemma_leap_years_step(y: int)
    ensures
        leap_years_before(y + 1) - leap_years_before(y) == (if leap_year(y) { 1int } else { 0int }),
{
    lemma_div_step(y, 4);
    lemma_div_step(y, 100);
    lemma_div_step(y, 400);
    lemma_fundamental_div_mod(y, 4);
    lemma_fundamental_div_mod(y, 100);
    lemma_fundamental_div_mod(y, 400);
    if y % 100 == 0 {
        lemma_div_is(y, 4, (y / 100) * 25);
    }
    if y % 400 == 0 {
        lemma_div_is(y, 100, (y / 400) * 4);
    }
}

/// A year holds 365 days, 366 in a leap year.
pub proof fn lemma_year_length(y: int)
    ensures
        days_before_year(y + 1) - days_before_year(y) == (if leap_year(y) { 366int } else { 365int }),
{
    lemma_leap_years_step(y);
}

/// The day numbers of January 1 increase with the year.
pub proof fn lemma_days_before_year_mono(a: int, b: int)
    requires
        a <= b,
    ensures
        days_before_year(b) - days_before_year(a) >= 365 * (b - a),
    decreases b - a,
{
    if a < b {
        lemma_days_before_year_mono(a, b - 1);
        lemma_year_length(b - 1);
    }
}

/// Closed form of `days_before_month`.
pub proof fn lemma_days_before_month_table(y: int, m: int)
    requires
        1 <= m <= 13,
    ensures
        days_before_month(y, m) == (if m <= 2 {
            if m == 1 { 0int } else { 31int }
        } else {
            (if leap_year(y) { 1int } else { 0int }) + (if m == 3 { 59int }
            else if m == 4 { 90int }
            else if m == 5 { 120int }
            else if m == 6 { 151int }
            else if m == 7 { 181int }
            else if m == 8 { 212int }
            else if m == 9 { 243int }
            else if m == 10 { 273int }
            else if m == 11 { 304int }
            else if m == 12 { 334int }
            else { 365int })
        }),
{
    reveal_with_fuel(days_before_month, 13);
}

/// The days of a year, month by month, fill exactly the year.
pub proof fn lemma_day_in_year(y: int, m: int, d: int)
    requires
        valid_ymd(y, m, d),
    ensures
        0 <= days_before_month(y, m) + d - 1,
        days_before_month(y, m) + d - 1 < days_before_year(y + 1) - days_before_year(y),
        days_before_month(y, m) + d - 1 < days_before_month(y, m + 1),
{
    lemma_days_before_month_table(y, m);
    lemma_days_before_month_table(y, m + 1);
    lemma_year_length(y);
}

/// Calendar order and day-number order agree.
pub proof fn lemma_epoch_day_strictly_increasing(y1: int, m1: int, d1: int, y2: int, m2: int, d2: int)
    requires
        valid_ymd(y1, m1, d1),
        valid_ymd(y2, m2, d2),
        ymd_before(y1, m1, d1, y2, m2, d2),
    ensures
        epoch_day(y1, m1, d1) < epoch_day(y2, m2, d2),
{
    lemma_day_in_year(y1, m1, d1);
    lemma_day_in_year(y2, m2, d2);
    if y1 < y2 {
        lemma_days_before_year_mono(y1 + 1, y2);
    } else if m1 < m2 {
        lemma_days_before_month_mono(y1, m1 + 1, m2);
    }
}

proof fn lemma_days_before_month_mono(y: int, a: int, b: int)
    requires
        1 <= a <= b <= 13,
    ensures
        days_before_month(y, a) <= days_before_month(y, b),
{
    lemma_days_before_month_table(y, a);
    lemma_days_before_month_table(y, b);
}

/// Two valid dates with the same day number are the same date.
pub proof fn lemma_epoch_day_injective(y1: int, m1: int, d1: int, y2: int, m2: int, d2: int)
    requires
        valid_ymd(y1, m1, d1),
        valid_ymd(y2, m2, d2),
        epoch_day(y1, m1, d1) == epoch_day(y2, m2, d2),
    ensures
        y1 == y2 && m1 == m2 && d1 == d2,
{
    if ymd_before(y1, m1, d1, y2, m2, d2) {
        lemma_epoch_day_strictly_increasing(y1, m1, d1, y2, m2, d2);
    } else if ymd_before(y2, m2, d2, y1, m1, d1) {
        lemma_epoch_day_strictly_increasing(y2, m2, d2, y1, m1, d1);
    }
}

/// Dates whose day number fits in an `i32` lie within six million years of
/// the epoch.
pub proof fn lemma_year_range(y: int, m: int, d: int)
    requires
        valid_ymd(y, m, d),
        -0x8000_0000 <= epoch_day(y, m, d) < 0x8000_0000,
    ensures
        -6_000_000 <= y <= 6_000_000,
{
    lemma_day_in_year(y, m, d);
    if y > 6_000_000 {
        lemma_days_before_year_mono(1970, y);
    }
    if y < -6_000_000 {
        lemma_days_before_year_mono(y, 1970);
    }
}

// ---------------------------------------------------------------------------
// Howard Hinnant's era decomposition
// ---------------------------------------------------------------------------

/// Days from an era start (March 1 of a year divisible by 400) to March 1 of
/// `yoe` years later, for `0 <= yoe <= 399`.
pub open spec fn era_offset(yoe: int) -> int {
    365 * yoe + yoe / 4 - yoe / 100
}

/// Days from a March 1 to the first of the month `mp` months later
/// (`mp` = 0 for March … 11 for February).
pub open spec fn march_month_offset(mp: int) -> int {
    (153 * mp + 2) / 5
}

/// `365y + ⌊y/4⌋ − ⌊y/100⌋ + ⌊y/400⌋`.
pub open spec fn gregorian_count(y: int) -> int {
    365 * y + y / 4 - y / 100 + y / 400
}

/// Splitting a year into 400-year eras.
pub proof fn lemma_gregorian_count_era(y: int, era: int, yoe: int)
    requires
        y == 400 * era + yoe,
        0 <= yoe < 400,
    ensures
        gregorian_count(y) == 146097 * era + era_offset(yoe),
        y / 400 == era,
{
    lemma_div_is(y, 400, era);
    lemma_fundamental_div_mod(yoe, 4);
    lemma_fundamental_div_mod(yoe, 100);
    lemma_div_is(y, 4, 100 * era + yoe / 4);
    lemma_div_is(y, 100, 4 * era + yoe / 100);
}

/// `gregorian_count` versus the leap-year count.
pub proof fn lemma_gregorian_count_leaps(y: int)
    ensures
        gregorian_count(y) == 365 * y + leap_years_before(y) + (if leap_year(y) { 1int } else { 0int }),
{
    lemma_leap_years_step(y);
}

/// The day number of a civil date in terms of the era decomposition of its
/// March-based year.
pub proof fn lemma_epoch_day_era(y: int, m: int, d: int, era: int, yoe: int)
    requires
        1 <= m <= 12,
        y - (if m <= 2 { 1int } else { 0int }) == 400 * era + yoe,
        0 <= yoe < 400,
    ensures
        epoch_day(y, m, d) == 146097 * era + era_offset(yoe)
            + march_month_offset(if m > 2 { m - 3 } else { m + 9 }) + d - 1 - 719468,
{
    let ym = y - (if m <= 2 { 1int } else { 0int });
    lemma_gregorian_count_era(ym, era, yoe);
    lemma_gregorian_count_leaps(y);
    lemma_gregorian_count_leaps(ym);
    lemma_leap_years_step(ym);
    lemma_days_before_month_table(y, m);
    lemma_leap_years_1970();
    let mp = if m > 2 { m - 3 } else { m + 9 };
    assert(march_month_offset(mp) == (if mp == 0 { 0int } else if mp == 1 { 31int }
        else if mp == 2 { 61int } else if mp == 3 { 92int } else if mp == 4 { 122int }
        else if mp == 5 { 153int } else if mp == 6 { 184int } else if mp == 7 { 214int }
        else if mp == 8 { 245int } else if mp == 9 { 275int } else if mp == 10 { 306int }
        else { 337int })) by {
        lemma_march_month_offset_table(mp);
    }
}

proof fn lemma_leap_years_1970()
    ensures
        leap_years_before(1970) == 477,
{
    lemma_div_is(1969, 4, 492);
    lemma_div_is(1969, 100, 19);
    lemma_div_is(1969, 400, 4);
}

proof fn lemma_march_month_offset_table(mp: int)
    requires
        0 <= mp <= 12,
    ensures
        march_month_offset(mp) == (if mp == 0 { 0int } else if mp == 1 { 31int }
        else if mp == 2 { 61int } else if mp == 3 { 92int } else if mp == 4 { 122int }
        else if mp == 5 { 153int } else if mp == 6 { 184int } else if mp == 7 { 214int }
        else if mp == 8 { 245int } else if mp == 9 { 275int } else if mp == 10 { 306int }
        else if mp == 11 { 337int } else { 367int }),
{
    if mp == 0 { lemma_div_is(153 * mp + 2, 5, 0); }
    else if mp == 1 { lemma_div_is(153 * mp + 2, 5, 31); }
    else if mp == 2 { lemma_div_is(153 * mp + 2, 5, 61); }
    else if mp == 3 { lemma_div_is(153 * mp + 2, 5, 92); }
    else if mp == 4 { lemma_div_is(153 * mp + 2, 5, 122); }
    else if mp == 5 { lemma_div_is(153 * mp + 2, 5, 153); }
    else if mp == 6 { lemma_div_is(153 * mp + 2, 5, 184); }
    else if mp == 7 { lemma_div_is(153 * mp + 2, 5, 214); }
    else if mp == 8 { lemma_div_is(153 * mp + 2, 5, 245); }
    else if mp == 9 { lemma_div_is(153 * mp + 2, 5, 275); }
    else if mp == 10 { lemma_div_is(153 * mp + 2, 5, 306); }
    else if mp == 11 { lemma_div_is(153 * mp + 2, 5, 337); }
    else { lemma_div_is(153 * mp + 2, 5, 367); }
}

/// Locating the year of era and the day of that year from a day of era.
pub proof fn lemma_year_of_era(doe: int)
    requires
        0 <= doe <= 146096,
    ensures
        ({
            let yoe = (doe - doe / 1460 + doe / 36524 - doe / 146096) / 365;
            let doy = doe - era_offset(yoe);
            &&& 0 <= yoe <= 399
            &&& 0 <= doy <= 365
            &&& doy == 365 ==> leap_year(yoe + 1)
        }),
{
    let c = doe / 146096;
    let b = doe / 36524;
    lemma_fundamental_div_mod(doe, 36524);
    if doe == 146096 {
        lemma_div_is(doe, 146096, 1);
    } else {
        lemma_div_is(doe, 146096, 0);
    }
    let bp = b - c;
    assert(0 <= bp <= 3);
    let q = doe - 36524 * bp;
    assert(0 <= q <= 36524);
    let k = q / 1461;
    lemma_fundamental_div_mod(q, 1461);
    let t = q - 1461 * k;
    assert(0 <= k <= 24);
    assert(q == 36524 ==> k == 24 && t == 1460);
    let e: int = if 24 * bp + k + t >= 1460 { 1 } else { 0 };
    lemma_div_is(doe, 1460, 25 * bp + k + e);
    let a = doe - doe / 1460 + doe / 36524 - doe / 146096;
    assert(a == 365 * (100 * bp + 4 * k) + (t - e));
    assert(0 <= t - e <= 1459);
    let j = (t - e) / 365;
    lemma_fundamental_div_mod(t - e, 365);
    assert(0 <= j <= 3);
    lemma_div_is(a, 365, 100 * bp + 4 * k + j);
    let yoe = 100 * bp + 4 * k + j;
    lemma_div_is(yoe, 4, 25 * bp + k);
    lemma_div_is(yoe, 100, bp);
    assert(era_offset(yoe) == 36524 * bp + 1461 * k + 365 * j);
    let doy = doe - era_offset(yoe);
    assert(doy == t - 365 * j);
    if doy == 365 {
        assert(j == 3 && t == 1460);
        if k == 24 {
            assert(doe == 146096);
            assert(yoe + 1 == 400);
        } else {
            lemma_div_is(yoe + 1, 4, 25 * bp + k + 1);
            lemma_div_is(yoe + 1, 100, bp);
        }
    }
}

/// Locating the month and day from a day of a March-based year.
pub proof fn lemma_month_of_year(doy: int, leap: bool)
    requires
        0 <= doy <= 365,
        doy == 365 ==> leap,
    ensures
        ({
            let mp = (5 * doy + 2) / 153;
            let d = doy - march_month_offset(mp) + 1;
            &&& 0 <= mp <= 11
            &&& march_month_offset(mp) <= doy < march_month_offset(mp + 1)
            &&& 1 <= d
            &&& d <= (if mp == 11 { if leap { 29int } else { 28int } }
                else { march_month_offset(mp + 1) - march_month_offset(mp) })
        }),
{
    let mp = (5 * doy + 2) / 153;
    lemma_fundamental_div_mod(5 * doy + 2, 153);
    assert(0 <= mp <= 11);
    lemma_march_month_offset_table(mp);
    lemma_march_month_offset_table(mp + 1);
    lemma_fundamental_div_mod(153 * mp + 2, 5);
    lemma_fundamental_div_mod(153 * (mp + 1) + 2, 5);
}

/// Every day number has a civil date.
pub proof fn lemma_civil_exists(s: int)
    ensures
        valid_ymd(civil_of(s).0, civil_of(s).1, civil_of(s).2),
        epoch_day(civil_of(s).0, civil_of(s).1, civil_of(s).2) == s,
{
    let z = s + 719468;
    let era = z / 146097;
    lemma_fundamental_div_mod(z, 146097);
    let doe = z - era * 146097;
    lemma_year_of_era(doe);
    let yoe = (doe - doe / 1460 + doe / 36524 - doe / 146096) / 365;
    let doy = doe - era_offset(yoe);
    lemma_month_of_year(doy, leap_year(yoe + 1));
    let mp = (5 * doy + 2) / 153;
    let d = doy - march_month_offset(mp) + 1;
    let m = if mp < 10 { mp + 3 } else { mp - 9 };
    let y = yoe + era * 400 + (if m <= 2 { 1int } else { 0int });
    lemma_civil_triple(s, y, m, d, era, yoe, doy, mp);
}

/// The triple computed by Hinnant's decomposition is the civil date of `s`.
pub proof fn lemma_civil_triple(s: int, y: int, m: int, d: int, era: int, yoe: int, doy: int, mp: int)
    requires
        era == (s + 719468) / 146097,
        yoe == ({
            let doe = s + 719468 - era * 146097;
            (doe - doe / 1460 + doe / 36524 - doe / 146096) / 365
        }),
        doy == s + 719468 - era * 146097 - era_offset(yoe),
        mp == (5 * doy + 2) / 153,
        d == doy - march_month_offset(mp) + 1,
        m == (if mp < 10 { mp + 3 } else { mp - 9 }),
        y == yoe + era * 400 + (if m <= 2 { 1int } else { 0int }),
    ensures
        valid_ymd(y, m, d),
        epoch_day(y, m, d) == s,
        civil_of(s) == (y, m, d),
{
    let z = s + 719468;
    lemma_fundamental_div_mod(z, 146097);
    let doe = z - era * 146097;
    lemma_year_of_era(doe);
    lemma_month_of_year(doy, leap_year(yoe + 1));
    lemma_march_month_offset_table(mp);
    lemma_march_month_offset_table(mp + 1);
    if m <= 2 {
        // leap_year(yoe + 1) and leap_year(y) agree: y = yoe + 1 + 400 * era
        lemma_leap_shift(yoe + 1, era);
    }
    lemma_epoch_day_era(y, m, d, era, yoe);
    assert(valid_ymd(y, m, d));
    let w = (y, m, d);
    assert(valid_ymd(w.0, w.1, w.2) && epoch_day(w.0, w.1, w.2) == s);
    let t = civil_of(s);
    assert(valid_ymd(t.0, t.1, t.2) && epoch_day(t.0, t.1, t.2) == s);
    lemma_epoch_day_injective(t.0, t.1, t.2, y, m, d);
}

proof fn lemma_leap_shift(y: int, era: int)
    ensures
        leap_year(y + 400 * era) == leap_year(y),
{
    lemma_fundamental_div_mod(y, 400);
    lemma_div_is(y + 400 * era, 400, y / 400 + era);
    lemma_fundamental_div_mod(y, 4);
    lemma_div_is(y + 400 * era, 4, y / 4 + 100 * era);
    lemma_fundamental_div_mod(y, 100);
    lemma_div_is(y + 400 * era, 100, y / 100 + 4 * era);
}

/// `civil_of` is the inverse of `epoch_day` on valid dates.
pub proof fn lemma_civil_of_epoch_day(y: int, m: int, d: int)
    requires
        valid_ymd(y, m, d),
    ensures
        civil_of(epoch_day(y, m, d)) == (y, m, d),
{
    let s = epoch_day(y, m, d);
    lemma_civil_exists(s);
    let t = civil_of(s);
    lemma_epoch_day_injective(t.0, t.1, t.2, y, m, d);
}

} // verus!
