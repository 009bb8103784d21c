//! Schedule generation — coupon/pillar date sequences.
//!
//! A [`Schedule`] is the ordered set of dates that partition a deal's life
//! into accrual periods. Dates are generated from an anchor (`termination`
//! for backward rules, `effective` for forward) as `anchor ± i·tenor`, never
//! iteratively, so they do not drift when month arithmetic clamps an
//! end-of-month day. The raw grid is then adjusted onto business days and
//! consecutive duplicates are removed.

use vstd::prelude::*;
use crate::calendar::{
    adjusted, can_adjust, dense_business_days, lemma_adjusted_monotone, BusinessDayConvention, Calendar,
    WeekendsOnly,
};
use crate::civil::{civil_of, epoch_day, month_of, valid_ymd, year_of};
use crate::text::{push_signed, signed_decimal};
use crate::date::{
    iso_text, add_period_fits, end_of_month_serial, fits_i32, is_end_of_month_serial, lemma_add_months_civil,
    lemma_end_of_month,
    lemma_add_months_increasing, lemma_date_order, lemma_date_range, shift_serial, weekday_number, weekday_of, Date,
    Period, Unit, Weekday,
};

verus! {

broadcast use lemma_date_range;

/// How the regular date grid is generated and where a stub may fall.
#[derive(Debug, Clone, Copy, PartialEq, Eq, Hash, Structural)]
#[non_exhaustive]
pub enum DateGeneration {
    /// Regular dates measured backward from the termination date.
    Backward,
    /// Regular dates measured forward from the effective date.
    Forward,
    /// No intermediate dates: just effective and termination.
    Zero,
    /// Like `Backward` but each date is snapped to the third Wednesday of its
    /// month (IMM dates).
    ThirdWednesday,
}

/// Placement and length of the irregular period when the tenor does not
/// divide the interval evenly.
#[derive(Debug, Clone, Copy, PartialEq, Eq, Hash, Structural)]
#[non_exhaustive]
pub enum StubConvention {
    /// Short irregular first period (backward generation).
    ShortFront,
    /// Long irregular first period (backward generation).
    LongFront,
    /// Short irregular final period (forward generation).
    ShortBack,
    /// Long irregular final period (forward generation).
    LongBack,
}

/// Errors from schedule construction.
#[derive(Debug, Clone, PartialEq, Eq)]
#[non_exhaustive]
pub enum ScheduleError {
    /// `termination` is not strictly after `effective`.
    EmptyRange { effective: Date, termination: Date },
    /// The tenor's magnitude is not positive.
    NonPositiveTenor(i32),
    /// The stub convention's direction does not match the generation rule.
    StubDirectionMismatch { rule: DateGeneration, stub: StubConvention },
    /// Business-day adjustment leaves fewer than two dates, or dates out of
    /// ascending order (e.g. a Saturday rolled forward past a Sunday rolled
    /// back). `dates` are the adjusted dates, adjacent duplicates removed.
    AdjustedDatesNotAscending { dates: Vec<Date> },
}

/// Variant name of a generation rule.
pub open spec fn rule_name(r: DateGeneration) -> Seq<char> {
    match r {
        DateGeneration::Backward => "Backward"@,
        DateGeneration::Forward => "Forward"@,
        DateGeneration::Zero => "Zero"@,
        DateGeneration::ThirdWednesday => "ThirdWednesday"@,
    }
}

/// Variant name of a stub convention.
pub open spec fn stub_name(s: StubConvention) -> Seq<char> {
    match s {
        StubConvention::ShortFront => "ShortFront"@,
        StubConvention::LongFront => "LongFront"@,
        StubConvention::ShortBack => "ShortBack"@,
        StubConvention::LongBack => "LongBack"@,
    }
}

fn rule_str(r: DateGeneration) -> (s: &'static str)
    ensures
        s@ == rule_name(r),
{
    match r {
        DateGeneration::Backward => "Backward",
        DateGeneration::Forward => "Forward",
        DateGeneration::Zero => "Zero",
        DateGeneration::ThirdWednesday => "ThirdWednesday",
    }
}

fn stub_str(s: StubConvention) -> (r: &'static str)
    ensures
        r@ == stub_name(s),
{
    match s {
        StubConvention::ShortFront => "ShortFront",
        StubConvention::LongFront => "LongFront",
        StubConvention::ShortBack => "ShortBack",
        StubConvention::LongBack => "LongBack",
    }
}

impl ScheduleError {
    /// Human-readable message.
    pub fn to_string(&self) -> (r: String)
        ensures
            match self {
                ScheduleError::EmptyRange { effective, termination } => r@ == "termination "@
                    + iso_text(civil_of(termination@)) + " must be after effective "@
                    + iso_text(civil_of(effective@)),
                ScheduleError::NonPositiveTenor(n) => r@ == "tenor must be positive, got "@
                    + signed_decimal(*n as int),
                ScheduleError::StubDirectionMismatch { rule, stub } => r@ == "stub "@
                    + stub_name(*stub) + " is incompatible with rule "@ + rule_name(*rule),
                ScheduleError::AdjustedDatesNotAscending { .. } => r@
                    == "adjusted dates are not at least two strictly ascending dates"@,
            },
    {
        match self {
            ScheduleError::EmptyRange { effective, termination } => {
                let mut s = "termination ".to_owned();
                s.append(termination.to_string().as_str());
                s.append(" must be after effective ");
                s.append(effective.to_string().as_str());
                s
            },
            ScheduleError::NonPositiveTenor(n) => {
                let mut s = "tenor must be positive, got ".to_owned();
                push_signed(&mut s, *n as i64);
                s
            },
            ScheduleError::StubDirectionMismatch { rule, stub } => {
                let mut s = "stub ".to_owned();
                s.append(stub_str(*stub));
                s.append(" is incompatible with rule ");
                s.append(rule_str(*rule));
                s
            },
            ScheduleError::AdjustedDatesNotAscending { .. } => {
                "adjusted dates are not at least two strictly ascending dates".to_owned()
            },
        }
    }
}

// ---------------------------------------------------------------------------
// Third Wednesday
// ---------------------------------------------------------------------------

/// Day number of the third Wednesday of `(y, m)`: the 15th, moved forward
/// to the first Wednesday on or after it.
pub open spec fn third_wednesday_serial(y: int, m: int) -> int {
    let fifteenth = epoch_day(y, m, 15);
    fifteenth + (10 - weekday_number(weekday_of(fifteenth))) % 7
}

/// The third Wednesday of `(year, month)` — the standard IMM/futures roll
/// date.
pub fn third_wednesday(year: i32, month: u32) -> (r: Date)
    requires
        1 <= month <= 12,
        fits_i32(epoch_day(year as int, month as int, 1)),
        fits_i32(epoch_day(year as int, month as int, 1) + 20),
    ensures
        r@ == third_wednesday_serial(year as int, month as int),
{
    let first = Date::new(year, month, 1).expect("first of month is valid");
    // Days from the 1st to the first Wednesday (ISO Wednesday = 3), then +2 weeks.
    let offset = (3 + 7 - first.weekday().number()) % 7;
    proof {
        assert(valid_ymd(year as int, month as int, 15));
        assert(epoch_day(year as int, month as int, 15) == first@ + 14);
        assert((first@ + 14 + 3) % 7 == (first@ + 3) % 7) by {
            vstd::arithmetic::div_mod::lemma_fundamental_div_mod(first@ + 3, 7);
            vstd::arithmetic::div_mod::lemma_fundamental_div_mod(first@ + 17, 7);
        }
    }
    first.add_days(offset as i32 + 14)
}

/// The third Wednesday of a month is a Wednesday between the 15th and the
/// 21st of that month.
pub proof fn lemma_third_wednesday(y: int, m: int)
    requires
        1 <= m <= 12,
    ensures
        weekday_of(third_wednesday_serial(y, m)) == Weekday::Wednesday,
        ({
            let c = civil_of(third_wednesday_serial(y, m));
            c.0 == y && c.1 == m && 15 <= c.2 <= 21
        }),
{
    let fifteenth = epoch_day(y, m, 15);
    let k = (10 - weekday_number(weekday_of(fifteenth))) % 7;
    assert(0 <= k <= 6);
    let d = 15 + k;
    assert(valid_ymd(y, m, d));
    assert(epoch_day(y, m, d) == fifteenth + k);
    crate::civil::lemma_civil_of_epoch_day(y, m, d);
    vstd::arithmetic::div_mod::lemma_fundamental_div_mod(fifteenth + 3, 7);
    vstd::arithmetic::div_mod::lemma_fundamental_div_mod(fifteenth + k + 3, 7);
}

// ---------------------------------------------------------------------------
// The specification of generation
// ---------------------------------------------------------------------------

/// The settings that shape the raw date grid.
pub struct SchedulePlan {
    pub effective: int,
    pub termination: int,
    pub tenor: Period,
    pub end_of_month: bool,
}

/// Month-end rolling applies to dates generated from `anchor`.
pub open spec fn rolls_to_month_end(p: SchedulePlan, anchor: int) -> bool {
    p.end_of_month && (p.tenor.unit == Unit::Months || p.tenor.unit == Unit::Years)
        && is_end_of_month_serial(anchor)
}

/// `anchor` shifted by `mult` tenors, rolled to the month end when that
/// applies.
pub open spec fn seed(p: SchedulePlan, anchor: int, mult: int) -> int {
    let shifted = shift_serial(anchor, p.tenor.num * mult, p.tenor.unit);
    if rolls_to_month_end(p, anchor) { end_of_month_serial(shifted) } else { shifted }
}

/// Computing `seed(p, anchor, mult)` stays within `i32`.
pub open spec fn seed_fits(p: SchedulePlan, anchor: int, mult: int) -> bool {
    let n = p.tenor.num * mult;
    &&& fits_i32(n)
    &&& add_period_fits(anchor, Period { num: n as i32, unit: p.tenor.unit })
    &&& (rolls_to_month_end(p, anchor) ==> fits_i32(
        end_of_month_serial(shift_serial(anchor, n, p.tenor.unit))))
}

/// `k` tenors back from termination is the first seed at or before the
/// effective date.
pub open spec fn backward_stop(p: SchedulePlan, k: nat) -> bool {
    &&& seed(p, p.termination, -k) <= p.effective
    &&& forall|j: nat| j < k ==> #[trigger] seed(p, p.termination, -j) > p.effective
}

/// Number of regular dates strictly after the effective date in the
/// backward grid.
pub open spec fn backward_len(p: SchedulePlan) -> nat {
    choose|k: nat| backward_stop(p, k)
}

/// `k` tenors forward from effective is the first seed at or after the
/// termination date.
pub open spec fn forward_stop(p: SchedulePlan, k: nat) -> bool {
    &&& seed(p, p.effective, k as int) >= p.termination
    &&& forall|j: nat| j < k ==> #[trigger] seed(p, p.effective, j as int) < p.termination
}

/// Number of regular dates strictly before the termination date in the
/// forward grid.
pub open spec fn forward_len(p: SchedulePlan) -> nat {
    choose|k: nat| forward_stop(p, k)
}

/// The regular dates `anchor + i·tenor·sign` for `i` in `0..k`, in
/// generation order.
pub open spec fn regular_dates(p: SchedulePlan, anchor: int, sign: int, k: nat) -> Seq<int> {
    Seq::new(k, |j: int| seed(p, anchor, sign * j))
}

/// `s` in reverse order.
pub open spec fn reversed(s: Seq<int>) -> Seq<int> {
    Seq::new(s.len(), |i: int| s[s.len() - 1 - i])
}

/// Backward grid in generation (descending) order: the regular dates
/// `termination − i·tenor` after the effective date, then the effective
/// date; with a long front stub the first regular period is merged into the
/// stub.
pub open spec fn backward_desc(p: SchedulePlan, stub: StubConvention) -> Seq<int> {
    let k = backward_len(p);
    let regular = regular_dates(p, p.termination, -1, k);
    if seed(p, p.termination, -k) != p.effective && stub == StubConvention::LongFront && k >= 2 {
        regular.drop_last().push(p.effective)
    } else {
        regular.push(p.effective)
    }
}

/// Backward grid in ascending order.
pub open spec fn backward_grid(p: SchedulePlan, stub: StubConvention) -> Seq<int> {
    reversed(backward_desc(p, stub))
}

/// Forward grid in ascending order: the regular dates
/// `effective + i·tenor` before termination, then the termination date; with
/// a long back stub the last regular date is merged into the stub.
pub open spec fn forward_grid(p: SchedulePlan, stub: StubConvention) -> Seq<int> {
    let k = forward_len(p);
    let regular = regular_dates(p, p.effective, 1, k);
    if seed(p, p.effective, k as int) != p.termination && stub == StubConvention::LongBack && k >= 2 {
        regular.drop_last().push(p.termination)
    } else {
        regular.push(p.termination)
    }
}

/// Each date replaced by the third Wednesday of its month.
pub open spec fn snap_to_third_wednesday(g: Seq<int>) -> Seq<int> {
    Seq::new(g.len(), |i: int| third_wednesday_serial(year_of(g[i]), month_of(g[i])))
}

/// The stub a rule uses: the given one, or the natural short stub.
pub open spec fn chosen_stub(forward: bool, stub: Option<StubConvention>) -> StubConvention {
    match stub {
        Some(s) => s,
        None => if forward { StubConvention::ShortBack } else { StubConvention::ShortFront },
    }
}

/// The stub's direction contradicts the rule's.
pub open spec fn stub_mismatch(forward: bool, stub: Option<StubConvention>) -> bool {
    match stub {
        Some(s) => if forward {
            s == StubConvention::ShortFront || s == StubConvention::LongFront
        } else {
            s == StubConvention::ShortBack || s == StubConvention::LongBack
        },
        None => false,
    }
}

/// The unadjusted grid of a rule.
pub open spec fn raw_grid(p: SchedulePlan, rule: DateGeneration, stub: Option<StubConvention>) -> Seq<int> {
    match rule {
        DateGeneration::Zero => seq![p.effective, p.termination],
        DateGeneration::Forward => forward_grid(p, chosen_stub(true, stub)),
        DateGeneration::Backward => backward_grid(p, chosen_stub(false, stub)),
        DateGeneration::ThirdWednesday => snap_to_third_wednesday(
            backward_grid(p, chosen_stub(false, stub)),
        ),
    }
}

/// The convention applied to position `i` of an `n`-date grid.
pub open spec fn convention_at(
    i: int,
    n: int,
    conv: BusinessDayConvention,
    tconv: BusinessDayConvention,
) -> BusinessDayConvention {
    if i == n - 1 { tconv } else { conv }
}

/// Every date of `g` adjusted, the last one under `tconv`.
pub open spec fn adjust_grid(
    biz: spec_fn(int) -> bool,
    g: Seq<int>,
    conv: BusinessDayConvention,
    tconv: BusinessDayConvention,
) -> Seq<int> {
    Seq::new(g.len(), |i: int| adjusted(biz, g[i], convention_at(i, g.len() as int, conv, tconv)))
}

/// Adjusting every date of `g` returns normally.
pub open spec fn can_adjust_grid(
    biz: spec_fn(int) -> bool,
    def: spec_fn(int) -> bool,
    g: Seq<int>,
    conv: BusinessDayConvention,
    tconv: BusinessDayConvention,
) -> bool {
    forall|i: int| 0 <= i < g.len() ==> #[trigger] can_adjust(biz, def, g[i],
        convention_at(i, g.len() as int, conv, tconv))
}

/// `s` with each run of equal adjacent values reduced to one.
pub open spec fn dedup(s: Seq<int>) -> Seq<int>
    decreases s.len(),
{
    if s.len() <= 1 {
        s
    } else {
        let r = dedup(s.drop_last());
        if r.last() == s.last() { r } else { r.push(s.last()) }
    }
}

/// Day numbers of a sequence of dates.
pub open spec fn serials(ds: Seq<Date>) -> Seq<int> {
    ds.map_values(|d: Date| d@)
}

/// At least two day numbers, strictly ascending: the dates of a schedule.
pub open spec fn schedule_shaped(s: Seq<int>) -> bool {
    s.len() >= 2 && strictly_ascending(s)
}

// ---------------------------------------------------------------------------
// Schedule
// ---------------------------------------------------------------------------

/// A generated sequence of dates partitioning `[effective, termination]`.
#[derive(Debug, PartialEq, Eq)]
pub struct Schedule {
    dates: Vec<Date>,
}

impl Clone for Schedule {
    /// A schedule with the same dates.
    fn clone(&self) -> (r: Self)
        ensures
            r@ == self@,
    {
        proof {
            use_type_invariant(self);
        }
        let dates = self.dates.clone();
        proof {
            assert(dates@ =~= self.dates@);
            assert(serials(dates@) =~= serials(self.dates@));
        }
        Schedule { dates }
    }
}

impl View for Schedule {
    type V = Seq<Date>;

    closed spec fn view(&self) -> Seq<Date> {
        self.dates@
    }
}

impl Schedule {
    /// A schedule holds at least two dates, strictly ascending.
    #[verifier::type_invariant]
    spec fn well_formed(self) -> bool {
        schedule_shaped(serials(self.dates@))
    }

    /// Starts a [`ScheduleBuilder`] for the interval `[effective,
    /// termination]` with the regular period `tenor`.
    pub fn builder(effective: Date, termination: Date, tenor: Period) -> (r: ScheduleBuilder<WeekendsOnly>)
        ensures
            r.plan() == (SchedulePlan {
                effective: effective@,
                termination: termination@,
                tenor,
                end_of_month: false,
            }),
            r.generation_rule() == DateGeneration::Backward,
            r.forced_stub() == None::<StubConvention>,
            r.regular_convention() == BusinessDayConvention::ModifiedFollowing,
            r.final_convention() == BusinessDayConvention::ModifiedFollowing,
            r.business_days() == (|t: int| WeekendsOnly.spec_business_day(t)),
            r.defined_days() == (|t: int| WeekendsOnly.spec_defined(t)),
    {
        ScheduleBuilder::new(effective, termination, tenor)
    }

    /// The generated dates in ascending order.
    pub fn dates(&self) -> (r: &[Date])
        ensures
            r@ == self@,
            schedule_shaped(serials(r@)),
    {
        proof {
            use_type_invariant(self);
        }
        self.dates.as_slice()
    }

    /// Number of dates (one more than the number of periods).
    pub fn len(&self) -> (r: usize)
        ensures
            r == self@.len(),
            r >= 2,
    {
        proof {
            use_type_invariant(self);
        }
        self.dates.len()
    }

    /// Always false: a valid schedule has at least two dates.
    pub fn is_empty(&self) -> (r: bool)
        ensures
            r == (self@.len() == 0),
            !r,
    {
        proof {
            use_type_invariant(self);
        }
        self.dates.len() == 0
    }

    /// The first (effective) date.
    pub fn effective_date(&self) -> (r: Date)
        ensures
            r == self@[0],
    {
        proof {
            use_type_invariant(self);
        }
        self.dates[0]
    }

    /// The last (termination) date.
    pub fn termination_date(&self) -> (r: Date)
        ensures
            r == self@.last(),
    {
        proof {
            use_type_invariant(self);
        }
        self.dates[self.dates.len() - 1]
    }

    /// Iterator over the dates.
    pub fn iter(&self) -> (r: std::slice::Iter<'_, Date>)
        ensures
            vstd::std_specs::slice::into_iter_elts(r) == self@,
    {
        let r = self.dates.as_slice().iter();
        proof {
            broadcast use vstd::std_specs::slice::axiom_spec_slice_iter;
            assert(self@.as_ref().unref() =~= self@);
        }
        r
    }
}

impl core::ops::Index<usize> for Schedule {
    type Output = Date;

    /// The `i`-th date.
    fn index(&self, i: usize) -> (r: &Date)
        ensures
            *r == self@[i as int],
    {
        &self.dates[i]
    }
}

impl vstd::std_specs::core::IndexSpecImpl<usize> for Schedule {
    open spec fn index_req(&self, index: &usize) -> bool {
        *index < self@.len()
    }
}

impl<'a> IntoIterator for &'a Schedule {
    type Item = &'a Date;
    type IntoIter = std::slice::Iter<'a, Date>;

    /// Iterator over the dates.
    fn into_iter(self) -> (r: std::slice::Iter<'a, Date>)
        ensures
            vstd::std_specs::slice::into_iter_elts(r) == self@,
    {
        self.iter()
    }
}

// ---------------------------------------------------------------------------
// Builder
// ---------------------------------------------------------------------------

/// Builder for a [`Schedule`]. Defaults: [`WeekendsOnly`] calendar,
/// `ModifiedFollowing` for both conventions, `Backward` generation, no
/// end-of-month rolling, and the natural short stub for the rule.
pub struct ScheduleBuilder<C: Calendar + ?Sized = WeekendsOnly> {
    effective: Date,
    termination: Date,
    tenor: Period,
    calendar: Box<C>,
    convention: BusinessDayConvention,
    termination_convention: BusinessDayConvention,
    end_of_month: bool,
    rule: DateGeneration,
    stub: Option<StubConvention>,
}

impl ScheduleBuilder<WeekendsOnly> {
    fn new(effective: Date, termination: Date, tenor: Period) -> (r: Self)
        ensures
            r.plan() == (SchedulePlan {
                effective: effective@,
                termination: termination@,
                tenor,
                end_of_month: false,
            }),
            r.generation_rule() == DateGeneration::Backward,
            r.forced_stub() == None::<StubConvention>,
            r.regular_convention() == BusinessDayConvention::ModifiedFollowing,
            r.final_convention() == BusinessDayConvention::ModifiedFollowing,
            r.business_days() == (|t: int| WeekendsOnly.spec_business_day(t)),
            r.defined_days() == (|t: int| WeekendsOnly.spec_defined(t)),
    {
        let r = ScheduleBuilder {
            effective,
            termination,
            tenor,
            calendar: Box::new(WeekendsOnly),
            convention: BusinessDayConvention::ModifiedFollowing,
            termination_convention: BusinessDayConvention::ModifiedFollowing,
            end_of_month: false,
            rule: DateGeneration::Backward,
            stub: None,
        };
        proof {
            assert(r.business_days() =~= (|t: int| WeekendsOnly.spec_business_day(t)));
            assert(r.defined_days() =~= (|t: int| WeekendsOnly.spec_defined(t)));
        }
        r
    }
}

impl<C: Calendar + ?Sized> ScheduleBuilder<C> {
    /// Interval, tenor and end-of-month setting.
    pub closed spec fn plan(&self) -> SchedulePlan {
        SchedulePlan {
            effective: self.effective@,
            termination: self.termination@,
            tenor: self.tenor,
            end_of_month: self.end_of_month,
        }
    }

    /// The date-generation rule.
    pub closed spec fn generation_rule(&self) -> DateGeneration {
        self.rule
    }

    /// The forced stub, if any.
    pub closed spec fn forced_stub(&self) -> Option<StubConvention> {
        self.stub
    }

    /// Convention for all dates but the last.
    pub closed spec fn regular_convention(&self) -> BusinessDayConvention {
        self.convention
    }

    /// Convention for the last date.
    pub closed spec fn final_convention(&self) -> BusinessDayConvention {
        self.termination_convention
    }

    /// Business days of the calendar.
    pub closed spec fn business_days(&self) -> spec_fn(int) -> bool {
        |t: int| self.calendar.spec_business_day(t)
    }

    /// Days on which the calendar's `is_business_day` returns normally.
    pub closed spec fn defined_days(&self) -> spec_fn(int) -> bool {
        |t: int| self.calendar.spec_defined(t)
    }

    /// The regular settings are the same as `other`'s.
    pub open spec fn same_settings<D: Calendar + ?Sized>(&self, other: &ScheduleBuilder<D>) -> bool {
        &&& self.plan() == other.plan()
        &&& self.generation_rule() == other.generation_rule()
        &&& self.forced_stub() == other.forced_stub()
        &&& self.regular_convention() == other.regular_convention()
        &&& self.final_convention() == other.final_convention()
    }

    /// Sets the holiday calendar used for adjustment.
    pub fn calendar<D: Calendar + ?Sized>(self, calendar: Box<D>) -> (r: ScheduleBuilder<D>)
        ensures
            r.same_settings(&self),
            r.business_days() == (|t: int| calendar.spec_business_day(t)),
            r.defined_days() == (|t: int| calendar.spec_defined(t)),
    {
        let b = ScheduleBuilder {
            effective: self.effective,
            termination: self.termination,
            tenor: self.tenor,
            calendar,
            convention: self.convention,
            termination_convention: self.termination_convention,
            end_of_month: self.end_of_month,
            rule: self.rule,
            stub: self.stub,
        };
        proof {
            assert(forall|t: int| b.calendar.spec_business_day(t) == calendar.spec_business_day(t));
            assert(b.business_days() =~= (|t: int| calendar.spec_business_day(t)));
            assert(b.defined_days() =~= (|t: int| calendar.spec_defined(t)));
        }
        b
    }

    /// Sets the business-day convention for all dates except termination.
    pub fn convention(self, convention: BusinessDayConvention) -> (r: Self)
        ensures
            r.plan() == self.plan(),
            r.generation_rule() == self.generation_rule(),
            r.forced_stub() == self.forced_stub(),
            r.regular_convention() == convention,
            r.final_convention() == self.final_convention(),
            r.business_days() == self.business_days(),
            r.defined_days() == self.defined_days(),
    {
        let mut b = self;
        b.convention = convention;
        b
    }

    /// Sets the business-day convention applied to the termination date.
    pub fn termination_convention(self, convention: BusinessDayConvention) -> (r: Self)
        ensures
            r.plan() == self.plan(),
            r.generation_rule() == self.generation_rule(),
            r.forced_stub() == self.forced_stub(),
            r.regular_convention() == self.regular_convention(),
            r.final_convention() == convention,
            r.business_days() == self.business_days(),
            r.defined_days() == self.defined_days(),
    {
        let mut b = self;
        b.termination_convention = convention;
        b
    }

    /// Enables end-of-month rolling: when the anchor is the last day of its
    /// month, every generated month/year date is rolled to its month end.
    pub fn end_of_month(self, eom: bool) -> (r: Self)
        ensures
            r.plan() == (SchedulePlan { end_of_month: eom, ..self.plan() }),
            r.generation_rule() == self.generation_rule(),
            r.forced_stub() == self.forced_stub(),
            r.regular_convention() == self.regular_convention(),
            r.final_convention() == self.final_convention(),
            r.business_days() == self.business_days(),
            r.defined_days() == self.defined_days(),
    {
        let mut b = self;
        b.end_of_month = eom;
        b
    }

    /// Sets the date-generation rule.
    pub fn rule(self, rule: DateGeneration) -> (r: Self)
        ensures
            r.plan() == self.plan(),
            r.generation_rule() == rule,
            r.forced_stub() == self.forced_stub(),
            r.regular_convention() == self.regular_convention(),
            r.final_convention() == self.final_convention(),
            r.business_days() == self.business_days(),
            r.defined_days() == self.defined_days(),
    {
        let mut b = self;
        b.rule = rule;
        b
    }

    /// Forces a stub convention (otherwise the rule's natural short stub).
    pub fn stub(self, stub: StubConvention) -> (r: Self)
        ensures
            r.plan() == self.plan(),
            r.generation_rule() == self.generation_rule(),
            r.forced_stub() == Some(stub),
            r.regular_convention() == self.regular_convention(),
            r.final_convention() == self.final_convention(),
            r.business_days() == self.business_days(),
            r.defined_days() == self.defined_days(),
    {
        let mut b = self;
        b.stub = Some(stub);
        b
    }
}

// ---------------------------------------------------------------------------
// Generation
// ---------------------------------------------------------------------------

/// Every seed the backward generation computes fits in `i32`.
pub open spec fn backward_fits(p: SchedulePlan) -> bool {
    &&& fits_i32(backward_len(p) as int)
    &&& forall|i: nat| i <= backward_len(p) ==> #[trigger] seed_fits(p, p.termination, -i)
}

/// Every seed the forward generation computes fits in `i32`.
pub open spec fn forward_fits(p: SchedulePlan) -> bool {
    &&& fits_i32(forward_len(p) as int)
    &&& forall|i: nat| i <= forward_len(p) ==> #[trigger] seed_fits(p, p.effective, i as int)
}

/// `third_wednesday` returns normally for the month of day `s`.
pub open spec fn third_wednesday_fits(s: int) -> bool {
    let first = epoch_day(year_of(s), month_of(s), 1);
    fits_i32(first) && fits_i32(first + 20)
}

/// Generating the raw grid of `rule` returns normally.
pub open spec fn grid_fits(p: SchedulePlan, rule: DateGeneration, stub: Option<StubConvention>) -> bool {
    match rule {
        DateGeneration::Zero => true,
        DateGeneration::Forward => forward_fits(p),
        DateGeneration::Backward => backward_fits(p),
        DateGeneration::ThirdWednesday => backward_fits(p) && forall|i: int|
            0 <= i < backward_grid(p, chosen_stub(false, stub)).len()
            ==> #[trigger] third_wednesday_fits(backward_grid(p, chosen_stub(false, stub))[i]),
    }
}

/// The dates a schedule holds: the raw grid adjusted, adjacent duplicates
/// removed.
pub open spec fn schedule_serials(
    p: SchedulePlan,
    rule: DateGeneration,
    stub: Option<StubConvention>,
    biz: spec_fn(int) -> bool,
    conv: BusinessDayConvention,
    tconv: BusinessDayConvention,
) -> Seq<int> {
    dedup(adjust_grid(biz, raw_grid(p, rule, stub), conv, tconv))
}

proof fn lemma_add_months_zero(s: int)
    ensures
        crate::date::add_months_serial(s, 0) == s,
{
    crate::civil::lemma_civil_exists(s);
    let c = civil_of(s);
    vstd::arithmetic::div_mod::lemma_fundamental_div_mod(12 * c.0 + c.1 - 1, 12);
    assert((12 * c.0 + c.1 - 1) / 12 == c.0 && (12 * c.0 + c.1 - 1) % 12 == c.1 - 1) by {
        vstd::arithmetic::div_mod::lemma_fundamental_div_mod_converse(12 * c.0 + c.1 - 1, 12, c.0, c.1 - 1);
    }
}

/// Zero tenors from the anchor is the anchor.
proof fn lemma_seed_zero(p: SchedulePlan, a: int)
    ensures
        seed(p, a, 0) == a,
{
    assert(p.tenor.num * 0 == 0) by (nonlinear_arith);
    lemma_add_months_zero(a);
    if rolls_to_month_end(p, a) {
        crate::civil::lemma_civil_exists(a);
    }
}

/// More tenors land strictly later.
proof fn lemma_seed_increasing(p: SchedulePlan, a: int, m1: int, m2: int)
    requires
        p.tenor.num > 0,
        m1 < m2,
    ensures
        seed(p, a, m1) < seed(p, a, m2),
{
    let n1 = p.tenor.num * m1;
    let n2 = p.tenor.num * m2;
    assert(n1 < n2) by (nonlinear_arith)
        requires
            p.tenor.num > 0,
            m1 < m2,
            n1 == p.tenor.num * m1,
            n2 == p.tenor.num * m2,
    ;
    lemma_add_months_increasing(a, n1, n2);
    lemma_add_months_increasing(a, 12 * n1, 12 * n2);
}

/// Each tenor moves a seed at least one day.
proof fn lemma_seed_distance(p: SchedulePlan, a: int, k: nat)
    requires
        p.tenor.num > 0,
    ensures
        seed(p, a, -k) <= a - k,
        seed(p, a, k as int) >= a + k,
    decreases k,
{
    if k == 0 {
        lemma_seed_zero(p, a);
    } else {
        lemma_seed_distance(p, a, (k - 1) as nat);
        lemma_seed_increasing(p, a, -k, -(k - 1));
        lemma_seed_increasing(p, a, k - 1, k as int);
    }
}

proof fn lemma_backward_least(p: SchedulePlan, k: nat)
    requires
        seed(p, p.termination, -k) <= p.effective,
    ensures
        exists|c: nat| c <= k && backward_stop(p, c),
    decreases k,
{
    if exists|j: nat| j < k && #[trigger] seed(p, p.termination, -j) <= p.effective {
        let j = choose|j: nat| j < k && #[trigger] seed(p, p.termination, -j) <= p.effective;
        lemma_backward_least(p, j);
    } else {
        assert(backward_stop(p, k));
    }
}

/// The backward generation stops after `backward_len` tenors, at least one.
pub proof fn lemma_backward_len(p: SchedulePlan)
    requires
        p.tenor.num > 0,
        p.termination > p.effective,
    ensures
        backward_stop(p, backward_len(p)),
        1 <= backward_len(p) <= p.termination - p.effective,
        forall|k: nat| #[trigger] backward_stop(p, k) ==> k == backward_len(p),
{
    let k0 = (p.termination - p.effective) as nat;
    lemma_seed_distance(p, p.termination, k0);
    lemma_backward_least(p, k0);
    let c = choose|c: nat| c <= k0 && backward_stop(p, c);
    assert(backward_stop(p, c));
    let k = backward_len(p);
    assert(backward_stop(p, k));
    lemma_seed_zero(p, p.termination);
    assert forall|k2: nat| #[trigger] backward_stop(p, k2) implies k2 == k by {
        if k2 < k {
            assert(seed(p, p.termination, -k2) > p.effective);
        } else if k < k2 {
            assert(seed(p, p.termination, -k) > p.effective);
        }
    }
    assert(c == k);
    if k == 0 {
        assert(seed(p, p.termination, -0) == p.termination);
    }
}

proof fn lemma_forward_least(p: SchedulePlan, k: nat)
    requires
        seed(p, p.effective, k as int) >= p.termination,
    ensures
        exists|c: nat| c <= k && forward_stop(p, c),
    decreases k,
{
    if exists|j: nat| j < k && #[trigger] seed(p, p.effective, j as int) >= p.termination {
        let j = choose|j: nat| j < k && #[trigger] seed(p, p.effective, j as int) >= p.termination;
        lemma_forward_least(p, j);
    } else {
        assert(forward_stop(p, k));
    }
}

/// The forward generation stops after `forward_len` tenors, at least one.
pub proof fn lemma_forward_len(p: SchedulePlan)
    requires
        p.tenor.num > 0,
        p.termination > p.effective,
    ensures
        forward_stop(p, forward_len(p)),
        1 <= forward_len(p) <= p.termination - p.effective,
        forall|k: nat| #[trigger] forward_stop(p, k) ==> k == forward_len(p),
{
    let k0 = (p.termination - p.effective) as nat;
    lemma_seed_distance(p, p.effective, k0);
    lemma_forward_least(p, k0);
    let c = choose|c: nat| c <= k0 && forward_stop(p, c);
    assert(forward_stop(p, c));
    let k = forward_len(p);
    assert(forward_stop(p, k));
    lemma_seed_zero(p, p.effective);
    assert forall|k2: nat| #[trigger] forward_stop(p, k2) implies k2 == k by {
        if k2 < k {
            assert(seed(p, p.effective, k2 as int) < p.termination);
        } else if k < k2 {
            assert(seed(p, p.effective, k as int) < p.termination);
        }
    }
    assert(c == k);
    if k == 0 {
        assert(seed(p, p.effective, 0) == p.effective);
    }
}

impl<C: Calendar + ?Sized> ScheduleBuilder<C> {
    /// `build` returns normally: generation stays within `i32`, and every
    /// business-day adjustment it makes reaches a business day.
    pub open spec fn can_build(&self) -> bool {
        let p = self.plan();
        let rule = self.generation_rule();
        let stub = self.forced_stub();
        p.termination > p.effective ==> (
            if rule == DateGeneration::Zero {
                can_adjust_grid(self.business_days(), self.defined_days(), raw_grid(p, rule, stub),
                    self.regular_convention(), self.final_convention())
            } else if p.tenor.num <= 0 || stub_mismatch(rule == DateGeneration::Forward, stub) {
                true
            } else {
                &&& grid_fits(p, rule, stub)
                &&& can_adjust_grid(self.business_days(), self.defined_days(), raw_grid(p, rule, stub),
                    self.regular_convention(), self.final_convention())
            }
        )
    }

    /// The dates `build` produces, when it succeeds.
    pub open spec fn built_serials(&self) -> Seq<int> {
        schedule_serials(self.plan(), self.generation_rule(), self.forced_stub(),
            self.business_days(), self.regular_convention(), self.final_convention())
    }

    /// Generates the schedule.
    ///
    /// Errors: [`ScheduleError::EmptyRange`] if `termination <= effective`;
    /// [`ScheduleError::NonPositiveTenor`] if the tenor count is `<= 0`
    /// (except under [`DateGeneration::Zero`], which ignores the tenor);
    /// [`ScheduleError::StubDirectionMismatch`] if the stub direction
    /// contradicts the rule; [`ScheduleError::AdjustedDatesNotAscending`] if
    /// the adjusted dates are not at least two strictly ascending dates.
    pub fn build(self) -> (r: Result<Schedule, ScheduleError>)
        requires
            self.can_build(),
        ensures
            ({
                let p = self.plan();
                let rule = self.generation_rule();
                match r {
                    Ok(s) => self.build_succeeds() && serials(s@) == self.built_serials()
                        && schedule_shaped(serials(s@)),
                    Err(ScheduleError::AdjustedDatesNotAscending { dates }) => self.build_succeeds()
                        && serials(dates@) == self.built_serials()
                        && !schedule_shaped(self.built_serials()),
                    Err(ScheduleError::EmptyRange { effective, termination }) =>
                        p.termination <= p.effective && effective@ == p.effective
                        && termination@ == p.termination,
                    Err(ScheduleError::NonPositiveTenor(n)) => p.termination > p.effective
                        && rule != DateGeneration::Zero && p.tenor.num <= 0 && n == p.tenor.num,
                    Err(ScheduleError::StubDirectionMismatch { rule: r2, stub }) =>
                        p.termination > p.effective && rule != DateGeneration::Zero
                        && p.tenor.num > 0 && r2 == rule && self.forced_stub() == Some(stub)
                        && stub_mismatch(rule == DateGeneration::Forward, self.forced_stub()),
                }
            }),
    {
        if self.termination.serial() <= self.effective.serial() {
            return Err(ScheduleError::EmptyRange {
                effective: self.effective,
                termination: self.termination,
            });
        }
        // Zero rule: a single period, tenor irrelevant.
        if self.rule == DateGeneration::Zero {
            let grid = vec![self.effective, self.termination];
            proof {
                assert(serials(grid@) =~= raw_grid(self.plan(), self.rule, self.stub));
            }
            return self.adjust_and_finish(grid);
        }
        if self.tenor.num <= 0 {
            return Err(ScheduleError::NonPositiveTenor(self.tenor.num));
        }
        let forward = self.rule == DateGeneration::Forward;
        let stub = match self.resolve_stub(forward) {
            Ok(s) => s,
            Err(e) => return Err(e),
        };
        let mut unadjusted = if forward {
            self.generate_forward(stub)
        } else {
            self.generate_backward(stub)
        };
        if self.rule == DateGeneration::ThirdWednesday {
            let ghost g = serials(unadjusted@);
            let mut i: usize = 0;
            while i < unadjusted.len()
                invariant
                    i <= unadjusted.len(),
                    unadjusted.len() == g.len(),
                    g == backward_grid(self.plan(), chosen_stub(false, self.stub)),
                    forall|j: int| 0 <= j < g.len() ==> #[trigger] third_wednesday_fits(g[j]),
                    forall|j: int| 0 <= j < i ==> #[trigger] serials(unadjusted@)[j]
                        == third_wednesday_serial(year_of(g[j]), month_of(g[j])),
                    forall|j: int| i <= j < g.len() ==> #[trigger] serials(unadjusted@)[j] == g[j],
                decreases unadjusted.len() - i,
            {
                let d = unadjusted[i];
                assert(serials(unadjusted@)[i as int] == d@);
                assert(third_wednesday_fits(g[i as int]));
                let w = third_wednesday(d.year(), d.month());
                let ghost before = unadjusted@;
                unadjusted.set(i, w);
                proof {
                    lemma_serials_update(before, i as int, w);
                }
                i = i + 1;
            }
            proof {
                assert(serials(unadjusted@) =~= snap_to_third_wednesday(g));
            }
        }
        self.adjust_and_finish(unadjusted)
    }

    /// Picks/validates the stub for the chosen direction.
    fn resolve_stub(&self, forward: bool) -> (r: Result<StubConvention, ScheduleError>)
        ensures
            match r {
                Ok(s) => !stub_mismatch(forward, self.forced_stub()) && s == chosen_stub(forward,
                    self.forced_stub()),
                Err(ScheduleError::StubDirectionMismatch { rule, stub }) => stub_mismatch(forward,
                    self.forced_stub()) && rule == self.generation_rule() && self.forced_stub()
                    == Some(stub),
                Err(_) => false,
            },
    {
        match self.stub {
            None => Ok(if forward { StubConvention::ShortBack } else { StubConvention::ShortFront }),
            Some(s) => {
                let ok = match s {
                    StubConvention::ShortBack | StubConvention::LongBack => forward,
                    StubConvention::ShortFront | StubConvention::LongFront => !forward,
                };
                if ok {
                    Ok(s)
                } else {
                    Err(ScheduleError::StubDirectionMismatch { rule: self.rule, stub: s })
                }
            },
        }
    }

    /// `anchor` shifted by `mult` tenors, with optional end-of-month rolling.
    fn seed(&self, anchor: Date, mult: i32) -> (r: Date)
        requires
            seed_fits(self.plan(), anchor@, mult as int),
        ensures
            r@ == seed(self.plan(), anchor@, mult as int),
    {
        let shifted = anchor.add_period(Period { num: self.tenor.num * mult, unit: self.tenor.unit });
        let month_based = match self.tenor.unit {
            Unit::Months | Unit::Years => true,
            _ => false,
        };
        if self.end_of_month && month_based && anchor.is_end_of_month() {
            shifted.end_of_month()
        } else {
            shifted
        }
    }

    /// Backward grid: termination, termination − tenor, … down toward
    /// effective.
    fn generate_backward(&self, stub: StubConvention) -> (r: Vec<Date>)
        requires
            self.plan().tenor.num > 0,
            self.plan().termination > self.plan().effective,
            backward_fits(self.plan()),
        ensures
            serials(r@) == backward_grid(self.plan(), stub),
    {
        let ghost p = self.plan();
        let ghost k = backward_len(p);
        proof {
            lemma_backward_len(p);
        }
        let mut tmp: Vec<Date> = Vec::new();
        let mut i: i32 = 0;
        loop
            invariant_except_break
                0 <= i <= k,
                serials(tmp@) == regular_dates(p, p.termination, -1, i as nat),
                forall|j: nat| j < i ==> #[trigger] seed(p, p.termination, -j) > p.effective,
            invariant
                p == self.plan(),
                k == backward_len(p),
                backward_stop(p, k),
                1 <= k,
                forall|c: nat| #[trigger] backward_stop(p, c) ==> c == k,
                backward_fits(p),
            ensures
                (seed(p, p.termination, -k) < p.effective
                    && serials(tmp@) == regular_dates(p, p.termination, -1, k))
                || (seed(p, p.termination, -k) == p.effective
                    && serials(tmp@) == regular_dates(p, p.termination, -1, k).push(p.effective)),
            decreases k - i,
        {
            assert(seed_fits(p, p.termination, -(i as nat)));
            let d = self.seed(self.termination, -i);
            assert(-1 * i == -i);
            if d.serial() < self.effective.serial() {
                assert(backward_stop(p, i as nat));
                break;
            }
            let ghost before = tmp@;
            tmp.push(d);
            proof {
                lemma_serials_push(before, d);
                assert(serials(tmp@) =~= regular_dates(p, p.termination, -1, i as nat).push(d@));
            }
            if d.serial() == self.effective.serial() {
                assert(backward_stop(p, i as nat));
                break;
            }
            proof {
                assert(regular_dates(p, p.termination, -1, i as nat).push(d@)
                    =~= regular_dates(p, p.termination, -1, (i + 1) as nat));
                if i == k {
                    assert(seed(p, p.termination, -k) <= p.effective);
                }
            }
            i = i + 1;
        }
        // tmp is descending; its last element is the smallest regular date >= effective.
        let n = tmp.len();
        let exact = tmp[n - 1].serial() == self.effective.serial();
        let ghost t0 = tmp@;
        proof {
            let regular = regular_dates(p, p.termination, -1, k);
            assert(serials(t0)[n - 1] == t0[n - 1]@);
            if !exact {
                if serials(t0) == regular.push(p.effective) {
                    assert(serials(t0)[n - 1] == p.effective);
                }
                assert(serials(t0) == regular);
                assert(t0.len() == k);
            }
        }
        if !exact {
            if stub == StubConvention::LongFront && tmp.len() >= 2 {
                tmp.pop();  // merge the first regular period into the stub
                proof {
                    lemma_serials_drop_last(t0);
                }
            }
            let ghost t1 = tmp@;
            tmp.push(self.effective);
            proof {
                lemma_serials_push(t1, self.effective);
            }
        }
        proof {
            let regular = regular_dates(p, p.termination, -1, k);
            if exact {
                assert(seed(p, p.termination, -k) == p.effective) by {
                    if seed(p, p.termination, -k) < p.effective {
                        assert(serials(tmp@)[n - 1] == seed(p, p.termination, -1 * (k - 1)));
                        assert(-1 * (k - 1) == -((k - 1) as nat));
                        assert(seed(p, p.termination, -((k - 1) as nat)) > p.effective);
                    }
                }
                assert(serials(tmp@) =~= backward_desc(p, stub));
            } else {
                if stub == StubConvention::LongFront && k >= 2 {
                    assert(serials(tmp@) =~= regular.drop_last().push(p.effective));
                } else {
                    assert(serials(tmp@) =~= regular.push(p.effective));
                }
                assert(serials(tmp@) =~= backward_desc(p, stub));
            }
        }
        reverse_dates(tmp)
    }

    /// Forward grid: effective, effective + tenor, … up toward termination.
    fn generate_forward(&self, stub: StubConvention) -> (r: Vec<Date>)
        requires
            self.plan().tenor.num > 0,
            self.plan().termination > self.plan().effective,
            forward_fits(self.plan()),
        ensures
            serials(r@) == forward_grid(self.plan(), stub),
    {
        let ghost p = self.plan();
        let ghost k = forward_len(p);
        proof {
            lemma_forward_len(p);
        }
        let mut tmp: Vec<Date> = Vec::new();
        let mut i: i32 = 0;
        loop
            invariant_except_break
                0 <= i <= k,
                serials(tmp@) == regular_dates(p, p.effective, 1, i as nat),
                forall|j: nat| j < i ==> #[trigger] seed(p, p.effective, j as int) < p.termination,
            invariant
                p == self.plan(),
                k == forward_len(p),
                forward_stop(p, k),
                1 <= k,
                forall|c: nat| #[trigger] forward_stop(p, c) ==> c == k,
                forward_fits(p),
            ensures
                (seed(p, p.effective, k as int) > p.termination
                    && serials(tmp@) == regular_dates(p, p.effective, 1, k))
                || (seed(p, p.effective, k as int) == p.termination
                    && serials(tmp@) == regular_dates(p, p.effective, 1, k).push(p.termination)),
            decreases k - i,
        {
            assert(seed_fits(p, p.effective, (i as nat) as int));
            let d = self.seed(self.effective, i);
            assert(1 * i == i);
            if d.serial() > self.termination.serial() {
                assert(forward_stop(p, i as nat));
                break;
            }
            let ghost before = tmp@;
            tmp.push(d);
            proof {
                lemma_serials_push(before, d);
                assert(serials(tmp@) =~= regular_dates(p, p.effective, 1, i as nat).push(d@));
            }
            if d.serial() == self.termination.serial() {
                assert(forward_stop(p, i as nat));
                break;
            }
            proof {
                assert(regular_dates(p, p.effective, 1, i as nat).push(d@)
                    =~= regular_dates(p, p.effective, 1, (i + 1) as nat));
                if i == k {
                    assert(seed(p, p.effective, k as int) >= p.termination);
                }
            }
            i = i + 1;
        }
        // tmp is ascending; its last element is the largest regular date <= termination.
        let n = tmp.len();
        let exact = tmp[n - 1].serial() == self.termination.serial();
        let ghost t0 = tmp@;
        proof {
            let regular = regular_dates(p, p.effective, 1, k);
            assert(serials(t0)[n - 1] == t0[n - 1]@);
            if !exact {
                if serials(t0) == regular.push(p.termination) {
                    assert(serials(t0)[n - 1] == p.termination);
                }
                assert(serials(t0) == regular);
                assert(t0.len() == k);
            }
        }
        if !exact {
            if stub == StubConvention::LongBack && tmp.len() >= 2 {
                tmp.pop();  // merge the last regular period into the stub
                proof {
                    lemma_serials_drop_last(t0);
                }
            }
            let ghost t1 = tmp@;
            tmp.push(self.termination);
            proof {
                lemma_serials_push(t1, self.termination);
            }
        }
        proof {
            let regular = regular_dates(p, p.effective, 1, k);
            if exact {
                assert(seed(p, p.effective, k as int) == p.termination) by {
                    if seed(p, p.effective, k as int) > p.termination {
                        assert(serials(tmp@)[n - 1] == seed(p, p.effective, 1 * (k - 1)));
                        assert(seed(p, p.effective, ((k - 1) as nat) as int) < p.termination);
                    }
                }
                assert(serials(tmp@) =~= forward_grid(p, stub));
            } else {
                if stub == StubConvention::LongBack && k >= 2 {
                    assert(serials(tmp@) =~= regular.drop_last().push(p.termination));
                } else {
                    assert(serials(tmp@) =~= regular.push(p.termination));
                }
                assert(serials(tmp@) =~= forward_grid(p, stub));
            }
        }
        tmp
    }

    /// Adjusts the raw grid onto business days and removes adjacent
    /// duplicates.
    fn adjust_and_finish(&self, unadjusted: Vec<Date>) -> (r: Result<Schedule, ScheduleError>)
        requires
            unadjusted.len() >= 1,
            can_adjust_grid(self.business_days(), self.defined_days(), serials(unadjusted@),
                self.regular_convention(), self.final_convention()),
        ensures
            ({
                let ds = dedup(adjust_grid(self.business_days(), serials(unadjusted@),
                    self.regular_convention(), self.final_convention()));
                match r {
                    Ok(s) => serials(s@) == ds && schedule_shaped(ds),
                    Err(ScheduleError::AdjustedDatesNotAscending { dates }) => serials(dates@) == ds
                        && !schedule_shaped(ds),
                    Err(_) => false,
                }
            }),
    {
        let n = unadjusted.len();
        let ghost g = serials(unadjusted@);
        let ghost biz = self.business_days();
        let mut adjusted_dates: Vec<Date> = Vec::new();
        let mut i: usize = 0;
        while i < n
            invariant
                n == unadjusted.len(),
                g == serials(unadjusted@),
                biz == self.business_days(),
                i <= n,
                can_adjust_grid(biz, self.defined_days(), g, self.regular_convention(),
                    self.final_convention()),
                serials(adjusted_dates@) == adjust_grid(biz, g, self.regular_convention(),
                    self.final_convention()).take(i as int),
            decreases n - i,
        {
            let conv = if i == n - 1 {
                self.termination_convention
            } else {
                self.convention
            };
            proof {
                assert(conv == convention_at(i as int, n as int, self.regular_convention(),
                    self.final_convention()));
                assert(can_adjust(biz, self.defined_days(), g[i as int], conv));
                assert(biz =~= (|t: int| (*self.calendar).spec_business_day(t)));
                assert(self.defined_days() =~= (|t: int| (*self.calendar).spec_defined(t)));
                assert(g[i as int] == unadjusted@[i as int]@);
            }
            let d = self.calendar.adjust(unadjusted[i], conv);
            let ghost before = adjusted_dates@;
            adjusted_dates.push(d);
            proof {
                lemma_serials_push(before, d);
                assert(serials(adjusted_dates@) =~= adjust_grid(biz, g, self.regular_convention(),
                    self.final_convention()).take(i + 1));
            }
            i = i + 1;
        }
        proof {
            assert(adjust_grid(biz, g, self.regular_convention(), self.final_convention()).take(n as int)
                =~= adjust_grid(biz, g, self.regular_convention(), self.final_convention()));
        }
        let dates = dedup_dates(adjusted_dates);
        if strictly_ascending_dates(&dates) {
            Ok(Schedule { dates })
        } else {
            Err(ScheduleError::AdjustedDatesNotAscending { dates })
        }
    }
}

/// The dates are at least two, strictly ascending.
fn strictly_ascending_dates(v: &Vec<Date>) -> (r: bool)
    ensures
        r == schedule_shaped(serials(v@)),
{
    if v.len() < 2 {
        return false;
    }
    let ghost s = serials(v@);
    let mut i: usize = 1;
    while i < v.len()
        invariant
            1 <= i <= v.len(),
            s == serials(v@),
            forall|a: int, b: int| 0 <= a < b < i ==> s[a] < s[b],
        decreases v.len() - i,
    {
        if v[i - 1].serial() >= v[i].serial() {
            proof {
                assert(s[i - 1] >= s[i as int]);
            }
            return false;
        }
        proof {
            assert forall|a: int, b: int| 0 <= a < b < i + 1 implies s[a] < s[b] by {
                if b == i && a < i - 1 {
                    assert(s[a] < s[i - 1]);
                }
            }
        }
        i = i + 1;
    }
    true
}

proof fn lemma_serials_push(s: Seq<Date>, d: Date)
    ensures
        serials(s.push(d)) == serials(s).push(d@),
{
    assert(serials(s.push(d)) =~= serials(s).push(d@));
}

proof fn lemma_serials_drop_last(s: Seq<Date>)
    requires
        s.len() >= 1,
    ensures
        serials(s.drop_last()) == serials(s).drop_last(),
{
    assert(serials(s.drop_last()) =~= serials(s).drop_last());
}

proof fn lemma_serials_update(s: Seq<Date>, i: int, d: Date)
    requires
        0 <= i < s.len(),
    ensures
        serials(s.update(i, d)) == serials(s).update(i, d@),
{
    assert(serials(s.update(i, d)) =~= serials(s).update(i, d@));
}

/// The dates in reverse order.
fn reverse_dates(v: Vec<Date>) -> (r: Vec<Date>)
    ensures
        serials(r@) == reversed(serials(v@)),
{
    let mut out: Vec<Date> = Vec::new();
    let n = v.len();
    let mut i: usize = n;
    while i > 0
        invariant
            i <= n,
            n == v.len(),
            serials(out@) == reversed(serials(v@)).take((n - i) as int),
        decreases i,
    {
        i = i - 1;
        let ghost before = out@;
        out.push(v[i]);
        proof {
            lemma_serials_push(before, v@[i as int]);
            assert(serials(out@) =~= reversed(serials(v@)).take((n - i) as int));
        }
    }
    proof {
        assert(reversed(serials(v@)).take(n as int) =~= reversed(serials(v@)));
    }
    out
}

proof fn lemma_dedup_len(s: Seq<int>)
    ensures
        s.len() >= 1 ==> dedup(s).len() >= 1,
        dedup(s).len() <= s.len(),
        s.len() >= 1 ==> dedup(s).last() == s.last(),
    decreases s.len(),
{
    if s.len() > 1 {
        lemma_dedup_len(s.drop_last());
    }
}

/// Consecutive duplicates removed.
fn dedup_dates(v: Vec<Date>) -> (r: Vec<Date>)
    requires
        v.len() >= 1,
    ensures
        serials(r@) == dedup(serials(v@)),
        r@.len() >= 1,
{
    let mut out: Vec<Date> = Vec::new();
    out.push(v[0]);
    let mut i: usize = 1;
    proof {
        lemma_serials_push(Seq::empty(), v@[0]);
        assert(Seq::<Date>::empty().push(v@[0]) =~= out@);
        assert(serials(v@).take(1) =~= seq![v@[0]@]);
        assert(serials(out@) =~= dedup(serials(v@).take(1)));
    }
    while i < v.len()
        invariant
            1 <= i <= v.len(),
            out.len() >= 1,
            serials(out@) == dedup(serials(v@).take(i as int)),
        decreases v.len() - i,
    {
        let last = out[out.len() - 1];
        let d = v[i];
        proof {
            let t = serials(v@).take(i + 1);
            assert(t.drop_last() =~= serials(v@).take(i as int));
            assert(t.last() == d@);
            lemma_dedup_len(serials(v@).take(i as int));
        }
        if last.serial() != d.serial() {
            let ghost before = out@;
            out.push(d);
            proof {
                lemma_serials_push(before, d);
                assert(serials(out@) =~= dedup(serials(v@).take(i as int)).push(d@));
            }
        }
        i = i + 1;
    }
    proof {
        assert(serials(v@).take(v.len() as int) =~= serials(v@));
        lemma_dedup_len(serials(v@));
    }
    out
}


// ---------------------------------------------------------------------------
// Laws of generated schedules
// ---------------------------------------------------------------------------

/// Each value of `s` is strictly below every later one.
pub open spec fn strictly_ascending(s: Seq<int>) -> bool {
    forall|i: int, j: int| 0 <= i < j < s.len() ==> s[i] < s[j]
}

/// Each value of `s` is at most every later one.
pub open spec fn ascending(s: Seq<int>) -> bool {
    forall|i: int, j: int| 0 <= i < j < s.len() ==> s[i] <= s[j]
}

/// Removing adjacent duplicates keeps the first and the last value, and
/// every value it keeps comes from the sequence.
proof fn lemma_dedup_ends(s: Seq<int>)
    requires
        s.len() >= 1,
    ensures
        dedup(s).len() >= 1,
        dedup(s)[0] == s[0],
        dedup(s).last() == s.last(),
        forall|i: int| 0 <= i < dedup(s).len() ==> #[trigger] s.contains(dedup(s)[i]),
    decreases s.len(),
{
    lemma_dedup_len(s);
    if s.len() > 1 {
        let t = s.drop_last();
        lemma_dedup_ends(t);
        let r = dedup(t);
        assert forall|i: int| 0 <= i < dedup(s).len() implies #[trigger] s.contains(dedup(s)[i]) by {
            if i < r.len() {
                assert(t.contains(r[i]));
                let k = choose|k: int| 0 <= k < t.len() && t[k] == r[i];
                assert(s[k] == r[i]);
            } else {
                assert(s[s.len() - 1] == dedup(s)[i]);
            }
        }
    }
}

/// Removing adjacent duplicates from an ascending sequence leaves a strictly
/// ascending one.
proof fn lemma_dedup_ascending(s: Seq<int>)
    requires
        ascending(s),
    ensures
        strictly_ascending(dedup(s)),
    decreases s.len(),
{
    if s.len() > 1 {
        let t = s.drop_last();
        assert(ascending(t));
        lemma_dedup_ascending(t);
        lemma_dedup_ends(t);
        let r = dedup(t);
        if r.last() != s.last() {
            assert(r.last() == s[s.len() - 2]);
            let u = r.push(s.last());
            assert forall|i: int, j: int| 0 <= i < j < u.len() implies u[i] < u[j] by {
                if j == r.len() && i < r.len() - 1 {
                    assert(r[i] < r[r.len() - 1]);
                }
            }
        }
    }
}

/// The backward grid is strictly ascending, runs from the effective to the
/// termination date, and holds at least two dates.
proof fn lemma_backward_grid(p: SchedulePlan, stub: StubConvention)
    requires
        p.tenor.num > 0,
        p.termination > p.effective,
    ensures
        strictly_ascending(backward_grid(p, stub)),
        backward_grid(p, stub).len() >= 2,
        backward_grid(p, stub)[0] == p.effective,
        backward_grid(p, stub).last() == p.termination,
{
    lemma_backward_len(p);
    lemma_seed_zero(p, p.termination);
    let k = backward_len(p);
    let desc = backward_desc(p, stub);
    let n = desc.len();
    assert(desc[0] == seed(p, p.termination, -1int * 0int));
    assert forall|i: int, j: int| 0 <= i < j < n implies desc[i] > desc[j] by {
        let iv: nat = i as nat;
        assert(desc[i] == seed(p, p.termination, -iv));
        if j < n - 1 {
            let jv: nat = j as nat;
            assert(desc[j] == seed(p, p.termination, -jv));
            lemma_seed_increasing(p, p.termination, -jv, -iv);
        } else {
            assert(seed(p, p.termination, -iv) > p.effective);
        }
    }
    let g = reversed(desc);
    assert forall|i: int, j: int| 0 <= i < j < g.len() implies g[i] < g[j] by {
        assert(g[i] == desc[n - 1 - i]);
        assert(g[j] == desc[n - 1 - j]);
    }
}

/// The forward grid is strictly ascending, runs from the effective to the
/// termination date, and holds at least two dates.
proof fn lemma_forward_grid(p: SchedulePlan, stub: StubConvention)
    requires
        p.tenor.num > 0,
        p.termination > p.effective,
    ensures
        strictly_ascending(forward_grid(p, stub)),
        forward_grid(p, stub).len() >= 2,
        forward_grid(p, stub)[0] == p.effective,
        forward_grid(p, stub).last() == p.termination,
{
    lemma_forward_len(p);
    lemma_seed_zero(p, p.effective);
    let g = forward_grid(p, stub);
    let n = g.len();
    assert(g[0] == seed(p, p.effective, 1int * 0int));
    assert forall|i: int, j: int| 0 <= i < j < n implies g[i] < g[j] by {
        let iv: nat = i as nat;
        assert(g[i] == seed(p, p.effective, iv as int));
        if j < n - 1 {
            let jv: nat = j as nat;
            assert(g[j] == seed(p, p.effective, jv as int));
            lemma_seed_increasing(p, p.effective, iv as int, jv as int);
        } else {
            assert(seed(p, p.effective, iv as int) < p.termination);
        }
    }
}

/// Third Wednesdays keep the order of the months they are taken from.
proof fn lemma_third_wednesday_monotone(s1: int, s2: int)
    requires
        s1 <= s2,
    ensures
        third_wednesday_serial(year_of(s1), month_of(s1)) <= third_wednesday_serial(year_of(s2), month_of(s2)),
{
    crate::civil::lemma_civil_exists(s1);
    crate::civil::lemma_civil_exists(s2);
    lemma_date_order(s1, s2);
    let (y1, m1, d1) = civil_of(s1);
    let (y2, m2, d2) = civil_of(s2);
    if !(y1 == y2 && m1 == m2) {
        lemma_third_wednesday(y1, m1);
        lemma_third_wednesday(y2, m2);
        lemma_date_order(third_wednesday_serial(y1, m1), third_wednesday_serial(y2, m2));
    }
}

/// The raw grid is ascending and holds at least two dates; for every rule
/// but `ThirdWednesday` it is strictly ascending and runs from the effective
/// to the termination date.
proof fn lemma_raw_grid(p: SchedulePlan, rule: DateGeneration, stub: Option<StubConvention>)
    requires
        p.termination > p.effective,
        rule == DateGeneration::Zero || p.tenor.num > 0,
    ensures
        ascending(raw_grid(p, rule, stub)),
        raw_grid(p, rule, stub).len() >= 2,
        rule != DateGeneration::ThirdWednesday ==> strictly_ascending(raw_grid(p, rule, stub))
            && raw_grid(p, rule, stub)[0] == p.effective
            && raw_grid(p, rule, stub).last() == p.termination,
        forall|i: int| 0 <= i < raw_grid(p, rule, stub).len()
            ==> p.effective - 16 <= #[trigger] raw_grid(p, rule, stub)[i] <= p.termination + 20,
{
    match rule {
        DateGeneration::Zero => {},
        DateGeneration::Forward => {
            let g = forward_grid(p, chosen_stub(true, stub));
            lemma_forward_grid(p, chosen_stub(true, stub));
            assert forall|i: int| 0 <= i < g.len() implies p.effective <= #[trigger] g[i] <= p.termination by {
                if 0 < i {
                    assert(g[0] < g[i]);
                }
                if i < g.len() - 1 {
                    assert(g[i] < g[g.len() - 1]);
                }
            }
        },
        DateGeneration::Backward => {
            let g = backward_grid(p, chosen_stub(false, stub));
            lemma_backward_grid(p, chosen_stub(false, stub));
            assert forall|i: int| 0 <= i < g.len() implies p.effective <= #[trigger] g[i] <= p.termination by {
                if 0 < i {
                    assert(g[0] < g[i]);
                }
                if i < g.len() - 1 {
                    assert(g[i] < g[g.len() - 1]);
                }
            }
        },
        DateGeneration::ThirdWednesday => {
            let g = backward_grid(p, chosen_stub(false, stub));
            lemma_backward_grid(p, chosen_stub(false, stub));
            let w = snap_to_third_wednesday(g);
            assert forall|i: int, j: int| 0 <= i < j < w.len() implies w[i] <= w[j] by {
                lemma_third_wednesday_monotone(g[i], g[j]);
            }
            assert forall|i: int| 0 <= i < w.len() implies
                p.effective - 16 <= #[trigger] w[i] <= p.termination + 20 by {
                if 0 < i {
                    assert(g[0] < g[i]);
                }
                if i < g.len() - 1 {
                    assert(g[i] < g[g.len() - 1]);
                }
                lemma_third_wednesday_near(g[i]);
            }
        },
    }
}

/// The third Wednesday of a day's month is at most 16 days before it and 20
/// days after it.
proof fn lemma_third_wednesday_near(s: int)
    ensures
        s - 16 <= third_wednesday_serial(year_of(s), month_of(s)) <= s + 20,
{
    crate::civil::lemma_civil_exists(s);
    let (y, m, d) = civil_of(s);
    lemma_third_wednesday(y, m);
    let t = third_wednesday_serial(y, m);
    crate::civil::lemma_civil_exists(t);
    assert(t - s == civil_of(t).2 - d);
}

impl<C: Calendar + ?Sized> ScheduleBuilder<C> {
    /// `build` succeeds: a non-empty range, and (except under
    /// [`DateGeneration::Zero`]) a positive tenor with a stub that suits the
    /// rule.
    pub open spec fn build_succeeds(&self) -> bool {
        &&& self.plan().termination > self.plan().effective
        &&& (self.generation_rule() == DateGeneration::Zero || (self.plan().tenor.num > 0
            && !stub_mismatch(self.generation_rule() == DateGeneration::Forward, self.forced_stub())))
    }
}

/// With one convention for every date, the dates of a schedule are strictly
/// ascending. (Under a modified convention this needs a calendar without
/// four-week closures around the schedule: a roll that jumps a year would
/// come back to the same month number.)
pub proof fn lemma_schedule_ascending<C: Calendar + ?Sized>(b: &ScheduleBuilder<C>)
    requires
        b.can_build(),
        b.build_succeeds(),
        b.regular_convention() == b.final_convention(),
        b.regular_convention() == BusinessDayConvention::ModifiedFollowing
            || b.regular_convention() == BusinessDayConvention::ModifiedPreceding
            ==> dense_business_days(b.business_days(), b.plan().effective - 60, b.plan().termination + 60),
    ensures
        strictly_ascending(b.built_serials()),
        b.built_serials().len() >= 1,
{
    let p = b.plan();
    let g = raw_grid(p, b.generation_rule(), b.forced_stub());
    lemma_raw_grid(p, b.generation_rule(), b.forced_stub());
    let biz = b.business_days();
    let def = b.defined_days();
    let conv = b.regular_convention();
    let n = g.len() as int;
    let a = adjust_grid(biz, g, conv, conv);
    assert forall|i: int, j: int| 0 <= i < j < a.len() implies a[i] <= a[j] by {
        assert(can_adjust(biz, def, g[i], convention_at(i, n, conv, conv)));
        assert(can_adjust(biz, def, g[j], convention_at(j, n, conv, conv)));
        assert(p.effective - 16 <= g[i] && g[j] <= p.termination + 20);
        if conv == BusinessDayConvention::ModifiedFollowing || conv == BusinessDayConvention::ModifiedPreceding {
            assert forall|t: int| g[i] - 27 <= t <= g[j] implies #[trigger] crate::calendar::business_day_within(biz, t, 28) by {
                assert(p.effective - 60 <= t <= p.termination + 60);
            }
        }
        lemma_adjusted_monotone(biz, def, g[i], g[j], conv);
    }
    lemma_dedup_ascending(a);
    lemma_dedup_ends(a);
}

/// For every rule but `ThirdWednesday`, a schedule starts at the effective
/// date adjusted under the regular convention and ends at the termination
/// date adjusted under the final one; it holds at least two dates when these
/// two differ.
pub proof fn lemma_schedule_endpoints<C: Calendar + ?Sized>(b: &ScheduleBuilder<C>)
    requires
        b.build_succeeds(),
        b.generation_rule() != DateGeneration::ThirdWednesday,
    ensures
        b.built_serials().len() >= 1,
        b.built_serials()[0] == adjusted(b.business_days(), b.plan().effective, b.regular_convention()),
        b.built_serials().last() == adjusted(b.business_days(), b.plan().termination, b.final_convention()),
        b.built_serials()[0] != b.built_serials().last() ==> b.built_serials().len() >= 2,
{
    let p = b.plan();
    let g = raw_grid(p, b.generation_rule(), b.forced_stub());
    lemma_raw_grid(p, b.generation_rule(), b.forced_stub());
    let a = adjust_grid(b.business_days(), g, b.regular_convention(), b.final_convention());
    lemma_dedup_ends(a);
}

/// With no adjustment, every date of a `ThirdWednesday` schedule is a
/// Wednesday between the 15th and the 21st of its month.
pub proof fn lemma_third_wednesday_schedule<C: Calendar + ?Sized>(b: &ScheduleBuilder<C>)
    requires
        b.build_succeeds(),
        b.generation_rule() == DateGeneration::ThirdWednesday,
        b.regular_convention() == BusinessDayConvention::Unadjusted,
        b.final_convention() == BusinessDayConvention::Unadjusted,
    ensures
        forall|i: int| 0 <= i < b.built_serials().len() ==> {
            let t = #[trigger] b.built_serials()[i];
            weekday_of(t) == Weekday::Wednesday && 15 <= civil_of(t).2 <= 21
        },
{
    let p = b.plan();
    let g = raw_grid(p, b.generation_rule(), b.forced_stub());
    lemma_raw_grid(p, b.generation_rule(), b.forced_stub());
    let a = adjust_grid(b.business_days(), g, b.regular_convention(), b.final_convention());
    assert(a =~= g);
    lemma_dedup_ends(a);
    let bg = backward_grid(p, chosen_stub(false, b.forced_stub()));
    assert forall|i: int| 0 <= i < b.built_serials().len() implies {
        let t = #[trigger] b.built_serials()[i];
        weekday_of(t) == Weekday::Wednesday && 15 <= civil_of(t).2 <= 21
    } by {
        let t = b.built_serials()[i];
        assert(a.contains(t));
        let k = choose|k: int| 0 <= k < a.len() && a[k] == t;
        crate::civil::lemma_civil_exists(bg[k]);
        lemma_third_wednesday(year_of(bg[k]), month_of(bg[k]));
    }
}


/// A strictly ascending sequence has no adjacent duplicates to remove.
proof fn lemma_dedup_strict(s: Seq<int>)
    requires
        strictly_ascending(s),
    ensures
        dedup(s) == s,
    decreases s.len(),
{
    if s.len() > 1 {
        let t = s.drop_last();
        assert(strictly_ascending(t));
        lemma_dedup_strict(t);
        lemma_dedup_len(t);
        assert(t.last() < s.last());
        assert(t.push(s.last()) =~= s);
    }
}

/// With month-end rolling on a month or year tenor and no adjustment, when
/// the anchor is the last day of its month every generated date is a month
/// end: all dates after the effective date under `Backward` generation (the
/// anchor is the termination date), all dates before the termination date
/// under `Forward` generation (the anchor is the effective date).
pub proof fn lemma_end_of_month_rolling<C: Calendar + ?Sized>(b: &ScheduleBuilder<C>)
    requires
        b.build_succeeds(),
        b.generation_rule() == DateGeneration::Backward || b.generation_rule() == DateGeneration::Forward,
        b.regular_convention() == BusinessDayConvention::Unadjusted,
        b.final_convention() == BusinessDayConvention::Unadjusted,
        b.plan().end_of_month,
        b.plan().tenor.unit == Unit::Months || b.plan().tenor.unit == Unit::Years,
        b.generation_rule() == DateGeneration::Backward ==> is_end_of_month_serial(b.plan().termination),
        b.generation_rule() == DateGeneration::Forward ==> is_end_of_month_serial(b.plan().effective),
    ensures
        b.generation_rule() == DateGeneration::Backward ==> forall|i: int|
            1 <= i < b.built_serials().len() ==> is_end_of_month_serial(#[trigger] b.built_serials()[i]),
        b.generation_rule() == DateGeneration::Forward ==> forall|i: int|
            0 <= i < b.built_serials().len() - 1 ==> is_end_of_month_serial(#[trigger] b.built_serials()[i]),
{
    let p = b.plan();
    let rule = b.generation_rule();
    let g = raw_grid(p, rule, b.forced_stub());
    lemma_raw_grid(p, rule, b.forced_stub());
    let a = adjust_grid(b.business_days(), g, b.regular_convention(), b.final_convention());
    assert(a =~= g);
    lemma_dedup_strict(g);
    let anchor = if rule == DateGeneration::Backward { p.termination } else { p.effective };
    assert forall|m: int| #[trigger] is_end_of_month_serial(seed(p, anchor, m)) by {
        lemma_end_of_month(shift_serial(anchor, p.tenor.num * m, p.tenor.unit));
    }
    if rule == DateGeneration::Backward {
        let desc = backward_desc(p, chosen_stub(false, b.forced_stub()));
        let n = desc.len();
        assert forall|i: int| 1 <= i < g.len() implies is_end_of_month_serial(#[trigger] g[i]) by {
            assert(g[i] == desc[n - 1 - i]);
            let j = n - 1 - i;
            assert(desc[j] == seed(p, p.termination, -1 * j));
        }
    } else {
        assert forall|i: int| 0 <= i < g.len() - 1 implies is_end_of_month_serial(#[trigger] g[i]) by {
            assert(g[i] == seed(p, p.effective, 1 * i));
        }
    }
}


/// A schedule under one convention for every date, whose rule is not
/// `ThirdWednesday` and whose effective and termination dates adjust to
/// different days, is built: its dates are at least two and strictly
/// ascending, so `build` does not report
/// [`ScheduleError::AdjustedDatesNotAscending`].
pub proof fn lemma_schedule_builds<C: Calendar + ?Sized>(b: &ScheduleBuilder<C>)
    requires
        b.can_build(),
        b.build_succeeds(),
        b.generation_rule() != DateGeneration::ThirdWednesday,
        b.regular_convention() == b.final_convention(),
        b.regular_convention() == BusinessDayConvention::ModifiedFollowing
            || b.regular_convention() == BusinessDayConvention::ModifiedPreceding
            ==> dense_business_days(b.business_days(), b.plan().effective - 60, b.plan().termination + 60),
        adjusted(b.business_days(), b.plan().effective, b.regular_convention())
            != adjusted(b.business_days(), b.plan().termination, b.final_convention()),
    ensures
        schedule_shaped(b.built_serials()),
{
    lemma_schedule_ascending(b);
    lemma_schedule_endpoints(b);
}


/// The effective date lies on the regular backward grid: it is some whole
/// number of tenors before the termination date.
pub open spec fn effective_on_grid(p: SchedulePlan) -> bool {
    exists|j: nat| #[trigger] seed(p, p.termination, -j) == p.effective
}

/// A long front stub merges the first regular period into the stub: when the
/// effective date is off the regular grid and at least two regular dates
/// follow it, the long-stub grid is the short-stub grid without its second
/// date (the regular date nearest the effective date); otherwise the two
/// grids are the same.
pub proof fn lemma_long_front_stub(p: SchedulePlan)
    requires
        p.tenor.num > 0,
        p.termination > p.effective,
    ensures
        ({
            let sf = backward_grid(p, StubConvention::ShortFront);
            let lf = backward_grid(p, StubConvention::LongFront);
            if !effective_on_grid(p) && sf.len() >= 3 {
                &&& lf.len() == sf.len() - 1
                &&& lf[0] == sf[0]
                &&& forall|i: int| 1 <= i < lf.len() ==> lf[i] == #[trigger] sf[i + 1]
            } else {
                lf == sf
            }
        }),
{
    lemma_backward_len(p);
    let k = backward_len(p);
    let regular = regular_dates(p, p.termination, -1, k);
    let sd = backward_desc(p, StubConvention::ShortFront);
    let ld = backward_desc(p, StubConvention::LongFront);
    let sf = reversed(sd);
    let lf = reversed(ld);
    assert(sd == regular.push(p.effective));
    assert(sf.len() == k + 1);
    // The effective date is on the grid exactly when the k-th seed is it.
    if effective_on_grid(p) {
        let j = choose|j: nat| #[trigger] seed(p, p.termination, -j) == p.effective;
        if j < k {
            assert(seed(p, p.termination, -j) > p.effective);
        } else if j > k {
            lemma_seed_increasing(p, p.termination, -j, -k);
        }
        assert(seed(p, p.termination, -k) == p.effective);
    } else {
        assert(seed(p, p.termination, -k) != p.effective);
    }
    if !effective_on_grid(p) && sf.len() >= 3 {
        assert(ld == regular.drop_last().push(p.effective));
        assert forall|i: int| 1 <= i < lf.len() implies lf[i] == #[trigger] sf[i + 1] by {
            assert(lf[i] == ld[ld.len() - 1 - i]);
            assert(sf[i + 1] == sd[sd.len() - 1 - (i + 1)]);
        }
    } else {
        assert(ld == sd);
    }
}


/// The effective date's grid, measured forward: termination lies a whole
/// number of tenors after the effective date.
pub open spec fn termination_on_grid(p: SchedulePlan) -> bool {
    exists|j: nat| #[trigger] seed(p, p.effective, j as int) == p.termination
}

/// A long back stub merges the last regular period into the stub: when the
/// termination date is off the regular forward grid and at least two regular
/// dates precede it, the long-stub grid is the short-stub grid without its
/// second-to-last date; otherwise the two grids are the same.
pub proof fn lemma_long_back_stub(p: SchedulePlan)
    requires
        p.tenor.num > 0,
        p.termination > p.effective,
    ensures
        ({
            let sb = forward_grid(p, StubConvention::ShortBack);
            let lb = forward_grid(p, StubConvention::LongBack);
            if !termination_on_grid(p) && sb.len() >= 3 {
                &&& lb.len() == sb.len() - 1
                &&& lb.last() == sb.last()
                &&& forall|i: int| 0 <= i < lb.len() - 1 ==> lb[i] == #[trigger] sb[i]
            } else {
                lb == sb
            }
        }),
{
    lemma_forward_len(p);
    let k = forward_len(p);
    let regular = regular_dates(p, p.effective, 1, k);
    let sb = forward_grid(p, StubConvention::ShortBack);
    let lb = forward_grid(p, StubConvention::LongBack);
    assert(sb == regular.push(p.termination));
    if termination_on_grid(p) {
        let j = choose|j: nat| #[trigger] seed(p, p.effective, j as int) == p.termination;
        if j < k {
            assert(seed(p, p.effective, j as int) < p.termination);
        } else if j > k {
            lemma_seed_increasing(p, p.effective, k as int, j as int);
        }
        assert(seed(p, p.effective, k as int) == p.termination);
    } else {
        assert(seed(p, p.effective, k as int) != p.termination);
    }
    if !termination_on_grid(p) && sb.len() >= 3 {
        assert(lb == regular.drop_last().push(p.termination));
    } else {
        assert(lb == sb);
    }
}

} // verus!
