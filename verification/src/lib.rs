//! Dates, holiday calendars, day counts and schedules for yield-curve work.
//!
//! - [`date`] — proleptic Gregorian [`Date`] stored as an `i32` serial,
//!   [`Period`], [`Weekday`], end-of-month-aware arithmetic, proved against
//!   the calendar model of [`civil`].
//! - [`daycount`] — day counts and exact year-fraction pieces of the ISDA
//!   2006 conventions.
//! - [`calendar`] — the [`Calendar`] trait with business-day adjustment,
//!   `Brazil` (ANBIMA national), `Target2`, `WeekendsOnly`, `JoinCalendar`.
//! - [`schedule`] — coupon/pillar date generation with stubs, end-of-month
//!   rolling, and IMM (third-Wednesday) dates.
//! - [`compounding`] and [`error`] — the convention and error types shared
//!   with the floating-point curve code.

pub mod calendar;
pub mod civil;
pub mod compounding;
pub mod date;
pub mod daycount;
pub mod error;
pub mod schedule;
pub mod text;

pub use calendar::{
    easter, Brazil, BusinessDayConvention, Calendar, JoinCalendar, JoinRule, Target2, WeekendsOnly,
};
pub use compounding::{Compounding, PeriodsPerYear};
pub use date::{Date, DateError, Period, Unit, Weekday};
pub use daycount::{DayCount, YearFractionTerms};
pub use error::YieldCurveError;
pub use schedule::{
    third_wednesday, DateGeneration, Schedule, ScheduleBuilder, ScheduleError, StubConvention,
};
