# yield_curves

Dates, holiday calendars, day counts and coupon schedules for yield-curve
work, with machine-checked proofs, plus the floating-point curve code around
them.

## Layout

- `src/` — the verified library.
  - `civil` — the proleptic Gregorian calendar as mathematics (leap years,
    month lengths, day numbers) with the lemmas the date code is proved
    against.
  - `date` — `Date` (an `i32` day number), `Period`, `Weekday`; Howard
    Hinnant's `days_from_civil` / `civil_from_days`, month arithmetic with
    end-of-month clamping, ISO text.
  - `calendar` — the `Calendar` trait (adjust, advance, count business days),
    `WeekendsOnly`, `Brazil`, `Target2`, `JoinCalendar`, Easter.
  - `daycount` — ACT/360, ACT/365F, ACT/ACT ISDA, 30/360 and 30E/360: day
    counts and the exact integer pieces of year fractions.
  - `schedule` — backward/forward/zero/IMM schedule generation with stubs,
    end-of-month rolling and business-day adjustment.
  - `compounding`, `error`, `text` — shared types and decimal formatting.
- `tests/` — tests of the library.
- `app/` — ordinary Rust on top of the library: interpolating and parametric
  curves (linear, natural cubic spline, PCHIP, Nelson-Siegel, Svensson,
  Nelder-Mead), discount factors and forward rates, bond analytics, and the
  `f64` year fractions built from the library's integer pieces.

## What is proved

Every function of the library has a contract over the calendar model, and
the library states its laws as proof functions, among them: date order is
calendar order; weekdays cycle every seven days; adjusted dates are business
days and nearest ones; adjustment keeps date order; business-day counts are
antisymmetric and additive; Easter falls on a Sunday; reversed year fractions
are negated and actual-day fractions add up over adjacent periods; every
built schedule holds at least two strictly ascending dates (adjustment that
collapses or reorders them is reported as an error), and under one
convention a schedule runs from the adjusted effective date to the adjusted
termination date.
