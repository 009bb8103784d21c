//! Compounding conventions.
//!
//! The discount-factor and forward-rate formulas work in floating point and
//! live outside the verified library; this module holds the convention type
//! they take.

use vstd::prelude::*;

verus! {

/// A positive number of compounding periods per year.
#[derive(Debug, Clone, Copy, PartialEq, Eq)]
pub struct PeriodsPerYear {
    n: u32,
}

impl View for PeriodsPerYear {
    type V = nat;

    /// The number of periods.
    closed spec fn view(&self) -> nat {
        self.n as nat
    }
}

impl PeriodsPerYear {
    #[verifier::type_invariant]
    spec fn positive(self) -> bool {
        self.n != 0
    }

    /// `n` periods per year; `None` for zero.
    pub fn new(n: u32) -> (r: Option<Self>)
        ensures
            r is Some <==> n != 0,
            r matches Some(p) ==> p@ == n,
    {
        if n == 0 {
            None
        } else {
            Some(PeriodsPerYear { n })
        }
    }

    /// The number of periods, never zero.
    pub fn get(self) -> (r: u32)
        ensures
            r == self@,
            r != 0,
    {
        proof {
            use_type_invariant(&self);
        }
        self.n
    }
}

/// Compounding convention used to translate a yield into a discount factor or
/// to compose forward rates.
///
/// `Periodic(n)` covers the common cases: annual (1), semi-annual (2),
/// monthly (12), and the Brazilian business-day convention (252).
#[derive(Debug, Clone, Copy, PartialEq, Eq)]
pub enum Compounding {
    /// Continuous compounding: `DF = exp(-r*t)`.
    Continuous,
    /// Periodic compounding `n` times per year: `DF = (1 + r/n)^(-n*t)`.
    Periodic(PeriodsPerYear),
    /// Simple (linear) interest: `DF = 1 / (1 + r*t)`.
    Simple,
}

impl Compounding {
    /// Annual compounding (`Periodic(1)`).
    pub fn annual() -> (r: Self)
        ensures
            r matches Compounding::Periodic(p) && p@ == 1,
    {
        Compounding::Periodic(PeriodsPerYear { n: 1 })
    }

    /// Semi-annual compounding (`Periodic(2)`).
    pub fn semi_annual() -> (r: Self)
        ensures
            r matches Compounding::Periodic(p) && p@ == 2,
    {
        Compounding::Periodic(PeriodsPerYear { n: 2 })
    }
}

} // verus!
