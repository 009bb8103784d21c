//! Errors of curve construction and rate arithmetic.

use vstd::prelude::*;
use crate::text::{decimal, push_decimal};

verus! {

/// Errors returned by curve construction.
#[derive(Debug, Clone, PartialEq, Eq)]
pub enum YieldCurveError {
    /// Not enough points for the requested method.
    InsufficientData { method: &'static str, need: usize, got: usize },
    /// A point failed validation (NaN/infinite, negative x, duplicate x).
    InvalidPoint(String),
    /// Parametric fit (Nelson-Siegel, Svensson) did not converge or produced
    /// implausible parameters.
    FitFailed(String),
    /// A time argument or time range is unusable (non-finite, negative, or
    /// not increasing).
    InvalidTimeRange(String),
}

impl YieldCurveError {
    /// Human-readable message.
    pub fn to_string(&self) -> (r: String)
        ensures
            match self {
                YieldCurveError::InsufficientData { method, need, got } => r@ == method@
                    + " requires at least "@ + decimal(*need as nat) + " points, got "@
                    + decimal(*got as nat),
                YieldCurveError::InvalidPoint(msg) => r@ == "invalid point: "@ + msg@,
                YieldCurveError::FitFailed(msg) => r@ == "fit failed to converge: "@ + msg@,
                YieldCurveError::InvalidTimeRange(msg) => r@ == "invalid time range: "@ + msg@,
            },
    {
        match self {
            YieldCurveError::InsufficientData { method, need, got } => {
                let mut s = (*method).to_owned();
                s.append(" requires at least ");
                push_decimal(&mut s, *need as u64);
                s.append(" points, got ");
                push_decimal(&mut s, *got as u64);
                s
            },
            YieldCurveError::InvalidPoint(msg) => {
                let mut s = "invalid point: ".to_owned();
                s.append(msg.as_str());
                s
            },
            YieldCurveError::FitFailed(msg) => {
                let mut s = "fit failed to converge: ".to_owned();
                s.append(msg.as_str());
                s
            },
            YieldCurveError::InvalidTimeRange(msg) => {
                let mut s = "invalid time range: ".to_owned();
                s.append(msg.as_str());
                s
            },
        }
    }
}

} // verus!
