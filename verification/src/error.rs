//! Errors the indicators report.
//!
//! Validation failures (`ContainsNaN`, `ContainsInfinite`) name the
//! timestamp and field of the first offending scalar; the remaining
//! variants report misuse of parameters or a window whose aggregate
//! denominator is zero.

use crate::fixed::{Fixed, Scalar};
use vstd::prelude::*;

verus! {

#[derive(Clone, Debug)]
pub enum Error {
    ContainsNaN { at: u64, field: String },
    ContainsInfinite { at: u64, field: String },
    LongDurationIsNotGreaterThanShortDuration { short_duration: usize, long_duration: usize },
    MustBePositive { value: Fixed, field: String },
    DividedByZero { at: u64, field: String },
}

/// `e` is the validation error for the ill-formed scalar `v` found at
/// timestamp `at` in the field named `f`.
pub open spec fn is_scalar_err(e: Error, at: u64, v: Scalar, f: Seq<char>) -> bool {
    match v {
        Scalar::NaN => e matches Error::ContainsNaN { at: a, field } && a == at && field@ == f,
        Scalar::Infinite => e matches Error::ContainsInfinite { at: a, field } && a == at
            && field@ == f,
        Scalar::Num(_) => false,
    }
}

/// `e` reports that the aggregate named `f` summed to zero in the window
/// anchored at `at`.
pub open spec fn is_div_zero_err(e: Error, at: u64, f: Seq<char>) -> bool {
    e matches Error::DividedByZero { at: a, field } && a == at && field@ == f
}

} // verus!
