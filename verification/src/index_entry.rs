//! The timestamped-value capability and its minimal carrier.
//!
//! Every series an indicator accepts — raw entries, candlesticks, or the
//! output of another indicator — exposes a timestamp and a scalar value
//! through `IndexEntryLike`.  `IndexEntry` is the minimal such carrier and
//! the universal output type of single-valued indicators.

use crate::error::{is_scalar_err, Error};
use crate::fixed::Scalar;
use vstd::prelude::*;

verus! {

/// A timestamped scalar: the capability all series honor.
pub trait IndexEntryLike: Sized + Copy {
    /// The timestamp, as the contracts see it.
    spec fn at_of(&self) -> u64;

    /// The raw scalar value, as the contracts see it.
    spec fn value_of(&self) -> Scalar;

    fn get_at(&self) -> (r: u64)
        ensures
            r == self.at_of(),
    ;

    fn get_value(&self) -> (r: Scalar)
        ensures
            r == self.value_of(),
    ;
}

/// The minimal timestamped value: a `(timestamp, scalar)` pair.
#[derive(Clone, Copy, Debug)]
pub struct IndexEntry {
    pub at: u64,
    pub value: Scalar,
}

impl IndexEntryLike for IndexEntry {
    open spec fn at_of(&self) -> u64 {
        self.at
    }

    open spec fn value_of(&self) -> Scalar {
        self.value
    }

    fn get_at(&self) -> u64 {
        self.at
    }

    fn get_value(&self) -> Scalar {
        self.value
    }
}

impl IndexEntry {
    pub fn new(at: u64, value: Scalar) -> (r: IndexEntry)
        ensures
            r.at == at,
            r.value == value,
    {
        IndexEntry { at, value }
    }

    /// Converts any timestamped value to an `IndexEntry`.
    pub fn from<T: IndexEntryLike>(that: &T) -> (r: IndexEntry)
        ensures
            r.at == that.at_of(),
            r.value == that.value_of(),
    {
        IndexEntry { at: that.get_at(), value: that.get_value() }
    }

    /// Accepts a finite scalar; rejects `NaN` and infinities, naming the
    /// timestamp and field of the offending value.
    pub fn validate_field(at: u64, v: Scalar, field: &str) -> (r: Result<(), Error>)
        ensures
            r is Ok <==> v is Num,
            r matches Err(e) ==> is_scalar_err(e, at, v, field@),
    {
        match v {
            Scalar::Num(_) => Ok(()),
            Scalar::NaN => Err(Error::ContainsNaN { at, field: field.to_owned() }),
            Scalar::Infinite => Err(Error::ContainsInfinite { at, field: field.to_owned() }),
        }
    }

    /// Accepts a series whose scalars are all finite; rejects the first
    /// ill-formed one, in input order.
    pub fn validate_list<T: IndexEntryLike>(xs: &[T]) -> (r: Result<(), Error>)
        ensures
            r is Ok <==> crate::series::all_finite(crate::series::ent_models(xs@)),
            r matches Err(e) ==> exists|k: int|
                #[trigger] crate::series::is_first_invalid(crate::series::ent_models(xs@), k)
                    && is_scalar_err(
                    e,
                    crate::series::ent_models(xs@)[k].0,
                    crate::series::ent_models(xs@)[k].1,
                    "value"@,
                ),
    {
        match crate::series::check_entries(xs) {
            Ok(_) => Ok(()),
            Err(e) => Err(e),
        }
    }
}

} // verus!
