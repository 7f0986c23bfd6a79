//! Candlestick (OHLCV) data object.
//!
//! A candlestick carries five raw scalars; validation rejects the first
//! ill-formed one, naming its timestamp and field.  As a timestamped
//! value a candlestick stands for its close price.

use crate::error::{is_scalar_err, Error};
use crate::fixed::{iabs, tdiv, Fixed, Scalar};
use crate::index_entry::{IndexEntry, IndexEntryLike};
use vstd::prelude::*;

verus! {

/// Mantissa bound under which the candlestick derivations (typical
/// price, body and shadow sizes) cannot overflow.
pub const CANDLE_FIELD_LIMIT: i128 = 0x1_0000_0000_0000_0000_0000_0000_0000;

/// One OHLCV bar.
#[derive(Clone, Copy, Debug)]
pub struct Candlestick {
    pub at: u64,
    pub open: Scalar,
    pub high: Scalar,
    pub low: Scalar,
    pub close: Scalar,
    pub volume: Scalar,
}

impl IndexEntryLike for Candlestick {
    open spec fn at_of(&self) -> u64 {
        self.at
    }

    open spec fn value_of(&self) -> Scalar {
        self.close
    }

    fn get_at(&self) -> u64 {
        self.at
    }

    fn get_value(&self) -> Scalar {
        self.close
    }
}

/// Every scalar field of the candlestick is a finite number.
pub open spec fn cand_ok(c: Candlestick) -> bool {
    &&& c.open is Num
    &&& c.high is Num
    &&& c.low is Num
    &&& c.close is Num
    &&& c.volume is Num
}

/// Model of one candlestick: timestamp and the five field mantissas.
pub open spec fn cand_model(c: Candlestick) -> (u64, int, int, int, int, int) {
    (
        c.at,
        c.open.m_spec(),
        c.high.m_spec(),
        c.low.m_spec(),
        c.close.m_spec(),
        c.volume.m_spec(),
    )
}

/// Models of a candlestick sequence.
pub open spec fn cand_models(s: Seq<Candlestick>) -> Seq<(u64, int, int, int, int, int)> {
    Seq::new(s.len(), |i: int| cand_model(s[i]))
}

/// Every candlestick of the sequence is well formed.
pub open spec fn all_candles_ok(s: Seq<Candlestick>) -> bool {
    forall|i: int| 0 <= i < s.len() ==> cand_ok(#[trigger] s[i])
}

/// `k` is the position of the first ill-formed candlestick.
pub open spec fn is_first_bad_candle(s: Seq<Candlestick>, k: int) -> bool {
    &&& 0 <= k < s.len()
    &&& !cand_ok(s[k])
    &&& forall|j: int| 0 <= j < k ==> cand_ok(#[trigger] s[j])
}

/// `e` is the validation error for the first ill-formed field of `c`, in
/// the order the fields are checked.
pub open spec fn is_candle_err(e: Error, c: Candlestick) -> bool {
    if !(c.open is Num) {
        is_scalar_err(e, c.at, c.open, "open"@)
    } else if !(c.high is Num) {
        is_scalar_err(e, c.at, c.high, "high"@)
    } else if !(c.low is Num) {
        is_scalar_err(e, c.at, c.low, "low"@)
    } else if !(c.close is Num) {
        is_scalar_err(e, c.at, c.close, "close"@)
    } else {
        is_scalar_err(e, c.at, c.volume, "volume"@)
    }
}

/// The validation error `e` names the first ill-formed field of the first
/// ill-formed candlestick of `s`.
pub open spec fn is_candle_validation_err(s: Seq<Candlestick>, e: Error) -> bool {
    exists|k: int| #[trigger] is_first_bad_candle(s, k) && is_candle_err(e, s[k])
}

/// Every finite field mantissa of every candlestick has magnitude at most
/// `b`.
pub open spec fn cand_values_within(s: Seq<Candlestick>, b: int) -> bool {
    forall|i: int|
        0 <= i < s.len() ==> {
            let c = #[trigger] s[i];
            &&& (c.open is Num ==> iabs(c.open.m_spec()) <= b)
            &&& (c.high is Num ==> iabs(c.high.m_spec()) <= b)
            &&& (c.low is Num ==> iabs(c.low.m_spec()) <= b)
            &&& (c.close is Num ==> iabs(c.close.m_spec()) <= b)
            &&& (c.volume is Num ==> iabs(c.volume.m_spec()) <= b)
        }
}

/// The five fields of a well-formed candlestick are within `b`.
pub open spec fn cand_fields_within(c: Candlestick, b: int) -> bool {
    &&& iabs(c.open.m_spec()) <= b
    &&& iabs(c.high.m_spec()) <= b
    &&& iabs(c.low.m_spec()) <= b
    &&& iabs(c.close.m_spec()) <= b
    &&& iabs(c.volume.m_spec()) <= b
}

impl Candlestick {
    /// Creates a new Candlestick instance.
    pub fn new(at: u64, open: Scalar, high: Scalar, low: Scalar, close: Scalar, volume: Scalar) -> (r:
        Candlestick)
        ensures
            r.at == at,
            r.open == open,
            r.high == high,
            r.low == low,
            r.close == close,
            r.volume == volume,
    {
        Candlestick { at, open, high, low, close, volume }
    }

    /// Accepts a list whose candlesticks are all well formed; rejects the
    /// first ill-formed field (checking open, high, low, close, volume in
    /// order), in input order.
    pub fn validate_list(xs: &[Candlestick]) -> (r: Result<(), Error>)
        ensures
            r is Ok <==> all_candles_ok(xs@),
            r matches Err(e) ==> is_candle_validation_err(xs@, e),
    {
        let mut i: usize = 0;
        while i < xs.len()
            invariant
                0 <= i <= xs@.len(),
                forall|j: int| 0 <= j < i ==> cand_ok(#[trigger] xs@[j]),
            decreases xs.len() - i,
        {
            let c = xs[i];
            let at = c.at;
            if let Err(e) = IndexEntry::validate_field(at, c.open, "open") {
                proof {
                    assert(is_first_bad_candle(xs@, i as int));
                }
                return Err(e);
            }
            if let Err(e) = IndexEntry::validate_field(at, c.high, "high") {
                proof {
                    assert(is_first_bad_candle(xs@, i as int));
                }
                return Err(e);
            }
            if let Err(e) = IndexEntry::validate_field(at, c.low, "low") {
                proof {
                    assert(is_first_bad_candle(xs@, i as int));
                }
                return Err(e);
            }
            if let Err(e) = IndexEntry::validate_field(at, c.close, "close") {
                proof {
                    assert(is_first_bad_candle(xs@, i as int));
                }
                return Err(e);
            }
            if let Err(e) = IndexEntry::validate_field(at, c.volume, "volume") {
                proof {
                    assert(is_first_bad_candle(xs@, i as int));
                }
                return Err(e);
            }
            i += 1;
        }
        Ok(())
    }

    /// Converts to an `IndexEntry` whose value is the volume.
    pub fn to_volume_entry(&self) -> (r: IndexEntry)
        ensures
            r.at == self.at,
            r.value == self.volume,
    {
        IndexEntry { at: self.at, value: self.volume }
    }

    /// The typical price `(high + low + close) / 3`.
    pub fn typical_price(&self) -> (r: Fixed)
        requires
            self.high is Num,
            self.low is Num,
            self.close is Num,
            cand_fields_within(*self, CANDLE_FIELD_LIMIT as int),
        ensures
            r.m == tdiv(self.high.m_spec() + self.low.m_spec() + self.close.m_spec(), 3),
    {
        let h = match self.high {
            Scalar::Num(f) => f.m,
            _ => 0,
        };
        let l = match self.low {
            Scalar::Num(f) => f.m,
            _ => 0,
        };
        let c = match self.close {
            Scalar::Num(f) => f.m,
            _ => 0,
        };
        let q = crate::fixed::div_i128(h + l + c, 3);
        Fixed { m: q }
    }

    /// Converts to an `IndexEntry` whose value is the typical price.
    pub fn to_typical_price_entry(&self) -> (r: IndexEntry)
        requires
            self.high is Num,
            self.low is Num,
            self.close is Num,
            cand_fields_within(*self, CANDLE_FIELD_LIMIT as int),
        ensures
            r.at == self.at,
            r.value is Num,
            r.value.m_spec() == tdiv(self.high.m_spec() + self.low.m_spec() + self.close.m_spec(), 3),
    {
        IndexEntry { at: self.at, value: Scalar::Num(self.typical_price()) }
    }

    /// True of a white candlestick: the close is above the open.
    pub fn is_bullish(&self) -> (r: bool)
        requires
            self.open is Num,
            self.close is Num,
        ensures
            r == (self.open.m_spec() < self.close.m_spec()),
    {
        let o = match self.open {
            Scalar::Num(f) => f.m,
            _ => 0,
        };
        let c = match self.close {
            Scalar::Num(f) => f.m,
            _ => 0,
        };
        o < c
    }

    /// True of a black candlestick: the open is above the close.
    pub fn is_bearish(&self) -> (r: bool)
        requires
            self.open is Num,
            self.close is Num,
        ensures
            r == (self.open.m_spec() > self.close.m_spec()),
    {
        let o = match self.open {
            Scalar::Num(f) => f.m,
            _ => 0,
        };
        let c = match self.close {
            Scalar::Num(f) => f.m,
            _ => 0,
        };
        o > c
    }

    /// The body length `|open - close|`.
    pub fn body_size(&self) -> (r: Fixed)
        requires
            self.open is Num,
            self.close is Num,
            cand_fields_within(*self, CANDLE_FIELD_LIMIT as int),
        ensures
            r.m == iabs(self.open.m_spec() - self.close.m_spec()),
    {
        let o = match self.open {
            Scalar::Num(f) => f.m,
            _ => 0,
        };
        let c = match self.close {
            Scalar::Num(f) => f.m,
            _ => 0,
        };
        if o >= c {
            Fixed { m: o - c }
        } else {
            Fixed { m: c - o }
        }
    }

    /// The higher of the open and close prices.
    pub fn body_high(&self) -> (r: Fixed)
        requires
            self.open is Num,
            self.close is Num,
        ensures
            r.m == (if self.open.m_spec() >= self.close.m_spec() {
                self.open.m_spec()
            } else {
                self.close.m_spec()
            }),
    {
        let o = match self.open {
            Scalar::Num(f) => f.m,
            _ => 0,
        };
        let c = match self.close {
            Scalar::Num(f) => f.m,
            _ => 0,
        };
        if o >= c {
            Fixed { m: o }
        } else {
            Fixed { m: c }
        }
    }

    /// The lower of the open and close prices.
    pub fn body_low(&self) -> (r: Fixed)
        requires
            self.open is Num,
            self.close is Num,
        ensures
            r.m == (if self.open.m_spec() <= self.close.m_spec() {
                self.open.m_spec()
            } else {
                self.close.m_spec()
            }),
    {
        let o = match self.open {
            Scalar::Num(f) => f.m,
            _ => 0,
        };
        let c = match self.close {
            Scalar::Num(f) => f.m,
            _ => 0,
        };
        if o <= c {
            Fixed { m: o }
        } else {
            Fixed { m: c }
        }
    }

    /// The upper shadow length: the high above the body.
    pub fn upper_shadow_size(&self) -> (r: Fixed)
        requires
            self.open is Num,
            self.close is Num,
            self.high is Num,
            cand_fields_within(*self, CANDLE_FIELD_LIMIT as int),
        ensures
            r.m == self.high.m_spec() - (if self.open.m_spec() >= self.close.m_spec() {
                self.open.m_spec()
            } else {
                self.close.m_spec()
            }),
    {
        let h = match self.high {
            Scalar::Num(f) => f.m,
            _ => 0,
        };
        let bh = self.body_high();
        Fixed { m: h - bh.m }
    }

    /// The lower shadow length: the body above the low.
    pub fn lower_shadow_size(&self) -> (r: Fixed)
        requires
            self.open is Num,
            self.close is Num,
            self.low is Num,
            cand_fields_within(*self, CANDLE_FIELD_LIMIT as int),
        ensures
            r.m == (if self.open.m_spec() <= self.close.m_spec() {
                self.open.m_spec()
            } else {
                self.close.m_spec()
            }) - self.low.m_spec(),
    {
        let l = match self.low {
            Scalar::Num(f) => f.m,
            _ => 0,
        };
        let bl = self.body_low();
        Fixed { m: bl.m - l }
    }
}

} // verus!
