//! Williams %R: per window,
//! `(close - highestHigh) / (highestHigh - lowestLow) * 100` (zero when
//! the window has no range), anchored at the window's last timestamp.

use crate::bars::{
    lift_bars, max_high, min_low, prepare_candles, sorted_cand_model, window_extrema,
};
use crate::candlestick::{all_candles_ok, cand_values_within, is_candle_validation_err, Candlestick};
use crate::error::Error;
use crate::fixed::{div_i128, iabs, lemma_tdiv_mag, tdiv, SCALE};
use crate::index_entry::IndexEntry;
use crate::series::{is_output, lift, wrap_entries, VAL_LIMIT};
use vstd::prelude::*;

verus! {

/// The Williams %R value of the window `[k, k + d)`.
pub open spec fn wpr_at(s: Seq<(u64, int, int, int, int, int)>, k: int, d: int) -> int {
    let hi = max_high(s, k, k + d);
    let lo = min_low(s, k, k + d);
    if hi - lo == 0 {
        0
    } else {
        tdiv((s[k + d - 1].4 - hi) * (SCALE as int), hi - lo) * 100
    }
}

/// The Williams %R series of `s` with window `d`.
pub open spec fn wpr_s(s: Seq<(u64, int, int, int, int, int)>, d: int) -> Seq<(u64, int)> {
    if d < 1 || s.len() < d {
        Seq::empty()
    } else {
        Seq::new((s.len() - d + 1) as nat, |k: int| (s[k + d - 1].0, wpr_at(s, k, d)))
    }
}

/// Returns Williams %R for the given candlestick list, one value per
/// window, anchored at the window's last timestamp.  A zero `duration`
/// or too-short input yields an empty result; an ill-formed scalar fails
/// the call with its timestamp and field.
pub fn williams_percent_r(entries: &[Candlestick], duration: usize) -> (r: Result<
    Vec<IndexEntry>,
    Error,
>)
    requires
        cand_values_within(entries@, VAL_LIMIT as int),
    ensures
        duration == 0 || entries@.len() < duration ==> (r matches Ok(v) && v@.len() == 0),
        1 <= duration <= entries@.len() && all_candles_ok(entries@) ==> (r matches Ok(v)
            && is_output(v@, wpr_s(sorted_cand_model(entries@), duration as int))),
        1 <= duration <= entries@.len() && !all_candles_ok(entries@) ==> (r matches Err(e)
            && is_candle_validation_err(entries@, e)),
{
    if duration == 0 || entries.len() < duration {
        return Ok(Vec::new());
    }
    let sorted = match prepare_candles(entries) {
        Ok(v) => v,
        Err(e) => {
            return Err(e);
        },
    };
    let ghost sm = sorted_cand_model(entries@);
    proof {
        assert(lift_bars(sorted@).len() == sorted@.len());
    }
    let d = duration;
    let n = sorted.len();
    let mut out: Vec<(u64, i128)> = Vec::new();
    let mut i: usize = 0;
    while i <= n - d
        invariant
            1 <= d <= n,
            n == sorted@.len(),
            sm == lift_bars(sorted@),
            crate::bars::bars_within(sm, VAL_LIMIT as int),
            i <= n - d + 1,
            out@.len() == i,
            forall|k: int| 0 <= k < i ==> #[trigger] lift(out@)[k] == wpr_s(sm, d as int)[k],
        decreases n - d + 1 - i,
    {
        let ex = window_extrema(&sorted, i, d);
        let hi = ex.0;
        let lo = ex.1;
        proof {
            crate::bars::lemma_extrema_bounds(sm, i as int, i + d, VAL_LIMIT as int);
            assert(iabs(sm[i + d - 1].4) <= VAL_LIMIT as int);
        }
        let c = sorted[i + d - 1].c;
        let val: i128 = if hi - lo == 0 {
            0
        } else {
            proof {
                assert(iabs((c as int - hi as int) * (SCALE as int)) <= 2 * (VAL_LIMIT as int) * (
                SCALE as int)) by (nonlinear_arith)
                    requires
                        iabs(c as int - hi as int) <= 2 * (VAL_LIMIT as int),
                ;
                lemma_tdiv_mag((c as int - hi as int) * (SCALE as int), hi as int - lo as int);
            }
            let q = div_i128((c - hi) * SCALE, hi - lo);
            q * 100
        };
        let ghost old_out = out@;
        out.push((sorted[i + d - 1].at, val));
        proof {
            assert(lift(out@)[i as int] == wpr_s(sm, d as int)[i as int]);
            assert(forall|k: int| 0 <= k < i ==> #[trigger] lift(out@)[k] == lift(old_out)[k]);
        }
        i += 1;
    }
    proof {
        assert(lift(out@) =~= wpr_s(sm, d as int));
    }
    Ok(wrap_entries(out))
}

} // verus!
