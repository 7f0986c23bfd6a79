//! ATR (Average True Range): the true range of each consecutive bar pair
//! (the first bar has none), smoothed with Wilder's factor.

use crate::bars::{lift_bars, prepare_candles, sorted_cand_model};
use crate::candlestick::{all_candles_ok, cand_values_within, is_candle_validation_err, Candlestick};
use crate::ema::{ema_core, ema_s};
use crate::error::Error;
use crate::fixed::iabs;
use crate::index_entry::IndexEntry;
use crate::rma::{rma_alpha, rma_alpha_exec};
use crate::series::{bounded, is_output, lift, wrap_entries, CORE_LIMIT, VAL_LIMIT};
use vstd::prelude::*;

verus! {

/// The true range of the bar at position `i` against its predecessor:
/// the largest of `high - prevClose`, `|low - prevClose|` and
/// `|high - low|`.
pub open spec fn true_range_at(s: Seq<(u64, int, int, int, int, int)>, i: int) -> int {
    let r1 = s[i].2 - s[i - 1].4;
    let r2 = iabs(s[i].3 - s[i - 1].4);
    let r3 = iabs(s[i].2 - s[i].3);
    if r1 >= r2 && r1 >= r3 {
        r1
    } else if r2 >= r3 {
        r2
    } else {
        r3
    }
}

/// The true-range series of `s`: one value per bar after the first, at
/// that bar's timestamp.
pub open spec fn true_range_s(s: Seq<(u64, int, int, int, int, int)>) -> Seq<(u64, int)> {
    if s.len() < 1 {
        Seq::empty()
    } else {
        Seq::new((s.len() - 1) as nat, |k: int| (s[k + 1].0, true_range_at(s, k + 1)))
    }
}

/// The ATR series of `s` with window `d`: Wilder's smoothing of the
/// true-range series.
pub open spec fn atr_s(s: Seq<(u64, int, int, int, int, int)>, d: int) -> Seq<(u64, int)> {
    ema_s(true_range_s(s), d, rma_alpha(d))
}

/// Returns ATR (Average True Range) for the given candlestick list.  A
/// zero `duration` or too-short input yields an empty result; an
/// ill-formed scalar fails the call with its timestamp and field.
pub fn atr(entries: &[Candlestick], duration: usize) -> (r: Result<Vec<IndexEntry>, Error>)
    requires
        cand_values_within(entries@, VAL_LIMIT as int),
    ensures
        duration == 0 || entries@.len() < duration ==> (r matches Ok(v) && v@.len() == 0),
        1 <= duration <= entries@.len() && all_candles_ok(entries@) ==> (r matches Ok(v)
            && is_output(v@, atr_s(sorted_cand_model(entries@), duration as int))),
        1 <= duration <= entries@.len() && !all_candles_ok(entries@) ==> (r matches Err(e)
            && is_candle_validation_err(entries@, e)),
{
    if duration == 0 || entries.len() < duration {
        return Ok(Vec::new());
    }
    let sorted = match prepare_candles(entries) {
        Ok(v) => v,
        Err(e) => {
            return Err(e);
        },
    };
    let ghost sm = sorted_cand_model(entries@);
    proof {
        assert(lift_bars(sorted@).len() == sorted@.len());
    }
    let n = sorted.len();
    let mut tr: Vec<(u64, i128)> = Vec::new();
    let mut i: usize = 1;
    while i < n
        invariant
            1 <= i <= n || (n == 0 && i == 1),
            n == sorted@.len(),
            sm == lift_bars(sorted@),
            crate::bars::bars_within(sm, VAL_LIMIT as int),
            tr@.len() == (if i >= 1 {
                i - 1
            } else {
                0
            }),
            forall|k: int| 0 <= k < i - 1 ==> #[trigger] lift(tr@)[k] == true_range_s(sm)[k],
            bounded(lift(tr@), CORE_LIMIT as int),
        decreases n - i,
    {
        proof {
            assert(iabs(sm[i as int].2) <= VAL_LIMIT as int);
            assert(iabs(sm[i as int].3) <= VAL_LIMIT as int);
            assert(iabs(sm[i - 1].4) <= VAL_LIMIT as int);
        }
        let r1 = sorted[i].h - sorted[i - 1].c;
        let r2d = sorted[i].l - sorted[i - 1].c;
        let r2 = if r2d >= 0 {
            r2d
        } else {
            -r2d
        };
        let r3d = sorted[i].h - sorted[i].l;
        let r3 = if r3d >= 0 {
            r3d
        } else {
            -r3d
        };
        let v: i128 = if r1 >= r2 && r1 >= r3 {
            r1
        } else if r2 >= r3 {
            r2
        } else {
            r3
        };
        let ghost old_tr = tr@;
        tr.push((sorted[i].at, v));
        proof {
            assert(lift(tr@)[i - 1] == true_range_s(sm)[i - 1]);
            assert(forall|k: int| 0 <= k < i - 1 ==> #[trigger] lift(tr@)[k] == lift(old_tr)[k]);
        }
        i += 1;
    }
    proof {
        assert(lift(tr@) =~= true_range_s(sm));
    }
    let alpha = rma_alpha_exec(duration);
    let out = ema_core(&tr, duration, alpha);
    Ok(wrap_entries(out))
}

} // verus!
