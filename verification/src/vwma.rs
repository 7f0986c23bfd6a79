//! VWMA (Volume Weighted Moving Average): per window,
//! `sum(close * volume) / sum(volume)`, failing with a divide-by-zero
//! error at the first window whose volume total is zero.

use crate::bars::{lift_bars, prepare_candles, sorted_cand_model};
use crate::candlestick::{all_candles_ok, cand_values_within, is_candle_validation_err, Candlestick};
use crate::error::{is_div_zero_err, Error};
use crate::fixed::{div_i128, iabs, lemma_tdiv_mag, tdiv};
use crate::index_entry::IndexEntry;
use crate::series::{is_output, lift, wrap_entries, VAL_LIMIT};
use vstd::prelude::*;

verus! {

/// Largest field mantissa the close-times-volume window sums support.
pub const VWMA_VALUE_LIMIT: i128 = 1_000_000_000_000_000;

/// Largest window the close-times-volume window sums support.
pub const VWMA_DURATION_LIMIT: usize = 100_000_000;

/// Volume total of the first `t` bars of the window at `k`.
pub open spec fn vol_sum(s: Seq<(u64, int, int, int, int, int)>, k: int, t: int) -> int
    decreases t,
{
    if t <= 0 {
        0
    } else {
        vol_sum(s, k, t - 1) + s[k + t - 1].5
    }
}

/// Close-times-volume total of the first `t` bars of the window at `k`.
pub open spec fn cv_sum(s: Seq<(u64, int, int, int, int, int)>, k: int, t: int) -> int
    decreases t,
{
    if t <= 0 {
        0
    } else {
        cv_sum(s, k, t - 1) + s[k + t - 1].4 * s[k + t - 1].5
    }
}

/// The window at `k` has a nonzero volume total, so its VWMA value is
/// defined.
pub open spec fn vwma_defined(s: Seq<(u64, int, int, int, int, int)>, k: int, d: int) -> bool {
    vol_sum(s, k, d) != 0
}

/// The VWMA series of `s` with window `d`.
pub open spec fn vwma_s(s: Seq<(u64, int, int, int, int, int)>, d: int) -> Seq<(u64, int)> {
    if d < 1 || s.len() < d {
        Seq::empty()
    } else {
        Seq::new(
            (s.len() - d + 1) as nat,
            |k: int| (s[k + d - 1].0, tdiv(cv_sum(s, k, d), vol_sum(s, k, d))),
        )
    }
}

/// Returns VWMA (Volume Weighted Moving Average) for the given
/// candlestick list, one value per window, anchored at the window's last
/// timestamp.
///
/// A zero `duration` or too-short input yields an empty result; an
/// ill-formed scalar fails the call with its timestamp and field; a
/// window whose volume total is zero fails the call with a
/// divide-by-zero error at that window's anchor (the first such window).
pub fn vwma(entries: &[Candlestick], duration: usize) -> (r: Result<Vec<IndexEntry>, Error>)
    requires
        duration == 0 || entries@.len() < duration || (cand_values_within(
            entries@,
            VWMA_VALUE_LIMIT as int,
        ) && duration <= VWMA_DURATION_LIMIT),
    ensures
        duration == 0 || entries@.len() < duration ==> (r matches Ok(v) && v@.len() == 0),
        1 <= duration <= entries@.len() && all_candles_ok(entries@) && (forall|k: int|
            0 <= k <= entries@.len() - duration ==> vwma_defined(
                sorted_cand_model(entries@),
                k,
                duration as int,
            )) ==> (r matches Ok(v) && is_output(
            v@,
            vwma_s(sorted_cand_model(entries@), duration as int),
        )),
        1 <= duration <= entries@.len() && all_candles_ok(entries@) && !(forall|k: int|
            0 <= k <= entries@.len() - duration ==> vwma_defined(
                sorted_cand_model(entries@),
                k,
                duration as int,
            )) ==> (r matches Err(e) && exists|k: int|
            0 <= k <= entries@.len() - duration && !vwma_defined(
                sorted_cand_model(entries@),
                k,
                duration as int,
            ) && (forall|j: int|
                0 <= j < k ==> vwma_defined(sorted_cand_model(entries@), j, duration as int))
                && is_div_zero_err(
                e,
                #[trigger] sorted_cand_model(entries@)[k + duration - 1].0,
                "sum of volume"@,
            )),
        1 <= duration <= entries@.len() && !all_candles_ok(entries@) ==> (r matches Err(e)
            && is_candle_validation_err(entries@, e)),
{
    if duration == 0 || entries.len() < duration {
        return Ok(Vec::new());
    }
    proof {
        assert(cand_values_within(entries@, VAL_LIMIT as int));
    }
    let sorted = match prepare_candles(entries) {
        Ok(v) => v,
        Err(e) => {
            return Err(e);
        },
    };
    let ghost sm = sorted_cand_model(entries@);
    proof {
        assert(lift_bars(sorted@).len() == sorted@.len());
        let inlim = |c: (u64, int, int, int, int, int)|
            iabs(c.1) <= VWMA_VALUE_LIMIT as int && iabs(c.2) <= VWMA_VALUE_LIMIT as int && iabs(
                c.3,
            ) <= VWMA_VALUE_LIMIT as int && iabs(c.4) <= VWMA_VALUE_LIMIT as int && iabs(c.5)
                <= VWMA_VALUE_LIMIT as int;
        let fm = crate::candlestick::cand_models(entries@);
        assert forall|k: int| 0 <= k < fm.len() implies inlim(#[trigger] fm[k]) by {
            assert(fm[k] == crate::candlestick::cand_model(entries@[k]));
            assert(crate::candlestick::cand_ok(entries@[k]));
        }
        crate::series::lemma_sort_by_at_all(crate::bars::bkey(), fm, inlim);
        assert(crate::bars::bars_within(sm, VWMA_VALUE_LIMIT as int));
    }
    let d = duration;
    let n = sorted.len();
    let mut out: Vec<(u64, i128)> = Vec::new();
    let mut i: usize = 0;
    while i <= n - d
        invariant
            1 <= d <= n,
            d <= VWMA_DURATION_LIMIT,
            n == sorted@.len(),
            n == entries@.len(),
            d == duration,
            all_candles_ok(entries@),
            sm == sorted_cand_model(entries@),
            sm == lift_bars(sorted@),
            crate::bars::bars_within(sm, VWMA_VALUE_LIMIT as int),
            i <= n - d + 1,
            out@.len() == i,
            forall|j: int| 0 <= j < i ==> vwma_defined(sm, j, d as int),
            forall|k: int| 0 <= k < i ==> #[trigger] lift(out@)[k] == vwma_s(sm, d as int)[k],
        decreases n - d + 1 - i,
    {
        let end: usize = i + d;
        let mut vs: i128 = 0;
        let mut cvs: i128 = 0;
        let mut j: usize = i;
        while j < end
            invariant
                i <= j <= end,
                end == i + d,
                end <= n == sorted@.len(),
                d <= VWMA_DURATION_LIMIT,
                sm == lift_bars(sorted@),
                crate::bars::bars_within(sm, VWMA_VALUE_LIMIT as int),
                vs as int == vol_sum(sm, i as int, j - i),
                cvs as int == cv_sum(sm, i as int, j - i),
                iabs(vs as int) <= (j - i) * (VWMA_VALUE_LIMIT as int),
                iabs(cvs as int) <= (j - i) * ((VWMA_VALUE_LIMIT as int) * (
                VWMA_VALUE_LIMIT as int)),
            decreases end - j,
        {
            proof {
                assert(iabs(sm[j as int].4) <= VWMA_VALUE_LIMIT as int && iabs(sm[j as int].5)
                    <= VWMA_VALUE_LIMIT as int);
                let t = j - i + 1;
                assert(iabs(sm[j as int].4 * sm[j as int].5) <= (VWMA_VALUE_LIMIT as int) * (
                VWMA_VALUE_LIMIT as int) && (t - 1) * ((VWMA_VALUE_LIMIT as int) * (
                VWMA_VALUE_LIMIT as int)) + (VWMA_VALUE_LIMIT as int) * (VWMA_VALUE_LIMIT as int)
                    == t * ((VWMA_VALUE_LIMIT as int) * (VWMA_VALUE_LIMIT as int)) && (t - 1) * (
                VWMA_VALUE_LIMIT as int) + (VWMA_VALUE_LIMIT as int) == t * (
                VWMA_VALUE_LIMIT as int) && t * ((VWMA_VALUE_LIMIT as int) * (
                VWMA_VALUE_LIMIT as int)) <= 100_000_000 * ((VWMA_VALUE_LIMIT as int) * (
                VWMA_VALUE_LIMIT as int)) && t * (VWMA_VALUE_LIMIT as int) <= 100_000_000 * (
                VWMA_VALUE_LIMIT as int)) by (nonlinear_arith)
                    requires
                        iabs(sm[j as int].4) <= VWMA_VALUE_LIMIT as int && iabs(sm[j as int].5)
                            <= VWMA_VALUE_LIMIT as int && 1 <= t <= 100_000_000,
                ;
            }
            vs = vs + sorted[j].v;
            cvs = cvs + sorted[j].c * sorted[j].v;
            j += 1;
        }
        if vs == 0 {
            let e = Error::DividedByZero {
                at: sorted[i + d - 1].at,
                field: "sum of volume".to_owned(),
            };
            proof {
                assert(!vwma_defined(sm, i as int, d as int));
                assert(is_div_zero_err(e, sm[i + d - 1].0, "sum of volume"@));
                assert(0 <= i as int <= entries@.len() - duration && !vwma_defined(
                    sorted_cand_model(entries@),
                    i as int,
                    duration as int,
                ) && (forall|j2: int|
                    0 <= j2 < i as int ==> vwma_defined(
                        sorted_cand_model(entries@),
                        j2,
                        duration as int,
                    )) && is_div_zero_err(
                    e,
                    #[trigger] sorted_cand_model(entries@)[i + duration - 1].0,
                    "sum of volume"@,
                ));
            }
            return Err(e);
        }
        proof {
            lemma_tdiv_mag(cvs as int, vs as int);
        }
        let q = div_i128(cvs, vs);
        let ghost old_out = out@;
        out.push((sorted[i + d - 1].at, q));
        proof {
            assert(lift(out@)[i as int] == vwma_s(sm, d as int)[i as int]);
            assert(forall|k: int| 0 <= k < i ==> #[trigger] lift(out@)[k] == lift(old_out)[k]);
        }
        i += 1;
    }
    proof {
        assert(lift(out@) =~= vwma_s(sm, d as int));
    }
    Ok(wrap_entries(out))
}

} // verus!
