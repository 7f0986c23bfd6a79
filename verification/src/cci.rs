//! CCI (Commodity Channel Index): typical price against its SMA, scaled
//! by 0.015 times the window's mean absolute deviation.

use crate::bars::{lift_bars, prepare_candles, sorted_cand_model};
use crate::candlestick::{all_candles_ok, cand_values_within, is_candle_validation_err, Candlestick};
use crate::error::{is_div_zero_err, Error};
use crate::fixed::{div_i128, iabs, lemma_tdiv_mag, lemma_tdiv_range, tdiv, SCALE};
use crate::index_entry::IndexEntry;
use crate::series::{bounded, is_output, lift, sum_range, wrap_entries, VAL_LIMIT};
use vstd::prelude::*;

verus! {

/// The typical-price series of `s`: `(high + low + close) / 3` per bar,
/// in bar order.
pub open spec fn typical_s(s: Seq<(u64, int, int, int, int, int)>) -> Seq<(u64, int)> {
    Seq::new(s.len(), |i: int| (s[i].0, tdiv(s[i].2 + s[i].3 + s[i].4, 3)))
}

/// Sum over the first `t` window elements of the absolute deviation from
/// `avg`.
pub open spec fn absdev_sum(s: Seq<(u64, int)>, k: int, t: int, avg: int) -> int
    decreases t,
{
    if t <= 0 {
        0
    } else {
        absdev_sum(s, k, t - 1, avg) + iabs(s[k + t - 1].1 - avg)
    }
}

/// The scaled mean absolute deviation of the window at `k`:
/// `0.015 * sum(|tp - avg|) / d` as a mantissa.
pub open spec fn cci_denom(tp: Seq<(u64, int)>, k: int, d: int) -> int {
    let avg = tdiv(sum_range(tp, k, k + d), d);
    let md = tdiv(absdev_sum(tp, k, d, avg), d);
    tdiv(md * 15_000_000, SCALE as int)
}

/// The window at `k` has a nonzero scaled mean deviation, so its CCI
/// value is defined.
pub open spec fn cci_defined(tp: Seq<(u64, int)>, k: int, d: int) -> bool {
    cci_denom(tp, k, d) != 0
}

/// The CCI value of the window at `k`.
pub open spec fn cci_at(tp: Seq<(u64, int)>, k: int, d: int) -> int {
    let avg = tdiv(sum_range(tp, k, k + d), d);
    tdiv((tp[k + d - 1].1 - avg) * (SCALE as int), cci_denom(tp, k, d))
}

/// The CCI series of `s` with window `d`.
pub open spec fn cci_s(s: Seq<(u64, int, int, int, int, int)>, d: int) -> Seq<(u64, int)> {
    let tp = typical_s(s);
    if d < 1 || s.len() < d {
        Seq::empty()
    } else {
        Seq::new((s.len() - d + 1) as nat, |k: int| (tp[k + d - 1].0, cci_at(tp, k, d)))
    }
}

/// Returns CCI for the given candlestick list, one value per window,
/// anchored at the window's last timestamp.
///
/// A zero `duration` or too-short input yields an empty result; an
/// ill-formed scalar fails the call with its timestamp and field; a
/// window whose scaled mean deviation truncates to zero fails the call
/// with a divide-by-zero error at that window's anchor (the first such
/// window).
pub fn cci(entries: &[Candlestick], duration: usize) -> (r: Result<Vec<IndexEntry>, Error>)
    requires
        cand_values_within(entries@, VAL_LIMIT as int),
    ensures
        duration == 0 || entries@.len() < duration ==> (r matches Ok(v) && v@.len() == 0),
        1 <= duration <= entries@.len() && all_candles_ok(entries@) && (forall|k: int|
            0 <= k <= entries@.len() - duration ==> cci_defined(
                typical_s(sorted_cand_model(entries@)),
                k,
                duration as int,
            )) ==> (r matches Ok(v) && is_output(
            v@,
            cci_s(sorted_cand_model(entries@), duration as int),
        )),
        1 <= duration <= entries@.len() && all_candles_ok(entries@) && !(forall|k: int|
            0 <= k <= entries@.len() - duration ==> cci_defined(
                typical_s(sorted_cand_model(entries@)),
                k,
                duration as int,
            )) ==> (r matches Err(e) && exists|k: int|
            0 <= k <= entries@.len() - duration && !cci_defined(
                typical_s(sorted_cand_model(entries@)),
                k,
                duration as int,
            ) && (forall|j: int|
                0 <= j < k ==> cci_defined(
                    typical_s(sorted_cand_model(entries@)),
                    j,
                    duration as int,
                )) && is_div_zero_err(
                e,
                #[trigger] sorted_cand_model(entries@)[k + duration - 1].0,
                "mean deviation"@,
            )),
        1 <= duration <= entries@.len() && !all_candles_ok(entries@) ==> (r matches Err(e)
            && is_candle_validation_err(entries@, e)),
{
    if duration == 0 || entries.len() < duration {
        return Ok(Vec::new());
    }
    let sorted = match prepare_candles(entries) {
        Ok(v) => v,
        Err(e) => {
            return Err(e);
        },
    };
    let ghost sm = sorted_cand_model(entries@);
    proof {
        assert(lift_bars(sorted@).len() == sorted@.len());
    }
    // Typical prices, in sorted order.
    let n = sorted.len();
    let mut tp: Vec<(u64, i128)> = Vec::new();
    let mut i: usize = 0;
    while i < n
        invariant
            n == sorted@.len(),
            sm == lift_bars(sorted@),
            crate::bars::bars_within(sm, VAL_LIMIT as int),
            i <= n,
            tp@.len() == i,
            forall|k: int| 0 <= k < i ==> #[trigger] lift(tp@)[k] == typical_s(sm)[k],
            bounded(lift(tp@), VAL_LIMIT as int),
        decreases n - i,
    {
        proof {
            assert(iabs(sm[i as int].2) <= VAL_LIMIT as int && iabs(sm[i as int].3)
                <= VAL_LIMIT as int && iabs(sm[i as int].4) <= VAL_LIMIT as int);
        }
        let t3 = sorted[i].h + sorted[i].l + sorted[i].c;
        let q = div_i128(t3, 3);
        proof {
            lemma_tdiv_range(t3 as int, 3, -(VAL_LIMIT as int), VAL_LIMIT as int);
        }
        let ghost old_tp = tp@;
        tp.push((sorted[i].at, q));
        proof {
            assert(lift(tp@)[i as int] == typical_s(sm)[i as int]);
            assert(forall|k: int| 0 <= k < i ==> #[trigger] lift(tp@)[k] == lift(old_tp)[k]);
        }
        i += 1;
    }
    proof {
        assert(lift(tp@) =~= typical_s(sm));
    }
    let ghost tps = typical_s(sm);
    let d = duration;
    let mut out: Vec<(u64, i128)> = Vec::new();
    let mut w: usize = 0;
    while w <= n - d
        invariant
            1 <= d <= n,
            d == duration,
            n == tp@.len(),
            n == entries@.len(),
            all_candles_ok(entries@),
            sm == sorted_cand_model(entries@),
            tps == typical_s(sm),
            tps == lift(tp@),
            bounded(tps, VAL_LIMIT as int),
            forall|k: int| 0 <= k < tps.len() ==> #[trigger] tps[k].0 == sm[k].0,
            w <= n - d + 1,
            out@.len() == w,
            forall|j: int| 0 <= j < w ==> cci_defined(tps, j, d as int),
            forall|k: int| 0 <= k < w ==> #[trigger] lift(out@)[k] == cci_s(sm, d as int)[k],
        decreases n - d + 1 - w,
    {
        proof {
            assert((d as int) * (VAL_LIMIT as int) <= 0x4000_0000_0000_0000_0000_0000_0000_0000)
                by (nonlinear_arith)
                requires
                    d as int <= 0xffff_ffff_ffff_ffff,
            ;
        }
        let s = crate::series::sum_window_core(&tp, w, d, Ghost(VAL_LIMIT as int));
        let avg = div_i128(s, d as i128);
        proof {
            assert(-(VAL_LIMIT as int) * (d as int) <= s as int <= (VAL_LIMIT as int) * (d as int))
                by (nonlinear_arith)
                requires
                    iabs(s as int) <= (d as int) * (VAL_LIMIT as int),
            ;
            lemma_tdiv_range(s as int, d as int, -(VAL_LIMIT as int), VAL_LIMIT as int);
        }
        // Mean absolute deviation of the window.
        let end: usize = w + d;
        let mut dsum: i128 = 0;
        let mut j: usize = w;
        while j < end
            invariant
                w <= j <= end,
                end == w + d,
                end <= n == tp@.len(),
                tps == lift(tp@),
                bounded(tps, VAL_LIMIT as int),
                iabs(avg as int) <= VAL_LIMIT as int,
                dsum as int == absdev_sum(tps, w as int, j - w, avg as int),
                0 <= dsum as int <= (j - w) * (2 * (VAL_LIMIT as int)),
            decreases end - j,
        {
            proof {
                assert(iabs(tps[j as int].1) <= VAL_LIMIT as int);
                assert((j - w) * (2 * (VAL_LIMIT as int)) + 2 * (VAL_LIMIT as int) == (j - w + 1) * (
                2 * (VAL_LIMIT as int)) && (j - w + 1) * (2 * (VAL_LIMIT as int))
                    <= 0xffff_ffff_ffff_ffff * (2 * (VAL_LIMIT as int))) by (nonlinear_arith)
                    requires
                        0 <= j - w && j - w + 1 <= 0xffff_ffff_ffff_ffff,
                ;
            }
            let dev = tp[j].1 - avg;
            let adev = if dev >= 0 {
                dev
            } else {
                -dev
            };
            dsum = dsum + adev;
            j += 1;
        }
        let md = div_i128(dsum, d as i128);
        proof {
            assert(0 * (d as int) <= dsum as int <= (2 * (VAL_LIMIT as int)) * (d as int))
                by (nonlinear_arith)
                requires
                    0 <= dsum as int <= (d as int) * (2 * (VAL_LIMIT as int)),
            ;
            lemma_tdiv_range(dsum as int, d as int, 0, 2 * (VAL_LIMIT as int));
        }
        let den = div_i128(md * 15_000_000, SCALE);
        proof {
            lemma_tdiv_mag(md as int * 15_000_000, SCALE as int);
            assert(iabs(md as int * 15_000_000) <= 2 * (VAL_LIMIT as int) * 15_000_000)
                by (nonlinear_arith)
                requires
                    0 <= md as int <= 2 * (VAL_LIMIT as int),
            ;
        }
        if den == 0 {
            let e = Error::DividedByZero {
                at: tp[w + d - 1].0,
                field: "mean deviation".to_owned(),
            };
            proof {
                assert(!cci_defined(tps, w as int, d as int));
                assert(tps[w + d - 1].0 == sm[w + d - 1].0);
                assert(is_div_zero_err(e, sm[w + d - 1].0, "mean deviation"@));
                assert(0 <= w as int <= entries@.len() - duration && !cci_defined(
                    typical_s(sorted_cand_model(entries@)),
                    w as int,
                    duration as int,
                ) && (forall|j2: int|
                    0 <= j2 < w as int ==> cci_defined(
                        typical_s(sorted_cand_model(entries@)),
                        j2,
                        duration as int,
                    )) && is_div_zero_err(
                    e,
                    #[trigger] sorted_cand_model(entries@)[w + duration - 1].0,
                    "mean deviation"@,
                ));
            }
            return Err(e);
        }
        proof {
            assert(iabs((tps[w + d - 1].1 - avg as int) * (SCALE as int)) <= 2 * (VAL_LIMIT as int)
                * (SCALE as int)) by (nonlinear_arith)
                requires
                    iabs(tps[w + d - 1].1 - avg as int) <= 2 * (VAL_LIMIT as int),
            ;
            lemma_tdiv_mag((tps[w + d - 1].1 - avg as int) * (SCALE as int), den as int);
        }
        let num = (tp[w + d - 1].1 - avg) * SCALE;
        let q = div_i128(num, den);
        let ghost old_out = out@;
        out.push((tp[w + d - 1].0, q));
        proof {
            assert(lift(out@)[w as int] == cci_s(sm, d as int)[w as int]);
            assert(forall|k: int| 0 <= k < w ==> #[trigger] lift(out@)[k] == lift(old_out)[k]);
        }
        w += 1;
    }
    proof {
        assert(lift(out@) =~= cci_s(sm, d as int));
    }
    Ok(wrap_entries(out))
}

} // verus!
