//! DMI (Directional Movement Index) with ADX.
//!
//! Per consecutive bar pair the directional movements and the true range
//! are computed, each Wilder-smoothed over a `2 * duration - 1` window;
//! the directional indicators, their normalized difference `DX`, and its
//! smoothing `ADX` follow.

use crate::bars::{lift_bars, prepare_candles, sorted_cand_model};
use crate::candlestick::{all_candles_ok, cand_values_within, is_candle_validation_err, Candlestick};
use crate::ema::{ema_alpha, ema_alpha_exec, ema_core, ema_s, lemma_ema_s_in};
use crate::error::{is_div_zero_err, Error};
use crate::fixed::{div_i128, iabs, lemma_tdiv_mag, lemma_tdiv_range, tdiv, Fixed, SCALE};
use crate::series::{bounded, lift, VAL_LIMIT};
use vstd::prelude::*;

verus! {

/// One DMI output: the directional indicators, their normalized
/// difference, and its smoothing.
#[derive(Clone, Copy, Debug)]
pub struct DmiEntry {
    pub at: u64,
    pub plus_di: Fixed,
    pub minus_di: Fixed,
    pub dx: Fixed,
    pub adx: Fixed,
}

/// The positive directional movement of the pair ending at `i`: the high
/// advance, kept only when strictly greater than the low decline (a tie
/// zeroes both movements).
pub open spec fn plus_dm_at(s: Seq<(u64, int, int, int, int, int)>, i: int) -> int {
    let up = if s[i].2 - s[i - 1].2 > 0 {
        s[i].2 - s[i - 1].2
    } else {
        0
    };
    let dn = if s[i - 1].3 - s[i].3 > 0 {
        s[i - 1].3 - s[i].3
    } else {
        0
    };
    if up > dn {
        up
    } else {
        0
    }
}

/// The negative directional movement of the pair ending at `i`: the low
/// decline, kept only when strictly greater than the high advance (a tie
/// zeroes both movements).
pub open spec fn minus_dm_at(s: Seq<(u64, int, int, int, int, int)>, i: int) -> int {
    let up = if s[i].2 - s[i - 1].2 > 0 {
        s[i].2 - s[i - 1].2
    } else {
        0
    };
    let dn = if s[i - 1].3 - s[i].3 > 0 {
        s[i - 1].3 - s[i].3
    } else {
        0
    };
    if dn > up {
        dn
    } else {
        0
    }
}

/// The true range of the pair ending at `i`: the largest of
/// `high - low`, `|high - prevClose|` and `|prevClose - low|`.
pub open spec fn dmi_tr_at(s: Seq<(u64, int, int, int, int, int)>, i: int) -> int {
    let r1 = s[i].2 - s[i].3;
    let r2 = iabs(s[i].2 - s[i - 1].4);
    let r3 = iabs(s[i - 1].4 - s[i].3);
    if r1 >= r2 && r1 >= r3 {
        r1
    } else if r2 >= r3 {
        r2
    } else {
        r3
    }
}

/// The pair series of one per-pair quantity, at the later bar's
/// timestamp.
pub open spec fn pair_series(
    s: Seq<(u64, int, int, int, int, int)>,
    f: spec_fn(Seq<(u64, int, int, int, int, int)>, int) -> int,
) -> Seq<(u64, int)> {
    if s.len() < 1 {
        Seq::empty()
    } else {
        Seq::new((s.len() - 1) as nat, |k: int| (s[k + 1].0, f(s, k + 1)))
    }
}

/// Wilder's smoothing window for the DMI passes.
pub open spec fn dmi_window(d: int) -> int {
    2 * d - 1
}

/// The smoothed true-range series.
pub open spec fn tr_ma_s(s: Seq<(u64, int, int, int, int, int)>, d: int) -> Seq<(u64, int)> {
    ema_s(pair_series(s, |t, i| dmi_tr_at(t, i)), dmi_window(d), ema_alpha(dmi_window(d)))
}

/// The smoothed positive-movement series.
pub open spec fn plus_ma_s(s: Seq<(u64, int, int, int, int, int)>, d: int) -> Seq<(u64, int)> {
    ema_s(pair_series(s, |t, i| plus_dm_at(t, i)), dmi_window(d), ema_alpha(dmi_window(d)))
}

/// The smoothed negative-movement series.
pub open spec fn minus_ma_s(s: Seq<(u64, int, int, int, int, int)>, d: int) -> Seq<(u64, int)> {
    ema_s(pair_series(s, |t, i| minus_dm_at(t, i)), dmi_window(d), ema_alpha(dmi_window(d)))
}

/// The positive directional indicator at smoothing position `i`.
pub open spec fn plus_di_at(s: Seq<(u64, int, int, int, int, int)>, d: int, i: int) -> int {
    tdiv(plus_ma_s(s, d)[i].1 * (SCALE as int), tr_ma_s(s, d)[i].1)
}

/// The negative directional indicator at smoothing position `i`.
pub open spec fn minus_di_at(s: Seq<(u64, int, int, int, int, int)>, d: int, i: int) -> int {
    tdiv(minus_ma_s(s, d)[i].1 * (SCALE as int), tr_ma_s(s, d)[i].1)
}

/// The normalized indicator difference at smoothing position `i`.
pub open spec fn dx_at(s: Seq<(u64, int, int, int, int, int)>, d: int, i: int) -> int {
    tdiv(
        iabs(plus_di_at(s, d, i) - minus_di_at(s, d, i)) * (SCALE as int),
        plus_di_at(s, d, i) + minus_di_at(s, d, i),
    )
}

/// Position `i` divides by nonzero smoothed range and indicator sum, so
/// its DMI values are defined.
pub open spec fn dmi_defined(s: Seq<(u64, int, int, int, int, int)>, d: int, i: int) -> bool {
    tr_ma_s(s, d)[i].1 != 0 && plus_di_at(s, d, i) + minus_di_at(s, d, i) != 0
}

/// The DX pair series.
pub open spec fn dx_pairs_s(s: Seq<(u64, int, int, int, int, int)>, d: int) -> Seq<(u64, int)> {
    Seq::new(tr_ma_s(s, d).len(), |i: int| (tr_ma_s(s, d)[i].0, dx_at(s, d, i)))
}

/// The smoothed DX series.
pub open spec fn adx_s(s: Seq<(u64, int, int, int, int, int)>, d: int) -> Seq<(u64, int)> {
    ema_s(dx_pairs_s(s, d), dmi_window(d), ema_alpha(dmi_window(d)))
}

/// The DMI model of `s` with window `d`: per entry
/// `(at, +DI, -DI, DX, ADX)`, one entry per element of the ADX
/// smoothing.
pub open spec fn dmi_s(s: Seq<(u64, int, int, int, int, int)>, d: int) -> Seq<
    (u64, int, int, int, int),
> {
    let adx = adx_s(s, d);
    let off = dmi_window(d) - 1;
    Seq::new(
        adx.len(),
        |j: int|
            (
                adx[j].0,
                plus_di_at(s, d, j + off),
                minus_di_at(s, d, j + off),
                dx_at(s, d, j + off),
                adx[j].1,
            ),
    )
}

/// `v` carries exactly the DMI model `m`.
pub open spec fn is_dmi_output(v: Seq<DmiEntry>, m: Seq<(u64, int, int, int, int)>) -> bool {
    &&& v.len() == m.len()
    &&& forall|i: int| 0 <= i < v.len() ==> (#[trigger] v[i]).at == m[i].0
    &&& forall|i: int| 0 <= i < v.len() ==> (#[trigger] v[i]).plus_di.m == m[i].1
    &&& forall|i: int| 0 <= i < v.len() ==> (#[trigger] v[i]).minus_di.m == m[i].2
    &&& forall|i: int| 0 <= i < v.len() ==> (#[trigger] v[i]).dx.m == m[i].3
    &&& forall|i: int| 0 <= i < v.len() ==> (#[trigger] v[i]).adx.m == m[i].4
}

/// The divide-by-zero error for position `i`: the smoothed range first,
/// then the indicator sum.
pub open spec fn is_dmi_div_err(
    s: Seq<(u64, int, int, int, int, int)>,
    d: int,
    i: int,
    e: Error,
) -> bool {
    if tr_ma_s(s, d)[i].1 == 0 {
        is_div_zero_err(e, tr_ma_s(s, d)[i].0, "tr"@)
    } else {
        is_div_zero_err(e, tr_ma_s(s, d)[i].0, "di"@)
    }
}

/// Returns DMI/ADX for the given candlestick list.
///
/// A zero `duration` or too-short input yields an empty result; an
/// ill-formed scalar fails the call with its timestamp and field; a
/// smoothing position whose smoothed true range or indicator sum is zero
/// fails the call with a divide-by-zero error at its timestamp (the
/// first such position, range before sum).
pub fn dmi(entries: &[Candlestick], duration: usize) -> (r: Result<Vec<DmiEntry>, Error>)
    requires
        cand_values_within(entries@, VAL_LIMIT as int),
    ensures
        duration == 0 || entries@.len() < duration ==> (r matches Ok(v) && v@.len() == 0),
        1 <= duration <= entries@.len() && all_candles_ok(entries@) && (forall|i: int|
            0 <= i < tr_ma_s(sorted_cand_model(entries@), duration as int).len() ==> dmi_defined(
                sorted_cand_model(entries@),
                duration as int,
                i,
            )) ==> (r matches Ok(v) && is_dmi_output(
            v@,
            dmi_s(sorted_cand_model(entries@), duration as int),
        )),
        1 <= duration <= entries@.len() && all_candles_ok(entries@) && !(forall|i: int|
            0 <= i < tr_ma_s(sorted_cand_model(entries@), duration as int).len() ==> dmi_defined(
                sorted_cand_model(entries@),
                duration as int,
                i,
            )) ==> (r matches Err(e) && exists|i: int|
            0 <= i < tr_ma_s(sorted_cand_model(entries@), duration as int).len() && !(
            #[trigger] dmi_defined(sorted_cand_model(entries@), duration as int, i)) && (forall|
                j: int,
            |
                0 <= j < i ==> dmi_defined(sorted_cand_model(entries@), duration as int, j))
                && is_dmi_div_err(sorted_cand_model(entries@), duration as int, i, e)),
        1 <= duration <= entries@.len() && !all_candles_ok(entries@) ==> (r matches Err(e)
            && is_candle_validation_err(entries@, e)),
{
    if duration == 0 || entries.len() < duration {
        return Ok(Vec::new());
    }
    let sorted = match prepare_candles(entries) {
        Ok(v) => v,
        Err(e) => {
            return Err(e);
        },
    };
    let ghost sm = sorted_cand_model(entries@);
    proof {
        assert(lift_bars(sorted@).len() == sorted@.len());
    }
    let n = sorted.len();
    if duration > usize::MAX / 2 {
        // The smoothing window exceeds any possible pair count, so every
        // smoothed series — and with it the result — is empty.
        proof {
            assert(pair_series(sm, |t: Seq<(u64, int, int, int, int, int)>, i: int| dmi_tr_at(t, i)).len()
                < dmi_window(duration as int));
            assert(tr_ma_s(sm, duration as int).len() == 0);
            assert(dx_pairs_s(sm, duration as int).len() == 0);
            assert(adx_s(sm, duration as int).len() == 0);
            assert(dmi_s(sm, duration as int).len() == 0);
        }
        return Ok(Vec::new());
    }
    let d2: usize = 2 * duration - 1;
    // Per-pair movements and true ranges, in sorted order.
    let mut pdm_v: Vec<(u64, i128)> = Vec::new();
    let mut mdm_v: Vec<(u64, i128)> = Vec::new();
    let mut tr_v: Vec<(u64, i128)> = Vec::new();
    let ghost pdm_p = pair_series(sm, |t: Seq<(u64, int, int, int, int, int)>, i: int| plus_dm_at(t, i));
    let ghost mdm_p = pair_series(sm, |t: Seq<(u64, int, int, int, int, int)>, i: int| minus_dm_at(t, i));
    let ghost tr_p = pair_series(sm, |t: Seq<(u64, int, int, int, int, int)>, i: int| dmi_tr_at(t, i));
    let mut i: usize = 1;
    while i < n
        invariant
            1 <= i <= n || (n == 0 && i == 1),
            n >= 1,
            n == sorted@.len(),
            sm == lift_bars(sorted@),
            crate::bars::bars_within(sm, VAL_LIMIT as int),
            pdm_p == pair_series(sm, |t: Seq<(u64, int, int, int, int, int)>, i2: int| plus_dm_at(t, i2)),
            mdm_p == pair_series(sm, |t: Seq<(u64, int, int, int, int, int)>, i2: int| minus_dm_at(t, i2)),
            tr_p == pair_series(sm, |t: Seq<(u64, int, int, int, int, int)>, i2: int| dmi_tr_at(t, i2)),
            pdm_v@.len() == i - 1,
            mdm_v@.len() == i - 1,
            tr_v@.len() == i - 1,
            forall|k: int| 0 <= k < i - 1 ==> #[trigger] lift(pdm_v@)[k] == pdm_p[k],
            forall|k: int| 0 <= k < i - 1 ==> #[trigger] lift(mdm_v@)[k] == mdm_p[k],
            forall|k: int| 0 <= k < i - 1 ==> #[trigger] lift(tr_v@)[k] == tr_p[k],
            forall|k: int|
                0 <= k < i - 1 ==> 0 <= #[trigger] lift(pdm_v@)[k].1 <= 2 * (VAL_LIMIT as int),
            forall|k: int|
                0 <= k < i - 1 ==> 0 <= #[trigger] lift(mdm_v@)[k].1 <= 2 * (VAL_LIMIT as int),
            forall|k: int|
                0 <= k < i - 1 ==> 0 <= #[trigger] lift(tr_v@)[k].1 <= 2 * (VAL_LIMIT as int),
        decreases n - i,
    {
        proof {
            assert(iabs(sm[i as int].2) <= VAL_LIMIT as int && iabs(sm[i as int].3)
                <= VAL_LIMIT as int && iabs(sm[i - 1].2) <= VAL_LIMIT as int && iabs(sm[i - 1].3)
                <= VAL_LIMIT as int && iabs(sm[i - 1].4) <= VAL_LIMIT as int);
        }
        let up_d = sorted[i].h - sorted[i - 1].h;
        let up = if up_d > 0 {
            up_d
        } else {
            0
        };
        let dn_d = sorted[i - 1].l - sorted[i].l;
        let dn = if dn_d > 0 {
            dn_d
        } else {
            0
        };
        let pdm = if up > dn {
            up
        } else {
            0
        };
        let mdm = if dn > up {
            dn
        } else {
            0
        };
        let r1 = sorted[i].h - sorted[i].l;
        let r2d = sorted[i].h - sorted[i - 1].c;
        let r2 = if r2d >= 0 {
            r2d
        } else {
            -r2d
        };
        let r3d = sorted[i - 1].c - sorted[i].l;
        let r3 = if r3d >= 0 {
            r3d
        } else {
            -r3d
        };
        let tr = if r1 >= r2 && r1 >= r3 {
            r1
        } else if r2 >= r3 {
            r2
        } else {
            r3
        };
        let ghost old_p = pdm_v@;
        let ghost old_m = mdm_v@;
        let ghost old_t = tr_v@;
        let at = sorted[i].at;
        pdm_v.push((at, pdm));
        mdm_v.push((at, mdm));
        tr_v.push((at, tr));
        proof {
            assert(lift(pdm_v@)[i - 1] == pdm_p[i - 1]);
            assert(lift(mdm_v@)[i - 1] == mdm_p[i - 1]);
            assert(lift(tr_v@)[i - 1] == tr_p[i - 1]);
            assert(forall|k: int| 0 <= k < i - 1 ==> #[trigger] lift(pdm_v@)[k] == lift(old_p)[k]);
            assert(forall|k: int| 0 <= k < i - 1 ==> #[trigger] lift(mdm_v@)[k] == lift(old_m)[k]);
            assert(forall|k: int| 0 <= k < i - 1 ==> #[trigger] lift(tr_v@)[k] == lift(old_t)[k]);
        }
        i += 1;
    }
    proof {
        assert(lift(pdm_v@) =~= pdm_p);
        assert(lift(mdm_v@) =~= mdm_p);
        assert(lift(tr_v@) =~= tr_p);
        assert(bounded(lift(pdm_v@), crate::series::CORE_LIMIT as int));
        assert(bounded(lift(mdm_v@), crate::series::CORE_LIMIT as int));
        assert(bounded(lift(tr_v@), crate::series::CORE_LIMIT as int));
    }
    let alpha2 = ema_alpha_exec(d2);
    let pma = ema_core(&pdm_v, d2, alpha2);
    let mma = ema_core(&mdm_v, d2, alpha2);
    let tma = ema_core(&tr_v, d2, alpha2);
    proof {
        lemma_ema_s_in(pdm_p, d2 as int, ema_alpha(d2 as int), 0, 2 * (VAL_LIMIT as int));
        lemma_ema_s_in(mdm_p, d2 as int, ema_alpha(d2 as int), 0, 2 * (VAL_LIMIT as int));
        lemma_ema_s_in(tr_p, d2 as int, ema_alpha(d2 as int), 0, 2 * (VAL_LIMIT as int));
        assert(lift(tma@) == tr_ma_s(sm, duration as int));
        assert(lift(pma@) == plus_ma_s(sm, duration as int));
        assert(lift(mma@) == minus_ma_s(sm, duration as int));
    }
    // Directional indicators and DX, failing at the first zero divisor.
    let m = tma.len();
    let mut pdis: Vec<(u64, i128)> = Vec::new();
    let mut mdis: Vec<(u64, i128)> = Vec::new();
    let mut dxs: Vec<(u64, i128)> = Vec::new();
    let mut w: usize = 0;
    while w < m
        invariant
            m == tma@.len(),
            m == pma@.len(),
            m == mma@.len(),
            n == entries@.len(),
            1 <= duration <= n,
            d2 as int == dmi_window(duration as int),
            all_candles_ok(entries@),
            sm == sorted_cand_model(entries@),
            lift(tma@) == tr_ma_s(sm, duration as int),
            lift(pma@) == plus_ma_s(sm, duration as int),
            lift(mma@) == minus_ma_s(sm, duration as int),
            forall|k: int|
                0 <= k < m ==> 0 <= #[trigger] lift(tma@)[k].1 <= 2 * (VAL_LIMIT as int),
            forall|k: int|
                0 <= k < m ==> 0 <= #[trigger] lift(pma@)[k].1 <= 2 * (VAL_LIMIT as int),
            forall|k: int|
                0 <= k < m ==> 0 <= #[trigger] lift(mma@)[k].1 <= 2 * (VAL_LIMIT as int),
            w <= m,
            pdis@.len() == w,
            mdis@.len() == w,
            dxs@.len() == w,
            forall|j: int| 0 <= j < w ==> dmi_defined(sm, duration as int, j),
            forall|k: int|
                0 <= k < w ==> #[trigger] lift(pdis@)[k] == (tr_ma_s(sm, duration as int)[k].0,
                plus_di_at(sm, duration as int, k)),
            forall|k: int|
                0 <= k < w ==> #[trigger] lift(mdis@)[k] == (tr_ma_s(sm, duration as int)[k].0,
                minus_di_at(sm, duration as int, k)),
            forall|k: int| 0 <= k < w ==> #[trigger] lift(dxs@)[k] == dx_pairs_s(sm, duration as int)[k],
            forall|k: int| 0 <= k < w ==> 0 <= #[trigger] lift(dxs@)[k].1 <= SCALE as int,
        decreases m - w,
    {
        let trv = tma[w].1;
        if trv == 0 {
            let e = Error::DividedByZero { at: tma[w].0, field: "tr".to_owned() };
            proof {
                assert(tr_ma_s(sm, duration as int)[w as int].1 == 0);
                assert(!dmi_defined(sm, duration as int, w as int));
                assert(is_dmi_div_err(sm, duration as int, w as int, e));
            }
            return Err(e);
        }
        proof {
            assert(iabs(lift(pma@)[w as int].1 * (SCALE as int)) <= 2 * (VAL_LIMIT as int) * (
            SCALE as int) && iabs(lift(mma@)[w as int].1 * (SCALE as int)) <= 2 * (VAL_LIMIT as int)
                * (SCALE as int)) by (nonlinear_arith)
                requires
                    0 <= lift(pma@)[w as int].1 <= 2 * (VAL_LIMIT as int) && 0 <= lift(
                        mma@,
                    )[w as int].1 <= 2 * (VAL_LIMIT as int),
            ;
            assert(0 * (trv as int) <= lift(pma@)[w as int].1 * (SCALE as int))
                by (nonlinear_arith)
                requires
                    0 <= lift(pma@)[w as int].1,
            ;
            assert(0 * (trv as int) <= lift(mma@)[w as int].1 * (SCALE as int))
                by (nonlinear_arith)
                requires
                    0 <= lift(mma@)[w as int].1,
            ;
            lemma_tdiv_mag(lift(pma@)[w as int].1 * (SCALE as int), trv as int);
            lemma_tdiv_mag(lift(mma@)[w as int].1 * (SCALE as int), trv as int);
            assert(0 <= trv as int <= 2 * (VAL_LIMIT as int)) by {
                assert(lift(tma@)[w as int].1 == trv as int);
            }
        }
        let pdi = div_i128(pma[w].1 * SCALE, trv);
        let mdi = div_i128(mma[w].1 * SCALE, trv);
        proof {
            assert(pdi >= 0 && mdi >= 0) by {
                assert(tdiv(lift(pma@)[w as int].1 * (SCALE as int), trv as int) >= 0);
                assert(tdiv(lift(mma@)[w as int].1 * (SCALE as int), trv as int) >= 0);
            }
        }
        let dsum = pdi + mdi;
        if dsum == 0 {
            let e = Error::DividedByZero { at: tma[w].0, field: "di".to_owned() };
            proof {
                assert(!dmi_defined(sm, duration as int, w as int));
                assert(is_dmi_div_err(sm, duration as int, w as int, e));
            }
            return Err(e);
        }
        let dd = if pdi >= mdi {
            pdi - mdi
        } else {
            mdi - pdi
        };
        proof {
            assert(0 * (dsum as int) <= (dd as int) * (SCALE as int) <= (SCALE as int) * (
            dsum as int)) by (nonlinear_arith)
                requires
                    0 <= dd as int <= dsum as int,
            ;
            lemma_tdiv_range((dd as int) * (SCALE as int), dsum as int, 0, SCALE as int);
        }
        let dx = div_i128(dd * SCALE, dsum);
        let at = tma[w].0;
        let ghost old_pd = pdis@;
        let ghost old_md = mdis@;
        let ghost old_dx = dxs@;
        pdis.push((at, pdi));
        mdis.push((at, mdi));
        dxs.push((at, dx));
        proof {
            assert(lift(pdis@)[w as int] == (tr_ma_s(sm, duration as int)[w as int].0, plus_di_at(
                sm,
                duration as int,
                w as int,
            )));
            assert(lift(mdis@)[w as int] == (tr_ma_s(sm, duration as int)[w as int].0, minus_di_at(
                sm,
                duration as int,
                w as int,
            )));
            assert(lift(dxs@)[w as int] == dx_pairs_s(sm, duration as int)[w as int]);
            assert(forall|k: int| 0 <= k < w ==> #[trigger] lift(pdis@)[k] == lift(old_pd)[k]);
            assert(forall|k: int| 0 <= k < w ==> #[trigger] lift(mdis@)[k] == lift(old_md)[k]);
            assert(forall|k: int| 0 <= k < w ==> #[trigger] lift(dxs@)[k] == lift(old_dx)[k]);
        }
        w += 1;
    }
    proof {
        assert(lift(dxs@) =~= dx_pairs_s(sm, duration as int));
        assert(bounded(lift(dxs@), crate::series::CORE_LIMIT as int));
    }
    let adxs = ema_core(&dxs, d2, alpha2);
    proof {
        assert(lift(adxs@) == adx_s(sm, duration as int));
        if adxs@.len() > 0 {
            assert(lift(dxs@).len() >= d2);
            assert(lift(adxs@).len() == lift(dxs@).len() - d2 + 1);
        }
    }
    let ghost goal = dmi_s(sm, duration as int);
    let na = adxs.len();
    let mut out: Vec<DmiEntry> = Vec::new();
    let mut j: usize = 0;
    while j < na
        invariant
            1 <= d2,
            na == adxs@.len(),
            m == pdis@.len(),
            m == mdis@.len(),
            m == dxs@.len(),
            na > 0 ==> na + d2 - 1 <= m,
            goal == Seq::new(
                lift(adxs@).len(),
                |j2: int| (lift(adxs@)[j2].0, lift(pdis@)[j2 + d2 - 1].1, lift(mdis@)[j2 + d2
                    - 1].1, lift(dxs@)[j2 + d2 - 1].1, lift(adxs@)[j2].1),
            ),
            j <= na,
            out@.len() == j,
            forall|k: int|
                0 <= k < j ==> (#[trigger] out@[k]).at == goal[k].0 && out@[k].plus_di.m
                    == goal[k].1 && out@[k].minus_di.m == goal[k].2 && out@[k].dx.m == goal[k].3
                    && out@[k].adx.m == goal[k].4,
        decreases na - j,
    {
        let p = j + d2 - 1;
        out.push(
            DmiEntry {
                at: adxs[j].0,
                plus_di: Fixed { m: pdis[p].1 },
                minus_di: Fixed { m: mdis[p].1 },
                dx: Fixed { m: dxs[p].1 },
                adx: Fixed { m: adxs[j].1 },
            },
        );
        j += 1;
    }
    proof {
        assert(out@.len() == goal.len());
    }
    Ok(out)
}

} // verus!
