//! Stochastics.
//!
//! `%K = (close - lowestLow) / (highestHigh - lowestLow) * 100` per
//! window, `%D` its SMA; the slow variant smooths `%D` once more.

use crate::bars::{
    lift_bars, max_high, min_low, prepare_candles, sorted_cand_model, window_extrema, Bar,
};
use crate::candlestick::{all_candles_ok, cand_values_within, is_candle_validation_err, Candlestick};
use crate::error::Error;
use crate::fixed::{div_i128, iabs, lemma_tdiv_mag, tdiv, Fixed, Scalar, SCALE};
use crate::index_entry::IndexEntryLike;
use crate::series::{bounded, lift, VAL_LIMIT};
use crate::sma::{sma_core, sma_s};
use vstd::prelude::*;

verus! {

/// Largest `%K` mantissa a window of in-range bars can produce.
pub const K_LIMIT: i128 = 200_000_000_000_000_000_000_000_000_000;

/// Largest smoothing window of the `%D` passes.
pub const STOCH_DURATION_LIMIT: usize = 100_000_000;

/// One fast-stochastics output: `%K` and its smoothing `%D`.
#[derive(Clone, Copy, Debug)]
pub struct StochasticsEntry {
    pub at: u64,
    /// %K
    pub k: Fixed,
    /// %D
    pub d: Fixed,
}

impl IndexEntryLike for StochasticsEntry {
    open spec fn at_of(&self) -> u64 {
        self.at
    }

    open spec fn value_of(&self) -> Scalar {
        Scalar::Num(self.k)
    }

    fn get_at(&self) -> u64 {
        self.at
    }

    fn get_value(&self) -> Scalar {
        Scalar::Num(self.k)
    }
}

/// One slow-stochastics output: `%K`, `%D`, and the slow `%D`.
#[derive(Clone, Copy, Debug)]
pub struct SlowStochasticsEntry {
    pub at: u64,
    /// %K
    pub k: Fixed,
    /// %D
    pub d: Fixed,
    /// Slow%D
    pub sd: Fixed,
}

impl IndexEntryLike for SlowStochasticsEntry {
    open spec fn at_of(&self) -> u64 {
        self.at
    }

    open spec fn value_of(&self) -> Scalar {
        Scalar::Num(self.d)
    }

    fn get_at(&self) -> u64 {
        self.at
    }

    fn get_value(&self) -> Scalar {
        Scalar::Num(self.d)
    }
}

/// The `%K` value of the window `[k, k + d)`.
pub open spec fn stoch_k_at(s: Seq<(u64, int, int, int, int, int)>, k: int, d: int) -> int {
    let hi = max_high(s, k, k + d);
    let lo = min_low(s, k, k + d);
    if hi - lo == 0 {
        0
    } else {
        tdiv((s[k + d - 1].4 - lo) * (SCALE as int), hi - lo) * 100
    }
}

/// The `%K` series of `s` with window `d`.
pub open spec fn stoch_k_s(s: Seq<(u64, int, int, int, int, int)>, d: int) -> Seq<(u64, int)> {
    if d < 1 || s.len() < d {
        Seq::empty()
    } else {
        Seq::new((s.len() - d + 1) as nat, |k: int| (s[k + d - 1].0, stoch_k_at(s, k, d)))
    }
}

/// The fast stochastics model: per entry `(at, %K, %D)`, one entry per
/// element of the `%D` smoothing.
pub open spec fn stochastics_s(s: Seq<(u64, int, int, int, int, int)>, dk: int, dd: int) -> Seq<
    (u64, int, int),
> {
    let ks = stoch_k_s(s, dk);
    let ds = sma_s(ks, dd);
    Seq::new(ds.len(), |j: int| (ds[j].0, ks[j + dd - 1].1, ds[j].1))
}

/// The slow stochastics model: per entry `(at, %K, %D, Slow%D)`.
pub open spec fn slow_stochastics_s(
    s: Seq<(u64, int, int, int, int, int)>,
    dk: int,
    dd: int,
    dsd: int,
) -> Seq<(u64, int, int, int)> {
    let ks = stoch_k_s(s, dk);
    let ds = sma_s(ks, dd);
    let sds = sma_s(ds, dsd);
    Seq::new(
        sds.len(),
        |j: int| (sds[j].0, ks[j + dd - 1 + dsd - 1].1, ds[j + dsd - 1].1, sds[j].1),
    )
}

/// `v` carries exactly the fast model `m`.
pub open spec fn is_stoch_output(v: Seq<StochasticsEntry>, m: Seq<(u64, int, int)>) -> bool {
    &&& v.len() == m.len()
    &&& forall|i: int| 0 <= i < v.len() ==> (#[trigger] v[i]).at == m[i].0
    &&& forall|i: int| 0 <= i < v.len() ==> (#[trigger] v[i]).k.m == m[i].1
    &&& forall|i: int| 0 <= i < v.len() ==> (#[trigger] v[i]).d.m == m[i].2
}

/// `v` carries exactly the slow model `m`.
pub open spec fn is_slow_stoch_output(
    v: Seq<SlowStochasticsEntry>,
    m: Seq<(u64, int, int, int)>,
) -> bool {
    &&& v.len() == m.len()
    &&& forall|i: int| 0 <= i < v.len() ==> (#[trigger] v[i]).at == m[i].0
    &&& forall|i: int| 0 <= i < v.len() ==> (#[trigger] v[i]).k.m == m[i].1
    &&& forall|i: int| 0 <= i < v.len() ==> (#[trigger] v[i]).d.m == m[i].2
    &&& forall|i: int| 0 <= i < v.len() ==> (#[trigger] v[i]).sd.m == m[i].3
}

/// The `%K` series of already validated, sorted bars.
pub(crate) fn stoch_k_core(xs: &Vec<Bar>, d: usize) -> (r: Vec<(u64, i128)>)
    requires
        1 <= d <= xs@.len(),
        crate::bars::bars_within(lift_bars(xs@), VAL_LIMIT as int),
    ensures
        lift(r@) == stoch_k_s(lift_bars(xs@), d as int),
        bounded(lift(r@), K_LIMIT as int),
{
    let ghost sm = lift_bars(xs@);
    let n = xs.len();
    let mut out: Vec<(u64, i128)> = Vec::new();
    let mut i: usize = 0;
    while i <= n - d
        invariant
            1 <= d <= n,
            n == xs@.len(),
            sm == lift_bars(xs@),
            crate::bars::bars_within(sm, VAL_LIMIT as int),
            i <= n - d + 1,
            out@.len() == i,
            forall|k: int| 0 <= k < i ==> #[trigger] lift(out@)[k] == stoch_k_s(sm, d as int)[k],
            bounded(lift(out@), K_LIMIT as int),
        decreases n - d + 1 - i,
    {
        let ex = window_extrema(xs, i, d);
        let hi = ex.0;
        let lo = ex.1;
        proof {
            crate::bars::lemma_extrema_bounds(sm, i as int, i + d, VAL_LIMIT as int);
            assert(iabs(sm[i + d - 1].4) <= VAL_LIMIT as int);
        }
        let c = xs[i + d - 1].c;
        let val: i128 = if hi - lo == 0 {
            0
        } else {
            proof {
                assert(iabs((c as int - lo as int) * (SCALE as int)) <= 2 * (VAL_LIMIT as int) * (
                SCALE as int)) by (nonlinear_arith)
                    requires
                        iabs(c as int - lo as int) <= 2 * (VAL_LIMIT as int),
                ;
                lemma_tdiv_mag((c as int - lo as int) * (SCALE as int), hi as int - lo as int);
            }
            let q = div_i128((c - lo) * SCALE, hi - lo);
            q * 100
        };
        let ghost old_out = out@;
        out.push((xs[i + d - 1].at, val));
        proof {
            assert(lift(out@)[i as int] == stoch_k_s(sm, d as int)[i as int]);
            assert(forall|k: int| 0 <= k < i ==> #[trigger] lift(out@)[k] == lift(old_out)[k]);
        }
        i += 1;
    }
    proof {
        assert(lift(out@) =~= stoch_k_s(sm, d as int));
    }
    out
}

/// Returns fast Stochastics for the given candlestick list: `%K` per
/// window and `%D` its SMA, aligned by windowing position.  A zero
/// window or too-short input yields an empty result; an ill-formed
/// scalar fails the call with its timestamp and field.
pub fn stochastics(entries: &[Candlestick], duration_k: usize, duration_d: usize) -> (r: Result<
    Vec<StochasticsEntry>,
    Error,
>)
    requires
        cand_values_within(entries@, VAL_LIMIT as int),
        duration_k == 0 || duration_d == 0 || entries@.len() < duration_k || duration_d
            <= STOCH_DURATION_LIMIT,
    ensures
        duration_k == 0 || duration_d == 0 || entries@.len() < duration_k ==> (r matches Ok(v)
            && v@.len() == 0),
        1 <= duration_k <= entries@.len() && 1 <= duration_d && all_candles_ok(entries@) ==> (
        r matches Ok(v) && is_stoch_output(
            v@,
            stochastics_s(sorted_cand_model(entries@), duration_k as int, duration_d as int),
        )),
        1 <= duration_k <= entries@.len() && 1 <= duration_d && !all_candles_ok(entries@) ==> (
        r matches Err(e) && is_candle_validation_err(entries@, e)),
{
    if duration_k == 0 || duration_d == 0 || entries.len() < duration_k {
        return Ok(Vec::new());
    }
    let sorted = match prepare_candles(entries) {
        Ok(v) => v,
        Err(e) => {
            return Err(e);
        },
    };
    let ghost sm = sorted_cand_model(entries@);
    proof {
        assert(lift_bars(sorted@).len() == sorted@.len());
    }
    let ks = stoch_k_core(&sorted, duration_k);
    let ghost goal = stochastics_s(sm, duration_k as int, duration_d as int);
    if ks.len() < duration_d {
        proof {
            assert(goal.len() == 0);
        }
        return Ok(Vec::new());
    }
    proof {
        assert((duration_d as int) * (K_LIMIT as int)
            <= 0x4000_0000_0000_0000_0000_0000_0000_0000) by (nonlinear_arith)
            requires
                duration_d as int <= 100_000_000,
        ;
    }
    let ds = sma_core(&ks, duration_d, Ghost(K_LIMIT as int));
    let n = ds.len();
    let m = ks.len();
    let mut out: Vec<StochasticsEntry> = Vec::new();
    let mut j: usize = 0;
    while j < n
        invariant
            1 <= duration_d,
            n == ds@.len(),
            m == ks@.len(),
            n + duration_d - 1 <= m,
            goal == Seq::new(
                lift(ds@).len(),
                |k: int| (lift(ds@)[k].0, lift(ks@)[k + duration_d - 1].1, lift(ds@)[k].1),
            ),
            j <= n,
            out@.len() == j,
            forall|k: int|
                0 <= k < j ==> (#[trigger] out@[k]).at == goal[k].0 && out@[k].k.m == goal[k].1
                    && out@[k].d.m == goal[k].2,
        decreases n - j,
    {
        let p = j + duration_d - 1;
        out.push(
            StochasticsEntry { at: ds[j].0, k: Fixed { m: ks[p].1 }, d: Fixed { m: ds[j].1 } },
        );
        j += 1;
    }
    proof {
        assert(out@.len() == goal.len());
    }
    Ok(out)
}

/// Returns slow Stochastics for the given candlestick list: fast
/// stochastics plus one further SMA of `%D`.  A zero window or too-short
/// input yields an empty result; an ill-formed scalar fails the call
/// with its timestamp and field.
pub fn slow_stochastics(
    entries: &[Candlestick],
    duration_k: usize,
    duration_d: usize,
    duration_sd: usize,
) -> (r: Result<Vec<SlowStochasticsEntry>, Error>)
    requires
        cand_values_within(entries@, VAL_LIMIT as int),
        duration_k == 0 || duration_d == 0 || duration_sd == 0 || entries@.len() < duration_k || (
        duration_d <= STOCH_DURATION_LIMIT && duration_sd <= STOCH_DURATION_LIMIT),
    ensures
        duration_k == 0 || duration_d == 0 || duration_sd == 0 || entries@.len() < duration_k ==> (
        r matches Ok(v) && v@.len() == 0),
        1 <= duration_k <= entries@.len() && 1 <= duration_d && 1 <= duration_sd && all_candles_ok(
            entries@,
        ) ==> (r matches Ok(v) && is_slow_stoch_output(
            v@,
            slow_stochastics_s(
                sorted_cand_model(entries@),
                duration_k as int,
                duration_d as int,
                duration_sd as int,
            ),
        )),
        1 <= duration_k <= entries@.len() && 1 <= duration_d && 1 <= duration_sd
            && !all_candles_ok(entries@) ==> (r matches Err(e) && is_candle_validation_err(
            entries@,
            e,
        )),
{
    if duration_k == 0 || duration_d == 0 || duration_sd == 0 || entries.len() < duration_k {
        return Ok(Vec::new());
    }
    let sorted = match prepare_candles(entries) {
        Ok(v) => v,
        Err(e) => {
            return Err(e);
        },
    };
    let ghost sm = sorted_cand_model(entries@);
    proof {
        assert(lift_bars(sorted@).len() == sorted@.len());
    }
    let ks = stoch_k_core(&sorted, duration_k);
    let ghost goal = slow_stochastics_s(
        sm,
        duration_k as int,
        duration_d as int,
        duration_sd as int,
    );
    if ks.len() < duration_d {
        proof {
            assert(goal.len() == 0);
        }
        return Ok(Vec::new());
    }
    proof {
        assert((duration_d as int) * (K_LIMIT as int)
            <= 0x4000_0000_0000_0000_0000_0000_0000_0000 && (duration_sd as int) * (K_LIMIT as int)
            <= 0x4000_0000_0000_0000_0000_0000_0000_0000) by (nonlinear_arith)
            requires
                duration_d as int <= 100_000_000 && duration_sd as int <= 100_000_000,
        ;
    }
    let ds = sma_core(&ks, duration_d, Ghost(K_LIMIT as int));
    if ds.len() < duration_sd {
        proof {
            assert(goal.len() == 0);
        }
        return Ok(Vec::new());
    }
    let sds = sma_core(&ds, duration_sd, Ghost(K_LIMIT as int));
    let n = sds.len();
    let m2 = ds.len();
    let m1 = ks.len();
    let mut out: Vec<SlowStochasticsEntry> = Vec::new();
    let mut j: usize = 0;
    while j < n
        invariant
            1 <= duration_d,
            1 <= duration_sd,
            n == sds@.len(),
            m2 == ds@.len(),
            m1 == ks@.len(),
            n + duration_sd - 1 <= m2,
            m2 + duration_d - 1 <= m1,
            goal == Seq::new(
                lift(sds@).len(),
                |k: int| (lift(sds@)[k].0, lift(ks@)[k + duration_d - 1 + duration_sd - 1].1, lift(
                    ds@,
                )[k + duration_sd - 1].1, lift(sds@)[k].1),
            ),
            j <= n,
            out@.len() == j,
            forall|k: int|
                0 <= k < j ==> (#[trigger] out@[k]).at == goal[k].0 && out@[k].k.m == goal[k].1
                    && out@[k].d.m == goal[k].2 && out@[k].sd.m == goal[k].3,
        decreases n - j,
    {
        let p2 = j + duration_sd - 1;
        let p1 = p2 + duration_d - 1;
        out.push(
            SlowStochasticsEntry {
                at: sds[j].0,
                k: Fixed { m: ks[p1].1 },
                d: Fixed { m: ds[p2].1 },
                sd: Fixed { m: sds[j].1 },
            },
        );
        j += 1;
    }
    proof {
        assert(out@.len() == goal.len());
    }
    Ok(out)
}

} // verus!
