//! Williams Fractals: the middle bar of each centered window is an "up"
//! fractal if its high strictly exceeds the highs on both sides, and a
//! "down" fractal symmetrically on lows; the trailing bars, which lack a
//! full trailing group, are emitted with both flags false.

use crate::bars::{
    lift_bars, max_high, min_low, prepare_candles, sorted_cand_model, window_extrema,
};
use crate::candlestick::{all_candles_ok, cand_values_within, is_candle_validation_err, Candlestick};
use crate::error::Error;
use crate::series::VAL_LIMIT;
use vstd::prelude::*;

verus! {

/// One fractal mark: whether the bar at `at` is an up or down fractal.
#[derive(Clone, Copy, Debug)]
pub struct WilliamsFractalsEntry {
    pub at: u64,
    pub up: bool,
    pub down: bool,
}

/// The fractal marks of the centered window whose middle sits at
/// position `k + d`.
pub open spec fn fractal_at(s: Seq<(u64, int, int, int, int, int)>, k: int, d: int) -> (bool, bool) {
    let mid = k + d;
    let up = max_high(s, k, k + d) < s[mid].2 && max_high(s, mid + 1, mid + 1 + d) < s[mid].2;
    let down = min_low(s, k, k + d) > s[mid].3 && min_low(s, mid + 1, mid + 1 + d) > s[mid].3;
    (up, down)
}

/// The Williams Fractals model of `s` with group width `d`: one entry per
/// bar from position `d` on — marked windows first, then the trailing `d`
/// bars with both flags false.
pub open spec fn fractals_s(s: Seq<(u64, int, int, int, int, int)>, d: int) -> Seq<
    (u64, bool, bool),
> {
    Seq::new(
        (s.len() - d) as nat,
        |k: int|
            if k < s.len() - 2 * d {
                (s[k + d].0, fractal_at(s, k, d).0, fractal_at(s, k, d).1)
            } else {
                (s[k + d].0, false, false)
            },
    )
}

/// `v` carries exactly the fractal model `m`.
pub open spec fn is_fractal_output(v: Seq<WilliamsFractalsEntry>, m: Seq<(u64, bool, bool)>) -> bool {
    &&& v.len() == m.len()
    &&& forall|i: int| 0 <= i < v.len() ==> (#[trigger] v[i]).at == m[i].0
    &&& forall|i: int| 0 <= i < v.len() ==> (#[trigger] v[i]).up == m[i].1
    &&& forall|i: int| 0 <= i < v.len() ==> (#[trigger] v[i]).down == m[i].2
}

/// Returns Williams Fractals for the given candlestick list.
///
/// A zero `duration` or too-short input yields an empty result; bars
/// with a full centered window get their marks, and every bar without a
/// full trailing group (all of them, when fewer than `2 * duration + 1`
/// bars exist) is emitted with both flags false.  An ill-formed scalar
/// fails the call with its timestamp and field.
pub fn williams_fractals(entries: &[Candlestick], duration: usize) -> (r: Result<
    Vec<WilliamsFractalsEntry>,
    Error,
>)
    requires
        cand_values_within(entries@, VAL_LIMIT as int),
    ensures
        duration == 0 || entries@.len() < duration ==> (r matches Ok(v) && v@.len() == 0),
        1 <= duration <= entries@.len() && all_candles_ok(entries@) ==> (r matches Ok(v)
            && is_fractal_output(v@, fractals_s(sorted_cand_model(entries@), duration as int))),
        1 <= duration <= entries@.len() && !all_candles_ok(entries@) ==> (r matches Err(e)
            && is_candle_validation_err(entries@, e)),
{
    if duration == 0 || entries.len() < duration {
        return Ok(Vec::new());
    }
    let sorted = match prepare_candles(entries) {
        Ok(v) => v,
        Err(e) => {
            return Err(e);
        },
    };
    let ghost sm = sorted_cand_model(entries@);
    proof {
        assert(lift_bars(sorted@).len() == sorted@.len());
    }
    let ghost goal = fractals_s(sm, duration as int);
    let d = duration;
    let n = sorted.len();
    let has_windows = d <= (n - 1) / 2;
    proof {
        vstd::arithmetic::div_mod::lemma_fundamental_div_mod(n - 1, 2);
        assert(has_windows <==> n >= 2 * d + 1);
    }
    let mut out: Vec<WilliamsFractalsEntry> = Vec::new();
    if has_windows {
        let mut k: usize = 0;
        while k < n - 2 * d
            invariant
                1 <= d,
                n >= 2 * d + 1,
                n == sorted@.len(),
                sm == lift_bars(sorted@),
                goal == fractals_s(sm, d as int),
                k <= n - 2 * d,
                out@.len() == k,
                forall|j: int|
                    0 <= j < k ==> (#[trigger] out@[j]).at == goal[j].0 && out@[j].up == goal[j].1
                        && out@[j].down == goal[j].2,
            decreases n - 2 * d - k,
        {
            let mid = k + d;
            let lead = window_extrema(&sorted, k, d);
            let trail = window_extrema(&sorted, mid + 1, d);
            let up = lead.0 < sorted[mid].h && trail.0 < sorted[mid].h;
            let down = lead.1 > sorted[mid].l && trail.1 > sorted[mid].l;
            out.push(WilliamsFractalsEntry { at: sorted[mid].at, up, down });
            proof {
                assert(out@[k as int].at == goal[k as int].0 && out@[k as int].up
                    == goal[k as int].1 && out@[k as int].down == goal[k as int].2);
            }
            k += 1;
        }
    }
    let t0: usize = if has_windows {
        n - d
    } else {
        d
    };
    let mut t: usize = t0;
    while t < n
        invariant
            1 <= d,
            d <= n == sorted@.len(),
            sm == lift_bars(sorted@),
            goal == fractals_s(sm, d as int),
            d <= t <= n,
            n - 2 * (d as int) <= t - d,
            out@.len() == t - d,
            forall|j: int|
                0 <= j < t - d ==> (#[trigger] out@[j]).at == goal[j].0 && out@[j].up == goal[j].1
                    && out@[j].down == goal[j].2,
        decreases n - t,
    {
        out.push(WilliamsFractalsEntry { at: sorted[t].at, up: false, down: false });
        proof {
            assert(out@[t - d].at == goal[t - d].0 && out@[t - d].up == goal[t - d].1 && out@[t
                - d].down == goal[t - d].2);
        }
        t += 1;
    }
    proof {
        assert(out@.len() == goal.len());
    }
    Ok(out)
}

} // verus!
