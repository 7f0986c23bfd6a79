//! Heikin Ashi: reconstructs the candle sequence — the first candle is
//! kept, and each later one opens at the midpoint of the previous
//! reconstructed body and closes at the mean of its own four prices.

use crate::bars::{lift_bars, prepare_candles, sorted_cand_model};
use crate::candlestick::{all_candles_ok, cand_values_within, is_candle_validation_err, Candlestick};
use crate::error::Error;
use crate::fixed::{div_i128, iabs, lemma_tdiv_range, tdiv, Fixed, Scalar};
use crate::series::VAL_LIMIT;
use vstd::prelude::*;

verus! {

/// The reconstructed close at position `i`: the mean of the original
/// bar's four prices (the first bar keeps its close).
pub open spec fn ha_close(s: Seq<(u64, int, int, int, int, int)>, i: int) -> int {
    if i <= 0 {
        s[0].4
    } else {
        tdiv(s[i].1 + s[i].4 + s[i].2 + s[i].3, 4)
    }
}

/// The reconstructed open at position `i`: the midpoint of the previous
/// reconstructed body (the first bar keeps its open).
pub open spec fn ha_open(s: Seq<(u64, int, int, int, int, int)>, i: int) -> int
    decreases i,
{
    if i <= 0 {
        s[0].1
    } else {
        tdiv(ha_open(s, i - 1) + ha_close(s, i - 1), 2)
    }
}

/// The Heikin Ashi model of `s`: reconstructed opens and closes, highs,
/// lows and volumes kept.
pub open spec fn heikin_ashi_s(s: Seq<(u64, int, int, int, int, int)>) -> Seq<
    (u64, int, int, int, int, int),
> {
    Seq::new(s.len(), |i: int| (s[i].0, ha_open(s, i), s[i].2, s[i].3, ha_close(s, i), s[i].5))
}

/// `v` carries exactly the candle model `m`, every field finite.
pub open spec fn is_cand_output(v: Seq<Candlestick>, m: Seq<(u64, int, int, int, int, int)>) -> bool {
    &&& v.len() == m.len()
    &&& forall|i: int| 0 <= i < v.len() ==> crate::candlestick::cand_ok(#[trigger] v[i])
    &&& forall|i: int|
        0 <= i < v.len() ==> crate::candlestick::cand_model(#[trigger] v[i]) == m[i]
}

/// Reconstructed prices stay within the bound of their inputs.
proof fn lemma_ha_bounds(s: Seq<(u64, int, int, int, int, int)>, i: int, b: int)
    requires
        0 <= i < s.len(),
        0 <= b,
        crate::bars::bars_within(s, b),
    ensures
        iabs(ha_open(s, i)) <= b,
        iabs(ha_close(s, i)) <= b,
    decreases i,
{
    if i <= 0 {
        assert(iabs(s[0].1) <= b && iabs(s[0].4) <= b);
    } else {
        lemma_ha_bounds(s, i - 1, b);
        lemma_tdiv_range(ha_open(s, i - 1) + ha_close(s, i - 1), 2, -b, b);
        assert(iabs(s[i].1) <= b && iabs(s[i].2) <= b && iabs(s[i].3) <= b && iabs(s[i].4) <= b);
        lemma_tdiv_range(s[i].1 + s[i].4 + s[i].2 + s[i].3, 4, -b, b);
    }
}

/// Returns the Heikin Ashi reconstruction of the given candlestick list,
/// sorted ascending by timestamp.  An ill-formed scalar fails the call
/// with its timestamp and field.
pub fn heikin_ashi(entries: &[Candlestick]) -> (r: Result<Vec<Candlestick>, Error>)
    requires
        cand_values_within(entries@, VAL_LIMIT as int),
    ensures
        all_candles_ok(entries@) ==> (r matches Ok(v) && is_cand_output(
            v@,
            heikin_ashi_s(sorted_cand_model(entries@)),
        )),
        !all_candles_ok(entries@) ==> (r matches Err(e) && is_candle_validation_err(entries@, e)),
{
    let sorted = match prepare_candles(entries) {
        Ok(v) => v,
        Err(e) => {
            return Err(e);
        },
    };
    let ghost sm = sorted_cand_model(entries@);
    proof {
        assert(lift_bars(sorted@).len() == sorted@.len());
    }
    let ghost goal = heikin_ashi_s(sm);
    let n = sorted.len();
    let mut out: Vec<Candlestick> = Vec::new();
    let mut prev_o: i128 = 0;
    let mut prev_c: i128 = 0;
    let mut i: usize = 0;
    while i < n
        invariant
            n == sorted@.len(),
            sm == lift_bars(sorted@),
            crate::bars::bars_within(sm, VAL_LIMIT as int),
            goal == heikin_ashi_s(sm),
            i <= n,
            out@.len() == i,
            i > 0 ==> prev_o as int == ha_open(sm, i - 1) && prev_c as int == ha_close(sm, i - 1)
                && iabs(prev_o as int) <= VAL_LIMIT as int && iabs(prev_c as int)
                <= VAL_LIMIT as int,
            forall|k: int|
                0 <= k < i ==> crate::candlestick::cand_ok(#[trigger] out@[k])
                    && crate::candlestick::cand_model(out@[k]) == goal[k],
        decreases n - i,
    {
        let b = sorted[i];
        proof {
            assert(iabs(sm[i as int].1) <= VAL_LIMIT as int && iabs(sm[i as int].2)
                <= VAL_LIMIT as int && iabs(sm[i as int].3) <= VAL_LIMIT as int && iabs(
                sm[i as int].4,
            ) <= VAL_LIMIT as int);
        }
        let o: i128;
        let c: i128;
        if i == 0 {
            o = b.o;
            c = b.c;
        } else {
            o = div_i128(prev_o + prev_c, 2);
            c = div_i128(b.o + b.c + b.h + b.l, 4);
            proof {
                lemma_tdiv_range(prev_o as int + prev_c as int, 2, -(VAL_LIMIT as int), (
                VAL_LIMIT as int));
                lemma_tdiv_range(
                    b.o as int + b.c as int + b.h as int + b.l as int,
                    4,
                    -(VAL_LIMIT as int),
                    (VAL_LIMIT as int),
                );
            }
        }
        out.push(
            Candlestick {
                at: b.at,
                open: Scalar::Num(Fixed { m: o }),
                high: Scalar::Num(Fixed { m: b.h }),
                low: Scalar::Num(Fixed { m: b.l }),
                close: Scalar::Num(Fixed { m: c }),
                volume: Scalar::Num(Fixed { m: b.v }),
            },
        );
        proof {
            assert(o as int == ha_open(sm, i as int));
            assert(c as int == ha_close(sm, i as int));
            assert(crate::candlestick::cand_model(out@[i as int]) == goal[i as int]);
        }
        prev_o = o;
        prev_c = c;
        i += 1;
    }
    Ok(out)
}

} // verus!
