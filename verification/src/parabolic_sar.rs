//! Parabolic SAR (Stop And Reverse).
//!
//! A stateful recurrence seeded from the first bar's direction: each
//! later bar first receives the current stop value, then the state tests
//! for a reversal, advances the extreme point and acceleration factor,
//! and moves the stop toward the extreme.

use crate::bars::{lift_bars, prepare_candles, sorted_cand_model};
use crate::candlestick::{all_candles_ok, cand_values_within, is_candle_validation_err, Candlestick};
use crate::error::Error;
use crate::fixed::{div_i128, iabs, lemma_step_toward, tdiv, Fixed, SCALE};
use crate::index_entry::IndexEntry;
use crate::series::{is_output, lift, wrap_entries, VAL_LIMIT};
use vstd::prelude::*;

verus! {

/// The recurrence state: direction, acceleration factor, extreme point
/// and current stop value.
pub struct SarState {
    pub bullish: bool,
    pub af: int,
    pub ep: int,
    pub sar: int,
}

/// The state seeded from the first bar: bullish when it closed above its
/// open, the extreme at its high (low when bearish), the stop at its low
/// (high when bearish).
pub open spec fn sar_seed(s: Seq<(u64, int, int, int, int, int)>, af_init: int) -> SarState {
    let bullish = s[0].1 < s[0].4;
    SarState {
        bullish,
        af: af_init,
        ep: if bullish {
            s[0].2
        } else {
            s[0].3
        },
        sar: if bullish {
            s[0].3
        } else {
            s[0].2
        },
    }
}

/// One recurrence step against the bar `b`: reversal test, extreme and
/// factor update, then the stop moves toward the extreme by the factor.
pub open spec fn sar_step(
    st: SarState,
    b: (u64, int, int, int, int, int),
    af_init: int,
    af_step: int,
    af_max: int,
) -> SarState {
    let rev_bull = st.bullish && st.sar > b.3;
    let rev_bear = !st.bullish && st.sar < b.2;
    let mid = if rev_bull {
        SarState { bullish: false, af: af_init, ep: b.3, sar: st.ep }
    } else if rev_bear {
        SarState { bullish: true, af: af_init, ep: b.2, sar: st.ep }
    } else {
        let grew = if st.bullish && st.ep < b.2 {
            SarState { bullish: st.bullish, af: st.af + af_step, ep: b.2, sar: st.sar }
        } else if !st.bullish && st.ep > b.3 {
            SarState { bullish: st.bullish, af: st.af + af_step, ep: b.3, sar: st.sar }
        } else {
            st
        };
        SarState {
            bullish: grew.bullish,
            af: if grew.af > af_max {
                af_max
            } else {
                grew.af
            },
            ep: grew.ep,
            sar: grew.sar,
        }
    };
    SarState {
        bullish: mid.bullish,
        af: mid.af,
        ep: mid.ep,
        sar: mid.sar + tdiv(mid.af * (mid.ep - mid.sar), SCALE as int),
    }
}

/// The state after consuming bars `1..=i`.
pub open spec fn sar_state_at(
    s: Seq<(u64, int, int, int, int, int)>,
    af_init: int,
    af_step: int,
    af_max: int,
    i: int,
) -> SarState
    decreases i,
{
    if i <= 0 {
        sar_seed(s, af_init)
    } else {
        sar_step(sar_state_at(s, af_init, af_step, af_max, i - 1), s[i], af_init, af_step, af_max)
    }
}

/// The Parabolic SAR series of `s`: one stop value per bar after the
/// first, at that bar's timestamp — the value the state held before the
/// bar was consumed.
pub open spec fn parabolic_sar_s(
    s: Seq<(u64, int, int, int, int, int)>,
    af_init: int,
    af_step: int,
    af_max: int,
) -> Seq<(u64, int)> {
    if s.len() < 1 {
        Seq::empty()
    } else {
        Seq::new(
            (s.len() - 1) as nat,
            |k: int| (s[k + 1].0, sar_state_at(s, af_init, af_step, af_max, k).sar),
        )
    }
}

/// The state fields stay in range: factors within `[0, SCALE]`, prices
/// within the input bound.
pub open spec fn sar_state_ok(st: SarState, b: int) -> bool {
    &&& 0 <= st.af <= SCALE as int
    &&& iabs(st.ep) <= b
    &&& iabs(st.sar) <= b
}

/// One step keeps the state in range.
proof fn lemma_sar_step_ok(
    st: SarState,
    b: (u64, int, int, int, int, int),
    af_init: int,
    af_step: int,
    af_max: int,
    bound: int,
)
    requires
        0 <= af_init <= SCALE as int,
        0 <= af_step <= SCALE as int,
        0 <= af_max <= SCALE as int,
        0 <= bound,
        sar_state_ok(st, bound),
        iabs(b.2) <= bound,
        iabs(b.3) <= bound,
    ensures
        sar_state_ok(sar_step(st, b, af_init, af_step, af_max), bound),
{
    let rev_bull = st.bullish && st.sar > b.3;
    let rev_bear = !st.bullish && st.sar < b.2;
    let mid = if rev_bull {
        SarState { bullish: false, af: af_init, ep: b.3, sar: st.ep }
    } else if rev_bear {
        SarState { bullish: true, af: af_init, ep: b.2, sar: st.ep }
    } else {
        let grew = if st.bullish && st.ep < b.2 {
            SarState { bullish: st.bullish, af: st.af + af_step, ep: b.2, sar: st.sar }
        } else if !st.bullish && st.ep > b.3 {
            SarState { bullish: st.bullish, af: st.af + af_step, ep: b.3, sar: st.sar }
        } else {
            st
        };
        SarState {
            bullish: grew.bullish,
            af: if grew.af > af_max {
                af_max
            } else {
                grew.af
            },
            ep: grew.ep,
            sar: grew.sar,
        }
    };
    assert(0 <= mid.af <= SCALE as int);
    lemma_step_toward(mid.sar, mid.ep, mid.af);
}

/// Returns Parabolic SAR for the given candlestick list: one stop value
/// per bar after the first, at that bar's timestamp.
///
/// The acceleration parameters are fractions of one (`m <= SCALE`); a
/// negative one fails the call naming the parameter.  An empty input
/// yields an empty result; an ill-formed scalar fails the call with its
/// timestamp and field.
pub fn parabolic_sar(entries: &[Candlestick], af_init: Fixed, af_step: Fixed, af_max: Fixed) -> (r:
    Result<Vec<IndexEntry>, Error>)
    requires
        cand_values_within(entries@, VAL_LIMIT as int),
        af_init.m <= SCALE,
        af_step.m <= SCALE,
        af_max.m <= SCALE,
    ensures
        af_init.m < 0 ==> (r matches Err(e) && e matches Error::MustBePositive { value, field }
            && value == af_init && field@ == "af_init"@),
        af_init.m >= 0 && af_step.m < 0 ==> (r matches Err(e) && e matches Error::MustBePositive {
            value,
            field,
        } && value == af_step && field@ == "af_step"@),
        af_init.m >= 0 && af_step.m >= 0 && af_max.m < 0 ==> (r matches Err(e) && e matches
            Error::MustBePositive { value, field } && value == af_max && field@ == "af_max"@),
        af_init.m >= 0 && af_step.m >= 0 && af_max.m >= 0 && entries@.len() == 0 ==> (r matches
            Ok(v) && v@.len() == 0),
        af_init.m >= 0 && af_step.m >= 0 && af_max.m >= 0 && entries@.len() > 0 && all_candles_ok(
            entries@,
        ) ==> (r matches Ok(v) && is_output(
            v@,
            parabolic_sar_s(
                sorted_cand_model(entries@),
                af_init.m as int,
                af_step.m as int,
                af_max.m as int,
            ),
        )),
        af_init.m >= 0 && af_step.m >= 0 && af_max.m >= 0 && entries@.len() > 0
            && !all_candles_ok(entries@) ==> (r matches Err(e) && is_candle_validation_err(
            entries@,
            e,
        )),
{
    if af_init.m < 0 {
        return Err(Error::MustBePositive { value: af_init, field: "af_init".to_owned() });
    }
    if af_step.m < 0 {
        return Err(Error::MustBePositive { value: af_step, field: "af_step".to_owned() });
    }
    if af_max.m < 0 {
        return Err(Error::MustBePositive { value: af_max, field: "af_max".to_owned() });
    }
    if entries.len() == 0 {
        return Ok(Vec::new());
    }
    let sorted = match prepare_candles(entries) {
        Ok(v) => v,
        Err(e) => {
            return Err(e);
        },
    };
    let ghost sm = sorted_cand_model(entries@);
    proof {
        assert(lift_bars(sorted@).len() == sorted@.len());
    }
    let ghost ai = af_init.m as int;
    let ghost as_ = af_step.m as int;
    let ghost am = af_max.m as int;
    let n = sorted.len();
    let head = sorted[0];
    let is_bullish = head.o < head.c;
    let mut af: i128 = af_init.m;
    let mut ep: i128 = if is_bullish {
        head.h
    } else {
        head.l
    };
    let mut sar: i128 = if is_bullish {
        head.l
    } else {
        head.h
    };
    let mut bull: bool = is_bullish;
    proof {
        assert(iabs(sm[0].2) <= VAL_LIMIT as int && iabs(sm[0].3) <= VAL_LIMIT as int);
    }
    let mut out: Vec<(u64, i128)> = Vec::new();
    let mut i: usize = 1;
    while i < n
        invariant
            1 <= i <= n || (n == 0 && i == 1),
            n == sorted@.len(),
            n >= 1,
            sm == lift_bars(sorted@),
            crate::bars::bars_within(sm, VAL_LIMIT as int),
            0 <= ai <= SCALE as int,
            0 <= as_ <= SCALE as int,
            0 <= am <= SCALE as int,
            af_init.m as int == ai,
            af_step.m as int == as_,
            af_max.m as int == am,
            bull == sar_state_at(sm, ai, as_, am, i - 1).bullish,
            af as int == sar_state_at(sm, ai, as_, am, i - 1).af,
            ep as int == sar_state_at(sm, ai, as_, am, i - 1).ep,
            sar as int == sar_state_at(sm, ai, as_, am, i - 1).sar,
            sar_state_ok(sar_state_at(sm, ai, as_, am, i - 1), VAL_LIMIT as int),
            out@.len() == i - 1,
            forall|k: int|
                0 <= k < i - 1 ==> #[trigger] lift(out@)[k] == parabolic_sar_s(sm, ai, as_, am)[k],
        decreases n - i,
    {
        let ghost st = sar_state_at(sm, ai, as_, am, i - 1);
        let x = sorted[i];
        proof {
            assert(iabs(sm[i as int].2) <= VAL_LIMIT as int && iabs(sm[i as int].3)
                <= VAL_LIMIT as int);
            lemma_sar_step_ok(st, sm[i as int], ai, as_, am, VAL_LIMIT as int);
        }
        let ghost old_out = out@;
        out.push((x.at, sar));
        proof {
            assert(lift(out@)[i - 1] == parabolic_sar_s(sm, ai, as_, am)[i - 1]);
            assert(forall|k: int| 0 <= k < i - 1 ==> #[trigger] lift(out@)[k] == lift(old_out)[k]);
        }
        if bull && sar > x.l {
            bull = false;
            af = af_init.m;
            sar = ep;
            ep = x.l;
        } else if !bull && sar < x.h {
            bull = true;
            af = af_init.m;
            sar = ep;
            ep = x.h;
        } else {
            if bull && ep < x.h {
                af = af + af_step.m;
                ep = x.h;
            } else if !bull && ep > x.l {
                af = af + af_step.m;
                ep = x.l;
            }
            if af > af_max.m {
                af = af_max.m;
            }
        }
        proof {
            let mid = SarState { bullish: bull, af: af as int, ep: ep as int, sar: sar as int };
            assert(0 <= mid.af <= SCALE as int);
            lemma_step_toward(mid.sar, mid.ep, mid.af);
            assert(iabs(mid.af * (mid.ep - mid.sar)) <= (SCALE as int) * (2 * (VAL_LIMIT as int)))
                by (nonlinear_arith)
                requires
                    0 <= mid.af <= SCALE as int && iabs(mid.ep - mid.sar) <= 2 * (VAL_LIMIT as int),
            ;
        }
        let t = div_i128(af * (ep - sar), SCALE);
        sar = sar + t;
        proof {
            assert(sar_state_at(sm, ai, as_, am, i as int) == (SarState {
                bullish: bull,
                af: af as int,
                ep: ep as int,
                sar: sar as int,
            }));
        }
        i += 1;
    }
    proof {
        assert(lift(out@) =~= parabolic_sar_s(sm, ai, as_, am));
    }
    Ok(wrap_entries(out))
}

} // verus!
