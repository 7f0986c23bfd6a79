//! Awesome Oscillator: the median price `(high + low) / 2` per bar, then
//! the difference of its short and long SMAs, aligned by windowing
//! position.

use crate::bars::{lift_bars, prepare_candles, sorted_cand_model};
use crate::candlestick::{all_candles_ok, cand_values_within, is_candle_validation_err, Candlestick};
use crate::error::Error;
use crate::fixed::{div_i128, iabs, lemma_tdiv_range, tdiv};
use crate::index_entry::IndexEntry;
use crate::series::{bounded, combine_sub, is_output, lift, wrap_entries, VAL_LIMIT};
use crate::sma::{sma_core, sma_s};
use vstd::prelude::*;

verus! {

/// The median-price series of `s`: `(high + low) / 2` per bar, in bar
/// order.
pub open spec fn median_s(s: Seq<(u64, int, int, int, int, int)>) -> Seq<(u64, int)> {
    Seq::new(s.len(), |i: int| (s[i].0, tdiv(s[i].2 + s[i].3, 2)))
}

/// The Awesome Oscillator model of `s`: short SMA minus long SMA of the
/// median prices, at the long SMA's timestamps.
pub open spec fn awesome_oscillator_s(
    s: Seq<(u64, int, int, int, int, int)>,
    sd: int,
    ld: int,
) -> Seq<(u64, int)> {
    let mp = median_s(s);
    let ss = sma_s(mp, sd);
    let sl = sma_s(mp, ld);
    Seq::new(sl.len(), |k: int| (sl[k].0, ss[k + ld - sd].1 - sl[k].1))
}

/// Returns the Awesome Oscillator for the given candlestick list.
///
/// Fails if the short window exceeds the long one; equal or zero windows
/// and too-short input yield an empty result; an ill-formed scalar fails
/// the call with its timestamp and field.
pub fn awesome_oscillator(
    entries: &[Candlestick],
    short_duration: usize,
    long_duration: usize,
) -> (r: Result<Vec<IndexEntry>, Error>)
    requires
        cand_values_within(entries@, VAL_LIMIT as int),
    ensures
        short_duration > long_duration ==> (r matches Err(e) && e matches
            Error::LongDurationIsNotGreaterThanShortDuration {
            short_duration: s2,
            long_duration: l2,
        } && s2 == short_duration && l2 == long_duration),
        short_duration <= long_duration && (short_duration == 0 || long_duration == 0
            || long_duration == short_duration || entries@.len() < short_duration) ==> (r matches
        Ok(v) && v@.len() == 0),
        short_duration < long_duration && 1 <= short_duration && entries@.len() >= short_duration
            && all_candles_ok(entries@) ==> (r matches Ok(v) && is_output(
            v@,
            awesome_oscillator_s(
                sorted_cand_model(entries@),
                short_duration as int,
                long_duration as int,
            ),
        )),
        short_duration < long_duration && 1 <= short_duration && entries@.len() >= short_duration
            && !all_candles_ok(entries@) ==> (r matches Err(e) && is_candle_validation_err(
            entries@,
            e,
        )),
{
    if short_duration > long_duration {
        return Err(
            Error::LongDurationIsNotGreaterThanShortDuration { short_duration, long_duration },
        );
    }
    if short_duration == 0 || long_duration == 0 || long_duration == short_duration
        || entries.len() < short_duration {
        return Ok(Vec::new());
    }
    let sorted = match prepare_candles(entries) {
        Ok(v) => v,
        Err(e) => {
            return Err(e);
        },
    };
    let ghost sm = sorted_cand_model(entries@);
    proof {
        assert(lift_bars(sorted@).len() == sorted@.len());
    }
    // Median prices, in sorted order.
    let n = sorted.len();
    let mut mp: Vec<(u64, i128)> = Vec::new();
    let mut i: usize = 0;
    while i < n
        invariant
            n == sorted@.len(),
            sm == lift_bars(sorted@),
            crate::bars::bars_within(sm, VAL_LIMIT as int),
            i <= n,
            mp@.len() == i,
            forall|k: int| 0 <= k < i ==> #[trigger] lift(mp@)[k] == median_s(sm)[k],
            bounded(lift(mp@), VAL_LIMIT as int),
        decreases n - i,
    {
        proof {
            assert(iabs(sm[i as int].2) <= VAL_LIMIT as int && iabs(sm[i as int].3)
                <= VAL_LIMIT as int);
        }
        let t2 = sorted[i].h + sorted[i].l;
        let q = div_i128(t2, 2);
        proof {
            lemma_tdiv_range(t2 as int, 2, -(VAL_LIMIT as int), VAL_LIMIT as int);
        }
        let ghost old_mp = mp@;
        mp.push((sorted[i].at, q));
        proof {
            assert(lift(mp@)[i as int] == median_s(sm)[i as int]);
            assert(forall|k: int| 0 <= k < i ==> #[trigger] lift(mp@)[k] == lift(old_mp)[k]);
        }
        i += 1;
    }
    proof {
        assert(lift(mp@) =~= median_s(sm));
        assert((short_duration as int) * (VAL_LIMIT as int)
            <= 0x4000_0000_0000_0000_0000_0000_0000_0000 && (long_duration as int) * (
        VAL_LIMIT as int) <= 0x4000_0000_0000_0000_0000_0000_0000_0000) by (nonlinear_arith)
            requires
                short_duration as int <= 0xffff_ffff_ffff_ffff && long_duration as int
                    <= 0xffff_ffff_ffff_ffff,
        ;
    }
    let ss = sma_core(&mp, short_duration, Ghost(VAL_LIMIT as int));
    let sl: Vec<(u64, i128)> = if mp.len() < long_duration {
        Vec::new()
    } else {
        sma_core(&mp, long_duration, Ghost(VAL_LIMIT as int))
    };
    proof {
        assert(lift(sl@) =~= sma_s(lift(mp@), long_duration as int));
        if sl@.len() > 0 {
            assert(lift(sl@).len() == lift(mp@).len() - long_duration + 1);
            assert(lift(ss@).len() == lift(mp@).len() - short_duration + 1);
        }
        assert(sl@.len() > 0 ==> sl@.len() + (long_duration - short_duration) <= ss@.len());
    }
    let out = combine_sub(&ss, &sl, long_duration - short_duration);
    proof {
        assert(lift(out@) =~= awesome_oscillator_s(
            sm,
            short_duration as int,
            long_duration as int,
        ));
    }
    Ok(wrap_entries(out))
}

} // verus!
