//! MACD (Moving Average Convergence Divergence).
//!
//! `macd = EMA(short) - EMA(long)` aligned by windowing position,
//! `signal = EMA(macd series, signal window)`, `histogram = macd - signal`.

use crate::ema::{ema_alpha, ema_alpha_exec, ema_core, ema_s, lemma_ema_s_neg};
use crate::error::Error;
use crate::fixed::{iabs, Fixed, Scalar};
use crate::index_entry::IndexEntryLike;
use crate::series::{
    all_finite, bounded, combine_sub, ent_models, is_entry_validation_err, lift, negate, prepare,
    sorted_model, values_within, CORE_LIMIT, VAL_LIMIT,
};
use vstd::prelude::*;

verus! {

/// One MACD output: the difference line, its signal smoothing, and their
/// gap, at a shared timestamp.
#[derive(Clone, Copy, Debug)]
pub struct MacdEntry {
    pub at: u64,
    pub macd: Fixed,
    pub signal: Fixed,
    pub histogram: Fixed,
}

impl IndexEntryLike for MacdEntry {
    open spec fn at_of(&self) -> u64 {
        self.at
    }

    open spec fn value_of(&self) -> Scalar {
        Scalar::Num(self.macd)
    }

    fn get_at(&self) -> u64 {
        self.at
    }

    fn get_value(&self) -> Scalar {
        Scalar::Num(self.macd)
    }
}

/// The macd difference line: short EMA minus long EMA, aligned by
/// windowing position at the long EMA's timestamps.
pub open spec fn macd_line_s(s: Seq<(u64, int)>, sd: int, ld: int) -> Seq<(u64, int)> {
    let es = ema_s(s, sd, ema_alpha(sd));
    let el = ema_s(s, ld, ema_alpha(ld));
    Seq::new(el.len(), |k: int| (el[k].0, es[k + ld - sd].1 - el[k].1))
}

/// The full MACD model: per entry `(at, macd, signal, histogram)`, one
/// entry per element of the signal smoothing.
pub open spec fn macd_s(s: Seq<(u64, int)>, sd: int, ld: int, gd: int) -> Seq<(u64, int, int, int)> {
    let line = macd_line_s(s, sd, ld);
    let sig = ema_s(line, gd, ema_alpha(gd));
    Seq::new(
        sig.len(),
        |j: int| (sig[j].0, line[j + gd - 1].1, sig[j].1, line[j + gd - 1].1 - sig[j].1),
    )
}

/// `v` carries exactly the MACD model `m`.
pub open spec fn is_macd_output(v: Seq<MacdEntry>, m: Seq<(u64, int, int, int)>) -> bool {
    &&& v.len() == m.len()
    &&& forall|i: int| 0 <= i < v.len() ==> (#[trigger] v[i]).at == m[i].0
    &&& forall|i: int| 0 <= i < v.len() ==> (#[trigger] v[i]).macd.m == m[i].1
    &&& forall|i: int| 0 <= i < v.len() ==> (#[trigger] v[i]).signal.m == m[i].2
    &&& forall|i: int| 0 <= i < v.len() ==> (#[trigger] v[i]).histogram.m == m[i].3
}

/// Returns MACD for the given entry list.
///
/// Fails if the long window is shorter than the short one; an empty input
/// or a zero window yields an empty result; an ill-formed scalar fails
/// the call with its timestamp.  Otherwise the result is exactly the MACD
/// model of the sorted input.
pub fn macd<T: IndexEntryLike>(
    entries: &[T],
    short_duration: usize,
    long_duration: usize,
    signal_duration: usize,
) -> (r: Result<Vec<MacdEntry>, Error>)
    requires
        values_within(entries@, VAL_LIMIT as int),
    ensures
        long_duration < short_duration ==> (r matches Err(e) && e matches
            Error::LongDurationIsNotGreaterThanShortDuration {
            short_duration: s2,
            long_duration: l2,
        } && s2 == short_duration && l2 == long_duration),
        long_duration >= short_duration && (entries@.len() == 0 || short_duration == 0
            || long_duration == 0 || signal_duration == 0) ==> (r matches Ok(v) && v@.len() == 0),
        long_duration >= short_duration && entries@.len() > 0 && short_duration >= 1
            && long_duration >= 1 && signal_duration >= 1 && all_finite(ent_models(entries@)) ==> (
        r matches Ok(v) && is_macd_output(
            v@,
            macd_s(
                sorted_model(entries@),
                short_duration as int,
                long_duration as int,
                signal_duration as int,
            ),
        )),
        long_duration >= short_duration && entries@.len() > 0 && short_duration >= 1
            && long_duration >= 1 && signal_duration >= 1 && !all_finite(ent_models(entries@)) ==> (
        r matches Err(e) && is_entry_validation_err(entries@, e)),
{
    if long_duration < short_duration {
        return Err(
            Error::LongDurationIsNotGreaterThanShortDuration { short_duration, long_duration },
        );
    }
    if entries.len() == 0 || short_duration == 0 || long_duration == 0 || signal_duration == 0 {
        return Ok(Vec::new());
    }
    let sorted = match prepare(entries) {
        Ok(v) => v,
        Err(e) => {
            return Err(e);
        },
    };
    proof {
        assert(bounded(lift(sorted@), CORE_LIMIT as int));
    }
    let ghost sm = sorted_model(entries@);
    let a_s = ema_alpha_exec(short_duration);
    let a_l = ema_alpha_exec(long_duration);
    let a_g = ema_alpha_exec(signal_duration);
    let es = ema_core(&sorted, short_duration, a_s);
    let el = ema_core(&sorted, long_duration, a_l);
    proof {
        if el@.len() > 0 {
            assert(lift(el@).len() == sm.len() - long_duration + 1);
            assert(lift(es@).len() == sm.len() - short_duration + 1);
        }
        assert(el@.len() > 0 ==> el@.len() + (long_duration - short_duration) <= es@.len());
    }
    let line = combine_sub(&es, &el, long_duration - short_duration);
    proof {
        assert(lift(line@) =~= macd_line_s(sm, short_duration as int, long_duration as int));
        crate::ema::lemma_ema_s_bounded(
            sm,
            short_duration as int,
            ema_alpha(short_duration as int),
            VAL_LIMIT as int,
        );
        crate::ema::lemma_ema_s_bounded(
            sm,
            long_duration as int,
            ema_alpha(long_duration as int),
            VAL_LIMIT as int,
        );
        assert forall|k: int| 0 <= k < lift(line@).len() implies iabs(#[trigger] lift(line@)[k].1)
            <= CORE_LIMIT as int by {
            assert(iabs(lift(es@)[k + (long_duration - short_duration)].1) <= VAL_LIMIT as int);
            assert(iabs(lift(el@)[k].1) <= VAL_LIMIT as int);
            assert(lift(line@)[k].1 == lift(es@)[k + (long_duration - short_duration)].1 - lift(
                el@,
            )[k].1);
        }
        assert(bounded(lift(line@), CORE_LIMIT as int));
    }
    let sig = ema_core(&line, signal_duration, a_g);
    let ghost goal = macd_s(
        sm,
        short_duration as int,
        long_duration as int,
        signal_duration as int,
    );
    proof {
        if sig@.len() > 0 {
            assert(lift(sig@).len() == lift(line@).len() - signal_duration + 1);
        }
    }
    let n = sig.len();
    let m = line.len();
    let mut out: Vec<MacdEntry> = Vec::new();
    let mut j: usize = 0;
    while j < n
        invariant
            1 <= signal_duration,
            n == sig@.len(),
            m == line@.len(),
            n > 0 ==> n + signal_duration - 1 <= m,
            bounded(lift(line@), CORE_LIMIT as int),
            bounded(lift(sig@), CORE_LIMIT as int),
            goal == Seq::new(
                lift(sig@).len(),
                |k: int| (lift(sig@)[k].0, lift(line@)[k + signal_duration - 1].1, lift(
                    sig@,
                )[k].1, lift(line@)[k + signal_duration - 1].1 - lift(sig@)[k].1),
            ),
            j <= n,
            out@.len() == j,
            forall|k: int|
                0 <= k < j ==> (#[trigger] out@[k]).at == goal[k].0 && out@[k].macd.m == goal[k].1
                    && out@[k].signal.m == goal[k].2 && out@[k].histogram.m == goal[k].3,
        decreases n - j,
    {
        let p = j + signal_duration - 1;
        proof {
            assert(iabs(lift(line@)[p as int].1) <= CORE_LIMIT as int);
            assert(iabs(lift(sig@)[j as int].1) <= CORE_LIMIT as int);
        }
        out.push(
            MacdEntry {
                at: sig[j].0,
                macd: Fixed { m: line[p].1 },
                signal: Fixed { m: sig[j].1 },
                histogram: Fixed { m: line[p].1 - sig[j].1 },
            },
        );
        j += 1;
    }
    proof {
        assert(out@.len() == goal.len());
    }
    Ok(out)
}

/// The MACD model with every value field negated, timestamps unchanged.
pub open spec fn negate_macd(m: Seq<(u64, int, int, int)>) -> Seq<(u64, int, int, int)> {
    Seq::new(m.len(), |i: int| (m[i].0, -m[i].1, -m[i].2, -m[i].3))
}

/// Law: MACD is sign-symmetric — on the negated series the difference
/// line, the signal and the histogram are all negated, timestamps
/// unchanged.
pub proof fn lemma_macd_neg(s: Seq<(u64, int)>, sd: int, ld: int, gd: int)
    requires
        1 <= sd <= ld,
        1 <= gd,
    ensures
        macd_s(negate(s), sd, ld, gd) == negate_macd(macd_s(s, sd, ld, gd)),
{
    lemma_ema_s_neg(s, sd, ema_alpha(sd));
    lemma_ema_s_neg(s, ld, ema_alpha(ld));
    let ln = macd_line_s(negate(s), sd, ld);
    let l = macd_line_s(s, sd, ld);
    assert forall|k: int| 0 <= k < ln.len() implies ln[k] == negate(l)[k] by {
        assert(ema_s(negate(s), ld, ema_alpha(ld))[k] == negate(ema_s(s, ld, ema_alpha(ld)))[k]);
        assert(ema_s(negate(s), sd, ema_alpha(sd))[k + ld - sd] == negate(
            ema_s(s, sd, ema_alpha(sd)),
        )[k + ld - sd]);
    }
    assert(ln =~= negate(l));
    lemma_ema_s_neg(l, gd, ema_alpha(gd));
    assert(macd_s(negate(s), sd, ld, gd) =~= negate_macd(macd_s(s, sd, ld, gd)));
}

} // verus!
