//! EMA (Exponential Moving Average).
//!
//! The general smoothing engine: the first output is the plain mean of the
//! first window, and each later element updates it by
//! `ema' = ema + alpha * (x - ema)`.  The other smoothed indicators (RMA,
//! DEMA, TEMA, MACD, ATR, DMI) are built on this engine.

use crate::error::Error;
use crate::fixed::{
    div_i128, iabs, lemma_step_toward, lemma_tdiv_mag, lemma_tdiv_mono, lemma_tdiv_neg,
    lemma_tdiv_range, tdiv, SCALE,
};
use crate::index_entry::{IndexEntry, IndexEntryLike};
use crate::series::{
    all_finite, bounded, ent_models, is_entry_validation_err, is_output, lemma_sum_range_neg, lift,
    negate, prepare, sorted_model, sum_range, sum_window_core, values_within, wrap_entries,
    CORE_LIMIT, VAL_LIMIT,
};
use crate::sma::sma_s;
use vstd::prelude::*;

verus! {

/// The smoothed value after consuming `s[..i+1]`: the truncated mean of
/// the first `d` elements, then one smoothing step per later element
/// (meaningful for `1 <= d`, `d - 1 <= i`).
pub open spec fn ema_at(s: Seq<(u64, int)>, d: int, alpha: int, i: int) -> int
    decreases i,
{
    if i <= d - 1 || i <= 0 {
        tdiv(sum_range(s, 0, d), d)
    } else {
        let p = ema_at(s, d, alpha, i - 1);
        p + tdiv(alpha * (s[i].1 - p), SCALE as int)
    }
}

/// The EMA series of `s` with window `d` and smoothing factor
/// `alpha / SCALE`: one entry per element from the first window's last
/// element on, each at that element's timestamp.
pub open spec fn ema_s(s: Seq<(u64, int)>, d: int, alpha: int) -> Seq<(u64, int)> {
    if d < 1 || s.len() < d {
        Seq::empty()
    } else {
        Seq::new((s.len() - d + 1) as nat, |k: int| (s[k + d - 1].0, ema_at(s, d, alpha, k + d - 1)))
    }
}

/// The default smoothing factor mantissa, `2 / (d + 1)` scaled.
pub open spec fn ema_alpha(d: int) -> int {
    tdiv(2 * (SCALE as int), d + 1)
}

/// Every smoothed value stays within the bound of its inputs.
pub proof fn lemma_ema_at_bounded(s: Seq<(u64, int)>, d: int, alpha: int, i: int, b: int)
    requires
        1 <= d <= s.len(),
        0 <= alpha <= SCALE as int,
        i < s.len(),
        forall|k: int| 0 <= k < s.len() ==> iabs(#[trigger] s[k].1) <= b,
        0 <= b,
    ensures
        iabs(ema_at(s, d, alpha, i)) <= b,
    decreases i,
{
    if i <= d - 1 || i <= 0 {
        crate::series::lemma_sum_range_bound(s, 0, d, b);
        assert(-(b) * d <= sum_range(s, 0, d) <= b * d) by (nonlinear_arith)
            requires
                iabs(sum_range(s, 0, d)) <= d * b,
        ;
        lemma_tdiv_range(sum_range(s, 0, d), d, -b, b);
    } else {
        lemma_ema_at_bounded(s, d, alpha, i - 1, b);
        lemma_step_toward(ema_at(s, d, alpha, i - 1), s[i].1, alpha);
    }
}

/// Every smoothed value stays within the interval of its inputs.
pub proof fn lemma_ema_at_in(s: Seq<(u64, int)>, d: int, alpha: int, i: int, lo: int, hi: int)
    requires
        1 <= d <= s.len(),
        0 <= alpha <= SCALE as int,
        i < s.len(),
        lo <= hi,
        forall|k: int| 0 <= k < s.len() ==> lo <= (#[trigger] s[k].1) <= hi,
    ensures
        lo <= ema_at(s, d, alpha, i) <= hi,
    decreases i,
{
    if i <= d - 1 || i <= 0 {
        crate::series::lemma_sum_range_in(s, 0, d, lo, hi);
        lemma_tdiv_range(sum_range(s, 0, d), d, lo, hi);
        assert(lo * d == d * lo && hi * d == d * hi);
    } else {
        lemma_ema_at_in(s, d, alpha, i - 1, lo, hi);
        lemma_step_toward(ema_at(s, d, alpha, i - 1), s[i].1, alpha);
    }
}

/// The whole EMA series of values between `lo` and `hi` stays there.
pub proof fn lemma_ema_s_in(s: Seq<(u64, int)>, d: int, alpha: int, lo: int, hi: int)
    requires
        0 <= alpha <= SCALE as int,
        lo <= hi,
        forall|k: int| 0 <= k < s.len() ==> lo <= (#[trigger] s[k].1) <= hi,
    ensures
        forall|k: int|
            0 <= k < ema_s(s, d, alpha).len() ==> lo <= (#[trigger] ema_s(s, d, alpha)[k].1) <= hi,
{
    if 1 <= d <= s.len() {
        assert forall|k: int| 0 <= k < ema_s(s, d, alpha).len() implies lo <= (#[trigger] ema_s(
            s,
            d,
            alpha,
        )[k].1) <= hi by {
            lemma_ema_at_in(s, d, alpha, k + d - 1, lo, hi);
        }
    }
}

/// The whole EMA series of values bounded by `b` stays bounded by `b`.
pub proof fn lemma_ema_s_bounded(s: Seq<(u64, int)>, d: int, alpha: int, b: int)
    requires
        0 <= alpha <= SCALE as int,
        0 <= b,
        crate::series::bounded(s, b),
    ensures
        crate::series::bounded(ema_s(s, d, alpha), b),
{
    if 1 <= d <= s.len() {
        assert forall|k: int| 0 <= k < ema_s(s, d, alpha).len() implies iabs(
            #[trigger] ema_s(s, d, alpha)[k].1,
        ) <= b by {
            lemma_ema_at_bounded(s, d, alpha, k + d - 1, b);
        }
    }
}

/// Exponential smoothing over already validated, sorted pairs.
pub(crate) fn ema_core(xs: &Vec<(u64, i128)>, d: usize, alpha: i128) -> (r: Vec<(u64, i128)>)
    requires
        0 <= alpha <= SCALE,
        bounded(lift(xs@), CORE_LIMIT as int),
    ensures
        lift(r@) == ema_s(lift(xs@), d as int, alpha as int),
        bounded(lift(r@), CORE_LIMIT as int),
{
    let ghost ls = lift(xs@);
    let n = xs.len();
    if d == 0 || n < d {
        let r: Vec<(u64, i128)> = Vec::new();
        proof {
            assert(lift(r@) =~= ema_s(ls, d as int, alpha as int));
        }
        return r;
    }
    let s0 = {
        proof {
            assert((d as int) * (CORE_LIMIT as int) <= 0x4000_0000_0000_0000_0000_0000_0000_0000)
                by (nonlinear_arith)
                requires
                    d as int <= 0xffff_ffff_ffff_ffff,
            ;
        }
        sum_window_core(xs, 0, d, Ghost(CORE_LIMIT as int))
    };
    let first = div_i128(s0, d as i128);
    proof {
        assert(-(CORE_LIMIT as int) * (d as int) <= s0 as int <= (CORE_LIMIT as int) * (d as int));
        lemma_tdiv_range(s0 as int, d as int, -(CORE_LIMIT as int), CORE_LIMIT as int);
    }
    let mut r: Vec<(u64, i128)> = Vec::new();
    r.push((xs[d - 1].0, first));
    proof {
        assert(first as int == ema_at(ls, d as int, alpha as int, d - 1));
        assert(lift(r@)[0] == ema_s(ls, d as int, alpha as int)[0]);
    }
    let mut prev: i128 = first;
    let mut i: usize = d;
    while i < n
        invariant
            1 <= d <= i <= n,
            n == xs@.len(),
            ls == lift(xs@),
            bounded(ls, CORE_LIMIT as int),
            0 <= alpha <= SCALE,
            prev as int == ema_at(ls, d as int, alpha as int, i - 1),
            iabs(prev as int) <= CORE_LIMIT as int,
            r@.len() == i - d + 1,
            forall|k: int|
                0 <= k < i - d + 1 ==> #[trigger] lift(r@)[k] == ema_s(ls, d as int, alpha as int)[k],
            bounded(lift(r@), CORE_LIMIT as int),
        decreases n - i,
    {
        let x = xs[i].1;
        proof {
            assert(iabs(ls[i as int].1) <= CORE_LIMIT as int);
            assert(iabs(alpha as int * (x as int - prev as int)) <= SCALE * (2 * CORE_LIMIT))
                by (nonlinear_arith)
                requires
                    0 <= alpha <= SCALE && iabs(x as int - prev as int) <= 2 * CORE_LIMIT,
            ;
            lemma_step_toward(prev as int, x as int, alpha as int);
        }
        let diff = x - prev;
        let t = div_i128(alpha * diff, SCALE);
        let next = prev + t;
        let ghost old_r = r@;
        r.push((xs[i].0, next));
        proof {
            assert(next as int == ema_at(ls, d as int, alpha as int, i as int));
            assert(lift(r@)[i - d + 1] == ema_s(ls, d as int, alpha as int)[i - d + 1]);
            assert(forall|k: int| 0 <= k < i - d + 1 ==> #[trigger] lift(r@)[k] == lift(old_r)[k]);
        }
        prev = next;
        i += 1;
    }
    proof {
        assert(lift(r@) =~= ema_s(ls, d as int, alpha as int));
    }
    r
}

/// The default smoothing factor `2 / (d + 1)`, as a mantissa.
pub(crate) fn ema_alpha_exec(d: usize) -> (a: i128)
    requires
        d >= 1,
    ensures
        a as int == ema_alpha(d as int),
        0 <= a <= SCALE,
{
    let dd: i128 = (d as i128) + 1;
    let a = div_i128(2 * SCALE, dd);
    proof {
        lemma_tdiv_mag(2 * SCALE as int, dd as int);
        assert(2 * (SCALE as int) <= (dd as int) * (SCALE as int)) by (nonlinear_arith)
            requires
                dd as int >= 2,
        ;
        lemma_tdiv_mono(2 * (SCALE as int), (dd as int) * (SCALE as int), dd as int);
        crate::fixed::lemma_tdiv_exact(SCALE as int, dd as int);
        assert((SCALE as int) * (dd as int) == (dd as int) * (SCALE as int));
    }
    a
}

/// Returns EMA (Exponential Moving Average) for the given entry list,
/// with the default smoothing factor `2 / (duration + 1)`.
///
/// The first emitted value is the plain mean of the first window; each
/// later entry applies the smoothing recurrence at its element's
/// timestamp.  A zero `duration` or too-short input yields an empty
/// result; an ill-formed scalar fails the call with its timestamp.
pub fn ema<T: IndexEntryLike>(entries: &[T], duration: usize) -> (r: Result<Vec<IndexEntry>, Error>)
    requires
        values_within(entries@, VAL_LIMIT as int),
    ensures
        duration == 0 || entries@.len() < duration ==> (r matches Ok(v) && v@.len() == 0),
        1 <= duration <= entries@.len() && all_finite(ent_models(entries@)) ==> (r matches Ok(v)
            && is_output(v@, ema_s(sorted_model(entries@), duration as int, ema_alpha(duration as int)))),
        1 <= duration <= entries@.len() && !all_finite(ent_models(entries@)) ==> (r matches Err(e)
            && is_entry_validation_err(entries@, e)),
{
    if duration == 0 || entries.len() < duration {
        return Ok(Vec::new());
    }
    let sorted = match prepare(entries) {
        Ok(v) => v,
        Err(e) => {
            return Err(e);
        },
    };
    proof {
        assert(bounded(lift(sorted@), CORE_LIMIT as int));
    }
    let alpha = ema_alpha_exec(duration);
    let out = ema_core(&sorted, duration, alpha);
    Ok(wrap_entries(out))
}

/// Law: the first emitted EMA value is the plain SMA of the first
/// `d` elements — the two series agree at their first entry.
pub proof fn lemma_ema_first_is_sma(s: Seq<(u64, int)>, d: int, alpha: int)
    requires
        1 <= d <= s.len(),
    ensures
        ema_s(s, d, alpha)[0] == sma_s(s, d)[0],
{
}

/// Law: exponential smoothing is odd — on the negated series every
/// smoothed value is the negation of the original one.
pub proof fn lemma_ema_at_neg(s: Seq<(u64, int)>, d: int, alpha: int, i: int)
    requires
        1 <= d <= s.len(),
        i < s.len(),
    ensures
        ema_at(negate(s), d, alpha, i) == -ema_at(s, d, alpha, i),
    decreases i,
{
    lemma_sum_range_neg(s, 0, d);
    lemma_tdiv_neg(sum_range(s, 0, d), d);
    if !(i <= d - 1 || i <= 0) {
        lemma_ema_at_neg(s, d, alpha, i - 1);
        assert(negate(s)[i].1 == -s[i].1);
        let q = ema_at(s, d, alpha, i - 1);
        assert(alpha * ((-s[i].1) - (-q)) == -(alpha * (s[i].1 - q))) by (nonlinear_arith);
        lemma_tdiv_neg(alpha * (s[i].1 - q), SCALE as int);
    }
}

/// Law: the EMA series of the negated input is the negated EMA series.
pub proof fn lemma_ema_s_neg(s: Seq<(u64, int)>, d: int, alpha: int)
    ensures
        ema_s(negate(s), d, alpha) == negate(ema_s(s, d, alpha)),
{
    assert forall|k: int| 0 <= k < ema_s(negate(s), d, alpha).len() implies ema_s(
        negate(s),
        d,
        alpha,
    )[k] == negate(ema_s(s, d, alpha))[k] by {
        lemma_ema_at_neg(s, d, alpha, k + d - 1);
    }
    assert(ema_s(negate(s), d, alpha) =~= negate(ema_s(s, d, alpha)));
}

} // verus!
