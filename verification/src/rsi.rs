//! RSI (Relative Strength Index).
//!
//! The first value averages the gains and losses of the first
//! `duration + 1` elements; later values apply Wilder's recurrence.  The
//! result is `upside / (upside + downside) * 100`, and a window whose
//! gain and loss averages are both zero fails the call.

use crate::error::{is_div_zero_err, Error};
use crate::fixed::{div_i128, iabs, lemma_tdiv_range, tdiv, SCALE};
use crate::index_entry::{IndexEntry, IndexEntryLike};
use crate::series::{
    all_finite, bounded, ent_models, is_entry_validation_err, is_output, lift, prepare,
    sorted_model, values_within, wrap_entries, VAL_LIMIT,
};
use vstd::prelude::*;

verus! {

/// The positive part of the change from `a` to `b`.
pub open spec fn gain(a: int, b: int) -> int {
    if b > a {
        b - a
    } else {
        0
    }
}

/// Total gain over the first `t` consecutive steps of `s`.
pub open spec fn gain_sum(s: Seq<(u64, int)>, t: int) -> int
    decreases t,
{
    if t <= 0 {
        0
    } else {
        gain_sum(s, t - 1) + gain(s[t - 1].1, s[t].1)
    }
}

/// Total loss over the first `t` consecutive steps of `s`.
pub open spec fn loss_sum(s: Seq<(u64, int)>, t: int) -> int
    decreases t,
{
    if t <= 0 {
        0
    } else {
        loss_sum(s, t - 1) + gain(s[t].1, s[t - 1].1)
    }
}

/// Wilder-smoothed average gain after consuming `s[..i+1]` (meaningful
/// for `i >= d >= 1`).
pub open spec fn upside_at(s: Seq<(u64, int)>, d: int, i: int) -> int
    decreases i,
{
    if i <= d || i <= 0 {
        tdiv(gain_sum(s, d), d)
    } else {
        tdiv(upside_at(s, d, i - 1) * (d - 1) + gain(s[i - 1].1, s[i].1), d)
    }
}

/// Wilder-smoothed average loss after consuming `s[..i+1]`.
pub open spec fn downside_at(s: Seq<(u64, int)>, d: int, i: int) -> int
    decreases i,
{
    if i <= d || i <= 0 {
        tdiv(loss_sum(s, d), d)
    } else {
        tdiv(downside_at(s, d, i - 1) * (d - 1) + gain(s[i].1, s[i - 1].1), d)
    }
}

/// The position `i` has a nonzero gain-plus-loss average, so its RSI
/// value is defined.
pub open spec fn rsi_defined(s: Seq<(u64, int)>, d: int, i: int) -> bool {
    upside_at(s, d, i) + downside_at(s, d, i) > 0
}

/// The RSI value at position `i`: `upside / (upside + downside) * 100`.
pub open spec fn rsi_at(s: Seq<(u64, int)>, d: int, i: int) -> int {
    tdiv(upside_at(s, d, i) * (SCALE as int), upside_at(s, d, i) + downside_at(s, d, i)) * 100
}

/// The RSI series of `s` with window `d`: one value per element from
/// index `d` on, at that element's timestamp.
pub open spec fn rsi_s(s: Seq<(u64, int)>, d: int) -> Seq<(u64, int)> {
    Seq::new((s.len() - d) as nat, |k: int| (s[k + d].0, rsi_at(s, d, k + d)))
}

/// Gains and losses are nonnegative and bounded by twice the value bound;
/// so are their Wilder smoothings.
proof fn lemma_side_bounds(s: Seq<(u64, int)>, d: int, i: int, b: int)
    requires
        1 <= d,
        d <= i < s.len(),
        0 <= b,
        bounded(s, b),
    ensures
        0 <= upside_at(s, d, i) <= 2 * b,
        0 <= downside_at(s, d, i) <= 2 * b,
    decreases i,
{
    if i <= d {
        lemma_sum_side_bound(s, d, b);
        lemma_tdiv_range(gain_sum(s, d), d, 0, 2 * b);
        lemma_tdiv_range(loss_sum(s, d), d, 0, 2 * b);
        assert(0 * d == 0 && (2 * b) * d == 2 * b * d) by (nonlinear_arith);
    } else {
        lemma_side_bounds(s, d, i - 1, b);
        let u = upside_at(s, d, i - 1);
        let w = downside_at(s, d, i - 1);
        let g = gain(s[i - 1].1, s[i].1);
        let l = gain(s[i].1, s[i - 1].1);
        assert(iabs(s[i - 1].1) <= b && iabs(s[i as int].1) <= b);
        assert(0 * d <= u * (d - 1) + g <= (2 * b) * d && 0 * d <= w * (d - 1) + l <= (2 * b) * d)
            by (nonlinear_arith)
            requires
                0 <= u <= 2 * b && 0 <= w <= 2 * b && 0 <= g <= 2 * b && 0 <= l <= 2 * b && d >= 1,
        ;
        lemma_tdiv_range(u * (d - 1) + g, d, 0, 2 * b);
        lemma_tdiv_range(w * (d - 1) + l, d, 0, 2 * b);
    }
}

/// The initial gain and loss totals lie between `0` and `2 * b * d`.
proof fn lemma_sum_side_bound(s: Seq<(u64, int)>, t: int, b: int)
    requires
        0 <= t < s.len(),
        0 <= b,
        bounded(s, b),
    ensures
        0 <= gain_sum(s, t) <= 2 * b * t,
        0 <= loss_sum(s, t) <= 2 * b * t,
    decreases t,
{
    if t > 0 {
        lemma_sum_side_bound(s, t - 1, b);
        assert(iabs(s[t - 1].1) <= b && iabs(s[t].1) <= b);
        assert(2 * b * (t - 1) + 2 * b == 2 * b * t) by (nonlinear_arith);
    } else {
        assert(2 * b * t >= 0) by (nonlinear_arith)
            requires
                b >= 0 && t >= 0,
        ;
    }
}

/// A defined RSI value lies between 0 and 100.
pub proof fn lemma_rsi_at_in_range(s: Seq<(u64, int)>, d: int, i: int, b: int)
    requires
        1 <= d,
        d <= i < s.len(),
        0 <= b,
        bounded(s, b),
        rsi_defined(s, d, i),
    ensures
        0 <= rsi_at(s, d, i) <= 100 * (SCALE as int),
{
    lemma_side_bounds(s, d, i, b);
    let u = upside_at(s, d, i);
    let w = downside_at(s, d, i);
    assert(0 * (u + w) <= u * (SCALE as int) <= (SCALE as int) * (u + w)) by (nonlinear_arith)
        requires
            0 <= u && 0 <= w && u + w > 0,
    ;
    lemma_tdiv_range(u * (SCALE as int), u + w, 0, SCALE as int);
}

/// Returns RSI for the given entry list.
///
/// Emits one value per element from the `duration`-th on, each between 0
/// and 100; fewer than `duration + 1` points yield an empty result.  The
/// call fails on an ill-formed scalar, or with a divide-by-zero error at
/// the first position whose gain and loss averages are both zero.
pub fn rsi<T: IndexEntryLike>(entries: &[T], duration: usize) -> (r: Result<Vec<IndexEntry>, Error>)
    requires
        values_within(entries@, VAL_LIMIT as int),
    ensures
        duration == 0 || entries@.len() < duration ==> (r matches Ok(v) && v@.len() == 0),
        1 <= duration && duration == entries@.len() && all_finite(ent_models(entries@)) ==> (
        r matches Ok(v) && v@.len() == 0),
        1 <= duration < entries@.len() && all_finite(ent_models(entries@)) && (forall|i: int|
            duration <= i < entries@.len() ==> rsi_defined(
                sorted_model(entries@),
                duration as int,
                i,
            )) ==> (r matches Ok(v) && is_output(
            v@,
            rsi_s(sorted_model(entries@), duration as int),
        ) && (forall|k: int|
            0 <= k < v@.len() ==> 0 <= (#[trigger] v@[k]).value.m_spec() <= 100 * (SCALE as int))),
        1 <= duration < entries@.len() && all_finite(ent_models(entries@)) && !(forall|i: int|
            duration <= i < entries@.len() ==> rsi_defined(
                sorted_model(entries@),
                duration as int,
                i,
            )) ==> (r matches Err(e) && exists|i: int|
            duration <= i < entries@.len() && !rsi_defined(
                sorted_model(entries@),
                duration as int,
                i,
            ) && (forall|j: int|
                duration <= j < i ==> rsi_defined(sorted_model(entries@), duration as int, j))
                && is_div_zero_err(e, #[trigger] sorted_model(entries@)[i].0, "upside+downside"@)),
        1 <= duration <= entries@.len() && !all_finite(ent_models(entries@)) ==> (r matches Err(e)
            && is_entry_validation_err(entries@, e)),
{
    if duration == 0 || entries.len() < duration {
        return Ok(Vec::new());
    }
    let sorted = match prepare(entries) {
        Ok(v) => v,
        Err(e) => {
            return Err(e);
        },
    };
    let d = duration;
    let n = sorted.len();
    if n == d {
        return Ok(Vec::new());
    }
    let ghost sm = sorted_model(entries@);
    proof {
        assert(sm == lift(sorted@));
        assert(bounded(sm, VAL_LIMIT as int));
    }
    // First window: total gains and losses over the first `d` steps.
    let mut gs: i128 = 0;
    let mut ls_: i128 = 0;
    let mut t: usize = 1;
    while t <= d
        invariant
            1 <= t <= d + 1,
            d < n == sorted@.len(),
            sm == lift(sorted@),
            bounded(sm, VAL_LIMIT as int),
            gs as int == gain_sum(sm, t - 1),
            ls_ as int == loss_sum(sm, t - 1),
            0 <= gs as int <= 2 * (VAL_LIMIT as int) * (t - 1),
            0 <= ls_ as int <= 2 * (VAL_LIMIT as int) * (t - 1),
        decreases d + 1 - t,
    {
        proof {
            assert(iabs(sm[t - 1].1) <= VAL_LIMIT as int && iabs(sm[t as int].1)
                <= VAL_LIMIT as int);
            assert(2 * (VAL_LIMIT as int) * (t - 1) + 2 * (VAL_LIMIT as int) == 2 * (
            VAL_LIMIT as int) * (t as int)) by (nonlinear_arith);
            assert(2 * (VAL_LIMIT as int) * (t as int) <= 2 * (VAL_LIMIT as int)
                * 0xffff_ffff_ffff_ffff) by (nonlinear_arith)
                requires
                    t as int <= 0xffff_ffff_ffff_ffff,
            ;
        }
        let a = sorted[t - 1].1;
        let b = sorted[t].1;
        if b > a {
            gs = gs + (b - a);
        } else if a > b {
            ls_ = ls_ + (a - b);
        }
        t += 1;
    }
    let mut up = div_i128(gs, d as i128);
    let mut dn = div_i128(ls_, d as i128);
    proof {
        lemma_side_bounds(sm, d as int, d as int, VAL_LIMIT as int);
    }
    let mut out: Vec<(u64, i128)> = Vec::new();
    let mut i: usize = d;
    while i < n
        invariant
            1 <= d < n,
            n == sorted@.len(),
            sm == lift(sorted@),
            bounded(sm, VAL_LIMIT as int),
            d <= i <= n,
            d == duration,
            n == entries@.len(),
            sm == sorted_model(entries@),
            all_finite(ent_models(entries@)),
            up as int == upside_at(sm, d as int, i as int - 1),
            dn as int == downside_at(sm, d as int, i as int - 1),
            0 <= up as int <= 2 * (VAL_LIMIT as int),
            0 <= dn as int <= 2 * (VAL_LIMIT as int),
            forall|j: int| d <= j < i ==> rsi_defined(sm, d as int, j),
            out@.len() == i - d,
            forall|k: int| 0 <= k < i - d ==> #[trigger] lift(out@)[k] == rsi_s(sm, d as int)[k],
            forall|k: int| 0 <= k < i - d ==> 0 <= #[trigger] lift(out@)[k].1 <= 100 * (SCALE as int),
        decreases n - i,
    {
        if i > d {
            proof {
                assert(iabs(sm[i as int - 1].1) <= VAL_LIMIT as int && iabs(sm[i as int].1)
                    <= VAL_LIMIT as int);
                let u = up as int;
                let w = dn as int;
                let g = gain(sm[i as int - 1].1, sm[i as int].1);
                let l = gain(sm[i as int].1, sm[i as int - 1].1);
                assert(0 * (d as int) <= u * (d as int - 1) + g <= (2 * (VAL_LIMIT as int)) * (
                d as int) && 0 * (d as int) <= w * (d as int - 1) + l <= (2 * (VAL_LIMIT as int)) * (
                d as int) && (2 * (VAL_LIMIT as int)) * (d as int) <= (2 * (VAL_LIMIT as int))
                    * 0xffff_ffff_ffff_ffff) by (nonlinear_arith)
                    requires
                        0 <= u <= 2 * (VAL_LIMIT as int) && 0 <= w <= 2 * (VAL_LIMIT as int) && 0
                            <= g <= 2 * (VAL_LIMIT as int) && 0 <= l <= 2 * (VAL_LIMIT as int) && 1
                            <= d as int <= 0xffff_ffff_ffff_ffff,
                ;
            }
            let a = sorted[i - 1].1;
            let b = sorted[i].1;
            let g: i128 = if b > a {
                b - a
            } else {
                0
            };
            let l: i128 = if a > b {
                a - b
            } else {
                0
            };
            let nu = div_i128(up * (d as i128 - 1) + g, d as i128);
            let nd = div_i128(dn * (d as i128 - 1) + l, d as i128);
            proof {
                lemma_tdiv_range(
                    up as int * (d as int - 1) + g as int,
                    d as int,
                    0,
                    2 * (VAL_LIMIT as int),
                );
                lemma_tdiv_range(
                    dn as int * (d as int - 1) + l as int,
                    d as int,
                    0,
                    2 * (VAL_LIMIT as int),
                );
                assert(0 * (d as int) == 0 && (2 * (VAL_LIMIT as int)) * (d as int) == 2 * (
                VAL_LIMIT as int) * (d as int)) by (nonlinear_arith);
            }
            up = nu;
            dn = nd;
        }
        proof {
            assert(up as int == upside_at(sm, d as int, i as int));
            assert(dn as int == downside_at(sm, d as int, i as int));
        }
        if up + dn == 0 {
            let e = Error::DividedByZero { at: sorted[i].0, field: "upside+downside".to_owned() };
            proof {
                assert(!rsi_defined(sm, d as int, i as int));
                assert(is_div_zero_err(e, sm[i as int].0, "upside+downside"@));
                assert(duration <= i && (i as int) < entries@.len() && !rsi_defined(
                    sorted_model(entries@),
                    duration as int,
                    i as int,
                ) && (forall|j: int|
                    duration <= j < i as int ==> rsi_defined(
                        sorted_model(entries@),
                        duration as int,
                        j,
                    )) && is_div_zero_err(e, #[trigger] sorted_model(entries@)[i as int].0, "upside+downside"@));
            }
            return Err(e);
        }
        proof {
            assert(up as int * (SCALE as int) <= (2 * (VAL_LIMIT as int)) * (SCALE as int))
                by (nonlinear_arith)
                requires
                    0 <= up as int <= 2 * (VAL_LIMIT as int),
            ;
            assert(0 * (up as int + dn as int) <= up as int * (SCALE as int) <= (SCALE as int) * (
            up as int + dn as int)) by (nonlinear_arith)
                requires
                    0 <= up as int && 0 <= dn as int && up as int + dn as int > 0,
            ;
            lemma_tdiv_range(up as int * SCALE as int, up as int + dn as int, 0, SCALE as int);
        }
        let q = div_i128(up * SCALE, up + dn);
        let ghost old_out = out@;
        out.push((sorted[i].0, q * 100));
        proof {
            assert(lift(out@)[i - d] == rsi_s(sm, d as int)[i - d]);
            assert(forall|k: int| 0 <= k < i - d ==> #[trigger] lift(out@)[k] == lift(old_out)[k]);
        }
        i += 1;
    }
    proof {
        assert(lift(out@) =~= rsi_s(sm, d as int));
    }
    let r = wrap_entries(out);
    Ok(r)
}

} // verus!
