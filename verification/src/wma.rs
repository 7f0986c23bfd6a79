//! WMA (Weighted Moving Average).
//!
//! Per window, values are weighted linearly (`1` for the oldest element up
//! to `duration` for the newest) and divided by the weight total.

use crate::error::Error;
use crate::fixed::{div_i128, iabs, lemma_tdiv_range, tdiv};
use crate::index_entry::{IndexEntry, IndexEntryLike};
use crate::series::{
    all_finite, bounded, ent_models, is_entry_validation_err, is_output, lift, prepare,
    sorted_model, values_within, wrap_entries, CORE_LIMIT, VAL_LIMIT,
};
use vstd::arithmetic::div_mod::{lemma_div_multiples_vanish, lemma_fundamental_div_mod};
use vstd::prelude::*;

verus! {

/// Largest window the weighted sum supports without leaving `i128`.
pub const WMA_DURATION_LIMIT: usize = 4_000_000_000;

/// Weighted sum of the first `t` values of the window starting at `k`,
/// with weights `1..=t`.
pub open spec fn wsum(s: Seq<(u64, int)>, k: int, t: int) -> int
    decreases t,
{
    if t <= 0 {
        0
    } else {
        wsum(s, k, t - 1) + s[k + t - 1].1 * t
    }
}

/// The WMA series of `s` with window `d`: per window the linearly
/// weighted mean, truncated, at the window's last timestamp.
pub open spec fn wma_s(s: Seq<(u64, int)>, d: int) -> Seq<(u64, int)> {
    if d < 1 || s.len() < d {
        Seq::empty()
    } else {
        Seq::new(
            (s.len() - d + 1) as nat,
            |k: int| (s[k + d - 1].0, tdiv(wsum(s, k, d), (d * (d + 1)) / 2)),
        )
    }
}

/// Twice the triangle number `d * (d + 1) / 2` is exactly `d * (d + 1)`.
proof fn lemma_half_product(d: int)
    requires
        d >= 0,
    ensures
        2 * ((d * (d + 1)) / 2) == d * (d + 1),
{
    let h = d / 2;
    lemma_fundamental_div_mod(d, 2);
    if d % 2 == 0 {
        assert(d * (d + 1) == 2 * (h * (d + 1))) by (nonlinear_arith)
            requires
                d == 2 * h,
        ;
        lemma_div_multiples_vanish(h * (d + 1), 2);
    } else {
        assert(d + 1 == 2 * (h + 1));
        assert(d * (d + 1) == 2 * (d * (h + 1))) by (nonlinear_arith)
            requires
                d + 1 == 2 * (h + 1),
        ;
        lemma_div_multiples_vanish(d * (h + 1), 2);
    }
}

/// Twice a weighted window sum of values bounded by `b` is bounded by
/// `b * t * (t + 1)`.
proof fn lemma_wsum_bound(s: Seq<(u64, int)>, k: int, t: int, b: int)
    requires
        0 <= k,
        k + t <= s.len(),
        0 <= b,
        forall|j: int| 0 <= j < s.len() ==> iabs(#[trigger] s[j].1) <= b,
    ensures
        2 * iabs(wsum(s, k, t)) <= b * (t * (t + 1)),
    decreases t,
{
    if t <= 0 {
        assert(b * (t * (t + 1)) >= 0) by (nonlinear_arith)
            requires
                t <= 0 && b >= 0,
        ;
    } else {
        lemma_wsum_bound(s, k, t - 1, b);
        assert(2 * iabs(s[k + t - 1].1 * t) <= 2 * (b * t) && b * ((t - 1) * t) + 2 * (b * t) == b
            * (t * (t + 1))) by (nonlinear_arith)
            requires
                t >= 1 && 0 <= b && iabs(s[k + t - 1].1) <= b,
        ;
    }
}

/// Every weighted mean of values bounded by `b` is itself bounded by `b`.
pub proof fn lemma_wma_s_bounded(s: Seq<(u64, int)>, d: int, b: int)
    requires
        0 <= b,
        bounded(s, b),
    ensures
        bounded(wma_s(s, d), b),
{
    if 1 <= d <= s.len() {
        let den = (d * (d + 1)) / 2;
        lemma_half_product(d);
        assert forall|k: int| 0 <= k < wma_s(s, d).len() implies iabs(
            #[trigger] wma_s(s, d)[k].1,
        ) <= b by {
            lemma_wsum_bound(s, k, d, b);
            assert(den >= 1 && iabs(wsum(s, k, d)) <= b * den) by (nonlinear_arith)
                requires
                    2 * iabs(wsum(s, k, d)) <= b * (d * (d + 1)) && 2 * den == d * (d + 1) && d
                        >= 1 && b >= 0,
            ;
            assert(-b * den <= wsum(s, k, d) <= b * den) by (nonlinear_arith)
                requires
                    iabs(wsum(s, k, d)) <= b * den,
            ;
            lemma_tdiv_range(wsum(s, k, d), den, -b, b);
        }
    }
}

/// Weighted sliding-window mean over already validated, sorted pairs.
pub(crate) fn wma_core(xs: &Vec<(u64, i128)>, d: usize) -> (r: Vec<(u64, i128)>)
    requires
        d <= WMA_DURATION_LIMIT,
        bounded(lift(xs@), CORE_LIMIT as int),
    ensures
        lift(r@) == wma_s(lift(xs@), d as int),
{
    let ghost ls = lift(xs@);
    let n = xs.len();
    if d == 0 || n < d {
        let r: Vec<(u64, i128)> = Vec::new();
        proof {
            assert(lift(r@) =~= wma_s(ls, d as int));
        }
        return r;
    }
    let half: usize = d / 2;
    proof {
        lemma_fundamental_div_mod(d as int, 2);
        assert((half as int) * (d as int + 1) <= 0x1_0000_0000_0000_0000_0000 && (d as int) * ((
        half as int) + 1) <= 0x1_0000_0000_0000_0000_0000) by (nonlinear_arith)
            requires
                1 <= d as int <= 4_000_000_000 && 0 <= 2 * (half as int) <= d as int,
        ;
    }
    let den: i128 = if d % 2 == 0 {
        (half as i128) * (d as i128 + 1)
    } else {
        (d as i128) * (half as i128 + 1)
    };
    proof {
        lemma_half_product(d as int);
        if d % 2 == 0 {
            assert(2 * ((half as int) * (d as int + 1)) == (d as int) * (d as int + 1))
                by (nonlinear_arith)
                requires
                    d as int == 2 * (half as int),
            ;
        } else {
            assert(2 * ((d as int) * ((half as int) + 1)) == (d as int) * (d as int + 1))
                by (nonlinear_arith)
                requires
                    d as int + 1 == 2 * ((half as int) + 1),
            ;
        }
        assert((half as int) * (d as int + 1) <= 2_000_000_001 * (d as int + 1) && (d as int) * ((
        half as int) + 1) <= 4_000_000_000 * ((half as int) + 1)) by (nonlinear_arith)
            requires
                1 <= d as int <= 4_000_000_000 && half as int <= 2_000_000_001,
        ;
        assert(2 * (den as int) == (d as int) * (d as int + 1));
        assert(den as int == ((d as int) * (d as int + 1)) / 2) by {
            lemma_div_multiples_vanish(den as int, 2);
        }
        assert(den >= 1) by (nonlinear_arith)
            requires
                2 * (den as int) == (d as int) * (d as int + 1) && d as int >= 1,
        ;
    }
    let mut r: Vec<(u64, i128)> = Vec::new();
    let mut i: usize = 0;
    while i <= n - d
        invariant
            1 <= d <= n,
            d <= WMA_DURATION_LIMIT,
            n == xs@.len(),
            ls == lift(xs@),
            bounded(ls, CORE_LIMIT as int),
            2 * (den as int) == (d as int) * (d as int + 1),
            den as int == ((d as int) * (d as int + 1)) / 2,
            1 <= den as int,
            i <= n - d + 1,
            r@.len() == i,
            forall|k: int| 0 <= k < i ==> #[trigger] lift(r@)[k] == wma_s(ls, d as int)[k],
        decreases n - d + 1 - i,
    {
        let end: usize = i + d;
        let mut sw: i128 = 0;
        let mut j: usize = i;
        while j < end
            invariant
                i <= j <= end,
                end == i + d,
                end <= n == xs@.len(),
                d <= WMA_DURATION_LIMIT,
                ls == lift(xs@),
                bounded(ls, CORE_LIMIT as int),
                sw as int == wsum(ls, i as int, j - i),
                2 * iabs(sw as int) <= (CORE_LIMIT as int) * ((j - i) * (j - i + 1)),
            decreases end - j,
        {
            let ghost t = j - i + 1;
            proof {
                assert(iabs(ls[j as int].1) <= CORE_LIMIT as int);
                assert(2 * iabs(ls[j as int].1 * t) <= 2 * ((CORE_LIMIT as int) * t) && (
                CORE_LIMIT as int) * ((t - 1) * t) + 2 * ((CORE_LIMIT as int) * t) == (
                CORE_LIMIT as int) * (t * (t + 1)) && (CORE_LIMIT as int) * (t * (t + 1)) <= (
                CORE_LIMIT as int) * (4_000_000_001 * (t + 1)) && (CORE_LIMIT as int) * t
                    <= 0x1_0000_0000_0000_0000_0000_0000 && (CORE_LIMIT as int) * (4_000_000_001 * (
                t + 1)) < 0x4000_0000_0000_0000_0000_0000_0000_0000) by (nonlinear_arith)
                    requires
                        1 <= t <= 4_000_000_000 && iabs(ls[j as int].1) <= CORE_LIMIT as int,
                ;
            }
            let w: i128 = (j - i) as i128 + 1;
            sw = sw + xs[j].1 * w;
            j += 1;
        }
        proof {
            assert(iabs(sw as int) <= (CORE_LIMIT as int) * (den as int) && -(CORE_LIMIT as int) * (
            den as int) <= sw as int <= (CORE_LIMIT as int) * (den as int) && (CORE_LIMIT as int) * (
            den as int) < 0x4000_0000_0000_0000_0000_0000_0000_0000) by (nonlinear_arith)
                requires
                    2 * iabs(sw as int) <= (CORE_LIMIT as int) * ((d as int) * (d as int + 1)) && 2
                        * (den as int) == (d as int) * (d as int + 1) && den as int >= 1 && 1
                        <= d as int <= 4_000_000_000,
            ;
        }
        let q = div_i128(sw, den);
        proof {
            lemma_tdiv_range(sw as int, den as int, -(CORE_LIMIT as int), CORE_LIMIT as int);
        }
        let ghost old_r = r@;
        r.push((xs[i + d - 1].0, q));
        proof {
            assert(lift(r@)[i as int] == wma_s(ls, d as int)[i as int]);
            assert(forall|k: int| 0 <= k < i ==> #[trigger] lift(r@)[k] == lift(old_r)[k]);
        }
        i += 1;
    }
    proof {
        assert(lift(r@) =~= wma_s(ls, d as int));
    }
    r
}

/// Returns WMA (Weighted Moving Average) for the given entry list: per
/// window the linearly weighted mean, anchored at the window's last
/// timestamp.  A zero `duration` or too-short input yields an empty
/// result; an ill-formed scalar fails the call with its timestamp.
pub fn wma<T: IndexEntryLike>(entries: &[T], duration: usize) -> (r: Result<Vec<IndexEntry>, Error>)
    requires
        values_within(entries@, VAL_LIMIT as int),
        duration == 0 || entries@.len() < duration || duration <= WMA_DURATION_LIMIT,
    ensures
        duration == 0 || entries@.len() < duration ==> (r matches Ok(v) && v@.len() == 0),
        1 <= duration <= entries@.len() && all_finite(ent_models(entries@)) ==> (r matches Ok(v)
            && is_output(v@, wma_s(sorted_model(entries@), duration as int)) && v@.len()
            == entries@.len() - duration + 1 && (forall|k: int|
            0 <= k < v@.len() ==> (#[trigger] v@[k]).at == sorted_model(entries@)[k + duration
                - 1].0)),
        1 <= duration <= entries@.len() && !all_finite(ent_models(entries@)) ==> (r matches Err(e)
            && is_entry_validation_err(entries@, e)),
{
    if duration == 0 || entries.len() < duration {
        return Ok(Vec::new());
    }
    let sorted = match prepare(entries) {
        Ok(v) => v,
        Err(e) => {
            return Err(e);
        },
    };
    proof {
        assert(bounded(lift(sorted@), CORE_LIMIT as int));
        assert(lift(sorted@).len() == sorted@.len());
    }
    let out = wma_core(&sorted, duration);
    let r = wrap_entries(out);
    proof {
        let sm = sorted_model(entries@);
        assert forall|k: int| 0 <= k < r@.len() implies (#[trigger] r@[k]).at == sm[k + duration
            - 1].0 by {
            assert(wma_s(sm, duration as int)[k].0 == sm[k + duration - 1].0);
        }
    }
    Ok(r)
}

/// Law: WMA with window 1 is the identity on values — the output series
/// equals the sorted input series.
pub proof fn lemma_wma_one_is_identity(s: Seq<(u64, int)>)
    requires
        s.len() >= 1,
    ensures
        wma_s(s, 1) == s,
{
    assert forall|k: int| 0 <= k < s.len() implies wma_s(s, 1)[k] == s[k] by {
        assert(wsum(s, k, 1) == s[k].1 * 1) by {
            reveal_with_fuel(wsum, 2);
        }
        crate::fixed::lemma_tdiv_exact(s[k].1, 1);
    }
    assert(wma_s(s, 1) =~= s);
}

} // verus!
