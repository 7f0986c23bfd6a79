//! RCI (Rank Correlation Index).
//!
//! Per window, each element is ranked by recency (most recent first) and
//! by value (largest first, stable on ties); the squared rank differences
//! feed Spearman's formula `(1 - 6 * d / (n^3 - n)) * 100`.

use crate::error::{is_div_zero_err, Error};
use crate::fixed::{div_i128, iabs, lemma_tdiv_range, tdiv, SCALE};
use crate::index_entry::{IndexEntry, IndexEntryLike};
use crate::series::{
    all_finite, ent_models, is_entry_validation_err, is_output, lift, prepare, sorted_model,
    values_within, wrap_entries, VAL_LIMIT,
};
use vstd::prelude::*;

verus! {

/// Largest window the cubed-window arithmetic supports.
pub const RCI_DURATION_LIMIT: usize = 2_000_000_000;

/// Number of elements among the first `t` of the window at `k` that rank
/// above position `j` by value: strictly greater, or equal and earlier.
pub open spec fn price_rank_count(s: Seq<(u64, int)>, k: int, j: int, t: int) -> int
    decreases t,
{
    if t <= 0 {
        0
    } else {
        price_rank_count(s, k, j, t - 1) + (if s[k + t - 1].1 > s[k + j].1 || (s[k + t - 1].1
            == s[k + j].1 && t - 1 < j) {
            1int
        } else {
            0int
        })
    }
}

/// Sum over the first `t` window positions of the squared difference
/// between the recency rank `d - 1 - j` and the value rank.
pub open spec fn rank_diff_sum(s: Seq<(u64, int)>, k: int, d: int, t: int) -> int
    decreases t,
{
    if t <= 0 {
        0
    } else {
        let j = t - 1;
        let diff = (d - 1 - j) - price_rank_count(s, k, j, d);
        rank_diff_sum(s, k, d, t - 1) + diff * diff
    }
}

/// The RCI value of the window at `k`:
/// `(1 - 6 * rank_diff_sum / (d^3 - d)) * 100`.
pub open spec fn rci_at(s: Seq<(u64, int)>, k: int, d: int) -> int {
    ((SCALE as int) - tdiv(6 * rank_diff_sum(s, k, d, d) * (SCALE as int), d * d * d - d)) * 100
}

/// The RCI series of `s` with window `d`, anchored at each window's last
/// timestamp (meaningful for `d >= 2`).
pub open spec fn rci_s(s: Seq<(u64, int)>, d: int) -> Seq<(u64, int)> {
    if d < 1 || s.len() < d {
        Seq::empty()
    } else {
        Seq::new((s.len() - d + 1) as nat, |k: int| (s[k + d - 1].0, rci_at(s, k, d)))
    }
}

/// A value-rank count over `t` positions lies between 0 and `t`.
proof fn lemma_price_rank_bound(s: Seq<(u64, int)>, k: int, j: int, t: int)
    requires
        t >= 0,
    ensures
        0 <= price_rank_count(s, k, j, t) <= t,
    decreases t,
{
    if t > 0 {
        lemma_price_rank_bound(s, k, j, t - 1);
    }
}

/// A squared-rank-difference sum over `t` positions lies between 0 and
/// `t * d * d`.
proof fn lemma_rank_diff_sum_bound(s: Seq<(u64, int)>, k: int, d: int, t: int)
    requires
        0 <= t <= d,
    ensures
        0 <= rank_diff_sum(s, k, d, t) <= t * (d * d),
    decreases t,
{
    if t > 0 {
        lemma_rank_diff_sum_bound(s, k, d, t - 1);
        let j = t - 1;
        lemma_price_rank_bound(s, k, j, d);
        let diff = (d - 1 - j) - price_rank_count(s, k, j, d);
        assert(0 <= diff * diff <= d * d && (t - 1) * (d * d) + d * d == t * (d * d))
            by (nonlinear_arith)
            requires
                iabs(diff) <= d,
        ;
    } else {
        assert(t * (d * d) == 0) by (nonlinear_arith)
            requires
                t == 0,
        ;
    }
}

/// Returns RCI for the given entry list, one value per window, anchored
/// at the window's last timestamp.
///
/// A zero `duration` or too-short input yields an empty result.  Window 1
/// makes Spearman's denominator `n^3 - n` zero, so it fails with a
/// divide-by-zero error at the first window's timestamp.  An ill-formed
/// scalar fails the call with its timestamp.
pub fn rci<T: IndexEntryLike>(entries: &[T], duration: usize) -> (r: Result<Vec<IndexEntry>, Error>)
    requires
        values_within(entries@, VAL_LIMIT as int),
        duration == 0 || entries@.len() < duration || duration <= RCI_DURATION_LIMIT,
    ensures
        duration == 0 || entries@.len() < duration ==> (r matches Ok(v) && v@.len() == 0),
        duration == 1 && entries@.len() >= 1 && all_finite(ent_models(entries@)) ==> (r matches
            Err(e) && is_div_zero_err(e, sorted_model(entries@)[0].0, "duration"@)),
        2 <= duration <= entries@.len() && all_finite(ent_models(entries@)) ==> (r matches Ok(v)
            && is_output(v@, rci_s(sorted_model(entries@), duration as int))),
        1 <= duration <= entries@.len() && !all_finite(ent_models(entries@)) ==> (r matches Err(e)
            && is_entry_validation_err(entries@, e)),
{
    if duration == 0 || entries.len() < duration {
        return Ok(Vec::new());
    }
    let sorted = match prepare(entries) {
        Ok(v) => v,
        Err(e) => {
            return Err(e);
        },
    };
    if duration == 1 {
        return Err(Error::DividedByZero { at: sorted[0].0, field: "duration".to_owned() });
    }
    let ghost sm = sorted_model(entries@);
    let d = duration;
    let n = sorted.len();
    let di = d as i128;
    proof {
        assert((di as int) * (di as int) <= 0x4000_0000_0000_0000 && 2 <= (di as int) * (
        di as int) * (di as int) - di as int <= 0x1_0000_0000_0000_0000_0000_0000_0000)
            by (nonlinear_arith)
            requires
                2 <= di as int <= 2_000_000_000,
        ;
    }
    let den: i128 = di * di * di - di;
    let mut out: Vec<(u64, i128)> = Vec::new();
    let mut i: usize = 0;
    while i <= n - d
        invariant
            2 <= d <= n,
            d <= RCI_DURATION_LIMIT,
            di == d as i128,
            den as int == (d as int) * (d as int) * (d as int) - (d as int),
            2 <= den as int <= 0x1_0000_0000_0000_0000_0000_0000_0000,
            n == sorted@.len(),
            sm == lift(sorted@),
            i <= n - d + 1,
            out@.len() == i,
            forall|k: int| 0 <= k < i ==> #[trigger] lift(out@)[k] == rci_s(sm, d as int)[k],
        decreases n - d + 1 - i,
    {
        // Squared rank differences of the window starting at `i`.
        let mut acc: i128 = 0;
        let mut j: usize = 0;
        while j < d
            invariant
                2 <= d <= n == sorted@.len(),
                d <= RCI_DURATION_LIMIT,
                di == d as i128,
                i + d <= n,
                sm == lift(sorted@),
                j <= d,
                acc as int == rank_diff_sum(sm, i as int, d as int, j as int),
                0 <= acc as int <= (j as int) * ((d as int) * (d as int)),
            decreases d - j,
        {
            // Value rank of position `j` within the window.
            let mut pr: i128 = 0;
            let mut t: usize = 0;
            while t < d
                invariant
                    2 <= d <= n == sorted@.len(),
                    i + d <= n,
                    j < d,
                    sm == lift(sorted@),
                    t <= d,
                    pr as int == price_rank_count(sm, i as int, j as int, t as int),
                    0 <= pr as int <= t as int,
                decreases d - t,
            {
                let vt = sorted[i + t].1;
                let vj = sorted[i + j].1;
                if vt > vj || (vt == vj && t < j) {
                    pr = pr + 1;
                }
                t += 1;
            }
            proof {
                lemma_rank_diff_sum_bound(sm, i as int, d as int, j as int);
                let diff = ((d as int) - 1 - (j as int)) - (pr as int);
                assert(0 <= diff * diff <= (d as int) * (d as int) && (j as int) * ((d as int) * (
                d as int)) + (d as int) * (d as int) == (j as int + 1) * ((d as int) * (d as int))
                    && (j as int + 1) * ((d as int) * (d as int)) <= 2_000_000_000 * ((d as int) * (
                d as int)) && 2_000_000_000 * ((d as int) * (d as int))
                    <= 0x1_0000_0000_0000_0000_0000_0000_0000) by (nonlinear_arith)
                    requires
                        iabs(diff) <= d as int && 0 <= j as int && j as int + 1 <= d as int
                            <= 2_000_000_000,
                ;
            }
            let dr: i128 = di - 1 - (j as i128);
            let diff: i128 = dr - pr;
            acc = acc + diff * diff;
            j += 1;
        }
        proof {
            let dd = d as int;
            let ds = rank_diff_sum(sm, i as int, dd, dd);
            lemma_rank_diff_sum_bound(sm, i as int, dd, dd);
            assert(0 <= 6 * ds * (SCALE as int) && 6 * ds * (SCALE as int) <= 8 * (SCALE as int) * (
            den as int) && 6 * ds * (SCALE as int) < 0x4000_0000_0000_0000_0000_0000_0000_0000 && 0
                * (den as int) <= 6 * ds * (SCALE as int) <= (8 * (SCALE as int)) * (den as int))
                by (nonlinear_arith)
                requires
                    0 <= ds <= dd * (dd * dd) && den as int == dd * dd * dd - dd && 2 <= dd
                        <= 2_000_000_000,
            ;
        }
        let q = div_i128(6 * acc * SCALE, den);
        proof {
            lemma_tdiv_range(
                6 * (acc as int) * (SCALE as int),
                den as int,
                0,
                8 * (SCALE as int),
            );
        }
        let val = (SCALE - q) * 100;
        let ghost old_out = out@;
        out.push((sorted[i + d - 1].0, val));
        proof {
            assert(lift(out@)[i as int] == rci_s(sm, d as int)[i as int]);
            assert(forall|k: int| 0 <= k < i ==> #[trigger] lift(out@)[k] == lift(old_out)[k]);
        }
        i += 1;
    }
    proof {
        assert(lift(out@) =~= rci_s(sm, d as int));
    }
    Ok(wrap_entries(out))
}

} // verus!
