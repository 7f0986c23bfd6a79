//! SMA (Simple Moving Average).
//!
//! One arithmetic mean per sliding window, anchored at the window's last
//! timestamp.

use crate::error::Error;
use crate::fixed::{div_i128, iabs, lemma_tdiv_range, tdiv};
use crate::index_entry::{IndexEntry, IndexEntryLike};
use crate::series::{
    all_finite, bounded, ent_models, is_entry_validation_err, is_output, lift, prepare,
    sorted_model, sum_range, sum_window_core, values_within, wrap_entries, CORE_LIMIT, VAL_LIMIT,
};
use vstd::prelude::*;

verus! {

/// The SMA series of `s` with window `d`: for each window of `d`
/// consecutive elements, the truncated mean of its values, at the
/// timestamp of its last element.
pub open spec fn sma_s(s: Seq<(u64, int)>, d: int) -> Seq<(u64, int)> {
    if d < 1 || s.len() < d {
        Seq::empty()
    } else {
        Seq::new(
            (s.len() - d + 1) as nat,
            |k: int| (s[k + d - 1].0, tdiv(sum_range(s, k, k + d), d)),
        )
    }
}

/// Sliding-window mean over already validated, sorted pairs.
pub(crate) fn sma_core(xs: &Vec<(u64, i128)>, d: usize, Ghost(b): Ghost<int>) -> (r: Vec<
    (u64, i128),
>)
    requires
        1 <= d <= xs@.len(),
        0 <= b,
        bounded(lift(xs@), b),
        (d as int) * b <= 0x4000_0000_0000_0000_0000_0000_0000_0000,
    ensures
        lift(r@) == sma_s(lift(xs@), d as int),
        bounded(lift(r@), b),
{
    let ghost ls = lift(xs@);
    let n = xs.len();
    let mut r: Vec<(u64, i128)> = Vec::new();
    let mut i: usize = 0;
    while i <= n - d
        invariant
            1 <= d <= n,
            n == xs@.len(),
            ls == lift(xs@),
            0 <= b,
            bounded(ls, b),
            (d as int) * b <= 0x4000_0000_0000_0000_0000_0000_0000_0000,
            i <= n - d + 1,
            r@.len() == i,
            forall|k: int| 0 <= k < i ==> #[trigger] lift(r@)[k] == sma_s(ls, d as int)[k],
            bounded(lift(r@), b),
        decreases n - d + 1 - i,
    {
        let s = sum_window_core(xs, i, d, Ghost(b));
        let q = div_i128(s, d as i128);
        proof {
            assert(-(b) * (d as int) <= s as int <= b * (d as int)) by (nonlinear_arith)
                requires
                    iabs(s as int) <= (d as int) * b,
            ;
            lemma_tdiv_range(s as int, d as int, -b, b);
        }
        let ghost old_r = r@;
        r.push((xs[i + d - 1].0, q));
        proof {
            assert(lift(r@)[i as int] == sma_s(ls, d as int)[i as int]);
            assert(forall|k: int|
                0 <= k < i ==> #[trigger] lift(r@)[k] == lift(old_r)[k]);
        }
        i += 1;
    }
    proof {
        assert(lift(r@) =~= sma_s(ls, d as int));
    }
    r
}

/// Returns SMA (Simple Moving Average) for the given entry list.
///
/// With window `duration` over `n` sorted entries the result has exactly
/// `n - duration + 1` entries, each anchored at its window's last
/// timestamp; a zero `duration` or too-short input yields an empty result,
/// and an ill-formed scalar fails the call with its timestamp.
pub fn sma<T: IndexEntryLike>(entries: &[T], duration: usize) -> (r: Result<Vec<IndexEntry>, Error>)
    requires
        values_within(entries@, VAL_LIMIT as int),
    ensures
        duration == 0 || entries@.len() < duration ==> (r matches Ok(v) && v@.len() == 0),
        1 <= duration <= entries@.len() && all_finite(ent_models(entries@)) ==> (r matches Ok(v)
            && is_output(v@, sma_s(sorted_model(entries@), duration as int)) && v@.len()
            == entries@.len() - duration + 1 && (forall|k: int|
            0 <= k < v@.len() ==> (#[trigger] v@[k]).at == sorted_model(entries@)[k + duration
                - 1].0)),
        1 <= duration <= entries@.len() && !all_finite(ent_models(entries@)) ==> (r matches Err(e)
            && is_entry_validation_err(entries@, e)),
{
    if duration == 0 || entries.len() < duration {
        return Ok(Vec::new());
    }
    let sorted = match prepare(entries) {
        Ok(v) => v,
        Err(e) => {
            return Err(e);
        },
    };
    proof {
        assert(bounded(lift(sorted@), CORE_LIMIT as int));
        assert(lift(sorted@).len() == sorted@.len());
    }
    proof {
        assert((duration as int) * (CORE_LIMIT as int)
            <= 0x4000_0000_0000_0000_0000_0000_0000_0000) by (nonlinear_arith)
            requires
                duration as int <= 0xffff_ffff_ffff_ffff,
        ;
    }
    let out = sma_core(&sorted, duration, Ghost(CORE_LIMIT as int));
    let ghost lo = lift(out@);
    let r = wrap_entries(out);
    proof {
        let sm = sorted_model(entries@);
        assert forall|k: int| 0 <= k < r@.len() implies (#[trigger] r@[k]).at == sm[k + duration
            - 1].0 by {
            assert(sma_s(sm, duration as int)[k].0 == sm[k + duration - 1].0);
        }
    }
    Ok(r)
}

} // verus!
