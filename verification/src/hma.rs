//! HMA (Hull Moving Average): a WMA of width `isqrt(duration)` applied to
//! `2 * WMA(duration / 2) - WMA(duration)`, aligned by windowing position.

use crate::error::Error;
use crate::fixed::{iabs, isqrt_u128, sqrt_floor};
use crate::index_entry::{IndexEntry, IndexEntryLike};
use crate::series::{
    all_finite, bounded, combine_double, ent_models, is_entry_validation_err, is_output, lift,
    prepare, sorted_model, values_within, wrap_entries, CORE_LIMIT, VAL_LIMIT,
};
use crate::wma::{lemma_wma_s_bounded, wma_core, wma_s, WMA_DURATION_LIMIT};
use vstd::prelude::*;

verus! {

/// The intermediate HMA series: `2 * WMA(d / 2) - WMA(d)` position by
/// position, at the longer window's timestamps.
pub open spec fn hma_raw_s(s: Seq<(u64, int)>, d: int) -> Seq<(u64, int)> {
    let half = wma_s(s, d / 2);
    let full = wma_s(s, d);
    Seq::new(full.len(), |k: int| (full[k].0, 2 * half[k + d - d / 2].1 - full[k].1))
}

/// The HMA series of `s` with window `d`: the smoothing WMA of width
/// `sqrt_floor(d)` over the intermediate series (empty below window 2).
pub open spec fn hma_s(s: Seq<(u64, int)>, d: int) -> Seq<(u64, int)> {
    if d < 2 || s.len() < d {
        Seq::empty()
    } else {
        wma_s(hma_raw_s(s, d), sqrt_floor(d))
    }
}

/// Returns HMA (Hull Moving Average) for the given entry list.  A zero
/// `duration` or too-short input yields an empty result (window 1 has no
/// half-window, so it is empty too); an ill-formed scalar fails the call
/// with its timestamp.
pub fn hma<T: IndexEntryLike>(entries: &[T], duration: usize) -> (r: Result<Vec<IndexEntry>, Error>)
    requires
        values_within(entries@, VAL_LIMIT as int),
        duration == 0 || entries@.len() < duration || duration <= WMA_DURATION_LIMIT,
    ensures
        duration == 0 || entries@.len() < duration ==> (r matches Ok(v) && v@.len() == 0),
        1 <= duration <= entries@.len() && all_finite(ent_models(entries@)) ==> (r matches Ok(v)
            && is_output(v@, hma_s(sorted_model(entries@), duration as int))),
        1 <= duration <= entries@.len() && !all_finite(ent_models(entries@)) ==> (r matches Err(e)
            && is_entry_validation_err(entries@, e)),
{
    if duration == 0 || entries.len() < duration {
        return Ok(Vec::new());
    }
    let sorted = match prepare(entries) {
        Ok(v) => v,
        Err(e) => {
            return Err(e);
        },
    };
    if duration < 2 {
        return Ok(Vec::new());
    }
    proof {
        assert(bounded(lift(sorted@), CORE_LIMIT as int));
    }
    let ghost sm = sorted_model(entries@);
    let d = duration;
    let half_d: usize = d / 2;
    let full = wma_core(&sorted, d);
    let half = wma_core(&sorted, half_d);
    proof {
        lemma_wma_s_bounded(sm, d as int, VAL_LIMIT as int);
        lemma_wma_s_bounded(sm, half_d as int, VAL_LIMIT as int);
        assert(bounded(lift(full@), CORE_LIMIT as int));
        assert(bounded(lift(half@), CORE_LIMIT as int));
        assert(lift(full@).len() == full@.len() && lift(half@).len() == half@.len());
        if full@.len() > 0 {
            assert(lift(full@).len() == sm.len() - d + 1);
            assert(lift(half@).len() == sm.len() - half_d + 1);
        }
    }
    let raw = combine_double(&half, &full, d - half_d);
    proof {
        assert(lift(raw@) =~= hma_raw_s(sm, d as int));
        assert forall|k: int| 0 <= k < lift(raw@).len() implies iabs(#[trigger] lift(raw@)[k].1)
            <= CORE_LIMIT as int by {
            assert(iabs(lift(half@)[k + (d - half_d)].1) <= VAL_LIMIT as int);
            assert(iabs(lift(full@)[k].1) <= VAL_LIMIT as int);
        }
        assert(bounded(lift(raw@), CORE_LIMIT as int));
    }
    let sq128 = isqrt_u128(d as u128);
    proof {
        crate::fixed::lemma_sqrt_floor_props(d as int);
        assert(sq128 as int <= 65536) by (nonlinear_arith)
            requires
                (sq128 as int) * (sq128 as int) <= d as int <= 4_000_000_000 && sq128 as int >= 0,
        ;
    }
    let sq: usize = sq128 as usize;
    let out = wma_core(&raw, sq);
    proof {
        assert(lift(out@) == hma_s(sm, d as int));
    }
    Ok(wrap_entries(out))
}

} // verus!
