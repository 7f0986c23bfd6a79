//! DEMA (Double Exponential Moving Average): `2 * EMA1 - EMA2`, where
//! `EMA2` is the EMA of `EMA1`, aligned by windowing position.

use crate::ema::{ema_alpha, ema_alpha_exec, ema_core, ema_s, lemma_ema_s_neg};
use crate::error::Error;
use crate::index_entry::{IndexEntry, IndexEntryLike};
use crate::series::{
    all_finite, bounded, combine_double, ent_models, is_entry_validation_err, is_output, lift,
    negate, prepare, sorted_model, values_within, wrap_entries, CORE_LIMIT, VAL_LIMIT,
};
use vstd::prelude::*;

verus! {

/// The DEMA series of `s` with window `d`: twice the first smoothing
/// minus the second, one entry per element of the chained EMA.
pub open spec fn dema_s(s: Seq<(u64, int)>, d: int) -> Seq<(u64, int)> {
    let a = ema_alpha(d);
    let e1 = ema_s(s, d, a);
    let e2 = ema_s(e1, d, a);
    Seq::new(e2.len(), |k: int| (e2[k].0, 2 * e1[k + d - 1].1 - e2[k].1))
}

/// Returns DEMA (Double Exponential Moving Average) for the given entry
/// list: `2 * EMA - EMA-of-EMA`, each entry at the inner EMA's timestamp.
/// A zero `duration` or too-short input yields an empty result; an
/// ill-formed scalar fails the call with its timestamp.
pub fn dema<T: IndexEntryLike>(entries: &[T], duration: usize) -> (r: Result<
    Vec<IndexEntry>,
    Error,
>)
    requires
        values_within(entries@, VAL_LIMIT as int),
    ensures
        duration == 0 || entries@.len() < duration ==> (r matches Ok(v) && v@.len() == 0),
        1 <= duration <= entries@.len() && all_finite(ent_models(entries@)) ==> (r matches Ok(v)
            && is_output(v@, dema_s(sorted_model(entries@), duration as int))),
        1 <= duration <= entries@.len() && !all_finite(ent_models(entries@)) ==> (r matches Err(e)
            && is_entry_validation_err(entries@, e)),
{
    if duration == 0 || entries.len() < duration {
        return Ok(Vec::new());
    }
    let sorted = match prepare(entries) {
        Ok(v) => v,
        Err(e) => {
            return Err(e);
        },
    };
    proof {
        assert(bounded(lift(sorted@), CORE_LIMIT as int));
    }
    let alpha = ema_alpha_exec(duration);
    let e1 = ema_core(&sorted, duration, alpha);
    let e2 = ema_core(&e1, duration, alpha);
    proof {
        if lift(e2@).len() > 0 {
            assert(lift(e1@).len() >= duration);
            assert(lift(e2@).len() == lift(e1@).len() - duration + 1);
        }
        assert(e2@.len() > 0 ==> e2@.len() + (duration - 1) <= e1@.len());
    }
    let out = combine_double(&e1, &e2, duration - 1);
    proof {
        assert(lift(out@) =~= dema_s(sorted_model(entries@), duration as int));
    }
    Ok(wrap_entries(out))
}

/// Law: DEMA is sign-symmetric — on the negated series every output value
/// is negated, timestamps unchanged.
pub proof fn lemma_dema_neg(s: Seq<(u64, int)>, d: int)
    ensures
        dema_s(negate(s), d) == negate(dema_s(s, d)),
{
    let a = ema_alpha(d);
    lemma_ema_s_neg(s, d, a);
    lemma_ema_s_neg(ema_s(s, d, a), d, a);
    assert(dema_s(negate(s), d) =~= negate(dema_s(s, d)));
}

} // verus!
