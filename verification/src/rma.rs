//! RMA (Running Moving Average), Wilder's smoothing: an EMA whose
//! smoothing factor is `1 / duration`.

use crate::ema::{ema_core, ema_s};
use crate::error::Error;
use crate::fixed::{div_i128, lemma_tdiv_exact, lemma_tdiv_mag, lemma_tdiv_mono, tdiv, SCALE};
use crate::index_entry::{IndexEntry, IndexEntryLike};
use crate::series::{
    all_finite, bounded, ent_models, is_entry_validation_err, is_output, lift, prepare,
    sorted_model, values_within, wrap_entries, CORE_LIMIT, VAL_LIMIT,
};
use vstd::prelude::*;

verus! {

/// Wilder's smoothing factor mantissa, `1 / d` scaled.
pub open spec fn rma_alpha(d: int) -> int {
    tdiv(SCALE as int, d)
}

/// Wilder's factor `1 / d`, as a mantissa.
pub(crate) fn rma_alpha_exec(d: usize) -> (a: i128)
    requires
        d >= 1,
    ensures
        a as int == rma_alpha(d as int),
        0 <= a <= SCALE,
{
    let a = div_i128(SCALE, d as i128);
    proof {
        lemma_tdiv_mag(SCALE as int, d as int);
        assert(SCALE as int <= (d as int) * (SCALE as int)) by (nonlinear_arith)
            requires
                d as int >= 1,
        ;
        lemma_tdiv_mono(SCALE as int, (d as int) * (SCALE as int), d as int);
        lemma_tdiv_exact(SCALE as int, d as int);
        assert((SCALE as int) * (d as int) == (d as int) * (SCALE as int));
    }
    a
}

/// Returns RMA (Running Moving Average) for the given entry list: the EMA
/// engine with Wilder's factor `1 / duration`.
pub fn rma<T: IndexEntryLike>(entries: &[T], duration: usize) -> (r: Result<Vec<IndexEntry>, Error>)
    requires
        values_within(entries@, VAL_LIMIT as int),
    ensures
        duration == 0 || entries@.len() < duration ==> (r matches Ok(v) && v@.len() == 0),
        1 <= duration <= entries@.len() && all_finite(ent_models(entries@)) ==> (r matches Ok(v)
            && is_output(v@, ema_s(sorted_model(entries@), duration as int, rma_alpha(duration as int)))),
        1 <= duration <= entries@.len() && !all_finite(ent_models(entries@)) ==> (r matches Err(e)
            && is_entry_validation_err(entries@, e)),
{
    if duration == 0 || entries.len() < duration {
        return Ok(Vec::new());
    }
    let sorted = match prepare(entries) {
        Ok(v) => v,
        Err(e) => {
            return Err(e);
        },
    };
    proof {
        assert(bounded(lift(sorted@), CORE_LIMIT as int));
    }
    let alpha = rma_alpha_exec(duration);
    let out = ema_core(&sorted, duration, alpha);
    Ok(wrap_entries(out))
}

} // verus!
