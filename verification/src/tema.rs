//! TEMA (Triple Exponential Moving Average):
//! `3 * EMA1 - 3 * EMA2 + EMA3` over the chained smoothings, aligned by
//! windowing position.

use crate::ema::{ema_alpha, ema_alpha_exec, ema_core, ema_s, lemma_ema_s_neg};
use crate::error::Error;
use crate::fixed::iabs;
use crate::index_entry::{IndexEntry, IndexEntryLike};
use crate::series::{
    all_finite, bounded, ent_models, is_entry_validation_err, is_output, lift, negate, prepare,
    sorted_model, values_within, wrap_entries, CORE_LIMIT, VAL_LIMIT,
};
use vstd::prelude::*;

verus! {

/// The TEMA series of `s` with window `d`: the three-stage combination
/// `3 * e1 - 3 * e2 + e3`, one entry per element of the innermost EMA.
pub open spec fn tema_s(s: Seq<(u64, int)>, d: int) -> Seq<(u64, int)> {
    let a = ema_alpha(d);
    let e1 = ema_s(s, d, a);
    let e2 = ema_s(e1, d, a);
    let e3 = ema_s(e2, d, a);
    Seq::new(
        e3.len(),
        |k: int| (e3[k].0, 3 * e1[k + 2 * d - 2].1 - 3 * e2[k + d - 1].1 + e3[k].1),
    )
}

/// Returns TEMA (Triple Exponential Moving Average) for the given entry
/// list.  A zero `duration` or too-short input yields an empty result;
/// an ill-formed scalar fails the call with its timestamp.
pub fn tema<T: IndexEntryLike>(entries: &[T], duration: usize) -> (r: Result<
    Vec<IndexEntry>,
    Error,
>)
    requires
        values_within(entries@, VAL_LIMIT as int),
    ensures
        duration == 0 || entries@.len() < duration ==> (r matches Ok(v) && v@.len() == 0),
        1 <= duration <= entries@.len() && all_finite(ent_models(entries@)) ==> (r matches Ok(v)
            && is_output(v@, tema_s(sorted_model(entries@), duration as int))),
        1 <= duration <= entries@.len() && !all_finite(ent_models(entries@)) ==> (r matches Err(e)
            && is_entry_validation_err(entries@, e)),
{
    if duration == 0 || entries.len() < duration {
        return Ok(Vec::new());
    }
    let sorted = match prepare(entries) {
        Ok(v) => v,
        Err(e) => {
            return Err(e);
        },
    };
    proof {
        assert(bounded(lift(sorted@), CORE_LIMIT as int));
    }
    let d = duration;
    let alpha = ema_alpha_exec(d);
    let e1 = ema_core(&sorted, d, alpha);
    let e2 = ema_core(&e1, d, alpha);
    let e3 = ema_core(&e2, d, alpha);
    let ghost goal = tema_s(sorted_model(entries@), d as int);
    proof {
        if lift(e3@).len() > 0 {
            assert(lift(e2@).len() >= d);
            assert(lift(e3@).len() == lift(e2@).len() - d + 1);
            assert(lift(e1@).len() >= d);
            assert(lift(e2@).len() == lift(e1@).len() - d + 1);
        }
    }
    let n = e3.len();
    let m2 = e2.len();
    let m1 = e1.len();
    let mut out: Vec<(u64, i128)> = Vec::new();
    let mut i: usize = 0;
    while i < n
        invariant
            1 <= d,
            n == e3@.len(),
            m2 == e2@.len(),
            m1 == e1@.len(),
            n > 0 ==> n + d - 1 <= m2 && m2 + d - 1 <= m1,
            bounded(lift(e1@), CORE_LIMIT as int),
            bounded(lift(e2@), CORE_LIMIT as int),
            bounded(lift(e3@), CORE_LIMIT as int),
            goal == Seq::new(
                lift(e3@).len(),
                |k: int| (lift(e3@)[k].0, 3 * lift(e1@)[k + 2 * (d as int) - 2].1 - 3 * lift(
                    e2@,
                )[k + d - 1].1 + lift(e3@)[k].1),
            ),
            i <= n,
            out@.len() == i,
            forall|k: int| 0 <= k < i ==> #[trigger] lift(out@)[k] == goal[k],
        decreases n - i,
    {
        let j2 = i + d - 1;
        let j1 = j2 + d - 1;
        proof {
            assert(j1 == i + 2 * (d as int) - 2);
            assert(iabs(lift(e1@)[j1 as int].1) <= CORE_LIMIT as int);
            assert(iabs(lift(e2@)[j2 as int].1) <= CORE_LIMIT as int);
            assert(iabs(lift(e3@)[i as int].1) <= CORE_LIMIT as int);
        }
        let ghost old_out = out@;
        out.push((e3[i].0, 3 * e1[j1].1 - 3 * e2[j2].1 + e3[i].1));
        proof {
            assert(lift(out@)[i as int] == goal[i as int]);
            assert(forall|k: int| 0 <= k < i ==> #[trigger] lift(out@)[k] == lift(old_out)[k]);
        }
        i += 1;
    }
    proof {
        assert(lift(out@) =~= goal);
    }
    Ok(wrap_entries(out))
}

/// Law: TEMA is sign-symmetric — on the negated series every output value
/// is negated, timestamps unchanged.
pub proof fn lemma_tema_neg(s: Seq<(u64, int)>, d: int)
    ensures
        tema_s(negate(s), d) == negate(tema_s(s, d)),
{
    let a = ema_alpha(d);
    lemma_ema_s_neg(s, d, a);
    lemma_ema_s_neg(ema_s(s, d, a), d, a);
    lemma_ema_s_neg(ema_s(ema_s(s, d, a), d, a), d, a);
    assert(tema_s(negate(s), d) =~= negate(tema_s(s, d)));
}

} // verus!
