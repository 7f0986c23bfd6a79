//! Momentum: per window of `duration + 1` elements, the difference
//! between its last and first values, anchored at the later timestamp.

use crate::error::Error;
use crate::fixed::iabs;
use crate::index_entry::{IndexEntry, IndexEntryLike};
use crate::series::{
    all_finite, bounded, ent_models, is_entry_validation_err, is_output, lift, negate, prepare,
    sorted_model, values_within, wrap_entries, CORE_LIMIT, VAL_LIMIT,
};
use vstd::prelude::*;

verus! {

/// The momentum series of `s` with step `d`: `s[k + d] - s[k]` per
/// position, at the later element's timestamp.
pub open spec fn momentum_s(s: Seq<(u64, int)>, d: int) -> Seq<(u64, int)> {
    if d < 1 || s.len() < d {
        Seq::empty()
    } else {
        Seq::new((s.len() - d) as nat, |k: int| (s[k + d].0, s[k + d].1 - s[k].1))
    }
}

/// Windowed differences over already validated, sorted pairs.
pub(crate) fn momentum_core(xs: &Vec<(u64, i128)>, d: usize) -> (r: Vec<(u64, i128)>)
    requires
        1 <= d <= xs@.len(),
        bounded(lift(xs@), CORE_LIMIT as int),
    ensures
        lift(r@) == momentum_s(lift(xs@), d as int),
{
    let ghost ls = lift(xs@);
    let n = xs.len();
    let mut r: Vec<(u64, i128)> = Vec::new();
    let mut i: usize = 0;
    while i < n - d
        invariant
            1 <= d <= n,
            n == xs@.len(),
            ls == lift(xs@),
            bounded(ls, CORE_LIMIT as int),
            i <= n - d,
            r@.len() == i,
            forall|k: int| 0 <= k < i ==> #[trigger] lift(r@)[k] == momentum_s(ls, d as int)[k],
        decreases n - d - i,
    {
        proof {
            assert(iabs(ls[i + d].1) <= CORE_LIMIT as int && iabs(ls[i as int].1)
                <= CORE_LIMIT as int);
        }
        let ghost old_r = r@;
        r.push((xs[i + d].0, xs[i + d].1 - xs[i].1));
        proof {
            assert(lift(r@)[i as int] == momentum_s(ls, d as int)[i as int]);
            assert(forall|k: int| 0 <= k < i ==> #[trigger] lift(r@)[k] == lift(old_r)[k]);
        }
        i += 1;
    }
    proof {
        assert(lift(r@) =~= momentum_s(ls, d as int));
    }
    r
}

/// Returns Momentum for the given entry list.
///
/// Each output is the value change across `duration` steps, anchored at
/// the later element's timestamp.  A zero `duration` or too-short input
/// yields an empty result; an ill-formed scalar fails the call with its
/// timestamp.
pub fn momentum<T: IndexEntryLike>(entries: &[T], duration: usize) -> (r: Result<
    Vec<IndexEntry>,
    Error,
>)
    requires
        values_within(entries@, VAL_LIMIT as int),
    ensures
        duration == 0 || entries@.len() < duration ==> (r matches Ok(v) && v@.len() == 0),
        1 <= duration <= entries@.len() && all_finite(ent_models(entries@)) ==> (r matches Ok(v)
            && is_output(v@, momentum_s(sorted_model(entries@), duration as int))),
        1 <= duration <= entries@.len() && !all_finite(ent_models(entries@)) ==> (r matches Err(e)
            && is_entry_validation_err(entries@, e)),
{
    if duration == 0 || entries.len() < duration {
        return Ok(Vec::new());
    }
    let sorted = match prepare(entries) {
        Ok(v) => v,
        Err(e) => {
            return Err(e);
        },
    };
    proof {
        assert(bounded(lift(sorted@), CORE_LIMIT as int));
    }
    let out = momentum_core(&sorted, duration);
    Ok(wrap_entries(out))
}

/// Law: momentum is sign-symmetric — on the negated series every output
/// value is negated, timestamps unchanged.
pub proof fn lemma_momentum_neg(s: Seq<(u64, int)>, d: int)
    ensures
        momentum_s(negate(s), d) == negate(momentum_s(s, d)),
{
    assert(momentum_s(negate(s), d) =~= negate(momentum_s(s, d)));
}

} // verus!
