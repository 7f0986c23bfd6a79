//! Standard deviation: per window, the square root of the population
//! variance (deviation squares divided by the window width, term by term).

use crate::error::Error;
use crate::fixed::{
    div_i128, iabs, isqrt_u128, lemma_sqrt_floor_props, lemma_tdiv_mag, lemma_tdiv_mono,
    lemma_tdiv_mul_le, lemma_tdiv_range, sqrt_floor, tdiv,
};
use crate::index_entry::{IndexEntry, IndexEntryLike};
use crate::series::{
    all_finite, bounded, ent_models, is_entry_validation_err, is_output, lift, prepare,
    sorted_model, sum_range, sum_window_core, values_within, wrap_entries, CORE_LIMIT, VAL_LIMIT,
};
use vstd::prelude::*;

verus! {

/// The truncated mean of the window of `d` values starting at `k`.
pub open spec fn window_avg(s: Seq<(u64, int)>, k: int, d: int) -> int {
    tdiv(sum_range(s, k, k + d), d)
}

/// Sum over the first `t` window elements of the squared deviation from
/// `avg`, each divided by `d` as it is accumulated.
pub open spec fn sqdev_sum(s: Seq<(u64, int)>, k: int, t: int, avg: int, d: int) -> int
    decreases t,
{
    if t <= 0 {
        0
    } else {
        sqdev_sum(s, k, t - 1, avg, d) + tdiv(
            (s[k + t - 1].1 - avg) * (s[k + t - 1].1 - avg),
            d,
        )
    }
}

/// The population standard deviation of the window of `d` values starting
/// at `k`, as a mantissa.
pub open spec fn window_sigma(s: Seq<(u64, int)>, k: int, d: int) -> int {
    sqrt_floor(sqdev_sum(s, k, d, window_avg(s, k, d), d))
}

/// The standard-deviation series of `s` with window `d`, anchored at each
/// window's last timestamp.
pub open spec fn stddev_s(s: Seq<(u64, int)>, d: int) -> Seq<(u64, int)> {
    if d < 1 || s.len() < d {
        Seq::empty()
    } else {
        Seq::new((s.len() - d + 1) as nat, |k: int| (s[k + d - 1].0, window_sigma(s, k, d)))
    }
}

/// Mean and standard deviation of one window of already validated,
/// sorted pairs.
pub(crate) fn window_stats_core(xs: &Vec<(u64, i128)>, i: usize, d: usize) -> (r: (i128, i128))
    requires
        1 <= d,
        i + d <= xs@.len(),
        bounded(lift(xs@), CORE_LIMIT as int),
    ensures
        r.0 as int == window_avg(lift(xs@), i as int, d as int),
        r.1 as int == window_sigma(lift(xs@), i as int, d as int),
        iabs(r.0 as int) <= CORE_LIMIT as int,
        0 <= r.1 as int <= 2 * (CORE_LIMIT as int),
{
    let ghost ls = lift(xs@);
    let s = {
        proof {
            assert((d as int) * (CORE_LIMIT as int) <= 0x4000_0000_0000_0000_0000_0000_0000_0000)
                by (nonlinear_arith)
                requires
                    d as int <= 0xffff_ffff_ffff_ffff,
            ;
        }
        sum_window_core(xs, i, d, Ghost(CORE_LIMIT as int))
    };
    let avg = div_i128(s, d as i128);
    proof {
        assert(-(CORE_LIMIT as int) * (d as int) <= s as int <= (CORE_LIMIT as int) * (d as int));
        lemma_tdiv_range(s as int, d as int, -(CORE_LIMIT as int), CORE_LIMIT as int);
    }
    let ghost cap = tdiv(4 * (CORE_LIMIT as int) * (CORE_LIMIT as int), d as int);
    proof {
        lemma_tdiv_mul_le(4 * (CORE_LIMIT as int) * (CORE_LIMIT as int), d as int);
    }
    let n = xs.len();
    let end: usize = i + d;
    let mut acc: i128 = 0;
    let mut j: usize = i;
    while j < end
        invariant
            1 <= d,
            i <= j <= end,
            end == i + d,
            end <= xs@.len(),
            ls == lift(xs@),
            bounded(ls, CORE_LIMIT as int),
            iabs(avg as int) <= CORE_LIMIT as int,
            cap == tdiv(4 * (CORE_LIMIT as int) * (CORE_LIMIT as int), d as int),
            0 <= (d as int) * cap <= 4 * (CORE_LIMIT as int) * (CORE_LIMIT as int),
            acc as int == sqdev_sum(ls, i as int, j - i, avg as int, d as int),
            0 <= acc as int <= (j - i) * cap,
        decreases end - j,
    {
        proof {
            assert(iabs(ls[j as int].1) <= CORE_LIMIT as int);
        }
        let dev = xs[j].1 - avg;
        proof {
            assert(0 <= (dev as int) * (dev as int) <= 4 * (CORE_LIMIT as int) * (
            CORE_LIMIT as int)) by (nonlinear_arith)
                requires
                    iabs(dev as int) <= 2 * (CORE_LIMIT as int),
            ;
            lemma_tdiv_mag((dev as int) * (dev as int), d as int);
            lemma_tdiv_mono((dev as int) * (dev as int), 4 * (CORE_LIMIT as int) * (
            CORE_LIMIT as int), d as int);
            assert((j - i) * cap + cap == (j - i + 1) * cap) by (nonlinear_arith);
            assert((j - i + 1) * cap <= (d as int) * cap) by (nonlinear_arith)
                requires
                    j - i + 1 <= d as int && cap >= 0,
            ;
        }
        let term = div_i128(dev * dev, d as i128);
        acc = acc + term;
        j += 1;
    }
    proof {
        assert((j - i) * cap <= (d as int) * cap) by (nonlinear_arith)
            requires
                j - i <= d as int && cap >= 0,
        ;
    }
    let sig128 = isqrt_u128(acc as u128);
    proof {
        lemma_sqrt_floor_props(acc as int);
        assert(sig128 as int <= 2 * (CORE_LIMIT as int)) by (nonlinear_arith)
            requires
                (sig128 as int) * (sig128 as int) <= acc as int && acc as int <= 4 * (
                CORE_LIMIT as int) * (CORE_LIMIT as int) && sig128 as int >= 0,
        ;
    }
    let sigma = sig128 as i128;
    (avg, sigma)
}

/// Returns the population standard deviation for the given entry list,
/// one value per window, anchored at the window's last timestamp.
///
/// With window `duration` over `n` sorted entries the result has exactly
/// `n - duration + 1` entries; a zero `duration` or too-short input
/// yields an empty result; an ill-formed scalar fails the call with its
/// timestamp.
pub fn standard_deviation<T: IndexEntryLike>(entries: &[T], duration: usize) -> (r: Result<
    Vec<IndexEntry>,
    Error,
>)
    requires
        values_within(entries@, VAL_LIMIT as int),
    ensures
        duration == 0 || entries@.len() < duration ==> (r matches Ok(v) && v@.len() == 0),
        1 <= duration <= entries@.len() && all_finite(ent_models(entries@)) ==> (r matches Ok(v)
            && is_output(v@, stddev_s(sorted_model(entries@), duration as int)) && v@.len()
            == entries@.len() - duration + 1 && (forall|k: int|
            0 <= k < v@.len() ==> (#[trigger] v@[k]).at == sorted_model(entries@)[k + duration
                - 1].0)),
        1 <= duration <= entries@.len() && !all_finite(ent_models(entries@)) ==> (r matches Err(e)
            && is_entry_validation_err(entries@, e)),
{
    if duration == 0 || entries.len() < duration {
        return Ok(Vec::new());
    }
    let sorted = match prepare(entries) {
        Ok(v) => v,
        Err(e) => {
            return Err(e);
        },
    };
    proof {
        assert(bounded(lift(sorted@), CORE_LIMIT as int));
        assert(lift(sorted@).len() == sorted@.len());
    }
    let ghost sm = sorted_model(entries@);
    let d = duration;
    let n = sorted.len();
    let mut out: Vec<(u64, i128)> = Vec::new();
    let mut i: usize = 0;
    while i <= n - d
        invariant
            1 <= d <= n,
            n == sorted@.len(),
            sm == lift(sorted@),
            bounded(sm, CORE_LIMIT as int),
            i <= n - d + 1,
            out@.len() == i,
            forall|k: int| 0 <= k < i ==> #[trigger] lift(out@)[k] == stddev_s(sm, d as int)[k],
        decreases n - d + 1 - i,
    {
        let st = window_stats_core(&sorted, i, d);
        let ghost old_out = out@;
        out.push((sorted[i + d - 1].0, st.1));
        proof {
            assert(lift(out@)[i as int] == stddev_s(sm, d as int)[i as int]);
            assert(forall|k: int| 0 <= k < i ==> #[trigger] lift(out@)[k] == lift(old_out)[k]);
        }
        i += 1;
    }
    proof {
        assert(lift(out@) =~= stddev_s(sm, d as int));
    }
    let r = wrap_entries(out);
    proof {
        assert forall|k: int| 0 <= k < r@.len() implies (#[trigger] r@[k]).at == sm[k + duration
            - 1].0 by {
            assert(stddev_s(sm, duration as int)[k].0 == sm[k + duration - 1].0);
        }
    }
    Ok(r)
}

} // verus!
