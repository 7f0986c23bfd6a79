//! Bolinger Band: per window the truncated mean and the population
//! standard deviation, with accessors for the bands `avg ± sigma * k`.

use crate::error::Error;
use crate::fixed::{iabs, tdiv, Fixed, Scalar, SCALE};
use crate::index_entry::IndexEntryLike;
use crate::series::{
    all_finite, bounded, ent_models, is_entry_validation_err, lift, prepare, sorted_model,
    values_within, CORE_LIMIT, VAL_LIMIT,
};
use crate::standard_deviation::{window_avg, window_sigma, window_stats_core};
use vstd::prelude::*;

verus! {

/// One band entry: the window mean and its standard deviation.
#[derive(Clone, Copy, Debug)]
pub struct BollingerBandEntry {
    pub at: u64,
    pub avg: Fixed,
    pub sigma: Fixed,
}

impl IndexEntryLike for BollingerBandEntry {
    open spec fn at_of(&self) -> u64 {
        self.at
    }

    open spec fn value_of(&self) -> Scalar {
        Scalar::Num(self.avg)
    }

    fn get_at(&self) -> u64 {
        self.at
    }

    fn get_value(&self) -> Scalar {
        Scalar::Num(self.avg)
    }
}

/// An entry whose mean and deviation are in the range band arithmetic
/// supports (amply true of every entry this crate produces).
pub open spec fn band_entry_ok(e: BollingerBandEntry) -> bool {
    &&& iabs(e.avg.m as int) <= 8 * (CORE_LIMIT as int)
    &&& iabs(e.sigma.m as int) <= 8 * (CORE_LIMIT as int)
}

impl BollingerBandEntry {
    /// The band `avg + sigma * weight`.
    pub fn upper_sigma(&self, weight: Fixed) -> (r: Fixed)
        requires
            band_entry_ok(*self),
            iabs(weight.m as int) <= 100 * (SCALE as int),
        ensures
            r.m == self.avg.m + tdiv(self.sigma.m * weight.m, SCALE as int),
    {
        proof {
            lemma_band_product(self.sigma.m as int, weight.m as int);
        }
        let t = crate::fixed::div_i128(self.sigma.m * weight.m, SCALE);
        Fixed { m: self.avg.m + t }
    }

    /// The band `avg - sigma * weight`.
    pub fn lower_sigma(&self, weight: Fixed) -> (r: Fixed)
        requires
            band_entry_ok(*self),
            iabs(weight.m as int) <= 100 * (SCALE as int),
        ensures
            r.m == self.avg.m - tdiv(self.sigma.m * weight.m, SCALE as int),
    {
        proof {
            lemma_band_product(self.sigma.m as int, weight.m as int);
        }
        let t = crate::fixed::div_i128(self.sigma.m * weight.m, SCALE);
        Fixed { m: self.avg.m - t }
    }

    /// The one-sigma upper band.
    pub fn upper_sigma1(&self) -> (r: Fixed)
        requires
            band_entry_ok(*self),
        ensures
            r.m == self.avg.m + tdiv(self.sigma.m * (SCALE as int), SCALE as int),
    {
        self.upper_sigma(Fixed::from_int(1))
    }

    /// The two-sigma upper band.
    pub fn upper_sigma2(&self) -> (r: Fixed)
        requires
            band_entry_ok(*self),
        ensures
            r.m == self.avg.m + tdiv(self.sigma.m * (2 * SCALE as int), SCALE as int),
    {
        self.upper_sigma(Fixed::from_int(2))
    }

    /// The three-sigma upper band.
    pub fn upper_sigma3(&self) -> (r: Fixed)
        requires
            band_entry_ok(*self),
        ensures
            r.m == self.avg.m + tdiv(self.sigma.m * (3 * SCALE as int), SCALE as int),
    {
        self.upper_sigma(Fixed::from_int(3))
    }

    /// The one-sigma lower band.
    pub fn lower_sigma1(&self) -> (r: Fixed)
        requires
            band_entry_ok(*self),
        ensures
            r.m == self.avg.m - tdiv(self.sigma.m * (SCALE as int), SCALE as int),
    {
        self.lower_sigma(Fixed::from_int(1))
    }

    /// The two-sigma lower band.
    pub fn lower_sigma2(&self) -> (r: Fixed)
        requires
            band_entry_ok(*self),
        ensures
            r.m == self.avg.m - tdiv(self.sigma.m * (2 * SCALE as int), SCALE as int),
    {
        self.lower_sigma(Fixed::from_int(2))
    }

    /// The three-sigma lower band.
    pub fn lower_sigma3(&self) -> (r: Fixed)
        requires
            band_entry_ok(*self),
        ensures
            r.m == self.avg.m - tdiv(self.sigma.m * (3 * SCALE as int), SCALE as int),
    {
        self.lower_sigma(Fixed::from_int(3))
    }
}

/// A banded product of an in-range deviation and weight stays far inside
/// the mantissa range.
proof fn lemma_band_product(sig: int, w: int)
    requires
        iabs(sig) <= 8 * (CORE_LIMIT as int),
        iabs(w) <= 100 * (SCALE as int),
    ensures
        iabs(sig * w) <= 0x1_0000_0000_0000_0000_0000_0000_0000,
        iabs(tdiv(sig * w, SCALE as int)) <= 0x1_0000_0000_0000_0000_0000_0000_0000,
{
    assert(iabs(sig * w) <= 0x1_0000_0000_0000_0000_0000_0000_0000) by (nonlinear_arith)
        requires
            iabs(sig) <= 8 * (CORE_LIMIT as int) && iabs(w) <= 100 * (SCALE as int),
    ;
    crate::fixed::lemma_tdiv_mag(sig * w, SCALE as int);
}

/// The Bolinger Band model of `s` with window `d`: per window
/// `(anchor, mean, standard deviation)`.
pub open spec fn bolinger_band_s(s: Seq<(u64, int)>, d: int) -> Seq<(u64, int, int)> {
    if d < 1 || s.len() < d {
        Seq::empty()
    } else {
        Seq::new(
            (s.len() - d + 1) as nat,
            |k: int| (s[k + d - 1].0, window_avg(s, k, d), window_sigma(s, k, d)),
        )
    }
}

/// `v` carries exactly the band model `m`.
pub open spec fn is_band_output(v: Seq<BollingerBandEntry>, m: Seq<(u64, int, int)>) -> bool {
    &&& v.len() == m.len()
    &&& forall|i: int| 0 <= i < v.len() ==> (#[trigger] v[i]).at == m[i].0
    &&& forall|i: int| 0 <= i < v.len() ==> (#[trigger] v[i]).avg.m == m[i].1
    &&& forall|i: int| 0 <= i < v.len() ==> (#[trigger] v[i]).sigma.m == m[i].2
}

/// Returns the Bolinger Band for the given entry list: per window the
/// mean and population standard deviation, anchored at the window's last
/// timestamp.
///
/// With window `duration` over `n` sorted entries the result has exactly
/// `n - duration + 1` entries; a zero `duration` or too-short input
/// yields an empty result; an ill-formed scalar fails the call with its
/// timestamp.
pub fn bolinger_band<T: IndexEntryLike>(entries: &[T], duration: usize) -> (r: Result<
    Vec<BollingerBandEntry>,
    Error,
>)
    requires
        values_within(entries@, VAL_LIMIT as int),
    ensures
        duration == 0 || entries@.len() < duration ==> (r matches Ok(v) && v@.len() == 0),
        1 <= duration <= entries@.len() && all_finite(ent_models(entries@)) ==> (r matches Ok(v)
            && is_band_output(v@, bolinger_band_s(sorted_model(entries@), duration as int))
            && v@.len() == entries@.len() - duration + 1 && (forall|k: int|
            0 <= k < v@.len() ==> (#[trigger] v@[k]).at == sorted_model(entries@)[k + duration
                - 1].0) && (forall|k: int| 0 <= k < v@.len() ==> band_entry_ok(#[trigger] v@[k]))),
        1 <= duration <= entries@.len() && !all_finite(ent_models(entries@)) ==> (r matches Err(e)
            && is_entry_validation_err(entries@, e)),
{
    if duration == 0 || entries.len() < duration {
        return Ok(Vec::new());
    }
    let sorted = match prepare(entries) {
        Ok(v) => v,
        Err(e) => {
            return Err(e);
        },
    };
    proof {
        assert(bounded(lift(sorted@), CORE_LIMIT as int));
        assert(lift(sorted@).len() == sorted@.len());
    }
    let ghost sm = sorted_model(entries@);
    let ghost goal = bolinger_band_s(sm, duration as int);
    let d = duration;
    let n = sorted.len();
    let mut out: Vec<BollingerBandEntry> = Vec::new();
    let mut i: usize = 0;
    while i <= n - d
        invariant
            1 <= d <= n,
            n == sorted@.len(),
            sm == lift(sorted@),
            bounded(sm, CORE_LIMIT as int),
            goal == bolinger_band_s(sm, d as int),
            i <= n - d + 1,
            out@.len() == i,
            forall|k: int|
                0 <= k < i ==> (#[trigger] out@[k]).at == goal[k].0 && out@[k].avg.m == goal[k].1
                    && out@[k].sigma.m == goal[k].2,
            forall|k: int| 0 <= k < i ==> band_entry_ok(#[trigger] out@[k]),
        decreases n - d + 1 - i,
    {
        let st = window_stats_core(&sorted, i, d);
        out.push(
            BollingerBandEntry {
                at: sorted[i + d - 1].0,
                avg: Fixed { m: st.0 },
                sigma: Fixed { m: st.1 },
            },
        );
        i += 1;
    }
    proof {
        assert(out@.len() == goal.len());
    }
    Ok(out)
}

} // verus!
