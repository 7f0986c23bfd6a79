//! Envelope: bands at a fixed percentage above and below an
//! already-computed basis series (typically an SMA).

use crate::error::Error;
use crate::fixed::{div_i128, iabs, lemma_tdiv_mag, tdiv, Fixed, Scalar, SCALE};
use crate::index_entry::IndexEntryLike;
use crate::series::{
    all_finite, ent_models, fin_models, is_entry_validation_err, prepare_unsorted, values_within,
    VAL_LIMIT,
};
use vstd::prelude::*;

verus! {

/// Largest percent mantissa the band arithmetic accepts.
pub const PERCENT_LIMIT: i128 = 100_000_000_000_000;

/// One envelope entry: the basis value with its upper and lower bands.
#[derive(Clone, Copy, Debug)]
pub struct EnvelopeEntry {
    pub at: u64,
    pub basis: Fixed,
    pub upper: Fixed,
    pub lower: Fixed,
}

impl IndexEntryLike for EnvelopeEntry {
    open spec fn at_of(&self) -> u64 {
        self.at
    }

    open spec fn value_of(&self) -> Scalar {
        Scalar::Num(self.basis)
    }

    fn get_at(&self) -> u64 {
        self.at
    }

    fn get_value(&self) -> Scalar {
        Scalar::Num(self.basis)
    }
}

/// The envelope model over basis values, in input order: per entry
/// `(at, basis, basis * (1 + p/100), basis * (1 - p/100))`.
pub open spec fn envelope_s(s: Seq<(u64, int)>, p: int) -> Seq<(u64, int, int, int)> {
    let q = tdiv(p, 100);
    Seq::new(
        s.len(),
        |k: int|
            (
                s[k].0,
                s[k].1,
                tdiv(s[k].1 * ((SCALE as int) + q), SCALE as int),
                tdiv(s[k].1 * ((SCALE as int) - q), SCALE as int),
            ),
    )
}

/// `v` carries exactly the envelope model `m`.
pub open spec fn is_envelope_output(v: Seq<EnvelopeEntry>, m: Seq<(u64, int, int, int)>) -> bool {
    &&& v.len() == m.len()
    &&& forall|i: int| 0 <= i < v.len() ==> (#[trigger] v[i]).at == m[i].0
    &&& forall|i: int| 0 <= i < v.len() ==> (#[trigger] v[i]).basis.m == m[i].1
    &&& forall|i: int| 0 <= i < v.len() ==> (#[trigger] v[i]).upper.m == m[i].2
    &&& forall|i: int| 0 <= i < v.len() ==> (#[trigger] v[i]).lower.m == m[i].3
}

/// Returns the Envelope for the given basis series: each entry keeps its
/// timestamp and value and gains bands `percent` percent above and below
/// it, in input order.  An ill-formed scalar fails the call with its
/// timestamp.
pub fn envelope<T: IndexEntryLike>(entries: &[T], percent: Fixed) -> (r: Result<
    Vec<EnvelopeEntry>,
    Error,
>)
    requires
        values_within(entries@, VAL_LIMIT as int),
        iabs(percent.m as int) <= PERCENT_LIMIT as int,
    ensures
        all_finite(ent_models(entries@)) ==> (r matches Ok(v) && is_envelope_output(
            v@,
            envelope_s(fin_models(ent_models(entries@)), percent.m as int),
        )),
        !all_finite(ent_models(entries@)) ==> (r matches Err(e) && is_entry_validation_err(
            entries@,
            e,
        )),
{
    let xs = match prepare_unsorted(entries) {
        Ok(v) => v,
        Err(e) => {
            return Err(e);
        },
    };
    let ghost m = fin_models(ent_models(entries@));
    let ghost goal = envelope_s(m, percent.m as int);
    let q = div_i128(percent.m, 100);
    proof {
        lemma_tdiv_mag(percent.m as int, 100);
    }
    let n = xs.len();
    let mut out: Vec<EnvelopeEntry> = Vec::new();
    let mut i: usize = 0;
    while i < n
        invariant
            n == xs@.len(),
            crate::series::lift(xs@) == m,
            crate::series::bounded(m, VAL_LIMIT as int),
            iabs(q as int) <= PERCENT_LIMIT as int,
            q as int == tdiv(percent.m as int, 100),
            goal == envelope_s(m, percent.m as int),
            i <= n,
            out@.len() == i,
            forall|k: int|
                0 <= k < i ==> (#[trigger] out@[k]).at == goal[k].0 && out@[k].basis.m == goal[k].1
                    && out@[k].upper.m == goal[k].2 && out@[k].lower.m == goal[k].3,
        decreases n - i,
    {
        let b = xs[i].1;
        proof {
            assert(iabs(m[i as int].1) <= VAL_LIMIT as int);
            assert(iabs(b as int * ((SCALE as int) + q as int)) <= 0x1_0000_0000_0000_0000_0000_0000_0000
                && iabs(b as int * ((SCALE as int) - q as int))
                <= 0x1_0000_0000_0000_0000_0000_0000_0000) by (nonlinear_arith)
                requires
                    iabs(b as int) <= VAL_LIMIT as int && iabs(q as int) <= PERCENT_LIMIT as int,
            ;
            lemma_tdiv_mag(b as int * ((SCALE as int) + q as int), SCALE as int);
            lemma_tdiv_mag(b as int * ((SCALE as int) - q as int), SCALE as int);
        }
        let up = div_i128(b * (SCALE + q), SCALE);
        let lo = div_i128(b * (SCALE - q), SCALE);
        out.push(
            EnvelopeEntry {
                at: xs[i].0,
                basis: Fixed { m: b },
                upper: Fixed { m: up },
                lower: Fixed { m: lo },
            },
        );
        i += 1;
    }
    proof {
        assert(out@.len() == goal.len());
    }
    Ok(out)
}

} // verus!
