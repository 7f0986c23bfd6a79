//! Internal candlestick pipeline: validated OHLCV mantissas, their
//! stable sort by timestamp, and the shared window extrema.

use crate::candlestick::{
    all_candles_ok, cand_models, cand_ok, cand_values_within, is_candle_validation_err,
    is_first_bad_candle, Candlestick,
};
use crate::error::Error;
use crate::fixed::{iabs, Scalar};
use crate::series::{
    lemma_insert_by_at_position, lemma_sort_by_at_all, lemma_sorted_insert, sort_by_at,
    sorted_by_at, VAL_LIMIT,
};
use vstd::prelude::*;

verus! {

/// A validated candlestick: timestamp with five finite mantissas.
#[derive(Clone, Copy, Debug)]
pub(crate) struct Bar {
    pub at: u64,
    pub o: i128,
    pub h: i128,
    pub l: i128,
    pub c: i128,
    pub v: i128,
}

/// Widens exec bars to their mathematical model.
pub(crate) open spec fn lift_bars(s: Seq<Bar>) -> Seq<(u64, int, int, int, int, int)> {
    Seq::new(
        s.len(),
        |i: int|
            (s[i].at, s[i].o as int, s[i].h as int, s[i].l as int, s[i].c as int, s[i].v as int),
    )
}

/// The timestamp key a candlestick series is sorted by.
pub open spec fn bkey() -> spec_fn((u64, int, int, int, int, int)) -> u64 {
    |c: (u64, int, int, int, int, int)| c.0
}

/// The sorted model of a candlestick slice: what every candle indicator
/// computes over once validation has passed.
pub open spec fn sorted_cand_model(s: Seq<Candlestick>) -> Seq<(u64, int, int, int, int, int)> {
    sort_by_at(bkey(), cand_models(s))
}

/// Every field of every model bar has magnitude at most `b`.
pub open spec fn bars_within(s: Seq<(u64, int, int, int, int, int)>, b: int) -> bool {
    forall|i: int|
        0 <= i < s.len() ==> {
            let c = #[trigger] s[i];
            iabs(c.1) <= b && iabs(c.2) <= b && iabs(c.3) <= b && iabs(c.4) <= b && iabs(c.5) <= b
        }
}

/// Maps candlesticks to bars, rejecting the first ill-formed field
/// exactly as the original-order validation pass does.
pub(crate) fn check_candles(xs: &[Candlestick]) -> (r: Result<Vec<Bar>, Error>)
    ensures
        match r {
            Ok(v) => all_candles_ok(xs@) && lift_bars(v@) == cand_models(xs@),
            Err(e) => !all_candles_ok(xs@) && is_candle_validation_err(xs@, e),
        },
{
    let ghost m = cand_models(xs@);
    let mut v: Vec<Bar> = Vec::new();
    let mut i: usize = 0;
    while i < xs.len()
        invariant
            0 <= i <= xs@.len(),
            m == cand_models(xs@),
            forall|j: int| 0 <= j < i ==> cand_ok(#[trigger] xs@[j]),
            lift_bars(v@) =~= m.subrange(0, i as int),
            v@.len() == i,
        decreases xs.len() - i,
    {
        let x = xs[i];
        let at = x.at;
        if let Err(e) = crate::index_entry::IndexEntry::validate_field(at, x.open, "open") {
            proof {
                assert(is_first_bad_candle(xs@, i as int));
            }
            return Err(e);
        }
        if let Err(e) = crate::index_entry::IndexEntry::validate_field(at, x.high, "high") {
            proof {
                assert(is_first_bad_candle(xs@, i as int));
            }
            return Err(e);
        }
        if let Err(e) = crate::index_entry::IndexEntry::validate_field(at, x.low, "low") {
            proof {
                assert(is_first_bad_candle(xs@, i as int));
            }
            return Err(e);
        }
        if let Err(e) = crate::index_entry::IndexEntry::validate_field(at, x.close, "close") {
            proof {
                assert(is_first_bad_candle(xs@, i as int));
            }
            return Err(e);
        }
        if let Err(e) = crate::index_entry::IndexEntry::validate_field(at, x.volume, "volume") {
            proof {
                assert(is_first_bad_candle(xs@, i as int));
            }
            return Err(e);
        }
        let o = match x.open {
            Scalar::Num(f) => f.m,
            _ => 0,
        };
        let h = match x.high {
            Scalar::Num(f) => f.m,
            _ => 0,
        };
        let l = match x.low {
            Scalar::Num(f) => f.m,
            _ => 0,
        };
        let c = match x.close {
            Scalar::Num(f) => f.m,
            _ => 0,
        };
        let vol = match x.volume {
            Scalar::Num(f) => f.m,
            _ => 0,
        };
        let ghost old_v = v@;
        v.push(Bar { at, o, h, l, c, v: vol });
        proof {
            assert(lift_bars(old_v) == m.subrange(0, i as int));
            assert(lift_bars(old_v).len() == old_v.len());
            assert forall|j: int| 0 <= j < i + 1 implies lift_bars(v@)[j] == m.subrange(
                0,
                i + 1,
            )[j] by {
                assert(m.subrange(0, i + 1)[j] == m[j]);
                if j < i {
                    assert(lift_bars(old_v)[j] == m.subrange(0, i as int)[j]);
                    assert(m.subrange(0, i as int)[j] == m[j]);
                } else {
                    assert(m[j] == crate::candlestick::cand_model(xs@[j]));
                }
            }
            assert(lift_bars(v@) =~= m.subrange(0, i + 1));
        }
        i += 1;
    }
    proof {
        assert(m.subrange(0, xs@.len() as int) =~= m);
    }
    Ok(v)
}

/// Sorts exec bars ascending by timestamp; the result is exactly the
/// model-level stable sort of the input.
pub(crate) fn sort_bars(xs: &Vec<Bar>) -> (r: Vec<Bar>)
    ensures
        lift_bars(r@) == sort_by_at(bkey(), lift_bars(xs@)),
        sorted_by_at(bkey(), lift_bars(r@)),
        r@.len() == xs@.len(),
{
    let mut r: Vec<Bar> = Vec::new();
    let mut i: usize = 0;
    while i < xs.len()
        invariant
            0 <= i <= xs.len(),
            lift_bars(r@) == sort_by_at(bkey(), lift_bars(xs@.subrange(0, i as int))),
            sorted_by_at(bkey(), lift_bars(r@)),
            r@.len() == i,
        decreases xs.len() - i,
    {
        let x = xs[i];
        let mut p: usize = r.len();
        while p > 0 && r[p - 1].at > x.at
            invariant
                0 <= p <= r@.len(),
                forall|j: int| p <= j < r@.len() ==> (#[trigger] r@[j]).at > x.at,
            decreases p,
        {
            p -= 1;
        }
        proof {
            let lr = lift_bars(r@);
            let lx = (x.at, x.o as int, x.h as int, x.l as int, x.c as int, x.v as int);
            assert(forall|j: int| 0 <= j < lr.len() ==> bkey()(#[trigger] lr[j]) == r@[j].at);
            assert(forall|j: int| 0 <= j < p ==> bkey()(#[trigger] lr[j]) <= bkey()(lx)) by {
                if p > 0 {
                    assert(forall|j: int|
                        0 <= j < p ==> bkey()(#[trigger] lr[j]) <= bkey()(lr[p - 1]));
                }
            }
            assert(forall|j: int| p <= j < lr.len() ==> bkey()(#[trigger] lr[j]) > bkey()(lx));
            lemma_insert_by_at_position(bkey(), lx, lr, p as int);
            lemma_sorted_insert(bkey(), lx, lr, p as int);
        }
        let ghost old_r = r@;
        r.insert(p, x);
        proof {
            let lx = (x.at, x.o as int, x.h as int, x.l as int, x.c as int, x.v as int);
            let cur = lift_bars(xs@.subrange(0, i + 1));
            assert(cur.drop_last() =~= lift_bars(xs@.subrange(0, i as int)));
            assert(cur.last() == lx);
            assert(lift_bars(r@) =~= lift_bars(old_r).insert(p as int, lx));
            assert(lift_bars(r@) == sort_by_at(bkey(), cur));
        }
        i += 1;
    }
    proof {
        assert(xs@.subrange(0, xs@.len() as int) =~= xs@);
        assert(lift_bars(xs@.subrange(0, xs@.len() as int)) =~= lift_bars(xs@));
    }
    r
}

/// Validates and sorts a candlestick slice: the shared head of every
/// candle indicator.  On success the bars are exactly the sorted model of
/// the input.
pub(crate) fn prepare_candles(entries: &[Candlestick]) -> (r: Result<Vec<Bar>, Error>)
    requires
        cand_values_within(entries@, VAL_LIMIT as int),
    ensures
        match r {
            Ok(v) => {
                &&& all_candles_ok(entries@)
                &&& lift_bars(v@) == sorted_cand_model(entries@)
                &&& v@.len() == entries@.len()
                &&& bars_within(lift_bars(v@), VAL_LIMIT as int)
                &&& sorted_by_at(bkey(), lift_bars(v@))
            },
            Err(e) => !all_candles_ok(entries@) && is_candle_validation_err(entries@, e),
        },
{
    let bars = match check_candles(entries) {
        Ok(v) => v,
        Err(e) => {
            return Err(e);
        },
    };
    let sorted = sort_bars(&bars);
    proof {
        let fm = cand_models(entries@);
        let inlim = |c: (u64, int, int, int, int, int)|
            iabs(c.1) <= VAL_LIMIT as int && iabs(c.2) <= VAL_LIMIT as int && iabs(c.3)
                <= VAL_LIMIT as int && iabs(c.4) <= VAL_LIMIT as int && iabs(c.5)
                <= VAL_LIMIT as int;
        assert forall|k: int| 0 <= k < fm.len() implies inlim(#[trigger] fm[k]) by {
            assert(fm[k] == crate::candlestick::cand_model(entries@[k]));
            assert(cand_ok(entries@[k]));
        }
        lemma_sort_by_at_all(bkey(), fm, inlim);
        assert(bars_within(lift_bars(sorted@), VAL_LIMIT as int));
        assert(lift_bars(sorted@).len() == sorted@.len());
        assert(lift_bars(bars@).len() == bars@.len());
    }
    Ok(sorted)
}

/// Greatest high among the window positions `[i, j)` of `s` (meaningful
/// for `i < j`).
pub open spec fn max_high(s: Seq<(u64, int, int, int, int, int)>, i: int, j: int) -> int
    decreases j - i,
{
    if j <= i + 1 {
        s[i].2
    } else {
        let rest = max_high(s, i, j - 1);
        if s[j - 1].2 > rest {
            s[j - 1].2
        } else {
            rest
        }
    }
}

/// Least low among the window positions `[i, j)` of `s`.
pub open spec fn min_low(s: Seq<(u64, int, int, int, int, int)>, i: int, j: int) -> int
    decreases j - i,
{
    if j <= i + 1 {
        s[i].3
    } else {
        let rest = min_low(s, i, j - 1);
        if s[j - 1].3 < rest {
            s[j - 1].3
        } else {
            rest
        }
    }
}

/// The window extrema are field values of the window.
pub proof fn lemma_extrema_bounds(
    s: Seq<(u64, int, int, int, int, int)>,
    i: int,
    j: int,
    b: int,
)
    requires
        0 <= i < j <= s.len(),
        bars_within(s, b),
    ensures
        iabs(max_high(s, i, j)) <= b,
        iabs(min_low(s, i, j)) <= b,
    decreases j - i,
{
    if j > i + 1 {
        lemma_extrema_bounds(s, i, j - 1, b);
    }
}

/// Highest high and lowest low of the window of `d` bars starting at `i`.
pub(crate) fn window_extrema(xs: &Vec<Bar>, i: usize, d: usize) -> (r: (i128, i128))
    requires
        1 <= d,
        i + d <= xs@.len(),
    ensures
        r.0 as int == max_high(lift_bars(xs@), i as int, i + d),
        r.1 as int == min_low(lift_bars(xs@), i as int, i + d),
{
    let ghost ls = lift_bars(xs@);
    let n = xs.len();
    let end: usize = i + d;
    let mut hi: i128 = xs[i].h;
    let mut lo: i128 = xs[i].l;
    let mut j: usize = i + 1;
    while j < end
        invariant
            i < j <= end,
            end == i + d,
            end <= xs@.len(),
            ls == lift_bars(xs@),
            hi as int == max_high(ls, i as int, j as int),
            lo as int == min_low(ls, i as int, j as int),
        decreases end - j,
    {
        if xs[j].h > hi {
            hi = xs[j].h;
        }
        if xs[j].l < lo {
            lo = xs[j].l;
        }
        j += 1;
    }
    (hi, lo)
}

} // verus!
