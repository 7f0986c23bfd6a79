//! Ichimoku Kinko Hyo.
//!
//! Conversion and base lines are window midpoints of highs and lows; the
//! leading spans are shifted forward and the lagging span backward by
//! `(lag - 1)` bar intervals, the interval taken from the last two bars
//! (uniform bar spacing is assumed).

use crate::bars::{
    lift_bars, max_high, min_low, prepare_candles, sorted_cand_model, window_extrema, Bar,
};
use crate::candlestick::{all_candles_ok, cand_values_within, is_candle_validation_err, Candlestick};
use crate::error::Error;
use crate::fixed::{div_i128, iabs, lemma_tdiv_range, tdiv, Fixed, Scalar};
use crate::index_entry::IndexEntry;
use crate::series::{is_output, lift, wrap_entries, VAL_LIMIT};
use vstd::prelude::*;

verus! {

/// One joined Ichimoku reading: whichever of the five lines has a value
/// at the requested timestamp.
#[derive(Clone, Copy, Debug)]
pub struct IchimokuEntry {
    pub at: u64,
    pub conversion_line: Option<Fixed>,
    pub base_line: Option<Fixed>,
    pub leading_span_a: Option<Fixed>,
    pub leading_span_b: Option<Fixed>,
    pub lagging_span: Option<Fixed>,
}

/// The five Ichimoku lines.
#[derive(Clone, Debug)]
pub struct IchimokuData {
    pub conversion_line: Vec<IndexEntry>,
    pub base_line: Vec<IndexEntry>,
    pub leading_span_a: Vec<IndexEntry>,
    pub leading_span_b: Vec<IndexEntry>,
    pub lagging_span: Vec<IndexEntry>,
}

/// The window-midpoint line of `s` with window `w`:
/// `(highestHigh + lowestLow) / 2` per window, anchored at the window's
/// last timestamp.
pub open spec fn line_s(s: Seq<(u64, int, int, int, int, int)>, w: int) -> Seq<(u64, int)> {
    if w < 1 || s.len() < w {
        Seq::empty()
    } else {
        Seq::new(
            (s.len() - w + 1) as nat,
            |k: int| (s[k + w - 1].0, tdiv(max_high(s, k, k + w) + min_low(s, k, k + w), 2)),
        )
    }
}

/// The close-price series of `s`, in bar order.
pub open spec fn closes_s(s: Seq<(u64, int, int, int, int, int)>) -> Seq<(u64, int)> {
    Seq::new(s.len(), |i: int| (s[i].0, s[i].4))
}

/// The unshifted leading span A: the midpoint of the base and conversion
/// lines where both are anchored, at the base line's timestamps.
pub open spec fn span_a_src_s(s: Seq<(u64, int, int, int, int, int)>, wc: int, wb: int) -> Seq<
    (u64, int),
> {
    let conv = line_s(s, wc);
    let base = line_s(s, wb);
    let off = if wc >= wb {
        wc - wb
    } else {
        0
    };
    let co = off + wb - wc;
    if base.len() <= off || conv.len() == 0 {
        Seq::empty()
    } else {
        Seq::new(
            (base.len() - off) as nat,
            |k: int| (base[k + off].0, tdiv(base[k + off].1 + conv[k + co].1, 2)),
        )
    }
}

/// Shifts a line's timestamps by `(span - 1)` times the last two
/// elements' interval — forward, or backward for the lagging span.  A
/// line with fewer than two elements, or a zero span, is unchanged.
pub open spec fn apply_lag_s(e: Seq<(u64, int)>, span: int, backward: bool) -> Seq<(u64, int)> {
    if e.len() < 2 || span == 0 {
        e
    } else {
        let dur = (e[e.len() - 1].0 - e[e.len() - 2].0) * (span - 1);
        Seq::new(
            e.len(),
            |i: int|
                (
                    if backward {
                        (e[i].0 - dur) as u64
                    } else {
                        (e[i].0 + dur) as u64
                    },
                    e[i].1,
                ),
        )
    }
}

/// The shift by `(span - 1)` intervals stays within the timestamp range
/// on every bar, so no shifted series wraps around.
pub open spec fn lag_ok(s: Seq<(u64, int, int, int, int, int)>, span: int) -> bool {
    span == 0 || s.len() < 2 || {
        let dur = (s[s.len() - 1].0 - s[s.len() - 2].0) * (span - 1);
        &&& 0 <= dur
        &&& forall|i: int|
            0 <= i < s.len() ==> (#[trigger] s[i].0) + dur <= u64::MAX && s[i].0 >= dur
    }
}

/// Law: the leading spans' timestamps sit exactly `(span - 1)` bar
/// intervals ahead of the unshifted line's, and the lagging span's the
/// same amount behind.
pub proof fn lemma_apply_lag_offsets(e: Seq<(u64, int)>, span: int, dur: int)
    requires
        e.len() >= 2,
        span >= 1,
        dur == (e[e.len() - 1].0 - e[e.len() - 2].0) * (span - 1),
        0 <= dur,
        forall|i: int| 0 <= i < e.len() ==> (#[trigger] e[i].0) + dur <= u64::MAX && e[i].0 >= dur,
    ensures
        apply_lag_s(e, span, false).len() == e.len(),
        apply_lag_s(e, span, true).len() == e.len(),
        forall|i: int|
            0 <= i < e.len() ==> (#[trigger] apply_lag_s(e, span, false)[i].0) == e[i].0 + dur,
        forall|i: int|
            0 <= i < e.len() ==> (#[trigger] apply_lag_s(e, span, true)[i].0) == e[i].0 - dur,
        forall|i: int|
            0 <= i < e.len() ==> (#[trigger] apply_lag_s(e, span, false)[i].1) == e[i].1,
        forall|i: int| 0 <= i < e.len() ==> (#[trigger] apply_lag_s(e, span, true)[i].1) == e[i].1,
{
}

/// First value held at timestamp `at`, as a mantissa.
pub open spec fn lookup_at(s: Seq<IndexEntry>, at: u64) -> Option<int>
    decreases s.len(),
{
    if s.len() == 0 {
        Option::None
    } else if s[0].at == at {
        Option::Some(s[0].value.m_spec())
    } else {
        lookup_at(s.drop_first(), at)
    }
}

/// Finds the first entry with timestamp `at`.
fn find_at(v: &Vec<IndexEntry>, at: u64) -> (r: Option<Fixed>)
    ensures
        r is Some <==> lookup_at(v@, at) is Some,
        r matches Some(f) ==> lookup_at(v@, at) == Option::Some(f.m as int),
{
    let n = v.len();
    proof {
        assert(v@.subrange(0, n as int) =~= v@);
    }
    let mut i: usize = 0;
    while i < n
        invariant
            n == v@.len(),
            i <= n,
            lookup_at(v@, at) == lookup_at(v@.subrange(i as int, n as int), at),
        decreases n - i,
    {
        proof {
            assert(v@.subrange(i as int, n as int)[0] == v@[i as int]);
        }
        if v[i].at == at {
            // Line values are always finite numbers; the ill-formed
            // classes read as the zero mantissa, as the model does.
            let f = match v[i].value {
                Scalar::Num(f) => f,
                _ => Fixed { m: 0 },
            };
            return Some(f);
        }
        proof {
            assert(v@.subrange(i as int, n as int).drop_first() =~= v@.subrange(
                i + 1,
                n as int,
            ));
        }
        i += 1;
    }
    proof {
        assert(v@.subrange(n as int, n as int).len() == 0);
    }
    None
}

impl IchimokuData {
    /// Joins the five lines at one timestamp: the first value of each
    /// line held there, or nothing when no line has one.
    pub fn get(&self, at: u64) -> (r: Option<IchimokuEntry>)
        ensures
            r is Some <==> (lookup_at(self.conversion_line@, at) is Some || lookup_at(
                self.base_line@,
                at,
            ) is Some || lookup_at(self.leading_span_a@, at) is Some || lookup_at(
                self.leading_span_b@,
                at,
            ) is Some || lookup_at(self.lagging_span@, at) is Some),
            r matches Some(en) ==> {
                &&& en.at == at
                &&& (en.conversion_line is Some <==> lookup_at(self.conversion_line@, at) is Some)
                &&& (en.base_line is Some <==> lookup_at(self.base_line@, at) is Some)
                &&& (en.leading_span_a is Some <==> lookup_at(self.leading_span_a@, at) is Some)
                &&& (en.leading_span_b is Some <==> lookup_at(self.leading_span_b@, at) is Some)
                &&& (en.lagging_span is Some <==> lookup_at(self.lagging_span@, at) is Some)
                &&& (en.conversion_line matches Some(f) ==> lookup_at(self.conversion_line@, at)
                    == Option::Some(f.m as int))
                &&& (en.base_line matches Some(f) ==> lookup_at(self.base_line@, at)
                    == Option::Some(f.m as int))
                &&& (en.leading_span_a matches Some(f) ==> lookup_at(self.leading_span_a@, at)
                    == Option::Some(f.m as int))
                &&& (en.leading_span_b matches Some(f) ==> lookup_at(self.leading_span_b@, at)
                    == Option::Some(f.m as int))
                &&& (en.lagging_span matches Some(f) ==> lookup_at(self.lagging_span@, at)
                    == Option::Some(f.m as int))
            },
    {
        let conversion_line = find_at(&self.conversion_line, at);
        let base_line = find_at(&self.base_line, at);
        let leading_span_a = find_at(&self.leading_span_a, at);
        let leading_span_b = find_at(&self.leading_span_b, at);
        let lagging_span = find_at(&self.lagging_span, at);
        if conversion_line.is_none() && base_line.is_none() && leading_span_a.is_none()
            && leading_span_b.is_none() && lagging_span.is_none() {
            return None;
        }
        Some(
            IchimokuEntry {
                at,
                conversion_line,
                base_line,
                leading_span_a,
                leading_span_b,
                lagging_span,
            },
        )
    }
}

/// The window-midpoint line of already validated, sorted bars.
pub(crate) fn line_core(xs: &Vec<Bar>, w: usize) -> (r: Vec<(u64, i128)>)
    requires
        crate::bars::bars_within(lift_bars(xs@), VAL_LIMIT as int),
    ensures
        lift(r@) == line_s(lift_bars(xs@), w as int),
        crate::series::bounded(lift(r@), VAL_LIMIT as int),
        forall|k: int| 0 <= k < r@.len() ==> (#[trigger] lift(r@)[k].0) == lift_bars(xs@)[k + w - 1].0,
{
    let ghost sm = lift_bars(xs@);
    let n = xs.len();
    if w == 0 || n < w {
        let r: Vec<(u64, i128)> = Vec::new();
        proof {
            assert(lift(r@) =~= line_s(sm, w as int));
        }
        return r;
    }
    let mut out: Vec<(u64, i128)> = Vec::new();
    let mut i: usize = 0;
    while i <= n - w
        invariant
            1 <= w <= n,
            n == xs@.len(),
            sm == lift_bars(xs@),
            crate::bars::bars_within(sm, VAL_LIMIT as int),
            i <= n - w + 1,
            out@.len() == i,
            forall|k: int| 0 <= k < i ==> #[trigger] lift(out@)[k] == line_s(sm, w as int)[k],
            crate::series::bounded(lift(out@), VAL_LIMIT as int),
        decreases n - w + 1 - i,
    {
        let ex = window_extrema(xs, i, w);
        proof {
            crate::bars::lemma_extrema_bounds(sm, i as int, i + w, VAL_LIMIT as int);
        }
        let mid = div_i128(ex.0 + ex.1, 2);
        proof {
            lemma_tdiv_range(ex.0 as int + ex.1 as int, 2, -(VAL_LIMIT as int), VAL_LIMIT as int);
        }
        let ghost old_out = out@;
        out.push((xs[i + w - 1].at, mid));
        proof {
            assert(lift(out@)[i as int] == line_s(sm, w as int)[i as int]);
            assert(forall|k: int| 0 <= k < i ==> #[trigger] lift(out@)[k] == lift(old_out)[k]);
        }
        i += 1;
    }
    proof {
        assert(lift(out@) =~= line_s(sm, w as int));
    }
    out
}

/// Applies the lag shift to an exec line whose model satisfies the shift
/// bounds.
pub(crate) fn apply_lag_core(e: &Vec<(u64, i128)>, span: usize, backward: bool) -> (r: Vec<
    (u64, i128),
>)
    requires
        e@.len() >= 2 && span >= 1 ==> {
            let dur = (lift(e@)[e@.len() - 1].0 - lift(e@)[e@.len() - 2].0) * (span - 1);
            &&& 0 <= dur
            &&& forall|i: int|
                0 <= i < e@.len() ==> (#[trigger] lift(e@)[i].0) + dur <= u64::MAX && lift(
                    e@,
                )[i].0 >= dur
        },
    ensures
        lift(r@) == apply_lag_s(lift(e@), span as int, backward),
{
    let n = e.len();
    if n < 2 || span == 0 {
        let mut r: Vec<(u64, i128)> = Vec::new();
        let mut i: usize = 0;
        while i < n
            invariant
                n == e@.len(),
                i <= n,
                r@.len() == i,
                forall|k: int| 0 <= k < i ==> #[trigger] r@[k] == e@[k],
            decreases n - i,
        {
            r.push(e[i]);
            i += 1;
        }
        proof {
            assert(r@ =~= e@);
            assert(lift(r@) =~= apply_lag_s(lift(e@), span as int, backward));
        }
        return r;
    }
    let last = e[n - 1].0;
    let prev = e[n - 2].0;
    let ghost dur_i = (lift(e@)[e@.len() - 1].0 - lift(e@)[e@.len() - 2].0) * (span as int - 1);
    proof {
        assert(lift(e@)[e@.len() - 1].0 == e@[e@.len() - 1].0);
        assert(lift(e@)[e@.len() - 2].0 == e@[e@.len() - 2].0);
        assert(lift(e@)[0].0 + dur_i <= u64::MAX && dur_i >= 0);
    }
    let dur: u64;
    if span == 1 {
        dur = 0;
        proof {
            assert(dur_i == (last - prev) * 0);
            assert((last - prev) * 0 == 0) by (nonlinear_arith);
        }
    } else {
        proof {
            assert(last >= prev) by (nonlinear_arith)
                requires
                    (last - prev) * (span as int - 1) >= 0 && span as int - 1 >= 1,
            ;
        }
        let interval: u64 = last - prev;
        let dur128: u128 = (interval as u128) * ((span - 1) as u128);
        proof {
            assert(dur128 == dur_i);
        }
        dur = dur128 as u64;
    }
    let mut r: Vec<(u64, i128)> = Vec::new();
    let mut i: usize = 0;
    while i < n
        invariant
            n == e@.len(),
            n >= 2,
            span >= 1,
            dur == dur_i,
            dur_i == (lift(e@)[e@.len() - 1].0 - lift(e@)[e@.len() - 2].0) * (span as int - 1),
            forall|k: int|
                0 <= k < e@.len() ==> (#[trigger] lift(e@)[k].0) + dur_i <= u64::MAX && lift(
                    e@,
                )[k].0 >= dur_i,
            i <= n,
            r@.len() == i,
            forall|k: int|
                0 <= k < i ==> #[trigger] lift(r@)[k] == apply_lag_s(
                    lift(e@),
                    span as int,
                    backward,
                )[k],
        decreases n - i,
    {
        proof {
            assert(lift(e@)[i as int].0 == e@[i as int].0);
            assert(lift(e@)[i as int].0 + dur_i <= u64::MAX && lift(e@)[i as int].0 >= dur_i);
        }
        let at = if backward {
            e[i].0 - dur
        } else {
            e[i].0 + dur
        };
        let ghost old_r = r@;
        r.push((at, e[i].1));
        proof {
            assert(lift(r@)[i as int] == apply_lag_s(lift(e@), span as int, backward)[i as int]);
            assert(forall|k: int| 0 <= k < i ==> #[trigger] lift(r@)[k] == lift(old_r)[k]);
        }
        i += 1;
    }
    proof {
        assert(lift(r@) =~= apply_lag_s(lift(e@), span as int, backward));
    }
    r
}

/// Returns Ichimoku Kinko Hyo with the common default parameters
/// (9, 26, 52, 26).
pub fn ichimoku_default(entries: &[Candlestick]) -> (r: Result<IchimokuData, Error>)
    requires
        cand_values_within(entries@, VAL_LIMIT as int),
        lag_ok(sorted_cand_model(entries@), 26),
    ensures
        all_candles_ok(entries@) ==> (r matches Ok(data) && is_ichimoku_output(
            data,
            sorted_cand_model(entries@),
            9,
            26,
            52,
            26,
        )),
        !all_candles_ok(entries@) ==> (r matches Err(e) && is_candle_validation_err(entries@, e)),
{
    ichimoku(entries, 9, 26, 52, 26)
}

/// The five lines of `data` carry exactly the five line models of `s`.
pub open spec fn is_ichimoku_output(
    data: IchimokuData,
    s: Seq<(u64, int, int, int, int, int)>,
    wc: int,
    wb: int,
    wsb: int,
    span: int,
) -> bool {
    &&& is_output(data.conversion_line@, line_s(s, wc))
    &&& is_output(data.base_line@, line_s(s, wb))
    &&& is_output(data.leading_span_a@, apply_lag_s(span_a_src_s(s, wc, wb), span, false))
    &&& is_output(data.leading_span_b@, apply_lag_s(line_s(s, wsb), span, false))
    &&& is_output(data.lagging_span@, apply_lag_s(closes_s(s), span, true))
}

/// Returns Ichimoku Kinko Hyo for the given candlestick list with custom
/// parameters.
///
/// The input is sorted ascending by timestamp; the shift assumes the
/// last two bars' interval holds uniformly, and the caller keeps shifted
/// timestamps within range.  An ill-formed scalar fails the call with
/// its timestamp and field.
pub fn ichimoku(
    entries: &[Candlestick],
    conversion_line_len: usize,
    base_line_len: usize,
    leading_span_b_len: usize,
    lagging_span: usize,
) -> (r: Result<IchimokuData, Error>)
    requires
        cand_values_within(entries@, VAL_LIMIT as int),
        lag_ok(sorted_cand_model(entries@), lagging_span as int),
    ensures
        all_candles_ok(entries@) ==> (r matches Ok(data) && is_ichimoku_output(
            data,
            sorted_cand_model(entries@),
            conversion_line_len as int,
            base_line_len as int,
            leading_span_b_len as int,
            lagging_span as int,
        )),
        !all_candles_ok(entries@) ==> (r matches Err(e) && is_candle_validation_err(entries@, e)),
{
    let sorted = match prepare_candles(entries) {
        Ok(v) => v,
        Err(e) => {
            return Err(e);
        },
    };
    let ghost sm = sorted_cand_model(entries@);
    proof {
        assert(lift_bars(sorted@).len() == sorted@.len());
    }
    let n = sorted.len();
    let base = line_core(&sorted, base_line_len);
    let conversion = line_core(&sorted, conversion_line_len);
    // Unshifted leading span A: midpoints where both lines are anchored.
    let wc = conversion_line_len;
    let wb = base_line_len;
    let off: usize = if wc >= wb {
        wc - wb
    } else {
        0
    };
    let co: usize = off + wb - wc;
    let ghost src_goal = span_a_src_s(sm, wc as int, wb as int);
    let mut src: Vec<(u64, i128)> = Vec::new();
    if base.len() > off && conversion.len() > 0 {
        let bn = base.len();
        let cn = conversion.len();
        let cnt = bn - off;
        proof {
            assert(lift(base@).len() == base@.len());
            assert(lift(conversion@).len() == conversion@.len());
            assert(base@.len() == sm.len() - (wb as int) + 1);
            assert(conversion@.len() == sm.len() - (wc as int) + 1);
            assert(cnt - 1 + co < conversion@.len());
        }
        let mut k: usize = 0;
        while k < cnt
            invariant
                cnt == base@.len() - off,
                bn == base@.len(),
                cn == conversion@.len(),
                base@.len() > off,
                conversion@.len() > 0,
                co == off + wb - wc,
                off == (if wc >= wb {
                    wc - wb
                } else {
                    0
                }),
                lift(base@) == line_s(sm, wb as int),
                lift(conversion@) == line_s(sm, wc as int),
                crate::series::bounded(lift(base@), VAL_LIMIT as int),
                crate::series::bounded(lift(conversion@), VAL_LIMIT as int),
                src_goal == span_a_src_s(sm, wc as int, wb as int),
                cnt > 0 ==> cnt - 1 + co < conversion@.len(),
                k <= cnt,
                src@.len() == k,
                forall|j: int| 0 <= j < k ==> #[trigger] lift(src@)[j] == src_goal[j],
                crate::series::bounded(lift(src@), VAL_LIMIT as int),
            decreases cnt - k,
        {
            proof {
                assert(iabs(lift(base@)[k + off].1) <= VAL_LIMIT as int);
                assert(iabs(lift(conversion@)[k + co].1) <= VAL_LIMIT as int);
            }
            let mid = div_i128(base[k + off].1 + conversion[k + co].1, 2);
            proof {
                lemma_tdiv_range(
                    lift(base@)[k + off].1 + lift(conversion@)[k + co].1,
                    2,
                    -(VAL_LIMIT as int),
                    VAL_LIMIT as int,
                );
            }
            let ghost old_src = src@;
            src.push((base[k + off].0, mid));
            proof {
                assert(lift(src@)[k as int] == src_goal[k as int]);
                assert(forall|j: int| 0 <= j < k ==> #[trigger] lift(src@)[j] == lift(old_src)[j]);
            }
            k += 1;
        }
        proof {
            assert(lift(src@) =~= src_goal);
        }
    } else {
        proof {
            assert(lift(src@) =~= src_goal);
        }
    }
    let span_b_line = line_core(&sorted, leading_span_b_len);
    // Close prices, in sorted order.
    let mut closes: Vec<(u64, i128)> = Vec::new();
    let mut i: usize = 0;
    while i < n
        invariant
            n == sorted@.len(),
            sm == lift_bars(sorted@),
            i <= n,
            closes@.len() == i,
            forall|k: int| 0 <= k < i ==> #[trigger] lift(closes@)[k] == closes_s(sm)[k],
        decreases n - i,
    {
        let ghost old_c = closes@;
        closes.push((sorted[i].at, sorted[i].c));
        proof {
            assert(lift(closes@)[i as int] == closes_s(sm)[i as int]);
            assert(forall|k: int| 0 <= k < i ==> #[trigger] lift(closes@)[k] == lift(old_c)[k]);
        }
        i += 1;
    }
    proof {
        assert(lift(closes@) =~= closes_s(sm));
        lemma_lag_sources_ok(sm, lagging_span as int, wc as int, wb as int);
        lemma_lag_source_ok_line(sm, lagging_span as int, leading_span_b_len as int);
        lemma_lag_source_ok_closes(sm, lagging_span as int);
    }
    let span_a = apply_lag_core(&src, lagging_span, false);
    let span_b = apply_lag_core(&span_b_line, lagging_span, false);
    let lagging = apply_lag_core(&closes, lagging_span, true);
    Ok(
        IchimokuData {
            conversion_line: wrap_entries(conversion),
            base_line: wrap_entries(base),
            leading_span_a: wrap_entries(span_a),
            leading_span_b: wrap_entries(span_b),
            lagging_span: wrap_entries(lagging),
        },
    )
}

/// The shift bounds carry from the bar series to the unshifted span-A
/// line, whose timestamps are bar timestamps with the same last two.
proof fn lemma_lag_sources_ok(
    s: Seq<(u64, int, int, int, int, int)>,
    span: int,
    wc: int,
    wb: int,
)
    requires
        lag_ok(s, span),
    ensures
        ({
            let e = span_a_src_s(s, wc, wb);
            e.len() >= 2 && span >= 1 ==> {
                let dur = (e[e.len() - 1].0 - e[e.len() - 2].0) * (span - 1);
                &&& 0 <= dur
                &&& forall|i: int|
                    0 <= i < e.len() ==> (#[trigger] e[i].0) + dur <= u64::MAX && e[i].0 >= dur
            }
        }),
{
    let e = span_a_src_s(s, wc, wb);
    if e.len() >= 2 && span >= 1 {
        let base = line_s(s, wb);
        assert(e[e.len() - 1].0 == s[s.len() - 1].0 && e[e.len() - 2].0 == s[s.len() - 2].0);
        assert forall|i: int| 0 <= i < e.len() implies (#[trigger] e[i].0) + ((e[e.len() - 1].0
            - e[e.len() - 2].0) * (span - 1)) <= u64::MAX && e[i].0 >= ((e[e.len() - 1].0 - e[e.len()
            - 2].0) * (span - 1)) by {
            let off = if wc >= wb {
                wc - wb
            } else {
                0
            };
            assert(e[i].0 == s[i + off + wb - 1].0);
        }
    }
}

/// The shift bounds carry from the bar series to a midpoint line.
proof fn lemma_lag_source_ok_line(s: Seq<(u64, int, int, int, int, int)>, span: int, w: int)
    requires
        lag_ok(s, span),
    ensures
        ({
            let e = line_s(s, w);
            e.len() >= 2 && span >= 1 ==> {
                let dur = (e[e.len() - 1].0 - e[e.len() - 2].0) * (span - 1);
                &&& 0 <= dur
                &&& forall|i: int|
                    0 <= i < e.len() ==> (#[trigger] e[i].0) + dur <= u64::MAX && e[i].0 >= dur
            }
        }),
{
    let e = line_s(s, w);
    if e.len() >= 2 && span >= 1 {
        assert(e[e.len() - 1].0 == s[s.len() - 1].0 && e[e.len() - 2].0 == s[s.len() - 2].0);
        assert forall|i: int| 0 <= i < e.len() implies (#[trigger] e[i].0) + ((e[e.len() - 1].0
            - e[e.len() - 2].0) * (span - 1)) <= u64::MAX && e[i].0 >= ((e[e.len() - 1].0 - e[e.len()
            - 2].0) * (span - 1)) by {
            assert(e[i].0 == s[i + w - 1].0);
        }
    }
}

/// The shift bounds carry from the bar series to the close series.
proof fn lemma_lag_source_ok_closes(s: Seq<(u64, int, int, int, int, int)>, span: int)
    requires
        lag_ok(s, span),
    ensures
        ({
            let e = closes_s(s);
            e.len() >= 2 && span >= 1 ==> {
                let dur = (e[e.len() - 1].0 - e[e.len() - 2].0) * (span - 1);
                &&& 0 <= dur
                &&& forall|i: int|
                    0 <= i < e.len() ==> (#[trigger] e[i].0) + dur <= u64::MAX && e[i].0 >= dur
            }
        }),
{
    let e = closes_s(s);
    if e.len() >= 2 && span >= 1 {
        assert(e[e.len() - 1].0 == s[s.len() - 1].0 && e[e.len() - 2].0 == s[s.len() - 2].0);
        assert forall|i: int| 0 <= i < e.len() implies (#[trigger] e[i].0) + ((e[e.len() - 1].0
            - e[e.len() - 2].0) * (span - 1)) <= u64::MAX && e[i].0 >= ((e[e.len() - 1].0 - e[e.len()
            - 2].0) * (span - 1)) by {
            assert(e[i].0 == s[i].0);
        }
    }
}

} // verus!
