//! Common machinery of the timestamped-series pipeline.
//!
//! Every indicator runs the same pipeline: map its input entries to plain
//! `(timestamp, mantissa)` pairs, reject ill-formed scalars, sort ascending
//! by timestamp (stably), then compute over sliding windows or recurrences.
//! This module holds the mathematical model of that pipeline — sequences of
//! `(u64, int)` pairs — together with the verified sorting and validation
//! steps that the indicator modules share.

use crate::error::{is_scalar_err, Error};
use crate::fixed::{iabs, Scalar};
use crate::index_entry::{IndexEntry, IndexEntryLike};
use vstd::prelude::*;

verus! {

/// Largest mantissa magnitude accepted as indicator input (a thousand
/// million whole units): the bound under which every window sum and
/// weighted sum in this crate fits an `i128`.
pub const VAL_LIMIT: i128 = 1_000_000_000_000_000_000;

/// Mantissa bound kept by the internal computation cores; indicator
/// intermediates (differences of averages and the like) stay below it.
pub const CORE_LIMIT: i128 = 4_000_000_000_000_000_000;

/// Model of one raw entry: timestamp and raw scalar.
pub open spec fn ent_models<T: IndexEntryLike>(s: Seq<T>) -> Seq<(u64, Scalar)> {
    Seq::new(s.len(), |i: int| (s[i].at_of(), s[i].value_of()))
}

/// Every scalar of the sequence is a finite number.
pub open spec fn all_finite(s: Seq<(u64, Scalar)>) -> bool {
    forall|i: int| 0 <= i < s.len() ==> s[i].1 is Num
}

/// `k` is the position of the first ill-formed scalar of the sequence.
pub open spec fn is_first_invalid(s: Seq<(u64, Scalar)>, k: int) -> bool {
    &&& 0 <= k < s.len()
    &&& !(s[k].1 is Num)
    &&& forall|j: int| 0 <= j < k ==> s[j].1 is Num
}

/// Mantissas of a sequence of finite scalars.
pub open spec fn fin_models(s: Seq<(u64, Scalar)>) -> Seq<(u64, int)> {
    Seq::new(s.len(), |i: int| (s[i].0, s[i].1.m_spec()))
}

/// Widens exec pairs to their mathematical model.
pub open spec fn lift(s: Seq<(u64, i128)>) -> Seq<(u64, int)> {
    Seq::new(s.len(), |i: int| (s[i].0, s[i].1 as int))
}

/// The timestamp key a pair series is sorted by.
pub open spec fn mkey() -> spec_fn((u64, int)) -> u64 {
    |p: (u64, int)| p.0
}

/// Every finite value of the raw entries has magnitude at most `b`.
pub open spec fn values_within<T: IndexEntryLike>(s: Seq<T>, b: int) -> bool {
    forall|i: int|
        0 <= i < s.len() && #[trigger] s[i].value_of() is Num ==> iabs(s[i].value_of().m_spec())
            <= b
}

/// Every value of a pair sequence has magnitude at most `b`.
pub open spec fn bounded(s: Seq<(u64, int)>, b: int) -> bool {
    forall|i: int| 0 <= i < s.len() ==> iabs(#[trigger] s[i].1) <= b
}

/// Sum of the values of `s` over the index range `[i, j)`.
pub open spec fn sum_range(s: Seq<(u64, int)>, i: int, j: int) -> int
    decreases j - i,
{
    if j <= i {
        0
    } else {
        sum_range(s, i, j - 1) + s[j - 1].1
    }
}

/// A window sum of values with magnitude at most `b` has magnitude at most
/// the window width times `b`.
pub proof fn lemma_sum_range_bound(s: Seq<(u64, int)>, i: int, j: int, b: int)
    requires
        0 <= i,
        j <= s.len(),
        forall|k: int| i <= k < j ==> iabs(#[trigger] s[k].1) <= b,
    ensures
        iabs(sum_range(s, i, j)) <= (if j <= i {
            0
        } else {
            (j - i) * b
        }),
    decreases j - i,
{
    if j > i {
        lemma_sum_range_bound(s, i, j - 1, b);
        assert((j - 1 - i) * b + b == (j - i) * b) by (nonlinear_arith);
    }
}

/// Sum of the window of `d` values starting at index `i`; under the core
/// bound it fits an `i128` for any window width.
pub(crate) fn sum_window_core(xs: &Vec<(u64, i128)>, i: usize, d: usize, Ghost(b): Ghost<int>) -> (s:
    i128)
    requires
        i + d <= xs@.len(),
        0 <= b,
        bounded(lift(xs@), b),
        (d as int) * b <= 0x4000_0000_0000_0000_0000_0000_0000_0000,
    ensures
        s as int == sum_range(lift(xs@), i as int, i + d),
        iabs(s as int) <= (d as int) * b,
{
    let ghost ls = lift(xs@);
    let n = xs.len();
    let end: usize = i + d;
    let mut s: i128 = 0;
    let mut j: usize = i;
    while j < end
        invariant
            i <= j <= end,
            end == i + d,
            end <= xs@.len(),
            ls == lift(xs@),
            0 <= b,
            bounded(ls, b),
            (d as int) * b <= 0x4000_0000_0000_0000_0000_0000_0000_0000,
            s as int == sum_range(ls, i as int, j as int),
            iabs(s as int) <= (j - i) * b,
        decreases i + d - j,
    {
        proof {
            assert(iabs(ls[j as int].1) <= b);
            assert((j - i) * b + b == (j + 1 - i) * b) by (nonlinear_arith);
            assert((j + 1 - i) * b <= (d as int) * b) by (nonlinear_arith)
                requires
                    j + 1 - i <= d as int && 0 <= b,
            ;
        }
        s = s + xs[j].1;
        j += 1;
    }
    proof {
        assert((j - i) * b <= (d as int) * b) by (nonlinear_arith)
            requires
                j - i <= d as int && 0 <= b,
        ;
    }
    s
}

/// A window sum of values between `lo` and `hi` lies between the width
/// times each.
pub proof fn lemma_sum_range_in(s: Seq<(u64, int)>, i: int, j: int, lo: int, hi: int)
    requires
        0 <= i,
        j <= s.len(),
        forall|k: int| i <= k < j ==> lo <= (#[trigger] s[k].1) <= hi,
    ensures
        j > i ==> (j - i) * lo <= sum_range(s, i, j) <= (j - i) * hi,
    decreases j - i,
{
    if j > i {
        lemma_sum_range_in(s, i, j - 1, lo, hi);
        assert(lo <= s[j - 1].1 <= hi);
        if j - 1 == i {
            assert(sum_range(s, i, j - 1) == 0);
            assert(sum_range(s, i, j) == s[j - 1].1);
            assert((j - i) * lo == lo && (j - i) * hi == hi) by (nonlinear_arith)
                requires
                    j - i == 1,
            ;
        } else {
            assert((j - 1 - i) * lo + lo == (j - i) * lo && (j - 1 - i) * hi + hi == (j - i) * hi)
                by (nonlinear_arith);
        }
    }
}

/// The same series with every value negated.
pub open spec fn negate(s: Seq<(u64, int)>) -> Seq<(u64, int)> {
    Seq::new(s.len(), |i: int| (s[i].0, -s[i].1))
}

/// Window sums of the negated series are the negated window sums.
pub proof fn lemma_sum_range_neg(s: Seq<(u64, int)>, i: int, j: int)
    requires
        0 <= i,
        j <= s.len(),
    ensures
        sum_range(negate(s), i, j) == -sum_range(s, i, j),
    decreases j - i,
{
    if j > i {
        lemma_sum_range_neg(s, i, j - 1);
    }
}

/// Stable insertion of `x` into `s`: `x` goes after every element whose key
/// is at most `key(x)`.
pub open spec fn insert_by_at<A>(key: spec_fn(A) -> u64, x: A, s: Seq<A>) -> Seq<A>
    decreases s.len(),
{
    if s.len() == 0 {
        seq![x]
    } else if key(x) < key(s[0]) {
        seq![x] + s
    } else {
        seq![s[0]] + insert_by_at(key, x, s.drop_first())
    }
}

/// Stable insertion sort of `s`, ascending by `key`: the sorted order every
/// indicator gives its input before computing.
pub open spec fn sort_by_at<A>(key: spec_fn(A) -> u64, s: Seq<A>) -> Seq<A>
    decreases s.len(),
{
    if s.len() == 0 {
        Seq::empty()
    } else {
        insert_by_at(key, s.last(), sort_by_at(key, s.drop_last()))
    }
}

/// The sequence is ascending by `key`.
pub open spec fn sorted_by_at<A>(key: spec_fn(A) -> u64, s: Seq<A>) -> bool {
    forall|i: int, j: int| 0 <= i < j < s.len() ==> key(#[trigger] s[i]) <= key(#[trigger] s[j])
}

/// `p` splits `s` for `x`: keys at most `key(x)` before it, keys above it
/// from it on — the position a stable insertion fills.
pub open spec fn split_at_ok<A>(key: spec_fn(A) -> u64, x: A, s: Seq<A>, p: int) -> bool {
    &&& 0 <= p <= s.len()
    &&& forall|j: int| 0 <= j < p ==> key(#[trigger] s[j]) <= key(x)
    &&& forall|j: int| p <= j < s.len() ==> key(#[trigger] s[j]) > key(x)
}

/// Inserting at the position that keeps the order is what `insert_by_at`
/// does: on a sorted sequence the two agree.
pub proof fn lemma_insert_by_at_position<A>(key: spec_fn(A) -> u64, x: A, s: Seq<A>, p: int)
    requires
        sorted_by_at(key, s),
        0 <= p <= s.len(),
        forall|j: int| 0 <= j < p ==> key(#[trigger] s[j]) <= key(x),
        forall|j: int| p <= j < s.len() ==> key(#[trigger] s[j]) > key(x),
    ensures
        insert_by_at(key, x, s) == s.insert(p, x),
    decreases s.len(),
{
    if s.len() == 0 {
        assert(insert_by_at(key, x, s) =~= s.insert(p, x));
    } else if p == 0 {
        assert(key(x) < key(s[0]));
        assert(insert_by_at(key, x, s) =~= s.insert(0, x));
    } else {
        assert(key(s[0]) <= key(x));
        let t = s.drop_first();
        assert(forall|j: int| 0 <= j < p - 1 ==> key(#[trigger] t[j]) <= key(x));
        assert(forall|j: int| p - 1 <= j < t.len() ==> key(#[trigger] t[j]) > key(x));
        lemma_insert_by_at_position(key, x, t, p - 1);
        assert(seq![s[0]] + t.insert(p - 1, x) =~= s.insert(p, x));
    }
}

/// Inserting into a sequence sorted by `key` at the order-keeping position
/// leaves it sorted.
pub proof fn lemma_sorted_insert<A>(key: spec_fn(A) -> u64, x: A, s: Seq<A>, p: int)
    requires
        sorted_by_at(key, s),
        0 <= p <= s.len(),
        forall|j: int| 0 <= j < p ==> key(#[trigger] s[j]) <= key(x),
        forall|j: int| p <= j < s.len() ==> key(#[trigger] s[j]) > key(x),
    ensures
        sorted_by_at(key, s.insert(p, x)),
{
    let t = s.insert(p, x);
    assert forall|i: int, j: int| 0 <= i < j < t.len() implies key(t[i]) <= key(t[j]) by {
        assert(forall|k: int| 0 <= k < p ==> t[k] == s[k]);
        assert(forall|k: int| p < k < t.len() ==> t[k] == s[k - 1]);
        assert(t[p] == x);
    }
}

/// Sorting keeps the length and yields an ascending sequence.
pub proof fn lemma_sort_by_at_props<A>(key: spec_fn(A) -> u64, s: Seq<A>)
    ensures
        sort_by_at(key, s).len() == s.len(),
        sorted_by_at(key, sort_by_at(key, s)),
    decreases s.len(),
{
    if s.len() > 0 {
        lemma_sort_by_at_props(key, s.drop_last());
        lemma_insert_by_at_props(key, s.last(), sort_by_at(key, s.drop_last()));
    }
}

/// Stable insertion into a sorted sequence keeps it sorted and grows it by
/// one.
pub proof fn lemma_insert_by_at_props<A>(key: spec_fn(A) -> u64, x: A, s: Seq<A>)
    requires
        sorted_by_at(key, s),
    ensures
        insert_by_at(key, x, s).len() == s.len() + 1,
        sorted_by_at(key, insert_by_at(key, x, s)),
    decreases s.len(),
{
    lemma_split_position_exists(key, x, s);
    let p = choose|p: int| #[trigger] split_at_ok(key, x, s, p);
    lemma_insert_by_at_position(key, x, s, p);
    lemma_sorted_insert(key, x, s, p);
    s.insert_ensures(p, x);
}

/// In a sorted sequence there is a split position: keys at most `key(x)`
/// first, keys above it after.
proof fn lemma_split_position_exists<A>(key: spec_fn(A) -> u64, x: A, s: Seq<A>)
    requires
        sorted_by_at(key, s),
    ensures
        exists|p: int| #[trigger] split_at_ok(key, x, s, p),
    decreases s.len(),
{
    if s.len() == 0 {
        assert(split_at_ok(key, x, s, 0));
    } else if key(s.last()) <= key(x) {
        let n = s.len() as int;
        assert(forall|j: int| 0 <= j < n ==> key(#[trigger] s[j]) <= key(s[n - 1]));
        assert(split_at_ok(key, x, s, n));
    } else {
        let t = s.drop_last();
        lemma_split_position_exists(key, x, t);
        let p = choose|p: int| #[trigger] split_at_ok(key, x, t, p);
        assert forall|j: int| 0 <= j < p implies key(#[trigger] s[j]) <= key(x) by {
            assert(t[j] == s[j]);
        }
        assert forall|j: int| p <= j < s.len() implies key(#[trigger] s[j]) > key(x) by {
            if j < s.len() - 1 {
                assert(t[j] == s[j]);
            } else {
                assert(s[j] == s.last());
            }
        }
        assert(split_at_ok(key, x, s, p));
    }
}

/// Maps raw entries to `(timestamp, mantissa)` pairs, rejecting the first
/// ill-formed scalar exactly as the original-order validation pass does.
pub fn check_entries<T: IndexEntryLike>(xs: &[T]) -> (r: Result<Vec<(u64, i128)>, Error>)
    ensures
        match r {
            Ok(v) => all_finite(ent_models(xs@)) && lift(v@) == fin_models(ent_models(xs@)),
            Err(e) => exists|k: int|
                #[trigger] is_first_invalid(ent_models(xs@), k) && is_scalar_err(
                    e,
                    ent_models(xs@)[k].0,
                    ent_models(xs@)[k].1,
                    "value"@,
                ),
        },
{
    let ghost m = ent_models(xs@);
    let mut v: Vec<(u64, i128)> = Vec::new();
    let mut i: usize = 0;
    while i < xs.len()
        invariant
            0 <= i <= xs.len(),
            m == ent_models(xs@),
            forall|j: int| 0 <= j < i ==> m[j].1 is Num,
            lift(v@) =~= fin_models(m.subrange(0, i as int)),
        decreases xs.len() - i,
    {
        let x = xs[i];
        let at = x.get_at();
        match x.get_value() {
            Scalar::Num(f) => {
                let ghost old_v = v@;
                proof {
                    assert(lift(old_v) == fin_models(m.subrange(0, i as int)));
                    assert(lift(old_v).len() == old_v.len());
                    assert(old_v.len() == i);
                }
                v.push((at, f.m));
                proof {
                    assert(m[i as int] == (xs@[i as int].at_of(), xs@[i as int].value_of()));
                    assert(m[i as int].1.m_spec() == f.m);
                    assert forall|j: int| 0 <= j < i + 1 implies lift(v@)[j] == fin_models(
                        m.subrange(0, i + 1),
                    )[j] by {
                        assert(m.subrange(0, i + 1)[j] == m[j]);
                        if j < i {
                            assert(lift(old_v)[j] == fin_models(m.subrange(0, i as int))[j]);
                            assert(m.subrange(0, i as int)[j] == m[j]);
                        } else {
                            assert(v@[j] == (at, f.m));
                        }
                    }
                    assert(lift(v@) =~= fin_models(m.subrange(0, i + 1)));
                }
            },
            Scalar::NaN => {
                proof {
                    assert(is_first_invalid(m, i as int));
                }
                return Err(Error::ContainsNaN { at, field: "value".to_owned() });
            },
            Scalar::Infinite => {
                proof {
                    assert(is_first_invalid(m, i as int));
                }
                return Err(Error::ContainsInfinite { at, field: "value".to_owned() });
            },
        }
        i += 1;
    }
    proof {
        assert(m.subrange(0, xs@.len() as int) =~= m);
    }
    Ok(v)
}

/// Sorts exec pairs ascending by timestamp; the result is exactly the
/// model-level stable sort of the input.
pub fn sort_pairs(xs: &Vec<(u64, i128)>) -> (r: Vec<(u64, i128)>)
    ensures
        lift(r@) == sort_by_at(mkey(), lift(xs@)),
        sorted_by_at(mkey(), lift(r@)),
        r@.len() == xs@.len(),
{
    let mut r: Vec<(u64, i128)> = Vec::new();
    let mut i: usize = 0;
    while i < xs.len()
        invariant
            0 <= i <= xs.len(),
            lift(r@) == sort_by_at(mkey(), lift(xs@.subrange(0, i as int))),
            sorted_by_at(mkey(), lift(r@)),
            r@.len() == i,
        decreases xs.len() - i,
    {
        let x = xs[i];
        let mut p: usize = r.len();
        while p > 0 && r[p - 1].0 > x.0
            invariant
                0 <= p <= r@.len(),
                forall|j: int| p <= j < r@.len() ==> (#[trigger] r@[j]).0 > x.0,
            decreases p,
        {
            p -= 1;
        }
        proof {
            let lr = lift(r@);
            let lx = (x.0, x.1 as int);
            assert(forall|j: int| 0 <= j < p ==> mkey()(#[trigger] lr[j]) <= mkey()(lx)) by {
                if p > 0 {
                    assert(forall|j: int|
                        0 <= j < p ==> mkey()(#[trigger] lr[j]) <= mkey()(lr[p - 1]));
                }
            }
            assert(forall|j: int| p <= j < lr.len() ==> mkey()(#[trigger] lr[j]) > mkey()(lx));
            lemma_insert_by_at_position(mkey(), lx, lr, p as int);
            lemma_sorted_insert(mkey(), lx, lr, p as int);
        }
        let ghost old_r = r@;
        r.insert(p, x);
        proof {
            let lx = (x.0, x.1 as int);
            let cur = lift(xs@.subrange(0, i + 1));
            assert(cur.drop_last() =~= lift(xs@.subrange(0, i as int)));
            assert(cur.last() == lx);
            assert(lift(r@) =~= lift(old_r).insert(p as int, lx));
            assert(lift(r@) == sort_by_at(mkey(), cur));
        }
        i += 1;
    }
    proof {
        assert(xs@.subrange(0, xs@.len() as int) =~= xs@);
        assert(lift(xs@.subrange(0, xs@.len() as int)) =~= lift(xs@));
    }
    r
}

/// A property holding of `x` and of every element of `s` holds of every
/// element of the stable insertion of `x` into `s`.
pub proof fn lemma_insert_by_at_all<A>(
    key: spec_fn(A) -> u64,
    x: A,
    s: Seq<A>,
    pred: spec_fn(A) -> bool,
)
    requires
        pred(x),
        forall|k: int| 0 <= k < s.len() ==> pred(#[trigger] s[k]),
    ensures
        insert_by_at(key, x, s).len() == s.len() + 1,
        forall|k: int|
            0 <= k < s.len() + 1 ==> pred(#[trigger] insert_by_at(key, x, s)[k]),
    decreases s.len(),
{
    if s.len() > 0 && !(key(x) < key(s[0])) {
        lemma_insert_by_at_all(key, x, s.drop_first(), pred);
        let t = insert_by_at(key, x, s);
        assert forall|k: int| 0 <= k < s.len() + 1 implies pred(t[k]) by {
            if k > 0 {
                assert(t[k] == insert_by_at(key, x, s.drop_first())[k - 1]);
            }
        }
    }
}

/// A property holding of every element of `s` holds of every element of
/// its sort, which also keeps the length.
pub proof fn lemma_sort_by_at_all<A>(key: spec_fn(A) -> u64, s: Seq<A>, pred: spec_fn(A) -> bool)
    requires
        forall|k: int| 0 <= k < s.len() ==> pred(#[trigger] s[k]),
    ensures
        sort_by_at(key, s).len() == s.len(),
        forall|k: int| 0 <= k < s.len() ==> pred(#[trigger] sort_by_at(key, s)[k]),
    decreases s.len(),
{
    if s.len() > 0 {
        let t = s.drop_last();
        assert(forall|k: int| 0 <= k < t.len() ==> pred(#[trigger] t[k]));
        lemma_sort_by_at_all(key, t, pred);
        lemma_insert_by_at_all(key, s.last(), sort_by_at(key, t), pred);
    }
}

/// The validation error `e` names the first entry of `s` whose scalar is
/// ill-formed.
pub open spec fn is_entry_validation_err<T: IndexEntryLike>(s: Seq<T>, e: Error) -> bool {
    exists|k: int|
        #[trigger] is_first_invalid(ent_models(s), k) && is_scalar_err(
            e,
            ent_models(s)[k].0,
            ent_models(s)[k].1,
            "value"@,
        )
}

/// Validates and sorts a raw entry slice: the shared head of every
/// entry-series indicator.  On success the pairs are exactly the sorted
/// model of the input.
pub fn prepare<T: IndexEntryLike>(entries: &[T]) -> (r: Result<Vec<(u64, i128)>, Error>)
    requires
        values_within(entries@, VAL_LIMIT as int),
    ensures
        match r {
            Ok(v) => {
                &&& all_finite(ent_models(entries@))
                &&& lift(v@) == sorted_model(entries@)
                &&& v@.len() == entries@.len()
                &&& bounded(lift(v@), VAL_LIMIT as int)
                &&& sorted_by_at(mkey(), lift(v@))
            },
            Err(e) => !all_finite(ent_models(entries@)) && is_entry_validation_err(entries@, e),
        },
{
    let pairs = match check_entries(entries) {
        Ok(v) => v,
        Err(e) => {
            return Err(e);
        },
    };
    let sorted = sort_pairs(&pairs);
    proof {
        let fm = fin_models(ent_models(entries@));
        let inlim = |p: (u64, int)| iabs(p.1) <= VAL_LIMIT as int;
        assert forall|k: int| 0 <= k < fm.len() implies inlim(#[trigger] fm[k]) by {
            assert(ent_models(entries@)[k].1 == entries@[k].value_of());
            assert(entries@[k].value_of() is Num);
        }
        lemma_sort_by_at_all(mkey(), fm, inlim);
        assert(bounded(lift(sorted@), VAL_LIMIT as int));
    }
    Ok(sorted)
}

/// Validates a raw entry slice without sorting it: the head of the
/// indicators that keep input order.
pub fn prepare_unsorted<T: IndexEntryLike>(entries: &[T]) -> (r: Result<Vec<(u64, i128)>, Error>)
    requires
        values_within(entries@, VAL_LIMIT as int),
    ensures
        match r {
            Ok(v) => {
                &&& all_finite(ent_models(entries@))
                &&& lift(v@) == fin_models(ent_models(entries@))
                &&& v@.len() == entries@.len()
                &&& bounded(lift(v@), VAL_LIMIT as int)
            },
            Err(e) => !all_finite(ent_models(entries@)) && is_entry_validation_err(entries@, e),
        },
{
    let pairs = match check_entries(entries) {
        Ok(v) => v,
        Err(e) => {
            return Err(e);
        },
    };
    proof {
        let fm = fin_models(ent_models(entries@));
        assert forall|k: int| 0 <= k < fm.len() implies iabs(#[trigger] fm[k].1)
            <= VAL_LIMIT as int by {
            assert(ent_models(entries@)[k].1 == entries@[k].value_of());
            assert(entries@[k].value_of() is Num);
        }
        assert(lift(pairs@).len() == pairs@.len());
    }
    Ok(pairs)
}

/// Combines two aligned series position-by-position into
/// `2 * a[k + off] - b[k]`, at `b`'s timestamps: the doubling step DEMA
/// and HMA share.
pub(crate) fn combine_double(a: &Vec<(u64, i128)>, b: &Vec<(u64, i128)>, off: usize) -> (r: Vec<
    (u64, i128),
>)
    requires
        b@.len() > 0 ==> b@.len() + off <= a@.len(),
        bounded(lift(a@), CORE_LIMIT as int),
        bounded(lift(b@), CORE_LIMIT as int),
    ensures
        lift(r@) == Seq::new(
            b@.len(),
            |k: int| (lift(b@)[k].0, 2 * lift(a@)[k + off].1 - lift(b@)[k].1),
        ),
{
    let ghost goal = Seq::new(
        b@.len(),
        |k: int| (lift(b@)[k].0, 2 * lift(a@)[k + off].1 - lift(b@)[k].1),
    );
    let n = b.len();
    let m = a.len();
    let mut r: Vec<(u64, i128)> = Vec::new();
    let mut i: usize = 0;
    while i < n
        invariant
            n == b@.len(),
            m == a@.len(),
            n > 0 ==> n + off <= m,
            bounded(lift(a@), CORE_LIMIT as int),
            bounded(lift(b@), CORE_LIMIT as int),
            goal == Seq::new(
                b@.len(),
                |k: int| (lift(b@)[k].0, 2 * lift(a@)[k + off].1 - lift(b@)[k].1),
            ),
            i <= n,
            r@.len() == i,
            forall|k: int| 0 <= k < i ==> #[trigger] lift(r@)[k] == goal[k],
        decreases n - i,
    {
        proof {
            assert(iabs(lift(a@)[i + off].1) <= CORE_LIMIT as int);
            assert(iabs(lift(b@)[i as int].1) <= CORE_LIMIT as int);
        }
        let ghost old_r = r@;
        r.push((b[i].0, 2 * a[i + off].1 - b[i].1));
        proof {
            assert(lift(r@)[i as int] == goal[i as int]);
            assert(forall|k: int| 0 <= k < i ==> #[trigger] lift(r@)[k] == lift(old_r)[k]);
        }
        i += 1;
    }
    proof {
        assert(lift(r@) =~= goal);
    }
    r
}

/// Combines two aligned series position-by-position into
/// `a[k + off] - b[k]`, at `b`'s timestamps: the joining step of the
/// dual-window oscillators.
pub(crate) fn combine_sub(a: &Vec<(u64, i128)>, b: &Vec<(u64, i128)>, off: usize) -> (r: Vec<
    (u64, i128),
>)
    requires
        b@.len() > 0 ==> b@.len() + off <= a@.len(),
        bounded(lift(a@), CORE_LIMIT as int),
        bounded(lift(b@), CORE_LIMIT as int),
    ensures
        lift(r@) == Seq::new(
            b@.len(),
            |k: int| (lift(b@)[k].0, lift(a@)[k + off].1 - lift(b@)[k].1),
        ),
{
    let ghost goal = Seq::new(
        b@.len(),
        |k: int| (lift(b@)[k].0, lift(a@)[k + off].1 - lift(b@)[k].1),
    );
    let n = b.len();
    let m = a.len();
    let mut r: Vec<(u64, i128)> = Vec::new();
    let mut i: usize = 0;
    while i < n
        invariant
            n == b@.len(),
            m == a@.len(),
            n > 0 ==> n + off <= m,
            bounded(lift(a@), CORE_LIMIT as int),
            bounded(lift(b@), CORE_LIMIT as int),
            goal == Seq::new(
                b@.len(),
                |k: int| (lift(b@)[k].0, lift(a@)[k + off].1 - lift(b@)[k].1),
            ),
            i <= n,
            r@.len() == i,
            forall|k: int| 0 <= k < i ==> #[trigger] lift(r@)[k] == goal[k],
        decreases n - i,
    {
        proof {
            assert(iabs(lift(a@)[i + off].1) <= CORE_LIMIT as int);
            assert(iabs(lift(b@)[i as int].1) <= CORE_LIMIT as int);
        }
        let ghost old_r = r@;
        r.push((b[i].0, a[i + off].1 - b[i].1));
        proof {
            assert(lift(r@)[i as int] == goal[i as int]);
            assert(forall|k: int| 0 <= k < i ==> #[trigger] lift(r@)[k] == lift(old_r)[k]);
        }
        i += 1;
    }
    proof {
        assert(lift(r@) =~= goal);
    }
    r
}

/// The sorted model of a raw entry slice: what every indicator computes
/// over once validation has passed.
pub open spec fn sorted_model<T: IndexEntryLike>(s: Seq<T>) -> Seq<(u64, int)> {
    sort_by_at(mkey(), fin_models(ent_models(s)))
}

/// Model of finished output entries: timestamps with finite values.
pub open spec fn out_models(s: Seq<IndexEntry>) -> Seq<(u64, int)> {
    Seq::new(s.len(), |i: int| (s[i].at, s[i].value.m_spec()))
}

/// `v` is the output series carrying exactly the model `m`, every value a
/// finite number.
pub open spec fn is_output(v: Seq<IndexEntry>, m: Seq<(u64, int)>) -> bool {
    &&& v.len() == m.len()
    &&& forall|i: int| 0 <= i < v.len() ==> (#[trigger] v[i]).at == m[i].0
    &&& forall|i: int| 0 <= i < v.len() ==> (#[trigger] v[i]).value is Num
    &&& forall|i: int| 0 <= i < v.len() ==> (#[trigger] v[i]).value.m_spec() == m[i].1
}

/// Wraps computed pairs back into output entries.
pub fn wrap_entries(xs: Vec<(u64, i128)>) -> (r: Vec<IndexEntry>)
    ensures
        is_output(r@, lift(xs@)),
{
    let mut r: Vec<IndexEntry> = Vec::new();
    let mut i: usize = 0;
    while i < xs.len()
        invariant
            0 <= i <= xs.len(),
            r@.len() == i,
            forall|j: int| 0 <= j < i ==> (#[trigger] r@[j]).at == xs@[j].0,
            forall|j: int| 0 <= j < i ==> (#[trigger] r@[j]).value is Num,
            forall|j: int| 0 <= j < i ==> (#[trigger] r@[j]).value.m_spec() == xs@[j].1,
        decreases xs.len() - i,
    {
        let x = xs[i];
        r.push(IndexEntry { at: x.0, value: Scalar::Num(crate::fixed::Fixed { m: x.1 }) });
        i += 1;
    }
    r
}

} // verus!
