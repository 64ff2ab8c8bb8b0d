//! Folds that test the same reviews whatever the unit of intervals.
//!
//! Intervals in seconds keep reviews that intervals in days leave out. To compare the two, the folds
//! are those of the rows with day intervals, and the rows with second intervals follow them.

use crate::counting;
use crate::features::Row;
use crate::grouping;
use crate::presets;
use crate::sorting;
use crate::split;
use vstd::prelude::*;

verus! {

/// One fold: the rows before `train_end` train, those of `test_idx` test.
#[derive(Debug, Clone)]
pub struct EqualSplit {
    pub train_end: usize,
    pub test_idx: Vec<usize>,
}

/// The reviews that fold `k` of the day rows tests.
pub open spec fn fold_reviews(days: Seq<Row>, n_splits: nat, k: int) -> Seq<i64> {
    Seq::new(
        split::fold_size(days.len(), n_splits),
        |j: int| days[split::fold_start(days.len(), n_splits, k) + j].review_th,
    )
}

/// Row `i` is of an earlier review than `review`.
pub open spec fn earlier(rows: Seq<Row>, review: i64) -> spec_fn(int) -> bool {
    |i: int| rows[i].review_th < review
}

/// Row `i` is of one of the reviews.
pub open spec fn among(rows: Seq<Row>, reviews: Seq<i64>) -> spec_fn(int) -> bool {
    |i: int| reviews.contains(rows[i].review_th)
}

/// `e` is fold `k`: it tests the rows of the reviews that fold `k` of the day rows tests, and is trained
/// on the rows of earlier reviews than the first of those.
pub open spec fn is_equal_split(
    rows: Seq<Row>,
    days: Seq<Row>,
    n_splits: nat,
    k: int,
    e: EqualSplit,
) -> bool {
    let reviews = fold_reviews(days, n_splits, k);
    &&& e.train_end == counting::count(rows.len(), earlier(rows, reviews[0]))
    &&& e.test_idx@ == grouping::rows_where(rows.len(), among(rows, reviews))
}

fn count_earlier(rows: &[Row], review: i64) -> (c: usize)
    ensures
        c == counting::count(rows@.len(), earlier(rows@, review)),
{
    let ghost p = earlier(rows@, review);
    let mut c: usize = 0;
    let mut i: usize = 0;
    while i < rows.len()
        invariant
            i <= rows@.len(),
            p == earlier(rows@, review),
            c == counting::count(i as nat, p),
            c <= i,
        decreases rows.len() - i,
    {
        assert(p(i as int) == (rows@[i as int].review_th < review));
        if rows[i].review_th < review {
            c = c + 1;
        }
        i = i + 1;
    }
    c
}

fn rows_among(rows: &[Row], reviews: &Vec<i64>) -> (idx: Vec<usize>)
    ensures
        idx@ == grouping::rows_where(rows@.len(), among(rows@, reviews@)),
{
    let sorted = sorting::sorted_distinct(reviews);
    let ghost p = among(rows@, reviews@);
    let mut idx: Vec<usize> = Vec::new();
    let mut i: usize = 0;
    while i < rows.len()
        invariant
            i <= rows@.len(),
            p == among(rows@, reviews@),
            sorting::is_sorted_distinct(reviews@, sorted@),
            idx@ == grouping::rows_where(i as nat, p),
        decreases rows.len() - i,
    {
        let review: i64 = rows[i].review_th;
        assert(sorted@.contains(review) <==> reviews@.contains(review));
        if presets::holds(&sorted, review) {
            idx.push(i);
        }
        i = i + 1;
    }
    idx
}

/// The folds of rows that test the same reviews as those of the day rows do. None where the day rows
/// are too few for every fold to test one.
pub fn build_equalize_splits(rows: &[Row], days: &[Row], n_splits: usize) -> (r: Option<
    Vec<EqualSplit>,
>)
    requires
        n_splits < usize::MAX,
    ensures
        match r {
            Some(folds) => {
                &&& days@.len() > n_splits
                &&& folds@.len() == n_splits
                &&& forall|k: int|
                    0 <= k < n_splits ==> is_equal_split(
                        rows@,
                        days@,
                        n_splits as nat,
                        k,
                        #[trigger] folds@[k],
                    )
            },
            None => days@.len() <= n_splits,
        },
{
    let n: usize = days.len();
    if n <= n_splits {
        return None;
    }
    let splits = split::time_series_split(n, n_splits);
    let size: usize = n / (n_splits + 1);
    assert(size >= 1) by (nonlinear_arith)
        requires
            n > n_splits,
            size == n / (n_splits + 1) as usize,
    ;
    let mut folds: Vec<EqualSplit> = Vec::with_capacity(n_splits);
    let mut k: usize = 0;
    while k < n_splits
        invariant
            k <= n_splits,
            n == days@.len(),
            n > n_splits,
            size >= 1,
            size == split::fold_size(n as nat, n_splits as nat),
            splits.len() == n_splits,
            forall|j: int|
                0 <= j < n_splits ==> {
                    &&& (#[trigger] splits[j]).test_start == split::fold_start(
                        n as nat,
                        n_splits as nat,
                        j,
                    )
                    &&& splits[j].test_end == splits[j].test_start + split::fold_size(
                        n as nat,
                        n_splits as nat,
                    )
                },
            folds@.len() == k,
            forall|j: int|
                0 <= j < k ==> is_equal_split(
                    rows@,
                    days@,
                    n_splits as nat,
                    j,
                    #[trigger] folds@[j],
                ),
        decreases n_splits - k,
    {
        let start: usize = splits[k].test_start;
        let end: usize = splits[k].test_end;
        let ghost all = fold_reviews(days@, n_splits as nat, k as int);
        proof {
            split::lemma_folds_fit(n as nat, n_splits as nat, k as int);
            split::lemma_folds_fit(n as nat, n_splits as nat, k + 1);
        }
        let mut reviews: Vec<i64> = Vec::with_capacity(size);
        let mut j: usize = start;
        while j < end
            invariant
                start <= j <= end <= n,
                n == days@.len(),
                end == start + size,
                all.len() == size,
                forall|i: int| 0 <= i < size ==> #[trigger] all[i] == days@[start + i].review_th,
                reviews@ == all.take(j - start),
            decreases end - j,
        {
            reviews.push(days[j].review_th);
            assert(all[j - start] == days@[j as int].review_th);
            assert(reviews@ =~= all.take(j + 1 - start));
            j = j + 1;
        }
        assert(reviews@ =~= all);
        let fold = EqualSplit {
            train_end: count_earlier(rows, reviews[0]),
            test_idx: rows_among(rows, &reviews),
        };
        assert(is_equal_split(rows@, days@, n_splits as nat, k as int, fold));
        folds.push(fold);
        k = k + 1;
    }
    Some(folds)
}

/// The indices from `a` up to `b`.
pub open spec fn index_range(a: int, b: int) -> Seq<usize> {
    Seq::new(
        if a < b {
            (b - a) as nat
        } else {
            0
        },
        |i: int| (a + i) as usize,
    )
}

/// The indices from `a` up to `b`.
fn indices(a: usize, b: usize) -> (idx: Vec<usize>)
    requires
        a <= b,
    ensures
        idx@ == index_range(a as int, b as int),
{
    let mut idx: Vec<usize> = Vec::with_capacity(b - a);
    let mut i: usize = a;
    while i < b
        invariant
            a <= i <= b,
            idx@ == index_range(a as int, i as int),
        decreases b - i,
    {
        idx.push(i);
        assert(idx@ =~= index_range(a as int, i + 1));
        i = i + 1;
    }
    idx
}

/// The number of folds: that of the equalized ones where there are any, a single one where a model is
/// tested on what it was trained on.
pub open spec fn fold_count(
    equal: Option<&Vec<EqualSplit>>,
    n_splits: nat,
    train_equals_test: bool,
) -> nat {
    match equal {
        Some(e) => e@.len(),
        None => if train_equals_test {
            1
        } else {
            n_splits
        },
    }
}

/// The training rows and the test rows of fold `k`, of `n` rows: those of the equalized fold where
/// there is one; of the single fold that trains on all rows and tests all from the first tested one
/// on; or of the expanding window.
pub open spec fn fold_of(
    n: nat,
    equal: Option<&Vec<EqualSplit>>,
    n_splits: nat,
    train_equals_test: bool,
    k: int,
) -> (Seq<usize>, Seq<usize>) {
    match equal {
        Some(e) => (index_range(0, e@[k].train_end as int), e@[k].test_idx@),
        None => if train_equals_test {
            (index_range(0, n as int), index_range(split::eval_start_of(n, n_splits), n as int))
        } else {
            let start = split::fold_start(n, n_splits, k);
            (index_range(0, start), index_range(start, start + split::fold_size(n, n_splits)))
        },
    }
}

/// The rows that the equalized folds speak of are among the first `n`.
pub open spec fn folds_within(equal: Option<&Vec<EqualSplit>>, n: nat) -> bool {
    equal matches Some(e) ==> forall|k: int|
        0 <= k < e@.len() ==> (#[trigger] e@[k]).train_end <= n && forall|j: int|
            0 <= j < e@[k].test_idx@.len() ==> #[trigger] e@[k].test_idx@[j] < n
}

/// Training and test rows of every fold, as indices, without same-day reviews where those are left
/// out.
pub fn fold_rows(
    rows: &[Row],
    equal: Option<&Vec<EqualSplit>>,
    n_splits: usize,
    train_equals_test: bool,
    no_train_same_day: bool,
    no_test_same_day: bool,
) -> (folds: Vec<(Vec<usize>, Vec<usize>)>)
    requires
        folds_within(equal, rows@.len()),
        n_splits < usize::MAX,
        train_equals_test && equal is None ==> n_splits > 0,
    ensures
        folds@.len() == fold_count(equal, n_splits as nat, train_equals_test),
        forall|k: int|
            0 <= k < folds@.len() ==> {
                let fold = fold_of(rows@.len(), equal, n_splits as nat, train_equals_test, k);
                &&& (#[trigger] folds@[k]).0@ == fold.0.filter(
                    split::stays(rows@, no_train_same_day),
                )
                &&& folds@[k].1@ == fold.1.filter(split::stays(rows@, no_test_same_day))
            },
{
    let n: usize = rows.len();
    let plain: Vec<split::Split> = match equal {
        Some(e) => Vec::new(),
        None => split::run_folds(n, n_splits, train_equals_test),
    };
    let count: usize = match equal {
        Some(e) => e.len(),
        None => plain.len(),
    };
    let mut folds: Vec<(Vec<usize>, Vec<usize>)> = Vec::with_capacity(count);
    let mut k: usize = 0;
    while k < count
        invariant
            k <= count,
            n == rows@.len(),
            folds_within(equal, n as nat),
            count == fold_count(equal, n_splits as nat, train_equals_test),
            equal matches Some(e) ==> count == e@.len(),
            equal is None ==> {
                &&& plain@.len() == count
                &&& !train_equals_test ==> forall|j: int|
                    0 <= j < count ==> {
                        &&& (#[trigger] plain@[j]).test_start == split::fold_start(
                            n as nat,
                            n_splits as nat,
                            j,
                        )
                        &&& plain@[j].test_end == plain@[j].test_start + split::fold_size(
                            n as nat,
                            n_splits as nat,
                        )
                        &&& plain@[j].train_end == plain@[j].test_start
                    }
                &&& train_equals_test ==> plain@[0] == (split::Split {
                    train_end: n,
                    test_start: split::eval_start_of(n as nat, n_splits as nat) as usize,
                    test_end: n,
                })
            },
            folds@.len() == k,
            forall|j: int|
                0 <= j < k ==> {
                    let fold = fold_of(n as nat, equal, n_splits as nat, train_equals_test, j);
                    &&& (#[trigger] folds@[j]).0@ == fold.0.filter(
                        split::stays(rows@, no_train_same_day),
                    )
                    &&& folds@[j].1@ == fold.1.filter(split::stays(rows@, no_test_same_day))
                },
        decreases count - k,
    {
        let ghost want = fold_of(n as nat, equal, n_splits as nat, train_equals_test, k as int);
        let fold: (Vec<usize>, Vec<usize>) = match equal {
            Some(e) => {
                assert(e@[k as int].train_end <= n);
                let train = indices(0, e[k].train_end);
                assert(train@ == want.0);
                let test = split::keep_rows(rows, e[k].test_idx.as_slice(), no_test_same_day);
                (split::keep_rows(rows, train.as_slice(), no_train_same_day), test)
            },
            None => {
                let s: split::Split = plain[k];
                proof {
                    split::lemma_folds_fit(n as nat, n_splits as nat, 0);
                    if !train_equals_test {
                        split::lemma_folds_fit(n as nat, n_splits as nat, k as int);
                        split::lemma_folds_fit(n as nat, n_splits as nat, k + 1);
                    }
                }
                let train = indices(0, s.train_end);
                let test = indices(s.test_start, s.test_end);
                assert(train@ == want.0);
                assert(test@ == want.1);
                (
                    split::keep_rows(rows, train.as_slice(), no_train_same_day),
                    split::keep_rows(rows, test.as_slice(), no_test_same_day),
                )
            },
        };
        folds.push(fold);
        k = k + 1;
    }
    folds
}

/// The equalized folds of rows speak of those rows only.
pub proof fn lemma_equal_folds_within(
    rows: Seq<Row>,
    days: Seq<Row>,
    n_splits: nat,
    folds: Vec<EqualSplit>,
)
    requires
        rows.len() <= usize::MAX,
        forall|k: int|
            0 <= k < folds@.len() ==> is_equal_split(rows, days, n_splits, k, #[trigger] folds@[k]),
    ensures
        folds_within(Some(&folds), rows.len()),
{
    assert forall|k: int| 0 <= k < folds@.len() implies (#[trigger] folds@[k]).train_end
        <= rows.len() && forall|j: int|
        0 <= j < folds@[k].test_idx@.len() ==> #[trigger] folds@[k].test_idx@[j] < rows.len() by {
        let reviews = fold_reviews(days, n_splits, k);
        assert(is_equal_split(rows, days, n_splits, k, folds@[k]));
        counting::lemma_count_bound(rows.len(), earlier(rows, reviews[0]));
        grouping::lemma_rows_where(rows.len(), among(rows, reviews));
    }
}

/// A fold tests exactly the rows of the reviews that the fold of the day rows tests.
pub proof fn lemma_same_reviews_tested(
    rows: Seq<Row>,
    days: Seq<Row>,
    n_splits: nat,
    k: int,
    e: EqualSplit,
    i: usize,
)
    requires
        rows.len() <= usize::MAX,
        is_equal_split(rows, days, n_splits, k, e),
    ensures
        e.test_idx@.contains(i) <==> i < rows.len() && fold_reviews(days, n_splits, k).contains(
            rows[i as int].review_th,
        ),
{
    let p = among(rows, fold_reviews(days, n_splits, k));
    grouping::lemma_rows_where(rows.len(), p);
    assert(e.test_idx@.contains(i) <==> i < rows.len() && p(i as int));
}

/// Where rows come in the order of their reviews, as those of a dataset do, a fold is trained on rows
/// of earlier reviews only: none of them is tested, and none lies behind a tested one.
pub proof fn lemma_trained_on_the_past(
    rows: Seq<Row>,
    days: Seq<Row>,
    n_splits: nat,
    k: int,
    e: EqualSplit,
    i: int,
    t: int,
)
    requires
        rows.len() <= usize::MAX,
        n_splits < days.len(),
        0 <= k < n_splits,
        forall|a: int, b: int|
            0 <= a < b < rows.len() ==> (#[trigger] rows[a]).review_th < (
            #[trigger] rows[b]).review_th,
        forall|a: int, b: int|
            0 <= a < b < days.len() ==> (#[trigger] days[a]).review_th < (
            #[trigger] days[b]).review_th,
        is_equal_split(rows, days, n_splits, k, e),
        0 <= i < e.train_end,
        0 <= t < e.test_idx@.len(),
    ensures
        e.train_end <= rows.len(),
        rows[i].review_th < rows[e.test_idx@[t] as int].review_th,
        i < e.test_idx@[t],
{
    let reviews = fold_reviews(days, n_splits, k);
    let p = among(rows, reviews);
    let q = earlier(rows, reviews[0]);
    grouping::lemma_rows_where(rows.len(), p);
    let row = e.test_idx@[t] as int;
    assert(p(row));
    let start = split::fold_start(days.len(), n_splits, k);
    split::lemma_folds_fit(days.len(), n_splits, k);
    split::lemma_folds_fit(days.len(), n_splits, k + 1);
    let w = choose|w: int| 0 <= w < reviews.len() && reviews[w] == rows[row].review_th;
    assert(days[start].review_th <= days[start + w].review_th);
    assert(reviews[0] <= rows[row].review_th);
    counting::lemma_count_bound(rows.len(), q);
    lemma_prefix_counted(rows, reviews[0], rows.len(), i);
}

/// Rows before the number of earlier ones are earlier.
proof fn lemma_prefix_counted(rows: Seq<Row>, review: i64, n: nat, i: int)
    requires
        n <= rows.len(),
        forall|a: int, b: int|
            0 <= a < b < rows.len() ==> (#[trigger] rows[a]).review_th < (
            #[trigger] rows[b]).review_th,
        0 <= i < counting::count(n, earlier(rows, review)),
    ensures
        rows[i].review_th < review,
    decreases n,
{
    let q = earlier(rows, review);
    counting::lemma_count_bound((n - 1) as nat, q);
    if q(n - 1) {
        assert(i <= n - 1);
        if i < n - 1 {
            assert(rows[i].review_th < rows[n - 1].review_th);
        }
    } else {
        lemma_prefix_counted(rows, review, (n - 1) as nat, i);
    }
}

/// An equalized fold tests the rows of the reviews that the fold of the day rows tests, and is trained
/// on as many rows as are of earlier reviews than the first of those.
pub proof fn lemma_equal_split_shape(
    rows: Seq<Row>,
    days: Seq<Row>,
    n_splits: nat,
    k: int,
    e: EqualSplit,
)
    requires
        rows.len() <= usize::MAX,
        n_splits < days.len(),
        0 <= k < n_splits,
        is_equal_split(rows, days, n_splits, k, e),
    ensures
        ({
            let start = split::fold_start(days.len(), n_splits, k);
            let end = split::fold_start(days.len(), n_splits, k + 1);
            &&& 0 <= start < end <= days.len()
            &&& forall|i: usize| #[trigger]
                e.test_idx@.contains(i) <==> i < rows.len() && exists|d: int|
                    start <= d < end && (#[trigger] days[d]).review_th == rows[i as int].review_th
            &&& forall|a: int, b: int|
                0 <= a < b < e.test_idx@.len() ==> #[trigger] e.test_idx@[a]
                    < #[trigger] e.test_idx@[b]
            &&& e.train_end == counting::count(
                rows.len(),
                |i: int| rows[i].review_th < days[start].review_th,
            )
        }),
{
    let start = split::fold_start(days.len(), n_splits, k);
    let size = split::fold_size(days.len(), n_splits);
    split::lemma_folds_fit(days.len(), n_splits, k);
    split::lemma_folds_fit(days.len(), n_splits, k + 1);
    assert(size >= 1) by (nonlinear_arith)
        requires
            days.len() > n_splits,
            size == days.len() / (n_splits + 1),
    ;
    let reviews = fold_reviews(days, n_splits, k);
    let p = among(rows, reviews);
    grouping::lemma_rows_where(rows.len(), p);
    assert forall|i: usize| #[trigger] e.test_idx@.contains(i) <==> i < rows.len() && exists|d: int|
        start <= d < start + size && (#[trigger] days[d]).review_th == rows[i as int].review_th by {
        assert(e.test_idx@.contains(i) <==> i < rows.len() && p(i as int));
        if i < rows.len() && p(i as int) {
            let w = choose|w: int|
                0 <= w < reviews.len() && reviews[w] == rows[i as int].review_th;
            assert(days[start + w].review_th == rows[i as int].review_th);
        }
        if exists|d: int|
            start <= d < start + size && (#[trigger] days[d]).review_th
                == rows[i as int].review_th {
            let d = choose|d: int|
                start <= d < start + size && (#[trigger] days[d]).review_th
                    == rows[i as int].review_th;
            assert(reviews[d - start] == rows[i as int].review_th);
        }
    }
    counting::lemma_count_agree(
        rows.len(),
        earlier(rows, reviews[0]),
        |i: int| rows[i].review_th < days[start].review_th,
    );
}

/// What folds are made of. Equalized ones train on all rows before their end and test their own rows;
/// a single fold trains on all rows and tests all that any fold of the expanding window tests; and a
/// fold of the expanding window trains on all rows before those that it tests.
pub proof fn lemma_fold_of(
    n: nat,
    equal: Option<&Vec<EqualSplit>>,
    n_splits: nat,
    train_equals_test: bool,
    k: int,
    i: usize,
)
    requires
        0 <= k < fold_count(equal, n_splits, train_equals_test),
        n <= usize::MAX,
        folds_within(equal, n),
    ensures
        ({
            let (train, test) = fold_of(n, equal, n_splits, train_equals_test, k);
            &&& forall|a: int| 0 <= a < train.len() ==> #[trigger] train[a] == a
            &&& forall|a: int, b: int|
                equal is None && 0 <= a < b < test.len() ==> #[trigger] test[a]
                    < #[trigger] test[b]
            &&& equal matches Some(e) ==> {
                &&& train.len() == e@[k].train_end
                &&& test == e@[k].test_idx@
            }
            &&& equal is None && train_equals_test ==> {
                &&& fold_count(equal, n_splits, train_equals_test) == 1
                &&& train.len() == n
                &&& test.contains(i) <==> split::fold_start(n, n_splits, 0) <= i < n
            }
            &&& equal is None && !train_equals_test ==> {
                &&& fold_count(equal, n_splits, train_equals_test) == n_splits
                &&& train.len() == split::fold_start(n, n_splits, k)
                &&& test.contains(i) <==> split::fold_start(n, n_splits, k) <= i
                    < split::fold_start(n, n_splits, k + 1)
            }
        }),
{
    let (train, test) = fold_of(n, equal, n_splits, train_equals_test, k);
    split::lemma_folds_fit(n, n_splits, 0);
    if equal is None {
        let (lo, hi) = if train_equals_test {
            (split::eval_start_of(n, n_splits), n as int)
        } else {
            split::lemma_folds_fit(n, n_splits, k);
            split::lemma_folds_fit(n, n_splits, k + 1);
            (split::fold_start(n, n_splits, k), split::fold_start(n, n_splits, k + 1))
        };
        assert(test == index_range(lo, hi));
        if lo <= i < hi {
            assert(test[i - lo] == i);
        }
        if test.contains(i) {
            let a = choose|a: int| 0 <= a < test.len() && test[a] == i;
        }
    }
}

} // verus!
