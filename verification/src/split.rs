//! Expanding-window train/test folds over a review history.

use crate::features::Row;
use vstd::prelude::*;

verus! {

/// One train/test fold as index ranges into the (ordered) dataset: the rows
/// before `train_end` train, the rows of `test_start..test_end` test.
#[derive(Debug, Clone, Copy, PartialEq, Eq, Structural)]
pub struct Split {
    pub train_end: usize,
    pub test_start: usize,
    pub test_end: usize,
}

/// The number of rows that every fold tests.
pub open spec fn fold_size(n: nat, n_splits: nat) -> nat {
    n / (n_splits + 1)
}

/// The first row that fold `k` tests: the last fold ends at `n`, and every fold
/// starts where its predecessor ends.
pub open spec fn fold_start(n: nat, n_splits: nat, k: int) -> int {
    n - (n_splits - k) * fold_size(n, n_splits)
}

/// The test ranges fit in front of row `n`, and the first of them leaves rows to train on.
pub proof fn lemma_folds_fit(n: nat, n_splits: nat, k: int)
    requires
        0 <= k <= n_splits,
    ensures
        fold_size(n, n_splits) <= fold_start(n, n_splits, k),
        fold_start(n, n_splits, k) <= n,
        fold_start(n, n_splits, n_splits as int) == n,
        k < n_splits ==> fold_start(n, n_splits, k + 1) == fold_start(n, n_splits, k) + fold_size(
            n,
            n_splits,
        ),
{
    let t = fold_size(n, n_splits);
    assert((n_splits + 1) * t <= n) by (nonlinear_arith)
        requires
            t == n / (n_splits + 1),
    ;
    assert(n - (n_splits - k) * t >= t && (n_splits - k) * t >= 0) by (nonlinear_arith)
        requires
            (n_splits + 1) * t <= n,
            0 <= k <= n_splits,
            t >= 0,
    ;
    assert((n_splits - (k + 1)) * t == (n_splits - k) * t - t) by (nonlinear_arith);
    assert((n_splits - n_splits) * t == 0) by (nonlinear_arith);
}

/// Expanding-window folds: `n_splits` test ranges of `n / (n_splits + 1)` rows each,
/// packed against the end of the data, every one trained on all rows before it.
pub fn time_series_split(n: usize, n_splits: usize) -> (folds: Vec<Split>)
    requires
        n_splits < usize::MAX,
    ensures
        folds.len() == n_splits,
        forall|k: int|
            0 <= k < n_splits ==> {
                &&& (#[trigger] folds[k]).test_start == fold_start(n as nat, n_splits as nat, k)
                &&& folds[k].test_end == folds[k].test_start + fold_size(n as nat, n_splits as nat)
                &&& folds[k].train_end == folds[k].test_start
            },
{
    let test_size: usize = n / (n_splits + 1);
    let mut out: Vec<Split> = Vec::new();
    proof {
        lemma_folds_fit(n as nat, n_splits as nat, 0);
    }
    let mut test_start: usize = n - n_splits * test_size;
    let mut k: usize = 0;
    while k < n_splits
        invariant
            k <= n_splits,
            out.len() == k,
            test_size == fold_size(n as nat, n_splits as nat),
            test_start == fold_start(n as nat, n_splits as nat, k as int),
            forall|j: int|
                0 <= j < k ==> {
                    &&& (#[trigger] out[j]).test_start == fold_start(n as nat, n_splits as nat, j)
                    &&& out[j].test_end == out[j].test_start + fold_size(n as nat, n_splits as nat)
                    &&& out[j].train_end == out[j].test_start
                },
        decreases n_splits - k,
    {
        proof {
            lemma_folds_fit(n as nat, n_splits as nat, k as int);
            lemma_folds_fit(n as nat, n_splits as nat, k + 1);
        }
        out.push(
            Split { train_end: test_start, test_start, test_end: test_start + test_size },
        );
        test_start = test_start + test_size;
        k = k + 1;
    }
    out
}

/// The first row that is tested.
pub open spec fn eval_start_of(n: nat, n_splits: nat) -> int {
    n - n_splits * fold_size(n, n_splits)
}

/// The first row that is tested.
pub fn eval_start(n: usize, n_splits: usize) -> (r: usize)
    requires
        n_splits < usize::MAX,
    ensures
        r == eval_start_of(n as nat, n_splits as nat),
        r == fold_start(n as nat, n_splits as nat, 0),
{
    proof {
        lemma_folds_fit(n as nat, n_splits as nat, 0);
    }
    n - n_splits * (n / (n_splits + 1))
}

/// The tested rows are exactly those from the first tested one on, each in one fold, and every fold is
/// trained on all the rows before it.
pub proof fn lemma_folds_cover(n: nat, n_splits: nat, folds: Seq<Split>, row: int)
    requires
        folds.len() == n_splits,
        forall|k: int|
            0 <= k < n_splits ==> {
                &&& (#[trigger] folds[k]).test_start == fold_start(n, n_splits, k)
                &&& folds[k].test_end == folds[k].test_start + fold_size(n, n_splits)
                &&& folds[k].train_end == folds[k].test_start
            },
    ensures
        (exists|k: int|
            0 <= k < n_splits && (#[trigger] folds[k]).test_start <= row < folds[k].test_end)
            <==> eval_start_of(n, n_splits) <= row < n,
        forall|j: int, k: int|
            0 <= j < k < n_splits ==> (#[trigger] folds[j]).test_end <= (
            #[trigger] folds[k]).test_start,
{
    let t = fold_size(n, n_splits);
    lemma_folds_fit(n, n_splits, 0);
    assert forall|j: int, k: int| 0 <= j < k < n_splits implies (#[trigger] folds[j]).test_end <= (
    #[trigger] folds[k]).test_start by {
        assert((n_splits - j) * t - t >= (n_splits - k) * t) by (nonlinear_arith)
            requires
                j < k,
                t >= 0,
        ;
    }
    if eval_start_of(n, n_splits) <= row < n {
        let k = (row - eval_start_of(n, n_splits)) / t as int;
        let d = row - eval_start_of(n, n_splits);
        if t == 0 {
            assert(n_splits * t == 0) by (nonlinear_arith)
                requires
                    t == 0,
            ;
        }
        assert(0 <= k < n_splits && k * t <= d < k * t + t) by (nonlinear_arith)
            requires
                t > 0,
                k == d / t as int,
                0 <= d < n_splits * t,
        ;
        assert(n_splits * t - k * t == (n_splits - k) * t) by (nonlinear_arith);
        assert(folds[k].test_start <= row < folds[k].test_end);
    }
    if exists|k: int|
        0 <= k < n_splits && (#[trigger] folds[k]).test_start <= row < folds[k].test_end {
        let k = choose|k: int|
            0 <= k < n_splits && (#[trigger] folds[k]).test_start <= row < folds[k].test_end;
        lemma_folds_fit(n, n_splits, k);
        lemma_folds_fit(n, n_splits, k + 1);
        assert((n_splits - k) * t <= n_splits * t) by (nonlinear_arith)
            requires
                0 <= k,
                t >= 0,
        ;
    }
}

/// The folds of a run: those of the expanding window; or, where a model is tested on what it was
/// trained on, a single one that trains on all rows and tests all from the first tested one on.
pub fn run_folds(n: usize, n_splits: usize, train_equals_test: bool) -> (folds: Vec<Split>)
    requires
        n_splits < usize::MAX,
        train_equals_test ==> n_splits > 0,
    ensures
        !train_equals_test ==> {
            &&& folds.len() == n_splits
            &&& forall|k: int|
                0 <= k < n_splits ==> {
                    &&& (#[trigger] folds[k]).test_start == fold_start(n as nat, n_splits as nat, k)
                    &&& folds[k].test_end == folds[k].test_start + fold_size(
                        n as nat,
                        n_splits as nat,
                    )
                    &&& folds[k].train_end == folds[k].test_start
                }
        },
        train_equals_test ==> folds@ == seq![
            Split {
                train_end: n,
                test_start: eval_start_of(n as nat, n_splits as nat) as usize,
                test_end: n,
            },
        ],
{
    if train_equals_test {
        let mut folds: Vec<Split> = Vec::new();
        folds.push(Split { train_end: n, test_start: eval_start(n, n_splits), test_end: n });
        folds
    } else {
        time_series_split(n, n_splits)
    }
}

/// Where the model is retrained next, having been trained on the first `t` rows: once the training set
/// has grown to `grown` rows, by one row at least, and at the end at the latest.
pub open spec fn retrain_point(t: int, grown: int, n: int) -> int {
    let g = if grown > t + 1 {
        grown
    } else {
        t + 1
    };
    if g < n {
        g
    } else {
        n
    }
}

/// Where the model is retrained next.
pub fn next_retrain(t: usize, grown: usize, n: usize) -> (r: usize)
    requires
        t < n,
    ensures
        r == retrain_point(t as int, grown as int, n as int),
        t < r <= n,
{
    let g: usize = if grown > t + 1 {
        grown
    } else {
        t + 1
    };
    if g < n {
        g
    } else {
        n
    }
}

/// `points` are the rows at which a model is retrained from the first tested row on, and the end; at
/// point `k` the training set is to grow to `grown[k]` rows.
pub open spec fn is_schedule(n: nat, n_splits: nat, grown: Seq<int>, points: Seq<int>) -> bool {
    &&& points.len() == grown.len() + 1
    &&& points[0] == eval_start_of(n, n_splits)
    &&& points[points.len() - 1] == n
    &&& forall|k: int|
        0 <= k < grown.len() ==> #[trigger] points[k] < n && points[k + 1] == retrain_point(
            points[k],
            grown[k],
            n as int,
        )
}

/// Retraining more often tests the same rows: the chunks between the retraining points hold exactly
/// the rows that the folds test, each once. And a row that is not the first of its chunk is tested
/// before the training set has grown as asked.
pub proof fn lemma_schedule_covers(
    n: nat,
    n_splits: nat,
    grown: Seq<int>,
    points: Seq<int>,
    row: int,
)
    requires
        is_schedule(n, n_splits, grown, points),
    ensures
        eval_start_of(n, n_splits) <= row < n <==> (exists|k: int|
            0 <= k < grown.len() && #[trigger] points[k] <= row < points[k + 1]),
        forall|j: int, k: int|
            0 <= j <= k < points.len() ==> #[trigger] points[j] <= #[trigger] points[k],
        forall|k: int|
            0 <= k < grown.len() && #[trigger] points[k] < row < points[k + 1] ==> row < grown[k],
{
    lemma_points_ascend(n, n_splits, grown, points, points.len() as int - 1);
    if eval_start_of(n, n_splits) <= row < n {
        let k = lemma_find_chunk(n, n_splits, grown, points, row, points.len() as int - 1);
        assert(points[k] <= row < points[k + 1]);
    }
    if exists|k: int| 0 <= k < grown.len() && #[trigger] points[k] <= row < points[k + 1] {
        let k = choose|k: int|
            0 <= k < grown.len() && #[trigger] points[k] <= row < points[k + 1];
        assert(points[0] <= points[k]);
        assert(points[k + 1] <= points[points.len() - 1]);
    }
}

proof fn lemma_points_ascend(n: nat, n_splits: nat, grown: Seq<int>, points: Seq<int>, m: int)
    requires
        is_schedule(n, n_splits, grown, points),
        0 <= m < points.len(),
    ensures
        forall|j: int, k: int| 0 <= j <= k <= m ==> #[trigger] points[j] <= #[trigger] points[k],
    decreases m,
{
    if m > 0 {
        lemma_points_ascend(n, n_splits, grown, points, m - 1);
        assert(points[m - 1] < n && points[m] == retrain_point(
            points[m - 1],
            grown[m - 1],
            n as int,
        ));
    }
}

proof fn lemma_find_chunk(
    n: nat,
    n_splits: nat,
    grown: Seq<int>,
    points: Seq<int>,
    row: int,
    m: int,
) -> (k: int)
    requires
        is_schedule(n, n_splits, grown, points),
        0 <= m < points.len(),
        points[0] <= row < points[m],
    ensures
        0 <= k < m,
        points[k] <= row < points[k + 1],
    decreases m,
{
    if points[m - 1] <= row {
        m - 1
    } else {
        lemma_find_chunk(n, n_splits, grown, points, row, m - 1)
    }
}

/// Where a training set is cut to hold its last fifth out for validation, if that leaves a row on
/// either side.
pub fn inner_cut(len: usize) -> (r: Option<usize>)
    ensures
        match r {
            Some(cut) => cut == len * 4 / 5 && 1 <= cut < len,
            None => len * 4 / 5 < 1 || len * 4 / 5 >= len,
        },
{
    let cut: usize = (len / 5) * 4 + (len % 5) * 4 / 5;
    assert(cut == len * 4 / 5);
    if cut >= 1 && len - cut >= 1 {
        Some(cut)
    } else {
        None
    }
}

/// A training set is cut in two wherever it has two rows or more.
pub proof fn lemma_inner_cut(len: nat)
    ensures
        1 <= len * 4 / 5 < len <==> len >= 2,
{
}

/// Row `k` stays in a fold: same-day reviews are not left out, or it came on another day than the
/// review before.
pub open spec fn stays(rows: Seq<Row>, no_same_day: bool) -> spec_fn(usize) -> bool {
    |k: usize| !(no_same_day && rows[k as int].elapsed_days == 0)
}

/// The rows of a fold that stay in it, in order.
pub fn keep_rows(rows: &[Row], idx: &[usize], no_same_day: bool) -> (kept: Vec<usize>)
    requires
        forall|j: int| 0 <= j < idx@.len() ==> #[trigger] idx@[j] < rows@.len(),
    ensures
        kept@ == idx@.filter(stays(rows@, no_same_day)),
{
    let ghost p = stays(rows@, no_same_day);
    let mut kept: Vec<usize> = Vec::with_capacity(idx.len());
    let mut j: usize = 0;
    proof {
        reveal(Seq::filter);
    }
    while j < idx.len()
        invariant
            j <= idx@.len(),
            p == stays(rows@, no_same_day),
            forall|i: int| 0 <= i < idx@.len() ==> #[trigger] idx@[i] < rows@.len(),
            kept@ == idx@.take(j as int).filter(p),
        decreases idx.len() - j,
    {
        let k: usize = idx[j];
        proof {
            reveal(Seq::filter);
            assert(idx@.take(j + 1).drop_last() =~= idx@.take(j as int));
            assert(idx@.take(j + 1).last() == k);
        }
        if !(no_same_day && rows[k].elapsed_days == 0) {
            kept.push(k);
        }
        j = j + 1;
    }
    assert(idx@.take(j as int) =~= idx@);
    kept
}

/// What stays in a fold is a row of it, and no same-day review where those are left out; every other
/// row of it stays, and all of them where nothing is left out.
pub proof fn lemma_same_day_left_out(rows: Seq<Row>, idx: Seq<usize>, no_same_day: bool)
    ensures
        forall|k: usize|
            #![trigger idx.filter(stays(rows, no_same_day)).contains(k)]
            idx.filter(stays(rows, no_same_day)).contains(k) <==> idx.contains(k) && !(no_same_day
                && rows[k as int].elapsed_days == 0),
        !no_same_day ==> idx.filter(stays(rows, no_same_day)) == idx,
    decreases idx.len(),
{
    reveal(Seq::filter);
    let p = stays(rows, no_same_day);
    if idx.len() > 0 {
        let before = idx.drop_last();
        lemma_same_day_left_out(rows, before, no_same_day);
        assert(idx =~= before.push(idx.last()));
        assert forall|k: usize| #[trigger] idx.filter(p).contains(k) <==> idx.contains(k) && p(k) by {
            let all = before.filter(p);
            if p(idx.last()) {
                assert(idx.filter(p) == all.push(idx.last()));
                if all.contains(k) {
                    let i = choose|i: int| 0 <= i < all.len() && all[i] == k;
                    assert(all.push(idx.last())[i] == k);
                }
                if k == idx.last() {
                    assert(all.push(idx.last())[all.len() as int] == k);
                }
                if all.push(idx.last()).contains(k) {
                    let i = choose|i: int|
                        0 <= i < all.len() + 1 && all.push(idx.last())[i] == k;
                    assert(i < all.len() ==> all[i] == k);
                }
            }
            if before.contains(k) {
                let i = choose|i: int| 0 <= i < before.len() && before[i] == k;
                assert(idx[i] == k);
            }
            if idx.contains(k) {
                let i = choose|i: int| 0 <= i < idx.len() && idx[i] == k;
                assert(i < before.len() ==> before[i] == k);
            }
        }
    } else {
        assert(idx.filter(p) =~= idx);
    }
}

/// The folds of the expanding window test ranges of one length that follow on each other up to the last
/// row. No longer length would leave as many rows again in front of the first range, and every fold is
/// trained on all rows before its own.
pub proof fn lemma_split_shape(n: nat, n_splits: nat, folds: Seq<Split>)
    requires
        folds.len() == n_splits,
        forall|k: int|
            0 <= k < n_splits ==> {
                &&& (#[trigger] folds[k]).test_start == fold_start(n, n_splits, k)
                &&& folds[k].test_end == folds[k].test_start + fold_size(n, n_splits)
                &&& folds[k].train_end == folds[k].test_start
            },
    ensures
        n_splits > 0 ==> folds[n_splits - 1].test_end == n,
        forall|j: int, k: int|
            0 <= j && k == j + 1 && k < n_splits ==> (#[trigger] folds[j]).test_end == (
            #[trigger] folds[k]).test_start,
        forall|k: int|
            0 <= k < n_splits ==> {
                let size = (#[trigger] folds[k]).test_end - folds[k].test_start;
                &&& folds[k].train_end == folds[k].test_start
                &&& (n_splits + 1) * size <= n < (n_splits + 1) * (size + 1)
                &&& folds[k].test_start == n - (n_splits - k) * size
            },
{
    let t = fold_size(n, n_splits);
    assert((n_splits + 1) * t <= n < (n_splits + 1) * (t + 1)) by (nonlinear_arith)
        requires
            t == n / (n_splits + 1),
    ;
    lemma_folds_fit(n, n_splits, n_splits as int);
    if n_splits > 0 {
        lemma_folds_fit(n, n_splits, n_splits - 1);
    }
    assert forall|j: int, k: int| 0 <= j && k == j + 1 && k < n_splits implies (
    #[trigger] folds[j]).test_end == (#[trigger] folds[k]).test_start by {
        lemma_folds_fit(n, n_splits, j);
    }
}

/// The first tested row leaves the longest equal share of all rows, one for each fold, behind it.
pub proof fn lemma_eval_start(n: nat, n_splits: nat)
    ensures
        ({
            let tested = n - eval_start_of(n, n_splits);
            let size = fold_size(n, n_splits);
            &&& tested == n_splits * size
            &&& (n_splits + 1) * size <= n < (n_splits + 1) * (size + 1)
        }),
{
    let t = fold_size(n, n_splits);
    assert((n_splits + 1) * t <= n < (n_splits + 1) * (t + 1)) by (nonlinear_arith)
        requires
            t == n / (n_splits + 1),
    ;
}

/// A model is retrained as soon as its training set has grown as asked, but after one more row at the
/// earliest and at the last row at the latest.
pub proof fn lemma_retrain_point(t: int, grown: int, n: int)
    requires
        t < n,
    ensures
        ({
            let r = retrain_point(t, grown, n);
            &&& t < r <= n
            &&& r < n ==> r >= grown
            &&& r > t + 1 ==> r <= grown
        }),
{
}

} // verus!
