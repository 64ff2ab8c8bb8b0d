//! What models read off the history of a card: counts of earlier reviews.

use crate::counting;
use crate::features;
use crate::features::Dataset;
use crate::features::Row;
use crate::grouping;
use vstd::prelude::*;

verus! {

/// Review `k` was failed.
pub open spec fn failed(ratings: Seq<i64>) -> spec_fn(int) -> bool {
    |k: int| ratings[k] == 1
}

/// The number of earlier reviews that were not failed, and of those that were.
pub fn hlr_features(prior: &[i64]) -> (r: (usize, usize))
    ensures
        r.1 == counting::count(prior@.len(), failed(prior@)),
        r.0 + r.1 == prior@.len(),
{
    let mut successes: usize = 0;
    let mut failures: usize = 0;
    let mut k: usize = 0;
    while k < prior.len()
        invariant
            k <= prior@.len(),
            failures == counting::count(k as nat, failed(prior@)),
            successes + failures == k,
        decreases prior.len() - k,
    {
        assert(failed(prior@)(k as int) == (prior@[k as int] == 1));
        if prior[k] == 1 {
            failures = failures + 1;
        } else {
            successes = successes + 1;
        }
        k = k + 1;
    }
    (successes, failures)
}

/// The sum of the intervals from `k` on: the time from review `k` to now.
pub open spec fn time_to_now(intervals: Seq<i64>, k: int) -> int
    decreases intervals.len() - k,
{
    if 0 <= k < intervals.len() {
        intervals[k] + time_to_now(intervals, k + 1)
    } else {
        0
    }
}

/// Review `k` lies no further back than the window, and was passed if that is asked.
pub open spec fn in_window(
    ratings: Seq<i64>,
    intervals: Seq<i64>,
    window: Option<int>,
    passed: bool,
) -> spec_fn(int) -> bool {
    |k: int|
        {
            &&& window matches Some(w) ==> time_to_now(intervals, k) <= w
            &&& passed ==> ratings[k] > 1
        }
}

proof fn lemma_time_bound(intervals: Seq<i64>, k: int)
    requires
        0 <= k <= intervals.len(),
    ensures
        (intervals.len() - k) * i64::MIN <= time_to_now(intervals, k) <= (intervals.len() - k)
            * i64::MAX,
    decreases intervals.len() - k,
{
    let left = intervals.len() - k;
    if k < intervals.len() {
        lemma_time_bound(intervals, k + 1);
        assert(left * i64::MAX == (left - 1) * i64::MAX + i64::MAX) by (nonlinear_arith);
        assert(left * i64::MIN == (left - 1) * i64::MIN + i64::MIN) by (nonlinear_arith);
    } else {
        assert(0 * i64::MAX == 0 && 0 * i64::MIN == 0);
    }
}

/// The time from every review to now.
fn times_to_now(intervals: &[i64]) -> (times: Vec<i128>)
    ensures
        times@.len() == intervals@.len(),
        forall|k: int|
            0 <= k < times@.len() ==> #[trigger] times@[k] == time_to_now(intervals@, k),
{
    let n: usize = intervals.len();
    let mut times: Vec<i128> = Vec::with_capacity(n);
    let mut j: usize = 0;
    while j < n
        invariant
            j <= n,
            times@.len() == j,
        decreases n - j,
    {
        times.push(0);
        j = j + 1;
    }
    let mut sum: i128 = 0;
    let mut k: usize = n;
    while k > 0
        invariant
            k <= n,
            n == intervals@.len(),
            times@.len() == n,
            sum == time_to_now(intervals@, k as int),
            forall|i: int|
                k <= i < n ==> #[trigger] times@[i] == time_to_now(intervals@, i),
        decreases k,
    {
        k = k - 1;
        proof {
            lemma_time_bound(intervals@, k as int);
            let left = n - k;
            assert(left * i64::MAX <= 0x1_0000_0000_0000_0000 * i64::MAX && left * i64::MIN
                >= 0x1_0000_0000_0000_0000 * i64::MIN) by (nonlinear_arith)
                requires
                    left <= 0xffff_ffff_ffff_ffff,
            ;
        }
        sum = sum + intervals[k] as i128;
        times.set(k, sum);
    }
    times
}

spec fn counted_in(
    ratings: Seq<i64>,
    times: Seq<i128>,
    window: Option<i128>,
    passed: bool,
) -> spec_fn(int) -> bool {
    |k: int|
        {
            &&& window matches Some(w) ==> times[k] <= w
            &&& passed ==> ratings[k] > 1
        }
}

fn count_in_window(ratings: &[i64], times: &Vec<i128>, window: Option<i128>, passed: bool) -> (c:
    usize)
    requires
        ratings@.len() == times@.len(),
    ensures
        c == counting::count(ratings@.len(), counted_in(ratings@, times@, window, passed)),
{
    let ghost p = counted_in(ratings@, times@, window, passed);
    let mut c: usize = 0;
    let mut k: usize = 0;
    while k < ratings.len()
        invariant
            k <= ratings@.len(),
            ratings@.len() == times@.len(),
            p == counted_in(ratings@, times@, window, passed),
            c == counting::count(k as nat, p),
            c <= k,
        decreases ratings.len() - k,
    {
        let inside: bool = match window {
            Some(w) => times[k] <= w,
            None => true,
        };
        assert(p(k as int) == (inside && (passed ==> ratings@[k as int] > 1)));
        if inside && (!passed || ratings[k] > 1) {
            c = c + 1;
        }
        k = k + 1;
    }
    c
}

proof fn lemma_same_count(
    ratings: Seq<i64>,
    intervals: Seq<i64>,
    times: Seq<i128>,
    window: Option<i128>,
    w: Option<int>,
    passed: bool,
)
    requires
        times.len() == ratings.len(),
        forall|k: int| 0 <= k < times.len() ==> #[trigger] times[k] == time_to_now(intervals, k),
        window is Some <==> w is Some,
        window is Some ==> window->0 == w->0,
    ensures
        counting::count(ratings.len(), counted_in(ratings, times, window, passed))
            == counting::count(ratings.len(), in_window(ratings, intervals, w, passed)),
{
    let (p, q) = (
        counted_in(ratings, times, window, passed),
        in_window(ratings, intervals, w, passed),
    );
    assert forall|k: int| 0 <= k < ratings.len() implies #[trigger] p(k) == q(k) by {
        assert(times[k] == time_to_now(intervals, k));
    }
    counting::lemma_count_agree(ratings.len(), p, q);
}

/// The windows that reviews are counted in, a day being `day` units: one day, a week, thirty days;
/// the last one has no bound.
pub open spec fn window(j: int, day: int) -> Option<int> {
    if j == 0 {
        Some(day)
    } else if j == 1 {
        Some(7 * day)
    } else if j == 2 {
        Some(30 * day)
    } else {
        None
    }
}

/// For windows of one day, a week, thirty days and all time: how many earlier reviews lie in them,
/// and how many of those were passed. A day is `day` units of the intervals.
pub fn dash_features(ratings: &[i64], intervals: &[i64], day: i64) -> (f: Vec<usize>)
    requires
        ratings@.len() == intervals@.len(),
    ensures
        f@.len() == 8,
        forall|j: int|
            0 <= j < 4 ==> {
                let w = #[trigger] window(j, day as int);
                &&& f@[2 * j] == counting::count(
                    ratings@.len(),
                    in_window(ratings@, intervals@, w, false),
                )
                &&& f@[2 * j + 1] == counting::count(
                    ratings@.len(),
                    in_window(ratings@, intervals@, w, true),
                )
            },
{
    let times: Vec<i128> = times_to_now(intervals);
    let mut f: Vec<usize> = Vec::with_capacity(8);
    let mut j: usize = 0;
    while j < 4
        invariant
            j <= 4,
            ratings@.len() == intervals@.len(),
            times@.len() == intervals@.len(),
            forall|k: int|
                0 <= k < times@.len() ==> #[trigger] times@[k] == time_to_now(intervals@, k),
            f@.len() == 2 * j,
            forall|i: int|
                0 <= i < j ==> {
                    let w = #[trigger] window(i, day as int);
                    &&& f@[2 * i] == counting::count(
                        ratings@.len(),
                        in_window(ratings@, intervals@, w, false),
                    )
                    &&& f@[2 * i + 1] == counting::count(
                        ratings@.len(),
                        in_window(ratings@, intervals@, w, true),
                    )
                },
        decreases 4 - j,
    {
        let bound: Option<i128> = if j == 0 {
            Some(day as i128)
        } else if j == 1 {
            Some(7 * day as i128)
        } else if j == 2 {
            Some(30 * day as i128)
        } else {
            None
        };
        let ghost w = window(j as int, day as int);
        let all: usize = count_in_window(ratings, &times, bound, false);
        let passes: usize = count_in_window(ratings, &times, bound, true);
        proof {
            lemma_same_count(ratings@, intervals@, times@, bound, w, false);
            lemma_same_count(ratings@, intervals@, times@, bound, w, true);
        }
        f.push(all);
        f.push(passes);
        j = j + 1;
    }
    f
}

/// A wider window holds at least the reviews of a narrower one, and in
/// every window there are at most as many passes as reviews.
pub proof fn lemma_windows_nested(
    ratings: Seq<i64>,
    intervals: Seq<i64>,
    narrow: int,
    wide: Option<int>,
    passed: bool,
)
    requires
        wide matches Some(w) ==> narrow <= w,
    ensures
        counting::count(ratings.len(), in_window(ratings, intervals, Some(narrow), passed))
            <= counting::count(ratings.len(), in_window(ratings, intervals, wide, passed)),
        counting::count(ratings.len(), in_window(ratings, intervals, wide, true))
            <= counting::count(ratings.len(), in_window(ratings, intervals, wide, false)),
{
    counting::lemma_count_implies(
        ratings.len(),
        in_window(ratings, intervals, Some(narrow), passed),
        in_window(ratings, intervals, wide, passed),
    );
    counting::lemma_count_implies(
        ratings.len(),
        in_window(ratings, intervals, wide, true),
        in_window(ratings, intervals, wide, false),
    );
}

/// How the interval of the SuperMemo-2 schedule goes on after a review.
#[derive(Debug, Clone, Copy, PartialEq, Eq, Structural)]
pub enum IntervalStep {
    /// Back to one day, after a failed review.
    Lapse,
    /// The first interval, one day, after the first review in a row.
    First,
    /// The second interval, six days, after the second.
    Second,
    /// Multiplied by the ease, after any further one.
    Grow,
}

/// The number of passed reviews, up to review `n`, since the last failed one.
pub open spec fn repetitions(prior: Seq<i64>, n: nat) -> nat
    decreases n,
{
    if n == 0 || prior[n - 1] <= 1 {
        0
    } else {
        1 + repetitions(prior, (n - 1) as nat)
    }
}

/// How the interval goes on after review `k`.
pub open spec fn interval_step(prior: Seq<i64>, k: int) -> IntervalStep {
    let before = repetitions(prior, k as nat);
    if prior[k] <= 1 {
        IntervalStep::Lapse
    } else if before == 0 {
        IntervalStep::First
    } else if before == 1 {
        IntervalStep::Second
    } else {
        IntervalStep::Grow
    }
}

/// How the interval goes on after each of the earlier reviews.
pub fn sm2_steps(prior: &[i64]) -> (steps: Vec<IntervalStep>)
    ensures
        steps@.len() == prior@.len(),
        forall|k: int| 0 <= k < steps@.len() ==> #[trigger] steps@[k] == interval_step(prior@, k),
{
    let mut steps: Vec<IntervalStep> = Vec::with_capacity(prior.len());
    let mut reps: usize = 0;
    let mut k: usize = 0;
    while k < prior.len()
        invariant
            k <= prior@.len(),
            reps == repetitions(prior@, k as nat),
            reps <= k,
            steps@.len() == k,
            forall|i: int| 0 <= i < k ==> #[trigger] steps@[i] == interval_step(prior@, i),
        decreases prior.len() - k,
    {
        if prior[k] <= 1 {
            steps.push(IntervalStep::Lapse);
            reps = 0;
        } else {
            if reps == 0 {
                steps.push(IntervalStep::First);
            } else if reps == 1 {
                steps.push(IntervalStep::Second);
            } else {
                steps.push(IntervalStep::Grow);
            }
            reps = reps + 1;
        }
        k = k + 1;
    }
    steps
}

/// The number of reviews, up to review `n`, from the last failed one on; all of them where none
/// failed.
pub open spec fn streak(prior: Seq<i64>, n: nat) -> nat
    decreases n,
{
    if n == 0 {
        0
    } else if prior[n - 1] <= 1 {
        1
    } else {
        1 + streak(prior, (n - 1) as nat)
    }
}

/// How the interval of the trained schedule goes on after review `k`: a failed review is the first of
/// a new streak.
pub open spec fn streak_step(prior: Seq<i64>, k: int) -> IntervalStep {
    let reps = streak(prior, (k + 1) as nat);
    if reps == 1 {
        IntervalStep::First
    } else if reps == 2 {
        IntervalStep::Second
    } else {
        IntervalStep::Grow
    }
}

/// How the interval of the trained schedule goes on after each of the earlier reviews.
pub fn trainable_steps(prior: &[i64]) -> (steps: Vec<IntervalStep>)
    ensures
        steps@.len() == prior@.len(),
        forall|k: int| 0 <= k < steps@.len() ==> #[trigger] steps@[k] == streak_step(prior@, k),
{
    let mut steps: Vec<IntervalStep> = Vec::with_capacity(prior.len());
    let mut reps: usize = 0;
    let mut k: usize = 0;
    while k < prior.len()
        invariant
            k <= prior@.len(),
            reps == streak(prior@, k as nat),
            reps <= k,
            steps@.len() == k,
            forall|i: int| 0 <= i < k ==> #[trigger] steps@[i] == streak_step(prior@, i),
        decreases prior.len() - k,
    {
        reps = if prior[k] > 1 {
            reps + 1
        } else {
            1
        };
        steps.push(
            if reps == 1 {
                IntervalStep::First
            } else if reps == 2 {
                IntervalStep::Second
            } else {
                IntervalStep::Grow
            },
        );
        k = k + 1;
    }
    steps
}

/// Row `k` is trained on: its history, and `extra` more, is no longer than the longest one allowed,
/// and, where only later reviews are asked for, it is neither the first nor the second of its card.
pub open spec fn trained_on(
    rows: Seq<Row>,
    max_seq_len: usize,
    extra: usize,
    later_only: bool,
) -> spec_fn(int) -> bool {
    |k: int| rows[k].pos + extra <= max_seq_len && (later_only ==> rows[k].i > 2)
}

/// The rows to train on.
pub fn training_rows(rows: &[Row], max_seq_len: usize, extra: usize, later_only: bool) -> (picked:
    Vec<usize>)
    ensures
        picked@ == grouping::rows_where(
            rows@.len(),
            trained_on(rows@, max_seq_len, extra, later_only),
        ),
{
    let ghost p = trained_on(rows@, max_seq_len, extra, later_only);
    let mut picked: Vec<usize> = Vec::new();
    let mut k: usize = 0;
    while k < rows.len()
        invariant
            k <= rows@.len(),
            p == trained_on(rows@, max_seq_len, extra, later_only),
            picked@ == grouping::rows_where(k as nat, p),
        decreases rows.len() - k,
    {
        let row: Row = rows[k];
        let fits: bool = row.pos as u128 + extra as u128 <= max_seq_len as u128;
        if fits && (!later_only || row.i > 2) {
            picked.push(k);
        }
        k = k + 1;
    }
    picked
}

/// A review as an optimizer takes it: the rating, and the whole days in front of it.
#[derive(Debug, Clone, Copy, PartialEq, Eq, Structural)]
pub struct ItemReview {
    pub rating: u32,
    pub delta_t: u32,
}

/// The whole days of an interval, a day being `day` units; as many as fit.
pub open spec fn whole_days(interval: i64, day: int) -> u32 {
    let d = features::max_zero(interval as int) / day;
    if d > u32::MAX {
        u32::MAX
    } else {
        d as u32
    }
}

fn days_of(interval: i64, day: i64) -> (d: u32)
    requires
        day > 0,
    ensures
        d == whole_days(interval, day as int),
{
    if interval <= 0 {
        assert(0int / day as int == 0) by (nonlinear_arith)
            requires
                day > 0,
        ;
        return 0;
    }
    let d: i64 = interval / day;
    assert(interval as int / day as int >= 0) by (nonlinear_arith)
        requires
            interval > 0,
            day > 0,
    ;
    if d > u32::MAX as i64 {
        u32::MAX
    } else {
        d as u32
    }
}

/// The item of a row: the reviews of its history, and its own.
pub open spec fn item_of(ds: Dataset, row: Row, day: int) -> Seq<ItemReview> {
    let card = ds.cards@[row.card_idx as int];
    Seq::new(
        (row.pos + 1) as nat,
        |k: int|
            if k < row.pos {
                ItemReview {
                    rating: card.ratings@[k] as u32,
                    delta_t: whole_days(card.dt_active@[k], day),
                }
            } else {
                ItemReview { rating: row.rating as u32, delta_t: whole_days(row.delta_t, day) }
            },
    )
}

/// Row `k` has a history.
pub open spec fn has_history(rows: Seq<Row>) -> spec_fn(int) -> bool {
    |k: int| rows[k].pos > 0
}

/// One item per row that has a history, in order.
pub fn build_items(ds: &Dataset, rows: &[Row], day: i64) -> (items: Vec<Vec<ItemReview>>)
    requires
        day > 0,
        forall|k: int| 0 <= k < rows@.len() ==> features::refers(*ds, #[trigger] rows@[k]),
    ensures
        items@.len() == grouping::rows_where(rows@.len(), has_history(rows@)).len(),
        forall|j: int|
            0 <= j < items@.len() ==> (#[trigger] items@[j])@ == item_of(
                *ds,
                rows@[grouping::rows_where(rows@.len(), has_history(rows@))[j] as int],
                day as int,
            ),
{
    let ghost p = has_history(rows@);
    let mut items: Vec<Vec<ItemReview>> = Vec::new();
    let mut k: usize = 0;
    while k < rows.len()
        invariant
            k <= rows@.len(),
            day > 0,
            p == has_history(rows@),
            forall|i: int| 0 <= i < rows@.len() ==> features::refers(*ds, #[trigger] rows@[i]),
            items@.len() == grouping::rows_where(k as nat, p).len(),
            forall|j: int|
                0 <= j < items@.len() ==> (#[trigger] items@[j])@ == item_of(
                    *ds,
                    rows@[grouping::rows_where(k as nat, p)[j] as int],
                    day as int,
                ),
        decreases rows.len() - k,
    {
        let row: Row = rows[k];
        assert(features::refers(*ds, rows@[k as int]));
        if row.pos > 0 {
            let item = build_item(ds, &row, day);
            items.push(item);
        }
        k = k + 1;
    }
    items
}

fn build_item(ds: &Dataset, row: &Row, day: i64) -> (item: Vec<ItemReview>)
    requires
        day > 0,
        features::refers(*ds, *row),
    ensures
        item@ == item_of(*ds, *row, day as int),
{
    let ratings: &[i64] = ds.prior_ratings(row);
    let intervals: &[i64] = ds.prior_dt_active(row);
    let n: usize = ratings.len();
    let mut item: Vec<ItemReview> = Vec::with_capacity(n);
    let mut k: usize = 0;
    while k < n
        invariant
            k <= n,
            n == row.pos,
            day > 0,
            features::refers(*ds, *row),
            ratings@.len() == n,
            intervals@.len() == n,
            ratings@ == ds.cards@[row.card_idx as int].ratings@.take(n as int),
            intervals@ == ds.cards@[row.card_idx as int].dt_active@.take(n as int),
            item@ == item_of(*ds, *row, day as int).take(k as int),
        decreases n - k,
    {
        let review = ItemReview {
            rating: #[verifier::truncate] (ratings[k] as u32),
            delta_t: days_of(intervals[k], day),
        };
        item.push(review);
        assert(item@ =~= item_of(*ds, *row, day as int).take(k + 1));
        k = k + 1;
    }
    item.push(
        ItemReview {
            rating: #[verifier::truncate] (row.rating as u32),
            delta_t: days_of(row.delta_t, day),
        },
    );
    assert(item@ =~= item_of(*ds, *row, day as int));
    item
}

/// One more review is one more failure where it was failed, and one more success where it was not.
pub proof fn lemma_failures_grow(prior: Seq<i64>, rating: i64)
    ensures
        counting::count(prior.push(rating).len(), failed(prior.push(rating))) == counting::count(
            prior.len(),
            failed(prior),
        ) + (if rating == 1 {
            1nat
        } else {
            0nat
        }),
        counting::count(0, failed(Seq::empty())) == 0,
{
    let more = prior.push(rating);
    assert forall|k: int| 0 <= k < prior.len() implies #[trigger] failed(more)(k) == failed(prior)(
        k,
    ) by {}
    counting::lemma_count_agree(prior.len(), failed(more), failed(prior));
    assert(failed(more)(prior.len() as int) == (rating == 1));
}

/// The time from a review to now is the interval behind it and the time from the next one; none has
/// passed since the end.
pub proof fn lemma_time_adds_up(intervals: Seq<i64>, k: int)
    requires
        0 <= k < intervals.len(),
    ensures
        time_to_now(intervals, k) == intervals[k] + time_to_now(intervals, k + 1),
        time_to_now(intervals, intervals.len() as int) == 0,
{
}

/// The windows are of a day, a week and thirty days, and one without end. A review counts in a window
/// if it lies no further back, and as a pass if it was not failed.
pub proof fn lemma_windows_counted(ratings: Seq<i64>, intervals: Seq<i64>, day: int)
    ensures
        forall|passed: bool|
            #![trigger in_window(ratings, intervals, window(0, day), passed)]
            counting::count(ratings.len(), in_window(ratings, intervals, window(0, day), passed))
                == counting::count(
                ratings.len(),
                |k: int| time_to_now(intervals, k) <= day && (passed ==> ratings[k] >= 2),
            ),
        forall|passed: bool|
            #![trigger in_window(ratings, intervals, window(1, day), passed)]
            counting::count(ratings.len(), in_window(ratings, intervals, window(1, day), passed))
                == counting::count(
                ratings.len(),
                |k: int| time_to_now(intervals, k) <= 7 * day && (passed ==> ratings[k] >= 2),
            ),
        forall|passed: bool|
            #![trigger in_window(ratings, intervals, window(2, day), passed)]
            counting::count(ratings.len(), in_window(ratings, intervals, window(2, day), passed))
                == counting::count(
                ratings.len(),
                |k: int| time_to_now(intervals, k) <= 30 * day && (passed ==> ratings[k] >= 2),
            ),
        forall|passed: bool|
            #![trigger in_window(ratings, intervals, window(3, day), passed)]
            counting::count(ratings.len(), in_window(ratings, intervals, window(3, day), passed))
                == counting::count(ratings.len(), |k: int| passed ==> ratings[k] >= 2),
{
    assert forall|passed: bool|
        #![trigger in_window(ratings, intervals, window(0, day), passed)]
        counting::count(ratings.len(), in_window(ratings, intervals, window(0, day), passed))
            == counting::count(
            ratings.len(),
            |k: int| time_to_now(intervals, k) <= day && (passed ==> ratings[k] >= 2),
        ) by {
        counting::lemma_count_agree(
            ratings.len(),
            in_window(ratings, intervals, window(0, day), passed),
            |k: int| time_to_now(intervals, k) <= day && (passed ==> ratings[k] >= 2),
        );
    }
    assert forall|passed: bool|
        #![trigger in_window(ratings, intervals, window(1, day), passed)]
        counting::count(ratings.len(), in_window(ratings, intervals, window(1, day), passed))
            == counting::count(
            ratings.len(),
            |k: int| time_to_now(intervals, k) <= 7 * day && (passed ==> ratings[k] >= 2),
        ) by {
        counting::lemma_count_agree(
            ratings.len(),
            in_window(ratings, intervals, window(1, day), passed),
            |k: int| time_to_now(intervals, k) <= 7 * day && (passed ==> ratings[k] >= 2),
        );
    }
    assert forall|passed: bool|
        #![trigger in_window(ratings, intervals, window(2, day), passed)]
        counting::count(ratings.len(), in_window(ratings, intervals, window(2, day), passed))
            == counting::count(
            ratings.len(),
            |k: int| time_to_now(intervals, k) <= 30 * day && (passed ==> ratings[k] >= 2),
        ) by {
        counting::lemma_count_agree(
            ratings.len(),
            in_window(ratings, intervals, window(2, day), passed),
            |k: int| time_to_now(intervals, k) <= 30 * day && (passed ==> ratings[k] >= 2),
        );
    }
    assert forall|passed: bool|
        #![trigger in_window(ratings, intervals, window(3, day), passed)]
        counting::count(ratings.len(), in_window(ratings, intervals, window(3, day), passed))
            == counting::count(ratings.len(), |k: int| passed ==> ratings[k] >= 2) by {
        counting::lemma_count_agree(
            ratings.len(),
            in_window(ratings, intervals, window(3, day), passed),
            |k: int| passed ==> ratings[k] >= 2,
        );
    }
}

/// A failed review is a lapse; a passed one is the first where the one before was failed or there is
/// none, the second where that one was a first, and makes the interval grow elsewhere.
pub proof fn lemma_interval_steps(prior: Seq<i64>, k: int)
    requires
        0 <= k < prior.len(),
    ensures
        interval_step(prior, k) == IntervalStep::Lapse <==> prior[k] <= 1,
        interval_step(prior, k) == IntervalStep::First <==> prior[k] > 1 && (k == 0 || prior[k - 1]
            <= 1),
        interval_step(prior, k) == IntervalStep::Second <==> prior[k] > 1 && k > 0 && prior[k - 1]
            > 1 && (k == 1 || prior[k - 2] <= 1),
{
    reveal_with_fuel(repetitions, 3);
}

/// By the trained schedule the first review and every failed one is a first; a passed one after a
/// first is a second; and any other makes the interval grow.
pub proof fn lemma_streak_steps(prior: Seq<i64>, k: int)
    requires
        0 <= k < prior.len(),
    ensures
        streak_step(prior, k) == IntervalStep::First <==> k == 0 || prior[k] <= 1,
        streak_step(prior, k) == IntervalStep::Second <==> k > 0 && prior[k] > 1 && (k == 1
            || prior[k - 1] <= 1),
        streak_step(prior, k) != IntervalStep::Lapse,
{
    reveal_with_fuel(streak, 4);
}

/// Trained on are the rows whose history, and `extra` more, is no longer than allowed, in order; where
/// later reviews are asked for, only those with a second review on another day before them.
pub proof fn lemma_training_rows(
    rows: Seq<Row>,
    max_seq_len: usize,
    extra: usize,
    later_only: bool,
    picked: Seq<usize>,
)
    requires
        rows.len() <= usize::MAX,
        picked == grouping::rows_where(
            rows.len(),
            trained_on(rows, max_seq_len, extra, later_only),
        ),
    ensures
        forall|a: int, b: int|
            0 <= a < b < picked.len() ==> #[trigger] picked[a] < #[trigger] picked[b],
        forall|k: usize| #[trigger]
            picked.contains(k) <==> k < rows.len() && rows[k as int].pos + extra <= max_seq_len && (
            !later_only || rows[k as int].i >= 3),
{
    let p = trained_on(rows, max_seq_len, extra, later_only);
    grouping::lemma_rows_where(rows.len(), p);
    assert forall|k: usize| #[trigger] picked.contains(k) <==> k < rows.len() && rows[k as int].pos
        + extra <= max_seq_len && (!later_only || rows[k as int].i >= 3) by {
        assert(grouping::rows_where(rows.len(), p).contains(k) <==> k < rows.len() && p(k as int));
    }
}

/// The item of a row holds its history and then itself: each review with its rating and the whole days
/// of its interval, as many as fit.
pub proof fn lemma_items_hold_history(ds: Dataset, row: Row, day: int, k: int)
    requires
        day > 0,
        0 <= k <= row.pos,
    ensures
        ({
            let item = item_of(ds, row, day);
            let card = ds.cards@[row.card_idx as int];
            let rating = if k < row.pos {
                card.ratings@[k]
            } else {
                row.rating
            };
            let interval = if k < row.pos {
                card.dt_active@[k]
            } else {
                row.delta_t
            };
            &&& item.len() == row.pos + 1
            &&& 0 <= rating <= u32::MAX ==> item[k].rating == rating
            &&& interval <= 0 ==> item[k].delta_t == 0
            &&& interval > 0 && item[k].delta_t < u32::MAX ==> item[k].delta_t * day <= interval < (
            item[k].delta_t + 1) * day
            &&& item[k].delta_t == u32::MAX ==> interval >= u32::MAX * day
        }),
{
    let card = ds.cards@[row.card_idx as int];
    let interval = if k < row.pos {
        card.dt_active@[k]
    } else {
        row.delta_t
    };
    let top = features::max_zero(interval as int);
    let d = top / day;
    assert(d * day <= top < (d + 1) * day) by (nonlinear_arith)
        requires
            day > 0,
            d == top / day,
    ;
    assert(top == 0 ==> d == 0) by (nonlinear_arith)
        requires
            day > 0,
            d == top / day,
    ;
    assert(d >= u32::MAX ==> d * day >= u32::MAX * day) by (nonlinear_arith)
        requires
            day > 0,
    ;
    assert(top >= 0 ==> d >= 0) by (nonlinear_arith)
        requires
            day > 0,
            d == top / day,
    ;
}

/// Items are made of the rows that have a history, in order.
pub proof fn lemma_items_are_rows(rows: Seq<Row>, k: usize)
    requires
        rows.len() <= usize::MAX,
    ensures
        grouping::rows_where(rows.len(), has_history(rows)).contains(k) <==> k < rows.len()
            && rows[k as int].pos >= 1,
        forall|a: int, b: int|
            0 <= a < b < grouping::rows_where(rows.len(), has_history(rows)).len()
                ==> #[trigger] grouping::rows_where(rows.len(), has_history(rows))[a]
                < #[trigger] grouping::rows_where(rows.len(), has_history(rows))[b],
{
    let p = has_history(rows);
    grouping::lemma_rows_where(rows.len(), p);
    assert(grouping::rows_where(rows.len(), p).contains(k) <==> k < rows.len() && p(k as int));
}

} // verus!
