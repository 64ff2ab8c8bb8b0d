//! What the initial stabilities of a card are fitted to, and how the fits are made to agree.
//!
//! For every first rating the fit is made on the outcomes of the second reviews. A fitted stability is
//! known here by a key that orders as the stabilities do.

use crate::counting;
use crate::features::Row;
use crate::grouping;
use vstd::prelude::*;

verus! {

/// What became of the second reviews that came after the same interval.
#[derive(Debug, Clone, Copy, PartialEq, Eq, Structural)]
pub struct Outcome {
    pub delta_t: i64,
    /// The sum of the labels.
    pub recalled: i128,
    /// The number of reviews.
    pub total: usize,
}

/// Row `k` is a second review, on another day than the first, of a card first rated `rating`.
pub open spec fn second_of(rows: Seq<Row>, rating: i64) -> spec_fn(int) -> bool {
    |k: int| rows[k].i == 2 && rows[k].first_rating == rating
}

/// The second reviews of cards first rated `rating`, in order.
pub open spec fn seconds(rows: Seq<Row>, rating: i64) -> Seq<usize> {
    grouping::rows_where(rows.len(), second_of(rows, rating))
}

/// The intervals in front of the picked rows.
pub open spec fn intervals_of(rows: Seq<Row>, picked: Seq<usize>) -> Seq<i64> {
    Seq::new(picked.len(), |j: int| rows[picked[j] as int].delta_t)
}

/// What the picked row `j` adds to the labels of interval `d`.
pub open spec fn label_at(rows: Seq<Row>, picked: Seq<usize>, d: i64) -> spec_fn(int) -> int {
    |j: int|
        if grouping::has_key(intervals_of(rows, picked), d)(j) {
            rows[picked[j] as int].y as int
        } else {
            0
        }
}

/// `out` is what became of the picked rows with its interval, and there is such a row.
pub open spec fn is_outcome(rows: Seq<Row>, picked: Seq<usize>, out: Outcome) -> bool {
    &&& out.total == counting::count(
        picked.len(),
        grouping::has_key(intervals_of(rows, picked), out.delta_t),
    )
    &&& out.total > 0
    &&& out.recalled == counting::sum(picked.len(), label_at(rows, picked, out.delta_t))
}

/// One of the outcomes is that of interval `d`.
pub open spec fn has_interval(outs: Seq<Outcome>, d: i64) -> bool {
    exists|g: int| 0 <= g < outs.len() && (#[trigger] outs[g]).delta_t == d
}

/// `outs` holds one outcome per interval of the picked rows, by ascending interval.
pub open spec fn are_outcomes(rows: Seq<Row>, picked: Seq<usize>, outs: Seq<Outcome>) -> bool {
    &&& forall|a: int, b: int|
        0 <= a < b < outs.len() ==> (#[trigger] outs[a]).delta_t < (#[trigger] outs[b]).delta_t
    &&& forall|g: int| 0 <= g < outs.len() ==> is_outcome(rows, picked, #[trigger] outs[g])
    &&& forall|j: int|
        0 <= j < picked.len() ==> has_interval(outs, rows[#[trigger] picked[j] as int].delta_t)
}

spec fn listed(rows: Seq<usize>, f: spec_fn(int) -> int) -> spec_fn(int) -> int {
    |r: int| f(rows[r] as int)
}

spec fn where_only(p: spec_fn(int) -> bool, f: spec_fn(int) -> int) -> spec_fn(int) -> int {
    |i: int|
        if p(i) {
            f(i)
        } else {
            0
        }
}

/// Summing over the listed indices is summing where the predicate holds.
proof fn lemma_sum_where(n: nat, p: spec_fn(int) -> bool, f: spec_fn(int) -> int)
    requires
        n <= usize::MAX,
    ensures
        counting::sum(
            grouping::rows_where(n, p).len(),
            listed(grouping::rows_where(n, p), f),
        ) == counting::sum(n, where_only(p, f)),
    decreases n,
{
    if n > 0 {
        let m = (n - 1) as nat;
        lemma_sum_where(m, p, f);
        let (a, b) = (grouping::rows_where(m, p), grouping::rows_where(n, p));
        assert(where_only(p, f)(n - 1) == (if p(n - 1) {
            f(n - 1)
        } else {
            0
        }));
        if p(n - 1) {
            counting::lemma_sum_agree(a.len(), listed(a, f), listed(b, f));
            assert(listed(b, f)(b.len() - 1) == f(n - 1));
        }
    }
}

fn pick_seconds(rows: &[Row], rating: i64) -> (picked: Vec<usize>)
    ensures
        picked@ == seconds(rows@, rating),
{
    let ghost p = second_of(rows@, rating);
    let mut picked: Vec<usize> = Vec::new();
    let mut k: usize = 0;
    while k < rows.len()
        invariant
            k <= rows@.len(),
            p == second_of(rows@, rating),
            picked@ == grouping::rows_where(k as nat, p),
        decreases rows.len() - k,
    {
        if rows[k].i == 2 && rows[k].first_rating == rating {
            picked.push(k);
        }
        k = k + 1;
    }
    picked
}

/// The outcomes of the second reviews of cards first rated `rating`, by ascending interval.
pub fn second_reviews(rows: &[Row], rating: i64) -> (outs: Vec<Outcome>)
    ensures
        are_outcomes(rows@, seconds(rows@, rating), outs@),
{
    let picked: Vec<usize> = pick_seconds(rows, rating);
    let n_rows: usize = rows.len();
    assert(n_rows == rows@.len());
    proof {
        grouping::lemma_rows_where(rows@.len(), second_of(rows@, rating));
    }
    let mut times: Vec<i64> = Vec::with_capacity(picked.len());
    let mut j: usize = 0;
    while j < picked.len()
        invariant
            j <= picked@.len(),
            forall|r: int| 0 <= r < picked@.len() ==> #[trigger] picked@[r] < rows@.len(),
            times@ == intervals_of(rows@, picked@).take(j as int),
        decreases picked.len() - j,
    {
        times.push(rows[picked[j]].delta_t);
        assert(times@ =~= intervals_of(rows@, picked@).take(j + 1));
        j = j + 1;
    }
    let ghost all = intervals_of(rows@, picked@);
    assert(times@ =~= all);
    let groups = grouping::group_by_key(&times);
    let mut outs: Vec<Outcome> = Vec::with_capacity(groups.len());
    let mut g: usize = 0;
    while g < groups.len()
        invariant
            g <= groups@.len(),
            all == intervals_of(rows@, picked@),
            all.len() == picked@.len(),
            times@ == all,
            grouping::are_groups(all, groups@),
            forall|r: int| 0 <= r < picked@.len() ==> #[trigger] picked@[r] < rows@.len(),
            outs@.len() == g,
            forall|a: int| 0 <= a < g ==> (#[trigger] outs@[a]).delta_t == groups@[a].key,
            forall|a: int| 0 <= a < g ==> is_outcome(rows@, picked@, #[trigger] outs@[a]),
        decreases groups.len() - g,
    {
        let key: i64 = groups[g].key;
        let members: &Vec<usize> = &groups[g].rows;
        let len: usize = times.len();
        let ghost p = grouping::has_key(all, key);
        let ghost f = |i: int| rows@[picked@[i] as int].y as int;
        let ghost one = listed(members@, f);
        proof {
            assert(members@ == grouping::rows_with(all, key));
            grouping::lemma_rows_where(all.len(), p);
            lemma_sum_where(all.len(), p, f);
            assert(all.contains(key));
            let w = choose|w: int| 0 <= w < all.len() && all[w] == key;
            assert(p(w));
            counting::lemma_count_zero(all.len(), p);
            counting::lemma_sum_agree(
                all.len(),
                where_only(p, f),
                label_at(rows@, picked@, key),
            );
        }
        let mut recalled: i128 = 0;
        let mut m: usize = 0;
        while m < members.len()
            invariant
                m <= members@.len(),
                members@ == grouping::rows_where(picked@.len(), p),
                one == listed(members@, f),
                f == (|i: int| rows@[picked@[i] as int].y as int),
                forall|r: int|
                    0 <= r < members@.len() ==> #[trigger] members@[r] < picked@.len(),
                forall|r: int| 0 <= r < picked@.len() ==> #[trigger] picked@[r] < rows@.len(),
                recalled == counting::sum(m as nat, one),
            decreases members.len() - m,
        {
            let label: i64 = rows[picked[members[m]]].y;
            proof {
                assert(one(m as int) == label);
                assert forall|i: int| 0 <= i < m + 1 implies i64::MIN <= #[trigger] one(i)
                    <= i64::MAX by {};
                counting::lemma_sum_fits((m + 1) as nat, one);
            }
            recalled = recalled + label as i128;
            m = m + 1;
        }
        let out: Outcome = Outcome { delta_t: key, recalled, total: members.len() };
        assert(is_outcome(rows@, picked@, out));
        outs.push(out);
        g = g + 1;
    }
    proof {
        assert forall|j: int| 0 <= j < picked@.len() implies has_interval(
            outs@,
            rows@[#[trigger] picked@[j] as int].delta_t,
        ) by {
            assert(grouping::has_group(groups@, groups@.len(), all[j]));
            let w = choose|w: int| 0 <= w < groups@.len() && (#[trigger] groups@[w]).key == all[j];
            assert(outs@[w].delta_t == all[j]);
        }
    }
    outs
}

/// The pairs of first ratings that are held against each other, in this order.
pub open spec fn rating_pairs() -> Seq<(int, int)> {
    seq![(0, 1), (1, 2), (2, 3), (0, 2), (1, 3), (0, 3)]
}

/// Where the fit of the lower rating is above that of the higher one, the one with more reviews gives
/// its value to the other. `from[r]` is the rating whose fit rating `r` has.
pub open spec fn settled(
    fits: Seq<Option<i64>>,
    counts: Seq<usize>,
    from: Seq<usize>,
    pair: (int, int),
) -> Seq<usize> {
    let (low, high) = pair;
    match (fits[from[low] as int], fits[from[high] as int]) {
        (Some(a), Some(b)) => if a > b {
            if counts[low] > counts[high] {
                from.update(high, from[low])
            } else {
                from.update(low, from[high])
            }
        } else {
            from
        },
        _ => from,
    }
}

/// The fits after the first `k` pairs have been settled.
pub open spec fn settled_upto(fits: Seq<Option<i64>>, counts: Seq<usize>, k: nat) -> Seq<usize>
    decreases k,
{
    if k == 0 {
        seq![0usize, 1usize, 2usize, 3usize]
    } else {
        settled(
            fits,
            counts,
            settled_upto(fits, counts, (k - 1) as nat),
            rating_pairs()[k - 1],
        )
    }
}

proof fn lemma_settled_known(fits: Seq<Option<i64>>, counts: Seq<usize>, k: nat)
    requires
        fits.len() == 4,
        k <= 6,
    ensures
        settled_upto(fits, counts, k).len() == 4,
        forall|r: int|
            0 <= r < 4 ==> {
                &&& #[trigger] settled_upto(fits, counts, k)[r] < 4
                &&& fits[r] is Some <==> fits[settled_upto(fits, counts, k)[r] as int] is Some
                &&& fits[r] is None ==> settled_upto(fits, counts, k)[r] == r
            },
    decreases k,
{
    if k > 0 {
        lemma_settled_known(fits, counts, (k - 1) as nat);
        let before = settled_upto(fits, counts, (k - 1) as nat);
        let (low, high) = rating_pairs()[k - 1];
        assert(0 <= low < high < 4);
        assert(before[low] < 4 && before[high] < 4);
    }
}

/// Makes the fits of the four first ratings agree with the order of the ratings as far as the pairs
/// settle it. Returned is, for every rating, the rating whose fit it takes.
pub fn reconcile(fits: &[Option<i64>], counts: &[usize]) -> (from: Vec<usize>)
    requires
        fits@.len() == 4,
        counts@.len() == 4,
    ensures
        from@ == settled_upto(fits@, counts@, 6),
{
    let mut from: Vec<usize> = vec![0, 1, 2, 3];
    let lows: Vec<usize> = vec![0, 1, 2, 0, 1, 0];
    let highs: Vec<usize> = vec![1, 2, 3, 2, 3, 3];
    assert(from@ =~= settled_upto(fits@, counts@, 0));
    let mut k: usize = 0;
    while k < 6
        invariant
            k <= 6,
            fits@.len() == 4,
            counts@.len() == 4,
            lows@ == seq![0usize, 1, 2, 0, 1, 0],
            highs@ == seq![1usize, 2, 3, 2, 3, 3],
            from@ == settled_upto(fits@, counts@, k as nat),
        decreases 6 - k,
    {
        let low: usize = lows[k];
        let high: usize = highs[k];
        proof {
            lemma_settled_known(fits@, counts@, k as nat);
            assert(rating_pairs()[k as int] == (low as int, high as int));
            assert(from@[low as int] < 4 && from@[high as int] < 4);
        }
        let a: Option<i64> = fits[from[low]];
        let b: Option<i64> = fits[from[high]];
        if let (Some(a), Some(b)) = (a, b) {
            if a > b {
                if counts[low] > counts[high] {
                    let v: usize = from[low];
                    from.set(high, v);
                } else {
                    let v: usize = from[high];
                    from.set(low, v);
                }
            }
        }
        k = k + 1;
    }
    from
}

/// A rating with a fit keeps having one, that of some rating; one without has none.
pub proof fn lemma_reconciled_fits(fits: Seq<Option<i64>>, counts: Seq<usize>, r: int)
    requires
        fits.len() == 4,
        0 <= r < 4,
    ensures
        settled_upto(fits, counts, 6)[r] < 4,
        fits[r] is Some <==> fits[settled_upto(fits, counts, 6)[r] as int] is Some,
{
    lemma_settled_known(fits, counts, 6);
    assert(settled_upto(fits, counts, 6)[r] < 4);
}

/// Fits that agree with the order of the ratings stay as they are.
pub proof fn lemma_reconcile_keeps_ordered(fits: Seq<Option<i64>>, counts: Seq<usize>)
    requires
        fits.len() == 4,
        forall|a: int, b: int|
            0 <= a < b < 4 && #[trigger] fits[a] is Some && #[trigger] fits[b] is Some
                ==> fits[a]->0 <= fits[b]->0,
    ensures
        settled_upto(fits, counts, 6) == seq![0usize, 1usize, 2usize, 3usize],
{
    lemma_ordered_upto(fits, counts, 6);
}

proof fn lemma_ordered_upto(fits: Seq<Option<i64>>, counts: Seq<usize>, k: nat)
    requires
        fits.len() == 4,
        k <= 6,
        forall|a: int, b: int|
            0 <= a < b < 4 && #[trigger] fits[a] is Some && #[trigger] fits[b] is Some
                ==> fits[a]->0 <= fits[b]->0,
    ensures
        settled_upto(fits, counts, k) == seq![0usize, 1usize, 2usize, 3usize],
    decreases k,
{
    if k > 0 {
        lemma_ordered_upto(fits, counts, (k - 1) as nat);
        let (low, high) = rating_pairs()[k - 1];
        assert(0 <= low < high < 4);
        assert(fits[low] is Some && fits[high] is Some ==> fits[low]->0 <= fits[high]->0);
    }
}

/// Where only two ratings have fits, the lower rating's is not above the higher one's afterwards.
pub proof fn lemma_two_fits_ordered(
    fits: Seq<Option<i64>>,
    counts: Seq<usize>,
    low: int,
    high: int,
)
    requires
        fits.len() == 4,
        0 <= low < high < 4,
        forall|r: int| 0 <= r < 4 ==> (#[trigger] fits[r] is Some <==> r == low || r == high),
    ensures
        fits[settled_upto(fits, counts, 6)[low] as int]->0
            <= fits[settled_upto(fits, counts, 6)[high] as int]->0,
{
    reveal_with_fuel(settled_upto, 7);
    assert(fits[0] is Some <==> low == 0 || high == 0);
    assert(fits[1] is Some <==> low == 1 || high == 1);
    assert(fits[2] is Some <==> low == 2 || high == 2);
    assert(fits[3] is Some <==> low == 3 || high == 3);
}

/// A rating whose stability is interpolated from those of two others.
#[derive(Debug, Clone, Copy, PartialEq, Eq, Structural)]
pub struct FillStep {
    pub target: usize,
    pub low: usize,
    pub high: usize,
}

/// How the stabilities of the ratings without a fit come about.
#[derive(Debug, Clone)]
pub enum Fill {
    /// No rating has a fit: the defaults.
    Defaults,
    /// One rating has a fit: all defaults are scaled as that one's is.
    Scale(usize),
    /// One rating after the other is interpolated.
    Steps(Vec<FillStep>),
}

/// The step that fills `target` from `low` and `high`.
pub open spec fn fill_step(target: usize, low: usize, high: usize) -> FillStep {
    FillStep { target, low, high }
}

/// How many ratings have a fit.
pub open spec fn known_count(known: Seq<bool>) -> nat {
    counting::count(known.len(), |r: int| known[r])
}

/// The interpolations for the ratings that are not known; at least two are.
pub open spec fn fill_steps(known: Seq<bool>) -> Seq<FillStep> {
    if !known[0] && !known[1] {
        seq![fill_step(1, 2, 3), fill_step(0, 1, 2)]
    } else if !known[0] && !known[2] {
        seq![fill_step(2, 1, 3), fill_step(0, 1, 2)]
    } else if !known[0] && !known[3] {
        seq![fill_step(3, 1, 2), fill_step(0, 1, 2)]
    } else if !known[1] && !known[2] {
        seq![fill_step(1, 0, 3), fill_step(2, 0, 3)]
    } else if !known[1] && !known[3] {
        seq![fill_step(1, 0, 2), fill_step(3, 1, 2)]
    } else if !known[2] && !known[3] {
        seq![fill_step(2, 0, 1), fill_step(3, 1, 2)]
    } else if !known[0] {
        seq![fill_step(0, 1, 2)]
    } else if !known[1] {
        seq![fill_step(1, 0, 2)]
    } else if !known[2] {
        seq![fill_step(2, 1, 3)]
    } else if !known[3] {
        seq![fill_step(3, 1, 2)]
    } else {
        Seq::empty()
    }
}

/// How to complete the stabilities, given which ratings have a fit.
pub fn interpolate(known: &[bool]) -> (fill: Fill)
    requires
        known@.len() == 4,
    ensures
        match fill {
            Fill::Defaults => known_count(known@) == 0,
            Fill::Scale(r) => known_count(known@) == 1 && r < 4 && known@[r as int],
            Fill::Steps(steps) => known_count(known@) >= 2 && steps@ == fill_steps(known@),
        },
{
    let (a, b, c, d): (bool, bool, bool, bool) = (known[0], known[1], known[2], known[3]);
    proof {
        reveal_with_fuel(counting::count, 5);
    }
    let step = |target: usize, low: usize, high: usize| -> (s: FillStep)
        ensures
            s == fill_step(target, low, high),
        { FillStep { target, low, high } };
    let mut steps: Vec<FillStep> = Vec::new();
    if !a && !b {
        if !c && !d {
            return Fill::Defaults;
        } else if !d {
            return Fill::Scale(2);
        } else if !c {
            return Fill::Scale(3);
        }
        steps.push(step(1, 2, 3));
        steps.push(step(0, 1, 2));
    } else if !a && !c {
        if !d {
            return Fill::Scale(1);
        }
        steps.push(step(2, 1, 3));
        steps.push(step(0, 1, 2));
    } else if !a && !d {
        steps.push(step(3, 1, 2));
        steps.push(step(0, 1, 2));
    } else if !b && !c {
        if !d {
            return Fill::Scale(0);
        }
        steps.push(step(1, 0, 3));
        steps.push(step(2, 0, 3));
    } else if !b && !d {
        steps.push(step(1, 0, 2));
        steps.push(step(3, 1, 2));
    } else if !c && !d {
        steps.push(step(2, 0, 1));
        steps.push(step(3, 1, 2));
    } else if !a {
        steps.push(step(0, 1, 2));
    } else if !b {
        steps.push(step(1, 0, 2));
    } else if !c {
        steps.push(step(2, 1, 3));
    } else if !d {
        steps.push(step(3, 1, 2));
    }
    assert(steps@ =~= fill_steps(known@));
    Fill::Steps(steps)
}

/// What is known after the first `k` interpolations.
pub open spec fn known_after(known: Seq<bool>, steps: Seq<FillStep>, k: nat) -> Seq<bool>
    decreases k,
{
    if k == 0 {
        known
    } else {
        known_after(known, steps, (k - 1) as nat).update(steps[k - 1].target as int, true)
    }
}

/// Where two ratings or more have fits, every interpolation rests on ratings that are known by then
/// and is of one that is not, and in the end all four are known.
pub proof fn lemma_fill_completes(known: Seq<bool>)
    requires
        known.len() == 4,
        known_count(known) >= 2,
    ensures
        ({
            let steps = fill_steps(known);
            &&& forall|k: int|
                0 <= k < steps.len() ==> {
                    let by_then = known_after(known, steps, k as nat);
                    let s = #[trigger] steps[k];
                    &&& s.target < 4 && !by_then[s.target as int]
                    &&& s.low < s.high < 4 && by_then[s.low as int] && by_then[s.high as int]
                }
            &&& known_after(known, steps, steps.len()) =~= seq![true, true, true, true]
        }),
{
    reveal_with_fuel(counting::count, 5);
    reveal_with_fuel(known_after, 3);
}

/// Where just one pair of ratings is out of order, the rating of the pair with more reviews keeps its
/// fit and the other takes it; on equal counts the lower rating takes that of the higher one. All other
/// ratings keep theirs.
pub proof fn lemma_one_pair_settled(
    fits: Seq<Option<i64>>,
    counts: Seq<usize>,
    low: int,
    high: int,
)
    requires
        fits.len() == 4,
        counts.len() == 4,
        0 <= low < high < 4,
        fits[low] is Some && fits[high] is Some && fits[low]->0 > fits[high]->0,
        forall|a: int, b: int|
            0 <= a < b < 4 && (a, b) != (low, high) && #[trigger] fits[a] is Some
                && #[trigger] fits[b] is Some ==> fits[a]->0 <= fits[b]->0,
    ensures
        ({
            let from = settled_upto(fits, counts, 6);
            &&& counts[low] > counts[high] ==> from[low] == low && from[high] == low
            &&& counts[low] <= counts[high] ==> from[low] == high && from[high] == high
            &&& forall|r: int| 0 <= r < 4 && r != low && r != high ==> #[trigger] from[r] == r
        }),
{
    reveal_with_fuel(settled_upto, 7);
    assert(fits[0] is Some || fits[0] is None);
    assert(fits[1] is Some || fits[1] is None);
    assert(fits[2] is Some || fits[2] is None);
    assert(fits[3] is Some || fits[3] is None);
}

/// With two fits out of order, the rating with more reviews keeps its own and the other takes it; on
/// equal counts the lower rating takes that of the higher one.
pub proof fn lemma_two_fits_settled(
    fits: Seq<Option<i64>>,
    counts: Seq<usize>,
    low: int,
    high: int,
)
    requires
        fits.len() == 4,
        counts.len() == 4,
        0 <= low < high < 4,
        forall|r: int| 0 <= r < 4 ==> (#[trigger] fits[r] is Some <==> r == low || r == high),
        fits[low]->0 > fits[high]->0,
    ensures
        ({
            let from = settled_upto(fits, counts, 6);
            &&& counts[low] > counts[high] ==> from[low] == low && from[high] == low
            &&& counts[low] <= counts[high] ==> from[low] == high && from[high] == high
        }),
{
    lemma_one_pair_settled(fits, counts, low, high);
}

/// No rating takes a fit that rests on fewer reviews than its own.
pub proof fn lemma_more_reviews_win(fits: Seq<Option<i64>>, counts: Seq<usize>, r: int)
    requires
        fits.len() == 4,
        counts.len() == 4,
        0 <= r < 4,
    ensures
        settled_upto(fits, counts, 6)[r] < 4,
        counts[settled_upto(fits, counts, 6)[r] as int] >= counts[r],
{
    lemma_more_reviews_upto(fits, counts, 6, r);
}

proof fn lemma_more_reviews_upto(fits: Seq<Option<i64>>, counts: Seq<usize>, k: nat, r: int)
    requires
        fits.len() == 4,
        counts.len() == 4,
        k <= 6,
        0 <= r < 4,
    ensures
        settled_upto(fits, counts, k)[r] < 4,
        counts[settled_upto(fits, counts, k)[r] as int] >= counts[r],
    decreases k,
{
    lemma_settled_known(fits, counts, k);
    assert(settled_upto(fits, counts, k)[r] < 4);
    if k > 0 {
        let (low, high) = rating_pairs()[k - 1];
        lemma_settled_known(fits, counts, (k - 1) as nat);
        lemma_more_reviews_upto(fits, counts, (k - 1) as nat, low);
        lemma_more_reviews_upto(fits, counts, (k - 1) as nat, high);
        lemma_more_reviews_upto(fits, counts, (k - 1) as nat, r);
    }
}

/// A rating with more reviews than any other that has a fit keeps its own.
pub proof fn lemma_most_reviews_kept(fits: Seq<Option<i64>>, counts: Seq<usize>, m: int)
    requires
        fits.len() == 4,
        counts.len() == 4,
        0 <= m < 4,
        forall|r: int|
            0 <= r < 4 && r != m && #[trigger] fits[r] is Some ==> counts[r] < counts[m],
    ensures
        settled_upto(fits, counts, 6)[m] == m,
{
    lemma_settled_known(fits, counts, 6);
    lemma_more_reviews_upto(fits, counts, 6, m);
    let s = settled_upto(fits, counts, 6)[m] as int;
    assert(fits[m] is None ==> s == m);
    if s != m {
        assert(fits[s] is Some);
    }
}

/// Again and Easy are held against each other last, so that they are in order in the end.
pub proof fn lemma_ends_in_order(fits: Seq<Option<i64>>, counts: Seq<usize>)
    requires
        fits.len() == 4,
        counts.len() == 4,
        fits[0] is Some,
        fits[3] is Some,
    ensures
        fits[settled_upto(fits, counts, 6)[0] as int]->0 <= fits[settled_upto(
            fits,
            counts,
            6,
        )[3] as int]->0,
{
    lemma_settled_known(fits, counts, 5);
    let before = settled_upto(fits, counts, 5);
    assert(before[0] < 4 && before[3] < 4);
    assert(rating_pairs()[5] == (0int, 3int));
}

/// Where three fits are all out of order, neighbours are settled first: the middle rating takes the
/// fit of the lower one, or gives its own to it, before it meets the higher one.
pub proof fn lemma_neighbours_first(fits: Seq<Option<i64>>, counts: Seq<usize>, low: int)
    requires
        fits.len() == 4,
        counts.len() == 4,
        0 <= low < 2,
        forall|r: int| 0 <= r < 4 ==> (#[trigger] fits[r] is Some <==> low <= r <= low + 2),
        fits[low]->0 > fits[low + 1]->0 > fits[low + 2]->0,
        counts[low + 1] > counts[low + 2],
    ensures
        ({
            let from = settled_upto(fits, counts, 6);
            let all = if counts[low] > counts[low + 1] {
                low
            } else {
                low + 1
            };
            from[low] == all && from[low + 1] == all && from[low + 2] == all
        }),
{
    reveal_with_fuel(settled_upto, 7);
    assert(fits[0] is Some <==> low == 0);
    assert(fits[1] is Some && fits[2] is Some);
    assert(fits[3] is Some <==> low == 1);
}

/// A missing rating at either end is filled from the two in the middle; one in the middle from its
/// neighbours, where they have a fit, and from the nearest ratings that have one where they have none.
pub proof fn lemma_fill_sources(known: Seq<bool>)
    requires
        known.len() == 4,
        counting::count(4, |r: int| known[r]) >= 2,
    ensures
        forall|k: int|
            0 <= k < fill_steps(known).len() ==> {
                let s = #[trigger] fill_steps(known)[k];
                &&& !known[s.target as int]
                &&& s.target == 0 || s.target == 3 ==> s.low == 1 && s.high == 2
                &&& s.target == 1 ==> s.low == (if known[0] {
                    0
                } else {
                    2int
                }) && s.high == (if known[2] && known[0] {
                    2
                } else {
                    3int
                })
                &&& s.target == 2 ==> s.high == (if known[3] {
                    3
                } else {
                    1int
                }) && s.low == (if known[1] && known[3] {
                    1
                } else {
                    0int
                })
            },
        forall|r: int|
            0 <= r < 4 && !#[trigger] known[r] ==> exists|k: int|
                0 <= k < fill_steps(known).len() && (#[trigger] fill_steps(known)[k]).target == r,
        forall|a: int, b: int|
            0 <= a < b < fill_steps(known).len() ==> (#[trigger] fill_steps(known)[a]).target != (
            #[trigger] fill_steps(known)[b]).target,
{
    reveal_with_fuel(counting::count, 5);
    let steps = fill_steps(known);
    assert forall|r: int| 0 <= r < 4 && !#[trigger] known[r] implies exists|k: int|
        0 <= k < steps.len() && (#[trigger] steps[k]).target == r by {
        if steps.len() > 0 && steps[0].target == r {
            assert(steps[0].target == r);
        } else {
            assert(steps.len() > 1 && steps[1].target == r);
        }
    }
}

/// One known rating is the one that the others are scaled by.
pub proof fn lemma_single_known(known: Seq<bool>, r: int)
    requires
        known.len() == 4,
        0 <= r < 4,
    ensures
        known[r] && known_count(known) == 1 ==> forall|q: int|
            0 <= q < 4 && q != r ==> !#[trigger] known[q],
        known_count(known) == 0 <==> forall|q: int| 0 <= q < 4 ==> !#[trigger] known[q],
        known_count(known) == counting::count(4, |q: int| known[q]),
{
    reveal_with_fuel(counting::count, 5);
}

/// The outcomes of a first rating, by ascending interval. Those of an interval tell how many rows have
/// it, of the second reviews on another day of cards first rated so, and the sum of their labels; every
/// such row is among them.
pub proof fn lemma_outcomes(rows: Seq<Row>, rating: i64, outs: Seq<Outcome>, g: int)
    requires
        rows.len() <= usize::MAX,
        are_outcomes(rows, seconds(rows, rating), outs),
        0 <= g < outs.len(),
    ensures
        ({
            let d = outs[g].delta_t;
            &&& outs[g].total == counting::count(
                rows.len(),
                |k: int| rows[k].i == 2 && rows[k].first_rating == rating && rows[k].delta_t == d,
            )
            &&& outs[g].total > 0
            &&& outs[g].recalled == counting::sum(
                rows.len(),
                |k: int|
                    if rows[k].i == 2 && rows[k].first_rating == rating && rows[k].delta_t == d {
                        rows[k].y as int
                    } else {
                        0
                    },
            )
        }),
        forall|h: int| 0 <= h < g ==> (#[trigger] outs[h]).delta_t < outs[g].delta_t,
        forall|k: int|
            0 <= k < rows.len() && (#[trigger] rows[k]).i == 2 && rows[k].first_rating == rating
                ==> has_interval(outs, rows[k].delta_t),
{
    let p = second_of(rows, rating);
    let picked = seconds(rows, rating);
    let d = outs[g].delta_t;
    grouping::lemma_rows_where(rows.len(), p);
    assert(is_outcome(rows, picked, outs[g]));
    let has = grouping::has_key(intervals_of(rows, picked), d);
    let one = |k: int|
        if rows[k].delta_t == d {
            1int
        } else {
            0int
        };
    let label = |k: int|
        if rows[k].delta_t == d {
            rows[k].y as int
        } else {
            0int
        };
    lemma_sum_where(rows.len(), p, one);
    lemma_sum_where(rows.len(), p, label);
    let all = |k: int| rows[k].i == 2 && rows[k].first_rating == rating && rows[k].delta_t == d;
    let has_one = |j: int|
        if has(j) {
            1int
        } else {
            0int
        };
    let all_one = |k: int|
        if all(k) {
            1int
        } else {
            0int
        };
    counting::lemma_sum_count(picked.len(), has);
    counting::lemma_sum_count(rows.len(), all);
    counting::lemma_sum_agree(picked.len(), has_one, listed(picked, one));
    counting::lemma_sum_agree(rows.len(), all_one, where_only(p, one));
    counting::lemma_sum_agree(
        picked.len(),
        label_at(rows, picked, d),
        listed(picked, label),
    );
    counting::lemma_sum_agree(
        rows.len(),
        |k: int|
            if rows[k].i == 2 && rows[k].first_rating == rating && rows[k].delta_t == d {
                rows[k].y as int
            } else {
                0
            },
        where_only(p, label),
    );
    assert forall|k: int|
        0 <= k < rows.len() && (#[trigger] rows[k]).i == 2 && rows[k].first_rating
            == rating implies has_interval(outs, rows[k].delta_t) by {
        assert(p(k));
        assert(grouping::rows_where(rows.len(), p).contains(k as usize));
        let j = choose|j: int| 0 <= j < picked.len() && picked[j] == k;
        assert(has_interval(outs, rows[picked[j] as int].delta_t));
    }
}

/// An interval has an outcome exactly if one of the outcomes is of it.
pub proof fn lemma_has_interval(outs: Seq<Outcome>, d: i64)
    ensures
        has_interval(outs, d) <==> exists|g: int|
            0 <= g < outs.len() && (#[trigger] outs[g]).delta_t == d,
{
}

/// Ratings are held against each other in pairs, neighbours first. A pair that is out of order is
/// settled by which of the two ratings has more reviews, whosever fits they have by then; a pair that is
/// in order, or has a rating without a fit, is left alone.
pub proof fn lemma_pairs_settled(fits: Seq<Option<i64>>, counts: Seq<usize>, k: nat, r: int)
    requires
        fits.len() == 4,
        counts.len() == 4,
        k < 6,
        0 <= r < 4,
    ensures
        settled_upto(fits, counts, 0)[r] == r,
        ({
            let pairs = seq![(0int, 1int), (1, 2), (2, 3), (0, 2), (1, 3), (0, 3)];
            let (low, high) = pairs[k as int];
            let from = settled_upto(fits, counts, k);
            let after = settled_upto(fits, counts, k + 1);
            let (a, b) = (fits[from[low] as int], fits[from[high] as int]);
            let falls = a is Some && b is Some && a->0 > b->0;
            &&& r == low && falls && counts[low] <= counts[high] ==> after[r] == from[high]
            &&& r == high && falls && counts[low] > counts[high] ==> after[r] == from[low]
            &&& r == low && !(falls && counts[low] <= counts[high]) ==> after[r] == from[r]
            &&& r == high && !(falls && counts[low] > counts[high]) ==> after[r] == from[r]
            &&& r != low && r != high ==> after[r] == from[r]
        }),
{
    lemma_settled_known(fits, counts, k);
}

} // verus!
