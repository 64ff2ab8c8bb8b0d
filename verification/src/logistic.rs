//! The features of logistic regression: what a review's history on its card says of it.
//!
//! A feature is given as a term that stands for its value: a flag, the logarithm of one more than a
//! count, or the transform of a time. The first ten columns are to be multiplied by the transform of
//! the interval in front of the review.

use crate::counting;
use crate::features;
use crate::features::Dataset;
use crate::features::Row;
use vstd::prelude::*;

verus! {

/// The value of a feature.
#[derive(Debug, Clone, Copy, PartialEq, Eq, Structural)]
pub enum Term {
    /// One or zero.
    Flag(bool),
    /// The logarithm of one more than the count.
    Log1p(usize),
    /// The transform of the time, which is in the unit of the dataset's intervals.
    Elapsed(i128),
}

/// What the rows of a card, up to one of them and with it, add up to. What a row contributes is the
/// review before it: how it was rated, and how long after its own predecessor it came.
#[derive(Debug, Clone, Copy)]
pub struct History {
    pub same_day_fails: usize,
    pub spaced_fails: usize,
    pub same_day_passes: usize,
    pub spaced_passes: usize,
    /// Passes, that before the first row with them.
    pub passes: usize,
    pub same_days: usize,
    pub spaced_days: usize,
    /// Sum of the intervals in front of the earlier rows.
    pub times: i128,
    /// The largest value that `times` had at a row that is the card's first or follows no pass.
    pub lapse_times: i128,
    /// The card's first row and the last one so far, as indices of rows.
    pub ends: Option<(usize, usize)>,
}

/// The columns of one row.
pub const COLUMNS: usize = 34;

/// The columns that are multiplied by the transform of the interval in front of the review.
pub const SCALED_COLUMNS: usize = 10;

/// The rows of card `c`.
pub open spec fn in_card(ds: Dataset, c: u32) -> spec_fn(int) -> bool {
    |j: int| ds.rows@[j].card_idx == c
}

/// The row before row `j` on the same card.
pub open spec fn row_before(ds: Dataset, j: int) -> Option<int> {
    counting::last_where(j as nat, in_card(ds, ds.rows@[j].card_idx))
}

/// How the review before row `j` was rated; zero where there is none.
pub open spec fn rating_before(ds: Dataset, j: int) -> i64 {
    let row = ds.rows@[j];
    if row.pos > 0 {
        ds.cards@[row.card_idx as int].ratings@[row.pos - 1]
    } else {
        0
    }
}

/// The interval in front of the row before row `j`; zero where there is none.
pub open spec fn elapsed_before(ds: Dataset, j: int) -> int {
    match row_before(ds, j) {
        Some(p) => ds.rows@[p].delta_t as int,
        None => 0,
    }
}

/// Whether the row before row `j` came on the day of its own predecessor; so where there is none.
pub open spec fn same_day_before(ds: Dataset, j: int) -> bool {
    match row_before(ds, j) {
        Some(p) => ds.rows@[p].elapsed_days <= 0,
        None => true,
    }
}

/// Row `j` belongs to card `c`, is not its first, and the review before it was failed, or passed, on
/// the same day, or on a later one.
pub open spec fn reviewed(ds: Dataset, c: u32, passed: bool, same_day: bool) -> spec_fn(
    int,
) -> bool {
    |j: int|
        {
            &&& in_card(ds, c)(j)
            &&& row_before(ds, j) is Some
            &&& same_day_before(ds, j) == same_day
            &&& if passed {
                rating_before(ds, j) > 1
            } else {
                rating_before(ds, j) == 1
            }
        }
}

/// Row `j` belongs to card `c`, and the review before it was passed.
pub open spec fn passed_before(ds: Dataset, c: u32) -> spec_fn(int) -> bool {
    |j: int| in_card(ds, c)(j) && rating_before(ds, j) > 1
}

/// Row `j` belongs to card `c`, and the row before it came on the day of its own predecessor, or not.
pub open spec fn day_before(ds: Dataset, c: u32, same_day: bool) -> spec_fn(int) -> bool {
    |j: int| in_card(ds, c)(j) && same_day_before(ds, j) == same_day
}

/// What row `j` adds to the times of card `c`.
pub open spec fn time_of(ds: Dataset, c: u32) -> spec_fn(int) -> int {
    |j: int|
        if in_card(ds, c)(j) {
            elapsed_before(ds, j)
        } else {
            0
        }
}

/// Row `j` is the first of its card, or the review before it was not passed.
pub open spec fn follows_lapse(ds: Dataset, j: int) -> bool {
    row_before(ds, j) is None || rating_before(ds, j) <= 1
}

/// The rows of card `c` that are its first or follow a lapse.
pub open spec fn lapses(ds: Dataset, c: u32) -> spec_fn(int) -> bool {
    |j: int| in_card(ds, c)(j) && follows_lapse(ds, j)
}

/// The largest sum of times at one of the first `n` rows of card `c` that follows a lapse, or zero at
/// one that does not.
pub open spec fn peak(ds: Dataset, c: u32, n: nat) -> Option<int>
    decreases n,
{
    if n == 0 {
        None
    } else if !in_card(ds, c)(n - 1) {
        peak(ds, c, (n - 1) as nat)
    } else {
        let here = if follows_lapse(ds, n - 1) {
            counting::sum(n, time_of(ds, c))
        } else {
            0
        };
        match peak(ds, c, (n - 1) as nat) {
            Some(p) if p >= here => Some(p),
            _ => Some(here),
        }
    }
}

/// `h` is what the first `n` rows say of card `c`.
pub open spec fn is_history(ds: Dataset, c: u32, n: nat, h: History) -> bool {
    &&& h.same_day_fails == counting::count(n, reviewed(ds, c, false, true))
    &&& h.spaced_fails == counting::count(n, reviewed(ds, c, false, false))
    &&& h.same_day_passes == counting::count(n, reviewed(ds, c, true, true))
    &&& h.spaced_passes == counting::count(n, reviewed(ds, c, true, false))
    &&& h.passes == counting::count(n, passed_before(ds, c))
    &&& h.same_days == counting::count(n, day_before(ds, c, true))
    &&& h.spaced_days == counting::count(n, day_before(ds, c, false))
    &&& h.times == counting::sum(n, time_of(ds, c))
    &&& match (
        counting::first_where(n, in_card(ds, c)),
        counting::last_where(n, in_card(ds, c)),
    ) {
        (Some(f), Some(l)) => h.ends == Some((f as usize, l as usize)),
        _ => h.ends is None,
    }
    &&& match peak(ds, c, n) {
        Some(p) => h.lapse_times == p,
        None => h.lapse_times == 0,
    }
}

/// Whether a rating falls into class `k` of the passing ratings: Hard, Good, Easy.
pub open spec fn in_class(rating: i64, k: int) -> bool {
    rating > 1 && k == (if rating - 2 > 2 {
        2
    } else {
        rating - 2
    })
}

fn is_class(rating: i64, k: i64) -> (r: bool)
    ensures
        r == in_class(rating, k as int),
{
    if rating <= 1 {
        false
    } else if rating > 4 {
        k == 2
    } else {
        k == rating - 2
    }
}

/// A count that only matters under a condition.
pub open spec fn count_if(condition: bool, n: usize) -> Term {
    Term::Log1p(
        if condition {
            n
        } else {
            0
        },
    )
}

fn counted(condition: bool, n: usize) -> (r: Term)
    ensures
        r == count_if(condition, n),
{
    if condition {
        Term::Log1p(n)
    } else {
        Term::Log1p(0)
    }
}

/// The terms of a row. `rating` and `first` are the ratings before the row and before the first row
/// of its card, `opens` whether it is that first row, `elapsed` the interval in front of the row
/// before, `same_day` whether the review comes on the day of the one before, and `h` what the rows of
/// the card up to this one add up to.
pub open spec fn terms(
    rating: i64,
    first: i64,
    opens: bool,
    elapsed: int,
    same_day: bool,
    h: History,
) -> Seq<Term> {
    seq![
        Term::Flag(true),
        Term::Flag(in_class(rating, 0)),
        Term::Flag(in_class(rating, 1)),
        Term::Flag(in_class(rating, 2)),
        Term::Flag(rating == 2 && opens),
        Term::Flag(rating > 2 && opens),
        Term::Log1p(h.same_day_fails),
        count_if(!same_day, h.spaced_passes),
        count_if(!same_day, h.spaced_fails),
        Term::Log1p(h.same_day_passes),
        Term::Flag(true),
        Term::Flag(in_class(rating, 0)),
        Term::Flag(in_class(rating, 1)),
        Term::Flag(in_class(rating, 2)),
        Term::Flag(in_class(first, 0)),
        Term::Flag(in_class(first, 1)),
        Term::Flag(in_class(first, 2)),
        Term::Flag(in_class(first, 0) && opens),
        Term::Flag(in_class(first, 1) && opens),
        Term::Flag(in_class(first, 2) && opens),
        Term::Log1p(h.same_day_fails),
        count_if(!same_day, h.spaced_passes),
        Term::Elapsed(elapsed as i128),
        Term::Log1p(h.spaced_fails),
        Term::Log1p(h.spaced_passes),
        count_if(same_day, h.same_day_passes),
        Term::Flag(h.passes > 0),
        Term::Elapsed((h.times - h.lapse_times) as i128),
        Term::Flag(same_day),
        Term::Elapsed(h.times),
        count_if(first > 1, h.same_day_fails),
        count_if(first > 1, h.spaced_fails),
        count_if(first > 1, h.same_days),
        count_if(first > 1, h.spaced_days),
    ]
}

/// `t` are the terms of row `j`.
pub open spec fn is_terms(ds: Dataset, j: int, t: Seq<Term>) -> bool {
    let row = ds.rows@[j];
    let n = (j + 1) as nat;
    exists|h: History|
        #![trigger is_history(ds, row.card_idx, n, h)]
        {
            &&& is_history(ds, row.card_idx, n, h)
            &&& t == terms(
                rating_before(ds, j),
                rating_before(ds, counting::first_where(n, in_card(ds, row.card_idx))->0),
                row_before(ds, j) is None,
                elapsed_before(ds, j),
                row.elapsed_days <= 0,
                h,
            )
        }
}

/// The intervals of the rows are not negative.
pub open spec fn forward(ds: Dataset) -> bool {
    forall|j: int| 0 <= j < ds.rows@.len() ==> (#[trigger] ds.rows@[j]).delta_t >= 0
}

fn make_terms(
    rating: i64,
    first: i64,
    opens: bool,
    elapsed: i128,
    same_day: bool,
    h: &History,
) -> (t: Vec<Term>)
    requires
        0 <= h.lapse_times <= h.times,
    ensures
        t@ == terms(rating, first, opens, elapsed as int, same_day, *h),
{
    let mut t: Vec<Term> = Vec::with_capacity(COLUMNS);
    t.push(Term::Flag(true));
    t.push(Term::Flag(is_class(rating, 0)));
    t.push(Term::Flag(is_class(rating, 1)));
    t.push(Term::Flag(is_class(rating, 2)));
    t.push(Term::Flag(rating == 2 && opens));
    t.push(Term::Flag(rating > 2 && opens));
    t.push(Term::Log1p(h.same_day_fails));
    t.push(counted(!same_day, h.spaced_passes));
    t.push(counted(!same_day, h.spaced_fails));
    t.push(Term::Log1p(h.same_day_passes));
    t.push(Term::Flag(true));
    t.push(Term::Flag(is_class(rating, 0)));
    t.push(Term::Flag(is_class(rating, 1)));
    t.push(Term::Flag(is_class(rating, 2)));
    t.push(Term::Flag(is_class(first, 0)));
    t.push(Term::Flag(is_class(first, 1)));
    t.push(Term::Flag(is_class(first, 2)));
    t.push(Term::Flag(is_class(first, 0) && opens));
    t.push(Term::Flag(is_class(first, 1) && opens));
    t.push(Term::Flag(is_class(first, 2) && opens));
    t.push(Term::Log1p(h.same_day_fails));
    t.push(counted(!same_day, h.spaced_passes));
    t.push(Term::Elapsed(elapsed));
    t.push(Term::Log1p(h.spaced_fails));
    t.push(Term::Log1p(h.spaced_passes));
    t.push(counted(same_day, h.same_day_passes));
    t.push(Term::Flag(h.passes > 0));
    t.push(Term::Elapsed(h.times - h.lapse_times));
    t.push(Term::Flag(same_day));
    t.push(Term::Elapsed(h.times));
    t.push(counted(first > 1, h.same_day_fails));
    t.push(counted(first > 1, h.spaced_fails));
    t.push(counted(first > 1, h.same_days));
    t.push(counted(first > 1, h.spaced_days));
    assert(t@ =~= terms(rating, first, opens, elapsed as int, same_day, *h));
    t
}

/// Rows of other cards leave a card's history alone.
proof fn lemma_other_card(ds: Dataset, c: u32, n: nat, h: History)
    requires
        is_history(ds, c, n, h),
        !in_card(ds, c)(n as int),
    ensures
        is_history(ds, c, n + 1, h),
{
    assert(!reviewed(ds, c, false, true)(n as int));
    assert(!reviewed(ds, c, false, false)(n as int));
    assert(!reviewed(ds, c, true, true)(n as int));
    assert(!reviewed(ds, c, true, false)(n as int));
    assert(!passed_before(ds, c)(n as int));
    assert(!day_before(ds, c, true)(n as int));
    assert(!day_before(ds, c, false)(n as int));
}

/// Where the intervals are not negative, the times of a card grow, and the peak lies below them.
proof fn lemma_peak(ds: Dataset, c: u32, n: nat)
    requires
        forward(ds),
        n <= ds.rows@.len(),
    ensures
        0 <= counting::sum(n, time_of(ds, c)) <= n * i64::MAX,
        peak(ds, c, n) matches Some(p) ==> 0 <= p <= counting::sum(n, time_of(ds, c)),
        peak(ds, c, n) is None <==> counting::last_where(n, in_card(ds, c)) is None,
    decreases n,
{
    if n > 0 {
        lemma_peak(ds, c, (n - 1) as nat);
        counting::lemma_last_where((n - 1) as nat, in_card(ds, ds.rows@[n - 1].card_idx));
        assert(0 <= time_of(ds, c)(n - 1) <= i64::MAX);
        assert(n * i64::MAX == (n - 1) * i64::MAX + i64::MAX) by (nonlinear_arith);
    } else {
        assert(0 * i64::MAX == 0);
    }
}

fn new_history() -> (h: History)
    ensures
        forall|ds: Dataset, c: u32| #[trigger] is_history(ds, c, 0, h),
{
    History {
        same_day_fails: 0,
        spaced_fails: 0,
        same_day_passes: 0,
        spaced_passes: 0,
        passes: 0,
        same_days: 0,
        spaced_days: 0,
        times: 0,
        lapse_times: 0,
        ends: None,
    }
}

/// The history of row `n`'s card, with that row.
fn extend(ds: &Dataset, n: usize, h: &History, rating: i64, elapsed: i64, same_day: bool) -> (r:
    History)
    requires
        n < ds.rows@.len(),
        forward(*ds),
        is_history(*ds, ds.rows@[n as int].card_idx, n as nat, *h),
        rating == rating_before(*ds, n as int),
        elapsed == elapsed_before(*ds, n as int),
        same_day == same_day_before(*ds, n as int),
    ensures
        is_history(*ds, ds.rows@[n as int].card_idx, (n + 1) as nat, r),
        0 <= r.lapse_times <= r.times,
{
    let ghost c = ds.rows@[n as int].card_idx;
    let len: usize = ds.rows.len();
    assert(n < len);
    let opens: bool = h.ends.is_none();
    let passed: bool = rating > 1;
    let failed: bool = rating == 1;
    proof {
        let m = n as nat;
        counting::lemma_last_where(m, in_card(*ds, c));
        counting::lemma_first_where(m, in_card(*ds, c));
        assert(opens == (row_before(*ds, n as int) is None));
        counting::lemma_count_bound(m, reviewed(*ds, c, false, true));
        counting::lemma_count_bound(m, reviewed(*ds, c, false, false));
        counting::lemma_count_bound(m, reviewed(*ds, c, true, true));
        counting::lemma_count_bound(m, reviewed(*ds, c, true, false));
        counting::lemma_count_bound(m, passed_before(*ds, c));
        counting::lemma_count_bound(m, day_before(*ds, c, true));
        counting::lemma_count_bound(m, day_before(*ds, c, false));
        lemma_peak(*ds, c, m);
        lemma_peak(*ds, c, m + 1);
        assert((m + 1) * i64::MAX <= 0x1_0000_0000_0000_0000 * i64::MAX) by (nonlinear_arith)
            requires
                m + 1 <= 0x1_0000_0000_0000_0000,
        ;
        let k = n as int;
        assert(in_card(*ds, c)(k));
        assert(time_of(*ds, c)(k) == elapsed);
        assert(reviewed(*ds, c, false, true)(k) == (!opens && same_day && failed));
        assert(reviewed(*ds, c, false, false)(k) == (!opens && !same_day && failed));
        assert(reviewed(*ds, c, true, true)(k) == (!opens && same_day && passed));
        assert(reviewed(*ds, c, true, false)(k) == (!opens && !same_day && passed));
        assert(passed_before(*ds, c)(k) == passed);
        assert(day_before(*ds, c, true)(k) == same_day);
        assert(day_before(*ds, c, false)(k) == !same_day);
    }
    let mut r: History = *h;
    if !opens && same_day && failed {
        r.same_day_fails = r.same_day_fails + 1;
    }
    if !opens && !same_day && failed {
        r.spaced_fails = r.spaced_fails + 1;
    }
    if !opens && same_day && passed {
        r.same_day_passes = r.same_day_passes + 1;
    }
    if !opens && !same_day && passed {
        r.spaced_passes = r.spaced_passes + 1;
    }
    if passed {
        r.passes = r.passes + 1;
    }
    if same_day {
        r.same_days = r.same_days + 1;
    } else {
        r.spaced_days = r.spaced_days + 1;
    }
    r.times = r.times + elapsed as i128;
    let here: i128 = if opens || !passed {
        r.times
    } else {
        0
    };
    if opens || here > r.lapse_times {
        r.lapse_times = here;
    }
    r.ends = match h.ends {
        Some((f, _)) => Some((f, n)),
        None => Some((n, n)),
    };
    r
}

/// The terms of every row: what its card's rows up to it say of it.
pub fn compute_features(ds: &Dataset) -> (out: Vec<Vec<Term>>)
    requires
        forall|j: int| 0 <= j < ds.rows@.len() ==> features::refers(*ds, #[trigger] ds.rows@[j]),
        forward(*ds),
    ensures
        out@.len() == ds.rows@.len(),
        forall|j: int| 0 <= j < out@.len() ==> is_terms(*ds, j, (#[trigger] out@[j])@),
{
    let n_cards: usize = ds.cards.len();
    let mut histories: Vec<History> = Vec::with_capacity(n_cards);
    let mut k: usize = 0;
    while k < n_cards
        invariant
            k <= n_cards,
            histories@.len() == k,
            forall|c: u32| 0 <= c < k ==> is_history(*ds, c, 0, #[trigger] histories@[c as int]),
        decreases n_cards - k,
    {
        let h: History = new_history();
        histories.push(h);
        k = k + 1;
    }
    let n: usize = ds.rows.len();
    let mut out: Vec<Vec<Term>> = Vec::with_capacity(n);
    let mut i: usize = 0;
    while i < n
        invariant
            i <= n,
            n == ds.rows@.len(),
            forall|j: int|
                0 <= j < ds.rows@.len() ==> features::refers(*ds, #[trigger] ds.rows@[j]),
            forward(*ds),
            n_cards == ds.cards@.len(),
            histories@.len() == n_cards,
            forall|c: u32|
                0 <= c < n_cards ==> is_history(*ds, c, i as nat, #[trigger] histories@[c as int]),
            out@.len() == i,
            forall|j: int| 0 <= j < i ==> is_terms(*ds, j, (#[trigger] out@[j])@),
        decreases n - i,
    {
        let row: Row = ds.rows[i];
        let c: usize = row.card_idx as usize;
        assert(features::refers(*ds, ds.rows@[i as int]));
        assert(c < n_cards);
        let rating: i64 = rating_in_front(ds, &row);
        let before: History = histories[c];
        assert(is_history(*ds, row.card_idx, i as nat, histories@[row.card_idx as int]));
        proof {
            counting::lemma_last_where(i as nat, in_card(*ds, row.card_idx));
            counting::lemma_first_where(i as nat, in_card(*ds, row.card_idx));
            counting::lemma_first_where((i + 1) as nat, in_card(*ds, row.card_idx));
            assert(in_card(*ds, row.card_idx)(i as int));
        }
        let (first, elapsed, same_day): (i64, i64, bool) = match before.ends {
            Some((f, l)) => {
                assert(features::refers(*ds, ds.rows@[f as int]));
                let first_row: Row = ds.rows[f];
                (
                    rating_in_front(ds, &first_row),
                    ds.rows[l].delta_t,
                    ds.rows[l].elapsed_days <= 0,
                )
            },
            None => (rating, 0, true),
        };
        let h: History = extend(ds, i, &before, rating, elapsed, same_day);
        let t: Vec<Term> = make_terms(
            rating,
            first,
            before.ends.is_none(),
            elapsed as i128,
            row.elapsed_days <= 0,
            &h,
        );
        let ghost was = histories@;
        histories.set(c, h);
        proof {
            assert(is_history(*ds, row.card_idx, (i + 1) as nat, h));
            assert(is_terms(*ds, i as int, t@));
            assert forall|d: u32| 0 <= d < n_cards implies is_history(
                *ds,
                d,
                (i + 1) as nat,
                #[trigger] histories@[d as int],
            ) by {
                if d != row.card_idx {
                    assert(is_history(*ds, d, i as nat, was[d as int]));
                    lemma_other_card(*ds, d, i as nat, was[d as int]);
                }
            }
        }
        out.push(t);
        i = i + 1;
    }
    out
}

fn rating_in_front(ds: &Dataset, row: &Row) -> (r: i64)
    requires
        features::refers(*ds, *row),
    ensures
        r == (if row.pos > 0 {
            ds.cards@[row.card_idx as int].ratings@[row.pos - 1]
        } else {
            0
        }),
{
    if row.pos > 0 {
        ds.cards[row.card_idx as usize].ratings[row.pos as usize - 1]
    } else {
        0
    }
}

/// Every row of a card after its first counts once: as a pass or a fail of the same day or of a later
/// one, the ratings being those of buttons.
pub proof fn lemma_reviews_counted_once(ds: Dataset, c: u32, n: nat, h: History)
    requires
        is_history(ds, c, n, h),
        forall|j: int|
            0 <= j < n && in_card(ds, c)(j) && row_before(ds, j) is Some ==> #[trigger] rating_before(
                ds,
                j,
            ) >= 1,
    ensures
        h.same_day_fails + h.spaced_fails + h.same_day_passes + h.spaced_passes == counting::count(
            n,
            |j: int| in_card(ds, c)(j) && row_before(ds, j) is Some,
        ),
        h.same_days + h.spaced_days == counting::count(n, in_card(ds, c)),
{
    lemma_partitioned(ds, c, n);
}

proof fn lemma_partitioned(ds: Dataset, c: u32, n: nat)
    requires
        forall|j: int|
            0 <= j < n && in_card(ds, c)(j) && row_before(ds, j) is Some ==> #[trigger] rating_before(
                ds,
                j,
            ) >= 1,
    ensures
        counting::count(n, reviewed(ds, c, false, true)) + counting::count(
            n,
            reviewed(ds, c, false, false),
        ) + counting::count(n, reviewed(ds, c, true, true)) + counting::count(
            n,
            reviewed(ds, c, true, false),
        ) == counting::count(n, |j: int| in_card(ds, c)(j) && row_before(ds, j) is Some),
        counting::count(n, day_before(ds, c, true)) + counting::count(
            n,
            day_before(ds, c, false),
        ) == counting::count(n, in_card(ds, c)),
    decreases n,
{
    if n > 0 {
        lemma_partitioned(ds, c, (n - 1) as nat);
        let j = n - 1;
        assert(rating_before(ds, j) >= 1 || rating_before(ds, j) < 1);
        assert(reviewed(ds, c, false, true)(j) == (in_card(ds, c)(j) && row_before(ds, j) is Some
            && same_day_before(ds, j) && rating_before(ds, j) == 1));
    }
}

/// Where the intervals are not negative, the time since the last lapse is the time that has passed
/// since the last row that is the first of its card or follows no pass.
pub proof fn lemma_time_since_lapse(ds: Dataset, c: u32, n: nat, h: History)
    requires
        forward(ds),
        n <= ds.rows@.len(),
        is_history(ds, c, n, h),
        h.ends is Some,
    ensures
        counting::last_where(n, lapses(ds, c)) is Some,
        h.times - h.lapse_times == counting::sum(n, time_of(ds, c)) - counting::sum(
            (counting::last_where(n, lapses(ds, c))->0
                + 1) as nat,
            time_of(ds, c),
        ),
{
    lemma_peak(ds, c, n);
    counting::lemma_first_where(n, in_card(ds, c));
    counting::lemma_last_where(n, in_card(ds, c));
    lemma_peak_is_last(ds, c, n);
}

proof fn lemma_peak_is_last(ds: Dataset, c: u32, n: nat)
    requires
        forward(ds),
        n <= ds.rows@.len(),
    ensures
        ({
            let q = lapses(ds, c);
            match counting::last_where(n, q) {
                Some(m) => 0 <= m < n && peak(ds, c, n) == Some(
                    counting::sum((m + 1) as nat, time_of(ds, c)),
                ),
                None => peak(ds, c, n) is None,
            }
        }),
    decreases n,
{
    let q = lapses(ds, c);
    if n > 0 {
        let j = n - 1;
        lemma_peak_is_last(ds, c, j as nat);
        lemma_peak(ds, c, j as nat);
        lemma_peak(ds, c, n);
        counting::lemma_last_where(j as nat, in_card(ds, c));
        assert(q(j) == (in_card(ds, c)(j) && follows_lapse(ds, j)));
        if in_card(ds, c)(j) {
            counting::lemma_last_where(j as nat, in_card(ds, ds.rows@[j].card_idx));
            assert(time_of(ds, c)(j) >= 0);
        }
    }
}

/// What the terms of a row say of the ratings and of the row itself. `f` is the first row of its card.
pub proof fn lemma_terms_show_row(ds: Dataset, f: int, j: int, t: Seq<Term>)
    requires
        is_terms(ds, j, t),
        0 <= f <= j < ds.rows@.len(),
        ds.rows@[f].card_idx == ds.rows@[j].card_idx,
        forall|q: int| 0 <= q < f ==> (#[trigger] ds.rows@[q]).card_idx != ds.rows@[j].card_idx,
    ensures
        t.len() == 34,
        ({
            let ratings = ds.cards@[ds.rows@[j].card_idx as int].ratings@;
            let rating = if ds.rows@[j].pos > 0 {
                ratings[ds.rows@[j].pos - 1]
            } else {
                0
            };
            let first = if ds.rows@[f].pos > 0 {
                ratings[ds.rows@[f].pos - 1]
            } else {
                0
            };
            let same_day = ds.rows@[j].elapsed_days <= 0;
            &&& t[0] == Term::Flag(true) && t[10] == Term::Flag(true)
            &&& t[1] == Term::Flag(rating == 2) && t[11] == t[1]
            &&& t[2] == Term::Flag(rating == 3) && t[12] == t[2]
            &&& t[3] == Term::Flag(rating >= 4) && t[13] == t[3]
            &&& t[4] == Term::Flag(f == j && rating == 2)
            &&& t[5] == Term::Flag(f == j && rating >= 3)
            &&& t[14] == Term::Flag(first == 2) && t[17] == Term::Flag(f == j && first == 2)
            &&& t[15] == Term::Flag(first == 3) && t[18] == Term::Flag(f == j && first == 3)
            &&& t[16] == Term::Flag(first >= 4) && t[19] == Term::Flag(f == j && first >= 4)
            &&& t[20] == t[6]
            &&& t[21] == t[7]
            &&& t[7] == (if same_day {
                Term::Log1p(0)
            } else {
                t[24]
            })
            &&& t[8] == (if same_day {
                Term::Log1p(0)
            } else {
                t[23]
            })
            &&& t[25] == (if same_day {
                t[9]
            } else {
                Term::Log1p(0)
            })
            &&& t[28] == Term::Flag(same_day)
            &&& first > 1 ==> t[30] == t[6] && t[31] == t[23]
            &&& first <= 1 ==> forall|k: int| 30 <= k < 34 ==> #[trigger] t[k] == Term::Log1p(0)
            &&& t[6] is Log1p && t[9] is Log1p && t[23] is Log1p && t[24] is Log1p
            &&& t[32] is Log1p && t[33] is Log1p
            &&& t[22] is Elapsed && t[27] is Elapsed && t[29] is Elapsed && t[26] is Flag
        }),
{
    let c = ds.rows@[j].card_idx;
    let p = in_card(ds, c);
    counting::lemma_first_where((j + 1) as nat, p);
    counting::lemma_last_where(j as nat, p);
    assert(p(f) && p(j));
    let first = counting::first_where((j + 1) as nat, p);
    assert(first is Some && first->0 == f) by {
        if let Some(x) = first {
            assert(p(x));
        }
    }
    if f < j {
        assert(row_before(ds, j) is Some);
    } else {
        assert(row_before(ds, j) is None) by {
            if let Some(x) = counting::last_where(j as nat, p) {
                assert(p(x));
            }
        }
    }
}

proof fn lemma_no_row_before(ds: Dataset, j: int)
    requires
        0 <= j < ds.rows@.len(),
        forall|q: int| 0 <= q < j ==> (#[trigger] ds.rows@[q]).card_idx != ds.rows@[j].card_idx,
    ensures
        row_before(ds, j) is None,
        forall|q: int| 0 <= q < j ==> !#[trigger] in_card(ds, ds.rows@[j].card_idx)(q),
{
    counting::lemma_last_where(j as nat, in_card(ds, ds.rows@[j].card_idx));
    if let Some(x) = row_before(ds, j) {
        assert(in_card(ds, ds.rows@[j].card_idx)(x));
    }
}

proof fn lemma_row_before_is(ds: Dataset, p: int, j: int)
    requires
        0 <= p < j < ds.rows@.len(),
        ds.rows@[p].card_idx == ds.rows@[j].card_idx,
        forall|q: int| p < q < j ==> (#[trigger] ds.rows@[q]).card_idx != ds.rows@[j].card_idx,
    ensures
        row_before(ds, j) == Some(p),
{
    let c = in_card(ds, ds.rows@[j].card_idx);
    counting::lemma_last_where(j as nat, c);
    assert(c(p));
    if let Some(x) = row_before(ds, j) {
        assert(c(x));
    }
}

/// A card's first row has seen no review but the one before it: nothing is counted, and no time has
/// passed. It counts as a row that follows one of the same day.
pub proof fn lemma_first_row_terms(ds: Dataset, j: int, t: Seq<Term>)
    requires
        is_terms(ds, j, t),
        forward(ds),
        0 <= j < ds.rows@.len(),
        forall|q: int| 0 <= q < j ==> (#[trigger] ds.rows@[q]).card_idx != ds.rows@[j].card_idx,
    ensures
        ({
            let row = ds.rows@[j];
            let ratings = ds.cards@[row.card_idx as int].ratings@;
            let rating = if row.pos > 0 {
                ratings[row.pos - 1]
            } else {
                0
            };
            &&& t[6] == Term::Log1p(0)
            &&& t[9] == Term::Log1p(0)
            &&& t[22] == Term::Elapsed(0)
            &&& t[23] == Term::Log1p(0)
            &&& t[24] == Term::Log1p(0)
            &&& t[26] == Term::Flag(rating > 1)
            &&& t[27] == Term::Elapsed(0)
            &&& t[29] == Term::Elapsed(0)
            &&& rating > 1 ==> t[32] == Term::Log1p(1)
            &&& t[33] == Term::Log1p(0)
        }),
{
    let c = ds.rows@[j].card_idx;
    let n = (j + 1) as nat;
    lemma_no_row_before(ds, j);
    let h = choose|h: History|
        #![trigger is_history(ds, c, n, h)]
        {
            &&& is_history(ds, c, n, h)
            &&& t == terms(
                rating_before(ds, j),
                rating_before(ds, counting::first_where(n, in_card(ds, c))->0),
                row_before(ds, j) is None,
                elapsed_before(ds, j),
                ds.rows@[j].elapsed_days <= 0,
                h,
            )
        };
    let m = j as nat;
    counting::lemma_first_where(n, in_card(ds, c));
    let f = counting::first_where(n, in_card(ds, c));
    assert(in_card(ds, c)(j));
    assert(f is Some && f->0 == j) by {
        if let Some(x) = f {
            assert(in_card(ds, c)(x));
        }
    }
    lemma_untouched(ds, c, 0, m);
    assert(!reviewed(ds, c, false, true)(j) && !reviewed(ds, c, false, false)(j));
    assert(!reviewed(ds, c, true, true)(j) && !reviewed(ds, c, true, false)(j));
    assert(day_before(ds, c, true)(j) && !day_before(ds, c, false)(j));
    assert(passed_before(ds, c)(j) == (rating_before(ds, j) > 1));
    assert(time_of(ds, c)(j) == 0);
}

/// Rows of other cards change nothing that is counted for a card.
proof fn lemma_untouched(ds: Dataset, c: u32, m: nat, n: nat)
    requires
        m <= n,
        forall|q: int| m <= q < n ==> !#[trigger] in_card(ds, c)(q),
    ensures
        counting::count(n, reviewed(ds, c, false, true)) == counting::count(
            m,
            reviewed(ds, c, false, true),
        ),
        counting::count(n, reviewed(ds, c, false, false)) == counting::count(
            m,
            reviewed(ds, c, false, false),
        ),
        counting::count(n, reviewed(ds, c, true, true)) == counting::count(
            m,
            reviewed(ds, c, true, true),
        ),
        counting::count(n, reviewed(ds, c, true, false)) == counting::count(
            m,
            reviewed(ds, c, true, false),
        ),
        counting::count(n, passed_before(ds, c)) == counting::count(m, passed_before(ds, c)),
        counting::count(n, day_before(ds, c, true)) == counting::count(m, day_before(ds, c, true)),
        counting::count(n, day_before(ds, c, false)) == counting::count(
            m,
            day_before(ds, c, false),
        ),
        counting::sum(n, time_of(ds, c)) == counting::sum(m, time_of(ds, c)),
        peak(ds, c, n) == peak(ds, c, m),
    decreases n - m,
{
    if m < n {
        let q = n - 1;
        assert(!in_card(ds, c)(q));
        lemma_untouched(ds, c, m, q as nat);
    }
}

/// From one row of a card to the next. The review between the two is counted as a fail or as a pass, of
/// the same day or of a later one, by how long after its own predecessor the earlier row came; the
/// time grows by the interval in front of the earlier row; and the time since the last lapse starts
/// over where that review was failed.
pub proof fn lemma_next_row_terms(ds: Dataset, p: int, j: int, tp: Seq<Term>, tj: Seq<Term>)
    requires
        is_terms(ds, p, tp),
        is_terms(ds, j, tj),
        forward(ds),
        0 <= p < j < ds.rows@.len(),
        ds.rows@[p].card_idx == ds.rows@[j].card_idx,
        forall|q: int| p < q < j ==> (#[trigger] ds.rows@[q]).card_idx != ds.rows@[j].card_idx,
    ensures
        ({
            let row = ds.rows@[j];
            let ratings = ds.cards@[row.card_idx as int].ratings@;
            let rating = if row.pos > 0 {
                ratings[row.pos - 1]
            } else {
                0
            };
            let later_day = ds.rows@[p].elapsed_days > 0;
            let one = |b: bool|
                if b {
                    1int
                } else {
                    0int
                };
            &&& tj[6]->Log1p_0 == tp[6]->Log1p_0 + one(rating == 1 && !later_day)
            &&& tj[23]->Log1p_0 == tp[23]->Log1p_0 + one(rating == 1 && later_day)
            &&& tj[9]->Log1p_0 == tp[9]->Log1p_0 + one(rating > 1 && !later_day)
            &&& tj[24]->Log1p_0 == tp[24]->Log1p_0 + one(rating > 1 && later_day)
            &&& tj[22] == Term::Elapsed(ds.rows@[p].delta_t as i128)
            &&& tj[26] == Term::Flag(tp[26] == Term::Flag(true) || rating > 1)
            &&& tj[29]->Elapsed_0 == tp[29]->Elapsed_0 + ds.rows@[p].delta_t
            &&& rating <= 1 ==> tj[27] == Term::Elapsed(0)
            &&& rating > 1 ==> tj[27]->Elapsed_0 == tp[27]->Elapsed_0 + ds.rows@[p].delta_t
            &&& tj[14] == tp[14] && tj[15] == tp[15] && tj[16] == tp[16]
            &&& {
                ||| tj[14] == Term::Flag(true)
                ||| tj[15] == Term::Flag(true)
                ||| tj[16] == Term::Flag(true)
            } ==> {
                &&& tj[32]->Log1p_0 == tp[32]->Log1p_0 + one(!later_day)
                &&& tj[33]->Log1p_0 == tp[33]->Log1p_0 + one(later_day)
            }
        }),
{
    let c = ds.rows@[j].card_idx;
    let (n, m) = ((j + 1) as nat, (p + 1) as nat);
    lemma_row_before_is(ds, p, j);
    let hj = choose|h: History|
        #![trigger is_history(ds, c, n, h)]
        {
            &&& is_history(ds, c, n, h)
            &&& tj == terms(
                rating_before(ds, j),
                rating_before(ds, counting::first_where(n, in_card(ds, c))->0),
                row_before(ds, j) is None,
                elapsed_before(ds, j),
                ds.rows@[j].elapsed_days <= 0,
                h,
            )
        };
    let hp = choose|h: History|
        #![trigger is_history(ds, c, m, h)]
        {
            &&& is_history(ds, c, m, h)
            &&& tp == terms(
                rating_before(ds, p),
                rating_before(ds, counting::first_where(m, in_card(ds, c))->0),
                row_before(ds, p) is None,
                elapsed_before(ds, p),
                ds.rows@[p].elapsed_days <= 0,
                h,
            )
        };
    let ic = in_card(ds, c);
    assert(ic(p) && ic(j));
    assert forall|q: int| m <= q < j implies !#[trigger] ic(q) by {
        assert(ds.rows@[q].card_idx != c);
    }
    lemma_untouched(ds, c, m, j as nat);
    counting::lemma_first_where(n, ic);
    counting::lemma_first_where(m, ic);
    let (fj, fp) = (counting::first_where(n, ic), counting::first_where(m, ic));
    assert(fj is Some && fp is Some && fj == fp) by {
        if let Some(x) = fj {
            assert(ic(x));
        }
        if let Some(x) = fp {
            assert(ic(x));
        }
    }
    let rating = rating_before(ds, j);
    let later_day = ds.rows@[p].elapsed_days > 0;
    assert(same_day_before(ds, j) == !later_day);
    assert(reviewed(ds, c, false, true)(j) == (rating == 1 && !later_day));
    assert(reviewed(ds, c, false, false)(j) == (rating == 1 && later_day));
    assert(reviewed(ds, c, true, true)(j) == (rating > 1 && !later_day));
    assert(reviewed(ds, c, true, false)(j) == (rating > 1 && later_day));
    assert(passed_before(ds, c)(j) == (rating > 1));
    assert(day_before(ds, c, true)(j) == !later_day);
    assert(day_before(ds, c, false)(j) == later_day);
    assert(time_of(ds, c)(j) == ds.rows@[p].delta_t);
    lemma_peak(ds, c, m);
    lemma_peak(ds, c, n);
    counting::lemma_last_where(m, ic);
    assert(peak(ds, c, m) is Some);
    assert(hj.times == hp.times + ds.rows@[p].delta_t);
    assert(hj.lapse_times <= hj.times && 0 <= hj.lapse_times);
    let first = rating_before(ds, fj->0);
    assert(first > 1 <==> in_class(first, 0) || in_class(first, 1) || in_class(first, 2));
}

} // verus!
