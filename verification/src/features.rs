//! Feature engineering: from a review log to the rows that models train on and are tested on.
//!
//! Intervals are whole numbers throughout: seconds where the configuration asks for seconds,
//! days elsewhere.

use crate::config::Config;
use crate::counting;
use crate::data::RawRevlogs;
use crate::sorting;
use std::collections::HashMap;
use vstd::prelude::*;

verus! {

/// The reviews of one card that feature engineering keeps, in file order.
#[derive(Debug, Clone)]
pub struct Card {
    /// Rating of each review.
    pub ratings: Vec<i64>,
    /// Interval in front of each review; never negative.
    pub dt_active: Vec<i64>,
    /// Whole days in front of each review; never negative.
    pub dt_int: Vec<i64>,
    /// Time that each review took, in milliseconds.
    pub durations: Vec<i64>,
}

/// One review to train on or to test.
#[derive(Debug, Clone, Copy, PartialEq, Eq, Structural)]
pub struct Row {
    /// The card, as an index into the dataset's cards.
    pub card_idx: u32,
    /// The review, as an index into the card's reviews; those before it are its history.
    pub pos: u32,
    pub card_id: i64,
    /// Place of the review in the log, counted from one.
    pub review_th: i64,
    pub rating: i64,
    /// Whether the card was recalled: one or zero.
    pub y: i64,
    /// The interval in front of the review; positive.
    pub delta_t: i64,
    pub elapsed_days: i64,
    pub elapsed_seconds: i64,
    pub duration: i64,
    /// One more than the number of reviews of the card so far, this one with them, that came at
    /// least a day after the one before.
    pub i: i64,
    /// Lapses of the card before this review.
    pub rmse_bins_lapse: i64,
    /// Rating of the last earlier review that came at least a day after the one before it; the
    /// first rating where there is none.
    pub last_rating: i64,
    /// Rating of the card's first review.
    pub first_rating: i64,
    /// The partition that the card belongs to.
    pub partition: i64,
}

/// The rows and cards of one user.
#[derive(Debug, Clone)]
pub struct Dataset {
    pub rows: Vec<Row>,
    pub cards: Vec<Card>,
}

/// The value, or zero where it is negative.
pub open spec fn max_zero(v: int) -> int {
    if v < 0 {
        0
    } else {
        v
    }
}

/// Review `k` has a rating.
pub open spec fn rated(raw: RawRevlogs, k: int) -> bool {
    1 <= raw.rating@[k] <= 4
}

/// The rated reviews of card `c`.
pub open spec fn rated_of(raw: RawRevlogs, c: i64) -> spec_fn(int) -> bool {
    |j: int| rated(raw, j) && raw.card_id@[j] == c
}

/// Review `k` is kept: it is rated, it is among the first `2 * max_seq_len` rated reviews of its
/// card, and it is not a same-day review where those are left out.
pub open spec fn kept(raw: RawRevlogs, cfg: Config, k: int) -> bool {
    &&& rated(raw, k)
    &&& counting::count((k + 1) as nat, rated_of(raw, raw.card_id@[k])) <= 2 * cfg.max_seq_len
    &&& cfg.include_short_term || raw.elapsed_days@[k] != 0
}

/// The kept reviews of card `c`.
pub open spec fn kept_of(raw: RawRevlogs, cfg: Config, c: i64) -> spec_fn(int) -> bool {
    |j: int| kept(raw, cfg, j) && raw.card_id@[j] == c
}

/// The kept reviews of card `c` that came at least a day after the one before.
pub open spec fn spaced_of(raw: RawRevlogs, cfg: Config, c: i64) -> spec_fn(int) -> bool {
    |j: int| kept(raw, cfg, j) && raw.card_id@[j] == c && raw.elapsed_days@[j] > 0
}

/// The kept reviews of card `c` that count as lapses: failed, and, where intervals are days, not
/// on the same day.
pub open spec fn lapses_of(raw: RawRevlogs, cfg: Config, c: i64) -> spec_fn(int) -> bool {
    |j: int|
        kept(raw, cfg, j) && raw.card_id@[j] == c && button(cfg, raw.rating@[j]) == 1 && (
        cfg.use_secs_intervals || raw.elapsed_days@[j] > 0)
}

/// The kept reviews that are the first of their card.
pub open spec fn openers(raw: RawRevlogs, cfg: Config) -> spec_fn(int) -> bool {
    |j: int|
        kept(raw, cfg, j) && counting::count(j as nat, kept_of(raw, cfg, raw.card_id@[j])) == 0
}

/// The kept reviews that are the first of a card with a smaller id than `c`.
pub open spec fn openers_below(raw: RawRevlogs, cfg: Config, c: i64) -> spec_fn(int) -> bool {
    |j: int| openers(raw, cfg)(j) && raw.card_id@[j] < c
}

/// The place of card `c` among the cards with a kept review, by ascending id.
pub open spec fn card_rank(raw: RawRevlogs, cfg: Config, c: i64) -> nat {
    counting::count(raw.card_id@.len(), openers_below(raw, cfg, c))
}

/// The rating as the models see it: with two buttons, Hard and Easy are Good.
pub open spec fn button(cfg: Config, rating: i64) -> i64 {
    if cfg.two_buttons && (rating == 2 || rating == 4) {
        3
    } else {
        rating
    }
}

/// The interval in front of review `k`.
pub open spec fn active_interval(raw: RawRevlogs, cfg: Config, k: int) -> int {
    max_zero(
        if cfg.use_secs_intervals {
            raw.elapsed_seconds@[k] as int
        } else {
            raw.elapsed_days@[k] as int
        },
    )
}

/// The place of review `k` among the kept reviews of its card.
pub open spec fn place(raw: RawRevlogs, cfg: Config, k: int) -> nat {
    counting::count(k as nat, kept_of(raw, cfg, raw.card_id@[k]))
}

/// The rating of the first kept review of card `c` among the first `n` reviews.
pub open spec fn first_rating_of(raw: RawRevlogs, cfg: Config, n: nat, c: i64) -> i64 {
    match counting::first_where(n, kept_of(raw, cfg, c)) {
        Some(f) => button(cfg, raw.rating@[f]),
        None => 0,
    }
}

/// The rating of the last kept review of card `c` among the first `n` reviews that came at least a
/// day after the one before; the card's first rating where there is none.
pub open spec fn last_spaced_rating(raw: RawRevlogs, cfg: Config, n: nat, c: i64) -> i64 {
    match counting::last_where(n, spaced_of(raw, cfg, c)) {
        Some(l) => button(cfg, raw.rating@[l]),
        None => first_rating_of(raw, cfg, n, c),
    }
}

/// The reviews that become rows: kept, with an interval in front.
pub open spec fn emitted(raw: RawRevlogs, cfg: Config) -> spec_fn(int) -> bool {
    |j: int| kept(raw, cfg, j) && active_interval(raw, cfg, j) > 0
}

/// Whether a review with the rating was recalled: one or zero.
pub open spec fn label_of(rating: i64) -> i64 {
    if rating == 1 {
        0
    } else {
        1
    }
}

/// The row that review `k` becomes.
pub open spec fn row_of(raw: RawRevlogs, cfg: Config, k: int) -> Row {
    let c = raw.card_id@[k];
    Row {
        card_idx: card_rank(raw, cfg, c) as u32,
        pos: place(raw, cfg, k) as u32,
        card_id: c,
        review_th: (k + 1) as i64,
        rating: button(cfg, raw.rating@[k]),
        y: label_of(button(cfg, raw.rating@[k])),
        delta_t: active_interval(raw, cfg, k) as i64,
        elapsed_days: raw.elapsed_days@[k],
        elapsed_seconds: raw.elapsed_seconds@[k],
        duration: raw.duration@[k],
        i: (1 + counting::count((k + 1) as nat, spaced_of(raw, cfg, c))) as i64,
        rmse_bins_lapse: counting::count(k as nat, lapses_of(raw, cfg, c)) as i64,
        last_rating: if place(raw, cfg, k) == 0 {
            button(cfg, raw.rating@[k])
        } else {
            last_spaced_rating(raw, cfg, k as nat, c)
        },
        first_rating: first_rating_of(raw, cfg, (k + 1) as nat, c),
        partition: 0,
    }
}

/// `card` holds the kept reviews of card `c` among the first `n` reviews, in order.
pub open spec fn holds_reviews(
    raw: RawRevlogs,
    cfg: Config,
    n: nat,
    c: i64,
    card: Card,
) -> bool {
    let m = counting::count(n, kept_of(raw, cfg, c));
    &&& card.ratings@.len() == m
    &&& card.dt_active@.len() == m
    &&& card.dt_int@.len() == m
    &&& card.durations@.len() == m
    &&& forall|k: int|
        0 <= k < n && kept_of(raw, cfg, c)(k) ==> {
            let at = #[trigger] place(raw, cfg, k) as int;
            &&& card.ratings@[at] == button(cfg, raw.rating@[k])
            &&& card.dt_active@[at] == active_interval(raw, cfg, k)
            &&& card.dt_int@[at] == max_zero(raw.elapsed_days@[k] as int)
            &&& card.durations@[at] == raw.duration@[k]
        }
}

/// `rows` are the rows of the first `n` reviews, in order.
pub open spec fn holds_rows(raw: RawRevlogs, cfg: Config, n: nat, rows: Seq<Row>) -> bool {
    &&& rows.len() == counting::count(n, emitted(raw, cfg))
    &&& forall|k: int|
        0 <= k < n && #[trigger] emitted(raw, cfg)(k) ==> rows[counting::count(
            k as nat,
            emitted(raw, cfg),
        ) as int] == row_of(raw, cfg, k)
}

/// `ds` is the dataset of the log: one row per emitted review in file order, and one card per card
/// with a kept review, by ascending id, holding those reviews.
pub open spec fn is_dataset(raw: RawRevlogs, cfg: Config, ds: Dataset) -> bool {
    let n = raw.card_id@.len();
    &&& holds_rows(raw, cfg, n, ds.rows@)
    &&& ds.cards@.len() == counting::count(n, openers(raw, cfg))
    &&& forall|k: int|
        0 <= k < n && #[trigger] openers(raw, cfg)(k) ==> {
            let c = raw.card_id@[k];
            &&& card_rank(raw, cfg, c) < ds.cards@.len()
            &&& holds_reviews(raw, cfg, n, c, ds.cards@[card_rank(raw, cfg, c) as int])
        }
}

/// Whether a rating counts as recall.
pub fn label(rating: i64) -> (r: i64)
    ensures
        r == label_of(rating),
{
    if rating == 1 {
        0
    } else {
        1
    }
}

/// `occurrences` counts the rated reviews of card `c` among the first `n` reviews.
spec fn counts_rated(occurrences: Map<i64, usize>, raw: RawRevlogs, n: nat, c: i64) -> bool {
    counting::count(n, rated_of(raw, c)) == (if occurrences.contains_key(c) {
        occurrences[c] as nat
    } else {
        0
    })
}

fn mark_kept(raw: &RawRevlogs, cfg: &Config) -> (marks: Vec<bool>)
    requires
        raw.wf(),
        raw.card_id@.len() < i64::MAX,
        cfg.max_seq_len <= i64::MAX / 2,
    ensures
        marks@.len() == raw.card_id@.len(),
        forall|k: int| 0 <= k < marks@.len() ==> #[trigger] marks@[k] == kept(*raw, *cfg, k),
{
    broadcast use vstd::std_specs::hash::group_hash_axioms;

    let n: usize = raw.card_id.len();
    let mut marks: Vec<bool> = Vec::with_capacity(n);
    let mut occurrences: HashMap<i64, usize> = HashMap::new();
    let mut k: usize = 0;
    while k < n
        invariant
            k <= n,
            n == raw.card_id@.len(),
            n < i64::MAX,
            raw.wf(),
            cfg.max_seq_len <= i64::MAX / 2,
            marks@.len() == k,
            forall|j: int| 0 <= j < k ==> #[trigger] marks@[j] == kept(*raw, *cfg, j),
            forall|c: i64| #[trigger] counts_rated(occurrences@, *raw, k as nat, c),
        decreases n - k,
    {
        let card: i64 = raw.card_id[k];
        let rating: i64 = raw.rating[k];
        let ghost before = occurrences@;
        assert(counts_rated(before, *raw, k as nat, card));
        proof {
            counting::lemma_count_bound(k as nat, rated_of(*raw, card));
        }
        if 1 <= rating && rating <= 4 {
            let earlier: usize = match occurrences.get(&card) {
                Some(m) => *m,
                None => 0,
            };
            let nth: usize = earlier + 1;
            occurrences.insert(card, nth);
            assert(rated_of(*raw, card)(k as int));
            assert(counting::count((k + 1) as nat, rated_of(*raw, card)) == nth);
            let fits: bool = nth as u64 <= (cfg.max_seq_len as u64) * 2;
            marks.push(fits && (cfg.include_short_term || raw.elapsed_days[k] != 0));
        } else {
            marks.push(false);
        }
        k = k + 1;
        proof {
            let done = (k - 1) as nat;
            assert forall|c: i64| #[trigger] counts_rated(occurrences@, *raw, k as nat, c) by {
                assert(counts_rated(before, *raw, done, c));
                assert(rated_of(*raw, c)(done as int) == (c == card && rated(*raw, done as int)));
            }
        }
    }
    marks
}

/// The ids in `ids` that are smaller than `c` are as many as the cards with a smaller id that open
/// among the first `n` reviews.
spec fn smaller_counted(raw: RawRevlogs, cfg: Config, n: nat, ids: Seq<i64>, c: i64) -> bool {
    counting::count(n, openers_below(raw, cfg, c)) == counting::count(
        ids.len(),
        |i: int| ids[i] < c,
    )
}

/// `ids` lists card `c` exactly if it has a kept review among the first `n`.
spec fn listed(raw: RawRevlogs, cfg: Config, n: nat, ids: Seq<i64>, c: i64) -> bool {
    ids.contains(c) <==> counting::count(n, kept_of(raw, cfg, c)) > 0
}

proof fn lemma_push_smaller(ids: Seq<i64>, x: i64, c: i64)
    ensures
        counting::count(ids.push(x).len(), |i: int| ids.push(x)[i] < c) == counting::count(
            ids.len(),
            |i: int| ids[i] < c,
        ) + (if x < c {
            1nat
        } else {
            0nat
        }),
{
    let p = |i: int| ids.push(x)[i] < c;
    let q = |i: int| ids[i] < c;
    counting::lemma_count_agree(ids.len(), p, q);
    assert(p(ids.len() as int) == (x < c));
}

/// The ids of the cards with a kept review, in order of first appearance.
fn open_cards(raw: &RawRevlogs, marks: &Vec<bool>, Ghost(cfg): Ghost<Config>) -> (ids: Vec<i64>)
    requires
        raw.wf(),
        marks@.len() == raw.card_id@.len(),
        forall|k: int| 0 <= k < marks@.len() ==> #[trigger] marks@[k] == kept(*raw, cfg, k),
    ensures
        ids@.len() == counting::count(raw.card_id@.len(), openers(*raw, cfg)),
        forall|i: int, j: int| 0 <= i < j < ids@.len() ==> #[trigger] ids@[i] != #[trigger] ids@[j],
        forall|c: i64| #[trigger] listed(*raw, cfg, raw.card_id@.len(), ids@, c),
        forall|c: i64| #[trigger] smaller_counted(*raw, cfg, raw.card_id@.len(), ids@, c),
{
    broadcast use vstd::std_specs::hash::group_hash_axioms;

    let n: usize = raw.card_id.len();
    let mut ids: Vec<i64> = Vec::new();
    let mut seen: HashMap<i64, bool> = HashMap::new();
    let mut k: usize = 0;
    while k < n
        invariant
            k <= n,
            n == raw.card_id@.len(),
            marks@.len() == n,
            forall|j: int| 0 <= j < marks@.len() ==> #[trigger] marks@[j] == kept(*raw, cfg, j),
            ids@.len() == counting::count(k as nat, openers(*raw, cfg)),
            forall|i: int, j: int|
                0 <= i < j < ids@.len() ==> #[trigger] ids@[i] != #[trigger] ids@[j],
            forall|c: i64| #[trigger] seen@.contains_key(c) <==> ids@.contains(c),
            forall|c: i64| #[trigger] listed(*raw, cfg, k as nat, ids@, c),
            forall|c: i64| #[trigger] smaller_counted(*raw, cfg, k as nat, ids@, c),
        decreases n - k,
    {
        let card: i64 = raw.card_id[k];
        let ghost before = ids@;
        assert(listed(*raw, cfg, k as nat, before, card));
        let opens: bool = marks[k] && !seen.contains_key(&card);
        assert(opens == openers(*raw, cfg)(k as int));
        if opens {
            ids.push(card);
            seen.insert(card, true);
            assert(ids@[before.len() as int] == card);
        }
        k = k + 1;
        proof {
            let done = (k - 1) as nat;
            assert forall|c: i64| before.contains(c) implies #[trigger] ids@.contains(c) by {
                let w = choose|w: int| 0 <= w < before.len() && before[w] == c;
                assert(ids@[w] == c);
            }
            assert forall|c: i64| #[trigger] ids@.contains(c) implies before.contains(c) || (opens
                && c == card) by {
                let w = choose|w: int| 0 <= w < ids@.len() && ids@[w] == c;
                if w < before.len() {
                    assert(before[w] == c);
                }
            }
            assert forall|c: i64| #[trigger] seen@.contains_key(c) <==> ids@.contains(c) by {
                assert(ids@.contains(c) || !ids@.contains(c));
            }
            assert forall|c: i64| #[trigger] listed(*raw, cfg, k as nat, ids@, c) by {
                assert(listed(*raw, cfg, done, before, c));
                assert(kept_of(*raw, cfg, c)(done as int) == (c == card && marks@[done as int]));
                assert(ids@.contains(c) || !ids@.contains(c));
            }
            assert forall|c: i64| #[trigger] smaller_counted(*raw, cfg, k as nat, ids@, c) by {
                assert(smaller_counted(*raw, cfg, done, before, c));
                assert(openers_below(*raw, cfg, c)(done as int) == (opens && card < c));
                if opens {
                    lemma_push_smaller(before, card, c);
                }
            }
        }
    }
    ids
}

/// For every card with a kept review its place by ascending id, and the number of such cards.
fn rank_cards(
    raw: &RawRevlogs,
    marks: &Vec<bool>,
    Ghost(cfg): Ghost<Config>,
) -> (r: (HashMap<i64, usize>, usize))
    requires
        raw.wf(),
        marks@.len() == raw.card_id@.len(),
        forall|k: int| 0 <= k < marks@.len() ==> #[trigger] marks@[k] == kept(*raw, cfg, k),
    ensures
        r.1 == counting::count(raw.card_id@.len(), openers(*raw, cfg)),
        forall|c: i64| #[trigger]
            r.0@.contains_key(c) <==> counting::count(raw.card_id@.len(), kept_of(*raw, cfg, c)) > 0,
        forall|c: i64| #[trigger]
            r.0@.contains_key(c) ==> r.0@[c] == card_rank(*raw, cfg, c) && r.0@[c] < r.1,
        forall|c: i64, d: i64| #[trigger]
            r.0@.contains_key(c) && #[trigger] r.0@.contains_key(d) && c != d ==> r.0@[c]
                != r.0@[d],
{
    broadcast use vstd::std_specs::hash::group_hash_axioms;

    let ids = open_cards(raw, marks, Ghost(cfg));
    let order = sorting::stable_order(ids.as_slice());
    let m: usize = ids.len();
    let mut ranks: HashMap<i64, usize> = HashMap::new();
    let mut r: usize = 0;
    while r < m
        invariant
            r <= m,
            m == ids@.len(),
            sorting::is_stable_order(ids@, order@),
            sorting::is_permutation(order@, ids@.len()),
            forall|i: int, j: int|
                0 <= i < j < ids@.len() ==> #[trigger] ids@[i] != #[trigger] ids@[j],
            forall|q: int|
                0 <= q < r ==> {
                    &&& ranks@.contains_key(ids@[#[trigger] order@[q] as int])
                    &&& ranks@[ids@[order@[q] as int]] == q
                },
            forall|c: i64| #[trigger]
                ranks@.contains_key(c) ==> ranks@[c] < r && ids@[order@[ranks@[c] as int] as int]
                    == c,
        decreases m - r,
    {
        let id: i64 = ids[order[r]];
        proof {
            assert forall|q: int| 0 <= q < r implies ids@[#[trigger] order@[q] as int] != id by {
                assert(order@[q] != order@[r as int]);
            }
        }
        ranks.insert(id, r);
        r = r + 1;
    }
    proof {
        let n = raw.card_id@.len();
        assert forall|c: i64| #[trigger]
            ranks@.contains_key(c) <==> counting::count(n, kept_of(*raw, cfg, c)) > 0 by {
            assert(listed(*raw, cfg, n, ids@, c));
            if ids@.contains(c) {
                let i = choose|i: int| 0 <= i < ids@.len() && ids@[i] == c;
                sorting::lemma_permutation_onto(order@, ids@.len(), i);
                let q = choose|q: int| 0 <= q < ids@.len() && #[trigger] order@[q] == i;
                assert(ranks@.contains_key(ids@[order@[q] as int]));
            }
            if ranks@.contains_key(c) {
                assert(ids@[order@[ranks@[c] as int] as int] == c);
            }
        }
        assert forall|c: i64| #[trigger] ranks@.contains_key(c) implies ranks@[c] == card_rank(
            *raw,
            cfg,
            c,
        ) by {
            let q = ranks@[c] as int;
            counting::lemma_place_counts(ids@, order@, q);
            let before = |i: int| sorting::comes_before(ids@, i, order@[q] as int);
            let smaller = |i: int| ids@[i] < c;
            assert forall|i: int| 0 <= i < ids@.len() implies #[trigger] before(i) == smaller(i) by {
                if i != order@[q] {
                    let o = order@[q] as int;
                    assert(ids@[i] != ids@[o]);
                }
            }
            counting::lemma_count_agree(ids@.len(), before, smaller);
            assert(smaller_counted(*raw, cfg, n, ids@, c));
        }
    }
    (ranks, m)
}

/// What is known of a card while the log is read.
#[derive(Clone, Copy)]
struct Progress {
    lapses: i64,
    spaced: i64,
    last: i64,
}

/// `card` and `p` sum up card `c` over the first `n` reviews.
spec fn sums_up(
    raw: RawRevlogs,
    cfg: Config,
    n: nat,
    c: i64,
    card: Card,
    p: Progress,
) -> bool {
    &&& holds_reviews(raw, cfg, n, c, card)
    &&& p.lapses == counting::count(n, lapses_of(raw, cfg, c))
    &&& p.spaced == counting::count(n, spaced_of(raw, cfg, c))
    &&& card.ratings@.len() > 0 ==> {
        &&& p.last == last_spaced_rating(raw, cfg, n, c)
        &&& card.ratings@[0] == first_rating_of(raw, cfg, n, c)
    }
}

proof fn lemma_skip(raw: RawRevlogs, cfg: Config, k: nat, c: i64, card: Card, p: Progress)
    requires
        sums_up(raw, cfg, k, c, card, p),
        !kept_of(raw, cfg, c)(k as int),
    ensures
        sums_up(raw, cfg, k + 1, c, card, p),
{
    assert(!lapses_of(raw, cfg, c)(k as int));
    assert(!spaced_of(raw, cfg, c)(k as int));
}

proof fn lemma_take(
    raw: RawRevlogs,
    cfg: Config,
    k: nat,
    c: i64,
    card: Card,
    p: Progress,
    card2: Card,
    p2: Progress,
)
    requires
        sums_up(raw, cfg, k, c, card, p),
        kept_of(raw, cfg, c)(k as int),
        card2.ratings@ == card.ratings@.push(button(cfg, raw.rating@[k as int])),
        card2.dt_active@.len() == card.dt_active@.len() + 1,
        card2.dt_active@ == card.dt_active@.push(active_interval(raw, cfg, k as int) as i64),
        card2.dt_int@ == card.dt_int@.push(max_zero(raw.elapsed_days@[k as int] as int) as i64),
        card2.durations@ == card.durations@.push(raw.duration@[k as int]),
        p2.lapses == p.lapses + (if lapses_of(raw, cfg, c)(k as int) {
            1int
        } else {
            0int
        }),
        p2.spaced == p.spaced + (if raw.elapsed_days@[k as int] > 0 {
            1int
        } else {
            0int
        }),
        p2.last == (if card.ratings@.len() == 0 || raw.elapsed_days@[k as int] > 0 {
            button(cfg, raw.rating@[k as int])
        } else {
            p.last
        }),
    ensures
        sums_up(raw, cfg, k + 1, c, card2, p2),
{
    let ko = kept_of(raw, cfg, c);
    let so = spaced_of(raw, cfg, c);
    assert(so(k as int) == (raw.elapsed_days@[k as int] > 0));
    assert(place(raw, cfg, k as int) == counting::count(k, ko));
    assert forall|j: int| 0 <= j < k + 1 && ko(j) implies {
        let at = #[trigger] place(raw, cfg, j) as int;
        &&& card2.ratings@[at] == button(cfg, raw.rating@[j])
        &&& card2.dt_active@[at] == active_interval(raw, cfg, j)
        &&& card2.dt_int@[at] == max_zero(raw.elapsed_days@[j] as int)
        &&& card2.durations@[at] == raw.duration@[j]
    } by {
        if j < k {
            counting::lemma_count_monotone(j as nat, k, ko);
            assert(place(raw, cfg, j) == counting::count(j as nat, ko));
        }
    }
    counting::lemma_first_where(k, ko);
    counting::lemma_last_where(k, so);
    counting::lemma_count_zero(k, ko);
    if card.ratings@.len() == 0 {
        assert(counting::first_where(k, ko) is None) by {
            if let Some(f) = counting::first_where(k, ko) {
                assert(ko(f));
            }
        }
        if let Some(l) = counting::last_where(k, so) {
            assert(so(l));
            assert(ko(l));
        }
    } else {
        if counting::first_where(k, ko) is None {
            assert(counting::count(k, ko) == 0);
        }
    }
}

proof fn lemma_some_kept(raw: RawRevlogs, cfg: Config, k: int)
    requires
        0 <= k < raw.card_id@.len(),
        kept(raw, cfg, k),
    ensures
        counting::count(raw.card_id@.len(), kept_of(raw, cfg, raw.card_id@[k])) > 0,
{
    let ko = kept_of(raw, cfg, raw.card_id@[k]);
    assert(ko(k));
    counting::lemma_count_monotone(k as nat, raw.card_id@.len(), ko);
}

/// The dataset of a log, or an error where no review becomes a row.
pub fn create_features(raw: &RawRevlogs, cfg: &Config) -> (r: Result<Dataset, String>)
    requires
        raw.wf(),
        raw.card_id@.len() < i64::MAX,
        cfg.max_seq_len <= i64::MAX / 2,
    ensures
        r is Err <==> (forall|k: int|
            0 <= k < raw.card_id@.len() ==> !#[trigger] emitted(*raw, *cfg)(k)),
        r matches Ok(ds) ==> is_dataset(*raw, *cfg, ds),
        r matches Err(e) ==> e@ == "no data after feature engineering"@,
{
    let n: usize = raw.card_id.len();
    let marks = mark_kept(raw, cfg);
    let (ranks, n_cards) = rank_cards(raw, &marks, Ghost(*cfg));
    let mut cards: Vec<Card> = Vec::with_capacity(n_cards);
    let mut progress: Vec<Progress> = Vec::with_capacity(n_cards);
    let mut m: usize = 0;
    while m < n_cards
        invariant
            m <= n_cards,
            cards@.len() == m,
            progress@.len() == m,
            forall|c: i64, q: int|
                0 <= q < m ==> #[trigger] sums_up(*raw, *cfg, 0, c, cards@[q], progress@[q]),
        decreases n_cards - m,
    {
        cards.push(
            Card {
                ratings: Vec::new(),
                dt_active: Vec::new(),
                dt_int: Vec::new(),
                durations: Vec::new(),
            },
        );
        progress.push(Progress { lapses: 0, spaced: 0, last: 0 });
        m = m + 1;
    }
    let mut rows: Vec<Row> = Vec::new();
    let mut k: usize = 0;
    while k < n
        invariant
            k <= n,
            n == raw.card_id@.len(),
            n < i64::MAX,
            raw.wf(),
            marks@.len() == n,
            forall|j: int| 0 <= j < n ==> #[trigger] marks@[j] == kept(*raw, *cfg, j),
            cards@.len() == n_cards,
            progress@.len() == n_cards,
            forall|c: i64| #[trigger]
                ranks@.contains_key(c) <==> counting::count(n as nat, kept_of(*raw, *cfg, c)) > 0,
            forall|c: i64| #[trigger]
                ranks@.contains_key(c) ==> ranks@[c] == card_rank(*raw, *cfg, c) && ranks@[c]
                    < n_cards,
            forall|c: i64, d: i64| #[trigger]
                ranks@.contains_key(c) && #[trigger] ranks@.contains_key(d) && c != d ==> ranks@[c]
                    != ranks@[d],
            forall|c: i64| #[trigger]
                ranks@.contains_key(c) ==> sums_up(
                    *raw,
                    *cfg,
                    k as nat,
                    c,
                    cards@[ranks@[c] as int],
                    progress@[ranks@[c] as int],
                ),
            holds_rows(*raw, *cfg, k as nat, rows@),
        decreases n - k,
    {
        let ghost cards_before = cards@;
        let ghost progress_before = progress@;
        let ghost rows_before = rows@;
        if marks[k] {
            let card: i64 = raw.card_id[k];
            proof {
                lemma_some_kept(*raw, *cfg, k as int);
                assert(ranks@.contains_key(card));
            }
            let at: usize = read_rank(&ranks, card);
            let row = step(raw, cfg, k, at, &mut cards, &mut progress);
            proof {
                assert(row == row_of(*raw, *cfg, k as int));
            }
            if row.delta_t > 0 {
                rows.push(row);
            }
        }
        proof {
            let em = emitted(*raw, *cfg);
            assert(em(k as int) == (marks@[k as int] && active_interval(*raw, *cfg, k as int) > 0));
            assert forall|j: int| 0 <= j < k + 1 && #[trigger] em(j) implies rows@[counting::count(
                j as nat,
                em,
            ) as int] == row_of(*raw, *cfg, j) by {
                if j < k {
                    counting::lemma_count_monotone(j as nat, k as nat, em);
                    assert(rows_before[counting::count(j as nat, em) as int] == row_of(
                        *raw,
                        *cfg,
                        j,
                    ));
                }
            }
            assert(holds_rows(*raw, *cfg, (k + 1) as nat, rows@));
            assert forall|c: i64| #[trigger] ranks@.contains_key(c) implies sums_up(
                *raw,
                *cfg,
                (k + 1) as nat,
                c,
                cards@[ranks@[c] as int],
                progress@[ranks@[c] as int],
            ) by {
                if !(marks@[k as int] && c == raw.card_id@[k as int]) {
                    assert(!kept_of(*raw, *cfg, c)(k as int));
                    lemma_skip(
                        *raw,
                        *cfg,
                        k as nat,
                        c,
                        cards_before[ranks@[c] as int],
                        progress_before[ranks@[c] as int],
                    );
                    if marks@[k as int] {
                        assert(ranks@.contains_key(raw.card_id@[k as int]));
                    }
                }
            }
        }
        k = k + 1;
    }
    proof {
        counting::lemma_count_zero(n as nat, emitted(*raw, *cfg));
        assert forall|j: int| 0 <= j < n && #[trigger] openers(*raw, *cfg)(j) implies {
            let c = raw.card_id@[j];
            &&& card_rank(*raw, *cfg, c) < cards@.len()
            &&& holds_reviews(*raw, *cfg, n as nat, c, cards@[card_rank(*raw, *cfg, c) as int])
        } by {
            lemma_some_kept(*raw, *cfg, j);
            assert(ranks@.contains_key(raw.card_id@[j]));
        }
    }
    if rows.len() == 0 {
        return Err("no data after feature engineering".to_owned());
    }
    Ok(Dataset { rows, cards })
}

fn read_rank(ranks: &HashMap<i64, usize>, card: i64) -> (r: usize)
    requires
        ranks@.contains_key(card),
    ensures
        r == ranks@[card],
{
    broadcast use vstd::std_specs::hash::group_hash_axioms;

    match ranks.get(&card) {
        Some(r) => *r,
        None => 0,
    }
}

/// Takes the kept review `k` into its card, and gives the row that it would become.
fn step(
    raw: &RawRevlogs,
    cfg: &Config,
    k: usize,
    at: usize,
    cards: &mut Vec<Card>,
    progress: &mut Vec<Progress>,
) -> (row: Row)
    requires
        raw.wf(),
        k < raw.card_id@.len(),
        raw.card_id@.len() < i64::MAX,
        kept(*raw, *cfg, k as int),
        at < old(cards)@.len(),
        old(cards)@.len() == old(progress)@.len(),
        at == card_rank(*raw, *cfg, raw.card_id@[k as int]),
        sums_up(
            *raw,
            *cfg,
            k as nat,
            raw.card_id@[k as int],
            old(cards)@[at as int],
            old(progress)@[at as int],
        ),
    ensures
        final(cards)@.len() == old(cards)@.len(),
        final(progress)@.len() == old(progress)@.len(),
        forall|q: int|
            0 <= q < old(cards)@.len() && q != at ==> #[trigger] final(cards)@[q] == old(cards)@[q],
        forall|q: int|
            0 <= q < old(cards)@.len() && q != at ==> #[trigger] final(progress)@[q] == old(
                progress,
            )@[q],
        sums_up(
            *raw,
            *cfg,
            (k + 1) as nat,
            raw.card_id@[k as int],
            final(cards)@[at as int],
            final(progress)@[at as int],
        ),
        row == row_of(*raw, *cfg, k as int),
{
    let card_id: i64 = raw.card_id[k];
    let ghost card_before = cards@[at as int];
    let ghost progress_before = progress@[at as int];
    let elapsed_days: i64 = raw.elapsed_days[k];
    let elapsed_seconds: i64 = raw.elapsed_seconds[k];
    let stored: i64 = raw.rating[k];
    let rating: i64 = if cfg.two_buttons && (stored == 2 || stored == 4) {
        3
    } else {
        stored
    };
    let days: i64 = if elapsed_days < 0 {
        0
    } else {
        elapsed_days
    };
    let delta_t: i64 = if cfg.use_secs_intervals {
        if elapsed_seconds < 0 {
            0
        } else {
            elapsed_seconds
        }
    } else {
        days
    };
    proof {
        counting::lemma_count_bound(k as nat, lapses_of(*raw, *cfg, card_id));
        counting::lemma_count_bound(k as nat, spaced_of(*raw, *cfg, card_id));
        counting::lemma_count_bound(k as nat, kept_of(*raw, *cfg, card_id));
    }
    let p: Progress = progress[at];
    let pos: usize = cards[at].ratings.len();
    let last_rating: i64 = if pos == 0 {
        rating
    } else {
        p.last
    };
    let lapse: bool = rating == 1 && (cfg.use_secs_intervals || delta_t != 0);
    let spaced: i64 = if elapsed_days > 0 {
        p.spaced + 1
    } else {
        p.spaced
    };
    progress[at] = Progress {
        lapses: if lapse {
            p.lapses + 1
        } else {
            p.lapses
        },
        spaced,
        last: if pos == 0 || elapsed_days > 0 {
            rating
        } else {
            p.last
        },
    };
    cards[at].ratings.push(rating);
    cards[at].dt_active.push(delta_t);
    cards[at].dt_int.push(days);
    cards[at].durations.push(raw.duration[k]);
    let first_rating: i64 = cards[at].ratings[0];
    proof {
        assert(spaced_of(*raw, *cfg, card_id)(k as int) == (elapsed_days > 0));
        assert(lapses_of(*raw, *cfg, card_id)(k as int) == lapse);
        lemma_take(
            *raw,
            *cfg,
            k as nat,
            card_id,
            card_before,
            progress_before,
            cards@[at as int],
            progress@[at as int],
        );
    }
    Row {
        card_idx: at as u32,
        pos: pos as u32,
        card_id,
        review_th: k as i64 + 1,
        rating,
        y: label(rating),
        delta_t,
        elapsed_days,
        elapsed_seconds,
        duration: raw.duration[k],
        i: spaced + 1,
        rmse_bins_lapse: p.lapses,
        last_rating,
        first_rating,
        partition: 0,
    }
}

/// A row of the dataset refers to a review of one of its cards.
pub open spec fn refers(ds: Dataset, row: Row) -> bool {
    &&& row.card_idx < ds.cards@.len()
    &&& row.pos < ds.cards@[row.card_idx as int].ratings@.len()
    &&& row.pos < ds.cards@[row.card_idx as int].dt_active@.len()
    &&& row.pos < ds.cards@[row.card_idx as int].durations@.len()
}

impl Dataset {
    /// The ratings of the reviews before the row's, in order.
    pub fn prior_ratings(&self, row: &Row) -> (r: &[i64])
        requires
            refers(*self, *row),
        ensures
            r@ == self.cards@[row.card_idx as int].ratings@.take(row.pos as int),
    {
        let all: &[i64] = self.cards[row.card_idx as usize].ratings.as_slice();
        vstd::slice::slice_subrange(all, 0, row.pos as usize)
    }

    /// The intervals in front of the reviews before the row's, in order.
    pub fn prior_dt_active(&self, row: &Row) -> (r: &[i64])
        requires
            refers(*self, *row),
        ensures
            r@ == self.cards@[row.card_idx as int].dt_active@.take(row.pos as int),
    {
        let all: &[i64] = self.cards[row.card_idx as usize].dt_active.as_slice();
        vstd::slice::slice_subrange(all, 0, row.pos as usize)
    }

    /// The times that the reviews before the row's took, in order.
    pub fn prior_durations(&self, row: &Row) -> (r: &[i64])
        requires
            refers(*self, *row),
        ensures
            r@ == self.cards@[row.card_idx as int].durations@.take(row.pos as int),
    {
        let all: &[i64] = self.cards[row.card_idx as usize].durations.as_slice();
        vstd::slice::slice_subrange(all, 0, row.pos as usize)
    }

    /// The intervals in front of the reviews up to the row's.
    pub fn dt_active_incl(&self, row: &Row) -> (r: &[i64])
        requires
            refers(*self, *row),
        ensures
            r@ == self.cards@[row.card_idx as int].dt_active@.take(row.pos + 1),
    {
        let all: &[i64] = self.cards[row.card_idx as usize].dt_active.as_slice();
        let n: usize = all.len();
        assert(row.pos < n);
        vstd::slice::slice_subrange(all, 0, row.pos as usize + 1)
    }

    /// The intervals in front of the reviews from the card's second up to the row's.
    pub fn intervals_from_second(&self, row: &Row) -> (r: &[i64])
        requires
            refers(*self, *row),
        ensures
            r@ == self.cards@[row.card_idx as int].dt_active@.subrange(1, row.pos + 1),
    {
        let all: &[i64] = self.cards[row.card_idx as usize].dt_active.as_slice();
        let n: usize = all.len();
        assert(row.pos < n);
        vstd::slice::slice_subrange(all, 1, row.pos as usize + 1)
    }

    /// The number of rows.
    pub fn len(&self) -> (r: usize)
        ensures
            r == self.rows@.len(),
    {
        self.rows.len()
    }

    /// Whether there is no row.
    pub fn is_empty(&self) -> (r: bool)
        ensures
            r == (self.rows@.len() == 0),
    {
        self.rows.len() == 0
    }
}

/// Every card with a kept review has a first one.
proof fn lemma_opener(raw: RawRevlogs, cfg: Config, k: int) -> (f: int)
    requires
        0 <= k < raw.card_id@.len(),
        kept(raw, cfg, k),
    ensures
        0 <= f <= k,
        openers(raw, cfg)(f),
        raw.card_id@[f] == raw.card_id@[k],
{
    let ko = kept_of(raw, cfg, raw.card_id@[k]);
    counting::lemma_first_where((k + 1) as nat, ko);
    assert(ko(k));
    let f = counting::first_where((k + 1) as nat, ko)->0;
    counting::lemma_count_zero(f as nat, ko);
    f
}

/// The rows of a dataset come in file order, each has a positive interval, and each refers to the
/// review that it was made from: its rating, interval and duration stand at its place in its card.
pub proof fn lemma_rows_refer(raw: RawRevlogs, cfg: Config, ds: Dataset, r: int)
    requires
        is_dataset(raw, cfg, ds),
        raw.card_id@.len() <= u32::MAX,
        0 <= r < ds.rows@.len(),
    ensures
        refers(ds, ds.rows@[r]),
        ds.rows@[r].delta_t > 0,
        ds.cards@[ds.rows@[r].card_idx as int].ratings@[ds.rows@[r].pos as int]
            == ds.rows@[r].rating,
        ds.cards@[ds.rows@[r].card_idx as int].dt_active@[ds.rows@[r].pos as int]
            == ds.rows@[r].delta_t,
        ds.cards@[ds.rows@[r].card_idx as int].durations@[ds.rows@[r].pos as int]
            == ds.rows@[r].duration,
        forall|q: int|
            0 <= q < r ==> (#[trigger] ds.rows@[q]).review_th < ds.rows@[r].review_th,
{
    let n = raw.card_id@.len();
    let em = emitted(raw, cfg);
    let k = counting::lemma_count_onto(n, em, r as nat);
    assert(em(k));
    assert(ds.rows@[r] == row_of(raw, cfg, k));
    let f = lemma_opener(raw, cfg, k);
    let c = raw.card_id@[k];
    assert(openers(raw, cfg)(f));
    let ko = kept_of(raw, cfg, c);
    assert(ko(k));
    counting::lemma_count_monotone(k as nat, n, ko);
    counting::lemma_count_bound(n, ko);
    counting::lemma_count_bound(n, openers(raw, cfg));
    assert(place(raw, cfg, k) == counting::count(k as nat, ko));
    assert forall|q: int| 0 <= q < r implies (#[trigger] ds.rows@[q]).review_th
        < ds.rows@[r].review_th by {
        let k2 = counting::lemma_count_onto(n, em, q as nat);
        assert(em(k2));
        assert(ds.rows@[q] == row_of(raw, cfg, k2));
        if k2 >= k {
            counting::lemma_count_monotone(k as nat, k2 as nat, em);
        }
    }
}

/// A row is recalled or not, and a dataset's ratings are those of the buttons.
pub proof fn lemma_rows_labelled(raw: RawRevlogs, cfg: Config, ds: Dataset, r: int)
    requires
        is_dataset(raw, cfg, ds),
        0 <= r < ds.rows@.len(),
    ensures
        1 <= ds.rows@[r].rating <= 4,
        ds.rows@[r].y == 0 <==> ds.rows@[r].rating == 1,
        ds.rows@[r].y == 0 || ds.rows@[r].y == 1,
        cfg.two_buttons ==> ds.rows@[r].rating == 1 || ds.rows@[r].rating == 3,
{
    let n = raw.card_id@.len();
    let k = counting::lemma_count_onto(n, emitted(raw, cfg), r as nat);
    assert(emitted(raw, cfg)(k));
}

/// The partition of card `c`; `-1` where the map has none.
pub open spec fn partition_for(partition_of: Map<i64, i64>, c: i64) -> i64 {
    if partition_of.contains_key(c) {
        partition_of[c]
    } else {
        (-1int) as i64
    }
}

/// Tags every row with the partition of its card; a card without one gets `-1`.
pub fn tag_partitions(rows: &mut Vec<Row>, partition_of: &HashMap<i64, i64>)
    ensures
        final(rows)@.len() == old(rows)@.len(),
        forall|k: int|
            0 <= k < old(rows)@.len() ==> #[trigger] final(rows)@[k] == (Row {
                partition: partition_for(partition_of@, old(rows)@[k].card_id),
                ..old(rows)@[k]
            }),
{
    broadcast use vstd::std_specs::hash::group_hash_axioms;

    let ghost before = rows@;
    let n: usize = rows.len();
    let mut k: usize = 0;
    while k < n
        invariant
            k <= n,
            n == before.len(),
            rows@.len() == n,
            forall|j: int|
                0 <= j < k ==> #[trigger] rows@[j] == (Row {
                    partition: partition_for(partition_of@, before[j].card_id),
                    ..before[j]
                }),
            forall|j: int| k <= j < n ==> #[trigger] rows@[j] == before[j],
        decreases n - k,
    {
        let mut row: Row = rows[k];
        row.partition = match partition_of.get(&row.card_id) {
            Some(p) => *p,
            None => -1,
        };
        rows[k] = row;
        k = k + 1;
    }
}

/// The preset of card `c`, which is that of its deck; `-1` where one of the two is not known.
pub open spec fn preset_for(deck_of: Map<i64, i64>, preset_of: Map<i64, i64>, c: i64) -> i64 {
    if deck_of.contains_key(c) {
        partition_for(preset_of, deck_of[c])
    } else {
        (-1int) as i64
    }
}

/// Tags every row with the preset of its card's deck; a card without one gets `-1`.
pub fn tag_presets(
    rows: &mut Vec<Row>,
    deck_of: &HashMap<i64, i64>,
    preset_of: &HashMap<i64, i64>,
)
    ensures
        final(rows)@.len() == old(rows)@.len(),
        forall|k: int|
            0 <= k < old(rows)@.len() ==> #[trigger] final(rows)@[k] == (Row {
                partition: preset_for(deck_of@, preset_of@, old(rows)@[k].card_id),
                ..old(rows)@[k]
            }),
{
    broadcast use vstd::std_specs::hash::group_hash_axioms;

    let ghost before = rows@;
    let n: usize = rows.len();
    let mut k: usize = 0;
    while k < n
        invariant
            k <= n,
            n == before.len(),
            rows@.len() == n,
            forall|j: int|
                0 <= j < k ==> #[trigger] rows@[j] == (Row {
                    partition: preset_for(deck_of@, preset_of@, before[j].card_id),
                    ..before[j]
                }),
            forall|j: int| k <= j < n ==> #[trigger] rows@[j] == before[j],
        decreases n - k,
    {
        let mut row: Row = rows[k];
        row.partition = match deck_of.get(&row.card_id) {
            Some(d) => match preset_of.get(d) {
                Some(p) => *p,
                None => -1,
            },
            None => -1,
        };
        rows[k] = row;
        k = k + 1;
    }
}

/// Review `k` was made with one of the four buttons and is not one of the same-day reviews that are
/// left out.
spec fn counted(raw: RawRevlogs, cfg: Config, k: int) -> bool {
    1 <= raw.rating@[k] <= 4 && (cfg.include_short_term || raw.elapsed_days@[k] != 0)
}

/// Before a kept review the reviews of its card are kept that are rated and not left out as same-day
/// reviews: the limit on the length of a history lets go the latest first.
proof fn lemma_kept_before(raw: RawRevlogs, cfg: Config, k: int, j: int)
    requires
        0 <= j <= k < raw.card_id@.len(),
        kept(raw, cfg, k),
        raw.card_id@[j] == raw.card_id@[k],
    ensures
        kept(raw, cfg, j) <==> counted(raw, cfg, j),
{
    counting::lemma_count_monotone(
        (j + 1) as nat,
        (k + 1) as nat,
        rated_of(raw, raw.card_id@[k]),
    );
}

/// A review becomes a row exactly if it was rated by one of the four buttons, its card had no more
/// than twice the longest history of rated reviews up to it, it is not a same-day review where those
/// are left out, and time has passed in front of it.
pub proof fn lemma_which_reviews_become_rows(raw: RawRevlogs, cfg: Config, k: int)
    requires
        0 <= k < raw.card_id@.len(),
    ensures
        emitted(raw, cfg)(k) <==> {
            &&& 1 <= raw.rating@[k] <= 4
            &&& counting::count(
                (k + 1) as nat,
                |j: int| raw.card_id@[j] == raw.card_id@[k] && 1 <= raw.rating@[j] <= 4,
            ) <= 2 * cfg.max_seq_len
            &&& cfg.include_short_term || raw.elapsed_days@[k] != 0
            &&& if cfg.use_secs_intervals {
                raw.elapsed_seconds@[k] > 0
            } else {
                raw.elapsed_days@[k] > 0
            }
        },
{
    counting::lemma_count_agree(
        (k + 1) as nat,
        |j: int| raw.card_id@[j] == raw.card_id@[k] && 1 <= raw.rating@[j] <= 4,
        rated_of(raw, raw.card_id@[k]),
    );
}

/// The rows of a dataset are those of the reviews that become rows, one each.
pub proof fn lemma_rows_are_reviews(raw: RawRevlogs, cfg: Config, ds: Dataset)
    requires
        is_dataset(raw, cfg, ds),
        raw.card_id@.len() < i64::MAX,
    ensures
        forall|r: int|
            0 <= r < ds.rows@.len() ==> 1 <= (#[trigger] ds.rows@[r]).review_th
                <= raw.card_id@.len() && emitted(raw, cfg)(ds.rows@[r].review_th - 1),
        forall|r: int, q: int|
            0 <= r < q < ds.rows@.len() ==> (#[trigger] ds.rows@[r]).review_th < (
            #[trigger] ds.rows@[q]).review_th,
        forall|k: int|
            0 <= k < raw.card_id@.len() && #[trigger] emitted(raw, cfg)(k) ==> exists|r: int|
                0 <= r < ds.rows@.len() && (#[trigger] ds.rows@[r]).review_th == k + 1,
{
    let n = raw.card_id@.len();
    let em = emitted(raw, cfg);
    assert forall|r: int| 0 <= r < ds.rows@.len() implies 1 <= (#[trigger] ds.rows@[r]).review_th
        <= n && em(ds.rows@[r].review_th - 1) by {
        let k = counting::lemma_count_onto(n, em, r as nat);
        assert(em(k));
        assert(ds.rows@[r] == row_of(raw, cfg, k));
    }
    assert forall|r: int, q: int| 0 <= r < q < ds.rows@.len() implies (
    #[trigger] ds.rows@[r]).review_th < (#[trigger] ds.rows@[q]).review_th by {
        let k = counting::lemma_count_onto(n, em, r as nat);
        let l = counting::lemma_count_onto(n, em, q as nat);
        assert(em(k) && em(l));
        assert(ds.rows@[r] == row_of(raw, cfg, k));
        assert(ds.rows@[q] == row_of(raw, cfg, l));
        if l <= k {
            counting::lemma_count_monotone(l as nat, k as nat, em);
        }
    }
    assert forall|k: int| 0 <= k < n && #[trigger] em(k) implies exists|r: int|
        0 <= r < ds.rows@.len() && (#[trigger] ds.rows@[r]).review_th == k + 1 by {
        counting::lemma_count_monotone(k as nat, n, em);
        let r = counting::count(k as nat, em) as int;
        assert(ds.rows@[r].review_th == k + 1);
    }
}

proof fn lemma_row_at(raw: RawRevlogs, cfg: Config, ds: Dataset, r: int)
    requires
        is_dataset(raw, cfg, ds),
        raw.card_id@.len() < i64::MAX,
        0 <= r < ds.rows@.len(),
    ensures
        1 <= ds.rows@[r].review_th <= raw.card_id@.len(),
        ds.rows@[r] == row_of(raw, cfg, ds.rows@[r].review_th - 1),
        emitted(raw, cfg)(ds.rows@[r].review_th - 1),
        kept(raw, cfg, ds.rows@[r].review_th - 1),
{
    let n = raw.card_id@.len();
    let em = emitted(raw, cfg);
    let k = counting::lemma_count_onto(n, em, r as nat);
    assert(em(k));
    assert(ds.rows@[r] == row_of(raw, cfg, k));
}

/// What a row says of its own review.
pub proof fn lemma_row_shows_review(raw: RawRevlogs, cfg: Config, ds: Dataset, r: int)
    requires
        is_dataset(raw, cfg, ds),
        raw.card_id@.len() < i64::MAX,
        0 <= r < ds.rows@.len(),
    ensures
        ({
            let row = ds.rows@[r];
            let k = row.review_th - 1;
            &&& row.card_id == raw.card_id@[k]
            &&& row.elapsed_days == raw.elapsed_days@[k]
            &&& row.elapsed_seconds == raw.elapsed_seconds@[k]
            &&& row.duration == raw.duration@[k]
            &&& row.delta_t == (if cfg.use_secs_intervals {
                raw.elapsed_seconds@[k]
            } else {
                raw.elapsed_days@[k]
            })
            &&& row.rating == 1 <==> raw.rating@[k] == 1
            &&& cfg.two_buttons && raw.rating@[k] != 1 ==> row.rating == 3
            &&& !cfg.two_buttons ==> row.rating == raw.rating@[k]
            &&& row.y == 0 <==> raw.rating@[k] == 1
            &&& row.y == 1 <==> raw.rating@[k] != 1
            &&& row.partition == 0
        }),
{
    lemma_row_at(raw, cfg, ds, r);
}

/// What a row says of the history of its card: the lapses before it, failed reviews that with day
/// intervals came on a later day; the reviews on a later day, up to it and with it; and the reviews
/// that are kept before it.
pub proof fn lemma_row_counts_history(raw: RawRevlogs, cfg: Config, ds: Dataset, r: int)
    requires
        is_dataset(raw, cfg, ds),
        raw.card_id@.len() <= u32::MAX,
        0 <= r < ds.rows@.len(),
    ensures
        ({
            let row = ds.rows@[r];
            let k = row.review_th - 1;
            let c = raw.card_id@[k];
            let short = cfg.include_short_term;
            &&& row.rmse_bins_lapse == counting::count(
                k as nat,
                |j: int|
                    raw.card_id@[j] == c && raw.rating@[j] == 1 && (short || raw.elapsed_days@[j]
                        != 0) && (cfg.use_secs_intervals || raw.elapsed_days@[j] > 0),
            )
            &&& row.i == 1 + counting::count(
                (k + 1) as nat,
                |j: int|
                    raw.card_id@[j] == c && 1 <= raw.rating@[j] <= 4 && raw.elapsed_days@[j] > 0,
            )
            &&& row.pos == counting::count(
                k as nat,
                |j: int|
                    raw.card_id@[j] == c && 1 <= raw.rating@[j] <= 4 && (short
                        || raw.elapsed_days@[j] != 0),
            )
        }),
{
    lemma_row_at(raw, cfg, ds, r);
    let row = ds.rows@[r];
    let k = row.review_th - 1;
    let c = raw.card_id@[k];
    let short = cfg.include_short_term;
    let lapsed = |j: int|
        raw.card_id@[j] == c && raw.rating@[j] == 1 && (short || raw.elapsed_days@[j] != 0) && (
        cfg.use_secs_intervals || raw.elapsed_days@[j] > 0);
    let spaced = |j: int|
        raw.card_id@[j] == c && 1 <= raw.rating@[j] <= 4 && raw.elapsed_days@[j] > 0;
    let any = |j: int|
        raw.card_id@[j] == c && 1 <= raw.rating@[j] <= 4 && (short || raw.elapsed_days@[j] != 0);
    assert forall|j: int| 0 <= j < k implies #[trigger] lapsed(j) == lapses_of(raw, cfg, c)(j) by {
        if raw.card_id@[j] == c {
            lemma_kept_before(raw, cfg, k, j);
        }
    }
    assert forall|j: int| 0 <= j < k + 1 implies #[trigger] spaced(j) == spaced_of(raw, cfg, c)(
        j,
    ) by {
        if raw.card_id@[j] == c {
            lemma_kept_before(raw, cfg, k, j);
        }
    }
    assert forall|j: int| 0 <= j < k implies #[trigger] any(j) == kept_of(raw, cfg, c)(j) by {
        if raw.card_id@[j] == c {
            lemma_kept_before(raw, cfg, k, j);
        }
    }
    counting::lemma_count_agree(k as nat, lapsed, lapses_of(raw, cfg, c));
    counting::lemma_count_agree((k + 1) as nat, spaced, spaced_of(raw, cfg, c));
    counting::lemma_count_agree(k as nat, any, kept_of(raw, cfg, c));
    counting::lemma_count_bound(k as nat, lapsed);
    counting::lemma_count_bound((k + 1) as nat, spaced);
    counting::lemma_count_bound(k as nat, any);
}

/// From one row of a card to the next, where every review of the card between them is left out, the
/// lapses grow by one if the earlier row was failed and, with day intervals, came on a later day; else
/// they stay. The number of reviews on a later day grows by one if the later row came on a later day,
/// and the place by one. The last rating becomes that of the earlier row if it came on a later day or
/// is the card's first review; else it stays.
pub proof fn lemma_next_row_of_card(raw: RawRevlogs, cfg: Config, ds: Dataset, p: int, r: int)
    requires
        is_dataset(raw, cfg, ds),
        raw.card_id@.len() <= u32::MAX,
        0 <= p < r < ds.rows@.len(),
        ds.rows@[p].card_id == ds.rows@[r].card_id,
        forall|j: int|
            ds.rows@[p].review_th <= j < ds.rows@[r].review_th - 1 && #[trigger] raw.card_id@[j]
                == ds.rows@[r].card_id ==> !(1 <= raw.rating@[j] <= 4) || (!cfg.include_short_term
                && raw.elapsed_days@[j] == 0),
    ensures
        ds.rows@[r].rmse_bins_lapse == ds.rows@[p].rmse_bins_lapse + (if ds.rows@[p].y == 0 && (
        cfg.use_secs_intervals || ds.rows@[p].elapsed_days > 0) {
            1int
        } else {
            0int
        }),
        ds.rows@[r].i == ds.rows@[p].i + (if ds.rows@[r].elapsed_days > 0 {
            1int
        } else {
            0int
        }),
        ds.rows@[r].pos == ds.rows@[p].pos + 1,
        ds.rows@[r].first_rating == ds.rows@[p].first_rating,
        ds.rows@[r].card_idx == ds.rows@[p].card_idx,
        ds.rows@[r].last_rating == (if ds.rows@[p].elapsed_days > 0 || ds.rows@[p].pos == 0 {
            ds.rows@[p].rating
        } else {
            ds.rows@[p].last_rating
        }),
{
    lemma_row_at(raw, cfg, ds, p);
    lemma_row_at(raw, cfg, ds, r);
    lemma_rows_are_reviews(raw, cfg, ds);
    assert(ds.rows@[p].review_th < ds.rows@[r].review_th);
    let a = ds.rows@[p].review_th - 1;
    let b = ds.rows@[r].review_th - 1;
    let c = raw.card_id@[b];
    let (lo, so, ko) = (
        lapses_of(raw, cfg, c),
        spaced_of(raw, cfg, c),
        kept_of(raw, cfg, c),
    );
    assert forall|j: int| a < j < b implies !#[trigger] ko(j) by {
        if raw.card_id@[j] == c {
            lemma_kept_before(raw, cfg, b, j);
        }
    }
    assert forall|j: int| a < j < b implies !#[trigger] lo(j) by {
        assert(!ko(j));
    }
    assert forall|j: int| a < j < b implies !#[trigger] so(j) by {
        assert(!ko(j));
    }
    lemma_count_gap((a + 1) as nat, b as nat, lo);
    lemma_count_gap((a + 1) as nat, b as nat, so);
    lemma_count_gap((a + 1) as nat, b as nat, ko);
    assert(ko(a) && ko(b));
    assert(lo(a) == (raw.rating@[a] == 1 && (cfg.use_secs_intervals || raw.elapsed_days@[a] > 0)));
    assert(so(b) == (raw.elapsed_days@[b] > 0));
    assert(so(a) == (raw.elapsed_days@[a] > 0));
    counting::lemma_count_bound(b as nat, lo);
    counting::lemma_count_bound((b + 1) as nat, so);
    counting::lemma_count_bound(b as nat, ko);
    counting::lemma_first_where((a + 1) as nat, ko);
    counting::lemma_first_where((b + 1) as nat, ko);
    counting::lemma_first_where(a as nat, ko);
    counting::lemma_first_where(b as nat, ko);
    counting::lemma_last_where(a as nat, so);
    counting::lemma_last_where(b as nat, so);
    counting::lemma_count_zero(a as nat, ko);
    let (fa, fb, fb1) = (
        counting::first_where((a + 1) as nat, ko),
        counting::first_where((b + 1) as nat, ko),
        counting::first_where(b as nat, ko),
    );
    assert(fa is Some && fb is Some && fb1 is Some) by {
        if fa is None {
            assert(!ko(a));
        }
        if fb is None {
            assert(!ko(a));
        }
        if fb1 is None {
            assert(!ko(a));
        }
    }
    assert(fa == fb && fa == fb1) by {
        let (x, y, z) = (fa->0, fb->0, fb1->0);
        assert(ko(x) && ko(y) && ko(z));
        assert(x >= y && y >= z && z >= x);
    }
    let (la, lb) = (counting::last_where(a as nat, so), counting::last_where(b as nat, so));
    if raw.elapsed_days@[a] > 0 {
        assert(so(a));
        assert(lb is Some);
        assert(lb->0 == a) by {
            let y = lb->0;
            assert(so(y));
            if y < a {
                assert(!so(a));
            }
        }
    } else {
        assert(lb == la) by {
            if lb is Some {
                let y = lb->0;
                assert(so(y));
                assert(y < a);
                assert(la is Some);
                let x = la->0;
                assert(so(x));
                if x < y {
                    assert(!so(y));
                }
                if y < x {
                    assert(!so(x));
                }
            } else if la is Some {
                assert(so(la->0));
            }
        }
        if counting::count(a as nat, ko) == 0 {
            if let Some(x) = la {
                assert(so(x));
                assert(ko(x));
            }
            assert(fa->0 == a) by {
                assert(ko(fa->0));
            }
        } else {
            let fa0 = counting::first_where(a as nat, ko);
            assert(fa0 is Some) by {
                if fa0 is None {
                    assert(forall|i: int| 0 <= i < a ==> !#[trigger] ko(i));
                }
            }
            assert(fa0 == fa) by {
                let (x, y) = (fa0->0, fa->0);
                assert(ko(x) && ko(y));
            }
        }
    }
}

proof fn lemma_count_gap(m: nat, n: nat, p: spec_fn(int) -> bool)
    requires
        m <= n,
        forall|j: int| m <= j < n ==> !#[trigger] p(j),
    ensures
        counting::count(n, p) == counting::count(m, p),
    decreases n - m,
{
    if m < n {
        assert(!p(n - 1));
        lemma_count_gap(m, (n - 1) as nat, p);
    }
}

/// The first rating of a row is that of the card's first review that is kept; and the last rating that
/// of the latest earlier review on a later day, or the first rating where there is none.
pub proof fn lemma_row_ratings(raw: RawRevlogs, cfg: Config, ds: Dataset, r: int, f: int, l: int)
    requires
        is_dataset(raw, cfg, ds),
        raw.card_id@.len() <= u32::MAX,
        0 <= r < ds.rows@.len(),
        0 <= f < ds.rows@[r].review_th,
        raw.card_id@[f] == ds.rows@[r].card_id,
        1 <= raw.rating@[f] <= 4,
        cfg.include_short_term || raw.elapsed_days@[f] != 0,
        forall|j: int|
            0 <= j < f && #[trigger] raw.card_id@[j] == ds.rows@[r].card_id ==> !(1
                <= raw.rating@[j] <= 4) || (!cfg.include_short_term && raw.elapsed_days@[j] == 0),
        l < ds.rows@[r].review_th - 1,
        0 <= l ==> raw.card_id@[l] == ds.rows@[r].card_id && 1 <= raw.rating@[l] <= 4
            && raw.elapsed_days@[l] > 0,
        forall|j: int|
            l < j < ds.rows@[r].review_th - 1 && 0 <= j && #[trigger] raw.card_id@[j]
                == ds.rows@[r].card_id ==> !(1 <= raw.rating@[j] <= 4) || raw.elapsed_days@[j]
                <= 0,
    ensures
        ds.rows@[r].first_rating == (if cfg.two_buttons && raw.rating@[f] != 1 {
            3
        } else {
            raw.rating@[f]
        }),
        l < 0 ==> ds.rows@[r].last_rating == ds.rows@[r].first_rating,
        l >= 0 ==> ds.rows@[r].last_rating == (if cfg.two_buttons && raw.rating@[l] != 1 {
            3
        } else {
            raw.rating@[l]
        }),
{
    lemma_row_at(raw, cfg, ds, r);
    let k = ds.rows@[r].review_th - 1;
    let c = raw.card_id@[k];
    let (so, ko) = (spaced_of(raw, cfg, c), kept_of(raw, cfg, c));
    lemma_kept_before(raw, cfg, k, f);
    assert(ko(f) && ko(k));
    assert forall|j: int| 0 <= j < f implies !#[trigger] ko(j) by {
        if raw.card_id@[j] == c {
            lemma_kept_before(raw, cfg, k, j);
        }
    }
    assert forall|j: int| l < j < k && 0 <= j implies !#[trigger] so(j) by {
        if raw.card_id@[j] == c {
            lemma_kept_before(raw, cfg, k, j);
        }
    }
    counting::lemma_first_where((k + 1) as nat, ko);
    counting::lemma_first_where(k as nat, ko);
    counting::lemma_last_where(k as nat, so);
    counting::lemma_count_zero(k as nat, ko);
    let f1 = counting::first_where((k + 1) as nat, ko);
    assert(f1 is Some && f1->0 == f) by {
        if let Some(x) = f1 {
            assert(ko(x));
        }
    }
    let f0 = counting::first_where(k as nat, ko);
    if f < k {
        assert(f0 is Some && f0->0 == f) by {
            if let Some(x) = f0 {
                assert(ko(x));
            }
        }
    }
    let l0 = counting::last_where(k as nat, so);
    if l >= 0 {
        lemma_kept_before(raw, cfg, k, l);
        assert(so(l));
        assert(ko(l));
        assert(l0 is Some && l0->0 == l) by {
            if let Some(x) = l0 {
                assert(so(x));
            }
        }
    } else {
        assert(l0 is None) by {
            if let Some(x) = l0 {
                assert(so(x));
            }
        }
        if f == k {
            assert(counting::count(k as nat, ko) == 0);
        } else {
            assert(counting::count(k as nat, ko) != 0) by {
                assert(ko(f));
            }
        }
    }
}

/// Rows have the same card in the dataset exactly if they are of the same card of the log, and cards
/// come by ascending id. The card holds all reviews of its own that are kept, and each at the place
/// that the kept ones before it leave: its rating, its interval, its whole days and its duration.
pub proof fn lemma_cards_hold_reviews(raw: RawRevlogs, cfg: Config, ds: Dataset, r: int, q: int)
    requires
        is_dataset(raw, cfg, ds),
        raw.card_id@.len() <= u32::MAX,
        0 <= r < ds.rows@.len(),
        0 <= q < ds.rows@.len(),
    ensures
        ds.rows@[r].card_idx < ds.rows@[q].card_idx <==> ds.rows@[r].card_id < ds.rows@[q].card_id,
        ds.rows@[r].card_idx == ds.rows@[q].card_idx <==> ds.rows@[r].card_id
            == ds.rows@[q].card_id,
        ds.rows@[r].card_idx < ds.cards@.len(),
        ({
            let card = ds.cards@[ds.rows@[r].card_idx as int];
            &&& card.ratings@.len() == card.dt_active@.len()
            &&& card.ratings@.len() == card.dt_int@.len()
            &&& card.ratings@.len() == card.durations@.len()
            &&& ds.rows@[r].card_id == ds.rows@[q].card_id ==> {
                let row = ds.rows@[q];
                &&& row.pos < card.ratings@.len()
                &&& card.ratings@[row.pos as int] == row.rating
                &&& card.dt_active@[row.pos as int] == row.delta_t
                &&& card.dt_int@[row.pos as int] == (if row.elapsed_days < 0 {
                    0
                } else {
                    row.elapsed_days
                })
                &&& card.durations@[row.pos as int] == row.duration
            }
        }),
{
    lemma_row_at(raw, cfg, ds, r);
    lemma_row_at(raw, cfg, ds, q);
    let n = raw.card_id@.len();
    let (a, b) = (ds.rows@[r].review_th - 1, ds.rows@[q].review_th - 1);
    let (c, d) = (raw.card_id@[a], raw.card_id@[b]);
    let (fa, fb) = (lemma_opener(raw, cfg, a), lemma_opener(raw, cfg, b));
    assert(openers(raw, cfg)(fa) && openers(raw, cfg)(fb));
    counting::lemma_count_bound(n, openers(raw, cfg));
    lemma_rank_below(raw, cfg, c, d, fa);
    lemma_rank_below(raw, cfg, d, c, fb);
    assert(kept_of(raw, cfg, d)(b));
    counting::lemma_count_monotone(b as nat, n, kept_of(raw, cfg, d));
    counting::lemma_count_bound(n, kept_of(raw, cfg, d));
    counting::lemma_count_bound(b as nat, kept_of(raw, cfg, d));
    assert(place(raw, cfg, b) == counting::count(b as nat, kept_of(raw, cfg, d)));
}

proof fn lemma_rank_below(raw: RawRevlogs, cfg: Config, c: i64, d: i64, f: int)
    requires
        0 <= f < raw.card_id@.len(),
        openers(raw, cfg)(f),
        raw.card_id@[f] == c,
    ensures
        c < d ==> card_rank(raw, cfg, c) < card_rank(raw, cfg, d),
{
    if c < d {
        let n = raw.card_id@.len();
        let (p, q) = (openers_below(raw, cfg, c), openers_below(raw, cfg, d));
        let with = |j: int| p(j) || j == f;
        counting::lemma_count_one_more(n, p, with, f);
        counting::lemma_count_implies(n, with, q);
    }
}

/// A review that is kept without becoming a row, as the first of a card is, stands in its card too: at
/// the place that the kept reviews before it leave.
pub proof fn lemma_card_holds_kept_review(
    raw: RawRevlogs,
    cfg: Config,
    ds: Dataset,
    r: int,
    j: int,
)
    requires
        is_dataset(raw, cfg, ds),
        raw.card_id@.len() <= u32::MAX,
        0 <= r < ds.rows@.len(),
        0 <= j < ds.rows@[r].review_th - 1,
        raw.card_id@[j] == ds.rows@[r].card_id,
        1 <= raw.rating@[j] <= 4,
        cfg.include_short_term || raw.elapsed_days@[j] != 0,
    ensures
        ({
            let card = ds.cards@[ds.rows@[r].card_idx as int];
            let short = cfg.include_short_term;
            let at = counting::count(
                j as nat,
                |i: int|
                    raw.card_id@[i] == ds.rows@[r].card_id && 1 <= raw.rating@[i] <= 4 && (short
                        || raw.elapsed_days@[i] != 0),
            ) as int;
            &&& at < ds.rows@[r].pos < card.ratings@.len()
            &&& card.ratings@[at] == (if cfg.two_buttons && raw.rating@[j] != 1 {
                3
            } else {
                raw.rating@[j]
            })
            &&& card.durations@[at] == raw.duration@[j]
            &&& card.dt_int@[at] == (if raw.elapsed_days@[j] < 0 {
                0
            } else {
                raw.elapsed_days@[j]
            })
            &&& cfg.use_secs_intervals ==> card.dt_active@[at] == (if raw.elapsed_seconds@[j] < 0 {
                0
            } else {
                raw.elapsed_seconds@[j]
            })
            &&& !cfg.use_secs_intervals ==> card.dt_active@[at] == card.dt_int@[at]
        }),
{
    lemma_row_at(raw, cfg, ds, r);
    let n = raw.card_id@.len();
    let k = ds.rows@[r].review_th - 1;
    let c = raw.card_id@[k];
    let short = cfg.include_short_term;
    lemma_kept_before(raw, cfg, k, j);
    let ko = kept_of(raw, cfg, c);
    let any = |i: int|
        raw.card_id@[i] == ds.rows@[r].card_id && 1 <= raw.rating@[i] <= 4 && (short
            || raw.elapsed_days@[i] != 0);
    assert forall|i: int| 0 <= i < j implies #[trigger] any(i) == ko(i) by {
        if raw.card_id@[i] == c {
            lemma_kept_before(raw, cfg, k, i);
        }
    }
    counting::lemma_count_agree(j as nat, any, ko);
    assert(ko(j) && ko(k));
    counting::lemma_count_monotone(j as nat, k as nat, ko);
    counting::lemma_count_monotone(k as nat, n, ko);
    counting::lemma_count_bound(n, ko);
    counting::lemma_count_bound(n, openers(raw, cfg));
    let f = lemma_opener(raw, cfg, k);
    assert(openers(raw, cfg)(f));
    assert(place(raw, cfg, j) == counting::count(j as nat, ko));
    assert(place(raw, cfg, k) == counting::count(k as nat, ko));
}

/// The partition of a card is what the map has for it, and that of its preset what the second map has
/// for its deck; minus one where there is none.
pub proof fn lemma_partitions_tagged(
    deck_of: Map<i64, i64>,
    preset_of: Map<i64, i64>,
    c: i64,
)
    ensures
        partition_for(deck_of, c) == (if deck_of.contains_key(c) {
            deck_of[c] as int
        } else {
            -1int
        }),
        preset_for(deck_of, preset_of, c) == (if deck_of.contains_key(c) && preset_of.contains_key(
            deck_of[c],
        ) {
            preset_of[deck_of[c]] as int
        } else {
            -1int
        }),
{
}

/// A card holds as many reviews as are kept of it: those rated, among the first of them as far as the
/// limit goes, and not left out as same-day reviews.
pub proof fn lemma_card_length(raw: RawRevlogs, cfg: Config, ds: Dataset, r: int)
    requires
        is_dataset(raw, cfg, ds),
        raw.card_id@.len() <= u32::MAX,
        0 <= r < ds.rows@.len(),
    ensures
        ds.cards@[ds.rows@[r].card_idx as int].ratings@.len() == counting::count(
            raw.card_id@.len(),
            |k: int|
                {
                    &&& raw.card_id@[k] == ds.rows@[r].card_id
                    &&& 1 <= raw.rating@[k] <= 4
                    &&& counting::count(
                        (k + 1) as nat,
                        |j: int| raw.card_id@[j] == raw.card_id@[k] && 1 <= raw.rating@[j] <= 4,
                    ) <= 2 * cfg.max_seq_len
                    &&& cfg.include_short_term || raw.elapsed_days@[k] != 0
                },
        ),
{
    lemma_row_at(raw, cfg, ds, r);
    let n = raw.card_id@.len();
    let at = ds.rows@[r].review_th - 1;
    let c = raw.card_id@[at];
    let f = lemma_opener(raw, cfg, at);
    assert(openers(raw, cfg)(f));
    counting::lemma_count_bound(n, openers(raw, cfg));
    let all = |k: int|
        {
            &&& raw.card_id@[k] == ds.rows@[r].card_id
            &&& 1 <= raw.rating@[k] <= 4
            &&& counting::count(
                (k + 1) as nat,
                |j: int| raw.card_id@[j] == raw.card_id@[k] && 1 <= raw.rating@[j] <= 4,
            ) <= 2 * cfg.max_seq_len
            &&& cfg.include_short_term || raw.elapsed_days@[k] != 0
        };
    assert forall|k: int| 0 <= k < n implies #[trigger] all(k) == kept_of(raw, cfg, c)(k) by {
        counting::lemma_count_agree(
            (k + 1) as nat,
            |j: int| raw.card_id@[j] == raw.card_id@[k] && 1 <= raw.rating@[j] <= 4,
            rated_of(raw, raw.card_id@[k]),
        );
    }
    counting::lemma_count_agree(n, all, kept_of(raw, cfg, c));
}

} // verus!
