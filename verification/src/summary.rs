//! What a training set looks like: counts that describe it without training on it.

use crate::counting;
use crate::features;
use crate::features::Row;
use crate::sorting;
use vstd::prelude::*;

verus! {

/// The label of row `k`.
pub open spec fn label_at(rows: Seq<Row>) -> spec_fn(int) -> int {
    |k: int| rows[k].y as int
}

/// The position of row `k` in its card.
pub open spec fn position_at(rows: Seq<Row>) -> spec_fn(int) -> int {
    |k: int| rows[k].pos as int
}

/// Row `k` has the rating.
pub open spec fn rated_as(rows: Seq<Row>, rating: i64) -> spec_fn(int) -> bool {
    |k: int| rows[k].rating == rating
}

/// Row `k` came on the day of the review before.
pub open spec fn on_same_day(rows: Seq<Row>) -> spec_fn(int) -> bool {
    |k: int| rows[k].elapsed_days == 0
}

/// The sum of the labels of the rows: how many were recalled.
pub fn label_sum(rows: &[Row]) -> (r: i128)
    ensures
        r == counting::sum(rows@.len(), label_at(rows@)),
{
    let ghost f = label_at(rows@);
    let n: usize = rows.len();
    let mut r: i128 = 0;
    let mut k: usize = 0;
    while k < n
        invariant
            k <= n,
            n == rows@.len(),
            f == label_at(rows@),
            r == counting::sum(k as nat, f),
        decreases n - k,
    {
        proof {
            assert(f(k as int) == rows@[k as int].y);
            counting::lemma_sum_fits((k + 1) as nat, f);
        }
        r = r + rows[k].y as i128;
        k = k + 1;
    }
    r
}

/// What describes a training set.
#[derive(Debug, Clone)]
pub struct Summary {
    /// The number of its cards.
    pub cards: usize,
    /// How often each of the four buttons was pressed.
    pub buttons: Vec<usize>,
    /// How many reviews came on the day of the one before.
    pub same_day: usize,
    /// The sum of the positions of the reviews in their cards.
    pub positions: u128,
    /// The number of batches of 512 that it makes.
    pub batches: usize,
    /// The interval in the middle, intervals being ordered; none where there is no row.
    pub median: Option<i64>,
}

/// Rows per batch.
pub const BATCH: usize = 512;

/// The card of each row.
pub open spec fn card_ids(rows: Seq<Row>) -> Seq<i64> {
    Seq::new(rows.len(), |k: int| rows[k].card_id)
}

/// The intervals in front of the rows, negative ones as zero.
pub open spec fn intervals(rows: Seq<Row>) -> Seq<i64> {
    Seq::new(rows.len(), |k: int| features::max_zero(rows[k].delta_t as int) as i64)
}

/// `m` is the value in the middle of `values`.
pub open spec fn is_median(values: Seq<i64>, m: i64) -> bool {
    exists|order: Seq<usize>| #[trigger]
        sorting::is_stable_order(values, order) && m == values[order[values.len() as int / 2] as int]
}

/// `n` is the number of distinct values.
pub open spec fn is_distinct_count(values: Seq<i64>, n: nat) -> bool {
    exists|out: Seq<i64>| #[trigger]
        sorting::is_sorted_distinct(values, out) && out.len() == n
}

/// Describes a training set.
pub fn summarize(rows: &[Row]) -> (s: Summary)
    ensures
        is_distinct_count(card_ids(rows@), s.cards as nat),
        s.buttons@.len() == 4,
        forall|b: int|
            0 <= b < 4 ==> #[trigger] s.buttons@[b] == counting::count(
                rows@.len(),
                rated_as(rows@, (b + 1) as i64),
            ),
        s.same_day == counting::count(rows@.len(), on_same_day(rows@)),
        s.positions == counting::sum(rows@.len(), position_at(rows@)),
        s.batches == (rows@.len() + 511) / 512,
        match s.median {
            Some(m) => rows@.len() > 0 && is_median(intervals(rows@), m),
            None => rows@.len() == 0,
        },
{
    let n: usize = rows.len();
    let mut ids: Vec<i64> = Vec::with_capacity(n);
    let mut times: Vec<i64> = Vec::with_capacity(n);
    let mut buttons: Vec<usize> = vec![0, 0, 0, 0];
    let mut same_day: usize = 0;
    let mut positions: u128 = 0;
    let mut k: usize = 0;
    while k < n
        invariant
            k <= n,
            n == rows@.len(),
            ids@ == card_ids(rows@).take(k as int),
            times@ == intervals(rows@).take(k as int),
            buttons@.len() == 4,
            forall|b: int|
                0 <= b < 4 ==> #[trigger] buttons@[b] == counting::count(
                    k as nat,
                    rated_as(rows@, (b + 1) as i64),
                ),
            same_day == counting::count(k as nat, on_same_day(rows@)),
            positions == counting::sum(k as nat, position_at(rows@)),
            positions <= k * 0xffff_ffff,
        decreases n - k,
    {
        let row: Row = rows[k];
        proof {
            counting::lemma_count_bound(k as nat, on_same_day(rows@));
            counting::lemma_count_bound(k as nat, rated_as(rows@, row.rating));
            assert(on_same_day(rows@)(k as int) == (row.elapsed_days == 0));
            assert(position_at(rows@)(k as int) == row.pos);
            assert forall|b: int| 0 <= b < 4 implies #[trigger] rated_as(
                rows@,
                (b + 1) as i64,
            )(k as int) == (row.rating == b + 1) by {}
        }
        ids.push(row.card_id);
        assert(ids@ =~= card_ids(rows@).take(k + 1));
        times.push(
            if row.delta_t < 0 {
                0
            } else {
                row.delta_t
            },
        );
        assert(times@ =~= intervals(rows@).take(k + 1));
        if 1 <= row.rating && row.rating <= 4 {
            let at: usize = (row.rating - 1) as usize;
            let c: usize = buttons[at];
            buttons.set(at, c + 1);
        }
        if row.elapsed_days == 0 {
            same_day = same_day + 1;
        }
        positions = positions + row.pos as u128;
        k = k + 1;
    }
    assert(ids@ =~= card_ids(rows@));
    assert(times@ =~= intervals(rows@));
    let distinct = sorting::sorted_distinct(&ids);
    assert(sorting::is_sorted_distinct(card_ids(rows@), distinct@));
    let median: Option<i64> = if n == 0 {
        None
    } else {
        let order = sorting::stable_order(&times);
        assert(sorting::is_stable_order(intervals(rows@), order@));
        Some(times[order[n / 2]])
    };
    let batches: usize = n / BATCH + (if n % BATCH == 0 {
        0
    } else {
        1
    });
    Summary { cards: distinct.len(), buttons, same_day, positions, batches, median }
}

/// The counts and sums of a summary are those of the rows.
pub proof fn lemma_summary_counts(rows: Seq<Row>, rating: i64)
    ensures
        counting::count(rows.len(), rated_as(rows, rating)) == counting::count(
            rows.len(),
            |k: int| rows[k].rating == rating,
        ),
        counting::count(rows.len(), on_same_day(rows)) == counting::count(
            rows.len(),
            |k: int| rows[k].elapsed_days == 0,
        ),
        counting::sum(rows.len(), position_at(rows)) == counting::sum(
            rows.len(),
            |k: int| rows[k].pos as int,
        ),
        counting::sum(rows.len(), label_at(rows)) == counting::sum(
            rows.len(),
            |k: int| rows[k].y as int,
        ),
{
    counting::lemma_count_agree(
        rows.len(),
        rated_as(rows, rating),
        |k: int| rows[k].rating == rating,
    );
    counting::lemma_count_agree(rows.len(), on_same_day(rows), |k: int| rows[k].elapsed_days == 0);
    counting::lemma_sum_agree(rows.len(), position_at(rows), |k: int| rows[k].pos as int);
    counting::lemma_sum_agree(rows.len(), label_at(rows), |k: int| rows[k].y as int);
}

/// The median is an interval of a row, negative ones counting as zero; at most half of the rows have a
/// smaller one, and more than half one that is no greater.
pub proof fn lemma_median(rows: Seq<Row>, m: i64)
    requires
        rows.len() > 0,
        is_median(intervals(rows), m),
    ensures
        exists|k: int|
            0 <= k < rows.len() && m == (if (#[trigger] rows[k]).delta_t < 0 {
                0
            } else {
                rows[k].delta_t
            }),
        counting::count(rows.len(), |k: int| rows[k].delta_t < m && 0 < m) <= rows.len() as int / 2,
        counting::count(rows.len(), |k: int| rows[k].delta_t <= m) > rows.len() as int / 2,
{
    let values = intervals(rows);
    let n = rows.len();
    let order = choose|order: Seq<usize>| #[trigger]
        sorting::is_stable_order(values, order) && m == values[order[values.len() as int / 2] as int];
    let h = n as int / 2;
    sorting::lemma_stable_order_is_permutation(values, order);
    let at = order[h] as int;
    assert(rows[at].delta_t == rows[at].delta_t);
    counting::lemma_place_counts(values, order, h);
    let before = |i: int| sorting::comes_before(values, i, at);
    let with = |i: int| before(i) || i == at;
    let below = |k: int| rows[k].delta_t < m && 0 < m;
    let upto = |k: int| rows[k].delta_t <= m;
    counting::lemma_count_implies(n, below, before);
    counting::lemma_count_one_more(n, before, with, at);
    counting::lemma_count_implies(n, with, upto);
}

/// The number of cards is that of the different cards of the rows.
pub proof fn lemma_cards_counted(rows: Seq<Row>, n: nat)
    requires
        is_distinct_count(card_ids(rows), n),
    ensures
        n == rows.map_values(|r: Row| r.card_id).to_set().len(),
{
    let ids = rows.map_values(|r: Row| r.card_id);
    assert(ids =~= card_ids(rows));
    let out = choose|out: Seq<i64>| #[trigger]
        sorting::is_sorted_distinct(card_ids(rows), out) && out.len() == n;
    assert(out.no_duplicates());
    out.unique_seq_to_set();
    assert(out.to_set() =~= ids.to_set()) by {
        assert forall|v: i64| out.to_set().contains(v) == ids.to_set().contains(v) by {
            assert(out.contains(v) <==> ids.contains(v));
        }
    }
}

} // verus!
