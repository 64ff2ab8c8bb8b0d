//! What a network is fed: the history of a card as a sequence of steps.

use crate::features;
use crate::features::Dataset;
use crate::features::Row;
use vstd::prelude::*;

verus! {

/// One step of a sequence.
#[derive(Debug, Clone, Copy, PartialEq, Eq, Structural)]
pub struct SeqStep {
    /// The interval in front of the review.
    pub delta_t: i64,
    /// The time that the review took, in milliseconds, within the bounds that are told apart.
    pub duration: i64,
    /// The class of its rating.
    pub class: usize,
}

/// The class of a rating: Again, Hard, Good, Easy.
pub open spec fn rating_class(rating: i64) -> usize {
    if rating <= 1 {
        0
    } else if rating >= 4 {
        3
    } else {
        (rating - 1) as usize
    }
}

pub const MIN_DURATION: i64 = 100;

pub const MAX_DURATION: i64 = 60_000;

/// The duration, kept within the bounds.
pub open spec fn bounded_duration(duration: i64) -> i64 {
    if duration < MIN_DURATION {
        MIN_DURATION
    } else if duration > MAX_DURATION {
        MAX_DURATION
    } else {
        duration
    }
}

/// Step `k` of a row's sequence: the review at that place of its history, and an empty step after
/// those.
pub open spec fn step_of(ds: Dataset, row: Row, k: int) -> SeqStep {
    let card = ds.cards@[row.card_idx as int];
    if k < row.pos {
        SeqStep {
            delta_t: card.dt_active@[k],
            duration: bounded_duration(card.durations@[k]),
            class: rating_class(card.ratings@[k]),
        }
    } else {
        SeqStep { delta_t: 0, duration: MIN_DURATION, class: 0 }
    }
}

fn class_of(rating: i64) -> (c: usize)
    ensures
        c == rating_class(rating),
{
    if rating <= 1 {
        0
    } else if rating >= 4 {
        3
    } else {
        (rating - 1) as usize
    }
}

fn bound_duration(duration: i64) -> (d: i64)
    ensures
        d == bounded_duration(duration),
{
    if duration < MIN_DURATION {
        MIN_DURATION
    } else if duration > MAX_DURATION {
        MAX_DURATION
    } else {
        duration
    }
}

/// The sequence of a row, cut or filled up to `len` steps.
pub fn build_input(ds: &Dataset, row: &Row, len: usize) -> (steps: Vec<SeqStep>)
    requires
        features::refers(*ds, *row),
    ensures
        steps@ == Seq::new(len as nat, |k: int| step_of(*ds, *row, k)),
{
    let ratings: &[i64] = ds.prior_ratings(row);
    let intervals: &[i64] = ds.prior_dt_active(row);
    let durations: &[i64] = ds.prior_durations(row);
    let n: usize = ratings.len();
    let ghost all = Seq::new(len as nat, |k: int| step_of(*ds, *row, k));
    let mut steps: Vec<SeqStep> = Vec::with_capacity(len);
    let mut k: usize = 0;
    while k < len
        invariant
            k <= len,
            features::refers(*ds, *row),
            n == row.pos,
            ratings@ == ds.cards@[row.card_idx as int].ratings@.take(n as int),
            intervals@ == ds.cards@[row.card_idx as int].dt_active@.take(n as int),
            durations@ == ds.cards@[row.card_idx as int].durations@.take(n as int),
            all == Seq::new(len as nat, |k: int| step_of(*ds, *row, k)),
            steps@ == all.take(k as int),
        decreases len - k,
    {
        if k < n {
            steps.push(
                SeqStep {
                    delta_t: intervals[k],
                    duration: bound_duration(durations[k]),
                    class: class_of(ratings[k]),
                },
            );
        } else {
            steps.push(SeqStep { delta_t: 0, duration: MIN_DURATION, class: 0 });
        }
        assert(steps@ =~= all.take(k + 1));
        k = k + 1;
    }
    assert(all.take(len as int) =~= all);
    steps
}

/// The length of the longest history among the rows; one where all are empty.
pub fn longest(rows: &[Row]) -> (len: usize)
    ensures
        len >= 1,
        forall|k: int| 0 <= k < rows@.len() ==> (#[trigger] rows@[k]).pos <= len,
        len == 1 || exists|k: int| 0 <= k < rows@.len() && (#[trigger] rows@[k]).pos == len,
{
    let mut len: usize = 1;
    let mut k: usize = 0;
    while k < rows.len()
        invariant
            k <= rows@.len(),
            len >= 1,
            forall|j: int| 0 <= j < k ==> (#[trigger] rows@[j]).pos <= len,
            len == 1 || exists|j: int| 0 <= j < k && (#[trigger] rows@[j]).pos == len,
        decreases rows.len() - k,
    {
        let pos: usize = rows[k].pos as usize;
        if pos > len {
            len = pos;
            assert(rows@[k as int].pos == len);
        }
        k = k + 1;
    }
    len
}

/// A sequence as long as the longest history holds every history whole.
pub proof fn lemma_history_kept(ds: Dataset, row: Row, len: nat, k: int)
    requires
        features::refers(ds, row),
        0 <= k < row.pos <= len,
    ensures
        Seq::new(len, |k: int| step_of(ds, row, k))[k].delta_t
            == ds.cards@[row.card_idx as int].dt_active@[k],
{
}

/// A step shows the review at its place: its interval, its time between a tenth of a second and a
/// minute, and which of the four buttons was pressed. Steps behind the history are empty.
pub proof fn lemma_steps_show_history(ds: Dataset, row: Row, k: int)
    requires
        0 <= k,
    ensures
        ({
            let card = ds.cards@[row.card_idx as int];
            let step = step_of(ds, row, k);
            &&& k < row.pos ==> {
                let took = card.durations@[k];
                &&& step.delta_t == card.dt_active@[k]
                &&& 1 <= card.ratings@[k] <= 4 ==> step.class + 1 == card.ratings@[k]
                &&& 100 <= step.duration <= 60_000
                &&& step.duration > 100 ==> took >= step.duration
                &&& step.duration < 60_000 ==> took <= step.duration
            }
            &&& k >= row.pos ==> step.delta_t == 0 && step.duration == 100 && step.class == 0
        }),
{
}

/// Ratings of different buttons are of different classes, four of them.
pub proof fn lemma_classes_distinct(a: i64, b: i64)
    requires
        1 <= a < b <= 4,
    ensures
        rating_class(a) < rating_class(b) < 4,
{
}

} // verus!
