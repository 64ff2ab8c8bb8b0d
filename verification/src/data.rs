//! The review log of one user.

use vstd::prelude::*;

verus! {

/// The columns of a review log, in file order.
#[derive(Debug, Clone)]
pub struct RawRevlogs {
    pub card_id: Vec<i64>,
    pub day_offset: Vec<i64>,
    pub rating: Vec<i64>,
    pub state: Vec<i64>,
    pub duration: Vec<i64>,
    pub elapsed_days: Vec<i64>,
    pub elapsed_seconds: Vec<i64>,
    /// When the card was shown, in milliseconds; empty where the dataset has no timestamps.
    pub review_time: Vec<i64>,
}

impl Default for RawRevlogs {
    /// A log without reviews.
    fn default() -> (r: Self)
        ensures
            r.card_id@ == Seq::<i64>::empty(),
            r.day_offset@ == Seq::<i64>::empty(),
            r.rating@ == Seq::<i64>::empty(),
            r.state@ == Seq::<i64>::empty(),
            r.duration@ == Seq::<i64>::empty(),
            r.elapsed_days@ == Seq::<i64>::empty(),
            r.elapsed_seconds@ == Seq::<i64>::empty(),
            r.review_time@ == Seq::<i64>::empty(),
    {
        RawRevlogs {
            card_id: Vec::new(),
            day_offset: Vec::new(),
            rating: Vec::new(),
            state: Vec::new(),
            duration: Vec::new(),
            elapsed_days: Vec::new(),
            elapsed_seconds: Vec::new(),
            review_time: Vec::new(),
        }
    }
}

impl RawRevlogs {
    /// The columns that feature engineering reads are as long as the log.
    pub open spec fn wf(self) -> bool {
        &&& self.rating@.len() == self.card_id@.len()
        &&& self.duration@.len() == self.card_id@.len()
        &&& self.elapsed_days@.len() == self.card_id@.len()
        &&& self.elapsed_seconds@.len() == self.card_id@.len()
    }

    /// Whether the columns that feature engineering reads are as long as the log.
    pub fn is_wf(&self) -> (r: bool)
        ensures
            r == self.wf(),
    {
        let n: usize = self.card_id.len();
        self.rating.len() == n && self.duration.len() == n && self.elapsed_days.len() == n
            && self.elapsed_seconds.len() == n
    }

    /// The number of reviews.
    pub fn len(&self) -> (r: usize)
        ensures
            r == self.card_id@.len(),
    {
        self.card_id.len()
    }

    /// Whether there is no review.
    pub fn is_empty(&self) -> (r: bool)
        ensures
            r == (self.card_id@.len() == 0),
    {
        self.card_id.len() == 0
    }
}

} // verus!
