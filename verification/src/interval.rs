//! How the interval between two reviews of a card is measured.
//!
//! A review spans from the moment its card is shown to the moment it is answered. The interval in
//! front of a review ends when the card is shown (`end_to_start`) or when it is answered
//! (`end_to_end`); either way it begins when the card was last answered.

use crate::counting;
use crate::data::RawRevlogs;
use crate::text;
use std::collections::HashMap;
use vstd::prelude::*;

verus! {

/// The review of the same card that comes last before review `i`.
pub open spec fn previous_review(raw: RawRevlogs, i: int) -> Option<int> {
    counting::last_where(i as nat, |j: int| raw.card_id@[j] == raw.card_id@[i])
}

/// When review `i` was answered, in milliseconds.
pub open spec fn answered_at(raw: RawRevlogs, i: int) -> int {
    raw.review_time@[i] + raw.duration@[i]
}

/// The gap from the answer of review `j` to review `i`, in milliseconds.
pub open spec fn gap_ms(raw: RawRevlogs, j: int, i: int, end_to_start: bool) -> int {
    if end_to_start {
        raw.review_time@[i] - answered_at(raw, j)
    } else {
        answered_at(raw, i) - answered_at(raw, j)
    }
}

/// Whole seconds of a gap; a negative gap counts as none.
pub open spec fn whole_seconds(ms: int) -> int {
    if ms < 0 {
        0
    } else {
        ms / 1000
    }
}

/// A log with a timestamp for every review.
pub open spec fn has_timestamps(raw: RawRevlogs) -> bool {
    raw.review_time@.len() == raw.card_id@.len()
}

/// The interval in front of review `i` under a definition, before the floor. `-1` says that no
/// earlier review of the card is known.
pub open spec fn measured(raw: RawRevlogs, i: int, end_to_start: bool) -> int {
    if has_timestamps(raw) {
        match previous_review(raw, i) {
            Some(j) => if raw.elapsed_seconds@[i] >= 0 {
                whole_seconds(gap_ms(raw, j, i, end_to_start))
            } else {
                -1
            },
            None => -1,
        }
    } else if end_to_start && raw.elapsed_seconds@[i] >= 0 {
        whole_seconds(raw.elapsed_seconds@[i] * 1000 - raw.duration@[i])
    } else {
        raw.elapsed_seconds@[i] as int
    }
}

/// A known interval is raised to the floor; `-1` is left alone.
pub open spec fn floored(v: int, floor_to: int) -> int {
    if 0 <= v < floor_to {
        floor_to
    } else {
        v
    }
}

/// The interval in front of review `i` under the named definition. A name that is neither
/// `end_to_start` nor `end_to_end` stands for the stored column.
pub open spec fn interval_under(
    raw: RawRevlogs,
    i: int,
    interval_def: Seq<char>,
    min_interval_secs: int,
) -> int {
    floored(
        if interval_def == "end_to_start"@ {
            measured(raw, i, true)
        } else if interval_def == "end_to_end"@ {
            measured(raw, i, false)
        } else {
            raw.elapsed_seconds@[i] as int
        },
        min_interval_secs,
    )
}

spec fn in_i64(v: int) -> bool {
    i64::MIN <= v <= i64::MAX
}

/// The sums and differences that the definition asks for fit their type.
pub open spec fn measurable(raw: RawRevlogs, end_to_start: bool) -> bool {
    if has_timestamps(raw) {
        &&& forall|i: int|
            0 <= i < raw.card_id@.len() ==> i64::MIN <= #[trigger] answered_at(raw, i) <= i64::MAX
        &&& forall|i: int, j: int|
            0 <= j < i < raw.card_id@.len() && raw.elapsed_seconds@[i] >= 0 && previous_review(
                raw,
                i,
            ) == Some(j) ==> i64::MIN <= #[trigger] gap_ms(raw, j, i, end_to_start) <= i64::MAX
    } else {
        end_to_start ==> forall|i: int|
            0 <= i < raw.card_id@.len() && #[trigger] raw.elapsed_seconds@[i] >= 0 ==> {
                &&& raw.elapsed_seconds@[i] * 1000 <= i64::MAX
                &&& i64::MIN <= raw.elapsed_seconds@[i] * 1000 - raw.duration@[i] <= i64::MAX
            }
    }
}

/// Everything but the interval column is as before.
pub open spec fn same_but_intervals(a: RawRevlogs, b: RawRevlogs) -> bool {
    &&& a.card_id == b.card_id
    &&& a.day_offset == b.day_offset
    &&& a.rating == b.rating
    &&& a.state == b.state
    &&& a.duration == b.duration
    &&& a.elapsed_days == b.elapsed_days
    &&& a.review_time == b.review_time
    &&& a.elapsed_seconds@.len() == b.elapsed_seconds@.len()
}

/// Raises every known interval to at least `floor_to` seconds. A floor of zero or less does
/// nothing.
pub fn apply_floor(raw: &mut RawRevlogs, floor_to: i64)
    ensures
        same_but_intervals(*final(raw), *old(raw)),
        forall|i: int|
            0 <= i < old(raw).elapsed_seconds@.len() ==> #[trigger] final(raw).elapsed_seconds@[i]
                == floored(old(raw).elapsed_seconds@[i] as int, floor_to as int),
{
    if floor_to <= 0 {
        return;
    }
    let ghost before = *raw;
    let n: usize = raw.elapsed_seconds.len();
    let mut i: usize = 0;
    while i < n
        invariant
            i <= n,
            n == before.elapsed_seconds@.len(),
            same_but_intervals(*raw, before),
            floor_to > 0,
            forall|k: int|
                0 <= k < i ==> #[trigger] raw.elapsed_seconds@[k] == floored(
                    before.elapsed_seconds@[k] as int,
                    floor_to as int,
                ),
            forall|k: int|
                i <= k < n ==> #[trigger] raw.elapsed_seconds@[k] == before.elapsed_seconds@[k],
        decreases n - i,
    {
        let v: i64 = raw.elapsed_seconds[i];
        if v >= 0 && v < floor_to {
            raw.elapsed_seconds[i] = floor_to;
        }
        i = i + 1;
    }
}

fn whole(ms: i64) -> (r: i64)
    ensures
        r == whole_seconds(ms as int),
{
    if ms < 0 {
        0
    } else {
        ms / 1000
    }
}

/// `answers` maps card `c` to the answer time of its last review among the first `n`.
spec fn last_answer_known(answers: Map<i64, i64>, raw: RawRevlogs, n: nat, c: i64) -> bool {
    match counting::last_where(n, |j: int| raw.card_id@[j] == c) {
        Some(j) => answers.contains_key(c) && answers[c] == answered_at(raw, j),
        None => !answers.contains_key(c),
    }
}

fn measure_from_timestamps(raw: &mut RawRevlogs, end_to_start: bool)
    requires
        old(raw).wf(),
        has_timestamps(*old(raw)),
        measurable(*old(raw), end_to_start),
    ensures
        same_but_intervals(*final(raw), *old(raw)),
        forall|i: int|
            0 <= i < old(raw).card_id@.len() ==> #[trigger] final(raw).elapsed_seconds@[i]
                == measured(*old(raw), i, end_to_start),
{
    broadcast use vstd::std_specs::hash::group_hash_axioms;

    let ghost before = *raw;
    let n: usize = raw.card_id.len();
    let mut prev_answer: HashMap<i64, i64> = HashMap::new();
    let mut i: usize = 0;
    while i < n
        invariant
            i <= n,
            n == before.card_id@.len(),
            before.wf(),
            has_timestamps(before),
            measurable(before, end_to_start),
            same_but_intervals(*raw, before),
            forall|k: int|
                0 <= k < i ==> #[trigger] raw.elapsed_seconds@[k] == measured(
                    before,
                    k,
                    end_to_start,
                ),
            forall|k: int|
                i <= k < n ==> #[trigger] raw.elapsed_seconds@[k] == before.elapsed_seconds@[k],
            forall|c: i64| #[trigger] last_answer_known(prev_answer@, before, i as nat, c),
        decreases n - i,
    {
        let card: i64 = raw.card_id[i];
        let show: i64 = raw.review_time[i];
        assert(in_i64(answered_at(before, i as int)));
        let answer: i64 = show + raw.duration[i];
        let ghost seen = |j: int| before.card_id@[j] == card;
        let ghost answers = prev_answer@;
        proof {
            assert(seen =~= |j: int| before.card_id@[j] == before.card_id@[i as int]);
            counting::lemma_last_where(i as nat, seen);
            assert(last_answer_known(answers, before, i as nat, card));
        }
        let known: Option<&i64> = prev_answer.get(&card);
        let out: i64 = match known {
            Some(pa) => {
                if raw.elapsed_seconds[i] >= 0 {
                    proof {
                        let j = counting::last_where(i as nat, seen)->0;
                        assert(in_i64(gap_ms(before, j, i as int, end_to_start)));
                    }
                    let ms: i64 = if end_to_start {
                        show - *pa
                    } else {
                        answer - *pa
                    };
                    whole(ms)
                } else {
                    -1
                }
            },
            None => -1,
        };
        raw.elapsed_seconds[i] = out;
        prev_answer.insert(card, answer);
        proof {
            assert forall|c: i64| #[trigger]
                last_answer_known(prev_answer@, before, (i + 1) as nat, c) by {
                assert(last_answer_known(answers, before, i as nat, c));
            }
        }
        i = i + 1;
    }
}

fn subtract_own_duration(raw: &mut RawRevlogs)
    requires
        old(raw).wf(),
        !has_timestamps(*old(raw)),
        measurable(*old(raw), true),
    ensures
        same_but_intervals(*final(raw), *old(raw)),
        forall|i: int|
            0 <= i < old(raw).card_id@.len() ==> #[trigger] final(raw).elapsed_seconds@[i]
                == measured(*old(raw), i, true),
{
    let ghost before = *raw;
    let n: usize = raw.card_id.len();
    let mut i: usize = 0;
    while i < n
        invariant
            i <= n,
            n == before.card_id@.len(),
            before.wf(),
            !has_timestamps(before),
            measurable(before, true),
            same_but_intervals(*raw, before),
            forall|k: int|
                0 <= k < i ==> #[trigger] raw.elapsed_seconds@[k] == measured(before, k, true),
            forall|k: int|
                i <= k < n ==> #[trigger] raw.elapsed_seconds@[k] == before.elapsed_seconds@[k],
        decreases n - i,
    {
        let stored: i64 = raw.elapsed_seconds[i];
        if stored >= 0 {
            assert(before.elapsed_seconds@[i as int] * 1000 <= i64::MAX);
            raw.elapsed_seconds[i] = whole(stored * 1000 - raw.duration[i]);
        }
        i = i + 1;
    }
}

fn timestamps_fit(raw: &RawRevlogs, end_to_start: bool) -> (r: bool)
    requires
        raw.wf(),
        has_timestamps(*raw),
    ensures
        r == measurable(*raw, end_to_start),
{
    broadcast use vstd::std_specs::hash::group_hash_axioms;

    let n: usize = raw.card_id.len();
    let mut prev_answer: HashMap<i64, i64> = HashMap::new();
    let mut i: usize = 0;
    while i < n
        invariant
            i <= n,
            n == raw.card_id@.len(),
            raw.wf(),
            has_timestamps(*raw),
            forall|k: int| 0 <= k < i ==> in_i64(#[trigger] answered_at(*raw, k)),
            forall|k: int, j: int|
                0 <= j < k < i && raw.elapsed_seconds@[k] >= 0 && previous_review(*raw, k) == Some(
                    j,
                ) ==> in_i64(#[trigger] gap_ms(*raw, j, k, end_to_start)),
            forall|c: i64| #[trigger] last_answer_known(prev_answer@, *raw, i as nat, c),
        decreases n - i,
    {
        let card: i64 = raw.card_id[i];
        let show: i64 = raw.review_time[i];
        let answer: i64 = match show.checked_add(raw.duration[i]) {
            Some(t) => t,
            None => {
                assert(!in_i64(answered_at(*raw, i as int)));
                return false;
            },
        };
        let ghost seen = |j: int| raw.card_id@[j] == card;
        let ghost answers = prev_answer@;
        proof {
            assert(seen =~= |j: int| raw.card_id@[j] == raw.card_id@[i as int]);
            counting::lemma_last_where(i as nat, seen);
            assert(last_answer_known(answers, *raw, i as nat, card));
        }
        if let Some(pa) = prev_answer.get(&card) {
            let end: i64 = if end_to_start {
                show
            } else {
                answer
            };
            if raw.elapsed_seconds[i] >= 0 && end.checked_sub(*pa).is_none() {
                proof {
                    let j = counting::last_where(i as nat, seen)->0;
                    assert(previous_review(*raw, i as int) == Some(j));
                    assert(!in_i64(gap_ms(*raw, j, i as int, end_to_start)));
                }
                return false;
            }
        }
        prev_answer.insert(card, answer);
        proof {
            assert forall|c: i64| #[trigger]
                last_answer_known(prev_answer@, *raw, (i + 1) as nat, c) by {
                assert(last_answer_known(answers, *raw, i as nat, c));
            }
        }
        i = i + 1;
    }
    true
}

fn durations_fit(raw: &RawRevlogs) -> (r: bool)
    requires
        raw.wf(),
        !has_timestamps(*raw),
    ensures
        r == measurable(*raw, true),
{
    let n: usize = raw.card_id.len();
    let mut i: usize = 0;
    while i < n
        invariant
            i <= n,
            n == raw.card_id@.len(),
            raw.wf(),
            !has_timestamps(*raw),
            forall|k: int|
                0 <= k < i && #[trigger] raw.elapsed_seconds@[k] >= 0 ==> {
                    &&& raw.elapsed_seconds@[k] * 1000 <= i64::MAX
                    &&& in_i64(raw.elapsed_seconds@[k] * 1000 - raw.duration@[k])
                },
        decreases n - i,
    {
        let stored: i64 = raw.elapsed_seconds[i];
        if stored >= 0 {
            if stored > i64::MAX / 1000 || (stored * 1000).checked_sub(raw.duration[i]).is_none() {
                assert(raw.elapsed_seconds@[i as int] >= 0);
                return false;
            }
        }
        i = i + 1;
    }
    true
}

/// Whether the sums and differences that the named definition asks for fit their type.
pub fn is_measurable(raw: &RawRevlogs, interval_def: &str) -> (r: bool)
    requires
        raw.wf(),
    ensures
        r == ((interval_def@ == "end_to_start"@ ==> measurable(*raw, true)) && (interval_def@
            == "end_to_end"@ ==> measurable(*raw, false))),
{
    let end_to_start: bool = text::same_text(interval_def, "end_to_start");
    let end_to_end: bool = text::same_text(interval_def, "end_to_end");
    proof {
        reveal_strlit("end_to_start");
        reveal_strlit("end_to_end");
        assert("end_to_start"@.len() != "end_to_end"@.len());
    }
    if !end_to_start && !end_to_end {
        true
    } else if raw.review_time.len() == raw.card_id.len() {
        timestamps_fit(raw, end_to_start)
    } else if end_to_start {
        durations_fit(raw)
    } else {
        true
    }
}

/// Rewrites the interval column to the named definition, then applies the floor. Returns whether
/// the name is known; an unknown one leaves the stored column.
pub fn apply_interval_def(
    raw: &mut RawRevlogs,
    interval_def: &str,
    min_interval_secs: i64,
) -> (known: bool)
    requires
        old(raw).wf(),
        interval_def@ == "end_to_start"@ ==> measurable(*old(raw), true),
        interval_def@ == "end_to_end"@ ==> measurable(*old(raw), false),
    ensures
        known == (interval_def@ == "stored"@ || interval_def@ == "end_to_start"@ || interval_def@
            == "end_to_end"@),
        same_but_intervals(*final(raw), *old(raw)),
        final(raw).card_id@ == old(raw).card_id@ && final(raw).rating@ == old(raw).rating@,
        final(raw).day_offset@ == old(raw).day_offset@ && final(raw).state@ == old(raw).state@,
        final(raw).duration@ == old(raw).duration@ && final(raw).elapsed_days@ == old(
            raw,
        ).elapsed_days@,
        final(raw).review_time@ == old(raw).review_time@,
        final(raw).elapsed_seconds@.len() == old(raw).elapsed_seconds@.len(),
        forall|i: int|
            0 <= i < old(raw).card_id@.len() ==> #[trigger] final(raw).elapsed_seconds@[i]
                == interval_under(*old(raw), i, interval_def@, min_interval_secs as int),
{
    let stored: bool = text::same_text(interval_def, "stored");
    let end_to_start: bool = text::same_text(interval_def, "end_to_start");
    let end_to_end: bool = text::same_text(interval_def, "end_to_end");
    proof {
        reveal_strlit("end_to_start");
        reveal_strlit("end_to_end");
        assert("end_to_start"@.len() != "end_to_end"@.len());
    }
    if end_to_start || end_to_end {
        if raw.review_time.len() == raw.card_id.len() {
            measure_from_timestamps(raw, end_to_start);
        } else if end_to_start {
            subtract_own_duration(raw);
        }
    }
    apply_floor(raw, min_interval_secs);
    stored || end_to_start || end_to_end
}

/// Whether a review has an interval at all does not depend on the definition: both measure the
/// same reviews and leave the same ones without.
pub proof fn lemma_same_reviews_measured(raw: RawRevlogs, i: int)
    requires
        0 <= i < raw.card_id@.len(),
    ensures
        measured(raw, i, true) >= 0 <==> measured(raw, i, false) >= 0,
        has_timestamps(raw) ==> (measured(raw, i, true) >= 0 <==> previous_review(raw, i) is Some
            && raw.elapsed_seconds@[i] >= 0),
        has_timestamps(raw) && measured(raw, i, true) < 0 ==> measured(raw, i, true) == -1
            && measured(raw, i, false) == -1,
{
}

/// An interval that ends when the card is shown is no longer than one that ends when it is
/// answered.
pub proof fn lemma_end_to_start_not_longer(raw: RawRevlogs, i: int)
    requires
        0 <= i < raw.card_id@.len(),
        raw.duration@[i] >= 0,
    ensures
        measured(raw, i, true) <= measured(raw, i, false),
{
}

/// With a floor of at least one second the two definitions keep exactly the same reviews: those
/// that have an interval at all.
pub proof fn lemma_floor_pairs_definitions(raw: RawRevlogs, i: int, min_interval_secs: int)
    requires
        0 <= i < raw.card_id@.len(),
        min_interval_secs >= 1,
    ensures
        interval_under(raw, i, "end_to_start"@, min_interval_secs) > 0 <==> measured(raw, i, true)
            >= 0,
        interval_under(raw, i, "end_to_start"@, min_interval_secs) > 0 <==> interval_under(
            raw,
            i,
            "end_to_end"@,
            min_interval_secs,
        ) > 0,
{
    lemma_same_reviews_measured(raw, i);
    reveal_strlit("end_to_start");
    reveal_strlit("end_to_end");
    assert("end_to_start"@.len() != "end_to_end"@.len());
}

/// The floor never turns an unknown interval into a known one, and never shortens one.
pub proof fn lemma_floor_keeps_unknown(v: int, floor_to: int)
    ensures
        v < 0 ==> floored(v, floor_to) == v,
        v >= 0 ==> floored(v, floor_to) >= v && floored(v, floor_to) >= floor_to,
        floor_to <= 0 ==> floored(v, floor_to) == v,
{
}

/// The interval in front of a review begins at the answer of the review of the same card that comes
/// next before it, and counts whole seconds, none where it would be negative. By one definition it
/// ends when the card is answered, by the other when it is shown. A smaller interval than the floor is
/// raised to it.
pub proof fn lemma_interval_since_previous(raw: RawRevlogs, j: int, i: int, min_interval_secs: int)
    requires
        raw.review_time@.len() == raw.card_id@.len(),
        0 <= j < i < raw.card_id@.len(),
        raw.card_id@[j] == raw.card_id@[i],
        forall|k: int| j < k < i ==> #[trigger] raw.card_id@[k] != raw.card_id@[i],
        raw.elapsed_seconds@[i] >= 0,
    ensures
        ({
            let ms = raw.review_time@[i] + raw.duration@[i] - raw.review_time@[j]
                - raw.duration@[j];
            let v = interval_under(raw, i, "end_to_end"@, min_interval_secs);
            &&& v >= 0 && v >= min_interval_secs
            &&& v > min_interval_secs && v > 0 ==> 1000 * v <= ms < 1000 * v + 1000
            &&& v == min_interval_secs || v == 0 ==> ms < 1000 * v + 1000
        }),
        ({
            let ms = raw.review_time@[i] - raw.review_time@[j] - raw.duration@[j];
            let v = interval_under(raw, i, "end_to_start"@, min_interval_secs);
            &&& v >= 0 && v >= min_interval_secs
            &&& v > min_interval_secs && v > 0 ==> 1000 * v <= ms < 1000 * v + 1000
            &&& v == min_interval_secs || v == 0 ==> ms < 1000 * v + 1000
        }),
{
    reveal_strlit("end_to_start");
    reveal_strlit("end_to_end");
    assert("end_to_start"@.len() != "end_to_end"@.len());
    let same = |k: int| raw.card_id@[k] == raw.card_id@[i];
    counting::lemma_last_where(i as nat, same);
    let last = counting::last_where(i as nat, same);
    if last is None {
        assert(!same(j));
    } else if last->0 < j {
        assert(!same(j));
    }
    assert(last == Some(j));
    assert(previous_review(raw, i) == Some(j));
}

/// A review without an earlier one of its card has no interval, and neither has one that was stored
/// without.
pub proof fn lemma_no_interval(raw: RawRevlogs, i: int, min_interval_secs: int)
    requires
        raw.review_time@.len() == raw.card_id@.len(),
        0 <= i < raw.card_id@.len(),
        raw.elapsed_seconds@[i] < 0 || forall|k: int|
            0 <= k < i ==> #[trigger] raw.card_id@[k] != raw.card_id@[i],
    ensures
        interval_under(raw, i, "end_to_end"@, min_interval_secs) == -1,
        interval_under(raw, i, "end_to_start"@, min_interval_secs) == -1,
{
    reveal_strlit("end_to_start");
    reveal_strlit("end_to_end");
    assert("end_to_start"@.len() != "end_to_end"@.len());
    let same = |k: int| raw.card_id@[k] == raw.card_id@[i];
    counting::lemma_last_where(i as nat, same);
}

/// Without timestamps the stored interval ends when the card is answered; the time that the review
/// itself took is taken off to end it when the card is shown. A review stored without an interval
/// stays so.
pub proof fn lemma_interval_without_timestamps(raw: RawRevlogs, i: int, min_interval_secs: int)
    requires
        raw.review_time@.len() != raw.card_id@.len(),
        0 <= i < raw.card_id@.len(),
    ensures
        interval_under(raw, i, "end_to_end"@, min_interval_secs) == interval_under(
            raw,
            i,
            "stored"@,
            min_interval_secs,
        ),
        raw.elapsed_seconds@[i] < 0 ==> interval_under(raw, i, "end_to_start"@, min_interval_secs)
            == raw.elapsed_seconds@[i],
        raw.elapsed_seconds@[i] >= 0 ==> {
            let ms = 1000 * raw.elapsed_seconds@[i] - raw.duration@[i];
            let v = interval_under(raw, i, "end_to_start"@, min_interval_secs);
            &&& v >= 0 && v >= min_interval_secs
            &&& v > min_interval_secs && v > 0 ==> 1000 * v <= ms < 1000 * v + 1000
            &&& v == min_interval_secs || v == 0 ==> ms < 1000 * v + 1000
        },
{
    reveal_strlit("stored");
    reveal_strlit("end_to_start");
    reveal_strlit("end_to_end");
    assert("end_to_start"@.len() != "end_to_end"@.len());
    assert("end_to_start"@.len() != "stored"@.len());
    assert("end_to_end"@.len() != "stored"@.len());
}

/// A name that is neither of the two leaves the stored intervals, raised to the floor where they are
/// known.
pub proof fn lemma_stored_interval(
    raw: RawRevlogs,
    i: int,
    interval_def: Seq<char>,
    min_interval_secs: int,
)
    requires
        0 <= i < raw.card_id@.len(),
        interval_def != "end_to_start"@,
        interval_def != "end_to_end"@,
    ensures
        ({
            let (v, stored) = (
                interval_under(raw, i, interval_def, min_interval_secs),
                raw.elapsed_seconds@[i] as int,
            );
            &&& stored < 0 ==> v == stored
            &&& stored >= 0 ==> v >= stored && v >= min_interval_secs && (v == stored || v
                == min_interval_secs)
        }),
{
}

/// Times within an eighth of the range of their type can always be measured with.
pub proof fn lemma_measurable(raw: RawRevlogs, end_to_start: bool)
    requires
        raw.wf(),
        forall|i: int| 0 <= i < raw.review_time@.len() ==> -0x1000_0000_0000_0000
            <= #[trigger] raw.review_time@[i] <= 0x1000_0000_0000_0000,
        forall|i: int| 0 <= i < raw.duration@.len() ==> -0x1000_0000_0000_0000
            <= #[trigger] raw.duration@[i] <= 0x1000_0000_0000_0000,
        forall|i: int|
            0 <= i < raw.elapsed_seconds@.len() ==> #[trigger] raw.elapsed_seconds@[i]
                <= 0x10_0000_0000_0000,
    ensures
        measurable(raw, end_to_start),
{
    if has_timestamps(raw) {
        assert forall|i: int| 0 <= i < raw.card_id@.len() implies i64::MIN <= #[trigger] answered_at(
            raw,
            i,
        ) <= i64::MAX by {
            assert(-0x1000_0000_0000_0000 <= raw.review_time@[i] <= 0x1000_0000_0000_0000);
            assert(-0x1000_0000_0000_0000 <= raw.duration@[i] <= 0x1000_0000_0000_0000);
        }
        assert forall|i: int, j: int|
            0 <= j < i < raw.card_id@.len() && raw.elapsed_seconds@[i] >= 0 && previous_review(
                raw,
                i,
            ) == Some(j) implies i64::MIN <= #[trigger] gap_ms(raw, j, i, end_to_start)
            <= i64::MAX by {
            assert(-0x1000_0000_0000_0000 <= raw.review_time@[i] <= 0x1000_0000_0000_0000);
            assert(-0x1000_0000_0000_0000 <= raw.duration@[i] <= 0x1000_0000_0000_0000);
            assert(-0x1000_0000_0000_0000 <= raw.review_time@[j] <= 0x1000_0000_0000_0000);
            assert(-0x1000_0000_0000_0000 <= raw.duration@[j] <= 0x1000_0000_0000_0000);
        }
    } else {
        assert forall|i: int|
            0 <= i < raw.card_id@.len() && #[trigger] raw.elapsed_seconds@[i] >= 0 implies {
            &&& raw.elapsed_seconds@[i] * 1000 <= i64::MAX
            &&& i64::MIN <= raw.elapsed_seconds@[i] * 1000 - raw.duration@[i] <= i64::MAX
        } by {
            assert(-0x1000_0000_0000_0000 <= raw.duration@[i] <= 0x1000_0000_0000_0000);
        }
    }
}

} // verus!
