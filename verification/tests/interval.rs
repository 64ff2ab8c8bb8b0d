use srs_benchmark::data::RawRevlogs;
use srs_benchmark::interval::{apply_floor, apply_interval_def, is_measurable};

fn raw2() -> RawRevlogs {
    RawRevlogs {
        card_id: vec![7, 7],
        day_offset: vec![0, 1],
        rating: vec![3, 3],
        state: vec![0, 1],
        duration: vec![500, 300],
        elapsed_days: vec![-1, 1],
        elapsed_seconds: vec![-1, 100],
        review_time: vec![1000, 101_500],
    }
}

#[test]
fn end_to_end_and_start_from_timestamps() {
    let mut r = raw2();
    apply_interval_def(&mut r, "end_to_end", 0);
    assert_eq!(r.elapsed_seconds, vec![-1, 100]);

    let mut r = raw2();
    apply_interval_def(&mut r, "end_to_start", 0);
    assert_eq!(r.elapsed_seconds, vec![-1, 100]);
}

#[test]
fn end_to_start_clamps_before_truncating() {
    let mut r = raw2();
    r.review_time = vec![1000, 1600];
    r.elapsed_seconds = vec![-1, 0];
    apply_interval_def(&mut r, "end_to_start", 0);
    assert_eq!(r.elapsed_seconds[1], 0);
}

#[test]
fn without_timestamps_end_to_start_subtracts_this_duration() {
    let mut r = raw2();
    r.review_time = Vec::new();
    r.elapsed_seconds = vec![-1, 100];
    apply_interval_def(&mut r, "end_to_start", 0);
    assert_eq!(r.elapsed_seconds, vec![-1, 99]);

    let mut r = raw2();
    r.review_time = Vec::new();
    apply_interval_def(&mut r, "end_to_end", 0);
    assert_eq!(r.elapsed_seconds, vec![-1, 100]);
}

#[test]
fn floor_raises_short_gaps_but_never_the_sentinel() {
    let mut r = raw2();
    r.review_time = vec![1000, 1600];
    r.elapsed_seconds = vec![-1, 0];
    apply_interval_def(&mut r, "end_to_start", 1);
    assert_eq!(r.elapsed_seconds, vec![-1, 1]);

    let mut r = raw2();
    apply_interval_def(&mut r, "end_to_start", 1);
    assert_eq!(r.elapsed_seconds, vec![-1, 100]);
}

#[test]
fn floor_applies_to_the_stored_column_too() {
    let mut r = raw2();
    r.elapsed_seconds = vec![-1, 0];
    apply_interval_def(&mut r, "stored", 1);
    assert_eq!(r.elapsed_seconds, vec![-1, 1]);
}

#[test]
fn sentinel_is_kept_for_the_first_review_of_a_card() {
    let mut r = raw2();
    r.card_id = vec![7, 8];
    apply_interval_def(&mut r, "end_to_start", 0);
    assert_eq!(r.elapsed_seconds, vec![-1, -1]);
}

#[test]
fn other_definitions_are_told() {
    let mut r = raw2();
    assert!(apply_interval_def(&mut r, "stored", 0));
    assert_eq!(r.elapsed_seconds, vec![-1, 100]);
    assert!(apply_interval_def(&mut r, "end_to_end", 0));
    assert!(apply_interval_def(&mut r, "end_to_start", 0));
    assert!(!apply_interval_def(&mut r, "start_to_start", 0));
}

#[test]
fn whole_seconds_are_cut_not_rounded() {
    let mut r = raw2();
    r.review_time = vec![1000, 5999];
    apply_interval_def(&mut r, "end_to_start", 0);
    assert_eq!(r.elapsed_seconds, vec![-1, 4]);
    r.elapsed_seconds = vec![-1, 100];
    apply_interval_def(&mut r, "end_to_end", 0);
    assert_eq!(r.elapsed_seconds, vec![-1, 4]);
    r.review_time = vec![1000, 5200];
    apply_interval_def(&mut r, "end_to_end", 0);
    assert_eq!(r.elapsed_seconds, vec![-1, 4]);
}

#[test]
fn end_to_start_is_never_longer() {
    let mut a = raw2();
    let mut b = raw2();
    a.duration = vec![500, 99_000];
    b.duration = vec![500, 99_000];
    apply_interval_def(&mut a, "end_to_start", 0);
    apply_interval_def(&mut b, "end_to_end", 0);
    assert_eq!(a.elapsed_seconds, vec![-1, 100]);
    assert_eq!(b.elapsed_seconds, vec![-1, 199]);
}

#[test]
fn a_floor_of_zero_or_less_changes_nothing() {
    let mut r = raw2();
    r.elapsed_seconds = vec![-1, 0];
    apply_floor(&mut r, 0);
    assert_eq!(r.elapsed_seconds, vec![-1, 0]);
    apply_floor(&mut r, -5);
    assert_eq!(r.elapsed_seconds, vec![-1, 0]);
    apply_floor(&mut r, 7);
    assert_eq!(r.elapsed_seconds, vec![-1, 7]);
}

#[test]
fn times_that_do_not_fit_are_told() {
    let mut r = raw2();
    assert!(is_measurable(&r, "end_to_start") && is_measurable(&r, "end_to_end"));
    r.review_time[1] = i64::MAX;
    assert!(!is_measurable(&r, "end_to_end") && !is_measurable(&r, "end_to_start"));
    assert!(is_measurable(&r, "stored"));
    r.duration[1] = 0;
    assert!(is_measurable(&r, "end_to_start") && is_measurable(&r, "end_to_end"));
    r.review_time[0] = -1000;
    assert!(!is_measurable(&r, "end_to_start"));
    r.elapsed_seconds[1] = -1;
    assert!(is_measurable(&r, "end_to_start"));
    r.review_time.clear();
    r.elapsed_seconds[1] = i64::MAX / 1000 + 1;
    assert!(!is_measurable(&r, "end_to_start"));
    assert!(is_measurable(&r, "end_to_end"));
}
