use std::collections::HashMap;

use srs_benchmark::config::{Cli, Config};
use srs_benchmark::data::RawRevlogs;
use srs_benchmark::equalize::{build_equalize_splits, fold_rows, EqualSplit};
use srs_benchmark::features::{create_features, label, tag_partitions, tag_presets, Dataset, Row};
use srs_benchmark::history::{
    build_items, dash_features, hlr_features, sm2_steps, trainable_steps, training_rows, IntervalStep,
};
use srs_benchmark::initial_stability::{interpolate, reconcile, second_reviews, Fill};
use srs_benchmark::logistic::{compute_features, Term, COLUMNS};
use srs_benchmark::neural::{build_input, longest};
use srs_benchmark::summary::{label_sum, summarize};

fn cli() -> Cli {
    Cli {
        processes: 8,
        gpus: None,
        dev: false,
        max_user_id: None,
        partitions: "none".into(),
        cluster_method: "ward".into(),
        cluster_threshold: "12".into(),
        cluster_sweep: false,
        cluster_distance: "mahalanobis".into(),
        recency: false,
        default: false,
        s0: false,
        sched_penalties: false,
        two_buttons: false,
        data: "../anki-revlogs-10k".into(),
        secs: false,
        duration: false,
        no_test_same_day: false,
        no_train_same_day: false,
        equalize_test_with_non_secs: false,
        raw: false,
        file: false,
        plot: false,
        algo: "FSRS-7".into(),
        short: false,
        weights: false,
        train_equals_test: false,
        n_splits: 5,
        batch_size: 512,
        max_seq_len: 64,
        torch_num_threads: 1,
        hp_probe: false,
        hp_features: false,
        interval_def: "stored".into(),
        min_interval_secs: 0,
        reopt_growth: "0".into(),
    }
}

fn config(f: fn(&mut Cli)) -> Config {
    let mut c = cli();
    f(&mut c);
    Config::from_cli(&c)
}

// Cards 5 and 3, interleaved.
fn raw() -> RawRevlogs {
    RawRevlogs {
        card_id: vec![5, 3, 5, 5, 3, 5],
        day_offset: vec![0, 0, 1, 1, 2, 9],
        rating: vec![1, 3, 3, 2, 4, 1],
        state: vec![0, 0, 1, 1, 1, 1],
        duration: vec![50, 200, 300, 70_000, 500, 600],
        elapsed_days: vec![-1, -1, 1, 0, 2, 8],
        elapsed_seconds: vec![-1, -1, 86_400, 600, 172_800, 691_200],
        review_time: Vec::new(),
    }
}

fn dataset(f: fn(&mut Cli)) -> Dataset {
    create_features(&raw(), &config(f)).unwrap()
}

#[test]
fn rows_carry_the_history_of_their_card() {
    let ds = dataset(|c| c.short = true);
    assert_eq!(ds.len(), 3);
    assert!(!ds.is_empty());
    let r: Vec<(i64, i64, i64)> = ds.rows.iter().map(|r| (r.card_id, r.review_th, r.delta_t)).collect();
    assert_eq!(r, vec![(5, 3, 1), (3, 5, 2), (5, 6, 8)]);
    assert_eq!(ds.rows[0].card_idx, 1);
    assert_eq!(ds.rows[1].card_idx, 0);
    assert_eq!(ds.rows.iter().map(|r| r.y).collect::<Vec<i64>>(), vec![1, 1, 0]);
    assert_eq!(ds.rows.iter().map(|r| r.i).collect::<Vec<i64>>(), vec![2, 2, 3]);
    assert_eq!(ds.rows.iter().map(|r| r.first_rating).collect::<Vec<i64>>(), vec![1, 3, 1]);
    assert_eq!(ds.rows.iter().map(|r| r.last_rating).collect::<Vec<i64>>(), vec![1, 3, 3]);
    assert_eq!(ds.prior_ratings(&ds.rows[2]), &[1, 3, 2]);
    assert_eq!(ds.prior_dt_active(&ds.rows[2]), &[0, 1, 0]);
    assert_eq!(ds.dt_active_incl(&ds.rows[2]), &[0, 1, 0, 8]);
    assert_eq!(ds.intervals_from_second(&ds.rows[2]), &[1, 0, 8]);
    assert_eq!(ds.prior_durations(&ds.rows[1]), &[200]);
}

#[test]
fn same_day_reviews_are_left_out_by_default() {
    let ds = dataset(|_| ());
    assert_eq!(ds.prior_ratings(&ds.rows[2]), &[1, 3]);
    assert_eq!(ds.rows[2].pos, 2);
}

#[test]
fn seconds_keep_same_day_reviews_as_rows() {
    let ds = dataset(|c| {
        c.short = true;
        c.secs = true;
    });
    let dts: Vec<i64> = ds.rows.iter().map(|r| r.delta_t).collect();
    assert_eq!(dts, vec![86_400, 600, 172_800, 691_200]);
    assert_eq!(ds.rows[3].rmse_bins_lapse, 1);
}

#[test]
fn two_buttons_make_hard_and_easy_good() {
    let ds = dataset(|c| {
        c.short = true;
        c.two_buttons = true;
    });
    assert_eq!(ds.prior_ratings(&ds.rows[2]), &[1, 3, 3]);
    assert_eq!(ds.rows[1].rating, 3);
}

#[test]
fn long_histories_are_cut() {
    let ds = dataset(|c| {
        c.short = true;
        c.max_seq_len = 1;
    });
    assert_eq!(ds.len(), 2);
}

#[test]
fn nothing_left_is_an_error() {
    let mut r = raw();
    r.rating = vec![0; 6];
    let e = create_features(&r, &config(|_| ())).unwrap_err();
    assert_eq!(e, "no data after feature engineering");
    assert_eq!(label(1), 0);
    assert_eq!(label(2), 1);
    assert_eq!(label(4), 1);
}

#[test]
fn partitions_are_those_of_the_cards() {
    let mut ds = dataset(|_| ());
    let map: HashMap<i64, i64> = [(5, 77)].into_iter().collect();
    tag_partitions(&mut ds.rows, &map);
    assert_eq!(ds.rows.iter().map(|r| r.partition).collect::<Vec<i64>>(), vec![77, -1, 77]);
    let presets: HashMap<i64, i64> = [(77, 3)].into_iter().collect();
    tag_presets(&mut ds.rows, &map, &presets);
    assert_eq!(ds.rows.iter().map(|r| r.partition).collect::<Vec<i64>>(), vec![3, -1, 3]);
    tag_presets(&mut ds.rows, &map, &HashMap::new());
    assert_eq!(ds.rows.iter().map(|r| r.partition).collect::<Vec<i64>>(), vec![-1, -1, -1]);
}

#[test]
fn logs_of_unequal_columns_are_told() {
    let mut r = raw();
    assert!(r.is_wf());
    assert_eq!(r.len(), 6);
    r.rating.pop();
    assert!(!r.is_wf());
    assert!(RawRevlogs::default().is_empty());
}

#[test]
fn logistic_terms_of_a_history() {
    let ds = dataset(|c| {
        c.short = true;
        c.secs = true;
    });
    let f = compute_features(&ds);
    assert_eq!(f.len(), 4);
    assert!(f.iter().all(|t| t.len() == COLUMNS));
    // The first row of card 5 follows its failed first review.
    assert_eq!(f[0][0], Term::Flag(true));
    assert_eq!(f[0][1], Term::Flag(false));
    assert_eq!(f[0][6], Term::Log1p(0));
    assert_eq!(f[0][26], Term::Flag(false));
    assert_eq!(f[0][27], Term::Elapsed(0));
    assert_eq!(f[0][28], Term::Flag(false));
    // The second one follows a Good after a day.
    assert_eq!(f[1][2], Term::Flag(true));
    assert_eq!(f[1][7], Term::Log1p(0));
    assert_eq!(f[1][24], Term::Log1p(1));
    assert_eq!(f[1][22], Term::Elapsed(86_400));
    assert_eq!(f[1][27], Term::Elapsed(86_400));
    assert_eq!(f[1][28], Term::Flag(true));
    // The last one follows a Hard on the same day.
    assert_eq!(f[3][1], Term::Flag(true));
    assert_eq!(f[3][7], Term::Log1p(1));
    assert_eq!(f[3][9], Term::Log1p(1));
    assert_eq!(f[3][25], Term::Log1p(0));
    assert_eq!(f[3][26], Term::Flag(true));
    assert_eq!(f[3][29], Term::Elapsed(87_000));
    assert_eq!(f[3][30], Term::Log1p(0));
    // Card 3 began with a Good.
    assert_eq!(f[2][5], Term::Flag(true));
    assert_eq!(f[2][15], Term::Flag(true));
    assert_eq!(f[2][18], Term::Flag(true));
    assert_eq!(f[2][32], Term::Log1p(1));
}

#[test]
fn histories_are_counted() {
    assert_eq!(hlr_features(&[1, 3, 1, 4]), (2, 2));
    assert_eq!(hlr_features(&[]), (0, 0));
    let f = dash_features(&[3, 1, 2], &[10, 1, 1], 1);
    assert_eq!(f, vec![1, 1, 2, 1, 3, 2, 3, 2]);
    let g = dash_features(&[3, 1, 2], &[10 * 86_400, 86_400, 86_400 - 1], 86_400);
    assert_eq!(g, vec![1, 1, 2, 1, 3, 2, 3, 2]);
    let far = dash_features(&[3], &[86_400 * 31], 86_400);
    assert_eq!(far, vec![0, 0, 0, 0, 0, 0, 1, 1]);
}

#[test]
fn intervals_start_over_after_a_lapse() {
    assert_eq!(
        sm2_steps(&[3, 3, 4, 2, 1, 3, 3]),
        vec![
            IntervalStep::First,
            IntervalStep::Second,
            IntervalStep::Grow,
            IntervalStep::Grow,
            IntervalStep::Lapse,
            IntervalStep::First,
            IntervalStep::Second,
        ]
    );
}

#[test]
fn a_lapse_begins_the_next_streak_of_the_trained_schedule() {
    assert_eq!(
        trainable_steps(&[3, 3, 4, 1, 1, 3, 3]),
        vec![
            IntervalStep::First,
            IntervalStep::Second,
            IntervalStep::Grow,
            IntervalStep::First,
            IntervalStep::First,
            IntervalStep::Second,
            IntervalStep::Grow,
        ]
    );
    assert_eq!(trainable_steps(&[]), Vec::new());
}

#[test]
fn training_leaves_long_histories_out() {
    let ds = dataset(|c| c.short = true);
    assert_eq!(training_rows(&ds.rows, 64, 0, false), vec![0, 1, 2]);
    assert_eq!(training_rows(&ds.rows, 2, 0, false), vec![0, 1]);
    assert_eq!(training_rows(&ds.rows, 3, 0, false), vec![0, 1, 2]);
    assert_eq!(training_rows(&ds.rows, 3, 1, false), vec![0, 1]);
    assert_eq!(training_rows(&ds.rows, 64, 0, true), vec![2]);
}

#[test]
fn items_hold_history_and_review() {
    let ds = dataset(|c| {
        c.short = true;
        c.secs = true;
    });
    let items = build_items(&ds, &ds.rows, 86_400);
    assert_eq!(items.len(), 4);
    let last: Vec<(u32, u32)> = items[3].iter().map(|r| (r.rating, r.delta_t)).collect();
    assert_eq!(last, vec![(1, 0), (3, 1), (2, 0), (1, 8)]);
}

#[test]
fn second_reviews_are_gathered_by_interval() {
    let mut ds = dataset(|c| c.short = true);
    let outs = second_reviews(&ds.rows, 1);
    assert_eq!(outs.len(), 1);
    assert_eq!((outs[0].delta_t, outs[0].recalled, outs[0].total), (1, 1, 1));
    assert_eq!(second_reviews(&ds.rows, 2).len(), 0);
    let mut more = ds.rows[0];
    more.y = 0;
    ds.rows.push(more);
    more.delta_t = 9;
    ds.rows.push(more);
    ds.rows.push(more);
    let outs = second_reviews(&ds.rows, 1);
    let got: Vec<(i64, i128, usize)> = outs.iter().map(|o| (o.delta_t, o.recalled, o.total)).collect();
    assert_eq!(got, vec![(1, 1, 2), (9, 0, 2)]);
}

#[test]
fn fits_are_made_to_agree() {
    let some = |v: [i64; 4]| v.map(Some);
    assert_eq!(reconcile(&some([1, 2, 3, 4]), &[1, 1, 1, 1]), vec![0, 1, 2, 3]);
    assert_eq!(reconcile(&some([5, 2, 6, 7]), &[9, 1, 1, 1]), vec![0, 0, 2, 3]);
    assert_eq!(reconcile(&some([5, 2, 6, 7]), &[1, 9, 1, 1]), vec![1, 1, 2, 3]);
    assert_eq!(reconcile(&[Some(5), None, None, Some(2)], &[1, 0, 0, 1]), vec![3, 1, 2, 3]);
    assert_eq!(reconcile(&[None, None, None, None], &[0, 0, 0, 0]), vec![0, 1, 2, 3]);
}

#[test]
fn missing_fits_are_interpolated() {
    let steps = |known: [bool; 4]| match interpolate(&known) {
        Fill::Defaults => vec![(9, 9, 9)],
        Fill::Scale(r) => vec![(r, 8, 8)],
        Fill::Steps(s) => s.iter().map(|s| (s.target, s.low, s.high)).collect(),
    };
    assert_eq!(steps([false, false, false, false]), vec![(9, 9, 9)]);
    assert_eq!(steps([false, true, false, false]), vec![(1, 8, 8)]);
    assert_eq!(steps([false, false, false, true]), vec![(3, 8, 8)]);
    assert_eq!(steps([false, false, true, true]), vec![(1, 2, 3), (0, 1, 2)]);
    assert_eq!(steps([true, false, false, true]), vec![(1, 0, 3), (2, 0, 3)]);
    assert_eq!(steps([true, true, false, false]), vec![(2, 0, 1), (3, 1, 2)]);
    assert_eq!(steps([true, true, false, true]), vec![(2, 1, 3)]);
    assert_eq!(steps([true, true, true, true]), vec![]);
}

#[test]
fn sequences_are_padded_and_bounded() {
    let ds = dataset(|c| c.short = true);
    assert_eq!(longest(&ds.rows), 3);
    assert_eq!(longest(&[]), 1);
    let input = build_input(&ds, &ds.rows[2], 4);
    let got: Vec<(i64, i64, usize)> = input.iter().map(|s| (s.delta_t, s.duration, s.class)).collect();
    assert_eq!(got, vec![(0, 100, 0), (1, 300, 2), (0, 60_000, 1), (0, 100, 0)]);
}

#[test]
fn training_sets_are_described() {
    let ds = dataset(|c| c.short = true);
    let s = summarize(&ds.rows);
    assert_eq!(s.cards, 2);
    assert_eq!(s.buttons, vec![1, 0, 1, 1]);
    assert_eq!(s.same_day, 0);
    assert_eq!(s.positions, 1 + 1 + 3);
    assert_eq!(s.batches, 1);
    assert_eq!(s.median, Some(2));
    let empty = summarize(&[]);
    assert_eq!((empty.cards, empty.batches, empty.median), (0, 0, None));
    assert_eq!(label_sum(&ds.rows), 2);
}

#[test]
fn equal_folds_test_the_reviews_of_the_day_rows() {
    let n = 24;
    let log = RawRevlogs {
        card_id: (0..n).map(|k| k / 4).collect(),
        day_offset: vec![0; n as usize],
        rating: vec![3; n as usize],
        state: vec![1; n as usize],
        duration: vec![100; n as usize],
        elapsed_days: (0..n).map(|k| if k % 4 == 0 { -1 } else { k % 4 - 1 }).collect(),
        elapsed_seconds: (0..n).map(|k| if k % 4 == 0 { -1 } else { 500 + 86_400 * (k % 4 - 1) }).collect(),
        review_time: Vec::new(),
    };
    let secs = create_features(&log, &config(|c| { c.short = true; c.secs = true; })).unwrap();
    let days = create_features(&log, &config(|c| c.short = true)).unwrap();
    assert_eq!((secs.len(), days.len()), (18, 12));
    let folds = build_equalize_splits(&secs.rows, &days.rows, 5).unwrap();
    assert_eq!(folds.len(), 5);
    let tested: Vec<i64> =
        folds.iter().flat_map(|f| f.test_idx.iter().map(|&i| secs.rows[i].review_th)).collect();
    let expected: Vec<i64> = days.rows[2..].iter().map(|r| r.review_th).collect();
    assert_eq!(tested, expected);
    assert_eq!(folds[0].train_end, 4);
    assert!(build_equalize_splits(&secs.rows, &days.rows[..5], 5).is_none());
}

#[test]
fn names_tell_the_options() {
    assert_eq!(config(|_| ()).evaluation_file_name(), "FSRS-7");
    let all = config(|c| {
        c.default = true;
        c.s0 = true;
        c.sched_penalties = true;
        c.two_buttons = true;
        c.short = true;
        c.secs = true;
        c.duration = true;
        c.recency = true;
        c.no_test_same_day = true;
        c.no_train_same_day = true;
        c.equalize_test_with_non_secs = true;
        c.train_equals_test = true;
        c.partitions = "deck".into();
        c.dev = true;
    });
    assert_eq!(
        all.evaluation_file_name(),
        "FSRS-7-default-S0-sched_penalties-binary-short-secs-recency-no_test_same_day-no_train_same_day-equalize_test_with_non_secs-train_equals_test-deck-dev"
    );
    let lstm = config(|c| {
        c.algo = "LSTM".into();
        c.duration = true;
    });
    assert_eq!(lstm.evaluation_file_name(), "LSTM-duration");
    let smart = config(|c| {
        c.partitions = "smart".into();
        c.cluster_distance = "kl".into();
        c.cluster_threshold = "0.02".into();
    });
    assert_eq!(smart.evaluation_file_name(), "FSRS-7-smart-kl-ward-0.02");
    let sweep = config(|c| {
        c.partitions = "smart".into();
        c.cluster_sweep = true;
    });
    assert_eq!(sweep.evaluation_file_name(), "FSRS-7");
    assert_eq!(config(|c| c.hp_probe = true).result_path(), "result/FSRS-7-hpprobe.jsonl");
    assert_eq!(config(|c| c.hp_features = true).result_path(), "result/FSRS-7-hpfeat.jsonl");
    assert_eq!(config(|_| ()).result_path(), "result/FSRS-7.jsonl");
    assert_eq!(config(|_| ()).raw_path(), "raw/FSRS-7.jsonl");
}

#[test]
fn bounds_of_stabilities() {
    assert_eq!(config(|c| c.secs = true).s_min_e4, 1);
    assert_eq!(config(|c| c.algo = "FSRS-6-one-step".into()).s_min_e4, 10);
    let c = config(|_| ());
    assert_eq!((c.s_min_e4, c.init_s_max, c.s_max, c.seed), (100, 100, 36500, 42));
}

#[test]
fn folds_are_chosen_and_lose_same_day_reviews() {
    let first = dataset(|c| c.short = true).rows[0];
    let rows: Vec<Row> = [1, 0, 2, 0, 0, 3].iter().map(|&d| Row { elapsed_days: d, ..first }).collect();
    let plain = fold_rows(&rows, None, 2, false, false, false);
    assert_eq!(plain, vec![(vec![0, 1], vec![2, 3]), (vec![0, 1, 2, 3], vec![4, 5])]);
    let tested = fold_rows(&rows, None, 2, false, false, true);
    assert_eq!(tested, vec![(vec![0, 1], vec![2]), (vec![0, 1, 2, 3], vec![5])]);
    let trained = fold_rows(&rows, None, 2, false, true, false);
    assert_eq!(trained, vec![(vec![0], vec![2, 3]), (vec![0, 2], vec![4, 5])]);
    let same = fold_rows(&rows, None, 2, true, false, true);
    assert_eq!(same, vec![(vec![0, 1, 2, 3, 4, 5], vec![2, 5])]);
    let equal = vec![EqualSplit { train_end: 3, test_idx: vec![3, 5] }];
    let chosen = fold_rows(&rows, Some(&equal), 2, true, true, true);
    assert_eq!(chosen, vec![(vec![0, 2], vec![5])]);
}
