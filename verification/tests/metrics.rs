use srs_benchmark::batches::{
    card_runs, chunks, deepest, finetune_batches, lane_groups, make_batches,
};
use srs_benchmark::grouping::{group_by_key, rows_with_key};
use srs_benchmark::metrics::{auc, count_hits, precision_recall_at_90, rmse_bins};
use srs_benchmark::numpy_rng::MT19937;
use srs_benchmark::ordkey::order_key;
use srs_benchmark::presets::{
    cluster_count, cluster_rows, holds, kl_eval_indices, predictors,
};
use srs_benchmark::sorting::{sorted_distinct, stable_order};

fn keys(p: &[f64]) -> Vec<i64> {
    p.iter().map(|x| order_key(x.to_bits()).unwrap()).collect()
}

#[test]
fn keys_order_as_numbers_do() {
    let mut xs = vec![
        f64::NEG_INFINITY, -1e300, -2.5, -1.0, -f64::MIN_POSITIVE, -5e-324, 0.0, 5e-324,
        f64::MIN_POSITIVE, 0.1, 0.9, 1.0, 1.0 + f64::EPSILON, 7.25, 1e300, f64::MAX, f64::INFINITY,
    ];
    let k = keys(&xs);
    assert!(k.windows(2).all(|w| w[0] < w[1]));
    xs.reverse();
    let back: Vec<i64> = keys(&xs).into_iter().rev().collect();
    assert_eq!(k, back);
    assert_eq!(order_key(0.0f64.to_bits()), Some(0));
    assert_eq!(order_key((-0.0f64).to_bits()), Some(0));
    assert_eq!(order_key(f64::NAN.to_bits()), None);
    assert_eq!(order_key((-f64::NAN).to_bits()), None);
    assert_eq!(order_key(1.0f64.to_bits()), Some(0x3ff0_0000_0000_0000));
}

#[test]
fn auc_counts_ordered_pairs() {
    assert_eq!(auc(&[1, 0], &keys(&[0.9, 0.1])), Some((2, 1)));
    assert_eq!(auc(&[1, 0], &keys(&[0.1, 0.9])), Some((0, 1)));
    assert_eq!(auc(&[1, 0], &keys(&[0.5, 0.5])), Some((1, 1)));
    assert_eq!(auc(&[0, 0, 1, 1], &keys(&[0.1, 0.4, 0.35, 0.8])), Some((6, 4)));
    assert_eq!(auc(&[1, 1], &keys(&[0.1, 0.4])), None);
    assert_eq!(auc(&[0], &keys(&[0.1])), None);
    assert_eq!(auc(&[], &[]), None);
}

#[test]
fn precision_and_recall_at_nine_tenths() {
    let y = [1, 1, 0, 1, 0];
    let p = keys(&[0.95, 0.9, 0.99, 0.5, 0.2]);
    let h = count_hits(&y, &p, order_key(0.9f64.to_bits()).unwrap());
    assert_eq!((h.hit, h.false_alarm, h.miss), (2, 1, 1));
    assert_eq!(precision_recall_at_90(&y, &p), ((2, 3), (2, 3)));
    assert_eq!(precision_recall_at_90(&[0], &keys(&[0.1])), ((0, 1), (0, 1)));
    let below = f64::from_bits(0.9f64.to_bits() - 1);
    assert_eq!(precision_recall_at_90(&[1], &keys(&[below])), ((0, 1), (0, 1)));
    assert_eq!(precision_recall_at_90(&[1], &keys(&[0.9])), ((1, 1), (1, 1)));
}

#[test]
fn rows_with_the_same_keys_share_a_bin() {
    let bins = rmse_bins(&[(2, 1, 0), (1, 9, 9), (2, 1, 0), (2, 0, 5), (1, 9, 9)]);
    assert_eq!(bins, vec![vec![1, 4], vec![3], vec![0, 2]]);
    assert_eq!(rmse_bins(&[]), Vec::<Vec<usize>>::new());
    let far = rmse_bins(&[(i64::MAX, i64::MIN, 0), (i64::MIN, i64::MAX, 0), (i64::MAX, i64::MIN, 0)]);
    assert_eq!(far, vec![vec![1], vec![0, 2]]);
}

#[test]
fn batches_go_by_length() {
    assert_eq!(make_batches(&[3, 1, 2, 1, 3], 2), vec![vec![1, 3], vec![2, 0], vec![4]]);
    assert_eq!(make_batches(&[3, 1], 0), vec![vec![1], vec![0]]);
    assert_eq!(make_batches(&[], 4), Vec::<Vec<usize>>::new());
    assert_eq!(chunks(&vec![5, 6, 7, 8], 2), vec![vec![5, 6], vec![7, 8]]);
}

#[test]
fn fine_tuning_shuffles_and_drops_long_sequences() {
    let lengths = [1, 65, 64, 100, 2, 3, 4, 5, 6, 7];
    let expected: Vec<usize> =
        MT19937::permutation(2025, 10).into_iter().filter(|&i| lengths[i] <= 64).collect();
    assert_eq!(expected, vec![6, 5, 9, 0, 4, 7, 8, 2]);
    let batches = finetune_batches(&lengths, 3);
    assert_eq!(batches, vec![vec![6, 5, 9], vec![0, 4, 7], vec![8, 2]]);
    assert_eq!(finetune_batches(&[70, 80], 3), Vec::<Vec<usize>>::new());
}

#[test]
fn lanes_hold_histories_of_like_length() {
    let (alone, groups) = lane_groups(&[0, 5, 1, 0, 3, 2, 9, 4]);
    assert_eq!(alone, vec![0, 3]);
    assert_eq!(groups, vec![vec![2, 5, 4, 7], vec![1, 6]]);
}

#[test]
fn cards_are_replayed_in_one_run() {
    let runs = card_runs(&[(2, 5), (1, 0), (2, 1), (1, 3), (2, 5)]);
    assert_eq!(runs, vec![vec![1, 3], vec![2, 0, 4]]);
    assert_eq!(deepest(&[1, 4, 4, 2]), 2);
    assert_eq!(deepest(&[0]), 0);
}

#[test]
fn groups_hold_the_rows_of_their_key() {
    let groups = group_by_key(&[4, -1, 4, 0]);
    let got: Vec<(i64, Vec<usize>)> = groups.into_iter().map(|g| (g.key, g.rows)).collect();
    assert_eq!(got, vec![(-1, vec![1]), (0, vec![3]), (4, vec![0, 2])]);
    assert_eq!(rows_with_key(&[4, -1, 4, 0], 4), vec![0, 2]);
    assert_eq!(sorted_distinct(&[3, 1, 3, 2]), vec![1, 2, 3]);
    assert_eq!(stable_order(&[3i64, 1, 3, 2]), vec![1, 3, 0, 2]);
}

#[test]
fn unseen_decks_go_to_the_nearest_cluster() {
    let decks = [10, 20, 30];
    let labels = [0, 1, 0];
    assert_eq!(cluster_count(&labels), 2);
    assert_eq!(cluster_rows(&[20, 10, 99, 30, 20], &decks, &labels, 2), vec![vec![1, 3], vec![0, 4]]);
    assert_eq!(predictors(&[20, 99, 30], &decks, &labels, 2, Some(1)), vec![1, 1, 0]);
    assert_eq!(predictors(&[20, 99, 30], &decks, &labels, 2, None), vec![1, 2, 0]);
    assert!(holds(&decks, 20));
    assert!(!holds(&decks, 25));
}

#[test]
fn evaluation_rows_are_spread_evenly() {
    assert_eq!(kl_eval_indices(3, 5), vec![0, 1, 2]);
    assert_eq!(kl_eval_indices(10, 5), vec![0, 2, 4, 6, 8]);
    assert_eq!(kl_eval_indices(7, 3), vec![0, 2, 4]);
}
