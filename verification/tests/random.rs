use srs_benchmark::numpy_rng::MT19937;
use srs_benchmark::split::{eval_start, inner_cut, next_retrain, run_folds, time_series_split};
use srs_benchmark::ordkey::order_key;
use srs_benchmark::train::{keep_best, visiting_orders, Mt19937};

#[test]
fn raw_stream_matches_numpy() {
    let mut rng = MT19937::new_from_seed(2025);
    let first: Vec<u32> = (0..6).map(|_| rng.next_u32()).collect();
    assert_eq!(first, vec![581917246, 2146402014, 3813294034, 1466313566, 4005510732, 453344760]);
}

#[test]
fn permutation_matches_numpy() {
    let p5 = MT19937::permutation(2025, 5);
    assert_eq!(p5, vec![1, 3, 0, 4, 2]);

    let p10 = MT19937::permutation(2025, 10);
    assert_eq!(p10, vec![6, 1, 5, 9, 0, 4, 7, 3, 8, 2]);

    let p17 = MT19937::permutation(2025, 17);
    assert_eq!(p17[..8], [4, 7, 13, 9, 11, 1, 10, 2]);
    assert_eq!(p17[14..], [3, 8, 12]);

    let p100 = MT19937::permutation(2025, 100);
    assert_eq!(p100[..8], [49, 77, 61, 69, 6, 95, 68, 19]);
    assert_eq!(p100[97..], [82, 94, 62]);
    assert_eq!(p100.iter().sum::<usize>(), 4950);

    let p8193 = MT19937::permutation(2025, 8193);
    assert_eq!(p8193[..8], [976, 7872, 3558, 5270, 855, 1917, 4017, 4088]);
    assert_eq!(p8193[8190..], [8146, 7902, 6718]);
    assert_eq!(p8193.iter().sum::<usize>(), 33558528);

    let p20000 = MT19937::permutation(2025, 20000);
    assert_eq!(p20000[..8], [17280, 7276, 9392, 6463, 14869, 4907, 7152, 11793]);
    assert_eq!(p20000[19997..], [15948, 11102, 16338]);
    assert_eq!(p20000.iter().sum::<usize>(), 199990000);
}

#[test]
fn matches_sklearn_shape() {
    let n = 12744;
    let sp = time_series_split(n, 5);
    assert_eq!(sp.len(), 5);
    let test_size = n / 6;
    assert_eq!(test_size, 2124);
    assert_eq!(sp[0].test_start, n - 5 * test_size);
    assert_eq!(sp[4].test_end, n);
    let total: usize = sp.iter().map(|s| s.test_end - s.test_start).sum();
    assert_eq!(total, 5 * test_size);
}

#[test]
fn randperm_matches_torch_seed2023() {
    let mut g = Mt19937::new(2023);
    assert_eq!(g.randperm(8), vec![7, 3, 2, 0, 5, 1, 4, 6]);
    assert_eq!(g.randperm(8), vec![4, 7, 6, 0, 3, 1, 5, 2]);
    assert_eq!(g.randperm(8), vec![7, 3, 0, 6, 2, 4, 1, 5]);

    let mut g80 = Mt19937::new(2023);
    let expected80 = vec![
        39, 42, 62, 41, 53, 19, 63, 60, 28, 67, 11, 66, 54, 73, 45, 8, 6, 77, 51, 4, 68, 34, 37, 9,
        20, 59, 10, 31, 25, 75, 71, 12, 74, 69, 38, 1, 13, 50, 17, 48, 29, 76, 35, 5, 61, 3, 22, 47,
        16, 36, 15, 27, 56, 43, 32, 7, 79, 65, 49, 24, 44, 18, 40, 33, 57, 64, 46, 72, 30, 0, 2, 55,
        52, 14, 58, 23, 26, 21, 78, 70,
    ];
    assert_eq!(g80.randperm(80), expected80);
}

#[test]
fn both_generators_hand_out_the_same_stream() {
    let mut a = MT19937::new_from_seed(2023);
    let mut b = Mt19937::new(2023);
    for _ in 0..2000 {
        assert_eq!(a.next_u32(), b.next_u32());
    }
}

#[test]
fn an_interval_draw_stays_in_its_interval() {
    let mut rng = MT19937::new_from_seed(1);
    assert_eq!(rng.random_interval(0), 0);
    for max in [1u32, 2, 3, 7, 8, 100] {
        for _ in 0..50 {
            assert!(rng.random_interval(max) <= max);
        }
    }
}

#[test]
fn permutations_of_few_numbers() {
    assert_eq!(MT19937::permutation(7, 0), Vec::<usize>::new());
    assert_eq!(MT19937::permutation(7, 1), vec![0]);
    assert_eq!(Mt19937::new(7).randperm(0), Vec::<usize>::new());
    assert_eq!(Mt19937::new(7).randperm(1), vec![0]);
}

#[test]
fn folds_abut_and_end_at_the_last_row() {
    let folds = time_series_split(20, 5);
    let ranges: Vec<(usize, usize)> = folds.iter().map(|s| (s.test_start, s.test_end)).collect();
    assert_eq!(ranges, vec![(5, 8), (8, 11), (11, 14), (14, 17), (17, 20)]);
    assert!(folds.iter().all(|s| s.train_end == s.test_start));
    assert_eq!(eval_start(20, 5), 5);
    assert_eq!(eval_start(6, 5), 1);
    assert_eq!(eval_start(3, 5), 3);
}

#[test]
fn training_on_the_test_rows_is_one_fold() {
    let folds = run_folds(20, 5, true);
    assert_eq!(folds.len(), 1);
    assert_eq!((folds[0].train_end, folds[0].test_start, folds[0].test_end), (20, 5, 20));
    assert_eq!(run_folds(20, 5, false), time_series_split(20, 5));
}

#[test]
fn retraining_often_tests_the_same_rows() {
    let n = 200usize;
    let mut t = eval_start(n, 5);
    let mut tested = Vec::new();
    while t < n {
        let grown = (t as f64 * 1.1).floor() as usize;
        let next = next_retrain(t, grown, n);
        tested.extend(t..next);
        t = next;
    }
    let folds = time_series_split(n, 5);
    let in_folds: Vec<usize> = folds.iter().flat_map(|s| s.test_start..s.test_end).collect();
    assert_eq!(tested, in_folds);
    assert_eq!(next_retrain(10, 0, 50), 11);
    assert_eq!(next_retrain(10, 20, 50), 20);
    assert_eq!(next_retrain(10, 90, 50), 50);
}

#[test]
fn the_last_fifth_validates() {
    assert_eq!(inner_cut(0), None);
    assert_eq!(inner_cut(1), None);
    assert_eq!(inner_cut(2), Some(1));
    assert_eq!(inner_cut(10), Some(8));
    assert_eq!(inner_cut(14), Some(11));
    assert_eq!(inner_cut(usize::MAX), Some(usize::MAX / 5 * 4));
}

#[test]
fn batches_are_visited_in_the_order_of_the_generator() {
    let orders = visiting_orders(8, 3);
    assert_eq!(
        orders,
        vec![
            vec![7, 3, 2, 0, 5, 1, 4, 6],
            vec![4, 7, 6, 0, 3, 1, 5, 2],
            vec![7, 3, 0, 6, 2, 4, 1, 5],
        ]
    );
    assert_eq!(visiting_orders(0, 2), vec![Vec::<usize>::new(), Vec::new()]);
}

#[test]
fn the_first_of_the_smallest_losses_is_kept() {
    let key = |x: f64| order_key(x.to_bits());
    assert_eq!(keep_best(&[key(0.5), key(0.3), key(0.4), key(0.3)]), 1);
    assert_eq!(keep_best(&[key(f64::NAN), key(0.7)]), 1);
    assert_eq!(keep_best(&[key(f64::INFINITY), key(f64::NAN)]), 0);
    assert_eq!(keep_best(&[]), 0);
}
