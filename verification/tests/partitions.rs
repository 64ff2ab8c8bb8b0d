use srs_benchmark::features::Row;
use srs_benchmark::grouping::group_by_key;
use srs_benchmark::optimal::{
    best_below, cluster_pairs, full_mask, is_exhaustive, merge_clusters, needs_premerge, row_masks,
    set_partitions, single_units, subset_rows, unit_masks, unit_rows, Greedy,
};
use srs_benchmark::presets::{
    group_keys, needs_global, partition_keys, partition_sources, plan_clusters, set_source, Source,
};
use srs_benchmark::split::keep_rows;

#[test]
fn set_partitions_counts_bell() {
    let bell = [1usize, 1, 2, 5, 15, 52, 203];
    for (m, &b) in bell.iter().enumerate() {
        assert_eq!(set_partitions(m).len(), b, "Bell({m})");
    }
    for m in 1..=6 {
        let full = (1u16 << m) - 1;
        for masks in set_partitions(m) {
            let mut seen = 0u16;
            for &mm in &masks {
                assert_eq!(seen & mm, 0, "overlapping clusters at m={m}");
                seen |= mm;
                assert_ne!(mm, 0, "empty cluster at m={m}");
            }
            assert_eq!(seen, full, "partition does not cover all units at m={m}");
        }
    }
}

#[test]
fn no_partition_is_listed_twice() {
    let mut all: Vec<Vec<u16>> = set_partitions(5)
        .into_iter()
        .map(|mut p| {
            p.sort();
            p
        })
        .collect();
    all.sort();
    all.dedup();
    assert_eq!(all.len(), 52);
    assert_eq!(set_partitions(2), vec![vec![0b11], vec![0b01, 0b10]]);
}

#[test]
fn units_gather_the_rows_of_their_decks() {
    let groups = group_by_key(&[30, 10, 20, 10, 30]);
    assert_eq!(groups.iter().map(|g| g.key).collect::<Vec<i64>>(), vec![10, 20, 30]);
    let rows = unit_rows(&groups, &[0, 1, 0], 2);
    assert_eq!(rows, vec![vec![1, 3, 0, 4], vec![2]]);
    assert_eq!(subset_rows(&rows, 0b01), vec![1, 3, 0, 4]);
    assert_eq!(subset_rows(&rows, 0b11), vec![1, 3, 0, 4, 2]);
    assert_eq!(subset_rows(&rows, 0), Vec::<usize>::new());
    assert_eq!(full_mask(2), 0b11);
    assert_eq!(full_mask(12), 0x0fff);
    assert_eq!(full_mask(16), 0xffff);
    assert_eq!(full_mask(0), 0);
}

#[test]
fn the_sizes_decide_the_search() {
    assert!(!needs_premerge(12));
    assert!(needs_premerge(13));
    assert!(is_exhaustive(6));
    assert!(!is_exhaustive(7));
}

#[test]
fn the_first_of_the_best_is_taken() {
    assert_eq!(best_below(&[5, 3, 4, 3], 100), Some(1));
    assert_eq!(best_below(&[5, 3], 3), None);
    assert_eq!(best_below(&[], 3), None);
}

#[test]
fn greedy_merging_keeps_the_best_seen() {
    let mut g = Greedy::start(single_units(3), 50);
    assert_eq!(g.clusters, vec![1, 2, 4]);
    let pairs = cluster_pairs(3);
    assert_eq!(pairs, vec![(0, 1), (0, 2), (1, 2)]);
    g.commit(&pairs, &[45, 40, 40], i64::MAX);
    assert_eq!(g.clusters, vec![2, 5]);
    assert_eq!((g.best.clone(), g.best_value), (vec![2, 5], 40));
    let pairs = cluster_pairs(2);
    g.commit(&pairs, &[60], i64::MAX);
    assert_eq!(g.clusters, vec![7]);
    assert_eq!((g.best, g.best_value), (vec![2, 5], 40));
}

#[test]
fn greedy_merging_without_a_value_keeps_the_partition() {
    let mut g = Greedy::start(single_units(3), 50);
    g.commit(&cluster_pairs(3), &[9, 9, 9], 9);
    assert_eq!(g.clusters, vec![4, 3]);
    assert_eq!((g.best.clone(), g.best_value), (vec![1, 2, 4], 50));
    g.commit(&cluster_pairs(2), &[7], 9);
    assert_eq!(g.clusters, vec![7]);
    assert_eq!((g.best, g.best_value), (vec![7], 7));
}

#[test]
fn merged_clusters_come_last() {
    assert_eq!(merge_clusters(&vec![1, 2, 4, 8], 1, 3, 10), vec![1, 4, 10]);
    assert_eq!(merge_clusters(&vec![1, 2], 0, 1, 3), vec![3]);
}

#[test]
fn rows_are_predicted_by_the_mask_of_their_unit() {
    let masks = unit_masks(&[0b001, 0b110], 3);
    assert_eq!(masks, vec![0b001, 0b110, 0b110]);
    assert_eq!(unit_masks(&[0b01], 2), vec![0b01, 0]);
    let keys = row_masks(&[20, 99, 10, 30], &[10, 20, 30], &[0, 1, 2], &masks);
    assert_eq!(keys, vec![6, 0, 1, 6]);
}

fn row(partition: i64, pos: u32) -> Row {
    Row {
        card_idx: 0,
        pos,
        card_id: 1,
        review_th: 1,
        rating: 3,
        y: 1,
        delta_t: 1,
        elapsed_days: 1,
        elapsed_seconds: 86400,
        duration: 1000,
        i: 2,
        rmse_bins_lapse: 0,
        last_rating: 3,
        first_rating: 3,
        partition,
    }
}

#[test]
fn a_deck_without_short_rows_is_trained_on_all() {
    let train = vec![row(8, 3), row(2, 99), row(8, 70), row(2, 80)];
    assert_eq!(partition_keys(&train), vec![8, 2, 8, 2]);
    let groups = group_by_key(&partition_keys(&train));
    assert_eq!(group_keys(&groups), vec![2, 8]);
    let sources = partition_sources(&train, &groups, 64, false);
    assert_eq!(sources, vec![Source::AllRows, Source::OwnRows]);
    assert!(needs_global(&sources, &[2, 8], &train, &[], 64, false));
    let defaults = partition_sources(&train, &groups, 64, true);
    assert_eq!(defaults, vec![Source::Defaults, Source::Defaults]);
    assert_eq!(partition_sources(&train, &groups, 2, false), defaults);
    let own = partition_sources(&train, &groups, 128, false);
    assert_eq!(own, vec![Source::OwnRows, Source::OwnRows]);
    assert!(!needs_global(&own, &[2, 8], &train, &[row(8, 1)], 128, false));
    assert!(needs_global(&own, &[2, 8], &train, &[row(5, 1)], 128, false));
    assert!(!needs_global(&own, &[2, 8], &train, &[row(5, 1)], 128, true));
    assert_eq!(set_source(&train, &vec![1, 3], 64, false, true), Source::AllRows);
    assert_eq!(set_source(&train, &vec![1, 3], 64, false, false), Source::Defaults);
}

#[test]
fn same_day_reviews_are_left_out_where_asked() {
    let mut rows = vec![row(1, 1), row(1, 2), row(1, 3)];
    rows[1].elapsed_days = 0;
    assert_eq!(keep_rows(&rows, &[2, 1, 0], false), vec![2, 1, 0]);
    assert_eq!(keep_rows(&rows, &[2, 1, 0], true), vec![2, 0]);
    assert_eq!(keep_rows(&rows, &[1], true), Vec::<usize>::new());
}

#[test]
fn clusters_are_trained_and_predict_the_test_rows() {
    let train = vec![row(10, 1), row(20, 99), row(10, 2), row(30, 5)];
    let test = vec![row(20, 1), row(99, 1), row(10, 1), row(30, 1)];
    let decks = [10, 20, 30];
    let labels = [0, 1, 0];
    let plan = plan_clusters(&train, &test, &decks, &labels, Some(1), 64, false, true);
    assert_eq!(plan.rows, vec![vec![0, 2, 3], vec![1]]);
    assert_eq!(plan.sources, vec![Source::OwnRows, Source::AllRows]);
    let groups: Vec<(i64, Vec<usize>)> = plan.groups.iter().map(|g| (g.key, g.rows.clone())).collect();
    assert_eq!(groups, vec![(0, vec![2, 3]), (1, vec![0, 1])]);
    let alone = plan_clusters(&train, &test, &decks, &labels, None, 64, false, false);
    assert_eq!(alone.sources, vec![Source::OwnRows, Source::Defaults]);
    let groups: Vec<(i64, Vec<usize>)> = alone.groups.iter().map(|g| (g.key, g.rows.clone())).collect();
    assert_eq!(groups, vec![(0, vec![2, 3]), (1, vec![0]), (2, vec![1])]);
}
