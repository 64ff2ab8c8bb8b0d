use kodama::linkage;
use srs_benchmark::cluster::{can_be_cut, fcluster_k_steps, fcluster_steps, MergeStep, Method, UnionFind};
use srs_benchmark::ordkey::order_key;

fn key(x: f64) -> i64 {
    order_key(x.to_bits()).unwrap()
}

fn kodama_method(m: Method) -> kodama::Method {
    match m {
        Method::Single => kodama::Method::Single,
        Method::Complete => kodama::Method::Complete,
        Method::Average => kodama::Method::Average,
        Method::Centroid => kodama::Method::Centroid,
        Method::Ward => kodama::Method::Ward,
    }
}

fn merge_steps(mut condensed: Vec<f64>, n: usize, m: Method) -> Vec<MergeStep> {
    if n < 2 {
        return Vec::new();
    }
    linkage(&mut condensed, n, kodama_method(m))
        .steps()
        .iter()
        .map(|s| MergeStep { cluster1: s.cluster1, cluster2: s.cluster2, height: key(s.dissimilarity) })
        .collect()
}

fn condensed_points(points: &[Vec<f64>]) -> Vec<f64> {
    let n = points.len();
    let mut condensed = Vec::new();
    for i in 0..n {
        for j in (i + 1)..n {
            let s: f64 = points[i].iter().zip(&points[j]).map(|(a, b)| (a - b) * (a - b)).sum();
            condensed.push(s.sqrt());
        }
    }
    condensed
}

fn condensed_matrix(dist: &[Vec<f64>]) -> Vec<f64> {
    let n = dist.len();
    let mut condensed = Vec::new();
    for i in 0..n {
        for j in (i + 1)..n {
            condensed.push(dist[i][j]);
        }
    }
    condensed
}

fn fcluster_distance(points: &[Vec<f64>], m: Method, threshold: f64) -> Vec<usize> {
    let steps = merge_steps(condensed_points(points), points.len(), m);
    fcluster_steps(points.len(), &steps, key(threshold))
}

fn fcluster_distance_matrix(dist: &[Vec<f64>], m: Method, threshold: f64) -> Vec<usize> {
    let steps = merge_steps(condensed_matrix(dist), dist.len(), m);
    fcluster_steps(dist.len(), &steps, key(threshold))
}

fn fcluster_k_points(points: &[Vec<f64>], m: Method, k: usize) -> Vec<usize> {
    let steps = merge_steps(condensed_points(points), points.len(), m);
    fcluster_k_steps(points.len(), &steps, k)
}

fn two_blobs() -> Vec<Vec<f64>> {
    vec![
        vec![0.0, 0.0],
        vec![0.1, 0.1],
        vec![0.0, 0.2],
        vec![0.2, 0.0],
        vec![10.0, 10.0],
        vec![10.2, 9.9],
        vec![9.8, 10.1],
    ]
}

fn decks10() -> Vec<Vec<f64>> {
    vec![
        vec![0.041,2.417,4.128,11.97,5.638,0.446,3.262,2.305,0.168,1.332,0.352,0.004,0.75,0.089,0.662,1.3,0.882,0.307,3.587,0.303,0.01,0.227,2.641,0.559,1.3,2.5,1.0,0.072,0.163,0.5,0.955,0.224,0.623,0.136,0.386],
        vec![0.099,0.457,1.36,25.017,5.648,0.409,3.449,2.106,0.284,1.138,0.418,0.006,0.731,0.174,0.392,1.551,1.037,0.479,3.701,0.335,0.003,0.267,2.66,0.583,1.329,2.506,1.0,0.028,0.142,0.759,0.957,0.178,0.648,0.249,0.5],
        vec![0.042,0.083,0.865,1.87,5.688,0.333,3.306,2.112,0.2,1.147,0.464,0.001,0.778,0.164,0.363,1.699,1.107,0.434,3.675,0.377,0.001,0.318,2.66,0.569,1.383,2.5,0.955,0.064,0.376,0.608,0.981,0.208,0.67,0.0,0.1],
        vec![0.07,0.135,2.239,7.486,5.104,0.501,2.939,1.952,0.018,1.108,0.595,0.007,0.687,0.605,0.263,3.717,1.572,0.287,4.162,0.46,0.019,0.539,2.644,0.728,2.51,2.5,0.902,0.059,0.317,0.539,0.966,0.232,0.738,0.014,0.117],
        vec![0.039,0.041,1.549,7.846,5.843,0.472,3.012,1.997,0.003,1.065,0.545,0.005,0.566,0.344,0.375,3.307,1.673,0.296,4.053,0.394,0.005,0.346,2.644,0.782,2.253,2.5,0.996,0.032,0.176,0.73,0.954,0.436,0.461,0.009,0.115],
        vec![0.007,0.096,2.056,5.456,5.993,0.397,3.382,1.969,0.378,1.011,0.33,0.003,0.626,0.157,0.085,1.541,1.184,0.338,3.729,0.367,0.003,0.303,2.648,0.255,1.29,2.5,1.0,0.033,0.034,0.727,0.972,0.311,0.554,0.083,0.318],
        vec![0.015,0.093,1.758,27.1,5.867,0.646,3.369,2.074,0.0,1.111,0.532,0.013,0.668,0.632,0.47,3.844,1.654,0.316,4.107,0.466,0.023,0.409,2.709,0.986,2.042,2.5,0.984,0.049,0.294,0.571,0.97,0.161,0.742,0.02,0.215],
        vec![0.217,0.217,1.609,1.715,5.219,0.463,3.16,1.799,0.094,0.828,0.524,0.006,0.725,0.269,0.144,2.484,1.851,0.146,4.174,0.51,0.001,0.459,2.733,0.679,1.702,2.5,0.999,0.038,0.32,0.663,0.92,0.416,0.5,0.072,0.304],
        vec![0.175,0.175,2.254,82.964,5.95,0.478,3.681,2.108,0.0,1.137,0.516,0.005,0.673,0.273,0.27,2.34,1.111,0.321,3.68,0.444,0.003,0.383,2.676,0.536,1.557,2.55,0.947,0.044,0.148,0.657,0.989,0.173,0.649,0.041,0.28],
        vec![1.598,1.598,6.67,47.39,5.559,0.459,2.962,2.446,0.019,1.443,0.577,0.003,0.774,0.246,0.287,2.197,1.096,0.311,3.644,0.388,0.001,0.328,2.665,0.671,1.307,2.564,0.904,0.042,0.06,0.646,0.989,0.3,0.605,0.271,0.523],
    ]
}

fn euclid_matrix(points: &[Vec<f64>]) -> Vec<Vec<f64>> {
    let n = points.len();
    let mut d = vec![vec![0.0f64; n]; n];
    for i in 0..n {
        for j in (i + 1)..n {
            let s: f64 = points[i].iter().zip(&points[j]).map(|(a, b)| (a - b) * (a - b)).sum();
            d[i][j] = s.sqrt();
            d[j][i] = s.sqrt();
        }
    }
    d
}

const METHODS: [Method; 5] =
    [Method::Single, Method::Complete, Method::Average, Method::Centroid, Method::Ward];

#[test]
fn two_blobs_split() {
    for m in METHODS {
        assert_eq!(
            fcluster_distance(&two_blobs(), m, 0.5),
            vec![0, 0, 0, 0, 1, 1, 1],
            "method {m:?}"
        );
    }
}

#[test]
fn decks10_matches_scipy() {
    let cases: &[(Method, f64, &[usize])] = &[
        (Method::Single, 5.0, &[0, 1, 2, 2, 2, 2, 1, 2, 3, 4]),
        (Method::Complete, 5.0, &[0, 1, 2, 3, 3, 3, 1, 2, 4, 5]),
        (Method::Average, 5.0, &[0, 1, 2, 3, 3, 3, 1, 2, 4, 5]),
        (Method::Centroid, 5.0, &[0, 1, 2, 3, 3, 3, 1, 2, 4, 5]),
        (Method::Ward, 5.0, &[0, 1, 2, 3, 3, 3, 1, 2, 4, 5]),
        (Method::Single, 30.0, &[0, 0, 0, 0, 0, 0, 0, 0, 1, 0]),
        (Method::Average, 30.0, &[0, 0, 0, 0, 0, 0, 0, 0, 1, 2]),
        (Method::Ward, 30.0, &[0, 1, 0, 0, 0, 0, 1, 0, 2, 1]),
        (Method::Complete, 30.0, &[0, 1, 0, 0, 0, 0, 1, 0, 2, 1]),
    ];
    let pts = decks10();
    for (m, t, expected) in cases {
        assert_eq!(&fcluster_distance(&pts, *m, *t), expected, "method {m:?} threshold {t}");
    }
}

#[test]
fn singletons_when_threshold_zero() {
    let labels = fcluster_distance(&two_blobs(), Method::Average, 0.0);
    assert_eq!(labels, vec![0, 1, 2, 3, 4, 5, 6]);
}

#[test]
fn trivial_sizes() {
    assert_eq!(fcluster_distance(&[], Method::Ward, 1.0), Vec::<usize>::new());
    assert_eq!(fcluster_distance(&[vec![1.0, 2.0]], Method::Ward, 1.0), vec![0]);
}

#[test]
fn matrix_path_matches_points_path() {
    let pts = decks10();
    let mat = euclid_matrix(&pts);
    for m in METHODS {
        for t in [5.0, 30.0, 0.0] {
            assert_eq!(
                fcluster_distance_matrix(&mat, m, t),
                fcluster_distance(&pts, m, t),
                "method {m:?} threshold {t}"
            );
        }
    }
    assert_eq!(fcluster_distance_matrix(&[], Method::Ward, 1.0), Vec::<usize>::new());
    assert_eq!(fcluster_distance_matrix(&[vec![0.0]], Method::Ward, 1.0), vec![0]);
}

#[test]
fn merge_to_exactly_k() {
    let pts = two_blobs();
    let lab = fcluster_k_points(&pts, Method::Average, 2);
    assert_eq!(lab.iter().copied().max().unwrap() + 1, 2, "should be exactly 2 clusters");
    assert_eq!(lab, vec![0, 0, 0, 0, 1, 1, 1]);
    for k in 1..=7 {
        let l = fcluster_k_points(&pts, Method::Average, k);
        assert_eq!(l.iter().copied().max().unwrap() + 1, k.min(7), "k={k}");
    }
    assert_eq!(fcluster_k_points(&pts, Method::Average, 10), vec![0, 1, 2, 3, 4, 5, 6]);
}

#[test]
fn methods_are_known_by_their_names() {
    let names = ["single", "complete", "average", "centroid", "ward"];
    for (name, m) in names.iter().zip(METHODS) {
        assert_eq!(Method::parse(name), Some(m));
    }
    assert_eq!(Method::parse("hdbscan"), None);
    assert_eq!(Method::parse("Ward"), None);
    assert_eq!(Method::parse(""), None);
}

#[test]
fn inverted_heights_are_cut_at_the_largest_below() {
    // The second merge lies lower than the first: it is kept only where the first one is too.
    let steps = [
        MergeStep { cluster1: 0, cluster2: 1, height: 10 },
        MergeStep { cluster1: 3, cluster2: 2, height: 6 },
    ];
    assert_eq!(fcluster_steps(3, &steps, 7), vec![0, 1, 2]);
    assert_eq!(fcluster_steps(3, &steps, 10), vec![0, 0, 0]);
}

#[test]
fn a_higher_threshold_only_merges_clusters() {
    let pts = decks10();
    let mut last = 11;
    for t in [0.0, 1.0, 2.0, 5.0, 10.0, 20.0, 30.0, 100.0] {
        let labels = fcluster_distance(&pts, Method::Centroid, t);
        let n = labels.iter().max().unwrap() + 1;
        assert!(n <= last);
        last = n;
    }
    assert_eq!(last, 1);
}

#[test]
fn union_find_joins_and_finds() {
    let mut uf = UnionFind::new(6);
    uf.union(0, 1);
    uf.union(2, 3);
    assert_eq!(uf.find(1), 0);
    assert_eq!(uf.find(3), 2);
    assert_ne!(uf.find(1), uf.find(3));
    uf.union(3, 1);
    assert_eq!(uf.find(0), 2);
    assert_eq!(uf.find(1), uf.find(2));
    assert_eq!(uf.find(5), 5);
    uf.union(5, 0);
    assert_eq!(uf.find(5), 2);
}

#[test]
fn merges_that_are_no_dendrogram_are_told() {
    let step = |cluster1, cluster2| MergeStep { cluster1, cluster2, height: 0 };
    assert!(can_be_cut(3, &[step(0, 2), step(1, 3)]));
    assert!(can_be_cut(3, &[]));
    assert!(!can_be_cut(3, &[step(0, 3)]));
    assert!(!can_be_cut(3, &[step(1, 1)]));
    assert!(!can_be_cut(3, &[step(0, 2), step(2, 1)]));
    assert!(!can_be_cut(usize::MAX, &[]));
    for method in [Method::Single, Method::Complete, Method::Average, Method::Centroid, Method::Ward] {
        assert!(can_be_cut(4, &merge_steps(vec![1.0, 5.0, 6.0, 4.0, 5.0, 1.5], 4, method)));
    }
}
