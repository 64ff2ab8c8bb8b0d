use std::collections::HashMap;

use srs_benchmark::hdbscan::{
    condense_linkage, density_linkage, descend, fall_out, labels_of, subtree_size, CondensedEdge,
};
use srs_benchmark::labels::canonicalize;
use srs_benchmark::linkage::{
    core_distances, grow_tree, kth_smallest, mst_single_linkage, mutual_reachability, uf_find,
};
use srs_benchmark::ordkey::order_key;
use srs_benchmark::selection::{
    cluster_children, cluster_ids, clusters_of, descend_clusters, first_min, noise_to_nearest,
    select_eom, select_leaf,
};

fn key(x: f64) -> i64 {
    order_key(x.to_bits()).unwrap()
}

fn unkey(k: i64) -> f64 {
    f64::from_bits(k as u64)
}

fn distances(points: &[Vec<f64>]) -> Vec<Vec<i64>> {
    points
        .iter()
        .map(|a| {
            points
                .iter()
                .map(|b| {
                    let s: f64 = a.iter().zip(b).map(|(x, y)| (x - y) * (x - y)).sum();
                    key(s.sqrt())
                })
                .collect()
        })
        .collect()
}

fn edges_of(points: &[Vec<f64>], mcs: usize, ms: usize) -> Vec<CondensedEdge> {
    let n = points.len();
    let link = density_linkage(&distances(points), ms);
    let lambda: Vec<i64> = link
        .dist
        .iter()
        .map(|&d| {
            let d = unkey(d);
            key(if d > 0.0 { 1.0 / d } else { f64::INFINITY })
        })
        .collect();
    condense_linkage(&link, n, &lambda, mcs)
}

fn stability(edges: &[CondensedEdge], n: usize) -> HashMap<usize, f64> {
    let mut births: HashMap<usize, f64> = HashMap::new();
    for e in edges {
        births.insert(e.child, unkey(e.lambda));
    }
    births.insert(n, 0.0);
    let mut stab: HashMap<usize, f64> = HashMap::new();
    for e in edges {
        let birth = births[&e.parent];
        *stab.entry(e.parent).or_insert(0.0) += (unkey(e.lambda) - birth) * e.size as f64;
    }
    stab
}

fn hdbscan(points: &[Vec<f64>], mcs: usize, ms: usize, leaf: bool) -> Vec<i64> {
    let n = points.len();
    let edges = edges_of(points, mcs, ms);
    let selected = if leaf {
        select_leaf(&edges, n)
    } else {
        let mut stab = stability(&edges, n);
        let children = cluster_children(&edges, n);
        let ids = cluster_ids(&edges);
        let mut prefer = vec![false; ids.len()];
        for k in (0..ids.len()).rev() {
            let sum: f64 = children
                .get(&ids[k])
                .map(|v| v.iter().map(|c| stab[c]).sum())
                .unwrap_or(0.0);
            if sum > stab[&ids[k]] {
                prefer[k] = true;
                stab.insert(ids[k], sum);
            }
        }
        select_eom(&ids, &prefer, &children)
    };
    labels_of(&edges, &selected, n)
}

fn line(xs: &[f64]) -> Vec<Vec<f64>> {
    xs.iter().map(|&x| vec![x]).collect()
}

#[test]
fn two_dense_groups_are_found() {
    let points = line(&[0.0, 1.0, 2.0, 100.0, 101.0, 102.0]);
    assert_eq!(hdbscan(&points, 2, 1, false), vec![0, 0, 0, 1, 1, 1]);
    assert_eq!(hdbscan(&points, 3, 1, true), vec![0, 0, 0, 1, 1, 1]);
}

#[test]
fn a_single_group_is_one_cluster() {
    let points = line(&[0.0, 1.0, 2.0, 3.0, 50.0]);
    let labels = hdbscan(&points, 3, 1, false);
    assert_eq!(labels[..4], [0, 0, 0, 0]);
    assert_eq!(labels[4], -1);
}

#[test]
fn core_distances_count_the_point_itself() {
    let d = distances(&line(&[0.0, 1.0, 3.0]));
    let one: Vec<f64> = core_distances(&d, 1).into_iter().map(unkey).collect();
    assert_eq!(one, vec![0.0, 0.0, 0.0]);
    let two: Vec<f64> = core_distances(&d, 2).into_iter().map(unkey).collect();
    assert_eq!(two, vec![1.0, 1.0, 2.0]);
    let mr = mutual_reachability(&d, &core_distances(&d, 2));
    assert_eq!(unkey(mr[0][1]), 1.0);
    assert_eq!(unkey(mr[1][2]), 2.0);
    assert_eq!(unkey(mr[0][0]), 1.0);
    assert_eq!(kth_smallest(&[5, 1, 4, 1], 2), 4);
}

#[test]
fn the_tree_grows_from_the_first_point() {
    let d = distances(&line(&[0.0, 10.0, 1.0, 11.0]));
    let (order, weight) = grow_tree(&d);
    assert_eq!(order, vec![0, 2, 1, 3]);
    let weight: Vec<f64> = weight.into_iter().map(unkey).collect();
    assert_eq!(weight, vec![1.0, 9.0, 1.0]);
    let link = mst_single_linkage(&d);
    assert_eq!(link.left, vec![0, 1, 4]);
    assert_eq!(link.right, vec![2, 3, 5]);
    assert_eq!(link.sizes, vec![2, 2, 4]);
    let dist: Vec<f64> = link.dist.into_iter().map(unkey).collect();
    assert_eq!(dist, vec![1.0, 1.0, 9.0]);
}

#[test]
fn roots_are_found_and_paths_cut_short() {
    let none = usize::MAX;
    let mut parent = vec![3, 3, none, 4, none];
    assert_eq!(uf_find(&mut parent, 0), 4);
    assert_eq!(parent, vec![4, 3, none, 4, none]);
    assert_eq!(uf_find(&mut parent, 2), 2);
    assert_eq!(parent, vec![4, 3, none, 4, none]);
    let mut chain = vec![1, 2, none];
    assert_eq!(uf_find(&mut chain, 0), 2);
    assert_eq!(chain, vec![2, 2, none]);
    let mut falling = vec![none, 0, 1, 2, 3];
    assert_eq!(uf_find(&mut falling, 3), 0);
    assert_eq!(falling, vec![none, 0, 0, 0, 3]);
}

#[test]
fn clusters_of_any_forest_are_listed_parents_first() {
    let mut children: HashMap<usize, Vec<usize>> = HashMap::new();
    children.insert(9, vec![4, 7]);
    children.insert(4, vec![20, 1]);
    children.insert(7, vec![2]);
    assert_eq!(descend_clusters(9, &children), vec![9, 7, 2, 4, 1, 20]);
    assert_eq!(descend_clusters(4, &children), vec![4, 1, 20]);
    assert_eq!(descend_clusters(5, &children), vec![5]);
}

#[test]
fn nodes_below_a_node_are_listed() {
    let (left, right) = (vec![0, 1, 4], vec![2, 3, 5]);
    assert_eq!(descend(4, 4, &left, &right).len(), 3);
    let mut all = descend(6, 4, &left, &right);
    all.sort();
    assert_eq!(all, vec![0, 1, 2, 3, 4, 5, 6]);
    assert_eq!(subtree_size(0, 4, &[2, 2, 4]), 1);
    assert_eq!(subtree_size(6, 4, &[2, 2, 4]), 4);
    let mut out = Vec::new();
    fall_out(5, 9, 7, 4, &left, &right, &mut out);
    let mut points: Vec<usize> = out.iter().map(|e| e.child).collect();
    points.sort();
    assert_eq!(points, vec![1, 3]);
    assert!(out.iter().all(|e| e.parent == 9 && e.lambda == 7 && e.size == 1));
}

#[test]
fn every_point_leaves_the_condensed_tree_once() {
    let points = line(&[0.0, 1.0, 2.0, 100.0, 101.0, 102.0, 500.0]);
    let edges = edges_of(&points, 2, 1);
    for v in 0..points.len() {
        assert_eq!(edges.iter().filter(|e| e.child == v).count(), 1);
    }
    let children = cluster_children(&edges, points.len());
    let ids = cluster_ids(&edges);
    assert_eq!(ids[0], points.len());
    assert_eq!(descend_clusters(points.len(), &children).len(), ids.len());
}

#[test]
fn noise_goes_to_the_nearest_cluster() {
    let labels = [-1, 2, 2, -1, 5];
    assert_eq!(clusters_of(&labels), vec![2, 5]);
    let nearness = vec![vec![9, 1], vec![], vec![], vec![4, 4], vec![]];
    assert_eq!(noise_to_nearest(&labels, &[2, 5], &nearness), vec![0, 1, 1, 1, 0]);
    let noise = [-1, -1, -1];
    let none = vec![vec![], vec![], vec![]];
    assert_eq!(noise_to_nearest(&noise, &clusters_of(&noise), &none), vec![0, 1, 2]);
    assert_eq!(first_min(&[3, 1, 1, 2]), 1);
}

#[test]
fn labels_are_numbered_as_they_come() {
    assert_eq!(canonicalize(&[5, 5, -1, 7, 5, -1]), vec![0, 0, 1, 2, 0, 1]);
    assert_eq!(canonicalize(&[]), Vec::<usize>::new());
}
