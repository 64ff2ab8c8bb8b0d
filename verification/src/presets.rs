//! Which rows train which parameters when a user's decks are modelled apart, or in clusters.

use crate::features::Row;
use crate::grouping;
use std::collections::HashMap;
use vstd::prelude::*;

verus! {

/// Where the parameters of a set of rows come from.
#[derive(Debug, Clone, Copy, PartialEq, Eq, Structural)]
pub enum Source {
    /// The default parameters.
    Defaults,
    /// Trained on the rows of the set.
    OwnRows,
    /// Trained on all rows of the user.
    AllRows,
}

/// One of the rows of `rows` at `idx` is short enough to train on.
pub open spec fn trainable(rows: Seq<Row>, idx: Seq<usize>, max_seq: usize) -> bool {
    exists|k: int| 0 <= k < idx.len() && rows[#[trigger] idx[k] as int].pos <= max_seq
}

/// Whether a row of the set is short enough to train on.
pub fn adequate(set: &[Row], max_seq: usize) -> (r: bool)
    ensures
        r == (exists|k: int| 0 <= k < set@.len() && (#[trigger] set@[k]).pos <= max_seq),
{
    let mut k: usize = 0;
    while k < set.len()
        invariant
            k <= set@.len(),
            forall|j: int| 0 <= j < k ==> (#[trigger] set@[j]).pos > max_seq,
        decreases set.len() - k,
    {
        if set[k].pos as usize <= max_seq {
            assert(set@[k as int].pos <= max_seq);
            return true;
        }
        k = k + 1;
    }
    false
}

/// Whether one of the rows at `idx` is short enough to train on.
pub fn adequate_at(rows: &[Row], idx: &Vec<usize>, max_seq: usize) -> (r: bool)
    requires
        forall|k: int| 0 <= k < idx@.len() ==> #[trigger] idx@[k] < rows@.len(),
    ensures
        r == trainable(rows@, idx@, max_seq),
{
    let mut k: usize = 0;
    while k < idx.len()
        invariant
            k <= idx@.len(),
            forall|j: int| 0 <= j < idx@.len() ==> #[trigger] idx@[j] < rows@.len(),
            forall|j: int| 0 <= j < k ==> rows@[#[trigger] idx@[j] as int].pos > max_seq,
        decreases idx.len() - k,
    {
        if rows[idx[k]].pos as usize <= max_seq {
            assert(rows@[idx@[k as int] as int].pos <= max_seq);
            return true;
        }
        k = k + 1;
    }
    false
}

/// A set of rows is trained on its own where it can be, on all rows where it cannot but they can, and
/// not at all where defaults are asked for or nothing can be trained on.
pub open spec fn source_of(default_params: bool, own: bool, all: bool) -> Source {
    if default_params {
        Source::Defaults
    } else if own {
        Source::OwnRows
    } else if all {
        Source::AllRows
    } else {
        Source::Defaults
    }
}

/// Where the parameters of the rows at `idx` come from; `all` is whether those of all rows are to be had.
pub fn set_source(
    rows: &[Row],
    idx: &Vec<usize>,
    max_seq: usize,
    default_params: bool,
    all: bool,
) -> (source: Source)
    requires
        forall|k: int| 0 <= k < idx@.len() ==> #[trigger] idx@[k] < rows@.len(),
    ensures
        source == source_of(default_params, trainable(rows@, idx@, max_seq), all),
{
    let own: bool = adequate_at(rows, idx, max_seq);
    if default_params {
        Source::Defaults
    } else if own {
        Source::OwnRows
    } else if all {
        Source::AllRows
    } else {
        Source::Defaults
    }
}

/// The partitions of some rows.
pub fn partition_keys(rows: &[Row]) -> (keys: Vec<i64>)
    ensures
        keys@ == rows@.map_values(|r: Row| r.partition),
{
    let mut keys: Vec<i64> = Vec::with_capacity(rows.len());
    let mut i: usize = 0;
    while i < rows.len()
        invariant
            i <= rows@.len(),
            keys@.len() == i,
            forall|j: int| 0 <= j < i ==> #[trigger] keys@[j] == rows@[j].partition,
        decreases rows.len() - i,
    {
        keys.push(rows[i].partition);
        i = i + 1;
    }
    assert(keys@ =~= rows@.map_values(|r: Row| r.partition));
    keys
}

/// The rows that groups refer to exist.
pub open spec fn groups_refer(groups: Seq<grouping::Group>, n: nat) -> bool {
    forall|g: int, k: int|
        0 <= g < groups.len() && 0 <= k < groups[g].rows@.len() ==> #[trigger] groups[g].rows@[k]
            < n
}

/// For every partition where its parameters come from.
pub fn partition_sources(
    train: &[Row],
    groups: &Vec<grouping::Group>,
    max_seq: usize,
    default_params: bool,
) -> (sources: Vec<Source>)
    requires
        groups_refer(groups@, train@.len()),
    ensures
        sources@.len() == groups@.len(),
        forall|g: int|
            0 <= g < groups@.len() ==> #[trigger] sources@[g] == source_of(
                default_params,
                trainable(train@, groups@[g].rows@, max_seq),
                exists|k: int| 0 <= k < train@.len() && (#[trigger] train@[k]).pos <= max_seq,
            ),
{
    let all: bool = adequate(train, max_seq);
    let mut sources: Vec<Source> = Vec::with_capacity(groups.len());
    let mut g: usize = 0;
    while g < groups.len()
        invariant
            g <= groups@.len(),
            groups_refer(groups@, train@.len()),
            all == (exists|k: int| 0 <= k < train@.len() && (#[trigger] train@[k]).pos <= max_seq),
            sources@.len() == g,
            forall|h: int|
                0 <= h < g ==> #[trigger] sources@[h] == source_of(
                    default_params,
                    trainable(train@, groups@[h].rows@, max_seq),
                    all,
                ),
        decreases groups.len() - g,
    {
        assert forall|k: int| 0 <= k < groups@[g as int].rows@.len() implies
            #[trigger] groups@[g as int].rows@[k] < train@.len() by {}
        sources.push(set_source(train, &groups[g].rows, max_seq, default_params, all));
        g = g + 1;
    }
    sources
}

/// The rows of a partition are trained on all rows of the user only where its own cannot be.
pub proof fn lemma_fallback(default_params: bool, own: bool, all: bool)
    ensures
        source_of(default_params, own, all) == Source::OwnRows <==> own && !default_params,
        source_of(default_params, own, all) == Source::AllRows <==> !own && all && !default_params,
{
}

/// Whether ascending numbers hold `x`.
pub fn holds(sorted: &[i64], x: i64) -> (r: bool)
    requires
        forall|i: int, j: int|
            0 <= i < j < sorted@.len() ==> #[trigger] sorted@[i] < #[trigger] sorted@[j],
    ensures
        r == sorted@.contains(x),
{
    let mut lo: usize = 0;
    let mut hi: usize = sorted.len();
    while lo < hi
        invariant
            lo <= hi <= sorted@.len(),
            forall|i: int, j: int|
                0 <= i < j < sorted@.len() ==> #[trigger] sorted@[i] < #[trigger] sorted@[j],
            forall|i: int| 0 <= i < lo ==> #[trigger] sorted@[i] < x,
            forall|i: int| hi <= i < sorted@.len() ==> #[trigger] sorted@[i] > x,
        decreases hi - lo,
    {
        let mid: usize = lo + (hi - lo) / 2;
        let v: i64 = sorted[mid];
        if v == x {
            assert(sorted@[mid as int] == x);
            return true;
        } else if v < x {
            lo = mid + 1;
        } else {
            hi = mid;
        }
    }
    false
}

/// The keys of groups, which ascend.
pub fn group_keys(groups: &Vec<grouping::Group>) -> (keys: Vec<i64>)
    ensures
        keys@ == groups@.map_values(|g: grouping::Group| g.key),
{
    let mut keys: Vec<i64> = Vec::with_capacity(groups.len());
    let mut g: usize = 0;
    while g < groups.len()
        invariant
            g <= groups@.len(),
            keys@.len() == g,
            forall|h: int| 0 <= h < g ==> #[trigger] keys@[h] == groups@[h].key,
        decreases groups.len() - g,
    {
        keys.push(groups[g].key);
        g = g + 1;
    }
    assert(keys@ =~= groups@.map_values(|g: grouping::Group| g.key));
    keys
}

/// One of the tested rows is of a deck that is not among `decks`.
pub open spec fn tests_new_deck(test: Seq<Row>, decks: Seq<i64>) -> bool {
    exists|k: int| 0 <= k < test.len() && !decks.contains((#[trigger] test[k]).partition)
}

/// Whether parameters trained on all rows are to be had: some partition falls back to them, or a deck
/// is tested that is not among the trained ones, `decks`, and there is something to train on.
pub fn needs_global(
    sources: &Vec<Source>,
    decks: &[i64],
    train: &[Row],
    test: &[Row],
    max_seq: usize,
    default_params: bool,
) -> (r: bool)
    requires
        forall|i: int, j: int|
            0 <= i < j < decks@.len() ==> #[trigger] decks@[i] < #[trigger] decks@[j],
    ensures
        r == ((exists|g: int| 0 <= g < sources@.len() && #[trigger] sources@[g] == Source::AllRows)
            || (!default_params && (exists|k: int|
            0 <= k < train@.len() && (#[trigger] train@[k]).pos <= max_seq) && tests_new_deck(
            test@,
            decks@,
        ))),
{
    let mut g: usize = 0;
    while g < sources.len()
        invariant
            g <= sources@.len(),
            forall|h: int| 0 <= h < g ==> #[trigger] sources@[h] != Source::AllRows,
        decreases sources.len() - g,
    {
        if sources[g] == Source::AllRows {
            assert(sources@[g as int] == Source::AllRows);
            return true;
        }
        g = g + 1;
    }
    let mut new_deck: bool = false;
    let mut k: usize = 0;
    while k < test.len()
        invariant
            k <= test@.len(),
            forall|i: int, j: int|
                0 <= i < j < decks@.len() ==> #[trigger] decks@[i] < #[trigger] decks@[j],
            new_deck ==> tests_new_deck(test@, decks@),
            !new_deck ==> forall|j: int|
                0 <= j < k ==> decks@.contains((#[trigger] test@[j]).partition),
        decreases test.len() - k,
    {
        if !holds(decks, test[k].partition) {
            new_deck = true;
            assert(!decks@.contains(test@[k as int].partition));
        }
        k = k + 1;
    }
    !default_params && adequate(train, max_seq) && new_deck
}

/// One more than the greatest label.
pub open spec fn is_cluster_count(labels: Seq<usize>, n: nat) -> bool {
    &&& forall|i: int| 0 <= i < labels.len() ==> #[trigger] labels[i] < n
    &&& n > 0 ==> exists|i: int| 0 <= i < labels.len() && #[trigger] labels[i] == n - 1
}

/// One more than the greatest label, zero where there is none.
pub fn cluster_count(labels: &[usize]) -> (n: usize)
    requires
        forall|i: int| 0 <= i < labels@.len() ==> #[trigger] labels@[i] < usize::MAX,
    ensures
        is_cluster_count(labels@, n as nat),
{
    let mut n: usize = 0;
    let mut i: usize = 0;
    while i < labels.len()
        invariant
            i <= labels@.len(),
            forall|j: int| 0 <= j < labels@.len() ==> #[trigger] labels@[j] < usize::MAX,
            forall|j: int| 0 <= j < i ==> #[trigger] labels@[j] < n,
            n > 0 ==> exists|j: int| 0 <= j < i && #[trigger] labels@[j] == n - 1,
        decreases labels.len() - i,
    {
        if labels[i] >= n {
            n = labels[i] + 1;
            assert(labels@[i as int] == n - 1);
        }
        i = i + 1;
    }
    n
}

/// The cluster of deck `d`: the label at its place among the decks.
pub open spec fn cluster_of(decks: Seq<i64>, labels: Seq<usize>, d: i64) -> Option<usize> {
    if decks.contains(d) {
        Some(labels[decks.index_of(d)])
    } else {
        None
    }
}

/// `m` maps the first `k` decks to their clusters.
spec fn maps_decks(m: Map<i64, usize>, decks: Seq<i64>, labels: Seq<usize>, k: int, d: i64) -> bool {
    &&& m.contains_key(d) <==> decks.take(k).contains(d)
    &&& m.contains_key(d) ==> exists|i: int|
        0 <= i < k && #[trigger] decks[i] == d && labels[i] == m[d]
}

fn deck_map(decks: &[i64], labels: &[usize]) -> (m: HashMap<i64, usize>)
    requires
        decks@.len() == labels@.len(),
        forall|i: int, j: int|
            0 <= i < j < decks@.len() ==> #[trigger] decks@[i] < #[trigger] decks@[j],
    ensures
        forall|d: i64| #[trigger]
            m@.contains_key(d) <==> cluster_of(decks@, labels@, d) is Some,
        forall|d: i64| #[trigger]
            m@.contains_key(d) ==> cluster_of(decks@, labels@, d) == Some(m@[d]),
{
    broadcast use vstd::std_specs::hash::group_hash_axioms;

    let mut m: HashMap<i64, usize> = HashMap::new();
    let mut k: usize = 0;
    while k < decks.len()
        invariant
            k <= decks@.len(),
            decks@.len() == labels@.len(),
            forall|d: i64| #[trigger] maps_decks(m@, decks@, labels@, k as int, d),
        decreases decks.len() - k,
    {
        let ghost before = m@;
        let x: i64 = decks[k];
        m.insert(x, labels[k]);
        proof {
            let (a, b) = (decks@.take(k as int), decks@.take(k + 1));
            assert(b =~= a.push(x));
            assert forall|d: i64| #[trigger] maps_decks(m@, decks@, labels@, k + 1, d) by {
                assert(maps_decks(before, decks@, labels@, k as int, d));
                if a.contains(d) {
                    let w = choose|w: int| 0 <= w < a.len() && a[w] == d;
                    assert(b[w] == d);
                }
                if b.contains(d) && d != x {
                    let w = choose|w: int| 0 <= w < b.len() && b[w] == d;
                    assert(a[w] == d);
                }
                assert(b[k as int] == x);
                if d == x {
                    assert(decks@[k as int] == d);
                } else if before.contains_key(d) {
                    let i = choose|i: int|
                        0 <= i < k && #[trigger] decks@[i] == d && labels@[i] == before[d];
                    assert(decks@[i] == d);
                }
            }
        }
        k = k + 1;
    }
    proof {
        assert(decks@.take(decks@.len() as int) =~= decks@);
        assert forall|d: i64| #[trigger] m@.contains_key(d) implies cluster_of(
            decks@,
            labels@,
            d,
        ) == Some(m@[d]) by {
            assert(maps_decks(m@, decks@, labels@, decks@.len() as int, d));
            let i = choose|i: int|
                0 <= i < decks@.len() && #[trigger] decks@[i] == d && labels@[i] == m@[d];
            let w = decks@.index_of(d);
            if i < w {
                assert(decks@[i] < decks@[w]);
            } else if w < i {
                assert(decks@[w] < decks@[i]);
            }
        }
        assert forall|d: i64| #[trigger] m@.contains_key(d) <==> cluster_of(
            decks@,
            labels@,
            d,
        ) is Some by {
            assert(maps_decks(m@, decks@, labels@, decks@.len() as int, d));
        }
    }
    m
}

/// The rows of partitions that belong to cluster `c`.
pub open spec fn in_cluster(
    partitions: Seq<i64>,
    decks: Seq<i64>,
    labels: Seq<usize>,
    c: usize,
) -> spec_fn(int) -> bool {
    |i: int| cluster_of(decks, labels, partitions[i]) == Some(c)
}

/// For every cluster the rows of its decks, in order.
pub fn cluster_rows(
    partitions: &[i64],
    decks: &[i64],
    labels: &[usize],
    n_clusters: usize,
) -> (rows: Vec<Vec<usize>>)
    requires
        decks@.len() == labels@.len(),
        forall|i: int, j: int|
            0 <= i < j < decks@.len() ==> #[trigger] decks@[i] < #[trigger] decks@[j],
        forall|i: int| 0 <= i < labels@.len() ==> #[trigger] labels@[i] < n_clusters,
    ensures
        rows@.len() == n_clusters,
        forall|c: int|
            0 <= c < n_clusters ==> (#[trigger] rows@[c])@ == grouping::rows_where(
                partitions@.len(),
                in_cluster(partitions@, decks@, labels@, c as usize),
            ),
{
    broadcast use vstd::std_specs::hash::group_hash_axioms;

    let m = deck_map(decks, labels);
    let mut rows: Vec<Vec<usize>> = Vec::with_capacity(n_clusters);
    let mut c: usize = 0;
    while c < n_clusters
        invariant
            c <= n_clusters,
            rows@.len() == c,
            forall|d: int|
                0 <= d < c ==> (#[trigger] rows@[d])@ == grouping::rows_where(
                    0,
                    in_cluster(partitions@, decks@, labels@, d as usize),
                ),
        decreases n_clusters - c,
    {
        rows.push(Vec::new());
        c = c + 1;
    }
    let mut i: usize = 0;
    while i < partitions.len()
        invariant
            i <= partitions@.len(),
            rows@.len() == n_clusters,
            decks@.len() == labels@.len(),
            forall|d: i64| #[trigger]
                m@.contains_key(d) <==> cluster_of(decks@, labels@, d) is Some,
            forall|d: i64| #[trigger]
                m@.contains_key(d) ==> cluster_of(decks@, labels@, d) == Some(m@[d]),
            forall|j: int| 0 <= j < labels@.len() ==> #[trigger] labels@[j] < n_clusters,
            forall|d: int|
                0 <= d < n_clusters ==> (#[trigger] rows@[d])@ == grouping::rows_where(
                    i as nat,
                    in_cluster(partitions@, decks@, labels@, d as usize),
                ),
        decreases partitions.len() - i,
    {
        let part: i64 = partitions[i];
        let ghost before = rows@;
        assert(m@.contains_key(part) <==> cluster_of(decks@, labels@, part) is Some);
        match m.get(&part) {
            Some(c) => {
                let at: usize = *c;
                assert(cluster_of(decks@, labels@, part) == Some(at));
                assert(labels@[decks@.index_of(part)] < n_clusters);
                rows[at].push(i);
            },
            None => {},
        }
        proof {
            assert forall|d: int| 0 <= d < n_clusters implies (#[trigger] rows@[d])@
                == grouping::rows_where(
                (i + 1) as nat,
                in_cluster(partitions@, decks@, labels@, d as usize),
            ) by {
                let p = in_cluster(partitions@, decks@, labels@, d as usize);
                assert(before[d]@ == grouping::rows_where(i as nat, p));
                assert(p(i as int) == (cluster_of(decks@, labels@, part) == Some(d as usize)));
            }
        }
        i = i + 1;
    }
    rows
}

/// The cluster that predicts a row of deck `d`: its own, else the one nearest to the user's common
/// parameters, else none, for which the number of clusters stands.
pub open spec fn predictor(
    decks: Seq<i64>,
    labels: Seq<usize>,
    n_clusters: usize,
    nearest: Option<usize>,
    d: i64,
) -> i64 {
    (match cluster_of(decks, labels, d) {
        Some(c) => c,
        None => match nearest {
            Some(c) => c,
            None => n_clusters,
        },
    }) as i64
}

/// For every row the cluster that predicts it.
pub fn predictors(
    partitions: &[i64],
    decks: &[i64],
    labels: &[usize],
    n_clusters: usize,
    nearest: Option<usize>,
) -> (keys: Vec<i64>)
    requires
        decks@.len() == labels@.len(),
        forall|i: int, j: int|
            0 <= i < j < decks@.len() ==> #[trigger] decks@[i] < #[trigger] decks@[j],
    ensures
        keys@.len() == partitions@.len(),
        forall|i: int|
            0 <= i < partitions@.len() ==> #[trigger] keys@[i] == predictor(
                decks@,
                labels@,
                n_clusters,
                nearest,
                partitions@[i],
            ),
{
    broadcast use vstd::std_specs::hash::group_hash_axioms;

    let m = deck_map(decks, labels);
    let mut keys: Vec<i64> = Vec::with_capacity(partitions.len());
    let mut i: usize = 0;
    while i < partitions.len()
        invariant
            i <= partitions@.len(),
            keys@.len() == i,
            forall|d: i64| #[trigger]
                m@.contains_key(d) <==> cluster_of(decks@, labels@, d) is Some,
            forall|d: i64| #[trigger]
                m@.contains_key(d) ==> cluster_of(decks@, labels@, d) == Some(m@[d]),
            forall|j: int|
                0 <= j < i ==> #[trigger] keys@[j] == predictor(
                    decks@,
                    labels@,
                    n_clusters,
                    nearest,
                    partitions@[j],
                ),
        decreases partitions.len() - i,
    {
        let part: i64 = partitions[i];
        assert(m@.contains_key(part) <==> cluster_of(decks@, labels@, part) is Some);
        let c: usize = match m.get(&part) {
            Some(c) => *c,
            None => match nearest {
                Some(c) => c,
                None => n_clusters,
            },
        };
        keys.push(c as i64);
        i = i + 1;
    }
    keys
}

/// What a fold of clustered decks is trained on and predicted with.
#[derive(Debug, Clone)]
pub struct ClusterPlan {
    /// The training rows of each cluster.
    pub rows: Vec<Vec<usize>>,
    /// Where the parameters of each cluster come from.
    pub sources: Vec<Source>,
    /// The test rows by the cluster that predicts them; the number of clusters stands for none.
    pub groups: Vec<grouping::Group>,
}

/// For every tested row the cluster that predicts it.
pub open spec fn predictor_keys(
    test: Seq<Row>,
    decks: Seq<i64>,
    labels: Seq<usize>,
    n_clusters: usize,
    nearest: Option<usize>,
) -> Seq<i64> {
    Seq::new(
        test.len(),
        |i: int| predictor(decks, labels, n_clusters, nearest, test[i].partition),
    )
}

/// The partition of each row.
pub open spec fn partitions_of(rows: Seq<Row>) -> Seq<i64> {
    rows.map_values(|r: Row| r.partition)
}

/// What a fold is trained on and predicted with, given the clusters of its decks, the cluster nearest
/// to the user's common parameters and whether there are such parameters.
pub fn plan_clusters(
    train: &[Row],
    test: &[Row],
    decks: &[i64],
    labels: &[usize],
    nearest: Option<usize>,
    max_seq: usize,
    default_params: bool,
    has_global: bool,
) -> (plan: ClusterPlan)
    requires
        decks@.len() == labels@.len(),
        forall|i: int, j: int|
            0 <= i < j < decks@.len() ==> #[trigger] decks@[i] < #[trigger] decks@[j],
        forall|i: int| 0 <= i < labels@.len() ==> #[trigger] labels@[i] < usize::MAX,
    ensures
        is_cluster_count(labels@, plan.rows@.len()),
        forall|c: int|
            0 <= c < plan.rows@.len() ==> (#[trigger] plan.rows@[c])@ == grouping::rows_where(
                train@.len(),
                in_cluster(partitions_of(train@), decks@, labels@, c as usize),
            ),
        plan.sources@.len() == plan.rows@.len(),
        forall|c: int|
            0 <= c < plan.sources@.len() ==> #[trigger] plan.sources@[c] == source_of(
                default_params,
                trainable(train@, plan.rows@[c]@, max_seq),
                has_global,
            ),
        grouping::are_groups(
            predictor_keys(test@, decks@, labels@, plan.rows@.len() as usize, nearest),
            plan.groups@,
        ),
{
    let n: usize = cluster_count(labels);
    let rows = cluster_rows(&partition_keys(train), decks, labels, n);
    let n_train: usize = train.len();
    let mut sources: Vec<Source> = Vec::with_capacity(n);
    let mut c: usize = 0;
    while c < n
        invariant
            c <= n,
            rows@.len() == n,
            n_train == train@.len(),
            forall|d: int|
                0 <= d < n ==> (#[trigger] rows@[d])@ == grouping::rows_where(
                    train@.len(),
                    in_cluster(partitions_of(train@), decks@, labels@, d as usize),
                ),
            sources@.len() == c,
            forall|d: int|
                0 <= d < c ==> #[trigger] sources@[d] == source_of(
                    default_params,
                    trainable(train@, rows@[d]@, max_seq),
                    has_global,
                ),
        decreases n - c,
    {
        proof {
            grouping::lemma_rows_where(
                train@.len(),
                in_cluster(partitions_of(train@), decks@, labels@, c),
            );
        }
        sources.push(set_source(train, &rows[c], max_seq, default_params, has_global));
        c = c + 1;
    }
    let keys = predictors(&partition_keys(test), decks, labels, n, nearest);
    assert(keys@ =~= predictor_keys(test@, decks@, labels@, n, nearest));
    let groups = grouping::group_by_key(&keys);
    ClusterPlan { rows, sources, groups }
}

/// However the decks are clustered, every tested row is predicted once: the groups of a plan hold as many
/// rows as are tested, and each of them.
pub proof fn lemma_same_rows_tested(
    test: Seq<Row>,
    decks: Seq<i64>,
    labels: Seq<usize>,
    n_clusters: usize,
    nearest: Option<usize>,
    groups: Seq<grouping::Group>,
    i: usize,
)
    requires
        i < test.len() <= usize::MAX,
        grouping::are_groups(predictor_keys(test, decks, labels, n_clusters, nearest), groups),
    ensures
        grouping::rows_in(groups, groups.len()) == test.len(),
        exists|g: int|
            0 <= g < groups.len() && (#[trigger] groups[g]).rows@.contains(i) && groups[g].key
                == predictor(decks, labels, n_clusters, nearest, test[i as int].partition),
        forall|g: int, h: int|
            0 <= g < groups.len() && 0 <= h < groups.len() && (#[trigger] groups[g]).rows@.contains(i)
                && (#[trigger] groups[h]).rows@.contains(i) ==> g == h,
{
    let keys = predictor_keys(test, decks, labels, n_clusters, nearest);
    grouping::lemma_groups_partition(keys, groups, i);
    grouping::lemma_groups_size(keys, groups);
    let g = choose|g: int| 0 <= g < groups.len() && (#[trigger] groups[g]).rows@.contains(i);
    grouping::lemma_rows_where(keys.len(), grouping::has_key(keys, groups[g].key));
    assert(keys[i as int] == predictor(decks, labels, n_clusters, nearest, test[i as int].partition));
}

/// Up to `cap` indices spread over `0..n`: all of them where there are no more, else the first index of
/// each of `cap` equal shares.
pub open spec fn spread(n: int, cap: int, i: int) -> int {
    if n <= cap {
        i
    } else {
        (i * n) / cap
    }
}

/// Up to `cap` indices spread evenly over `0..n`.
pub fn kl_eval_indices(n: usize, cap: usize) -> (idx: Vec<usize>)
    requires
        n > cap ==> cap * n <= usize::MAX,
    ensures
        idx@.len() == (if n <= cap {
            n
        } else {
            cap
        }),
        forall|i: int| 0 <= i < idx@.len() ==> #[trigger] idx@[i] == spread(n as int, cap as int, i),
{
    let mut idx: Vec<usize> = Vec::new();
    if n <= cap {
        let mut i: usize = 0;
        while i < n
            invariant
                i <= n,
                n <= cap,
                idx@.len() == i,
                forall|j: int| 0 <= j < i ==> #[trigger] idx@[j] == spread(n as int, cap as int, j),
            decreases n - i,
        {
            idx.push(i);
            i = i + 1;
        }
        return idx;
    }
    let mut i: usize = 0;
    while i < cap
        invariant
            i <= cap,
            cap < n,
            cap * n <= usize::MAX,
            idx@.len() == i,
            forall|j: int| 0 <= j < i ==> #[trigger] idx@[j] == spread(n as int, cap as int, j),
        decreases cap - i,
    {
        assert(i * n <= cap * n) by (nonlinear_arith)
            requires
                i < cap,
        ;
        idx.push(i * n / cap);
        i = i + 1;
    }
    idx
}

/// The spread indices are below `n`, and no two are equal.
pub proof fn lemma_spread(n: int, cap: int, i: int, j: int)
    requires
        0 <= i < j,
        j < cap,
        j < n,
    ensures
        0 <= spread(n, cap, i) < spread(n, cap, j) < n,
{
    if n > cap {
        assert((i * n) / cap < (j * n) / cap && (j * n) / cap < n && (i * n) / cap >= 0)
            by (nonlinear_arith)
            requires
                0 <= i < j,
                j < cap,
                cap < n,
        {
            assert(j * n >= i * n + cap);
            assert((j * n) / cap >= (i * n + cap) / cap);
            assert((i * n + cap) / cap == (i * n) / cap + 1);
            assert(j * n < cap * n);
        }
    }
}

/// The rows of the deck at place `k` are predicted by the cluster that the deck was put into; those of a
/// deck that was not clustered by the nearest cluster, or by none.
pub proof fn lemma_decks_predicted(
    decks: Seq<i64>,
    labels: Seq<usize>,
    n_clusters: usize,
    nearest: Option<usize>,
    d: i64,
    k: int,
)
    requires
        decks.len() == labels.len(),
        forall|i: int, j: int| 0 <= i < j < decks.len() ==> #[trigger] decks[i] < #[trigger] decks[j],
        forall|i: int| 0 <= i < labels.len() ==> #[trigger] labels[i] <= i64::MAX,
        n_clusters <= i64::MAX,
        nearest matches Some(c) ==> c <= i64::MAX,
    ensures
        0 <= k < decks.len() && decks[k] == d ==> predictor(decks, labels, n_clusters, nearest, d)
            == labels[k],
        (forall|i: int| 0 <= i < decks.len() ==> #[trigger] decks[i] != d) ==> predictor(
            decks,
            labels,
            n_clusters,
            nearest,
            d,
        ) == (if nearest is Some {
            nearest->0
        } else {
            n_clusters
        }),
{
    if 0 <= k < decks.len() && decks[k] == d {
        let w = decks.index_of(d);
        assert(decks.contains(d));
        if w < k {
            assert(decks[w] < decks[k]);
        } else if k < w {
            assert(decks[k] < decks[w]);
        }
    }
}

/// A cluster is trained on the rows of the decks that were put into it, in order.
pub proof fn lemma_cluster_rows(
    partitions: Seq<i64>,
    decks: Seq<i64>,
    labels: Seq<usize>,
    c: usize,
    i: usize,
)
    requires
        partitions.len() <= usize::MAX,
        decks.len() == labels.len(),
        forall|a: int, b: int| 0 <= a < b < decks.len() ==> #[trigger] decks[a] < #[trigger] decks[b],
    ensures
        ({
            let rows = grouping::rows_where(
                partitions.len(),
                in_cluster(partitions, decks, labels, c),
            );
            &&& rows.contains(i) <==> i < partitions.len() && exists|k: int|
                0 <= k < decks.len() && #[trigger] decks[k] == partitions[i as int] && labels[k] == c
            &&& forall|a: int, b: int|
                0 <= a < b < rows.len() ==> #[trigger] rows[a] < #[trigger] rows[b]
        }),
{
    let p = in_cluster(partitions, decks, labels, c);
    grouping::lemma_rows_where(partitions.len(), p);
    let rows = grouping::rows_where(partitions.len(), p);
    assert(rows.contains(i) <==> i < partitions.len() && p(i as int));
    if i < partitions.len() {
        let d = partitions[i as int];
        if decks.contains(d) {
            let w = decks.index_of(d);
            assert(decks[w] == d);
            assert forall|k: int| 0 <= k < decks.len() && #[trigger] decks[k] == d implies k == w by {
                if w < k {
                    assert(decks[w] < decks[k]);
                } else if k < w {
                    assert(decks[k] < decks[w]);
                }
            }
        } else {
            assert(forall|k: int| 0 <= k < decks.len() ==> #[trigger] decks[k] != d);
        }
    }
}

/// Parameters are the defaults where they are asked for, or where neither the rows of the set nor all
/// rows can be trained on. A set can be trained on where one of its rows has a short enough history.
pub proof fn lemma_sources(
    rows: Seq<Row>,
    idx: Seq<usize>,
    max_seq: usize,
    default_params: bool,
    all: bool,
    k: int,
)
    ensures
        ({
            let source = source_of(default_params, trainable(rows, idx, max_seq), all);
            &&& default_params ==> source == Source::Defaults
            &&& !default_params && 0 <= k < idx.len() && rows[idx[k] as int].pos <= max_seq
                ==> source == Source::OwnRows
            &&& !default_params && (forall|j: int|
                0 <= j < idx.len() ==> rows[#[trigger] idx[j] as int].pos > max_seq) ==> source == (
            if all {
                Source::AllRows
            } else {
                Source::Defaults
            })
        }),
{
}

/// Where there are more than `cap`, index `i` of the spread ones is the `i`-th of as many equal shares.
pub proof fn lemma_spread_shares(n: int, cap: int, i: int)
    requires
        0 < cap,
        0 <= i < n,
    ensures
        n <= cap ==> spread(n, cap, i) == i,
        n > cap ==> spread(n, cap, i) * cap <= i * n < (spread(n, cap, i) + 1) * cap,
{
    if n > cap {
        let q = (i * n) / cap;
        assert(q * cap <= i * n < (q + 1) * cap) by (nonlinear_arith)
            requires
                cap > 0,
                q == (i * n) / cap,
        ;
    }
}

/// A deck is new where it is not among the trained ones.
pub proof fn lemma_new_deck(test: Seq<Row>, decks: Seq<i64>, k: int)
    ensures
        0 <= k < test.len() && (forall|i: int|
            0 <= i < decks.len() ==> #[trigger] decks[i] != test[k].partition) ==> tests_new_deck(
            test,
            decks,
        ),
        (forall|j: int| 0 <= j < test.len() ==> decks.contains((#[trigger] test[j]).partition))
            ==> !tests_new_deck(test, decks),
{
    if 0 <= k < test.len() && (forall|i: int|
        0 <= i < decks.len() ==> #[trigger] decks[i] != test[k].partition) {
        assert(!decks.contains(test[k].partition));
    }
}

/// The number of clusters is one more than the greatest label, zero where there is none.
pub proof fn lemma_cluster_count(labels: Seq<usize>, n: nat, i: int)
    requires
        is_cluster_count(labels, n),
    ensures
        labels.len() == 0 ==> n == 0,
        0 <= i < labels.len() && (forall|j: int| 0 <= j < labels.len() ==> #[trigger] labels[j]
            <= labels[i]) ==> n == labels[i] + 1,
{
    if 0 <= i < labels.len() {
        assert(labels[i] < n);
        let j = choose|j: int| 0 <= j < labels.len() && #[trigger] labels[j] == n - 1;
        assert(labels[j] == n - 1);
    }
}

} // verus!
