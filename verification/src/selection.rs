//! Which clusters of a condensed tree are kept, and the labels that the points get.

use crate::counting;
use crate::hdbscan::CondensedEdge;
use crate::labels;
use crate::sorting;
use std::collections::HashMap;
use vstd::prelude::*;

verus! {

/// The clusters that leave cluster `p` by one of the first `k` edges, in order.
pub open spec fn child_clusters(
    edges: Seq<CondensedEdge>,
    n: nat,
    p: usize,
    k: nat,
) -> Seq<usize>
    decreases k,
{
    if k == 0 {
        Seq::empty()
    } else {
        let e = edges[k - 1];
        let before = child_clusters(edges, n, p, (k - 1) as nat);
        if e.parent == p && e.child >= n {
            before.push(e.child)
        } else {
            before
        }
    }
}

/// The clusters that leave each cluster.
pub open spec fn kids_of_edges(edges: Seq<CondensedEdge>, n: nat) -> spec_fn(usize) -> Seq<usize> {
    |p: usize| child_clusters(edges, n, p, edges.len())
}

/// The lists of a map, and nothing where it has none.
pub open spec fn kids_of_map(m: Map<usize, Vec<usize>>) -> spec_fn(usize) -> Seq<usize> {
    |p: usize|
        if m.contains_key(p) {
            m[p]@
        } else {
            Seq::empty()
        }
}

/// Children are younger than their parents.
pub open spec fn ages(kids: spec_fn(usize) -> Seq<usize>) -> bool {
    forall|p: usize, i: int| 0 <= i < kids(p).len() ==> #[trigger] kids(p)[i] > p
}

/// Step `i` of `path` leads to a child.
pub open spec fn goes_down(kids: spec_fn(usize) -> Seq<usize>, path: Seq<usize>, i: int) -> bool {
    kids(path[i]).contains(path[i + 1])
}

/// `path` leads from each of its clusters to a child of that cluster.
pub open spec fn is_path(kids: spec_fn(usize) -> Seq<usize>, path: Seq<usize>) -> bool {
    &&& path.len() > 0
    &&& forall|i: int| 0 <= i < path.len() - 1 ==> #[trigger] goes_down(kids, path, i)
}

/// A path leads from `node` to `c`; a path of one cluster leads from it to itself.
pub open spec fn lies_below(kids: spec_fn(usize) -> Seq<usize>, node: usize, c: usize) -> bool {
    exists|path: Seq<usize>| #[trigger]
        is_path(kids, path) && path[0] == node && path.last() == c
}

/// No path from `node` comes back to a cluster that it has left.
pub open spec fn no_circle_below(kids: spec_fn(usize) -> Seq<usize>, node: usize) -> bool {
    forall|path: Seq<usize>| #[trigger]
        is_path(kids, path) && path[0] == node ==> path.no_duplicates()
}

/// Every cluster is a child at most once.
pub open spec fn children_once(kids: spec_fn(usize) -> Seq<usize>) -> bool {
    forall|p: usize, i: int, q: usize, j: int|
        0 <= i < kids(p).len() && 0 <= j < kids(q).len() && #[trigger] kids(p)[i]
            == #[trigger] kids(q)[j] ==> p == q && i == j
}

/// Some path of `h` clusters starts at `node`.
pub open spec fn reaches_down(kids: spec_fn(usize) -> Seq<usize>, node: usize, h: nat) -> bool
    decreases h,
{
    h <= 1 || exists|i: int|
        0 <= i < kids(node).len() && reaches_down(kids, #[trigger] kids(node)[i], (h - 1) as nat)
}

/// The paths that start at `node` are of bounded length.
pub open spec fn is_bounded(kids: spec_fn(usize) -> Seq<usize>, node: usize) -> bool {
    exists|h: nat| !#[trigger] reaches_down(kids, node, h)
}

/// The clusters on the paths of at most `h` clusters from `node`: itself, then those below its
/// children, from the last child to the first.
pub open spec fn walk(kids: spec_fn(usize) -> Seq<usize>, node: usize, h: nat) -> Seq<usize>
    decreases h, 0nat,
{
    if h == 0 {
        Seq::empty()
    } else {
        seq![node] + walk_list(kids, kids(node), (h - 1) as nat)
    }
}

/// The walks from the clusters of a list, from the last of the list on.
pub open spec fn walk_list(
    kids: spec_fn(usize) -> Seq<usize>,
    list: Seq<usize>,
    h: nat,
) -> Seq<usize>
    decreases h, list.len(),
{
    if list.len() == 0 {
        Seq::empty()
    } else {
        walk(kids, list.last(), h) + walk_list(kids, list.drop_last(), h)
    }
}

/// The clusters below `node`: itself, then those below its children, from the last child to the first.
pub open spec fn clusters_below(kids: spec_fn(usize) -> Seq<usize>, node: usize) -> Seq<usize> {
    walk(kids, node, choose|h: nat| !#[trigger] reaches_down(kids, node, h))
}

/// The clusters at or below those of a list, from the last of the list on.
pub open spec fn clusters_below_list(
    kids: spec_fn(usize) -> Seq<usize>,
    list: Seq<usize>,
) -> Seq<usize>
    decreases list.len(),
{
    if list.len() == 0 {
        Seq::empty()
    } else {
        clusters_below(kids, list.last()) + clusters_below_list(kids, list.drop_last())
    }
}

/// A walk that is long enough for every path does not depend on its length.
proof fn lemma_walk_same(kids: spec_fn(usize) -> Seq<usize>, node: usize, h: nat, k: nat)
    requires
        !reaches_down(kids, node, h),
        h <= k,
    ensures
        walk(kids, node, h) == walk(kids, node, k),
    decreases h, 0nat,
{
    let list = kids(node);
    assert forall|i: int| 0 <= i < list.len() implies !#[trigger] reaches_down(
        kids,
        list[i],
        (h - 1) as nat,
    ) by {
        assert(kids(node)[i] == list[i]);
    }
    lemma_walk_list_same(kids, list, (h - 1) as nat, (k - 1) as nat);
}

proof fn lemma_walk_list_same(
    kids: spec_fn(usize) -> Seq<usize>,
    list: Seq<usize>,
    h: nat,
    k: nat,
)
    requires
        forall|i: int| 0 <= i < list.len() ==> !#[trigger] reaches_down(kids, list[i], h),
        h <= k,
    ensures
        walk_list(kids, list, h) == walk_list(kids, list, k),
    decreases h, list.len(),
{
    if list.len() > 0 {
        assert(!reaches_down(kids, list[list.len() - 1], h));
        lemma_walk_same(kids, list.last(), h, k);
        let rest = list.drop_last();
        assert forall|i: int| 0 <= i < rest.len() implies !#[trigger] reaches_down(
            kids,
            rest[i],
            h,
        ) by {
            assert(!reaches_down(kids, list[i], h));
        }
        lemma_walk_list_same(kids, rest, h, k);
    }
}

proof fn lemma_walk_below(kids: spec_fn(usize) -> Seq<usize>, node: usize, h: nat)
    requires
        !reaches_down(kids, node, h),
    ensures
        walk(kids, node, h) == clusters_below(kids, node),
{
    let k = choose|k: nat| !#[trigger] reaches_down(kids, node, k);
    if h <= k {
        lemma_walk_same(kids, node, h, k);
    } else {
        lemma_walk_same(kids, node, k, h);
    }
}

proof fn lemma_walk_list_below(kids: spec_fn(usize) -> Seq<usize>, list: Seq<usize>, h: nat)
    requires
        forall|i: int| 0 <= i < list.len() ==> !#[trigger] reaches_down(kids, list[i], h),
    ensures
        walk_list(kids, list, h) == clusters_below_list(kids, list),
    decreases list.len(),
{
    if list.len() > 0 {
        assert(!reaches_down(kids, list[list.len() - 1], h));
        lemma_walk_below(kids, list.last(), h);
        let rest = list.drop_last();
        assert forall|i: int| 0 <= i < rest.len() implies !#[trigger] reaches_down(
            kids,
            rest[i],
            h,
        ) by {
            assert(!reaches_down(kids, list[i], h));
        }
        lemma_walk_list_below(kids, rest, h);
    }
}

/// Where paths are of bounded length, the clusters below one are itself and those below its children,
/// whose paths are shorter.
pub proof fn lemma_clusters_below(kids: spec_fn(usize) -> Seq<usize>, node: usize)
    requires
        is_bounded(kids, node),
    ensures
        clusters_below(kids, node) == seq![node] + clusters_below_list(kids, kids(node)),
        forall|i: int|
            0 <= i < kids(node).len() ==> is_bounded(kids, #[trigger] kids(node)[i]),
{
    let h = choose|h: nat| !#[trigger] reaches_down(kids, node, h);
    let list = kids(node);
    assert forall|i: int| 0 <= i < list.len() implies !#[trigger] reaches_down(
        kids,
        list[i],
        (h - 1) as nat,
    ) by {
        assert(kids(node)[i] == list[i]);
    }
    lemma_walk_list_below(kids, list, (h - 1) as nat);
    assert forall|i: int| 0 <= i < kids(node).len() implies is_bounded(
        kids,
        #[trigger] kids(node)[i],
    ) by {
        assert(!reaches_down(kids, list[i], (h - 1) as nat));
    }
}

proof fn lemma_path_longer(kids: spec_fn(usize) -> Seq<usize>, node: usize, path: Seq<usize>)
    requires
        is_path(kids, path),
        kids(node).contains(path[0]),
    ensures
        is_path(kids, seq![node] + path),
{
    let long = seq![node] + path;
    assert forall|i: int| 0 <= i < long.len() - 1 implies #[trigger] goes_down(kids, long, i) by {
        if i > 0 {
            assert(goes_down(kids, path, i - 1));
            assert(long[i] == path[i - 1]);
            assert(long[i + 1] == path[i]);
        } else {
            assert(long[0] == node);
            assert(long[1] == path[0]);
        }
    }
}

proof fn lemma_path_part(kids: spec_fn(usize) -> Seq<usize>, path: Seq<usize>, from: int, to: int)
    requires
        is_path(kids, path),
        0 <= from < to <= path.len(),
    ensures
        is_path(kids, path.subrange(from, to)),
{
    let part = path.subrange(from, to);
    assert forall|i: int| 0 <= i < part.len() - 1 implies #[trigger] goes_down(kids, part, i) by {
        assert(goes_down(kids, path, from + i));
    }
}

proof fn lemma_path_of_length(kids: spec_fn(usize) -> Seq<usize>, node: usize, h: nat) -> (path: Seq<
    usize,
>)
    requires
        h > 0,
        reaches_down(kids, node, h),
    ensures
        is_path(kids, path),
        path[0] == node,
        path.len() == h,
    decreases h,
{
    if h == 1 {
        seq![node]
    } else {
        let i = choose|i: int|
            0 <= i < kids(node).len() && reaches_down(
                kids,
                #[trigger] kids(node)[i],
                (h - 1) as nat,
            );
        let rest = lemma_path_of_length(kids, kids(node)[i], (h - 1) as nat);
        lemma_path_longer(kids, node, rest);
        seq![node] + rest
    }
}

/// Paths that do not come back to a cluster are of bounded length where finitely many clusters have
/// children.
proof fn lemma_bounded(m: Map<usize, Vec<usize>>, node: usize)
    requires
        m.dom().finite(),
        no_circle_below(kids_of_map(m), node),
    ensures
        is_bounded(kids_of_map(m), node),
{
    let kids = kids_of_map(m);
    let h = m.dom().len() + 2;
    if reaches_down(kids, node, h) {
        let path = lemma_path_of_length(kids, node, h);
        let body = path.drop_last();
        assert(path.no_duplicates());
        assert(body.no_duplicates());
        body.unique_seq_to_set();
        assert(body.to_set().subset_of(m.dom())) by {
            assert forall|c: usize| body.to_set().contains(c) implies m.dom().contains(c) by {
                let i = choose|i: int| 0 <= i < body.len() && body[i] == c;
                assert(goes_down(kids, path, i));
            }
        }
        vstd::set_lib::lemma_len_subset(body.to_set(), m.dom());
    }
}

/// Where children are younger than their parents, no path comes back.
pub proof fn lemma_ages_no_circle(kids: spec_fn(usize) -> Seq<usize>, node: usize)
    requires
        ages(kids),
    ensures
        no_circle_below(kids, node),
{
    assert forall|path: Seq<usize>| #[trigger]
        is_path(kids, path) && path[0] == node implies path.no_duplicates() by {
        assert forall|i: int, j: int| 0 <= i < path.len() && 0 <= j < path.len() && i != j implies path[i]
            != path[j] by {
            if i < j {
                lemma_path_ascends(kids, path, i, j);
            } else {
                lemma_path_ascends(kids, path, j, i);
            }
        }
    }
}

proof fn lemma_path_ascends(kids: spec_fn(usize) -> Seq<usize>, path: Seq<usize>, i: int, j: int)
    requires
        ages(kids),
        is_path(kids, path),
        0 <= i < j < path.len(),
    ensures
        path[i] < path[j],
    decreases j,
{
    assert(goes_down(kids, path, j - 1));
    let list = kids(path[j - 1]);
    let w = choose|w: int| 0 <= w < list.len() && list[w] == path[j];
    assert(kids(path[j - 1])[w] > path[j - 1]);
    if i < j - 1 {
        lemma_path_ascends(kids, path, i, j - 1);
    }
}

proof fn lemma_list_contains(kids: spec_fn(usize) -> Seq<usize>, list: Seq<usize>, c: usize)
    ensures
        clusters_below_list(kids, list).contains(c) <==> exists|i: int|
            0 <= i < list.len() && #[trigger] clusters_below(kids, list[i]).contains(c),
    decreases list.len(),
{
    if list.len() > 0 {
        let rest = list.drop_last();
        let (a, b) = (clusters_below(kids, list.last()), clusters_below_list(kids, rest));
        lemma_list_contains(kids, rest, c);
        lemma_concat_contains(a, b, c);
        assert(list.last() == list[list.len() - 1]);
        if b.contains(c) {
            let i = choose|i: int|
                0 <= i < rest.len() && #[trigger] clusters_below(kids, rest[i]).contains(c);
            assert(clusters_below(kids, list[i]).contains(c));
        }
        if exists|i: int|
            0 <= i < list.len() && #[trigger] clusters_below(kids, list[i]).contains(c) {
            let i = choose|i: int|
                0 <= i < list.len() && #[trigger] clusters_below(kids, list[i]).contains(c);
            if i < rest.len() {
                assert(clusters_below(kids, rest[i]).contains(c));
            }
        }
    }
}

proof fn lemma_concat_contains(a: Seq<usize>, b: Seq<usize>, c: usize)
    ensures
        (a + b).contains(c) <==> a.contains(c) || b.contains(c),
{
    if a.contains(c) {
        let i = choose|i: int| 0 <= i < a.len() && a[i] == c;
        assert((a + b)[i] == c);
    }
    if b.contains(c) {
        let i = choose|i: int| 0 <= i < b.len() && b[i] == c;
        assert((a + b)[a.len() + i] == c);
    }
    if (a + b).contains(c) {
        let i = choose|i: int| 0 <= i < (a + b).len() && (a + b)[i] == c;
        if i < a.len() {
            assert(a[i] == c);
        } else {
            assert(b[i - a.len()] == c);
        }
    }
}

/// The clusters below `node` are those that a path from it leads to.
pub proof fn lemma_below_reached(kids: spec_fn(usize) -> Seq<usize>, node: usize, c: usize)
    requires
        is_bounded(kids, node),
    ensures
        clusters_below(kids, node).contains(c) <==> lies_below(kids, node, c),
{
    let h = choose|h: nat| !#[trigger] reaches_down(kids, node, h);
    lemma_below_reached_within(kids, node, c, h);
}

proof fn lemma_below_reached_within(
    kids: spec_fn(usize) -> Seq<usize>,
    node: usize,
    c: usize,
    h: nat,
)
    requires
        !reaches_down(kids, node, h),
    ensures
        clusters_below(kids, node).contains(c) <==> lies_below(kids, node, c),
    decreases h,
{
    lemma_clusters_below(kids, node);
    let list = kids(node);
    lemma_list_contains(kids, list, c);
    lemma_concat_contains(seq![node], clusters_below_list(kids, list), c);
    assert(seq![node][0] == node);
    assert forall|i: int| 0 <= i < list.len() implies (#[trigger] clusters_below(
        kids,
        list[i],
    ).contains(c) <==> lies_below(kids, list[i], c)) by {
        assert(kids(node)[i] == list[i]);
        lemma_below_reached_within(kids, list[i], c, (h - 1) as nat);
    }
    if clusters_below(kids, node).contains(c) {
        if c == node {
            assert(is_path(kids, seq![node]));
            assert(seq![node].last() == c);
        } else {
            let i = choose|i: int|
                0 <= i < list.len() && #[trigger] clusters_below(kids, list[i]).contains(c);
            lemma_below_child(kids, node, i, c);
        }
    }
    if lies_below(kids, node, c) && c != node {
        let i = lemma_below_via_child(kids, node, c);
        assert(clusters_below(kids, list[i]).contains(c));
    }
}

/// What lies below a child lies below its parent.
proof fn lemma_below_child(kids: spec_fn(usize) -> Seq<usize>, node: usize, i: int, c: usize)
    requires
        0 <= i < kids(node).len(),
        lies_below(kids, kids(node)[i], c),
    ensures
        lies_below(kids, node, c),
{
    let child = kids(node)[i];
    let path = choose|path: Seq<usize>| #[trigger]
        is_path(kids, path) && path[0] == child && path.last() == c;
    lemma_path_longer(kids, node, path);
    let long = seq![node] + path;
    assert(long[0] == node);
    assert(long.last() == c);
}

/// What lies below a cluster and is another one lies below one of its children.
proof fn lemma_below_via_child(kids: spec_fn(usize) -> Seq<usize>, node: usize, c: usize) -> (i: int)
    requires
        lies_below(kids, node, c),
        c != node,
    ensures
        0 <= i < kids(node).len(),
        lies_below(kids, kids(node)[i], c),
{
    let path = choose|path: Seq<usize>| #[trigger]
        is_path(kids, path) && path[0] == node && path.last() == c;
    assert(path.len() > 1);
    assert(goes_down(kids, path, 0));
    let list = kids(node);
    let i = choose|i: int| 0 <= i < list.len() && list[i] == path[1];
    let rest = path.subrange(1, path.len() as int);
    lemma_path_part(kids, path, 1, path.len() as int);
    assert(rest[0] == list[i]);
    assert(rest.last() == c);
    i
}

/// What lies below a cluster and is another one has its parent there too.
proof fn lemma_below_via_parent(kids: spec_fn(usize) -> Seq<usize>, node: usize, c: usize) -> (p: usize)
    requires
        lies_below(kids, node, c),
        c != node,
    ensures
        lies_below(kids, node, p),
        kids(p).contains(c),
{
    let path = choose|path: Seq<usize>| #[trigger]
        is_path(kids, path) && path[0] == node && path.last() == c;
    assert(path.len() > 1);
    let last = path.len() - 2;
    assert(goes_down(kids, path, last));
    let rest = path.subrange(0, path.len() - 1);
    lemma_path_part(kids, path, 0, path.len() - 1);
    assert(rest[0] == node);
    assert(rest.last() == path[last]);
    path[last]
}

/// A cluster does not lie below its children.
proof fn lemma_not_below_child(kids: spec_fn(usize) -> Seq<usize>, node: usize, i: int)
    requires
        no_circle_below(kids, node),
        0 <= i < kids(node).len(),
    ensures
        !lies_below(kids, kids(node)[i], node),
{
    let child = kids(node)[i];
    if lies_below(kids, child, node) {
        let path = choose|path: Seq<usize>| #[trigger]
            is_path(kids, path) && path[0] == child && path.last() == node;
        lemma_path_longer(kids, node, path);
        let long = seq![node] + path;
        assert(long[0] == node);
        assert(long[long.len() - 1] == node);
        assert(long.no_duplicates());
    }
}

proof fn lemma_no_circle_child(kids: spec_fn(usize) -> Seq<usize>, node: usize, i: int)
    requires
        no_circle_below(kids, node),
        0 <= i < kids(node).len(),
    ensures
        no_circle_below(kids, kids(node)[i]),
{
    let child = kids(node)[i];
    assert forall|path: Seq<usize>| #[trigger]
        is_path(kids, path) && path[0] == child implies path.no_duplicates() by {
        lemma_path_longer(kids, node, path);
        let long = seq![node] + path;
        assert(long[0] == node);
        assert(long.no_duplicates());
        assert forall|a: int, b: int| 0 <= a < path.len() && 0 <= b < path.len() && a != b implies path[a]
            != path[b] by {
            assert(long[a + 1] == path[a]);
            assert(long[b + 1] == path[b]);
        }
    }
}

/// In a forest nothing lies below two children of one cluster: followed back from there, the paths
/// from both would have to meet.
proof fn lemma_apart(
    kids: spec_fn(usize) -> Seq<usize>,
    node: usize,
    i: int,
    j: int,
    path: Seq<usize>,
)
    requires
        children_once(kids),
        no_circle_below(kids, node),
        0 <= i < kids(node).len(),
        0 <= j < kids(node).len(),
        i != j,
        is_path(kids, path),
        path[0] == kids(node)[i],
    ensures
        !lies_below(kids, kids(node)[j], path.last()),
    decreases path.len(),
{
    let (a, b) = (kids(node)[i], kids(node)[j]);
    let c = path.last();
    if lies_below(kids, b, c) {
        assert(a != b);
        if c == b {
            // the child `b` lies below `a`, so its parent `node` does
            assert(lies_below(kids, a, c));
            let p = lemma_below_via_parent(kids, a, c);
            let w = choose|w: int| 0 <= w < kids(p).len() && #[trigger] kids(p)[w] == c;
            assert(kids(p)[w] == kids(node)[j]);
            lemma_not_below_child(kids, node, i);
        } else {
            let p = lemma_below_via_parent(kids, b, c);
            let w = choose|w: int| 0 <= w < kids(p).len() && #[trigger] kids(p)[w] == c;
            if path.len() == 1 {
                assert(kids(p)[w] == kids(node)[i]);
                lemma_not_below_child(kids, node, j);
            } else {
                let last = path.len() - 2;
                assert(goes_down(kids, path, last));
                let v = choose|v: int|
                    0 <= v < kids(path[last]).len() && #[trigger] kids(path[last])[v] == path[last + 1];
                assert(kids(path[last])[v] == kids(p)[w]);
                let rest = path.subrange(0, path.len() - 1);
                lemma_path_part(kids, path, 0, path.len() - 1);
                assert(rest.last() == path[last]);
                lemma_apart(kids, node, i, j, rest);
            }
        }
    }
}

/// `out` holds nothing twice, and every cluster stands before its children.
pub open spec fn parents_first(kids: spec_fn(usize) -> Seq<usize>, out: Seq<usize>) -> bool {
    &&& out.no_duplicates()
    &&& forall|a: int, b: int|
        0 <= a < out.len() && 0 <= b < out.len() && kids(#[trigger] out[a]).contains(
            #[trigger] out[b],
        ) ==> a < b
}

proof fn lemma_parents_first_concat(
    kids: spec_fn(usize) -> Seq<usize>,
    s: Seq<usize>,
    t: Seq<usize>,
)
    requires
        parents_first(kids, s),
        parents_first(kids, t),
        forall|a: int, b: int|
            0 <= a < s.len() && 0 <= b < t.len() ==> #[trigger] s[a] != #[trigger] t[b] && !kids(
                t[b],
            ).contains(s[a]),
    ensures
        parents_first(kids, s + t),
{
    let out = s + t;
    assert forall|a: int, b: int| 0 <= a < out.len() && 0 <= b < out.len() && a != b implies out[a]
        != out[b] by {
        if a < s.len() && b >= s.len() {
            assert(s[a] != t[b - s.len()]);
        } else if b < s.len() && a >= s.len() {
            assert(s[b] != t[a - s.len()]);
        } else if a < s.len() {
            assert(s[a] != s[b]);
        } else {
            assert(t[a - s.len()] != t[b - s.len()]);
        }
    }
    assert forall|a: int, b: int|
        0 <= a < out.len() && 0 <= b < out.len() && kids(#[trigger] out[a]).contains(
            #[trigger] out[b],
        ) implies a < b by {
        if a < s.len() && b < s.len() {
            assert(kids(s[a]).contains(s[b]));
        } else if a >= s.len() && b >= s.len() {
            assert(kids(t[a - s.len()]).contains(t[b - s.len()]));
        } else if a >= s.len() {
            assert(s[b] != t[a - s.len()]);
        }
    }
}

/// In a forest the clusters below one are listed once each, every one before its children.
pub proof fn lemma_below_in_order(kids: spec_fn(usize) -> Seq<usize>, node: usize)
    requires
        children_once(kids),
        no_circle_below(kids, node),
        is_bounded(kids, node),
    ensures
        parents_first(kids, clusters_below(kids, node)),
{
    let h = choose|h: nat| !#[trigger] reaches_down(kids, node, h);
    lemma_below_in_order_within(kids, node, h);
}

proof fn lemma_below_in_order_within(kids: spec_fn(usize) -> Seq<usize>, node: usize, h: nat)
    requires
        children_once(kids),
        no_circle_below(kids, node),
        !reaches_down(kids, node, h),
    ensures
        parents_first(kids, clusters_below(kids, node)),
    decreases h, 1nat, 0nat,
{
    let list = kids(node);
    lemma_clusters_below(kids, node);
    lemma_list_in_order(kids, node, list.len(), h);
    assert(list.take(list.len() as int) =~= list);
    let s = seq![node];
    let t = clusters_below_list(kids, list);
    assert(parents_first(kids, s)) by {
        if kids(node).contains(node) {
            let i = choose|i: int| 0 <= i < list.len() && list[i] == node;
            lemma_not_below_child(kids, node, i);
            assert(is_path(kids, seq![node]));
            assert(seq![node].last() == node);
        }
    }
    assert forall|a: int, b: int| 0 <= a < s.len() && 0 <= b < t.len() implies #[trigger] s[a]
        != #[trigger] t[b] && !kids(t[b]).contains(s[a]) by {
        let c = t[b];
        assert(t.contains(c));
        lemma_list_contains(kids, list, c);
        let i = choose|i: int|
            0 <= i < list.len() && #[trigger] clusters_below(kids, list[i]).contains(c);
        assert(is_bounded(kids, kids(node)[i]));
        lemma_below_reached(kids, list[i], c);
        lemma_not_below_child(kids, node, i);
        if kids(c).contains(node) {
            lemma_below_step(kids, list[i], c, node);
        }
    }
    lemma_parents_first_concat(kids, s, t);
}

/// A child of what lies below a cluster lies below it.
proof fn lemma_below_step(kids: spec_fn(usize) -> Seq<usize>, node: usize, c: usize, d: usize)
    requires
        lies_below(kids, node, c),
        kids(c).contains(d),
    ensures
        lies_below(kids, node, d),
{
    let path = choose|path: Seq<usize>| #[trigger]
        is_path(kids, path) && path[0] == node && path.last() == c;
    let long = path.push(d);
    assert forall|i: int| 0 <= i < long.len() - 1 implies #[trigger] goes_down(kids, long, i) by {
        if i < path.len() - 1 {
            assert(goes_down(kids, path, i));
        }
    }
    assert(is_path(kids, long));
    assert(long[0] == node);
    assert(long.last() == d);
}

proof fn lemma_list_in_order(kids: spec_fn(usize) -> Seq<usize>, node: usize, k: nat, h: nat)
    requires
        children_once(kids),
        no_circle_below(kids, node),
        !reaches_down(kids, node, h),
        k <= kids(node).len(),
    ensures
        parents_first(kids, clusters_below_list(kids, kids(node).take(k as int))),
    decreases h, 0nat, k,
{
    if k > 0 {
        let list = kids(node).take(k as int);
        let rest = kids(node).take(k - 1);
        assert(list.drop_last() =~= rest);
        assert(list.last() == kids(node)[k - 1]);
        lemma_clusters_below(kids, node);
        lemma_no_circle_child(kids, node, k - 1);
        lemma_below_in_order_within(kids, kids(node)[k - 1], (h - 1) as nat);
        lemma_list_in_order(kids, node, (k - 1) as nat, h);
        let s = clusters_below(kids, list.last());
        let t = clusters_below_list(kids, rest);
        assert forall|a: int, b: int| 0 <= a < s.len() && 0 <= b < t.len() implies #[trigger] s[a]
            != #[trigger] t[b] && !kids(t[b]).contains(s[a]) by {
            let (c, d) = (s[a], t[b]);
            assert(s.contains(c) && t.contains(d));
            assert(is_bounded(kids, kids(node)[k - 1]));
            lemma_below_reached(kids, list.last(), c);
            lemma_list_contains(kids, rest, d);
            let i = choose|i: int|
                0 <= i < rest.len() && #[trigger] clusters_below(kids, rest[i]).contains(d);
            assert(rest[i] == kids(node)[i]);
            assert(is_bounded(kids, kids(node)[i]));
            lemma_below_reached(kids, rest[i], d);
            let path = choose|path: Seq<usize>| #[trigger]
                is_path(kids, path) && path[0] == list.last() && path.last() == c;
            lemma_apart(kids, node, k - 1, i, path);
            if kids(d).contains(c) {
                lemma_below_step(kids, rest[i], d, c);
            }
        }
        lemma_parents_first_concat(kids, s, t);
    }
}

/// The list of cluster `p` is complete for the first `k` edges.
spec fn listed(m: Map<usize, Vec<usize>>, edges: Seq<CondensedEdge>, n: nat, k: nat, p: usize) -> bool {
    kids_of_map(m)(p) == child_clusters(edges, n, p, k)
}

/// For every cluster the clusters that leave it, in order of their edges.
pub fn cluster_children(edges: &[CondensedEdge], n: usize) -> (m: HashMap<usize, Vec<usize>>)
    ensures
        kids_of_map(m@) == kids_of_edges(edges@, n as nat),
{
    broadcast use vstd::std_specs::hash::group_hash_axioms;

    let mut m: HashMap<usize, Vec<usize>> = HashMap::new();
    let mut k: usize = 0;
    while k < edges.len()
        invariant
            k <= edges@.len(),
            forall|p: usize| #[trigger] listed(m@, edges@, n as nat, k as nat, p),
        decreases edges.len() - k,
    {
        let e: CondensedEdge = edges[k];
        let ghost before = m@;
        if e.child >= n {
            assert(listed(before, edges@, n as nat, k as nat, e.parent));
            let mut list: Vec<usize> = match m.remove(&e.parent) {
                Some(v) => v,
                None => Vec::new(),
            };
            list.push(e.child);
            m.insert(e.parent, list);
        }
        k = k + 1;
        proof {
            let done = (k - 1) as nat;
            assert forall|p: usize| #[trigger] listed(m@, edges@, n as nat, k as nat, p) by {
                assert(listed(before, edges@, n as nat, done, p));
            }
        }
    }
    proof {
        let (a, b) = (kids_of_map(m@), kids_of_edges(edges@, n as nat));
        assert forall|p: usize| #[trigger] a(p) == b(p) by {
            assert(listed(m@, edges@, n as nat, edges@.len(), p));
        }
        assert(a =~= b);
    }
    m
}

/// The clusters below those of a stack, from the top of the stack down.
spec fn stack_clusters(kids: spec_fn(usize) -> Seq<usize>, stack: Seq<usize>) -> Seq<usize>
    decreases stack.len(),
{
    if stack.len() == 0 {
        Seq::empty()
    } else {
        clusters_below(kids, stack.last()) + stack_clusters(kids, stack.drop_last())
    }
}

proof fn lemma_stack_extend(
    kids: spec_fn(usize) -> Seq<usize>,
    low: Seq<usize>,
    list: Seq<usize>,
)
    ensures
        stack_clusters(kids, low + list) == clusters_below_list(kids, list) + stack_clusters(
            kids,
            low,
        ),
    decreases list.len(),
{
    if list.len() == 0 {
        assert(low + list =~= low);
        assert(Seq::<usize>::empty() + stack_clusters(kids, low) =~= stack_clusters(kids, low));
    } else {
        assert((low + list).drop_last() =~= low + list.drop_last());
        assert((low + list).last() == list.last());
        lemma_stack_extend(kids, low, list.drop_last());
        let a = clusters_below(kids, list.last());
        let b = clusters_below_list(kids, list.drop_last());
        let c = stack_clusters(kids, low);
        assert(a + (b + c) =~= (a + b) + c);
    }
}

/// The clusters below `start`, itself first, from the last child of each to the first. In a forest,
/// where every cluster is a child at most once, each is listed once and before its children.
pub fn descend_clusters(start: usize, children: &HashMap<usize, Vec<usize>>) -> (out: Vec<usize>)
    requires
        no_circle_below(kids_of_map(children@), start),
    ensures
        out@ == clusters_below(kids_of_map(children@), start),
        out@ == seq![start] + clusters_below_list(
            kids_of_map(children@),
            kids_of_map(children@)(start),
        ),
        forall|c: usize| #[trigger]
            out@.contains(c) <==> lies_below(kids_of_map(children@), start, c),
        children_once(kids_of_map(children@)) ==> parents_first(kids_of_map(children@), out@),
{
    broadcast use vstd::std_specs::hash::group_hash_axioms;

    let ghost kids = kids_of_map(children@);
    let mut out: Vec<usize> = Vec::new();
    let mut stack: Vec<usize> = Vec::new();
    stack.push(start);
    proof {
        lemma_bounded(children@, start);
        let none = Seq::<usize>::empty();
        assert(stack@.drop_last() =~= none);
        assert(stack_clusters(kids, none) =~= none);
        let all = clusters_below(kids, start);
        assert(all + none =~= all);
        assert(out@ + all =~= all);
    }
    while stack.len() > 0
        invariant
            kids == kids_of_map(children@),
            forall|i: int| 0 <= i < stack@.len() ==> is_bounded(kids, #[trigger] stack@[i]),
            out@ + stack_clusters(kids, stack@) == clusters_below(kids, start),
        decreases stack_clusters(kids, stack@).len(),
    {
        let ghost before = stack@;
        let ghost out0 = out@;
        let node: usize = match stack.pop() {
            Some(x) => x,
            None => 0,
        };
        let ghost low = stack@;
        assert(low =~= before.drop_last());
        assert(node == before.last());
        out.push(node);
        let ghost list = kids(node);
        match children.get(&node) {
            Some(ch) => {
                let mut i: usize = 0;
                while i < ch.len()
                    invariant
                        i <= ch@.len(),
                        stack@ == low + ch@.take(i as int),
                    decreases ch.len() - i,
                {
                    assert(ch@.take(i + 1) =~= ch@.take(i as int).push(ch@[i as int]));
                    stack.push(ch[i]);
                    assert(stack@ =~= low + ch@.take(i + 1));
                    i = i + 1;
                }
                assert(ch@.take(ch@.len() as int) =~= ch@);
                assert(list == ch@);
            },
            None => {
                assert(list =~= Seq::<usize>::empty());
                assert(low + list =~= low);
            },
        }
        proof {
            assert(stack@ == low + list);
            assert(is_bounded(kids, before[before.len() - 1]));
            lemma_clusters_below(kids, node);
            assert forall|i: int| 0 <= i < stack@.len() implies is_bounded(
                kids,
                #[trigger] stack@[i],
            ) by {
                if i < low.len() {
                    assert(is_bounded(kids, before[i]));
                } else {
                    assert(is_bounded(kids, kids(node)[i - low.len()]));
                }
            }
            lemma_stack_extend(kids, low, list);
            let a = clusters_below_list(kids, list);
            let b = stack_clusters(kids, low);
            assert(clusters_below(kids, node) == seq![node] + a);
            assert(out@ + (a + b) =~= out0 + ((seq![node] + a) + b));
        }
    }
    assert(out@ + Seq::<usize>::empty() =~= out@);
    proof {
        lemma_clusters_below(kids, start);
        assert forall|c: usize| #[trigger] out@.contains(c) <==> lies_below(kids, start, c) by {
            lemma_below_reached(kids, start, c);
        }
        if children_once(kids) {
            lemma_below_in_order(kids, start);
        }
    }
    out
}

/// `ids` lists the numbers that satisfy `p`, ascending, each once.
pub open spec fn lists_exactly(ids: Seq<usize>, p: spec_fn(usize) -> bool) -> bool {
    &&& forall|i: int, j: int| 0 <= i < j < ids.len() ==> #[trigger] ids[i] < #[trigger] ids[j]
    &&& forall|c: usize| #[trigger] ids.contains(c) <==> p(c)
}

/// Cluster numbers leave room for one more.
pub open spec fn numbers_fit(edges: Seq<CondensedEdge>) -> bool {
    forall|i: int|
        0 <= i < edges.len() ==> (#[trigger] edges[i]).parent < usize::MAX && edges[i].child
            < usize::MAX
}

/// The clusters that something leaves.
pub open spec fn left_clusters(edges: Seq<CondensedEdge>) -> spec_fn(usize) -> bool {
    |c: usize| exists|i: int| 0 <= i < edges.len() && (#[trigger] edges[i]).parent == c
}

/// The clusters that leave another one.
pub open spec fn leaving_clusters(edges: Seq<CondensedEdge>, n: nat) -> spec_fn(usize) -> bool {
    |c: usize|
        c >= n && exists|i: int| 0 <= i < edges.len() && (#[trigger] edges[i]).child == c
}

/// The clusters that another cluster leaves.
pub open spec fn split_clusters(edges: Seq<CondensedEdge>, n: nat) -> spec_fn(usize) -> bool {
    |c: usize|
        exists|i: int|
            0 <= i < edges.len() && (#[trigger] edges[i]).parent == c && edges[i].child >= n
}

/// The leaves of the cluster tree: clusters that leave another one and that none leaves.
pub open spec fn leaf_clusters(edges: Seq<CondensedEdge>, n: nat) -> spec_fn(usize) -> bool {
    |c: usize| leaving_clusters(edges, n)(c) && !split_clusters(edges, n)(c)
}

fn number_bound(edges: &[CondensedEdge]) -> (b: usize)
    requires
        numbers_fit(edges@),
    ensures
        forall|i: int|
            0 <= i < edges@.len() ==> (#[trigger] edges@[i]).parent < b && edges@[i].child < b,
{
    let mut b: usize = 0;
    let mut k: usize = 0;
    while k < edges.len()
        invariant
            k <= edges@.len(),
            numbers_fit(edges@),
            forall|i: int|
                0 <= i < k ==> (#[trigger] edges@[i]).parent < b && edges@[i].child < b,
        decreases edges.len() - k,
    {
        let e: CondensedEdge = edges[k];
        assert(edges@[k as int].parent < usize::MAX);
        if e.parent >= b {
            b = e.parent + 1;
        }
        if e.child >= b {
            b = e.child + 1;
        }
        k = k + 1;
    }
    b
}

fn no_marks(b: usize) -> (marks: Vec<bool>)
    ensures
        marks@.len() == b,
        forall|c: int| 0 <= c < b ==> !#[trigger] marks@[c],
{
    let mut marks: Vec<bool> = Vec::with_capacity(b);
    let mut c: usize = 0;
    while c < b
        invariant
            c <= b,
            marks@.len() == c,
            forall|d: int| 0 <= d < c ==> !#[trigger] marks@[d],
        decreases b - c,
    {
        marks.push(false);
        c = c + 1;
    }
    marks
}

fn marked(marks: &Vec<bool>) -> (ids: Vec<usize>)
    ensures
        lists_exactly(ids@, |c: usize| c < marks@.len() && marks@[c as int]),
{
    let mut ids: Vec<usize> = Vec::new();
    let mut c: usize = 0;
    while c < marks.len()
        invariant
            c <= marks@.len(),
            forall|i: int| 0 <= i < ids@.len() ==> #[trigger] ids@[i] < c && marks@[ids@[i] as int],
            forall|i: int, j: int|
                0 <= i < j < ids@.len() ==> #[trigger] ids@[i] < #[trigger] ids@[j],
            forall|d: usize| d < c && marks@[d as int] ==> #[trigger] ids@.contains(d),
        decreases marks.len() - c,
    {
        let ghost before = ids@;
        if marks[c] {
            ids.push(c);
            assert(ids@[before.len() as int] == c);
        }
        c = c + 1;
        assert forall|d: usize| d < c && marks@[d as int] implies #[trigger] ids@.contains(d) by {
            if d < c - 1 {
                assert(before.contains(d));
                let w = choose|w: int| 0 <= w < before.len() && before[w] == d;
                assert(ids@[w] == d);
            }
        }
    }
    ids
}

/// The clusters that something leaves, ascending.
pub fn cluster_ids(edges: &[CondensedEdge]) -> (ids: Vec<usize>)
    requires
        numbers_fit(edges@),
    ensures
        lists_exactly(ids@, left_clusters(edges@)),
{
    let b: usize = number_bound(edges);
    let mut marks = no_marks(b);
    let mut k: usize = 0;
    while k < edges.len()
        invariant
            k <= edges@.len(),
            marks@.len() == b,
            forall|i: int|
                0 <= i < edges@.len() ==> (#[trigger] edges@[i]).parent < b && edges@[i].child < b,
            forall|c: int|
                0 <= c < b ==> #[trigger] marks@[c] == (exists|i: int|
                    0 <= i < k && (#[trigger] edges@[i]).parent == c),
        decreases edges.len() - k,
    {
        let ghost before = marks@;
        let p: usize = edges[k].parent;
        marks[p] = true;
        assert forall|c: int| 0 <= c < b implies #[trigger] marks@[c] == (exists|i: int|
            0 <= i < k + 1 && (#[trigger] edges@[i]).parent == c) by {
            if c == p {
                assert(edges@[k as int].parent == c);
            } else if before[c] {
                let i = choose|i: int| 0 <= i < k && (#[trigger] edges@[i]).parent == c;
                assert(edges@[i].parent == c);
            }
        }
        k = k + 1;
    }
    let ids = marked(&marks);
    proof {
        let p = |c: usize| c < marks@.len() && marks@[c as int];
        assert forall|c: usize| #[trigger] ids@.contains(c) <==> left_clusters(edges@)(c) by {
            assert(ids@.contains(c) <==> p(c));
        }
    }
    ids
}

/// The leaves of the cluster tree, ascending.
pub fn select_leaf(edges: &[CondensedEdge], n: usize) -> (ids: Vec<usize>)
    requires
        numbers_fit(edges@),
    ensures
        lists_exactly(ids@, leaf_clusters(edges@, n as nat)),
{
    let b: usize = number_bound(edges);
    let mut leaving = no_marks(b);
    let mut split = no_marks(b);
    let mut k: usize = 0;
    while k < edges.len()
        invariant
            k <= edges@.len(),
            leaving@.len() == b,
            split@.len() == b,
            forall|i: int|
                0 <= i < edges@.len() ==> (#[trigger] edges@[i]).parent < b && edges@[i].child < b,
            forall|c: int|
                0 <= c < b ==> #[trigger] leaving@[c] == (c >= n && exists|i: int|
                    0 <= i < k && (#[trigger] edges@[i]).child == c),
            forall|c: int|
                0 <= c < b ==> #[trigger] split@[c] == (exists|i: int|
                    0 <= i < k && (#[trigger] edges@[i]).parent == c && edges@[i].child >= n),
        decreases edges.len() - k,
    {
        let ghost leaving0 = leaving@;
        let ghost split0 = split@;
        let e: CondensedEdge = edges[k];
        if e.child >= n {
            leaving[e.child] = true;
            split[e.parent] = true;
        }
        assert forall|c: int| 0 <= c < b implies #[trigger] leaving@[c] == (c >= n && exists|i: int|
            0 <= i < k + 1 && (#[trigger] edges@[i]).child == c) by {
            assert(leaving0[c] || !leaving0[c]);
            if leaving0[c] {
                let i = choose|i: int| 0 <= i < k && (#[trigger] edges@[i]).child == c;
                assert(edges@[i].child == c);
            }
            if e.child == c && c >= n {
                assert(edges@[k as int].child == c);
            }
        }
        assert forall|c: int| 0 <= c < b implies #[trigger] split@[c] == (exists|i: int|
            0 <= i < k + 1 && (#[trigger] edges@[i]).parent == c && edges@[i].child >= n) by {
            assert(split0[c] || !split0[c]);
            if split0[c] {
                let i = choose|i: int|
                    0 <= i < k && (#[trigger] edges@[i]).parent == c && edges@[i].child >= n;
                assert(edges@[i].parent == c);
            }
            if e.parent == c && e.child >= n {
                assert(edges@[k as int].parent == c);
            }
        }
        k = k + 1;
    }
    let mut leaf: Vec<bool> = Vec::with_capacity(b);
    let mut c: usize = 0;
    while c < b
        invariant
            c <= b,
            leaving@.len() == b,
            split@.len() == b,
            leaf@.len() == c,
            forall|d: int|
                0 <= d < c ==> #[trigger] leaf@[d] == (leaving@[d] && !split@[d]),
        decreases b - c,
    {
        leaf.push(leaving[c] && !split[c]);
        c = c + 1;
    }
    let ids = marked(&leaf);
    proof {
        let p = |c: usize| c < leaf@.len() && leaf@[c as int];
        assert forall|c: usize| #[trigger] ids@.contains(c) <==> leaf_clusters(edges@, n as nat)(
            c,
        ) by {
            assert(ids@.contains(c) <==> p(c));
            if c < b {
                assert(leaf@[c as int] == (leaving@[c as int] && !split@[c as int]));
            }
        }
    }
    ids
}

/// Cluster `c` of `ids` is preferred to the clusters below it.
pub open spec fn keeps(ids: Seq<usize>, prefer_children: Seq<bool>, c: usize) -> bool {
    exists|i: int| 0 <= i < ids.len() && #[trigger] ids[i] == c && !prefer_children[i]
}

/// The clusters that are preferred to those below them and lie below no other such cluster.
pub open spec fn topmost(
    kids: spec_fn(usize) -> Seq<usize>,
    ids: Seq<usize>,
    prefer_children: Seq<bool>,
) -> spec_fn(usize) -> bool {
    |c: usize|
        keeps(ids, prefer_children, c) && forall|a: usize|
            a != c && #[trigger] keeps(ids, prefer_children, a) ==> !clusters_below(
                kids,
                a,
            ).contains(c)
}

/// The clusters selected by excess of mass, given for each cluster of `ids` whether the clusters below
/// it together weigh more: those that do not, and lie below no other such cluster.
pub fn select_eom(
    ids: &Vec<usize>,
    prefer_children: &Vec<bool>,
    children: &HashMap<usize, Vec<usize>>,
) -> (selected: Vec<usize>)
    requires
        forall|i: int|
            0 <= i < ids@.len() ==> no_circle_below(kids_of_map(children@), #[trigger] ids@[i]),
        prefer_children@.len() == ids@.len(),
        forall|i: int, j: int| 0 <= i < j < ids@.len() ==> #[trigger] ids@[i] < #[trigger] ids@[j],
    ensures
        lists_exactly(
            selected@,
            topmost(kids_of_map(children@), ids@, prefer_children@),
        ),
{
    broadcast use vstd::std_specs::hash::group_hash_axioms;

    let ghost kids = kids_of_map(children@);
    let m: usize = ids.len();
    let mut covered: HashMap<usize, bool> = HashMap::new();
    let mut i: usize = 0;
    while i < m
        invariant
            i <= m,
            m == ids@.len(),
            prefer_children@.len() == m,
            kids == kids_of_map(children@),
            forall|j: int| 0 <= j < m ==> no_circle_below(kids, #[trigger] ids@[j]),
            forall|c: usize| #[trigger]
                covered@.contains_key(c) <==> (exists|j: int|
                    0 <= j < i && #[trigger] ids@[j] != c && !prefer_children@[j]
                        && clusters_below(kids, ids@[j]).contains(c)),
        decreases m - i,
    {
        let ghost before = covered@;
        if !prefer_children[i] {
            let node: usize = ids[i];
            let below = descend_clusters(node, children);
            let mut k: usize = 0;
            while k < below.len()
                invariant
                    k <= below@.len(),
                    below@ == clusters_below(kids, node),
                    forall|c: usize| #[trigger]
                        covered@.contains_key(c) <==> before.contains_key(c) || (c != node
                            && below@.take(k as int).contains(c)),
                decreases below.len() - k,
            {
                let c: usize = below[k];
                let ghost here = covered@;
                if c != node {
                    covered.insert(c, true);
                }
                proof {
                    let (a, b) = (below@.take(k as int), below@.take(k + 1));
                    assert(b =~= a.push(c));
                    assert forall|d: usize| #[trigger]
                        covered@.contains_key(d) <==> before.contains_key(d) || (d != node
                            && b.contains(d)) by {
                        assert(here.contains_key(d) <==> before.contains_key(d) || (d != node
                            && a.contains(d)));
                        if a.contains(d) {
                            let w = choose|w: int| 0 <= w < a.len() && a[w] == d;
                            assert(b[w] == d);
                        }
                        if b.contains(d) && d != c {
                            let w = choose|w: int| 0 <= w < b.len() && b[w] == d;
                            assert(a[w] == d);
                        }
                        assert(b[k as int] == c);
                    }
                }
                k = k + 1;
            }
            proof {
                assert(below@.take(below@.len() as int) =~= below@);
            }
        }
        proof {
            assert forall|c: usize| #[trigger]
                covered@.contains_key(c) <==> (exists|j: int|
                    0 <= j < i + 1 && #[trigger] ids@[j] != c && !prefer_children@[j]
                        && clusters_below(kids, ids@[j]).contains(c)) by {
                assert(before.contains_key(c) || !before.contains_key(c));
                if before.contains_key(c) {
                    let j = choose|j: int|
                        0 <= j < i && #[trigger] ids@[j] != c && !prefer_children@[j]
                            && clusters_below(kids, ids@[j]).contains(c);
                    assert(ids@[j] != c);
                }
                if covered@.contains_key(c) && !before.contains_key(c) {
                    assert(ids@[i as int] != c);
                }
            }
        }
        i = i + 1;
    }
    let mut selected: Vec<usize> = Vec::new();
    let mut j: usize = 0;
    let ghost want = topmost(kids, ids@, prefer_children@);
    while j < m
        invariant
            j <= m,
            m == ids@.len(),
            prefer_children@.len() == m,
            want == topmost(kids, ids@, prefer_children@),
            forall|a: int, b: int|
                0 <= a < b < ids@.len() ==> #[trigger] ids@[a] < #[trigger] ids@[b],
            forall|c: usize| #[trigger]
                covered@.contains_key(c) <==> (exists|q: int|
                    0 <= q < m && #[trigger] ids@[q] != c && !prefer_children@[q]
                        && clusters_below(kids, ids@[q]).contains(c)),
            forall|a: int|
                0 <= a < selected@.len() ==> want(#[trigger] selected@[a]) && exists|q: int|
                    0 <= q < j && #[trigger] ids@[q] == selected@[a],
            forall|a: int, b: int|
                0 <= a < b < selected@.len() ==> #[trigger] selected@[a] < #[trigger] selected@[b],
            forall|q: int| 0 <= q < j && want(#[trigger] ids@[q]) ==> selected@.contains(ids@[q]),
        decreases m - j,
    {
        let c: usize = ids[j];
        let ghost before = selected@;
        let in_cover: bool = covered.contains_key(&c);
        let take: bool = !prefer_children[j] && !in_cover;
        proof {
            assert(take == want(c)) by {
                if keeps(ids@, prefer_children@, c) {
                    let q = choose|q: int|
                        0 <= q < ids@.len() && #[trigger] ids@[q] == c && !prefer_children@[q];
                    assert(q == j);
                }
                if !prefer_children@[j as int] {
                    assert(ids@[j as int] == c);
                }
                if covered@.contains_key(c) {
                    let q = choose|q: int|
                        0 <= q < m && #[trigger] ids@[q] != c && !prefer_children@[q]
                            && clusters_below(kids, ids@[q]).contains(c);
                    assert(keeps(ids@, prefer_children@, ids@[q]));
                } else {
                    assert forall|a: usize| a != c && #[trigger] keeps(
                        ids@,
                        prefer_children@,
                        a,
                    ) implies !clusters_below(kids, a).contains(c) by {
                        let q = choose|q: int|
                            0 <= q < ids@.len() && #[trigger] ids@[q] == a && !prefer_children@[q];
                        assert(ids@[q] != c);
                    }
                }
            }
        }
        if take {
            proof {
                assert forall|a: int| 0 <= a < before.len() implies #[trigger] before[a] < c by {
                    let q = choose|q: int| 0 <= q < j && #[trigger] ids@[q] == before[a];
                    assert(ids@[q] < ids@[j as int]);
                }
            }
            selected.push(c);
            assert(selected@[before.len() as int] == c);
        }
        proof {
            assert forall|a: int| 0 <= a < selected@.len() implies want(#[trigger] selected@[a])
                && exists|q: int| 0 <= q < j + 1 && #[trigger] ids@[q] == selected@[a] by {
                if a < before.len() {
                    assert(selected@[a] == before[a]);
                    let q = choose|q: int| 0 <= q < j && #[trigger] ids@[q] == before[a];
                    assert(ids@[q] == selected@[a]);
                } else {
                    assert(ids@[j as int] == selected@[a]);
                }
            }
            assert forall|q: int| 0 <= q < j + 1 && want(#[trigger] ids@[q]) implies
                selected@.contains(ids@[q]) by {
                if q < j {
                    assert(before.contains(ids@[q]));
                    let w = choose|w: int| 0 <= w < before.len() && before[w] == ids@[q];
                    assert(selected@[w] == ids@[q]);
                }
            }
        }
        j = j + 1;
    }
    proof {
        assert forall|c: usize| #[trigger] selected@.contains(c) <==> want(c) by {
            if want(c) {
                let q = choose|q: int|
                    0 <= q < ids@.len() && #[trigger] ids@[q] == c && !prefer_children@[q];
                assert(want(ids@[q]));
            }
            if selected@.contains(c) {
                let a = choose|a: int| 0 <= a < selected@.len() && selected@[a] == c;
                assert(want(selected@[a]));
            }
        }
    }
    selected
}

/// The last edge by which `c` leaves a cluster.
pub open spec fn last_move(edges: Seq<CondensedEdge>, c: usize) -> Option<int> {
    counting::last_where(edges.len(), |i: int| edges[i].child == c)
}

/// The nearest cluster at or above `c` that is selected, or the cluster of all points, which has the
/// number `n`, where there is none.
pub open spec fn resolved(
    edges: Seq<CondensedEdge>,
    selected: Seq<usize>,
    n: usize,
    c: usize,
) -> usize
    decreases c,
{
    if selected.contains(c) {
        c
    } else if c == n {
        n
    } else {
        match last_move(edges, c) {
            Some(i) => if edges[i].parent < c {
                resolved(edges, selected, n, edges[i].parent)
            } else {
                n
            },
            None => n,
        }
    }
}

/// The selected cluster that point `v` belongs to, or `n` where there is none.
pub open spec fn home(
    edges: Seq<CondensedEdge>,
    selected: Seq<usize>,
    n: usize,
    v: usize,
) -> usize {
    match last_move(edges, v) {
        Some(i) => resolved(edges, selected, n, edges[i].parent),
        None => n,
    }
}

/// The density at which point `v` leaves its cluster.
pub open spec fn departure(edges: Seq<CondensedEdge>, v: usize) -> i64 {
    match last_move(edges, v) {
        Some(i) => edges[i].lambda,
        None => 0,
    }
}

/// Nothing leaves the cluster of all points at a higher density than point `v` leaves its own.
pub open spec fn stays_to_the_end(edges: Seq<CondensedEdge>, n: usize, v: usize) -> bool {
    forall|i: int|
        0 <= i < edges.len() && (#[trigger] edges[i]).parent == n ==> edges[i].lambda <= departure(
            edges,
            v,
        )
}

/// The label of point `v`: the place of its cluster among the selected ones. A point whose only
/// cluster would be that of all points is labelled only where that cluster is the single selected one
/// and the point stays in it to the end; it is noise, `-1`, otherwise.
pub open spec fn label_for(
    edges: Seq<CondensedEdge>,
    selected: Seq<usize>,
    n: usize,
    v: usize,
) -> int {
    let c = home(edges, selected, n, v);
    if c != n {
        selected.index_of(c)
    } else if selected =~= seq![n] && stays_to_the_end(edges, n, v) {
        0
    } else {
        -1
    }
}

/// `moves` maps `c` to the last of the first `k` edges by which it leaves a cluster.
spec fn move_known(moves: Map<usize, usize>, edges: Seq<CondensedEdge>, k: nat, c: usize) -> bool {
    match counting::last_where(k, |i: int| edges[i].child == c) {
        Some(i) => moves.contains_key(c) && moves[c] == i,
        None => !moves.contains_key(c),
    }
}

fn last_moves(edges: &[CondensedEdge]) -> (moves: HashMap<usize, usize>)
    ensures
        forall|c: usize| #[trigger] move_known(moves@, edges@, edges@.len(), c),
{
    broadcast use vstd::std_specs::hash::group_hash_axioms;

    let mut moves: HashMap<usize, usize> = HashMap::new();
    let mut k: usize = 0;
    while k < edges.len()
        invariant
            k <= edges@.len(),
            forall|c: usize| #[trigger] move_known(moves@, edges@, k as nat, c),
        decreases edges.len() - k,
    {
        let ghost before = moves@;
        let child: usize = edges[k].child;
        moves.insert(child, k);
        k = k + 1;
        proof {
            let done = (k - 1) as nat;
            assert forall|c: usize| #[trigger] move_known(moves@, edges@, k as nat, c) by {
                assert(move_known(before, edges@, done, c));
            }
        }
    }
    moves
}

/// `index` maps every selected cluster to its place.
spec fn place_known(index: Map<usize, usize>, selected: Seq<usize>, k: int, c: usize) -> bool {
    &&& index.contains_key(c) <==> selected.take(k).contains(c)
    &&& index.contains_key(c) ==> index[c] < k && selected[index[c] as int] == c
}

fn places(selected: &[usize]) -> (index: HashMap<usize, usize>)
    ensures
        forall|c: usize| #[trigger]
            place_known(index@, selected@, selected@.len() as int, c),
{
    broadcast use vstd::std_specs::hash::group_hash_axioms;

    let mut index: HashMap<usize, usize> = HashMap::new();
    let mut k: usize = 0;
    while k < selected.len()
        invariant
            k <= selected@.len(),
            forall|c: usize| #[trigger] place_known(index@, selected@, k as int, c),
        decreases selected.len() - k,
    {
        let ghost before = index@;
        let x: usize = selected[k];
        index.insert(x, k);
        proof {
            let (a, b) = (selected@.take(k as int), selected@.take(k + 1));
            assert(b =~= a.push(x));
            assert forall|c: usize| #[trigger] place_known(index@, selected@, k + 1, c) by {
                assert(place_known(before, selected@, k as int, c));
                if a.contains(c) {
                    let w = choose|w: int| 0 <= w < a.len() && a[w] == c;
                    assert(b[w] == c);
                }
                if b.contains(c) && c != x {
                    let w = choose|w: int| 0 <= w < b.len() && b[w] == c;
                    assert(a[w] == c);
                }
                assert(b[k as int] == x);
            }
        }
        k = k + 1;
    }
    index
}

/// A cluster leaves only an older one.
pub open spec fn leaves_older(edges: Seq<CondensedEdge>, n: nat) -> bool {
    forall|i: int|
        0 <= i < edges.len() && (#[trigger] edges[i]).child >= n ==> edges[i].parent
            < edges[i].child
}

/// Nothing but clusters is left.
pub open spec fn clusters_are_left(edges: Seq<CondensedEdge>, n: nat) -> bool {
    forall|i: int| 0 <= i < edges.len() ==> (#[trigger] edges[i]).parent >= n
}

fn resolve(
    edges: &[CondensedEdge],
    moves: &HashMap<usize, usize>,
    index: &HashMap<usize, usize>,
    n: usize,
    start: usize,
    Ghost(selected): Ghost<Seq<usize>>,
) -> (r: usize)
    requires
        leaves_older(edges@, n as nat),
        clusters_are_left(edges@, n as nat),
        start >= n,
        forall|c: usize| #[trigger] move_known(moves@, edges@, edges@.len(), c),
        forall|c: usize| #[trigger]
            place_known(index@, selected, selected.len() as int, c),
    ensures
        r == resolved(edges@, selected, n, start),
{
    broadcast use vstd::std_specs::hash::group_hash_axioms;

    let mut c: usize = start;
    proof {
        assert(selected.take(selected.len() as int) =~= selected);
    }
    loop
        invariant
            c >= n,
            leaves_older(edges@, n as nat),
            clusters_are_left(edges@, n as nat),
            forall|d: usize| #[trigger] move_known(moves@, edges@, edges@.len(), d),
            forall|d: usize| #[trigger]
                place_known(index@, selected, selected.len() as int, d),
            selected.take(selected.len() as int) == selected,
            resolved(edges@, selected, n, c) == resolved(edges@, selected, n, start),
        decreases c,
    {
        assert(place_known(index@, selected, selected.len() as int, c));
        if index.contains_key(&c) {
            return c;
        }
        if c == n {
            return n;
        }
        proof {
            assert(move_known(moves@, edges@, edges@.len(), c));
            counting::lemma_last_where(edges@.len(), |i: int| edges@[i].child == c);
        }
        match moves.get(&c) {
            Some(i) => {
                assert(edges@[*i as int].child == c);
                c = edges[*i].parent;
            },
            None => {
                return n;
            },
        }
    }
}

/// The highest density at which something leaves the cluster of all points, if anything does.
fn deepest(edges: &[CondensedEdge], n: usize) -> (r: Option<i64>)
    ensures
        r is None ==> forall|i: int| 0 <= i < edges@.len() ==> (#[trigger] edges@[i]).parent != n,
        r matches Some(t) ==> {
            &&& forall|i: int|
                0 <= i < edges@.len() && (#[trigger] edges@[i]).parent == n ==> edges@[i].lambda
                    <= t
            &&& exists|i: int|
                0 <= i < edges@.len() && (#[trigger] edges@[i]).parent == n && edges@[i].lambda
                    == t
        },
{
    let mut r: Option<i64> = None;
    let mut k: usize = 0;
    while k < edges.len()
        invariant
            k <= edges@.len(),
            r is None ==> forall|i: int| 0 <= i < k ==> (#[trigger] edges@[i]).parent != n,
            r matches Some(t) ==> {
                &&& forall|i: int|
                    0 <= i < k && (#[trigger] edges@[i]).parent == n ==> edges@[i].lambda <= t
                &&& exists|i: int|
                    0 <= i < k && (#[trigger] edges@[i]).parent == n && edges@[i].lambda == t
            },
        decreases edges.len() - k,
    {
        let e: CondensedEdge = edges[k];
        if e.parent == n {
            assert(edges@[k as int].parent == n);
            r = match r {
                Some(t) => if e.lambda > t {
                    Some(e.lambda)
                } else {
                    Some(t)
                },
                None => Some(e.lambda),
            };
        }
        k = k + 1;
    }
    r
}

/// The label of every point; see `label_for`.
pub fn do_labelling(edges: &[CondensedEdge], selected: &[usize], n: usize) -> (result: Vec<i64>)
    requires
        leaves_older(edges@, n as nat),
        clusters_are_left(edges@, n as nat),
        forall|i: int, j: int|
            0 <= i < j < selected@.len() ==> #[trigger] selected@[i] < #[trigger] selected@[j],
        selected@.len() <= i64::MAX,
    ensures
        result@.len() == n,
        forall|v: int|
            0 <= v < n ==> #[trigger] result@[v] == label_for(edges@, selected@, n, v as usize),
{
    broadcast use vstd::std_specs::hash::group_hash_axioms;

    let moves = last_moves(edges);
    let index = places(selected);
    let single_root: bool = selected.len() == 1 && selected[0] == n;
    let threshold: Option<i64> = deepest(edges, n);
    assert(single_root == (selected@ =~= seq![n]));
    let mut result: Vec<i64> = Vec::with_capacity(n);
    let mut v: usize = 0;
    while v < n
        invariant
            v <= n,
            result@.len() == v,
            leaves_older(edges@, n as nat),
            clusters_are_left(edges@, n as nat),
            forall|i: int, j: int|
                0 <= i < j < selected@.len() ==> #[trigger] selected@[i] < #[trigger] selected@[j],
            selected@.len() <= i64::MAX,
            single_root == (selected@ =~= seq![n]),
            forall|c: usize| #[trigger] move_known(moves@, edges@, edges@.len(), c),
            forall|c: usize| #[trigger]
                place_known(index@, selected@, selected@.len() as int, c),
            threshold is None ==> forall|i: int|
                0 <= i < edges@.len() ==> (#[trigger] edges@[i]).parent != n,
            threshold matches Some(t) ==> {
                &&& forall|i: int|
                    0 <= i < edges@.len() && (#[trigger] edges@[i]).parent == n ==> edges@[i].lambda
                        <= t
                &&& exists|i: int|
                    0 <= i < edges@.len() && (#[trigger] edges@[i]).parent == n && edges@[i].lambda
                        == t
            },
            forall|u: int|
                0 <= u < v ==> #[trigger] result@[u] == label_for(
                    edges@,
                    selected@,
                    n,
                    u as usize,
                ),
        decreases n - v,
    {
        proof {
            assert(move_known(moves@, edges@, edges@.len(), v));
            counting::lemma_last_where(edges@.len(), |i: int| edges@[i].child == v);
        }
        let (cluster, lambda): (usize, i64) = match moves.get(&v) {
            Some(i) => {
                let e: CondensedEdge = edges[*i];
                (resolve(edges, &moves, &index, n, e.parent, Ghost(selected@)), e.lambda)
            },
            None => (n, 0),
        };
        let ends_here: bool = match threshold {
            Some(t) => t <= lambda,
            None => true,
        };
        assert(cluster == home(edges@, selected@, n, v));
        assert(ends_here == stays_to_the_end(edges@, n, v));
        if cluster != n {
            proof {
                lemma_resolved_selected(edges@, selected@, n, v);
                assert(selected@.take(selected@.len() as int) =~= selected@);
                assert(place_known(index@, selected@, selected@.len() as int, cluster));
                let w = selected@.index_of(cluster);
                assert(selected@.contains(cluster));
                let p = index@[cluster] as int;
                if p < w {
                    assert(selected@[p] < selected@[w]);
                } else if w < p {
                    assert(selected@[w] < selected@[p]);
                }
            }
            match index.get(&cluster) {
                Some(p) => {
                    result.push(*p as i64);
                },
                None => {
                    result.push(-1);
                },
            }
        } else if single_root && ends_here {
            result.push(0);
        } else {
            result.push(-1);
        }
        v = v + 1;
    }
    result
}

proof fn lemma_resolved(edges: Seq<CondensedEdge>, selected: Seq<usize>, n: usize, c: usize)
    ensures
        resolved(edges, selected, n, c) == n || selected.contains(
            resolved(edges, selected, n, c),
        ),
    decreases c,
{
    if !selected.contains(c) && c != n {
        if let Some(i) = last_move(edges, c) {
            if edges[i].parent < c {
                lemma_resolved(edges, selected, n, edges[i].parent);
            }
        }
    }
}

/// The cluster that a point belongs to is a selected one, unless it belongs to none.
pub proof fn lemma_resolved_selected(
    edges: Seq<CondensedEdge>,
    selected: Seq<usize>,
    n: usize,
    v: usize,
)
    ensures
        home(edges, selected, n, v) == n || selected.contains(home(edges, selected, n, v)),
{
    if let Some(i) = last_move(edges, v) {
        lemma_resolved(edges, selected, n, edges[i].parent);
    }
}

/// Labels are places among the selected clusters, or `-1`.
pub proof fn lemma_labels_in_range(
    edges: Seq<CondensedEdge>,
    selected: Seq<usize>,
    n: usize,
    v: usize,
)
    ensures
        -1 <= label_for(edges, selected, n, v) < selected.len(),
{
    lemma_resolved_selected(edges, selected, n, v);
}

/// The index of the smallest entry of `row`, the first one among equals.
pub open spec fn is_first_min(row: Seq<i64>, k: int) -> bool {
    &&& 0 <= k < row.len()
    &&& forall|j: int| 0 <= j < row.len() ==> row[k] <= #[trigger] row[j]
    &&& forall|j: int| 0 <= j < k ==> row[k] < #[trigger] row[j]
}

/// The index of the smallest entry, the first one among equals.
pub fn first_min(row: &[i64]) -> (k: usize)
    requires
        row@.len() > 0,
    ensures
        is_first_min(row@, k as int),
{
    let mut best: usize = 0;
    let mut j: usize = 1;
    while j < row.len()
        invariant
            1 <= j <= row@.len(),
            best < j,
            forall|i: int| 0 <= i < j ==> row@[best as int] <= #[trigger] row@[i],
            forall|i: int| 0 <= i < best ==> row@[best as int] < #[trigger] row@[i],
        decreases row.len() - j,
    {
        if row[j] < row[best] {
            best = j;
        }
        j = j + 1;
    }
    best
}

/// The labels other than noise, ascending.
pub open spec fn are_clusters(labels: Seq<i64>, clusters: Seq<i64>) -> bool {
    &&& forall|i: int, j: int|
        0 <= i < j < clusters.len() ==> #[trigger] clusters[i] < #[trigger] clusters[j]
    &&& forall|l: i64| #[trigger] clusters.contains(l) <==> labels.contains(l) && l != -1
}

/// The labels other than noise, ascending.
pub fn clusters_of(labels: &[i64]) -> (clusters: Vec<i64>)
    ensures
        are_clusters(labels@, clusters@),
{
    let all = sorting::sorted_distinct(labels);
    let mut clusters: Vec<i64> = Vec::new();
    let mut k: usize = 0;
    while k < all.len()
        invariant
            k <= all@.len(),
            sorting::is_sorted_distinct(labels@, all@),
            forall|i: int|
                0 <= i < clusters@.len() ==> #[trigger] clusters@[i] != -1 && exists|q: int|
                    0 <= q < k && #[trigger] all@[q] == clusters@[i],
            forall|i: int, j: int|
                0 <= i < j < clusters@.len() ==> #[trigger] clusters@[i] < #[trigger] clusters@[j],
            forall|q: int|
                0 <= q < k && #[trigger] all@[q] != -1 ==> clusters@.contains(all@[q]),
        decreases all.len() - k,
    {
        let l: i64 = all[k];
        let ghost before = clusters@;
        if l != -1 {
            proof {
                assert forall|i: int| 0 <= i < before.len() implies #[trigger] before[i] < l by {
                    let q = choose|q: int| 0 <= q < k && #[trigger] all@[q] == before[i];
                    assert(all@[q] < all@[k as int]);
                }
            }
            clusters.push(l);
            assert(clusters@[before.len() as int] == l);
        }
        proof {
            assert forall|i: int| 0 <= i < clusters@.len() implies #[trigger] clusters@[i] != -1
                && exists|q: int| 0 <= q < k + 1 && #[trigger] all@[q] == clusters@[i] by {
                if i < before.len() {
                    let q = choose|q: int| 0 <= q < k && #[trigger] all@[q] == before[i];
                    assert(all@[q] == clusters@[i]);
                } else {
                    assert(all@[k as int] == clusters@[i]);
                }
            }
            assert forall|q: int| 0 <= q < k + 1 && #[trigger] all@[q] != -1 implies
                clusters@.contains(all@[q]) by {
                if q < k {
                    assert(before.contains(all@[q]));
                    let w = choose|w: int| 0 <= w < before.len() && before[w] == all@[q];
                    assert(clusters@[w] == all@[q]);
                }
            }
        }
        k = k + 1;
    }
    proof {
        assert forall|l: i64| #[trigger] clusters@.contains(l) <==> labels@.contains(l) && l
            != -1 by {
            assert(all@.contains(l) <==> labels@.contains(l));
            if clusters@.contains(l) {
                let i = choose|i: int| 0 <= i < clusters@.len() && clusters@[i] == l;
                assert(clusters@[i] != -1);
                let q = choose|q: int| 0 <= q < all@.len() && #[trigger] all@[q] == clusters@[i];
                assert(all@.contains(l));
            }
            if all@.contains(l) && l != -1 {
                let q = choose|q: int| 0 <= q < all@.len() && all@[q] == l;
                assert(clusters@.contains(all@[q]));
            }
        }
    }
    clusters
}

/// The index of the smallest entry of `row`, the first one among equals.
pub open spec fn first_min_index(row: Seq<i64>) -> int {
    choose|k: int| is_first_min(row, k)
}

proof fn lemma_first_min_index(row: Seq<i64>, k: int)
    requires
        is_first_min(row, k),
    ensures
        first_min_index(row) == k,
{
    let m = first_min_index(row);
    assert(is_first_min(row, m));
    if m < k {
        assert(row[k] < row[m]);
    } else if k < m {
        assert(row[m] < row[k]);
    }
}

/// The labels once noise has gone to the nearest cluster.
pub open spec fn settled(
    labels: Seq<i64>,
    clusters: Seq<i64>,
    nearness: Seq<Vec<i64>>,
) -> Seq<i64> {
    Seq::new(
        labels.len(),
        |i: int|
            if labels[i] != -1 {
                labels[i]
            } else {
                clusters[first_min_index(nearness[i]@)]
            },
    )
}

/// Every point that is noise goes to the nearest cluster, and the labels are numbered by first
/// occurrence; `nearness[i]` holds the distances of point `i` to the clusters. Where there are points
/// but no cluster, every point becomes one.
pub fn noise_to_nearest(
    labels_in: &[i64],
    clusters: &[i64],
    nearness: &Vec<Vec<i64>>,
) -> (out: Vec<usize>)
    requires
        are_clusters(labels_in@, clusters@),
        nearness@.len() == labels_in@.len(),
        forall|i: int|
            0 <= i < labels_in@.len() && labels_in@[i] == -1 ==> (#[trigger] nearness@[i])@.len()
                == clusters@.len(),
    ensures
        clusters@.len() == 0 ==> out@.len() == labels_in@.len() && forall|i: int|
            0 <= i < out@.len() ==> #[trigger] out@[i] == i,
        clusters@.len() > 0 ==> labels::is_canonical(
            settled(labels_in@, clusters@, nearness@),
            out@,
        ),
{
    let n: usize = labels_in.len();
    if clusters.len() == 0 {
        let mut out: Vec<usize> = Vec::with_capacity(n);
        let mut i: usize = 0;
        while i < n
            invariant
                i <= n,
                out@.len() == i,
                forall|j: int| 0 <= j < i ==> #[trigger] out@[j] == j,
            decreases n - i,
        {
            out.push(i);
            i = i + 1;
        }
        return out;
    }
    let mut full: Vec<i64> = Vec::with_capacity(n);
    let ghost want = settled(labels_in@, clusters@, nearness@);
    let mut i: usize = 0;
    while i < n
        invariant
            i <= n,
            n == labels_in@.len(),
            nearness@.len() == n,
            clusters@.len() > 0,
            forall|j: int|
                0 <= j < n && labels_in@[j] == -1 ==> (#[trigger] nearness@[j])@.len()
                    == clusters@.len(),
            want == settled(labels_in@, clusters@, nearness@),
            full@.len() == i,
            forall|j: int| 0 <= j < i ==> #[trigger] full@[j] == want[j],
        decreases n - i,
    {
        let l: i64 = labels_in[i];
        if l != -1 {
            full.push(l);
        } else {
            assert(nearness@[i as int]@.len() == clusters@.len());
            let k: usize = first_min(nearness[i].as_slice());
            proof {
                lemma_first_min_index(nearness@[i as int]@, k as int);
            }
            full.push(clusters[k]);
        }
        i = i + 1;
    }
    assert(full@ =~= want);
    labels::canonicalize(full.as_slice())
}

proof fn lemma_last_move_is(edges: Seq<CondensedEdge>, c: usize, i: int)
    requires
        0 <= i < edges.len(),
        edges[i].child == c,
        forall|j: int| i < j < edges.len() ==> (#[trigger] edges[j]).child != c,
    ensures
        last_move(edges, c) == Some(i),
{
    let p = |j: int| edges[j].child == c;
    counting::lemma_last_where(edges.len(), p);
    assert(p(i));
    if let Some(x) = counting::last_where(edges.len(), p) {
        assert(p(x));
    }
}

/// Climbing from the cluster of step `k`, past clusters that are not selected, leads to where climbing
/// from the cluster of step `m` does.
proof fn lemma_climb_unselected(
    edges: Seq<CondensedEdge>,
    selected: Seq<usize>,
    n: usize,
    steps: Seq<int>,
    k: int,
    m: int,
)
    requires
        forall|i: int|
            0 <= i < edges.len() && (#[trigger] edges[i]).child >= n ==> edges[i].parent
                < edges[i].child,
        forall|i: int| 0 <= i < edges.len() ==> (#[trigger] edges[i]).parent >= n,
        forall|q: int| 0 <= q < steps.len() ==> 0 <= #[trigger] steps[q] < edges.len(),
        forall|q: int|
            0 < q < steps.len() ==> edges[#[trigger] steps[q]].child == edges[steps[q - 1]].parent,
        forall|q: int, j: int|
            0 <= q < steps.len() && #[trigger] steps[q] < j < edges.len() ==> (
            #[trigger] edges[j]).child != edges[steps[q]].child,
        0 <= k <= m < steps.len(),
        forall|q: int|
            k <= q < m ==> !selected.contains(edges[#[trigger] steps[q]].parent),
    ensures
        resolved(edges, selected, n, edges[steps[k]].parent) == resolved(
            edges,
            selected,
            n,
            edges[steps[m]].parent,
        ),
    decreases m - k,
{
    if k < m {
        let c = edges[steps[k]].parent;
        let i = steps[k + 1];
        assert(edges[steps[k + 1]].child == edges[steps[k + 1 - 1]].parent);
        assert(edges[i].child == c && c >= n && edges[i].parent < c);
        assert(edges[i].parent >= n);
        lemma_last_move_is(edges, c, i);
        assert(!selected.contains(edges[steps[k]].parent));
        lemma_climb_unselected(edges, selected, n, steps, k + 1, m);
    }
}

/// A point gets the label of the first selected cluster on its way up: `steps` are the edges of that
/// way, the first of them that of the point itself, each of the others that of the cluster which the
/// one before it leaves.
pub proof fn lemma_label_is_nearest_selected(
    edges: Seq<CondensedEdge>,
    selected: Seq<usize>,
    n: usize,
    v: usize,
    steps: Seq<int>,
    w: int,
)
    requires
        forall|i: int|
            0 <= i < edges.len() && (#[trigger] edges[i]).child >= n ==> edges[i].parent
                < edges[i].child,
        forall|i: int| 0 <= i < edges.len() ==> (#[trigger] edges[i]).parent >= n,
        forall|i: int, j: int|
            0 <= i < j < selected.len() ==> #[trigger] selected[i] < #[trigger] selected[j],
        steps.len() > 0,
        forall|q: int| 0 <= q < steps.len() ==> 0 <= #[trigger] steps[q] < edges.len(),
        edges[steps[0]].child == v,
        forall|q: int|
            0 < q < steps.len() ==> edges[#[trigger] steps[q]].child == edges[steps[q - 1]].parent,
        forall|q: int, j: int|
            0 <= q < steps.len() && #[trigger] steps[q] < j < edges.len() ==> (
            #[trigger] edges[j]).child != edges[steps[q]].child,
        forall|q: int|
            0 <= q < steps.len() - 1 ==> !selected.contains(edges[#[trigger] steps[q]].parent),
        0 <= w < selected.len(),
        selected[w] == edges[steps[steps.len() - 1]].parent,
        selected[w] != n,
    ensures
        label_for(edges, selected, n, v) == w,
{
    let m = steps.len() - 1;
    lemma_climb_unselected(edges, selected, n, steps, 0, m);
    lemma_last_move_is(edges, v, steps[0]);
    assert(selected.contains(selected[w]));
    let x = selected.index_of(selected[w]);
    assert(0 <= x < selected.len() && selected[x] == selected[w]);
    if x < w {
        assert(selected[x] < selected[w]);
    } else if w < x {
        assert(selected[w] < selected[x]);
    }
}

/// A point with no selected cluster on its way up but that of all points is noise, unless that is the
/// only selected one and nothing leaves it at a higher density than the point leaves its cluster.
pub proof fn lemma_label_of_unselected(
    edges: Seq<CondensedEdge>,
    selected: Seq<usize>,
    n: usize,
    v: usize,
    steps: Seq<int>,
)
    requires
        forall|i: int|
            0 <= i < edges.len() && (#[trigger] edges[i]).child >= n ==> edges[i].parent
                < edges[i].child,
        forall|i: int| 0 <= i < edges.len() ==> (#[trigger] edges[i]).parent >= n,
        steps.len() > 0,
        forall|q: int| 0 <= q < steps.len() ==> 0 <= #[trigger] steps[q] < edges.len(),
        edges[steps[0]].child == v,
        forall|q: int|
            0 < q < steps.len() ==> edges[#[trigger] steps[q]].child == edges[steps[q - 1]].parent,
        forall|q: int, j: int|
            0 <= q < steps.len() && #[trigger] steps[q] < j < edges.len() ==> (
            #[trigger] edges[j]).child != edges[steps[q]].child,
        forall|q: int|
            0 <= q < steps.len() - 1 ==> !selected.contains(edges[#[trigger] steps[q]].parent),
        edges[steps[steps.len() - 1]].parent == n,
    ensures
        ({
            let stays = selected.len() == 1 && selected[0] == n && forall|i: int|
                0 <= i < edges.len() && (#[trigger] edges[i]).parent == n ==> edges[i].lambda
                    <= edges[steps[0]].lambda;
            label_for(edges, selected, n, v) == (if stays {
                0int
            } else {
                -1int
            })
        }),
{
    let m = steps.len() - 1;
    lemma_climb_unselected(edges, selected, n, steps, 0, m);
    lemma_last_move_is(edges, v, steps[0]);
    assert(selected =~= seq![n] <==> selected.len() == 1 && selected[0] == n);
}

/// Every point with a selected cluster on its way up, other than that of all points, is labelled, and
/// its label is that of a cluster on that way.
pub proof fn lemma_below_selected_is_labelled(
    edges: Seq<CondensedEdge>,
    selected: Seq<usize>,
    n: usize,
    v: usize,
    steps: Seq<int>,
)
    requires
        forall|i: int|
            0 <= i < edges.len() && (#[trigger] edges[i]).child >= n ==> edges[i].parent
                < edges[i].child,
        forall|i: int| 0 <= i < edges.len() ==> (#[trigger] edges[i]).parent >= n,
        forall|i: int, j: int|
            0 <= i < j < selected.len() ==> #[trigger] selected[i] < #[trigger] selected[j],
        steps.len() > 0,
        forall|q: int| 0 <= q < steps.len() ==> 0 <= #[trigger] steps[q] < edges.len(),
        edges[steps[0]].child == v,
        forall|q: int|
            0 < q < steps.len() ==> edges[#[trigger] steps[q]].child == edges[steps[q - 1]].parent,
        forall|q: int, j: int|
            0 <= q < steps.len() && #[trigger] steps[q] < j < edges.len() ==> (
            #[trigger] edges[j]).child != edges[steps[q]].child,
        selected.contains(edges[steps[steps.len() - 1]].parent),
        edges[steps[steps.len() - 1]].parent != n,
    ensures
        0 <= label_for(edges, selected, n, v) < selected.len(),
        exists|q: int|
            0 <= q < steps.len() && edges[#[trigger] steps[q]].parent == selected[label_for(
                edges,
                selected,
                n,
                v,
            )],
    decreases steps.len(),
{
    let m = steps.len() - 1;
    if exists|q: int| 0 <= q < m && selected.contains(edges[#[trigger] steps[q]].parent) {
        let q = choose|q: int| 0 <= q < m && selected.contains(edges[#[trigger] steps[q]].parent);
        let part = steps.take(q + 1);
        assert(edges[steps[q + 1]].child == edges[steps[q + 1 - 1]].parent);
        assert(edges[steps[q + 1]].parent >= n);
        assert(edges[steps[q]].parent != n);
        assert forall|k: int| 0 <= k < part.len() implies 0 <= #[trigger] part[k] < edges.len() by {
            assert(part[k] == steps[k]);
        }
        assert forall|k: int| 0 < k < part.len() implies edges[#[trigger] part[k]].child
            == edges[part[k - 1]].parent by {
            assert(part[k] == steps[k] && part[k - 1] == steps[k - 1]);
        }
        assert forall|k: int, j: int|
            0 <= k < part.len() && #[trigger] part[k] < j < edges.len() implies (
        #[trigger] edges[j]).child != edges[part[k]].child by {
            assert(part[k] == steps[k]);
        }
        lemma_below_selected_is_labelled(edges, selected, n, v, part);
        let k = choose|k: int|
            0 <= k < part.len() && edges[#[trigger] part[k]].parent == selected[label_for(
                edges,
                selected,
                n,
                v,
            )];
        assert(steps[k] == part[k]);
    } else {
        let w = choose|w: int|
            0 <= w < selected.len() && selected[w] == edges[steps[m]].parent;
        lemma_label_is_nearest_selected(edges, selected, n, v, steps, w);
        assert(edges[steps[m]].parent == selected[label_for(edges, selected, n, v)]);
    }
}

/// A cluster has as its children the clusters that leave it, each as often and in the order as they do.
pub proof fn lemma_children_leave(edges: Seq<CondensedEdge>, n: nat, p: usize)
    ensures
        forall|c: usize| #[trigger]
            kids_of_edges(edges, n)(p).contains(c) <==> exists|i: int|
                0 <= i < edges.len() && (#[trigger] edges[i]).parent == p && edges[i].child == c && c
                    >= n,
        kids_of_edges(edges, n)(p).len() == counting::count(
            edges.len(),
            |i: int| edges[i].parent == p && edges[i].child >= n,
        ),
        forall|i: int|
            0 <= i < edges.len() && (#[trigger] edges[i]).parent == p && edges[i].child >= n
                ==> kids_of_edges(edges, n)(p)[counting::count(
                i as nat,
                |j: int| edges[j].parent == p && edges[j].child >= n,
            ) as int] == edges[i].child,
{
    lemma_children_among(edges, n, p, edges.len());
}

proof fn lemma_children_among(edges: Seq<CondensedEdge>, n: nat, p: usize, k: nat)
    requires
        k <= edges.len(),
    ensures
        forall|c: usize| #[trigger]
            child_clusters(edges, n, p, k).contains(c) <==> exists|i: int|
                0 <= i < k && (#[trigger] edges[i]).parent == p && edges[i].child == c && c >= n,
        child_clusters(edges, n, p, k).len() == counting::count(
            k,
            |i: int| edges[i].parent == p && edges[i].child >= n,
        ),
        forall|i: int|
            0 <= i < k && (#[trigger] edges[i]).parent == p && edges[i].child >= n
                ==> child_clusters(edges, n, p, k)[counting::count(
                i as nat,
                |j: int| edges[j].parent == p && edges[j].child >= n,
            ) as int] == edges[i].child,
    decreases k,
{
    let is_kid = |i: int| edges[i].parent == p && edges[i].child >= n;
    if k > 0 {
        let m = (k - 1) as nat;
        lemma_children_among(edges, n, p, m);
        let (a, b) = (child_clusters(edges, n, p, m), child_clusters(edges, n, p, k));
        let e = edges[k - 1];
        assert(is_kid(k - 1) == (e.parent == p && e.child >= n));
        assert forall|c: usize| #[trigger] b.contains(c) <==> exists|i: int|
            0 <= i < k && (#[trigger] edges[i]).parent == p && edges[i].child == c && c >= n by {
            if b.contains(c) {
                let x = choose|x: int| 0 <= x < b.len() && b[x] == c;
                if x < a.len() {
                    assert(a[x] == c);
                    assert(a.contains(c));
                } else {
                    assert(edges[k - 1].parent == p);
                }
            }
            if exists|i: int|
                0 <= i < k && (#[trigger] edges[i]).parent == p && edges[i].child == c && c >= n {
                let i = choose|i: int|
                    0 <= i < k && (#[trigger] edges[i]).parent == p && edges[i].child == c && c
                        >= n;
                if i < m {
                    assert(a.contains(c));
                    let x = choose|x: int| 0 <= x < a.len() && a[x] == c;
                    assert(b[x] == c);
                } else {
                    assert(b[a.len() as int] == c);
                }
            }
        }
        assert forall|i: int|
            0 <= i < k && (#[trigger] edges[i]).parent == p && edges[i].child >= n implies b[counting::count(
            i as nat,
            is_kid,
        ) as int] == edges[i].child by {
            if i < m {
                assert(is_kid(i));
                counting::lemma_count_monotone(i as nat, m, is_kid);
                assert(a[counting::count(i as nat, is_kid) as int] == edges[i].child);
            }
        }
    }
}

/// No cluster selected by excess of mass lies below another.
pub proof fn lemma_selected_apart(
    kids: spec_fn(usize) -> Seq<usize>,
    ids: Seq<usize>,
    prefer_children: Seq<bool>,
    selected: Seq<usize>,
    a: int,
    b: int,
)
    requires
        lists_exactly(selected, topmost(kids, ids, prefer_children)),
        0 <= a < selected.len(),
        0 <= b < selected.len(),
        a != b,
        is_bounded(kids, selected[a]),
    ensures
        !lies_below(kids, selected[a], selected[b]),
{
    let want = topmost(kids, ids, prefer_children);
    assert(selected.contains(selected[a]) && selected.contains(selected[b]));
    assert(want(selected[a]) && want(selected[b]));
    assert(selected[a] != selected[b]) by {
        if a < b {
            assert(selected[a] < selected[b]);
        } else {
            assert(selected[b] < selected[a]);
        }
    }
    lemma_below_reached(kids, selected[a], selected[b]);
}

/// Excess of mass selects only clusters that do not give way to those below them, and every such
/// cluster is selected or lies below a selected one.
pub proof fn lemma_selected_cover(
    kids: spec_fn(usize) -> Seq<usize>,
    ids: Seq<usize>,
    prefer_children: Seq<bool>,
    selected: Seq<usize>,
    i: int,
) -> (s: int)
    requires
        lists_exactly(selected, topmost(kids, ids, prefer_children)),
        ages(kids),
        forall|q: int| 0 <= q < ids.len() ==> is_bounded(kids, #[trigger] ids[q]),
        prefer_children.len() == ids.len(),
        0 <= i < ids.len(),
        !prefer_children[i],
    ensures
        0 <= s < selected.len(),
        lies_below(kids, selected[s], ids[i]),
        exists|q: int|
            0 <= q < ids.len() && #[trigger] ids[q] == selected[s] && !prefer_children[q],
    decreases ids[i],
{
    let want = topmost(kids, ids, prefer_children);
    let c = ids[i];
    assert(keeps(ids, prefer_children, c));
    if want(c) {
        assert(selected.contains(c));
        let s = choose|s: int| 0 <= s < selected.len() && selected[s] == c;
        assert(is_path(kids, seq![c]));
        assert(seq![c].last() == c);
        s
    } else {
        let a = choose|a: usize|
            a != c && #[trigger] keeps(ids, prefer_children, a) && clusters_below(kids, a).contains(
                c,
            );
        let q = choose|q: int|
            0 <= q < ids.len() && #[trigger] ids[q] == a && !prefer_children[q];
        assert(is_bounded(kids, ids[q]));
        lemma_below_reached(kids, a, c);
        let path = choose|path: Seq<usize>| #[trigger]
            is_path(kids, path) && path[0] == a && path.last() == c;
        assert(path.len() > 1);
        lemma_path_ascends(kids, path, 0, path.len() - 1);
        let s = lemma_selected_cover(kids, ids, prefer_children, selected, q);
        let up = choose|up: Seq<usize>| #[trigger]
            is_path(kids, up) && up[0] == selected[s] && up.last() == a;
        lemma_paths_join(kids, up, path);
        let joined = up + path.subrange(1, path.len() as int);
        assert(joined[0] == selected[s]);
        assert(joined.last() == c);
        s
    }
}

proof fn lemma_paths_join(kids: spec_fn(usize) -> Seq<usize>, a: Seq<usize>, b: Seq<usize>)
    requires
        is_path(kids, a),
        is_path(kids, b),
        a.last() == b[0],
        b.len() > 1,
    ensures
        is_path(kids, a + b.subrange(1, b.len() as int)),
{
    let all = a + b.subrange(1, b.len() as int);
    assert forall|i: int| 0 <= i < all.len() - 1 implies #[trigger] goes_down(kids, all, i) by {
        if i < a.len() - 1 {
            assert(goes_down(kids, a, i));
        } else {
            assert(goes_down(kids, b, i - (a.len() - 1)));
        }
    }
}

/// What a path is: it leads from the first cluster to the last, always to a child.
pub proof fn lemma_lies_below(kids: spec_fn(usize) -> Seq<usize>, node: usize, c: usize, d: usize)
    ensures
        lies_below(kids, node, node),
        lies_below(kids, node, c) && kids(c).contains(d) ==> lies_below(kids, node, d),
        lies_below(kids, node, d) && node != d ==> exists|p: usize| #[trigger]
            lies_below(kids, node, p) && kids(p).contains(d),
{
    assert(is_path(kids, seq![node]));
    assert(seq![node].last() == node);
    if lies_below(kids, node, c) && kids(c).contains(d) {
        lemma_below_step(kids, node, c, d);
    }
    if lies_below(kids, node, d) && node != d {
        let p = lemma_below_via_parent(kids, node, d);
        assert(lies_below(kids, node, p));
    }
}

/// The leaves are the clusters that leave a cluster and that no cluster leaves, by ascending number.
pub proof fn lemma_leaves(edges: Seq<CondensedEdge>, n: nat, ids: Seq<usize>)
    requires
        lists_exactly(ids, leaf_clusters(edges, n)),
    ensures
        forall|i: int, j: int| 0 <= i < j < ids.len() ==> #[trigger] ids[i] < #[trigger] ids[j],
        forall|k: int|
            0 <= k < ids.len() ==> #[trigger] ids[k] >= n && (exists|i: int|
                0 <= i < edges.len() && (#[trigger] edges[i]).child == ids[k]) && forall|i: int|
                0 <= i < edges.len() && (#[trigger] edges[i]).parent == ids[k] ==> edges[i].child
                    < n,
        forall|i: int|
            0 <= i < edges.len() && (#[trigger] edges[i]).child >= n && (forall|j: int|
                0 <= j < edges.len() && (#[trigger] edges[j]).parent == edges[i].child
                    ==> edges[j].child < n) ==> ids.contains(edges[i].child),
{
    assert forall|k: int| 0 <= k < ids.len() implies #[trigger] ids[k] >= n && (exists|i: int|
        0 <= i < edges.len() && (#[trigger] edges[i]).child == ids[k]) && forall|i: int|
        0 <= i < edges.len() && (#[trigger] edges[i]).parent == ids[k] ==> edges[i].child < n by {
        assert(ids.contains(ids[k]));
        assert(leaf_clusters(edges, n)(ids[k]));
        assert(!split_clusters(edges, n)(ids[k]));
    }
    assert forall|i: int|
        0 <= i < edges.len() && (#[trigger] edges[i]).child >= n && (forall|j: int|
            0 <= j < edges.len() && (#[trigger] edges[j]).parent == edges[i].child
                ==> edges[j].child < n) implies ids.contains(edges[i].child) by {
        let c = edges[i].child;
        assert(leaving_clusters(edges, n)(c));
        assert(!split_clusters(edges, n)(c)) by {
            if split_clusters(edges, n)(c) {
                let j = choose|j: int|
                    0 <= j < edges.len() && (#[trigger] edges[j]).parent == c && edges[j].child
                        >= n;
                assert(edges[j].parent == c);
            }
        }
        assert(leaf_clusters(edges, n)(c));
    }
}

/// The clusters that something leaves, by ascending number.
pub proof fn lemma_left_clusters(edges: Seq<CondensedEdge>, ids: Seq<usize>)
    requires
        lists_exactly(ids, left_clusters(edges)),
    ensures
        forall|i: int, j: int| 0 <= i < j < ids.len() ==> #[trigger] ids[i] < #[trigger] ids[j],
        forall|c: usize| #[trigger]
            ids.contains(c) <==> exists|i: int|
                0 <= i < edges.len() && (#[trigger] edges[i]).parent == c,
{
    assert forall|c: usize| #[trigger] ids.contains(c) <==> exists|i: int|
        0 <= i < edges.len() && (#[trigger] edges[i]).parent == c by {
        assert(left_clusters(edges)(c) == exists|i: int|
            0 <= i < edges.len() && (#[trigger] edges[i]).parent == c);
    }
}

/// A noise point ends up with the points of the cluster that it is nearest to, the first of equally
/// near ones; and points that are not noise stay together exactly if they had one label.
pub proof fn lemma_noise_joins_nearest(
    labels_in: Seq<i64>,
    clusters: Seq<i64>,
    nearness: Seq<Vec<i64>>,
    out: Seq<usize>,
    i: int,
    j: int,
    k: int,
)
    requires
        labels::is_canonical(settled(labels_in, clusters, nearness), out),
        are_clusters(labels_in, clusters),
        0 <= i < labels_in.len(),
        0 <= j < labels_in.len(),
        0 <= k < clusters.len(),
        labels_in[j] == clusters[k],
        labels_in[i] == -1 ==> {
            &&& nearness[i]@.len() == clusters.len()
            &&& forall|l: int| 0 <= l < clusters.len() ==> nearness[i]@[k] <= #[trigger] nearness[i]@[l]
            &&& forall|l: int| 0 <= l < k ==> nearness[i]@[k] < #[trigger] nearness[i]@[l]
        },
    ensures
        labels_in[i] == -1 ==> out[i] == out[j],
        labels_in[i] != -1 ==> (out[i] == out[j] <==> labels_in[i] == labels_in[j]),
{
    let want = settled(labels_in, clusters, nearness);
    assert(clusters.contains(clusters[k]));
    assert(labels_in[j] != -1);
    if labels_in[i] == -1 {
        lemma_first_min_index(nearness[i]@, k);
    }
    labels::lemma_same_number(want, i, j);
}

/// Clusters are the labels that some point has, other than that of noise, ascending.
pub proof fn lemma_clusters_listed(labels: Seq<i64>, clusters: Seq<i64>, i: int, k: int)
    requires
        are_clusters(labels, clusters),
    ensures
        0 <= i < labels.len() && labels[i] != -1 ==> clusters.contains(labels[i]),
        0 <= k < clusters.len() ==> clusters[k] != -1 && labels.contains(clusters[k]),
        forall|a: int, b: int|
            0 <= a < b < clusters.len() ==> #[trigger] clusters[a] < #[trigger] clusters[b],
{
    if 0 <= i < labels.len() {
        assert(labels.contains(labels[i]));
    }
    if 0 <= k < clusters.len() {
        assert(clusters.contains(clusters[k]));
    }
}

proof fn lemma_ages_bounded(kids: spec_fn(usize) -> Seq<usize>, node: usize, h: nat)
    requires
        ages(kids),
        h >= usize::MAX - node + 2,
    ensures
        !reaches_down(kids, node, h),
    decreases h,
{
    if reaches_down(kids, node, h) {
        let i = choose|i: int|
            0 <= i < kids(node).len() && reaches_down(
                kids,
                #[trigger] kids(node)[i],
                (h - 1) as nat,
            );
        assert(kids(node)[i] > node);
        lemma_ages_bounded(kids, kids(node)[i], (h - 1) as nat);
    }
}

proof fn lemma_steps_up(
    edges: Seq<CondensedEdge>,
    n: usize,
    path: Seq<usize>,
    i: int,
) -> (steps: Seq<int>)
    requires
        is_path(kids_of_edges(edges, n as nat), path),
        0 <= i < edges.len(),
        edges[i].parent == path[path.len() - 1],
    ensures
        steps.len() == path.len(),
        steps[0] == i,
        forall|q: int| 0 <= q < steps.len() ==> 0 <= #[trigger] steps[q] < edges.len(),
        forall|q: int|
            0 < q < steps.len() ==> edges[#[trigger] steps[q]].child == edges[steps[q - 1]].parent
                && edges[steps[q]].child >= n,
        edges[steps[steps.len() - 1]].parent == path[0],
    decreases path.len(),
{
    if path.len() == 1 {
        seq![i]
    } else {
        let kids = kids_of_edges(edges, n as nat);
        let m = path.len() - 2;
        assert(goes_down(kids, path, m));
        lemma_children_leave(edges, n as nat, path[m]);
        assert(kids(path[m]).contains(path[m + 1]));
        let e = choose|e: int|
            0 <= e < edges.len() && (#[trigger] edges[e]).parent == path[m] && edges[e].child
                == path[m + 1] && path[m + 1] >= n;
        let front = path.drop_last();
        assert forall|q: int| 0 <= q < front.len() - 1 implies #[trigger] goes_down(
            kids,
            front,
            q,
        ) by {
            assert(goes_down(kids, path, q));
        }
        let rest = lemma_steps_up(edges, n, front, e);
        let steps = seq![i] + rest;
        assert forall|q: int| 0 <= q < steps.len() implies 0 <= #[trigger] steps[q] < edges.len() by {
            if q > 0 {
                assert(steps[q] == rest[q - 1]);
            }
        }
        assert forall|q: int| 0 < q < steps.len() implies edges[#[trigger] steps[q]].child
            == edges[steps[q - 1]].parent && edges[steps[q]].child >= n by {
            assert(steps[q] == rest[q - 1]);
            if q > 1 {
                assert(steps[q - 1] == rest[q - 2]);
            }
        }
        assert(steps[steps.len() - 1] == rest[rest.len() - 1]);
        steps
    }
}

/// Every point that leaves a cluster at or below a selected one, other than that of all points, is
/// labelled.
pub proof fn lemma_points_below_selected(
    edges: Seq<CondensedEdge>,
    selected: Seq<usize>,
    n: usize,
    v: usize,
    i: int,
    s: usize,
)
    requires
        forall|j: int|
            0 <= j < edges.len() && (#[trigger] edges[j]).child >= n ==> edges[j].parent
                < edges[j].child,
        forall|j: int| 0 <= j < edges.len() ==> (#[trigger] edges[j]).parent >= n,
        forall|j: int, k: int|
            0 <= j < k < edges.len() && (#[trigger] edges[j]).child >= n ==> edges[j].child != (
            #[trigger] edges[k]).child,
        forall|j: int, k: int|
            0 <= j < k < selected.len() ==> #[trigger] selected[j] < #[trigger] selected[k],
        0 <= i < edges.len(),
        edges[i].child == v,
        v < n,
        forall|j: int| i < j < edges.len() ==> (#[trigger] edges[j]).child != v,
        selected.contains(s),
        s != n,
        clusters_below(kids_of_edges(edges, n as nat), s).contains(edges[i].parent),
    ensures
        0 <= label_for(edges, selected, n, v) < selected.len(),
{
    let kids = kids_of_edges(edges, n as nat);
    assert(ages(kids)) by {
        assert forall|p: usize, x: int| 0 <= x < kids(p).len() implies #[trigger] kids(p)[x] > p by {
            lemma_children_leave(edges, n as nat, p);
            let c = kids(p)[x];
            assert(kids(p).contains(c));
            let e = choose|e: int|
                0 <= e < edges.len() && (#[trigger] edges[e]).parent == p && edges[e].child == c && c
                    >= n;
            assert(edges[e].parent < edges[e].child);
        }
    }
    lemma_ages_bounded(kids, s, (usize::MAX - s + 2) as nat);
    assert(is_bounded(kids, s));
    let c = edges[i].parent;
    lemma_below_reached(kids, s, c);
    let path = choose|path: Seq<usize>| #[trigger]
        is_path(kids, path) && path[0] == s && path.last() == c;
    let steps = lemma_steps_up(edges, n, path, i);
    assert forall|q: int, j: int|
        0 <= q < steps.len() && #[trigger] steps[q] < j < edges.len() implies (
    #[trigger] edges[j]).child != edges[steps[q]].child by {
        if q > 0 {
            assert(edges[steps[q]].child >= n);
        }
    }
    assert(selected.contains(edges[steps[steps.len() - 1]].parent));
    lemma_below_selected_is_labelled(edges, selected, n, v, steps);
}

} // verus!
