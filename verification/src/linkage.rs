//! Single-linkage trees over a matrix of distances.
//!
//! Distances are keys: whole numbers that order as the distances do.

use crate::counting;
use crate::sorting;
use vstd::prelude::*;

verus! {

/// `d` is a square matrix over `n` points.
pub open spec fn is_square(d: Seq<Vec<i64>>, n: nat) -> bool {
    &&& d.len() == n
    &&& forall|i: int| 0 <= i < n ==> (#[trigger] d[i])@.len() == n
}

/// `v` is the entry of `row` with exactly `k` entries below it, ties counted out in either order.
pub open spec fn is_kth_smallest(row: Seq<i64>, k: nat, v: i64) -> bool {
    &&& row.contains(v)
    &&& counting::count(row.len(), |i: int| row[i] < v) <= k
    &&& k < counting::count(row.len(), |i: int| row[i] <= v)
}

/// At most one value is the `k`-th smallest.
pub proof fn lemma_kth_smallest_unique(row: Seq<i64>, k: nat, v: i64, w: i64)
    requires
        is_kth_smallest(row, k, v),
        is_kth_smallest(row, k, w),
    ensures
        v == w,
{
    if v < w {
        counting::lemma_count_implies(
            row.len(),
            |i: int| row[i] <= v,
            |i: int| row[i] < w,
        );
    } else if w < v {
        counting::lemma_count_implies(
            row.len(),
            |i: int| row[i] <= w,
            |i: int| row[i] < v,
        );
    }
}

/// The entry of `row` at place `k` of its ascending order.
pub fn kth_smallest(row: &[i64], k: usize) -> (v: i64)
    requires
        k < row@.len(),
    ensures
        is_kth_smallest(row@, k as nat, v),
{
    let order = sorting::stable_order(row);
    let at: usize = order[k];
    let v: i64 = row[at];
    proof {
        counting::lemma_place_counts(row@, order@, k as int);
        let before = |i: int| sorting::comes_before(row@, i, at as int);
        let below = |i: int| row@[i] < v;
        let upto = |i: int| row@[i] <= v;
        let with = |i: int| before(i) || i == at;
        counting::lemma_count_implies(row@.len(), below, before);
        counting::lemma_count_one_more(row@.len(), before, with, at as int);
        counting::lemma_count_implies(row@.len(), with, upto);
    }
    v
}

/// The larger of two keys.
pub open spec fn max2(a: i64, b: i64) -> i64 {
    if a < b {
        b
    } else {
        a
    }
}

/// Core distance of each point: the `ms`-th smallest distance in its row, itself included.
pub open spec fn are_core(d: Seq<Vec<i64>>, ms: nat, core: Seq<i64>) -> bool {
    &&& core.len() == d.len()
    &&& forall|i: int|
        0 <= i < d.len() ==> is_kth_smallest((#[trigger] d[i])@, (ms - 1) as nat, core[i])
}

/// The core distances of the points.
pub fn core_distances(d: &Vec<Vec<i64>>, ms: usize) -> (core: Vec<i64>)
    requires
        is_square(d@, d@.len()),
        1 <= ms <= d@.len(),
    ensures
        are_core(d@, ms as nat, core@),
{
    let n: usize = d.len();
    let mut core: Vec<i64> = Vec::with_capacity(n);
    let mut i: usize = 0;
    while i < n
        invariant
            i <= n,
            n == d@.len(),
            is_square(d@, n as nat),
            1 <= ms <= n,
            core@.len() == i,
            forall|j: int|
                0 <= j < i ==> is_kth_smallest((#[trigger] d@[j])@, (ms - 1) as nat, core@[j]),
        decreases n - i,
    {
        core.push(kth_smallest(d[i].as_slice(), ms - 1));
        i = i + 1;
    }
    core
}

/// The mutual reachability of two points: the largest of their core distances and their distance.
pub open spec fn reachability(d: Seq<Vec<i64>>, core: Seq<i64>, i: int, j: int) -> i64 {
    max2(max2(core[i], core[j]), d[i]@[j])
}

/// The matrix of mutual reachabilities.
pub fn mutual_reachability(d: &Vec<Vec<i64>>, core: &Vec<i64>) -> (mr: Vec<Vec<i64>>)
    requires
        is_square(d@, d@.len()),
        core@.len() == d@.len(),
    ensures
        is_square(mr@, d@.len()),
        forall|i: int, j: int|
            0 <= i < d@.len() && 0 <= j < d@.len() ==> #[trigger] mr@[i]@[j] == reachability(
                d@,
                core@,
                i,
                j,
            ),
{
    let n: usize = d.len();
    let mut mr: Vec<Vec<i64>> = Vec::with_capacity(n);
    let mut i: usize = 0;
    while i < n
        invariant
            i <= n,
            n == d@.len(),
            core@.len() == n,
            is_square(d@, n as nat),
            mr@.len() == i,
            forall|a: int| 0 <= a < i ==> (#[trigger] mr@[a])@.len() == n,
            forall|a: int, b: int|
                0 <= a < i && 0 <= b < n ==> #[trigger] mr@[a]@[b] == reachability(
                    d@,
                    core@,
                    a,
                    b,
                ),
        decreases n - i,
    {
        let mut row: Vec<i64> = Vec::with_capacity(n);
        let mut j: usize = 0;
        while j < n
            invariant
                j <= n,
                i < n,
                n == d@.len(),
                core@.len() == n,
                is_square(d@, n as nat),
                row@.len() == j,
                forall|b: int|
                    0 <= b < j ==> #[trigger] row@[b] == reachability(d@, core@, i as int, b),
            decreases n - j,
        {
            let c: i64 = if core[i] < core[j] {
                core[j]
            } else {
                core[i]
            };
            let e: i64 = d[i][j];
            row.push(
                if c < e {
                    e
                } else {
                    c
                },
            );
            j = j + 1;
        }
        mr.push(row);
        i = i + 1;
    }
    mr
}

/// The smallest entry, in the column of `v`, of the rows of the first `t + 1` points of `order`.
pub open spec fn reach(mr: Seq<Vec<i64>>, order: Seq<usize>, t: int, v: int) -> i64
    decreases t,
{
    let here = mr[order[t] as int]@[v];
    if t <= 0 {
        here
    } else {
        let earlier = reach(mr, order, t - 1, v);
        if here < earlier {
            here
        } else {
            earlier
        }
    }
}

/// `v` is not among the first `m` points of `order`.
pub open spec fn outside(order: Seq<usize>, m: int, v: int) -> bool {
    forall|s: int| 0 <= s < m ==> #[trigger] order[s] != v
}

/// `v` is the point outside the first `t + 1` points of `order` that is nearest to them, the one
/// with the smallest index among equally near ones.
pub open spec fn is_nearest_outside(
    mr: Seq<Vec<i64>>,
    order: Seq<usize>,
    t: int,
    n: int,
    v: int,
) -> bool {
    &&& 0 <= v < n
    &&& outside(order, t + 1, v)
    &&& forall|u: int|
        0 <= u < n && #[trigger] outside(order, t + 1, u) ==> reach(mr, order, t, v) < reach(
            mr,
            order,
            t,
            u,
        ) || (reach(mr, order, t, v) == reach(mr, order, t, u) && v <= u)
}

/// `order` visits all points, starting at point 0 and always going to the nearest point not yet
/// visited; `weight[t]` is the distance of point `t + 1` of the order to those before it.
pub open spec fn is_growth(
    mr: Seq<Vec<i64>>,
    n: nat,
    order: Seq<usize>,
    weight: Seq<i64>,
    m: nat,
) -> bool {
    &&& order.len() == m + 1
    &&& weight.len() == m
    &&& order[0] == 0
    &&& forall|s: int| 0 <= s <= m ==> #[trigger] order[s] < n
    &&& forall|s: int, t: int|
        0 <= s < t <= m ==> #[trigger] order[s] != #[trigger] order[t]
    &&& forall|t: int|
        0 <= t < m ==> #[trigger] is_nearest_outside(mr, order, t, n as int, order[t + 1] as int)
            && weight[t] == reach(mr, order, t, order[t + 1] as int)
}

proof fn lemma_reach_prefix(mr: Seq<Vec<i64>>, a: Seq<usize>, b: Seq<usize>, t: int, v: int)
    requires
        0 <= t < a.len(),
        a.len() <= b.len(),
        forall|s: int| 0 <= s < a.len() ==> a[s] == #[trigger] b[s],
    ensures
        reach(mr, a, t, v) == reach(mr, b, t, v),
    decreases t,
{
    assert(a[t] == b[t]);
    if t > 0 {
        lemma_reach_prefix(mr, a, b, t - 1, v);
    }
}

proof fn lemma_growth_step(
    mr: Seq<Vec<i64>>,
    n: nat,
    order: Seq<usize>,
    weight: Seq<i64>,
    m: nat,
    v: usize,
)
    requires
        is_growth(mr, n, order, weight, m),
        is_nearest_outside(mr, order, m as int, n as int, v as int),
    ensures
        is_growth(
            mr,
            n,
            order.push(v),
            weight.push(reach(mr, order, m as int, v as int)),
            m + 1,
        ),
{
    let order2 = order.push(v);
    let weight2 = weight.push(reach(mr, order, m as int, v as int));
    assert forall|s: int, t: int| 0 <= s < t <= m + 1 implies #[trigger] order2[s]
        != #[trigger] order2[t] by {
        if t == m + 1 {
            assert(order[s] != v);
        } else {
            assert(order[s] != order[t]);
        }
    }
    assert forall|t: int| 0 <= t < m + 1 implies #[trigger] is_nearest_outside(
        mr,
        order2,
        t,
        n as int,
        order2[t + 1] as int,
    ) && weight2[t] == reach(mr, order2, t, order2[t + 1] as int) by {
        let w = order2[t + 1] as int;
        assert(is_nearest_outside(mr, order, t, n as int, w)) by {
            if t < m {
                assert(is_nearest_outside(mr, order, t, n as int, order[t + 1] as int));
            }
        }
        assert forall|u: int| #[trigger] outside(order2, t + 1, u) implies outside(
            order,
            t + 1,
            u,
        ) by {
            assert forall|s: int| 0 <= s < t + 1 implies #[trigger] order[s] != u by {
                assert(order2[s] != u);
            }
        }
        assert forall|u: int| 0 <= u < n && #[trigger] outside(order2, t + 1, u) implies reach(
            mr,
            order2,
            t,
            w,
        ) < reach(mr, order2, t, u) || (reach(mr, order2, t, w) == reach(mr, order2, t, u) && w
            <= u) by {
            assert(outside(order, t + 1, u));
            lemma_reach_prefix(mr, order, order2, t, u);
            lemma_reach_prefix(mr, order, order2, t, w);
        }
        lemma_reach_prefix(mr, order, order2, t, w);
        assert(outside(order2, t + 1, w)) by {
            assert forall|s: int| 0 <= s < t + 1 implies #[trigger] order2[s] != w by {
                assert(order[s] != w);
            }
        }
    }
}

/// A visit of all points that always goes to the nearest one not yet visited, and how far each was.
pub fn grow_tree(mr: &Vec<Vec<i64>>) -> (r: (Vec<usize>, Vec<i64>))
    requires
        mr@.len() > 0,
        is_square(mr@, mr@.len()),
    ensures
        is_growth(mr@, mr@.len(), r.0@, r.1@, (mr@.len() - 1) as nat),
{
    let n: usize = mr.len();
    let mut order: Vec<usize> = Vec::with_capacity(n);
    let mut weight: Vec<i64> = Vec::with_capacity(n);
    let mut visited: Vec<bool> = Vec::with_capacity(n);
    let mut nearest: Vec<i64> = Vec::with_capacity(n);
    order.push(0);
    let mut i: usize = 0;
    while i < n
        invariant
            i <= n,
            n == mr@.len(),
            n > 0,
            is_square(mr@, n as nat),
            visited@.len() == i,
            nearest@.len() == i,
            order@ == seq![0usize],
            forall|v: int| 0 <= v < i ==> #[trigger] visited@[v] == (v == 0),
            forall|v: int| 0 <= v < i ==> #[trigger] nearest@[v] == reach(mr@, order@, 0, v),
        decreases n - i,
    {
        visited.push(i == 0);
        nearest.push(mr[0][i]);
        i = i + 1;
    }
    let mut t: usize = 0;
    assert(is_growth(mr@, n as nat, order@, weight@, 0));
    while t < n - 1
        invariant
            t <= n - 1,
            n == mr@.len(),
            n > 0,
            is_square(mr@, n as nat),
            is_growth(mr@, n as nat, order@, weight@, t as nat),
            visited@.len() == n,
            nearest@.len() == n,
            forall|v: int|
                0 <= v < n ==> #[trigger] visited@[v] == !outside(order@, t + 1, v),
            forall|v: int|
                0 <= v < n && outside(order@, t + 1, v) ==> #[trigger] nearest@[v] == reach(
                    mr@,
                    order@,
                    t as int,
                    v,
                ),
        decreases n - t,
    {
        let (best, best_v) = pick(mr, &order, &visited, &nearest, t);
        let ghost order_before = order@;
        proof {
            lemma_growth_step(mr@, n as nat, order@, weight@, t as nat, best);
        }
        order.push(best);
        weight.push(best_v);
        visited[best] = true;
        assert forall|v: int| 0 <= v < n implies #[trigger] visited@[v] == !outside(
            order@,
            t + 2,
            v,
        ) by {
            if v == best {
                assert(order@[t + 1] == v);
            } else if outside(order_before, t + 1, v) {
                assert forall|s: int| 0 <= s < t + 2 implies #[trigger] order@[s] != v by {
                    if s < t + 1 {
                        assert(order_before[s] != v);
                    }
                }
            } else {
                let s = choose|s: int| 0 <= s < t + 1 && #[trigger] order_before[s] == v;
                assert(order@[s] == v);
            }
        }
        let mut v: usize = 0;
        while v < n
            invariant
                v <= n,
                n == mr@.len(),
                is_square(mr@, n as nat),
                t + 1 < n,
                best < n,
                order@.len() == t + 2,
                order@[t + 1] == best,
                order_before.len() == t + 1,
                order@ == order_before.push(best),
                nearest@.len() == n,
                forall|u: int|
                    0 <= u < v && outside(order@, t + 2, u) ==> #[trigger] nearest@[u] == reach(
                        mr@,
                        order@,
                        t + 1,
                        u,
                    ),
                forall|u: int|
                    v <= u < n && outside(order_before, t + 1, u) ==> #[trigger] nearest@[u]
                        == reach(mr@, order_before, t as int, u),
            decreases n - v,
        {
            let here: i64 = mr[best][v];
            proof {
                lemma_reach_prefix(mr@, order_before, order@, t as int, v as int);
                if outside(order@, t + 2, v as int) {
                    assert forall|s: int| 0 <= s < t + 1 implies #[trigger] order_before[s] != v by {
                        assert(order@[s] != v);
                    }
                    assert(outside(order_before, t + 1, v as int));
                }
            }
            if here < nearest[v] {
                nearest[v] = here;
            }
            v = v + 1;
        }
        t = t + 1;
    }
    (order, weight)
}

proof fn lemma_some_outside(order: Seq<usize>, n: nat, m: nat) -> (v: int)
    requires
        order.len() == m,
        m < n,
        n <= usize::MAX,
        forall|s: int| 0 <= s < m ==> #[trigger] order[s] < n,
    ensures
        0 <= v < n,
        outside(order, m as int, v),
{
    let s = order.map_values(|x: usize| x as int);
    let all = vstd::set_lib::set_int_range(0, n as int);
    vstd::set_lib::lemma_int_range(0, n as int);
    s.lemma_cardinality_of_set();
    if forall|v: int| 0 <= v < n ==> !#[trigger] outside(order, m as int, v) {
        assert(all.subset_of(s.to_set())) by {
            assert forall|v: int| all.contains(v) implies s.to_set().contains(v) by {
                assert(!outside(order, m as int, v));
                let k = choose|k: int| 0 <= k < m && #[trigger] order[k] == v;
                assert(s[k] == v);
            }
        }
        s.lemma_cardinality_of_set();
        vstd::set_lib::lemma_len_subset(all, s.to_set());
    }
    choose|v: int| 0 <= v < n && #[trigger] outside(order, m as int, v)
}

fn pick(
    mr: &Vec<Vec<i64>>,
    order: &Vec<usize>,
    visited: &Vec<bool>,
    nearest: &Vec<i64>,
    t: usize,
) -> (r: (usize, i64))
    requires
        is_square(mr@, mr@.len()),
        t + 1 < mr@.len(),
        order@.len() == t + 1,
        forall|s: int| 0 <= s < t + 1 ==> #[trigger] order@[s] < mr@.len(),
        visited@.len() == mr@.len(),
        nearest@.len() == mr@.len(),
        forall|v: int|
            0 <= v < mr@.len() ==> #[trigger] visited@[v] == !outside(order@, t + 1, v),
        forall|v: int|
            0 <= v < mr@.len() && outside(order@, t + 1, v) ==> #[trigger] nearest@[v] == reach(
                mr@,
                order@,
                t as int,
                v,
            ),
    ensures
        is_nearest_outside(mr@, order@, t as int, mr@.len() as int, r.0 as int),
        r.1 == reach(mr@, order@, t as int, r.0 as int),
{
    let n: usize = mr.len();
    let mut best: usize = 0;
    let mut found: bool = false;
    let mut v: usize = 0;
    while v < n
        invariant
            v <= n,
            n == mr@.len(),
            visited@.len() == n,
            nearest@.len() == n,
            forall|u: int|
                0 <= u < n ==> #[trigger] visited@[u] == !outside(order@, t + 1, u),
            found ==> best < v && !visited@[best as int],
            found ==> forall|u: int|
                0 <= u < v && !#[trigger] visited@[u] ==> nearest@[best as int] < nearest@[u] || (
                nearest@[best as int] == nearest@[u] && best <= u),
            !found ==> forall|u: int| 0 <= u < v ==> #[trigger] visited@[u],
        decreases n - v,
    {
        if !visited[v] {
            if !found || nearest[v] < nearest[best] {
                best = v;
                found = true;
            }
        }
        v = v + 1;
    }
    proof {
        let w = lemma_some_outside(order@, n as nat, (t + 1) as nat);
        assert(!visited@[w]);
        assert forall|u: int| 0 <= u < n && #[trigger] outside(order@, t + 1, u) implies reach(
            mr@,
            order@,
            t as int,
            best as int,
        ) < reach(mr@, order@, t as int, u) || (reach(mr@, order@, t as int, best as int) == reach(
            mr@,
            order@,
            t as int,
            u,
        ) && best <= u) by {
            assert(!visited@[u]);
            assert(nearest@[u] == reach(mr@, order@, t as int, u));
        }
    }
    (best, nearest[best])
}

/// A merge tree over `n` points: merge `s` joins the nodes `left[s]` and `right[s]` into node
/// `n + s`, at distance `dist[s]`, which then holds `sizes[s]` points. Points are the nodes below
/// `n`.
#[derive(Debug, Clone)]
pub struct Linkage {
    pub left: Vec<usize>,
    pub right: Vec<usize>,
    pub dist: Vec<i64>,
    pub sizes: Vec<usize>,
}

/// The node that holds point `v` after the first `s` merges.
pub open spec fn top(n: nat, left: Seq<usize>, right: Seq<usize>, s: nat, v: int) -> int
    decreases s,
{
    if s == 0 {
        v
    } else {
        let c = top(n, left, right, (s - 1) as nat, v);
        if c == left[s - 1] || c == right[s - 1] {
            n + s - 1
        } else {
            c
        }
    }
}

/// The points that node `c` holds after the first `s` merges.
pub open spec fn held(
    n: nat,
    left: Seq<usize>,
    right: Seq<usize>,
    s: nat,
    c: int,
) -> spec_fn(int) -> bool {
    |v: int| top(n, left, right, s, v) == c
}

/// The number of points below a node.
pub open spec fn size_of(n: nat, sizes: Seq<usize>, node: int) -> nat {
    if node < n {
        1
    } else {
        sizes[node - n] as nat
    }
}

/// Merge `s` joins the nodes that hold the two ends of edge `perm[s]`, an edge that leads from one
/// point of `order` to the next.
pub open spec fn merges_edge(
    n: nat,
    order: Seq<usize>,
    weight: Seq<i64>,
    perm: Seq<usize>,
    left: Seq<usize>,
    right: Seq<usize>,
    dist: Seq<i64>,
    sizes: Seq<usize>,
    s: int,
) -> bool {
    let t = perm[s] as int;
    &&& left[s] == top(n, left, right, s as nat, order[t] as int)
    &&& right[s] == top(n, left, right, s as nat, order[t + 1] as int)
    &&& dist[s] == weight[t]
    &&& sizes[s] == counting::count(n, held(n, left, right, (s + 1) as nat, n + s))
}

/// `link` takes the edges between neighbours in `order` one after the other, in the order `perm`.
pub open spec fn links(
    n: nat,
    order: Seq<usize>,
    weight: Seq<i64>,
    perm: Seq<usize>,
    link: Linkage,
) -> bool {
    &&& link.left@.len() == n - 1
    &&& link.right@.len() == n - 1
    &&& link.dist@.len() == n - 1
    &&& link.sizes@.len() == n - 1
    &&& forall|s: int|
        0 <= s < n - 1 ==> #[trigger] merges_edge(
            n,
            order,
            weight,
            perm,
            link.left@,
            link.right@,
            link.dist@,
            link.sizes@,
            s,
        )
}

/// The nodes that a merge joins are different and older than the one it makes, the new node holds
/// as many points as they do together, and the last one holds all.
pub open spec fn is_hierarchy(n: nat, left: Seq<usize>, right: Seq<usize>, sizes: Seq<usize>) -> bool {
    &&& n > 0
    &&& left.len() == n - 1
    &&& right.len() == n - 1
    &&& sizes.len() == n - 1
    &&& forall|s: int|
        0 <= s < n - 1 ==> {
            &&& #[trigger] left[s] < n + s
            &&& right[s] < n + s
            &&& left[s] != right[s]
            &&& sizes[s] == size_of(n, sizes, left[s] as int) + size_of(n, sizes, right[s] as int)
        }
    &&& size_of(n, sizes, 2 * n - 2) == n
}

/// Node `x` has no parent; `usize::MAX` stands for none.
pub open spec fn is_end(parent: Seq<usize>, x: int) -> bool {
    0 <= x < parent.len() && parent[x] == usize::MAX
}

/// The node that `k` steps from a node to its parent lead to from `x`; a node without a parent is
/// not left.
pub open spec fn climb(parent: Seq<usize>, x: int, k: nat) -> int
    decreases k,
{
    if k == 0 || is_end(parent, x) {
        x
    } else {
        climb(parent, parent[x] as int, (k - 1) as nat)
    }
}

/// The chain of parents that starts at `x` comes to an end.
pub open spec fn chain_ends(parent: Seq<usize>, x: int) -> bool {
    exists|k: nat| is_end(parent, #[trigger] climb(parent, x, k))
}

/// The end of the chain of parents that starts at `x`.
pub open spec fn root_of(parent: Seq<usize>, x: int) -> int {
    climb(parent, x, choose|k: nat| is_end(parent, #[trigger] climb(parent, x, k)))
}

/// Parents are nodes, and every chain of parents comes to an end: none runs in a circle.
pub open spec fn is_forest(parent: Seq<usize>) -> bool {
    &&& forall|x: int|
        0 <= x < parent.len() ==> #[trigger] parent[x] == usize::MAX || parent[x] < parent.len()
    &&& forall|x: int| 0 <= x < parent.len() ==> #[trigger] chain_ends(parent, x)
}

/// Node `y` stands on the chain of parents that starts at `start`, the start and the end included.
pub open spec fn on_chain(parent: Seq<usize>, start: int, y: int) -> bool {
    exists|k: nat| #[trigger] climb(parent, start, k) == y
}

/// The parents once every node on the chain from `start` but its end has that end as its parent.
pub open spec fn shortened(parent: Seq<usize>, start: int) -> Seq<usize> {
    Seq::new(
        parent.len(),
        |y: int|
            if on_chain(parent, start, y) && !is_end(parent, y) {
                root_of(parent, start) as usize
            } else {
                parent[y]
            },
    )
}

proof fn lemma_climb_on(parent: Seq<usize>, x: int, j: nat, k: nat)
    ensures
        climb(parent, x, j + k) == climb(parent, climb(parent, x, j), k),
    decreases j,
{
    if j > 0 {
        if is_end(parent, x) {
            assert(climb(parent, x, j + k) == x);
            assert(climb(parent, x, k) == x);
        } else {
            lemma_climb_on(parent, parent[x] as int, (j - 1) as nat, k);
        }
    }
}

/// Once the chain has ended, further steps lead nowhere else.
proof fn lemma_climb_end(parent: Seq<usize>, x: int, j: nat, k: nat)
    requires
        is_end(parent, climb(parent, x, j)),
        j <= k,
    ensures
        climb(parent, x, k) == climb(parent, x, j),
{
    lemma_climb_on(parent, x, j, (k - j) as nat);
    assert(climb(parent, climb(parent, x, j), (k - j) as nat) == climb(parent, x, j));
}

/// Whatever number of steps leads to an end leads to the root.
pub proof fn lemma_root_reached(parent: Seq<usize>, x: int, k: nat)
    requires
        is_end(parent, climb(parent, x, k)),
    ensures
        root_of(parent, x) == climb(parent, x, k),
{
    let m = choose|m: nat| is_end(parent, #[trigger] climb(parent, x, m));
    if m <= k {
        lemma_climb_end(parent, x, m, k);
    } else {
        lemma_climb_end(parent, x, k, m);
    }
}

/// A chain that comes back to a node it has left would have no end.
proof fn lemma_no_circle(parent: Seq<usize>, c: int, d: nat, k: nat)
    requires
        d > 0,
        climb(parent, c, d) == c,
        is_end(parent, climb(parent, c, k)),
    ensures
        is_end(parent, c),
    decreases k,
{
    if k <= d {
        lemma_climb_end(parent, c, k, d);
    } else {
        lemma_climb_on(parent, c, d, (k - d) as nat);
        lemma_no_circle(parent, c, d, (k - d) as nat);
    }
}

proof fn lemma_root(parent: Seq<usize>, x: int)
    requires
        is_forest(parent),
        0 <= x < parent.len(),
    ensures
        0 <= root_of(parent, x) < parent.len(),
        parent[root_of(parent, x)] == usize::MAX,
        root_of(parent, x) == x <==> parent[x] == usize::MAX,
{
    assert(chain_ends(parent, x));
    if parent[x] == usize::MAX {
        lemma_root_reached(parent, x, 0);
    }
}

/// A node has the root of its parent.
proof fn lemma_root_step(parent: Seq<usize>, x: int)
    requires
        is_forest(parent),
        0 <= x < parent.len(),
        parent[x] != usize::MAX,
    ensures
        root_of(parent, parent[x] as int) == root_of(parent, x),
{
    assert(chain_ends(parent, parent[x] as int));
    let k = choose|k: nat| is_end(parent, #[trigger] climb(parent, parent[x] as int, k));
    assert(climb(parent, x, k + 1) == climb(parent, parent[x] as int, k));
    lemma_root_reached(parent, x, k + 1);
}

/// The nodes on a chain have the root of its start.
proof fn lemma_chain_root(parent: Seq<usize>, start: int, k: nat)
    requires
        is_forest(parent),
        0 <= start < parent.len(),
    ensures
        root_of(parent, climb(parent, start, k)) == root_of(parent, start),
    decreases k,
{
    if k > 0 && parent[start] != usize::MAX {
        lemma_chain_root(parent, parent[start] as int, (k - 1) as nat);
        lemma_root_step(parent, start);
    }
}

proof fn lemma_shortened_end(parent: Seq<usize>, start: int, y: int, k: nat) -> (m: nat)
    requires
        is_forest(parent),
        parent.len() <= usize::MAX,
        0 <= start < parent.len(),
        0 <= y < parent.len(),
        is_end(parent, climb(parent, y, k)),
    ensures
        is_end(shortened(parent, start), climb(shortened(parent, start), y, m)),
        climb(shortened(parent, start), y, m) == climb(parent, y, k),
    decreases k,
{
    let q = shortened(parent, start);
    let r = root_of(parent, start);
    lemma_root(parent, start);
    if is_end(parent, y) {
        0
    } else if on_chain(parent, start, y) {
        let i = choose|i: nat| #[trigger] climb(parent, start, i) == y;
        lemma_chain_root(parent, start, i);
        lemma_root_reached(parent, y, k);
        assert(q[y] == r);
        assert(q[r] == usize::MAX);
        assert(climb(q, r, 0) == r);
        assert(climb(q, y, 1) == r);
        1
    } else {
        let m = lemma_shortened_end(parent, start, parent[y] as int, (k - 1) as nat);
        assert(q[y] == parent[y]);
        assert(climb(q, y, m + 1) == climb(q, q[y] as int, m));
        m + 1
    }
}

/// Shortening a chain keeps the forest: every node keeps its root, and no root is won or lost.
pub proof fn lemma_shortened(parent: Seq<usize>, start: int)
    requires
        is_forest(parent),
        parent.len() <= usize::MAX,
        0 <= start < parent.len(),
    ensures
        is_forest(shortened(parent, start)),
        forall|y: int|
            0 <= y < parent.len() ==> #[trigger] root_of(shortened(parent, start), y) == root_of(
                parent,
                y,
            ),
        forall|y: int|
            0 <= y < parent.len() ==> (#[trigger] shortened(parent, start)[y] == usize::MAX
                <==> parent[y] == usize::MAX),
{
    let q = shortened(parent, start);
    lemma_root(parent, start);
    assert forall|y: int| 0 <= y < parent.len() implies #[trigger] chain_ends(q, y) && root_of(q, y)
        == root_of(parent, y) by {
        assert(chain_ends(parent, y));
        let k = choose|k: nat| is_end(parent, #[trigger] climb(parent, y, k));
        let m = lemma_shortened_end(parent, start, y, k);
        lemma_root_reached(q, y, m);
    }
    assert forall|y: int| 0 <= y < parent.len() implies #[trigger] root_of(q, y) == root_of(
        parent,
        y,
    ) by {
        assert(chain_ends(q, y));
    }
}

/// Shortening a chain changes a parent, if at all, to the root.
proof fn lemma_shortened_entry(parent: Seq<usize>, start: int, y: int)
    requires
        is_forest(parent),
        parent.len() <= usize::MAX,
        0 <= start < parent.len(),
        0 <= y < parent.len(),
    ensures
        shortened(parent, start)[y] == parent[y] || shortened(parent, start)[y] == root_of(
            parent,
            y,
        ),
{
    lemma_root(parent, start);
    if on_chain(parent, start, y) {
        let k = choose|k: nat| #[trigger] climb(parent, start, k) == y;
        lemma_chain_root(parent, start, k);
    }
}

proof fn lemma_attach_end(parent: Seq<usize>, c: int, nl: int, y: int, k: nat) -> (m: nat)
    requires
        is_forest(parent),
        parent.len() <= usize::MAX,
        0 <= c < parent.len(),
        0 <= nl < parent.len(),
        c != nl,
        parent[c] == usize::MAX,
        parent[nl] == usize::MAX,
        0 <= y < parent.len(),
        is_end(parent, climb(parent, y, k)),
    ensures
        ({
            let p2 = parent.update(c, nl as usize);
            &&& is_end(p2, climb(p2, y, m))
            &&& climb(p2, y, m) == (if climb(parent, y, k) == c {
                nl
            } else {
                climb(parent, y, k)
            })
        }),
    decreases k,
{
    let p2 = parent.update(c, nl as usize);
    if y == c {
        assert(climb(p2, nl, 0) == nl);
        assert(climb(p2, y, 1) == nl);
        1
    } else if is_end(parent, y) {
        0
    } else {
        let m = lemma_attach_end(parent, c, nl, parent[y] as int, (k - 1) as nat);
        assert(climb(p2, y, m + 1) == climb(p2, p2[y] as int, m));
        m + 1
    }
}

/// One root becomes the parent of another.
proof fn lemma_attach(parent: Seq<usize>, c: int, nl: int)
    requires
        is_forest(parent),
        parent.len() <= usize::MAX,
        0 <= c < parent.len(),
        0 <= nl < parent.len(),
        c != nl,
        parent[c] == usize::MAX,
        parent[nl] == usize::MAX,
    ensures
        is_forest(parent.update(c, nl as usize)),
        forall|y: int|
            0 <= y < parent.len() ==> #[trigger] root_of(parent.update(c, nl as usize), y) == (
            if root_of(parent, y) == c {
                nl
            } else {
                root_of(parent, y)
            }),
{
    let p2 = parent.update(c, nl as usize);
    assert forall|y: int| 0 <= y < parent.len() implies #[trigger] chain_ends(p2, y) && root_of(
        p2,
        y,
    ) == (if root_of(parent, y) == c {
        nl
    } else {
        root_of(parent, y)
    }) by {
        assert(chain_ends(parent, y));
        let k = choose|k: nat| is_end(parent, #[trigger] climb(parent, y, k));
        let m = lemma_attach_end(parent, c, nl, y, k);
        lemma_root_reached(p2, y, m);
    }
    assert forall|y: int| 0 <= y < parent.len() implies #[trigger] root_of(p2, y) == (if root_of(
        parent,
        y,
    ) == c {
        nl
    } else {
        root_of(parent, y)
    }) by {
        assert(chain_ends(p2, y));
    }
}

/// The end of the chain of parents from `start`; every node on the way gets it as its parent.
pub fn uf_find(parent: &mut Vec<usize>, start: usize) -> (root: usize)
    requires
        is_forest(old(parent)@),
        start < old(parent)@.len(),
    ensures
        root == root_of(old(parent)@, start as int),
        final(parent)@ == shortened(old(parent)@, start as int),
        is_forest(final(parent)@),
        forall|y: int|
            0 <= y < old(parent)@.len() ==> #[trigger] root_of(final(parent)@, y) == root_of(
                old(parent)@,
                y,
            ),
        forall|y: int|
            0 <= y < old(parent)@.len() ==> (#[trigger] final(parent)@[y] == usize::MAX
                <==> old(parent)@[y] == usize::MAX),
        root < old(parent)@.len(),
        final(parent)@[root as int] == usize::MAX,
{
    let none: usize = usize::MAX;
    let n: usize = parent.len();
    let ghost before = parent@;
    let ghost s0 = start as int;
    assert(chain_ends(before, s0));
    let ghost far = choose|k: nat| is_end(before, #[trigger] climb(before, s0, k));
    let mut root: usize = start;
    let ghost mut j: nat = 0;
    while parent[root] != none
        invariant
            none == usize::MAX,
            n == parent@.len(),
            parent@ == before,
            is_forest(before),
            is_end(before, climb(before, s0, far)),
            0 <= s0 < n,
            root < n,
            root == climb(before, s0, j),
            j <= far,
        decreases far - j,
    {
        proof {
            if j >= far {
                lemma_climb_end(before, s0, far, j);
            }
            lemma_climb_on(before, s0, j, 1);
            assert(climb(before, before[root as int] as int, 0) == before[root as int]);
            j = j + 1;
        }
        root = parent[root];
    }
    let mut x: usize = start;
    let ghost mut i: nat = 0;
    proof {
        lemma_root_reached(before, s0, j);
        lemma_shortened(before, s0);
    }
    while parent[x] != none && parent[x] != root
        invariant
            none == usize::MAX,
            n == parent@.len(),
            n == before.len(),
            is_forest(before),
            is_end(before, climb(before, s0, j)),
            0 <= s0 < n,
            root < n,
            root == climb(before, s0, j),
            x < n,
            x == climb(before, s0, i),
            i <= j,
            parent@[x as int] == before[x as int],
            forall|y: int|
                0 <= y < n ==> #[trigger] parent@[y] == (if passed(before, s0, i, y) && !is_end(
                    before,
                    y,
                ) {
                    root
                } else {
                    before[y]
                }),
        decreases j - i,
    {
        let nx: usize = parent[x];
        let ghost here = parent@;
        proof {
            if i >= j {
                lemma_climb_end(before, s0, j, i);
            }
            lemma_climb_on(before, s0, i, 1);
            assert(climb(before, nx as int, 0) == nx);
            assert(nx == climb(before, s0, i + 1));
        }
        parent[x] = root;
        proof {
            assert forall|y: int| 0 <= y < n implies #[trigger] parent@[y] == (if passed(
                before,
                s0,
                i + 1,
                y,
            ) && !is_end(before, y) {
                root
            } else {
                before[y]
            }) by {
                assert(here[y] == here[y]);
                lemma_passed_step(before, s0, i, y);
            }
            if passed(before, s0, i + 1, nx as int) {
                let a = choose|a: nat| a < i + 1 && #[trigger] climb(before, s0, a) == nx;
                lemma_climb_on(before, s0, a, (i + 1 - a) as nat);
                lemma_climb_on(before, s0, a, (j - a) as nat);
                lemma_no_circle(before, nx as int, (i + 1 - a) as nat, (j - a) as nat);
            }
            i = i + 1;
        }
        x = nx;
    }
    proof {
        let want = shortened(before, s0);
        assert forall|y: int| 0 <= y < n implies #[trigger] parent@[y] == want[y] by {
            if on_chain(before, s0, y) && !is_end(before, y) {
                let a = choose|a: nat| #[trigger] climb(before, s0, a) == y;
                if a > i {
                    if is_end(before, x as int) {
                        lemma_climb_end(before, s0, i, a);
                    } else {
                        lemma_climb_on(before, s0, i, 1);
                        assert(climb(before, root as int, 0) == root);
                        lemma_climb_end(before, s0, i + 1, a);
                    }
                } else if a < i {
                    assert(passed(before, s0, i, y));
                }
            } else if passed(before, s0, i, y) {
                let a = choose|a: nat| a < i && #[trigger] climb(before, s0, a) == y;
                assert(on_chain(before, s0, y));
            }
        }
        assert(parent@ =~= want);
    }
    root
}

/// The first `k` nodes of the chain from `start` include `y`.
spec fn passed(parent: Seq<usize>, start: int, k: nat, y: int) -> bool {
    exists|a: nat| a < k && #[trigger] climb(parent, start, a) == y
}

proof fn lemma_passed_step(parent: Seq<usize>, start: int, k: nat, y: int)
    ensures
        passed(parent, start, k + 1, y) == (passed(parent, start, k, y) || climb(parent, start, k)
            == y),
{
    if passed(parent, start, k + 1, y) {
        let a = choose|a: nat| a < k + 1 && #[trigger] climb(parent, start, a) == y;
        if a < k {
            assert(passed(parent, start, k, y));
        }
    }
    if passed(parent, start, k, y) {
        let a = choose|a: nat| a < k && #[trigger] climb(parent, start, a) == y;
        assert(a < k + 1);
    }
    if climb(parent, start, k) == y {
        assert(k < k + 1);
    }
}

/// Edge `t` is among the first `s` of `perm`.
spec fn taken(perm: Seq<usize>, s: nat, t: int) -> bool {
    exists|q: int| 0 <= q < s && #[trigger] perm[q] == t
}

/// The edges from place `i` to place `j` are all taken.
spec fn all_taken(perm: Seq<usize>, s: nat, i: int, j: int) -> bool {
    forall|t: int| i <= t < j ==> #[trigger] taken(perm, s, t)
}

/// Two points are held by one node exactly if the edges between them are taken.
spec fn joined_by_edges(
    n: nat,
    left: Seq<usize>,
    right: Seq<usize>,
    order: Seq<usize>,
    perm: Seq<usize>,
    s: nat,
) -> bool {
    forall|i: int, j: int|
        0 <= i <= j < n ==> (#[trigger] top(n, left, right, s, order[i] as int) == #[trigger] top(
            n,
            left,
            right,
            s,
            order[j] as int,
        ) <==> all_taken(perm, s, i, j))
}

/// The node that holds a point is one that has been made.
pub proof fn lemma_top_older(n: nat, left: Seq<usize>, right: Seq<usize>, s: nat, v: int)
    requires
        0 <= v < n,
    ensures
        0 <= top(n, left, right, s, v) < n + s,
    decreases s,
{
    if s > 0 {
        lemma_top_older(n, left, right, (s - 1) as nat, v);
    }
}

proof fn lemma_top_prefix(
    n: nat,
    left: Seq<usize>,
    right: Seq<usize>,
    left2: Seq<usize>,
    right2: Seq<usize>,
    s: nat,
    v: int,
)
    requires
        s <= left.len(),
        s <= right.len(),
        left.len() <= left2.len(),
        right.len() <= right2.len(),
        forall|q: int| 0 <= q < left.len() ==> left[q] == #[trigger] left2[q],
        forall|q: int| 0 <= q < right.len() ==> right[q] == #[trigger] right2[q],
    ensures
        top(n, left, right, s, v) == top(n, left2, right2, s, v),
    decreases s,
{
    if s > 0 {
        lemma_top_prefix(n, left, right, left2, right2, (s - 1) as nat, v);
        assert(left[s - 1] == left2[s - 1]);
        assert(right[s - 1] == right2[s - 1]);
    }
}

proof fn lemma_join_step(
    n: nat,
    left: Seq<usize>,
    right: Seq<usize>,
    order: Seq<usize>,
    perm: Seq<usize>,
    s: nat,
)
    requires
        n > 0,
        order.len() == n,
        forall|i: int| 0 <= i < n ==> #[trigger] order[i] < n,
        sorting::is_permutation(perm, (n - 1) as nat),
        s < n - 1,
        left.len() > s,
        right.len() > s,
        left[s as int] == top(n, left, right, s, order[perm[s as int] as int] as int),
        right[s as int] == top(n, left, right, s, order[perm[s as int] + 1] as int),
        joined_by_edges(n, left, right, order, perm, s),
    ensures
        left[s as int] != right[s as int],
        joined_by_edges(n, left, right, order, perm, s + 1),
{
    let t0 = perm[s as int] as int;
    assert(!taken(perm, s, t0)) by {
        if taken(perm, s, t0) {
            let q = choose|q: int| 0 <= q < s && #[trigger] perm[q] == t0;
            assert(perm[q] != perm[s as int]);
        }
    }
    let l = left[s as int] as int;
    let r = right[s as int] as int;
    let at = |i: int| top(n, left, right, s, order[i] as int);
    assert(at(t0) == l && at(t0 + 1) == r);
    assert(l != r) by {
        if l == r {
            assert(all_taken(perm, s, t0, t0 + 1));
            assert(taken(perm, s, t0));
        }
    }
    assert forall|t: int| #[trigger] taken(perm, s + 1, t) == (taken(perm, s, t) || t == t0) by {
        if taken(perm, s + 1, t) {
            let q = choose|q: int| 0 <= q < s + 1 && #[trigger] perm[q] == t;
            if q < s {
                assert(taken(perm, s, t));
            }
        }
        if taken(perm, s, t) {
            let q = choose|q: int| 0 <= q < s && #[trigger] perm[q] == t;
            assert(perm[q] == t && q < s + 1);
        }
        if t == t0 {
            assert(perm[s as int] == t);
        }
    }
    assert forall|i: int| 0 <= i < n implies (#[trigger] at(i) == l <==> (i <= t0 && all_taken(
        perm,
        s,
        i,
        t0,
    ))) by {
        if i > t0 {
            assert(top(n, left, right, s, order[t0] as int) == top(
                n,
                left,
                right,
                s,
                order[i] as int,
            ) <==> all_taken(perm, s, t0, i));
            if all_taken(perm, s, t0, i) {
                assert(taken(perm, s, t0));
            }
        }
    }
    assert forall|i: int| 0 <= i < n implies (#[trigger] at(i) == r <==> (i > t0 && all_taken(
        perm,
        s,
        t0 + 1,
        i,
    ))) by {
        if i <= t0 {
            assert(top(n, left, right, s, order[i] as int) == top(
                n,
                left,
                right,
                s,
                order[t0 + 1] as int,
            ) <==> all_taken(perm, s, i, t0 + 1));
            if all_taken(perm, s, i, t0 + 1) {
                assert(taken(perm, s, t0));
            }
        }
    }
    assert forall|i: int, j: int| 0 <= i <= j < n implies (#[trigger] top(
        n,
        left,
        right,
        s + 1,
        order[i] as int,
    ) == #[trigger] top(n, left, right, s + 1, order[j] as int) <==> all_taken(
        perm,
        s + 1,
        i,
        j,
    )) by {
        lemma_top_older(n, left, right, s, order[i] as int);
        lemma_top_older(n, left, right, s, order[j] as int);
        let (a, b) = (at(i), at(j));
        assert((a == b) <==> all_taken(perm, s, i, j));
        let merged_i = a == l || a == r;
        let merged_j = b == l || b == r;
        assert(top(n, left, right, s + 1, order[i] as int) == (if merged_i {
            (n + s) as int
        } else {
            a
        }));
        assert(top(n, left, right, s + 1, order[j] as int) == (if merged_j {
            (n + s) as int
        } else {
            b
        }));
        if all_taken(perm, s + 1, i, j) {
            if i <= t0 < j {
                assert(all_taken(perm, s, i, t0)) by {
                    assert forall|t: int| i <= t < t0 implies #[trigger] taken(perm, s, t) by {
                        assert(taken(perm, s + 1, t));
                    }
                }
                assert(all_taken(perm, s, t0 + 1, j)) by {
                    assert forall|t: int| t0 + 1 <= t < j implies #[trigger] taken(perm, s, t) by {
                        assert(taken(perm, s + 1, t));
                    }
                }
            } else {
                assert(all_taken(perm, s, i, j)) by {
                    assert forall|t: int| i <= t < j implies #[trigger] taken(perm, s, t) by {
                        assert(taken(perm, s + 1, t));
                    }
                }
            }
        } else {
            let t = choose|t: int| i <= t < j && !#[trigger] taken(perm, s + 1, t);
            assert(!taken(perm, s, t));
            assert(!all_taken(perm, s, i, j));
            assert(a != b);
            if merged_i && merged_j {
                if a == l {
                    assert(b == r);
                    assert(i <= t0 < j);
                    if t < t0 {
                        assert(taken(perm, s, t));
                    } else {
                        assert(t0 + 1 <= t);
                        assert(taken(perm, s, t));
                    }
                } else {
                    assert(a == r && b == l);
                }
            }
        }
    }
}

proof fn lemma_merged_count(
    n: nat,
    left: Seq<usize>,
    right: Seq<usize>,
    s: nat,
    c: int,
)
    requires
        left[s as int] != right[s as int],
        left[s as int] < n + s,
        right[s as int] < n + s,
    ensures
        c == n + s ==> counting::count(n, held(n, left, right, s + 1, c)) == counting::count(
            n,
            held(n, left, right, s, left[s as int] as int),
        ) + counting::count(n, held(n, left, right, s, right[s as int] as int)),
        c != n + s && c != left[s as int] && c != right[s as int] ==> counting::count(
            n,
            held(n, left, right, s + 1, c),
        ) == counting::count(n, held(n, left, right, s, c)),
{
    let after = held(n, left, right, s + 1, c);
    let l = left[s as int] as int;
    let r = right[s as int] as int;
    if c == n + s {
        let in_l = held(n, left, right, s, l);
        let in_r = held(n, left, right, s, r);
        counting::lemma_count_split(n, after, in_l);
        let a = |i: int| after(i) && in_l(i);
        let b = |i: int| after(i) && !in_l(i);
        assert forall|v: int| 0 <= v < n implies #[trigger] a(v) == in_l(v) by {}
        counting::lemma_count_agree(n, a, in_l);
        assert forall|v: int| 0 <= v < n implies #[trigger] b(v) == in_r(v) by {
            lemma_top_older(n, left, right, s, v);
        }
        counting::lemma_count_agree(n, b, in_r);
    } else if c != l && c != r {
        let before = held(n, left, right, s, c);
        assert forall|v: int| 0 <= v < n implies #[trigger] after(v) == before(v) by {}
        counting::lemma_count_agree(n, after, before);
    }
}

proof fn lemma_all_points(n: nat, p: spec_fn(int) -> bool)
    requires
        forall|v: int| 0 <= v < n ==> #[trigger] p(v),
    ensures
        counting::count(n, p) == n,
    decreases n,
{
    if n > 0 {
        lemma_all_points((n - 1) as nat, p);
        assert(p(n - 1));
    }
}

proof fn lemma_single_point(n: nat, c: int)
    requires
        0 <= c < n,
    ensures
        counting::count(n, |v: int| v == c) == 1,
{
    let none = |v: int| false;
    let p = |v: int| v == c;
    counting::lemma_count_zero(n, none);
    counting::lemma_count_one_more(n, none, p, c);
}

proof fn lemma_held_initially(n: nat, left: Seq<usize>, right: Seq<usize>, c: int)
    requires
        0 <= c < n,
    ensures
        counting::count(n, held(n, left, right, 0, c)) == 1,
{
    lemma_single_point(n, c);
    counting::lemma_count_agree(n, held(n, left, right, 0, c), |v: int| v == c);
}

proof fn lemma_held_prefix(
    n: nat,
    left: Seq<usize>,
    right: Seq<usize>,
    left2: Seq<usize>,
    right2: Seq<usize>,
    s: nat,
    c: int,
)
    requires
        s <= left.len(),
        s <= right.len(),
        left.len() <= left2.len(),
        right.len() <= right2.len(),
        forall|q: int| 0 <= q < left.len() ==> left[q] == #[trigger] left2[q],
        forall|q: int| 0 <= q < right.len() ==> right[q] == #[trigger] right2[q],
    ensures
        counting::count(n, held(n, left, right, s, c)) == counting::count(
            n,
            held(n, left2, right2, s, c),
        ),
{
    let (p, q) = (held(n, left, right, s, c), held(n, left2, right2, s, c));
    assert forall|v: int| 0 <= v < n implies #[trigger] p(v) == q(v) by {
        lemma_top_prefix(n, left, right, left2, right2, s, v);
    }
    counting::lemma_count_agree(n, p, q);
}

proof fn lemma_merges_prefix(
    n: nat,
    order: Seq<usize>,
    weight: Seq<i64>,
    perm: Seq<usize>,
    left: Seq<usize>,
    right: Seq<usize>,
    dist: Seq<i64>,
    sizes: Seq<usize>,
    l: usize,
    r: usize,
    d: i64,
    z: usize,
    q: int,
)
    requires
        0 <= q < left.len(),
        left.len() == right.len(),
        left.len() == dist.len(),
        left.len() == sizes.len(),
        merges_edge(n, order, weight, perm, left, right, dist, sizes, q),
    ensures
        merges_edge(
            n,
            order,
            weight,
            perm,
            left.push(l),
            right.push(r),
            dist.push(d),
            sizes.push(z),
            q,
        ),
{
    let t = perm[q] as int;
    lemma_top_prefix(n, left, right, left.push(l), right.push(r), q as nat, order[t] as int);
    lemma_top_prefix(n, left, right, left.push(l), right.push(r), q as nat, order[t + 1] as int);
    lemma_held_prefix(n, left, right, left.push(l), right.push(r), (q + 1) as nat, n + q);
}

/// The nodes joined so far are different and older than the one they make, which holds as many
/// points as they do together.
spec fn hierarchy_so_far(n: nat, left: Seq<usize>, right: Seq<usize>, sizes: Seq<usize>) -> bool {
    forall|s: int|
        0 <= s < left.len() ==> {
            &&& #[trigger] left[s] < n + s
            &&& right[s] < n + s
            &&& left[s] != right[s]
            &&& sizes[s] == size_of(n, sizes, left[s] as int) + size_of(n, sizes, right[s] as int)
        }
}

/// Parents of the nodes made so far, those below `bound`, are among them; the others have none.
#[verifier::opaque]
spec fn within(n: nat, parent: Seq<usize>, bound: int) -> bool {
    &&& parent.len() == 2 * n - 1
    &&& is_forest(parent)
    &&& forall|y: int| bound <= y < parent.len() ==> #[trigger] parent[y] == usize::MAX
    &&& forall|y: int|
        0 <= y < bound && #[trigger] parent[y] != usize::MAX ==> parent[y] < bound
}

/// The chain of parents of a point ends at the node that holds it after `s` merges.
#[verifier::opaque]
spec fn tracks(
    n: nat,
    parent: Seq<usize>,
    left: Seq<usize>,
    right: Seq<usize>,
    s: nat,
) -> bool {
    forall|v: int| 0 <= v < n ==> #[trigger] root_of(parent, v) == top(n, left, right, s, v)
}

/// `size` has the number of points of every node made so far.
#[verifier::opaque]
spec fn sized(
    n: nat,
    parent: Seq<usize>,
    size: Seq<usize>,
    left: Seq<usize>,
    right: Seq<usize>,
    sizes: Seq<usize>,
    s: nat,
) -> bool {
    &&& size.len() == 2 * n - 1
    &&& forall|c: int| 0 <= c < n + s ==> #[trigger] size[c] == size_of(n, sizes, c)
    &&& forall|c: int|
        0 <= c < n + s && parent[c] == usize::MAX ==> size[c] == #[trigger] counting::count(
            n,
            held(n, left, right, s, c),
        )
}

/// The merges made so far are those that `links` asks for.
#[verifier::opaque]
spec fn merged(
    n: nat,
    order: Seq<usize>,
    weight: Seq<i64>,
    perm: Seq<usize>,
    left: Seq<usize>,
    right: Seq<usize>,
    dist: Seq<i64>,
    sizes: Seq<usize>,
) -> bool {
    forall|q: int|
        0 <= q < left.len() ==> #[trigger] merges_edge(
            n,
            order,
            weight,
            perm,
            left,
            right,
            dist,
            sizes,
            q,
        )
}

proof fn lemma_chain_below(parent: Seq<usize>, y: int, bound: int, k: nat)
    requires
        is_forest(parent),
        0 <= y < bound <= parent.len(),
        forall|x: int|
            0 <= x < bound && #[trigger] parent[x] != usize::MAX ==> parent[x] < bound,
    ensures
        0 <= climb(parent, y, k) < bound,
    decreases k,
{
    if k > 0 && parent[y] != usize::MAX {
        lemma_chain_below(parent, parent[y] as int, bound, (k - 1) as nat);
    }
}

/// `after` has the same chain ends as `before`; a parent that changed became such an end.
spec fn same_roots(before: Seq<usize>, after: Seq<usize>) -> bool {
    &&& before.len() == after.len()
    &&& forall|y: int|
        0 <= y < before.len() ==> #[trigger] root_of(after, y) == root_of(before, y)
    &&& forall|y: int|
        0 <= y < before.len() ==> #[trigger] after[y] == before[y] || after[y] == root_of(before, y)
}

proof fn lemma_same_ends(before: Seq<usize>, after: Seq<usize>, c: int)
    requires
        same_roots(before, after),
        is_forest(before),
        is_forest(after),
        0 <= c < before.len(),
    ensures
        before[c] == usize::MAX <==> after[c] == usize::MAX,
{
    lemma_root(before, c);
    lemma_root(after, c);
    assert(root_of(after, c) == root_of(before, c));
}

/// Shortened chains stay within the nodes made so far.
proof fn lemma_within_same_roots(n: nat, before: Seq<usize>, after: Seq<usize>, bound: int)
    requires
        within(n, before, bound),
        same_roots(before, after),
        is_forest(after),
        2 * n <= usize::MAX,
        0 <= bound <= 2 * n - 1,
    ensures
        within(n, after, bound),
{
    reveal(within);
    assert forall|y: int| bound <= y < after.len() implies #[trigger] after[y] == usize::MAX by {
        lemma_same_ends(before, after, y);
    }
    assert forall|y: int| 0 <= y < bound && #[trigger] after[y] != usize::MAX implies after[y]
        < bound by {
        assert(after[y] == before[y] || after[y] == root_of(before, y));
        let k = choose|k: nat| is_end(before, #[trigger] climb(before, y, k));
        lemma_chain_below(before, y, bound, k);
        lemma_same_ends(before, after, y);
    }
}

/// Two chain ends get the next node as their parent.
proof fn lemma_within_join(n: nat, parent: Seq<usize>, ca: int, cb: int, node: int)
    requires
        within(n, parent, node),
        2 * n <= usize::MAX,
        0 <= ca < node,
        0 <= cb < node,
        node < 2 * n - 1,
        ca != cb,
        parent[ca] == usize::MAX,
        parent[cb] == usize::MAX,
    ensures
        within(n, parent.update(ca, node as usize).update(cb, node as usize), node + 1),
        forall|v: int|
            0 <= v < 2 * n - 1 ==> #[trigger] root_of(
                parent.update(ca, node as usize).update(cb, node as usize),
                v,
            ) == (if root_of(parent, v) == ca || root_of(parent, v) == cb {
                node
            } else {
                root_of(parent, v)
            }),
{
    reveal(within);
    let p1 = parent.update(ca, node as usize);
    let p2 = p1.update(cb, node as usize);
    lemma_attach(parent, ca, node);
    lemma_attach(p1, cb, node);
    assert forall|v: int| 0 <= v < 2 * n - 1 implies #[trigger] root_of(p2, v) == (if root_of(
        parent,
        v,
    ) == ca || root_of(parent, v) == cb {
        node
    } else {
        root_of(parent, v)
    }) by {
        assert(root_of(p1, v) == (if root_of(parent, v) == ca {
            node
        } else {
            root_of(parent, v)
        }));
    }
}

proof fn lemma_tracks_join(
    n: nat,
    parent: Seq<usize>,
    left: Seq<usize>,
    right: Seq<usize>,
    s: nat,
    ca: usize,
    cb: usize,
)
    requires
        n > 0,
        s < n - 1,
        within(n, parent, (n + s) as int),
        2 * n <= usize::MAX,
        ca != cb,
        ca < n + s,
        cb < n + s,
        parent[ca as int] == usize::MAX,
        parent[cb as int] == usize::MAX,
        left.len() == s,
        right.len() == s,
        tracks(n, parent, left, right, s),
    ensures
        tracks(
            n,
            parent.update(ca as int, (n + s) as usize).update(cb as int, (n + s) as usize),
            left.push(ca),
            right.push(cb),
            s + 1,
        ),
{
    reveal(tracks);
    lemma_within_join(n, parent, ca as int, cb as int, (n + s) as int);
    let p2 = parent.update(ca as int, (n + s) as usize).update(cb as int, (n + s) as usize);
    assert forall|v: int| 0 <= v < n implies #[trigger] root_of(p2, v) == top(
        n,
        left.push(ca),
        right.push(cb),
        s + 1,
        v,
    ) by {
        lemma_top_prefix(n, left, right, left.push(ca), right.push(cb), s, v);
        assert(root_of(parent, v) == top(n, left, right, s, v));
    }
}

proof fn lemma_sized_join(
    n: nat,
    parent: Seq<usize>,
    size: Seq<usize>,
    left: Seq<usize>,
    right: Seq<usize>,
    sizes: Seq<usize>,
    s: nat,
    ca: usize,
    cb: usize,
)
    requires
        n > 0,
        s < n - 1,
        parent.len() == 2 * n - 1,
        2 * n <= usize::MAX,
        ca != cb,
        ca < n + s,
        cb < n + s,
        parent[ca as int] == usize::MAX,
        parent[cb as int] == usize::MAX,
        left.len() == s,
        right.len() == s,
        sizes.len() == s,
        sized(n, parent, size, left, right, sizes, s),
    ensures
        size[ca as int] + size[cb as int] == counting::count(
            n,
            held(n, left.push(ca), right.push(cb), s + 1, (n + s) as int),
        ),
        size[ca as int] + size[cb as int] <= n,
        ({
            let total = (size[ca as int] + size[cb as int]) as usize;
            &&& sized(
                n,
                parent.update(ca as int, (n + s) as usize).update(cb as int, (n + s) as usize),
                size.update((n + s) as int, total),
                left.push(ca),
                right.push(cb),
                sizes.push(total),
                s + 1,
            )
            &&& total == size_of(n, sizes.push(total), ca as int) + size_of(
                n,
                sizes.push(total),
                cb as int,
            )
        }),
{
    reveal(sized);
    let (l1, r1) = (left.push(ca), right.push(cb));
    let node = (n + s) as int;
    lemma_merged_count(n, l1, r1, s, node);
    lemma_held_prefix(n, left, right, l1, r1, s, ca as int);
    lemma_held_prefix(n, left, right, l1, r1, s, cb as int);
    counting::lemma_count_bound(n, held(n, l1, r1, s + 1, node));
    assert(size[ca as int] == counting::count(n, held(n, left, right, s, ca as int)));
    assert(size[cb as int] == counting::count(n, held(n, left, right, s, cb as int)));
    let total = (size[ca as int] + size[cb as int]) as usize;
    let p2 = parent.update(ca as int, node as usize).update(cb as int, node as usize);
    let size2 = size.update(node, total);
    let sizes2 = sizes.push(total);
    assert forall|c: int| 0 <= c < n + s + 1 implies #[trigger] size2[c] == size_of(
        n,
        sizes2,
        c,
    ) by {
        if c < node {
            assert(size[c] == size_of(n, sizes, c));
        }
    }
    assert forall|c: int| 0 <= c < n + s + 1 && p2[c] == usize::MAX implies size2[c]
        == #[trigger] counting::count(n, held(n, l1, r1, s + 1, c)) by {
        lemma_merged_count(n, l1, r1, s, c);
        if c < node {
            lemma_held_prefix(n, left, right, l1, r1, s, c);
            assert(size[c] == counting::count(n, held(n, left, right, s, c)));
        }
    }
    assert(size2[ca as int] == size_of(n, sizes2, ca as int));
    assert(size2[cb as int] == size_of(n, sizes2, cb as int));
}

proof fn lemma_merged_join(
    n: nat,
    order: Seq<usize>,
    weight: Seq<i64>,
    perm: Seq<usize>,
    left: Seq<usize>,
    right: Seq<usize>,
    dist: Seq<i64>,
    sizes: Seq<usize>,
    ca: usize,
    cb: usize,
    d: i64,
    total: usize,
)
    requires
        left.len() == right.len(),
        left.len() == dist.len(),
        left.len() == sizes.len(),
        merged(n, order, weight, perm, left, right, dist, sizes),
        merges_edge(
            n,
            order,
            weight,
            perm,
            left.push(ca),
            right.push(cb),
            dist.push(d),
            sizes.push(total),
            left.len() as int,
        ),
    ensures
        merged(
            n,
            order,
            weight,
            perm,
            left.push(ca),
            right.push(cb),
            dist.push(d),
            sizes.push(total),
        ),
{
    reveal(merged);
    assert forall|q: int| 0 <= q < left.len() + 1 implies #[trigger] merges_edge(
        n,
        order,
        weight,
        perm,
        left.push(ca),
        right.push(cb),
        dist.push(d),
        sizes.push(total),
        q,
    ) by {
        if q < left.len() {
            assert(merges_edge(n, order, weight, perm, left, right, dist, sizes, q));
            lemma_merges_prefix(
                n,
                order,
                weight,
                perm,
                left,
                right,
                dist,
                sizes,
                ca,
                cb,
                d,
                total,
                q,
            );
        }
    }
}

proof fn lemma_joined_prefix(
    n: nat,
    left: Seq<usize>,
    right: Seq<usize>,
    order: Seq<usize>,
    perm: Seq<usize>,
    s: nat,
    ca: usize,
    cb: usize,
)
    requires
        left.len() == s,
        right.len() == s,
        joined_by_edges(n, left, right, order, perm, s),
    ensures
        joined_by_edges(n, left.push(ca), right.push(cb), order, perm, s),
{
    let (l1, r1) = (left.push(ca), right.push(cb));
    assert forall|i: int, j: int| 0 <= i <= j < n implies (#[trigger] top(
        n,
        l1,
        r1,
        s,
        order[i] as int,
    ) == #[trigger] top(n, l1, r1, s, order[j] as int) <==> all_taken(perm, s, i, j)) by {
        lemma_top_prefix(n, left, right, l1, r1, s, order[i] as int);
        lemma_top_prefix(n, left, right, l1, r1, s, order[j] as int);
    }
}

/// The merges made so far, and the nodes that hold the points.
struct Joining {
    left: Vec<usize>,
    right: Vec<usize>,
    dist: Vec<i64>,
    sizes: Vec<usize>,
    parent: Vec<usize>,
    size: Vec<usize>,
}

impl Joining {
    spec fn inv(
        self,
        order: Seq<usize>,
        weight: Seq<i64>,
        perm: Seq<usize>,
        s: nat,
    ) -> bool {
        let n = order.len();
        &&& self.left@.len() == s
        &&& self.right@.len() == s
        &&& self.dist@.len() == s
        &&& self.sizes@.len() == s
        &&& self.size@.len() == 2 * n - 1
        &&& within(n, self.parent@, (n + s) as int)
        &&& tracks(n, self.parent@, self.left@, self.right@, s)
        &&& sized(n, self.parent@, self.size@, self.left@, self.right@, self.sizes@, s)
        &&& joined_by_edges(n, self.left@, self.right@, order, perm, s)
        &&& hierarchy_so_far(n, self.left@, self.right@, self.sizes@)
        &&& merged(
            n,
            order,
            weight,
            perm,
            self.left@,
            self.right@,
            self.dist@,
            self.sizes@,
        )
    }

    fn start(n: usize, Ghost(order): Ghost<Seq<usize>>, Ghost(weight): Ghost<Seq<i64>>, Ghost(
        perm,
    ): Ghost<Seq<usize>>) -> (r: Self)
        requires
            0 < n,
            2 * n <= usize::MAX,
            order.len() == n,
            sorting::is_permutation(order, n as nat),
        ensures
            r.inv(order, weight, perm, 0),
    {
        let mut parent: Vec<usize> = Vec::with_capacity(2 * n - 1);
        let mut size: Vec<usize> = Vec::with_capacity(2 * n - 1);
        let mut x: usize = 0;
        while x < 2 * n - 1
            invariant
                x <= 2 * n - 1,
                0 < n,
                2 * n <= usize::MAX,
                parent@.len() == x,
                size@.len() == x,
                forall|y: int| 0 <= y < x ==> #[trigger] parent@[y] == usize::MAX,
                forall|y: int|
                    0 <= y < x ==> #[trigger] size@[y] == (if y < n {
                        1usize
                    } else {
                        0usize
                    }),
            decreases 2 * n - 1 - x,
        {
            parent.push(usize::MAX);
            size.push(
                if x < n {
                    1
                } else {
                    0
                },
            );
            x = x + 1;
        }
        let r = Joining {
            left: Vec::new(),
            right: Vec::new(),
            dist: Vec::new(),
            sizes: Vec::new(),
            parent,
            size,
        };
        proof {
            reveal(within);
            reveal(tracks);
            reveal(sized);
            reveal(merged);
            let (left, right) = (r.left@, r.right@);
            assert forall|y: int| 0 <= y < 2 * n - 1 implies #[trigger] chain_ends(r.parent@, y)
                && root_of(r.parent@, y) == y by {
                assert(is_end(r.parent@, climb(r.parent@, y, 0)));
                lemma_root_reached(r.parent@, y, 0);
            }
            assert forall|y: int| 0 <= y < n implies #[trigger] root_of(r.parent@, y) == y by {
                assert(chain_ends(r.parent@, y));
            }
            assert forall|i: int, j: int| 0 <= i <= j < n implies (#[trigger] top(
                n as nat,
                left,
                right,
                0,
                order[i] as int,
            ) == #[trigger] top(n as nat, left, right, 0, order[j] as int) <==> all_taken(
                perm,
                0,
                i,
                j,
            )) by {
                if i < j {
                    assert(order[i] != order[j]);
                    assert(!taken(perm, 0, i));
                }
            }
            assert forall|c: int| 0 <= c < n implies r.size@[c] == #[trigger] counting::count(
                n as nat,
                held(n as nat, left, right, 0, c),
            ) by {
                lemma_held_initially(n as nat, left, right, c);
            }
        }
        r
    }

    fn join(&mut self, order: &Vec<usize>, weight: &Vec<i64>, perm: &Vec<usize>, s: usize)
        requires
            0 < order@.len(),
            2 * order@.len() <= usize::MAX,
            weight@.len() == order@.len() - 1,
            sorting::is_permutation(order@, order@.len()),
            sorting::is_permutation(perm@, (order@.len() - 1) as nat),
            s < order@.len() - 1,
            old(self).inv(order@, weight@, perm@, s as nat),
        ensures
            final(self).inv(order@, weight@, perm@, (s + 1) as nat),
    {
        let n: usize = order.len();
        let ghost nn = n as nat;
        let t: usize = perm[s];
        assert(order@[t as int] < n && order@[t + 1] < n);
        let a: usize = order[t];
        let b: usize = order[t + 1];
        let node: usize = n + s;
        let ghost (l0, r0) = (self.left@, self.right@);
        let ghost p0 = self.parent@;
        proof {
            reveal(within);
            lemma_top_older(nn, l0, r0, s as nat, a as int);
            lemma_top_older(nn, l0, r0, s as nat, b as int);
            lemma_root(p0, a as int);
            lemma_root(p0, b as int);
            assert(root_of(p0, a as int) == top(nn, l0, r0, s as nat, a as int) && root_of(
                p0,
                b as int,
            ) == top(nn, l0, r0, s as nat, b as int)) by {
                reveal(tracks);
            }
        }
        let ca: usize = uf_find(&mut self.parent, a);
        let ghost p1 = self.parent@;
        let cb: usize = uf_find(&mut self.parent, b);
        let ghost p2 = self.parent@;
        proof {
            assert(root_of(p1, b as int) == root_of(p0, b as int));
            assert(same_roots(p0, p2)) by {
                assert forall|y: int| 0 <= y < p0.len() implies #[trigger] root_of(p2, y)
                    == root_of(p0, y) by {
                    assert(root_of(p2, y) == root_of(p1, y));
                    assert(root_of(p1, y) == root_of(p0, y));
                }
                assert forall|y: int| 0 <= y < p0.len() implies #[trigger] p2[y] == p0[y] || p2[y]
                    == root_of(p0, y) by {
                    lemma_shortened_entry(p0, a as int, y);
                    lemma_shortened_entry(p1, b as int, y);
                    assert(root_of(p1, y) == root_of(p0, y));
                }
            }
            lemma_within_same_roots(nn, p0, p2, node as int);
            lemma_same_ends(p0, p2, ca as int);
            lemma_same_ends(p0, p2, cb as int);
            assert(tracks(nn, p2, l0, r0, s as nat)) by {
                reveal(tracks);
                assert forall|v: int| 0 <= v < n implies #[trigger] root_of(p2, v) == top(
                    nn,
                    l0,
                    r0,
                    s as nat,
                    v,
                ) by {
                    assert(root_of(p0, v) == top(nn, l0, r0, s as nat, v));
                }
            }
            assert(sized(nn, p2, self.size@, l0, r0, self.sizes@, s as nat)) by {
                reveal(sized);
                assert forall|c: int| 0 <= c < n + s && p2[c] == usize::MAX implies self.size@[c]
                    == #[trigger] counting::count(nn, held(nn, l0, r0, s as nat, c)) by {
                    lemma_same_ends(p0, p2, c);
                }
            }
            let (l1, r1) = (l0.push(ca), r0.push(cb));
            lemma_top_prefix(nn, l0, r0, l1, r1, s as nat, a as int);
            lemma_top_prefix(nn, l0, r0, l1, r1, s as nat, b as int);
            lemma_joined_prefix(nn, l0, r0, order@, perm@, s as nat, ca, cb);
            lemma_join_step(nn, l1, r1, order@, perm@, s as nat);
            lemma_within_join(nn, p2, ca as int, cb as int, node as int);
            lemma_tracks_join(nn, p2, l0, r0, s as nat, ca, cb);
            lemma_sized_join(nn, p2, self.size@, l0, r0, self.sizes@, s as nat, ca, cb);
        }
        let total: usize = self.size[ca] + self.size[cb];
        let ghost (d0, z0) = (self.dist@, self.sizes@);
        self.left.push(ca);
        self.right.push(cb);
        self.dist.push(weight[t]);
        self.sizes.push(total);
        self.parent[ca] = node;
        self.parent[cb] = node;
        self.size[node] = total;
        proof {
            lemma_merged_join(
                nn,
                order@,
                weight@,
                perm@,
                l0,
                r0,
                d0,
                z0,
                ca,
                cb,
                weight@[t as int],
                total,
            );
            assert forall|q: int| 0 <= q < self.left@.len() implies {
                &&& #[trigger] self.left@[q] < n + q
                &&& self.right@[q] < n + q
                &&& self.left@[q] != self.right@[q]
                &&& self.sizes@[q] == size_of(nn, self.sizes@, self.left@[q] as int) + size_of(
                    nn,
                    self.sizes@,
                    self.right@[q] as int,
                )
            } by {
                if q < s {
                    assert(l0[q] < n + q);
                }
            }
        }
    }
}

/// The merge tree that takes the edges between neighbours in `order` by ascending weight, edges of
/// equal weight in their given order.
pub fn link_edges(order: &Vec<usize>, weight: &Vec<i64>) -> (link: Linkage)
    requires
        order@.len() > 0,
        2 * order@.len() <= usize::MAX,
        weight@.len() == order@.len() - 1,
        sorting::is_permutation(order@, order@.len()),
    ensures
        exists|perm: Seq<usize>| #[trigger]
            sorting::is_stable_order(weight@, perm) && links(
                order@.len(),
                order@,
                weight@,
                perm,
                link,
            ),
        is_hierarchy(order@.len(), link.left@, link.right@, link.sizes@),
{
    let n: usize = order.len();
    let perm = sorting::stable_order(weight.as_slice());
    let mut state = Joining::start(n, Ghost(order@), Ghost(weight@), Ghost(perm@));
    let mut s: usize = 0;
    while s < n - 1
        invariant
            s <= n - 1,
            0 < n,
            n == order@.len(),
            2 * n <= usize::MAX,
            weight@.len() == n - 1,
            sorting::is_permutation(order@, n as nat),
            sorting::is_permutation(perm@, (n - 1) as nat),
            state.inv(order@, weight@, perm@, s as nat),
        decreases n - 1 - s,
    {
        state.join(order, weight, &perm, s);
        s = s + 1;
    }
    let link = Linkage {
        left: state.left,
        right: state.right,
        dist: state.dist,
        sizes: state.sizes,
    };
    proof {
        assert(links(n as nat, order@, weight@, perm@, link)) by {
            reveal(merged);
        }
        if n > 1 {
            lemma_root_holds_all(n as nat, order@, weight@, perm@, link);
        }
    }
    link
}

proof fn lemma_root_holds_all(
    n: nat,
    order: Seq<usize>,
    weight: Seq<i64>,
    perm: Seq<usize>,
    link: Linkage,
)
    requires
        n > 1,
        order.len() == n,
        sorting::is_permutation(order, n),
        sorting::is_permutation(perm, (n - 1) as nat),
        links(n, order, weight, perm, link),
        joined_by_edges(n, link.left@, link.right@, order, perm, (n - 1) as nat),
    ensures
        link.sizes@[n - 2] == n,
{
    let m = (n - 1) as nat;
    let (left, right) = (link.left@, link.right@);
    let all = held(n, left, right, m, 2 * n - 2);
    assert(merges_edge(n, order, weight, perm, left, right, link.dist@, link.sizes@, n - 2));
    let t = perm[n - 2] as int;
    assert(order[t] < n && order[t + 1] < n);
    assert forall|i: int, j: int| 0 <= i <= j < n implies #[trigger] all_taken(perm, m, i, j) by {
        assert forall|e: int| i <= e < j implies #[trigger] taken(perm, m, e) by {
            sorting::lemma_permutation_onto(perm, m, e);
        }
    }
    assert(top(n, left, right, m, order[t] as int) == 2 * n - 2);
    assert forall|v: int| 0 <= v < n implies #[trigger] all(v) by {
        sorting::lemma_permutation_onto(order, n, v);
        let i = choose|i: int| 0 <= i < n && #[trigger] order[i] == v;
        if i <= t {
            assert(all_taken(perm, m, i, t));
        } else {
            assert(all_taken(perm, m, t, i));
        }
    }
    lemma_all_points(n, all);
}

/// The single-linkage tree over a matrix of distances: the edges of the tree that `grow_tree` grows,
/// taken by ascending weight.
pub fn mst_single_linkage(mr: &Vec<Vec<i64>>) -> (link: Linkage)
    requires
        mr@.len() > 0,
        2 * mr@.len() <= usize::MAX,
        is_square(mr@, mr@.len()),
    ensures
        exists|order: Seq<usize>, weight: Seq<i64>, perm: Seq<usize>| #[trigger]
            is_growth(mr@, mr@.len(), order, weight, (mr@.len() - 1) as nat) && #[trigger]
            sorting::is_stable_order(weight, perm) && links(mr@.len(), order, weight, perm, link),
        is_hierarchy(mr@.len(), link.left@, link.right@, link.sizes@),
{
    let (order, weight) = grow_tree(mr);
    link_edges(&order, &weight)
}

/// Points that one node holds stay together.
pub proof fn lemma_still_held(
    n: nat,
    left: Seq<usize>,
    right: Seq<usize>,
    q: nat,
    s: nat,
    v: int,
    w: int,
)
    requires
        q <= s,
        top(n, left, right, q, v) == top(n, left, right, q, w),
    ensures
        top(n, left, right, s, v) == top(n, left, right, s, w),
    decreases s - q,
{
    if q < s {
        lemma_still_held(n, left, right, q, (s - 1) as nat, v, w);
    }
}

/// A point held by the node of merge `q` at some later time was held by it when it was made.
pub proof fn lemma_held_since(n: nat, left: Seq<usize>, right: Seq<usize>, q: nat, s: nat, v: int)
    requires
        q < s,
        0 <= v < n,
        top(n, left, right, s, v) == n + q,
    ensures
        top(n, left, right, (q + 1) as nat, v) == n + q,
    decreases s,
{
    if q + 1 < s {
        lemma_held_since(n, left, right, q, (s - 1) as nat, v);
    }
}

/// A point that is still a node of its own is the only one in it.
pub proof fn lemma_point_before(n: nat, left: Seq<usize>, right: Seq<usize>, s: nat, v: int, c: int)
    requires
        0 <= v < n,
        0 <= c < n,
        top(n, left, right, s, v) == c,
    ensures
        v == c,
    decreases s,
{
    if s > 0 {
        lemma_point_before(n, left, right, (s - 1) as nat, v, c);
    }
}

/// The mutual reachability of two points is the least that is no smaller than their distance and the
/// core distance of either.
pub proof fn lemma_reachability(d: Seq<Vec<i64>>, core: Seq<i64>, i: int, j: int)
    ensures
        ({
            let m = reachability(d, core, i, j);
            &&& m >= core[i] && m >= core[j] && m >= d[i]@[j]
            &&& m == core[i] || m == core[j] || m == d[i]@[j]
        }),
{
}

/// Step `i` of a path of points is no longer than `t`.
pub open spec fn is_hop(mr: Seq<Vec<i64>>, t: i64, path: Seq<int>, i: int) -> bool {
    mr[path[i]]@[path[i + 1]] <= t
}

/// A path of points with no step longer than `t` leads from `u` to `w`.
pub open spec fn is_trail(mr: Seq<Vec<i64>>, n: nat, t: i64, path: Seq<int>, u: int, w: int) -> bool {
    &&& path.len() > 0
    &&& path[0] == u
    &&& path[path.len() - 1] == w
    &&& forall|i: int| 0 <= i < path.len() ==> 0 <= #[trigger] path[i] < n
    &&& forall|i: int| 0 <= i < path.len() - 1 ==> #[trigger] is_hop(mr, t, path, i)
}

/// Two points are connected by steps no longer than `t`.
pub open spec fn connected(mr: Seq<Vec<i64>>, n: nat, t: i64, u: int, w: int) -> bool {
    exists|path: Seq<int>| #[trigger] is_trail(mr, n, t, path, u, w)
}

proof fn lemma_trail_back(mr: Seq<Vec<i64>>, n: nat, t: i64, u: int, w: int)
    requires
        connected(mr, n, t, u, w),
        forall|a: int, b: int|
            0 <= a < n && 0 <= b < n ==> #[trigger] mr[a]@[b] == mr[b]@[a],
    ensures
        connected(mr, n, t, w, u),
{
    let path = choose|path: Seq<int>| #[trigger] is_trail(mr, n, t, path, u, w);
    let back = Seq::new(path.len(), |i: int| path[path.len() - 1 - i]);
    assert forall|i: int| 0 <= i < back.len() implies 0 <= #[trigger] back[i] < n by {
        assert(0 <= path[path.len() - 1 - i] < n);
    }
    assert forall|i: int| 0 <= i < back.len() - 1 implies #[trigger] is_hop(mr, t, back, i) by {
        let j = path.len() - 2 - i;
        assert(is_hop(mr, t, path, j));
        let (a, b) = (path[j], path[j + 1]);
        assert(mr[a]@[b] == mr[b]@[a]);
    }
    assert(is_trail(mr, n, t, back, w, u));
}

proof fn lemma_trail_on(mr: Seq<Vec<i64>>, n: nat, t: i64, u: int, w: int, x: int)
    requires
        connected(mr, n, t, u, w),
        0 <= x < n,
        mr[w]@[x] <= t,
    ensures
        connected(mr, n, t, u, x),
{
    let path = choose|path: Seq<int>| #[trigger] is_trail(mr, n, t, path, u, w);
    let on = path.push(x);
    assert forall|i: int| 0 <= i < on.len() - 1 implies #[trigger] is_hop(mr, t, on, i) by {
        if i < path.len() - 1 {
            assert(is_hop(mr, t, path, i));
        }
    }
    assert(is_trail(mr, n, t, on, u, x));
}

proof fn lemma_reach_attained(mr: Seq<Vec<i64>>, order: Seq<usize>, t: int, v: int) -> (s: int)
    requires
        0 <= t < order.len(),
    ensures
        0 <= s <= t,
        reach(mr, order, t, v) == mr[order[s] as int]@[v],
    decreases t,
{
    if t <= 0 {
        t
    } else {
        let here = mr[order[t] as int]@[v];
        if here < reach(mr, order, t - 1, v) {
            t
        } else {
            lemma_reach_attained(mr, order, t - 1, v)
        }
    }
}

proof fn lemma_reach_least(mr: Seq<Vec<i64>>, order: Seq<usize>, t: int, v: int, s: int)
    requires
        0 <= s <= t < order.len(),
    ensures
        reach(mr, order, t, v) <= mr[order[s] as int]@[v],
    decreases t,
{
    if s < t {
        lemma_reach_least(mr, order, t - 1, v, s);
    }
}

/// A step between two visited points is as long as any of the visits from one to the other.
proof fn lemma_step_spans(
    mr: Seq<Vec<i64>>,
    n: nat,
    order: Seq<usize>,
    weight: Seq<i64>,
    s: int,
    j: int,
    q: int,
)
    requires
        n > 0,
        is_growth(mr, n, order, weight, (n - 1) as nat),
        0 <= s <= q < j < n,
    ensures
        weight[q] <= mr[order[s] as int]@[order[j] as int],
{
    let v = order[j] as int;
    assert(is_nearest_outside(mr, order, q, n as int, order[q + 1] as int));
    assert(outside(order, q + 1, v)) by {
        assert forall|k: int| 0 <= k < q + 1 implies #[trigger] order[k] != v by {
            assert(order[k] != order[j]);
        }
    }
    assert(order[j] < n);
    lemma_reach_least(mr, order, q, v, s);
}

proof fn lemma_visits_connect(
    mr: Seq<Vec<i64>>,
    n: nat,
    order: Seq<usize>,
    weight: Seq<i64>,
    t: i64,
    i: int,
    j: int,
)
    requires
        n > 0,
        is_growth(mr, n, order, weight, (n - 1) as nat),
        forall|a: int, b: int|
            0 <= a < n && 0 <= b < n ==> #[trigger] mr[a]@[b] == mr[b]@[a],
        0 <= i <= j < n,
        forall|q: int| i <= q < j ==> #[trigger] weight[q] <= t,
    ensures
        connected(mr, n, t, order[i] as int, order[j] as int),
    decreases j,
{
    if i == j {
        let u = order[i] as int;
        assert(order[i] < n);
        assert(is_trail(mr, n, t, seq![u], u, u));
    } else {
        let v = order[j] as int;
        assert(order[j] < n);
        assert(is_nearest_outside(mr, order, j - 1, n as int, order[j - 1 + 1] as int));
        let s = lemma_reach_attained(mr, order, j - 1, v);
        assert(weight[j - 1] <= t);
        if s >= i {
            lemma_visits_connect(mr, n, order, weight, t, i, s);
            lemma_trail_on(mr, n, t, order[i] as int, order[s] as int, v);
        } else {
            assert forall|q: int| s <= q < i implies #[trigger] weight[q] <= t by {
                lemma_step_spans(mr, n, order, weight, s, j, q);
            }
            lemma_visits_connect(mr, n, order, weight, t, s, i);
            lemma_trail_back(mr, n, t, order[s] as int, order[i] as int);
            lemma_trail_on(mr, n, t, order[i] as int, order[s] as int, v);
        }
    }
}

proof fn lemma_trail_crosses(
    mr: Seq<Vec<i64>>,
    n: nat,
    order: Seq<usize>,
    weight: Seq<i64>,
    t: i64,
    path: Seq<int>,
    i: int,
    j: int,
    q: int,
)
    requires
        n > 0,
        is_growth(mr, n, order, weight, (n - 1) as nat),
        forall|a: int, b: int|
            0 <= a < n && 0 <= b < n ==> #[trigger] mr[a]@[b] == mr[b]@[a],
        0 <= i <= q < j < n,
        is_trail(mr, n, t, path, order[i] as int, order[j] as int),
    ensures
        weight[q] <= t,
    decreases path.len(),
{
    if path.len() == 1 {
        assert(order[i] != order[j]);
    } else {
        let x = path[1];
        assert(0 <= path[1] < n);
        assert(is_hop(mr, t, path, 0));
        assert(sorting::is_permutation(order, n)) by {
            assert forall|a: int| 0 <= a < n implies #[trigger] order[a] < n by {}
        }
        sorting::lemma_permutation_onto(order, n, x);
        let k = choose|k: int| 0 <= k < n && #[trigger] order[k] == x;
        if k > q {
            lemma_step_spans(mr, n, order, weight, i, k, q);
        } else {
            let rest = path.subrange(1, path.len() as int);
            assert forall|a: int| 0 <= a < rest.len() implies 0 <= #[trigger] rest[a] < n by {
                assert(0 <= path[a + 1] < n);
            }
            assert forall|a: int| 0 <= a < rest.len() - 1 implies #[trigger] is_hop(
                mr,
                t,
                rest,
                a,
            ) by {
                assert(is_hop(mr, t, path, a + 1));
            }
            assert(is_trail(mr, n, t, rest, x, order[j] as int));
            lemma_trail_crosses(mr, n, order, weight, t, rest, k, j, q);
        }
    }
}

proof fn lemma_links_joined(
    n: nat,
    order: Seq<usize>,
    weight: Seq<i64>,
    perm: Seq<usize>,
    link: Linkage,
    s: nat,
)
    requires
        n > 0,
        order.len() == n,
        sorting::is_permutation(order, n),
        sorting::is_permutation(perm, (n - 1) as nat),
        links(n, order, weight, perm, link),
        s <= n - 1,
    ensures
        joined_by_edges(n, link.left@, link.right@, order, perm, s),
    decreases s,
{
    let (left, right) = (link.left@, link.right@);
    if s == 0 {
        assert forall|i: int, j: int| 0 <= i <= j < n implies (#[trigger] top(
            n,
            left,
            right,
            0,
            order[i] as int,
        ) == #[trigger] top(n, left, right, 0, order[j] as int) <==> all_taken(perm, 0, i, j)) by {
            if i < j {
                assert(order[i] != order[j]);
                assert(!taken(perm, 0, i));
            }
        }
    } else {
        let m = (s - 1) as nat;
        lemma_links_joined(n, order, weight, perm, link, m);
        assert(merges_edge(n, order, weight, perm, left, right, link.dist@, link.sizes@, m as int));
        assert forall|i: int| 0 <= i < n implies #[trigger] order[i] < n by {}
        lemma_join_step(n, left, right, order, perm, m);
    }
}

/// What a single-linkage tree is: once all merges up to a distance are made, and no other, two points
/// are in one node exactly if a path of points leads from one to the other by steps that are no longer.
pub proof fn lemma_single_linkage(
    mr: Seq<Vec<i64>>,
    n: nat,
    order: Seq<usize>,
    weight: Seq<i64>,
    perm: Seq<usize>,
    link: Linkage,
    t: i64,
    s: nat,
    u: int,
    w: int,
)
    requires
        n > 0,
        is_growth(mr, n, order, weight, (n - 1) as nat),
        sorting::is_stable_order(weight, perm),
        links(n, order, weight, perm, link),
        forall|a: int, b: int|
            0 <= a < n && 0 <= b < n ==> #[trigger] mr[a]@[b] == mr[b]@[a],
        s <= n - 1,
        forall|q: int| 0 <= q < s ==> #[trigger] link.dist@[q] <= t,
        forall|q: int| s <= q < n - 1 ==> #[trigger] link.dist@[q] > t,
        0 <= u < n,
        0 <= w < n,
    ensures
        top(n, link.left@, link.right@, s, u) == top(n, link.left@, link.right@, s, w)
            <==> connected(mr, n, t, u, w),
{
    assert(sorting::is_permutation(order, n)) by {
        assert forall|a: int| 0 <= a < n implies #[trigger] order[a] < n by {}
    }
    sorting::lemma_stable_order_is_permutation(weight, perm);
    sorting::lemma_permutation_onto(order, n, u);
    sorting::lemma_permutation_onto(order, n, w);
    let a = choose|a: int| 0 <= a < n && #[trigger] order[a] == u;
    let b = choose|b: int| 0 <= b < n && #[trigger] order[b] == w;
    if a <= b {
        lemma_single_linkage_between(mr, n, order, weight, perm, link, t, s, a, b);
    } else {
        lemma_single_linkage_between(mr, n, order, weight, perm, link, t, s, b, a);
        if connected(mr, n, t, u, w) {
            lemma_trail_back(mr, n, t, u, w);
        }
        if connected(mr, n, t, w, u) {
            lemma_trail_back(mr, n, t, w, u);
        }
    }
}

proof fn lemma_single_linkage_between(
    mr: Seq<Vec<i64>>,
    n: nat,
    order: Seq<usize>,
    weight: Seq<i64>,
    perm: Seq<usize>,
    link: Linkage,
    t: i64,
    s: nat,
    i: int,
    j: int,
)
    requires
        n > 0,
        is_growth(mr, n, order, weight, (n - 1) as nat),
        sorting::is_permutation(order, n),
        sorting::is_permutation(perm, (n - 1) as nat),
        links(n, order, weight, perm, link),
        forall|a: int, b: int|
            0 <= a < n && 0 <= b < n ==> #[trigger] mr[a]@[b] == mr[b]@[a],
        s <= n - 1,
        forall|q: int| 0 <= q < s ==> #[trigger] link.dist@[q] <= t,
        forall|q: int| s <= q < n - 1 ==> #[trigger] link.dist@[q] > t,
        0 <= i <= j < n,
    ensures
        top(n, link.left@, link.right@, s, order[i] as int) == top(
            n,
            link.left@,
            link.right@,
            s,
            order[j] as int,
        ) <==> connected(mr, n, t, order[i] as int, order[j] as int),
{
    let (left, right) = (link.left@, link.right@);
    lemma_links_joined(n, order, weight, perm, link, s);
    assert forall|e: int| 0 <= e < n - 1 implies (#[trigger] taken(perm, s, e) <==> weight[e]
        <= t) by {
        sorting::lemma_permutation_onto(perm, (n - 1) as nat, e);
        let q = choose|q: int| 0 <= q < n - 1 && #[trigger] perm[q] == e;
        assert(merges_edge(n, order, weight, perm, left, right, link.dist@, link.sizes@, q));
        assert(link.dist@[q] == weight[e]);
        if taken(perm, s, e) {
            let p = choose|p: int| 0 <= p < s && #[trigger] perm[p] == e;
            if p != q {
                assert(perm[p] != perm[q]);
            }
            assert(link.dist@[p] <= t);
        }
    }
    assert(top(n, left, right, s, order[i] as int) == top(n, left, right, s, order[j] as int)
        <==> all_taken(perm, s, i, j));
    if all_taken(perm, s, i, j) {
        assert forall|q: int| i <= q < j implies #[trigger] weight[q] <= t by {
            assert(taken(perm, s, q));
        }
        lemma_visits_connect(mr, n, order, weight, t, i, j);
    }
    if connected(mr, n, t, order[i] as int, order[j] as int) {
        let path = choose|path: Seq<int>| #[trigger]
            is_trail(mr, n, t, path, order[i] as int, order[j] as int);
        assert forall|q: int| i <= q < j implies #[trigger] taken(perm, s, q) by {
            lemma_trail_crosses(mr, n, order, weight, t, path, i, j, q);
        }
    }
}

/// The merges of a single-linkage tree come by ascending distance.
pub proof fn lemma_merges_ascend(
    n: nat,
    order: Seq<usize>,
    weight: Seq<i64>,
    perm: Seq<usize>,
    link: Linkage,
    p: int,
    q: int,
)
    requires
        n > 0,
        weight.len() == n - 1,
        sorting::is_stable_order(weight, perm),
        links(n, order, weight, perm, link),
        0 <= p <= q < n - 1,
    ensures
        link.dist@[p] <= link.dist@[q],
{
    assert(merges_edge(n, order, weight, perm, link.left@, link.right@, link.dist@, link.sizes@, p));
    assert(merges_edge(n, order, weight, perm, link.left@, link.right@, link.dist@, link.sizes@, q));
    sorting::lemma_stable_order_ascends(weight, perm, p, q);
}

/// The core distance of a point is the smallest distance within which it has as many points as are
/// asked for, itself among them.
pub proof fn lemma_core_distance(d: Seq<Vec<i64>>, ms: nat, core: Seq<i64>, i: int, t: i64)
    requires
        are_core(d, ms, core),
        ms >= 1,
        0 <= i < d.len(),
    ensures
        counting::count(d[i]@.len(), |j: int| d[i]@[j] <= core[i]) >= ms,
        t < core[i] ==> counting::count(d[i]@.len(), |j: int| d[i]@[j] <= t) < ms,
        d[i]@.contains(core[i]),
{
    let row = d[i]@;
    assert(is_kth_smallest(d[i]@, (ms - 1) as nat, core[i]));
    if t < core[i] {
        counting::lemma_count_implies(
            row.len(),
            |j: int| row[j] <= t,
            |j: int| row[j] < core[i],
        );
    }
}

/// What becomes of the parents when the root of `start` is sought, `chain` being the nodes from there up
/// to the one without a parent: each of them but the last gets that last one as its parent, and all
/// other nodes keep theirs.
pub proof fn lemma_chain_shortened(parent: Seq<usize>, chain: Seq<int>, y: int)
    requires
        is_forest(parent),
        parent.len() <= usize::MAX,
        chain.len() > 0,
        forall|i: int| 0 <= i < chain.len() ==> 0 <= #[trigger] chain[i] < parent.len(),
        forall|i: int| 0 < i < chain.len() ==> parent[#[trigger] chain[i - 1]] == chain[i],
        parent[chain[chain.len() - 1]] == usize::MAX,
        0 <= y < parent.len(),
    ensures
        root_of(parent, chain[0]) == chain[chain.len() - 1],
        forall|i: int|
            0 <= i < chain.len() - 1 ==> shortened(parent, chain[0])[#[trigger] chain[i]]
                == chain[chain.len() - 1],
        (forall|i: int| 0 <= i < chain.len() - 1 ==> #[trigger] chain[i] != y) ==> shortened(
            parent,
            chain[0],
        )[y] == parent[y],
{
    let m = chain.len() - 1;
    let start = chain[0];
    assert forall|i: int| 0 <= i <= m implies #[trigger] chain[i] == climb(
        parent,
        start,
        i as nat,
    ) by {
        lemma_climbs_chain(parent, chain, i);
    }
    assert(chain[m] == climb(parent, start, m as nat));
    lemma_root_reached(parent, start, m as nat);
    assert forall|i: int| 0 <= i < m implies shortened(parent, start)[#[trigger] chain[i]]
        == chain[m] by {
        assert(climb(parent, start, i as nat) == chain[i]);
        assert(on_chain(parent, start, chain[i]));
        assert(parent[chain[i + 1 - 1]] == chain[i + 1]);
        assert(0 <= chain[i + 1] < parent.len());
        assert(!is_end(parent, chain[i]));
    }
    if forall|i: int| 0 <= i < m ==> #[trigger] chain[i] != y {
        if on_chain(parent, start, y) && !is_end(parent, y) {
            let k = choose|k: nat| #[trigger] climb(parent, start, k) == y;
            if k < m {
                assert(chain[k as int] == y);
            } else {
                lemma_climb_end(parent, start, m as nat, k);
            }
        }
    }
}

proof fn lemma_climbs_chain(parent: Seq<usize>, chain: Seq<int>, i: int)
    requires
        parent.len() <= usize::MAX,
        forall|j: int| 0 <= j < chain.len() ==> 0 <= #[trigger] chain[j] < parent.len(),
        forall|j: int| 0 < j < chain.len() ==> parent[#[trigger] chain[j - 1]] == chain[j],
        0 <= i < chain.len(),
    ensures
        chain[i] == climb(parent, chain[0], i as nat),
    decreases i,
{
    if i > 0 {
        lemma_climbs_chain(parent, chain, i - 1);
        assert(parent[chain[i - 1]] == chain[i]);
        assert(0 <= chain[i] < parent.len());
        lemma_climb_on(parent, chain[0], (i - 1) as nat, 1);
        assert(!is_end(parent, chain[i - 1]));
        assert(climb(parent, chain[i], 0) == chain[i]);
        assert(climb(parent, chain[i - 1], 1) == chain[i]);
    }
}

} // verus!
