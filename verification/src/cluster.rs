//! Flat clusters from a dendrogram.
//!
//! Heights are keys: whole numbers that order as the heights do, zero for height zero.

use crate::counting;
use crate::labels;
use crate::linkage;
use crate::text;
use vstd::arithmetic::power2::pow2;
use vstd::prelude::*;

verus! {

/// Linkage method.
#[derive(Clone, Copy, Debug, PartialEq, Eq, Structural)]
pub enum Method {
    Single,
    Complete,
    Average,
    Centroid,
    Ward,
}

impl Method {
    /// The name of the method.
    pub open spec fn name(self) -> Seq<char> {
        match self {
            Method::Single => "single"@,
            Method::Complete => "complete"@,
            Method::Average => "average"@,
            Method::Centroid => "centroid"@,
            Method::Ward => "ward"@,
        }
    }

    /// The method of the given name.
    pub fn parse(s: &str) -> (r: Option<Method>)
        ensures
            r matches Some(m) ==> s@ == m.name(),
            r is None ==> forall|m: Method| s@ != #[trigger] m.name(),
    {
        if text::same_text(s, "single") {
            Some(Method::Single)
        } else if text::same_text(s, "complete") {
            Some(Method::Complete)
        } else if text::same_text(s, "average") {
            Some(Method::Average)
        } else if text::same_text(s, "centroid") {
            Some(Method::Centroid)
        } else if text::same_text(s, "ward") {
            Some(Method::Ward)
        } else {
            None
        }
    }
}

/// No two methods have the same name.
pub proof fn lemma_method_names_distinct(a: Method, b: Method)
    ensures
        a.name() == b.name() ==> a == b,
{
    reveal_strlit("single");
    reveal_strlit("complete");
    reveal_strlit("average");
    reveal_strlit("centroid");
    reveal_strlit("ward");
    assert("single"@[0] == 's');
    assert("complete"@[1] == 'o');
    assert("average"@[0] == 'a');
    assert("centroid"@[1] == 'e');
    assert("ward"@[0] == 'w');
    assert("complete"@[0] == 'c');
    assert("centroid"@[0] == 'c');
}

/// Disjoint sets of the numbers `0..n`, each with a representative.
pub struct UnionFind {
    parent: Vec<usize>,
    rank: Vec<u8>,
    /// For every representative the size of its set.
    weight: Ghost<Seq<nat>>,
}

spec fn root_in(parent: Seq<usize>, rank: Seq<u8>, x: int) -> int
    decreases 256 - rank[x],
{
    if 0 <= x < parent.len() && parent[x] < parent.len() && rank[parent[x] as int] > rank[x] {
        root_in(parent, rank, parent[x] as int)
    } else {
        x
    }
}

/// Links lead to elements of higher rank and end at an element that is its own parent.
spec fn is_ranked(parent: Seq<usize>, rank: Seq<u8>) -> bool {
    &&& parent.len() == rank.len()
    &&& forall|x: int| 0 <= x < parent.len() ==> #[trigger] parent[x] < parent.len()
    &&& forall|x: int|
        0 <= x < parent.len() && #[trigger] parent[x] != x ==> rank[parent[x] as int] > rank[x]
}

/// The sum of the weights of the representatives below `n`.
spec fn total(parent: Seq<usize>, weight: Seq<nat>, n: nat) -> nat
    decreases n,
{
    if n == 0 {
        0
    } else {
        total(parent, weight, (n - 1) as nat) + (if parent[n - 1] == n - 1 {
            weight[n - 1]
        } else {
            0
        })
    }
}

/// A set of rank `r` has at least `2^r` elements, and the sets have `n` elements together.
spec fn is_weighted(parent: Seq<usize>, rank: Seq<u8>, weight: Seq<nat>) -> bool {
    &&& weight.len() == parent.len()
    &&& forall|x: int|
        0 <= x < parent.len() && #[trigger] parent[x] == x ==> weight[x] >= pow2(rank[x] as nat)
    &&& total(parent, weight, parent.len()) == parent.len()
}

proof fn lemma_root_in(parent: Seq<usize>, rank: Seq<u8>, x: int)
    requires
        is_ranked(parent, rank),
        0 <= x < parent.len(),
    ensures
        0 <= root_in(parent, rank, x) < parent.len(),
        parent[root_in(parent, rank, x)] == root_in(parent, rank, x),
        rank[root_in(parent, rank, x)] >= rank[x],
        root_in(parent, rank, x) == x <==> parent[x] == x,
        root_in(parent, rank, x) != x ==> rank[root_in(parent, rank, x)] > rank[x],
    decreases 256 - rank[x],
{
    if parent[x] != x {
        lemma_root_in(parent, rank, parent[x] as int);
    }
}

proof fn lemma_shorten(parent: Seq<usize>, rank: Seq<u8>, x: int, y: int)
    requires
        is_ranked(parent, rank),
        0 <= x < parent.len(),
        0 <= y < parent.len(),
        parent[x] != x,
    ensures
        root_in(parent.update(x, root_in(parent, rank, x) as usize), rank, y) == root_in(
            parent,
            rank,
            y,
        ),
    decreases 256 - rank[y],
{
    lemma_root_in(parent, rank, x);
    let r = root_in(parent, rank, x);
    let p2 = parent.update(x, r as usize);
    if y == x {
        assert(root_in(p2, rank, r) == r);
    } else if parent[y] != y {
        lemma_shorten(parent, rank, x, parent[y] as int);
    }
}

proof fn lemma_hang(parent: Seq<usize>, rank: Seq<u8>, c: int, d: int, y: int)
    requires
        is_ranked(parent, rank),
        0 <= c < parent.len(),
        0 <= d < parent.len(),
        0 <= y < parent.len(),
        c != d,
        parent[c] == c,
        parent[d] == d,
        rank[c] < rank[d],
    ensures
        root_in(parent.update(c, d as usize), rank, y) == (if root_in(parent, rank, y) == c {
            d
        } else {
            root_in(parent, rank, y)
        }),
    decreases 256 - rank[y],
{
    let p2 = parent.update(c, d as usize);
    if y == c {
        assert(root_in(p2, rank, d) == d);
    } else if parent[y] != y {
        lemma_hang(parent, rank, c, d, parent[y] as int);
    }
}

proof fn lemma_raise(parent: Seq<usize>, rank: Seq<u8>, d: int, y: int)
    requires
        is_ranked(parent, rank),
        0 <= d < parent.len(),
        parent[d] == d,
        rank[d] < u8::MAX,
        0 <= y < parent.len(),
    ensures
        root_in(parent, rank.update(d, (rank[d] + 1) as u8), y) == root_in(parent, rank, y),
    decreases 256 - rank[y],
{
    if parent[y] != y {
        lemma_raise(parent, rank, d, parent[y] as int);
    }
}

proof fn lemma_total_bound(parent: Seq<usize>, weight: Seq<nat>, n: nat, x: int)
    requires
        0 <= x < n,
        parent[x] == x,
    ensures
        weight[x] <= total(parent, weight, n),
    decreases n,
{
    if x < n - 1 {
        lemma_total_bound(parent, weight, (n - 1) as nat, x);
    }
}

proof fn lemma_total_two(parent: Seq<usize>, weight: Seq<nat>, n: nat, x: int, y: int)
    requires
        0 <= x < n,
        0 <= y < n,
        x != y,
        parent[x] == x,
        parent[y] == y,
    ensures
        weight[x] + weight[y] <= total(parent, weight, n),
    decreases n,
{
    if x == n - 1 {
        lemma_total_bound(parent, weight, (n - 1) as nat, y);
    } else if y == n - 1 {
        lemma_total_bound(parent, weight, (n - 1) as nat, x);
    } else {
        lemma_total_two(parent, weight, (n - 1) as nat, x, y);
    }
}

proof fn lemma_total_same(
    parent: Seq<usize>,
    parent2: Seq<usize>,
    weight: Seq<nat>,
    weight2: Seq<nat>,
    n: nat,
)
    requires
        forall|x: int|
            0 <= x < n ==> ((#[trigger] parent[x] == x) <==> parent2[x] == x) && (parent[x] == x
                ==> weight[x] == weight2[x]),
    ensures
        total(parent, weight, n) == total(parent2, weight2, n),
    decreases n,
{
    if n > 0 {
        lemma_total_same(parent, parent2, weight, weight2, (n - 1) as nat);
        assert((parent[n - 1] == n - 1) <==> parent2[n - 1] == n - 1);
    }
}

/// Representative `c` hands its weight to representative `d`.
proof fn lemma_total_move(parent: Seq<usize>, weight: Seq<nat>, n: nat, c: int, d: int)
    requires
        0 <= c < parent.len(),
        0 <= d < parent.len(),
        weight.len() == parent.len(),
        c != d,
        parent[c] == c,
        parent[d] == d,
        n <= parent.len(),
    ensures
        total(
            parent.update(c, d as usize),
            weight.update(d, weight[c] + weight[d]),
            n,
        ) == total(parent, weight, n) - (if c < n {
            weight[c] as int
        } else {
            0
        }) + (if d < n {
            weight[c] as int
        } else {
            0
        }),
    decreases n,
{
    if n > 0 {
        lemma_total_move(parent, weight, (n - 1) as nat, c, d);
    }
}

proof fn lemma_total_singletons(parent: Seq<usize>, weight: Seq<nat>, n: nat)
    requires
        n <= parent.len(),
        n <= weight.len(),
        forall|x: int| 0 <= x < n ==> #[trigger] parent[x] == x,
        forall|x: int| 0 <= x < n ==> #[trigger] weight[x] == 1,
    ensures
        total(parent, weight, n) == n,
    decreases n,
{
    if n > 0 {
        lemma_total_singletons(parent, weight, (n - 1) as nat);
        assert(parent[n - 1] == n - 1);
        assert(weight[n - 1] == 1);
    }
}

proof fn lemma_rank_small(parent: Seq<usize>, rank: Seq<u8>, weight: Seq<nat>, x: int)
    requires
        is_ranked(parent, rank),
        is_weighted(parent, rank, weight),
        0 <= x < parent.len(),
        parent[x] == x,
        parent.len() <= usize::MAX,
    ensures
        rank[x] < 64,
{
    lemma_total_bound(parent, weight, parent.len(), x);
    if rank[x] >= 64 {
        vstd::arithmetic::power2::lemma_pow2(64);
        vstd::arithmetic::power2::lemma2_to64();
        if rank[x] > 64 {
            vstd::arithmetic::power2::lemma_pow2_strictly_increases(64, rank[x] as nat);
        }
    }
}

impl UnionFind {
    /// Parents are of a higher rank, and a set of rank `r` has at least two to the power of `r` members.
    pub closed spec fn wf(self) -> bool {
        &&& is_ranked(self.parent@, self.rank@)
        &&& is_weighted(self.parent@, self.rank@, self.weight@)
    }

    /// The number of elements.
    pub closed spec fn size(self) -> nat {
        self.parent@.len()
    }

    /// The representative of the set that `x` is in.
    pub closed spec fn root(self, x: int) -> int {
        root_in(self.parent@, self.rank@, x)
    }

    /// The rank of `x`, by which it is decided which of two representatives stands for a joined set.
    pub closed spec fn rank_of(self, x: int) -> int {
        self.rank@[x] as int
    }

    /// The representatives of `a` and `b` are different and have the same rank.
    pub open spec fn level(self, a: int, b: int) -> bool {
        self.root(a) != self.root(b) && self.rank_of(self.root(a)) == self.rank_of(self.root(b))
    }

    /// The representative of the joined sets of `a` and `b`: that of higher rank, that of `a` where the
    /// ranks are equal.
    pub open spec fn joined_root(self, a: int, b: int) -> int {
        if self.rank_of(self.root(a)) < self.rank_of(self.root(b)) {
            self.root(b)
        } else {
            self.root(a)
        }
    }

    /// Every number is in a set of its own.
    pub fn new(n: usize) -> (r: Self)
        ensures
            r.wf(),
            r.size() == n,
            forall|x: int| 0 <= x < n ==> #[trigger] r.root(x) == x,
            forall|x: int| 0 <= x < n ==> #[trigger] r.rank_of(x) == 0,
    {
        let mut parent: Vec<usize> = Vec::with_capacity(n);
        let mut rank: Vec<u8> = Vec::with_capacity(n);
        let mut i: usize = 0;
        while i < n
            invariant
                i <= n,
                parent@.len() == i,
                rank@.len() == i,
                forall|x: int| 0 <= x < i ==> #[trigger] parent@[x] == x,
                forall|x: int| 0 <= x < i ==> #[trigger] rank@[x] == 0,
            decreases n - i,
        {
            parent.push(i);
            rank.push(0);
            i = i + 1;
        }
        let ghost weight = Seq::new(n as nat, |x: int| 1nat);
        proof {
            lemma_total_singletons(parent@, weight, n as nat);
            vstd::arithmetic::power2::lemma2_to64();
        }
        UnionFind { parent, rank, weight: Ghost(weight) }
    }

    /// The representative of the set that `x` is in; links on the way are shortened.
    pub fn find(&mut self, x: usize) -> (root: usize)
        requires
            old(self).wf(),
            x < old(self).size(),
        ensures
            final(self).wf(),
            final(self).size() == old(self).size(),
            root == old(self).root(x as int),
            root < old(self).size(),
            forall|y: int|
                0 <= y < old(self).size() ==> #[trigger] final(self).root(y) == old(self).root(y),
            forall|y: int|
                0 <= y < old(self).size() ==> #[trigger] final(self).rank_of(y) == old(
                    self,
                ).rank_of(y),
            final(self).root(root as int) == root,
    {
        let n: usize = self.parent.len();
        let mut root: usize = x;
        while self.parent[root] != root
            invariant
                self.wf(),
                n == self.parent@.len(),
                *self == *old(self),
                root < n,
                root_in(self.parent@, self.rank@, root as int) == root_in(
                    self.parent@,
                    self.rank@,
                    x as int,
                ),
            decreases 256 - self.rank@[root as int],
        {
            root = self.parent[root];
        }
        proof {
            lemma_root_in(self.parent@, self.rank@, x as int);
        }
        let ghost before = self.parent@;
        let ghost rank = self.rank@;
        let ghost weight = self.weight@;
        let mut cur: usize = x;
        while self.parent[cur] != root
            invariant
                n == self.parent@.len(),
                n == before.len(),
                self.rank@ == rank,
                self.weight@ == weight,
                is_ranked(self.parent@, rank),
                cur < n,
                root < n,
                self.parent@[root as int] == root,
                root_in(self.parent@, rank, cur as int) == root,
                forall|y: int|
                    0 <= y < n ==> #[trigger] root_in(self.parent@, rank, y) == root_in(
                        before,
                        rank,
                        y,
                    ),
                forall|y: int|
                    0 <= y < n ==> (#[trigger] self.parent@[y] == y <==> before[y] == y),
            decreases 256 - rank[cur as int],
        {
            let ghost here = self.parent@;
            proof {
                lemma_root_in(here, rank, cur as int);
                assert forall|y: int| 0 <= y < n implies #[trigger] root_in(
                    here.update(cur as int, root),
                    rank,
                    y,
                ) == root_in(here, rank, y) by {
                    lemma_shorten(here, rank, cur as int, y);
                }
                assert(root_in(here, rank, here[cur as int] as int) == root);
            }
            let next: usize = self.parent[cur];
            self.parent[cur] = root;
            cur = next;
        }
        proof {
            lemma_total_same(before, self.parent@, weight, weight, n as nat);
        }
        root
    }

    /// Joins the sets of `a` and `b`; the representative of higher rank stands for both, that of `a`
    /// where the ranks are equal.
    pub fn union(&mut self, a: usize, b: usize)
        requires
            old(self).wf(),
            a < old(self).size(),
            b < old(self).size(),
        ensures
            final(self).wf(),
            final(self).size() == old(self).size(),
            forall|y: int|
                0 <= y < old(self).size() ==> #[trigger] final(self).root(y) == (if old(self).root(y)
                    == old(self).root(a as int) || old(self).root(y) == old(self).root(b as int) {
                    old(self).joined_root(a as int, b as int)
                } else {
                    old(self).root(y)
                }),
            forall|y: int|
                0 <= y < old(self).size() ==> #[trigger] final(self).rank_of(y) == old(self).rank_of(
                    y,
                ) + (if old(self).level(a as int, b as int) && y == old(self).root(a as int) {
                    1int
                } else {
                    0int
                }),
    {
        let ghost before = *self;
        let ra: usize = self.find(a);
        let ghost mid = *self;
        let rb: usize = self.find(b);
        let ghost parent = self.parent@;
        let ghost rank = self.rank@;
        let ghost weight = self.weight@;
        let n: usize = self.parent.len();
        assert forall|y: int| 0 <= y < n implies root_in(parent, rank, y) == #[trigger] before.root(
            y,
        ) && rank[y] == before.rank_of(y) by {
            assert(self.root(y) == mid.root(y));
            assert(mid.root(y) == before.root(y));
            assert(self.rank_of(y) == mid.rank_of(y));
            assert(mid.rank_of(y) == before.rank_of(y));
        }
        proof {
            lemma_root_in(before.parent@, before.rank@, a as int);
            lemma_root_in(before.parent@, before.rank@, b as int);
            lemma_root_in(parent, rank, ra as int);
            lemma_root_in(parent, rank, rb as int);
            assert(before.root(ra as int) == ra);
            assert(self.root(ra as int) == ra);
            assert(self.root(rb as int) == rb);
        }
        if ra == rb {
            assert forall|y: int| 0 <= y < n implies #[trigger] self.root(y) == (if before.root(y)
                == before.root(a as int) || before.root(y) == before.root(b as int) {
                ra as int
            } else {
                before.root(y)
            }) by {}
            return;
        }
        let (up, down): (usize, usize) = if self.rank[ra] < self.rank[rb] {
            (rb, ra)
        } else {
            (ra, rb)
        };
        let level: bool = self.rank[ra] == self.rank[rb];
        proof {
            lemma_rank_small(parent, rank, weight, up as int);
            lemma_total_two(parent, weight, n as nat, up as int, down as int);
            lemma_total_move(parent, weight, n as nat, down as int, up as int);
        }
        if level {
            self.rank[up] = self.rank[up] + 1;
        }
        let ghost rank2 = self.rank@;
        proof {
            assert(is_ranked(parent, rank2));
            assert forall|y: int| 0 <= y < n implies root_in(parent, rank2, y) == #[trigger] root_in(
                parent,
                rank,
                y,
            ) by {
                if level {
                    lemma_raise(parent, rank, up as int, y);
                }
            }
        }
        self.parent[down] = up;
        self.weight = Ghost(weight.update(up as int, weight[down as int] + weight[up as int]));
        proof {
            assert forall|y: int| 0 <= y < n implies #[trigger] root_in(self.parent@, rank2, y)
                == (if root_in(parent, rank, y) == ra || root_in(parent, rank, y) == rb {
                up as int
            } else {
                root_in(parent, rank, y)
            }) by {
                lemma_hang(parent, rank2, down as int, up as int, y);
                assert(root_in(parent, rank2, y) == root_in(parent, rank, y));
            }
            assert forall|y: int| 0 <= y < n implies #[trigger] self.rank_of(y) == before.rank_of(y)
                + (if before.level(a as int, b as int) && y == before.root(a as int) {
                1int
            } else {
                0int
            }) by {
                assert(before.root(y) == root_in(parent, rank, y));
                assert(before.root(ra as int) == ra && before.root(rb as int) == rb);
            }
            if level {
                vstd::arithmetic::power2::lemma_pow2_unfold((rank[up as int] + 1) as nat);
            }
            assert forall|y: int| 0 <= y < n && #[trigger] self.parent@[y] == y implies
                self.weight@[y] >= pow2(self.rank@[y] as nat) by {
                assert(parent[y] == y);
                assert(parent[down as int] == down);
            }
            assert forall|y: int| 0 <= y < n implies #[trigger] self.root(y) == (if before.root(y)
                == before.root(a as int) || before.root(y) == before.root(b as int) {
                up as int
            } else {
                before.root(y)
            }) by {
                assert(root_in(parent, rank, y) == before.root(y));
            }
        }
    }
}

/// Merge `s` of a dendrogram over `n` points joins two nodes into node `n + s`. Points are the nodes
/// below `n`.
#[derive(Debug, Clone, Copy, PartialEq, Eq, Structural)]
pub struct MergeStep {
    pub cluster1: usize,
    pub cluster2: usize,
    pub height: i64,
}

/// The first of the two nodes that each merge joins.
pub open spec fn firsts(steps: Seq<MergeStep>) -> Seq<usize> {
    steps.map_values(|m: MergeStep| m.cluster1)
}

/// The second of the two nodes that each merge joins.
pub open spec fn seconds(steps: Seq<MergeStep>) -> Seq<usize> {
    steps.map_values(|m: MergeStep| m.cluster2)
}

/// A merge joins two different nodes that were made before it, and no node is joined twice.
pub open spec fn is_dendrogram(n: nat, steps: Seq<MergeStep>) -> bool {
    &&& forall|s: int|
        0 <= s < steps.len() ==> {
            &&& (#[trigger] steps[s]).cluster1 < n + s
            &&& steps[s].cluster2 < n + s
            &&& steps[s].cluster1 != steps[s].cluster2
        }
    &&& forall|q: int, s: int|
        0 <= q < s < steps.len() ==> {
            &&& (#[trigger] steps[q]).cluster1 != (#[trigger] steps[s]).cluster1
            &&& steps[q].cluster1 != steps[s].cluster2
            &&& steps[q].cluster2 != steps[s].cluster1
            &&& steps[q].cluster2 != steps[s].cluster2
        }
}

/// The node that holds point `v` after the first `s` merges.
pub open spec fn holder(n: nat, steps: Seq<MergeStep>, s: nat, v: int) -> int {
    linkage::top(n, firsts(steps), seconds(steps), s, v)
}

/// The greatest height of a merge in the subtree of `node`; a point has height zero.
pub open spec fn height_below(n: nat, steps: Seq<MergeStep>, node: int) -> i64
    decreases node,
{
    let s = node - n;
    if 0 <= s < steps.len() && steps[s].cluster1 < node && steps[s].cluster2 < node {
        linkage::max2(
            linkage::max2(
                steps[s].height,
                height_below(n, steps, steps[s].cluster1 as int),
            ),
            height_below(n, steps, steps[s].cluster2 as int),
        )
    } else {
        0
    }
}

/// The last of the first `s` merges that takes in point `v` and is kept, as a node; the point itself
/// where none is.
pub open spec fn cut_node(
    n: nat,
    steps: Seq<MergeStep>,
    kept: spec_fn(int) -> bool,
    s: nat,
    v: int,
) -> int
    decreases s,
{
    if s == 0 {
        v
    } else if kept(s - 1) && holder(n, steps, s, v) == n + s - 1 {
        n + s - 1
    } else {
        cut_node(n, steps, kept, (s - 1) as nat, v)
    }
}

/// The cluster of each point when only the kept merges are made.
pub open spec fn cut_nodes(n: nat, steps: Seq<MergeStep>, kept: spec_fn(int) -> bool) -> Seq<i64> {
    Seq::new(n, |v: int| cut_node(n, steps, kept, steps.len(), v) as i64)
}

/// The merges whose subtree lies at or below the threshold.
pub open spec fn below_threshold(
    n: nat,
    steps: Seq<MergeStep>,
    threshold: i64,
) -> spec_fn(int) -> bool {
    |s: int| height_below(n, steps, n + s) <= threshold
}

/// The first `m` merges.
pub open spec fn among_first(m: nat) -> spec_fn(int) -> bool {
    |s: int| s < m
}

/// A kept merge joins points and kept merges only.
spec fn keeps_below(n: nat, steps: Seq<MergeStep>, kept: spec_fn(int) -> bool) -> bool {
    forall|s: int|
        0 <= s < steps.len() && #[trigger] kept(s) ==> {
            &&& steps[s].cluster1 >= n ==> kept(steps[s].cluster1 - n)
            &&& steps[s].cluster2 >= n ==> kept(steps[s].cluster2 - n)
        }
}

/// A point of each node: for a merge, that of the first node it joins.
spec fn member(n: nat, steps: Seq<MergeStep>, node: int) -> int
    decreases node,
{
    let s = node - n;
    if 0 <= s < steps.len() && steps[s].cluster1 < node {
        member(n, steps, steps[s].cluster1 as int)
    } else {
        node
    }
}

/// None of the first `s` merges joins `node`.
spec fn unjoined(steps: Seq<MergeStep>, s: nat, node: int) -> bool {
    forall|q: int|
        0 <= q < s ==> (#[trigger] steps[q]).cluster1 != node && steps[q].cluster2 != node
}

proof fn lemma_member(n: nat, steps: Seq<MergeStep>, s: nat, node: int)
    requires
        is_dendrogram(n, steps),
        s <= steps.len(),
        0 <= node < n + s,
        unjoined(steps, s, node),
    ensures
        0 <= member(n, steps, node) < n,
        holder(n, steps, s, member(n, steps, node)) == node,
    decreases s, node,
{
    let (l, r) = (firsts(steps), seconds(steps));
    if node == n + s - 1 && s > 0 {
        let q = (s - 1) as nat;
        let a = steps[q as int].cluster1 as int;
        assert(a < n + q);
        assert(unjoined(steps, q, a)) by {
            assert forall|p: int| 0 <= p < q implies (#[trigger] steps[p]).cluster1 != a
                && steps[p].cluster2 != a by {
                assert(steps[p].cluster1 != steps[q as int].cluster1);
            }
        }
        lemma_member(n, steps, q, a);
        assert(l[q as int] == a);
    } else if s > 0 {
        let q = (s - 1) as nat;
        assert(unjoined(steps, q, node));
        lemma_member(n, steps, q, node);
        assert(steps[q as int].cluster1 != node);
        assert(l[q as int] == steps[q as int].cluster1);
        assert(r[q as int] == steps[q as int].cluster2);
    }
}

proof fn lemma_unjoined(n: nat, steps: Seq<MergeStep>, s: nat)
    requires
        is_dendrogram(n, steps),
        s < steps.len(),
    ensures
        unjoined(steps, s, steps[s as int].cluster1 as int),
        unjoined(steps, s, steps[s as int].cluster2 as int),
{
    assert forall|q: int| 0 <= q < s implies (#[trigger] steps[q]).cluster1
        != steps[s as int].cluster1 && steps[q].cluster2 != steps[s as int].cluster1
        && steps[q].cluster1 != steps[s as int].cluster2 && steps[q].cluster2
        != steps[s as int].cluster2 by {
        assert(steps[q].cluster1 != steps[s as int].cluster1);
    }
}

proof fn lemma_cut_range(n: nat, steps: Seq<MergeStep>, kept: spec_fn(int) -> bool, s: nat, v: int)
    requires
        0 <= v < n,
    ensures
        cut_node(n, steps, kept, s, v) == v || n <= cut_node(n, steps, kept, s, v) < n + s,
        cut_node(n, steps, kept, s, v) >= n ==> ({
            let q = (cut_node(n, steps, kept, s, v) - n) as nat;
            kept(q as int) && holder(n, steps, q + 1, v) == n + q
        }),
    decreases s,
{
    if s > 0 {
        lemma_cut_range(n, steps, kept, (s - 1) as nat, v);
    }
}

/// A point held by a node that is a point or kept is cut at that node, and no other point is.
proof fn lemma_cut_at_holder(
    n: nat,
    steps: Seq<MergeStep>,
    kept: spec_fn(int) -> bool,
    s: nat,
    node: int,
    v: int,
)
    requires
        is_dendrogram(n, steps),
        s <= steps.len(),
        0 <= v < n,
        0 <= node < n + s,
        unjoined(steps, s, node),
        node >= n ==> kept(node - n),
    ensures
        cut_node(n, steps, kept, s, v) == node <==> holder(n, steps, s, v) == node,
{
    let (l, r) = (firsts(steps), seconds(steps));
    lemma_member(n, steps, s, node);
    let w = member(n, steps, node);
    lemma_cut_range(n, steps, kept, s, v);
    if cut_node(n, steps, kept, s, v) == node {
        if node >= n {
            let q = (node - n) as nat;
            linkage::lemma_held_since(n, l, r, q, s, w);
            linkage::lemma_still_held(n, l, r, q + 1, s, v, w);
        } else {
            linkage::lemma_point_before(n, l, r, s, w, node);
        }
    }
    if holder(n, steps, s, v) == node {
        if node >= n {
            lemma_cut_settled(n, steps, kept, s, (node - n) as nat, v);
        } else {
            lemma_cut_point(n, steps, kept, s, v);
        }
    }
}

proof fn lemma_cut_settled(
    n: nat,
    steps: Seq<MergeStep>,
    kept: spec_fn(int) -> bool,
    s: nat,
    q: nat,
    v: int,
)
    requires
        0 <= v < n,
        q < s,
        kept(q as int),
        holder(n, steps, s, v) == n + q,
    ensures
        cut_node(n, steps, kept, s, v) == n + q,
    decreases s,
{
    let (l, r) = (firsts(steps), seconds(steps));
    if q + 1 < s {
        linkage::lemma_held_since(n, l, r, q, s, v);
        lemma_holder_steady(n, steps, q, s, v);
        lemma_cut_settled(n, steps, kept, (s - 1) as nat, q, v);
    }
}

proof fn lemma_holder_steady(n: nat, steps: Seq<MergeStep>, q: nat, s: nat, v: int)
    requires
        0 <= v < n,
        q + 1 < s,
        holder(n, steps, s, v) == n + q,
    ensures
        holder(n, steps, (s - 1) as nat, v) == n + q,
{
}

proof fn lemma_cut_point(n: nat, steps: Seq<MergeStep>, kept: spec_fn(int) -> bool, s: nat, v: int)
    requires
        0 <= v < n,
        holder(n, steps, s, v) < n,
    ensures
        cut_node(n, steps, kept, s, v) == v,
        holder(n, steps, s, v) == v,
    decreases s,
{
    if s > 0 {
        lemma_cut_point(n, steps, kept, (s - 1) as nat, v);
    }
}

/// Labels that agree on which points are together are numbered alike.
proof fn lemma_same_pattern(a: Seq<i64>, b: Seq<i64>, out: Seq<usize>)
    requires
        a.len() == b.len(),
        forall|i: int, j: int|
            0 <= i < a.len() && 0 <= j < a.len() ==> (#[trigger] a[i] == #[trigger] a[j] <==> b[i]
                == b[j]),
        labels::is_canonical(a, out),
    ensures
        labels::is_canonical(b, out),
        labels::label_count(a) == labels::label_count(b),
{
    let n = a.len();
    let (na, nb) = (labels::newcomers(a), labels::newcomers(b));
    assert forall|j: int| 0 <= j < n implies #[trigger] na(j) == nb(j) by {
        if na(j) {
            assert forall|k: int| 0 <= k < j implies #[trigger] b[k] != b[j] by {
                assert(a[k] != a[j]);
            }
        }
        if nb(j) {
            assert forall|k: int| 0 <= k < j implies #[trigger] a[k] != a[j] by {
                assert(b[k] != b[j]);
            }
        }
    }
    counting::lemma_count_agree(n, na, nb);
    assert forall|i: int| 0 <= i < n implies #[trigger] out[i] == labels::label_number(b, i) by {
        labels::lemma_first_index(a, i);
        labels::lemma_first_index(b, i);
        let (fa, fb) = (labels::first_index(a, i), labels::first_index(b, i));
        if fa < fb {
            assert(b[fa] == b[i]);
            assert(b[fa] != b[fb]);
        }
        if fb < fa {
            assert(a[fb] == a[i]);
            assert(a[fb] != a[fa]);
        }
        counting::lemma_count_agree(fa as nat, na, nb);
    }
}

/// The sets are the points cut at one node.
spec fn cuts(
    uf: UnionFind,
    n: nat,
    steps: Seq<MergeStep>,
    kept: spec_fn(int) -> bool,
    s: nat,
) -> bool {
    forall|i: int, j: int|
        0 <= i < n && 0 <= j < n ==> (#[trigger] uf.root(i) == #[trigger] uf.root(j) <==> cut_node(
            n,
            steps,
            kept,
            s,
            i,
        ) == cut_node(n, steps, kept, s, j))
}

proof fn lemma_cut_union(
    uf: UnionFind,
    uf2: UnionFind,
    n: nat,
    steps: Seq<MergeStep>,
    kept: spec_fn(int) -> bool,
    s: nat,
    a: int,
    b: int,
)
    requires
        is_dendrogram(n, steps),
        keeps_below(n, steps, kept),
        s < steps.len(),
        kept(s as int),
        cuts(uf, n, steps, kept, s),
        a == member(n, steps, steps[s as int].cluster1 as int),
        b == member(n, steps, steps[s as int].cluster2 as int),
        forall|y: int|
            0 <= y < n ==> #[trigger] uf2.root(y) == (if uf.root(y) == uf.root(a) || uf.root(y)
                == uf.root(b) {
                uf.joined_root(a, b)
            } else {
                uf.root(y)
            }),
    ensures
        cuts(uf2, n, steps, kept, s + 1),
{
    let (c1, c2) = (steps[s as int].cluster1 as int, steps[s as int].cluster2 as int);
    lemma_unjoined(n, steps, s);
    lemma_member(n, steps, s, c1);
    lemma_member(n, steps, s, c2);
    let (l, r) = (firsts(steps), seconds(steps));
    assert(l[s as int] == c1 && r[s as int] == c2);
    assert forall|i: int, j: int| 0 <= i < n && 0 <= j < n implies (#[trigger] uf2.root(i)
        == #[trigger] uf2.root(j) <==> cut_node(n, steps, kept, s + 1, i) == cut_node(
        n,
        steps,
        kept,
        s + 1,
        j,
    )) by {
        lemma_cut_at_holder(n, steps, kept, s, c1, i);
        lemma_cut_at_holder(n, steps, kept, s, c2, i);
        lemma_cut_at_holder(n, steps, kept, s, c1, j);
        lemma_cut_at_holder(n, steps, kept, s, c2, j);
        lemma_cut_at_holder(n, steps, kept, s, c1, a);
        lemma_cut_at_holder(n, steps, kept, s, c2, b);
        lemma_cut_range(n, steps, kept, s, i);
        lemma_cut_range(n, steps, kept, s, j);
        linkage::lemma_top_older(n, l, r, s, i);
        linkage::lemma_top_older(n, l, r, s, j);
        assert(uf.root(i) == uf.root(a) <==> cut_node(n, steps, kept, s, i) == c1);
        assert(uf.root(i) == uf.root(b) <==> cut_node(n, steps, kept, s, i) == c2);
        assert(uf.root(j) == uf.root(a) <==> cut_node(n, steps, kept, s, j) == c1);
        assert(uf.root(j) == uf.root(b) <==> cut_node(n, steps, kept, s, j) == c2);
        assert(uf.root(i) == uf.root(j) <==> cut_node(n, steps, kept, s, i) == cut_node(
            n,
            steps,
            kept,
            s,
            j,
        ));
    }
}

proof fn lemma_cut_unmoved(
    uf: UnionFind,
    n: nat,
    steps: Seq<MergeStep>,
    kept: spec_fn(int) -> bool,
    s: nat,
)
    requires
        !kept(s as int),
        cuts(uf, n, steps, kept, s),
    ensures
        cuts(uf, n, steps, kept, s + 1),
{
    assert forall|i: int, j: int| 0 <= i < n && 0 <= j < n implies (#[trigger] uf.root(i)
        == #[trigger] uf.root(j) <==> cut_node(n, steps, kept, s + 1, i) == cut_node(
        n,
        steps,
        kept,
        s + 1,
        j,
    )) by {
        assert(cut_node(n, steps, kept, s + 1, i) == cut_node(n, steps, kept, s, i));
        assert(cut_node(n, steps, kept, s + 1, j) == cut_node(n, steps, kept, s, j));
    }
}

/// The clusters, numbered by first occurrence, when only the kept merges are made.
fn cut(
    n: usize,
    steps: &[MergeStep],
    marks: &Vec<bool>,
    Ghost(kept): Ghost<spec_fn(int) -> bool>,
) -> (out: Vec<usize>)
    requires
        is_dendrogram(n as nat, steps@),
        n + steps@.len() <= i64::MAX,
        marks@.len() == steps@.len(),
        forall|s: int| 0 <= s < steps@.len() ==> #[trigger] marks@[s] == kept(s),
        keeps_below(n as nat, steps@, kept),
    ensures
        labels::is_canonical(cut_nodes(n as nat, steps@, kept), out@),
{
    let ghost nn = n as nat;
    let m: usize = steps.len();
    let mut members: Vec<usize> = Vec::with_capacity(m);
    let mut uf = UnionFind::new(n);
    let mut s: usize = 0;
    while s < m
        invariant
            s <= m,
            m == steps@.len(),
            nn == n,
            n + m <= i64::MAX,
            marks@.len() == m,
            is_dendrogram(nn, steps@),
            keeps_below(nn, steps@, kept),
            forall|q: int| 0 <= q < m ==> #[trigger] marks@[q] == kept(q),
            members@.len() == s,
            forall|q: int| 0 <= q < s ==> #[trigger] members@[q] == member(nn, steps@, nn + q),
            uf.wf(),
            uf.size() == n,
            cuts(uf, nn, steps@, kept, s as nat),
        decreases m - s,
    {
        let step: MergeStep = steps[s];
        let (a, b): (usize, usize) = (step.cluster1, step.cluster2);
        assert(steps@[s as int].cluster1 < n + s);
        let ra: usize = if a < n {
            a
        } else {
            members[a - n]
        };
        let rb: usize = if b < n {
            b
        } else {
            members[b - n]
        };
        proof {
            lemma_unjoined(nn, steps@, s as nat);
            lemma_member(nn, steps@, s as nat, a as int);
            lemma_member(nn, steps@, s as nat, b as int);
            if a >= n {
                assert(members@[a - n] == member(nn, steps@, nn + (a - n)));
            }
            if b >= n {
                assert(members@[b - n] == member(nn, steps@, nn + (b - n)));
            }
        }
        members.push(ra);
        assert(member(nn, steps@, nn + s) == ra);
        let ghost before = uf;
        if marks[s] {
            uf.union(ra, rb);
            proof {
                lemma_cut_union(
                    before,
                    uf,
                    nn,
                    steps@,
                    kept,
                    s as nat,
                    ra as int,
                    rb as int,
                );
            }
        } else {
            proof {
                lemma_cut_unmoved(uf, nn, steps@, kept, s as nat);
            }
        }
        s = s + 1;
    }
    let ghost done = uf;
    let mut roots: Vec<i64> = Vec::with_capacity(n);
    let mut i: usize = 0;
    while i < n
        invariant
            i <= n,
            n <= i64::MAX,
            uf.wf(),
            uf.size() == n,
            roots@.len() == i,
            forall|x: int| 0 <= x < n ==> #[trigger] uf.root(x) == done.root(x),
            forall|x: int| 0 <= x < i ==> #[trigger] roots@[x] == done.root(x),
        decreases n - i,
    {
        let r: usize = uf.find(i);
        assert(done.root(i as int) == r);
        roots.push(r as i64);
        i = i + 1;
    }
    let out = labels::canonicalize(roots.as_slice());
    proof {
        let want = cut_nodes(nn, steps@, kept);
        assert forall|i: int, j: int| 0 <= i < n && 0 <= j < n implies (#[trigger] roots@[i]
            == #[trigger] roots@[j] <==> want[i] == want[j]) by {
            lemma_cut_range(nn, steps@, kept, steps@.len(), i);
            lemma_cut_range(nn, steps@, kept, steps@.len(), j);
            assert(done.root(i) == done.root(j) <==> cut_node(nn, steps@, kept, steps@.len(), i)
                == cut_node(nn, steps@, kept, steps@.len(), j));
        }
        lemma_same_pattern(roots@, want, out@);
    }
    out
}

/// Merge `s` joins node `c`.
spec fn joins(steps: Seq<MergeStep>, s: int, c: int) -> bool {
    steps[s].cluster1 == c || steps[s].cluster2 == c
}

/// One of the first `s` merges joins node `c`.
spec fn joined_by(steps: Seq<MergeStep>, s: int, c: int) -> bool {
    exists|q: int| 0 <= q < s && #[trigger] joins(steps, q, c)
}

proof fn lemma_joined_step(steps: Seq<MergeStep>, s: int, c: int)
    requires
        0 <= s,
    ensures
        joined_by(steps, s + 1, c) == (joined_by(steps, s, c) || joins(steps, s, c)),
{
    if joined_by(steps, s + 1, c) {
        let q = choose|q: int| 0 <= q < s + 1 && #[trigger] joins(steps, q, c);
        assert(q < s ==> joined_by(steps, s, c));
    }
    if joined_by(steps, s, c) {
        let q = choose|q: int| 0 <= q < s && #[trigger] joins(steps, q, c);
        assert(joins(steps, q, c));
    }
}

fn unmarked(n: usize) -> (marks: Vec<bool>)
    ensures
        marks@.len() == n,
        forall|c: int| 0 <= c < n ==> !#[trigger] marks@[c],
{
    let mut marks: Vec<bool> = Vec::with_capacity(n);
    let mut c: usize = 0;
    while c < n
        invariant
            c <= n,
            marks@.len() == c,
            forall|d: int| 0 <= d < c ==> !#[trigger] marks@[d],
        decreases n - c,
    {
        marks.push(false);
        c = c + 1;
    }
    marks
}

/// Which points and which merged nodes have been joined.
struct Marks {
    points: Vec<bool>,
    nodes: Vec<bool>,
}

impl Marks {
    spec fn marked(self, c: int) -> bool {
        if c < self.points@.len() {
            self.points@[c]
        } else {
            self.nodes@[c - self.points@.len()]
        }
    }

    fn get(&self, c: usize) -> (r: bool)
        requires
            c < self.points@.len() + self.nodes@.len(),
        ensures
            r == self.marked(c as int),
    {
        let n: usize = self.points.len();
        if c < n {
            self.points[c]
        } else {
            self.nodes[c - n]
        }
    }

    fn mark(&mut self, c: usize)
        requires
            c < old(self).points@.len() + old(self).nodes@.len(),
        ensures
            final(self).points@.len() == old(self).points@.len(),
            final(self).nodes@.len() == old(self).nodes@.len(),
            forall|d: int|
                0 <= d < old(self).points@.len() + old(self).nodes@.len()
                    ==> #[trigger] final(self).marked(d) == (d == c || old(self).marked(d)),
    {
        let n: usize = self.points.len();
        if c < n {
            self.points[c] = true;
        } else {
            self.nodes[c - n] = true;
        }
    }
}

/// Whether merges make a dendrogram that can be cut: nodes are joined once each, after they were
/// made, and their numbers can be counted.
pub fn can_be_cut(n: usize, steps: &[MergeStep]) -> (r: bool)
    ensures
        r == (is_dendrogram(n as nat, steps@) && n + steps@.len() <= i64::MAX),
{
    let m: usize = steps.len();
    if n as u128 + m as u128 > i64::MAX as u128 {
        return false;
    }
    let mut joined = Marks { points: unmarked(n), nodes: unmarked(m) };
    let mut s: usize = 0;
    while s < m
        invariant
            s <= m,
            m == steps@.len(),
            n + m <= i64::MAX,
            joined.points@.len() == n,
            joined.nodes@.len() == m,
            is_dendrogram(n as nat, steps@.take(s as int)),
            forall|d: int|
                0 <= d < n + m ==> #[trigger] joined.marked(d) == joined_by(steps@, s as int, d),
        decreases m - s,
    {
        let (a, b): (usize, usize) = (steps[s].cluster1, steps[s].cluster2);
        if (a >= n && a - n >= s) || (b >= n && b - n >= s) || a == b {
            assert(!is_dendrogram(n as nat, steps@)) by {
                assert(steps@[s as int].cluster1 == a);
            }
            return false;
        }
        if joined.get(a) || joined.get(b) {
            proof {
                let d = if joined.marked(a as int) {
                    a as int
                } else {
                    b as int
                };
                assert(joined_by(steps@, s as int, d));
                let q = choose|q: int| 0 <= q < s && #[trigger] joins(steps@, q, d);
                assert(steps@[q].cluster1 == d || steps@[q].cluster2 == d);
                assert(steps@[s as int].cluster1 == a);
                assert(!is_dendrogram(n as nat, steps@));
            }
            return false;
        }
        let ghost before = joined;
        joined.mark(a);
        let ghost between = joined;
        joined.mark(b);
        proof {
            let (done, next) = (steps@.take(s as int), steps@.take(s + 1));
            assert forall|d: int| 0 <= d < n + m implies #[trigger] joined.marked(d) == joined_by(
                steps@,
                s + 1,
                d,
            ) by {
                assert(joined.marked(d) == (d == b || between.marked(d)));
                assert(between.marked(d) == (d == a || before.marked(d)));
                lemma_joined_step(steps@, s as int, d);
            }
            assert forall|q: int| 0 <= q < s + 1 implies {
                &&& (#[trigger] next[q]).cluster1 < n + q
                &&& next[q].cluster2 < n + q
                &&& next[q].cluster1 != next[q].cluster2
            } by {
                if q < s {
                    assert(done[q] == next[q]);
                }
            }
            assert forall|q: int, t: int| 0 <= q < t < s + 1 implies {
                &&& (#[trigger] next[q]).cluster1 != (#[trigger] next[t]).cluster1
                &&& next[q].cluster1 != next[t].cluster2
                &&& next[q].cluster2 != next[t].cluster1
                &&& next[q].cluster2 != next[t].cluster2
            } by {
                assert(done[q] == next[q]);
                if t < s {
                    assert(done[t] == next[t]);
                } else {
                    assert(joins(steps@, q, next[q].cluster1 as int));
                    assert(joins(steps@, q, next[q].cluster2 as int));
                    assert(!before.marked(a as int) && !before.marked(b as int));
                    assert(!joined_by(steps@, s as int, a as int));
                    assert(!joined_by(steps@, s as int, b as int));
                }
            }
        }
        s = s + 1;
    }
    assert(steps@.take(m as int) =~= steps@);
    true
}

/// Flat clusters: the points of a subtree are together where no merge in it is higher than the
/// threshold. Clusters are numbered by first occurrence.
pub fn fcluster_steps(n: usize, steps: &[MergeStep], threshold: i64) -> (out: Vec<usize>)
    requires
        is_dendrogram(n as nat, steps@),
        n + steps@.len() <= i64::MAX,
    ensures
        labels::is_canonical(
            cut_nodes(n as nat, steps@, below_threshold(n as nat, steps@, threshold)),
            out@,
        ),
{
    let ghost nn = n as nat;
    let ghost kept = below_threshold(nn, steps@, threshold);
    let m: usize = steps.len();
    let mut heights: Vec<i64> = Vec::with_capacity(m);
    let mut marks: Vec<bool> = Vec::with_capacity(m);
    let mut s: usize = 0;
    while s < m
        invariant
            s <= m,
            m == steps@.len(),
            nn == n,
            n + m <= i64::MAX,
            is_dendrogram(nn, steps@),
            kept == below_threshold(nn, steps@, threshold),
            heights@.len() == s,
            marks@.len() == s,
            forall|q: int| 0 <= q < s ==> #[trigger] heights@[q] == height_below(nn, steps@, nn + q),
            forall|q: int| 0 <= q < s ==> #[trigger] marks@[q] == kept(q),
        decreases m - s,
    {
        let step: MergeStep = steps[s];
        assert(steps@[s as int].cluster1 < n + s);
        let ha: i64 = if step.cluster1 < n {
            0
        } else {
            assert(heights@[step.cluster1 - n] == height_below(
                nn,
                steps@,
                nn + (step.cluster1 - n),
            ));
            heights[step.cluster1 - n]
        };
        let hb: i64 = if step.cluster2 < n {
            0
        } else {
            assert(heights@[step.cluster2 - n] == height_below(
                nn,
                steps@,
                nn + (step.cluster2 - n),
            ));
            heights[step.cluster2 - n]
        };
        assert(step.cluster1 < n ==> height_below(nn, steps@, step.cluster1 as int) == 0);
        assert(step.cluster2 < n ==> height_below(nn, steps@, step.cluster2 as int) == 0);
        let h1: i64 = if step.height < ha {
            ha
        } else {
            step.height
        };
        let h: i64 = if h1 < hb {
            hb
        } else {
            h1
        };
        assert(h == height_below(nn, steps@, nn + s));
        heights.push(h);
        marks.push(h <= threshold);
        s = s + 1;
    }
    proof {
        lemma_threshold_keeps_below(nn, steps@, threshold);
    }
    cut(n, steps, &marks, Ghost(kept))
}

/// Flat clusters after the first merges, as many as leave `k` clusters; every point is a cluster where
/// there are no more than `k`. Clusters are numbered by first occurrence.
pub fn fcluster_k_steps(n: usize, steps: &[MergeStep], k: usize) -> (out: Vec<usize>)
    requires
        is_dendrogram(n as nat, steps@),
        n + steps@.len() <= i64::MAX,
    ensures
        n <= k ==> out@.len() == n && forall|v: int| 0 <= v < n ==> #[trigger] out@[v] == v,
        n > k ==> labels::is_canonical(
            cut_nodes(n as nat, steps@, among_first((n - k) as nat)),
            out@,
        ),
{
    if n <= k {
        let mut out: Vec<usize> = Vec::with_capacity(n);
        let mut v: usize = 0;
        while v < n
            invariant
                v <= n,
                out@.len() == v,
                forall|u: int| 0 <= u < v ==> #[trigger] out@[u] == u,
            decreases n - v,
        {
            out.push(v);
            v = v + 1;
        }
        return out;
    }
    let ghost kept = among_first((n - k) as nat);
    let m: usize = steps.len();
    let mut marks: Vec<bool> = Vec::with_capacity(m);
    let mut s: usize = 0;
    while s < m
        invariant
            s <= m,
            k < n,
            marks@.len() == s,
            kept == among_first((n - k) as nat),
            forall|q: int| 0 <= q < s ==> #[trigger] marks@[q] == kept(q),
        decreases m - s,
    {
        marks.push(s < n - k);
        s = s + 1;
    }
    proof {
        assert forall|q: int| 0 <= q < m && #[trigger] kept(q) implies {
            &&& steps@[q].cluster1 >= n ==> kept(steps@[q].cluster1 - n)
            &&& steps@[q].cluster2 >= n ==> kept(steps@[q].cluster2 - n)
        } by {
            assert(steps@[q].cluster1 < n + q);
        }
    }
    cut(n, steps, &marks, Ghost(kept))
}

spec fn cuts_after(n: nat, steps: Seq<MergeStep>, kept: spec_fn(int) -> bool, s: nat) -> Seq<i64> {
    Seq::new(n, |v: int| cut_node(n, steps, kept, s, v) as i64)
}

/// The points that a kept merge takes in are those cut at one of the nodes it joins.
proof fn lemma_cut_next(
    n: nat,
    steps: Seq<MergeStep>,
    kept: spec_fn(int) -> bool,
    s: nat,
    v: int,
)
    requires
        is_dendrogram(n, steps),
        keeps_below(n, steps, kept),
        s < steps.len(),
        kept(s as int),
        0 <= v < n,
    ensures
        ({
            let c = cut_node(n, steps, kept, s, v);
            cut_node(n, steps, kept, s + 1, v) == (if c == steps[s as int].cluster1 || c
                == steps[s as int].cluster2 {
                (n + s) as int
            } else {
                c
            })
        }),
        cut_node(n, steps, kept, s, v) < n + s,
{
    let (c1, c2) = (steps[s as int].cluster1 as int, steps[s as int].cluster2 as int);
    lemma_unjoined(n, steps, s);
    let (l, r) = (firsts(steps), seconds(steps));
    assert(l[s as int] == c1 && r[s as int] == c2);
    lemma_cut_at_holder(n, steps, kept, s, c1, v);
    lemma_cut_at_holder(n, steps, kept, s, c2, v);
    lemma_cut_range(n, steps, kept, s, v);
    linkage::lemma_top_older(n, l, r, s, v);
}

proof fn lemma_first_at(
    n: nat,
    steps: Seq<MergeStep>,
    kept: spec_fn(int) -> bool,
    s: nat,
    c: int,
) -> (f: int)
    requires
        is_dendrogram(n, steps),
        s <= steps.len(),
        0 <= c < n + s,
        unjoined(steps, s, c),
        c >= n ==> kept(c - n),
        n + steps.len() <= i64::MAX,
    ensures
        0 <= f < n,
        cut_node(n, steps, kept, s, f) == c,
        forall|x: int| 0 <= x < f ==> #[trigger] cut_node(n, steps, kept, s, x) != c,
{
    lemma_member(n, steps, s, c);
    let w = member(n, steps, c);
    lemma_cut_at_holder(n, steps, kept, s, c, w);
    let p = |x: int| cut_node(n, steps, kept, s, x) == c;
    counting::lemma_first_where(n, p);
    assert(p(w));
    let f = counting::first_where(n, p)->0;
    assert forall|x: int| 0 <= x < f implies #[trigger] cut_node(n, steps, kept, s, x) != c by {
        assert(!p(x));
    }
    f
}

proof fn lemma_count_step(n: nat, steps: Seq<MergeStep>, kept: spec_fn(int) -> bool, s: nat)
    requires
        is_dendrogram(n, steps),
        keeps_below(n, steps, kept),
        s < steps.len(),
        n + steps.len() <= i64::MAX,
    ensures
        labels::label_count(cuts_after(n, steps, kept, s)) == labels::label_count(
            cuts_after(n, steps, kept, s + 1),
        ) + (if kept(s as int) {
            1nat
        } else {
            0nat
        }),
{
    let (a, b) = (cuts_after(n, steps, kept, s), cuts_after(n, steps, kept, s + 1));
    let (na, nb) = (labels::newcomers(a), labels::newcomers(b));
    if kept(s as int) {
        let (c1, c2) = (steps[s as int].cluster1 as int, steps[s as int].cluster2 as int);
        lemma_unjoined(n, steps, s);
        let f1 = lemma_first_at(n, steps, kept, s, c1);
        let f2 = lemma_first_at(n, steps, kept, s, c2);
        let k = if f1 < f2 {
            f2
        } else {
            f1
        };
        let first = if f1 < f2 {
            f1
        } else {
            f2
        };
        assert forall|v: int| 0 <= v < n implies #[trigger] b[v] == (if a[v] == c1 || a[v] == c2 {
            (n + s) as i64
        } else {
            a[v]
        }) && a[v] < n + s && a[v] >= 0 by {
            lemma_cut_next(n, steps, kept, s, v);
            lemma_cut_range(n, steps, kept, s, v);
        }
        assert(a[f1] == c1 && a[f2] == c2);
        assert forall|x: int| 0 <= x < f1 implies #[trigger] a[x] != c1 by {
            assert(cut_node(n, steps, kept, s, x) != c1);
            lemma_cut_range(n, steps, kept, s, x);
        }
        assert forall|x: int| 0 <= x < f2 implies #[trigger] a[x] != c2 by {
            assert(cut_node(n, steps, kept, s, x) != c2);
            lemma_cut_range(n, steps, kept, s, x);
        }
        assert(na(k)) by {
            assert forall|x: int| 0 <= x < k implies #[trigger] a[x] != a[k] by {}
        }
        assert(!nb(k)) by {
            assert(b[first] == b[k]);
        }
        assert forall|j: int| 0 <= j < n && j != k implies #[trigger] nb(j) == na(j) by {
            if na(j) {
                assert forall|x: int| 0 <= x < j implies #[trigger] b[x] != b[j] by {
                    assert(a[x] != a[j]);
                    if a[j] == c1 {
                        assert(j == f1) by {
                            if f1 < j {
                                assert(a[f1] != a[j]);
                            }
                        }
                        assert(a[x] != c2);
                    } else if a[j] == c2 {
                        assert(j == f2) by {
                            if f2 < j {
                                assert(a[f2] != a[j]);
                            }
                        }
                        assert(a[x] != c1);
                    }
                }
            }
            if nb(j) {
                assert forall|x: int| 0 <= x < j implies #[trigger] a[x] != a[j] by {
                    assert(b[x] != b[j]);
                }
            }
        }
        counting::lemma_count_one_more(n, nb, na, k);
    } else {
        assert forall|v: int| 0 <= v < n implies a[v] == b[v] by {}
        assert(a =~= b);
    }
}

proof fn lemma_count_start(n: nat, steps: Seq<MergeStep>, kept: spec_fn(int) -> bool, m: nat)
    requires
        m <= n,
        n <= i64::MAX,
    ensures
        counting::count(m, labels::newcomers(cuts_after(n, steps, kept, 0))) == m,
    decreases m,
{
    if m > 0 {
        lemma_count_start(n, steps, kept, (m - 1) as nat);
        let a = cuts_after(n, steps, kept, 0);
        assert forall|x: int| 0 <= x < m - 1 implies #[trigger] a[x] != a[m - 1] by {}
        assert(labels::newcomers(a)(m - 1));
    }
}

proof fn lemma_count_after(n: nat, steps: Seq<MergeStep>, kept: spec_fn(int) -> bool, s: nat)
    requires
        is_dendrogram(n, steps),
        keeps_below(n, steps, kept),
        s <= steps.len(),
        n + steps.len() <= i64::MAX,
    ensures
        labels::label_count(cuts_after(n, steps, kept, s)) + counting::count(s, kept) == n,
    decreases s,
{
    if s == 0 {
        lemma_count_start(n, steps, kept, n);
    } else {
        lemma_count_after(n, steps, kept, (s - 1) as nat);
        lemma_count_step(n, steps, kept, (s - 1) as nat);
    }
}

proof fn lemma_among_first_count(m: nat, s: nat)
    ensures
        counting::count(s, among_first(m)) == (if s < m {
            s
        } else {
            m
        }),
    decreases s,
{
    if s > 0 {
        lemma_among_first_count(m, (s - 1) as nat);
    }
}

/// Cutting a whole dendrogram after its first `n - k` merges leaves exactly `k` clusters.
pub proof fn lemma_exactly_k(n: nat, steps: Seq<MergeStep>, k: nat)
    requires
        is_dendrogram(n, steps),
        steps.len() == n - 1,
        n + steps.len() <= i64::MAX,
        1 <= k < n,
    ensures
        labels::label_count(cut_nodes(n, steps, among_first((n - k) as nat))) == k,
{
    let kept = among_first((n - k) as nat);
    assert(keeps_below(n, steps, kept)) by {
        assert forall|q: int| 0 <= q < steps.len() && #[trigger] kept(q) implies {
            &&& steps[q].cluster1 >= n ==> kept(steps[q].cluster1 - n)
            &&& steps[q].cluster2 >= n ==> kept(steps[q].cluster2 - n)
        } by {
            assert(steps[q].cluster1 < n + q);
        }
    }
    lemma_count_after(n, steps, kept, steps.len());
    lemma_among_first_count((n - k) as nat, steps.len());
    assert(cut_nodes(n, steps, kept) =~= cuts_after(n, steps, kept, steps.len()));
}

proof fn lemma_threshold_keeps_below(n: nat, steps: Seq<MergeStep>, threshold: i64)
    requires
        is_dendrogram(n, steps),
    ensures
        keeps_below(n, steps, below_threshold(n, steps, threshold)),
{
    let kept = below_threshold(n, steps, threshold);
    assert forall|q: int| 0 <= q < steps.len() && #[trigger] kept(q) implies {
        &&& steps[q].cluster1 >= n ==> kept(steps[q].cluster1 - n)
        &&& steps[q].cluster2 >= n ==> kept(steps[q].cluster2 - n)
    } by {
        assert(steps[q].cluster1 < n + q);
        let (a, b) = (steps[q].cluster1 as int, steps[q].cluster2 as int);
        assert(height_below(n, steps, n + (a - n)) == height_below(n, steps, a));
        assert(height_below(n, steps, n + (b - n)) == height_below(n, steps, b));
    }
}

/// Points `i` and `j` are taken in by one merge that is kept.
pub open spec fn share_kept(
    n: nat,
    steps: Seq<MergeStep>,
    kept: spec_fn(int) -> bool,
    s: nat,
    i: int,
    j: int,
) -> bool {
    exists|q: int|
        0 <= q < s && #[trigger] kept(q) && holder(n, steps, (q + 1) as nat, i) == n + q && holder(
            n,
            steps,
            (q + 1) as nat,
            j,
        ) == n + q
}

proof fn lemma_together(
    n: nat,
    steps: Seq<MergeStep>,
    kept: spec_fn(int) -> bool,
    s: nat,
    i: int,
    j: int,
)
    requires
        0 <= i < n,
        0 <= j < n,
        s <= steps.len(),
    ensures
        cut_node(n, steps, kept, s, i) == cut_node(n, steps, kept, s, j) <==> (i == j || share_kept(
            n,
            steps,
            kept,
            s,
            i,
            j,
        )),
    decreases s,
{
    let (l, r) = (firsts(steps), seconds(steps));
    if s > 0 {
        let q = (s - 1) as nat;
        lemma_together(n, steps, kept, q, i, j);
        lemma_cut_range(n, steps, kept, q, i);
        lemma_cut_range(n, steps, kept, q, j);
        let (hi, hj) = (holder(n, steps, s, i), holder(n, steps, s, j));
        if share_kept(n, steps, kept, q, i, j) {
            let p = choose|p: int|
                0 <= p < q && #[trigger] kept(p) && holder(n, steps, (p + 1) as nat, i) == n + p
                    && holder(n, steps, (p + 1) as nat, j) == n + p;
            assert(kept(p) && p < s);
            linkage::lemma_still_held(n, l, r, (p + 1) as nat, s, i, j);
            assert(share_kept(n, steps, kept, s, i, j));
        }
        if share_kept(n, steps, kept, s, i, j) && !share_kept(n, steps, kept, q, i, j) {
            let p = choose|p: int|
                0 <= p < s && #[trigger] kept(p) && holder(n, steps, (p + 1) as nat, i) == n + p
                    && holder(n, steps, (p + 1) as nat, j) == n + p;
            assert(p == q);
        }
        if kept(q as int) && hi == n + q && hj == n + q {
            assert(kept(q as int));
            assert(share_kept(n, steps, kept, s, i, j));
        }
    }
}

/// Two points are in one flat cluster exactly if some merge takes in both and no merge in its subtree is
/// higher than the threshold.
pub proof fn lemma_flat_clusters(n: nat, steps: Seq<MergeStep>, threshold: i64, i: int, j: int)
    requires
        n + steps.len() <= i64::MAX,
        0 <= i < n,
        0 <= j < n,
        i != j,
    ensures
        ({
            let kept = below_threshold(n, steps, threshold);
            let nodes = cut_nodes(n, steps, kept);
            nodes[i] == nodes[j] <==> share_kept(n, steps, kept, steps.len(), i, j)
        }),
{
    let kept = below_threshold(n, steps, threshold);
    lemma_together(n, steps, kept, steps.len(), i, j);
    lemma_cut_range(n, steps, kept, steps.len(), i);
    lemma_cut_range(n, steps, kept, steps.len(), j);
}

/// A higher threshold never parts points: clusters only grow together.
pub proof fn lemma_clusters_grow(
    n: nat,
    steps: Seq<MergeStep>,
    low: i64,
    high: i64,
    i: int,
    j: int,
)
    requires
        n + steps.len() <= i64::MAX,
        low <= high,
        0 <= i < n,
        0 <= j < n,
        cut_nodes(n, steps, below_threshold(n, steps, low))[i] == cut_nodes(
            n,
            steps,
            below_threshold(n, steps, low),
        )[j],
    ensures
        cut_nodes(n, steps, below_threshold(n, steps, high))[i] == cut_nodes(
            n,
            steps,
            below_threshold(n, steps, high),
        )[j],
{
    if i != j {
        lemma_flat_clusters(n, steps, low, i, j);
        lemma_flat_clusters(n, steps, high, i, j);
        let kept = below_threshold(n, steps, low);
        let q = choose|q: int|
            0 <= q < steps.len() && #[trigger] kept(q) && holder(n, steps, (q + 1) as nat, i) == n
                + q && holder(n, steps, (q + 1) as nat, j) == n + q;
        assert(below_threshold(n, steps, high)(q));
    }
}

/// The names by which methods are asked for.
pub proof fn lemma_method_names()
    ensures
        Method::Single.name() == "single"@,
        Method::Complete.name() == "complete"@,
        Method::Average.name() == "average"@,
        Method::Centroid.name() == "centroid"@,
        Method::Ward.name() == "ward"@,
{
}

/// A point is a node of its own at first; a merge takes it in where it joins the node that holds it.
pub proof fn lemma_holder_steps(n: nat, steps: Seq<MergeStep>, s: nat, v: int)
    requires
        s < steps.len(),
    ensures
        holder(n, steps, 0, v) == v,
        ({
            let at = holder(n, steps, s, v);
            let joins = at == steps[s as int].cluster1 || at == steps[s as int].cluster2;
            holder(n, steps, s + 1, v) == (if joins {
                (n + s) as int
            } else {
                at
            })
        }),
{
}

/// A merge is made under a threshold if it is no higher, and neither is any merge below it; the points,
/// of height zero, count too.
pub proof fn lemma_below_threshold(n: nat, steps: Seq<MergeStep>, threshold: i64, s: int)
    requires
        is_dendrogram(n, steps),
        0 <= s < steps.len(),
    ensures
        ({
            let kept = below_threshold(n, steps, threshold);
            let (a, b) = (steps[s].cluster1 as int, steps[s].cluster2 as int);
            kept(s) <==> {
                &&& steps[s].height <= threshold
                &&& if a < n {
                    0 <= threshold
                } else {
                    kept(a - n)
                }
                &&& if b < n {
                    0 <= threshold
                } else {
                    kept(b - n)
                }
            }
        }),
{
    assert(steps[s].cluster1 < n + s);
    let (a, b) = (steps[s].cluster1 as int, steps[s].cluster2 as int);
    assert(n + (a - n) == a && n + (b - n) == b && (n + s) - n == s);
    let top = height_below(n, steps, n + s);
    assert(top == linkage::max2(
        linkage::max2(steps[s].height, height_below(n, steps, a)),
        height_below(n, steps, b),
    ));
    assert(a < n ==> height_below(n, steps, a) == 0);
    assert(b < n ==> height_below(n, steps, b) == 0);
}

/// Two points are in one flat cluster exactly if a merge that is made under the threshold takes in
/// both.
pub proof fn lemma_flat_together(n: nat, steps: Seq<MergeStep>, threshold: i64, i: int, j: int)
    requires
        n + steps.len() <= i64::MAX,
        0 <= i < n,
        0 <= j < n,
        i != j,
    ensures
        ({
            let kept = below_threshold(n, steps, threshold);
            let nodes = cut_nodes(n, steps, kept);
            nodes[i] == nodes[j] <==> exists|p: int|
                0 <= p < steps.len() && #[trigger] kept(p) && holder(n, steps, (p + 1) as nat, i)
                    == n + p && holder(n, steps, (p + 1) as nat, j) == n + p
        }),
{
    lemma_flat_clusters(n, steps, threshold, i, j);
}

/// Cut after its first `m` merges, a dendrogram leaves the nodes that hold the points by then.
pub proof fn lemma_cut_after(n: nat, steps: Seq<MergeStep>, m: nat, v: int)
    requires
        n + steps.len() <= i64::MAX,
        m <= steps.len(),
        0 <= v < n,
    ensures
        cut_nodes(n, steps, among_first(m))[v] == holder(n, steps, m, v),
{
    lemma_cut_after_upto(n, steps, m, steps.len(), v);
    linkage::lemma_top_older(n, firsts(steps), seconds(steps), m, v);
}

proof fn lemma_cut_after_upto(n: nat, steps: Seq<MergeStep>, m: nat, s: nat, v: int)
    requires
        m <= steps.len(),
        s <= steps.len(),
        0 <= v < n,
    ensures
        cut_node(n, steps, among_first(m), s, v) == holder(
            n,
            steps,
            if s < m {
                s
            } else {
                m
            },
            v,
        ),
    decreases s,
{
    if s > 0 {
        lemma_cut_after_upto(n, steps, m, (s - 1) as nat, v);
    }
}

} // verus!
