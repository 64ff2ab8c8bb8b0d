//! Density clustering: a merge tree is condensed to the clusters of a minimum size, some of the
//! clusters are selected, and every point is labelled with the selected cluster it belongs to.
//!
//! Densities are keys: whole numbers that order as the densities do, zero for density zero.

use crate::counting;
use crate::linkage;
use crate::selection;
use crate::sorting;
use vstd::prelude::*;

verus! {

/// An edge of the condensed tree: at density `lambda`, `child` leaves the cluster `parent`. A child
/// below the number of points is a point, any other a cluster of `size` points.
#[derive(Debug, Clone, Copy, PartialEq, Eq, Structural)]
pub struct CondensedEdge {
    pub parent: usize,
    pub child: usize,
    pub lambda: i64,
    pub size: usize,
}

/// The children of node `n + s` are older than it.
pub open spec fn splits(n: nat, left: Seq<usize>, right: Seq<usize>, node: int) -> bool {
    let s = node - n;
    &&& 0 <= s < left.len()
    &&& s < right.len()
    &&& left[s] < node
    &&& right[s] < node
}

/// The nodes of the subtree of `node`: the node, then those of its right child, then those of its
/// left child.
pub open spec fn nodes_below(n: nat, left: Seq<usize>, right: Seq<usize>, node: int) -> Seq<usize>
    decreases node,
{
    if splits(n, left, right, node) {
        let s = node - n;
        seq![node as usize] + nodes_below(n, left, right, right[s] as int) + nodes_below(
            n,
            left,
            right,
            left[s] as int,
        )
    } else {
        seq![node as usize]
    }
}

/// The points of the subtree of `node`: those of its right child, then those of its left child.
pub open spec fn points_below(n: nat, left: Seq<usize>, right: Seq<usize>, node: int) -> Seq<usize>
    decreases node,
{
    if splits(n, left, right, node) {
        let s = node - n;
        points_below(n, left, right, right[s] as int) + points_below(
            n,
            left,
            right,
            left[s] as int,
        )
    } else {
        seq![node as usize]
    }
}

/// The nodes of the subtrees of a stack of nodes, from the top of the stack down.
pub open spec fn stack_nodes(
    n: nat,
    left: Seq<usize>,
    right: Seq<usize>,
    stack: Seq<usize>,
) -> Seq<usize>
    decreases stack.len(),
{
    if stack.len() == 0 {
        Seq::empty()
    } else {
        nodes_below(n, left, right, stack.last() as int) + stack_nodes(
            n,
            left,
            right,
            stack.drop_last(),
        )
    }
}

/// Every node that a merge made is younger than the nodes it joined.
pub open spec fn is_tree(n: nat, left: Seq<usize>, right: Seq<usize>) -> bool {
    &&& left.len() == right.len()
    &&& forall|s: int|
        0 <= s < left.len() ==> #[trigger] left[s] < n + s && right[s] < n + s
}

/// The number of points below a node.
pub fn subtree_size(node: usize, n: usize, sizes: &[usize]) -> (r: usize)
    requires
        node < n + sizes@.len(),
    ensures
        r == linkage::size_of(n as nat, sizes@, node as int),
{
    if node < n {
        1
    } else {
        sizes[node - n]
    }
}

proof fn lemma_stack_nodes_push(
    n: nat,
    left: Seq<usize>,
    right: Seq<usize>,
    stack: Seq<usize>,
    x: usize,
)
    ensures
        stack_nodes(n, left, right, stack.push(x)) == nodes_below(n, left, right, x as int)
            + stack_nodes(n, left, right, stack),
{
    assert(stack.push(x).drop_last() =~= stack);
}

/// The nodes of the subtree of `start`, every node before its children.
pub fn descend(start: usize, n: usize, left: &[usize], right: &[usize]) -> (out: Vec<usize>)
    requires
        is_tree(n as nat, left@, right@),
        start < n + left@.len(),
    ensures
        out@ == nodes_below(n as nat, left@, right@, start as int),
{
    let mut out: Vec<usize> = Vec::new();
    let mut stack: Vec<usize> = Vec::new();
    stack.push(start);
    proof {
        let none = Seq::<usize>::empty();
        let all = nodes_below(n as nat, left@, right@, start as int);
        lemma_stack_nodes_push(n as nat, left@, right@, none, start);
        assert(stack@ =~= none.push(start));
        assert(stack_nodes(n as nat, left@, right@, none) =~= none);
        assert(all + none =~= all);
        assert(out@ + all =~= all);
    }
    while stack.len() > 0
        invariant
            is_tree(n as nat, left@, right@),
            forall|i: int| 0 <= i < stack@.len() ==> #[trigger] stack@[i] < n + left@.len(),
            out@ + stack_nodes(n as nat, left@, right@, stack@) == nodes_below(
                n as nat,
                left@,
                right@,
                start as int,
            ),
        decreases stack_nodes(n as nat, left@, right@, stack@).len(),
    {
        let ghost nn = n as nat;
        let ghost before = stack@;
        let ghost below = stack_nodes(nn, left@, right@, before.drop_last());
        let ghost out0 = out@;
        let node: usize = match stack.pop() {
            Some(x) => x,
            None => 0,
        };
        assert(node == before.last());
        assert(stack@ =~= before.drop_last());
        out.push(node);
        if node >= n {
            let s: usize = node - n;
            stack.push(left[s]);
            stack.push(right[s]);
            proof {
                assert(splits(nn, left@, right@, node as int));
                let low = before.drop_last();
                lemma_stack_nodes_push(nn, left@, right@, low, left@[s as int]);
                lemma_stack_nodes_push(
                    nn,
                    left@,
                    right@,
                    low.push(left@[s as int]),
                    right@[s as int],
                );
                let rn = nodes_below(nn, left@, right@, right@[s as int] as int);
                let ln = nodes_below(nn, left@, right@, left@[s as int] as int);
                assert(stack_nodes(nn, left@, right@, stack@) =~= rn + (ln + below));
                assert(out@ + (rn + (ln + below)) =~= out0 + ((seq![node] + rn + ln) + below));
            }
        } else {
            assert(!splits(nn, left@, right@, node as int));
            assert(out@ + below =~= out0 + (seq![node] + below));
        }
    }
    assert(out@ + Seq::<usize>::empty() =~= out@);
    out
}

/// The edges by which the points of the subtree of `child` leave the cluster `parent`.
pub open spec fn leaving(
    n: nat,
    left: Seq<usize>,
    right: Seq<usize>,
    child: int,
    parent: usize,
    lambda: i64,
) -> Seq<CondensedEdge> {
    points_below(n, left, right, child).map_values(
        |p: usize| CondensedEdge { parent, child: p, lambda, size: 1 },
    )
}

/// The condensed tree of the subtree of `node`, whose points form the cluster `label` so far, and
/// the next free cluster number, `next` being the first free one. Where both children are large
/// enough, both become clusters; where one is, it goes on as the cluster and the points of the other
/// leave; where neither is, all points leave.
pub open spec fn condensed(
    n: nat,
    left: Seq<usize>,
    right: Seq<usize>,
    sizes: Seq<usize>,
    lambda: Seq<i64>,
    mcs: nat,
    node: int,
    label: usize,
    next: nat,
) -> (Seq<CondensedEdge>, nat)
    decreases node,
{
    if splits(n, left, right, node) {
        let s = node - n;
        let (l, r) = (left[s] as int, right[s] as int);
        let lc = linkage::size_of(n, sizes, l);
        let rc = linkage::size_of(n, sizes, r);
        let lam = lambda[s];
        if lc >= mcs && rc >= mcs {
            let (er, n1) = condensed(
                n,
                left,
                right,
                sizes,
                lambda,
                mcs,
                r,
                (next + 1) as usize,
                next + 2,
            );
            let (el, n2) = condensed(n, left, right, sizes, lambda, mcs, l, next as usize, n1);
            (
                seq![
                    CondensedEdge {
                        parent: label,
                        child: next as usize,
                        lambda: lam,
                        size: lc as usize,
                    },
                    CondensedEdge {
                        parent: label,
                        child: (next + 1) as usize,
                        lambda: lam,
                        size: rc as usize,
                    },
                ] + er + el,
                n2,
            )
        } else if lc < mcs && rc < mcs {
            (
                leaving(n, left, right, l, label, lam) + leaving(n, left, right, r, label, lam),
                next,
            )
        } else if lc < mcs {
            let (er, n1) = condensed(n, left, right, sizes, lambda, mcs, r, label, next);
            (leaving(n, left, right, l, label, lam) + er, n1)
        } else {
            let (el, n1) = condensed(n, left, right, sizes, lambda, mcs, l, label, next);
            (leaving(n, left, right, r, label, lam) + el, n1)
        }
    } else {
        (Seq::empty(), next)
    }
}

/// The condensed trees of a stack of nodes with their labels, from the top of the stack down.
spec fn stack_condensed(
    n: nat,
    left: Seq<usize>,
    right: Seq<usize>,
    sizes: Seq<usize>,
    lambda: Seq<i64>,
    mcs: nat,
    stack: Seq<(usize, usize)>,
    next: nat,
) -> Seq<CondensedEdge>
    decreases stack.len(),
{
    if stack.len() == 0 {
        Seq::empty()
    } else {
        let (e, n1) = condensed(
            n,
            left,
            right,
            sizes,
            lambda,
            mcs,
            stack.last().0 as int,
            stack.last().1,
            next,
        );
        e + stack_condensed(n, left, right, sizes, lambda, mcs, stack.drop_last(), n1)
    }
}

/// The number of merges below the nodes of a stack.
spec fn stack_merges(n: nat, sizes: Seq<usize>, stack: Seq<(usize, usize)>) -> int
    decreases stack.len(),
{
    if stack.len() == 0 {
        0
    } else {
        linkage::size_of(n, sizes, stack.last().0 as int) - 1 + stack_merges(
            n,
            sizes,
            stack.drop_last(),
        )
    }
}

proof fn lemma_size_positive(n: nat, left: Seq<usize>, right: Seq<usize>, sizes: Seq<usize>, node: int)
    requires
        linkage::is_hierarchy(n, left, right, sizes),
        0 <= node < 2 * n - 1,
    ensures
        linkage::size_of(n, sizes, node) >= 1,
    decreases node,
{
    if node >= n {
        let s = node - n;
        assert(left[s] < n + s);
        lemma_size_positive(n, left, right, sizes, left[s] as int);
    }
}

proof fn lemma_stack_merges_nonneg(
    n: nat,
    left: Seq<usize>,
    right: Seq<usize>,
    sizes: Seq<usize>,
    stack: Seq<(usize, usize)>,
)
    requires
        linkage::is_hierarchy(n, left, right, sizes),
        forall|i: int| 0 <= i < stack.len() ==> (#[trigger] stack[i]).0 < 2 * n - 1,
    ensures
        stack_merges(n, sizes, stack) >= 0,
    decreases stack.len(),
{
    if stack.len() > 0 {
        assert(stack.last() == stack[stack.len() - 1]);
        lemma_size_positive(n, left, right, sizes, stack.last().0 as int);
        lemma_stack_merges_nonneg(n, left, right, sizes, stack.drop_last());
    }
}

proof fn lemma_points_of_nodes(n: nat, left: Seq<usize>, right: Seq<usize>, node: int)
    requires
        is_tree(n, left, right),
        0 <= node < n + left.len(),
        n + left.len() <= usize::MAX,
    ensures
        nodes_below(n, left, right, node).filter(|x: usize| x < n) == points_below(
            n,
            left,
            right,
            node,
        ),
    decreases node,
{
    let p = |x: usize| x < n;
    reveal(Seq::filter);
    if node >= n {
        let s = node - n;
        assert(left[s] < n + s);
        assert(splits(n, left, right, node));
        lemma_points_of_nodes(n, left, right, right[s] as int);
        lemma_points_of_nodes(n, left, right, left[s] as int);
        let one = seq![node as usize];
        let rn = nodes_below(n, left, right, right[s] as int);
        let ln = nodes_below(n, left, right, left[s] as int);
        Seq::filter_distributes_over_add(one + rn, ln, p);
        Seq::filter_distributes_over_add(one, rn, p);
        assert(one.drop_last() =~= Seq::<usize>::empty());
        assert(Seq::<usize>::empty().filter(p) =~= Seq::<usize>::empty());
        assert(one.filter(p) =~= Seq::<usize>::empty());
        assert(Seq::<usize>::empty() + rn.filter(p) =~= rn.filter(p));
    } else {
        assert(!splits(n, left, right, node));
        let one = seq![node as usize];
        assert(one.drop_last() =~= Seq::<usize>::empty());
        assert(one.filter(p) =~= one);
    }
}

/// Lets the points of the subtree of `child` leave the cluster `parent`.
pub fn fall_out(
    child: usize,
    parent: usize,
    lambda: i64,
    n: usize,
    left: &[usize],
    right: &[usize],
    result: &mut Vec<CondensedEdge>,
)
    requires
        is_tree(n as nat, left@, right@),
        child < n + left@.len(),
        n + left@.len() <= usize::MAX,
    ensures
        final(result)@ == old(result)@ + leaving(
            n as nat,
            left@,
            right@,
            child as int,
            parent,
            lambda,
        ),
{
    let nodes = descend(child, n, left, right);
    let ghost start = result@;
    let ghost p = |x: usize| x < n;
    let ghost edge = |x: usize| CondensedEdge { parent, child: x, lambda, size: 1 };
    let mut i: usize = 0;
    while i < nodes.len()
        invariant
            i <= nodes@.len(),
            p == (|x: usize| x < n),
            edge == (|x: usize| CondensedEdge { parent, child: x, lambda, size: 1 }),
            result@ == start + nodes@.take(i as int).filter(p).map_values(edge),
        decreases nodes.len() - i,
    {
        let x: usize = nodes[i];
        let ghost prefix = nodes@.take(i as int);
        proof {
            assert(nodes@.take(i + 1).drop_last() =~= prefix);
            reveal(Seq::filter);
        }
        if x < n {
            result.push(CondensedEdge { parent, child: x, lambda, size: 1 });
            assert(nodes@.take(i + 1).filter(p) =~= prefix.filter(p).push(x));
            assert(result@ =~= start + nodes@.take(i + 1).filter(p).map_values(edge));
        } else {
            assert(nodes@.take(i + 1).filter(p) =~= prefix.filter(p));
        }
        i = i + 1;
    }
    proof {
        assert(nodes@.take(nodes@.len() as int) =~= nodes@);
        lemma_points_of_nodes(n as nat, left@, right@, child as int);
    }
}

proof fn lemma_stack_condensed_push(
    n: nat,
    left: Seq<usize>,
    right: Seq<usize>,
    sizes: Seq<usize>,
    lambda: Seq<i64>,
    mcs: nat,
    stack: Seq<(usize, usize)>,
    x: (usize, usize),
    next: nat,
)
    ensures
        stack_condensed(n, left, right, sizes, lambda, mcs, stack.push(x), next) == condensed(
            n,
            left,
            right,
            sizes,
            lambda,
            mcs,
            x.0 as int,
            x.1,
            next,
        ).0 + stack_condensed(
            n,
            left,
            right,
            sizes,
            lambda,
            mcs,
            stack,
            condensed(n, left, right, sizes, lambda, mcs, x.0 as int, x.1, next).1,
        ),
        stack_merges(n, sizes, stack.push(x)) == linkage::size_of(n, sizes, x.0 as int) - 1
            + stack_merges(n, sizes, stack),
{
    assert(stack.push(x).drop_last() =~= stack);
}

/// What is left to do, after the node on top of the stack has been dealt with, does not depend on how
/// the stack came about.
spec fn remaining(
    n: nat,
    left: Seq<usize>,
    right: Seq<usize>,
    sizes: Seq<usize>,
    lambda: Seq<i64>,
    mcs: nat,
    result: Seq<CondensedEdge>,
    stack: Seq<(usize, usize)>,
    next: nat,
) -> Seq<CondensedEdge> {
    result + stack_condensed(n, left, right, sizes, lambda, mcs, stack, next)
}

proof fn lemma_split_both(
    n: nat,
    left: Seq<usize>,
    right: Seq<usize>,
    sizes: Seq<usize>,
    lambda: Seq<i64>,
    mcs: nat,
    result: Seq<CondensedEdge>,
    low: Seq<(usize, usize)>,
    next: nat,
    node: usize,
    label: usize,
)
    requires
        splits(n, left, right, node as int),
        linkage::size_of(n, sizes, left[node - n] as int) >= mcs,
        linkage::size_of(n, sizes, right[node - n] as int) >= mcs,
    ensures
        ({
            let s = node - n;
            let (l, r) = (left[s], right[s]);
            let first = CondensedEdge {
                parent: label,
                child: next as usize,
                lambda: lambda[s],
                size: linkage::size_of(n, sizes, l as int) as usize,
            };
            let second = CondensedEdge {
                parent: label,
                child: (next + 1) as usize,
                lambda: lambda[s],
                size: linkage::size_of(n, sizes, r as int) as usize,
            };
            remaining(
                n,
                left,
                right,
                sizes,
                lambda,
                mcs,
                result.push(first).push(second),
                low.push((l, next as usize)).push((r, (next + 1) as usize)),
                next + 2,
            ) == remaining(
                n,
                left,
                right,
                sizes,
                lambda,
                mcs,
                result,
                low.push((node, label)),
                next,
            )
        }),
{
    let s = node - n;
    let (l, r) = (left[s], right[s]);
    let (a, b) = ((l, next as usize), (r, (next + 1) as usize));
    lemma_stack_condensed_push(
        n,
        left,
        right,
        sizes,
        lambda,
        mcs,
        low,
        (node, label),
        next,
    );
    lemma_stack_condensed_push(n, left, right, sizes, lambda, mcs, low.push(a), b, next + 2);
    let (er, n1) = condensed(n, left, right, sizes, lambda, mcs, r as int, b.1, next + 2);
    lemma_stack_condensed_push(n, left, right, sizes, lambda, mcs, low, a, n1);
    let (el, n2) = condensed(n, left, right, sizes, lambda, mcs, l as int, a.1, n1);
    let rest = stack_condensed(n, left, right, sizes, lambda, mcs, low, n2);
    let first = CondensedEdge {
        parent: label,
        child: next as usize,
        lambda: lambda[s],
        size: linkage::size_of(n, sizes, l as int) as usize,
    };
    let second = CondensedEdge {
        parent: label,
        child: (next + 1) as usize,
        lambda: lambda[s],
        size: linkage::size_of(n, sizes, r as int) as usize,
    };
    let two = seq![first, second];
    assert(result.push(first).push(second) + (er + (el + rest)) =~= result + ((two + er + el)
        + rest));
}

proof fn lemma_split_none(
    n: nat,
    left: Seq<usize>,
    right: Seq<usize>,
    sizes: Seq<usize>,
    lambda: Seq<i64>,
    mcs: nat,
    result: Seq<CondensedEdge>,
    low: Seq<(usize, usize)>,
    next: nat,
    node: usize,
    label: usize,
)
    requires
        splits(n, left, right, node as int),
        linkage::size_of(n, sizes, left[node - n] as int) < mcs,
        linkage::size_of(n, sizes, right[node - n] as int) < mcs,
    ensures
        remaining(
            n,
            left,
            right,
            sizes,
            lambda,
            mcs,
            result + leaving(n, left, right, left[node - n] as int, label, lambda[node - n])
                + leaving(n, left, right, right[node - n] as int, label, lambda[node - n]),
            low,
            next,
        ) == remaining(
            n,
            left,
            right,
            sizes,
            lambda,
            mcs,
            result,
            low.push((node, label)),
            next,
        ),
{
    let s = node - n;
    lemma_stack_condensed_push(
        n,
        left,
        right,
        sizes,
        lambda,
        mcs,
        low,
        (node, label),
        next,
    );
    let a = leaving(n, left, right, left[s] as int, label, lambda[s]);
    let b = leaving(n, left, right, right[s] as int, label, lambda[s]);
    let rest = stack_condensed(n, left, right, sizes, lambda, mcs, low, next);
    assert((result + a + b) + rest =~= result + ((a + b) + rest));
}

proof fn lemma_split_one(
    n: nat,
    left: Seq<usize>,
    right: Seq<usize>,
    sizes: Seq<usize>,
    lambda: Seq<i64>,
    mcs: nat,
    result: Seq<CondensedEdge>,
    low: Seq<(usize, usize)>,
    next: nat,
    node: usize,
    label: usize,
    out: usize,
    on: usize,
)
    requires
        splits(n, left, right, node as int),
        (out == left[node - n] && on == right[node - n]) || (out == right[node - n] && on
            == left[node - n]),
        linkage::size_of(n, sizes, out as int) < mcs,
        linkage::size_of(n, sizes, on as int) >= mcs,
    ensures
        remaining(
            n,
            left,
            right,
            sizes,
            lambda,
            mcs,
            result + leaving(n, left, right, out as int, label, lambda[node - n]),
            low.push((on, label)),
            next,
        ) == remaining(
            n,
            left,
            right,
            sizes,
            lambda,
            mcs,
            result,
            low.push((node, label)),
            next,
        ),
{
    let s = node - n;
    lemma_stack_condensed_push(
        n,
        left,
        right,
        sizes,
        lambda,
        mcs,
        low,
        (node, label),
        next,
    );
    lemma_stack_condensed_push(n, left, right, sizes, lambda, mcs, low, (on, label), next);
    let (e, n1) = condensed(n, left, right, sizes, lambda, mcs, on as int, label, next);
    let rest = stack_condensed(n, left, right, sizes, lambda, mcs, low, n1);
    let a = leaving(n, left, right, out as int, label, lambda[s]);
    assert((result + a) + (e + rest) =~= result + ((a + e) + rest));
}

/// The condensed tree of a merge tree; the cluster of all points has the number `n`.
pub fn condense_tree(
    n: usize,
    left: &[usize],
    right: &[usize],
    sizes: &[usize],
    lambda: &[i64],
    mcs: usize,
) -> (result: Vec<CondensedEdge>)
    requires
        linkage::is_hierarchy(n as nat, left@, right@, sizes@),
        lambda@.len() == left@.len(),
        3 * n <= usize::MAX,
    ensures
        result@ == condensed(
            n as nat,
            left@,
            right@,
            sizes@,
            lambda@,
            mcs as nat,
            2 * n - 2,
            n,
            (n + 1) as nat,
        ).0,
{
    let mut result: Vec<CondensedEdge> = Vec::new();
    let mut stack: Vec<(usize, usize)> = Vec::new();
    let mut next: usize = n + 1;
    stack.push((2 * n - 2, n));
    let ghost nn = n as nat;
    let ghost m = mcs as nat;
    let ghost total = condensed(
        nn,
        left@,
        right@,
        sizes@,
        lambda@,
        m,
        2 * n - 2,
        n,
        (n + 1) as nat,
    ).0;
    proof {
        let none = Seq::<(usize, usize)>::empty();
        let root = ((2 * n - 2) as usize, n);
        lemma_stack_condensed_push(
            nn,
            left@,
            right@,
            sizes@,
            lambda@,
            m,
            none,
            root,
            next as nat,
        );
        assert(stack@ =~= none.push(root));
        assert(forall|k: nat| #[trigger]
            stack_condensed(nn, left@, right@, sizes@, lambda@, m, none, k) =~= Seq::empty());
        assert(stack_merges(nn, sizes@, none) == 0);
        assert(total + Seq::<CondensedEdge>::empty() =~= total);
        assert(result@ + total =~= total);
    }
    while stack.len() > 0
        invariant
            nn == n,
            m == mcs,
            linkage::is_hierarchy(nn, left@, right@, sizes@),
            lambda@.len() == left@.len(),
            3 * n <= usize::MAX,
            forall|i: int| 0 <= i < stack@.len() ==> (#[trigger] stack@[i]).0 < 2 * n - 1,
            next + 2 * stack_merges(nn, sizes@, stack@) <= 3 * n - 1,
            remaining(nn, left@, right@, sizes@, lambda@, m, result@, stack@, next as nat)
                == total,
        decreases 2 * stack_merges(nn, sizes@, stack@) + stack@.len(),
    {
        let ghost before = stack@;
        let ghost next0 = next as nat;
        let ghost result0 = result@;
        let (node, label): (usize, usize) = match stack.pop() {
            Some(x) => x,
            None => (0, 0),
        };
        let ghost low = stack@;
        proof {
            assert(before.last() == before[before.len() - 1]);
            assert(before =~= low.push((node, label)));
            lemma_stack_merges_nonneg(nn, left@, right@, sizes@, low);
            lemma_size_positive(nn, left@, right@, sizes@, node as int);
            lemma_stack_condensed_push(
                nn,
                left@,
                right@,
                sizes@,
                lambda@,
                m,
                low,
                (node, label),
                next0,
            );
        }
        if node >= n {
            let s: usize = node - n;
            let l: usize = left[s];
            let r: usize = right[s];
            assert(left@[s as int] < n + s && right@[s as int] < n + s);
            assert(splits(nn, left@, right@, node as int));
            let lc: usize = subtree_size(l, n, sizes);
            let rc: usize = subtree_size(r, n, sizes);
            let lam: i64 = lambda[s];
            proof {
                lemma_size_positive(nn, left@, right@, sizes@, l as int);
                lemma_size_positive(nn, left@, right@, sizes@, r as int);
                lemma_stack_condensed_push(
                    nn,
                    left@,
                    right@,
                    sizes@,
                    lambda@,
                    m,
                    low,
                    (l, label),
                    next0,
                );
                lemma_stack_condensed_push(
                    nn,
                    left@,
                    right@,
                    sizes@,
                    lambda@,
                    m,
                    low,
                    (r, label),
                    next0,
                );
            }
            if lc >= mcs && rc >= mcs {
                result.push(CondensedEdge { parent: label, child: next, lambda: lam, size: lc });
                result.push(
                    CondensedEdge { parent: label, child: next + 1, lambda: lam, size: rc },
                );
                stack.push((l, next));
                stack.push((r, next + 1));
                proof {
                    let a = (l, next);
                    let b = (r, (next + 1) as usize);
                    lemma_split_both(
                        nn,
                        left@,
                        right@,
                        sizes@,
                        lambda@,
                        m,
                        result0,
                        low,
                        next0,
                        node,
                        label,
                    );
                    lemma_stack_condensed_push(
                        nn,
                        left@,
                        right@,
                        sizes@,
                        lambda@,
                        m,
                        low,
                        a,
                        next0,
                    );
                    lemma_stack_condensed_push(
                        nn,
                        left@,
                        right@,
                        sizes@,
                        lambda@,
                        m,
                        low.push(a),
                        b,
                        next0,
                    );
                }
                next = next + 2;
            } else if lc < mcs && rc < mcs {
                fall_out(l, label, lam, n, left, right, &mut result);
                fall_out(r, label, lam, n, left, right, &mut result);
                proof {
                    lemma_split_none(
                        nn,
                        left@,
                        right@,
                        sizes@,
                        lambda@,
                        m,
                        result0,
                        low,
                        next0,
                        node,
                        label,
                    );
                }
            } else {
                let (out, on): (usize, usize) = if lc < mcs {
                    (l, r)
                } else {
                    (r, l)
                };
                fall_out(out, label, lam, n, left, right, &mut result);
                stack.push((on, label));
                proof {
                    lemma_split_one(
                        nn,
                        left@,
                        right@,
                        sizes@,
                        lambda@,
                        m,
                        result0,
                        low,
                        next0,
                        node,
                        label,
                        out,
                        on,
                    );
                }
            }
        } else {
            proof {
                assert(!splits(nn, left@, right@, node as int));
                let rest = stack_condensed(nn, left@, right@, sizes@, lambda@, m, low, next0);
                assert(Seq::<CondensedEdge>::empty() + rest =~= rest);
            }
        }
    }
    assert(result@ + Seq::<CondensedEdge>::empty() =~= result@);
    result
}

/// The edges of a condensed tree over `n` points: a cluster leaves only an older cluster, no cluster
/// leaves twice, and only clusters are left.
pub open spec fn is_condensed(n: nat, edges: Seq<CondensedEdge>) -> bool {
    &&& forall|i: int| 0 <= i < edges.len() ==> (#[trigger] edges[i]).parent >= n
    &&& forall|i: int|
        0 <= i < edges.len() && (#[trigger] edges[i]).child >= n ==> edges[i].parent
            < edges[i].child
    &&& forall|i: int, j: int|
        0 <= i < j < edges.len() && (#[trigger] edges[i]).child >= n ==> edges[i].child != (
        #[trigger] edges[j]).child
}

/// The shape of the condensed tree of a node: its clusters are numbered from `lo` up to `hi`, and only
/// they and `label` are left.
spec fn shaped(
    n: nat,
    edges: Seq<CondensedEdge>,
    label: usize,
    mcs: nat,
    lo: nat,
    hi: nat,
) -> bool {
    &&& forall|i: int|
        0 <= i < edges.len() ==> {
            let e = #[trigger] edges[i];
            &&& e.parent == label || lo <= e.parent < hi
            &&& e.child < n || (lo <= e.child < hi && e.parent < e.child && e.size >= mcs)
        }
    &&& forall|i: int, j: int|
        0 <= i < j < edges.len() && (#[trigger] edges[i]).child >= n ==> edges[i].child != (
        #[trigger] edges[j]).child
}

proof fn lemma_shaped_concat(
    n: nat,
    a: Seq<CondensedEdge>,
    la: usize,
    b: Seq<CondensedEdge>,
    lb: usize,
    label: usize,
    mcs: nat,
    lo: nat,
    mid: nat,
    hi: nat,
)
    requires
        shaped(n, a, la, mcs, lo, mid),
        shaped(n, b, lb, mcs, mid, hi),
        lo <= mid <= hi,
        la == label || lo <= la < hi,
        lb == label || lo <= lb < hi,
    ensures
        shaped(n, a + b, label, mcs, lo, hi),
{
    let ab = a + b;
    assert forall|i: int| 0 <= i < ab.len() implies {
        let e = #[trigger] ab[i];
        &&& e.parent == label || lo <= e.parent < hi
        &&& e.child < n || (lo <= e.child < hi && e.parent < e.child && e.size >= mcs)
    } by {
        if i < a.len() {
            assert(ab[i] == a[i]);
        } else {
            assert(ab[i] == b[i - a.len()]);
        }
    }
    assert forall|i: int, j: int| 0 <= i < j < ab.len() && (#[trigger] ab[i]).child >= n implies
        ab[i].child != (#[trigger] ab[j]).child by {
        if j < a.len() {
            assert(ab[i] == a[i] && ab[j] == a[j]);
        } else if i >= a.len() {
            assert(ab[i] == b[i - a.len()] && ab[j] == b[j - a.len()]);
        } else {
            assert(ab[i] == a[i] && ab[j] == b[j - a.len()]);
        }
    }
}

proof fn lemma_points_are_points(n: nat, left: Seq<usize>, right: Seq<usize>, node: int)
    requires
        is_tree(n, left, right),
        0 <= node < n + left.len(),
        n + left.len() <= usize::MAX,
    ensures
        forall|i: int|
            0 <= i < points_below(n, left, right, node).len() ==> #[trigger] points_below(
                n,
                left,
                right,
                node,
            )[i] < n,
    decreases node,
{
    if node >= n {
        let s = node - n;
        assert(left[s] < n + s);
        assert(splits(n, left, right, node));
        lemma_points_are_points(n, left, right, left[s] as int);
        lemma_points_are_points(n, left, right, right[s] as int);
        let rp = points_below(n, left, right, right[s] as int);
        let lp = points_below(n, left, right, left[s] as int);
        assert forall|i: int| 0 <= i < (rp + lp).len() implies #[trigger] (rp + lp)[i] < n by {
            if i < rp.len() {
                assert((rp + lp)[i] == rp[i]);
            } else {
                assert((rp + lp)[i] == lp[i - rp.len()]);
            }
        }
    }
}

proof fn lemma_shaped_leaving(
    n: nat,
    left: Seq<usize>,
    right: Seq<usize>,
    child: int,
    label: usize,
    lambda: i64,
    mcs: nat,
    lo: nat,
)
    requires
        is_tree(n, left, right),
        0 <= child < n + left.len(),
        n + left.len() <= usize::MAX,
    ensures
        shaped(n, leaving(n, left, right, child, label, lambda), label, mcs, lo, lo),
{
    lemma_points_are_points(n, left, right, child);
    let pts = points_below(n, left, right, child);
    let e = leaving(n, left, right, child, label, lambda);
    assert forall|i: int| 0 <= i < e.len() implies (#[trigger] e[i]).child < n && e[i].parent
        == label by {
        assert(pts[i] < n);
    }
}

proof fn lemma_condensed_shape(
    n: nat,
    left: Seq<usize>,
    right: Seq<usize>,
    sizes: Seq<usize>,
    lambda: Seq<i64>,
    mcs: nat,
    node: int,
    label: usize,
    next: nat,
)
    requires
        linkage::is_hierarchy(n, left, right, sizes),
        0 <= node < 2 * n - 1,
        label < next,
        n <= next,
        next + 2 * linkage::size_of(n, sizes, node) <= usize::MAX,
        2 * n <= usize::MAX,
    ensures
        ({
            let (e, n1) = condensed(n, left, right, sizes, lambda, mcs, node, label, next);
            &&& next <= n1 <= next + 2 * (linkage::size_of(n, sizes, node) - 1)
            &&& shaped(n, e, label, mcs, next, n1)
        }),
    decreases node,
{
    lemma_size_positive(n, left, right, sizes, node);
    if splits(n, left, right, node) {
        let s = node - n;
        assert(left[s] < n + s);
        let (l, r) = (left[s] as int, right[s] as int);
        let lc = linkage::size_of(n, sizes, l);
        let rc = linkage::size_of(n, sizes, r);
        let lam = lambda[s];
        lemma_size_positive(n, left, right, sizes, l);
        lemma_size_positive(n, left, right, sizes, r);
        if lc >= mcs && rc >= mcs {
            let nl = next as usize;
            let nr = (next + 1) as usize;
            lemma_condensed_shape(n, left, right, sizes, lambda, mcs, r, nr, next + 2);
            let (er, n1) = condensed(n, left, right, sizes, lambda, mcs, r, nr, next + 2);
            lemma_condensed_shape(n, left, right, sizes, lambda, mcs, l, nl, n1);
            let (el, n2) = condensed(n, left, right, sizes, lambda, mcs, l, nl, n1);
            let two = seq![
                CondensedEdge { parent: label, child: nl, lambda: lam, size: lc as usize },
                CondensedEdge { parent: label, child: nr, lambda: lam, size: rc as usize },
            ];
            assert(shaped(n, two, label, mcs, next, next + 2));
            lemma_shaped_concat(n, two, label, er, nr, label, mcs, next, next + 2, n1);
            lemma_shaped_concat(n, two + er, label, el, nl, label, mcs, next, n1, n2);
        } else if lc < mcs && rc < mcs {
            lemma_shaped_leaving(n, left, right, l, label, lam, mcs, next);
            lemma_shaped_leaving(n, left, right, r, label, lam, mcs, next);
            let a = leaving(n, left, right, l, label, lam);
            let b = leaving(n, left, right, r, label, lam);
            lemma_shaped_concat(n, a, label, b, label, label, mcs, next, next, next);
        } else if lc < mcs {
            lemma_condensed_shape(n, left, right, sizes, lambda, mcs, r, label, next);
            lemma_shaped_leaving(n, left, right, l, label, lam, mcs, next);
            let (er, n1) = condensed(n, left, right, sizes, lambda, mcs, r, label, next);
            let a = leaving(n, left, right, l, label, lam);
            lemma_shaped_concat(n, a, label, er, label, label, mcs, next, next, n1);
        } else {
            lemma_condensed_shape(n, left, right, sizes, lambda, mcs, l, label, next);
            lemma_shaped_leaving(n, left, right, r, label, lam, mcs, next);
            let (el, n1) = condensed(n, left, right, sizes, lambda, mcs, l, label, next);
            let a = leaving(n, left, right, r, label, lam);
            lemma_shaped_concat(n, a, label, el, label, label, mcs, next, next, n1);
        }
    }
}

/// A condensed tree is well formed, and every cluster that leaves another has at least the minimum
/// size.
pub proof fn lemma_condensed_clusters(
    n: nat,
    left: Seq<usize>,
    right: Seq<usize>,
    sizes: Seq<usize>,
    lambda: Seq<i64>,
    mcs: nat,
)
    requires
        linkage::is_hierarchy(n, left, right, sizes),
        3 * n + 1 <= usize::MAX,
    ensures
        ({
            let e = condensed(
                n,
                left,
                right,
                sizes,
                lambda,
                mcs,
                2 * n - 2,
                n as usize,
                n + 1,
            ).0;
            &&& is_condensed(n, e)
            &&& forall|i: int|
                0 <= i < e.len() && (#[trigger] e[i]).child >= n ==> e[i].size >= mcs
            &&& forall|i: int| 0 <= i < e.len() ==> (#[trigger] e[i]).child < 3 * n && e[i].parent < 3 * n
        }),
{
    lemma_condensed_shape(n, left, right, sizes, lambda, mcs, 2 * n - 2, n as usize, n + 1);
}

/// The edges by which `v` leaves a cluster.
pub open spec fn moves(v: usize) -> spec_fn(CondensedEdge) -> bool {
    |e: CondensedEdge| e.child == v
}

/// The number of edges by which point `v` leaves a cluster.
pub open spec fn departures(edges: Seq<CondensedEdge>, v: usize) -> nat {
    counting::tally(edges, moves(v))
}

/// Whether a value is `v`.
pub open spec fn equals(v: usize) -> spec_fn(usize) -> bool {
    |x: usize| x == v
}

/// The number of times that `v` stands among some points.
pub open spec fn occurrences(points: Seq<usize>, v: usize) -> nat {
    counting::tally(points, equals(v))
}

proof fn lemma_departures_leaving(
    n: nat,
    left: Seq<usize>,
    right: Seq<usize>,
    child: int,
    parent: usize,
    lambda: i64,
    v: usize,
)
    ensures
        departures(leaving(n, left, right, child, parent, lambda), v) == occurrences(
            points_below(n, left, right, child),
            v,
        ),
{
    let f = |p: usize| CondensedEdge { parent, child: p, lambda, size: 1 };
    let p = moves(v);
    let pts = points_below(n, left, right, child);
    counting::lemma_tally_map(pts, f, p);
    assert((|x: usize| p(f(x))) =~= equals(v));
}

/// Where clusters have at least two points, a point leaves as often as it stands below the node.
proof fn lemma_departures(
    n: nat,
    left: Seq<usize>,
    right: Seq<usize>,
    sizes: Seq<usize>,
    lambda: Seq<i64>,
    mcs: nat,
    node: int,
    label: usize,
    next: nat,
    v: usize,
)
    requires
        linkage::is_hierarchy(n, left, right, sizes),
        mcs >= 2,
        n <= node < 2 * n - 1,
        label < next,
        n <= next,
        v < n,
        next + 2 * linkage::size_of(n, sizes, node) <= usize::MAX,
        2 * n <= usize::MAX,
    ensures
        departures(
            condensed(n, left, right, sizes, lambda, mcs, node, label, next).0,
            v,
        ) == occurrences(points_below(n, left, right, node), v),
    decreases node,
{
    let s = node - n;
    assert(left[s] < n + s);
    assert(splits(n, left, right, node));
    let p = moves(v);
    let (l, r) = (left[s] as int, right[s] as int);
    let lc = linkage::size_of(n, sizes, l);
    let rc = linkage::size_of(n, sizes, r);
    let lam = lambda[s];
    lemma_size_positive(n, left, right, sizes, l);
    lemma_size_positive(n, left, right, sizes, r);
    counting::lemma_tally_concat(
        points_below(n, left, right, r),
        points_below(n, left, right, l),
        equals(v),
    );
    if lc >= mcs && rc >= mcs {
        let nl = next as usize;
        let nr = (next + 1) as usize;
        lemma_condensed_shape(n, left, right, sizes, lambda, mcs, r, nr, next + 2);
        let (er, n1) = condensed(n, left, right, sizes, lambda, mcs, r, nr, next + 2);
        let (el, n2) = condensed(n, left, right, sizes, lambda, mcs, l, nl, n1);
        lemma_departures(n, left, right, sizes, lambda, mcs, r, nr, next + 2, v);
        lemma_departures(n, left, right, sizes, lambda, mcs, l, nl, n1, v);
        let two = seq![
            CondensedEdge { parent: label, child: nl, lambda: lam, size: lc as usize },
            CondensedEdge { parent: label, child: nr, lambda: lam, size: rc as usize },
        ];
        counting::lemma_tally_zero(two, p);
        counting::lemma_tally_concat(two, er, p);
        counting::lemma_tally_concat(two + er, el, p);
    } else if lc < mcs && rc < mcs {
        lemma_departures_leaving(n, left, right, l, label, lam, v);
        lemma_departures_leaving(n, left, right, r, label, lam, v);
        counting::lemma_tally_concat(
            leaving(n, left, right, l, label, lam),
            leaving(n, left, right, r, label, lam),
            p,
        );
    } else if lc < mcs {
        lemma_departures(n, left, right, sizes, lambda, mcs, r, label, next, v);
        lemma_departures_leaving(n, left, right, l, label, lam, v);
        counting::lemma_tally_concat(
            leaving(n, left, right, l, label, lam),
            condensed(n, left, right, sizes, lambda, mcs, r, label, next).0,
            p,
        );
    } else {
        lemma_departures(n, left, right, sizes, lambda, mcs, l, label, next, v);
        lemma_departures_leaving(n, left, right, r, label, lam, v);
        counting::lemma_tally_concat(
            leaving(n, left, right, r, label, lam),
            condensed(n, left, right, sizes, lambda, mcs, l, label, next).0,
            p,
        );
    }
}

/// The points below the node of a merge are those that it held when it was made, each once.
proof fn lemma_points_of_merge(
    n: nat,
    order: Seq<usize>,
    weight: Seq<i64>,
    perm: Seq<usize>,
    link: linkage::Linkage,
    s: nat,
    v: usize,
)
    requires
        linkage::links(n, order, weight, perm, link),
        linkage::is_hierarchy(n, link.left@, link.right@, link.sizes@),
        order.len() == n,
        forall|i: int| 0 <= i < n ==> #[trigger] order[i] < n,
        perm.len() == n - 1,
        forall|i: int| 0 <= i < n - 1 ==> #[trigger] perm[i] < n - 1,
        s < n - 1,
        v < n,
    ensures
        occurrences(points_below(n, link.left@, link.right@, (n + s) as int), v) == (if linkage::top(
            n,
            link.left@,
            link.right@,
            s + 1,
            v as int,
        ) == n + s {
            1nat
        } else {
            0nat
        }),
    decreases s,
{
    let (left, right) = (link.left@, link.right@);
    assert(linkage::merges_edge(
        n,
        order,
        weight,
        perm,
        left,
        right,
        link.dist@,
        link.sizes@,
        s as int,
    ));
    assert(left[s as int] < n + s);
    assert(splits(n, left, right, (n + s) as int));
    let (l, r) = (left[s as int] as int, right[s as int] as int);
    let t = perm[s as int] as int;
    assert(order[t] < n && order[t + 1] < n);
    counting::lemma_tally_concat(
        points_below(n, left, right, r),
        points_below(n, left, right, l),
        equals(v),
    );
    lemma_points_of_node(n, order, weight, perm, link, s, l, order[t] as int, v);
    lemma_points_of_node(n, order, weight, perm, link, s, r, order[t + 1] as int, v);
    linkage::lemma_top_older(n, left, right, s, v as int);
}

/// The points below a node that still holds some point `w` after `s` merges are those that it holds
/// then, each once.
proof fn lemma_points_of_node(
    n: nat,
    order: Seq<usize>,
    weight: Seq<i64>,
    perm: Seq<usize>,
    link: linkage::Linkage,
    s: nat,
    c: int,
    w: int,
    v: usize,
)
    requires
        linkage::links(n, order, weight, perm, link),
        linkage::is_hierarchy(n, link.left@, link.right@, link.sizes@),
        order.len() == n,
        forall|i: int| 0 <= i < n ==> #[trigger] order[i] < n,
        perm.len() == n - 1,
        forall|i: int| 0 <= i < n - 1 ==> #[trigger] perm[i] < n - 1,
        s < n - 1,
        v < n,
        0 <= w < n,
        c < n + s,
        linkage::top(n, link.left@, link.right@, s, w) == c,
    ensures
        occurrences(points_below(n, link.left@, link.right@, c), v) == (if linkage::top(
            n,
            link.left@,
            link.right@,
            s,
            v as int,
        ) == c {
            1nat
        } else {
            0nat
        }),
    decreases s, 0int,
{
    let (left, right) = (link.left@, link.right@);
    linkage::lemma_top_older(n, left, right, s, w);
    if c < n {
        assert(!splits(n, left, right, c));
        counting::lemma_tally_one(c as usize, equals(v));
        linkage::lemma_point_before(n, left, right, s, w, c);
        if linkage::top(n, left, right, s, v as int) == c {
            linkage::lemma_point_before(n, left, right, s, v as int, c);
        }
    } else {
        let q = (c - n) as nat;
        lemma_points_of_merge(n, order, weight, perm, link, q, v);
        linkage::lemma_held_since(n, left, right, q, s, w);
        if linkage::top(n, left, right, s, v as int) == c {
            linkage::lemma_held_since(n, left, right, q, s, v as int);
        }
        if linkage::top(n, left, right, q + 1, v as int) == c {
            linkage::lemma_still_held(n, left, right, q + 1, s, v as int, w);
        }
    }
}

/// Where clusters have at least two points, every point leaves exactly one cluster of the condensed
/// tree of a linkage.
pub proof fn lemma_every_point_leaves_once(
    n: nat,
    order: Seq<usize>,
    weight: Seq<i64>,
    perm: Seq<usize>,
    link: linkage::Linkage,
    lambda: Seq<i64>,
    mcs: nat,
    v: usize,
)
    requires
        n >= 2,
        mcs >= 2,
        3 * n + 1 <= usize::MAX,
        linkage::links(n, order, weight, perm, link),
        linkage::is_hierarchy(n, link.left@, link.right@, link.sizes@),
        order.len() == n,
        forall|i: int| 0 <= i < n ==> #[trigger] order[i] < n,
        perm.len() == n - 1,
        forall|i: int| 0 <= i < n - 1 ==> #[trigger] perm[i] < n - 1,
        v < n,
    ensures
        departures(
            condensed(
                n,
                link.left@,
                link.right@,
                link.sizes@,
                lambda,
                mcs,
                2 * n - 2,
                n as usize,
                n + 1,
            ).0,
            v,
        ) == 1,
{
    let (left, right) = (link.left@, link.right@);
    lemma_departures(
        n,
        left,
        right,
        link.sizes@,
        lambda,
        mcs,
        2 * n - 2,
        n as usize,
        n + 1,
        v,
    );
    let s = (n - 2) as nat;
    lemma_points_of_merge(n, order, weight, perm, link, s, v);
    assert(linkage::merges_edge(
        n,
        order,
        weight,
        perm,
        left,
        right,
        link.dist@,
        link.sizes@,
        s as int,
    ));
    let h = linkage::held(n, left, right, s + 1, (n + s) as int);
    assert(linkage::size_of(n, link.sizes@, 2 * n - 2) == n);
    lemma_full_count(n, h);
    assert(h(v as int));
}

proof fn lemma_full_count(n: nat, p: spec_fn(int) -> bool)
    requires
        counting::count(n, p) == n,
    ensures
        forall|i: int| 0 <= i < n ==> #[trigger] p(i),
    decreases n,
{
    if n > 0 {
        counting::lemma_count_bound((n - 1) as nat, p);
        lemma_full_count((n - 1) as nat, p);
    }
}

/// `v` brought into the range from `lo` to `hi`.
pub open spec fn clamped(v: nat, lo: nat, hi: nat) -> nat {
    if v < lo {
        lo
    } else if v > hi {
        hi
    } else {
        v
    }
}

fn clamp_to(v: usize, lo: usize, hi: usize) -> (r: usize)
    ensures
        r == clamped(v as nat, lo as nat, hi as nat),
{
    if v < lo {
        lo
    } else if v > hi {
        hi
    } else {
        v
    }
}

/// `link` is the single-linkage tree of the points over mutual reachability, core distances reaching
/// to the `ms`-th nearest point.
pub open spec fn is_density_linkage(d: Seq<Vec<i64>>, ms: nat, link: linkage::Linkage) -> bool {
    exists|
        core: Seq<i64>,
        mr: Seq<Vec<i64>>,
        order: Seq<usize>,
        weight: Seq<i64>,
        perm: Seq<usize>,
    |
        {
            &&& #[trigger] linkage::are_core(d, ms, core)
            &&& linkage::is_square(mr, d.len())
            &&& forall|i: int, j: int|
                0 <= i < d.len() && 0 <= j < d.len() ==> #[trigger] mr[i]@[j]
                    == linkage::reachability(d, core, i, j)
            &&& #[trigger] linkage::is_growth(mr, d.len(), order, weight, (d.len() - 1) as nat)
            &&& #[trigger] sorting::is_stable_order(weight, perm)
            &&& linkage::links(d.len(), order, weight, perm, link)
        }
}

/// The merge tree that density clustering works on, for a matrix of distances.
pub fn density_linkage(d: &Vec<Vec<i64>>, min_samples: usize) -> (link: linkage::Linkage)
    requires
        d@.len() > 0,
        2 * d@.len() <= usize::MAX,
        linkage::is_square(d@, d@.len()),
    ensures
        is_density_linkage(d@, clamped(min_samples as nat, 1, d@.len()), link),
        linkage::is_hierarchy(d@.len(), link.left@, link.right@, link.sizes@),
{
    let ms: usize = clamp_to(min_samples, 1, d.len());
    let core = linkage::core_distances(d, ms);
    let mr = linkage::mutual_reachability(d, &core);
    linkage::mst_single_linkage(&mr)
}

/// The condensed tree of a merge tree over at least two points, clusters having at least two points.
pub fn condense_linkage(
    link: &linkage::Linkage,
    n: usize,
    lambda: &[i64],
    min_cluster_size: usize,
) -> (edges: Vec<CondensedEdge>)
    requires
        n >= 2,
        linkage::is_hierarchy(n as nat, link.left@, link.right@, link.sizes@),
        lambda@.len() == n - 1,
        3 * n < usize::MAX,
    ensures
        edges@ == condensed(
            n as nat,
            link.left@,
            link.right@,
            link.sizes@,
            lambda@,
            clamped(min_cluster_size as nat, 2, n as nat),
            2 * n - 2,
            n,
            (n + 1) as nat,
        ).0,
        is_condensed(n as nat, edges@),
        selection::numbers_fit(edges@),
{
    let mcs: usize = clamp_to(min_cluster_size, 2, n);
    proof {
        lemma_condensed_clusters(
            n as nat,
            link.left@,
            link.right@,
            link.sizes@,
            lambda@,
            mcs as nat,
        );
    }
    condense_tree(
        n,
        link.left.as_slice(),
        link.right.as_slice(),
        link.sizes.as_slice(),
        lambda,
        mcs,
    )
}

proof fn lemma_children_younger(edges: Seq<CondensedEdge>, n: nat, p: usize, k: nat)
    requires
        is_condensed(n, edges),
        k <= edges.len(),
    ensures
        forall|i: int|
            0 <= i < selection::child_clusters(edges, n, p, k).len()
                ==> #[trigger] selection::child_clusters(edges, n, p, k)[i] > p,
    decreases k,
{
    if k > 0 {
        lemma_children_younger(edges, n, p, (k - 1) as nat);
        assert(edges[k - 1].child >= n ==> edges[k - 1].parent < edges[k - 1].child);
        let before = selection::child_clusters(edges, n, p, (k - 1) as nat);
        let all = selection::child_clusters(edges, n, p, k);
        assert forall|i: int| 0 <= i < all.len() implies #[trigger] all[i] > p by {
            if i < before.len() {
                assert(all[i] == before[i]);
            }
        }
    }
}

/// In a condensed tree clusters are younger than those they leave, so no path through it comes back.
pub proof fn lemma_condensed_ages(n: nat, edges: Seq<CondensedEdge>)
    requires
        is_condensed(n, edges),
    ensures
        selection::ages(selection::kids_of_edges(edges, n)),
        forall|c: usize| #[trigger]
            selection::no_circle_below(selection::kids_of_edges(edges, n), c),
        selection::leaves_older(edges, n),
        selection::clusters_are_left(edges, n),
{
    let kids = selection::kids_of_edges(edges, n);
    assert forall|p: usize, i: int| 0 <= i < kids(p).len() implies #[trigger] kids(p)[i] > p by {
        lemma_children_younger(edges, n, p, edges.len());
    }
    assert forall|c: usize| #[trigger] selection::no_circle_below(kids, c) by {
        selection::lemma_ages_no_circle(kids, c);
    }
}

/// The labels of the points under a condensed tree and the clusters selected from it; a tree without
/// edges makes every point noise.
pub fn labels_of(edges: &[CondensedEdge], selected: &[usize], n: usize) -> (r: Vec<i64>)
    requires
        is_condensed(n as nat, edges@),
        forall|i: int, j: int|
            0 <= i < j < selected@.len() ==> #[trigger] selected@[i] < #[trigger] selected@[j],
        selected@.len() <= i64::MAX,
    ensures
        r@.len() == n,
        forall|v: int|
            0 <= v < n ==> #[trigger] r@[v] == (if edges@.len() == 0 {
                -1
            } else {
                selection::label_for(edges@, selected@, n, v as usize)
            }),
{
    if edges.len() == 0 {
        let mut r: Vec<i64> = Vec::with_capacity(n);
        let mut v: usize = 0;
        while v < n
            invariant
                v <= n,
                r@.len() == v,
                forall|u: int| 0 <= u < v ==> #[trigger] r@[u] == -1,
            decreases n - v,
        {
            r.push(-1);
            v = v + 1;
        }
        return r;
    }
    proof {
        lemma_condensed_ages(n as nat, edges@);
    }
    selection::do_labelling(edges, selected, n)
}

/// A way down the merge tree leads to points that are below its start.
proof fn lemma_way_to_point(
    n: nat,
    left: Seq<usize>,
    right: Seq<usize>,
    way: Seq<int>,
)
    requires
        is_tree(n, left, right),
        way.len() > 0,
        0 <= way.last() < n,
        n + left.len() <= usize::MAX,
        forall|m: int|
            0 < m < way.len() ==> n <= #[trigger] way[m - 1] < n + left.len() && (way[m]
                == left[way[m - 1] - n] || way[m] == right[way[m - 1] - n]),
    ensures
        points_below(n, left, right, way[0]).contains(way.last() as usize),
    decreases way.len(),
{
    let v = way.last() as usize;
    if way.len() == 1 {
        assert(!splits(n, left, right, way[0]));
        assert(seq![v][0] == v);
    } else {
        let rest = way.subrange(1, way.len() as int);
        assert(rest.last() == way.last());
        assert forall|m: int| 0 < m < rest.len() implies n <= #[trigger] rest[m - 1] < n
            + left.len() && (rest[m] == left[rest[m - 1] - n] || rest[m] == right[rest[m - 1]
            - n]) by {
            assert(way[m + 1 - 1] == rest[m - 1]);
            assert(way[m + 1] == rest[m]);
        }
        lemma_way_to_point(n, left, right, rest);
        assert(n <= way[1 - 1] < n + left.len());
        let s = way[0] - n;
        assert(left[s] < n + s);
        assert(splits(n, left, right, way[0]));
        let (a, b) = (
            points_below(n, left, right, right[s] as int),
            points_below(n, left, right, left[s] as int),
        );
        if way[1] == right[s] {
            let i = choose|i: int| 0 <= i < a.len() && a[i] == v;
            assert((a + b)[i] == v);
        } else {
            let i = choose|i: int| 0 <= i < b.len() && b[i] == v;
            assert((a + b)[a.len() + i] == v);
        }
    }
}

/// `part` stands in `all` from place `at` on.
spec fn stands_in(part: Seq<CondensedEdge>, all: Seq<CondensedEdge>, at: int) -> bool {
    &&& 0 <= at
    &&& at + part.len() <= all.len()
    &&& forall|i: int| 0 <= i < part.len() ==> #[trigger] part[i] == all[at + i]
}

proof fn lemma_stands_in(
    part: Seq<CondensedEdge>,
    all: Seq<CondensedEdge>,
    at: int,
    e: CondensedEdge,
)
    requires
        stands_in(part, all, at),
        part.contains(e),
    ensures
        all.contains(e),
{
    let i = choose|i: int| 0 <= i < part.len() && part[i] == e;
    assert(all[at + i] == e);
}

/// What the condensed tree says of the way down the merge tree to a point, up to where the branch has
/// too few points to be a cluster. The cluster of all points has the number `n`. Where both branches
/// are large enough each becomes a cluster that leaves the one they were in, the left one with the
/// smaller of two numbers that follow on each other, at the density of the merge and with the size of
/// the branch. Else the larger branch goes on with the cluster. The point leaves the cluster that it is
/// in at the density of the merge where its branch is too small.
pub proof fn lemma_way_condensed(
    n: nat,
    left: Seq<usize>,
    right: Seq<usize>,
    sizes: Seq<usize>,
    lambda: Seq<i64>,
    mcs: nat,
    edges: Seq<CondensedEdge>,
    way: Seq<int>,
    k: int,
) -> (names: Seq<usize>)
    requires
        linkage::is_hierarchy(n, left, right, sizes),
        3 * n + 1 <= usize::MAX,
        edges == condensed(n, left, right, sizes, lambda, mcs, 2 * n - 2, n as usize, n + 1).0,
        way.len() > 1,
        way[0] == 2 * n - 2,
        0 <= way.last() < n,
        forall|m: int|
            0 < m < way.len() ==> n <= #[trigger] way[m - 1] < 2 * n - 1 && (way[m]
                == left[way[m - 1] - n] || way[m] == right[way[m - 1] - n]),
        0 < k < way.len(),
        forall|m: int|
            0 < m < k ==> (if #[trigger] way[m] < n {
                1
            } else {
                sizes[way[m] - n] as nat
            }) >= mcs,
        (if way[k] < n {
            1
        } else {
            sizes[way[k] - n] as nat
        }) < mcs,
    ensures
        names.len() == k,
        names[0] == n,
        edges.contains(
            (CondensedEdge {
                parent: names[k - 1],
                child: way.last() as usize,
                lambda: lambda[way[k - 1] - n],
                size: 1,
            }),
        ),
        forall|m: int|
            0 < m < k ==> {
                let s = #[trigger] way[m - 1] - n;
                let other = if way[m] == left[s] {
                    right[s] as int
                } else {
                    left[s] as int
                };
                let (here, there) = (
                    if way[m] < n {
                        1nat
                    } else {
                        sizes[way[m] - n] as nat
                    },
                    if other < n {
                        1nat
                    } else {
                        sizes[other - n] as nat
                    },
                );
                if there < mcs {
                    names[m] == names[m - 1]
                } else {
                    &&& edges.contains(
                        (CondensedEdge {
                            parent: names[m - 1],
                            child: names[m],
                            lambda: lambda[s],
                            size: here as usize,
                        }),
                    )
                    &&& edges.contains(
                        (CondensedEdge {
                            parent: names[m - 1],
                            child: (if way[m] == left[s] {
                                names[m] + 1
                            } else {
                                names[m] - 1
                            }) as usize,
                            lambda: lambda[s],
                            size: there as usize,
                        }),
                    )
                }
            },
{
    let names = lemma_way_condensed_from(
        n,
        left,
        right,
        sizes,
        lambda,
        mcs,
        n as usize,
        n + 1,
        way,
        k,
    );
    names
}

/// What the condensed tree says of step `m` of a way down the merge tree, `names` being the clusters
/// along it.
spec fn step_named(
    n: nat,
    left: Seq<usize>,
    right: Seq<usize>,
    sizes: Seq<usize>,
    lambda: Seq<i64>,
    mcs: nat,
    edges: Seq<CondensedEdge>,
    way: Seq<int>,
    names: Seq<usize>,
    m: int,
) -> bool {
    let s = way[m - 1] - n;
    let other = if way[m] == left[s] {
        right[s] as int
    } else {
        left[s] as int
    };
    let (here, there) = (linkage::size_of(n, sizes, way[m]), linkage::size_of(n, sizes, other));
    if there < mcs {
        names[m] == names[m - 1]
    } else {
        &&& edges.contains(
            (CondensedEdge {
                parent: names[m - 1],
                child: names[m],
                lambda: lambda[s],
                size: here as usize,
            }),
        )
        &&& edges.contains(
            (CondensedEdge {
                parent: names[m - 1],
                child: (if way[m] == left[s] {
                    names[m] + 1
                } else {
                    names[m] - 1
                }) as usize,
                lambda: lambda[s],
                size: there as usize,
            }),
        )
    }
}

proof fn lemma_way_condensed_from(
    n: nat,
    left: Seq<usize>,
    right: Seq<usize>,
    sizes: Seq<usize>,
    lambda: Seq<i64>,
    mcs: nat,
    label: usize,
    next: nat,
    way: Seq<int>,
    k: int,
) -> (names: Seq<usize>)
    requires
        linkage::is_hierarchy(n, left, right, sizes),
        3 * n + 1 <= usize::MAX,
        next + 2 * (linkage::size_of(n, sizes, way[0]) - 1) <= 3 * n,
        way.len() > 1,
        0 <= way.last() < n,
        forall|m: int|
            0 < m < way.len() ==> n <= #[trigger] way[m - 1] < 2 * n - 1 && (way[m]
                == left[way[m - 1] - n] || way[m] == right[way[m - 1] - n]),
        0 < k < way.len(),
        forall|m: int| 0 < m < k ==> linkage::size_of(n, sizes, #[trigger] way[m]) >= mcs,
        linkage::size_of(n, sizes, way[k]) < mcs,
    ensures
        names.len() == k,
        names[0] == label,
        ({
            let edges = condensed(n, left, right, sizes, lambda, mcs, way[0], label, next).0;
            &&& edges.contains(
                (CondensedEdge {
                    parent: names[k - 1],
                    child: way.last() as usize,
                    lambda: lambda[way[k - 1] - n],
                    size: 1,
                }),
            )
            &&& forall|m: int|
                #![trigger way[m - 1]]
                0 < m < k ==> step_named(
                    n,
                    left,
                    right,
                    sizes,
                    lambda,
                    mcs,
                    edges,
                    way,
                    names,
                    m,
                )
        }),
    decreases way.len(),
{
    assert(n <= way[1 - 1] < 2 * n - 1);
    let rest = way.subrange(1, way.len() as int);
    assert(rest.last() == way.last());
    assert(rest[0] == way[1]);
    assert forall|m: int| 0 < m < rest.len() implies n <= #[trigger] rest[m - 1] < 2 * n - 1 && (
    rest[m] == left[rest[m - 1] - n] || rest[m] == right[rest[m - 1] - n]) by {
        assert(way[m + 1 - 1] == rest[m - 1]);
        assert(way[m + 1] == rest[m]);
    }
    let edges = condensed(n, left, right, sizes, lambda, mcs, way[0], label, next).0;
    if k == 1 {
        lemma_falls_out(n, left, right, sizes, lambda, mcs, label, next, way[0], rest);
        seq![label]
    } else {
        assert(linkage::size_of(n, sizes, way[1]) >= mcs);
        assert forall|m: int| 0 < m < k - 1 implies linkage::size_of(n, sizes, #[trigger] rest[m])
            >= mcs by {
            assert(way[m + 1] == rest[m]);
        }
        assert(rest[k - 1] == way[k]);
        let (sub_label, sub_next) = lemma_goes_on(
            n,
            left,
            right,
            sizes,
            lambda,
            mcs,
            label,
            next,
            way,
        );
        let names = lemma_way_condensed_from(
            n,
            left,
            right,
            sizes,
            lambda,
            mcs,
            sub_label,
            sub_next,
            rest,
            k - 1,
        );
        let sub = condensed(n, left, right, sizes, lambda, mcs, way[1], sub_label, sub_next).0;
        let all = seq![label] + names;
        lemma_names_lifted(n, left, right, sizes, lambda, mcs, edges, sub, way, rest, all, names, k);
        assert(all[k - 1] == names[k - 2]);
        assert(rest[k - 2] == way[k - 1]);
        all
    }
}

proof fn lemma_names_lifted(
    n: nat,
    left: Seq<usize>,
    right: Seq<usize>,
    sizes: Seq<usize>,
    lambda: Seq<i64>,
    mcs: nat,
    edges: Seq<CondensedEdge>,
    sub: Seq<CondensedEdge>,
    way: Seq<int>,
    rest: Seq<int>,
    all: Seq<usize>,
    names: Seq<usize>,
    k: int,
)
    requires
        1 < k < way.len(),
        rest == way.subrange(1, way.len() as int),
        names.len() == k - 1,
        all == seq![all[0]] + names,
        forall|e: CondensedEdge| sub.contains(e) ==> #[trigger] edges.contains(e),
        step_named(
            n,
            left,
            right,
            sizes,
            lambda,
            mcs,
            edges,
            way,
            seq![all[0], names[0]],
            1,
        ),
        forall|m: int|
            #![trigger rest[m - 1]]
            0 < m < k - 1 ==> step_named(
                n,
                left,
                right,
                sizes,
                lambda,
                mcs,
                sub,
                rest,
                names,
                m,
            ),
    ensures
        forall|m: int|
            #![trigger way[m - 1]]
            0 < m < k ==> step_named(n, left, right, sizes, lambda, mcs, edges, way, all, m),
{
    assert forall|m: int|
        #![trigger way[m - 1]]
        0 < m < k implies step_named(n, left, right, sizes, lambda, mcs, edges, way, all, m) by {
        assert(all[m] == names[m - 1]);
        if m > 1 {
            assert(all[m - 1] == names[m - 2]);
            assert(rest[m - 1 - 1] == way[m - 1]);
            assert(rest[m - 1] == way[m]);
            assert(step_named(n, left, right, sizes, lambda, mcs, sub, rest, names, m - 1));
        }
    }
}

/// A point of a branch that is too small leaves the cluster at the density of the merge.
proof fn lemma_falls_out(
    n: nat,
    left: Seq<usize>,
    right: Seq<usize>,
    sizes: Seq<usize>,
    lambda: Seq<i64>,
    mcs: nat,
    label: usize,
    next: nat,
    node: int,
    rest: Seq<int>,
)
    requires
        linkage::is_hierarchy(n, left, right, sizes),
        3 * n + 1 <= usize::MAX,
        n <= node < 2 * n - 1,
        rest.len() > 0,
        rest[0] == left[node - n] || rest[0] == right[node - n],
        0 <= rest.last() < n,
        forall|m: int|
            0 < m < rest.len() ==> n <= #[trigger] rest[m - 1] < 2 * n - 1 && (rest[m]
                == left[rest[m - 1] - n] || rest[m] == right[rest[m - 1] - n]),
        linkage::size_of(n, sizes, rest[0]) < mcs,
    ensures
        condensed(n, left, right, sizes, lambda, mcs, node, label, next).0.contains(
            (CondensedEdge {
                parent: label,
                child: rest.last() as usize,
                lambda: lambda[node - n],
                size: 1,
            }),
        ),
{
    let s = node - n;
    let (l, r, c) = (left[s] as int, right[s] as int, rest[0]);
    assert(left[s] < n + s);
    assert(splits(n, left, right, node));
    assert(is_tree(n, left, right)) by {
        assert forall|q: int| 0 <= q < left.len() implies #[trigger] left[q] < n + q && right[q] < n
            + q by {}
    }
    let (lc, rc) = (linkage::size_of(n, sizes, l), linkage::size_of(n, sizes, r));
    let lam = lambda[s];
    let edges = condensed(n, left, right, sizes, lambda, mcs, node, label, next).0;
    lemma_way_to_point(n, left, right, rest);
    let v = rest.last() as usize;
    let e = CondensedEdge { parent: label, child: v, lambda: lam, size: 1 };
    let gone = leaving(n, left, right, c, label, lam);
    let points = points_below(n, left, right, c);
    let i = choose|i: int| 0 <= i < points.len() && points[i] == v;
    assert(gone[i] == e);
    assert(gone.contains(e));
    let at: int = if lc < mcs && rc < mcs && c != l {
        leaving(n, left, right, l, label, lam).len() as int
    } else {
        0
    };
    assert(stands_in(gone, edges, at));
    lemma_stands_in(gone, edges, at, e);
}

/// Where a branch is large enough, what its own condensed tree says is part of the whole: under a new
/// name where both branches are, and under the name of the cluster where the other is too small.
proof fn lemma_goes_on(
    n: nat,
    left: Seq<usize>,
    right: Seq<usize>,
    sizes: Seq<usize>,
    lambda: Seq<i64>,
    mcs: nat,
    label: usize,
    next: nat,
    way: Seq<int>,
) -> (sub: (usize, nat))
    requires
        linkage::is_hierarchy(n, left, right, sizes),
        3 * n + 1 <= usize::MAX,
        way.len() > 1,
        n <= way[0] < 2 * n - 1,
        next + 2 * (linkage::size_of(n, sizes, way[0]) - 1) <= 3 * n,
        way[1] == left[way[0] - n] || way[1] == right[way[0] - n],
        linkage::size_of(n, sizes, way[1]) >= mcs,
    ensures
        sub.1 + 2 * (linkage::size_of(n, sizes, way[1]) - 1) <= 3 * n,
        ({
            let edges = condensed(n, left, right, sizes, lambda, mcs, way[0], label, next).0;
            let part = condensed(n, left, right, sizes, lambda, mcs, way[1], sub.0, sub.1).0;
            &&& forall|e: CondensedEdge| part.contains(e) ==> #[trigger] edges.contains(e)
            &&& step_named(
                n,
                left,
                right,
                sizes,
                lambda,
                mcs,
                edges,
                way,
                seq![label, sub.0],
                1,
            )
        }),
{
    let (node, c) = (way[0], way[1]);
    let s = node - n;
    let (l, r) = (left[s] as int, right[s] as int);
    assert(left[s] < n + s);
    assert(splits(n, left, right, node));
    let (lc, rc) = (linkage::size_of(n, sizes, l), linkage::size_of(n, sizes, r));
    let lam = lambda[s];
    let edges = condensed(n, left, right, sizes, lambda, mcs, node, label, next).0;
    lemma_sizes_positive(n, left, right, sizes, l);
    lemma_sizes_positive(n, left, right, sizes, r);
    assert(linkage::size_of(n, sizes, node) == lc + rc);
    let both = lc >= mcs && rc >= mcs;
    let (er, n1) = condensed(
        n,
        left,
        right,
        sizes,
        lambda,
        mcs,
        r,
        (next + 1) as usize,
        next + 2,
    );
    lemma_next_bound(n, left, right, sizes, lambda, mcs, r, (next + 1) as usize, next + 2);
    let sub: (usize, nat) = if !both {
        (label, next)
    } else if c == l {
        (next as usize, n1)
    } else {
        ((next + 1) as usize, next + 2)
    };
    let part = condensed(n, left, right, sizes, lambda, mcs, c, sub.0, sub.1).0;
    let at: int = if both {
        if c == l {
            2 + er.len() as int
        } else {
            2int
        }
    } else if lc < mcs {
        leaving(n, left, right, l, label, lam).len() as int
    } else {
        leaving(n, left, right, r, label, lam).len() as int
    };
    assert(stands_in(part, edges, at));
    assert forall|e: CondensedEdge| part.contains(e) implies #[trigger] edges.contains(e) by {
        lemma_stands_in(part, edges, at, e);
    }
    if both {
        assert(edges[0] == (CondensedEdge {
            parent: label,
            child: next as usize,
            lambda: lam,
            size: lc as usize,
        }));
        assert(edges[1] == (CondensedEdge {
            parent: label,
            child: (next + 1) as usize,
            lambda: lam,
            size: rc as usize,
        }));
        assert(edges.contains(edges[0]) && edges.contains(edges[1]));
    }
    let names = seq![label, sub.0];
    assert(names[0] == label && names[1] == sub.0);
    assert(way[1 - 1] == node);
    sub
}

proof fn lemma_sizes_positive(
    n: nat,
    left: Seq<usize>,
    right: Seq<usize>,
    sizes: Seq<usize>,
    node: int,
)
    requires
        linkage::is_hierarchy(n, left, right, sizes),
        0 <= node < 2 * n - 1,
    ensures
        linkage::size_of(n, sizes, node) >= 1,
    decreases node,
{
    if node >= n {
        let s = node - n;
        assert(left[s] < n + s);
        lemma_sizes_positive(n, left, right, sizes, left[s] as int);
    }
}

proof fn lemma_next_bound(
    n: nat,
    left: Seq<usize>,
    right: Seq<usize>,
    sizes: Seq<usize>,
    lambda: Seq<i64>,
    mcs: nat,
    node: int,
    label: usize,
    next: nat,
)
    requires
        linkage::is_hierarchy(n, left, right, sizes),
        0 <= node < 2 * n - 1,
    ensures
        condensed(n, left, right, sizes, lambda, mcs, node, label, next).1 <= next + 2 * (
        linkage::size_of(n, sizes, node) - 1),
        condensed(n, left, right, sizes, lambda, mcs, node, label, next).1 >= next,
    decreases node,
{
    lemma_sizes_positive(n, left, right, sizes, node);
    if splits(n, left, right, node) {
        let s = node - n;
        let (l, r) = (left[s] as int, right[s] as int);
        assert(left[s] < n + s);
        lemma_sizes_positive(n, left, right, sizes, l);
        lemma_sizes_positive(n, left, right, sizes, r);
        let (lc, rc) = (linkage::size_of(n, sizes, l), linkage::size_of(n, sizes, r));
        if lc >= mcs && rc >= mcs {
            let n1 = condensed(
                n,
                left,
                right,
                sizes,
                lambda,
                mcs,
                r,
                (next + 1) as usize,
                next + 2,
            ).1;
            lemma_next_bound(
                n,
                left,
                right,
                sizes,
                lambda,
                mcs,
                r,
                (next + 1) as usize,
                next + 2,
            );
            lemma_next_bound(n, left, right, sizes, lambda, mcs, l, next as usize, n1);
        } else if lc < mcs && rc < mcs {
        } else if lc < mcs {
            lemma_next_bound(n, left, right, sizes, lambda, mcs, r, label, next);
        } else {
            lemma_next_bound(n, left, right, sizes, lambda, mcs, l, label, next);
        }
    }
}

/// A number is brought into a range by no more than it has to be.
pub proof fn lemma_clamped(v: nat, lo: nat, hi: nat)
    requires
        lo <= hi,
    ensures
        lo <= clamped(v, lo, hi) <= hi,
        lo <= v <= hi ==> clamped(v, lo, hi) == v,
        v < lo ==> clamped(v, lo, hi) == lo,
        v > hi ==> clamped(v, lo, hi) == hi,
{
}

/// The nodes below a node are listed from that node on, and with every merge both nodes that it joins.
pub proof fn lemma_nodes_below(
    n: nat,
    left: Seq<usize>,
    right: Seq<usize>,
    node: int,
    x: usize,
)
    requires
        is_tree(n, left, right),
        0 <= node < n + left.len(),
        n + left.len() <= usize::MAX,
    ensures
        nodes_below(n, left, right, node)[0] == node,
        nodes_below(n, left, right, node).contains(x) && x >= n ==> {
            &&& nodes_below(n, left, right, node).contains(left[x - n])
            &&& nodes_below(n, left, right, node).contains(right[x - n])
        },
        nodes_below(n, left, right, node).contains(x) ==> x <= node,
        points_below(n, left, right, node).contains(x) <==> x < n && nodes_below(
            n,
            left,
            right,
            node,
        ).contains(x),
    decreases node,
{
    let all = nodes_below(n, left, right, node);
    if node >= n {
        let s = node - n;
        assert(left[s] < n + s);
        assert(splits(n, left, right, node));
        let (l, r) = (left[s] as int, right[s] as int);
        lemma_nodes_below(n, left, right, l, x);
        lemma_nodes_below(n, left, right, r, x);
        lemma_nodes_below(n, left, right, l, l as usize);
        lemma_nodes_below(n, left, right, r, r as usize);
        let (a, b) = (nodes_below(n, left, right, r), nodes_below(n, left, right, l));
        let one = seq![node as usize];
        assert(all == one + a + b);
        assert forall|y: usize| #[trigger] all.contains(y) <==> y == node || a.contains(y)
            || b.contains(y) by {
            if all.contains(y) {
                let i = choose|i: int| 0 <= i < all.len() && all[i] == y;
                if i >= 1 + a.len() {
                    assert(b[i - 1 - a.len()] == y);
                } else if i >= 1 {
                    assert(a[i - 1] == y);
                }
            }
            if a.contains(y) {
                let i = choose|i: int| 0 <= i < a.len() && a[i] == y;
                assert(all[1 + i] == y);
            }
            if b.contains(y) {
                let i = choose|i: int| 0 <= i < b.len() && b[i] == y;
                assert(all[1 + a.len() + i] == y);
            }
            if y == node {
                assert(all[0] == y);
            }
        }
        assert(a[0] == r && b[0] == l);
        assert(a.contains(r as usize) && b.contains(l as usize));
        if x >= n && all.contains(x) {
            assert(all.contains(left[x - n]));
            assert(all.contains(right[x - n]));
        }
        let (pa, pb) = (points_below(n, left, right, r), points_below(n, left, right, l));
        let points = points_below(n, left, right, node);
        assert(points == pa + pb);
        if points.contains(x) {
            let i = choose|i: int| 0 <= i < points.len() && points[i] == x;
            if i < pa.len() {
                assert(pa[i] == x);
            } else {
                assert(pb[i - pa.len()] == x);
            }
        }
        if pa.contains(x) {
            let i = choose|i: int| 0 <= i < pa.len() && pa[i] == x;
            assert(points[i] == x);
        }
        if pb.contains(x) {
            let i = choose|i: int| 0 <= i < pb.len() && pb[i] == x;
            assert(points[pa.len() + i] == x);
        }
    } else {
        assert(!splits(n, left, right, node));
        assert(all[0] == node);
        assert(points_below(n, left, right, node)[0] == node);
    }
}

/// Points that fall out of a cluster are those below a node, one edge each, all at one density.
pub proof fn lemma_fallen_points(
    n: nat,
    left: Seq<usize>,
    right: Seq<usize>,
    child: int,
    parent: usize,
    lambda: i64,
    i: int,
)
    requires
        0 <= i < leaving(n, left, right, child, parent, lambda).len(),
    ensures
        leaving(n, left, right, child, parent, lambda).len() == points_below(
            n,
            left,
            right,
            child,
        ).len(),
        ({
            let e = leaving(n, left, right, child, parent, lambda)[i];
            &&& e.parent == parent
            &&& e.lambda == lambda
            &&& e.size == 1
            &&& e.child == points_below(n, left, right, child)[i]
        }),
{
}

/// Step `i` of a path of points is no longer than `t`, and neither are the core distances of its ends.
pub open spec fn is_dense_step(
    d: Seq<Vec<i64>>,
    core: Seq<i64>,
    t: i64,
    path: Seq<int>,
    i: int,
) -> bool {
    d[path[i]]@[path[i + 1]] <= t && core[path[i]] <= t && core[path[i + 1]] <= t
}

/// A path of such steps leads from `u` to `w`.
pub open spec fn is_dense_path(
    d: Seq<Vec<i64>>,
    core: Seq<i64>,
    t: i64,
    path: Seq<int>,
    u: int,
    w: int,
) -> bool {
    &&& path.len() > 0
    &&& path[0] == u
    &&& path[path.len() - 1] == w
    &&& forall|i: int| 0 <= i < path.len() ==> 0 <= #[trigger] path[i] < d.len()
    &&& forall|i: int| 0 <= i < path.len() - 1 ==> #[trigger] is_dense_step(d, core, t, path, i)
}

/// What density clustering works on: once all merges up to a distance are made, and no other, two points
/// are in one node exactly if a path leads from one to the other whose steps, and the core distances of
/// whose points, are no longer; a single point is always connected to itself.
pub proof fn lemma_density_linkage(
    d: Seq<Vec<i64>>,
    ms: nat,
    link: linkage::Linkage,
    t: i64,
    s: nat,
    u: int,
    w: int,
) -> (core: Seq<i64>)
    requires
        d.len() > 0,
        linkage::is_square(d, d.len()),
        is_density_linkage(d, ms, link),
        forall|a: int, b: int|
            0 <= a < d.len() && 0 <= b < d.len() ==> #[trigger] d[a]@[b] == d[b]@[a],
        s <= d.len() - 1,
        forall|q: int| 0 <= q < s ==> #[trigger] link.dist@[q] <= t,
        forall|q: int| s <= q < d.len() - 1 ==> #[trigger] link.dist@[q] > t,
        0 <= u < d.len(),
        0 <= w < d.len(),
    ensures
        linkage::are_core(d, ms, core),
        linkage::top(d.len(), link.left@, link.right@, s, u) == linkage::top(
            d.len(),
            link.left@,
            link.right@,
            s,
            w,
        ) <==> exists|path: Seq<int>| #[trigger] is_dense_path(d, core, t, path, u, w),
{
    let n = d.len();
    let (core, mr, order, weight, perm) = choose|
        core: Seq<i64>,
        mr: Seq<Vec<i64>>,
        order: Seq<usize>,
        weight: Seq<i64>,
        perm: Seq<usize>,
    |
        {
            &&& #[trigger] linkage::are_core(d, ms, core)
            &&& linkage::is_square(mr, d.len())
            &&& forall|i: int, j: int|
                0 <= i < d.len() && 0 <= j < d.len() ==> #[trigger] mr[i]@[j]
                    == linkage::reachability(d, core, i, j)
            &&& #[trigger] linkage::is_growth(mr, d.len(), order, weight, (d.len() - 1) as nat)
            &&& #[trigger] sorting::is_stable_order(weight, perm)
            &&& linkage::links(d.len(), order, weight, perm, link)
        };
    assert forall|a: int, b: int| 0 <= a < n && 0 <= b < n implies #[trigger] mr[a]@[b]
        == mr[b]@[a] by {
        assert(mr[a]@[b] == linkage::reachability(d, core, a, b));
        assert(mr[b]@[a] == linkage::reachability(d, core, b, a));
        assert(d[a]@[b] == d[b]@[a]);
    }
    linkage::lemma_single_linkage(mr, n, order, weight, perm, link, t, s, u, w);
    assert forall|path: Seq<int>| linkage::is_trail(mr, n, t, path, u, w) == #[trigger] is_dense_path(
        d,
        core,
        t,
        path,
        u,
        w,
    ) by {
        lemma_dense_trail(d, core, mr, t, path, u, w);
    }
    if linkage::connected(mr, n, t, u, w) {
        let path = choose|path: Seq<int>| #[trigger] linkage::is_trail(mr, n, t, path, u, w);
        assert(is_dense_path(d, core, t, path, u, w));
    }
    core
}

proof fn lemma_dense_trail(
    d: Seq<Vec<i64>>,
    core: Seq<i64>,
    mr: Seq<Vec<i64>>,
    t: i64,
    path: Seq<int>,
    u: int,
    w: int,
)
    requires
        forall|i: int, j: int|
            0 <= i < d.len() && 0 <= j < d.len() ==> #[trigger] mr[i]@[j] == linkage::reachability(
                d,
                core,
                i,
                j,
            ),
    ensures
        linkage::is_trail(mr, d.len(), t, path, u, w) == is_dense_path(d, core, t, path, u, w),
{
    if forall|i: int| 0 <= i < path.len() ==> 0 <= #[trigger] path[i] < d.len() {
        assert forall|i: int| 0 <= i < path.len() - 1 implies #[trigger] linkage::is_hop(
            mr,
            t,
            path,
            i,
        ) == is_dense_step(d, core, t, path, i) by {
            let (a, b) = (path[i], path[i + 1]);
            assert(mr[a]@[b] == linkage::reachability(d, core, a, b));
        }
        if linkage::is_trail(mr, d.len(), t, path, u, w) {
            assert forall|i: int| 0 <= i < path.len() - 1 implies #[trigger] is_dense_step(
                d,
                core,
                t,
                path,
                i,
            ) by {
                assert(linkage::is_hop(mr, t, path, i));
            }
        }
        if is_dense_path(d, core, t, path, u, w) {
            assert forall|i: int| 0 <= i < path.len() - 1 implies #[trigger] linkage::is_hop(
                mr,
                t,
                path,
                i,
            ) by {
                assert(is_dense_step(d, core, t, path, i));
            }
        }
    }
}

} // verus!
