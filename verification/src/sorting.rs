//! Stable ordering of row indices by a key.

use vstd::prelude::*;

verus! {

/// A key that rows are ordered by; two keys order as their ranks do.
pub trait Ranked: Sized {
    spec fn rank(&self) -> int;

    /// Whether `self` orders no later than `other`.
    fn not_after(&self, other: &Self) -> (r: bool)
        ensures
            r == (self.rank() <= other.rank()),
    ;
}

impl Ranked for i64 {
    open spec fn rank(&self) -> int {
        *self as int
    }

    fn not_after(&self, other: &Self) -> (r: bool) {
        *self <= *other
    }
}

impl Ranked for usize {
    open spec fn rank(&self) -> int {
        *self as int
    }

    fn not_after(&self, other: &Self) -> (r: bool) {
        *self <= *other
    }
}

impl Ranked for (u32, u32) {
    /// Lexicographic: the first component decides, the second breaks ties.
    open spec fn rank(&self) -> int {
        self.0 * 0x1_0000_0000 + self.1
    }

    fn not_after(&self, other: &Self) -> (r: bool) {
        self.0 < other.0 || (self.0 == other.0 && self.1 <= other.1)
    }
}

impl Ranked for (i64, i64, i64) {
    /// Lexicographic.
    open spec fn rank(&self) -> int {
        (self.0 * 0x1_0000_0000_0000_0000 + self.1) * 0x1_0000_0000_0000_0000 + self.2
    }

    fn not_after(&self, other: &Self) -> (r: bool) {
        self.0 < other.0 || (self.0 == other.0 && (self.1 < other.1 || (self.1 == other.1 && self.2
            <= other.2)))
    }
}

/// Triples of one rank are equal.
pub proof fn lemma_triple_rank(a: (i64, i64, i64), b: (i64, i64, i64))
    requires
        a.rank() == b.rank(),
    ensures
        a == b,
{
}

/// Index `a` comes before index `b`: by key, and by position among equal keys.
pub open spec fn comes_before<K: Ranked>(keys: Seq<K>, a: int, b: int) -> bool {
    keys[a].rank() < keys[b].rank() || (keys[a].rank() == keys[b].rank() && a < b)
}

/// `order` lists indices below `n` of `keys`, each strictly before the next ones.
pub open spec fn is_chain<K: Ranked>(keys: Seq<K>, order: Seq<usize>, lo: int, hi: int) -> bool {
    &&& forall|i: int| 0 <= i < order.len() ==> lo <= #[trigger] order[i] < hi
    &&& forall|i: int, j: int|
        0 <= i < j < order.len() ==> comes_before(
            keys,
            #[trigger] order[i] as int,
            #[trigger] order[j] as int,
        )
}

/// `order` is the stable ascending order of `keys`: as many indices as there are keys,
/// each strictly before the next. No other sequence satisfies this.
pub open spec fn is_stable_order<K: Ranked>(keys: Seq<K>, order: Seq<usize>) -> bool {
    order.len() == keys.len() && is_chain(keys, order, 0, keys.len() as int)
}

/// The indices of `order` are `0..n` in some order.
pub open spec fn is_permutation(order: Seq<usize>, n: nat) -> bool {
    &&& order.len() == n
    &&& forall|i: int| 0 <= i < n ==> #[trigger] order[i] < n
    &&& forall|i: int, j: int| 0 <= i < j < n ==> #[trigger] order[i] != #[trigger] order[j]
}

/// Keys do not descend along a stable order.
pub proof fn lemma_stable_order_ascends<K: Ranked>(
    keys: Seq<K>,
    order: Seq<usize>,
    i: int,
    j: int,
)
    requires
        is_stable_order(keys, order),
        0 <= i <= j < order.len(),
    ensures
        order[i] < keys.len(),
        order[j] < keys.len(),
        keys[order[i] as int].rank() <= keys[order[j] as int].rank(),
{
    lemma_stable_order_is_permutation(keys, order);
}

/// A permutation of `0..n` reaches every index below `n`.
pub proof fn lemma_permutation_onto(order: Seq<usize>, n: nat, v: int)
    requires
        is_permutation(order, n),
        0 <= v < n,
    ensures
        exists|i: int| 0 <= i < n && #[trigger] order[i] == v,
{
    let s = order.map_values(|x: usize| x as int);
    assert(s.no_duplicates());
    s.unique_seq_to_set();
    let all = vstd::set_lib::set_int_range(0, n as int);
    vstd::set_lib::lemma_int_range(0, n as int);
    assert(s.to_set().subset_of(all)) by {
        assert forall|x: int| s.to_set().contains(x) implies all.contains(x) by {
            let i = choose|i: int| 0 <= i < s.len() && s[i] == x;
            assert(s[i] == order[i] as int);
        }
    }
    vstd::set_lib::lemma_subset_equality(s.to_set(), all);
    assert(all.contains(v));
    assert(s.to_set().contains(v));
    let i = choose|i: int| 0 <= i < s.len() && s[i] == v;
    assert(order[i] == v);
}

/// The stable order of any keys is a permutation of their indices.
pub proof fn lemma_stable_order_is_permutation<K: Ranked>(keys: Seq<K>, order: Seq<usize>)
    requires
        is_stable_order(keys, order),
    ensures
        is_permutation(order, keys.len()),
{
    assert forall|i: int, j: int| 0 <= i < j < keys.len() implies #[trigger] order[i]
        != #[trigger] order[j] by {
        assert(comes_before(keys, order[i] as int, order[j] as int));
    }
}

/// Two stable orders of the same keys are the same sequence.
pub proof fn lemma_stable_order_unique<K: Ranked>(keys: Seq<K>, a: Seq<usize>, b: Seq<usize>)
    requires
        is_stable_order(keys, a),
        is_stable_order(keys, b),
    ensures
        a == b,
{
    lemma_stable_order_is_permutation(keys, a);
    lemma_stable_order_is_permutation(keys, b);
    assert forall|i: int| 0 <= i < a.len() implies a[i] == b[i] by {
        lemma_same_prefix(keys, a, b, i);
    }
    assert(a =~= b);
}

proof fn lemma_same_prefix<K: Ranked>(keys: Seq<K>, a: Seq<usize>, b: Seq<usize>, i: int)
    requires
        is_stable_order(keys, a),
        is_stable_order(keys, b),
        is_permutation(a, keys.len()),
        is_permutation(b, keys.len()),
        0 <= i < a.len(),
    ensures
        forall|k: int| 0 <= k <= i ==> #[trigger] a[k] == b[k],
    decreases i,
{
    if i > 0 {
        lemma_same_prefix(keys, a, b, i - 1);
    }
    lemma_permutation_onto(b, keys.len(), a[i] as int);
    let j = choose|j: int| 0 <= j < b.len() && #[trigger] b[j] == a[i];
    lemma_permutation_onto(a, keys.len(), b[i] as int);
    let k = choose|k: int| 0 <= k < a.len() && #[trigger] a[k] == b[i];
    if j < i {
        assert(a[j] == b[j]);
        assert(a[j] != a[i]);
    }
    if k < i {
        assert(a[k] == b[k]);
        assert(b[k] != b[i]);
    }
    if j > i {
        assert(comes_before(keys, b[i] as int, b[j] as int));
        if k > i {
            assert(comes_before(keys, a[i] as int, a[k] as int));
        }
    }
}

fn merge<K: Ranked>(
    keys: &[K],
    left: &Vec<usize>,
    right: &Vec<usize>,
    Ghost(mid): Ghost<int>,
) -> (out: Vec<usize>)
    requires
        0 <= mid <= keys.len(),
        is_chain(keys@, left@, 0, mid),
        is_chain(keys@, right@, mid, keys.len() as int),
        left.len() + right.len() <= usize::MAX,
    ensures
        out.len() == left.len() + right.len(),
        is_chain(keys@, out@, 0, keys.len() as int),
        forall|lo: int, hi: int|
            #![trigger is_chain(keys@, left@, lo, mid), is_chain(keys@, right@, mid, hi)]
            is_chain(keys@, left@, lo, mid) && is_chain(keys@, right@, mid, hi) && lo <= mid <= hi
                ==> is_chain(keys@, out@, lo, hi),
{
    let mut out: Vec<usize> = Vec::with_capacity(left.len() + right.len());
    let mut i: usize = 0;
    let mut j: usize = 0;
    while i < left.len() || j < right.len()
        invariant
            0 <= mid <= keys.len(),
            is_chain(keys@, left@, 0, mid),
            is_chain(keys@, right@, mid, keys.len() as int),
            left.len() + right.len() <= usize::MAX,
            i <= left.len(),
            j <= right.len(),
            out.len() == i + j,
            is_chain(keys@, out@, 0, keys.len() as int),
            forall|k: int, m: int|
                0 <= k < out.len() && i <= m < left.len() ==> comes_before(
                    keys@,
                    #[trigger] out[k] as int,
                    #[trigger] left[m] as int,
                ),
            forall|k: int, m: int|
                0 <= k < out.len() && j <= m < right.len() ==> comes_before(
                    keys@,
                    #[trigger] out[k] as int,
                    #[trigger] right[m] as int,
                ),
            forall|lo: int, hi: int|
                #![trigger is_chain(keys@, left@, lo, mid), is_chain(keys@, right@, mid, hi)]
                is_chain(keys@, left@, lo, mid) && is_chain(keys@, right@, mid, hi) && lo <= mid
                    <= hi ==> is_chain(keys@, out@, lo, hi),
        decreases left.len() + right.len() - i - j,
    {
        let from_left: bool = if i == left.len() {
            false
        } else if j == right.len() {
            true
        } else {
            keys[left[i]].not_after(&keys[right[j]])
        };
        if from_left {
            assert forall|m: int| j <= m < right.len() implies comes_before(
                keys@,
                left[i as int] as int,
                #[trigger] right[m] as int,
            ) by {
                if m > j {
                    assert(comes_before(keys@, right[j as int] as int, right[m] as int));
                }
            }
            out.push(left[i]);
            i = i + 1;
        } else {
            assert forall|m: int| i <= m < left.len() implies comes_before(
                keys@,
                right[j as int] as int,
                #[trigger] left[m] as int,
            ) by {
                if m > i {
                    assert(comes_before(keys@, left[i as int] as int, left[m] as int));
                }
            }
            out.push(right[j]);
            j = j + 1;
        }
    }
    out
}

fn sort_range<K: Ranked>(keys: &[K], lo: usize, hi: usize) -> (order: Vec<usize>)
    requires
        lo <= hi <= keys.len(),
    ensures
        order.len() == hi - lo,
        is_chain(keys@, order@, lo as int, hi as int),
    decreases hi - lo,
{
    if hi - lo == 0 {
        Vec::new()
    } else if hi - lo == 1 {
        let mut one: Vec<usize> = Vec::new();
        one.push(lo);
        one
    } else {
        let mid: usize = lo + (hi - lo) / 2;
        let left = sort_range(keys, lo, mid);
        let right = sort_range(keys, mid, hi);
        assert(is_chain(keys@, left@, lo as int, mid as int));
        assert(is_chain(keys@, right@, mid as int, hi as int));
        assert(is_chain(keys@, left@, 0, mid as int));
        assert(is_chain(keys@, right@, mid as int, keys.len() as int));
        merge(keys, &left, &right, Ghost(mid as int))
    }
}

/// The indices of `keys` in ascending order of key, equal keys in their given order.
pub fn stable_order<K: Ranked>(keys: &[K]) -> (order: Vec<usize>)
    ensures
        is_stable_order(keys@, order@),
        is_permutation(order@, keys@.len()),
{
    let order = sort_range(keys, 0, keys.len());
    proof {
        lemma_stable_order_is_permutation(keys@, order@);
    }
    order
}

/// `out` lists the values of `values` in ascending order, each once.
pub open spec fn is_sorted_distinct(values: Seq<i64>, out: Seq<i64>) -> bool {
    &&& forall|i: int, j: int| 0 <= i < j < out.len() ==> #[trigger] out[i] < #[trigger] out[j]
    &&& forall|v: i64| #[trigger] out.contains(v) <==> values.contains(v)
}

/// The distinct values in ascending order.
pub fn sorted_distinct(values: &[i64]) -> (out: Vec<i64>)
    ensures
        is_sorted_distinct(values@, out@),
        out.len() <= values.len(),
{
    let order = stable_order(values);
    let mut out: Vec<i64> = Vec::new();
    let mut k: usize = 0;
    while k < order.len()
        invariant
            k <= order.len(),
            order.len() == values.len(),
            is_stable_order(values@, order@),
            out.len() <= k,
            k > 0 ==> out.len() > 0 && out[out.len() - 1] == values[order[k - 1] as int],
            forall|i: int, j: int|
                0 <= i < j < out.len() ==> #[trigger] out[i] < #[trigger] out[j],
            forall|i: int| 0 <= i < out.len() ==> values@.contains(#[trigger] out[i]),
            forall|m: int| 0 <= m < k ==> out@.contains(#[trigger] values[order[m] as int]),
        decreases order.len() - k,
    {
        let v: i64 = values[order[k]];
        assert(values@.contains(v));
        let ghost before = out@;
        if k == 0 || values[order[k - 1]] != v {
            proof {
                if k > 0 {
                    assert(comes_before(values@, order[k - 1] as int, order[k as int] as int));
                }
            }
            out.push(v);
            assert(out@[before.len() as int] == v);
            assert forall|m: int| 0 <= m <= k implies out@.contains(
                #[trigger] values[order[m] as int],
            ) by {
                if m < k {
                    let w = choose|w: int|
                        0 <= w < before.len() && before[w] == values[order[m] as int];
                    assert(out@[w] == values[order[m] as int]);
                }
            }
        } else {
            assert(out@[out.len() - 1] == v);
        }
        k = k + 1;
    }
    proof {
        lemma_stable_order_is_permutation(values@, order@);
        assert forall|v: i64| #[trigger] out@.contains(v) <==> values@.contains(v) by {
            if values@.contains(v) {
                let i = choose|i: int| 0 <= i < values.len() && values[i] == v;
                lemma_permutation_onto(order@, values@.len(), i);
                let m = choose|m: int| 0 <= m < order.len() && #[trigger] order[m] == i;
                assert(out@.contains(values[order[m] as int]));
            }
            if out@.contains(v) {
                let i = choose|i: int| 0 <= i < out.len() && out[i] == v;
                assert(values@.contains(out[i]));
            }
        }
    }
    out
}

/// Pairs are ordered by their first number, and by the second where the first are equal.
pub proof fn lemma_pair_rank(a: (u32, u32), b: (u32, u32))
    ensures
        a.rank() < b.rank() <==> a.0 < b.0 || (a.0 == b.0 && a.1 < b.1),
        a.rank() == b.rank() <==> a == b,
{
}

/// Triples are ordered by their first number that differs.
pub proof fn lemma_triple_order(a: (i64, i64, i64), b: (i64, i64, i64))
    ensures
        a.rank() < b.rank() <==> a.0 < b.0 || (a.0 == b.0 && (a.1 < b.1 || (a.1 == b.1 && a.2
            < b.2))),
{
}

/// A stable order lists all indices by ascending key, those of equal keys in their own order.
pub proof fn lemma_stable_order_lists(keys: Seq<i64>, order: Seq<usize>, i: int, j: int)
    requires
        is_stable_order(keys, order),
        0 <= i < j < order.len(),
    ensures
        order.len() == keys.len(),
        order[i] < keys.len(),
        order[j] < keys.len(),
        keys[order[i] as int] < keys[order[j] as int] || (keys[order[i] as int]
            == keys[order[j] as int] && order[i] < order[j]),
{
    lemma_stable_order_is_permutation(keys, order);
    assert(comes_before(keys, order[i] as int, order[j] as int));
}

/// Distinct values come ascending, each once: a value is listed exactly if it occurs.
pub proof fn lemma_sorted_distinct(values: Seq<i64>, out: Seq<i64>)
    requires
        is_sorted_distinct(values, out),
    ensures
        forall|i: int, j: int| 0 <= i < j < out.len() ==> #[trigger] out[i] < #[trigger] out[j],
        forall|k: int| 0 <= k < values.len() ==> out.contains(#[trigger] values[k]),
        forall|k: int| 0 <= k < out.len() ==> values.contains(#[trigger] out[k]),
{
    assert forall|k: int| 0 <= k < values.len() implies out.contains(#[trigger] values[k]) by {
        assert(values.contains(values[k]));
    }
    assert forall|k: int| 0 <= k < out.len() implies values.contains(#[trigger] out[k]) by {
        assert(out.contains(out[k]));
    }
}

} // verus!
