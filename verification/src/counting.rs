//! Counting and searching the indices below a bound.

use crate::sorting;
use vstd::prelude::*;

verus! {

/// The number of indices below `n` that satisfy `p`.
pub open spec fn count(n: nat, p: spec_fn(int) -> bool) -> nat
    decreases n,
{
    if n == 0 {
        0
    } else {
        count((n - 1) as nat, p) + (if p(n - 1) {
            1nat
        } else {
            0nat
        })
    }
}

/// The greatest index below `n` that satisfies `p`.
pub open spec fn last_where(n: nat, p: spec_fn(int) -> bool) -> Option<int>
    decreases n,
{
    if n == 0 {
        None
    } else if p(n - 1) {
        Some(n - 1)
    } else {
        last_where((n - 1) as nat, p)
    }
}

/// The smallest index below `n` that satisfies `p`.
pub open spec fn first_where(n: nat, p: spec_fn(int) -> bool) -> Option<int>
    decreases n,
{
    if n == 0 {
        None
    } else {
        match first_where((n - 1) as nat, p) {
            Some(k) => Some(k),
            None => if p(n - 1) {
                Some(n - 1)
            } else {
                None
            },
        }
    }
}

/// What `last_where` finds is the greatest such index, and it finds one if there is one.
pub proof fn lemma_last_where(n: nat, p: spec_fn(int) -> bool)
    ensures
        match last_where(n, p) {
            Some(k) => 0 <= k < n && p(k) && forall|j: int| k < j < n ==> !#[trigger] p(j),
            None => forall|j: int| 0 <= j < n ==> !#[trigger] p(j),
        },
    decreases n,
{
    if n > 0 && !p(n - 1) {
        lemma_last_where((n - 1) as nat, p);
    }
}

/// What `first_where` finds is the smallest such index, and it finds one if there is one.
pub proof fn lemma_first_where(n: nat, p: spec_fn(int) -> bool)
    ensures
        match first_where(n, p) {
            Some(k) => 0 <= k < n && p(k) && forall|j: int| 0 <= j < k ==> !#[trigger] p(j),
            None => forall|j: int| 0 <= j < n ==> !#[trigger] p(j),
        },
    decreases n,
{
    if n > 0 {
        lemma_first_where((n - 1) as nat, p);
    }
}

/// At most all are counted.
pub proof fn lemma_count_bound(n: nat, p: spec_fn(int) -> bool)
    ensures
        count(n, p) <= n,
    decreases n,
{
    if n > 0 {
        lemma_count_bound((n - 1) as nat, p);
    }
}

/// Counts grow with the bound.
pub proof fn lemma_count_monotone(m: nat, n: nat, p: spec_fn(int) -> bool)
    requires
        m <= n,
    ensures
        count(m, p) <= count(n, p),
        m < n && p(m as int) ==> count(m, p) < count(n, p),
    decreases n - m,
{
    if m < n {
        lemma_count_monotone((m + 1) as nat, n, p);
    }
}

/// Predicates that agree below `n` have the same count.
pub proof fn lemma_count_agree(n: nat, p: spec_fn(int) -> bool, q: spec_fn(int) -> bool)
    requires
        forall|i: int| 0 <= i < n ==> #[trigger] p(i) == q(i),
    ensures
        count(n, p) == count(n, q),
    decreases n,
{
    if n > 0 {
        lemma_count_agree((n - 1) as nat, p, q);
        assert(p(n - 1) == q(n - 1));
    }
}

/// A predicate with one more index counts one more.
pub proof fn lemma_count_one_more(
    n: nat,
    p: spec_fn(int) -> bool,
    q: spec_fn(int) -> bool,
    k: int,
)
    requires
        0 <= k < n,
        !p(k),
        q(k),
        forall|i: int| 0 <= i < n && i != k ==> #[trigger] p(i) == q(i),
    ensures
        count(n, q) == count(n, p) + 1,
    decreases n,
{
    if k == n - 1 {
        lemma_count_agree((n - 1) as nat, p, q);
    } else {
        lemma_count_one_more((n - 1) as nat, p, q, k);
        assert(p(n - 1) == q(n - 1));
    }
}

/// Nothing counts as zero, and only nothing.
pub proof fn lemma_count_zero(n: nat, p: spec_fn(int) -> bool)
    ensures
        count(n, p) == 0 <==> (forall|i: int| 0 <= i < n ==> !#[trigger] p(i)),
    decreases n,
{
    if n > 0 {
        lemma_count_zero((n - 1) as nat, p);
        if count(n, p) != 0 {
            if p(n - 1) {
            } else {
                let i = choose|i: int| 0 <= i < n - 1 && #[trigger] p(i);
                assert(p(i));
            }
        }
    }
}

/// A smaller predicate counts no more.
pub proof fn lemma_count_implies(n: nat, p: spec_fn(int) -> bool, q: spec_fn(int) -> bool)
    requires
        forall|i: int| 0 <= i < n && #[trigger] p(i) ==> q(i),
    ensures
        count(n, p) <= count(n, q),
    decreases n,
{
    if n > 0 {
        lemma_count_implies((n - 1) as nat, p, q);
        assert(p(n - 1) ==> q(n - 1));
    }
}

/// A count splits along any second predicate.
pub proof fn lemma_count_split(n: nat, p: spec_fn(int) -> bool, q: spec_fn(int) -> bool)
    ensures
        count(n, p) == count(n, |i: int| p(i) && q(i)) + count(n, |i: int| p(i) && !q(i)),
    decreases n,
{
    if n > 0 {
        lemma_count_split((n - 1) as nat, p, q);
    }
}

/// Every rank below the count is taken by some index.
pub proof fn lemma_count_onto(n: nat, p: spec_fn(int) -> bool, r: nat) -> (k: int)
    requires
        r < count(n, p),
    ensures
        0 <= k < n,
        p(k),
        count(k as nat, p) == r,
    decreases n,
{
    if r < count((n - 1) as nat, p) {
        lemma_count_onto((n - 1) as nat, p, r)
    } else {
        n - 1
    }
}

/// Two indices that satisfy `p` and have the same rank are one.
pub proof fn lemma_rank_injective(p: spec_fn(int) -> bool, a: nat, b: nat)
    requires
        p(a as int),
        p(b as int),
        count(a, p) == count(b, p),
    ensures
        a == b,
{
    if a < b {
        lemma_count_monotone(a, b, p);
    } else if b < a {
        lemma_count_monotone(b, a, p);
    }
}

/// In a stable order, the index at place `r` has exactly `r` indices before it.
pub proof fn lemma_place_counts<K: sorting::Ranked>(keys: Seq<K>, order: Seq<usize>, r: int)
    requires
        sorting::is_stable_order(keys, order),
        0 <= r < keys.len(),
    ensures
        count(keys.len(), |i: int| sorting::comes_before(keys, i, order[r] as int)) == r,
{
    sorting::lemma_stable_order_is_permutation(keys, order);
    lemma_placed_before(keys, order, r);
    let p = |i: int| sorting::comes_before(keys, i, order[r] as int);
    let q = |i: int| exists|j: int| 0 <= j < r && #[trigger] order[j] == i;
    assert forall|i: int| 0 <= i < keys.len() implies #[trigger] p(i) == q(i) by {
        sorting::lemma_permutation_onto(order, keys.len(), i);
        let j = choose|j: int| 0 <= j < keys.len() && #[trigger] order[j] == i;
        if j < r {
            assert(sorting::comes_before(keys, order[j] as int, order[r] as int));
        } else if j > r {
            assert(sorting::comes_before(keys, order[r] as int, order[j] as int));
        }
        if q(i) {
            let j2 = choose|j2: int| 0 <= j2 < r && #[trigger] order[j2] == i;
            assert(j2 == j);
        }
    }
    lemma_count_agree(keys.len(), p, q);
}

/// As many indices stand at the first `r` places as there are places.
pub proof fn lemma_placed_before<K: sorting::Ranked>(keys: Seq<K>, order: Seq<usize>, r: int)
    requires
        sorting::is_permutation(order, keys.len()),
        0 <= r <= keys.len(),
    ensures
        count(keys.len(), |i: int| exists|j: int| 0 <= j < r && #[trigger] order[j] == i) == r,
    decreases r,
{
    let q = |i: int| exists|j: int| 0 <= j < r && #[trigger] order[j] == i;
    if r == 0 {
        lemma_count_zero(keys.len(), q);
    } else {
        lemma_placed_before(keys, order, r - 1);
        let p = |i: int| exists|j: int| 0 <= j < r - 1 && #[trigger] order[j] == i;
        let k = order[r - 1] as int;
        assert(q(k));
        assert(!p(k)) by {
            if p(k) {
                let j = choose|j: int| 0 <= j < r - 1 && #[trigger] order[j] == k;
                assert(order[j] != order[r - 1]);
            }
        }
        assert forall|i: int| 0 <= i < keys.len() && i != k implies #[trigger] p(i) == q(i) by {
            if q(i) {
                let j = choose|j: int| 0 <= j < r && #[trigger] order[j] == i;
                assert(j < r - 1);
            }
        }
        lemma_count_one_more(keys.len(), p, q, k);
    }
}

/// The number of entries of `s` that satisfy `p`.
pub open spec fn tally<A>(s: Seq<A>, p: spec_fn(A) -> bool) -> nat {
    count(s.len(), |i: int| p(s[i]))
}

/// Tallies of joined sequences add up.
pub proof fn lemma_tally_concat<A>(a: Seq<A>, b: Seq<A>, p: spec_fn(A) -> bool)
    ensures
        tally(a + b, p) == tally(a, p) + tally(b, p),
    decreases b.len(),
{
    let ab = a + b;
    if b.len() == 0 {
        assert(ab =~= a);
    } else {
        let b1 = b.drop_last();
        lemma_tally_concat(a, b1, p);
        let m = (ab.len() - 1) as nat;
        lemma_count_agree(m, |i: int| p(ab[i]), |i: int| p((a + b1)[i]));
        lemma_count_agree(b1.len(), |i: int| p(b[i]), |i: int| p(b1[i]));
        assert(ab[m as int] == b.last());
    }
}

/// The tally of a single entry.
pub proof fn lemma_tally_one<A>(x: A, p: spec_fn(A) -> bool)
    ensures
        tally(seq![x], p) == (if p(x) {
            1nat
        } else {
            0nat
        }),
{
    let q = |i: int| p(seq![x][i]);
    assert(count(0, q) == 0);
    assert(count(1, q) == (if q(0) {
        1nat
    } else {
        0nat
    }));
}

/// A tally is zero exactly if no entry satisfies `p`.
pub proof fn lemma_tally_zero<A>(s: Seq<A>, p: spec_fn(A) -> bool)
    ensures
        tally(s, p) == 0 <==> (forall|i: int| 0 <= i < s.len() ==> !p(#[trigger] s[i])),
{
    let q = |i: int| p(s[i]);
    lemma_count_zero(s.len(), q);
    if tally(s, p) == 0 {
        assert forall|i: int| 0 <= i < s.len() implies !p(#[trigger] s[i]) by {
            assert(!q(i));
        }
    }
}

/// A tally over mapped entries is the tally of the mapped predicate.
pub proof fn lemma_tally_map<A, B>(s: Seq<A>, f: spec_fn(A) -> B, p: spec_fn(B) -> bool)
    ensures
        tally(s.map_values(f), p) == tally(s, |x: A| p(f(x))),
{
    lemma_count_agree(
        s.len(),
        |i: int| p(s.map_values(f)[i]),
        |i: int| p(f(s[i])),
    );
    lemma_count_agree(s.len(), |i: int| p(f(s[i])), |i: int| (|x: A| p(f(x)))(s[i]));
}

/// The sum of `f` over the indices below `n`.
pub open spec fn sum(n: nat, f: spec_fn(int) -> int) -> int
    decreases n,
{
    if n == 0 {
        0
    } else {
        sum((n - 1) as nat, f) + f(n - 1)
    }
}

/// Functions that agree below `n` have the same sum.
pub proof fn lemma_sum_agree(n: nat, f: spec_fn(int) -> int, g: spec_fn(int) -> int)
    requires
        forall|i: int| 0 <= i < n ==> #[trigger] f(i) == g(i),
    ensures
        sum(n, f) == sum(n, g),
    decreases n,
{
    if n > 0 {
        lemma_sum_agree((n - 1) as nat, f, g);
        assert(f(n - 1) == g(n - 1));
    }
}

/// Sums add up.
pub proof fn lemma_sum_plus(n: nat, f: spec_fn(int) -> int, g: spec_fn(int) -> int)
    ensures
        sum(n, |i: int| f(i) + g(i)) == sum(n, f) + sum(n, g),
    decreases n,
{
    if n > 0 {
        lemma_sum_plus((n - 1) as nat, f, g);
    }
}

/// The sum of the indicator of `p` is its count.
pub proof fn lemma_sum_count(n: nat, p: spec_fn(int) -> bool)
    ensures
        sum(
            n,
            |i: int|
                if p(i) {
                    1int
                } else {
                    0int
                },
        ) == count(n, p),
    decreases n,
{
    if n > 0 {
        lemma_sum_count((n - 1) as nat, p);
    }
}

/// A sum of numbers between zero and `m` lies between zero and `n * m`.
pub proof fn lemma_sum_bound(n: nat, f: spec_fn(int) -> int, m: int)
    requires
        m >= 0,
        forall|i: int| 0 <= i < n ==> 0 <= #[trigger] f(i) <= m,
    ensures
        0 <= sum(n, f) <= n * m,
    decreases n,
{
    if n > 0 {
        lemma_sum_bound((n - 1) as nat, f, m);
        assert(0 <= f(n - 1) <= m);
        assert(n * m == (n - 1) * m + m) by (nonlinear_arith);
    }
}

/// A sum of numbers of 64 bits fits into 128 bits.
pub proof fn lemma_sum_fits(n: nat, f: spec_fn(int) -> int)
    requires
        n <= 0x1_0000_0000_0000_0000,
        forall|i: int| 0 <= i < n ==> i64::MIN <= #[trigger] f(i) <= i64::MAX,
    ensures
        n * i64::MIN <= sum(n, f) <= n * i64::MAX,
        i128::MIN <= sum(n, f) <= i128::MAX,
    decreases n,
{
    if n > 0 {
        lemma_sum_fits((n - 1) as nat, f);
        assert(i64::MIN <= f(n - 1) <= i64::MAX);
        assert(n * i64::MAX == (n - 1) * i64::MAX + i64::MAX) by (nonlinear_arith);
        assert(n * i64::MIN == (n - 1) * i64::MIN + i64::MIN) by (nonlinear_arith);
    } else {
        assert(0 * i64::MAX == 0 && 0 * i64::MIN == 0);
    }
    assert(n * i64::MAX <= 0x1_0000_0000_0000_0000 * i64::MAX && n * i64::MIN
        >= 0x1_0000_0000_0000_0000 * i64::MIN) by (nonlinear_arith)
        requires
            n <= 0x1_0000_0000_0000_0000,
    ;
}

/// Counting and adding up go index by index.
pub proof fn lemma_steps(n: nat, p: spec_fn(int) -> bool, f: spec_fn(int) -> int)
    ensures
        count(0, p) == 0,
        count(n + 1, p) == (if p(n as int) {
            count(n, p) + 1
        } else {
            count(n, p)
        }),
        sum(0, f) == 0,
        sum(n + 1, f) == sum(n, f) + f(n as int),
{
}

} // verus!
