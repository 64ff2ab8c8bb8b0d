//! The whole-number parts of the evaluation metrics.
//!
//! Predictions are keys: whole numbers that order as the predictions do.

use crate::batches;
use crate::counting;
use crate::sorting;
use vstd::prelude::*;

verus! {

/// The indices with label one.
pub open spec fn recalled(y: Seq<i64>) -> spec_fn(int) -> bool {
    |i: int| y[i] == 1
}

/// What prediction `a` scores against prediction `b`: two if it is higher, one if they are equal.
pub open spec fn score(p: Seq<i64>, a: int, b: int) -> int {
    if p[b] < p[a] {
        2
    } else if p[b] == p[a] {
        1
    } else {
        0
    }
}

/// What prediction `a` scores against those with a label other than one.
pub open spec fn score_against_lapses(y: Seq<i64>, p: Seq<i64>, a: int) -> int {
    counting::sum(
        y.len(),
        |b: int|
            if y[b] == 1 {
                0
            } else {
                score(p, a, b)
            },
    )
}

/// Twice the statistic of Mann, Whitney and Wilcoxon: over all pairs of a prediction with label one and
/// a prediction with another label, two where the former is higher and one where they are equal.
pub open spec fn twice_u(y: Seq<i64>, p: Seq<i64>) -> int {
    counting::sum(
        y.len(),
        |a: int|
            if y[a] == 1 {
                score_against_lapses(y, p, a)
            } else {
                0
            },
    )
}

spec fn total_score(p: Seq<i64>, a: int) -> int {
    counting::sum(p.len(), |b: int| score(p, a, b))
}

/// Twice the rank of prediction `a`, ties sharing the mean of their ranks.
pub open spec fn twice_rank(p: Seq<i64>, a: int) -> int {
    counting::count(p.len(), |b: int| p[b] < p[a]) as int + counting::count(
        p.len(),
        |b: int| p[b] <= p[a],
    ) as int + 1
}

proof fn lemma_rank_is_score(p: Seq<i64>, a: int)
    ensures
        twice_rank(p, a) == total_score(p, a) + 1,
{
    let n = p.len();
    let lt = |b: int| p[b] < p[a];
    let le = |b: int| p[b] <= p[a];
    let one_lt = |b: int|
        if lt(b) {
            1int
        } else {
            0int
        };
    let one_le = |b: int|
        if le(b) {
            1int
        } else {
            0int
        };
    counting::lemma_sum_count(n, lt);
    counting::lemma_sum_count(n, le);
    counting::lemma_sum_plus(n, one_lt, one_le);
    counting::lemma_sum_agree(n, |b: int| score(p, a, b), |b: int| one_lt(b) + one_le(b));
}

/// Scores among predictions with label one, the first index below `n` and the second below `m`.
spec fn inner(y: Seq<i64>, p: Seq<i64>, a: int, m: nat) -> int {
    counting::sum(
        m,
        |b: int|
            if y[a] == 1 && y[b] == 1 {
                score(p, a, b)
            } else {
                0
            },
    )
}

spec fn among(y: Seq<i64>, p: Seq<i64>, n: nat, m: nat) -> int {
    counting::sum(n, |a: int| inner(y, p, a, m))
}

spec fn against(y: Seq<i64>, p: Seq<i64>, n: nat, b: int) -> int {
    counting::sum(
        n,
        |a: int|
            if y[a] == 1 && y[b] == 1 {
                score(p, a, b)
            } else {
                0
            },
    )
}

proof fn lemma_among_column(y: Seq<i64>, p: Seq<i64>, n: nat, m: nat)
    ensures
        among(y, p, n, m + 1) == among(y, p, n, m) + against(y, p, n, m as int),
{
    let f = |a: int| inner(y, p, a, m);
    let g = |a: int|
        if y[a] == 1 && y[m as int] == 1 {
            score(p, a, m as int)
        } else {
            0
        };
    counting::lemma_sum_plus(n, f, g);
    counting::lemma_sum_agree(n, |a: int| inner(y, p, a, m + 1), |a: int| f(a) + g(a));
}

/// A row and the matching column of the scores among predictions with label one.
proof fn lemma_row_and_column(y: Seq<i64>, p: Seq<i64>, n: nat, k: int)
    ensures
        inner(y, p, k, n) + against(y, p, n, k) == (if y[k] == 1 {
            2 * counting::count(n, recalled(y))
        } else {
            0
        }),
    decreases n,
{
    if n > 0 {
        lemma_row_and_column(y, p, (n - 1) as nat, k);
    }
}

proof fn lemma_among_square(y: Seq<i64>, p: Seq<i64>, n: nat)
    ensures
        among(y, p, n, n) == counting::count(n, recalled(y)) * counting::count(n, recalled(y)),
    decreases n,
{
    if n > 0 {
        let m = (n - 1) as nat;
        lemma_among_square(y, p, m);
        lemma_among_column(y, p, m, m);
        lemma_row_and_column(y, p, m, m as int);
        let c = counting::count(m, recalled(y));
        assert(m + 1 == n);
        assert(among(y, p, n, n) == among(y, p, m, n) + inner(y, p, m as int, n));
        assert(inner(y, p, m as int, n) == inner(y, p, m as int, m) + (if y[m as int] == 1 {
            1int
        } else {
            0int
        }));
        let c2 = counting::count(n, recalled(y));
        if y[m as int] == 1 {
            assert(c2 * c2 == c * c + 2 * c + 1) by (nonlinear_arith)
                requires
                    c2 == c + 1,
            ;
        } else {
            assert(c2 == c);
        }
    } else {
        let c = counting::count(n, recalled(y));
        assert(c * c == 0) by (nonlinear_arith)
            requires
                c == 0,
        ;
    }
}

spec fn rank_sum(y: Seq<i64>, p: Seq<i64>, n: nat) -> int {
    counting::sum(
        n,
        |a: int|
            if y[a] == 1 {
                twice_rank(p, a)
            } else {
                0
            },
    )
}

/// The sum of the doubled ranks of the predictions with label one exceeds the doubled statistic by what
/// the ranks would sum to if there were no others.
proof fn lemma_rank_sum(y: Seq<i64>, p: Seq<i64>)
    requires
        y.len() == p.len(),
    ensures
        rank_sum(y, p, y.len()) == twice_u(y, p) + counting::count(y.len(), recalled(y)) * (
        counting::count(y.len(), recalled(y)) + 1),
{
    let n = y.len();
    let c = counting::count(n, recalled(y));
    let u = |a: int|
        if y[a] == 1 {
            score_against_lapses(y, p, a)
        } else {
            0
        };
    let v = |a: int| inner(y, p, a, n);
    let w = |a: int|
        if recalled(y)(a) {
            1int
        } else {
            0int
        };
    let uv = |a: int| u(a) + v(a);
    counting::lemma_sum_plus(n, u, v);
    counting::lemma_sum_plus(n, uv, w);
    counting::lemma_sum_count(n, recalled(y));
    lemma_among_square(y, p, n);
    assert(among(y, p, n, n) == counting::sum(n, v));
    let r = |a: int|
        if y[a] == 1 {
            twice_rank(p, a)
        } else {
            0
        };
    assert forall|a: int| 0 <= a < n implies #[trigger] r(a) == uv(a) + w(a) by {
        lemma_rank_is_score(p, a);
        let lapse = |b: int|
            if y[b] == 1 {
                0
            } else {
                score(p, a, b)
            };
        let hit = |b: int|
            if y[a] == 1 && y[b] == 1 {
                score(p, a, b)
            } else {
                0
            };
        if y[a] == 1 {
            counting::lemma_sum_plus(n, lapse, hit);
            counting::lemma_sum_agree(n, |b: int| score(p, a, b), |b: int| lapse(b) + hit(b));
        } else {
            counting::lemma_sum_agree(n, hit, |b: int| 0int);
            lemma_zero_sum(n);
        }
    }
    counting::lemma_sum_agree(n, r, |a: int| uv(a) + w(a));
    assert(c * (c + 1) == c * c + c) by (nonlinear_arith);
}

proof fn lemma_zero_sum(n: nat)
    ensures
        counting::sum(n, |b: int| 0int) == 0,
    decreases n,
{
    if n > 0 {
        lemma_zero_sum((n - 1) as nat);
    }
}

/// In a sorted order, a run of equal keys that starts at place `i` and ends before place `j` has `i`
/// smaller keys in front of it, and `j` keys up to its end.
proof fn lemma_run(p: Seq<i64>, order: Seq<usize>, i: int, j: int, v: i64)
    requires
        sorting::is_stable_order(p, order),
        0 <= i <= j <= p.len(),
        forall|r: int| 0 <= r < i ==> p[#[trigger] order[r] as int] < v,
        forall|r: int| i <= r < j ==> p[#[trigger] order[r] as int] == v,
        forall|r: int| j <= r < p.len() ==> p[#[trigger] order[r] as int] > v,
    ensures
        counting::count(p.len(), |b: int| p[b] < v) == i,
        counting::count(p.len(), |b: int| p[b] <= v) == j,
{
    sorting::lemma_stable_order_is_permutation(p, order);
    counting::lemma_placed_before(p, order, i);
    counting::lemma_placed_before(p, order, j);
    let in_i = |b: int| exists|r: int| 0 <= r < i && #[trigger] order[r] == b;
    let in_j = |b: int| exists|r: int| 0 <= r < j && #[trigger] order[r] == b;
    let lt = |b: int| p[b] < v;
    let le = |b: int| p[b] <= v;
    assert forall|b: int| 0 <= b < p.len() implies #[trigger] in_i(b) == lt(b) && in_j(b) == le(
        b,
    ) by {
        sorting::lemma_permutation_onto(order, p.len(), b);
        let r = choose|r: int| 0 <= r < p.len() && #[trigger] order[r] == b;
        if in_i(b) {
            let q = choose|q: int| 0 <= q < i && #[trigger] order[q] == b;
            assert(p[order[q] as int] < v);
        }
        if in_j(b) {
            let q = choose|q: int| 0 <= q < j && #[trigger] order[q] == b;
            assert(p[order[q] as int] <= v);
        }
        assert(p[order[r] as int] == p[b]);
    }
    assert forall|b: int| 0 <= b < p.len() implies #[trigger] in_j(b) == le(b) by {
        assert(in_i(b) == lt(b) && in_j(b) == le(b));
    }
    counting::lemma_count_agree(p.len(), in_i, lt);
    counting::lemma_count_agree(p.len(), in_j, le);
}

fn doubled_ranks(p: &[i64]) -> (ranks: Vec<u128>)
    requires
        p@.len() <= i64::MAX,
    ensures
        ranks@.len() == p@.len(),
        forall|a: int| 0 <= a < p@.len() ==> #[trigger] ranks@[a] == twice_rank(p@, a),
{
    let n: usize = p.len();
    let order = sorting::stable_order(p);
    let mut ranks: Vec<u128> = Vec::with_capacity(n);
    let mut z: usize = 0;
    while z < n
        invariant
            z <= n,
            ranks@.len() == z,
        decreases n - z,
    {
        ranks.push(0);
        z = z + 1;
    }
    let mut i: usize = 0;
    while i < n
        invariant
            i <= n,
            n == p@.len(),
            n <= i64::MAX,
            ranks@.len() == n,
            sorting::is_stable_order(p@, order@),
            sorting::is_permutation(order@, n as nat),
            forall|r: int|
                0 <= r < i ==> ranks@[#[trigger] order@[r] as int] == twice_rank(
                    p@,
                    order@[r] as int,
                ),
            0 < i < n ==> p@[order@[i - 1] as int] < p@[order@[i as int] as int],
        decreases n - i,
    {
        let v: i64 = p[order[i]];
        let mut j: usize = i + 1;
        while j < n && p[order[j]] == v
            invariant
                i < j <= n,
                n == p@.len(),
                sorting::is_stable_order(p@, order@),
                forall|r: int| i <= r < j ==> p@[#[trigger] order@[r] as int] == v,
            decreases n - j,
        {
            j = j + 1;
        }
        proof {
            assert forall|r: int| 0 <= r < i implies p@[#[trigger] order@[r] as int] < v by {
                if r < i - 1 {
                    assert(sorting::comes_before(p@, order@[r] as int, order@[i - 1] as int));
                }
            }
            assert forall|r: int| j <= r < n implies p@[#[trigger] order@[r] as int] > v by {
                assert(sorting::comes_before(p@, order@[j - 1] as int, order@[j as int] as int));
                if r > j {
                    assert(sorting::comes_before(p@, order@[j as int] as int, order@[r] as int));
                }
            }
            lemma_run(p@, order@, i as int, j as int, v);
        }
        let rank: u128 = i as u128 + 1 + j as u128;
        let mut k: usize = i;
        while k < j
            invariant
                i <= k <= j <= n,
                n == p@.len(),
                ranks@.len() == n,
                sorting::is_permutation(order@, n as nat),
                forall|r: int| i <= r < j ==> p@[#[trigger] order@[r] as int] == v,
                counting::count(p@.len(), |b: int| p@[b] < v) == i,
                counting::count(p@.len(), |b: int| p@[b] <= v) == j,
                rank == i + 1 + j,
                forall|r: int|
                    0 <= r < k ==> ranks@[#[trigger] order@[r] as int] == twice_rank(
                        p@,
                        order@[r] as int,
                    ),
            decreases j - k,
        {
            let at: usize = order[k];
            let ghost before = ranks@;
            ranks[at] = rank;
            proof {
                assert(p@[order@[k as int] as int] == v);
                assert(twice_rank(p@, at as int) == rank);
                assert forall|r: int| 0 <= r < k + 1 implies ranks@[#[trigger] order@[r] as int]
                    == twice_rank(p@, order@[r] as int) by {
                    if r < k {
                        assert(order@[r] != order@[k as int]);
                    }
                }
            }
            k = k + 1;
        }
        i = j;
    }
    proof {
        assert forall|a: int| 0 <= a < n implies #[trigger] ranks@[a] == twice_rank(p@, a) by {
            sorting::lemma_permutation_onto(order@, n as nat, a);
            let r = choose|r: int| 0 <= r < n && #[trigger] order@[r] == a;
            assert(ranks@[order@[r] as int] == twice_rank(p@, order@[r] as int));
        }
    }
    ranks
}

/// The area under the ROC curve as a fraction: twice the rank statistic, and the number of pairs that it
/// compares. There is none where all labels are one, or none is.
pub fn auc(y: &[i64], p: &[i64]) -> (r: Option<(u128, u128)>)
    requires
        y@.len() == p@.len(),
        y@.len() <= i64::MAX,
    ensures
        r is None <==> counting::count(y@.len(), recalled(y@)) == 0 || counting::count(
            y@.len(),
            recalled(y@),
        ) == y@.len(),
        r matches Some((u2, pairs)) ==> {
            &&& u2 == twice_u(y@, p@)
            &&& pairs == counting::count(y@.len(), recalled(y@)) * (y@.len() - counting::count(
                y@.len(),
                recalled(y@),
            ))
        },
{
    let n: usize = y.len();
    let ranks = doubled_ranks(p);
    let mut n_pos: u128 = 0;
    let mut sum: u128 = 0;
    let mut k: usize = 0;
    while k < n
        invariant
            k <= n,
            n == y@.len(),
            n == p@.len(),
            n <= i64::MAX,
            ranks@.len() == n,
            forall|a: int| 0 <= a < n ==> #[trigger] ranks@[a] == twice_rank(p@, a),
            n_pos == counting::count(k as nat, recalled(y@)),
            n_pos <= k,
            sum == rank_sum(y@, p@, k as nat),
            sum <= k * (2 * n + 1),
        decreases n - k,
    {
        proof {
            counting::lemma_count_bound(n as nat, |b: int| p@[b] < p@[k as int]);
            counting::lemma_count_bound(n as nat, |b: int| p@[b] <= p@[k as int]);
            assert(ranks@[k as int] <= 2 * n + 1);
            assert((k + 1) * (2 * n + 1) == k * (2 * n + 1) + (2 * n + 1)) by (nonlinear_arith);
            assert((k + 1) * (2 * n + 1) <= u128::MAX) by (nonlinear_arith)
                requires
                    k < n,
                    n <= i64::MAX,
            ;
        }
        if y[k] == 1 {
            n_pos = n_pos + 1;
            sum = sum + ranks[k];
        }
        k = k + 1;
    }
    proof {
        counting::lemma_count_bound(n as nat, recalled(y@));
    }
    let n_neg: u128 = n as u128 - n_pos;
    if n_pos == 0 || n_neg == 0 {
        return None;
    }
    proof {
        lemma_rank_sum(y@, p@);
        assert(n_pos * (n_pos + 1) <= u128::MAX) by (nonlinear_arith)
            requires
                n_pos <= i64::MAX,
        ;
        assert(n_pos * n_neg <= u128::MAX) by (nonlinear_arith)
            requires
                n_pos <= i64::MAX,
                n_neg <= i64::MAX,
        ;
        lemma_twice_u_nonneg(y@, p@);
    }
    Some((sum - n_pos * (n_pos + 1), n_pos * n_neg))
}

proof fn lemma_twice_u_nonneg(y: Seq<i64>, p: Seq<i64>)
    ensures
        twice_u(y, p) >= 0,
{
    let n = y.len();
    lemma_sum_nonneg(
        n,
        |a: int|
            if y[a] == 1 {
                score_against_lapses(y, p, a)
            } else {
                0
            },
        y,
        p,
    );
}

proof fn lemma_sum_nonneg(n: nat, f: spec_fn(int) -> int, y: Seq<i64>, p: Seq<i64>)
    requires
        forall|a: int| #[trigger] f(a) == (if y[a] == 1 {
            score_against_lapses(y, p, a)
        } else {
            0
        }),
    ensures
        counting::sum(n, f) >= 0,
    decreases n,
{
    if n > 0 {
        lemma_sum_nonneg((n - 1) as nat, f, y, p);
        counting::lemma_sum_bound(
            y.len(),
            |b: int|
                if y[b] == 1 {
                    0
                } else {
                    score(p, n - 1, b)
                },
            2,
        );
        assert(f(n - 1) >= 0);
    }
}

/// The area under the curve lies between zero and one: the statistic is at most the number of pairs.
pub proof fn lemma_auc_in_unit_interval(y: Seq<i64>, p: Seq<i64>)
    requires
        y.len() == p.len(),
    ensures
        0 <= twice_u(y, p) <= 2 * (counting::count(y.len(), recalled(y)) * (y.len()
            - counting::count(y.len(), recalled(y)))),
{
    lemma_twice_u_nonneg(y, p);
    lemma_twice_u_upper(y, p, y.len());
}

proof fn lemma_lapse_score(y: Seq<i64>, p: Seq<i64>, a: int, m: nat)
    ensures
        counting::sum(
            m,
            |b: int|
                if y[b] == 1 {
                    0
                } else {
                    score(p, a, b)
                },
        ) <= 2 * (m - counting::count(m, recalled(y))),
    decreases m,
{
    if m > 0 {
        lemma_lapse_score(y, p, a, (m - 1) as nat);
    }
}

proof fn lemma_twice_u_upper(y: Seq<i64>, p: Seq<i64>, m: nat)
    requires
        m <= y.len(),
    ensures
        counting::sum(
            m,
            |a: int|
                if y[a] == 1 {
                    score_against_lapses(y, p, a)
                } else {
                    0
                },
        ) <= 2 * (counting::count(m, recalled(y)) * (y.len() - counting::count(
            y.len(),
            recalled(y),
        ))),
    decreases m,
{
    let neg = y.len() - counting::count(y.len(), recalled(y));
    if m > 0 {
        lemma_twice_u_upper(y, p, (m - 1) as nat);
        lemma_lapse_score(y, p, m - 1, y.len());
        let c = counting::count((m - 1) as nat, recalled(y));
        assert((c + 1) * neg == c * neg + neg) by (nonlinear_arith);
    } else {
        assert(0 * neg == 0) by (nonlinear_arith);
    }
}

/// Counts of a yes-or-no prediction: hits, false alarms and misses.
#[derive(Debug, Clone, Copy, PartialEq, Eq, Structural)]
pub struct Hits {
    pub hit: usize,
    pub false_alarm: usize,
    pub miss: usize,
}

/// Counts the predictions at or above the threshold against labels of one and zero.
pub fn count_hits(y: &[i64], p: &[i64], threshold: i64) -> (r: Hits)
    requires
        y@.len() == p@.len(),
    ensures
        r.hit == counting::count(y@.len(), |i: int| p@[i] >= threshold && y@[i] == 1),
        r.false_alarm == counting::count(y@.len(), |i: int| p@[i] >= threshold && y@[i] == 0),
        r.miss == counting::count(y@.len(), |i: int| p@[i] < threshold && y@[i] == 1),
        r.hit + r.miss == counting::count(y@.len(), recalled(y@)),
        r.hit + r.false_alarm + r.miss <= y@.len(),
{
    let n: usize = y.len();
    let ghost hit = |i: int| p@[i] >= threshold && y@[i] == 1;
    let ghost alarm = |i: int| p@[i] >= threshold && y@[i] == 0;
    let ghost miss = |i: int| p@[i] < threshold && y@[i] == 1;
    let mut r = Hits { hit: 0, false_alarm: 0, miss: 0 };
    let mut k: usize = 0;
    while k < n
        invariant
            k <= n,
            n == y@.len(),
            n == p@.len(),
            hit == (|i: int| p@[i] >= threshold && y@[i] == 1),
            alarm == (|i: int| p@[i] >= threshold && y@[i] == 0),
            miss == (|i: int| p@[i] < threshold && y@[i] == 1),
            r.hit == counting::count(k as nat, hit),
            r.false_alarm == counting::count(k as nat, alarm),
            r.miss == counting::count(k as nat, miss),
            r.hit + r.miss == counting::count(k as nat, recalled(y@)),
            r.hit + r.false_alarm + r.miss <= k,
        decreases n - k,
    {
        let yes: bool = p[k] >= threshold;
        if yes && y[k] == 1 {
            r.hit = r.hit + 1;
        } else if yes && y[k] == 0 {
            r.false_alarm = r.false_alarm + 1;
        } else if !yes && y[k] == 1 {
            r.miss = r.miss + 1;
        }
        k = k + 1;
    }
    r
}

/// A share as a fraction; zero where nothing is shared out.
pub open spec fn share_of(part: nat, rest: nat) -> (nat, nat) {
    if part + rest == 0 {
        (0, 1)
    } else {
        (part, part + rest)
    }
}

fn share(part: usize, rest: usize) -> (r: (usize, usize))
    requires
        part + rest <= usize::MAX,
    ensures
        (r.0 as nat, r.1 as nat) == share_of(part as nat, rest as nat),
        0 <= r.0 <= r.1,
        r.1 > 0,
{
    if part + rest == 0 {
        (0, 1)
    } else {
        (part, part + rest)
    }
}

/// The key of nine tenths.
pub const KEY_90: i64 = 0x3fec_cccc_cccc_cccd;

/// Predicted recall of nine tenths or more, and what became of it.
pub open spec fn predicted(y: Seq<i64>, p: Seq<i64>, yes: bool, label: i64) -> spec_fn(int) -> bool {
    |i: int| (p[i] >= KEY_90) == yes && y[i] == label
}

/// Precision and recall, as fractions, of predicting recall where the prediction is nine tenths or more.
/// Predictions are given by their keys.
pub fn precision_recall_at_90(y: &[i64], p: &[i64]) -> (r: ((usize, usize), (usize, usize)))
    requires
        y@.len() == p@.len(),
    ensures
        (r.0.0 as nat, r.0.1 as nat) == share_of(
            counting::count(y@.len(), predicted(y@, p@, true, 1)),
            counting::count(y@.len(), predicted(y@, p@, true, 0)),
        ),
        (r.1.0 as nat, r.1.1 as nat) == share_of(
            counting::count(y@.len(), predicted(y@, p@, true, 1)),
            counting::count(y@.len(), predicted(y@, p@, false, 1)),
        ),
        r.0.0 <= r.0.1,
        r.1.0 <= r.1.1,
{
    let h: Hits = count_hits(y, p, KEY_90);
    let n: usize = y.len();
    proof {
        assert(n == y@.len());
        counting::lemma_count_agree(
            y@.len(),
            |i: int| p@[i] >= KEY_90 && y@[i] == 1,
            predicted(y@, p@, true, 1),
        );
        counting::lemma_count_agree(
            y@.len(),
            |i: int| p@[i] >= KEY_90 && y@[i] == 0,
            predicted(y@, p@, true, 0),
        );
        counting::lemma_count_agree(
            y@.len(),
            |i: int| p@[i] < KEY_90 && y@[i] == 1,
            predicted(y@, p@, false, 1),
        );
    }
    (share(h.hit, h.false_alarm), share(h.hit, h.miss))
}

/// The rows of a bin have the same keys.
pub open spec fn alike(keys: Seq<(i64, i64, i64)>, bin: Seq<usize>) -> bool {
    &&& bin.len() > 0
    &&& forall|j: int| 0 <= j < bin.len() ==> keys[#[trigger] bin[j] as int] == keys[bin[0] as int]
}

/// `bins` holds the rows, one bin for every triple of keys.
pub open spec fn are_bins(keys: Seq<(i64, i64, i64)>, bins: Seq<Vec<usize>>) -> bool {
    &&& sorting::is_stable_order(keys, batches::joined(bins, bins.len()))
    &&& forall|b: int| 0 <= b < bins.len() ==> alike(keys, (#[trigger] bins[b])@)
    &&& forall|a: int, b: int|
        0 <= a < b < bins.len() ==> keys[(#[trigger] bins[a])@[0] as int] != keys[(
        #[trigger] bins[b])@[0] as int]
}

/// Puts the rows into bins: rows with the same three keys, which stand for the interval, the number of
/// reviews and the number of lapses, share a bin. Bins come by ascending keys, their rows in order.
pub fn rmse_bins(keys: &[(i64, i64, i64)]) -> (bins: Vec<Vec<usize>>)
    ensures
        are_bins(keys@, bins@),
{
    let order = sorting::stable_order(keys);
    let n: usize = order.len();
    let mut bins: Vec<Vec<usize>> = Vec::new();
    let mut start: usize = 0;
    while start < n
        invariant
            start <= n,
            n == order@.len(),
            n == keys@.len(),
            sorting::is_stable_order(keys@, order@),
            sorting::is_permutation(order@, keys@.len()),
            batches::joined(bins@, bins@.len()) == order@.take(start as int),
            forall|r: int| 0 <= r < bins@.len() ==> alike(keys@, (#[trigger] bins@[r])@),
            forall|q: int, r: int|
                0 <= q < r < bins@.len() ==> keys@[(#[trigger] bins@[q])@[0] as int] != keys@[(
                #[trigger] bins@[r])@[0] as int],
            forall|r: int|
                0 <= r < bins@.len() ==> (start < n ==> sorting::Ranked::rank(
                    &keys@[(#[trigger] bins@[r])@[0] as int],
                ) < sorting::Ranked::rank(&keys@[order@[start as int] as int])),
        decreases n - start,
    {
        let key: (i64, i64, i64) = keys[order[start]];
        let mut bin: Vec<usize> = Vec::new();
        let mut end: usize = start;
        while end < n && keys[order[end]].0 == key.0 && keys[order[end]].1 == key.1
            && keys[order[end]].2 == key.2
            invariant
                start <= end <= n,
                n == order@.len(),
                n == keys@.len(),
                sorting::is_permutation(order@, keys@.len()),
                key == keys@[order@[start as int] as int],
                bin@ == order@.subrange(start as int, end as int),
                forall|j: int| 0 <= j < bin@.len() ==> keys@[#[trigger] bin@[j] as int] == key,
            decreases n - end,
        {
            bin.push(order[end]);
            assert(bin@ =~= order@.subrange(start as int, end + 1));
            end = end + 1;
        }
        let ghost before = bins@;
        proof {
            batches::lemma_joined_push(before, bin, before.len());
            assert(order@.take(end as int) =~= order@.take(start as int) + bin@);
            if end < n {
                sorting::lemma_stable_order_ascends(keys@, order@, start as int, end as int);
                if sorting::Ranked::rank(&key) == sorting::Ranked::rank(
                    &keys@[order@[end as int] as int],
                ) {
                    sorting::lemma_triple_rank(key, keys@[order@[end as int] as int]);
                }
            }
        }
        bins.push(bin);
        assert forall|r: int| 0 <= r < bins@.len() implies (end < n ==> sorting::Ranked::rank(
            &keys@[(#[trigger] bins@[r])@[0] as int],
        ) < sorting::Ranked::rank(&keys@[order@[end as int] as int])) by {
            if end < n && r < before.len() {
                assert(bins@[r] == before[r]);
            }
        }
        start = end;
    }
    assert(order@.take(n as int) =~= order@);
    bins
}

/// Every row is in a bin, and two rows share one exactly if their keys are the same.
pub proof fn lemma_bins_share(
    keys: Seq<(i64, i64, i64)>,
    bins: Seq<Vec<usize>>,
    row: usize,
    other: usize,
)
    requires
        are_bins(keys, bins),
        row < keys.len(),
        other < keys.len(),
    ensures
        exists|b: int| 0 <= b < bins.len() && #[trigger] bins[b]@.contains(row),
        keys[row as int] == keys[other as int] <==> (exists|b: int|
            0 <= b < bins.len() && #[trigger] bins[b]@.contains(row) && bins[b]@.contains(other)),
{
    let all = batches::joined(bins, bins.len());
    sorting::lemma_stable_order_is_permutation(keys, all);
    sorting::lemma_permutation_onto(all, keys.len(), row as int);
    sorting::lemma_permutation_onto(all, keys.len(), other as int);
    let x = choose|x: int| 0 <= x < keys.len() && #[trigger] all[x] == row;
    let y = choose|y: int| 0 <= y < keys.len() && #[trigger] all[y] == other;
    let (a, i) = batches::lemma_joined_find(bins, bins.len(), x);
    let (b, j) = batches::lemma_joined_find(bins, bins.len(), y);
    assert(bins[a]@.contains(row));
    assert(bins[b]@.contains(other));
    assert(alike(keys, bins[a]@) && alike(keys, bins[b]@));
    assert(keys[bins[a]@[i] as int] == keys[bins[a]@[0] as int]);
    assert(keys[bins[b]@[j] as int] == keys[bins[b]@[0] as int]);
    if keys[row as int] == keys[other as int] {
        if a < b {
            assert(keys[bins[a]@[0] as int] != keys[bins[b]@[0] as int]);
        } else if b < a {
            assert(keys[bins[b]@[0] as int] != keys[bins[a]@[0] as int]);
        }
        assert(bins[a]@.contains(row) && bins[a]@.contains(other));
    }
    if exists|b: int|
        0 <= b < bins.len() && #[trigger] bins[b]@.contains(row) && bins[b]@.contains(other) {
        let c = choose|b: int|
            0 <= b < bins.len() && #[trigger] bins[b]@.contains(row) && bins[b]@.contains(other);
        let u = choose|u: int| 0 <= u < bins[c]@.len() && bins[c]@[u] == row;
        let v = choose|v: int| 0 <= v < bins[c]@.len() && bins[c]@[v] == other;
        assert(alike(keys, bins[c]@));
        assert(keys[bins[c]@[u] as int] == keys[bins[c]@[v] as int]);
    }
}

/// What the statistic counts: over all pairs of a recalled row and one that was not, two where the
/// prediction of the former is higher and one where the two are equal.
pub proof fn lemma_auc_counts_pairs(y: Seq<i64>, p: Seq<i64>)
    requires
        y.len() == p.len(),
    ensures
        twice_u(y, p) == counting::sum(
            y.len(),
            |a: int|
                counting::sum(
                    y.len(),
                    |b: int|
                        if y[a] != 1 || y[b] == 1 || p[a] < p[b] {
                            0int
                        } else if p[a] == p[b] {
                            1int
                        } else {
                            2int
                        },
                ),
        ),
{
    let n = y.len();
    let f = |a: int|
        if y[a] == 1 {
            score_against_lapses(y, p, a)
        } else {
            0
        };
    let g = |a: int|
        counting::sum(
            n,
            |b: int|
                if y[a] != 1 || y[b] == 1 || p[a] < p[b] {
                    0int
                } else if p[a] == p[b] {
                    1int
                } else {
                    2int
                },
        );
    assert forall|a: int| 0 <= a < n implies #[trigger] f(a) == g(a) by {
        let inner_f = |b: int|
            if y[b] == 1 {
                0
            } else {
                score(p, a, b)
            };
        let inner_g = |b: int|
            if y[a] != 1 || y[b] == 1 || p[a] < p[b] {
                0int
            } else if p[a] == p[b] {
                1int
            } else {
                2int
            };
        if y[a] == 1 {
            counting::lemma_sum_agree(n, inner_f, inner_g);
        } else {
            lemma_sum_of_zeros(n, inner_g);
        }
    }
    counting::lemma_sum_agree(n, f, g);
}

proof fn lemma_sum_of_zeros(n: nat, f: spec_fn(int) -> int)
    requires
        forall|i: int| 0 <= i < n ==> #[trigger] f(i) == 0,
    ensures
        counting::sum(n, f) == 0,
    decreases n,
{
    if n > 0 {
        lemma_sum_of_zeros((n - 1) as nat, f);
        assert(f(n - 1) == 0);
    }
}

/// Turning all predictions round turns the area round: the two statistics add up to that of a
/// perfect prediction.
pub proof fn lemma_auc_turned_round(y: Seq<i64>, p: Seq<i64>, q: Seq<i64>)
    requires
        y.len() == p.len(),
        y.len() == q.len(),
        forall|a: int, b: int|
            0 <= a < y.len() && 0 <= b < y.len() ==> (#[trigger] p[a] < #[trigger] p[b] <==> q[b]
                < q[a]),
    ensures
        twice_u(y, p) + twice_u(y, q) == 2 * (counting::count(y.len(), |a: int| y[a] == 1)
            * counting::count(y.len(), |a: int| y[a] != 1)),
{
    let n = y.len();
    let (ones, others) = (|a: int| y[a] == 1, |a: int| y[a] != 1);
    lemma_turned_upto(y, p, q, n);
    let f = |a: int|
        if y[a] == 1 {
            score_against_lapses(y, p, a)
        } else {
            0
        };
    let g = |a: int|
        if y[a] == 1 {
            score_against_lapses(y, q, a)
        } else {
            0
        };
    assert(twice_u(y, p) == counting::sum(n, f));
    assert(twice_u(y, q) == counting::sum(n, g));
}

proof fn lemma_turned_upto(y: Seq<i64>, p: Seq<i64>, q: Seq<i64>, m: nat)
    requires
        y.len() == p.len(),
        y.len() == q.len(),
        m <= y.len(),
        forall|a: int, b: int|
            0 <= a < y.len() && 0 <= b < y.len() ==> (#[trigger] p[a] < #[trigger] p[b] <==> q[b]
                < q[a]),
    ensures
        counting::sum(
            m,
            |a: int|
                if y[a] == 1 {
                    score_against_lapses(y, p, a)
                } else {
                    0
                },
        ) + counting::sum(
            m,
            |a: int|
                if y[a] == 1 {
                    score_against_lapses(y, q, a)
                } else {
                    0
                },
        ) == 2 * (counting::count(m, |a: int| y[a] == 1) * counting::count(
            y.len(),
            |a: int| y[a] != 1,
        )),
    decreases m,
{
    let others = counting::count(y.len(), |a: int| y[a] != 1) as int;
    if m > 0 {
        lemma_turned_upto(y, p, q, (m - 1) as nat);
        let c = counting::count((m - 1) as nat, |a: int| y[a] == 1) as int;
        if y[m - 1] == 1 {
            lemma_turned_scores(y, p, q, m - 1, y.len());
            assert((c + 1) * others == c * others + others) by (nonlinear_arith);
        }
    } else {
        assert(0 * others == 0) by (nonlinear_arith);
    }
}

proof fn lemma_turned_scores(y: Seq<i64>, p: Seq<i64>, q: Seq<i64>, a: int, m: nat)
    requires
        y.len() == p.len(),
        y.len() == q.len(),
        0 <= a < y.len(),
        m <= y.len(),
        forall|a: int, b: int|
            0 <= a < y.len() && 0 <= b < y.len() ==> (#[trigger] p[a] < #[trigger] p[b] <==> q[b]
                < q[a]),
    ensures
        counting::sum(
            m,
            |b: int|
                if y[b] == 1 {
                    0
                } else {
                    score(p, a, b)
                },
        ) + counting::sum(
            m,
            |b: int|
                if y[b] == 1 {
                    0
                } else {
                    score(q, a, b)
                },
        ) == 2 * counting::count(m, |b: int| y[b] != 1),
    decreases m,
{
    if m > 0 {
        lemma_turned_scores(y, p, q, a, (m - 1) as nat);
        let b = m - 1;
        assert(p[a] < p[b] <==> q[b] < q[a]);
        assert(p[b] < p[a] <==> q[a] < q[b]);
    }
}

/// Precision is the share of recalled rows among those predicted at nine tenths or more, recall the
/// share of those predicted so among the recalled; either is zero where there is nothing to share.
pub proof fn lemma_precision_recall(
    y: Seq<i64>,
    p: Seq<i64>,
    precision: (nat, nat),
    recall: (nat, nat),
)
    requires
        y.len() == p.len(),
        forall|i: int| 0 <= i < y.len() ==> #[trigger] y[i] == 0 || y[i] == 1,
        precision == share_of(
            counting::count(y.len(), predicted(y, p, true, 1)),
            counting::count(y.len(), predicted(y, p, true, 0)),
        ),
        recall == share_of(
            counting::count(y.len(), predicted(y, p, true, 1)),
            counting::count(y.len(), predicted(y, p, false, 1)),
        ),
    ensures
        ({
            let hits = counting::count(
                y.len(),
                |i: int| p[i] >= 0x3fec_cccc_cccc_cccd && y[i] == 1,
            );
            let alarms = counting::count(y.len(), |i: int| p[i] >= 0x3fec_cccc_cccc_cccd);
            let recalls = counting::count(y.len(), |i: int| y[i] == 1);
            &&& precision == (if alarms == 0 {
                (0nat, 1nat)
            } else {
                (hits, alarms)
            })
            &&& recall == (if recalls == 0 {
                (0nat, 1nat)
            } else {
                (hits, recalls)
            })
        }),
{
    let n = y.len();
    let hit = |i: int| p[i] >= 0x3fec_cccc_cccc_cccd && y[i] == 1;
    let alarm = |i: int| p[i] >= 0x3fec_cccc_cccc_cccd;
    let one = |i: int| y[i] == 1;
    counting::lemma_count_agree(n, predicted(y, p, true, 1), hit);
    counting::lemma_count_split(n, alarm, one);
    counting::lemma_count_agree(n, |i: int| alarm(i) && one(i), hit);
    counting::lemma_count_agree(n, |i: int| alarm(i) && !one(i), predicted(y, p, true, 0));
    counting::lemma_count_split(n, one, alarm);
    counting::lemma_count_agree(n, |i: int| one(i) && alarm(i), hit);
    counting::lemma_count_agree(n, |i: int| one(i) && !alarm(i), predicted(y, p, false, 1));
}

/// There is an area under the curve exactly if some row was recalled and some was not.
pub proof fn lemma_auc_exists(y: Seq<i64>)
    ensures
        (counting::count(y.len(), recalled(y)) == 0 || counting::count(y.len(), recalled(y))
            == y.len()) <==> !((exists|i: int| 0 <= i < y.len() && #[trigger] y[i] == 1) && (exists|
            i: int,
        |
            0 <= i < y.len() && #[trigger] y[i] != 1)),
        y.len() - counting::count(y.len(), recalled(y)) == counting::count(
            y.len(),
            |i: int| y[i] != 1,
        ),
{
    let n = y.len();
    let others = |i: int| y[i] != 1;
    lemma_complement(y, n);
    counting::lemma_count_zero(n, recalled(y));
    counting::lemma_count_zero(n, others);
    if exists|i: int| 0 <= i < n && #[trigger] y[i] == 1 {
        let i = choose|i: int| 0 <= i < n && #[trigger] y[i] == 1;
        assert(recalled(y)(i));
    }
    if exists|i: int| 0 <= i < n && #[trigger] y[i] != 1 {
        let i = choose|i: int| 0 <= i < n && #[trigger] y[i] != 1;
        assert(others(i));
    }
}

proof fn lemma_complement(y: Seq<i64>, n: nat)
    ensures
        counting::count(n, recalled(y)) + counting::count(n, |i: int| y[i] != 1) == n,
    decreases n,
{
    if n > 0 {
        lemma_complement(y, (n - 1) as nat);
        assert(recalled(y)(n - 1) == (y[n - 1] == 1));
    }
}

} // verus!
