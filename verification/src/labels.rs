//! Cluster labels numbered by first occurrence.

use crate::counting;
use std::collections::HashMap;
use vstd::prelude::*;

verus! {

/// The indices at which a label occurs for the first time.
pub open spec fn newcomers(labels: Seq<i64>) -> spec_fn(int) -> bool {
    |j: int| forall|k: int| 0 <= k < j ==> #[trigger] labels[k] != labels[j]
}

/// The index at which the label of index `i` occurs for the first time.
pub open spec fn first_index(labels: Seq<i64>, i: int) -> int {
    match counting::first_where((i + 1) as nat, |j: int| labels[j] == labels[i]) {
        Some(f) => f,
        None => i,
    }
}

/// The number that the label of index `i` gets: how many labels occur for the first time before it
/// does.
pub open spec fn label_number(labels: Seq<i64>, i: int) -> nat {
    counting::count(first_index(labels, i) as nat, newcomers(labels))
}

/// The number of distinct labels.
pub open spec fn label_count(labels: Seq<i64>) -> nat {
    counting::count(labels.len(), newcomers(labels))
}

/// `out` numbers the labels `0, 1, ..` by first occurrence.
pub open spec fn is_canonical(labels: Seq<i64>, out: Seq<usize>) -> bool {
    &&& out.len() == labels.len()
    &&& forall|i: int| 0 <= i < labels.len() ==> #[trigger] out[i] == label_number(labels, i)
}

/// What `first_index` finds.
pub proof fn lemma_first_index(labels: Seq<i64>, i: int)
    requires
        0 <= i < labels.len(),
    ensures
        0 <= first_index(labels, i) <= i,
        labels[first_index(labels, i)] == labels[i],
        newcomers(labels)(first_index(labels, i)),
        newcomers(labels)(i) <==> first_index(labels, i) == i,
{
    let p = |j: int| labels[j] == labels[i];
    counting::lemma_first_where((i + 1) as nat, p);
    assert(p(i));
    let f = first_index(labels, i);
    assert forall|k: int| 0 <= k < f implies #[trigger] labels[k] != labels[f] by {
        assert(!p(k));
    }
}

/// Two points share a number exactly if they share a label.
pub proof fn lemma_same_number(labels: Seq<i64>, i: int, j: int)
    requires
        0 <= i < labels.len(),
        0 <= j < labels.len(),
    ensures
        label_number(labels, i) == label_number(labels, j) <==> labels[i] == labels[j],
{
    lemma_first_index(labels, i);
    lemma_first_index(labels, j);
    let (f, g) = (first_index(labels, i), first_index(labels, j));
    if labels[i] == labels[j] {
        if f < g {
            assert(labels[f] != labels[g]);
        }
        if g < f {
            assert(labels[g] != labels[f]);
        }
    }
    if label_number(labels, i) == label_number(labels, j) {
        counting::lemma_rank_injective(newcomers(labels), f as nat, g as nat);
    }
}

/// The numbers are `0..label_count`, with none left out.
pub proof fn lemma_numbers_contiguous(labels: Seq<i64>, v: nat)
    ensures
        v < label_count(labels) <==> (exists|i: int|
            0 <= i < labels.len() && #[trigger] label_number(labels, i) == v),
{
    if v < label_count(labels) {
        let k = counting::lemma_count_onto(labels.len(), newcomers(labels), v);
        lemma_first_index(labels, k);
        assert(label_number(labels, k) == v);
    }
    if exists|i: int| 0 <= i < labels.len() && #[trigger] label_number(labels, i) == v {
        let i = choose|i: int| 0 <= i < labels.len() && #[trigger] label_number(labels, i) == v;
        lemma_first_index(labels, i);
        counting::lemma_count_monotone(
            first_index(labels, i) as nat,
            labels.len(),
            newcomers(labels),
        );
    }
}

/// The number of label `l` among those that occur in the first `n` points, if it occurs there.
spec fn numbered(numbers: Map<i64, usize>, labels: Seq<i64>, n: nat, l: i64) -> bool {
    &&& numbers.contains_key(l) <==> counting::first_where(n, |j: int| labels[j] == l) is Some
    &&& numbers.contains_key(l) ==> numbers[l] == counting::count(
        counting::first_where(n, |j: int| labels[j] == l)->0 as nat,
        newcomers(labels),
    )
}

/// Renumbers labels `0, 1, ..` by first occurrence.
pub fn canonicalize(labels: &[i64]) -> (out: Vec<usize>)
    ensures
        is_canonical(labels@, out@),
{
    broadcast use vstd::std_specs::hash::group_hash_axioms;

    let mut numbers: HashMap<i64, usize> = HashMap::new();
    let mut out: Vec<usize> = Vec::with_capacity(labels.len());
    let mut next: usize = 0;
    let mut i: usize = 0;
    while i < labels.len()
        invariant
            i <= labels@.len(),
            out@.len() == i,
            next == counting::count(i as nat, newcomers(labels@)),
            forall|j: int| 0 <= j < i ==> #[trigger] out@[j] == label_number(labels@, j),
            forall|l: i64| #[trigger] numbered(numbers@, labels@, i as nat, l),
        decreases labels.len() - i,
    {
        let l: i64 = labels[i];
        let ghost before = numbers@;
        let ghost here = |j: int| labels@[j] == l;
        proof {
            assert(numbered(before, labels@, i as nat, l));
            lemma_first_index(labels@, i as int);
            counting::lemma_first_where(i as nat, here);
            counting::lemma_count_bound(i as nat, newcomers(labels@));
            assert(here =~= |j: int| labels@[j] == labels@[i as int]);
            assert(newcomers(labels@)(i as int) <==> counting::first_where(i as nat, here) is None)
                by {
                if let Some(f) = counting::first_where(i as nat, here) {
                    assert(here(f));
                    assert(labels@[f] == labels@[i as int]);
                } else {
                    assert forall|k: int| 0 <= k < i implies #[trigger] labels@[k]
                        != labels@[i as int] by {
                        assert(!here(k));
                    }
                }
            }
        }
        match numbers.get(&l) {
            Some(v) => {
                out.push(*v);
            },
            None => {
                out.push(next);
                numbers.insert(l, next);
                next = next + 1;
            },
        }
        i = i + 1;
        proof {
            let done = (i - 1) as nat;
            assert forall|m: i64| #[trigger] numbered(numbers@, labels@, i as nat, m) by {
                assert(numbered(before, labels@, done, m));
                let p = |j: int| labels@[j] == m;
                assert(p(done as int) == (m == l));
            }
        }
    }
    out
}

/// Numbering keeps apart what has different labels and together what has one; a label gets the next
/// number, zero first, where it occurs for the first time.
pub proof fn lemma_canonical(labels: Seq<i64>, out: Seq<usize>)
    requires
        is_canonical(labels, out),
    ensures
        out.len() == labels.len(),
        forall|i: int, j: int|
            0 <= i < labels.len() && 0 <= j < labels.len() ==> (#[trigger] out[i]
                == #[trigger] out[j] <==> labels[i] == labels[j]),
        labels.len() > 0 ==> out[0] == 0,
        forall|i: int|
            #![trigger out[i]]
            0 < i < labels.len() && (forall|k: int| 0 <= k < i ==> #[trigger] labels[k] != labels[i])
                ==> (forall|k: int| 0 <= k < i ==> #[trigger] out[k] < out[i]) && exists|k: int|
                0 <= k < i && #[trigger] out[k] + 1 == out[i],
{
    assert forall|i: int, j: int| 0 <= i < labels.len() && 0 <= j < labels.len() implies (
    #[trigger] out[i] == #[trigger] out[j] <==> labels[i] == labels[j]) by {
        lemma_same_number(labels, i, j);
    }
    if labels.len() > 0 {
        lemma_first_index(labels, 0);
    }
    assert forall|i: int|
        #![trigger out[i]]
        0 < i < labels.len() && (forall|k: int| 0 <= k < i ==> #[trigger] labels[k]
            != labels[i]) implies (forall|k: int| 0 <= k < i ==> #[trigger] out[k] < out[i])
        && exists|k: int| 0 <= k < i && #[trigger] out[k] + 1 == out[i] by {
        let p = newcomers(labels);
        lemma_first_index(labels, i);
        assert(p(i));
        assert(first_index(labels, i) == i);
        assert forall|k: int| 0 <= k < i implies #[trigger] out[k] < out[i] by {
            lemma_first_index(labels, k);
            let f = first_index(labels, k);
            counting::lemma_count_monotone(f as nat, i as nat, p);
        }
        assert(p(0));
        assert(counting::count(i as nat, p) > 0) by {
            counting::lemma_count_monotone(0, i as nat, p);
        }
        let k = counting::lemma_count_onto(i as nat, p, (counting::count(i as nat, p) - 1) as nat);
        lemma_first_index(labels, k);
        assert(out[k] + 1 == out[i]);
    }
}

} // verus!
