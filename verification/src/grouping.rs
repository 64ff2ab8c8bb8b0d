//! Rows grouped by a key.

use crate::counting;
use crate::sorting;
use std::collections::HashMap;
use vstd::prelude::*;

verus! {

/// The indices below `n` that satisfy `p`, ascending.
pub open spec fn rows_where(n: nat, p: spec_fn(int) -> bool) -> Seq<usize>
    decreases n,
{
    if n == 0 {
        Seq::empty()
    } else {
        let before = rows_where((n - 1) as nat, p);
        if p(n - 1) {
            before.push((n - 1) as usize)
        } else {
            before
        }
    }
}

/// The rows with key `k`.
pub open spec fn has_key(keys: Seq<i64>, k: i64) -> spec_fn(int) -> bool {
    |i: int| keys[i] == k
}

/// The indices of the rows with key `k`.
pub open spec fn rows_with(keys: Seq<i64>, k: i64) -> Seq<usize> {
    rows_where(keys.len(), has_key(keys, k))
}

/// `rows_where` lists exactly the indices that satisfy the predicate, ascending.
pub proof fn lemma_rows_where(n: nat, p: spec_fn(int) -> bool)
    requires
        n <= usize::MAX + 1,
    ensures
        rows_where(n, p).len() == counting::count(n, p),
        forall|r: int|
            0 <= r < rows_where(n, p).len() ==> #[trigger] rows_where(n, p)[r] < n && p(
                rows_where(n, p)[r] as int,
            ),
        forall|r: int, s: int|
            0 <= r < s < rows_where(n, p).len() ==> #[trigger] rows_where(n, p)[r]
                < #[trigger] rows_where(n, p)[s],
        forall|i: usize|
            #![trigger rows_where(n, p).contains(i)]
            rows_where(n, p).contains(i) <==> i < n && p(i as int),
    decreases n,
{
    if n > 0 {
        let m = (n - 1) as nat;
        lemma_rows_where(m, p);
        let (a, b) = (rows_where(m, p), rows_where(n, p));
        assert forall|r: int| 0 <= r < b.len() implies #[trigger] b[r] < n && p(b[r] as int) by {
            if r < a.len() {
                assert(b[r] == a[r]);
            }
        }
        assert forall|r: int, s: int| 0 <= r < s < b.len() implies #[trigger] b[r]
            < #[trigger] b[s] by {
            if s < a.len() {
                assert(b[r] == a[r] && b[s] == a[s]);
            } else {
                assert(b[r] == a[r]);
            }
        }
        assert forall|i: usize|
            #![trigger b.contains(i)]
            b.contains(i) <==> i < n && p(i as int) by {
            if b.contains(i) {
                let r = choose|r: int| 0 <= r < b.len() && b[r] == i;
                assert(b[r] < n);
            }
            if i < n && p(i as int) {
                if i < m {
                    assert(a.contains(i));
                    let r = choose|r: int| 0 <= r < a.len() && a[r] == i;
                    assert(b[r] == i);
                } else {
                    assert(b[b.len() - 1] == i);
                }
            }
        }
    }
}

/// The indices of the rows with key `k`.
pub fn rows_with_key(keys: &[i64], k: i64) -> (rows: Vec<usize>)
    ensures
        rows@ == rows_with(keys@, k),
{
    let ghost p = has_key(keys@, k);
    let mut rows: Vec<usize> = Vec::new();
    let mut i: usize = 0;
    while i < keys.len()
        invariant
            i <= keys@.len(),
            p == has_key(keys@, k),
            rows@ == rows_where(i as nat, p),
        decreases keys.len() - i,
    {
        if keys[i] == k {
            rows.push(i);
        }
        i = i + 1;
    }
    rows
}

/// The rows that share a key.
#[derive(Debug, Clone)]
pub struct Group {
    pub key: i64,
    pub rows: Vec<usize>,
}

/// One of the first `m` groups has key `k`.
pub open spec fn has_group(groups: Seq<Group>, m: nat, k: i64) -> bool {
    exists|g: int| 0 <= g < m && (#[trigger] groups[g]).key == k
}

/// `groups` holds one group per key, by ascending key, each with the rows of its key in order.
pub open spec fn are_groups(keys: Seq<i64>, groups: Seq<Group>) -> bool {
    &&& forall|a: int, b: int|
        0 <= a < b < groups.len() ==> (#[trigger] groups[a]).key < (#[trigger] groups[b]).key
    &&& forall|i: int| 0 <= i < keys.len() ==> has_group(groups, groups.len(), #[trigger] keys[i])
    &&& forall|g: int|
        0 <= g < groups.len() ==> keys.contains((#[trigger] groups[g]).key) && groups[g].rows@
            == rows_with(keys, groups[g].key)
}

/// Every row is in exactly one group.
pub proof fn lemma_groups_partition(keys: Seq<i64>, groups: Seq<Group>, i: usize)
    requires
        are_groups(keys, groups),
        keys.len() <= usize::MAX,
        i < keys.len(),
    ensures
        exists|g: int| 0 <= g < groups.len() && (#[trigger] groups[g]).rows@.contains(i),
        forall|g: int, h: int|
            0 <= g < groups.len() && 0 <= h < groups.len() && (
            #[trigger] groups[g]).rows@.contains(i) && (#[trigger] groups[h]).rows@.contains(i)
                ==> g == h,
{
    assert(has_group(groups, groups.len(), keys[i as int]));
    let g = choose|g: int| 0 <= g < groups.len() && (#[trigger] groups[g]).key == keys[i as int];
    lemma_rows_where(keys.len(), has_key(keys, groups[g].key));
    assert(groups[g].rows@.contains(i));
    assert forall|a: int, b: int|
        0 <= a < groups.len() && 0 <= b < groups.len() && (#[trigger] groups[a]).rows@.contains(i)
            && (#[trigger] groups[b]).rows@.contains(i) implies a == b by {
        lemma_rows_where(keys.len(), has_key(keys, groups[a].key));
        lemma_rows_where(keys.len(), has_key(keys, groups[b].key));
        if a < b {
            assert(groups[a].key < groups[b].key);
        } else if b < a {
            assert(groups[b].key < groups[a].key);
        }
    }
}

/// The number of rows in the first `m` groups.
pub open spec fn rows_in(groups: Seq<Group>, m: nat) -> nat
    decreases m,
{
    if m == 0 {
        0
    } else {
        rows_in(groups, (m - 1) as nat) + groups[m - 1].rows@.len()
    }
}

/// The rows whose key one of the first `m` groups has.
spec fn grouped_rows(keys: Seq<i64>, groups: Seq<Group>, m: nat) -> spec_fn(int) -> bool {
    |i: int| has_group(groups, m, keys[i])
}

proof fn lemma_rows_in(keys: Seq<i64>, groups: Seq<Group>, m: nat)
    requires
        are_groups(keys, groups),
        keys.len() <= usize::MAX,
        m <= groups.len(),
    ensures
        rows_in(groups, m) == counting::count(
            keys.len(),
            grouped_rows(keys, groups, m),
        ),
    decreases m,
{
    let n = keys.len();
    let p = grouped_rows(keys, groups, m);
    if m == 0 {
        counting::lemma_count_zero(n, p);
    } else {
        lemma_rows_in(keys, groups, (m - 1) as nat);
        let last = groups[m - 1];
        let is_last = has_key(keys, last.key);
        lemma_rows_where(n, is_last);
        let before = grouped_rows(keys, groups, (m - 1) as nat);
        counting::lemma_count_split(n, p, is_last);
        let a = |i: int| p(i) && is_last(i);
        let b = |i: int| p(i) && !is_last(i);
        assert forall|i: int| 0 <= i < n implies #[trigger] a(i) == is_last(i) by {
            if is_last(i) {
                assert(groups[m - 1].key == keys[i]);
            }
        }
        counting::lemma_count_agree(n, a, is_last);
        assert forall|i: int| 0 <= i < n implies #[trigger] b(i) == before(i) by {
            if before(i) {
                let g = choose|g: int| 0 <= g < m - 1 && (#[trigger] groups[g]).key == keys[i];
                assert(groups[g].key < groups[m - 1].key);
                assert(groups[g].key == keys[i]);
            }
            if b(i) {
                let g = choose|g: int| 0 <= g < m && (#[trigger] groups[g]).key == keys[i];
                assert(g < m - 1);
            }
        }
        counting::lemma_count_agree(n, b, before);
    }
}

/// The groups together have as many rows as there are keys.
pub proof fn lemma_groups_size(keys: Seq<i64>, groups: Seq<Group>)
    requires
        are_groups(keys, groups),
        keys.len() <= usize::MAX,
    ensures
        rows_in(groups, groups.len()) == keys.len(),
{
    lemma_rows_in(keys, groups, groups.len());
    lemma_all(keys.len(), keys, groups);
}

proof fn lemma_all(n: nat, keys: Seq<i64>, groups: Seq<Group>)
    requires
        n <= keys.len(),
        are_groups(keys, groups),
    ensures
        counting::count(n, grouped_rows(keys, groups, groups.len())) == n,
    decreases n,
{
    if n > 0 {
        lemma_all((n - 1) as nat, keys, groups);
        assert(has_group(groups, groups.len(), keys[n - 1]));
    }
}

/// `rank` maps every key of `ids` to its place.
spec fn ranks_known(rank: Map<i64, usize>, ids: Seq<i64>, m: int) -> bool {
    &&& forall|g: int| 0 <= g < m ==> rank.contains_key(#[trigger] ids[g]) && rank[ids[g]] == g
}

/// The rows of every key, by ascending key.
pub fn group_by_key(keys: &[i64]) -> (groups: Vec<Group>)
    ensures
        are_groups(keys@, groups@),
{
    broadcast use vstd::std_specs::hash::group_hash_axioms;

    let ids = sorting::sorted_distinct(keys);
    let mut rank: HashMap<i64, usize> = HashMap::new();
    let mut groups: Vec<Group> = Vec::with_capacity(ids.len());
    let mut g: usize = 0;
    while g < ids.len()
        invariant
            g <= ids@.len(),
            sorting::is_sorted_distinct(keys@, ids@),
            ranks_known(rank@, ids@, g as int),
            groups@.len() == g,
            forall|h: int|
                0 <= h < g ==> (#[trigger] groups@[h]).key == ids@[h] && groups@[h].rows@
                    == rows_where(0, has_key(keys@, ids@[h])),
        decreases ids.len() - g,
    {
        let ghost before = rank@;
        rank.insert(ids[g], g);
        assert(ranks_known(rank@, ids@, g + 1)) by {
            assert forall|h: int| 0 <= h < g + 1 implies rank@.contains_key(#[trigger] ids@[h])
                && rank@[ids@[h]] == h by {
                if h < g {
                    assert(ids@[h] < ids@[g as int]);
                    assert(before.contains_key(ids@[h]));
                }
            }
        }
        groups.push(Group { key: ids[g], rows: Vec::new() });
        g = g + 1;
    }
    let mut i: usize = 0;
    while i < keys.len()
        invariant
            i <= keys@.len(),
            sorting::is_sorted_distinct(keys@, ids@),
            ranks_known(rank@, ids@, ids@.len() as int),
            groups@.len() == ids@.len(),
            forall|h: int|
                0 <= h < ids@.len() ==> (#[trigger] groups@[h]).key == ids@[h] && groups@[h].rows@
                    == rows_where(i as nat, has_key(keys@, ids@[h])),
        decreases keys.len() - i,
    {
        let k: i64 = keys[i];
        let ghost before = groups@;
        proof {
            assert(keys@.contains(k));
            assert(ids@.contains(k));
        }
        let ghost w = choose|w: int| 0 <= w < ids@.len() && ids@[w] == k;
        let at: usize = match rank.get(&k) {
            Some(r) => *r,
            None => 0,
        };
        proof {
            assert(rank@.contains_key(ids@[w]) && rank@[ids@[w]] == w);
            assert(at == w);
        }
        groups[at].rows.push(i);
        proof {
            assert forall|h: int| 0 <= h < ids@.len() implies (#[trigger] groups@[h]).key == ids@[h]
                && groups@[h].rows@ == rows_where((i + 1) as nat, has_key(keys@, ids@[h])) by {
                let p = has_key(keys@, ids@[h]);
                assert(before[h].rows@ == rows_where(i as nat, p));
                if h != at {
                    assert(ids@[h] != ids@[at as int]) by {
                        if h < at {
                            assert(ids@[h] < ids@[at as int]);
                        } else {
                            assert(ids@[at as int] < ids@[h]);
                        }
                    }
                    assert(!p(i as int));
                } else {
                    assert(p(i as int));
                }
            }
        }
        i = i + 1;
    }
    proof {
        assert forall|j: int| 0 <= j < keys@.len() implies has_group(
            groups@,
            groups@.len(),
            #[trigger] keys@[j],
        ) by {
            assert(keys@.contains(keys@[j]));
            assert(ids@.contains(keys@[j]));
            let w = choose|w: int| 0 <= w < ids@.len() && ids@[w] == keys@[j];
            assert(groups@[w].key == keys@[j]);
        }
        assert forall|h: int| 0 <= h < groups@.len() implies keys@.contains(
            (#[trigger] groups@[h]).key,
        ) && groups@[h].rows@ == rows_with(keys@, groups@[h].key) by {
            assert(ids@.contains(ids@[h]));
        }
        assert forall|a: int, b: int| 0 <= a < b < groups@.len() implies (
        #[trigger] groups@[a]).key < (#[trigger] groups@[b]).key by {
            assert(ids@[a] < ids@[b]);
        }
    }
    groups
}

/// A group holds the rows of its key, ascending, and no others; keys ascend from group to group, and
/// every group has a row.
pub proof fn lemma_groups_hold_keys(keys: Seq<i64>, groups: Seq<Group>, g: int, i: usize)
    requires
        are_groups(keys, groups),
        keys.len() <= usize::MAX,
        0 <= g < groups.len(),
    ensures
        groups[g].rows@.contains(i) <==> i < keys.len() && keys[i as int] == groups[g].key,
        groups[g].rows@.len() > 0,
        forall|a: int, b: int|
            0 <= a < b < groups[g].rows@.len() ==> #[trigger] groups[g].rows@[a]
                < #[trigger] groups[g].rows@[b],
        forall|h: int| 0 <= h < g ==> (#[trigger] groups[h]).key < groups[g].key,
{
    let p = has_key(keys, groups[g].key);
    lemma_rows_where(keys.len(), p);
    assert(groups[g].rows@.contains(i) <==> i < keys.len() && p(i as int));
    assert(keys.contains(groups[g].key));
    let w = choose|w: int| 0 <= w < keys.len() && keys[w] == groups[g].key;
    assert(p(w));
    assert(rows_where(keys.len(), p).contains(w as usize));
}

} // verus!
