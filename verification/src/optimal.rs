//! Search over the ways to put a user's decks into clusters.
//!
//! A cluster of units is a bit mask. A way to cluster `m` units is first written as a string: unit `u`
//! is in block `a[u]`, and blocks are numbered by their first unit.

use crate::counting;
use crate::grouping;
use crate::labels;
use crate::presets;
use vstd::prelude::*;

verus! {

/// The number of blocks of a string.
pub open spec fn blocks(a: Seq<usize>) -> nat
    decreases a.len(),
{
    if a.len() == 0 {
        0
    } else {
        let before = blocks(a.drop_last());
        if a.last() + 1 > before {
            (a.last() + 1) as nat
        } else {
            before
        }
    }
}

/// Every unit is in a block that an earlier unit is in, or in the next new one.
pub open spec fn grows(a: Seq<usize>) -> bool {
    forall|i: int| 0 <= i < a.len() ==> #[trigger] a[i] <= blocks(a.take(i))
}

/// The strings over `m` units that begin with `prefix`, a string of `nb` blocks, in lexicographic
/// order.
pub open spec fn strings(m: nat, prefix: Seq<usize>, nb: nat) -> Seq<Seq<usize>>
    decreases m - prefix.len(), nb + 2,
{
    if prefix.len() >= m {
        seq![prefix]
    } else {
        branches(m, prefix, nb, nb + 1)
    }
}

/// The strings that go on from `prefix` with one of the blocks below `k`.
pub open spec fn branches(m: nat, prefix: Seq<usize>, nb: nat, k: nat) -> Seq<Seq<usize>>
    decreases m - prefix.len(), k,
{
    if k == 0 || prefix.len() >= m {
        Seq::empty()
    } else {
        branches(m, prefix, nb, (k - 1) as nat) + strings(
            m,
            prefix.push((k - 1) as usize),
            if k > nb {
                k
            } else {
                nb
            },
        )
    }
}

/// The units, among the first `k`, that are in block `l`, as a mask.
pub open spec fn mask_of(a: Seq<usize>, l: int, k: nat) -> u16
    decreases k,
{
    if k == 0 {
        0
    } else if a[k - 1] == l {
        mask_of(a, l, (k - 1) as nat) | (1u16 << ((k - 1) as u16))
    } else {
        mask_of(a, l, (k - 1) as nat)
    }
}

/// The masks of the blocks of a string.
pub open spec fn masks_of(a: Seq<usize>) -> Seq<u16> {
    Seq::new(blocks(a), |l: int| mask_of(a, l, a.len()))
}

/// The contents of a list of lists.
pub open spec fn contents(v: Seq<Vec<u16>>) -> Seq<Seq<u16>> {
    v.map_values(|x: Vec<u16>| x@)
}

/// The masks of each of the labellings.
pub open spec fn all_masks(s: Seq<Seq<usize>>) -> Seq<Seq<u16>> {
    s.map_values(|a: Seq<usize>| masks_of(a))
}

proof fn lemma_blocks_push(a: Seq<usize>, x: usize)
    ensures
        blocks(a.push(x)) == (if x + 1 > blocks(a) {
            (x + 1) as nat
        } else {
            blocks(a)
        }),
{
    assert(a.push(x).drop_last() =~= a);
}

proof fn lemma_below_blocks(a: Seq<usize>, i: int)
    requires
        0 <= i < a.len(),
    ensures
        a[i] < blocks(a),
    decreases a.len(),
{
    if i < a.len() - 1 {
        lemma_below_blocks(a.drop_last(), i);
    }
}

fn masks(a: &Vec<usize>, nb: usize) -> (out: Vec<u16>)
    requires
        a@.len() <= 16,
        nb == blocks(a@),
    ensures
        out@ == masks_of(a@),
{
    let mut out: Vec<u16> = Vec::with_capacity(nb);
    let mut l: usize = 0;
    while l < nb
        invariant
            l <= nb,
            out@.len() == l,
            forall|q: int| 0 <= q < l ==> #[trigger] out@[q] == 0,
        decreases nb - l,
    {
        out.push(0);
        l = l + 1;
    }
    let mut u: usize = 0;
    while u < a.len()
        invariant
            u <= a@.len(),
            a@.len() <= 16,
            nb == blocks(a@),
            out@.len() == nb,
            forall|q: int| 0 <= q < nb ==> #[trigger] out@[q] == mask_of(a@, q, u as nat),
        decreases a.len() - u,
    {
        let lab: usize = a[u];
        proof {
            lemma_below_blocks(a@, u as int);
        }
        let ghost before = out@;
        let bit: u16 = 1u16 << (u as u16);
        out[lab] = out[lab] | bit;
        assert forall|q: int| 0 <= q < nb implies #[trigger] out@[q] == mask_of(
            a@,
            q,
            (u + 1) as nat,
        ) by {
            assert(before[q] == mask_of(a@, q, u as nat));
        }
        u = u + 1;
    }
    assert(out@ =~= masks_of(a@));
    out
}

fn extend(a: &mut Vec<usize>, nb: usize, m: usize, out: &mut Vec<Vec<u16>>)
    requires
        old(a)@.len() <= m <= 16,
        nb == blocks(old(a)@),
        nb <= old(a)@.len(),
    ensures
        final(a)@ == old(a)@,
        contents(final(out)@) == contents(old(out)@) + all_masks(
            strings(m as nat, old(a)@, nb as nat),
        ),
    decreases m - old(a)@.len(),
{
    let ghost prefix = a@;
    let ghost start = contents(out@);
    if a.len() == m {
        let leaf = masks(a, nb);
        let ghost before = out@;
        out.push(leaf);
        proof {
            assert(contents(out@) =~= contents(before).push(leaf@));
            assert(all_masks(seq![prefix]) =~= seq![masks_of(prefix)]);
            assert(contents(out@) =~= start + all_masks(seq![prefix]));
        }
        return;
    }
    let mut lab: usize = 0;
    while lab <= nb
        invariant
            lab <= nb + 1,
            nb <= prefix.len(),
            prefix.len() < m <= 16,
            nb == blocks(prefix),
            a@ == prefix,
            prefix == old(a)@,
            contents(out@) == start + all_masks(
                branches(m as nat, prefix, nb as nat, lab as nat),
            ),
        decreases nb + 1 - lab,
    {
        let ghost done = branches(m as nat, prefix, nb as nat, lab as nat);
        let ghost here = contents(out@);
        proof {
            lemma_blocks_push(prefix, lab);
        }
        a.push(lab);
        let nb2: usize = if lab == nb {
            nb + 1
        } else {
            nb
        };
        extend(a, nb2, m, out);
        let ghost more = strings(m as nat, prefix.push(lab), nb2 as nat);
        a.pop();
        proof {
            assert(a@ =~= prefix);
            assert(branches(m as nat, prefix, nb as nat, (lab + 1) as nat) == done + more);
            assert(all_masks(done + more) =~= all_masks(done) + all_masks(more));
            assert((start + all_masks(done)) + all_masks(more) =~= start + (all_masks(done)
                + all_masks(more)));
        }
        lab = lab + 1;
    }
}

/// All ways to put `m` units into clusters, each as the list of the clusters' masks.
pub fn set_partitions(m: usize) -> (out: Vec<Vec<u16>>)
    requires
        m <= 16,
    ensures
        contents(out@) == all_masks(strings(m as nat, Seq::empty(), 0)),
{
    let mut out: Vec<Vec<u16>> = Vec::new();
    let mut a: Vec<usize> = Vec::new();
    extend(&mut a, 0, m, &mut out);
    proof {
        let none = Seq::<Vec<u16>>::empty();
        let all = all_masks(strings(m as nat, Seq::empty(), 0));
        assert(contents(none) =~= Seq::<Seq<u16>>::empty());
        assert(Seq::<Seq<u16>>::empty() + all =~= all);
    }
    out
}

/// `a` begins with `prefix`.
pub open spec fn begins(a: Seq<usize>, prefix: Seq<usize>) -> bool {
    prefix.len() <= a.len() && a.take(prefix.len() as int) =~= prefix
}

proof fn lemma_begins_push(a: Seq<usize>, prefix: Seq<usize>, x: usize)
    requires
        begins(a, prefix.push(x)),
    ensures
        begins(a, prefix),
        a[prefix.len() as int] == x,
{
    let n = prefix.len() as int;
    let t = a.take(n + 1);
    assert(t[n] == x);
    assert forall|i: int| 0 <= i < n implies a.take(n)[i] == prefix[i] by {
        assert(t[i] == prefix.push(x)[i]);
    }
}

/// A string is listed exactly once, and only strings are.
proof fn lemma_strings_list(m: nat, prefix: Seq<usize>, nb: nat)
    requires
        grows(prefix),
        nb == blocks(prefix),
        prefix.len() <= m,
        m <= usize::MAX,
        nb <= prefix.len(),
    ensures
        strings(m, prefix, nb).no_duplicates(),
        forall|a: Seq<usize>| #[trigger]
            strings(m, prefix, nb).contains(a) <==> a.len() == m && grows(a) && begins(a, prefix),
    decreases m - prefix.len(), nb + 2,
{
    let s = strings(m, prefix, nb);
    if prefix.len() == m {
        assert(s =~= seq![prefix]);
        assert forall|a: Seq<usize>| #[trigger] s.contains(a) <==> a.len() == m && grows(a)
            && begins(a, prefix) by {
            if begins(a, prefix) && a.len() == m {
                assert(a.take(m as int) =~= a);
                assert(s[0] == a);
            }
            if s.contains(a) {
                assert(a == prefix);
                assert(a.take(m as int) =~= a);
            }
        }
    } else {
        lemma_branches_list(m, prefix, nb, nb + 1);
        assert forall|a: Seq<usize>| #[trigger] s.contains(a) <==> a.len() == m && grows(a)
            && begins(a, prefix) by {
            let b = branches(m, prefix, nb, nb + 1);
            assert(b.contains(a) <==> a.len() == m && grows(a) && begins(a, prefix)
                && a[prefix.len() as int] < nb + 1);
            if a.len() == m && grows(a) && begins(a, prefix) {
                let n = prefix.len() as int;
                assert(a[n] <= blocks(a.take(n)));
                assert(a.take(n) == prefix);
            }
        }
    }
}

proof fn lemma_branches_list(m: nat, prefix: Seq<usize>, nb: nat, k: nat)
    requires
        grows(prefix),
        nb == blocks(prefix),
        prefix.len() < m,
        m <= usize::MAX,
        nb <= prefix.len(),
        k <= nb + 1,
    ensures
        branches(m, prefix, nb, k).no_duplicates(),
        forall|a: Seq<usize>| #[trigger]
            branches(m, prefix, nb, k).contains(a) <==> a.len() == m && grows(a) && begins(
                a,
                prefix,
            ) && a[prefix.len() as int] < k,
    decreases m - prefix.len(), k,
{
    let s = branches(m, prefix, nb, k);
    let n = prefix.len() as int;
    if k == 0 {
        assert forall|a: Seq<usize>| #[trigger] s.contains(a) <==> a.len() == m && grows(a)
            && begins(a, prefix) && a[n] < k by {}
    } else {
        let x = (k - 1) as usize;
        let longer = prefix.push(x);
        let nb2 = if k > nb {
            k
        } else {
            nb
        };
        lemma_branches_list(m, prefix, nb, (k - 1) as nat);
        lemma_blocks_push(prefix, x);
        assert(grows(longer)) by {
            assert forall|i: int| 0 <= i < longer.len() implies #[trigger] longer[i] <= blocks(
                longer.take(i),
            ) by {
                if i < n {
                    assert(longer.take(i) =~= prefix.take(i));
                    assert(prefix[i] <= blocks(prefix.take(i)));
                } else {
                    assert(longer.take(i) =~= prefix);
                }
            }
        }
        lemma_strings_list(m, longer, nb2);
        let (low, high) = (
            branches(m, prefix, nb, (k - 1) as nat),
            strings(m, longer, nb2),
        );
        assert(s == low + high);
        assert forall|a: Seq<usize>| #[trigger] s.contains(a) <==> a.len() == m && grows(a)
            && begins(a, prefix) && a[n] < k by {
            if s.contains(a) {
                let w = choose|w: int| 0 <= w < s.len() && s[w] == a;
                if w < low.len() {
                    assert(low[w] == a);
                    assert(low.contains(a));
                } else {
                    assert(high[w - low.len()] == a);
                    assert(high.contains(a));
                    lemma_begins_push(a, prefix, x);
                }
            }
            if a.len() == m && grows(a) && begins(a, prefix) && a[n] < k {
                if a[n] < k - 1 {
                    assert(low.contains(a));
                    let w = choose|w: int| 0 <= w < low.len() && low[w] == a;
                    assert(s[w] == a);
                } else {
                    assert(a.take(n + 1) =~= longer) by {
                        assert forall|i: int| 0 <= i < n + 1 implies a.take(n + 1)[i]
                            == longer[i] by {
                            if i < n {
                                assert(a.take(n)[i] == prefix[i]);
                            }
                        }
                    }
                    assert(begins(a, longer));
                    assert(high.contains(a));
                    let w = choose|w: int| 0 <= w < high.len() && high[w] == a;
                    assert(s[low.len() + w] == a);
                }
            }
        }
        assert forall|i: int, j: int| 0 <= i < s.len() && 0 <= j < s.len() && i != j implies s[i]
            != s[j] by {
            if i < low.len() && j < low.len() {
                assert(low[i] != low[j]);
            } else if i >= low.len() && j >= low.len() {
                assert(high[i - low.len()] != high[j - low.len()]);
            } else {
                let (p, q) = if i < low.len() {
                    (i, j)
                } else {
                    (j, i)
                };
                assert(low.contains(low[p]));
                assert(high.contains(high[q - low.len()]));
                lemma_begins_push(high[q - low.len()], prefix, x);
            }
        }
    }
}

/// The ways to cluster `m` units are all strings over them, each exactly once.
pub proof fn lemma_partitions_complete(m: nat)
    requires
        m <= usize::MAX,
    ensures
        strings(m, Seq::empty(), 0).no_duplicates(),
        forall|a: Seq<usize>| #[trigger]
            strings(m, Seq::empty(), 0).contains(a) <==> a.len() == m && grows(a),
{
    lemma_strings_list(m, Seq::empty(), 0);
    assert forall|a: Seq<usize>| #[trigger]
        strings(m, Seq::empty(), 0).contains(a) <==> a.len() == m && grows(a) by {
        assert(a.take(0) =~= Seq::<usize>::empty());
        assert(begins(a, Seq::empty()));
    }
}

proof fn lemma_canonical_blocks(lab: Seq<i64>, out: Seq<usize>, k: nat)
    requires
        labels::is_canonical(lab, out),
        k <= lab.len(),
        lab.len() <= usize::MAX,
    ensures
        blocks(out.take(k as int)) == counting::count(k, labels::newcomers(lab)),
    decreases k,
{
    if k > 0 {
        let m = (k - 1) as nat;
        lemma_canonical_blocks(lab, out, m);
        assert(out.take(k as int).drop_last() =~= out.take(m as int));
        let i = m as int;
        labels::lemma_first_index(lab, i);
        let f = labels::first_index(lab, i);
        assert(out[i] == labels::label_number(lab, i));
        if !labels::newcomers(lab)(i) {
            counting::lemma_count_monotone(f as nat, m, labels::newcomers(lab));
        }
    }
}

/// However units are labelled, the way of clustering that puts units with equal labels together is
/// listed, and listed once.
pub proof fn lemma_every_clustering_listed(lab: Seq<i64>, out: Seq<usize>)
    requires
        labels::is_canonical(lab, out),
        lab.len() <= usize::MAX,
    ensures
        strings(lab.len(), Seq::empty(), 0).contains(out),
        strings(lab.len(), Seq::empty(), 0).no_duplicates(),
{
    lemma_partitions_complete(lab.len());
    assert(grows(out)) by {
        assert forall|i: int| 0 <= i < out.len() implies #[trigger] out[i] <= blocks(
            out.take(i),
        ) by {
            lemma_canonical_blocks(lab, out, i as nat);
            labels::lemma_first_index(lab, i);
            counting::lemma_count_monotone(
                labels::first_index(lab, i) as nat,
                i as nat,
                labels::newcomers(lab),
            );
        }
    }
}

/// Whether unit `u` is in the cluster with mask `mask`.
pub open spec fn in_mask(mask: u16, u: nat) -> bool {
    mask & (1u16 << (u as u16)) != 0
}

proof fn lemma_mask_bits(a: Seq<usize>, l: int, k: nat, u: nat)
    requires
        k <= a.len(),
        k <= 16,
        u < 16,
    ensures
        in_mask(mask_of(a, l, k), u) <==> u < k && a[u as int] == l,
    decreases k,
{
    let v = u as u16;
    if k == 0 {
        assert(0u16 & (1u16 << v) == 0) by (bit_vector);
    } else {
        let j = (k - 1) as nat;
        lemma_mask_bits(a, l, j, u);
        let w = j as u16;
        let before = mask_of(a, l, j);
        if a[k - 1] == l {
            assert((before | (1u16 << w)) & (1u16 << v) != 0 <==> (before & (1u16 << v) != 0 || w
                == v)) by (bit_vector)
                requires
                    v < 16,
                    w < 16,
            ;
        }
    }
}

proof fn lemma_block_used(a: Seq<usize>, l: int) -> (u: int)
    requires
        grows(a),
        0 <= l < blocks(a),
    ensures
        0 <= u < a.len(),
        a[u] == l,
    decreases a.len(),
{
    let n = a.len() - 1;
    let before = a.drop_last();
    assert(a.take(n) =~= before);
    if l < blocks(before) {
        assert(grows(before)) by {
            assert forall|i: int| 0 <= i < before.len() implies #[trigger] before[i] <= blocks(
                before.take(i),
            ) by {
                assert(before.take(i) =~= a.take(i));
                assert(a[i] <= blocks(a.take(i)));
            }
        }
        lemma_block_used(before, l)
    } else {
        assert(a[n] <= blocks(a.take(n)));
        n
    }
}

/// In every way of clustering each unit is in exactly one cluster, and no cluster is empty.
pub proof fn lemma_masks_partition(a: Seq<usize>, u: nat)
    requires
        grows(a),
        a.len() <= 16,
        u < a.len(),
    ensures
        a[u as int] < blocks(a),
        forall|l: int|
            0 <= l < blocks(a) ==> (in_mask(#[trigger] masks_of(a)[l], u) <==> l == a[u as int]),
        forall|l: int| 0 <= l < blocks(a) ==> #[trigger] masks_of(a)[l] != 0,
{
    lemma_below_blocks(a, u as int);
    assert forall|l: int| 0 <= l < blocks(a) implies (in_mask(#[trigger] masks_of(a)[l], u) <==> l
        == a[u as int]) by {
        lemma_mask_bits(a, l, a.len(), u);
    }
    assert forall|l: int| 0 <= l < blocks(a) implies #[trigger] masks_of(a)[l] != 0 by {
        let w = lemma_block_used(a, l);
        lemma_mask_bits(a, l, a.len(), w as nat);
        let v = w as u16;
        assert(0u16 & (1u16 << v) == 0) by (bit_vector);
    }
}

/// The rows of unit `u`: those of the first `k` decks that belong to it, deck by deck.
pub open spec fn rows_of_unit(
    groups: Seq<grouping::Group>,
    units: Seq<usize>,
    u: int,
    k: nat,
) -> Seq<usize>
    decreases k,
{
    if k == 0 {
        Seq::empty()
    } else {
        let before = rows_of_unit(groups, units, u, (k - 1) as nat);
        if units[k - 1] == u {
            before + groups[k - 1].rows@
        } else {
            before
        }
    }
}

fn append_rows(to: &mut Vec<usize>, rows: &Vec<usize>)
    ensures
        final(to)@ == old(to)@ + rows@,
{
    let ghost start = to@;
    let mut i: usize = 0;
    while i < rows.len()
        invariant
            i <= rows@.len(),
            to@ == start + rows@.take(i as int),
        decreases rows.len() - i,
    {
        to.push(rows[i]);
        assert(rows@.take(i + 1) =~= rows@.take(i as int).push(rows@[i as int]));
        assert(to@ =~= start + rows@.take(i + 1));
        i = i + 1;
    }
    assert(rows@.take(rows@.len() as int) =~= rows@);
}

/// More decks than this are merged to as many units first.
pub const MAX_UNITS: usize = 12;

/// No more units than this are searched exhaustively.
pub const MAX_EXHAUSTIVE: usize = 6;

/// Whether decks have to be merged to units before the search.
pub fn needs_premerge(n_decks: usize) -> (r: bool)
    ensures
        r == (n_decks > MAX_UNITS),
        r == (n_decks > 12),
{
    n_decks > MAX_UNITS
}

/// Whether all ways of clustering are tried; merging step by step otherwise.
pub fn is_exhaustive(n_units: usize) -> (r: bool)
    ensures
        r == (n_units <= MAX_EXHAUSTIVE),
        r == (n_units <= 6),
{
    n_units <= MAX_EXHAUSTIVE
}

/// The rows of every unit, deck `i` of `groups` belonging to unit `units[i]`.
pub fn unit_rows(
    groups: &Vec<grouping::Group>,
    units: &[usize],
    n_units: usize,
) -> (rows: Vec<Vec<usize>>)
    requires
        groups@.len() == units@.len(),
        forall|i: int| 0 <= i < units@.len() ==> #[trigger] units@[i] < n_units,
    ensures
        rows@.len() == n_units,
        forall|u: int|
            0 <= u < n_units ==> (#[trigger] rows@[u])@ == rows_of_unit(
                groups@,
                units@,
                u,
                groups@.len(),
            ),
{
    let mut rows: Vec<Vec<usize>> = Vec::with_capacity(n_units);
    let mut u: usize = 0;
    while u < n_units
        invariant
            u <= n_units,
            rows@.len() == u,
            forall|v: int| 0 <= v < u ==> (#[trigger] rows@[v])@ == Seq::<usize>::empty(),
        decreases n_units - u,
    {
        rows.push(Vec::new());
        u = u + 1;
    }
    let mut k: usize = 0;
    while k < groups.len()
        invariant
            k <= groups@.len(),
            groups@.len() == units@.len(),
            rows@.len() == n_units,
            forall|i: int| 0 <= i < units@.len() ==> #[trigger] units@[i] < n_units,
            forall|v: int|
                0 <= v < n_units ==> (#[trigger] rows@[v])@ == rows_of_unit(
                    groups@,
                    units@,
                    v,
                    k as nat,
                ),
        decreases groups.len() - k,
    {
        let at: usize = units[k];
        let ghost before = rows@;
        append_rows(&mut rows[at], &groups[k].rows);
        proof {
            assert forall|v: int| 0 <= v < n_units implies (#[trigger] rows@[v])@ == rows_of_unit(
                groups@,
                units@,
                v,
                (k + 1) as nat,
            ) by {
                assert(before[v]@ == rows_of_unit(groups@, units@, v, k as nat));
            }
        }
        k = k + 1;
    }
    rows
}

/// The rows of the units in `mask`, among the first `k` units.
pub open spec fn rows_of_mask(units: Seq<Vec<usize>>, mask: u16, k: nat) -> Seq<usize>
    decreases k,
{
    if k == 0 {
        Seq::empty()
    } else {
        let before = rows_of_mask(units, mask, (k - 1) as nat);
        if in_mask(mask, (k - 1) as nat) {
            before + units[k - 1]@
        } else {
            before
        }
    }
}

/// The rows of the units in `mask`, unit by unit.
pub fn subset_rows(units: &Vec<Vec<usize>>, mask: u16) -> (rows: Vec<usize>)
    requires
        units@.len() <= 16,
    ensures
        rows@ == rows_of_mask(units@, mask, units@.len()),
{
    let mut rows: Vec<usize> = Vec::new();
    let mut k: usize = 0;
    while k < units.len()
        invariant
            k <= units@.len(),
            units@.len() <= 16,
            rows@ == rows_of_mask(units@, mask, k as nat),
        decreases units.len() - k,
    {
        if mask & (1u16 << (k as u16)) != 0 {
            append_rows(&mut rows, &units[k]);
        }
        k = k + 1;
    }
    rows
}

/// The mask of all of `m` units.
pub fn full_mask(m: usize) -> (mask: u16)
    requires
        m <= 16,
    ensures
        forall|u: nat| u < 16 ==> (#[trigger] in_mask(mask, u) <==> u < m),
{
    let mask: u16 = if m == 16 {
        0xffff
    } else {
        let bit: u16 = 1u16 << (m as u16);
        proof {
            let w = m as u16;
            assert(bit >= 1) by (bit_vector)
                requires
                    w < 16,
                    bit == 1u16 << w,
            ;
        }
        bit - 1
    };
    proof {
        let w = m as u16;
        assert forall|u: nat| u < 16 implies (#[trigger] in_mask(mask, u) <==> u < m) by {
            let v = u as u16;
            if m == 16 {
                assert(0xffffu16 & (1u16 << v) != 0) by (bit_vector)
                    requires
                        v < 16,
                ;
            } else {
                assert(mask & (1u16 << v) != 0 <==> v < w) by (bit_vector)
                    requires
                        v < 16,
                        w < 16,
                        mask == (1u16 << w) - 1,
                ;
            }
        }
    }
    mask
}

/// `k` is the first of the smallest values, and it lies below the ceiling.
pub open spec fn is_best(values: Seq<i64>, ceiling: i64, k: int) -> bool {
    &&& 0 <= k < values.len()
    &&& values[k] < ceiling
    &&& forall|j: int| 0 <= j < values.len() ==> values[k] <= #[trigger] values[j]
    &&& forall|j: int| 0 <= j < k ==> values[k] < #[trigger] values[j]
}

/// The first of the smallest values below the ceiling, if there is a value below it.
pub fn best_below(values: &[i64], ceiling: i64) -> (r: Option<usize>)
    ensures
        r matches Some(k) ==> is_best(values@, ceiling, k as int),
        r is None ==> forall|j: int| 0 <= j < values@.len() ==> #[trigger] values@[j] >= ceiling,
{
    let mut r: Option<usize> = None;
    let mut best: i64 = ceiling;
    let mut j: usize = 0;
    while j < values.len()
        invariant
            j <= values@.len(),
            r is None ==> best == ceiling,
            r matches Some(k) ==> k < j && best == values@[k as int] && best < ceiling && forall|i: int|
                0 <= i < k ==> best < #[trigger] values@[i],
            forall|i: int| 0 <= i < j ==> best <= #[trigger] values@[i],
        decreases values.len() - j,
    {
        if values[j] < best {
            best = values[j];
            r = Some(j);
        }
        j = j + 1;
    }
    r
}

/// The pairs `(i, j)` with `i < j < n`, in lexicographic order.
pub open spec fn are_pairs(n: nat, pairs: Seq<(usize, usize)>) -> bool {
    &&& forall|k: int| 0 <= k < pairs.len() ==> (#[trigger] pairs[k]).0 < pairs[k].1 < n
    &&& forall|k: int, l: int|
        0 <= k < l < pairs.len() ==> (#[trigger] pairs[k]).0 < (#[trigger] pairs[l]).0 || (
        pairs[k].0 == pairs[l].0 && pairs[k].1 < pairs[l].1)
    &&& forall|i: usize, j: usize| i < j < n ==> #[trigger] pairs.contains((i, j))
}

/// All pairs of clusters that could be merged.
pub fn cluster_pairs(n: usize) -> (pairs: Vec<(usize, usize)>)
    ensures
        are_pairs(n as nat, pairs@),
{
    let mut pairs: Vec<(usize, usize)> = Vec::new();
    let mut i: usize = 0;
    while i < n
        invariant
            i <= n,
            forall|k: int|
                0 <= k < pairs@.len() ==> (#[trigger] pairs@[k]).0 < pairs@[k].1 < n && pairs@[k].0
                    < i,
            forall|k: int, l: int|
                0 <= k < l < pairs@.len() ==> (#[trigger] pairs@[k]).0 < (#[trigger] pairs@[l]).0
                    || (pairs@[k].0 == pairs@[l].0 && pairs@[k].1 < pairs@[l].1),
            forall|a: usize, b: usize| a < i && a < b < n ==> #[trigger] pairs@.contains((a, b)),
        decreases n - i,
    {
        let mut j: usize = i + 1;
        while j < n
            invariant
                i < j <= n,
                forall|k: int|
                    0 <= k < pairs@.len() ==> (#[trigger] pairs@[k]).0 < pairs@[k].1 < n && (
                    pairs@[k].0 < i || (pairs@[k].0 == i && pairs@[k].1 < j)),
                forall|k: int, l: int|
                    0 <= k < l < pairs@.len() ==> (#[trigger] pairs@[k]).0 < (
                    #[trigger] pairs@[l]).0 || (pairs@[k].0 == pairs@[l].0 && pairs@[k].1
                        < pairs@[l].1),
                forall|a: usize, b: usize|
                    (a < i && a < b < n) || (a == i && i < b < j) ==> #[trigger] pairs@.contains(
                        (a, b),
                    ),
            decreases n - j,
        {
            let ghost before = pairs@;
            pairs.push((i, j));
            assert forall|a: usize, b: usize|
                (a < i && a < b < n) || (a == i && i < b < j + 1) implies #[trigger] pairs@.contains(
                (a, b),
            ) by {
                if a == i && b == j {
                    assert(pairs@[before.len() as int] == (a, b));
                } else {
                    assert(before.contains((a, b)));
                    let w = choose|w: int| 0 <= w < before.len() && before[w] == (a, b);
                    assert(pairs@[w] == (a, b));
                }
            }
            j = j + 1;
        }
        i = i + 1;
    }
    pairs
}

/// The clusters with those at `i` and `j` replaced by `mask`, which comes last.
pub open spec fn merged(clusters: Seq<u16>, i: int, j: int, mask: u16) -> Seq<u16> {
    clusters.remove(j).remove(i).push(mask)
}

/// The clusters with those at `i` and `j` merged.
pub fn merge_clusters(clusters: &Vec<u16>, i: usize, j: usize, mask: u16) -> (out: Vec<u16>)
    requires
        i < j < clusters@.len(),
    ensures
        out@ == merged(clusters@, i as int, j as int, mask),
{
    let mut out: Vec<u16> = Vec::with_capacity(clusters.len());
    let mut t: usize = 0;
    let ghost rest = clusters@.remove(j as int).remove(i as int);
    while t < clusters.len()
        invariant
            t <= clusters@.len(),
            i < j < clusters@.len(),
            rest == clusters@.remove(j as int).remove(i as int),
            out@ == rest.take(t - (if t > i {
                1int
            } else {
                0int
            }) - (if t > j {
                1int
            } else {
                0int
            })),
        decreases clusters.len() - t,
    {
        if t != i && t != j {
            let ghost k = out@.len() as int;
            assert(rest[k] == clusters@[t as int]);
            assert(rest.take(k + 1) =~= rest.take(k).push(rest[k]));
            out.push(clusters[t]);
        }
        t = t + 1;
    }
    assert(rest.take(rest.len() as int) =~= rest);
    out.push(mask);
    out
}

/// The state of the search that merges two clusters at a time.
#[derive(Debug, Clone)]
pub struct Greedy {
    /// The clusters reached.
    pub clusters: Vec<u16>,
    /// The best clusters seen on the way, and their value.
    pub best: Vec<u16>,
    pub best_value: i64,
}

/// What merging a pair of clusters, with the value that it has, makes of the search.
pub open spec fn committed(
    before: Greedy,
    after: Greedy,
    pair: (usize, usize),
    value: i64,
) -> bool {
    let (i, j) = (pair.0 as int, pair.1 as int);
    let next = merged(before.clusters@, i, j, before.clusters@[i] | before.clusters@[j]);
    &&& after.clusters@ == next
    &&& value < before.best_value ==> after.best@ == next && after.best_value == value
    &&& value >= before.best_value ==> after.best@ == before.best@ && after.best_value
        == before.best_value
}

/// What a step in which no merge has a value below the ceiling makes of the search.
pub open spec fn walked_on(before: Greedy, after: Greedy) -> bool {
    &&& after.clusters@ == merged(
        before.clusters@,
        0,
        1,
        before.clusters@[0] | before.clusters@[1],
    )
    &&& after.best@ == before.best@
    &&& after.best_value == before.best_value
}

/// Some cluster holds unit `u`.
pub open spec fn is_placed(clusters: Seq<u16>, u: nat) -> bool {
    exists|k: int| 0 <= k < clusters.len() && in_mask(#[trigger] clusters[k], u)
}

/// The clusters partition the first `m` units: none is empty, no two share a unit, and the units in
/// them are the first `m`.
pub open spec fn is_partition(clusters: Seq<u16>, m: nat) -> bool {
    &&& forall|k: int| 0 <= k < clusters.len() ==> #[trigger] clusters[k] != 0
    &&& forall|i: int, j: int|
        0 <= i < clusters.len() && 0 <= j < clusters.len() && i != j ==> #[trigger] clusters[i]
            & #[trigger] clusters[j] == 0
    &&& forall|u: nat| u < 16 ==> (#[trigger] is_placed(clusters, u) <==> u < m)
}

/// The place that the cluster at place `t` had before those at `i` and `j` were taken out.
spec fn place_before(i: int, j: int, t: int) -> int {
    if t < i {
        t
    } else if t + 1 < j {
        t + 1
    } else {
        t + 2
    }
}

/// Merging two clusters keeps every unit where it was: it is in some cluster afterwards exactly if it
/// was before.
pub proof fn lemma_merge_keeps_units(clusters: Seq<u16>, i: int, j: int, u: nat)
    requires
        0 <= i < j < clusters.len(),
        u < 16,
    ensures
        is_placed(merged(clusters, i, j, clusters[i] | clusters[j]), u) <==> is_placed(clusters, u),
{
    let mask = clusters[i] | clusters[j];
    let next = merged(clusters, i, j, mask);
    let v = u as u16;
    let (a, b) = (clusters[i], clusters[j]);
    assert((a | b) & (1u16 << v) != 0 <==> (a & (1u16 << v) != 0 || b & (1u16 << v) != 0))
        by (bit_vector);
    let n = clusters.len() - 1;
    assert(next[n - 1] == mask);
    if is_placed(clusters, u) {
        let k = choose|k: int| 0 <= k < clusters.len() && in_mask(#[trigger] clusters[k], u);
        if k == i || k == j {
            assert(in_mask(next[n - 1], u));
        } else {
            let t = k - (if k > i {
                1int
            } else {
                0int
            }) - (if k > j {
                1int
            } else {
                0int
            });
            assert(next[t] == clusters[k]);
        }
    }
    if is_placed(next, u) {
        let t = choose|t: int| 0 <= t < n && in_mask(#[trigger] next[t], u);
        if t == n - 1 {
            if in_mask(a, u) {
                assert(in_mask(clusters[i], u));
            } else {
                assert(in_mask(clusters[j], u));
            }
        } else {
            assert(next[t] == clusters[place_before(i, j, t)]);
        }
    }
}

/// Merging two clusters of a partition gives a partition of the same units.
pub proof fn lemma_merge_keeps_partition(clusters: Seq<u16>, m: nat, i: int, j: int)
    requires
        is_partition(clusters, m),
        0 <= i < j < clusters.len(),
    ensures
        is_partition(merged(clusters, i, j, clusters[i] | clusters[j]), m),
{
    let (a, b) = (clusters[i], clusters[j]);
    let next = merged(clusters, i, j, a | b);
    let n = clusters.len() - 1;
    assert(next[n - 1] == a | b);
    assert(a != 0 ==> a | b != 0) by (bit_vector);
    assert forall|t: int| 0 <= t < n - 1 implies #[trigger] next[t] == clusters[place_before(
        i,
        j,
        t,
    )] by {}
    assert forall|t: int| 0 <= t < n implies #[trigger] next[t] != 0 by {
        if t < n - 1 {
            assert(clusters[place_before(i, j, t)] != 0);
        }
    }
    assert forall|s: int, t: int| 0 <= s < n && 0 <= t < n && s != t implies #[trigger] next[s]
        & #[trigger] next[t] == 0 by {
        if s < n - 1 && t < n - 1 {
            assert(clusters[place_before(i, j, s)] & clusters[place_before(i, j, t)] == 0);
        } else {
            let k = if s < n - 1 {
                place_before(i, j, s)
            } else {
                place_before(i, j, t)
            };
            let c = clusters[k];
            assert(c & a == 0 && c & b == 0);
            assert(c & a == 0 && c & b == 0 ==> c & (a | b) == 0 && (a | b) & c == 0)
                by (bit_vector);
        }
    }
    assert forall|u: nat| u < 16 implies (#[trigger] is_placed(next, u) <==> u < m) by {
        lemma_merge_keeps_units(clusters, i, j, u);
        assert(is_placed(clusters, u) <==> u < m);
    }
}

proof fn lemma_singletons_partition(m: nat)
    requires
        m <= 16,
    ensures
        is_partition(singletons(m), m),
{
    let s = singletons(m);
    assert forall|i: int, j: int| 0 <= i < 16 && 0 <= j < 16 implies ((1u16 << (i as u16)) & (
    #[trigger] (1u16 << (j as u16)))) == (if i == j {
        #[trigger] (1u16 << (i as u16))
    } else {
        0u16
    }) && 1u16 << (i as u16) != 0 by {
        let (a, b) = (i as u16, j as u16);
        assert((1u16 << a) & (1u16 << b) == (if a == b {
            1u16 << a
        } else {
            0u16
        }) && 1u16 << a != 0) by (bit_vector)
            requires
                a < 16,
                b < 16,
        ;
    }
    assert forall|k: int| 0 <= k < s.len() implies #[trigger] s[k] != 0 by {
        assert(1u16 << (k as u16) != 0);
    }
    assert forall|u: nat| u < 16 implies (#[trigger] is_placed(s, u) <==> u < m) by {
        if u < m {
            assert(in_mask(s[u as int], u));
        }
        if is_placed(s, u) {
            let k = choose|k: int| 0 <= k < s.len() && in_mask(#[trigger] s[k], u);
            assert((1u16 << (k as u16)) & (1u16 << (u as u16)) != 0);
        }
    }
}

/// Every unit in a cluster of its own.
pub open spec fn singletons(m: nat) -> Seq<u16> {
    Seq::new(m, |u: int| 1u16 << (u as u16))
}

/// Every unit in a cluster of its own.
pub fn single_units(m: usize) -> (clusters: Vec<u16>)
    requires
        m <= 16,
    ensures
        clusters@ == singletons(m as nat),
        is_partition(clusters@, m as nat),
{
    let mut clusters: Vec<u16> = Vec::with_capacity(m);
    let mut u: usize = 0;
    while u < m
        invariant
            u <= m <= 16,
            clusters@ == singletons(u as nat),
        decreases m - u,
    {
        clusters.push(1u16 << (u as u16));
        assert(clusters@ =~= singletons((u + 1) as nat));
        u = u + 1;
    }
    proof {
        lemma_singletons_partition(m as nat);
    }
    clusters
}

impl Greedy {
    /// Both the clusters reached and the best ones seen partition the first `m` units.
    pub open spec fn partitions(self, m: nat) -> bool {
        is_partition(self.clusters@, m) && is_partition(self.best@, m)
    }

    /// The search starts from clusters of the given value.
    pub fn start(clusters: Vec<u16>, value: i64) -> (r: Self)
        ensures
            r.clusters@ == clusters@,
            r.best@ == clusters@,
            r.best_value == value,
            forall|m: nat| is_partition(clusters@, m) ==> #[trigger] r.partitions(m),
    {
        let mut best: Vec<u16> = Vec::with_capacity(clusters.len());
        let mut i: usize = 0;
        while i < clusters.len()
            invariant
                i <= clusters@.len(),
                best@ == clusters@.take(i as int),
            decreases clusters.len() - i,
        {
            best.push(clusters[i]);
            assert(clusters@.take(i + 1) =~= clusters@.take(i as int).push(clusters@[i as int]));
            i = i + 1;
        }
        assert(clusters@.take(clusters@.len() as int) =~= clusters@);
        Greedy { clusters, best, best_value: value }
    }

    /// Commits the merge with the smallest value, the first such one, `values[k]` being that of merging
    /// the pair `pairs[k]`; only values below the ceiling count. Where none does, the first two clusters
    /// are merged, and the best stay as they are. Clusters that partition the units go on doing so.
    pub fn commit(&mut self, pairs: &Vec<(usize, usize)>, values: &[i64], ceiling: i64)
        requires
            old(self).clusters@.len() >= 2,
            are_pairs(old(self).clusters@.len(), pairs@),
            values@.len() == pairs@.len(),
        ensures
            forall|k: int|
                is_best(values@, ceiling, k) ==> committed(
                    *old(self),
                    *final(self),
                    #[trigger] pairs@[k],
                    values@[k],
                ),
            (forall|k: int| 0 <= k < values@.len() ==> #[trigger] values@[k] >= ceiling)
                ==> walked_on(*old(self), *final(self)),
            final(self).clusters@.len() == old(self).clusters@.len() - 1,
            forall|m: nat| old(self).partitions(m) ==> #[trigger] final(self).partitions(m),
    {
        match best_below(values, ceiling) {
            Some(k) => {
                let (i, j): (usize, usize) = pairs[k];
                assert(pairs@[k as int].0 < pairs@[k as int].1);
                let mask: u16 = self.clusters[i] | self.clusters[j];
                proof {
                    assert forall|m: nat| old(self).partitions(m) implies #[trigger] is_partition(
                        merged(old(self).clusters@, i as int, j as int, mask),
                        m,
                    ) by {
                        lemma_merge_keeps_partition(old(self).clusters@, m, i as int, j as int);
                    }
                }
                let next = merge_clusters(&self.clusters, i, j, mask);
                let value: i64 = values[k];
                if value < self.best_value {
                    let kept = Greedy::start(next, value);
                    self.clusters = kept.clusters;
                    self.best = kept.best;
                    self.best_value = value;
                } else {
                    self.clusters = next;
                }
                proof {
                    assert forall|l: int| is_best(values@, ceiling, l) implies l == k by {
                        if l < k {
                            assert(values@[k as int] < values@[l]);
                        } else if k < l {
                            assert(values@[l] < values@[k as int]);
                        }
                    }
                }
            },
            None => {
                let mask: u16 = self.clusters[0] | self.clusters[1];
                proof {
                    assert forall|m: nat| old(self).partitions(m) implies #[trigger] is_partition(
                        merged(old(self).clusters@, 0, 1, mask),
                        m,
                    ) by {
                        lemma_merge_keeps_partition(old(self).clusters@, m, 0, 1);
                    }
                }
                self.clusters = merge_clusters(&self.clusters, 0, 1, mask);
            },
        }
    }
}

/// A step of the search: the merge of a pair with the given value, or, without one, a step in which no
/// merge has a value that counts.
pub open spec fn is_step(before: Greedy, after: Greedy, value: Option<i64>) -> bool {
    match value {
        Some(v) => exists|pair: (usize, usize)| #[trigger] committed(before, after, pair, v),
        None => walked_on(before, after),
    }
}

/// A search from its start on, with the values of its steps.
pub open spec fn is_search(states: Seq<Greedy>, values: Seq<Option<i64>>) -> bool {
    &&& states.len() == values.len() + 1
    &&& states[0].best@ == states[0].clusters@
    &&& forall|k: int|
        0 <= k < values.len() ==> #[trigger] is_step(states[k], states[k + 1], values[k])
}

/// The value of the clusters that step `k` of a search, counted from its start, came to.
pub open spec fn value_seen(states: Seq<Greedy>, values: Seq<Option<i64>>, k: int) -> Option<i64> {
    if k == 0 {
        Some(states[0].best_value)
    } else {
        values[k - 1]
    }
}

/// What a search has at any time is the best partition seen on the way: it is one of those that the
/// search came to, with its value, and none of those has a smaller value.
pub proof fn lemma_best_seen(states: Seq<Greedy>, values: Seq<Option<i64>>)
    requires
        is_search(states, values),
    ensures
        exists|k: int|
            0 <= k < states.len() && states.last().best@ == (#[trigger] states[k]).clusters@
                && value_seen(states, values, k) == Some(states.last().best_value),
        forall|k: int|
            0 <= k < states.len() ==> (#[trigger] value_seen(states, values, k) matches Some(v)
                ==> states.last().best_value <= v),
    decreases values.len(),
{
    let n = values.len() as int;
    if n == 0 {
        assert(states.last().best@ == states[0].clusters@);
        assert(value_seen(states, values, 0) == Some(states[0].best_value));
    } else {
        let (s, v) = (states.drop_last(), values.drop_last());
        assert forall|k: int| 0 <= k < v.len() implies #[trigger] is_step(s[k], s[k + 1], v[k]) by {
            assert(is_step(states[k], states[k + 1], values[k]));
        }
        lemma_best_seen(s, v);
        let before = states[n - 1];
        let after = states[n];
        assert(s.last() == before);
        assert(is_step(states[n - 1], states[n - 1 + 1], values[n - 1]));
        assert forall|k: int| 0 <= k < n implies #[trigger] value_seen(states, values, k)
            == value_seen(s, v, k) by {}
        let k0 = choose|k: int|
            0 <= k < s.len() && s.last().best@ == (#[trigger] s[k]).clusters@ && value_seen(s, v, k)
                == Some(s.last().best_value);
        assert(states[k0] == s[k0]);
        assert(value_seen(states, values, k0) == value_seen(s, v, k0));
        assert(value_seen(states, values, n) == values[n - 1]);
        assert forall|k: int| 0 <= k < states.len() implies (#[trigger] value_seen(
            states,
            values,
            k,
        ) matches Some(w) ==> after.best_value <= w) by {
            if k < n {
                assert(value_seen(states, values, k) == value_seen(s, v, k));
            }
        }
        if after.best_value != before.best_value {
            assert(after.best@ == states[n].clusters@);
        }
    }
}

/// The mask, among the first `k`, that unit `u` is in; the last one where there are several, zero where
/// there is none.
pub open spec fn mask_for(masks: Seq<u16>, u: nat, k: nat) -> u16
    decreases k,
{
    if k == 0 {
        0
    } else if in_mask(masks[k - 1], u) {
        masks[k - 1]
    } else {
        mask_for(masks, u, (k - 1) as nat)
    }
}

/// For every unit the mask that it is in.
pub fn unit_masks(masks: &[u16], n_units: usize) -> (out: Vec<u16>)
    requires
        n_units <= 16,
    ensures
        out@.len() == n_units,
        forall|u: int|
            0 <= u < n_units ==> #[trigger] out@[u] == mask_for(masks@, u as nat, masks@.len()),
{
    let mut out: Vec<u16> = Vec::with_capacity(n_units);
    let mut u: usize = 0;
    while u < n_units
        invariant
            u <= n_units <= 16,
            out@.len() == u,
            forall|v: int|
                0 <= v < u ==> #[trigger] out@[v] == mask_for(masks@, v as nat, masks@.len()),
        decreases n_units - u,
    {
        let mut slot: u16 = 0;
        let mut k: usize = 0;
        while k < masks.len()
            invariant
                k <= masks@.len(),
                u < 16,
                slot == mask_for(masks@, u as nat, k as nat),
            decreases masks.len() - k,
        {
            if masks[k] & (1u16 << (u as u16)) != 0 {
                slot = masks[k];
            }
            k = k + 1;
        }
        out.push(slot);
        u = u + 1;
    }
    out
}

/// The cluster that predicts a row of deck `d`: the mask that its unit is in; zero, for the model of
/// all rows, where the deck is not among the trained ones.
pub open spec fn mask_of_deck(
    decks: Seq<i64>,
    units: Seq<usize>,
    unit_masks: Seq<u16>,
    d: i64,
) -> i64 {
    match presets::cluster_of(decks, units, d) {
        Some(u) => unit_masks[u as int] as i64,
        None => 0,
    }
}

/// For every row the mask of the cluster that predicts it.
pub fn row_masks(
    partitions: &[i64],
    decks: &[i64],
    units: &[usize],
    unit_masks: &[u16],
) -> (keys: Vec<i64>)
    requires
        decks@.len() == units@.len(),
        forall|i: int, j: int|
            0 <= i < j < decks@.len() ==> #[trigger] decks@[i] < #[trigger] decks@[j],
        forall|i: int| 0 <= i < units@.len() ==> #[trigger] units@[i] < unit_masks@.len(),
        unit_masks@.len() <= i64::MAX,
    ensures
        keys@.len() == partitions@.len(),
        forall|i: int|
            0 <= i < partitions@.len() ==> #[trigger] keys@[i] == mask_of_deck(
                decks@,
                units@,
                unit_masks@,
                partitions@[i],
            ),
{
    let none: usize = unit_masks.len();
    let owners = presets::predictors(partitions, decks, units, none, None);
    let mut keys: Vec<i64> = Vec::with_capacity(partitions.len());
    let mut i: usize = 0;
    while i < partitions.len()
        invariant
            i <= partitions@.len(),
            none == unit_masks@.len(),
            none <= i64::MAX,
            decks@.len() == units@.len(),
            forall|k: int| 0 <= k < units@.len() ==> #[trigger] units@[k] < unit_masks@.len(),
            owners@.len() == partitions@.len(),
            forall|k: int|
                0 <= k < partitions@.len() ==> #[trigger] owners@[k] == presets::predictor(
                    decks@,
                    units@,
                    none,
                    None,
                    partitions@[k],
                ),
            keys@.len() == i,
            forall|k: int|
                0 <= k < i ==> #[trigger] keys@[k] == mask_of_deck(
                    decks@,
                    units@,
                    unit_masks@,
                    partitions@[k],
                ),
        decreases partitions.len() - i,
    {
        let owner: i64 = owners[i];
        proof {
            let d = partitions@[i as int];
            if decks@.contains(d) {
                assert(units@[decks@.index_of(d)] < none);
            }
        }
        if owner < none as i64 {
            keys.push(unit_masks[owner as usize] as i64);
        } else {
            keys.push(0);
        }
        i = i + 1;
    }
    keys
}

/// The rows of a unit are those of the decks that belong to it.
pub proof fn lemma_unit_rows(
    groups: Seq<grouping::Group>,
    units: Seq<usize>,
    u: int,
    k: nat,
    row: usize,
)
    requires
        k <= groups.len(),
        k <= units.len(),
    ensures
        rows_of_unit(groups, units, u, k).contains(row) <==> exists|d: int|
            0 <= d < k && #[trigger] units[d] == u && groups[d].rows@.contains(row),
    decreases k,
{
    if k > 0 {
        let m = (k - 1) as nat;
        lemma_unit_rows(groups, units, u, m, row);
        let (a, b) = (rows_of_unit(groups, units, u, m), groups[m as int].rows@);
        lemma_in_either(a, b, row);
        if exists|d: int|
            0 <= d < k && #[trigger] units[d] == u && groups[d].rows@.contains(row) {
            let d = choose|d: int|
                0 <= d < k && #[trigger] units[d] == u && groups[d].rows@.contains(row);
            assert(units[d] == u);
        }
        if a.contains(row) {
            let d = choose|d: int|
                0 <= d < m && #[trigger] units[d] == u && groups[d].rows@.contains(row);
            assert(units[d] == u);
        }
        assert(units[m as int] == u || units[m as int] != u);
    }
}

proof fn lemma_in_either(a: Seq<usize>, b: Seq<usize>, x: usize)
    ensures
        (a + b).contains(x) <==> a.contains(x) || b.contains(x),
{
    if a.contains(x) {
        let i = choose|i: int| 0 <= i < a.len() && a[i] == x;
        assert((a + b)[i] == x);
    }
    if b.contains(x) {
        let i = choose|i: int| 0 <= i < b.len() && b[i] == x;
        assert((a + b)[a.len() + i] == x);
    }
    if (a + b).contains(x) {
        let i = choose|i: int| 0 <= i < (a + b).len() && (a + b)[i] == x;
        if i < a.len() {
            assert(a[i] == x);
        } else {
            assert(b[i - a.len()] == x);
        }
    }
}

/// The rows of a cluster are those of the units in it, a unit being in it if its bit is set.
pub proof fn lemma_mask_rows(units: Seq<Vec<usize>>, mask: u16, k: nat, row: usize)
    requires
        k <= units.len(),
    ensures
        rows_of_mask(units, mask, k).contains(row) <==> exists|u: int|
            0 <= u < k && #[trigger] units[u]@.contains(row) && mask & (1u16 << (u as u16)) != 0,
    decreases k,
{
    if k > 0 {
        let m = (k - 1) as nat;
        lemma_mask_rows(units, mask, m, row);
        let (a, b) = (rows_of_mask(units, mask, m), units[m as int]@);
        lemma_in_either(a, b, row);
        if exists|u: int|
            0 <= u < k && #[trigger] units[u]@.contains(row) && mask & (1u16 << (u as u16)) != 0 {
            let u = choose|u: int|
                0 <= u < k && #[trigger] units[u]@.contains(row) && mask & (1u16 << (u as u16))
                    != 0;
            assert(units[u]@.contains(row));
        }
        if a.contains(row) {
            let u = choose|u: int|
                0 <= u < m && #[trigger] units[u]@.contains(row) && mask & (1u16 << (u as u16))
                    != 0;
            assert(units[u]@.contains(row));
        }
        assert(units[m as int]@.contains(row) || !units[m as int]@.contains(row));
    }
}

/// A unit gets the cluster of a partition that its bit is set in.
pub proof fn lemma_unit_mask(masks: Seq<u16>, m: nat, u: nat, k: int)
    requires
        is_partition(masks, m),
        u < 16,
        0 <= k < masks.len(),
        masks[k] & (1u16 << (u as u16)) != 0,
    ensures
        mask_for(masks, u, masks.len()) == masks[k],
{
    lemma_unit_mask_upto(masks, m, u, k, masks.len());
}

proof fn lemma_unit_mask_upto(masks: Seq<u16>, m: nat, u: nat, k: int, n: nat)
    requires
        is_partition(masks, m),
        u < 16,
        0 <= k < n <= masks.len(),
        in_mask(masks[k], u),
    ensures
        mask_for(masks, u, n) == masks[k],
    decreases n,
{
    if k < n - 1 {
        let (a, b, v) = (masks[k], masks[n - 1], u as u16);
        assert(masks[k] & masks[n - 1] == 0);
        assert(a & b == 0 && a & (1u16 << v) != 0 ==> b & (1u16 << v) == 0) by (bit_vector);
        lemma_unit_mask_upto(masks, m, u, k, (n - 1) as nat);
    }
}

/// The rows of the deck at place `k` are predicted by the cluster of its unit; those of a deck that was
/// not trained on by the model of all rows.
pub proof fn lemma_masks_predict(
    decks: Seq<i64>,
    units: Seq<usize>,
    masks: Seq<u16>,
    d: i64,
    k: int,
)
    requires
        decks.len() == units.len(),
        forall|i: int, j: int| 0 <= i < j < decks.len() ==> #[trigger] decks[i] < #[trigger] decks[j],
    ensures
        0 <= k < decks.len() && decks[k] == d ==> mask_of_deck(decks, units, masks, d)
            == masks[units[k] as int],
        (forall|i: int| 0 <= i < decks.len() ==> #[trigger] decks[i] != d) ==> mask_of_deck(
            decks,
            units,
            masks,
            d,
        ) == 0,
{
    if 0 <= k < decks.len() && decks[k] == d {
        let w = decks.index_of(d);
        assert(decks.contains(d));
        if w < k {
            assert(decks[w] < decks[k]);
        } else if k < w {
            assert(decks[k] < decks[w]);
        }
    }
}

/// A merge takes two clusters out and puts the new one last; the others keep their order.
pub proof fn lemma_merged_places(clusters: Seq<u16>, i: int, j: int, mask: u16, t: int)
    requires
        0 <= i < j < clusters.len(),
        0 <= t < clusters.len(),
    ensures
        ({
            let next = merged(clusters, i, j, mask);
            &&& next.len() == clusters.len() - 1
            &&& next[next.len() - 1] == mask
            &&& t < i ==> next[t] == clusters[t]
            &&& i < t < j ==> next[t - 1] == clusters[t]
            &&& j < t ==> next[t - 2] == clusters[t]
        }),
{
}

/// A committed merge joins the two clusters of its pair. The clusters become the best ones exactly if
/// their value is smaller than that of the best so far.
pub proof fn lemma_committed(before: Greedy, after: Greedy, pair: (usize, usize), value: i64)
    requires
        committed(before, after, pair, value),
        pair.0 < pair.1 < before.clusters@.len(),
    ensures
        after.clusters@.len() == before.clusters@.len() - 1,
        after.clusters@[after.clusters@.len() - 1] == before.clusters@[pair.0 as int]
            | before.clusters@[pair.1 as int],
        value < before.best_value ==> after.best@ == after.clusters@ && after.best_value == value,
        value >= before.best_value ==> after.best@ == before.best@ && after.best_value
            == before.best_value,
{
}

/// Each listed way of clustering is given by the masks of its blocks.
pub proof fn lemma_masks_listed(s: Seq<Seq<usize>>, k: int, l: int, u: nat)
    requires
        0 <= k < s.len(),
        grows(s[k]),
        s[k].len() <= 16,
        u < s[k].len(),
        0 <= l < all_masks(s)[k].len(),
    ensures
        all_masks(s).len() == s.len(),
        all_masks(s)[k][l] & (1u16 << (u as u16)) != 0 <==> s[k][u as int] == l,
{
    lemma_masks_partition(s[k], u);
    assert(all_masks(s)[k] == masks_of(s[k]));
}

} // verus!
