//! How rows are put together: into training batches, into groups that are processed side by side, and
//! into the runs of a card.

use crate::grouping;
use crate::numpy_rng;
use crate::sorting;
use vstd::prelude::*;

verus! {

/// Chunk `b` of `s`, chunks being `size` long but for the last.
pub open spec fn chunk(s: Seq<usize>, size: int, b: int) -> Seq<usize> {
    s.subrange(
        b * size,
        if (b + 1) * size < s.len() {
            (b + 1) * size
        } else {
            s.len() as int
        },
    )
}

/// `parts` are the chunks of `s`.
pub open spec fn are_chunks(s: Seq<usize>, size: int, parts: Seq<Vec<usize>>) -> bool {
    &&& (parts.len() - 1) * size < s.len() <= parts.len() * size
    &&& forall|b: int| 0 <= b < parts.len() ==> (#[trigger] parts[b])@ == chunk(s, size, b)
}

/// Cuts `s` into chunks of `size`; the last one may be shorter.
pub fn chunks(s: &Vec<usize>, size: usize) -> (parts: Vec<Vec<usize>>)
    requires
        size > 0,
    ensures
        are_chunks(s@, size as int, parts@),
{
    let n: usize = s.len();
    let mut parts: Vec<Vec<usize>> = Vec::new();
    let mut start: usize = 0;
    assert(0 * size as int == 0 && (0 - 1) * size as int == -(size as int)) by (nonlinear_arith);
    while start < n
        invariant
            size > 0,
            n == s@.len(),
            start <= n,
            start < n ==> start == parts@.len() * size,
            (parts@.len() - 1) * size < n,
            start == n ==> n <= parts@.len() * size,
            parts@.len() * size - size <= start,
            forall|b: int|
                0 <= b < parts@.len() ==> (#[trigger] parts@[b])@ == chunk(s@, size as int, b),
        decreases n - start,
    {
        let left: usize = n - start;
        let end: usize = if left > size {
            start + size
        } else {
            n
        };
        let mut part: Vec<usize> = Vec::new();
        let mut i: usize = start;
        while i < end
            invariant
                start <= i <= end <= n,
                n == s@.len(),
                part@ == s@.subrange(start as int, i as int),
            decreases end - i,
        {
            part.push(s[i]);
            assert(part@ =~= s@.subrange(start as int, i + 1));
            i = i + 1;
        }
        proof {
            let b = parts@.len();
            assert((b + 1) * size == b * size + size) by (nonlinear_arith);
            assert(part@ == chunk(s@, size as int, b as int));
        }
        parts.push(part);
        start = end;
    }
    parts
}

/// The batches that a model is trained in: the rows by ascending length of their sequence, those of
/// one length in order, cut into chunks.
pub open spec fn are_batches(lengths: Seq<usize>, size: int, batches: Seq<Vec<usize>>) -> bool {
    exists|order: Seq<usize>|
        #[trigger] sorting::is_stable_order(lengths, order) && are_chunks(order, size, batches)
}

/// The batches that a model is trained in. A batch holds at least one row.
pub fn make_batches(lengths: &[usize], batch_size: usize) -> (batches: Vec<Vec<usize>>)
    ensures
        are_batches(
            lengths@,
            if batch_size == 0 {
                1
            } else {
                batch_size as int
            },
            batches@,
        ),
{
    let order = sorting::stable_order(lengths);
    let size: usize = if batch_size == 0 {
        1
    } else {
        batch_size
    };
    let batches = chunks(&order, size);
    assert(sorting::is_stable_order(lengths@, order@));
    batches
}

/// The element at place `j` of chunk `b` is that at place `b * size + j` of the sequence.
pub proof fn lemma_chunk_place(s: Seq<usize>, size: int, parts: Seq<Vec<usize>>, b: int, j: int)
    requires
        size > 0,
        are_chunks(s, size, parts),
        0 <= b < parts.len(),
        0 <= j < parts[b]@.len(),
    ensures
        j < size,
        0 <= b * size + j < s.len(),
        parts[b]@[j] == s[b * size + j],
{
    assert(parts[b]@ == chunk(s, size, b));
    assert((b + 1) * size == b * size + size && b * size >= 0) by (nonlinear_arith)
        requires
            b >= 0,
            size > 0,
    ;
    assert(b * size < s.len()) by (nonlinear_arith)
        requires
            b <= parts.len() - 1,
            (parts.len() - 1) * size < s.len(),
            size > 0,
    ;
}

/// Every element of a sequence is in the chunk that its place divided by the size gives.
pub proof fn lemma_chunks_cover(s: Seq<usize>, size: int, parts: Seq<Vec<usize>>, i: int)
    requires
        size > 0,
        are_chunks(s, size, parts),
        0 <= i < s.len(),
    ensures
        0 <= i / size < parts.len(),
        0 <= i % size < parts[i / size]@.len(),
        parts[i / size]@[i % size] == s[i],
{
    let (b, j) = (i / size, i % size);
    assert(i == b * size + j && 0 <= j < size && b >= 0) by (nonlinear_arith)
        requires
            size > 0,
            i >= 0,
            b == i / size,
            j == i % size,
    ;
    assert(b < parts.len()) by (nonlinear_arith)
        requires
            b * size <= i < parts.len() * size,
            size > 0,
    ;
    assert((b + 1) * size == b * size + size) by (nonlinear_arith);
    assert(parts[b]@ == chunk(s, size, b));
}

/// Every row is in exactly one batch, at one place.
pub proof fn lemma_batches_partition(
    lengths: Seq<usize>,
    size: int,
    batches: Seq<Vec<usize>>,
    row: usize,
)
    requires
        size > 0,
        are_batches(lengths, size, batches),
        row < lengths.len(),
    ensures
        exists|b: int, j: int|
            0 <= b < batches.len() && 0 <= j < batches[b]@.len() && #[trigger] batches[b]@[j] == row,
        forall|b: int, j: int, c: int, k: int|
            0 <= b < batches.len() && 0 <= j < batches[b]@.len() && 0 <= c < batches.len() && 0 <= k
                < batches[c]@.len() && #[trigger] batches[b]@[j] == row && #[trigger] batches[c]@[k]
                == row ==> b == c && j == k,
{
    let order = choose|order: Seq<usize>| #[trigger]
        sorting::is_stable_order(lengths, order) && are_chunks(order, size, batches);
    sorting::lemma_stable_order_is_permutation(lengths, order);
    sorting::lemma_permutation_onto(order, lengths.len(), row as int);
    let i = choose|i: int| 0 <= i < lengths.len() && #[trigger] order[i] == row;
    lemma_chunks_cover(order, size, batches, i);
    assert(batches[i / size]@[i % size] == row);
    assert forall|b: int, j: int, c: int, k: int|
        0 <= b < batches.len() && 0 <= j < batches[b]@.len() && 0 <= c < batches.len() && 0 <= k
            < batches[c]@.len() && #[trigger] batches[b]@[j] == row && #[trigger] batches[c]@[k]
            == row implies b == c && j == k by {
        lemma_chunk_place(order, size, batches, b, j);
        lemma_chunk_place(order, size, batches, c, k);
        assert(order[b * size + j] == order[c * size + k]);
        assert(b * size + j == c * size + k);
        assert(b == c && j == k) by (nonlinear_arith)
            requires
                b * size + j == c * size + k,
                0 <= j < size,
                0 <= k < size,
        ;
    }
}

/// The rows of a batch follow one another by length, and no row of a batch is longer than one of a
/// later batch.
pub proof fn lemma_batches_ascend(
    lengths: Seq<usize>,
    size: int,
    batches: Seq<Vec<usize>>,
    b: int,
    j: int,
    c: int,
    k: int,
)
    requires
        size > 0,
        are_batches(lengths, size, batches),
        0 <= b <= c < batches.len(),
        0 <= j < batches[b]@.len(),
        0 <= k < batches[c]@.len(),
        b == c ==> j < k,
    ensures
        lengths[batches[b]@[j] as int] <= lengths[batches[c]@[k] as int],
{
    let order = choose|order: Seq<usize>| #[trigger]
        sorting::is_stable_order(lengths, order) && are_chunks(order, size, batches);
    lemma_chunk_place(order, size, batches, b, j);
    lemma_chunk_place(order, size, batches, c, k);
    assert(b * size + j < c * size + k) by (nonlinear_arith)
        requires
            b <= c,
            b == c ==> j < k,
            0 <= j < size,
            0 <= k < size,
    ;
    sorting::lemma_stable_order_ascends(lengths, order, b * size + j, c * size + k);
}

/// The longest sequence that is fine-tuned on.
pub const MAX_SEQ_LEN: usize = 64;

/// The seed of the order in which rows are fine-tuned on.
pub const FINETUNE_SEED: u32 = 2025;

/// The rows of `order` whose sequences are short enough, in its order.
pub open spec fn short_enough(lengths: Seq<usize>, order: Seq<usize>) -> Seq<usize>
    decreases order.len(),
{
    if order.len() == 0 {
        order
    } else {
        let before = short_enough(lengths, order.drop_last());
        if lengths[order.last() as int] <= MAX_SEQ_LEN {
            before.push(order.last())
        } else {
            before
        }
    }
}

/// The batches that a network is fine-tuned in: the rows in shuffled order, without those whose
/// sequences are too long, cut into chunks.
pub fn finetune_batches(lengths: &[usize], batch_size: usize) -> (batches: Vec<Vec<usize>>)
    requires
        batch_size > 0,
    ensures
        are_chunks(
            short_enough(
                lengths@,
                numpy_rng::shuffled_range(FINETUNE_SEED, lengths@.len()),
            ),
            batch_size as int,
            batches@,
        ),
{
    let perm = numpy_rng::MT19937::permutation(FINETUNE_SEED, lengths.len());
    let mut kept: Vec<usize> = Vec::new();
    let mut i: usize = 0;
    while i < perm.len()
        invariant
            i <= perm@.len(),
            forall|k: int| 0 <= k < perm@.len() ==> #[trigger] perm@[k] < lengths@.len(),
            kept@ == short_enough(lengths@, perm@.take(i as int)),
        decreases perm.len() - i,
    {
        let row: usize = perm[i];
        assert(perm@.take(i + 1).drop_last() =~= perm@.take(i as int));
        if lengths[row] <= MAX_SEQ_LEN {
            kept.push(row);
        }
        i = i + 1;
    }
    assert(perm@.take(perm@.len() as int) =~= perm@);
    chunks(&kept, batch_size)
}

/// Rows that are processed side by side.
pub const LANES: usize = 4;

/// The places of the rows without a history, and of those with one.
pub open spec fn without_history(positions: Seq<usize>) -> spec_fn(int) -> bool {
    |k: int| positions[k] == 0
}

/// The rows with a history.
pub open spec fn with_history(positions: Seq<usize>) -> spec_fn(int) -> bool {
    |k: int| positions[k] > 0
}

/// The values of `s` at the places of `at`.
pub open spec fn picked(s: Seq<usize>, at: Seq<usize>) -> Seq<usize> {
    Seq::new(at.len(), |k: int| s[at[k] as int])
}

/// `groups` are groups of lanes: the rows with a history by ascending length of it, those of one
/// length in order, side by side.
pub open spec fn are_lane_groups(positions: Seq<usize>, groups: Seq<Vec<usize>>) -> bool {
    let rows = grouping::rows_where(positions.len(), with_history(positions));
    exists|order: Seq<usize>|
        #[trigger] sorting::is_stable_order(picked(positions, rows), order) && are_chunks(
            picked(rows, order),
            LANES as int,
            groups,
        )
}

fn pick(s: &[usize], at: &Vec<usize>) -> (out: Vec<usize>)
    requires
        forall|k: int| 0 <= k < at@.len() ==> #[trigger] at@[k] < s@.len(),
    ensures
        out@ == picked(s@, at@),
{
    let mut out: Vec<usize> = Vec::with_capacity(at.len());
    let mut k: usize = 0;
    while k < at.len()
        invariant
            k <= at@.len(),
            forall|j: int| 0 <= j < at@.len() ==> #[trigger] at@[j] < s@.len(),
            out@ == picked(s@, at@).take(k as int),
        decreases at.len() - k,
    {
        out.push(s[at[k]]);
        assert(out@ =~= picked(s@, at@).take(k + 1));
        k = k + 1;
    }
    assert(out@ =~= picked(s@, at@));
    out
}

/// The rows without a history, which are processed one by one, and the groups of the others. A row is
/// given by the length of its history.
pub fn lane_groups(positions: &[usize]) -> (r: (Vec<usize>, Vec<Vec<usize>>))
    ensures
        r.0@ == grouping::rows_where(positions@.len(), without_history(positions@)),
        are_lane_groups(positions@, r.1@),
{
    let n: usize = positions.len();
    let mut alone: Vec<usize> = Vec::new();
    let mut rows: Vec<usize> = Vec::new();
    let mut k: usize = 0;
    while k < n
        invariant
            k <= n,
            n == positions@.len(),
            alone@ == grouping::rows_where(k as nat, without_history(positions@)),
            rows@ == grouping::rows_where(k as nat, with_history(positions@)),
        decreases n - k,
    {
        if positions[k] == 0 {
            alone.push(k);
        } else {
            rows.push(k);
        }
        k = k + 1;
    }
    proof {
        grouping::lemma_rows_where(positions@.len(), with_history(positions@));
    }
    let keys = pick(positions, &rows);
    let order = sorting::stable_order(&keys);
    let sorted = pick(&rows, &order);
    let groups = chunks(&sorted, LANES);
    assert(sorting::is_stable_order(picked(positions@, rows@), order@));
    (alone, groups)
}

/// The elements of the first `k` runs, one run after the other.
pub open spec fn joined(runs: Seq<Vec<usize>>, k: nat) -> Seq<usize>
    decreases k,
{
    if k == 0 {
        Seq::empty()
    } else {
        joined(runs, (k - 1) as nat) + runs[k - 1]@
    }
}

/// The slots of a run are all of one card.
pub open spec fn of_one_card(slots: Seq<(u32, u32)>, run: Seq<usize>) -> bool {
    &&& run.len() > 0
    &&& forall|j: int|
        0 <= j < run.len() ==> slots[#[trigger] run[j] as int].0 == slots[run[0] as int].0
}

/// `runs` are the slots, each a card and a position in it, by card and then by position, in one run
/// per card.
pub open spec fn are_card_runs(slots: Seq<(u32, u32)>, runs: Seq<Vec<usize>>) -> bool {
    &&& sorting::is_stable_order(slots, joined(runs, runs.len()))
    &&& forall|r: int| 0 <= r < runs.len() ==> of_one_card(slots, (#[trigger] runs[r])@)
    &&& forall|q: int, r: int|
        0 <= q < r < runs.len() ==> slots[(#[trigger] runs[q])@[0] as int].0 != slots[(
        #[trigger] runs[r])@[0] as int].0
}

/// A further run leaves what came before alone.
pub proof fn lemma_joined_push(runs: Seq<Vec<usize>>, run: Vec<usize>, k: nat)
    requires
        k <= runs.len(),
    ensures
        joined(runs.push(run), k) == joined(runs, k),
    decreases k,
{
    if k > 0 {
        lemma_joined_push(runs, run, (k - 1) as nat);
    }
}

/// Every element of the joined runs is in one of them.
pub proof fn lemma_joined_find(runs: Seq<Vec<usize>>, k: nat, x: int) -> (at: (int, int))
    requires
        k <= runs.len(),
        0 <= x < joined(runs, k).len(),
    ensures
        0 <= at.0 < k,
        0 <= at.1 < runs[at.0]@.len(),
        runs[at.0]@[at.1] == joined(runs, k)[x],
    decreases k,
{
    let before = joined(runs, (k - 1) as nat);
    if x < before.len() {
        lemma_joined_find(runs, (k - 1) as nat, x)
    } else {
        (k - 1, x - before.len())
    }
}

/// Gathers the slots of every card into one run, by ascending position.
pub fn card_runs(slots: &[(u32, u32)]) -> (runs: Vec<Vec<usize>>)
    ensures
        are_card_runs(slots@, runs@),
{
    let order = sorting::stable_order(slots);
    let n: usize = order.len();
    let mut runs: Vec<Vec<usize>> = Vec::new();
    let mut start: usize = 0;
    while start < n
        invariant
            start <= n,
            n == order@.len(),
            n == slots@.len(),
            sorting::is_stable_order(slots@, order@),
            sorting::is_permutation(order@, slots@.len()),
            joined(runs@, runs@.len()) == order@.take(start as int),
            forall|r: int| 0 <= r < runs@.len() ==> of_one_card(slots@, (#[trigger] runs@[r])@),
            forall|q: int, r: int|
                0 <= q < r < runs@.len() ==> slots@[(#[trigger] runs@[q])@[0] as int].0 != slots@[(
                #[trigger] runs@[r])@[0] as int].0,
            forall|r: int|
                0 <= r < runs@.len() ==> (start < n ==> slots@[(#[trigger] runs@[r])@[0] as int].0
                    < slots@[order@[start as int] as int].0),
        decreases n - start,
    {
        let card: u32 = slots[order[start]].0;
        let mut run: Vec<usize> = Vec::new();
        let mut end: usize = start;
        while end < n && slots[order[end]].0 == card
            invariant
                start <= end <= n,
                n == order@.len(),
                n == slots@.len(),
                sorting::is_permutation(order@, slots@.len()),
                card == slots@[order@[start as int] as int].0,
                run@ == order@.subrange(start as int, end as int),
                forall|j: int|
                    0 <= j < run@.len() ==> slots@[#[trigger] run@[j] as int].0 == card,
            decreases n - end,
        {
            run.push(order[end]);
            assert(run@ =~= order@.subrange(start as int, end + 1));
            end = end + 1;
        }
        let ghost before = runs@;
        proof {
            lemma_joined_push(before, run, before.len());
            assert(order@.take(end as int) =~= order@.take(start as int) + run@);
            if end < n {
                sorting::lemma_stable_order_ascends(slots@, order@, start as int, end as int);
            }
        }
        runs.push(run);
        assert forall|r: int| 0 <= r < runs@.len() implies (end < n ==> slots@[(
        #[trigger] runs@[r])@[0] as int].0 < slots@[order@[end as int] as int].0) by {
            if end < n && r < before.len() {
                assert(runs@[r] == before[r]);
            }
        }
        start = end;
    }
    assert(order@.take(n as int) =~= order@);
    runs
}

/// Which of the rows, given by their positions, has the longest history; the last of several.
pub fn deepest(positions: &[usize]) -> (r: usize)
    requires
        positions@.len() > 0,
    ensures
        r < positions@.len(),
        forall|k: int| 0 <= k <= r ==> #[trigger] positions@[k] <= positions@[r as int],
        forall|k: int| r < k < positions@.len() ==> #[trigger] positions@[k] < positions@[r as int],
{
    let mut r: usize = 0;
    let mut k: usize = 1;
    while k < positions.len()
        invariant
            r < k <= positions@.len(),
            forall|j: int| 0 <= j <= r ==> #[trigger] positions@[j] <= positions@[r as int],
            forall|j: int| r < j < k ==> #[trigger] positions@[j] < positions@[r as int],
        decreases positions.len() - k,
    {
        if positions[k] >= positions[r] {
            r = k;
        }
        k = k + 1;
    }
    r
}

/// All batches are full but the last, which has a row at least; and rows of one length keep their
/// order.
pub proof fn lemma_batches_full(
    lengths: Seq<usize>,
    size: int,
    batches: Seq<Vec<usize>>,
    b: int,
    j: int,
    c: int,
    k: int,
)
    requires
        size > 0,
        are_batches(lengths, size, batches),
        0 <= b <= c < batches.len(),
        0 <= j < batches[b]@.len(),
        0 <= k < batches[c]@.len(),
        b == c ==> j < k,
    ensures
        b < batches.len() - 1 ==> batches[b]@.len() == size,
        0 < batches[b]@.len() <= size,
        batches[b]@[j] < lengths.len(),
        lengths[batches[b]@[j] as int] == lengths[batches[c]@[k] as int] ==> batches[b]@[j]
            < batches[c]@[k],
{
    let order = choose|order: Seq<usize>| #[trigger]
        sorting::is_stable_order(lengths, order) && are_chunks(order, size, batches);
    sorting::lemma_stable_order_is_permutation(lengths, order);
    lemma_chunk_place(order, size, batches, b, j);
    lemma_chunk_place(order, size, batches, c, k);
    assert(b * size + j < c * size + k) by (nonlinear_arith)
        requires
            b <= c,
            b == c ==> j < k,
            0 <= j < size,
            0 <= k < size,
    ;
    lemma_chunk_full(order, size, batches, b);
    let (x, y) = (b * size + j, c * size + k);
    assert(sorting::comes_before(lengths, order[x] as int, order[y] as int));
}

proof fn lemma_chunk_full(s: Seq<usize>, size: int, parts: Seq<Vec<usize>>, b: int)
    requires
        size > 0,
        are_chunks(s, size, parts),
        0 <= b < parts.len(),
    ensures
        b < parts.len() - 1 ==> parts[b]@.len() == size,
        0 < parts[b]@.len() <= size,
{
    assert(parts[b]@ == chunk(s, size, b));
    assert((b + 1) * size == b * size + size && b * size >= 0) by (nonlinear_arith)
        requires
            b >= 0,
            size > 0,
    ;
    assert(b * size < s.len()) by (nonlinear_arith)
        requires
            b <= parts.len() - 1,
            (parts.len() - 1) * size < s.len(),
            size > 0,
    ;
    if b < parts.len() - 1 {
        assert((b + 1) * size <= (parts.len() - 1) * size) by (nonlinear_arith)
            requires
                b + 1 <= parts.len() - 1,
                size > 0,
        ;
    }
}

/// Fine-tuning leaves out the rows of longer sequences than sixty-four steps, and keeps the order of
/// all others.
pub proof fn lemma_short_enough(lengths: Seq<usize>, order: Seq<usize>)
    ensures
        short_enough(lengths, order) == order.filter(|r: usize| lengths[r as int] <= 64),
    decreases order.len(),
{
    reveal(Seq::filter);
    if order.len() > 0 {
        lemma_short_enough(lengths, order.drop_last());
    } else {
        assert(order.filter(|r: usize| lengths[r as int] <= 64) =~= order);
    }
}

/// Rows without a history stand alone; all others are in a group each, four to a group as far as they
/// go, by ascending length of their history.
pub proof fn lemma_lane_groups(positions: Seq<usize>, groups: Seq<Vec<usize>>, row: usize)
    requires
        positions.len() <= usize::MAX,
        are_lane_groups(positions, groups),
    ensures
        (exists|g: int, j: int|
            0 <= g < groups.len() && 0 <= j < groups[g]@.len() && #[trigger] groups[g]@[j] == row)
            <==> row < positions.len() && positions[row as int] > 0,
        forall|g: int|
            0 <= g < groups.len() ==> 0 < (#[trigger] groups[g])@.len() <= 4 && (g < groups.len() - 1
                ==> groups[g]@.len() == 4),
        forall|g: int, i: int, h: int, j: int|
            0 <= g <= h < groups.len() && 0 <= i < groups[g]@.len() && 0 <= j < groups[h]@.len() && (
            g == h ==> i < j) ==> positions[#[trigger] groups[g]@[i] as int]
                <= positions[#[trigger] groups[h]@[j] as int],
        grouping::rows_where(positions.len(), without_history(positions)).contains(row) <==> row
            < positions.len() && positions[row as int] == 0,
{
    let p = with_history(positions);
    let rows = grouping::rows_where(positions.len(), p);
    grouping::lemma_rows_where(positions.len(), p);
    grouping::lemma_rows_where(positions.len(), without_history(positions));
    assert(grouping::rows_where(positions.len(), without_history(positions)).contains(row) <==> row
        < positions.len() && without_history(positions)(row as int));
    let keys = picked(positions, rows);
    let order = choose|order: Seq<usize>| #[trigger]
        sorting::is_stable_order(keys, order) && are_chunks(
            picked(rows, order),
            LANES as int,
            groups,
        );
    let all = picked(rows, order);
    sorting::lemma_stable_order_is_permutation(keys, order);
    assert forall|g: int| 0 <= g < groups.len() implies 0 < (#[trigger] groups[g])@.len() <= 4 && (g
        < groups.len() - 1 ==> groups[g]@.len() == 4) by {
        lemma_chunk_full(all, LANES as int, groups, g);
    }
    assert(rows.contains(row) <==> row < positions.len() && p(row as int));
    if row < positions.len() && positions[row as int] > 0 {
        let x = choose|x: int| 0 <= x < rows.len() && rows[x] == row;
        sorting::lemma_permutation_onto(order, keys.len(), x);
        let i = choose|i: int| 0 <= i < keys.len() && #[trigger] order[i] == x;
        assert(all[i] == row);
        lemma_chunks_cover(all, LANES as int, groups, i);
        assert(groups[i / LANES as int]@[i % LANES as int] == row);
    }
    if exists|g: int, j: int|
        0 <= g < groups.len() && 0 <= j < groups[g]@.len() && #[trigger] groups[g]@[j] == row {
        let (g, j) = choose|g: int, j: int|
            0 <= g < groups.len() && 0 <= j < groups[g]@.len() && #[trigger] groups[g]@[j] == row;
        lemma_chunk_place(all, LANES as int, groups, g, j);
        let x = order[g * LANES + j] as int;
        assert(rows[x] == row);
        assert(rows.contains(row));
    }
    assert forall|g: int, i: int, h: int, j: int|
        0 <= g <= h < groups.len() && 0 <= i < groups[g]@.len() && 0 <= j < groups[h]@.len() && (g
            == h ==> i < j) implies positions[#[trigger] groups[g]@[i] as int]
        <= positions[#[trigger] groups[h]@[j] as int] by {
        lemma_chunk_place(all, LANES as int, groups, g, i);
        lemma_chunk_place(all, LANES as int, groups, h, j);
        let (x, y) = (g * LANES + i, h * LANES + j);
        assert(x < y) by (nonlinear_arith)
            requires
                g <= h,
                g == h ==> i < j,
                0 <= i < LANES,
                0 <= j < LANES,
                x == g * LANES + i,
                y == h * LANES + j,
        ;
        sorting::lemma_stable_order_ascends(keys, order, x, y);
        assert(keys[order[x] as int] == positions[rows[order[x] as int] as int]);
        assert(keys[order[y] as int] == positions[rows[order[y] as int] as int]);
    }
}

/// Every slot is in a run, and two slots share one exactly if they are of one card.
pub proof fn lemma_runs_share(
    slots: Seq<(u32, u32)>,
    runs: Seq<Vec<usize>>,
    slot: usize,
    other: usize,
)
    requires
        are_card_runs(slots, runs),
        slot < slots.len(),
        other < slots.len(),
    ensures
        exists|r: int| 0 <= r < runs.len() && #[trigger] runs[r]@.contains(slot),
        slots[slot as int].0 == slots[other as int].0 <==> (exists|r: int|
            0 <= r < runs.len() && #[trigger] runs[r]@.contains(slot) && runs[r]@.contains(other)),
{
    let all = joined(runs, runs.len());
    sorting::lemma_stable_order_is_permutation(slots, all);
    sorting::lemma_permutation_onto(all, slots.len(), slot as int);
    sorting::lemma_permutation_onto(all, slots.len(), other as int);
    let x = choose|x: int| 0 <= x < slots.len() && #[trigger] all[x] == slot;
    let y = choose|y: int| 0 <= y < slots.len() && #[trigger] all[y] == other;
    let (a, i) = lemma_joined_find(runs, runs.len(), x);
    let (b, j) = lemma_joined_find(runs, runs.len(), y);
    assert(runs[a]@.contains(slot));
    assert(runs[b]@.contains(other));
    assert(of_one_card(slots, runs[a]@) && of_one_card(slots, runs[b]@));
    assert(slots[runs[a]@[i] as int].0 == slots[runs[a]@[0] as int].0);
    assert(slots[runs[b]@[j] as int].0 == slots[runs[b]@[0] as int].0);
    if slots[slot as int].0 == slots[other as int].0 {
        if a < b {
            assert(slots[runs[a]@[0] as int].0 != slots[runs[b]@[0] as int].0);
        } else if b < a {
            assert(slots[runs[b]@[0] as int].0 != slots[runs[a]@[0] as int].0);
        }
        assert(runs[a]@.contains(slot) && runs[a]@.contains(other));
    }
    if exists|r: int|
        0 <= r < runs.len() && #[trigger] runs[r]@.contains(slot) && runs[r]@.contains(other) {
        let c = choose|r: int|
            0 <= r < runs.len() && #[trigger] runs[r]@.contains(slot) && runs[r]@.contains(other);
        let u = choose|u: int| 0 <= u < runs[c]@.len() && runs[c]@[u] == slot;
        let v = choose|v: int| 0 <= v < runs[c]@.len() && runs[c]@[v] == other;
        assert(of_one_card(slots, runs[c]@));
        assert(slots[runs[c]@[u] as int].0 == slots[runs[c]@[v] as int].0);
    }
}

proof fn lemma_joined_place(runs: Seq<Vec<usize>>, k: nat, r: int, i: int) -> (x: int)
    requires
        0 <= r < k <= runs.len(),
        0 <= i < runs[r]@.len(),
    ensures
        x == joined(runs, r as nat).len() + i,
        0 <= x < joined(runs, k).len(),
        joined(runs, k)[x] == runs[r]@[i],
    decreases k,
{
    let before = joined(runs, (k - 1) as nat);
    if r == k - 1 {
        before.len() + i
    } else {
        lemma_joined_place(runs, (k - 1) as nat, r, i)
    }
}

/// The slots of a run come by ascending position, and runs by ascending card.
pub proof fn lemma_runs_ascend(
    slots: Seq<(u32, u32)>,
    runs: Seq<Vec<usize>>,
    r: int,
    i: int,
    j: int,
)
    requires
        are_card_runs(slots, runs),
        0 <= r < runs.len(),
        0 <= i < j < runs[r]@.len(),
    ensures
        runs[r]@[i] < slots.len(),
        runs[r]@[j] < slots.len(),
        runs[r]@[i] != runs[r]@[j],
        slots[runs[r]@[i] as int].1 <= slots[runs[r]@[j] as int].1,
{
    let all = joined(runs, runs.len());
    let x = lemma_joined_place(runs, runs.len(), r, i);
    let y = lemma_joined_place(runs, runs.len(), r, j);
    sorting::lemma_stable_order_is_permutation(slots, all);
    sorting::lemma_stable_order_ascends(slots, all, x, y);
    assert(of_one_card(slots, runs[r]@));
    assert(slots[runs[r]@[i] as int].0 == slots[runs[r]@[j] as int].0);
}

} // verus!
