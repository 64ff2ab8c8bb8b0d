//! A Mersenne Twister whose shuffle draws each swap partner by masked rejection.

use crate::recurrence;
use crate::sorting;
use crate::twister;
use vstd::prelude::*;

verus! {

/// The generator. Its model is the seed it was made with and the number of draws taken so far.
pub struct MT19937 {
    mt: [u32; 624],
    mti: usize,
    seed: Ghost<u32>,
    base: Ghost<nat>,
}

/// The smallest mask of the form `2^b - 1` that covers `max`.
pub open spec fn covering_mask(max: u32) -> u32 {
    let m1 = max | (max >> 1);
    let m2 = m1 | (m1 >> 2);
    let m3 = m2 | (m2 >> 4);
    let m4 = m3 | (m3 >> 8);
    m4 | (m4 >> 16)
}

/// Draw `k` survives the rejection for the bound `max`.
pub open spec fn accepted(seed: u32, k: nat, max: u32) -> bool {
    twister::draw(seed, k) & covering_mask(max) <= max
}

/// `k` is the first draw from number `from` on that survives.
pub open spec fn is_first_accepted(seed: u32, from: nat, max: u32, k: nat) -> bool {
    &&& from <= k
    &&& accepted(seed, k, max)
    &&& forall|j: nat| from <= j < k ==> !#[trigger] accepted(seed, j, max)
}

/// The first draw from number `from` on that survives; see `lemma_first_accepted`.
pub open spec fn first_accepted(seed: u32, from: nat, max: u32) -> nat {
    choose|k: nat| is_first_accepted(seed, from, max, k)
}

/// The number in `0..=max` that a generator yields after `from` draws, and the number of draws
/// taken by then.
pub open spec fn interval_draw(seed: u32, from: nat, max: u32) -> (u32, nat) {
    if max == 0 {
        (0, from)
    } else {
        let k = first_accepted(seed, from, max);
        (twister::draw(seed, k) & covering_mask(max), k + 1)
    }
}

/// What is left of the shuffle when positions above `i` are settled: swap `i` with a position
/// drawn from `0..=i`, then go on below.
pub open spec fn shuffled(seed: u32, from: nat, arr: Seq<usize>, i: nat) -> Seq<usize>
    decreases i,
{
    if i == 0 {
        arr
    } else {
        let (j, after) = interval_draw(seed, from, i as u32);
        shuffled(
            seed,
            after,
            arr.update(i as int, arr[j as int]).update(j as int, arr[i as int]),
            (i - 1) as nat,
        )
    }
}

/// `0, 1, .., n - 1`.
pub open spec fn iota(n: nat) -> Seq<usize> {
    Seq::new(n, |i: int| i as usize)
}

proof fn lemma_covering_mask(max: u32)
    requires
        max > 0,
    ensures
        max <= covering_mask(max),
        ({
            let h = covering_mask(max) ^ (covering_mask(max) >> 1);
            &&& h & recurrence::sub_one(h) == 0
            &&& forall|v: u32| (#[trigger] (v & covering_mask(max))) > max ==> v & h != 0
        }),
{
    let m = covering_mask(max);
    let h = m ^ (m >> 1);
    assert(max <= covering_mask(max)) by (bit_vector);
    assert((covering_mask(max) ^ (covering_mask(max) >> 1)) & recurrence::sub_one(
        covering_mask(max) ^ (covering_mask(max) >> 1),
    ) == 0) by (bit_vector);
    assert forall|v: u32| (#[trigger] (v & covering_mask(max))) > max implies v & h != 0 by {
        assert((v & covering_mask(max)) > max ==> v & (covering_mask(max) ^ (covering_mask(max)
            >> 1)) != 0) by (bit_vector);
    }
}

/// Rejection ends: from any draw on, some draw survives, so there is exactly one first.
pub proof fn lemma_first_accepted(seed: u32, from: nat, max: u32)
    requires
        max > 0,
    ensures
        is_first_accepted(seed, from, max, first_accepted(seed, from, max)),
        forall|k: nat|
            #[trigger] is_first_accepted(seed, from, max, k) ==> k == first_accepted(
                seed,
                from,
                max,
            ),
{
    lemma_covering_mask(max);
    let h = covering_mask(max) ^ (covering_mask(max) >> 1);
    recurrence::lemma_bit_clears(seed, from, h);
    let k = choose|k: nat| k >= from && (#[trigger] twister::draw(seed, k)) & h == 0;
    assert(accepted(seed, k, max)) by {
        let v = twister::draw(seed, k);
        assert(v & covering_mask(max) <= max);
    }
    lemma_least(seed, from, max, k);
    assert forall|a: nat, b: nat|
        is_first_accepted(seed, from, max, a) && is_first_accepted(seed, from, max, b) implies a
        == b by {
        if a < b {
            assert(!accepted(seed, a, max));
        } else if b < a {
            assert(!accepted(seed, b, max));
        }
    }
}

proof fn lemma_least(seed: u32, from: nat, max: u32, k: nat)
    requires
        from <= k,
        accepted(seed, k, max),
    ensures
        exists|j: nat| #[trigger] is_first_accepted(seed, from, max, j),
    decreases k,
{
    if exists|j: nat| from <= j < k && #[trigger] accepted(seed, j, max) {
        let j = choose|j: nat| from <= j < k && #[trigger] accepted(seed, j, max);
        lemma_least(seed, from, max, j);
    } else {
        assert(is_first_accepted(seed, from, max, k));
    }
}

/// A number drawn for the bound `max` lies in `0..=max`.
pub proof fn lemma_interval_draw_in_range(seed: u32, from: nat, max: u32)
    ensures
        interval_draw(seed, from, max).0 <= max,
{
    if max > 0 {
        lemma_first_accepted(seed, from, max);
    }
}

/// Swapping two entries of a permutation leaves a permutation.
pub proof fn lemma_swap_permutes(arr: Seq<usize>, n: nat, i: int, j: int)
    requires
        sorting::is_permutation(arr, n),
        0 <= i < n,
        0 <= j < n,
    ensures
        sorting::is_permutation(arr.update(i, arr[j]).update(j, arr[i]), n),
{
    let s = arr.update(i, arr[j]).update(j, arr[i]);
    assert forall|a: int| 0 <= a < n implies #[trigger] s[a] < n by {
        assert(arr[a] < n && arr[i] < n && arr[j] < n);
    }
    assert forall|a: int, b: int| 0 <= a < b < n implies #[trigger] s[a] != #[trigger] s[b] by {
        assert(arr[a] != arr[b]);
        if a != i {
            assert(arr[a] != arr[i]);
        }
        if a != j {
            assert(arr[a] != arr[j]);
        }
        if b != i {
            assert(arr[b] != arr[i]);
        }
        if b != j {
            assert(arr[b] != arr[j]);
        }
    }
}

proof fn lemma_narrowed(i: usize)
    ensures
        i as u32 <= i,
{
    assert(i as u32 <= i) by (bit_vector);
}

/// The shuffle rearranges: what goes in as a permutation of `0..n` comes out as one.
pub proof fn lemma_shuffled_permutes(seed: u32, from: nat, arr: Seq<usize>, i: nat)
    requires
        sorting::is_permutation(arr, arr.len()),
        i < arr.len(),
        i <= usize::MAX,
    ensures
        sorting::is_permutation(shuffled(seed, from, arr, i), arr.len()),
    decreases i,
{
    if i > 0 {
        let (j, after) = interval_draw(seed, from, i as u32);
        lemma_interval_draw_in_range(seed, from, i as u32);
        let i_exec = i as usize;
        lemma_narrowed(i_exec);
        assert(i as u32 == i_exec as u32);
        lemma_swap_permutes(arr, arr.len(), i as int, j as int);
        lemma_shuffled_permutes(
            seed,
            after,
            arr.update(i as int, arr[j as int]).update(j as int, arr[i as int]),
            (i - 1) as nat,
        );
    }
}

/// The numbers `0..n` in the shuffled order of a seed.
pub open spec fn shuffled_range(seed: u32, n: nat) -> Seq<usize> {
    if n == 0 {
        Seq::empty()
    } else {
        shuffled(seed, 0, iota(n), (n - 1) as nat)
    }
}

impl MT19937 {
    /// The seed that the generator was made with.
    pub closed spec fn seed(self) -> u32 {
        self.seed@
    }

    /// The number of draws taken.
    pub closed spec fn drawn(self) -> nat {
        (self.base@ + self.mti - 624) as nat
    }

    /// The state array holds the block of the stream that the next draw comes from.
    pub closed spec fn wf(self) -> bool {
        &&& self.mti <= 624
        &&& self.base@ + self.mti >= 624
        &&& forall|j: int|
            0 <= j < 624 ==> #[trigger] self.mt[j] == twister::word(
                self.seed@,
                self.base@ + j as nat,
            )
    }

    /// Expands a scalar seed.
    pub fn init_genrand(s: u32) -> (r: Self)
        ensures
            r.wf(),
            r.seed() == s,
            r.drawn() == 0,
    {
        MT19937 { mt: twister::seeded(s), mti: 624, seed: Ghost(s), base: Ghost(0) }
    }

    /// A generator for an integer seed.
    pub fn new_from_seed(seed: u32) -> (r: Self)
        ensures
            r.wf(),
            r.seed() == seed,
            r.drawn() == 0,
    {
        Self::init_genrand(seed)
    }

    /// The next 32-bit output.
    pub fn next_u32(&mut self) -> (r: u32)
        requires
            old(self).wf(),
        ensures
            final(self).wf(),
            final(self).seed() == old(self).seed(),
            final(self).drawn() == old(self).drawn() + 1,
            r == twister::draw(old(self).seed(), old(self).drawn()),
    {
        if self.mti >= 624 {
            let ghost seed = self.seed@;
            let ghost base = self.base@;
            twister::regenerate(&mut self.mt, Ghost(seed), Ghost(base));
            self.mti = 0;
            self.base = Ghost((base + 624) as nat);
        }
        let y: u32 = self.mt[self.mti];
        self.mti = self.mti + 1;
        twister::tempered(y)
    }

    /// A number in `0..=max`: outputs are cut to the bits of the covering mask, and those above
    /// `max` are passed over.
    pub fn random_interval(&mut self, max: u32) -> (r: u32)
        requires
            old(self).wf(),
        ensures
            final(self).wf(),
            final(self).seed() == old(self).seed(),
            (r, final(self).drawn()) == interval_draw(old(self).seed(), old(self).drawn(), max),
            r <= max,
    {
        if max == 0 {
            return 0;
        }
        let mut mask: u32 = max;
        mask = mask | (mask >> 1);
        mask = mask | (mask >> 2);
        mask = mask | (mask >> 4);
        mask = mask | (mask >> 8);
        mask = mask | (mask >> 16);
        let ghost seed = self.seed();
        let ghost from = self.drawn();
        let ghost k = first_accepted(seed, from, max);
        proof {
            lemma_first_accepted(seed, from, max);
        }
        loop
            invariant
                self.wf(),
                self.seed() == seed,
                from <= self.drawn() <= k,
                is_first_accepted(seed, from, max, k),
                k == first_accepted(seed, from, max),
                mask == covering_mask(max),
                max > 0,
                seed == old(self).seed(),
                from == old(self).drawn(),
            decreases k - self.drawn(),
        {
            let ghost at = self.drawn();
            let value: u32 = self.next_u32() & mask;
            if value <= max {
                assert(accepted(seed, at, max));
                return value;
            }
            assert(!accepted(seed, at, max));
        }
    }

    /// The numbers `0..n` in shuffled order: positions from the last down to the second are each
    /// swapped with a position drawn from those not above it.
    pub fn permutation(seed: u32, n: usize) -> (arr: Vec<usize>)
        ensures
            arr@ == shuffled_range(seed, n as nat),
            sorting::is_permutation(arr@, n as nat),
    {
        let mut arr: Vec<usize> = Vec::with_capacity(n);
        let mut m: usize = 0;
        while m < n
            invariant
                m <= n,
                arr@ == iota(m as nat),
            decreases n - m,
        {
            arr.push(m);
            m = m + 1;
        }
        if n == 0 {
            return arr;
        }
        let mut rng = Self::new_from_seed(seed);
        let mut i: usize = n - 1;
        while i >= 1
            invariant
                i < n,
                arr.len() == n,
                sorting::is_permutation(arr@, n as nat),
                rng.wf(),
                rng.seed() == seed,
                shuffled(seed, 0, iota(n as nat), (n - 1) as nat) == shuffled(
                    seed,
                    rng.drawn(),
                    arr@,
                    i as nat,
                ),
            decreases i,
        {
            proof {
                lemma_narrowed(i);
            }
            let j: usize = rng.random_interval(i as u32) as usize;
            proof {
                lemma_swap_permutes(arr@, n as nat, i as int, j as int);
            }
            let a: usize = arr[i];
            let b: usize = arr[j];
            arr[i] = b;
            arr[j] = a;
            i = i - 1;
        }
        arr
    }
}

} // verus!
