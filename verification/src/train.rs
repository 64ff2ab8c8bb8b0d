//! The order in which batches are trained on, and which of the parameters on the way are kept.

use crate::numpy_rng;
use crate::optimal;
use crate::sorting;
use crate::twister;
use vstd::prelude::*;

verus! {

/// A Mersenne Twister that shuffles with one draw per step. Its model is the seed it was made
/// with and the number of draws taken so far.
pub struct Mt19937 {
    s: [u32; 624],
    left: i32,
    next: usize,
    seed: Ghost<u32>,
    base: Ghost<nat>,
}

/// What is left of the shuffle when positions below `i` are settled: swap `i` with the position
/// that lies the next draw, reduced modulo the number of open positions, further on.
pub open spec fn shuffled_up(seed: u32, from: nat, arr: Seq<usize>, i: nat) -> Seq<usize>
    decreases arr.len() - i,
{
    if i + 1 >= arr.len() {
        arr
    } else {
        let j = i + twister::draw(seed, from) as int % (arr.len() - i);
        shuffled_up(
            seed,
            from + 1,
            arr.update(i as int, arr[j]).update(j, arr[i as int]),
            i + 1,
        )
    }
}

impl Mt19937 {
    /// The seed that the generator was made with.
    pub closed spec fn seed(self) -> u32 {
        self.seed@
    }

    /// The number of draws taken.
    pub closed spec fn drawn(self) -> nat {
        if self.next == 0 {
            0
        } else {
            (self.base@ + self.next - 624) as nat
        }
    }

    /// The state array holds a block of the stream, and `left` counts down to its end.
    pub closed spec fn wf(self) -> bool {
        &&& self.next <= 624
        &&& self.next == 0 ==> self.left == 1 && self.base@ == 0
        &&& self.next > 0 ==> self.left == 625 - self.next && self.base@ >= 624
        &&& forall|j: int|
            0 <= j < 624 ==> #[trigger] self.s[j] == twister::word(
                self.seed@,
                self.base@ + j as nat,
            )
    }

    /// A generator for a seed.
    pub fn new(seed: u32) -> (r: Self)
        ensures
            r.wf(),
            r.seed() == seed,
            r.drawn() == 0,
    {
        Mt19937 { s: twister::seeded(seed), left: 1, next: 0, seed: Ghost(seed), base: Ghost(0) }
    }

    /// The number of the first word in the state array.
    pub closed spec fn block(self) -> nat {
        self.base@
    }

    /// The words of the state array.
    pub closed spec fn words(self) -> Seq<u32> {
        self.s@
    }

    /// The position in the state array of the next word to hand out.
    pub closed spec fn position(self) -> nat {
        self.next as nat
    }

    /// Replaces the block in the state array by the one after it, and starts over at its front.
    pub fn next_state(&mut self)
        requires
            forall|j: int|
                0 <= j < 624 ==> #[trigger] old(self).words()[j] == twister::word(
                    old(self).seed(),
                    old(self).block() + j as nat,
                ),
        ensures
            final(self).seed() == old(self).seed(),
            final(self).block() == old(self).block() + 624,
            final(self).position() == 0,
            forall|j: int|
                0 <= j < 624 ==> #[trigger] final(self).words()[j] == twister::word(
                    final(self).seed(),
                    final(self).block() + j as nat,
                ),
            final(self).countdown() == 624,
    {
        let ghost seed = self.seed@;
        let ghost base = self.base@;
        assert forall|j: int| 0 <= j < 624 implies #[trigger] self.s[j] == twister::word(
            seed,
            base + j as nat,
        ) by {
            assert(self.words()[j] == twister::word(seed, base + j as nat));
        }
        twister::regenerate(&mut self.s, Ghost(seed), Ghost(base));
        self.left = 624;
        self.next = 0;
        self.base = Ghost((base + 624) as nat);
    }

    /// The number of draws until the state array is used up, plus one.
    pub closed spec fn countdown(self) -> int {
        self.left as int
    }

    /// The next 32-bit output.
    pub fn next_u32(&mut self) -> (r: u32)
        requires
            old(self).wf(),
        ensures
            final(self).wf(),
            final(self).seed() == old(self).seed(),
            final(self).drawn() == old(self).drawn() + 1,
            r == twister::draw(old(self).seed(), old(self).drawn()),
    {
        self.left = self.left - 1;
        if self.left <= 0 {
            self.next_state();
        }
        assert(self.words()[self.next as int] == self.s[self.next as int]);
        let y: u32 = self.s[self.next];
        self.next = self.next + 1;
        assert forall|j: int| 0 <= j < 624 implies #[trigger] self.s[j] == twister::word(
            self.seed@,
            self.base@ + j as nat,
        ) by {
            assert(self.words()[j] == self.s[j]);
        }
        twister::tempered(y)
    }

    /// The numbers `0..n` in shuffled order, taking one draw for each position but the last.
    pub fn randperm(&mut self, n: usize) -> (r: Vec<usize>)
        requires
            old(self).wf(),
        ensures
            final(self).wf(),
            final(self).seed() == old(self).seed(),
            final(self).drawn() == old(self).drawn() + (if n == 0 {
                0
            } else {
                n - 1
            }),
            r@ == shuffled_up(old(self).seed(), old(self).drawn(), numpy_rng::iota(n as nat), 0),
            sorting::is_permutation(r@, n as nat),
    {
        let mut r: Vec<usize> = Vec::with_capacity(n);
        let mut m: usize = 0;
        while m < n
            invariant
                m <= n,
                r@ == numpy_rng::iota(m as nat),
            decreases n - m,
        {
            r.push(m);
            m = m + 1;
        }
        let ghost seed = self.seed();
        let ghost from = self.drawn();
        let mut i: usize = 0;
        while i < n && n - i > 1
            invariant
                i <= n,
                n > 0 ==> i < n,
                r.len() == n,
                self.wf(),
                self.seed() == seed,
                self.drawn() == from + i,
                sorting::is_permutation(r@, n as nat),
                shuffled_up(seed, from, numpy_rng::iota(n as nat), 0) == shuffled_up(
                    seed,
                    self.drawn(),
                    r@,
                    i as nat,
                ),
            decreases n - i,
        {
            let z: usize = (self.next_u32() as usize) % (n - i);
            let j: usize = i + z;
            proof {
                numpy_rng::lemma_swap_permutes(r@, n as nat, i as int, j as int);
            }
            let a: usize = r[i];
            let b: usize = r[j];
            r[i] = b;
            r[j] = a;
            i = i + 1;
        }
        r
    }
}

/// The seed of the order in which batches are visited.
pub const ORDER_SEED: u32 = 2023;

/// The draws that one epoch over `n` batches takes.
pub open spec fn draws_per_epoch(n: nat) -> nat {
    if n == 0 {
        0
    } else {
        (n - 1) as nat
    }
}

/// The order in which epoch `e` visits `n` batches: the generator goes on from epoch to epoch.
pub open spec fn epoch_order(n: nat, e: int) -> Seq<usize> {
    shuffled_up(ORDER_SEED, (e * draws_per_epoch(n)) as nat, numpy_rng::iota(n), 0)
}

/// The order in which each of the epochs visits the batches.
pub fn visiting_orders(n_batches: usize, n_epoch: usize) -> (orders: Vec<Vec<usize>>)
    ensures
        orders@.len() == n_epoch,
        forall|e: int|
            0 <= e < n_epoch ==> (#[trigger] orders@[e])@ == epoch_order(n_batches as nat, e)
                && sorting::is_permutation(orders@[e]@, n_batches as nat),
{
    let mut gen: Mt19937 = Mt19937::new(ORDER_SEED);
    let mut orders: Vec<Vec<usize>> = Vec::with_capacity(n_epoch);
    let ghost per = draws_per_epoch(n_batches as nat);
    let mut e: usize = 0;
    assert(0 * per as int == 0) by (nonlinear_arith);
    while e < n_epoch
        invariant
            e <= n_epoch,
            per == draws_per_epoch(n_batches as nat),
            gen.wf(),
            gen.seed() == ORDER_SEED,
            gen.drawn() == e * per,
            orders@.len() == e,
            forall|k: int|
                0 <= k < e ==> (#[trigger] orders@[k])@ == epoch_order(n_batches as nat, k)
                    && sorting::is_permutation(orders@[k]@, n_batches as nat),
        decreases n_epoch - e,
    {
        assert((e + 1) * per == e * per + per) by (nonlinear_arith);
        let order: Vec<usize> = gen.randperm(n_batches);
        assert(order@ == epoch_order(n_batches as nat, e as int));
        orders.push(order);
        e = e + 1;
    }
    orders
}

/// Every epoch visits every batch exactly once.
pub proof fn lemma_epoch_visits_all(n: nat, orders: Seq<Vec<usize>>, e: int, b: usize)
    requires
        0 <= e < orders.len(),
        sorting::is_permutation(orders[e]@, n),
        b < n,
    ensures
        exists|k: int| 0 <= k < n && #[trigger] orders[e]@[k] == b,
        forall|j: int, k: int|
            0 <= j < n && 0 <= k < n && #[trigger] orders[e]@[j] == b && #[trigger] orders[e]@[k]
                == b ==> j == k,
{
    sorting::lemma_permutation_onto(orders[e]@, n, b as int);
    assert forall|j: int, k: int|
        0 <= j < n && 0 <= k < n && #[trigger] orders[e]@[j] == b && #[trigger] orders[e]@[k]
            == b implies j == k by {
        if j < k {
            assert(orders[e]@[j] != orders[e]@[k]);
        } else if k < j {
            assert(orders[e]@[k] != orders[e]@[j]);
        }
    }
}

/// The key of infinity.
pub const KEY_INFINITY: i64 = 0x7ff0_0000_0000_0000;

/// The key of a loss; a loss that is no number counts as infinite.
pub open spec fn loss_key(loss: Option<i64>) -> i64 {
    match loss {
        Some(k) => k,
        None => KEY_INFINITY,
    }
}

/// The key of each loss.
pub open spec fn loss_keys(losses: Seq<Option<i64>>) -> Seq<i64> {
    Seq::new(losses.len(), |k: int| loss_key(losses[k]))
}

/// Which of the parameters that were evaluated are kept: the first with the smallest loss, losses being
/// given by their keys. Where none is finite, the first ones of all.
pub fn keep_best(losses: &[Option<i64>]) -> (r: usize)
    ensures
        (exists|k: int| optimal::is_best(loss_keys(losses@), KEY_INFINITY, k))
            ==> optimal::is_best(loss_keys(losses@), KEY_INFINITY, r as int),
        !(exists|k: int| optimal::is_best(loss_keys(losses@), KEY_INFINITY, k)) ==> r == 0,
{
    let mut keys: Vec<i64> = Vec::with_capacity(losses.len());
    let mut k: usize = 0;
    while k < losses.len()
        invariant
            k <= losses@.len(),
            keys@ == loss_keys(losses@).take(k as int),
        decreases losses.len() - k,
    {
        let key: i64 = match losses[k] {
            Some(v) => v,
            None => KEY_INFINITY,
        };
        keys.push(key);
        assert(keys@ =~= loss_keys(losses@).take(k + 1));
        k = k + 1;
    }
    assert(keys@ =~= loss_keys(losses@));
    match optimal::best_below(&keys, KEY_INFINITY) {
        Some(best) => best,
        None => 0,
    }
}

/// Kept are the parameters whose loss is the smallest of all that are numbers below infinity, the first
/// of equal ones; where there are none, the first of all.
pub proof fn lemma_best_kept(losses: Seq<Option<i64>>, r: int)
    requires
        (exists|k: int| optimal::is_best(loss_keys(losses), KEY_INFINITY, k)) ==> optimal::is_best(
            loss_keys(losses),
            KEY_INFINITY,
            r,
        ),
        !(exists|k: int| optimal::is_best(loss_keys(losses), KEY_INFINITY, k)) ==> r == 0,
    ensures
        forall|k: int|
            0 <= k < losses.len() && (#[trigger] losses[k] matches Some(v) && v
                < 0x7ff0_0000_0000_0000) ==> 0 <= r < losses.len() && losses[r] is Some
                && losses[r]->0 <= losses[k]->0 && (losses[r]->0 == losses[k]->0 ==> r <= k),
        (forall|k: int|
            0 <= k < losses.len() ==> (#[trigger] losses[k] matches Some(v) ==> v
                >= 0x7ff0_0000_0000_0000)) ==> r == 0,
{
    let keys = loss_keys(losses);
    if exists|k: int| optimal::is_best(keys, KEY_INFINITY, k) {
        assert(optimal::is_best(keys, KEY_INFINITY, r));
        assert forall|k: int|
            0 <= k < losses.len() && (#[trigger] losses[k] matches Some(v) && v
                < 0x7ff0_0000_0000_0000) implies 0 <= r < losses.len() && losses[r] is Some
            && losses[r]->0 <= losses[k]->0 && (losses[r]->0 == losses[k]->0 ==> r <= k) by {
            assert(keys[r] <= keys[k]);
            if k < r {
                assert(keys[r] < keys[k]);
            }
        }
        assert(losses[r] is Some);
    } else {
        assert forall|k: int| 0 <= k < losses.len() implies (#[trigger] losses[k] matches Some(v)
            ==> v >= 0x7ff0_0000_0000_0000) by {
            if keys[k] < KEY_INFINITY {
                lemma_some_best(keys, KEY_INFINITY, k);
            }
        }
    }
}

/// A value below the ceiling is not below some best one.
proof fn lemma_some_best(keys: Seq<i64>, ceiling: i64, k: int)
    requires
        0 <= k < keys.len(),
        keys[k] < ceiling,
    ensures
        exists|b: int| optimal::is_best(keys, ceiling, b),
    decreases keys[k] - i64::MIN, k,
{
    if forall|j: int| 0 <= j < keys.len() ==> keys[k] <= #[trigger] keys[j] {
        if forall|j: int| 0 <= j < k ==> keys[k] < #[trigger] keys[j] {
            assert(optimal::is_best(keys, ceiling, k));
        } else {
            let j = choose|j: int| 0 <= j < k && keys[k] >= #[trigger] keys[j];
            lemma_some_best(keys, ceiling, j);
        }
    } else {
        let j = choose|j: int| 0 <= j < keys.len() && keys[k] > #[trigger] keys[j];
        lemma_some_best(keys, ceiling, j);
    }
}

} // verus!
