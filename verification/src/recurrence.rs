//! No bit of the Mersenne Twister's output stays set for ever.
//!
//! Bit `j` of word `i` is a sequence in `i`. The recurrence links the 32 bit sequences, so that
//! all of them, and every exclusive-or of some of them, satisfy one linear recurrence with an odd
//! number of terms. The sequence that is constantly one does not satisfy it.

use crate::twister;
use vstd::prelude::*;

verus! {

/// Bit `j` of the word.
pub open spec fn bit(w: u32, j: nat) -> bool {
    (w >> (j as u32)) & 1 == 1
}

type Bits = spec_fn(nat) -> bool;

/// `e(j, s)` is the polynomial that carries the sequence of bit 0 to that of bit `j`, applied
/// to `s`: `e(0, s) = s`, and each step adds up the values 624 and 397 places on, and, where bit
/// `j - 1` of the matrix is set, the value of `s` that lies `j` places on.
spec fn e(j: nat, s: Bits, i: nat) -> bool
    decreases j,
{
    if j == 0 {
        s(i)
    } else {
        let k = (j - 1) as nat;
        (e(k, s, i + 624) != e(k, s, i + 397)) != (bit(twister::MATRIX_A, k) && s(i + j))
    }
}

/// `s` satisfies the common recurrence.
spec fn obeys(s: Bits) -> bool {
    forall|i: nat| s(i + 31) == (e(31, s, i + 624) != #[trigger] e(31, s, i + 397))
}

spec fn shift(s: Bits, m: nat) -> Bits {
    |i: nat| s(i + m)
}

spec fn sum(s: Bits, t: Bits) -> Bits {
    |i: nat| s(i) != t(i)
}

spec fn zero() -> Bits {
    |i: nat| false
}

proof fn lemma_e_shift(j: nat, s: Bits, m: nat, i: nat)
    ensures
        e(j, shift(s, m), i) == e(j, s, i + m),
    decreases j,
{
    if j > 0 {
        let k = (j - 1) as nat;
        lemma_e_shift(k, s, m, i + 624);
        lemma_e_shift(k, s, m, i + 397);
        assert(i + 624 + m == i + m + 624);
        assert(i + 397 + m == i + m + 397);
        assert(i + j + m == i + m + j);
    }
}

proof fn lemma_e_sum(j: nat, s: Bits, t: Bits, i: nat)
    ensures
        e(j, sum(s, t), i) == (e(j, s, i) != e(j, t, i)),
    decreases j,
{
    if j > 0 {
        let k = (j - 1) as nat;
        lemma_e_sum(k, s, t, i + 624);
        lemma_e_sum(k, s, t, i + 397);
    }
}

proof fn lemma_e_constant(j: nat, s: Bits, i: nat, i2: nat)
    requires
        forall|a: nat, b: nat| #[trigger] s(a) == #[trigger] s(b),
    ensures
        e(j, s, i) == e(j, s, i2),
    decreases j,
{
    if j > 0 {
        let k = (j - 1) as nat;
        lemma_e_constant(k, s, i + 624, i2 + 624);
        lemma_e_constant(k, s, i + 397, i2 + 397);
        assert(s(i + j) == s(i2 + j));
    } else {
        assert(s(i) == s(i2));
    }
}

proof fn lemma_obeys_shift(s: Bits, m: nat)
    requires
        obeys(s),
    ensures
        obeys(shift(s, m)),
{
    assert forall|i: nat|
        shift(s, m)(i + 31) == (e(31, shift(s, m), i + 624) != #[trigger] e(
            31,
            shift(s, m),
            i + 397,
        )) by {
        lemma_e_shift(31, s, m, i + 624);
        lemma_e_shift(31, s, m, i + 397);
        let k = i + m;
        assert(s(k + 31) == (e(31, s, k + 624) != e(31, s, k + 397)));
        assert(i + 31 + m == k + 31);
        assert(i + 624 + m == k + 624);
        assert(i + 397 + m == k + 397);
    }
}

proof fn lemma_obeys_sum(s: Bits, t: Bits)
    requires
        obeys(s),
        obeys(t),
    ensures
        obeys(sum(s, t)),
{
    assert forall|i: nat|
        sum(s, t)(i + 31) == (e(31, sum(s, t), i + 624) != #[trigger] e(
            31,
            sum(s, t),
            i + 397,
        )) by {
        lemma_e_sum(31, s, t, i + 624);
        lemma_e_sum(31, s, t, i + 397);
        assert(s(i + 31) == (e(31, s, i + 624) != e(31, s, i + 397)));
        assert(t(i + 31) == (e(31, t, i + 624) != e(31, t, i + 397)));
    }
}

proof fn lemma_obeys_zero()
    ensures
        obeys(zero()),
{
    assert forall|i: nat|
        zero()(i + 31) == (e(31, zero(), i + 624) != #[trigger] e(31, zero(), i + 397)) by {
        lemma_e_constant(31, zero(), i + 624, i + 397);
    }
}

/// A sequence that obeys the recurrence is not constantly true.
proof fn lemma_not_all_set(s: Bits)
    requires
        obeys(s),
    ensures
        exists|i: nat| !#[trigger] s(i),
{
    if forall|i: nat| #[trigger] s(i) {
        lemma_e_constant(31, s, 624, 397);
        let i = 0nat;
        assert(s(i + 31) == (e(31, s, i + 624) != e(31, s, i + 397)));
    }
}

/// Bit `j` of the words from number `from` on.
spec fn bits_of(seed: u32, from: nat, j: nat) -> Bits {
    |i: nat| bit(twister::word(seed, from + i), j)
}

proof fn lemma_twist_bits(a: u32, b: u32, c: u32)
    ensures
        forall|j: nat|
            j < 30 ==> #[trigger] bit(twister::twist(a, b, c), j) == ((bit(c, j) != bit(b, j + 1)) != (bit(
                twister::MATRIX_A,
                j,
            ) && bit(b, 0))),
        bit(twister::twist(a, b, c), 30) == ((bit(c, 30) != bit(a, 31)) != (bit(twister::MATRIX_A, 30) && bit(b, 0))),
        bit(twister::twist(a, b, c), 31) == (bit(c, 31) != bit(b, 0)),
{
    let w = twister::twist(a, b, c);
    assert forall|j: nat| j < 30 implies #[trigger] bit(w, j) == ((bit(c, j) != bit(b, j + 1)) != (
    bit(twister::MATRIX_A, j) && bit(b, 0))) by {
        let k: u32 = j as u32;
        let k1: u32 = (j + 1) as u32;
        assert(((w >> k) & 1 == 1) == ((((c >> k) & 1 == 1) != ((b >> k1) & 1 == 1)) != (((
        0x9908_b0dfu32 >> k) & 1 == 1) && ((b >> 0) & 1 == 1)))) by (bit_vector)
            requires
                w == c ^ (((a & 0x8000_0000u32) | (b & 0x7fff_ffffu32)) >> 1) ^ (if ((a
                    & 0x8000_0000u32) | (b & 0x7fff_ffffu32)) & 1 != 0 {
                    0x9908_b0dfu32
                } else {
                    0
                }),
                k < 30,
                k1 == k + 1,
        ;
    }
    assert(((w >> 30u32) & 1 == 1) == ((((c >> 30u32) & 1 == 1) != ((a >> 31u32) & 1 == 1)) != (((
    0x9908_b0dfu32 >> 30u32) & 1 == 1) && ((b >> 0u32) & 1 == 1)))) by (bit_vector)
        requires
            w == c ^ (((a & 0x8000_0000u32) | (b & 0x7fff_ffffu32)) >> 1) ^ (if ((a
                & 0x8000_0000u32) | (b & 0x7fff_ffffu32)) & 1 != 0 {
                0x9908_b0dfu32
            } else {
                0
            }),
    ;
    assert(((w >> 31u32) & 1 == 1) == (((c >> 31u32) & 1 == 1) != ((b >> 0u32) & 1 == 1)))
        by (bit_vector)
        requires
            w == c ^ (((a & 0x8000_0000u32) | (b & 0x7fff_ffffu32)) >> 1) ^ (if ((a
                & 0x8000_0000u32) | (b & 0x7fff_ffffu32)) & 1 != 0 {
                0x9908_b0dfu32
            } else {
                0
            }),
    ;
}

proof fn lemma_word_step(seed: u32, i: nat)
    ensures
        twister::word(seed, i + 624) == twister::twist(twister::word(seed, i), twister::word(seed, i + 1), twister::word(seed, i + 397)),
{
    assert((i + 624 - 623) as nat == i + 1);
    assert((i + 624 - 227) as nat == i + 397);
}

/// How far bit `j` lags behind bit 0.
spec fn lag(j: nat) -> nat {
    if j <= 30 {
        j
    } else {
        30
    }
}

/// Bit `j`, `lag(j)` places on, is the polynomial applied to bit 0.
proof fn lemma_bits_from_zero(seed: u32, from: nat, j: nat, i: nat)
    requires
        j <= 31,
    ensures
        bit(twister::word(seed, from + i + lag(j)), j) == e(j, bits_of(seed, from, 0), i),
    decreases j,
{
    let b0 = bits_of(seed, from, 0);
    if j > 0 {
        let k = (j - 1) as nat;
        lemma_bits_from_zero(seed, from, k, i + 624);
        lemma_bits_from_zero(seed, from, k, i + 397);
        let at = from + i + k;
        let (a, b, c) = (twister::word(seed, at), twister::word(seed, at + 1), twister::word(seed, at + 397));
        lemma_word_step(seed, at);
        lemma_twist_bits(a, b, c);
        assert(from + (i + 624) + k == at + 624);
        assert(from + (i + 397) + k == at + 397);
        assert(from + (i + j) == at + 1);
        assert(b0(i + j) == bit(b, 0));
        assert(bit(twister::twist(a, b, c), k) == e(k, b0, i + 624));
        assert(bit(c, k) == e(k, b0, i + 397));
        if k < 30 {
            assert(from + i + lag(j) == at + 1);
            assert(bit(twister::twist(a, b, c), k) == ((bit(c, k) != bit(b, k + 1)) != (bit(twister::MATRIX_A, k)
                && bit(b, 0))));
        } else {
            assert(from + i + lag(j) == at);
        }
    } else {
        assert(from + i + lag(j) == from + i);
    }
}

proof fn lemma_zero_bit_obeys(seed: u32, from: nat)
    ensures
        obeys(bits_of(seed, from, 0)),
{
    let b0 = bits_of(seed, from, 0);
    assert forall|i: nat|
        b0(i + 31) == (e(31, b0, i + 624) != #[trigger] e(31, b0, i + 397)) by {
        lemma_bits_from_zero(seed, from, 31, i + 624);
        lemma_bits_from_zero(seed, from, 31, i + 397);
        let at = from + i + 30;
        let (a, b, c) = (twister::word(seed, at), twister::word(seed, at + 1), twister::word(seed, at + 397));
        lemma_word_step(seed, at);
        lemma_twist_bits(a, b, c);
        assert(from + (i + 624) + 30 == at + 624);
        assert(from + (i + 397) + 30 == at + 397);
        assert(from + (i + 31) == at + 1);
    }
}

/// The polynomial for bit `j`, applied to a sequence that obeys, gives one that obeys.
proof fn lemma_e_obeys(j: nat, s: Bits)
    requires
        obeys(s),
    ensures
        obeys(|i: nat| e(j, s, i)),
    decreases j,
{
    let es = |i: nat| e(j, s, i);
    if j == 0 {
        assert(es =~= s);
    } else {
        let k = (j - 1) as nat;
        let ek = |i: nat| e(k, s, i);
        lemma_e_obeys(k, s);
        lemma_obeys_shift(ek, 624);
        lemma_obeys_shift(ek, 397);
        let r = sum(shift(ek, 624), shift(ek, 397));
        lemma_obeys_sum(shift(ek, 624), shift(ek, 397));
        let t = if bit(twister::MATRIX_A, k) {
            shift(s, j)
        } else {
            zero()
        };
        lemma_obeys_shift(s, j);
        lemma_obeys_zero();
        lemma_obeys_sum(r, t);
        assert(es =~= sum(r, t));
    }
}

proof fn lemma_bit_obeys(seed: u32, from: nat, j: nat)
    requires
        j <= 31,
    ensures
        obeys(shift(bits_of(seed, from, j), 31)),
{
    let b0 = bits_of(seed, from, 0);
    lemma_zero_bit_obeys(seed, from);
    lemma_e_obeys(j, b0);
    let ej = |i: nat| e(j, b0, i);
    let m = (31 - lag(j)) as nat;
    lemma_obeys_shift(ej, m);
    let left = shift(bits_of(seed, from, j), 31);
    let right = shift(ej, m);
    assert forall|i: nat| #[trigger] left(i) == right(i) by {
        lemma_bits_from_zero(seed, from, j, i + m);
        assert(from + (i + m) + lag(j) == from + (i + 31));
    }
    assert(left =~= right);
}

/// Exclusive-or of those of the lowest `m` bits of `w` that, alone, set bit `h` of the output.
spec fn selected(w: u32, h: u32, m: nat) -> bool
    decreases m,
{
    if m == 0 {
        false
    } else {
        let j = (m - 1) as nat;
        selected(w, h, j) != (twister::temper(1u32 << (j as u32)) & h != 0 && bit(w, j))
    }
}

proof fn lemma_temper_linear(x: u32, y: u32)
    ensures
        twister::temper(x ^ y) == twister::temper(x) ^ twister::temper(y),
{
    assert(twister::temper1(x ^ y) == twister::temper1(x) ^ twister::temper1(y)) by (bit_vector);
    let (x1, y1) = (twister::temper1(x), twister::temper1(y));
    assert(twister::temper2(x1 ^ y1) == twister::temper2(x1) ^ twister::temper2(y1)) by (bit_vector);
    let (x2, y2) = (twister::temper2(x1), twister::temper2(y1));
    assert(twister::temper3(x2 ^ y2) == twister::temper3(x2) ^ twister::temper3(y2)) by (bit_vector);
    let (x3, y3) = (twister::temper3(x2), twister::temper3(y2));
    assert(twister::temper4(x3 ^ y3) == twister::temper4(x3) ^ twister::temper4(y3)) by (bit_vector);
}

proof fn lemma_selected(w: u32, h: u32, m: nat)
    requires
        m <= 32,
        h & sub_one(h) == 0,
    ensures
        selected(w, h, m) == (twister::temper(w & low_bits(m)) & h != 0),
    decreases m,
{
    if m == 0 {
        assert(w & 0u32 == 0u32) by (bit_vector);
        let z = 0u32;
        assert(twister::temper1(z) == 0u32) by (bit_vector)
            requires
                z == 0u32,
        ;
        assert(twister::temper2(z) == 0u32) by (bit_vector)
            requires
                z == 0u32,
        ;
        assert(twister::temper3(z) == 0u32) by (bit_vector)
            requires
                z == 0u32,
        ;
        assert(twister::temper4(z) == 0u32) by (bit_vector)
            requires
                z == 0u32,
        ;
        assert(0u32 & h == 0u32) by (bit_vector);
    } else {
        let j = (m - 1) as nat;
        lemma_selected(w, h, j);
        let k: u32 = j as u32;
        let x = w & low_bits(j);
        let y = w & (1u32 << k);
        lemma_low_bits(m);
        let (lm, lj) = (low_bits(m), low_bits(j));
        assert(w & lm == (w & lj) ^ (w & (1u32 << k))) by (bit_vector)
            requires
                lm == lj ^ (1u32 << k),
                lj & (1u32 << k) == 0,
        ;
        lemma_temper_linear(x, y);
        let (tx, ty) = (twister::temper(x), twister::temper(y));
        assert(((tx ^ ty) & h != 0) == ((tx & h != 0) != (ty & h != 0))) by (bit_vector)
            requires
                h & (if h == 0 {
                    0
                } else {
                    (h - 1) as u32
                }) == 0,
        ;
        if bit(w, j) {
            assert(y == 1u32 << k) by (bit_vector)
                requires
                    (w >> k) & 1 == 1,
                    k < 32,
                    y == w & (1u32 << k),
            ;
        } else {
            assert(y == 0) by (bit_vector)
                requires
                    (w >> k) & 1 != 1,
                    k < 32,
                    y == w & (1u32 << k),
            ;
            lemma_selected(w, h, 0);
            assert(w & 0u32 == 0u32) by (bit_vector);
        }
    }
}

/// One less; zero stays zero.
pub open spec fn sub_one(x: u32) -> u32 {
    if x == 0 {
        0
    } else {
        (x - 1) as u32
    }
}

spec fn low_bits(m: nat) -> u32 {
    if m == 0 {
        0
    } else if m >= 32 {
        0xffff_ffff
    } else {
        sub_one(1u32 << (m as u32))
    }
}

proof fn lemma_low_bits(m: nat)
    requires
        0 < m <= 32,
    ensures
        low_bits(m) == low_bits((m - 1) as nat) ^ (1u32 << ((m - 1) as u32)),
        low_bits((m - 1) as nat) & (1u32 << ((m - 1) as u32)) == 0,
{
    let k: u32 = (m - 1) as u32;
    let m32: u32 = m as u32;
    assert((if k == 0 {
        0u32
    } else {
        sub_one(1u32 << k)
    }) == sub_one(1u32 << k)) by (bit_vector);
    assert((if m32 >= 32 {
        0xffff_ffffu32
    } else {
        sub_one(1u32 << m32)
    }) == sub_one(1u32 << k) ^ (1u32 << k) && (sub_one(1u32 << k) & (1u32 << k)) == 0)
        by (bit_vector)
        requires
            m32 == k + 1,
            m32 <= 32,
    ;
}

proof fn lemma_selected_obeys(seed: u32, from: nat, h: u32, m: nat)
    requires
        m <= 32,
    ensures
        obeys(|i: nat| selected(twister::word(seed, from + i + 31), h, m)),
    decreases m,
{
    let s = |i: nat| selected(twister::word(seed, from + i + 31), h, m);
    if m == 0 {
        lemma_obeys_zero();
        assert(s =~= zero());
    } else {
        let j = (m - 1) as nat;
        lemma_selected_obeys(seed, from, h, j);
        let sj = |i: nat| selected(twister::word(seed, from + i + 31), h, j);
        let bj = shift(bits_of(seed, from, j), 31);
        lemma_bit_obeys(seed, from, j);
        let t = if twister::temper(1u32 << (j as u32)) & h != 0 {
            bj
        } else {
            zero()
        };
        lemma_obeys_zero();
        lemma_obeys_sum(sj, t);
        assert forall|i: nat| #[trigger] s(i) == sum(sj, t)(i) by {
            assert(from + (i + 31) == from + i + 31);
        }
        assert(s =~= sum(sj, t));
    }
}

/// Every output bit is clear again at some later draw: whatever the seed, there is no draw from
/// which on the bit `h` is set in all outputs.
pub proof fn lemma_bit_clears(seed: u32, from: nat, h: u32)
    requires
        h & sub_one(h) == 0,
    ensures
        exists|k: nat| k >= from && (#[trigger] twister::draw(seed, k)) & h == 0,
{
    let at = from + 624;
    lemma_selected_obeys(seed, at, h, 32);
    let s = |i: nat| selected(twister::word(seed, at + i + 31), h, 32);
    lemma_not_all_set(s);
    let i = choose|i: nat| !#[trigger] s(i);
    let k = from + i + 31;
    let w = twister::word(seed, at + i + 31);
    lemma_selected(w, h, 32);
    assert(w & 0xffff_ffffu32 == w) by (bit_vector);
    assert(k + 624 == at + i + 31);
    assert(twister::draw(seed, k) & h == 0);
}

} // verus!
