//! Integer keys for binary floating-point numbers.
//!
//! A number is handed in as the bits of its double-precision format: one bit of sign, eleven of
//! exponent, fifty-two of fraction. Its key is an integer that orders as the numbers do, and the key
//! of zero, of either sign, is zero.

use vstd::arithmetic::power2;
use vstd::prelude::*;

verus! {

/// The bits without the sign.
pub open spec fn magnitude_bits(bits: u64) -> int {
    (bits % 0x8000_0000_0000_0000) as int
}

/// The sign bit is set.
pub open spec fn is_negative(bits: u64) -> bool {
    bits >= 0x8000_0000_0000_0000
}

/// The bits do not stand for a number.
pub open spec fn is_nan(bits: u64) -> bool {
    magnitude_bits(bits) > 0x7ff0_0000_0000_0000
}

/// The magnitude that the bits stand for, in units of the smallest positive number; infinity is the
/// next number after the largest finite one.
pub open spec fn magnitude(m: int) -> int {
    let exponent = m / 0x10_0000_0000_0000;
    let fraction = m % 0x10_0000_0000_0000;
    if exponent == 0 {
        fraction
    } else {
        (0x10_0000_0000_0000 + fraction) * power2::pow2((exponent - 1) as nat)
    }
}

/// The number that the bits stand for, in units of the smallest positive number.
pub open spec fn value_of(bits: u64) -> int {
    if is_negative(bits) {
        -magnitude(magnitude_bits(bits))
    } else {
        magnitude(magnitude_bits(bits))
    }
}

/// The key of the number: the bits of its magnitude, with its sign.
pub open spec fn key_of(bits: u64) -> int {
    if is_negative(bits) {
        -magnitude_bits(bits)
    } else {
        magnitude_bits(bits)
    }
}

/// The key of the number that the bits stand for; none where they stand for no number.
pub fn order_key(bits: u64) -> (r: Option<i64>)
    ensures
        match r {
            Some(k) => !is_nan(bits) && k == key_of(bits),
            None => is_nan(bits),
        },
{
    let m: u64 = bits % 0x8000_0000_0000_0000;
    if m > 0x7ff0_0000_0000_0000 {
        None
    } else if bits >= 0x8000_0000_0000_0000 {
        Some(-(m as i64))
    } else {
        Some(m as i64)
    }
}

proof fn lemma_magnitude_ascends(a: int, b: int)
    requires
        0 <= a < b,
    ensures
        0 <= magnitude(a) < magnitude(b),
{
    let u: int = 0x10_0000_0000_0000;
    let (ea, fa) = (a / u, a % u);
    let (eb, fb) = (b / u, b % u);
    assert(ea <= eb);
    if eb > 0 {
        power2::lemma_pow2_pos((eb - 1) as nat);
        let pb = power2::pow2((eb - 1) as nat) as int;
        assert((u + fb) * pb >= u * pb && u * pb >= u) by (nonlinear_arith)
            requires
                pb >= 1,
                fb >= 0,
                u > 0,
        ;
        if ea > 0 {
            power2::lemma_pow2_pos((ea - 1) as nat);
            let pa = power2::pow2((ea - 1) as nat) as int;
            assert((u + fa) * pa >= 0) by (nonlinear_arith)
                requires
                    pa >= 1,
                    fa >= 0,
                    u > 0,
            ;
            if ea == eb {
                assert((u + fa) * pa < (u + fb) * pa) by (nonlinear_arith)
                    requires
                        fa < fb,
                        pa >= 1,
                ;
            } else {
                power2::lemma_pow2_unfold(ea as nat);
                if ea < eb - 1 {
                    power2::lemma_pow2_strictly_increases(ea as nat, (eb - 1) as nat);
                }
                assert((u + fa) * pa < u * pb) by (nonlinear_arith)
                    requires
                        fa < u,
                        pa >= 1,
                        pb >= 2 * pa,
                        u > 0,
                ;
            }
        }
    }
}

/// Keys order as the numbers do, and numbers that are equal have equal keys.
pub proof fn lemma_key_orders(a: u64, b: u64)
    ensures
        value_of(a) < value_of(b) <==> key_of(a) < key_of(b),
        value_of(a) == value_of(b) <==> key_of(a) == key_of(b),
{
    let (ma, mb) = (magnitude_bits(a), magnitude_bits(b));
    if ma < mb {
        lemma_magnitude_ascends(ma, mb);
    } else if mb < ma {
        lemma_magnitude_ascends(mb, ma);
    }
    if ma > 0 {
        lemma_magnitude_ascends(0, ma);
    }
    if mb > 0 {
        lemma_magnitude_ascends(0, mb);
    }
    assert(magnitude(0) == 0);
}

/// What the bits of a number stand for, in units of the smallest: the low bits count units; from twice
/// that range on, one more in the exponent doubles the number; the highest bit is the sign.
pub proof fn lemma_values(bits: u64)
    ensures
        bits < 0x20_0000_0000_0000 ==> value_of(bits) == bits,
        0x10_0000_0000_0000 <= bits < 0x7fe0_0000_0000_0000 ==> value_of(
            (bits + 0x10_0000_0000_0000) as u64,
        ) == 2 * value_of(bits),
        bits < 0x8000_0000_0000_0000 ==> value_of((bits + 0x8000_0000_0000_0000) as u64) == -value_of(
            bits,
        ),
        bits < 0x8000_0000_0000_0000 ==> key_of(bits) == bits && key_of(
            (bits + 0x8000_0000_0000_0000) as u64,
        ) == -bits,
        is_nan(bits) <==> 0x7ff0_0000_0000_0000 < bits < 0x8000_0000_0000_0000 || bits
            > 0xfff0_0000_0000_0000,
{
    let u = 0x10_0000_0000_0000int;
    assert(power2::pow2(0) == 1) by {
        power2::lemma2_to64();
    }
    if 0x10_0000_0000_0000 <= bits < 0x7fe0_0000_0000_0000 {
        let (m, m2) = (bits as int, bits + u);
        let (e, f) = (m / u, m % u);
        assert(m2 / u == e + 1 && m2 % u == f);
        assert(e >= 1);
        power2::lemma_pow2_unfold(e as nat);
        assert(magnitude(m2) == (u + f) * power2::pow2(e as nat));
        assert(magnitude(m) == (u + f) * power2::pow2((e - 1) as nat));
        let (p, q) = (power2::pow2((e - 1) as nat) as int, power2::pow2(e as nat) as int);
        assert((u + f) * q == 2 * ((u + f) * p)) by (nonlinear_arith)
            requires
                q == 2 * p,
        ;
    }
    if bits < 0x20_0000_0000_0000 {
        let m = bits as int;
        if m >= u {
            assert(m / u == 1 && m % u == m - u);
            assert((u + (m - u)) * 1 == m);
        } else {
            assert(m / u == 0 && m % u == m);
        }
    }
}

} // verus!
