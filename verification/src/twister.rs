//! The 32-bit Mersenne Twister as a mathematical stream, shared by the two generators.

use vstd::prelude::*;

verus! {

pub const MATRIX_A: u32 = 0x9908_b0df;

pub const UPPER_MASK: u32 = 0x8000_0000;

pub const LOWER_MASK: u32 = 0x7fff_ffff;

/// Word `i` of the state that a scalar seed expands to.
pub open spec fn seed_word(seed: u32, i: nat) -> u32
    decreases i,
{
    if i == 0 {
        seed
    } else {
        let p = seed_word(seed, (i - 1) as nat);
        1812433253u32.wrapping_mul(p ^ (p >> 30)).wrapping_add(i as u32)
    }
}

/// The recurrence: the word 624 places after `a`, where `b` follows `a` and `c` stands 397
/// places after it.
pub open spec fn twist(a: u32, b: u32, c: u32) -> u32 {
    let y = (a & UPPER_MASK) | (b & LOWER_MASK);
    c ^ (y >> 1) ^ (if y & 1 != 0 {
        MATRIX_A
    } else {
        0
    })
}

/// Word `i` of the untempered stream: the expanded seed, then the recurrence.
pub open spec fn word(seed: u32, i: nat) -> u32
    decreases i,
{
    if i < 624 {
        seed_word(seed, i)
    } else {
        twist(
            word(seed, (i - 624) as nat),
            word(seed, (i - 623) as nat),
            word(seed, (i - 227) as nat),
        )
    }
}

/// The first of the four steps that temper a word.
pub open spec fn temper1(y: u32) -> u32 {
    y ^ (y >> 11)
}

/// The second step.
pub open spec fn temper2(y: u32) -> u32 {
    y ^ ((y << 7) & 0x9d2c_5680)
}

/// The third step.
pub open spec fn temper3(y: u32) -> u32 {
    y ^ ((y << 15) & 0xefc6_0000)
}

/// The fourth step.
pub open spec fn temper4(y: u32) -> u32 {
    y ^ (y >> 18)
}

/// The output transformation.
pub open spec fn temper(y: u32) -> u32 {
    temper4(temper3(temper2(temper1(y))))
}

/// Draw number `k` of a generator seeded with `seed`.
pub open spec fn draw(seed: u32, k: nat) -> u32 {
    temper(word(seed, k + 624))
}

/// The output transformation, executable.
pub(crate) fn tempered(word: u32) -> (r: u32)
    ensures
        r == temper(word),
{
    let mut y: u32 = word;
    y = y ^ (y >> 11);
    y = y ^ ((y << 7) & 0x9d2c_5680);
    y = y ^ ((y << 15) & 0xefc6_0000);
    y = y ^ (y >> 18);
    y
}

/// The recurrence, executable.
pub(crate) fn twisted(a: u32, b: u32, c: u32) -> (r: u32)
    ensures
        r == twist(a, b, c),
{
    let y: u32 = (a & UPPER_MASK) | (b & LOWER_MASK);
    c ^ (y >> 1) ^ (if y & 1 != 0 {
        MATRIX_A
    } else {
        0
    })
}

/// The state block that a scalar seed expands to.
pub(crate) fn seeded(seed: u32) -> (s: [u32; 624])
    ensures
        forall|j: int| 0 <= j < 624 ==> #[trigger] s[j] == word(seed, j as nat),
{
    let mut s: [u32; 624] = [0u32; 624];
    s[0] = seed;
    let mut j: usize = 1;
    while j < 624
        invariant
            1 <= j <= 624,
            s.len() == 624,
            forall|k: int| 0 <= k < j ==> #[trigger] s[k] == seed_word(seed, k as nat),
        decreases 624 - j,
    {
        let p: u32 = s[j - 1];
        assert(p == seed_word(seed, (j - 1) as nat));
        s[j] = 1812433253u32.wrapping_mul(p ^ (p >> 30)).wrapping_add(j as u32);
        j = j + 1;
    }
    s
}

/// Replaces the block of words `base..base + 624` of the stream by the block after it.
pub(crate) fn regenerate(s: &mut [u32; 624], Ghost(seed): Ghost<u32>, Ghost(base): Ghost<nat>)
    requires
        forall|j: int| 0 <= j < 624 ==> #[trigger] old(s)[j] == word(seed, base + j as nat),
    ensures
        forall|j: int|
            0 <= j < 624 ==> #[trigger] final(s)[j] == word(seed, base + 624 + j as nat),
{
    let mut j: usize = 0;
    while j < 624
        invariant
            j <= 624,
            s.len() == 624,
            forall|k: int|
                0 <= k < j ==> #[trigger] s[k] == word(seed, base + 624 + k as nat),
            forall|k: int| j <= k < 624 ==> #[trigger] s[k] == word(seed, base + k as nat),
        decreases 624 - j,
    {
        let a: u32 = s[j];
        let b: u32 = if j == 623 {
            s[0]
        } else {
            s[j + 1]
        };
        let c: u32 = if j < 227 {
            s[j + 397]
        } else {
            s[j - 227]
        };
        proof {
            let i = (base + 624 + j) as nat;
            assert(word(seed, i) == twist(
                word(seed, (i - 624) as nat),
                word(seed, (i - 623) as nat),
                word(seed, (i - 227) as nat),
            ));
            assert(a == word(seed, (i - 624) as nat));
            assert(b == word(seed, (i - 623) as nat));
            assert(c == word(seed, (i - 227) as nat));
        }
        s[j] = twisted(a, b, c);
        j = j + 1;
    }
}

} // verus!
