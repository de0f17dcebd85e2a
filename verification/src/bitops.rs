//! Small verified bit-level helpers shared by the hash-based chunkers:
//! population count, bit rotation, the next power of two, and exponentiation
//! under wrapping 32-bit multiplication.

use vstd::prelude::*;

verus! {

/// The number of set bits of `x`, read off its binary expansion.
pub open spec fn popcount(x: nat) -> nat
    decreases x,
{
    if x == 0 {
        0
    } else {
        x % 2 + popcount(x / 2)
    }
}

/// A value below `pow2(b)` has at most `b` set bits.
pub proof fn lemma_popcount_bound(x: nat, b: nat)
    requires
        x < vstd::arithmetic::power2::pow2(b),
    ensures
        popcount(x) <= b,
    decreases b,
{
    vstd::arithmetic::power2::lemma_pow2_pos(b);
    if x == 0 {
    } else {
        if b == 0 {
            vstd::arithmetic::power2::lemma2_to64();
        } else {
            vstd::arithmetic::power2::lemma_pow2_unfold(b);
            lemma_popcount_bound(x / 2, (b - 1) as nat);
        }
    }
}

/// Counts the set bits of `x`.
pub fn popcount64(x: u64) -> (r: u32)
    ensures
        r == popcount(x as nat),
        r <= 64,
{
    proof {
        vstd::arithmetic::power2::lemma2_to64_rest();
        lemma_popcount_bound(x as nat, 64);
    }
    let mut y: u64 = x;
    let mut c: u32 = 0;
    while y != 0
        invariant
            c + popcount(y as nat) == popcount(x as nat),
            popcount(x as nat) <= 64,
        decreases y,
    {
        proof {
            assert((y & 1) == y % 2) by (bit_vector);
            assert((y >> 1) == y / 2) by (bit_vector);
        }
        c = c + (y & 1) as u32;
        y = y >> 1;
    }
    c
}

/// A positive value has at least one set bit.
pub proof fn lemma_popcount_pos(x: nat)
    requires
        x >= 1,
    ensures
        popcount(x) >= 1,
    decreases x,
{
    if x % 2 == 0 {
        lemma_popcount_pos(x / 2);
    }
}

/// Rotation of a 64-bit value left by `s` positions, `s < 64`.
pub open spec fn spec_rotl64(x: u64, s: u64) -> u64 {
    if s == 0 {
        x
    } else {
        (x << s) | (x >> (64 - s))
    }
}

/// Rotates `x` left by `s` bit positions.
pub fn rotl64(x: u64, s: u32) -> (r: u64)
    requires
        s < 64,
    ensures
        r == spec_rotl64(x, s as u64),
{
    if s == 0 {
        x
    } else {
        (x << s) | (x >> (64 - s))
    }
}

/// The doubling search behind `next_power_of_two`: the first value in
/// `p, 2p, 4p, ...` that reaches `n`.
pub open spec fn npot_loop(p: nat, n: nat) -> nat
    decreases 2 * n - p,
    when p >= 1
    via npot_loop_decreases
{
    if p >= n {
        p
    } else {
        npot_loop(2 * p, n)
    }
}

#[via_fn]
proof fn npot_loop_decreases(p: nat, n: nat) {
}

/// The smallest power of two that is at least `n` (and at least 1).
pub open spec fn next_pow2(n: nat) -> nat {
    npot_loop(1, n)
}

pub proof fn lemma_npot_loop_ge(p: nat, n: nat)
    requires
        p >= 1,
    ensures
        npot_loop(p, n) >= n,
        npot_loop(p, n) >= p,
    decreases 2 * n - p,
{
    if p < n {
        lemma_npot_loop_ge(2 * p, n);
    }
}

/// The next power of two is never below its argument, nor below 1.
pub proof fn lemma_next_pow2_ge(n: nat)
    ensures
        next_pow2(n) >= n,
        next_pow2(n) >= 1,
{
    lemma_npot_loop_ge(1, n);
}

pub proof fn lemma_npot_loop_lt(p: nat, n: nat)
    requires
        1 <= p,
        p < 2 * n,
    ensures
        npot_loop(p, n) < 2 * n,
    decreases 2 * n - p,
{
    if p < n {
        lemma_npot_loop_lt(2 * p, n);
    }
}

/// The next power of two stays below twice a positive argument.
pub proof fn lemma_next_pow2_lt(n: nat)
    requires
        1 <= n,
    ensures
        next_pow2(n) < 2 * n,
{
    lemma_npot_loop_lt(1, n);
}

/// The smallest power of two at or above `n`, found by doubling.
pub fn next_power_of_two64(n: u64) -> (r: u64)
    requires
        n <= 0x8000_0000_0000_0000,
    ensures
        r == next_pow2(n as nat),
        1 <= r,
        n <= r,
{
    let mut p: u64 = 1;
    while p < n
        invariant
            1 <= p,
            n <= 0x8000_0000_0000_0000,
            p < n ==> p < 0x8000_0000_0000_0000,
            npot_loop(p as nat, n as nat) == next_pow2(n as nat),
        decreases 2 * n - p,
    {
        p = p * 2;
    }
    p
}

/// Exponentiation under wrapping 32-bit multiplication.
pub open spec fn spec_wrapping_pow32(base: u32, exp: nat) -> u32
    decreases exp,
{
    if exp == 0 {
        1
    } else {
        vstd::wrapping::u32_specs::wrapping_mul(base, spec_wrapping_pow32(base, (exp - 1) as nat))
    }
}

/// `base` raised to `exp` by repeated wrapping 32-bit multiplication.
pub fn wrapping_pow32(base: u32, exp: u32) -> (r: u32)
    ensures
        r == spec_wrapping_pow32(base, exp as nat),
{
    let mut r: u32 = 1;
    let mut k: u32 = 0;
    while k < exp
        invariant
            k <= exp,
            r == spec_wrapping_pow32(base, k as nat),
        decreases exp - k,
    {
        r = base.wrapping_mul(r);
        k = k + 1;
    }
    r
}

} // verus!
