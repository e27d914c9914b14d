//! Powers of two and binary logarithms on machine integers.

use vstd::prelude::*;
use vstd::arithmetic::power2::{pow2, lemma_pow2_pos, lemma_pow2_unfold, lemma_pow2_strictly_increases, lemma2_to64};

verus! {

/// The binary logarithm of `n`, rounded down; zero for `n == 0`.
pub open spec fn floor_log2(n: nat) -> nat
    decreases n,
{
    if n <= 1 {
        0
    } else {
        1 + floor_log2(n / 2)
    }
}

/// The binary logarithm of `n`, rounded up; zero for `n == 0`.
pub open spec fn ceil_log2(n: nat) -> nat
    decreases n,
{
    if n <= 1 {
        0
    } else {
        1 + ceil_log2((n + 1) / 2)
    }
}

/// `floor_log2(n)` is the exponent of the largest power of two not above `n`.
pub proof fn lemma_floor_log2_bounds(n: nat)
    requires
        n >= 1,
    ensures
        pow2(floor_log2(n)) <= n < 2 * pow2(floor_log2(n)),
    decreases n,
{
    if n <= 1 {
        lemma2_to64();
    } else {
        lemma_floor_log2_bounds(n / 2);
        lemma_pow2_unfold(floor_log2(n));
    }
}

/// A number between `2^d` and `2^(d+1)` has `floor_log2` equal to `d`.
pub proof fn lemma_floor_log2_unique(n: nat, d: nat)
    requires
        pow2(d) <= n < 2 * pow2(d),
    ensures
        floor_log2(n) == d,
    decreases d,
{
    lemma_pow2_pos(d);
    if d == 0 {
        lemma2_to64();
    } else {
        lemma_pow2_unfold(d);
        lemma_floor_log2_unique(n / 2, (d - 1) as nat);
    }
}

/// `ceil_log2(n)` is the exponent of the smallest power of two not below `n`.
pub proof fn lemma_ceil_log2_bounds(n: nat)
    ensures
        n <= pow2(ceil_log2(n)),
        ceil_log2(n) > 0 ==> pow2((ceil_log2(n) - 1) as nat) < n,
    decreases n,
{
    if n <= 1 {
        lemma2_to64();
    } else {
        let half = (n + 1) / 2;
        lemma_ceil_log2_bounds(half);
        lemma_pow2_unfold(ceil_log2(n));
        if ceil_log2(half) > 0 {
            lemma_pow2_unfold(ceil_log2(half));
        } else {
            lemma2_to64();
        }
    }
}

/// Any exponent whose power of two reaches `n` is at least `ceil_log2(n)`.
pub proof fn lemma_ceil_log2_least(n: nat, k: nat)
    requires
        n <= pow2(k),
    ensures
        ceil_log2(n) <= k,
{
    lemma_ceil_log2_bounds(n);
    if ceil_log2(n) > k {
        let below = (ceil_log2(n) - 1) as nat;
        if k < below {
            lemma_pow2_strictly_increases(k, below);
        }
    }
}

/// Logarithms of machine words stay below the word size.
pub proof fn lemma_log2_of_word(n: usize)
    ensures
        floor_log2(n as nat) <= 63,
        ceil_log2(n as nat) <= 64,
{
    lemma2_to64();
    if n >= 1 {
        lemma_floor_log2_bounds(n as nat);
        if floor_log2(n as nat) > 63 {
            if floor_log2(n as nat) > 64 {
                lemma_pow2_strictly_increases(64, floor_log2(n as nat));
            }
        }
    }
    lemma_ceil_log2_least(n as nat, 64);
}

/// Computes `2^k`.
pub fn pow2_usize(k: u8) -> (r: usize)
    requires
        pow2(k as nat) <= usize::MAX,
    ensures
        r == pow2(k as nat),
{
    let mut r: usize = 1;
    let mut i: u8 = 0;
    proof {
        lemma2_to64();
    }
    while i < k
        invariant
            i <= k,
            r == pow2(i as nat),
            pow2(k as nat) <= usize::MAX,
        decreases k - i,
    {
        proof {
            lemma_pow2_unfold((i + 1) as nat);
            if i + 1 < k {
                lemma_pow2_strictly_increases((i + 1) as nat, k as nat);
            }
        }
        r = r * 2;
        i = i + 1;
    }
    r
}

/// Computes the binary logarithm of `n`, rounded down.
pub fn ilog2(n: usize) -> (r: u8)
    requires
        n >= 1,
    ensures
        r == floor_log2(n as nat),
        r <= 63,
{
    let mut m: usize = n;
    let mut r: u8 = 0;
    proof {
        lemma_log2_of_word(n);
    }
    while m > 1
        invariant
            m >= 1,
            r + floor_log2(m as nat) == floor_log2(n as nat),
            floor_log2(n as nat) <= 63,
        decreases m,
    {
        m = m / 2;
        r = r + 1;
    }
    r
}

/// Computes the binary logarithm of `n`, rounded up.
pub fn next_log2(n: usize) -> (r: u8)
    ensures
        r == ceil_log2(n as nat),
        r <= 64,
{
    let mut m: usize = n;
    let mut r: u8 = 0;
    proof {
        lemma_log2_of_word(n);
    }
    while m > 1
        invariant
            r + ceil_log2(m as nat) == ceil_log2(n as nat),
            ceil_log2(n as nat) <= 64,
        decreases m,
    {
        m = m / 2 + m % 2;
        r = r + 1;
    }
    r
}

} // verus!
