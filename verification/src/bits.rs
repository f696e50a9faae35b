//! Powers of two: the arithmetic behind the shape of bulk-built trees.

use vstd::prelude::*;

verus! {

/// `n` is one of 1, 2, 4, 8, ...
pub open spec fn is_pow2(n: int) -> bool
    decreases n,
{
    if n <= 0 {
        false
    } else if n == 1 {
        true
    } else {
        n % 2 == 0 && is_pow2(n / 2)
    }
}

/// The largest power of two that does not exceed `n`, and 0 where there is none.
pub open spec fn floor_pow2(n: int) -> int
    decreases n,
{
    if n <= 0 {
        0
    } else if n == 1 {
        1
    } else {
        2 * floor_pow2(n / 2)
    }
}

/// The exponent of `floor_pow2(n)`: the number of halvings that take `n` to 1.
pub open spec fn floor_log2(n: int) -> int
    decreases n,
{
    if n <= 1 {
        0
    } else {
        1 + floor_log2(n / 2)
    }
}

/// `floor_pow2(n)` is a power of two, and `n` lies in `[floor_pow2(n), 2 * floor_pow2(n))`.
pub proof fn lemma_floor_pow2_bounds(n: int)
    requires
        n >= 1,
    ensures
        is_pow2(floor_pow2(n)),
        floor_pow2(n) <= n < 2 * floor_pow2(n),
    decreases n,
{
    if n > 1 {
        lemma_floor_pow2_bounds(n / 2);
    }
}

/// A power of two `p` with `p <= n < 2 * p` is `floor_pow2(n)`.
pub proof fn lemma_floor_pow2_unique(p: int, n: int)
    requires
        is_pow2(p),
        p <= n < 2 * p,
    ensures
        p == floor_pow2(n),
        floor_log2(n) == floor_log2(p),
    decreases p,
{
    if p > 1 {
        lemma_floor_pow2_unique(p / 2, n / 2);
    }
}

/// Doubling a power of two gives the next one.
pub proof fn lemma_pow2_double(p: int)
    requires
        is_pow2(p),
    ensures
        is_pow2(2 * p),
        floor_log2(2 * p) == floor_log2(p) + 1,
{
}

/// A number that fits 32 bits has fewer than 32 halvings to 1.
pub proof fn lemma_floor_log2_small(n: int)
    requires
        n <= u32::MAX,
    ensures
        floor_log2(n) < 32,
        n >= 1 ==> floor_log2(n) >= 0,
{
    reveal_with_fuel(floor_log2, 34);
}

proof fn lemma_single_bit(v: u32)
    ensures
        (v != 0 && v & ((v - 1) as u32) == 0) <==> is_pow2(v as int),
    decreases v,
{
    if v >= 2 {
        let w: u32 = v / 2;
        assert((v & ((v - 1) as u32) == 0) <==> (v % 2 == 0 && w & ((w - 1) as u32) == 0))
            by (bit_vector)
            requires
                v >= 2,
                w == v / 2,
        ;
        lemma_single_bit(w);
    } else if v == 1 {
        assert(1u32 & 0u32 == 0) by (bit_vector);
    }
}

/// Whether `v` is a power of two.
pub fn is_power(v: u32) -> (r: bool)
    ensures
        r == is_pow2(v as int),
{
    proof {
        lemma_single_bit(v);
    }
    if v == 0 {
        false
    } else {
        v & (v - 1) == 0
    }
}

/// The largest power of two that does not exceed `v`; 0 for 0.
pub fn exp_floor_log(v: u32) -> (r: u32)
    ensures
        r == floor_pow2(v as int),
{
    if v == 0 {
        0
    } else if is_power(v) {
        proof {
            lemma_floor_pow2_unique(v as int, v as int);
        }
        v
    } else {
        let e0: u32 = v - 1;
        let e1: u32 = e0 | (e0 >> 1);
        let e2: u32 = e1 | (e1 >> 2);
        let e3: u32 = e2 | (e2 >> 4);
        let e4: u32 = e3 | (e3 >> 8);
        let e5: u32 = e4 | (e4 >> 16);
        assert((e5 >> 1) < 0x8000_0000u32) by (bit_vector);
        let r: u32 = (e5 >> 1) + 1;
        proof {
            lemma_single_bit(v);
        }
        assert(r != 0 && r & ((r - 1) as u32) == 0 && r <= v && v - r < r) by (bit_vector)
            requires
                v >= 1,
                v & ((v - 1) as u32) != 0,
                e0 == (v - 1) as u32,
                e1 == e0 | (e0 >> 1),
                e2 == e1 | (e1 >> 2),
                e3 == e2 | (e2 >> 4),
                e4 == e3 | (e3 >> 8),
                e5 == e4 | (e4 >> 16),
                r == ((e5 >> 1) + 1) as u32,
        ;
        proof {
            lemma_single_bit(r);
            lemma_floor_pow2_unique(r as int, v as int);
        }
        r
    }
}

} // verus!
