//! Counting the set bits of a machine word.

use vstd::prelude::*;

verus! {

/// The number of bits that are set in `n`.
pub open spec fn bit_count(n: usize) -> nat
    decreases n,
{
    if n == 0 {
        0
    } else {
        (n % 2) as nat + bit_count(n / 2)
    }
}

/// `b` has exactly one bit set.
pub open spec fn is_single_bit(b: usize) -> bool {
    b != 0 && b & ((b - 1) as usize) == 0
}

/// `x` uses only the lowest `width` bits.
pub open spec fn fits(x: usize, width: usize) -> bool {
    x >> width == 0
}

/// Counts the bits that are set in `n`.
pub fn count_ones(n: usize) -> (num_ones: usize)
    ensures
        num_ones == bit_count(n),
{
    let mut tmp: usize = n;
    let mut num_ones: usize = 0;
    while tmp != 0
        invariant
            num_ones + bit_count(tmp) == bit_count(n),
            num_ones + tmp <= n,
        decreases tmp,
    {
        assert(tmp & 1 == tmp % 2 && tmp >> 1 == tmp / 2) by (bit_vector);
        if (tmp & 1) == 1 {
            num_ones += 1;
        }
        tmp >>= 1;
    }
    num_ones
}

/// Only zero has no bit set.
pub proof fn lemma_bit_count_zero(x: usize)
    ensures
        bit_count(x) == 0 <==> x == 0,
    decreases x,
{
    if x != 0 {
        lemma_bit_count_zero(x / 2);
    }
}

/// A word has one bit set exactly when its bit count is one.
pub proof fn lemma_bit_count_single(x: usize)
    ensures
        is_single_bit(x) <==> bit_count(x) == 1,
    decreases x,
{
    if x != 0 {
        let h: usize = x / 2;
        let p: usize = (x - 1) as usize;
        let q: usize = if h == 0 { 0 } else { (h - 1) as usize };
        assert(x % 2 == 1 ==> (x & p == 0 <==> h == 0)) by (bit_vector)
            requires
                x != 0,
                h == x / 2,
                p == x - 1,
        ;
        assert(x % 2 == 0 ==> h != 0 && (x & p == 0 <==> h & q == 0)) by (bit_vector)
            requires
                x != 0,
                h == x / 2,
                p == x - 1,
                h != 0 ==> q == h - 1,
        ;
        lemma_bit_count_zero(h);
        lemma_bit_count_single(h);
    }
}

/// The bit count of the union of two words without a common bit is the sum
/// of their bit counts.
pub proof fn lemma_bit_count_disjoint(a: usize, b: usize)
    requires
        a & b == 0,
    ensures
        bit_count(a | b) == bit_count(a) + bit_count(b),
    decreases a + b,
{
    let u: usize = a | b;
    if a == 0 && b == 0 {
        assert(0usize | 0usize == 0usize) by (bit_vector);
    } else {
        let ha: usize = a / 2;
        let hb: usize = b / 2;
        assert(u != 0 && u % 2 == a % 2 + b % 2 && u / 2 == ha | hb && ha & hb == 0) by (bit_vector)
            requires
                a & b == 0,
                u == a | b,
                ha == a / 2,
                hb == b / 2,
                a != 0 || b != 0,
        ;
        lemma_bit_count_disjoint(ha, hb);
    }
}

/// A word that uses only the lowest `width` bits has at most `width` bits set.
pub proof fn lemma_bit_count_fits(x: usize, width: usize)
    requires
        width < usize::BITS,
        fits(x, width),
    ensures
        bit_count(x) <= width,
    decreases width,
{
    if width == 0 {
        assert(x >> 0usize == x) by (bit_vector);
    } else if x != 0 {
        let h: usize = x / 2;
        let w: usize = (width - 1) as usize;
        assert(h >> w == 0) by (bit_vector)
            requires
                x >> width == 0,
                0 < width < usize::BITS,
                h == x / 2,
                w == width - 1,
        ;
        lemma_bit_count_fits(h, w);
    }
}

} // verus!
