//! Cubes: bit patterns over `{0, 1, -}` and the rows they cover.
//!
//! A cube fixes some bit positions of a row index to 0 or 1 and leaves the
//! others (the dashes) free.  Two cubes with the same dashes that differ in
//! exactly one fixed bit are adjacent, and merge into the cube that has a
//! dash at that bit.

use vstd::prelude::*;
use crate::bits::{bit_count, fits, is_single_bit, lemma_bit_count_disjoint, lemma_bit_count_fits,
    lemma_bit_count_single};

verus! {

/// The largest supported number of input bits: the number of rows,
/// `2^width`, has to fit a machine word of 32 bits.
pub const MAX_WIDTH: usize = 31;

/// A bit pattern: `ones` holds the positions fixed to 1, `dashes` the
/// positions left free; every other position is fixed to 0.
pub struct Cube {
    pub ones: usize,
    pub dashes: usize,
}

impl Cube {
    /// The pattern lies within `width` bits and no dash is also a one.
    pub open spec fn wf(self, width: usize) -> bool {
        &&& width <= MAX_WIDTH
        &&& fits(self.ones, width)
        &&& fits(self.dashes, width)
        &&& self.ones & self.dashes == 0
    }

    /// Row `r` agrees with the pattern on every fixed position.
    pub open spec fn covers(self, r: usize) -> bool {
        r & !self.dashes == self.ones
    }

    /// The two cubes have the same dashes and differ in exactly one fixed bit.
    pub open spec fn adjacent(self, other: Cube) -> bool {
        &&& self.dashes == other.dashes
        &&& is_single_bit(self.ones ^ other.ones)
    }

    /// The cube that two adjacent cubes merge into: the bit in which they
    /// differ becomes a dash.
    pub open spec fn merged(self, other: Cube) -> Cube {
        Cube { ones: self.ones & other.ones, dashes: self.dashes | (self.ones ^ other.ones) }
    }

    /// The half of this cube in which the free bit `bit` is fixed to 0.
    pub open spec fn lower_half(self, bit: usize) -> Cube {
        Cube { ones: self.ones, dashes: self.dashes ^ bit }
    }

    /// The half of this cube in which the free bit `bit` is fixed to 1.
    pub open spec fn upper_half(self, bit: usize) -> Cube {
        Cube { ones: self.ones | bit, dashes: self.dashes ^ bit }
    }
}

/// The lowest bit that is set in `d`.
pub open spec fn lowest_bit(d: usize) -> usize {
    d & !((d - 1) as usize)
}

proof fn lemma_merge_bits(ao: usize, bo: usize, d: usize, w: usize, r: usize)
    by (bit_vector)
    requires
        w <= 31,
        fits(ao, w),
        fits(bo, w),
        fits(d, w),
        ao & d == 0,
        bo & d == 0,
        is_single_bit(ao ^ bo),
    ensures
        fits(ao & bo, w),
        fits(d | (ao ^ bo), w),
        (ao & bo) & (d | (ao ^ bo)) == 0,
        d & (ao ^ bo) == 0,
        (ao & bo) & (ao ^ bo) == 0,
        (r & !(d | (ao ^ bo)) == ao & bo) <==> (r & !d == ao || r & !d == bo),
        (ao == ao & bo && bo == (ao & bo) | (ao ^ bo)) || (bo == ao & bo && ao == (ao & bo) | (ao
            ^ bo)),
{
}

proof fn lemma_split_bits(o: usize, d: usize, bit: usize, w: usize, r: usize)
    by (bit_vector)
    requires
        w <= 31,
        fits(o, w),
        fits(d, w),
        o & d == 0,
        is_single_bit(bit),
        d & bit == bit,
    ensures
        fits(o | bit, w),
        fits(d ^ bit, w),
        o & (d ^ bit) == 0,
        (o | bit) & (d ^ bit) == 0,
        o ^ (o | bit) == bit,
        o & (o | bit) == o,
        (d ^ bit) | bit == d,
        (d ^ bit) & bit == 0,
        r & !(d ^ bit) == o ==> r & !d == o,
        r & !(d ^ bit) == (o | bit) ==> r & !d == o,
{
}

/// The lowest bit of a word other than zero is a single bit of the word.
pub proof fn lemma_lowest_bit(d: usize)
    by (bit_vector)
    requires
        d != 0,
    ensures
        is_single_bit(lowest_bit(d)),
        d & lowest_bit(d) == lowest_bit(d),
{
}

/// Exclusive or and conjunction do not depend on the order of the operands.
pub proof fn lemma_symmetric_bits(a: usize, b: usize)
    by (bit_vector)
    ensures
        a ^ b == b ^ a,
        a & b == b & a,
{
}

proof fn lemma_cover_bits(o: usize, d: usize, w: usize, r: usize)
    by (bit_vector)
    requires
        w <= 31,
    ensures
        o & 0 == 0,
        0usize >> w == 0,
        r < 1usize << w <==> fits(r, w),
        r & !0usize == o <==> r == o,
        o & d == 0 ==> o & !d == o && (o | d) & !d == o,
        fits(o, w) && fits(d, w) && r & !d == o ==> fits(r, w),
{
}

/// The number of rows of a truth table with `width` input bits.
pub open spec fn row_count(width: usize) -> usize {
    1usize << width
}

/// A row index lies within the table exactly when it uses only the lowest
/// `width` bits.
pub proof fn lemma_row_fits(r: usize, width: usize)
    requires
        width <= MAX_WIDTH,
    ensures
        r < row_count(width) <==> fits(r, width),
{
    lemma_cover_bits(0, 0, width, r);
}

/// The cube without dashes whose ones are the row `n` is well-formed and
/// covers the row `n` only.
pub proof fn lemma_single_row(n: usize, width: usize, r: usize)
    requires
        width <= MAX_WIDTH,
    ensures
        fits(n, width) ==> (Cube { ones: n, dashes: 0 }).wf(width),
        (Cube { ones: n, dashes: 0 }).covers(r) <==> r == n,
{
    lemma_cover_bits(n, 0, width, r);
}

/// A cube covers the row that has its ones and no other bit.
pub proof fn lemma_covers_own_ones(c: Cube)
    requires
        c.ones & c.dashes == 0,
    ensures
        c.covers(c.ones),
        c.ones & !c.dashes == c.ones,
{
    lemma_cover_bits(c.ones, c.dashes, 0, 0);
}

/// A well-formed cube covers only rows of the table.
pub proof fn lemma_cover_within(c: Cube, width: usize, r: usize)
    requires
        c.wf(width),
        c.covers(r),
    ensures
        r < row_count(width),
{
    lemma_cover_bits(c.ones, c.dashes, width, r);
}

/// Adjacency and merging do not depend on the order of the two cubes.
pub proof fn lemma_merge_symmetric(a: Cube, b: Cube)
    ensures
        a.adjacent(b) == b.adjacent(a),
        a.dashes == b.dashes ==> a.merged(b) == b.merged(a),
{
    lemma_symmetric_bits(a.ones, b.ones);
}

/// Merging two adjacent cubes gives a well-formed cube with one more dash
/// that covers the rows of the first, the rows of the second, and no other.
pub proof fn lemma_merged(a: Cube, b: Cube, width: usize)
    requires
        a.wf(width),
        b.wf(width),
        a.adjacent(b),
    ensures
        a.merged(b).wf(width),
        forall|r: usize| #[trigger] a.merged(b).covers(r) <==> a.covers(r) || b.covers(r),
        bit_count(a.merged(b).dashes) == bit_count(a.dashes) + 1,
        bit_count(a.merged(b).dashes) <= width,
        a.ones == a.merged(b).ones && bit_count(b.ones) == bit_count(a.ones) + 1 || b.ones
            == a.merged(b).ones && bit_count(a.ones) == bit_count(b.ones) + 1,
{
    let m = a.merged(b);
    let x = a.ones ^ b.ones;
    lemma_merge_bits(a.ones, b.ones, a.dashes, width, 0);
    assert forall|r: usize| #[trigger] m.covers(r) <==> a.covers(r) || b.covers(r) by {
        lemma_merge_bits(a.ones, b.ones, a.dashes, width, r);
    }
    lemma_bit_count_single(x);
    lemma_bit_count_disjoint(a.dashes, x);
    lemma_bit_count_disjoint(m.ones, x);
    lemma_bit_count_fits(m.dashes, width);
}

/// A cube with a dash at `bit` is the merge of its two halves, which are
/// adjacent, well-formed, have one dash less and cover only rows of the cube.
pub proof fn lemma_split(c: Cube, bit: usize, width: usize)
    requires
        c.wf(width),
        is_single_bit(bit),
        c.dashes & bit == bit,
    ensures
        c.lower_half(bit).wf(width),
        c.upper_half(bit).wf(width),
        c.lower_half(bit).adjacent(c.upper_half(bit)),
        c.lower_half(bit).merged(c.upper_half(bit)) == c,
        bit_count(c.lower_half(bit).dashes) + 1 == bit_count(c.dashes),
        forall|r: usize| #[trigger] c.lower_half(bit).covers(r) ==> c.covers(r),
        forall|r: usize| #[trigger] c.upper_half(bit).covers(r) ==> c.covers(r),
{
    let lo = c.lower_half(bit);
    let hi = c.upper_half(bit);
    lemma_split_bits(c.ones, c.dashes, bit, width, 0);
    assert forall|r: usize| #[trigger] lo.covers(r) implies c.covers(r) by {
        lemma_split_bits(c.ones, c.dashes, bit, width, r);
    }
    assert forall|r: usize| #[trigger] hi.covers(r) implies c.covers(r) by {
        lemma_split_bits(c.ones, c.dashes, bit, width, r);
    }
    lemma_bit_count_single(bit);
    lemma_bit_count_disjoint(lo.dashes, bit);
}

proof fn lemma_sibling_bits(co: usize, cd: usize, oo: usize, od: usize, w: usize, r: usize)
    by (bit_vector)
    requires
        w <= 31,
        fits(co, w),
        fits(cd, w),
        fits(od, w),
        co & cd == 0,
        oo & od == 0,
        co & !od == oo,
        (co | cd) & !od == oo,
        co != oo || cd != od,
    ensures
        od & !cd != 0,
        is_single_bit(co ^ (co ^ lowest_bit(od & !cd))),
        fits(co ^ lowest_bit(od & !cd), w),
        (co ^ lowest_bit(od & !cd)) & cd == 0,
        r & !cd == co ^ lowest_bit(od & !cd) ==> r & !od == oo,
{
}

/// The row of a cube in which every dash is set is covered by the cube.
pub proof fn lemma_covers_top_row(c: Cube)
    requires
        c.ones & c.dashes == 0,
    ensures
        c.covers(c.ones | c.dashes),
{
    lemma_cover_bits(c.ones, c.dashes, 0, 0);
}

/// A cube that lies within another cube has an adjacent cube that lies
/// within the other cube too.
pub proof fn lemma_sibling_within(c: Cube, o: Cube, width: usize) -> (s: Cube)
    requires
        c.wf(width),
        o.wf(width),
        c != o,
        forall|r: usize| c.covers(r) ==> #[trigger] o.covers(r),
    ensures
        s.wf(width),
        c.adjacent(s),
        forall|r: usize| s.covers(r) ==> #[trigger] o.covers(r),
{
    lemma_covers_own_ones(c);
    lemma_covers_top_row(c);
    assert(o.covers(c.ones));
    assert(o.covers(c.ones | c.dashes));
    let s = Cube { ones: c.ones ^ lowest_bit(o.dashes & !c.dashes), dashes: c.dashes };
    lemma_sibling_bits(c.ones, c.dashes, o.ones, o.dashes, width, 0);
    assert forall|r: usize| s.covers(r) implies #[trigger] o.covers(r) by {
        lemma_sibling_bits(c.ones, c.dashes, o.ones, o.dashes, width, r);
    }
    s
}

} // verus!
