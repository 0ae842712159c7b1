//! Row classifiers: the next state of a cell in Conway's game of life, as a
//! function of the bits of a row index.

use vstd::prelude::*;
use crate::bits::bit_count;

verus! {

/// The class of a truth-table row.
#[derive(Clone, Copy, Debug, PartialEq, Eq, Structural)]
pub enum Output {
    /// The row is asserted: the cell lives on or is born.
    Alive,
    /// The row is negated: the cell dies or stays dead.
    Dead,
    /// The row cannot occur; its output is free.
    DontCare,
}

/// The rule of life: a cell with three live neighbours lives, and a live
/// cell with two live neighbours stays alive.
pub open spec fn life_rule(center: bool, neighbors: int) -> Output {
    if neighbors == 3 || (center && neighbors == 2) {
        Output::Alive
    } else {
        Output::Dead
    }
}

/// The eight neighbour cells of a 3x3 neighbourhood held in nine bits, row
/// by row from bit 8 down; bit 4 is the centre cell.
pub open spec fn neighbor_cells(n: usize) -> usize {
    n & 0x1ef
}

/// The class of a row of the nine-bit table: the rule of life on the centre
/// cell and the number of its live neighbours.
pub open spec fn neighborhood_class(n: usize) -> Output {
    life_rule((n >> 4) & 1 == 1, bit_count(neighbor_cells(n)) as int)
}

/// The class of a row of the six-bit table.  Bits 5 and 4 hold the number
/// of live cells in the top row, bits 3 to 1 the number of live cells among
/// the other five neighbours, bit 0 the centre cell.  A count of 6 or 7
/// among five cells cannot occur.
pub open spec fn count_class(n: usize) -> Output {
    if (n >> 1) & 7 <= 5 {
        life_rule(n & 1 == 1, ((n >> 4) & 3) + ((n >> 1) & 7))
    } else {
        Output::DontCare
    }
}

/// The low six bits of `n` match the pattern with the given ones and dashes.
pub open spec fn matches_term(n: usize, ones: usize, dashes: usize) -> bool {
    (n & 0x3f) & !dashes == ones
}

/// The class that the chosen cover of the six-bit table gives a row: alive
/// when one of its seven prime implicants covers the row.
pub open spec fn cover_class(n: usize) -> Output {
    if matches_term(n, 0b010011, 0b000000) || matches_term(n, 0b100001, 0b000010) || matches_term(
        n,
        0b100010,
        0b000001,
    ) || matches_term(n, 0b110000, 0b000001) || matches_term(n, 0b000101, 0b011000)
        || matches_term(n, 0b000110, 0b001001) || matches_term(n, 0b010100, 0b001001) {
        Output::Alive
    } else {
        Output::Dead
    }
}

proof fn lemma_cell_bits(n: usize, m: usize, a: usize, b: usize, value: usize)
    by (bit_vector)
    requires
        m == n & 0x1ef,
        a <= 6,
        b <= 2,
        value == ((n >> a) >> b) & 1,
    ensures
        value <= 1,
        (m >> (a + b) as usize) / 2 == m >> (a + b + 1) as usize,
        a + b != 4 ==> (m >> (a + b) as usize) % 2 == value,
        a + b == 4 ==> (m >> (a + b) as usize) % 2 == 0 && value == (n >> 4) & 1,
        m >> 9 == 0,
        m >> 0 == m,
{
}

/// Classifies a row of the nine-bit table: top row, middle row with the
/// centre cell, bottom row.
pub fn decompose(n: usize) -> (out: Output)
    ensures
        out == neighborhood_class(n),
{
    let ghost m: usize = neighbor_cells(n);
    let mut neighbors: usize = 0;
    let mut center = false;
    let mut row: usize = 0;
    proof {
        lemma_cell_bits(n, m, 0, 0, (n >> 0usize >> 0usize) & 1);
    }
    while row < 3
        invariant
            row <= 3,
            m == neighbor_cells(n),
            neighbors <= 3 * row,
            neighbors == bit_count(m >> (9 - 3 * row) as usize),
            center == (row >= 2 && (n >> 4) & 1 == 1),
        decreases 3 - row,
    {
        let mut col: usize = 0;
        while col < 3
            invariant
                row < 3,
                col <= 3,
                m == neighbor_cells(n),
                neighbors <= 3 * row + col,
                neighbors == bit_count(m >> (9 - 3 * row - col) as usize),
                center == ((row >= 2 || (row == 1 && col >= 2)) && (n >> 4) & 1 == 1),
            decreases 3 - col,
        {
            let value: usize = ((n >> (3 * (2 - row))) >> (2 - col)) & 1;
            proof {
                lemma_cell_bits(n, m, (3 * (2 - row)) as usize, (2 - col) as usize, value);
            }
            if col == 1 && row == 1 {
                center = value == 1;
            } else if value == 1 {
                neighbors += 1;
            }
            col += 1;
        }
        row += 1;
    }
    if neighbors == 3 || (center && neighbors == 2) {
        Output::Alive
    } else {
        Output::Dead
    }
}

proof fn lemma_field_bits(n: usize)
    by (bit_vector)
    ensures
        (n >> 4) & 3 <= 3,
        (n >> 1) & 7 <= 7,
{
}

/// Classifies a row of the six-bit table.
pub fn decompose2(n: usize) -> (out: Output)
    ensures
        out == count_class(n),
{
    let neighbors1 = (n >> 4) & 3;
    let neighbors2 = (n >> 1) & 7;
    let center: bool = (n & 1) == 1;
    proof {
        lemma_field_bits(n);
    }
    let neighbors = neighbors1 + neighbors2;
    if neighbors2 <= 5 {
        if neighbors == 3 || (center && neighbors == 2) {
            Output::Alive
        } else {
            Output::Dead
        }
    } else {
        Output::DontCare
    }
}

/// The factored form of the chosen cover, over the six bits of a row.
pub open spec fn cover_formula(
    y1: usize,
    y2: usize,
    y3: usize,
    y4: usize,
    y5: usize,
    y6: usize,
) -> usize {
    !y1 & y6 & (y2 & (!y3 & !y4) & y5 | y4 & !y5) | y1 & (!y3 & !y4) & (!y2 & (y5 | y6) | y2
        & !y5) | !y1 & y4 & (y2 ^ y5)
}

proof fn lemma_cover_formula(n: usize)
    by (bit_vector)
    ensures
        cover_formula(
            (n >> 5) & 1,
            (n >> 4) & 1,
            (n >> 3) & 1,
            (n >> 2) & 1,
            (n >> 1) & 1,
            n & 1,
        ) == 1 <==> (matches_term(n, 0b010011, 0b000000) || matches_term(n, 0b100001, 0b000010)
            || matches_term(n, 0b100010, 0b000001) || matches_term(n, 0b110000, 0b000001)
            || matches_term(n, 0b000101, 0b011000) || matches_term(n, 0b000110, 0b001001)
            || matches_term(n, 0b010100, 0b001001)),
{
}

/// Computes the next state of a cell from a row of the six-bit table, by
/// the factored form of the chosen cover.
pub fn next_gen(n: usize) -> (out: Output)
    ensures
        out == cover_class(n),
{
    let y1 = (n >> 5) & 1;
    let y2 = (n >> 4) & 1;
    let y3 = (n >> 3) & 1;
    let y4 = (n >> 2) & 1;
    let y5 = (n >> 1) & 1;
    let y6 = n & 1;
    let int1 = !y3 & !y4;
    let result = !y1 & y6 & (y2 & int1 & y5 | y4 & !y5) | y1 & int1 & (!y2 & (y5 | y6) | y2 & !y5)
        | !y1 & y4 & (y2 ^ y5);
    proof {
        lemma_cover_formula(n);
    }
    if result == 1 {
        Output::Alive
    } else {
        Output::Dead
    }
}

proof fn lemma_cover_agrees(n: usize)
    by (bit_vector)
    ensures
        (n >> 1) & 7 <= 5 ==> ((matches_term(n, 0b010011, 0b000000) || matches_term(
            n,
            0b100001,
            0b000010,
        ) || matches_term(n, 0b100010, 0b000001) || matches_term(n, 0b110000, 0b000001)
            || matches_term(n, 0b000101, 0b011000) || matches_term(n, 0b000110, 0b001001)
            || matches_term(n, 0b010100, 0b001001)) <==> (((n >> 4) & 3) + ((n >> 1) & 7) == 3 || (n
            & 1 == 1 && ((n >> 4) & 3) + ((n >> 1) & 7) == 2))),
{
}

/// On every row of the six-bit table that can occur, the chosen cover
/// gives the class of the row.
pub proof fn lemma_next_gen_agrees(n: usize)
    requires
        count_class(n) != Output::DontCare,
    ensures
        cover_class(n) == count_class(n),
{
    lemma_cover_agrees(n);
}

/// The row of the six-bit table for a 3x3 neighbourhood held in nine bits,
/// as a circuit of adders computes it: the top row is summed into bits 5
/// and 4, the other five neighbours into bits 3 to 1, and the centre cell
/// is bit 0.
pub open spec fn adder_encoding(n: usize) -> usize {
    let a = (n >> 8) & 1;
    let b = (n >> 7) & 1;
    let c = (n >> 6) & 1;
    let d = (n >> 5) & 1;
    let y6 = (n >> 4) & 1;
    let e = (n >> 3) & 1;
    let f = (n >> 2) & 1;
    let g = (n >> 1) & 1;
    let h = n & 1;
    let y1 = (a & (b ^ c)) | (b & c);
    let y2 = a ^ (b ^ c);
    let c2 = (d & (e ^ f)) | (e & f);
    let s2 = d ^ (e ^ f);
    let c3 = g & h;
    let s3 = g ^ h;
    let c4 = s2 & s3;
    let y5 = s2 ^ s3;
    let y3 = (c4 & (c2 ^ c3)) | (c2 & c3);
    let y4 = c4 ^ (c2 ^ c3);
    (y1 << 5) | (y2 << 4) | (y3 << 3) | (y4 << 2) | (y5 << 1) | y6
}

proof fn lemma_adders(n: usize, m: usize, y: usize)
    by (bit_vector)
    requires
        m == n & 0x1ef,
        y == adder_encoding(n),
    ensures
        m < 512,
        (y >> 1) & 7 <= 5,
        (y & 1 == 1) == ((n >> 4) & 1 == 1),
        ((y >> 4) & 3) + ((y >> 1) & 7) == m % 2 + (m / 2) % 2 + (m / 4) % 2 + (m / 8) % 2 + (m
            / 16) % 2 + (m / 32) % 2 + (m / 64) % 2 + (m / 128) % 2 + (m / 256) % 2,
{
}

/// The bit count of a nine-bit word is the sum of its nine bits.
proof fn lemma_bit_count_nine(m: usize)
    requires
        m < 512,
    ensures
        bit_count(m) == m % 2 + (m / 2) % 2 + (m / 4) % 2 + (m / 8) % 2 + (m / 16) % 2 + (m / 32)
            % 2 + (m / 64) % 2 + (m / 128) % 2 + (m / 256) % 2,
{
    let m1: usize = m / 2;
    let m2: usize = m1 / 2;
    let m3: usize = m2 / 2;
    let m4: usize = m3 / 2;
    let m5: usize = m4 / 2;
    let m6: usize = m5 / 2;
    let m7: usize = m6 / 2;
    let m8: usize = m7 / 2;
    assert(bit_count(m8) == m8 % 2) by {
        assert(bit_count(m8 / 2) == 0);
    }
    assert(bit_count(m7) == m7 % 2 + bit_count(m8));
    assert(bit_count(m6) == m6 % 2 + bit_count(m7));
    assert(bit_count(m5) == m5 % 2 + bit_count(m6));
    assert(bit_count(m4) == m4 % 2 + bit_count(m5));
    assert(bit_count(m3) == m3 % 2 + bit_count(m4));
    assert(bit_count(m2) == m2 % 2 + bit_count(m3));
    assert(bit_count(m1) == m1 % 2 + bit_count(m2));
    assert(bit_count(m) == m % 2 + bit_count(m1));
}

/// The adder circuit takes a row of the nine-bit table to a row of the
/// six-bit table that can occur and has the same class.
pub proof fn lemma_adder_encoding(n: usize)
    ensures
        count_class(adder_encoding(n)) == neighborhood_class(n),
        count_class(adder_encoding(n)) != Output::DontCare,
{
    let m = neighbor_cells(n);
    lemma_adders(n, m, adder_encoding(n));
    lemma_bit_count_nine(m);
}

/// Computes the next state of the centre cell of a 3x3 neighbourhood held
/// in nine bits: three rows from bit 8 down, the centre cell in bit 4.
pub fn next_gen_9bit(n: usize) -> (out: Output)
    ensures
        out == neighborhood_class(n),
{
    let a = (n >> 8) & 1;
    let b = (n >> 7) & 1;
    let c = (n >> 6) & 1;
    let d = (n >> 5) & 1;
    let y6 = (n >> 4) & 1;
    let e = (n >> 3) & 1;
    let f = (n >> 2) & 1;
    let g = (n >> 1) & 1;
    let h = n & 1;

    // full adder of the top row
    let b_xor_c = b ^ c;
    let y1 = (a & b_xor_c) | (b & c);
    let y2 = a ^ b_xor_c;

    // full adder of the left, right and two of the bottom cells
    let e_xor_f = e ^ f;
    let c2 = (d & e_xor_f) | (e & f);
    let s2 = d ^ e_xor_f;

    // half adder of the last two bottom cells
    let c3 = g & h;
    let s3 = g ^ h;

    // half adder of the two sums
    let c4 = s2 & s3;
    let y5 = s2 ^ s3;

    // full adder of the carries
    let c2_xor_c3 = c2 ^ c3;
    let y3 = (c4 & c2_xor_c3) | (c2 & c3);
    let y4 = c4 ^ c2_xor_c3;

    proof {
        lemma_adder_encoding(n);
        lemma_next_gen_agrees(adder_encoding(n));
    }
    next_gen((y1 << 5) | (y2 << 4) | (y3 << 3) | (y4 << 2) | (y5 << 1) | y6)
}

} // verus!
