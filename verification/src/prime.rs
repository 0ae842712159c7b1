//! Implicants and prime implicants of a set of rows, and why combination
//! rounds find them.

use vstd::prelude::*;
use crate::bits::{bit_count, lemma_bit_count_fits, lemma_bit_count_zero};
use crate::cube::{lemma_covers_own_ones, lemma_lowest_bit, lemma_merged, lemma_sibling_within,
    lemma_single_row, lemma_split, lowest_bit, Cube};
use crate::level::{all_pending, all_wf, distinct, has_partner, holds, merged_from, next_level};
use crate::implicant::{compatible, is_merge_of, lemma_compatible_adjacent, ImplicantView};

verus! {

/// `c` is a well-formed cube that covers only rows of `rows`.
pub open spec fn is_implicant(c: Cube, width: usize, rows: Set<usize>) -> bool {
    &&& c.wf(width)
    &&& forall|r: usize| #[trigger] c.covers(r) ==> rows.contains(r)
}

/// `c` is an implicant of `rows` that is adjacent to no implicant of `rows`:
/// it cannot be merged into a larger one.
pub open spec fn is_prime(c: Cube, width: usize, rows: Set<usize>) -> bool {
    &&& is_implicant(c, width, rows)
    &&& forall|o: Cube| #[trigger] c.adjacent(o) ==> !is_implicant(o, width, rows)
}

/// No implicant of `rows` has `k` dashes.
pub open spec fn level_is_empty(k: nat, width: usize, rows: Set<usize>) -> bool {
    forall|c: Cube| #[trigger] is_implicant(c, width, rows) ==> bit_count(c.dashes) != k
}

/// The rows that the implicants of `seeds` were made from.
pub open spec fn seed_rows(seeds: Seq<ImplicantView>) -> Set<usize> {
    Set::new(|r: usize| exists|i: int| 0 <= i < seeds.len() && (#[trigger] seeds[i]).ones == r)
}

/// `seeds` is a first level: well-formed pending implicants of one width,
/// each made from a single row, no row twice.
pub open spec fn is_seed_level(seeds: Seq<ImplicantView>, width: usize) -> bool {
    &&& all_wf(seeds, width)
    &&& all_pending(seeds)
    &&& distinct(seeds)
    &&& forall|i: int| 0 <= i < seeds.len() ==> (#[trigger] seeds[i]).dashes == 0
}

/// `level` holds exactly the implicants of `rows` with `k` dashes, each
/// once and pending.
pub open spec fn is_full_level(
    level: Seq<ImplicantView>,
    k: nat,
    width: usize,
    rows: Set<usize>,
) -> bool {
    &&& all_wf(level, width)
    &&& all_pending(level)
    &&& distinct(level)
    &&& forall|i: int|
        0 <= i < level.len() ==> (#[trigger] level[i]).num_dashes == k && is_implicant(
            level[i].cube(),
            width,
            rows,
        )
    &&& forall|c: Cube| #[trigger]
        is_implicant(c, width, rows) && bit_count(c.dashes) == k ==> holds(level, c)
}

/// A first level is the full level without dashes of its rows.
pub proof fn lemma_seed_level_full(seeds: Seq<ImplicantView>, width: usize)
    requires
        is_seed_level(seeds, width),
    ensures
        is_full_level(seeds, 0, width, seed_rows(seeds)),
{
    let rows = seed_rows(seeds);
    assert forall|i: int| 0 <= i < seeds.len() implies (#[trigger] seeds[i]).num_dashes == 0
        && is_implicant(seeds[i].cube(), width, rows) by {
        assert(seeds[i].wf());
        assert forall|r: usize| #[trigger] seeds[i].cube().covers(r) implies rows.contains(r) by {
            lemma_single_row(seeds[i].ones, width, r);
        }
    }
    assert forall|c: Cube| #[trigger]
        is_implicant(c, width, rows) && bit_count(c.dashes) == 0 implies holds(seeds, c) by {
        lemma_bit_count_zero(c.dashes);
        lemma_covers_own_ones(c);
        let i = choose|i: int| 0 <= i < seeds.len() && (#[trigger] seeds[i]).ones == c.ones;
        assert(seeds[i].cube() == c);
    }
}

/// The merge of two adjacent implicants is an implicant.
pub proof fn lemma_merged_implicant(a: Cube, b: Cube, width: usize, rows: Set<usize>)
    requires
        is_implicant(a, width, rows),
        is_implicant(b, width, rows),
        a.adjacent(b),
    ensures
        is_implicant(a.merged(b), width, rows),
        bit_count(a.merged(b).dashes) == bit_count(a.dashes) + 1,
        bit_count(a.merged(b).dashes) <= width,
{
    lemma_merged(a, b, width);
}

/// An implicant with a dash is the merge of two adjacent implicants with
/// one dash less.
pub proof fn lemma_split_implicant(c: Cube, width: usize, rows: Set<usize>) -> (halves: (Cube, Cube))
    requires
        is_implicant(c, width, rows),
        bit_count(c.dashes) > 0,
    ensures
        is_implicant(halves.0, width, rows),
        is_implicant(halves.1, width, rows),
        halves.0.adjacent(halves.1),
        halves.0.merged(halves.1) == c,
        bit_count(halves.0.dashes) + 1 == bit_count(c.dashes),
        halves.1.dashes == halves.0.dashes,
{
    lemma_bit_count_zero(c.dashes);
    lemma_lowest_bit(c.dashes);
    let bit = lowest_bit(c.dashes);
    lemma_split(c, bit, width);
    let lo = c.lower_half(bit);
    let hi = c.upper_half(bit);
    assert forall|r: usize| #[trigger] lo.covers(r) implies rows.contains(r) by {
        assert(c.covers(r));
    }
    assert forall|r: usize| #[trigger] hi.covers(r) implies rows.contains(r) by {
        assert(c.covers(r));
    }
    (lo, hi)
}

/// One combination round makes the full level with `k` dashes into the full
/// level with `k + 1` dashes.
pub proof fn lemma_next_level_full(
    level: Seq<ImplicantView>,
    next: Seq<ImplicantView>,
    k: nat,
    width: usize,
    rows: Set<usize>,
)
    requires
        is_full_level(level, k, width, rows),
        next_level(level, next),
    ensures
        is_full_level(next, k + 1, width, rows),
{
    assert forall|p: int| 0 <= p < next.len() implies {
        &&& (#[trigger] next[p]).wf()
        &&& next[p].width == width
        &&& !next[p].used
        &&& !next[p].is_final
        &&& next[p].num_dashes == k + 1
        &&& is_implicant(next[p].cube(), width, rows)
    } by {
        assert(merged_from(next[p], level));
        let (i, j) = choose|i: int, j: int|
            0 <= i < level.len() && 0 <= j < level.len() && compatible(
                #[trigger] level[i],
                #[trigger] level[j],
            ) && is_merge_of(next[p], level[i], level[j]);
        lemma_compatible_adjacent(level[i], level[j]);
        lemma_merged_implicant(level[i].cube(), level[j].cube(), width, rows);
    }
    assert forall|c: Cube| #[trigger]
        is_implicant(c, width, rows) && bit_count(c.dashes) == k + 1 implies holds(next, c) by {
        let (lo, hi) = lemma_split_implicant(c, width, rows);
        assert(holds(level, lo));
        assert(holds(level, hi));
        let i = choose|i: int| 0 <= i < level.len() && (#[trigger] level[i]).cube() == lo;
        let j = choose|j: int| 0 <= j < level.len() && (#[trigger] level[j]).cube() == hi;
        lemma_compatible_adjacent(level[i], level[j]);
    }
}

/// In a full level, an implicant has a partner exactly when it is not prime.
pub proof fn lemma_partner_iff_not_prime(
    level: Seq<ImplicantView>,
    k: nat,
    width: usize,
    rows: Set<usize>,
    i: int,
)
    requires
        is_full_level(level, k, width, rows),
        0 <= i < level.len(),
    ensures
        has_partner(level, i) <==> !is_prime(level[i].cube(), width, rows),
{
    let c = level[i].cube();
    if has_partner(level, i) {
        let j = choose|j: int| 0 <= j < level.len() && compatible(level[i], #[trigger] level[j]);
        lemma_compatible_adjacent(level[i], level[j]);
        assert(c.adjacent(level[j].cube()));
        assert(is_implicant(level[j].cube(), width, rows));
    }
    if !is_prime(c, width, rows) {
        let o = choose|o: Cube| #[trigger] c.adjacent(o) && is_implicant(o, width, rows);
        assert(holds(level, o));
        let j = choose|j: int| 0 <= j < level.len() && (#[trigger] level[j]).cube() == o;
        lemma_compatible_adjacent(level[i], level[j]);
        assert(compatible(level[i], level[j]));
    }
}

/// Below an implicant with `m` dashes there is an implicant with `k` dashes,
/// for every `k <= m`.
pub proof fn lemma_levels_downward(c: Cube, width: usize, rows: Set<usize>, k: nat) -> (d: Cube)
    requires
        is_implicant(c, width, rows),
        k <= bit_count(c.dashes),
    ensures
        is_implicant(d, width, rows),
        bit_count(d.dashes) == k,
    decreases bit_count(c.dashes),
{
    if bit_count(c.dashes) == k {
        c
    } else {
        let (lo, hi) = lemma_split_implicant(c, width, rows);
        lemma_levels_downward(lo, width, rows, k)
    }
}

/// No implicant has more dashes than the table has input bits.
pub proof fn lemma_dashes_bounded(c: Cube, width: usize)
    requires
        c.wf(width),
    ensures
        bit_count(c.dashes) <= width,
{
    lemma_bit_count_fits(c.dashes, width);
}

/// An implicant in which every input bit is a dash is prime.
pub proof fn lemma_top_level_prime(c: Cube, width: usize, rows: Set<usize>)
    requires
        is_implicant(c, width, rows),
        bit_count(c.dashes) == width,
    ensures
        is_prime(c, width, rows),
{
    assert forall|o: Cube| #[trigger] c.adjacent(o) implies !is_implicant(o, width, rows) by {
        if is_implicant(o, width, rows) {
            lemma_merged(c, o, width);
        }
    }
}

/// Every implicant lies within a prime implicant.
pub proof fn lemma_extends_to_prime(c: Cube, width: usize, rows: Set<usize>) -> (p: Cube)
    requires
        is_implicant(c, width, rows),
    ensures
        is_prime(p, width, rows),
        forall|r: usize| c.covers(r) ==> #[trigger] p.covers(r),
    decreases width - bit_count(c.dashes),
{
    lemma_dashes_bounded(c, width);
    if is_prime(c, width, rows) {
        c
    } else {
        let o = choose|o: Cube| #[trigger] c.adjacent(o) && is_implicant(o, width, rows);
        lemma_merged_implicant(c, o, width, rows);
        lemma_merged(c, o, width);
        let m = c.merged(o);
        let p = lemma_extends_to_prime(m, width, rows);
        assert forall|r: usize| c.covers(r) implies #[trigger] p.covers(r) by {
            assert(m.covers(r));
        }
        p
    }
}

/// A prime implicant lies within no other implicant.
pub proof fn lemma_prime_is_maximal(c: Cube, o: Cube, width: usize, rows: Set<usize>)
    requires
        is_prime(c, width, rows),
        is_implicant(o, width, rows),
        forall|r: usize| c.covers(r) ==> #[trigger] o.covers(r),
    ensures
        o == c,
{
    if c != o {
        let s = lemma_sibling_within(c, o, width);
        assert forall|r: usize| #[trigger] s.covers(r) implies rows.contains(r) by {
            assert(o.covers(r));
        }
        assert(is_implicant(s, width, rows));
    }
}

/// An implicant that is not prime lies within another implicant.
pub proof fn lemma_not_prime_is_within(c: Cube, width: usize, rows: Set<usize>) -> (o: Cube)
    requires
        is_implicant(c, width, rows),
        !is_prime(c, width, rows),
    ensures
        is_implicant(o, width, rows),
        o != c,
        forall|r: usize| c.covers(r) ==> #[trigger] o.covers(r),
{
    let s = choose|s: Cube| #[trigger] c.adjacent(s) && is_implicant(s, width, rows);
    lemma_merged_implicant(c, s, width, rows);
    lemma_merged(c, s, width);
    let o = c.merged(s);
    assert forall|r: usize| c.covers(r) implies #[trigger] o.covers(r) by {}
    o
}

} // verus!
