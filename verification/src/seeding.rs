//! From a classified truth table to the implicants of its single rows, and
//! on to its prime implicants.

use vstd::prelude::*;
use crate::cube::{lemma_cover_within, lemma_covers_own_ones, lemma_row_fits, row_count, Cube,
    MAX_WIDTH};
use crate::engine::{calculate_prime_implicants, covered, is_prime_entry, key_sorted,
    lists_primes};
use crate::implicant::{lemma_zero_cube_wf, Implicant, ImplicantView};
use crate::level::{all_pending, all_wf, common_width, views};
use crate::prime::{is_prime, is_seed_level, seed_rows};
use crate::rules::Output;

verus! {

/// The implicants of the single rows below `n` that are not negated, in
/// ascending order of the rows.
pub open spec fn seeds_below(table: Seq<Output>, width: usize, n: nat) -> Seq<ImplicantView>
    decreases n,
{
    if n == 0 {
        Seq::empty()
    } else {
        let r = (n - 1) as nat;
        let before = seeds_below(table, width, r);
        if table[r as int] == Output::Dead {
            before
        } else {
            before.push(
                ImplicantView::zero_cube(width, r as usize, table[r as int] != Output::DontCare),
            )
        }
    }
}

/// The first level of a classified table: one implicant for each row that
/// is alive or don't-care, in ascending order of the rows.
pub open spec fn seeds_of(table: Seq<Output>, width: usize) -> Seq<ImplicantView> {
    seeds_below(table, width, table.len())
}

/// The seeds of the rows below `n` are well-formed pending single rows in
/// ascending order, one for each row that is not negated.
proof fn lemma_seeds_below(table: Seq<Output>, width: usize, n: nat)
    requires
        width <= MAX_WIDTH,
        table.len() == row_count(width),
        n <= table.len(),
    ensures
        all_wf(seeds_below(table, width, n), width),
        all_pending(seeds_below(table, width, n)),
        forall|i: int|
            0 <= i < seeds_below(table, width, n).len() ==> {
                let s = #[trigger] seeds_below(table, width, n)[i];
                &&& s.ones < n
                &&& table[s.ones as int] != Output::Dead
                &&& s == ImplicantView::zero_cube(
                    width,
                    s.ones,
                    table[s.ones as int] != Output::DontCare,
                )
            },
        forall|i: int, j: int|
            0 <= i < j < seeds_below(table, width, n).len() ==> (#[trigger] seeds_below(
                table,
                width,
                n,
            )[i]).ones < (#[trigger] seeds_below(table, width, n)[j]).ones,
        forall|r: usize|
            r < n && table[r as int] != Output::Dead ==> #[trigger] seed_rows(
                seeds_below(table, width, n),
            ).contains(r),
    decreases n,
{
    if n > 0 {
        let r = (n - 1) as nat;
        let before = seeds_below(table, width, r);
        let now = seeds_below(table, width, n);
        lemma_seeds_below(table, width, r);
        lemma_row_fits(r as usize, width);
        if table[r as int] != Output::Dead {
            let z = ImplicantView::zero_cube(width, r as usize, table[r as int] != Output::DontCare);
            lemma_zero_cube_wf(width, r as usize, table[r as int] != Output::DontCare);
            assert(now == before.push(z));
            assert(now[before.len() as int] == z);
        }
        assert forall|q: usize| q < n && table[q as int] != Output::Dead implies #[trigger] seed_rows(
            now,
        ).contains(q) by {
            if q < r {
                assert(seed_rows(before).contains(q));
                let i = choose|i: int| 0 <= i < before.len() && (#[trigger] before[i]).ones == q;
                assert(now[i].ones == q);
            } else {
                assert(now[before.len() as int].ones == q);
            }
        }
    }
}

/// The seeds of a table are a first level, and their rows are the rows of
/// the table that are not negated.
pub proof fn lemma_seeds_of(table: Seq<Output>, width: usize)
    requires
        width <= MAX_WIDTH,
        table.len() == row_count(width),
    ensures
        is_seed_level(seeds_of(table, width), width),
        forall|r: usize|
            seed_rows(seeds_of(table, width)).contains(r) <==> r < table.len() && table[r as int]
                != Output::Dead,
{
    let seeds = seeds_of(table, width);
    lemma_seeds_below(table, width, table.len());
    assert forall|r: usize| seed_rows(seeds).contains(r) implies r < table.len() && table[r as int]
        != Output::Dead by {
        let i = choose|i: int| 0 <= i < seeds.len() && (#[trigger] seeds[i]).ones == r;
    }
    assert forall|i: int, j: int| 0 <= i < j < seeds.len() implies (#[trigger] seeds[i]).cube() != (
    #[trigger] seeds[j]).cube() by {
        assert(seeds[i].ones < seeds[j].ones);
    }
}

/// Classifies every row of a truth table with `width` input bits, calling
/// `classify` once for each row in ascending order.
pub fn tabulate<F: Fn(usize) -> Output>(width: usize, classify: F) -> (table: Vec<Output>)
    requires
        width <= MAX_WIDTH,
        forall|n: usize| n < row_count(width) ==> call_requires(classify, (n,)),
    ensures
        table.len() == row_count(width),
        forall|n: usize|
            n < row_count(width) ==> call_ensures(classify, (n,), #[trigger] table[n as int]),
{
    let rows: usize = 1usize << width;
    let mut table: Vec<Output> = Vec::new();
    let mut n: usize = 0;
    while n < rows
        invariant
            n <= rows,
            rows == row_count(width),
            table.len() == n,
            forall|k: usize| k < row_count(width) ==> call_requires(classify, (k,)),
            forall|k: usize| k < n ==> call_ensures(classify, (k,), #[trigger] table[k as int]),
        decreases rows - n,
    {
        let value = classify(n);
        table.push(value);
        n += 1;
    }
    table
}

/// Makes the first level of a classified table: one implicant for each row
/// that is alive or don't-care.
pub fn seed_implicants(width: usize, table: &Vec<Output>) -> (zerocubes: Vec<Implicant>)
    requires
        width <= MAX_WIDTH,
        table.len() == row_count(width),
    ensures
        views(zerocubes@) == seeds_of(table@, width),
        is_seed_level(views(zerocubes@), width),
        forall|r: usize|
            seed_rows(views(zerocubes@)).contains(r) <==> r < table.len() && table[r as int]
                != Output::Dead,
{
    let mut zerocubes: Vec<Implicant> = Vec::new();
    let mut n: usize = 0;
    proof {
        lemma_seeds_of(table@, width);
        assert(views(zerocubes@) =~= seeds_below(table@, width, 0));
    }
    while n < table.len()
        invariant
            n <= table.len(),
            width <= MAX_WIDTH,
            table.len() == row_count(width),
            views(zerocubes@) == seeds_below(table@, width, n as nat),
        decreases table.len() - n,
    {
        let value = table[n];
        let ghost before = views(zerocubes@);
        if value == Output::Alive || value == Output::DontCare {
            proof {
                lemma_row_fits(n, width);
            }
            let imp = Implicant::new0cube(width, n, value != Output::DontCare);
            zerocubes.push(imp);
            assert(views(zerocubes@) =~= before.push(
                ImplicantView::zero_cube(width, n, value != Output::DontCare),
            ));
        }
        n += 1;
    }
    zerocubes
}

/// Without seeds there is no prime implicant, whatever the width.
proof fn lemma_no_seeds(primes: Seq<ImplicantView>, seeds: Seq<ImplicantView>, width: usize)
    requires
        seeds.len() == 0,
        lists_primes(primes, seeds, common_width(seeds)),
    ensures
        lists_primes(primes, seeds, width),
{
    if primes.len() > 0 {
        assert(is_prime_entry(primes[0], seeds, common_width(seeds)));
        lemma_covers_own_ones(primes[0].cube());
        assert(seed_rows(seeds).contains(primes[0].ones));
    }
    assert forall|c: Cube| #[trigger] is_prime(c, width, seed_rows(seeds)) implies false by {
        lemma_covers_own_ones(c);
        assert(seed_rows(seeds).contains(c.ones));
    }
}

/// Computes the prime implicants of a classified truth table with `width`
/// input bits, in listing order.  Every row that is not negated is covered
/// by one of them, and none of them covers a negated row.
pub fn prime_implicants(width: usize, table: &Vec<Output>) -> (primes: Vec<Implicant>)
    requires
        width <= MAX_WIDTH,
        table.len() == row_count(width),
    ensures
        lists_primes(views(primes@), seeds_of(table@, width), width),
        key_sorted(views(primes@)),
        forall|r: usize|
            r < table.len() && table[r as int] != Output::Dead ==> #[trigger] covered(
                views(primes@),
                r,
            ),
        forall|j: int, r: usize|
            0 <= j < primes.len() && #[trigger] views(primes@)[j].rows.contains(r) ==> r
                < table.len() && table[r as int] != Output::Dead,
{
    let ghost seeds = seeds_of(table@, width);
    let zerocubes = seed_implicants(width, table);
    proof {
        if seeds.len() > 0 {
            assert(seeds[0].wf());
        }
    }
    let primes = calculate_prime_implicants(zerocubes);
    proof {
        let listed = views(primes@);
        if seeds.len() == 0 {
            lemma_no_seeds(listed, seeds, width);
        }
        assert forall|r: usize|
            r < table.len() && table[r as int] != Output::Dead implies #[trigger] covered(
            listed,
            r,
        ) by {
            assert(seed_rows(seeds).contains(r));
            let i = choose|i: int| 0 <= i < seeds.len() && (#[trigger] seeds[i]).ones == r;
            assert(covered(listed, seeds[i].ones));
        }
        assert forall|j: int, r: usize|
            0 <= j < primes.len() && #[trigger] listed[j].rows.contains(r) implies r < table.len()
            && table[r as int] != Output::Dead by {
            assert(seed_rows(seeds).contains(r));
        }
    }
    primes
}

/// Tells whether an implicant derives purely from don't-care rows: whether
/// every row that it covers is a don't-care row of the table.
pub fn derives_from_dont_care(imp: &Implicant, table: &Vec<Output>) -> (pure: bool)
    requires
        imp@.wf(),
        table.len() == row_count(imp@.width),
    ensures
        pure <==> forall|r: usize| imp@.rows.contains(r) ==> table[r as int] == Output::DontCare,
{
    let rows = imp.rows();
    let mut k: usize = 0;
    while k < rows.len()
        invariant
            k <= rows.len(),
            rows@ == imp@.rows,
            imp@.wf(),
            table.len() == row_count(imp@.width),
            forall|i: int| 0 <= i < k ==> table[(#[trigger] rows[i]) as int] == Output::DontCare,
        decreases rows.len() - k,
    {
        let r = rows[k];
        proof {
            assert(imp@.rows.contains(r));
            assert(imp@.cube().covers(r));
            lemma_cover_within(imp@.cube(), imp@.width, r);
        }
        if table[r] != Output::DontCare {
            return false;
        }
        k += 1;
    }
    true
}

} // verus!
