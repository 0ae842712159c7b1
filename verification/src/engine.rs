//! The prime-implicant engine: combination rounds from the single rows up,
//! collecting the implicants that no round could merge.

use vstd::prelude::*;
use crate::bits::{bit_count, lemma_bit_count_zero};
use crate::cube::{lemma_covers_own_ones, Cube};
use crate::implicant::{compatible, key_before, lemma_ascending_unique, lemma_compatible_adjacent,
    lemma_wf_determined, Implicant, ImplicantView};
use crate::level::{combine_level, common_width, distinct, has_partner, holds, settle_level,
    settled, views};
use crate::prime::{is_full_level, is_implicant, is_prime, is_seed_level, lemma_dashes_bounded,
    lemma_extends_to_prime, lemma_levels_downward, lemma_next_level_full, lemma_partner_iff_not_prime,
    lemma_seed_level_full, lemma_top_level_prime, level_is_empty, seed_rows};

verus! {

/// `p` stands in a list of prime implicants of `seeds`: it is well-formed,
/// final, never merged, its pattern is a prime implicant of the seeded rows,
/// and if it is a single row it is the seed of that row, made final.
pub open spec fn is_prime_entry(p: ImplicantView, seeds: Seq<ImplicantView>, width: usize) -> bool {
    &&& p.wf()
    &&& p.width == width
    &&& p.is_final
    &&& !p.used
    &&& is_prime(p.cube(), width, seed_rows(seeds))
    &&& p.dashes == 0 ==> exists|i: int|
        0 <= i < seeds.len() && p == (ImplicantView { is_final: true, ..#[trigger] seeds[i] })
}

/// `primes` lists the prime implicants of `seeds`: every entry is one, each
/// pattern stands once, and no prime implicant is missing.
pub open spec fn lists_primes(
    primes: Seq<ImplicantView>,
    seeds: Seq<ImplicantView>,
    width: usize,
) -> bool {
    &&& distinct(primes)
    &&& forall|j: int| 0 <= j < primes.len() ==> is_prime_entry(#[trigger] primes[j], seeds, width)
    &&& forall|c: Cube| #[trigger] is_prime(c, width, seed_rows(seeds)) ==> holds(primes, c)
}

/// `primes` lists the prime implicants of `seeds` that have fewer than `k`
/// dashes.
spec fn lists_primes_below(
    primes: Seq<ImplicantView>,
    seeds: Seq<ImplicantView>,
    width: usize,
    k: nat,
) -> bool {
    &&& distinct(primes)
    &&& forall|j: int|
        0 <= j < primes.len() ==> is_prime_entry(#[trigger] primes[j], seeds, width)
            && primes[j].num_dashes < k
    &&& forall|c: Cube| #[trigger]
        is_prime(c, width, seed_rows(seeds)) && bit_count(c.dashes) < k ==> holds(primes, c)
}

/// The number of combination rounds that the rows of `seeds` take: one for
/// each number of dashes below `width` that some implicant has.
pub open spec fn is_round_count(rounds: nat, seeds: Seq<ImplicantView>, width: usize) -> bool {
    &&& rounds <= width
    &&& forall|k: nat| k < rounds ==> !#[trigger] level_is_empty(k, width, seed_rows(seeds))
    &&& rounds < width ==> level_is_empty(rounds, width, seed_rows(seeds))
}

/// `x` is a final implicant of `level` at index `from` or later.
spec fn final_from(level: Seq<ImplicantView>, x: ImplicantView, from: int) -> bool {
    exists|t: int| from <= t < level.len() && (#[trigger] level[t]).is_final && level[t] == x
}

/// `x` stands in `list` at index `from` or later.
spec fn listed_from(list: Seq<ImplicantView>, x: ImplicantView, from: int) -> bool {
    exists|p: int| from <= p < list.len() && #[trigger] list[p] == x
}

/// What moving the final implicants of the settled level `marked` to the
/// end of `found` has given in `now`.
spec fn collected(
    marked: Seq<ImplicantView>,
    found: Seq<ImplicantView>,
    now: Seq<ImplicantView>,
) -> bool {
    &&& distinct(now)
    &&& now.len() >= found.len()
    &&& forall|p: int| 0 <= p < found.len() ==> #[trigger] now[p] == found[p]
    &&& forall|p: int| found.len() <= p < now.len() ==> final_from(marked, #[trigger] now[p], 0)
    &&& forall|t: int|
        0 <= t < marked.len() && (#[trigger] marked[t]).is_final ==> listed_from(
            now,
            marked[t],
            found.len() as int,
        )
}

/// Moves the final implicants of a settled level to the end of `primes`.
fn collect_finals(level: Vec<Implicant>, primes: &mut Vec<Implicant>)
    requires
        distinct(views(level@)),
        distinct(views(old(primes)@)),
        forall|p: int, t: int|
            0 <= p < old(primes).len() && 0 <= t < level.len() ==> (#[trigger] views(
                old(primes)@,
            )[p]).cube() != (#[trigger] views(level@)[t]).cube(),
    ensures
        collected(views(level@), views(old(primes)@), views(final(primes)@)),
{
    let ghost settled_level = views(level@);
    let ghost before = views(primes@);
    let mut rest = level;
    while rest.len() > 0
        invariant
            distinct(settled_level),
            distinct(before),
            forall|p: int, t: int|
                0 <= p < before.len() && 0 <= t < settled_level.len() ==> (#[trigger] before[p]).cube()
                    != (#[trigger] settled_level[t]).cube(),
            rest.len() <= settled_level.len(),
            forall|t: int| 0 <= t < rest.len() ==> #[trigger] views(rest@)[t] == settled_level[t],
            distinct(views(primes@)),
            primes.len() >= before.len(),
            forall|p: int| 0 <= p < before.len() ==> #[trigger] views(primes@)[p] == before[p],
            forall|p: int|
                before.len() <= p < primes.len() ==> final_from(
                    settled_level,
                    #[trigger] views(primes@)[p],
                    rest.len() as int,
                ),
            forall|t: int|
                rest.len() <= t < settled_level.len() && (#[trigger] settled_level[t]).is_final
                    ==> listed_from(views(primes@), settled_level[t], before.len() as int),
        decreases rest.len(),
    {
        let ghost found = views(primes@);
        let ghost last = rest.len() - 1;
        assert(views(rest@)[last] == settled_level[last]);
        let ghost longer = rest@;
        let imp = rest.pop().unwrap();
        assert(imp@ == settled_level[last]);
        assert forall|t: int| 0 <= t < rest.len() implies #[trigger] views(rest@)[t]
            == settled_level[t] by {
            assert(rest@[t] == longer[t]);
            assert(views(longer)[t] == settled_level[t]);
        }
        if imp.is_final() {
            primes.push(imp);
            proof {
                let now = views(primes@);
                assert(now =~= found.push(settled_level[last]));
                assert forall|p: int, q: int| 0 <= p < q < now.len() implies (#[trigger] now[p]).cube()
                    != (#[trigger] now[q]).cube() by {
                    if q == found.len() {
                        if p >= before.len() {
                            assert(final_from(settled_level, found[p], last + 1));
                            let t = choose|t: int|
                                last + 1 <= t < settled_level.len() && (
                                #[trigger] settled_level[t]).is_final && settled_level[t]
                                    == found[p];
                            assert(settled_level[last].cube() != settled_level[t].cube());
                        } else {
                            assert(found[p] == before[p]);
                        }
                    } else {
                        assert(now[p] == found[p] && now[q] == found[q]);
                    }
                }
                assert forall|t: int|
                    last <= t < settled_level.len() && (
                    #[trigger] settled_level[t]).is_final implies listed_from(
                    now,
                    settled_level[t],
                    before.len() as int,
                ) by {
                    if t == last {
                        assert(now[found.len() as int] == settled_level[t]);
                    } else {
                        let p = choose|p: int|
                            before.len() <= p < found.len() && #[trigger] found[p]
                                == settled_level[t];
                        assert(now[p] == settled_level[t]);
                    }
                }
                assert forall|p: int| before.len() <= p < now.len() implies final_from(
                    settled_level,
                    #[trigger] now[p],
                    last,
                ) by {
                    if p < found.len() {
                        assert(now[p] == found[p]);
                        assert(final_from(settled_level, found[p], last + 1));
                        let t = choose|t: int|
                            last + 1 <= t < settled_level.len() && (
                            #[trigger] settled_level[t]).is_final && settled_level[t] == found[p];
                        assert(settled_level[t].is_final && settled_level[t] == now[p]);
                    } else {
                        assert(settled_level[last].is_final && settled_level[last] == now[p]);
                    }
                }
            }
        } else {
            proof {
                assert forall|p: int| before.len() <= p < found.len() implies final_from(
                    settled_level,
                    #[trigger] found[p],
                    last,
                ) by {
                    assert(final_from(settled_level, found[p], last + 1));
                    let t = choose|t: int|
                        last + 1 <= t < settled_level.len() && (
                        #[trigger] settled_level[t]).is_final && settled_level[t] == found[p];
                    assert(settled_level[t].is_final && settled_level[t] == found[p]);
                }
            }
        }
    }
}

/// Settling the full level with `k` dashes and collecting its final
/// implicants extends a list of the prime implicants with fewer than `k`
/// dashes to those with at most `k`.
proof fn lemma_round_collect(
    seeds: Seq<ImplicantView>,
    width: usize,
    k: nat,
    level: Seq<ImplicantView>,
    marked: Seq<ImplicantView>,
    found: Seq<ImplicantView>,
    now: Seq<ImplicantView>,
)
    requires
        is_seed_level(seeds, width),
        is_full_level(level, k, width, seed_rows(seeds)),
        k == 0 ==> level == seeds,
        settled(level, marked),
        lists_primes_below(found, seeds, width, k),
        collected(marked, found, now),
    ensures
        lists_primes_below(now, seeds, width, k + 1),
{
    let rows = seed_rows(seeds);
    assert forall|j: int| 0 <= j < now.len() implies is_prime_entry(
        #[trigger] now[j],
        seeds,
        width,
    ) && now[j].num_dashes < k + 1 by {
        if j < found.len() {
            assert(now[j] == found[j]);
        } else {
            assert(final_from(marked, now[j], 0));
            let t = choose|t: int|
                0 <= t < marked.len() && (#[trigger] marked[t]).is_final && marked[t] == now[j];
            assert(level[t].wf());
            lemma_partner_iff_not_prime(level, k, width, rows, t);
            if k == 0 {
                assert(now[j] == (ImplicantView { is_final: true, ..seeds[t] }));
            } else {
                lemma_bit_count_zero(now[j].dashes);
            }
        }
    }
    assert forall|c: Cube| #[trigger]
        is_prime(c, width, rows) && bit_count(c.dashes) < k + 1 implies holds(now, c) by {
        if bit_count(c.dashes) < k {
            assert(holds(found, c));
            let p = choose|p: int| 0 <= p < found.len() && (#[trigger] found[p]).cube() == c;
            assert(now[p].cube() == c);
        } else {
            assert(holds(level, c));
            let t = choose|t: int| 0 <= t < level.len() && (#[trigger] level[t]).cube() == c;
            lemma_partner_iff_not_prime(level, k, width, rows, t);
            assert(marked[t].is_final);
            assert(listed_from(now, marked[t], found.len() as int));
            let p = choose|p: int| found.len() <= p < now.len() && #[trigger] now[p] == marked[t];
            assert(now[p].cube() == c);
        }
    }
}

/// What `collect_finals` needs of a settled level: its patterns are
/// distinct and none of them is in the list of primes with fewer dashes.
proof fn lemma_level_apart(
    seeds: Seq<ImplicantView>,
    width: usize,
    k: nat,
    level: Seq<ImplicantView>,
    marked: Seq<ImplicantView>,
    found: Seq<ImplicantView>,
)
    requires
        is_full_level(level, k, width, seed_rows(seeds)),
        marked.len() == level.len(),
        forall|t: int| 0 <= t < level.len() ==> (#[trigger] marked[t]).cube() == level[t].cube(),
        lists_primes_below(found, seeds, width, k),
    ensures
        distinct(marked),
        forall|p: int, t: int|
            0 <= p < found.len() && 0 <= t < marked.len() ==> (#[trigger] found[p]).cube() != (
            #[trigger] marked[t]).cube(),
{
    assert forall|i: int, j: int| 0 <= i < j < marked.len() implies (#[trigger] marked[i]).cube()
        != (#[trigger] marked[j]).cube() by {
        assert(level[i].cube() != level[j].cube());
    }
    assert forall|p: int, t: int| 0 <= p < found.len() && 0 <= t < marked.len() implies (
    #[trigger] found[p]).cube() != (#[trigger] marked[t]).cube() by {
        assert(is_prime_entry(found[p], seeds, width));
        assert(level[t].wf());
        assert(found[p].num_dashes < level[t].num_dashes);
    }
}

/// When the level with `k` dashes is empty, or `k` is the width, the prime
/// implicants with at most `k` dashes are all there are.
proof fn lemma_rounds_complete(
    seeds: Seq<ImplicantView>,
    width: usize,
    k: nat,
    level: Seq<ImplicantView>,
    primes: Seq<ImplicantView>,
)
    requires
        is_full_level(level, k, width, seed_rows(seeds)),
        level.len() == 0 || k == width,
        lists_primes_below(primes, seeds, width, k + 1),
    ensures
        lists_primes(primes, seeds, width),
        level.len() == 0 ==> level_is_empty(k, width, seed_rows(seeds)),
{
    let rows = seed_rows(seeds);
    if level.len() == 0 {
        assert forall|c: Cube| #[trigger] is_implicant(c, width, rows) implies bit_count(c.dashes)
            != k by {
            if bit_count(c.dashes) == k {
                assert(holds(level, c));
            }
        }
    }
    assert forall|c: Cube| #[trigger] is_prime(c, width, rows) implies holds(primes, c) by {
        lemma_dashes_bounded(c, width);
        if level.len() == 0 && bit_count(c.dashes) >= k {
            let d = lemma_levels_downward(c, width, rows, k);
            assert(holds(level, d));
        }
    }
}

/// Runs the combination rounds on the implicants of the single rows and
/// collects the prime implicants, in the order in which their levels were
/// settled.  Returns them with the number of rounds that were run.
pub fn run_rounds(zerocubes: Vec<Implicant>) -> (out: (Vec<Implicant>, usize))
    requires
        is_seed_level(views(zerocubes@), common_width(views(zerocubes@))),
    ensures
        lists_primes(views(out.0@), views(zerocubes@), common_width(views(zerocubes@))),
        is_round_count(out.1 as nat, views(zerocubes@), common_width(views(zerocubes@))),
{
    let ghost seeds = views(zerocubes@);
    let ghost width = common_width(seeds);
    let ghost rows = seed_rows(seeds);
    let w: usize = if zerocubes.len() > 0 {
        zerocubes[0].width()
    } else {
        0
    };
    let mut primes: Vec<Implicant> = Vec::new();
    let mut level = zerocubes;
    let mut rounds: usize = 0;
    proof {
        lemma_seed_level_full(seeds, width);
    }
    while rounds < w && level.len() > 0
        invariant
            w == width,
            rows == seed_rows(seeds),
            is_seed_level(seeds, width),
            rounds <= w,
            is_full_level(views(level@), rounds as nat, width, rows),
            rounds == 0 ==> views(level@) == seeds,
            lists_primes_below(views(primes@), seeds, width, rounds as nat),
            forall|k: nat| k < rounds ==> !#[trigger] level_is_empty(k, width, rows),
        decreases w - rounds,
    {
        let ghost before = views(level@);
        let ghost found = views(primes@);
        assert(before[0].wf());
        let next = combine_level(&mut level);
        proof {
            lemma_level_apart(seeds, width, rounds as nat, before, views(level@), found);
        }
        let ghost marked = views(level@);
        collect_finals(level, &mut primes);
        proof {
            lemma_round_collect(seeds, width, rounds as nat, before, marked, found, views(primes@));
            lemma_next_level_full(before, views(next@), rounds as nat, width, rows);
            assert(is_implicant(before[0].cube(), width, rows));
            assert(!level_is_empty(rounds as nat, width, rows));
        }
        level = next;
        rounds += 1;
    }
    let ghost before = views(level@);
    let ghost found = views(primes@);
    settle_level(&mut level);
    let ghost marked = views(level@);
    proof {
        assert forall|t: int| 0 <= t < before.len() implies #[trigger] marked[t] == (ImplicantView {
            used: has_partner(before, t),
            is_final: !has_partner(before, t),
            ..before[t]
        }) by {
            lemma_top_level_prime(before[t].cube(), width, rows);
            lemma_partner_iff_not_prime(before, rounds as nat, width, rows, t);
        }
        assert(settled(before, marked));
        lemma_level_apart(seeds, width, rounds as nat, before, marked, found);
    }
    collect_finals(level, &mut primes);
    proof {
        lemma_round_collect(seeds, width, rounds as nat, before, marked, found, views(primes@));
        lemma_rounds_complete(seeds, width, rounds as nat, before, views(primes@));
    }
    (primes, rounds)
}

/// `list` is in listing order: no implicant comes before an earlier one.
pub open spec fn key_sorted(list: Seq<ImplicantView>) -> bool {
    forall|i: int, j: int|
        0 <= i < j < list.len() ==> !key_before(#[trigger] list[j], #[trigger] list[i])
}

/// An empty sequence has the empty multiset of elements.
proof fn lemma_empty_multiset(s: Seq<ImplicantView>)
    requires
        s.len() == 0,
    ensures
        s.to_multiset() == vstd::multiset::Multiset::<ImplicantView>::empty(),
{
    vstd::seq_lib::to_multiset_len(s);
    vstd::multiset::lemma_multiset_empty_len(s.to_multiset());
}

/// Sorts implicants into listing order: by ascending count of ones, then by
/// ascending `ones`, then by ascending `dashes`.
pub fn sort_implicants(list: Vec<Implicant>) -> (sorted: Vec<Implicant>)
    ensures
        key_sorted(views(sorted@)),
        views(sorted@).to_multiset() == views(list@).to_multiset(),
{
    broadcast use vstd::multiset::group_multiset_axioms;

    let ghost orig = views(list@);
    let mut rest = list;
    let mut sorted: Vec<Implicant> = Vec::new();
    proof {
        lemma_empty_multiset(views(sorted@));
        assert(views(sorted@).to_multiset().add(orig.to_multiset()) =~= orig.to_multiset());
    }
    while rest.len() > 0
        invariant
            key_sorted(views(sorted@)),
            views(sorted@).to_multiset().add(views(rest@).to_multiset()) == orig.to_multiset(),
        decreases rest.len(),
    {
        let ghost longer = views(rest@);
        let ghost placed = views(sorted@);
        let imp = rest.pop().unwrap();
        assert(longer =~= views(rest@).push(imp@));
        let mut p: usize = 0;
        while p < sorted.len() && sorted[p].precedes(&imp)
            invariant
                p <= sorted.len(),
                placed == views(sorted@),
                forall|q: int| 0 <= q < p ==> key_before(#[trigger] placed[q], imp@),
            decreases sorted.len() - p,
        {
            p += 1;
        }
        let ghost x = imp@;
        sorted.insert(p, imp);
        proof {
            let now = views(sorted@);
            assert(now =~= placed.insert(p as int, x));
            assert forall|i: int, j: int| 0 <= i < j < now.len() implies !key_before(
                #[trigger] now[j],
                #[trigger] now[i],
            ) by {
                if p < placed.len() {
                    assert(!key_before(placed[p as int], x));
                }
                if j < p {
                    assert(now[i] == placed[i] && now[j] == placed[j]);
                } else if j == p {
                    assert(now[i] == placed[i]);
                } else if i < p {
                    assert(now[i] == placed[i] && now[j] == placed[j - 1]);
                } else if i == p {
                    assert(now[j] == placed[j - 1]);
                    assert(p == j - 1 || !key_before(placed[j - 1], placed[p as int]));
                } else {
                    assert(now[i] == placed[i - 1] && now[j] == placed[j - 1]);
                }
            }
            vstd::seq_lib::to_multiset_build(views(rest@), x);
            vstd::seq_lib::to_multiset_insert(placed, p as int, x);
            assert(now.to_multiset().add(views(rest@).to_multiset()) =~= placed.to_multiset().add(
                longer.to_multiset(),
            ));
        }
    }
    proof {
        lemma_empty_multiset(views(rest@));
        assert(views(sorted@).to_multiset().add(views(rest@).to_multiset()) =~= views(
            sorted@,
        ).to_multiset());
    }
    sorted
}

/// Two entries of lists of the prime implicants of `seeds` that have the
/// same pattern are the same implicant.
proof fn lemma_entry_determined(
    a: ImplicantView,
    b: ImplicantView,
    seeds: Seq<ImplicantView>,
    width: usize,
)
    requires
        is_seed_level(seeds, width),
        is_prime_entry(a, seeds, width),
        is_prime_entry(b, seeds, width),
        a.cube() == b.cube(),
    ensures
        a == b,
{
    if a.dashes == 0 {
        let i = choose|i: int|
            0 <= i < seeds.len() && a == (ImplicantView { is_final: true, ..#[trigger] seeds[i] });
        let j = choose|j: int|
            0 <= j < seeds.len() && b == (ImplicantView { is_final: true, ..#[trigger] seeds[j] });
        if i < j {
            assert(seeds[i].cube() != seeds[j].cube());
        } else if j < i {
            assert(seeds[j].cube() != seeds[i].cube());
        }
    }
    lemma_wf_determined(a, b);
}

/// Sequences with the same multiset of elements have the same members.
proof fn lemma_same_members(x: Seq<ImplicantView>, y: Seq<ImplicantView>, a: ImplicantView)
    requires
        x.to_multiset() == y.to_multiset(),
        x.contains(a),
    ensures
        y.contains(a),
{
    vstd::seq_lib::to_multiset_contains(x, a);
    vstd::seq_lib::to_multiset_contains(y, a);
}

/// A list with the same entries as a list of the prime implicants, in
/// another order, lists the prime implicants too.
proof fn lemma_permuted_listing(
    found: Seq<ImplicantView>,
    sorted: Seq<ImplicantView>,
    seeds: Seq<ImplicantView>,
    width: usize,
)
    requires
        lists_primes(found, seeds, width),
        sorted.to_multiset() == found.to_multiset(),
    ensures
        lists_primes(sorted, seeds, width),
{
    assert forall|j: int| 0 <= j < sorted.len() implies is_prime_entry(
        #[trigger] sorted[j],
        seeds,
        width,
    ) by {
        assert(sorted.contains(sorted[j]));
        lemma_same_members(sorted, found, sorted[j]);
    }
    assert forall|c: Cube| #[trigger] is_prime(c, width, seed_rows(seeds)) implies holds(
        sorted,
        c,
    ) by {
        let i = choose|i: int| 0 <= i < found.len() && (#[trigger] found[i]).cube() == c;
        assert(found.contains(found[i]));
        lemma_same_members(found, sorted, found[i]);
        let j = choose|j: int| 0 <= j < sorted.len() && sorted[j] == found[i];
        assert(sorted[j].cube() == c);
    }
    assert forall|i: int, j: int| 0 <= i < j < found.len() implies found[i] != found[j] by {
        assert(found[i].cube() != found[j].cube());
    }
    assert(found.no_duplicates());
    found.lemma_multiset_has_no_duplicates();
    sorted.lemma_multiset_has_no_duplicates_conv();
    assert forall|i: int, j: int| 0 <= i < j < sorted.len() implies (#[trigger] sorted[i]).cube()
        != (#[trigger] sorted[j]).cube() by {
        if sorted[i].cube() == sorted[j].cube() {
            assert(sorted.contains(sorted[i]));
            assert(sorted.contains(sorted[j]));
            lemma_same_members(sorted, found, sorted[i]);
            lemma_same_members(sorted, found, sorted[j]);
            let a = choose|a: int| 0 <= a < found.len() && found[a] == sorted[i];
            let b = choose|b: int| 0 <= b < found.len() && found[b] == sorted[j];
            if a < b {
                assert(found[a].cube() != found[b].cube());
            } else if b < a {
                assert(found[b].cube() != found[a].cube());
            }
        }
    }
}

/// Some implicant of `primes` covers row `r`.
pub open spec fn covered(primes: Seq<ImplicantView>, r: usize) -> bool {
    exists|j: int| 0 <= j < primes.len() && (#[trigger] primes[j]).rows.contains(r)
}

/// Computes the prime implicants of the rows that `zerocubes` were made
/// from, in listing order.  Every seeded row is covered by one of them,
/// none of them covers another row, and no two of them can be merged.
pub fn calculate_prime_implicants(zerocubes: Vec<Implicant>) -> (primes: Vec<Implicant>)
    requires
        is_seed_level(views(zerocubes@), common_width(views(zerocubes@))),
    ensures
        lists_primes(views(primes@), views(zerocubes@), common_width(views(zerocubes@))),
        key_sorted(views(primes@)),
        forall|i: int|
            0 <= i < zerocubes.len() ==> covered(
                views(primes@),
                (#[trigger] views(zerocubes@)[i]).ones,
            ),
        forall|j: int, r: usize|
            0 <= j < primes.len() && #[trigger] views(primes@)[j].rows.contains(r) ==> seed_rows(
                views(zerocubes@),
            ).contains(r),
        forall|i: int, j: int|
            0 <= i < primes.len() && 0 <= j < primes.len() ==> !compatible(
                #[trigger] views(primes@)[i],
                #[trigger] views(primes@)[j],
            ),
{
    let ghost seeds = views(zerocubes@);
    let ghost width = common_width(seeds);
    let (found, _rounds) = run_rounds(zerocubes);
    let ghost unsorted = views(found@);
    let primes = sort_implicants(found);
    proof {
        let listed = views(primes@);
        lemma_permuted_listing(unsorted, listed, seeds, width);
        assert forall|i: int| 0 <= i < seeds.len() implies covered(
            listed,
            (#[trigger] seeds[i]).ones,
        ) by {
            let j = lemma_coverage(listed, seeds, width, i);
        }
        assert forall|j: int, r: usize|
            0 <= j < listed.len() && #[trigger] listed[j].rows.contains(r) implies seed_rows(
            seeds,
        ).contains(r) by {
            lemma_no_false_coverage(listed, seeds, width, j, r);
        }
        assert forall|i: int, j: int| 0 <= i < listed.len() && 0 <= j < listed.len() implies !compatible(
            #[trigger] listed[i],
            #[trigger] listed[j],
        ) by {
            lemma_primes_not_compatible(listed, seeds, width, i, j);
        }
    }
    primes
}

/// Every seeded row is covered by a prime implicant of the list.
pub proof fn lemma_coverage(
    primes: Seq<ImplicantView>,
    seeds: Seq<ImplicantView>,
    width: usize,
    i: int,
) -> (j: int)
    requires
        is_seed_level(seeds, width),
        lists_primes(primes, seeds, width),
        0 <= i < seeds.len(),
    ensures
        0 <= j < primes.len(),
        primes[j].rows.contains(seeds[i].ones),
{
    let rows = seed_rows(seeds);
    lemma_seed_level_full(seeds, width);
    let c = seeds[i].cube();
    assert(is_implicant(c, width, rows));
    let p = lemma_extends_to_prime(c, width, rows);
    assert(seeds[i].wf());
    lemma_covers_own_ones(c);
    assert(p.covers(seeds[i].ones));
    assert(holds(primes, p));
    let j = choose|j: int| 0 <= j < primes.len() && (#[trigger] primes[j]).cube() == p;
    assert(is_prime_entry(primes[j], seeds, width));
    j
}

/// A prime implicant of the list covers only seeded rows.
pub proof fn lemma_no_false_coverage(
    primes: Seq<ImplicantView>,
    seeds: Seq<ImplicantView>,
    width: usize,
    j: int,
    r: usize,
)
    requires
        lists_primes(primes, seeds, width),
        0 <= j < primes.len(),
        primes[j].rows.contains(r),
    ensures
        seed_rows(seeds).contains(r),
        exists|i: int| 0 <= i < seeds.len() && (#[trigger] seeds[i]).ones == r,
{
    assert(is_prime_entry(primes[j], seeds, width));
    assert(primes[j].cube().covers(r));
}

/// No two implicants of a list of the prime implicants can be merged.
pub proof fn lemma_primes_not_compatible(
    primes: Seq<ImplicantView>,
    seeds: Seq<ImplicantView>,
    width: usize,
    i: int,
    j: int,
)
    requires
        lists_primes(primes, seeds, width),
        0 <= i < primes.len(),
        0 <= j < primes.len(),
    ensures
        !compatible(primes[i], primes[j]),
{
    assert(is_prime_entry(primes[i], seeds, width));
    assert(is_prime_entry(primes[j], seeds, width));
    lemma_compatible_adjacent(primes[i], primes[j]);
}

/// The list of the prime implicants in listing order is unique: two of them
/// for the same seeds are equal, entry by entry.
pub proof fn lemma_listing_unique(
    first: Seq<ImplicantView>,
    second: Seq<ImplicantView>,
    seeds: Seq<ImplicantView>,
    width: usize,
)
    requires
        is_seed_level(seeds, width),
        lists_primes(first, seeds, width),
        key_sorted(first),
        lists_primes(second, seeds, width),
        key_sorted(second),
    ensures
        first == second,
{
    let lt = |a: ImplicantView, b: ImplicantView| key_before(a, b);
    lemma_strictly_sorted(first, seeds, width);
    lemma_strictly_sorted(second, seeds, width);
    assert forall|i: int| 0 <= i < first.len() implies second.contains(#[trigger] first[i]) by {
        assert(is_prime_entry(first[i], seeds, width));
        assert(holds(second, first[i].cube()));
        let j = choose|j: int|
            0 <= j < second.len() && (#[trigger] second[j]).cube() == first[i].cube();
        lemma_entry_determined(first[i], second[j], seeds, width);
    }
    assert forall|j: int| 0 <= j < second.len() implies first.contains(#[trigger] second[j]) by {
        assert(is_prime_entry(second[j], seeds, width));
        assert(holds(first, second[j].cube()));
        let i = choose|i: int|
            0 <= i < first.len() && (#[trigger] first[i]).cube() == second[j].cube();
        lemma_entry_determined(first[i], second[j], seeds, width);
    }
    lemma_ascending_unique(first, second, lt);
}

/// In a sorted list of the prime implicants every entry comes strictly
/// before the later ones.
proof fn lemma_strictly_sorted(list: Seq<ImplicantView>, seeds: Seq<ImplicantView>, width: usize)
    requires
        lists_primes(list, seeds, width),
        key_sorted(list),
    ensures
        forall|i: int, j: int|
            0 <= i < j < list.len() ==> key_before(#[trigger] list[i], #[trigger] list[j]),
{
    assert forall|i: int, j: int| 0 <= i < j < list.len() implies key_before(
        #[trigger] list[i],
        #[trigger] list[j],
    ) by {
        assert(is_prime_entry(list[i], seeds, width));
        assert(is_prime_entry(list[j], seeds, width));
        assert(list[i].cube() != list[j].cube());
        assert(!key_before(list[j], list[i]));
    }
}

/// A list of the prime implicants does not depend on the order of the
/// seeds: it lists the prime implicants of any sequence with the same seeds.
pub proof fn lemma_listing_ignores_seed_order(
    primes: Seq<ImplicantView>,
    seeds: Seq<ImplicantView>,
    reordered: Seq<ImplicantView>,
    width: usize,
)
    requires
        lists_primes(primes, seeds, width),
        forall|i: int| 0 <= i < seeds.len() ==> reordered.contains(#[trigger] seeds[i]),
        forall|j: int| 0 <= j < reordered.len() ==> seeds.contains(#[trigger] reordered[j]),
    ensures
        lists_primes(primes, reordered, width),
{
    assert forall|r: usize| seed_rows(seeds).contains(r) == seed_rows(reordered).contains(r) by {
        if seed_rows(seeds).contains(r) {
            let i = choose|i: int| 0 <= i < seeds.len() && (#[trigger] seeds[i]).ones == r;
            assert(reordered.contains(seeds[i]));
            let j = choose|j: int| 0 <= j < reordered.len() && reordered[j] == seeds[i];
            assert(reordered[j].ones == r);
        }
        if seed_rows(reordered).contains(r) {
            let j = choose|j: int| 0 <= j < reordered.len() && (#[trigger] reordered[j]).ones == r;
            assert(seeds.contains(reordered[j]));
            let i = choose|i: int| 0 <= i < seeds.len() && seeds[i] == reordered[j];
            assert(seeds[i].ones == r);
        }
    }
    assert(seed_rows(seeds) =~= seed_rows(reordered));
    assert forall|k: int| 0 <= k < primes.len() implies is_prime_entry(
        #[trigger] primes[k],
        reordered,
        width,
    ) by {
        assert(is_prime_entry(primes[k], seeds, width));
        if primes[k].dashes == 0 {
            let i = choose|i: int|
                0 <= i < seeds.len() && primes[k] == (ImplicantView {
                    is_final: true,
                    ..#[trigger] seeds[i]
                });
            assert(reordered.contains(seeds[i]));
            let j = choose|j: int| 0 <= j < reordered.len() && reordered[j] == seeds[i];
            assert(primes[k] == (ImplicantView { is_final: true, ..reordered[j] }));
        }
    }
}

/// The number of combination rounds is a function of the seeds: two counts
/// for the same seeds are equal, and neither exceeds the width.
pub proof fn lemma_round_count_unique(
    first: nat,
    second: nat,
    seeds: Seq<ImplicantView>,
    width: usize,
)
    requires
        is_round_count(first, seeds, width),
        is_round_count(second, seeds, width),
    ensures
        first == second,
        first <= width,
{
    if first < second {
        assert(!level_is_empty(first, width, seed_rows(seeds)));
    } else if second < first {
        assert(!level_is_empty(second, width, seed_rows(seeds)));
    }
}

} // verus!
