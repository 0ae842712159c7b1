//! Levels of implicants and the combination round that makes the next level.

use vstd::prelude::*;
use crate::cube::{lemma_merge_symmetric, lemma_symmetric_bits, Cube};
use crate::implicant::{compatible, is_merge_of, lemma_compatible_adjacent, ones_xor, Implicant,
    ImplicantView};

verus! {

/// The views of a sequence of implicants.
pub open spec fn views(s: Seq<Implicant>) -> Seq<ImplicantView> {
    Seq::new(s.len(), |i: int| s[i]@)
}

/// The width that the implicants of a level share; 0 for an empty level.
pub open spec fn common_width(level: Seq<ImplicantView>) -> usize {
    if level.len() > 0 {
        level[0].width
    } else {
        0
    }
}

/// Every implicant of `level` is well-formed and of width `width`.
pub open spec fn all_wf(level: Seq<ImplicantView>, width: usize) -> bool {
    forall|i: int| 0 <= i < level.len() ==> (#[trigger] level[i]).wf() && level[i].width == width
}

/// No implicant of `level` is marked as merged or as final.
pub open spec fn all_pending(level: Seq<ImplicantView>) -> bool {
    forall|i: int| 0 <= i < level.len() ==> !(#[trigger] level[i]).used && !level[i].is_final
}

/// No two implicants of `level` have the same pattern.
pub open spec fn distinct(level: Seq<ImplicantView>) -> bool {
    forall|i: int, j: int|
        0 <= i < j < level.len() ==> (#[trigger] level[i]).cube() != (#[trigger] level[j]).cube()
}

/// `level` holds an implicant with pattern `c`.
pub open spec fn holds(level: Seq<ImplicantView>, c: Cube) -> bool {
    exists|p: int| 0 <= p < level.len() && (#[trigger] level[p]).cube() == c
}

/// The implicant at index `i` of `level` is compatible with some implicant
/// of `level`.
pub open spec fn has_partner(level: Seq<ImplicantView>, i: int) -> bool {
    exists|j: int| 0 <= j < level.len() && compatible(level[i], #[trigger] level[j])
}

/// `c` is the merge of two compatible implicants of `level`.
pub open spec fn merged_from(c: ImplicantView, level: Seq<ImplicantView>) -> bool {
    exists|i: int, j: int|
        0 <= i < level.len() && 0 <= j < level.len() && compatible(
            #[trigger] level[i],
            #[trigger] level[j],
        ) && is_merge_of(c, level[i], level[j])
}

/// `after` is `before` with each implicant settled: marked as merged if it
/// has a partner in its level, and as final if it has none.
pub open spec fn settled(before: Seq<ImplicantView>, after: Seq<ImplicantView>) -> bool {
    &&& after.len() == before.len()
    &&& forall|i: int|
        0 <= i < before.len() ==> #[trigger] after[i] == (ImplicantView {
            used: has_partner(before, i),
            is_final: !has_partner(before, i),
            ..before[i]
        })
}

/// `next` is the level that one combination round makes of `level`: the
/// merges of all compatible pairs, each pattern once.
pub open spec fn next_level(level: Seq<ImplicantView>, next: Seq<ImplicantView>) -> bool {
    &&& distinct(next)
    &&& forall|p: int| 0 <= p < next.len() ==> merged_from(#[trigger] next[p], level)
    &&& forall|i: int, j: int|
        0 <= i < level.len() && 0 <= j < level.len() && compatible(
            #[trigger] level[i],
            #[trigger] level[j],
        ) ==> holds(next, level[i].cube().merged(level[j].cube()))
}

/// The pair `(a, b)` comes before the pair `(i, j)` in a round over `n`
/// implicants.
spec fn pair_done(a: int, b: int, i: int, j: int, n: int) -> bool {
    0 <= a < b < n && (a < i || (a == i && b < j))
}

/// Settles every implicant of `level`: one that was never merged becomes
/// final.
pub fn settle_level(level: &mut Vec<Implicant>)
    ensures
        final(level).len() == old(level).len(),
        forall|u: int|
            0 <= u < old(level).len() ==> #[trigger] views(final(level)@)[u] == (ImplicantView {
                is_final: !views(old(level)@)[u].used,
                ..views(old(level)@)[u]
            }),
{
    let ghost marks = views(level@);
    let n = level.len();
    let mut t: usize = 0;
    while t < n
        invariant
            t <= n,
            n == marks.len(),
            n == level.len(),
            forall|u: int| t <= u < n ==> #[trigger] views(level@)[u] == marks[u],
            forall|u: int|
                0 <= u < t ==> #[trigger] views(level@)[u] == (ImplicantView {
                    is_final: !marks[u].used,
                    ..marks[u]
                }),
        decreases n - t,
    {
        let ghost cur = views(level@);
        level[t].settle();
        assert(views(level@) =~= cur.update(
            t as int,
            ImplicantView { is_final: !cur[t as int].used, ..cur[t as int] },
        ));
        t += 1;
    }
}

/// Tells whether `list` holds an implicant with the pattern of `imp`.
fn holds_pattern(list: &Vec<Implicant>, imp: &Implicant) -> (found: bool)
    ensures
        found <==> holds(views(list@), imp@.cube()),
{
    let mut k: usize = 0;
    while k < list.len()
        invariant
            k <= list.len(),
            forall|p: int| 0 <= p < k ==> (#[trigger] views(list@)[p]).cube() != imp@.cube(),
        decreases list.len() - k,
    {
        if list[k] == *imp {
            assert(views(list@)[k as int].cube() == imp@.cube());
            return true;
        }
        k += 1;
    }
    false
}

/// Appending an implicant keeps every pattern that `list` holds.
proof fn lemma_holds_push(list: Seq<ImplicantView>, x: ImplicantView, c: Cube)
    requires
        holds(list, c) || x.cube() == c,
    ensures
        holds(list.push(x), c),
{
    if holds(list, c) {
        let p = choose|p: int| 0 <= p < list.len() && (#[trigger] list[p]).cube() == c;
        assert(list.push(x)[p].cube() == c);
    } else {
        assert(list.push(x)[list.len() as int].cube() == c);
    }
}

/// What one round has done when it is about to look at the pair `(i, j)`:
/// only merge marks of `level` have changed, a mark stands for a partner,
/// every compatible pair before `(i, j)` is marked and its merge is in
/// `next`, and `next` holds only merges of pairs of the level, each pattern
/// once.
spec fn round_inv(
    before: Seq<ImplicantView>,
    level: Seq<ImplicantView>,
    next: Seq<ImplicantView>,
    i: int,
    j: int,
) -> bool {
    &&& level.len() == before.len()
    &&& forall|t: int|
        0 <= t < before.len() ==> #[trigger] level[t] == (ImplicantView {
            used: level[t].used,
            ..before[t]
        })
    &&& forall|t: int| 0 <= t < before.len() && (#[trigger] level[t]).used ==> has_partner(before, t)
    &&& forall|a: int, b: int| #[trigger]
        pair_done(a, b, i, j, before.len() as int) && compatible(before[a], before[b])
            ==> level[a].used && level[b].used && holds(
            next,
            before[a].cube().merged(before[b].cube()),
        )
    &&& distinct(next)
    &&& forall|p: int| 0 <= p < next.len() ==> merged_from(#[trigger] next[p], before)
}

/// Runs one combination round on `level`: merges every compatible pair,
/// keeps each merged pattern once, and settles the implicants of `level`.
pub fn combine_level(level: &mut Vec<Implicant>) -> (next: Vec<Implicant>)
    requires
        all_wf(views(old(level)@), common_width(views(old(level)@))),
        all_pending(views(old(level)@)),
    ensures
        settled(views(old(level)@), views(final(level)@)),
        next_level(views(old(level)@), views(next@)),
{
    let ghost before = views(level@);
    let n = level.len();
    let mut next: Vec<Implicant> = Vec::new();
    let mut i: usize = 0;
    while i < n
        invariant
            i <= n,
            n == before.len(),
            all_wf(before, common_width(before)),
            all_pending(before),
            round_inv(before, views(level@), views(next@), i as int, 0),
        decreases n - i,
    {
        let mut j: usize = i + 1;
        assert forall|a: int, b: int| #[trigger]
            pair_done(a, b, i as int, j as int, n as int) implies pair_done(
            a,
            b,
            i as int,
            0,
            n as int,
        ) by {}
        while j < n
            invariant
                i < j <= n,
                n == before.len(),
                all_wf(before, common_width(before)),
                all_pending(before),
                round_inv(before, views(level@), views(next@), i as int, j as int),
            decreases n - j,
        {
            let ghost marks = views(level@);
            let ghost found = views(next@);
            assert(marks[i as int].wf() && marks[j as int].wf()) by {
                assert(before[i as int].wf() && before[j as int].wf());
            }
            let merged = level[i].combine(&level[j]);
            proof {
                assert(compatible(marks[i as int], marks[j as int]) == compatible(
                    before[i as int],
                    before[j as int],
                ));
            }
            match merged {
                Some(imp_new) => {
                    level[i].mark_used();
                    let ghost marks1 = views(level@);
                    assert(marks1 =~= marks.update(
                        i as int,
                        ImplicantView { used: true, ..marks[i as int] },
                    ));
                    level[j].mark_used();
                    assert(views(level@) =~= marks1.update(
                        j as int,
                        ImplicantView { used: true, ..marks[j as int] },
                    ));
                    let dup = holds_pattern(&next, &imp_new);
                    if !dup {
                        next.push(imp_new);
                    }
                    proof {
                        let c = imp_new@;
                        assert(is_merge_of(c, before[i as int], before[j as int]));
                        assert(merged_from(c, before));
                        assert(views(next@) =~= if dup { found } else { found.push(c) });
                        lemma_round_step(
                            before,
                            marks,
                            found,
                            i as int,
                            j as int,
                            c,
                            views(level@),
                            views(next@),
                        );
                    }
                },
                None => {
                    proof {
                        assert forall|a: int, b: int| #[trigger]
                            pair_done(a, b, i as int, j + 1, n as int) && compatible(
                                before[a],
                                before[b],
                            ) implies pair_done(a, b, i as int, j as int, n as int) by {}
                    }
                },
            }
            j += 1;
        }
        proof {
            assert forall|a: int, b: int| #[trigger]
                pair_done(a, b, i + 1, 0, n as int) implies pair_done(
                a,
                b,
                i as int,
                n as int,
                n as int,
            ) by {}
        }
        i += 1;
    }
    let ghost marks = views(level@);
    settle_level(level);
    proof {
        lemma_round_done(before, marks, views(next@));
        assert(settled(before, views(level@)));
    }
    next
}

/// One step of a round: the pair `(i, j)` is compatible, both are marked,
/// and the merge `c` is appended to `found` unless its pattern is there.
proof fn lemma_round_step(
    before: Seq<ImplicantView>,
    marks: Seq<ImplicantView>,
    found: Seq<ImplicantView>,
    i: int,
    j: int,
    c: ImplicantView,
    marks2: Seq<ImplicantView>,
    found2: Seq<ImplicantView>,
)
    requires
        0 <= i < j < before.len(),
        round_inv(before, marks, found, i, j),
        compatible(before[i], before[j]),
        is_merge_of(c, before[i], before[j]),
        marks2 == marks.update(i, ImplicantView { used: true, ..marks[i] }).update(
            j,
            ImplicantView { used: true, ..marks[j] },
        ),
        found2 == if holds(found, c.cube()) { found } else { found.push(c) },
    ensures
        round_inv(before, marks2, found2, i, j + 1),
{
    let n = before.len() as int;
    assert(merged_from(c, before));
    assert(has_partner(before, i));
    lemma_compatible_symmetric(before[i], before[j]);
    assert(has_partner(before, j));
    assert forall|a: int, b: int| #[trigger]
        pair_done(a, b, i, j + 1, n) && compatible(before[a], before[b]) implies marks2[a].used
        && marks2[b].used && holds(found2, before[a].cube().merged(before[b].cube())) by {
        let m = before[a].cube().merged(before[b].cube());
        if a == i && b == j {
            if !holds(found, c.cube()) {
                lemma_holds_push(found, c, m);
            }
        } else {
            assert(pair_done(a, b, i, j, n));
            if !holds(found, c.cube()) {
                lemma_holds_push(found, c, m);
            }
        }
    }
    if !holds(found, c.cube()) {
        assert forall|p: int, q: int| 0 <= p < q < found2.len() implies (#[trigger] found2[p]).cube()
            != (#[trigger] found2[q]).cube() by {
            if q == found.len() {
                assert(found[p].cube() != c.cube());
            } else {
                assert(found2[p] == found[p] && found2[q] == found[q]);
            }
        }
        assert forall|p: int| 0 <= p < found2.len() implies merged_from(
            #[trigger] found2[p],
            before,
        ) by {
            if p < found.len() {
                assert(found2[p] == found[p]);
            }
        }
    }
}

/// Being compatible does not depend on the order of the two implicants.
pub proof fn lemma_compatible_symmetric(a: ImplicantView, b: ImplicantView)
    ensures
        compatible(a, b) == compatible(b, a),
        ones_xor(a, b) == ones_xor(b, a),
{
    lemma_symmetric_bits(a.ones & !a.dashes, b.ones & !b.dashes);
}

/// The end of a round: every pair was looked at, so the marks tell who has
/// a partner and `next` is the next level.
proof fn lemma_round_done(
    before: Seq<ImplicantView>,
    marks: Seq<ImplicantView>,
    next: Seq<ImplicantView>,
)
    requires
        all_wf(before, common_width(before)),
        round_inv(before, marks, next, before.len() as int, 0),
    ensures
        forall|t: int| 0 <= t < before.len() ==> (#[trigger] marks[t]).used == has_partner(before, t),
        next_level(before, next),
{
    let n = before.len() as int;
    assert forall|a: int, b: int|
        0 <= a < n && 0 <= b < n && compatible(
            #[trigger] before[a],
            #[trigger] before[b],
        ) implies marks[a].used && marks[b].used && holds(
        next,
        before[a].cube().merged(before[b].cube()),
    ) by {
        lemma_compatible_symmetric(before[a], before[b]);
        lemma_compatible_adjacent(before[a], before[b]);
        lemma_merge_symmetric(before[a].cube(), before[b].cube());
        if a < b {
            assert(pair_done(a, b, n, 0, n));
        } else if b < a {
            assert(pair_done(b, a, n, 0, n));
        } else {
            lemma_never_self_compatible(before[a]);
        }
    }
    assert forall|t: int| 0 <= t < n implies (#[trigger] marks[t]).used == has_partner(before, t) by {
        if has_partner(before, t) {
            let u = choose|u: int| 0 <= u < n && compatible(before[t], #[trigger] before[u]);
            assert(compatible(before[t], before[u]));
        }
    }
}

/// No implicant is compatible with itself.
pub proof fn lemma_never_self_compatible(a: ImplicantView)
    ensures
        !compatible(a, a),
{
}

} // verus!
