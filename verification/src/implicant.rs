//! Implicants: cubes together with the rows they cover and their
//! bookkeeping during prime-implicant generation.

use vstd::prelude::*;
use vstd::std_specs::cmp::PartialEqSpecImpl;
use vstd::string::StringExecFns;
use crate::bits::{bit_count, count_ones, fits, lemma_bit_count_fits, lemma_bit_count_single,
    lemma_bit_count_zero};
use crate::cube::{lemma_covers_own_ones, lemma_merge_symmetric, lemma_merged, lemma_single_row,
    Cube, MAX_WIDTH};

verus! {

/// A group of truth-table rows that share a pattern over the `width` input
/// bits.
pub struct Implicant {
    width: usize,
    num_ones: usize,
    num_dashes: usize,
    ones: usize,
    dashes: usize,
    care: Option<bool>,
    rows: Vec<usize>,
    used: bool,
    is_final: bool,
}

/// The mathematical value of an [`Implicant`].
pub struct ImplicantView {
    /// Number of input bits of the truth table.
    pub width: usize,
    /// Cached number of bits set in `ones`.
    pub num_ones: nat,
    /// Cached number of bits set in `dashes`.
    pub num_dashes: nat,
    /// Positions fixed to 1.
    pub ones: usize,
    /// Positions left free.
    pub dashes: usize,
    /// For an implicant made from a single row: whether the row is asserted
    /// (`Some(true)`) or don't-care (`Some(false)`); `None` once merged.
    pub care: Option<bool>,
    /// The covered rows, ascending.
    pub rows: Seq<usize>,
    /// Whether the implicant was merged with a sibling of its level.
    pub used: bool,
    /// Whether the implicant is known to be prime.
    pub is_final: bool,
}

/// `s` is strictly increasing.
pub open spec fn increasing(s: Seq<usize>) -> bool {
    forall|i: int, j: int| 0 <= i < j < s.len() ==> s[i] < s[j]
}

impl ImplicantView {
    /// The bit pattern of the implicant.
    pub open spec fn cube(self) -> Cube {
        Cube { ones: self.ones, dashes: self.dashes }
    }

    /// The invariant of an implicant: the pattern is a well-formed cube, the
    /// cached counts are the bit counts of the masks, `rows` lists exactly
    /// the covered rows in ascending order, only single rows carry a care
    /// status, and a final implicant was never merged.
    pub open spec fn wf(self) -> bool {
        &&& self.cube().wf(self.width)
        &&& self.num_ones == bit_count(self.ones)
        &&& self.num_dashes == bit_count(self.dashes)
        &&& self.num_ones + self.num_dashes <= self.width
        &&& increasing(self.rows)
        &&& forall|r: usize| #[trigger] self.rows.contains(r) <==> self.cube().covers(r)
        &&& self.care is Some <==> self.dashes == 0
        &&& !(self.used && self.is_final)
    }

    /// The character that shows bit position `shift` of the pattern: `-`
    /// for a dash, else the bit of `ones`.
    pub open spec fn pattern_char(self, shift: usize) -> char {
        if (self.dashes >> shift) & 1 == 1 {
            '-'
        } else if (self.ones >> shift) & 1 == 1 {
            '1'
        } else {
            '0'
        }
    }

    /// The pattern as `width` characters of `0`, `1` and `-`, the highest
    /// bit first.
    pub open spec fn pattern(self) -> Seq<char> {
        Seq::new(self.width as nat, |i: int| self.pattern_char((self.width - 1 - i) as usize))
    }

    /// The implicant made from the single row `n`.
    pub open spec fn zero_cube(width: usize, n: usize, care: bool) -> ImplicantView {
        ImplicantView {
            width,
            num_ones: bit_count(n),
            num_dashes: 0,
            ones: n,
            dashes: 0,
            care: Some(care),
            rows: seq![n],
            used: false,
            is_final: false,
        }
    }
}

/// The fixed bits in which two implicants differ.
pub open spec fn ones_xor(a: ImplicantView, b: ImplicantView) -> usize {
    (a.ones & !a.dashes) ^ (b.ones & !b.dashes)
}

/// Two implicants can be merged: their counts of ones differ by one, they
/// have the same dashes, and they differ in exactly one fixed bit.
pub open spec fn compatible(a: ImplicantView, b: ImplicantView) -> bool {
    &&& (a.num_ones == b.num_ones + 1 || b.num_ones == a.num_ones + 1)
    &&& a.dashes == b.dashes
    &&& bit_count(ones_xor(a, b)) == 1
}

/// `c` is the implicant that the compatible implicants `a` and `b` merge
/// into: the differing bit has become a dash, the rows are those of `a` and
/// of `b`, and `c` is pending, with no care status.
pub open spec fn is_merge_of(c: ImplicantView, a: ImplicantView, b: ImplicantView) -> bool {
    &&& c.wf()
    &&& c.width == a.width
    &&& c.cube() == a.cube().merged(b.cube())
    &&& c.dashes == a.dashes | ones_xor(a, b)
    &&& c.num_ones == if a.num_ones <= b.num_ones { a.num_ones } else { b.num_ones }
    &&& c.num_dashes == a.num_dashes + 1
    &&& c.care is None
    &&& !c.used
    &&& !c.is_final
    &&& forall|r: usize| #[trigger] c.rows.contains(r) <==> a.rows.contains(r) || b.rows.contains(r)
}

/// What merging `a` with `b` yields: nothing if they are not compatible,
/// else their merge.
pub open spec fn combines_to(a: ImplicantView, b: ImplicantView, r: Option<ImplicantView>) -> bool {
    match r {
        None => !compatible(a, b),
        Some(c) => compatible(a, b) && is_merge_of(c, a, b),
    }
}

/// `a` comes before `b` in listings: by ascending count of ones, then by
/// ascending `ones`, then by ascending `dashes`.
pub open spec fn key_before(a: ImplicantView, b: ImplicantView) -> bool {
    ||| a.num_ones < b.num_ones
    ||| a.num_ones == b.num_ones && a.ones < b.ones
    ||| a.num_ones == b.num_ones && a.ones == b.ones && a.dashes < b.dashes
}

/// The view of an optional implicant.
pub open spec fn option_view(r: Option<Implicant>) -> Option<ImplicantView> {
    match r {
        None => None,
        Some(c) => Some(c@),
    }
}

impl View for Implicant {
    type V = ImplicantView;

    closed spec fn view(&self) -> ImplicantView {
        ImplicantView {
            width: self.width,
            num_ones: self.num_ones as nat,
            num_dashes: self.num_dashes as nat,
            ones: self.ones,
            dashes: self.dashes,
            care: self.care,
            rows: self.rows@,
            used: self.used,
            is_final: self.is_final,
        }
    }
}

/// The implicant of a single row is well-formed.
pub proof fn lemma_zero_cube_wf(width: usize, n: usize, care: bool)
    requires
        width <= MAX_WIDTH,
        fits(n, width),
    ensures
        ImplicantView::zero_cube(width, n, care).wf(),
{
    let z = ImplicantView::zero_cube(width, n, care);
    lemma_bit_count_fits(n, width);
    lemma_single_row(n, width, 0);
    assert forall|r: usize| #[trigger] z.rows.contains(r) <==> z.cube().covers(r) by {
        lemma_single_row(n, width, r);
        if r == n {
            assert(z.rows[0] == r);
        }
    }
}

/// For well-formed implicants of one width, being compatible is being
/// adjacent as cubes.
pub proof fn lemma_compatible_adjacent(a: ImplicantView, b: ImplicantView)
    requires
        a.wf(),
        b.wf(),
        a.width == b.width,
    ensures
        ones_xor(a, b) == a.ones ^ b.ones,
        compatible(a, b) <==> a.cube().adjacent(b.cube()),
{
    lemma_covers_own_ones(a.cube());
    lemma_covers_own_ones(b.cube());
    lemma_bit_count_single(a.ones ^ b.ones);
    if a.cube().adjacent(b.cube()) {
        lemma_merged(a.cube(), b.cube(), a.width);
    }
}

/// Two sequences that are strictly ascending in an order `lt` and hold the
/// same elements are the same sequence.
pub proof fn lemma_ascending_unique<A>(x: Seq<A>, y: Seq<A>, lt: spec_fn(A, A) -> bool)
    requires
        forall|a: A, b: A| #[trigger] lt(a, b) ==> !lt(b, a),
        forall|i: int, j: int| 0 <= i < j < x.len() ==> lt(#[trigger] x[i], #[trigger] x[j]),
        forall|i: int, j: int| 0 <= i < j < y.len() ==> lt(#[trigger] y[i], #[trigger] y[j]),
        forall|i: int| 0 <= i < x.len() ==> y.contains(#[trigger] x[i]),
        forall|j: int| 0 <= j < y.len() ==> x.contains(#[trigger] y[j]),
    ensures
        x == y,
    decreases x.len(),
{
    if x.len() == 0 {
        if y.len() > 0 {
            assert(x.contains(y[0]));
        }
        assert(x =~= y);
    } else {
        let lx = x.last();
        assert(y.contains(x[x.len() - 1]));
        let ly = y.last();
        assert(x.contains(y[y.len() - 1]));
        let j = choose|j: int| 0 <= j < y.len() && y[j] == lx;
        let i = choose|i: int| 0 <= i < x.len() && x[i] == ly;
        if j < y.len() - 1 {
            assert(lt(y[j], y[y.len() - 1]));
            if i < x.len() - 1 {
                assert(lt(x[i], x[x.len() - 1]));
            }
        }
        assert(lx == ly);
        let xs = x.drop_last();
        let ys = y.drop_last();
        assert forall|k: int| 0 <= k < xs.len() implies ys.contains(#[trigger] xs[k]) by {
            assert(y.contains(x[k]));
            let m = choose|m: int| 0 <= m < y.len() && y[m] == x[k];
            assert(lt(x[k], x[x.len() - 1]));
            assert(ys[m] == xs[k]);
        }
        assert forall|k: int| 0 <= k < ys.len() implies xs.contains(#[trigger] ys[k]) by {
            assert(x.contains(y[k]));
            let m = choose|m: int| 0 <= m < x.len() && x[m] == y[k];
            assert(lt(y[k], y[y.len() - 1]));
            assert(xs[m] == ys[k]);
        }
        assert forall|a: int, b: int| 0 <= a < b < xs.len() implies lt(
            #[trigger] xs[a],
            #[trigger] xs[b],
        ) by {
            assert(lt(x[a], x[b]));
        }
        assert forall|a: int, b: int| 0 <= a < b < ys.len() implies lt(
            #[trigger] ys[a],
            #[trigger] ys[b],
        ) by {
            assert(lt(y[a], y[b]));
        }
        lemma_ascending_unique(xs, ys, lt);
        assert(x =~= xs.push(lx));
        assert(y =~= ys.push(ly));
    }
}

/// Two well-formed implicants of one width with the same pattern, care
/// status and flags are the same implicant.
pub proof fn lemma_wf_determined(a: ImplicantView, b: ImplicantView)
    requires
        a.wf(),
        b.wf(),
        a.width == b.width,
        a.cube() == b.cube(),
        a.care == b.care,
        a.used == b.used,
        a.is_final == b.is_final,
    ensures
        a == b,
{
    let lt = |x: usize, y: usize| x < y;
    assert forall|i: int| 0 <= i < a.rows.len() implies b.rows.contains(#[trigger] a.rows[i]) by {
        assert(a.rows.contains(a.rows[i]));
    }
    assert forall|j: int| 0 <= j < b.rows.len() implies a.rows.contains(#[trigger] b.rows[j]) by {
        assert(b.rows.contains(b.rows[j]));
    }
    lemma_ascending_unique(a.rows, b.rows, lt);
}

/// Merging does not depend on the order of the two implicants: what merging
/// `a` with `b` yields is what merging `b` with `a` yields.
pub proof fn lemma_combine_symmetric(
    a: ImplicantView,
    b: ImplicantView,
    ab: Option<ImplicantView>,
    ba: Option<ImplicantView>,
)
    requires
        a.wf(),
        b.wf(),
        a.width == b.width,
        combines_to(a, b, ab),
        combines_to(b, a, ba),
    ensures
        ab == ba,
{
    lemma_compatible_adjacent(a, b);
    lemma_compatible_adjacent(b, a);
    lemma_merge_symmetric(a.cube(), b.cube());
    if compatible(a, b) {
        lemma_wf_determined(ab->0, ba->0);
    }
}

/// Merges two ascending lists of rows into the ascending list of the rows
/// that occur in either.
pub fn merge_rows(a: &Vec<usize>, b: &Vec<usize>) -> (out: Vec<usize>)
    requires
        increasing(a@),
        increasing(b@),
    ensures
        increasing(out@),
        forall|r: usize| #[trigger] out@.contains(r) <==> a@.contains(r) || b@.contains(r),
{
    let mut out: Vec<usize> = Vec::new();
    let mut i: usize = 0;
    let mut j: usize = 0;
    while i < a.len() || j < b.len()
        invariant
            i <= a.len(),
            j <= b.len(),
            increasing(a@),
            increasing(b@),
            increasing(out@),
            forall|k: int| 0 <= k < out.len() && i < a.len() ==> #[trigger] out[k] < a[i as int],
            forall|k: int| 0 <= k < out.len() && j < b.len() ==> #[trigger] out[k] < b[j as int],
            forall|k: int| 0 <= k < out.len() ==> a@.contains(#[trigger] out[k]) || b@.contains(
                out[k],
            ),
            forall|k: int| 0 <= k < i ==> out@.contains(#[trigger] a[k]),
            forall|k: int| 0 <= k < j ==> out@.contains(#[trigger] b[k]),
        decreases (a.len() - i) + (b.len() - j),
    {
        let ghost prev = out@;
        let take_a: bool = j >= b.len() || (i < a.len() && a[i] <= b[j]);
        let x: usize = if take_a { a[i] } else { b[j] };
        let skip_b: bool = take_a && j < b.len() && b[j] == x;
        out.push(x);
        proof {
            assert(out@[prev.len() as int] == x);
            assert forall|k: int| 0 <= k < prev.len() implies out@[k] == prev[k] by {}
            assert forall|k: int| 0 <= k < i implies out@.contains(#[trigger] a[k]) by {
                let p = choose|p: int| 0 <= p < prev.len() && prev[p] == a[k];
                assert(out@[p] == a[k]);
            }
            assert forall|k: int| 0 <= k < j implies out@.contains(#[trigger] b[k]) by {
                let p = choose|p: int| 0 <= p < prev.len() && prev[p] == b[k];
                assert(out@[p] == b[k]);
            }
            if take_a {
                assert(a@[i as int] == x);
            } else {
                assert(b@[j as int] == x);
            }
        }
        if take_a {
            i += 1;
        } else {
            j += 1;
        }
        if skip_b {
            j += 1;
        }
    }
    proof {
        assert forall|r: usize| #[trigger] out@.contains(r) <==> a@.contains(r) || b@.contains(
            r,
        ) by {
            if a@.contains(r) {
                let k = choose|k: int| 0 <= k < a@.len() && a@[k] == r;
                assert(out@.contains(a[k]));
            }
            if b@.contains(r) {
                let k = choose|k: int| 0 <= k < b@.len() && b@[k] == r;
                assert(out@.contains(b[k]));
            }
        }
    }
    out
}

impl Implicant {
    /// Makes the implicant of the single row `n` of a truth table with
    /// `width` input bits; `care` tells an asserted row from a don't-care row.
    pub fn new0cube(width: usize, n: usize, care: bool) -> (imp: Implicant)
        requires
            width <= MAX_WIDTH,
            fits(n, width),
        ensures
            imp@ == ImplicantView::zero_cube(width, n, care),
            imp@.wf(),
    {
        proof {
            lemma_zero_cube_wf(width, n, care);
        }
        let mut rows: Vec<usize> = Vec::new();
        rows.push(n);
        assert(rows@ =~= seq![n]);
        Implicant {
            width,
            num_ones: count_ones(n),
            num_dashes: 0,
            ones: n,
            dashes: 0,
            care: Some(care),
            rows,
            used: false,
            is_final: false,
        }
    }

    /// Merges this implicant with `other` where the two are compatible.
    pub fn combine(&self, other: &Implicant) -> (result: Option<Implicant>)
        requires
            self@.wf(),
            other@.wf(),
            self@.width == other@.width,
        ensures
            combines_to(self@, other@, option_view(result)),
        decreases (if self@.num_ones > other@.num_ones { 1nat } else { 0nat }),
    {
        proof {
            lemma_compatible_adjacent(self@, other@);
            lemma_compatible_adjacent(other@, self@);
            lemma_merge_symmetric(self@.cube(), other@.cube());
        }
        let differ_by_one = self.num_ones == other.num_ones + 1 || other.num_ones == self.num_ones
            + 1;
        if !differ_by_one || self.dashes != other.dashes {
            return None;
        }
        if self.num_ones > other.num_ones {
            let swapped = other.combine(self);
            proof {
                if swapped is Some {
                    assert(is_merge_of(swapped->0@, self@, other@));
                }
            }
            return swapped;
        }
        let ones_xor = (self.ones & !self.dashes) ^ (other.ones & !other.dashes);
        if count_ones(ones_xor) != 1 {
            return None;
        }
        proof {
            lemma_merged(self@.cube(), other@.cube(), self@.width);
        }
        let combined_rows = merge_rows(&self.rows, &other.rows);
        let merged = Implicant {
            width: self.width,
            num_ones: self.num_ones,
            num_dashes: self.num_dashes + 1,
            ones: self.ones,
            dashes: self.dashes | ones_xor,
            care: None,
            rows: combined_rows,
            used: false,
            is_final: false,
        };
        proof {
            let c = merged@;
            let m = self@.cube().merged(other@.cube());
            assert(c.cube() == m);
            assert forall|r: usize| #[trigger] c.rows.contains(r) <==> c.cube().covers(r) by {
                assert(self@.rows.contains(r) <==> self@.cube().covers(r));
                assert(other@.rows.contains(r) <==> other@.cube().covers(r));
                assert(m.covers(r) <==> self@.cube().covers(r) || other@.cube().covers(r));
            }
            lemma_bit_count_single(ones_xor);
            lemma_bit_count_zero(c.dashes);
            assert(is_merge_of(c, self@, other@));
        }
        Some(merged)
    }

    /// Renders the pattern as `width` characters of `0`, `1` and `-`, the
    /// highest bit first.
    pub fn pattern(&self) -> (s: String)
        requires
            self@.wf(),
        ensures
            s@ == self@.pattern(),
    {
        let mut s = String::new();
        let mut k: usize = 0;
        proof {
            reveal_strlit("-");
            reveal_strlit("1");
            reveal_strlit("0");
        }
        while k < self.width
            invariant
                k <= self.width,
                self.width <= MAX_WIDTH,
                "-"@ == seq!['-'],
                "1"@ == seq!['1'],
                "0"@ == seq!['0'],
                s@ == self@.pattern().take(k as int),
            decreases self.width - k,
        {
            let shift: usize = self.width - 1 - k;
            let ghost shown = s@;
            if (self.dashes >> shift) & 1 == 1 {
                s.append("-");
            } else if (self.ones >> shift) & 1 == 1 {
                s.append("1");
            } else {
                s.append("0");
            }
            assert(s@ =~= shown.push(self@.pattern_char(shift)));
            assert(s@ =~= self@.pattern().take(k + 1));
            k += 1;
        }
        assert(s@ =~= self@.pattern());
        s
    }

    /// Tells whether this implicant comes before `other` in listings.
    pub fn precedes(&self, other: &Implicant) -> (before: bool)
        ensures
            before == key_before(self@, other@),
    {
        if self.num_ones != other.num_ones {
            self.num_ones < other.num_ones
        } else if self.ones != other.ones {
            self.ones < other.ones
        } else {
            self.dashes < other.dashes
        }
    }

    /// Records that this implicant was merged with a sibling of its level.
    pub(crate) fn mark_used(&mut self)
        requires
            !old(self)@.is_final,
        ensures
            final(self)@ == (ImplicantView { used: true, ..old(self)@ }),
    {
        self.used = true;
    }

    /// Closes the implicant's level: the implicant is final if it was never
    /// merged.
    pub(crate) fn settle(&mut self)
        ensures
            final(self)@ == (ImplicantView { is_final: !old(self)@.used, ..old(self)@ }),
    {
        self.is_final = !self.used;
    }

    /// Number of input bits of the truth table.
    pub fn width(&self) -> (w: usize)
        ensures
            w == self@.width,
    {
        self.width
    }

    /// Number of positions fixed to 1.
    pub fn num_ones(&self) -> (n: usize)
        ensures
            n == self@.num_ones,
    {
        self.num_ones
    }

    /// Number of free positions.
    pub fn num_dashes(&self) -> (n: usize)
        ensures
            n == self@.num_dashes,
    {
        self.num_dashes
    }

    /// Mask of the positions fixed to 1.
    pub fn ones(&self) -> (m: usize)
        ensures
            m == self@.ones,
    {
        self.ones
    }

    /// Mask of the free positions.
    pub fn dashes(&self) -> (m: usize)
        ensures
            m == self@.dashes,
    {
        self.dashes
    }

    /// Care status of an implicant made from a single row: `Some(true)` for
    /// an asserted row, `Some(false)` for a don't-care row.
    pub fn care(&self) -> (c: Option<bool>)
        ensures
            c == self@.care,
    {
        self.care
    }

    /// The covered rows, ascending.
    pub fn rows(&self) -> (rows: &Vec<usize>)
        ensures
            rows@ == self@.rows,
    {
        &self.rows
    }

    /// Whether the implicant was merged with a sibling of its level.
    pub fn used(&self) -> (u: bool)
        ensures
            u == self@.used,
    {
        self.used
    }

    /// Whether the implicant is known to be prime.
    pub fn is_final(&self) -> (f: bool)
        ensures
            f == self@.is_final,
    {
        self.is_final
    }
}

impl Clone for Implicant {
    /// A copy with the same pattern, rows, care status and flags.
    fn clone(&self) -> (copy: Implicant)
        ensures
            copy@ == self@,
    {
        let rows = self.rows.clone();
        assert(rows@ =~= self.rows@);
        Implicant {
            width: self.width,
            num_ones: self.num_ones,
            num_dashes: self.num_dashes,
            ones: self.ones,
            dashes: self.dashes,
            care: self.care,
            rows,
            used: self.used,
            is_final: self.is_final,
        }
    }
}

impl PartialEq for Implicant {
    /// Two implicants are equal when they have the same pattern.
    fn eq(&self, other: &Implicant) -> (equal: bool) {
        self.ones == other.ones && self.dashes == other.dashes
    }
}

impl PartialEqSpecImpl for Implicant {
    open spec fn obeys_eq_spec() -> bool {
        true
    }

    open spec fn eq_spec(&self, other: &Implicant) -> bool {
        self@.cube() == other@.cube()
    }
}

impl Eq for Implicant {

}

} // verus!
