//! The text of an implicant in a report.

use vstd::prelude::*;
use vstd::string::StringExecFns;
use crate::implicant::{Implicant, ImplicantView};

verus! {

/// The character of the decimal digit `d`.
pub open spec fn digit_char(d: nat) -> char {
    if d == 0 {
        '0'
    } else if d == 1 {
        '1'
    } else if d == 2 {
        '2'
    } else if d == 3 {
        '3'
    } else if d == 4 {
        '4'
    } else if d == 5 {
        '5'
    } else if d == 6 {
        '6'
    } else if d == 7 {
        '7'
    } else if d == 8 {
        '8'
    } else {
        '9'
    }
}

/// The decimal digits of `n`, without leading zeros.
pub open spec fn decimal(n: nat) -> Seq<char>
    decreases n,
{
    if n < 10 {
        seq![digit_char(n)]
    } else {
        decimal(n / 10).push(digit_char(n % 10))
    }
}

/// The rows of a group, each in decimal and followed by a comma.
pub open spec fn row_list(rows: Seq<usize>) -> Seq<char>
    decreases rows.len(),
{
    if rows.len() == 0 {
        Seq::empty()
    } else {
        row_list(rows.drop_last()) + decimal(rows.last() as nat).push(',')
    }
}

impl ImplicantView {
    /// The covered rows as a minterm expression: `m5` for the single row 5,
    /// `m(4,5,)` for the rows 4 and 5.
    pub open spec fn minterms(self) -> Seq<char> {
        if self.rows.len() == 1 {
            seq!['m'] + decimal(self.rows[0] as nat)
        } else {
            seq!['m', '('] + row_list(self.rows).push(')')
        }
    }

    /// The mark of an implicant that was never merged: a star.
    pub open spec fn star(self) -> Seq<char> {
        if self.used {
            seq![' ']
        } else {
            seq!['*']
        }
    }

    /// The note on an implicant made from a single don't-care row.
    pub open spec fn care_note(self) -> Seq<char> {
        if self.care == Some(false) {
            " DONTCARE"@
        } else {
            Seq::empty()
        }
    }

    /// The line that reports the implicant: the counts of ones and dashes,
    /// the pattern, a star if it was never merged, its rows, and a note if
    /// it is a single don't-care row.
    pub open spec fn line(self) -> Seq<char> {
        "Implicant( 1s:"@ + decimal(self.num_ones) + " -s:"@ + decimal(self.num_dashes).push(' ')
            + self.pattern() + self.star().push(' ') + self.minterms() + self.care_note() + " )"@
    }
}

/// Renders `n` in decimal.
pub fn decimal_string(n: usize) -> (s: String)
    ensures
        s@ == decimal(n as nat),
    decreases n,
{
    let mut s = if n < 10 {
        String::new()
    } else {
        decimal_string(n / 10)
    };
    let d = n % 10;
    let ghost shown = s@;
    proof {
        reveal_strlit("0");
        reveal_strlit("1");
        reveal_strlit("2");
        reveal_strlit("3");
        reveal_strlit("4");
        reveal_strlit("5");
        reveal_strlit("6");
        reveal_strlit("7");
        reveal_strlit("8");
        reveal_strlit("9");
    }
    if d == 0 {
        s.append("0");
    } else if d == 1 {
        s.append("1");
    } else if d == 2 {
        s.append("2");
    } else if d == 3 {
        s.append("3");
    } else if d == 4 {
        s.append("4");
    } else if d == 5 {
        s.append("5");
    } else if d == 6 {
        s.append("6");
    } else if d == 7 {
        s.append("7");
    } else if d == 8 {
        s.append("8");
    } else {
        s.append("9");
    }
    assert(s@ =~= shown.push(digit_char(d as nat)));
    s
}

impl Implicant {
    /// Renders the covered rows as a minterm expression.
    pub fn minterms(&self) -> (s: String)
        ensures
            s@ == self@.minterms(),
    {
        let rows = self.rows();
        let mut s = String::new();
        proof {
            reveal_strlit("m");
            reveal_strlit("m(");
            reveal_strlit(",");
            reveal_strlit(")");
        }
        if rows.len() == 1 {
            s.append("m");
            let number = decimal_string(rows[0]);
            s.append(number.as_str());
            assert(s@ =~= self@.minterms());
        } else {
            s.append("m(");
            let mut k: usize = 0;
            assert(rows@.take(0) =~= Seq::<usize>::empty());
            while k < rows.len()
                invariant
                    k <= rows.len(),
                    rows@ == self@.rows,
                    ","@ == seq![','],
                    s@ == seq!['m', '('] + row_list(rows@.take(k as int)),
                decreases rows.len() - k,
            {
                let ghost shown = s@;
                let number = decimal_string(rows[k]);
                s.append(number.as_str());
                s.append(",");
                proof {
                    let longer = rows@.take(k + 1);
                    assert(longer.drop_last() =~= rows@.take(k as int));
                    assert(longer.last() == rows[k as int]);
                    assert(s@ =~= seq!['m', '('] + row_list(longer));
                }
                k += 1;
            }
            assert(rows@.take(k as int) =~= rows@);
            s.append(")");
            assert(s@ =~= self@.minterms());
        }
        s
    }

    /// Renders the line that reports the implicant.
    pub fn to_string(&self) -> (s: String)
        requires
            self@.wf(),
        ensures
            s@ == self@.line(),
    {
        proof {
            reveal_strlit(" ");
            reveal_strlit("*");
        }
        let mut s = String::new();
        s.append("Implicant( 1s:");
        let ones = decimal_string(self.num_ones());
        s.append(ones.as_str());
        s.append(" -s:");
        let dashes = decimal_string(self.num_dashes());
        s.append(dashes.as_str());
        s.append(" ");
        let pattern = self.pattern();
        s.append(pattern.as_str());
        if !self.used() {
            s.append("*");
        } else {
            s.append(" ");
        }
        s.append(" ");
        let rows = self.minterms();
        s.append(rows.as_str());
        let care = self.care();
        let dont_care = match care {
            Some(c) => !c,
            None => false,
        };
        if dont_care {
            s.append(" DONTCARE");
        }
        s.append(" )");
        assert(s@ =~= self@.line());
        s
    }
}

} // verus!
