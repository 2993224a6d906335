//! Numbering the lines of an input as they are shown.

use crate::text::{chars_of, decimal, is_space, pad_left, push_padded_decimal, space};
use vstd::prelude::*;

verus! {

/// Whether a line is blank: nothing but white space.
pub open spec fn is_blank(s: Seq<char>) -> bool {
    forall|i: int| 0 <= i < s.len() ==> is_space(#[trigger] s[i])
}

/// Numbers the lines of an input as they are shown.
pub struct LineNumbering {
    number: bool,
    number_nonblank: bool,
    line_number: u64,
}

/// A numbered line: the number right-aligned in six columns, a tab, then
/// the line.
pub open spec fn numbered(n: nat, line: Seq<char>) -> Seq<char> {
    pad_left(decimal(n), 6) + "\t"@ + line
}

fn blank(s: &str) -> (r: bool)
    ensures
        r == is_blank(s@),
{
    let cs = chars_of(s);
    let mut i: usize = 0;
    while i < cs.len()
        invariant
            cs@ == s@,
            i <= cs@.len(),
            forall|k: int| 0 <= k < i ==> is_space(#[trigger] cs@[k]),
        decreases cs@.len() - i,
    {
        if !space(cs[i]) {
            return false;
        }
        i = i + 1;
    }
    true
}

impl LineNumbering {
    /// Number of lines counted so far.
    pub closed spec fn spec_line_number(&self) -> nat {
        self.line_number as nat
    }

    /// Whether every line is numbered.
    pub closed spec fn spec_number(&self) -> bool {
        self.number
    }

    /// Whether non-blank lines are numbered.
    pub closed spec fn spec_number_nonblank(&self) -> bool {
        self.number_nonblank
    }

    /// Numbering of every line (`number`), or of the non-blank lines only
    /// (`number_nonblank`), or none.
    pub fn new(number: bool, number_nonblank: bool) -> (r: Self)
        ensures
            r.spec_number() == number,
            r.spec_number_nonblank() == number_nonblank,
            r.spec_line_number() == 0,
    {
        LineNumbering { number, number_nonblank, line_number: 0 }
    }

    /// Number of lines counted so far.
    pub fn line_number(&self) -> (r: u64)
        ensures
            r == self.spec_line_number(),
    {
        self.line_number
    }

    /// The text shown for the next line (without its line break). With
    /// `number_nonblank` a blank line is shown empty and not counted; every
    /// other line is counted, and shown with its number when numbering.
    pub fn render(&mut self, line: &str) -> (r: String)
        requires
            old(self).spec_line_number() < u64::MAX,
        ensures
            final(self).spec_number() == old(self).spec_number(),
            final(self).spec_number_nonblank() == old(self).spec_number_nonblank(),
            is_blank(line@) && old(self).spec_number_nonblank() ==> {
                &&& r@ == Seq::<char>::empty()
                &&& final(self).spec_line_number() == old(self).spec_line_number()
            },
            !(is_blank(line@) && old(self).spec_number_nonblank()) ==> {
                &&& final(self).spec_line_number() == old(self).spec_line_number() + 1
                &&& r@ == if old(self).spec_number() || old(self).spec_number_nonblank() {
                    numbered(final(self).spec_line_number(), line@)
                } else {
                    line@
                }
            },
    {
        if self.number_nonblank && blank(line) {
            return String::new();
        }
        self.line_number = self.line_number + 1;
        if self.number || self.number_nonblank {
            let mut s = String::new();
            push_padded_decimal(&mut s, self.line_number, 6);
            s.append("\t");
            s.append(line);
            proof {
                assert(s@ =~= numbered(self.line_number as nat, line@));
            }
            s
        } else {
            line.to_owned()
        }
    }
}

} // verus!
