//! Merging two sorted inputs into three columns: lines only in the first,
//! only in the second, and in both.

use crate::text::chars_of;
use vstd::prelude::*;

verus! {

/// The text that `str::to_lowercase` makes of a string.
pub uninterp spec fn lower_of(s: Seq<char>) -> Seq<char>;

/// Relies on `str::to_lowercase`: the result depends on the characters
/// alone.
#[verifier::external_body]
fn lowercase(s: &str) -> (r: String)
    ensures
        r@ == lower_of(s@),
{
    s.to_lowercase()
}

/// Where a line of the merged output goes.
#[derive(Debug, Clone, Copy, PartialEq, Eq, Structural)]
pub enum Column {
    /// Only in the first input; the first input moves on.
    Col1,
    /// Only in the second input; the second input moves on.
    Col2,
    /// In both inputs; both move on.
    Col3,
}

/// Lexicographic order of character sequences by code point.
pub open spec fn lex_less(a: Seq<char>, b: Seq<char>) -> bool
    decreases a.len(),
{
    if a.len() == 0 {
        b.len() > 0
    } else if b.len() == 0 {
        false
    } else if a[0] != b[0] {
        (a[0] as u32) < (b[0] as u32)
    } else {
        lex_less(a.drop_first(), b.drop_first())
    }
}

/// The comparison key of a line.
pub open spec fn key(s: Seq<char>, insensitive: bool) -> Seq<char> {
    if insensitive { lower_of(s) } else { s }
}

/// The column and the text of the next output line, given the current line
/// of each input; `None` when both inputs are done. With both lines present
/// the keys are compared, and the key of the chosen line is what is shown.
pub open spec fn step_of(l1: Option<Seq<char>>, l2: Option<Seq<char>>, insensitive: bool) -> Option<
    (Column, Seq<char>),
> {
    match (l1, l2) {
        (Some(a), None) => Some((Column::Col1, a)),
        (None, Some(b)) => Some((Column::Col2, b)),
        (Some(a), Some(b)) => {
            let ka = key(a, insensitive);
            let kb = key(b, insensitive);
            if ka == kb {
                Some((Column::Col3, ka))
            } else if lex_less(ka, kb) {
                Some((Column::Col1, ka))
            } else {
                Some((Column::Col2, kb))
            }
        },
        (None, None) => None,
    }
}

proof fn lemma_lex_skip(a: Seq<char>, b: Seq<char>, i: int)
    requires
        0 <= i < a.len(),
        i < b.len(),
        a[i] == b[i],
    ensures
        lex_less(a.skip(i), b.skip(i)) == lex_less(a.skip(i + 1), b.skip(i + 1)),
{
    assert(a.skip(i).drop_first() =~= a.skip(i + 1));
    assert(b.skip(i).drop_first() =~= b.skip(i + 1));
}

/// Compares two strings: `-1`, `0` or `1` as `a` is before, equal to or
/// after `b`.
fn compare(a: &str, b: &str) -> (r: i8)
    ensures
        r == 0 <==> a@ == b@,
        r < 0 <==> lex_less(a@, b@),
        -1 <= r <= 1,
{
    let ca = chars_of(a);
    let cb = chars_of(b);
    let mut i: usize = 0;
    proof {
        assert(a@.skip(0) =~= a@);
        assert(b@.skip(0) =~= b@);
    }
    while i < ca.len() && i < cb.len() && ca[i] == cb[i]
        invariant
            ca@ == a@,
            cb@ == b@,
            i <= ca@.len(),
            i <= cb@.len(),
            ca@.take(i as int) == cb@.take(i as int),
            lex_less(a@, b@) == lex_less(a@.skip(i as int), b@.skip(i as int)),
        decreases ca@.len() - i,
    {
        proof {
            lemma_lex_skip(a@, b@, i as int);
            assert(ca@.take(i + 1) =~= ca@.take(i as int).push(ca@[i as int]));
            assert(cb@.take(i + 1) =~= cb@.take(i as int).push(cb@[i as int]));
        }
        i = i + 1;
    }
    if i == ca.len() && i == cb.len() {
        proof {
            assert(ca@ =~= ca@.take(i as int));
            assert(cb@ =~= cb@.take(i as int));
        }
        0
    } else if i == ca.len() {
        proof {
            assert(a@.skip(i as int).len() == 0);
            assert(a@ != b@);
        }
        -1
    } else if i == cb.len() {
        proof {
            assert(b@.skip(i as int).len() == 0);
            assert(a@ != b@);
        }
        1
    } else {
        proof {
            assert(a@.skip(i as int)[0] == a@[i as int]);
            assert(b@.skip(i as int)[0] == b@[i as int]);
            assert(a@[i as int] != b@[i as int]);
        }
        if (ca[i] as u32) < (cb[i] as u32) {
            -1
        } else {
            1
        }
    }
}

/// Decides the next output line of the merge of two sorted inputs.
pub fn comm_step(l1: Option<&str>, l2: Option<&str>, insensitive: bool) -> (r: Option<
    (Column, String),
>)
    ensures
        match step_of(
            match l1 { Some(a) => Some(a@), None => None },
            match l2 { Some(b) => Some(b@), None => None },
            insensitive,
        ) {
            Some((c, t)) => r matches Some((rc, rt)) && rc == c && rt@ == t,
            None => r is None,
        },
{
    match (l1, l2) {
        (Some(a), None) => Some((Column::Col1, a.to_owned())),
        (None, Some(b)) => Some((Column::Col2, b.to_owned())),
        (Some(a), Some(b)) => {
            let ka = if insensitive { lowercase(a) } else { a.to_owned() };
            let kb = if insensitive { lowercase(b) } else { b.to_owned() };
            let o = compare(ka.as_str(), kb.as_str());
            if o == 0 {
                Some((Column::Col3, ka))
            } else if o < 0 {
                Some((Column::Col1, ka))
            } else {
                Some((Column::Col2, kb))
            }
        },
        (None, None) => None,
    }
}

/// The cells of an output line: empty cells for the shown columns to the
/// left, then the text; nothing when its own column is hidden.
pub open spec fn cells(col: Column, text: Seq<char>, show1: bool, show2: bool, show3: bool) -> Option<
    Seq<Seq<char>>,
> {
    match col {
        Column::Col1 => if show1 { Some(seq![text]) } else { None },
        Column::Col2 => if show2 {
            Some(if show1 { seq![Seq::empty(), text] } else { seq![text] })
        } else {
            None
        },
        Column::Col3 => if show3 {
            Some(
                (if show1 { seq![Seq::<char>::empty()] } else { Seq::empty() }) + (if show2 {
                    seq![Seq::<char>::empty()]
                } else {
                    Seq::empty()
                }) + seq![text],
            )
        } else {
            None
        },
    }
}

/// `parts` joined with `sep` between each two.
pub open spec fn joined(parts: Seq<Seq<char>>, sep: Seq<char>) -> Seq<char>
    decreases parts.len(),
{
    if parts.len() == 0 {
        Seq::empty()
    } else if parts.len() == 1 {
        parts[0]
    } else {
        joined(parts.drop_last(), sep) + sep + parts.last()
    }
}

/// Lays out one output line; `None` when its column is hidden.
pub fn column_line(
    col: Column,
    text: &str,
    show1: bool,
    show2: bool,
    show3: bool,
    delimiter: &str,
) -> (r: Option<String>)
    ensures
        match cells(col, text@, show1, show2, show3) {
            Some(c) => r matches Some(line) && line@ == joined(c, delimiter@),
            None => r is None,
        },
{
    let lead: usize = match col {
        Column::Col1 => {
            if !show1 {
                return None;
            }
            0
        },
        Column::Col2 => {
            if !show2 {
                return None;
            }
            if show1 { 1 } else { 0 }
        },
        Column::Col3 => {
            if !show3 {
                return None;
            }
            (if show1 { 1usize } else { 0 }) + (if show2 { 1usize } else { 0 })
        },
    };
    let ghost c = cells(col, text@, show1, show2, show3)->0;
    proof {
        assert(c.len() == lead + 1);
        assert(c.last() == text@);
        assert forall|k: int| 0 <= k < lead implies c[k] == Seq::<char>::empty() by {}
    }
    let mut s = String::new();
    let mut i: usize = 0;
    while i < lead
        invariant
            i <= lead,
            c.len() == lead + 1,
            forall|k: int| 0 <= k < lead ==> c[k] == Seq::<char>::empty(),
            i == 0 ==> s@ == Seq::<char>::empty(),
            i > 0 ==> s@ == joined(c.take(i as int), delimiter@) + delimiter@,
        decreases lead - i,
    {
        proof {
            if i > 0 {
                assert(c.take(i + 1).drop_last() =~= c.take(i as int));
            } else {
                assert(joined(c.take(1), delimiter@) == c[0]);
            }
        }
        s.append(delimiter);
        i = i + 1;
        proof {
            assert(c.take(i as int).last() == Seq::<char>::empty());
            assert(s@ =~= joined(c.take(i as int), delimiter@) + delimiter@);
        }
    }
    s.append(text);
    proof {
        if lead > 0 {
            assert(c.drop_last() =~= c.take(lead as int));
        }
        assert(s@ =~= joined(c, delimiter@));
    }
    Some(s)
}

} // verus!
