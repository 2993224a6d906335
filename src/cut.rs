//! Lists of positions (`1,3-5`) and the selection of bytes, characters or
//! fields by them.

use crate::text::{
    all_digits, chars_of, decimal, digits_value, is_digit, lossy_text, parse_unsigned, push_char,
    push_decimal, reads_as_unsigned, to_lossy_text, unsigned_digits,
};
use core::ops::Range;
use vstd::prelude::*;
use vstd::string::StringSliceAdditionalSpecFns;

verus! {

/// What is wrong with a list of positions.
pub enum ListIssue {
    /// A part that is neither a position nor a range; the part itself.
    Illegal(Seq<char>),
    /// A range whose first position is not below its second (1-based).
    Order(nat, nat),
}

/// A list of positions that could not be read.
#[derive(Debug, Clone, PartialEq, Eq)]
pub enum ListError {
    IllegalValue(String),
    BadRange(usize, usize),
}

impl View for ListError {
    type V = ListIssue;

    open spec fn view(&self) -> ListIssue {
        match self {
            ListError::IllegalValue(t) => ListIssue::Illegal(t@),
            ListError::BadRange(a, b) => ListIssue::Order(*a as nat, *b as nat),
        }
    }
}

impl ListError {
    /// The report for this error.
    pub fn message(&self) -> (r: String)
        ensures
            self matches ListError::IllegalValue(t) ==> r@ == "illegal list value: \""@ + t@
                + "\""@,
            self matches ListError::BadRange(a, b) ==> r@ == "First number in range ("@ + decimal(
                *a as nat,
            ) + ") must be lower than second number ("@ + decimal(*b as nat) + ")"@,
    {
        match self {
            ListError::IllegalValue(t) => {
                String::from_str("illegal list value: \"").concat(t.as_str()).concat("\"")
            },
            ListError::BadRange(a, b) => {
                let mut s = String::from_str("First number in range (");
                push_decimal(&mut s, *a as u64);
                s.append(") must be lower than second number (");
                push_decimal(&mut s, *b as u64);
                s.append(")");
                s
            },
        }
    }
}

/// The zero-based index that a 1-based position text denotes: decimal
/// digits only, no sign, at least 1.
pub open spec fn index_of(s: Seq<char>) -> Option<int> {
    if s.len() > 0 && all_digits(s) && 1 <= digits_value(s) <= usize::MAX {
        Some(digits_value(s) - 1)
    } else {
        None
    }
}

/// Whether `s` is two runs of digits joined by a `-` at `p`.
pub open spec fn range_split(s: Seq<char>, p: int) -> bool {
    &&& 0 < p < s.len() - 1
    &&& s[p] == '-'
    &&& all_digits(s.take(p))
    &&& all_digits(s.skip(p + 1))
}

/// What one part of a list means: a half-open range of zero-based indices.
pub open spec fn piece_of(s: Seq<char>) -> Result<(int, int), ListIssue> {
    match index_of(s) {
        Some(n) => Ok((n, n + 1)),
        None => if exists|p: int| range_split(s, p) {
            let p = choose|p: int| range_split(s, p);
            match (index_of(s.take(p)), index_of(s.skip(p + 1))) {
                (None, _) => Err(ListIssue::Illegal(s.take(p))),
                (Some(_), None) => Err(ListIssue::Illegal(s.skip(p + 1))),
                (Some(a), Some(b)) => if a >= b {
                    Err(ListIssue::Order((a + 1) as nat, (b + 1) as nat))
                } else {
                    Ok((a, b + 1))
                },
            }
        } else {
            Err(ListIssue::Illegal(s))
        },
    }
}

/// Index of the first comma of `s`, or its length.
pub open spec fn comma_at(s: Seq<char>) -> nat
    decreases s.len(),
{
    if s.len() == 0 || s[0] == ',' {
        0
    } else {
        1 + comma_at(s.drop_first())
    }
}

/// What a comma-separated list means; the first bad part decides the error.
pub open spec fn list_of(s: Seq<char>) -> Result<Seq<(int, int)>, ListIssue>
    decreases s.len(),
{
    let p = comma_at(s);
    match piece_of(s.take(p as int)) {
        Err(e) => Err(e),
        Ok(r) => if p >= s.len() {
            Ok(seq![r])
        } else {
            match list_of(s.skip(p as int + 1)) {
                Ok(rest) => Ok(seq![r] + rest),
                Err(e) => Err(e),
            }
        },
    }
}

/// A range as a pair of bounds.
pub open spec fn range_view(r: Range<usize>) -> (int, int) {
    (r.start as int, r.end as int)
}

/// Ranges as pairs of bounds.
pub open spec fn ranges_view(v: Seq<Range<usize>>) -> Seq<(int, int)> {
    v.map_values(|r: Range<usize>| range_view(r))
}

proof fn lemma_range_split_unique(s: Seq<char>, p: int, q: int)
    requires
        range_split(s, p),
        range_split(s, q),
    ensures
        p == q,
{
    if p < q {
        assert(s.take(q)[p] == s[p]);
        assert(!is_digit(s[p]));
    } else if q < p {
        assert(s.take(p)[q] == s[q]);
        assert(!is_digit(s[q]));
    }
}

proof fn lemma_comma_at(t: Seq<char>, j: int)
    requires
        0 <= j <= t.len(),
        forall|k: int| 0 <= k < j ==> t[k] != ',',
        j == t.len() || t[j] == ',',
    ensures
        comma_at(t) == j,
    decreases j,
{
    if j > 0 {
        let u = t.drop_first();
        assert forall|k: int| 0 <= k < j - 1 implies u[k] != ',' by {
            assert(u[k] == t[k + 1]);
        }
        if j < t.len() {
            assert(u[j - 1] == t[j]);
        }
        lemma_comma_at(u, j - 1);
    }
}

fn string_of(cs: &Vec<char>, a: usize, b: usize) -> (r: String)
    requires
        a <= b <= cs@.len(),
    ensures
        r@ == cs@.subrange(a as int, b as int),
{
    let mut s = String::new();
    let mut i: usize = a;
    while i < b
        invariant
            a <= i <= b <= cs@.len(),
            s@ == cs@.subrange(a as int, i as int),
        decreases b - i,
    {
        push_char(&mut s, cs[i]);
        i = i + 1;
        proof {
            assert(s@ =~= cs@.subrange(a as int, i as int));
        }
    }
    s
}

fn digits_only(cs: &Vec<char>, a: usize, b: usize) -> (r: bool)
    requires
        a <= b <= cs@.len(),
    ensures
        r == all_digits(cs@.subrange(a as int, b as int)),
{
    let mut i: usize = a;
    while i < b
        invariant
            a <= i <= b <= cs@.len(),
            all_digits(cs@.subrange(a as int, i as int)),
        decreases b - i,
    {
        if !('0' <= cs[i] && cs[i] <= '9') {
            proof {
                assert(cs@.subrange(a as int, b as int)[i - a] == cs@[i as int]);
            }
            return false;
        }
        i = i + 1;
        proof {
            assert forall|k: int| 0 <= k < i - a implies is_digit(
                #[trigger] cs@.subrange(a as int, i as int)[k],
            ) by {
                if k < i - 1 - a {
                    assert(cs@.subrange(a as int, i - 1)[k] == cs@.subrange(a as int, i as int)[k]);
                }
            }
        }
    }
    true
}

/// Reads a 1-based position as a zero-based index.
pub fn parse_index(input: &str) -> (r: Result<usize, ListError>)
    ensures
        r matches Ok(n) ==> index_of(input@) == Some(n as int),
        r matches Err(e) ==> index_of(input@) is None && e@ == ListIssue::Illegal(input@),
{
    if input.unicode_len() > 0 && input.get_char(0) == '+' {
        proof {
            assert(!is_digit(input@[0]));
        }
        return Err(ListError::IllegalValue(input.to_owned()));
    }
    proof {
        assert(unsigned_digits(input@) == input@);
    }
    match parse_unsigned(input, usize::MAX as u64) {
        Some(v) => if v >= 1 {
            Ok((v - 1) as usize)
        } else {
            Err(ListError::IllegalValue(input.to_owned()))
        },
        None => Err(ListError::IllegalValue(input.to_owned())),
    }
}

fn parse_piece(cs: &Vec<char>) -> (r: Result<Range<usize>, ListError>)
    ensures
        r matches Ok(x) ==> piece_of(cs@) == Ok::<(int, int), ListIssue>(range_view(x)),
        r matches Err(e) ==> piece_of(cs@) == Err::<(int, int), ListIssue>(e@),
{
    let len = cs.len();
    let whole = string_of(cs, 0, len);
    proof {
        assert(cs@.subrange(0, len as int) =~= cs@);
    }
    let first_err = match parse_index(whole.as_str()) {
        Ok(n) => {
            return Ok(n..n + 1);
        },
        Err(e) => e,
    };
    let mut p: usize = 0;
    while p < len && cs[p] != '-'
        invariant
            p <= len == cs@.len(),
            forall|k: int| 0 <= k < p ==> cs@[k] != '-',
        decreases len - p,
    {
        p = p + 1;
    }
    let ok_split = p < len && 0 < p && p + 1 < len && digits_only(cs, 0, p) && digits_only(
        cs,
        p + 1,
        len,
    );
    proof {
        if ok_split {
            assert(cs@.take(p as int) =~= cs@.subrange(0, p as int));
            assert(cs@.skip(p + 1) =~= cs@.subrange(p + 1, len as int));
            assert(range_split(cs@, p as int));
        } else {
            assert forall|q: int| !range_split(cs@, q) by {
                if range_split(cs@, q) {
                    if q < p {
                        assert(cs@[q] != '-');
                    } else if q > p {
                        assert(cs@.take(q)[p as int] == cs@[p as int]);
                        assert(!is_digit(cs@[p as int]));
                    } else {
                        assert(cs@.take(p as int) =~= cs@.subrange(0, p as int));
                        assert(cs@.skip(p + 1) =~= cs@.subrange(p + 1, len as int));
                    }
                }
            }
        }
    }
    if !ok_split {
        return Err(first_err);
    }
    proof {
        assert forall|q: int| range_split(cs@, q) implies q == p by {
            lemma_range_split_unique(cs@, p as int, q);
        }
    }
    let left = string_of(cs, 0, p);
    let right = string_of(cs, p + 1, len);
    proof {
        assert(cs@.take(p as int) =~= left@);
        assert(cs@.skip(p + 1) =~= right@);
    }
    let n1 = match parse_index(left.as_str()) {
        Ok(n) => n,
        Err(e) => {
            return Err(e);
        },
    };
    let n2 = match parse_index(right.as_str()) {
        Ok(n) => n,
        Err(e) => {
            return Err(e);
        },
    };
    if n1 >= n2 {
        Err(ListError::BadRange(n1 + 1, n2 + 1))
    } else {
        Ok(n1..n2 + 1)
    }
}

/// Reads a comma-separated list of 1-based positions (`3`) and ranges
/// (`2-5`) as half-open ranges of zero-based indices, in the order given.
pub fn parse_pos(range: String) -> (r: Result<Vec<Range<usize>>, ListError>)
    ensures
        r matches Ok(v) ==> list_of(range@) == Ok::<Seq<(int, int)>, ListIssue>(
            ranges_view(v@),
        ),
        r matches Err(e) ==> list_of(range@) == Err::<Seq<(int, int)>, ListIssue>(e@),
{
    let cs = chars_of(range.as_str());
    let len = cs.len();
    let mut out: Vec<Range<usize>> = Vec::new();
    let mut start: usize = 0;
    proof {
        assert(cs@.skip(0) =~= cs@);
        match list_of(cs@) {
            Ok(rest) => {
                assert(ranges_view(out@) + rest =~= rest);
            },
            Err(e) => {},
        }
    }
    loop
        invariant
            start <= len == cs@.len(),
            cs@ == range@,
            list_of(cs@) == match list_of(cs@.skip(start as int)) {
                Ok(rest) => Ok::<Seq<(int, int)>, ListIssue>(ranges_view(out@) + rest),
                Err(e) => Err(e),
            },
        decreases len - start,
    {
        let ghost t = cs@.skip(start as int);
        let mut j: usize = start;
        while j < len && cs[j] != ','
            invariant
                start <= j <= len == cs@.len(),
                forall|k: int| start <= k < j ==> cs@[k] != ',',
            decreases len - j,
        {
            j = j + 1;
        }
        proof {
            assert forall|k: int| 0 <= k < j - start implies t[k] != ',' by {
                assert(t[k] == cs@[start + k]);
            }
            if j < len {
                assert(t[j - start] == cs@[j as int]);
            }
            lemma_comma_at(t, j - start);
        }
        let mut piece: Vec<char> = Vec::new();
        let mut i: usize = start;
        while i < j
            invariant
                start <= i <= j <= len == cs@.len(),
                piece@ == cs@.subrange(start as int, i as int),
            decreases j - i,
        {
            piece.push(cs[i]);
            i = i + 1;
            proof {
                assert(piece@ =~= cs@.subrange(start as int, i as int));
            }
        }
        proof {
            assert(t.take(j - start) =~= piece@);
        }
        let ghost before = out@;
        match parse_piece(&piece) {
            Err(e) => {
                return Err(e);
            },
            Ok(x) => {
                out.push(x);
                proof {
                    assert(out@ =~= before.push(x));
                    assert(ranges_view(out@) =~= ranges_view(before) + seq![range_view(x)]);
                    if j == len {
                        assert(list_of(t) == Ok::<Seq<(int, int)>, ListIssue>(
                            seq![range_view(x)],
                        ));
                    } else {
                        assert(t.skip(j - start + 1) =~= cs@.skip(j + 1));
                        match list_of(cs@.skip(j + 1)) {
                            Ok(rest) => {
                                assert(list_of(t) == Ok::<Seq<(int, int)>, ListIssue>(
                                    seq![range_view(x)] + rest,
                                ));
                                assert(ranges_view(before) + (seq![range_view(x)] + rest)
                                    =~= ranges_view(out@) + rest);
                            },
                            Err(e) => {
                                assert(list_of(t) == Err::<Seq<(int, int)>, ListIssue>(e));
                            },
                        }
                    }
                }
            },
        }
        if j == len {
            return Ok(out);
        }
        start = j + 1;
    }
}

/// The items of `s` at the indices of `r` that exist, in order.
pub open spec fn pick<A>(s: Seq<A>, r: Range<usize>) -> Seq<A> {
    if r.start < r.end && r.start < s.len() {
        s.subrange(r.start as int, if r.end < s.len() { r.end as int } else { s.len() as int })
    } else {
        Seq::empty()
    }
}

/// The items of `s` picked by each range in turn.
pub open spec fn pick_all<A>(s: Seq<A>, ranges: Seq<Range<usize>>) -> Seq<A>
    decreases ranges.len(),
{
    if ranges.len() == 0 {
        Seq::empty()
    } else {
        pick_all(s, ranges.drop_last()) + pick(s, ranges.last())
    }
}

fn select<T: Copy>(items: &[T], pos: &[Range<usize>]) -> (r: Vec<T>)
    ensures
        r@ == pick_all(items@, pos@),
{
    let mut out: Vec<T> = Vec::new();
    let mut k: usize = 0;
    while k < pos.len()
        invariant
            k <= pos@.len(),
            out@ == pick_all(items@, pos@.take(k as int)),
        decreases pos@.len() - k,
    {
        let r = Range { start: pos[k].start, end: pos[k].end };
        let ghost before = out@;
        proof {
            assert(pos@.take(k + 1).drop_last() =~= pos@.take(k as int));
            assert(pos@.take(k + 1).last() == pos@[k as int]);
        }
        if r.start < r.end && r.start < items.len() {
            let hi = if r.end < items.len() { r.end } else { items.len() };
            let mut i: usize = r.start;
            while i < hi
                invariant
                    r.start <= i <= hi <= items@.len(),
                    out@ == before + items@.subrange(r.start as int, i as int),
                decreases hi - i,
            {
                out.push(items[i]);
                i = i + 1;
                proof {
                    assert(out@ =~= before + items@.subrange(r.start as int, i as int));
                }
            }
        } else {
            proof {
                assert(out@ =~= before + Seq::<T>::empty());
            }
        }
        k = k + 1;
    }
    proof {
        assert(pos@.take(k as int) =~= pos@);
    }
    out
}

/// The characters of `line` at the selected positions, range by range.
pub fn extract_chars(line: &str, char_pos: &[Range<usize>]) -> (r: String)
    ensures
        r@ == pick_all(line@, char_pos@),
{
    let cs = chars_of(line);
    let picked = select(cs.as_slice(), char_pos);
    let mut s = String::new();
    let mut i: usize = 0;
    while i < picked.len()
        invariant
            i <= picked@.len(),
            s@ == picked@.take(i as int),
        decreases picked@.len() - i,
    {
        push_char(&mut s, picked[i]);
        i = i + 1;
        proof {
            assert(s@ =~= picked@.take(i as int));
        }
    }
    proof {
        assert(picked@.take(i as int) =~= picked@);
    }
    s
}

/// The bytes of `line` at the selected positions, range by range, read as
/// text with each invalid sequence replaced by U+FFFD.
pub fn extract_bytes(line: &str, byte_pos: &[Range<usize>]) -> (r: String)
    ensures
        r@ == lossy_text(pick_all(line.spec_bytes(), byte_pos@)),
{
    let picked = select(line.as_bytes(), byte_pos);
    to_lossy_text(picked.as_slice())
}

/// The fields of a record at the selected positions, range by range.
pub fn extract_fields(record: &[String], field_pos: &[Range<usize>]) -> (r: Vec<String>)
    ensures
        r@.map_values(|f: String| f@) == pick_all(record@.map_values(|f: String| f@), field_pos@),
{
    let ghost fs = record@.map_values(|f: String| f@);
    let mut out: Vec<String> = Vec::new();
    let mut k: usize = 0;
    while k < field_pos.len()
        invariant
            k <= field_pos@.len(),
            fs == record@.map_values(|f: String| f@),
            out@.map_values(|f: String| f@) == pick_all(fs, field_pos@.take(k as int)),
        decreases field_pos@.len() - k,
    {
        let r = Range { start: field_pos[k].start, end: field_pos[k].end };
        let ghost before = out@.map_values(|f: String| f@);
        proof {
            assert(field_pos@.take(k + 1).drop_last() =~= field_pos@.take(k as int));
            assert(field_pos@.take(k + 1).last() == field_pos@[k as int]);
        }
        if r.start < r.end && r.start < record.len() {
            let hi = if r.end < record.len() { r.end } else { record.len() };
            let mut i: usize = r.start;
            while i < hi
                invariant
                    r.start <= i <= hi <= record@.len(),
                    fs == record@.map_values(|f: String| f@),
                    out@.map_values(|f: String| f@) == before + fs.subrange(r.start as int, i as int),
                decreases hi - i,
            {
                let f = record[i].clone();
                let ghost prev = out@;
                out.push(f);
                proof {
                    assert(out@ =~= prev.push(f));
                    assert(out@.map_values(|f: String| f@) =~= prev.map_values(|f: String| f@).push(
                        f@,
                    ));
                    assert(fs[i as int] == record@[i as int]@);
                    assert(fs.subrange(r.start as int, i + 1) =~= fs.subrange(r.start as int, i as int).push(
                        fs[i as int],
                    ));
                }
                i = i + 1;
                proof {
                    assert(out@.map_values(|f: String| f@) =~= before + fs.subrange(
                        r.start as int,
                        i as int,
                    ));
                }
            }
        } else {
            proof {
                assert(out@.map_values(|f: String| f@) =~= before + Seq::<Seq<char>>::empty());
            }
        }
        k = k + 1;
    }
    proof {
        assert(field_pos@.take(k as int) =~= field_pos@);
    }
    out
}

/// The field delimiter as a byte; it must be exactly one byte long.
pub fn delimiter_byte(delimiter: &str) -> (r: Result<u8, String>)
    ensures
        r is Ok <==> delimiter.spec_bytes().len() == 1,
        r matches Ok(b) ==> b == delimiter.spec_bytes()[0],
        r matches Err(m) ==> m@ == "--delim \""@ + delimiter@ + "\" must be a single byte"@,
{
    let bytes = delimiter.as_bytes();
    if bytes.len() != 1 {
        return Err(String::from_str("--delim \"").concat(delimiter).concat("\" must be a single byte"));
    }
    Ok(bytes[0])
}

/// What is cut out of each line: fields, bytes or characters, at the given
/// positions.
#[derive(Debug, Clone, PartialEq, Eq)]
pub enum Extract {
    Fields(Vec<Range<usize>>),
    Bytes(Vec<Range<usize>>),
    Chars(Vec<Range<usize>>),
}

/// Reads the one list that was given, looking at fields, then bytes, then
/// characters.
pub fn choose_extract(fields: Option<String>, bytes: Option<String>, chars: Option<String>) -> (r:
    Result<Extract, ListError>)
    requires
        fields is Some || bytes is Some || chars is Some,
    ensures
        fields matches Some(f) ==> match list_of(f@) {
            Ok(v) => r matches Ok(Extract::Fields(p)) && ranges_view(p@) == v,
            Err(e) => r matches Err(x) && x@ == e,
        },
        fields is None ==> (bytes matches Some(b) ==> match list_of(b@) {
            Ok(v) => r matches Ok(Extract::Bytes(p)) && ranges_view(p@) == v,
            Err(e) => r matches Err(x) && x@ == e,
        }),
        fields is None && bytes is None ==> (chars matches Some(c) ==> match list_of(c@) {
            Ok(v) => r matches Ok(Extract::Chars(p)) && ranges_view(p@) == v,
            Err(e) => r matches Err(x) && x@ == e,
        }),
{
    match fields {
        Some(f) => match parse_pos(f) {
            Ok(p) => Ok(Extract::Fields(p)),
            Err(e) => Err(e),
        },
        None => match bytes {
            Some(b) => match parse_pos(b) {
                Ok(p) => Ok(Extract::Bytes(p)),
                Err(e) => Err(e),
            },
            None => match parse_pos(chars.unwrap()) {
                Ok(p) => Ok(Extract::Chars(p)),
                Err(e) => Err(e),
            },
        },
    }
}

/// Accepts an absent value or one that reads as a byte-sized number.
pub fn test_arg(arg: &Option<String>) -> (r: Result<(), ListError>)
    ensures
        r is Ok <==> (arg matches Some(a) ==> reads_as_unsigned(a@, 255)),
        r matches Err(e) ==> (arg matches Some(a) && e@ == ListIssue::Illegal(a@)),
{
    match arg {
        Some(a) => match parse_unsigned(a.as_str(), 255) {
            Some(_) => Ok(()),
            None => Err(ListError::IllegalValue(a.clone())),
        },
        None => Ok(()),
    }
}

} // verus!
