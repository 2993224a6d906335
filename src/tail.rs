//! The windowed suffix of a resource: reading a signed count, resolving it
//! against the extent of a lines or bytes resource, and selecting the
//! window to emit.

use crate::text::{all_digits, digits_value, is_digit, lemma_digits_nonneg, lemma_digits_step};
use vstd::prelude::*;

verus! {

/// A count as the user wrote it.
///
/// An unsigned number means "the last N" and is stored negated; `+N` is an
/// absolute, 1-based starting position; `+0` is kept apart from `0`.
#[derive(Debug, Clone, Copy, PartialEq, Eq, Structural)]
pub enum TakeValue {
    PlusZero,
    TakeNum(i64),
}

/// The count text was not a signed decimal number; it carries the text.
#[derive(Debug, Clone, PartialEq, Eq)]
pub struct InvalidCount {
    pub text: String,
}

impl InvalidCount {
    /// The offending text, verbatim.
    pub fn message(&self) -> (r: String)
        ensures
            r@ == self.text@,
    {
        self.text.clone()
    }
}

/// Largest magnitude the parser keeps apart: `2^63`, the size of `i64::MIN`.
pub const MAGNITUDE_CAP: u64 = 9223372036854775808;

/// A magnitude with a sign, saturated to the range of `i64`.
pub open spec fn saturated(negative: bool, magnitude: int) -> i64 {
    if negative {
        if magnitude >= MAGNITUDE_CAP { i64::MIN } else { (-magnitude) as i64 }
    } else {
        if magnitude > i64::MAX { i64::MAX } else { magnitude as i64 }
    }
}

/// What a count text means: `[+-]?[0-9]+`, where no sign reads as `-`,
/// and `+` followed by zero is `PlusZero`. `None` for any other text.
pub open spec fn count_of(s: Seq<char>) -> Option<TakeValue> {
    if s.len() > 0 && (s[0] == '+' || s[0] == '-') {
        let d = s.skip(1);
        if d.len() > 0 && all_digits(d) {
            if s[0] == '+' {
                if digits_value(d) == 0 {
                    Some(TakeValue::PlusZero)
                } else {
                    Some(TakeValue::TakeNum(saturated(false, digits_value(d))))
                }
            } else {
                Some(TakeValue::TakeNum(saturated(true, digits_value(d))))
            }
        } else {
            None
        }
    } else if s.len() > 0 && all_digits(s) {
        Some(TakeValue::TakeNum(saturated(true, digits_value(s))))
    } else {
        None
    }
}

/// Parses a count text.
pub fn parse_num(val: String) -> (r: Result<TakeValue, InvalidCount>)
    ensures
        r matches Ok(v) ==> count_of(val@) == Some(v),
        r matches Err(e) ==> count_of(val@) is None && e.text@ == val@,
{
    let s = val.as_str();
    let len = s.unicode_len();
    if len == 0 {
        return Err(InvalidCount { text: val });
    }
    let first = s.get_char(0);
    let begin: usize = if first == '+' || first == '-' { 1 } else { 0 };
    if begin == len {
        return Err(InvalidCount { text: val });
    }
    let ghost d = s@.skip(begin as int);
    let mut mag: u64 = 0;
    let mut i: usize = begin;
    while i < len
        invariant
            s@ == val@,
            len == s@.len(),
            begin <= i <= len,
            d == s@.skip(begin as int),
            first == s@[0],
            begin == (if first == '+' || first == '-' { 1usize } else { 0usize }),
            all_digits(d.subrange(0, i - begin)),
            mag as int == if digits_value(d.subrange(0, i - begin)) < MAGNITUDE_CAP {
                digits_value(d.subrange(0, i - begin))
            } else {
                MAGNITUDE_CAP as int
            },
        decreases len - i,
    {
        let c = s.get_char(i);
        if !('0' <= c && c <= '9') {
            proof {
                assert(d[i - begin] == c);
                assert(!all_digits(d));
                if begin == 0 {
                    assert(d =~= s@);
                }
            }
            return Err(InvalidCount { text: val });
        }
        let dv = (c as u32 - '0' as u32) as u64;
        proof {
            let k = i - begin;
            lemma_digits_step(d, k);
            lemma_digits_nonneg(d.subrange(0, k));
            assert(d[k] == c);
        }
        if mag > MAGNITUDE_CAP / 10 {
            mag = MAGNITUDE_CAP;
        } else {
            let next = mag * 10 + dv;
            mag = if next < MAGNITUDE_CAP { next } else { MAGNITUDE_CAP };
        }
        i = i + 1;
        proof {
            assert(all_digits(d.subrange(0, i - begin)));
        }
    }
    proof {
        assert(d.subrange(0, len - begin) =~= d);
        lemma_digits_nonneg(d);
        if begin == 0 {
            assert(d =~= s@);
        }
    }
    if first == '+' {
        if mag == 0 {
            Ok(TakeValue::PlusZero)
        } else if mag > i64::MAX as u64 {
            Ok(TakeValue::TakeNum(i64::MAX))
        } else {
            Ok(TakeValue::TakeNum(mag as i64))
        }
    } else if mag >= MAGNITUDE_CAP {
        Ok(TakeValue::TakeNum(i64::MIN))
    } else {
        Ok(TakeValue::TakeNum(-(mag as i64)))
    }
}

/// A signed decimal text means what its sign and digits say: `+d` is `d`,
/// `-d` and a bare `d` are `-d`. Zero keeps its sign apart: `+0` is
/// `PlusZero`, while `0` and `-0` are `TakeNum(0)`.
pub proof fn lemma_parse_recovers_value(sign: Seq<char>, digits: Seq<char>)
    requires
        sign == Seq::<char>::empty() || sign == seq!['+'] || sign == seq!['-'],
        digits.len() > 0,
        all_digits(digits),
        digits_value(digits) <= i64::MAX,
    ensures
        count_of(sign + digits) == Some(
            if sign == seq!['+'] {
                if digits_value(digits) == 0 {
                    TakeValue::PlusZero
                } else {
                    TakeValue::TakeNum(digits_value(digits) as i64)
                }
            } else {
                TakeValue::TakeNum((-digits_value(digits)) as i64)
            },
        ),
        sign == seq!['+'] && digits_value(digits) == 0 ==> count_of(digits)
            == Some(TakeValue::TakeNum(0)),
{
    let s = sign + digits;
    if sign.len() == 0 {
        assert(s =~= digits);
        assert(!is_digit('+') && !is_digit('-'));
        assert(is_digit(digits[0]));
    } else {
        assert(s.skip(1) =~= digits);
        assert(s[0] == sign[0]);
    }
    if sign == seq!['+'] && digits_value(digits) == 0 {
        assert(is_digit(digits[0]));
    }
}

/// Zero-based index at which the window of a resource with `total`
/// elements begins, or `None` when nothing is to be emitted.
pub open spec fn start_index(v: TakeValue, total: int) -> Option<int> {
    match v {
        TakeValue::PlusZero => if total == 0 { None } else { Some(0) },
        TakeValue::TakeNum(n) => {
            if n == 0 {
                None
            } else if n > 0 {
                if n <= total { Some(n - 1) } else { None }
            } else if total + n > 0 {
                Some(total + n)
            } else {
                Some(0)
            }
        },
    }
}

/// Resolves a count against the extent of a resource.
pub fn get_start_index(take_val: &TakeValue, total: i64) -> (r: Option<u64>)
    requires
        total >= 0,
    ensures
        r matches Some(i) ==> start_index(*take_val, total as int) == Some(i as int),
        r is None <==> start_index(*take_val, total as int) is None,
{
    match take_val {
        TakeValue::PlusZero => if total == 0 { None } else { Some(0) },
        TakeValue::TakeNum(n) => {
            let n = *n;
            if n == 0 {
                None
            } else if n < 0 {
                if total + n > 0 {
                    Some((total + n) as u64)
                } else {
                    Some(0)
                }
            } else if n <= total {
                Some((n - 1) as u64)
            } else {
                None
            }
        },
    }
}

/// Asking for zero elements selects nothing, whatever the extent.
pub proof fn lemma_take_zero_is_empty(total: int)
    requires
        total >= 0,
    ensures
        start_index(TakeValue::TakeNum(0), total) is None,
{
}

/// `+0` selects nothing from an empty resource and everything from any
/// other.
pub proof fn lemma_plus_zero(total: int)
    requires
        total >= 0,
    ensures
        total == 0 ==> start_index(TakeValue::PlusZero, total) is None,
        total > 0 ==> start_index(TakeValue::PlusZero, total) == Some(0int),
{
}

/// A positive count within the extent is a 1-based starting position.
pub proof fn lemma_positive_within(n: i64, total: int)
    requires
        n > 0,
        total >= n,
    ensures
        start_index(TakeValue::TakeNum(n), total) == Some(n - 1),
{
}

/// A positive count beyond the extent selects nothing.
pub proof fn lemma_positive_beyond(n: i64, total: int)
    requires
        n > 0,
        0 <= total < n,
    ensures
        start_index(TakeValue::TakeNum(n), total) is None,
{
}

/// A negative count selects the last `|n|` elements, or all of them when
/// there are no more than `|n|`.
pub proof fn lemma_negative(n: i64, total: int)
    requires
        n < 0,
        total >= 0,
    ensures
        total + n > 0 ==> start_index(TakeValue::TakeNum(n), total) == Some(total + n),
        total + n <= 0 ==> start_index(TakeValue::TakeNum(n), total) == Some(0int),
{
}

/// Number of newline bytes in `s`.
pub open spec fn newline_count(s: Seq<u8>) -> nat
    decreases s.len(),
{
    if s.len() == 0 {
        0
    } else {
        newline_count(s.drop_last()) + if s.last() == 10u8 { 1nat } else { 0nat }
    }
}

/// Extent of a resource: its number of lines (newline bytes) and of bytes.
pub fn count_lines_bytes(buffer: &[u8]) -> (r: (i64, i64))
    requires
        buffer@.len() <= i64::MAX,
    ensures
        r.0 == newline_count(buffer@),
        r.1 == buffer@.len(),
{
    let mut lines: i64 = 0;
    let mut i: usize = 0;
    while i < buffer.len()
        invariant
            i <= buffer@.len() <= i64::MAX,
            lines == newline_count(buffer@.subrange(0, i as int)),
            lines <= i,
        decreases buffer@.len() - i,
    {
        proof {
            assert(buffer@.subrange(0, i + 1).drop_last() =~= buffer@.subrange(0, i as int));
        }
        if buffer[i] == 10u8 {
            lines = lines + 1;
        }
        i = i + 1;
    }
    proof {
        assert(buffer@.subrange(0, i as int) =~= buffer@);
    }
    (lines, buffer.len() as i64)
}

/// Index of the first newline byte of `b`, or its length.
pub open spec fn newline_at(b: Seq<u8>) -> nat
    decreases b.len(),
{
    if b.len() == 0 || b[0] == 10u8 {
        0
    } else {
        1 + newline_at(b.drop_first())
    }
}

/// The lines of `b` as a line reader yields them: each runs through its
/// newline, which it keeps; the last may lack one. No line is empty.
pub open spec fn lines_of(b: Seq<u8>) -> Seq<Seq<u8>>
    decreases b.len(),
{
    if b.len() == 0 {
        Seq::empty()
    } else {
        let n = if newline_at(b) < b.len() { newline_at(b) + 1 } else { b.len() as nat };
        seq![b.take(n as int)] + lines_of(b.skip(n as int))
    }
}

proof fn lemma_newline_at(t: Seq<u8>, j: int)
    requires
        0 <= j <= t.len(),
        forall|k: int| 0 <= k < j ==> t[k] != 10u8,
        j == t.len() || t[j] == 10u8,
    ensures
        newline_at(t) == j,
    decreases j,
{
    if j > 0 {
        let u = t.drop_first();
        assert forall|k: int| 0 <= k < j - 1 implies u[k] != 10u8 by {
            assert(u[k] == t[k + 1]);
        }
        if j < t.len() {
            assert(u[j - 1] == t[j]);
        }
        lemma_newline_at(u, j - 1);
    }
}

/// Splits a resource into its lines, each with its terminator.
pub fn split_lines(data: &[u8]) -> (r: Vec<Vec<u8>>)
    ensures
        r.deep_view() == lines_of(data@),
{
    let len = data.len();
    let mut out: Vec<Vec<u8>> = Vec::new();
    let mut start: usize = 0;
    proof {
        assert(data@.skip(0) =~= data@);
        assert(out.deep_view() + lines_of(data@) =~= lines_of(data@));
    }
    while start < len
        invariant
            start <= len == data@.len(),
            lines_of(data@) == out.deep_view() + lines_of(data@.skip(start as int)),
        decreases len - start,
    {
        let ghost t = data@.skip(start as int);
        let mut j: usize = start;
        while j < len && data[j] != 10u8
            invariant
                start <= j <= len == data@.len(),
                forall|k: int| start <= k < j ==> data@[k] != 10u8,
            decreases len - j,
        {
            j = j + 1;
        }
        proof {
            assert forall|k: int| 0 <= k < j - start implies t[k] != 10u8 by {
                assert(t[k] == data@[start + k]);
            }
            if j < len {
                assert(t[j - start] == data@[j as int]);
            }
            lemma_newline_at(t, j - start);
        }
        let end: usize = if j < len { j + 1 } else { len };
        let mut line: Vec<u8> = Vec::new();
        let mut i: usize = start;
        while i < end
            invariant
                start <= i <= end <= len == data@.len(),
                line@ == data@.subrange(start as int, i as int),
            decreases end - i,
        {
            line.push(data[i]);
            i = i + 1;
            proof {
                assert(line@ =~= data@.subrange(start as int, i as int));
            }
        }
        let ghost before = out.deep_view();
        proof {
            assert(line.deep_view() =~= line@);
        }
        out.push(line);
        proof {
            assert(t.take(end - start) =~= line@);
            assert(t.skip(end - start) =~= data@.skip(end as int));
            assert(out.deep_view() =~= before.push(line@));
            assert(lines_of(t) == seq![line@] + lines_of(data@.skip(end as int)));
            assert(before + (seq![line@] + lines_of(data@.skip(end as int)))
                =~= out.deep_view() + lines_of(data@.skip(end as int)));
        }
        start = end;
    }
    proof {
        assert(data@.skip(start as int) =~= Seq::<u8>::empty());
        assert(out.deep_view() + Seq::<Seq<u8>>::empty() =~= out.deep_view());
    }
    out
}

pub(crate) proof fn lemma_newline_count_concat(a: Seq<u8>, b: Seq<u8>)
    ensures
        newline_count(a + b) == newline_count(a) + newline_count(b),
    decreases b.len(),
{
    if b.len() == 0 {
        assert(a + b =~= a);
    } else {
        assert((a + b).drop_last() =~= a + b.drop_last());
        lemma_newline_count_concat(a, b.drop_last());
    }
}

proof fn lemma_no_newline(a: Seq<u8>)
    requires
        forall|k: int| 0 <= k < a.len() ==> a[k] != 10u8,
    ensures
        newline_count(a) == 0,
    decreases a.len(),
{
    if a.len() > 0 {
        lemma_no_newline(a.drop_last());
    }
}

proof fn lemma_newline_at_facts(b: Seq<u8>)
    ensures
        newline_at(b) <= b.len(),
        forall|k: int| 0 <= k < newline_at(b) ==> b[k] != 10u8,
        newline_at(b) < b.len() ==> b[newline_at(b) as int] == 10u8,
    decreases b.len(),
{
    if b.len() > 0 && b[0] != 10u8 {
        let u = b.drop_first();
        lemma_newline_at_facts(u);
        assert forall|k: int| 0 <= k < newline_at(b) implies b[k] != 10u8 by {
            if k > 0 {
                assert(b[k] == u[k - 1]);
            }
        }
    }
}

/// A resource splits into one line per newline, and one more when its last
/// line has no newline.
pub proof fn lemma_lines_count(b: Seq<u8>)
    ensures
        lines_of(b).len() == newline_count(b) + if b.len() > 0 && b.last() != 10u8 {
            1nat
        } else {
            0nat
        },
    decreases b.len(),
{
    if b.len() > 0 {
        lemma_newline_at_facts(b);
        let p = newline_at(b);
        let n = if p < b.len() { p + 1 } else { b.len() as nat };
        let head = b.take(n as int);
        let rest = b.skip(n as int);
        assert(b =~= head + rest);
        lemma_newline_count_concat(head, rest);
        lemma_lines_count(rest);
        if p < b.len() {
            let pre = b.take(p as int);
            assert(head =~= pre.push(10u8));
            assert(head.drop_last() =~= pre);
            lemma_no_newline(pre);
            if rest.len() > 0 {
                assert(rest.last() == b.last());
            }
        } else {
            assert(head =~= b);
            lemma_no_newline(b);
            assert(rest.len() == 0);
            assert(lines_of(rest) =~= Seq::<Seq<u8>>::empty());
        }
    }
}

/// Whether the element at zero-based `index` lies in the window that
/// begins at `start`.
pub open spec fn in_window(index: int, start: Option<u64>) -> bool {
    start matches Some(k) && index >= k
}

/// The window of `s` that begins at `start`: the suffix from index `k`,
/// empty when `start` is `None` or lies past the end.
pub open spec fn window<A>(s: Seq<A>, start: Option<u64>) -> Seq<A> {
    match start {
        Some(k) => if k <= s.len() { s.skip(k as int) } else { Seq::empty() },
        None => Seq::empty(),
    }
}

/// Decides, while lines are scanned in order, whether the line at
/// zero-based `index` is emitted.
pub fn emits_line(index: u64, start: Option<u64>) -> (r: bool)
    ensures
        r == in_window(index as int, start),
{
    match start {
        Some(k) => index >= k,
        None => false,
    }
}

/// Scans the lines of a resource (each with its terminator) and keeps
/// every line whose index lies in the window.
pub fn window_lines(lines: &Vec<Vec<u8>>, start: Option<u64>) -> (r: Vec<Vec<u8>>)
    ensures
        r.deep_view() == window(lines.deep_view(), start),
{
    let mut out: Vec<Vec<u8>> = Vec::new();
    let mut i: usize = 0;
    while i < lines.len()
        invariant
            i <= lines@.len(),
            out.deep_view() == window(lines.deep_view().subrange(0, i as int), start),
        decreases lines@.len() - i,
    {
        let ghost before = out.deep_view();
        if emits_line(i as u64, start) {
            let line = lines[i].clone();
            proof {
                assert(line@ =~= lines[i as int]@);
            }
            out.push(line);
        }
        i = i + 1;
        proof {
            let pre = lines.deep_view().subrange(0, i - 1);
            let cur = lines.deep_view().subrange(0, i as int);
            assert(cur.drop_last() =~= pre);
            match start {
                Some(k) => {
                    if k < i {
                        assert(cur.skip(k as int) =~= pre.skip(k as int).push(lines.deep_view()[i - 1]));
                    } else if k == i {
                        assert(cur.skip(k as int) =~= Seq::<Seq<u8>>::empty());
                    }
                },
                None => {},
            }
            assert(out.deep_view() =~= window(cur, start));
        }
    }
    proof {
        assert(lines.deep_view().subrange(0, i as int) =~= lines.deep_view());
    }
    out
}

/// Copies the bytes of a resource from the window's first byte to the end,
/// positioning directly at that byte.
pub fn window_bytes(data: &[u8], start: Option<u64>) -> (r: Vec<u8>)
    ensures
        r@ == window(data@, start),
{
    let mut out: Vec<u8> = Vec::new();
    if let Some(k) = start {
        if k <= data.len() as u64 {
            let mut i: usize = k as usize;
            while i < data.len()
                invariant
                    k <= i <= data@.len(),
                    out@ == data@.subrange(k as int, i as int),
                decreases data@.len() - i,
            {
                out.push(data[i]);
                i = i + 1;
                proof {
                    assert(out@ =~= data@.subrange(k as int, i as int));
                }
            }
            proof {
                assert(out@ =~= data@.skip(k as int));
            }
        }
    }
    out
}

/// The line that announces a resource when several are shown: it names the
/// resource, and from the second resource on it is set off by a blank line.
/// `None` when headers are suppressed or there is a single resource.
pub fn header(file_num: usize, num_files: usize, quiet: bool, filename: &str) -> (r: Option<
    String,
>)
    ensures
        !quiet && num_files > 1 ==> (r matches Some(h) && h@ == (if file_num > 0 {
            "\n"@
        } else {
            ""@
        }) + "==> "@ + filename@ + " <=="@),
        quiet || num_files <= 1 ==> r is None,
{
    if quiet || num_files <= 1 {
        return None;
    }
    let prefix: &str = if file_num > 0 { "\n" } else { "" };
    let h = String::from_str(prefix).concat("==> ").concat(filename).concat(" <==");
    Some(h)
}

/// The report for a count text that is not a number, in line or byte mode.
pub fn illegal_count_message(bytes: bool, e: &InvalidCount) -> (r: String)
    ensures
        r@ == (if bytes { "illegal byte count -- "@ } else { "illegal line count -- "@ }) + e.text@,
{
    let lead: &str = if bytes { "illegal byte count -- " } else { "illegal line count -- " };
    String::from_str(lead).concat(e.text.as_str())
}

/// On a resource of `n` newline-terminated lines, the line window that
/// starts at `k` holds the last `n - k` lines, each identical, terminator
/// included, to the line at the same place.
pub proof fn lemma_resource_line_window(data: Seq<u8>, k: u64)
    requires
        data.len() == 0 || data.last() == 10u8,
        k <= newline_count(data),
    ensures
        window(lines_of(data), Some(k)).len() == newline_count(data) - k,
        forall|i: int|
            0 <= i < newline_count(data) - k ==> #[trigger] window(lines_of(data), Some(k))[i]
                == lines_of(data)[k + i],
{
    lemma_lines_count(data);
}

/// A window that starts at `k` within a sequence of `n` lines holds the
/// last `n - k` of them, each identical to the line at the same place.
pub proof fn lemma_line_window(lines: Seq<Seq<u8>>, k: u64)
    requires
        k <= lines.len(),
    ensures
        window(lines, Some(k)).len() == lines.len() - k,
        forall|i: int|
            0 <= i < lines.len() - k ==> #[trigger] window(lines, Some(k))[i] == lines[k + i],
{
}

/// A window that starts at `k` within `n` bytes holds exactly the last
/// `n - k` bytes, in order.
pub proof fn lemma_byte_window(data: Seq<u8>, k: u64)
    requires
        k <= data.len(),
    ensures
        window(data, Some(k)).len() == data.len() - k,
        window(data, Some(k)) == data.subrange(k as int, data.len() as int),
{
}

} // verus!
