//! Text helpers shared by the tools: decimal digits and numerals, white
//! space, trimming, and the few string operations taken from `std`.

use vstd::prelude::*;
use vstd::string::StringSliceAdditionalSpecFns;
use vstd::utf8::{decode_utf8, valid_utf8};

verus! {

/// Relies on `String::push`: the character is appended at the end.
#[verifier::external_body]
pub(crate) fn push_char(s: &mut String, c: char)
    ensures
        final(s)@ == old(s)@.push(c),
{
    s.push(c)
}

/// Whether `c` is an ASCII decimal digit.
pub open spec fn is_digit(c: char) -> bool {
    '0' <= c <= '9'
}

/// Whether every character of `s` is a decimal digit.
pub open spec fn all_digits(s: Seq<char>) -> bool {
    forall|i: int| 0 <= i < s.len() ==> is_digit(#[trigger] s[i])
}

/// The value of a decimal digit character.
pub open spec fn digit_value(c: char) -> int {
    c as u32 - '0' as u32
}

/// The number that a run of decimal digits denotes.
pub open spec fn digits_value(s: Seq<char>) -> int
    decreases s.len(),
{
    if s.len() == 0 {
        0
    } else {
        digits_value(s.drop_last()) * 10 + digit_value(s.last())
    }
}

pub(crate) proof fn lemma_digits_step(s: Seq<char>, i: int)
    requires
        0 <= i < s.len(),
    ensures
        digits_value(s.subrange(0, i + 1)) == digits_value(s.subrange(0, i)) * 10
            + digit_value(s[i]),
{
    assert(s.subrange(0, i + 1).drop_last() =~= s.subrange(0, i));
}

pub(crate) proof fn lemma_digits_nonneg(s: Seq<char>)
    requires
        all_digits(s),
    ensures
        digits_value(s) >= 0,
    decreases s.len(),
{
    if s.len() > 0 {
        lemma_digits_nonneg(s.drop_last());
    }
}

/// The digits of an unsigned number text, after an optional `+`.
pub open spec fn unsigned_digits(s: Seq<char>) -> Seq<char> {
    if s.len() > 0 && s[0] == '+' { s.skip(1) } else { s }
}

/// Whether `s` reads as an unsigned number no larger than `max`: an
/// optional `+`, then decimal digits.
pub open spec fn reads_as_unsigned(s: Seq<char>, max: int) -> bool {
    let d = unsigned_digits(s);
    d.len() > 0 && all_digits(d) && digits_value(d) <= max
}

/// Reads an unsigned number as `str::parse` does for an unsigned integer
/// type whose largest value is `max`.
pub fn parse_unsigned(s: &str, max: u64) -> (r: Option<u64>)
    ensures
        r is Some <==> reads_as_unsigned(s@, max as int),
        r matches Some(v) ==> v == digits_value(unsigned_digits(s@)),
{
    let len = s.unicode_len();
    let begin: usize = if len > 0 && s.get_char(0) == '+' { 1 } else { 0 };
    let ghost d = unsigned_digits(s@);
    proof {
        if begin == 0 {
            assert(d =~= s@.skip(0));
        }
    }
    if begin == len {
        return None;
    }
    let mut v: u64 = 0;
    let mut over = false;
    let mut i: usize = begin;
    while i < len
        invariant
            len == s@.len(),
            begin <= i <= len,
            d == s@.skip(begin as int),
            d == unsigned_digits(s@),
            all_digits(d.subrange(0, i - begin)),
            over ==> digits_value(d.subrange(0, i - begin)) > max,
            !over ==> v == digits_value(d.subrange(0, i - begin)),
            !over ==> v <= max,
        decreases len - i,
    {
        let c = s.get_char(i);
        if !('0' <= c && c <= '9') {
            proof {
                assert(d[i - begin] == c);
                assert(!is_digit(d[i - begin]));
                assert(!all_digits(d));
            }
            return None;
        }
        proof {
            let k = i - begin;
            lemma_digits_step(d, k);
            lemma_digits_nonneg(d.subrange(0, k));
            assert(d[k] == c);
        }
        if !over {
            match v.checked_mul(10) {
                Some(w) => match w.checked_add((c as u32 - '0' as u32) as u64) {
                    Some(x) => if x <= max {
                        v = x;
                    } else {
                        over = true;
                    },
                    None => {
                        over = true;
                    },
                },
                None => {
                    over = true;
                },
            }
        }
        i = i + 1;
        proof {
            assert(all_digits(d.subrange(0, i - begin)));
        }
    }
    proof {
        assert(d.subrange(0, len - begin) =~= d);
    }
    if over {
        None
    } else {
        Some(v)
    }
}

/// Unicode `White_Space`, as `char::is_whitespace` decides it.
pub open spec fn is_space(c: char) -> bool {
    ||| '\t' <= c <= '\r'
    ||| c == ' '
    ||| c == '\u{85}'
    ||| c == '\u{a0}'
    ||| c == '\u{1680}'
    ||| '\u{2000}' <= c <= '\u{200a}'
    ||| c == '\u{2028}'
    ||| c == '\u{2029}'
    ||| c == '\u{202f}'
    ||| c == '\u{205f}'
    ||| c == '\u{3000}'
}

/// Whether `c` is white space.
pub fn space(c: char) -> (r: bool)
    ensures
        r == is_space(c),
{
    ('\t' <= c && c <= '\r') || c == ' ' || c == '\u{85}' || c == '\u{a0}' || c == '\u{1680}'
        || ('\u{2000}' <= c && c <= '\u{200a}') || c == '\u{2028}' || c == '\u{2029}'
        || c == '\u{202f}' || c == '\u{205f}' || c == '\u{3000}'
}

/// `s` without its trailing white space.
pub open spec fn trim_end(s: Seq<char>) -> Seq<char>
    decreases s.len(),
{
    if s.len() > 0 && is_space(s.last()) {
        trim_end(s.drop_last())
    } else {
        s
    }
}

pub(crate) proof fn lemma_trim_end_prefix(s: Seq<char>, n: int)
    requires
        0 <= n <= s.len(),
        forall|k: int| n <= k < s.len() ==> is_space(#[trigger] s[k]),
        n == 0 || !is_space(s[n - 1]),
    ensures
        trim_end(s) == s.take(n),
    decreases s.len(),
{
    if s.len() > n {
        assert(s.drop_last().take(n) =~= s.take(n));
        lemma_trim_end_prefix(s.drop_last(), n);
    } else {
        assert(s.take(n) =~= s);
    }
}

/// Number of characters of `cs` left once trailing white space is removed.
pub(crate) fn trimmed_len(cs: &Vec<char>) -> (n: usize)
    ensures
        n <= cs@.len(),
        trim_end(cs@) == cs@.take(n as int),
{
    let mut n: usize = cs.len();
    while n > 0 && space(cs[n - 1])
        invariant
            n <= cs@.len(),
            forall|k: int| n <= k < cs@.len() ==> is_space(#[trigger] cs@[k]),
        decreases n,
    {
        n = n - 1;
    }
    proof {
        lemma_trim_end_prefix(cs@, n as int);
    }
    n
}

/// `s` without its leading white space.
pub open spec fn trim_start(s: Seq<char>) -> Seq<char>
    decreases s.len(),
{
    if s.len() > 0 && is_space(s[0]) {
        trim_start(s.drop_first())
    } else {
        s
    }
}

/// `s` without leading and trailing white space, as `str::trim` leaves it.
pub open spec fn trim(s: Seq<char>) -> Seq<char> {
    trim_start(trim_end(s))
}

pub(crate) proof fn lemma_trim_start_suffix(s: Seq<char>, n: int)
    requires
        0 <= n <= s.len(),
        forall|k: int| 0 <= k < n ==> is_space(#[trigger] s[k]),
        n == s.len() || !is_space(s[n]),
    ensures
        trim_start(s) == s.skip(n),
    decreases n,
{
    if n > 0 {
        assert(s.drop_first().skip(n - 1) =~= s.skip(n));
        assert forall|k: int| 0 <= k < n - 1 implies is_space(#[trigger] s.drop_first()[k]) by {
            assert(s.drop_first()[k] == s[k + 1]);
        }
        if n < s.len() {
            assert(s.drop_first()[n - 1] == s[n]);
        }
        lemma_trim_start_suffix(s.drop_first(), n - 1);
    } else {
        assert(s.skip(0) =~= s);
    }
}

/// The text of `s` without leading and trailing white space.
pub fn trimmed(s: &str) -> (r: String)
    ensures
        r@ == trim(s@),
{
    let cs = chars_of(s);
    let end = trimmed_len(&cs);
    let mut begin: usize = 0;
    while begin < end && space(cs[begin])
        invariant
            begin <= end <= cs@.len(),
            forall|k: int| 0 <= k < begin ==> is_space(#[trigger] cs@[k]),
        decreases end - begin,
    {
        begin = begin + 1;
    }
    let ghost head = cs@.take(end as int);
    proof {
        assert forall|k: int| 0 <= k < begin implies is_space(#[trigger] head[k]) by {
            assert(head[k] == cs@[k]);
        }
        if begin < end {
            assert(head[begin as int] == cs@[begin as int]);
        }
        lemma_trim_start_suffix(head, begin as int);
    }
    let mut out = String::new();
    let mut i: usize = begin;
    while i < end
        invariant
            begin <= i <= end <= cs@.len(),
            out@ == cs@.subrange(begin as int, i as int),
        decreases end - i,
    {
        push_char(&mut out, cs[i]);
        i = i + 1;
        proof {
            assert(out@ =~= cs@.subrange(begin as int, i as int));
        }
    }
    proof {
        assert(head.skip(begin as int) =~= cs@.subrange(begin as int, end as int));
    }
    out
}

/// The character of a decimal digit.
pub open spec fn digit_char(d: int) -> char {
    if d == 0 { '0' }
    else if d == 1 { '1' }
    else if d == 2 { '2' }
    else if d == 3 { '3' }
    else if d == 4 { '4' }
    else if d == 5 { '5' }
    else if d == 6 { '6' }
    else if d == 7 { '7' }
    else if d == 8 { '8' }
    else { '9' }
}

fn digit(d: u64) -> (c: char)
    requires
        d < 10,
    ensures
        c == digit_char(d as int),
{
    match d {
        0 => '0',
        1 => '1',
        2 => '2',
        3 => '3',
        4 => '4',
        5 => '5',
        6 => '6',
        7 => '7',
        8 => '8',
        _ => '9',
    }
}

/// The decimal numeral of `n`, without leading zeros.
pub open spec fn decimal(n: nat) -> Seq<char>
    decreases n,
{
    if n < 10 {
        seq![digit_char(n as int)]
    } else {
        decimal(n / 10).push(digit_char((n % 10) as int))
    }
}

/// Appends the decimal numeral of `n`.
pub fn push_decimal(s: &mut String, n: u64)
    ensures
        final(s)@ == old(s)@ + decimal(n as nat),
    decreases n,
{
    if n >= 10 {
        push_decimal(s, n / 10);
    }
    push_char(s, digit(n % 10));
}

/// The text that `String::from_utf8_lossy` makes of a byte sequence.
pub uninterp spec fn lossy_text(b: Seq<u8>) -> Seq<char>;

/// Relies on `String::from_utf8_lossy`: valid UTF-8 is decoded as it is,
/// each invalid sequence becomes U+FFFD.
#[verifier::external_body]
pub(crate) fn to_lossy_text(b: &[u8]) -> (r: String)
    ensures
        r@ == lossy_text(b@),
        valid_utf8(b@) ==> r@ == decode_utf8(b@),
{
    String::from_utf8_lossy(b).into_owned()
}

/// `s` right-aligned in a field of `width` characters.
pub open spec fn pad_left(s: Seq<char>, width: nat) -> Seq<char> {
    if s.len() < width {
        Seq::new((width - s.len()) as nat, |i: int| ' ') + s
    } else {
        s
    }
}

/// Appends the decimal numeral of `n`, right-aligned in `width` characters.
pub fn push_padded_decimal(s: &mut String, n: u64, width: usize)
    ensures
        final(s)@ == old(s)@ + pad_left(decimal(n as nat), width as nat),
{
    let mut numeral = String::new();
    push_decimal(&mut numeral, n);
    proof {
        assert(numeral@ =~= decimal(n as nat));
    }
    let len = numeral.as_str().unicode_len();
    let ghost start = s@;
    if len < width {
        let mut i: usize = 0;
        while i < width - len
            invariant
                len < width,
                i <= width - len,
                s@ == start + Seq::new(i as nat, |k: int| ' '),
            decreases width - len - i,
        {
            push_char(s, ' ');
            i = i + 1;
            proof {
                assert(s@ =~= start + Seq::new(i as nat, |k: int| ' '));
            }
        }
    }
    s.append(numeral.as_str());
    proof {
        assert(s@ =~= start + pad_left(decimal(n as nat), width as nat));
    }
}

/// Relies on `str::chars`, collected into a `Vec`: the characters of the
/// string, in order.
#[verifier::external_body]
pub(crate) fn chars_of(s: &str) -> (r: Vec<char>)
    ensures
        r@ == s@,
{
    s.chars().collect()
}

/// Relies on `std::str::from_utf8`: it succeeds exactly on valid UTF-8,
/// and the string it returns is made of the given bytes.
#[verifier::external_body]
pub(crate) fn utf8_str(b: &[u8]) -> (r: Option<&str>)
    ensures
        r is Some <==> valid_utf8(b@),
        r matches Some(s) ==> s.spec_bytes() == b@,
{
    std::str::from_utf8(b).ok()
}

} // verus!
