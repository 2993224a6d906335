//! Counting lines, words, bytes and characters, and the report line.

use crate::tail::{lemma_newline_count_concat, newline_count};
use crate::text::{
    chars_of, decimal, is_space, pad_left, push_padded_decimal, space, utf8_str,
};
use vstd::prelude::*;
use vstd::utf8::{
    decode_utf8, decode_utf8_encode_utf8, encode_utf8, encode_utf8_decode_utf8,
    encode_utf8_valid_utf8, valid_utf8,
};

verus! {

/// The counts reported for one input, or for several together.
#[derive(Debug, Clone, Copy, PartialEq, Eq, Structural)]
pub struct FileInfo {
    pub num_lines: usize,
    pub num_words: usize,
    pub num_bytes: usize,
    pub num_chars: usize,
}

/// The input was not UTF-8 text.
#[derive(Debug, Clone, Copy, PartialEq, Eq, Structural)]
pub struct NotUtf8;

/// Number of words: maximal runs of characters that are not white space.
pub open spec fn word_count(s: Seq<char>) -> nat
    decreases s.len(),
{
    if s.len() == 0 {
        0
    } else {
        word_count(s.drop_last()) + if !is_space(s.last()) && (s.len() == 1 || is_space(
            s[s.len() - 2],
        )) {
            1nat
        } else {
            0nat
        }
    }
}

/// Number of lines as a line reader yields them: one per newline, and one
/// more for text after the last newline.
pub open spec fn line_count(b: Seq<u8>) -> nat {
    newline_count(b) + if b.len() > 0 && b.last() != 10u8 { 1nat } else { 0nat }
}

proof fn lemma_newline_count_le(b: Seq<u8>)
    ensures
        newline_count(b) <= b.len(),
    decreases b.len(),
{
    if b.len() > 0 {
        lemma_newline_count_le(b.drop_last());
    }
}

proof fn lemma_word_count_le(s: Seq<char>)
    ensures
        word_count(s) <= s.len(),
    decreases s.len(),
{
    if s.len() > 0 {
        lemma_word_count_le(s.drop_last());
    }
}

/// Counts lines, words, bytes and characters of UTF-8 text; fails on bytes
/// that are not UTF-8.
pub fn count(file: &[u8]) -> (r: Result<FileInfo, NotUtf8>)
    ensures
        r is Ok <==> valid_utf8(file@),
        r matches Ok(info) ==> {
            &&& info.num_lines == line_count(file@)
            &&& info.num_words == word_count(decode_utf8(file@))
            &&& info.num_bytes == file@.len()
            &&& info.num_chars == decode_utf8(file@).len()
        },
{
    let text = match utf8_str(file) {
        Some(t) => t,
        None => return Err(NotUtf8),
    };
    proof {
        encode_utf8_decode_utf8(text@);
    }
    let cs = chars_of(text);
    let mut num_words: usize = 0;
    let mut prev_space = true;
    let mut i: usize = 0;
    while i < cs.len()
        invariant
            i <= cs@.len(),
            num_words == word_count(cs@.subrange(0, i as int)),
            num_words <= i,
            prev_space == (i == 0 || is_space(cs@[i - 1])),
        decreases cs@.len() - i,
    {
        let c = cs[i];
        let sp = space(c);
        proof {
            let cur = cs@.subrange(0, i + 1);
            assert(cur.drop_last() =~= cs@.subrange(0, i as int));
            lemma_word_count_le(cs@.subrange(0, i as int));
        }
        if !sp && prev_space {
            num_words = num_words + 1;
        }
        prev_space = sp;
        i = i + 1;
    }
    let mut num_lines: usize = 0;
    let mut j: usize = 0;
    while j < file.len()
        invariant
            j <= file@.len(),
            num_lines == newline_count(file@.subrange(0, j as int)),
            num_lines <= j,
        decreases file@.len() - j,
    {
        proof {
            assert(file@.subrange(0, j + 1).drop_last() =~= file@.subrange(0, j as int));
        }
        if file[j] == 10u8 {
            num_lines = num_lines + 1;
        }
        j = j + 1;
    }
    proof {
        assert(file@.subrange(0, j as int) =~= file@);
        assert(cs@.subrange(0, i as int) =~= cs@);
        lemma_newline_count_le(file@);
    }
    if file.len() > 0 && file[file.len() - 1] != 10u8 {
        proof {
            lemma_newline_count_le(file@.drop_last());
        }
        num_lines = num_lines + 1;
    }
    Ok(FileInfo { num_lines, num_words, num_bytes: file.len(), num_chars: cs.len() })
}

impl FileInfo {
    /// Adds the counts of `other` to these.
    pub fn add(&mut self, other: &FileInfo)
        requires
            old(self).num_lines + other.num_lines <= usize::MAX,
            old(self).num_words + other.num_words <= usize::MAX,
            old(self).num_bytes + other.num_bytes <= usize::MAX,
            old(self).num_chars + other.num_chars <= usize::MAX,
        ensures
            final(self).num_lines == old(self).num_lines + other.num_lines,
            final(self).num_words == old(self).num_words + other.num_words,
            final(self).num_bytes == old(self).num_bytes + other.num_bytes,
            final(self).num_chars == old(self).num_chars + other.num_chars,
    {
        self.num_lines = self.num_lines + other.num_lines;
        self.num_words = self.num_words + other.num_words;
        self.num_bytes = self.num_bytes + other.num_bytes;
        self.num_chars = self.num_chars + other.num_chars;
    }
}

proof fn lemma_encode_concat(x: Seq<char>, y: Seq<char>)
    ensures
        encode_utf8(x + y) == encode_utf8(x) + encode_utf8(y),
    decreases x.len(),
{
    if x.len() == 0 {
        assert(x + y =~= y);
        assert(encode_utf8(x) + encode_utf8(y) =~= encode_utf8(y));
    } else {
        assert((x + y).drop_first() =~= x.drop_first() + y);
        assert((x + y)[0] == x[0]);
        lemma_encode_concat(x.drop_first(), y);
    }
}

proof fn lemma_word_count_concat(x: Seq<char>, y: Seq<char>)
    requires
        x.len() == 0 || is_space(x.last()),
    ensures
        word_count(x + y) == word_count(x) + word_count(y),
    decreases y.len(),
{
    if y.len() == 0 {
        assert(x + y =~= x);
    } else {
        assert((x + y).drop_last() =~= x + y.drop_last());
        lemma_word_count_concat(x, y.drop_last());
        if y.len() >= 2 {
            assert((x + y)[(x + y).len() - 2] == y[y.len() - 2]);
        } else if x.len() > 0 {
            assert((x + y)[(x + y).len() - 2] == x.last());
        } else {
            assert(x + y =~= y);
        }
    }
}

/// Counting is additive over a line boundary: the counts of `a` followed by
/// `b` are the sums of their counts, when `a` is empty or ends with a newline
/// and both are UTF-8.
pub proof fn lemma_count_additive(a: Seq<u8>, b: Seq<u8>)
    requires
        valid_utf8(a),
        valid_utf8(b),
        a.len() == 0 || a.last() == 10u8,
        decode_utf8(a).len() == 0 || is_space(decode_utf8(a).last()),
    ensures
        valid_utf8(a + b),
        line_count(a + b) == line_count(a) + line_count(b),
        word_count(decode_utf8(a + b)) == word_count(decode_utf8(a)) + word_count(decode_utf8(b)),
        decode_utf8(a + b).len() == decode_utf8(a).len() + decode_utf8(b).len(),
{
    let ca = decode_utf8(a);
    let cb = decode_utf8(b);
    decode_utf8_encode_utf8(a);
    decode_utf8_encode_utf8(b);
    lemma_encode_concat(ca, cb);
    assert(a + b == encode_utf8(ca + cb));
    encode_utf8_valid_utf8(ca + cb);
    encode_utf8_decode_utf8(ca + cb);
    lemma_word_count_concat(ca, cb);
    lemma_newline_count_concat(a, b);
    if b.len() > 0 {
        assert((a + b).last() == b.last());
    } else {
        assert(a + b =~= a);
    }
}

/// Which counts are reported.
#[derive(Debug, Clone, Copy, PartialEq, Eq, Structural)]
pub struct Selection {
    pub lines: bool,
    pub words: bool,
    pub bytes: bool,
    pub chars: bool,
}

impl Selection {
    /// With nothing chosen, reports lines, words and bytes.
    pub fn finalize(&mut self)
        ensures
            !old(self).lines && !old(self).words && !old(self).bytes && !old(self).chars
                ==> *final(self) == (Selection { lines: true, words: true, bytes: true, chars: false }),
            old(self).lines || old(self).words || old(self).bytes || old(self).chars
                ==> *final(self) == *old(self),
    {
        if !self.lines && !self.words && !self.bytes && !self.chars {
            self.lines = true;
            self.words = true;
            self.bytes = true;
        }
    }
}

/// One count in its column of eight, or nothing when it is not chosen.
pub open spec fn column(chosen: bool, n: usize) -> Seq<char> {
    if chosen { pad_left(decimal(n as nat), 8) } else { Seq::empty() }
}

/// The report line: the chosen counts, then the name unless the input was
/// standard input (`-`).
pub open spec fn report_line(info: FileInfo, filename: Seq<char>, sel: Selection) -> Seq<char> {
    column(sel.lines, info.num_lines) + column(sel.words, info.num_words) + column(
        sel.bytes,
        info.num_bytes,
    ) + column(sel.chars, info.num_chars) + if filename == seq!['-'] {
        Seq::empty()
    } else {
        " "@ + filename
    }
}

impl FileInfo {
    fn push_column(s: &mut String, chosen: bool, n: usize)
        ensures
            final(s)@ == old(s)@ + column(chosen, n),
    {
        if chosen {
            push_padded_decimal(s, n as u64, 8);
        } else {
            proof {
                assert(old(s)@ + column(chosen, n) =~= old(s)@);
            }
        }
    }

    /// The report line for these counts, without its line break.
    pub fn format(&self, filename: &str, sel: &Selection) -> (r: String)
        ensures
            r@ == report_line(*self, filename@, *sel),
    {
        let mut s = String::new();
        FileInfo::push_column(&mut s, sel.lines, self.num_lines);
        FileInfo::push_column(&mut s, sel.words, self.num_words);
        FileInfo::push_column(&mut s, sel.bytes, self.num_bytes);
        FileInfo::push_column(&mut s, sel.chars, self.num_chars);
        let ghost counts = s@;
        let stdin = filename.unicode_len() == 1 && filename.get_char(0) == '-';
        proof {
            if stdin {
                assert(filename@ =~= seq!['-']);
            }
        }
        if !stdin {
            s.append(" ");
            s.append(filename);
        }
        proof {
            assert(s@ =~= report_line(*self, filename@, *sel));
        }
        s
    }
}

} // verus!
