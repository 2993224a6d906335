//! Cutting fortunes out of `%`-separated files.

use crate::text::{lossy_text, to_lossy_text, trim, trimmed};
use vstd::prelude::*;

verus! {

/// Cuts fortunes out of a file read piece by piece, each piece ending with
/// the `%` that separates fortunes (the last one may lack it). A piece whose
/// text is empty or a lone `%` is kept and read again with the next piece.
pub struct FortuneChunks {
    pending: Vec<u8>,
}

/// The fortune text of the bytes read so far: all but the final byte,
/// decoded leniently, without surrounding white space.
pub open spec fn fortune_text(bytes: Seq<u8>) -> Seq<char> {
    trim(lossy_text(bytes.drop_last()))
}

impl FortuneChunks {
    /// Bytes read and not yet given out as a fortune.
    pub closed spec fn spec_pending(&self) -> Seq<u8> {
        self.pending@
    }

    /// Nothing read yet.
    pub fn new() -> (r: Self)
        ensures
            r.spec_pending() == Seq::<u8>::empty(),
    {
        FortuneChunks { pending: Vec::new() }
    }

    /// Takes the next piece; returns the fortune it completes, if any.
    pub fn push_chunk(&mut self, chunk: &[u8]) -> (r: Option<String>)
        requires
            chunk@.len() > 0,
        ensures
            ({
                let all = old(self).spec_pending() + chunk@;
                let t = fortune_text(all);
                if t.len() == 0 || t == seq!['%'] {
                    r is None && final(self).spec_pending() == all
                } else {
                    r matches Some(s) && s@ == t && final(self).spec_pending()
                        == Seq::<u8>::empty()
                }
            }),
    {
        let ghost all = self.pending@ + chunk@;
        let mut i: usize = 0;
        while i < chunk.len()
            invariant
                i <= chunk@.len(),
                self.pending@ == old(self).pending@ + chunk@.take(i as int),
            decreases chunk@.len() - i,
        {
            self.pending.push(chunk[i]);
            i = i + 1;
            proof {
                assert(self.pending@ =~= old(self).pending@ + chunk@.take(i as int));
            }
        }
        proof {
            assert(chunk@.take(i as int) =~= chunk@);
        }
        let n = self.pending.len() - 1;
        let mut body: Vec<u8> = Vec::new();
        let mut j: usize = 0;
        while j < n
            invariant
                n == self.pending@.len() - 1,
                j <= n,
                body@ == self.pending@.take(j as int),
            decreases n - j,
        {
            body.push(self.pending[j]);
            j = j + 1;
            proof {
                assert(body@ =~= self.pending@.take(j as int));
            }
        }
        proof {
            assert(body@ =~= all.drop_last());
        }
        let decoded = to_lossy_text(body.as_slice());
        let text = trimmed(decoded.as_str());
        let len = text.as_str().unicode_len();
        let skip = len == 0 || (len == 1 && text.as_str().get_char(0) == '%');
        proof {
            if len == 1 && text@[0] == '%' {
                assert(text@ =~= seq!['%']);
            }
        }
        if skip {
            None
        } else {
            self.pending = Vec::new();
            Some(text)
        }
    }
}

} // verus!
