//! Collapsing runs of adjacent equal lines, with optional counts.

use crate::text::{chars_of, decimal, pad_left, push_padded_decimal, trim_end, trimmed_len};
use vstd::prelude::*;

verus! {

/// The output line for a run of `count` equal lines whose first is `line`:
/// with `show_count`, the count right-aligned in four columns and a space
/// come first.
pub open spec fn group_line(show_count: bool, count: nat, line: Seq<char>) -> Seq<char> {
    if show_count {
        pad_left(decimal(count), 4) + " "@ + line
    } else {
        line
    }
}

/// Whether two lines are equal once trailing white space is removed.
pub fn same_line(a: &str, b: &str) -> (r: bool)
    ensures
        r == (trim_end(a@) == trim_end(b@)),
{
    let ca = chars_of(a);
    let cb = chars_of(b);
    let na = trimmed_len(&ca);
    let nb = trimmed_len(&cb);
    if na != nb {
        proof {
            assert(trim_end(a@).len() != trim_end(b@).len());
        }
        return false;
    }
    let mut i: usize = 0;
    while i < na
        invariant
            na == nb,
            ca@ == a@,
            cb@ == b@,
            trim_end(a@) == ca@.take(na as int),
            trim_end(b@) == cb@.take(nb as int),
            na <= ca@.len(),
            nb <= cb@.len(),
            i <= na,
            forall|k: int| 0 <= k < i ==> ca@[k] == cb@[k],
        decreases na - i,
    {
        if ca[i] != cb[i] {
            proof {
                assert(trim_end(a@)[i as int] != trim_end(b@)[i as int]);
            }
            return false;
        }
        i = i + 1;
    }
    proof {
        assert(ca@.take(na as int) =~= cb@.take(nb as int));
    }
    true
}

/// Collapses runs of adjacent equal lines, one line at a time. Lines are
/// equal when they differ only in trailing white space; a run is reported
/// by its first line.
pub struct UniqGroups {
    show_count: bool,
    prev: String,
    count: u64,
}

impl UniqGroups {
    /// Whether output lines carry their run's length.
    pub closed spec fn spec_show_count(&self) -> bool {
        self.show_count
    }

    /// The first line of the current run.
    pub closed spec fn spec_prev(&self) -> Seq<char> {
        self.prev@
    }

    /// Length of the current run; zero before the first line.
    pub closed spec fn spec_count(&self) -> nat {
        self.count as nat
    }

    /// No line taken yet.
    pub fn new(show_count: bool) -> (r: Self)
        ensures
            r.spec_show_count() == show_count,
            r.spec_count() == 0,
    {
        UniqGroups { show_count, prev: String::new(), count: 0 }
    }

    /// Length of the current run.
    pub fn count(&self) -> (r: u64)
        ensures
            r == self.spec_count(),
    {
        self.count
    }

    fn render(&self) -> (r: String)
        ensures
            r@ == group_line(self.show_count, self.count as nat, self.prev@),
    {
        let mut out = String::new();
        if self.show_count {
            push_padded_decimal(&mut out, self.count, 4);
            out.append(" ");
        }
        out.append(self.prev.as_str());
        proof {
            assert(out@ =~= group_line(self.show_count, self.count as nat, self.prev@));
        }
        out
    }

    /// Takes the next line. When it ends the current run, returns the
    /// output line for that run.
    pub fn push_line(&mut self, line: String) -> (r: Option<String>)
        requires
            old(self).spec_count() < u64::MAX,
        ensures
            final(self).spec_show_count() == old(self).spec_show_count(),
            old(self).spec_count() == 0 ==> {
                &&& r is None
                &&& final(self).spec_prev() == line@
                &&& final(self).spec_count() == 1
            },
            old(self).spec_count() > 0 && trim_end(line@) == trim_end(old(self).spec_prev()) ==> {
                &&& r is None
                &&& final(self).spec_prev() == old(self).spec_prev()
                &&& final(self).spec_count() == old(self).spec_count() + 1
            },
            old(self).spec_count() > 0 && trim_end(line@) != trim_end(old(self).spec_prev()) ==> {
                &&& r matches Some(out) && out@ == group_line(
                    old(self).spec_show_count(),
                    old(self).spec_count(),
                    old(self).spec_prev(),
                )
                &&& final(self).spec_prev() == line@
                &&& final(self).spec_count() == 1
            },
    {
        if self.count == 0 {
            self.prev = line;
            self.count = 1;
            None
        } else if same_line(line.as_str(), self.prev.as_str()) {
            self.count = self.count + 1;
            None
        } else {
            let out = self.render();
            self.prev = line;
            self.count = 1;
            Some(out)
        }
    }

    /// The output line for the last run, if any line was taken.
    pub fn finish(&self) -> (r: Option<String>)
        ensures
            self.spec_count() == 0 ==> r is None,
            self.spec_count() > 0 ==> (r matches Some(out) && out@ == group_line(
                self.spec_show_count(),
                self.spec_count(),
                self.spec_prev(),
            )),
    {
        if self.count == 0 {
            None
        } else {
            Some(self.render())
        }
    }
}

} // verus!
