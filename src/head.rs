//! The part of an input shown from its start.

use vstd::prelude::*;

verus! {

/// What is shown of an input: its first `n` bytes when a byte count is
/// given, else all of it.
pub open spec fn head_of(data: Seq<u8>, bytes: Option<u64>) -> Seq<u8> {
    match bytes {
        Some(n) => if n < data.len() { data.take(n as int) } else { data },
        None => data,
    }
}

/// Selects what is shown of an input.
pub fn head_window(data: &[u8], bytes: Option<u64>) -> (r: Vec<u8>)
    ensures
        r@ == head_of(data@, bytes),
{
    let end: usize = match bytes {
        Some(n) => if n < data.len() as u64 { n as usize } else { data.len() },
        None => data.len(),
    };
    let mut out: Vec<u8> = Vec::new();
    let mut i: usize = 0;
    while i < end
        invariant
            i <= end <= data@.len(),
            out@ == data@.take(i as int),
        decreases end - i,
    {
        out.push(data[i]);
        i = i + 1;
        proof {
            assert(out@ =~= data@.take(i as int));
        }
    }
    proof {
        assert(data@.take(data@.len() as int) =~= data@);
    }
    out
}

} // verus!
