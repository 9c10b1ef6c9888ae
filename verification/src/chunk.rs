//! Dividing the byte view into contiguous worker chunks, each realigned
//! to end right after a line terminator so no record spans two chunks.

use vstd::prelude::*;
use vstd::slice::slice_subrange;

use crate::scan::find_spec;
use crate::scan::find_terminator;
use crate::scan::TERMINATOR;

verus! {

/// The chunk list is a contiguous, exact cover of `[0, len)`; every
/// interior boundary lands right after a terminator or at end of data.
pub open spec fn chunks_wf(chunks: Seq<(usize, usize)>, s: Seq<u8>) -> bool {
    &&& chunks.len() >= 1
    &&& chunks[0].0 == 0
    &&& chunks[chunks.len() - 1].1 == s.len()
    &&& forall|i: int|
        0 <= i < chunks.len() ==> (#[trigger] chunks[i]).0 <= chunks[i].1 <= s.len()
    &&& forall|i: int|
        0 <= i < chunks.len() - 1 ==> (#[trigger] chunks[i + 1]).0 == chunks[i].1
    &&& forall|i: int|
        0 <= i < chunks.len() - 1 ==> (#[trigger] chunks[i]).1 == s.len() || s[chunks[i].1
            - 1] == TERMINATOR
}

/// Where a chunk that starts at `start` must end: one past the first
/// terminator at or after the raw boundary `start + w`, or the end of
/// the data when no terminator follows.
pub open spec fn chunk_end_spec(s: Seq<u8>, start: int, w: int) -> int {
    let raw = if start + w <= s.len() {
        start + w
    } else {
        s.len() as int
    };
    match find_spec(s.subrange(raw, s.len() as int), TERMINATOR) {
        Some(j) => raw + j + 1,
        None => s.len() as int,
    }
}

/// Plan `n` contiguous chunks over `s`, realigned to line boundaries.
pub fn plan(s: &[u8], n: usize) -> (r: Vec<(usize, usize)>)
    requires
        1 <= n,
    ensures
        r@.len() == n,
        chunks_wf(r@, s@),
        forall|k: int|
            0 <= k < n - 1 ==> (#[trigger] r@[k]).1 == chunk_end_spec(
                s@,
                r@[k].0 as int,
                s@.len() as int / n as int,
            ),
{
    let len = s.len();
    let w = len / n;
    let mut r: Vec<(usize, usize)> = Vec::new();
    let mut pos: usize = 0;
    let mut i: usize = 0;
    while i < n
        invariant
            1 <= n,
            i <= n,
            i == r@.len(),
            w == s@.len() as int / n as int,
            len == s@.len(),
            pos <= len,
            i == 0 ==> pos == 0,
            i > 0 ==> r@[0].0 == 0 && pos == r@[i - 1].1,
            forall|k: int| 0 <= k < i ==> (#[trigger] r@[k]).0 <= r@[k].1 <= len,
            forall|k: int| 0 <= k < i - 1 ==> (#[trigger] r@[k + 1]).0 == r@[k].1,
            forall|k: int|
                0 <= k < i && k < n - 1 ==> (#[trigger] r@[k]).1 == len || s@[r@[k].1 - 1]
                    == TERMINATOR,
            forall|k: int|
                0 <= k < i && k < n - 1 ==> (#[trigger] r@[k]).1 == chunk_end_spec(
                    s@,
                    r@[k].0 as int,
                    s@.len() as int / n as int,
                ),
            forall|k: int| 0 <= k < i && k == n - 1 ==> (#[trigger] r@[k]).1 == len,
        decreases n - i,
    {
        let end: usize;
        if i == n - 1 {
            end = len;
        } else {
            let raw = if w <= len - pos {
                pos + w
            } else {
                len
            };
            let tail = slice_subrange(s, raw, len);
            let t = find_terminator(tail);
            proof {
                crate::scan::lemma_find_spec(tail@, TERMINATOR);
            }
            end = match t {
                Some(j) => raw + j + 1,
                None => len,
            };
        }
        r.push((pos, end));
        pos = end;
        i = i + 1;
    }
    r
}

} // verus!
