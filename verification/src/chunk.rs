//! The chunk planner: splits a newline-terminated byte buffer into at most
//! `workers` contiguous, record-aligned ranges.

use vstd::prelude::*;
use vstd::slice::slice_subrange;
use crate::parser::NEWLINE;
use crate::Error;

verus! {

/// A half-open, record-aligned byte range of the source.
#[derive(Clone, Copy, Debug, PartialEq, Eq, Structural)]
pub struct Chunk {
    pub start: usize,
    pub end: usize,
}

/// The ranges are nonempty, contiguous, start at zero and end at `len`;
/// together they cover `[0, len)` exactly, in order and without overlap.
pub open spec fn chunks_ok(cs: Seq<Chunk>, len: int) -> bool {
    &&& forall|i: int| 0 <= i < cs.len() ==> (#[trigger] cs[i].start) < cs[i].end
    &&& forall|i: int| 0 <= i < cs.len() - 1 ==> (#[trigger] cs[i].end) == cs[i + 1].start
    &&& cs.len() > 0 ==> cs[0].start == 0 && cs[cs.len() - 1].end == len
    &&& len > 0 ==> cs.len() >= 1
}

/// Every range ends immediately after a newline of the source.
pub open spec fn chunks_aligned(cs: Seq<Chunk>, data: Seq<u8>) -> bool {
    forall|i: int| 0 <= i < cs.len() ==> data[(#[trigger] cs[i].end) - 1] == NEWLINE
}

/// One past the last newline of `s`, or `s.len()` if `s` holds no newline.
pub fn last_newline(s: &[u8]) -> (r: usize)
    ensures
        r <= s@.len(),
        (exists|k: int| 0 <= k < s@.len() && s@[k] == NEWLINE) ==> 0 < r && s@[r - 1] == NEWLINE
            && (forall|k: int| r <= k < s@.len() ==> s@[k] != NEWLINE),
        !(exists|k: int| 0 <= k < s@.len() && s@[k] == NEWLINE) ==> r == s@.len(),
{
    let mut i: usize = s.len();
    while i > 0
        invariant
            0 <= i <= s@.len(),
            forall|k: int| i <= k < s@.len() ==> s@[k] != NEWLINE,
        decreases i,
    {
        if s[i - 1] == NEWLINE {
            return i;
        }
        i = i - 1;
    }
    s.len()
}

/// Plan at most `workers` record-aligned chunks covering all of `data`.
///
/// Each chunk but the last ends right after the last newline inside its
/// target-sized window; the last chunk absorbs the remainder. Fails exactly
/// when nonempty input does not end with a newline (which also covers input
/// without any newline).
#[verifier::loop_isolation(false)]
pub fn plan_chunks(data: &[u8], workers: usize) -> (r: Result<Vec<Chunk>, Error>)
    requires
        workers >= 1,
    ensures
        match r {
            Ok(cs) => {
                &&& data@.len() == 0 || data@.last() == NEWLINE
                &&& chunks_ok(cs@, data@.len() as int)
                &&& chunks_aligned(cs@, data@)
                &&& cs@.len() <= workers
            },
            Err(e) => {
                &&& e == Error::InputError
                &&& data@.len() > 0
                &&& data@.last() != NEWLINE
            },
        },
{
    let n = data.len();
    if n == 0 {
        return Ok(Vec::new());
    }
    if data[n - 1] != NEWLINE {
        return Err(Error::InputError);
    }
    let t = n / workers;
    let target: usize = if t == 0 {
        1
    } else {
        t
    };
    let mut chunks: Vec<Chunk> = Vec::new();
    let mut offset: usize = 0;
    let mut rounds: usize = 0;
    while offset < n
        invariant
            0 <= offset <= n,
            n == data@.len(),
            data@[n - 1] == NEWLINE,
            target >= 1,
            rounds == chunks@.len(),
            rounds <= workers,
            offset < n ==> rounds < workers,
            chunks@.len() == 0 ==> offset == 0,
            chunks@.len() > 0 ==> chunks@[0].start == 0 && chunks@[chunks@.len() - 1].end
                == offset,
            forall|i: int| 0 <= i < chunks@.len() ==> (#[trigger] chunks@[i].start)
                < chunks@[i].end,
            forall|i: int| 0 <= i < chunks@.len() - 1 ==> (#[trigger] chunks@[i].end)
                == chunks@[i + 1].start,
            forall|i: int| 0 <= i < chunks@.len() ==> data@[(#[trigger] chunks@[i].end) - 1]
                == NEWLINE,
        decreases n - offset,
    {
        if rounds + 1 >= workers {
            chunks.push(Chunk { start: offset, end: n });
            offset = n;
        } else {
            let cand: usize = if target < n - offset {
                offset + target
            } else {
                n
            };
            let window = slice_subrange(data, offset, cand);
            let ln = last_newline(window);
            if ln > 0 && data[offset + ln - 1] == NEWLINE {
                chunks.push(Chunk { start: offset, end: offset + ln });
                offset = offset + ln;
            } else {
                chunks.push(Chunk { start: offset, end: n });
                offset = n;
            }
        }
        rounds = rounds + 1;
    }
    Ok(chunks)
}

} // verus!
