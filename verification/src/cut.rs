//! The cutter: extracts a half-open or open-ended byte range of a source
//! stream, verbatim.

use vstd::prelude::*;

verus! {

/// How a cut request can fail: an end before the start (a usage error,
/// guarded explicitly rather than allowed to wrap), or a range that runs
/// past the end of the source.
#[derive(Clone, Copy, Debug, PartialEq, Eq, Structural)]
pub enum CutError {
    BackwardRange,
    SourceTooShort,
}

/// The exclusive end a cut request asks for: its own `to`, or the end of the
/// source when `to` is absent.
pub open spec fn spec_cut_end(data_len: int, to: Option<u64>) -> int {
    match to {
        Some(t) => t as int,
        None => data_len,
    }
}

/// Copies the bytes `[from, to)` of `data` — `[from, end of data)` when `to`
/// is absent — into a fresh buffer.
///
/// Fails with `BackwardRange` exactly when `to` lies before `from`, and with
/// `SourceTooShort` exactly when the requested range runs past the end of
/// the source; otherwise the output holds exactly the requested bytes, so
/// its length is `to - from` (or the source's length minus `from`).
pub fn cut_range(data: &Vec<u8>, from: u64, to: Option<u64>) -> (r: Result<Vec<u8>, CutError>)
    ensures
        ({
            let end = spec_cut_end(data@.len() as int, to);
            if to is Some && end < from {
                r == Err::<Vec<u8>, CutError>(CutError::BackwardRange)
            } else if end > data@.len() || from > data@.len() {
                r == Err::<Vec<u8>, CutError>(CutError::SourceTooShort)
            } else {
                &&& r is Ok
                &&& r->Ok_0@ == data@.subrange(from as int, end)
                &&& r->Ok_0@.len() == end - from
            }
        }),
{
    let len = data.len();
    let end: u64 = match to {
        Some(t) => {
            if t < from {
                return Err(CutError::BackwardRange);
            }
            t
        },
        None => len as u64,
    };
    if end > len as u64 {
        return Err(CutError::SourceTooShort);
    }
    if from > end {
        return Err(CutError::SourceTooShort);
    }
    let start = from as usize;
    let stop = end as usize;
    let mut out: Vec<u8> = Vec::new();
    let mut j: usize = start;
    while j < stop
        invariant
            start <= j <= stop <= data@.len(),
            out@ == data@.subrange(start as int, j as int),
        decreases stop - j,
    {
        out.push(data[j]);
        assert(out@ =~= data@.subrange(start as int, j + 1));
        j = j + 1;
    }
    assert(out@ =~= data@.subrange(from as int, end as int));
    Ok(out)
}

} // verus!
