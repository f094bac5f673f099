//! The segment index: the ordered record a full scan of one file produces
//! and the matching phase consumes.

use vstd::prelude::*;

verus! {

/// One segment of a scanned stream: the digest of every packet identifier
/// inside it, in stream order, and the byte offset of its first packet.
#[derive(Clone, Copy, Debug, PartialEq, Eq, Structural)]
pub struct TsSegment {
    pub hash: u64,
    pub offset: u64,
}

/// The exclusive end of segment `i`: the next segment's offset, or the whole
/// file's length for the final segment.
pub open spec fn spec_segment_end(segs: Seq<TsSegment>, i: int, file_len: int) -> int {
    if i + 1 < segs.len() {
        segs[i + 1].offset as int
    } else {
        file_len
    }
}

/// Well-formedness of a segment sequence against the length of the file it
/// indexes: offsets strictly increase and never pass the end of the file.
pub open spec fn segments_wf(segs: Seq<TsSegment>, file_len: int) -> bool {
    &&& forall|i: int|
        0 <= i < segs.len() - 1 ==> (#[trigger] segs[i]).offset < segs[i + 1].offset
    &&& forall|i: int| 0 <= i < segs.len() ==> (#[trigger] segs[i]).offset <= file_len
}

/// A scanned file's identity together with its segments, in stream order.
#[derive(Debug)]
pub struct HashFile {
    pub file: String,
    pub segments: Vec<TsSegment>,
}

impl HashFile {
    /// The number of segments in the index.
    pub fn len(&self) -> (n: usize)
        ensures
            n == self.segments@.len(),
    {
        self.segments.len()
    }

    /// The segments in stream order.
    pub fn iter(&self) -> (r: &Vec<TsSegment>)
        ensures
            r@ == self.segments@,
    {
        &self.segments
    }

    /// The segment at position `i`.
    pub fn index(&self, i: usize) -> (s: &TsSegment)
        requires
            i < self.segments@.len(),
        ensures
            *s == self.segments@[i as int],
    {
        &self.segments[i]
    }

    /// Decides well-formedness against a file of `file_len` bytes.
    pub fn check_wf(&self, file_len: u64) -> (r: bool)
        ensures
            r == segments_wf(self.segments@, file_len as int),
    {
        let n = self.segments.len();
        let mut i: usize = 0;
        while i < n
            invariant
                i <= n,
                n == self.segments@.len(),
                forall|j: int|
                    0 <= j < i && j < n - 1 ==> (#[trigger] self.segments@[j]).offset
                        < self.segments@[j + 1].offset,
                forall|j: int| 0 <= j < i ==> (#[trigger] self.segments@[j]).offset <= file_len,
            decreases n - i,
        {
            if self.segments[i].offset > file_len {
                return false;
            }
            if i + 1 < n && self.segments[i].offset >= self.segments[i + 1].offset {
                return false;
            }
            i = i + 1;
        }
        true
    }
}

} // verus!
