//! The segment scanner: converts a raw byte stream into its ordered sequence
//! of segments, resynchronizing on sync-byte loss.
//!
//! The scan walks the stream looking for the sync byte `0x47`, decodes the
//! 4-byte header found there, and skips the remaining 184 bytes of the
//! packet. A packet with PID 0 and the payload-unit-start flag closes the
//! currently open segment and opens a new one at the packet's own offset.
//! The open segment's offset starts at 0, so every scan of a readable stream
//! yields at least one segment and the first segment always starts at 0.

use vstd::prelude::*;

use crate::hash::{spec_hash_pid, hash_pid, HASH_INIT};
use crate::header::{spec_is_start, spec_pid, MpegtsHeader, PACKET_SIZE, SYNC_BYTE};
use crate::index::{segments_wf, spec_segment_end, TsSegment};

verus! {

/// How a scan can fail: a sync byte within the final three bytes of the
/// stream leaves no room for a whole packet header.
#[derive(Clone, Copy, Debug, PartialEq, Eq, Structural)]
pub enum ScanError {
    TruncatedPacket,
}

/// The scan from byte position `pos`, with a segment open at offset `open`
/// whose digest so far is `h`. `None` means the scan fails on a truncated
/// header; otherwise the result is the remaining segments, the one open at
/// `open` first.
pub open spec fn spec_scan_from(data: Seq<u8>, pos: int, open: int, h: u64) -> Option<
    Seq<TsSegment>,
>
    decreases vstd::math::max(data.len() - pos, 0),
{
    if pos < 0 || pos >= data.len() {
        Some(seq![TsSegment { hash: h, offset: open as u64 }])
    } else if data[pos] != SYNC_BYTE {
        spec_scan_from(data, pos + 1, open, h)
    } else if pos + 4 > data.len() {
        None
    } else {
        let pid = spec_pid(data[pos + 1], data[pos + 2]);
        if pid == 0 && spec_is_start(data[pos + 1]) && pos > open {
            match spec_scan_from(data, pos + PACKET_SIZE as int, pos, spec_hash_pid(HASH_INIT, pid)) {
                None => None,
                Some(rest) => Some(
                    seq![TsSegment { hash: h, offset: open as u64 }] + rest,
                ),
            }
        } else {
            spec_scan_from(data, pos + PACKET_SIZE as int, open, spec_hash_pid(h, pid))
        }
    }
}

/// The full scan of a stream.
pub open spec fn spec_scan(data: Seq<u8>) -> Option<Seq<TsSegment>> {
    spec_scan_from(data, 0, 0, HASH_INIT)
}

/// Scans a whole stream into its segments.
///
/// Fails only when the scan lands on a sync byte with fewer than four bytes
/// of stream left; otherwise the result is never empty, its first offset is
/// 0, its offsets strictly increase, and it holds the segments of
/// `spec_scan` in stream order.
pub fn scan_segments(data: &Vec<u8>) -> (r: Result<Vec<TsSegment>, ScanError>)
    ensures
        match r {
            Ok(v) => {
                &&& spec_scan(data@) == Some(v@)
                &&& v@.len() >= 1
                &&& v@[0].offset == 0
                &&& segments_wf(v@, data@.len() as int)
            },
            Err(e) => spec_scan(data@) is None && e == ScanError::TruncatedPacket,
        },
{
    let r = scan_core(data);
    proof {
        assert(data@.len() == data.len());
        if spec_scan(data@) is Some {
            lemma_scan_wf(data@);
        }
    }
    r
}

/// The scan loop itself, stated only against `spec_scan`.
fn scan_core(data: &Vec<u8>) -> (r: Result<Vec<TsSegment>, ScanError>)
    ensures
        match r {
            Ok(v) => spec_scan(data@) == Some(v@),
            Err(e) => spec_scan(data@) is None && e == ScanError::TruncatedPacket,
        },
{
    let mut segs: Vec<TsSegment> = Vec::new();
    let mut pos: usize = 0;
    let mut open: usize = 0;
    let mut h: u64 = HASH_INIT;
    loop
        invariant
            pos <= data@.len(),
            open <= data@.len(),
            spec_scan(data@) == (match spec_scan_from(data@, pos as int, open as int, h) {
                None => None::<Seq<TsSegment>>,
                Some(rest) => Some(segs@ + rest),
            }),
        decreases data@.len() - pos,
    {
        if pos >= data.len() {
            segs.push(TsSegment { hash: h, offset: open as u64 });
            assert(spec_scan_from(data@, pos as int, open as int, h) == Some(
                seq![TsSegment { hash: h, offset: open as u64 }],
            ));
            return Ok(segs);
        }
        if data[pos] != SYNC_BYTE {
            pos = pos + 1;
        } else {
            if data.len() - pos < 4 {
                assert(spec_scan_from(data@, pos as int, open as int, h) is None);
                return Err(ScanError::TruncatedPacket);
            }
            let header = MpegtsHeader::new(
                vstd::slice::slice_subrange(data.as_slice(), pos, pos + 4),
            );
            if header.pid == 0 && header.is_start && pos > open {
                segs.push(TsSegment { hash: h, offset: open as u64 });
                open = pos;
                h = hash_pid(HASH_INIT, header.pid);
            } else {
                h = hash_pid(h, header.pid);
            }
            let ghost mid = pos + PACKET_SIZE as int;
            if data.len() - pos < PACKET_SIZE {
                pos = data.len();
            } else {
                pos = pos + PACKET_SIZE;
            }
            assert(spec_scan_from(data@, mid, open as int, h) == spec_scan_from(
                data@,
                pos as int,
                open as int,
                h,
            ));
        }
    }
}

/// Scans a whole stream and wraps the segments, with the stream's identity,
/// into a segment index.
pub fn build_index(file: String, data: &Vec<u8>) -> (r: Result<crate::index::HashFile, ScanError>)
    ensures
        match r {
            Ok(hf) => {
                &&& spec_scan(data@) == Some(hf.segments@)
                &&& hf.file == file
                &&& hf.segments@.len() >= 1
                &&& hf.segments@[0].offset == 0
                &&& segments_wf(hf.segments@, data@.len() as int)
            },
            Err(e) => spec_scan(data@) is None && e == ScanError::TruncatedPacket,
        },
{
    let segments = match scan_segments(data) {
        Ok(v) => v,
        Err(e) => {
            return Err(e);
        },
    };
    proof {
        assert(data@.len() == data.len());
        lemma_scan_wf(data@);
    }
    Ok(crate::index::HashFile { file, segments })
}

/// The shape of any successful scan tail: at least one segment comes out,
/// the first carries the open offset, every later one starts at or after the
/// current position, offsets strictly increase, and none passes the end of
/// the stream.
pub proof fn lemma_scan_from_structure(data: Seq<u8>, pos: int, open: int, h: u64)
    requires
        data.len() <= usize::MAX,
        0 <= open <= data.len(),
        spec_scan_from(data, pos, open, h) is Some,
    ensures
        ({
            let r = spec_scan_from(data, pos, open, h)->Some_0;
            &&& r.len() >= 1
            &&& r[0].offset == open
            &&& forall|i: int| 0 <= i < r.len() ==> (#[trigger] r[i]).offset <= data.len()
            &&& forall|i: int| 1 <= i < r.len() ==> pos <= (#[trigger] r[i]).offset
            &&& forall|i: int| 0 <= i < r.len() - 1 ==> (#[trigger] r[i]).offset < r[i + 1].offset
        }),
    decreases vstd::math::max(data.len() - pos, 0),
{
    if pos < 0 || pos >= data.len() {
    } else if data[pos] != SYNC_BYTE {
        lemma_scan_from_structure(data, pos + 1, open, h);
    } else {
        let pid = spec_pid(data[pos + 1], data[pos + 2]);
        let r = spec_scan_from(data, pos, open, h)->Some_0;
        if pid == 0 && spec_is_start(data[pos + 1]) && pos > open {
            let h0 = spec_hash_pid(HASH_INIT, pid);
            lemma_scan_from_structure(data, pos + PACKET_SIZE as int, pos, h0);
            let rest = spec_scan_from(data, pos + PACKET_SIZE as int, pos, h0)->Some_0;
            assert(r == seq![TsSegment { hash: h, offset: open as u64 }] + rest);
            assert(r.len() == 1 + rest.len());
            assert(r[0].offset == open);
            assert forall|i: int| 0 <= i < r.len() implies (#[trigger] r[i]).offset
                <= data.len() by {
                if i >= 1 {
                    assert(r[i] == rest[i - 1]);
                }
            }
            assert forall|i: int| 1 <= i < r.len() implies pos <= (#[trigger] r[i]).offset by {
                assert(r[i] == rest[i - 1]);
                if i == 1 {
                    assert(rest[0].offset == pos);
                } else {
                    assert(pos + PACKET_SIZE as int <= rest[i - 1].offset);
                }
            }
            assert forall|i: int| 0 <= i < r.len() - 1 implies (#[trigger] r[i]).offset < r[i
                + 1].offset by {
                if i == 0 {
                    assert(r[1] == rest[0]);
                    assert(rest[0].offset == pos);
                } else {
                    assert(r[i] == rest[i - 1] && r[i + 1] == rest[i]);
                }
            }
        } else {
            lemma_scan_from_structure(data, pos + PACKET_SIZE as int, open, spec_hash_pid(h, pid));
        }
    }
}

/// Law: a successful scan yields a non-empty, well-formed index whose first
/// segment starts at byte 0: offsets are strictly increasing (monotonicity)
/// and never pass the end of the stream.
pub proof fn lemma_scan_wf(data: Seq<u8>)
    requires
        data.len() <= usize::MAX,
        spec_scan(data) is Some,
    ensures
        ({
            let segs = spec_scan(data)->Some_0;
            &&& segs.len() >= 1
            &&& segs[0].offset == 0
            &&& segments_wf(segs, data.len() as int)
        }),
{
    lemma_scan_from_structure(data, 0, 0, HASH_INIT);
}

/// The exclusive end of the scan tail's first segment: the next emitted
/// offset, or the end of the stream.
pub open spec fn spec_tail_end(data: Seq<u8>, r: Seq<TsSegment>) -> int {
    if r.len() >= 2 {
        r[1].offset as int
    } else {
        data.len() as int
    }
}

/// Scanning the open segment's own byte span from its offset, afresh, walks
/// the same packets: from any mid-scan state, the rest of the open segment
/// rescans to that one segment, with the same digest, at offset 0.
pub proof fn lemma_scan_mirror(data: Seq<u8>, pos: int, a: int, h: u64)
    requires
        data.len() <= usize::MAX,
        0 <= a <= pos,
        a <= data.len(),
        spec_scan_from(data, pos, a, h) is Some,
    ensures
        ({
            let r = spec_scan_from(data, pos, a, h)->Some_0;
            let b = spec_tail_end(data, r);
            spec_scan_from(data.subrange(a, b), pos - a, 0, h) == Some(
                seq![TsSegment { hash: r[0].hash, offset: 0 }],
            )
        }),
    decreases vstd::math::max(data.len() - pos, 0),
{
    let r = spec_scan_from(data, pos, a, h)->Some_0;
    lemma_scan_from_structure(data, pos, a, h);
    let b = spec_tail_end(data, r);
    assert(a <= b <= data.len());
    let nd = data.subrange(a, b);
    if pos >= data.len() {
        assert(r == seq![TsSegment { hash: h, offset: a as u64 }]);
        assert(b == data.len());
        assert(pos - a >= nd.len());
        assert(spec_scan_from(nd, pos - a, 0, h) == Some(seq![TsSegment { hash: h, offset: 0 }]));
    } else if data[pos] != SYNC_BYTE {
        lemma_scan_from_structure(data, pos + 1, a, h);
        assert(pos < b);
        assert(nd[pos - a] == data[pos]);
        lemma_scan_mirror(data, pos + 1, a, h);
        assert(spec_scan_from(nd, pos - a, 0, h) == spec_scan_from(nd, pos + 1 - a, 0, h));
    } else {
        let pid = spec_pid(data[pos + 1], data[pos + 2]);
        if pid == 0 && spec_is_start(data[pos + 1]) && pos > a {
            let h0 = spec_hash_pid(HASH_INIT, pid);
            lemma_scan_from_structure(data, pos + PACKET_SIZE as int, pos, h0);
            let rest = spec_scan_from(data, pos + PACKET_SIZE as int, pos, h0)->Some_0;
            assert(r == seq![TsSegment { hash: h, offset: a as u64 }] + rest);
            assert(r[1] == rest[0]);
            assert(rest[0].offset == pos);
            assert(b == pos);
            assert(nd.len() == pos - a);
            assert(spec_scan_from(nd, pos - a, 0, h) == Some(
                seq![TsSegment { hash: h, offset: 0 }],
            ));
        } else {
            let h2 = spec_hash_pid(h, pid);
            lemma_scan_from_structure(data, pos + PACKET_SIZE as int, a, h2);
            let r2 = spec_scan_from(data, pos + PACKET_SIZE as int, a, h2)->Some_0;
            assert(r2 == r);
            if r.len() >= 2 {
                assert(r[1].offset >= pos + PACKET_SIZE as int);
            }
            assert(pos + 4 <= b);
            assert(nd[pos - a] == data[pos]);
            assert(nd[pos - a + 1] == data[pos + 1]);
            assert(nd[pos - a + 2] == data[pos + 2]);
            lemma_scan_mirror(data, pos + PACKET_SIZE as int, a, h2);
            assert(spec_scan_from(nd, pos - a, 0, h) == spec_scan_from(
                nd,
                pos - a + PACKET_SIZE as int,
                0,
                h2,
            ));
        }
    }
}

/// Every segment of a scan tail, rescanned alone over its own byte span,
/// yields exactly itself: one segment, the same digest, at offset 0.
pub proof fn lemma_scan_extract_from(data: Seq<u8>, pos: int, open: int, h: u64, k: int)
    requires
        data.len() <= usize::MAX,
        0 <= open <= pos,
        open <= data.len(),
        spec_scan_from(data, pos, open, h) is Some,
        1 <= k < spec_scan_from(data, pos, open, h)->Some_0.len(),
    ensures
        ({
            let r = spec_scan_from(data, pos, open, h)->Some_0;
            let start = r[k].offset as int;
            let end = if k + 1 < r.len() {
                r[k + 1].offset as int
            } else {
                data.len() as int
            };
            spec_scan_from(data.subrange(start, end), 0, 0, HASH_INIT) == Some(
                seq![TsSegment { hash: r[k].hash, offset: 0 }],
            )
        }),
    decreases vstd::math::max(data.len() - pos, 0),
{
    let r = spec_scan_from(data, pos, open, h)->Some_0;
    lemma_scan_from_structure(data, pos, open, h);
    if pos >= data.len() {
        assert(r.len() == 1);
    } else if data[pos] != SYNC_BYTE {
        lemma_scan_extract_from(data, pos + 1, open, h, k);
    } else {
        let pid = spec_pid(data[pos + 1], data[pos + 2]);
        if pid == 0 && spec_is_start(data[pos + 1]) && pos > open {
            let h0 = spec_hash_pid(HASH_INIT, pid);
            lemma_scan_from_structure(data, pos + PACKET_SIZE as int, pos, h0);
            let rest = spec_scan_from(data, pos + PACKET_SIZE as int, pos, h0)->Some_0;
            assert(r == seq![TsSegment { hash: h, offset: open as u64 }] + rest);
            assert(forall|i: int| 1 <= i < r.len() ==> r[i] == rest[i - 1]);
            if k == 1 {
                lemma_scan_mirror(data, pos + PACKET_SIZE as int, pos, h0);
                let b = spec_tail_end(data, rest);
                let nd = data.subrange(pos, b);
                assert(spec_scan_from(nd, PACKET_SIZE as int, 0, h0) == Some(
                    seq![TsSegment { hash: rest[0].hash, offset: 0 }],
                ));
                // one fresh step over the boundary packet reaches that state
                if rest.len() >= 2 {
                    assert(rest[1].offset >= pos + PACKET_SIZE as int);
                }
                assert(pos + 4 <= b);
                assert(nd.len() == b - pos);
                assert(nd[0] == data[pos]);
                assert(nd[1] == data[pos + 1]);
                assert(nd[2] == data[pos + 2]);
                assert(spec_scan_from(nd, 0, 0, HASH_INIT) == spec_scan_from(
                    nd,
                    PACKET_SIZE as int,
                    0,
                    spec_hash_pid(HASH_INIT, pid),
                ));
                assert(r[1] == rest[0]);
                let end = if k + 1 < r.len() {
                    r[k + 1].offset as int
                } else {
                    data.len() as int
                };
                assert(end == b);
            } else {
                lemma_scan_extract_from(data, pos + PACKET_SIZE as int, pos, h0, k - 1);
                assert(r[k] == rest[k - 1]);
                if k + 1 < r.len() {
                    assert(r[k + 1] == rest[k]);
                }
            }
        } else {
            lemma_scan_extract_from(data, pos + PACKET_SIZE as int, open, spec_hash_pid(h, pid), k);
        }
    }
}

/// Law: a clip extracted verbatim as one segment's byte span — from its
/// offset to the next segment's offset, or to the end of the stream for the
/// last segment — scans to exactly one segment carrying that segment's hash.
pub proof fn lemma_scan_segment_rescans(data: Seq<u8>, k: int)
    requires
        data.len() <= usize::MAX,
        spec_scan(data) is Some,
        0 <= k < spec_scan(data)->Some_0.len(),
    ensures
        ({
            let segs = spec_scan(data)->Some_0;
            let start = segs[k].offset as int;
            let end = spec_segment_end(segs, k, data.len() as int);
            spec_scan(data.subrange(start, end)) == Some(
                seq![TsSegment { hash: segs[k].hash, offset: 0 }],
            )
        }),
{
    let segs = spec_scan(data)->Some_0;
    lemma_scan_wf(data);
    let start = segs[k].offset as int;
    let end = spec_segment_end(segs, k, data.len() as int);
    if k == 0 {
        lemma_scan_mirror(data, 0, 0, HASH_INIT);
        assert(start == 0);
        assert(spec_tail_end(data, segs) == end);
        assert(spec_scan(data.subrange(start, end)) == spec_scan_from(
            data.subrange(0, spec_tail_end(data, segs)),
            0,
            0,
            HASH_INIT,
        ));
    } else {
        lemma_scan_extract_from(data, 0, 0, HASH_INIT, k);
        assert(end == (if k + 1 < segs.len() {
            segs[k + 1].offset as int
        } else {
            data.len() as int
        }));
    }
}

/// Law: scanning is a function of the stream's bytes alone, so scanning the
/// same stream twice yields identical segments in identical order.
pub proof fn lemma_scan_deterministic(data: Seq<u8>, r1: Seq<TsSegment>, r2: Seq<TsSegment>)
    requires
        spec_scan(data) == Some(r1),
        spec_scan(data) == Some(r2),
    ensures
        r1 == r2,
{
}

/// Offsets of a well-formed index increase across any distance, not only
/// between neighbours.
pub proof fn lemma_offsets_increasing(segs: Seq<TsSegment>, file_len: int, i: int, j: int)
    requires
        segments_wf(segs, file_len),
        0 <= i < j < segs.len(),
    ensures
        segs[i].offset < segs[j].offset,
    decreases j - i,
{
    if i + 1 < j {
        lemma_offsets_increasing(segs, file_len, i + 1, j);
    }
}

/// Every byte of a stream at or after the first segment's offset falls into
/// some segment's half-open range.
proof fn lemma_coverage_exists(segs: Seq<TsSegment>, file_len: int, b: int)
    requires
        segments_wf(segs, file_len),
        segs.len() >= 1,
        segs[0].offset <= b < file_len,
    ensures
        exists|i: int|
            0 <= i < segs.len() && (#[trigger] segs[i]).offset <= b < spec_segment_end(
                segs,
                i,
                file_len,
            ),
    decreases segs.len(),
{
    if segs.len() == 1 || b < segs[1].offset as int {
        assert(segs[0].offset <= b < spec_segment_end(segs, 0, file_len));
    } else {
        let tail = segs.drop_first();
        assert(segments_wf(tail, file_len)) by {
            assert(forall|i: int|
                0 <= i < tail.len() - 1 ==> (#[trigger] tail[i]).offset < tail[i + 1].offset) by {
                assert(forall|i: int| 0 <= i < tail.len() ==> tail[i] == segs[i + 1]);
            }
            assert(forall|i: int| 0 <= i < tail.len() ==> (#[trigger] tail[i]).offset <= file_len)
                by {
                assert(forall|i: int| 0 <= i < tail.len() ==> tail[i] == segs[i + 1]);
            }
        }
        lemma_coverage_exists(tail, file_len, b);
        let w = choose|i: int|
            0 <= i < tail.len() && (#[trigger] tail[i]).offset <= b < spec_segment_end(
                tail,
                i,
                file_len,
            );
        assert(tail[w] == segs[w + 1]);
        assert(spec_segment_end(tail, w, file_len) == spec_segment_end(segs, w + 1, file_len));
        assert(segs[w + 1].offset <= b < spec_segment_end(segs, w + 1, file_len));
    }
}

/// Law: the segment ranges of a successful scan exactly cover the stream.
/// Every byte position lies in at least one range (no gaps), and in at most
/// one (no overlaps).
pub proof fn lemma_scan_coverage(data: Seq<u8>, b: int)
    requires
        data.len() <= usize::MAX,
        spec_scan(data) is Some,
        0 <= b < data.len(),
    ensures
        ({
            let segs = spec_scan(data)->Some_0;
            &&& exists|i: int|
                0 <= i < segs.len() && (#[trigger] segs[i]).offset <= b < spec_segment_end(
                    segs,
                    i,
                    data.len() as int,
                )
            &&& forall|i: int, j: int|
                0 <= i < segs.len() && 0 <= j < segs.len() && i != j ==> !((#[trigger] segs[i]).offset
                    <= b < spec_segment_end(segs, i, data.len() as int) && (#[trigger] segs[j]).offset
                    <= b < spec_segment_end(segs, j, data.len() as int))
        }),
{
    let segs = spec_scan(data)->Some_0;
    let flen = data.len() as int;
    lemma_scan_wf(data);
    lemma_coverage_exists(segs, flen, b);
    assert forall|i: int, j: int|
        0 <= i < segs.len() && 0 <= j < segs.len() && i != j implies !((#[trigger] segs[i]).offset
        <= b < spec_segment_end(segs, i, flen) && (#[trigger] segs[j]).offset <= b
        < spec_segment_end(segs, j, flen)) by {
        if segs[i].offset <= b < spec_segment_end(segs, i, flen) && segs[j].offset <= b
            < spec_segment_end(segs, j, flen) {
            if i < j {
                lemma_scan_disjoint_halves(segs, flen, i, j, b);
            } else {
                lemma_scan_disjoint_halves(segs, flen, j, i, b);
            }
        }
    }
}

/// For `i < j`, segment `i`'s range ends at or before segment `j` starts.
proof fn lemma_scan_disjoint_halves(segs: Seq<TsSegment>, file_len: int, i: int, j: int, b: int)
    requires
        segments_wf(segs, file_len),
        0 <= i < j < segs.len(),
        segs[i].offset <= b < spec_segment_end(segs, i, file_len),
    ensures
        !(segs[j].offset <= b < spec_segment_end(segs, j, file_len)),
{
    if i + 1 < j {
        lemma_offsets_increasing(segs, file_len, i + 1, j);
    }
}

} // verus!
