//! The matcher: finds where a single-segment clip originated inside an
//! indexed stream, disambiguating hash collisions by byte comparison, and
//! turns the surviving positions into ready-to-use cut ranges.

use vstd::prelude::*;

use crate::index::{segments_wf, spec_segment_end, HashFile, TsSegment};
use crate::scanner::{scan_segments, spec_scan, ScanError};

verus! {

/// How a match request can fail: the clip does not scan, or it scans to more
/// than one segment (a clip spanning a PAT-start boundary is a usage error,
/// never a silent partial match).
#[derive(Clone, Copy, Debug, PartialEq, Eq, Structural)]
pub enum MatchError {
    NeedleScan(ScanError),
    TooManySegments,
}

/// The index positions among the first `n` whose hash equals `h`, in order.
pub open spec fn spec_hash_matches(segs: Seq<TsSegment>, h: u64, n: int) -> Seq<usize>
    decreases n,
{
    if n <= 0 {
        Seq::empty()
    } else {
        let pre = spec_hash_matches(segs, h, n - 1);
        if segs[n - 1].hash == h {
            pre.push((n - 1) as usize)
        } else {
            pre
        }
    }
}

/// Whether segment `k`'s byte span inside the haystack has exactly the
/// needle's length and exactly the needle's bytes.
pub open spec fn spec_span_matches(
    segs: Seq<TsSegment>,
    hay: Seq<u8>,
    needle: Seq<u8>,
    k: int,
) -> bool {
    let start = segs[k].offset as int;
    let end = spec_segment_end(segs, k, hay.len() as int);
    end - start == needle.len() && hay.subrange(start, end) == needle
}

/// The candidates among the first `m` of `cands` whose byte span survives
/// the exact comparison against the needle.
pub open spec fn spec_byte_survivors(
    segs: Seq<TsSegment>,
    hay: Seq<u8>,
    needle: Seq<u8>,
    cands: Seq<usize>,
    m: int,
) -> Seq<usize>
    decreases m,
{
    if m <= 0 {
        Seq::empty()
    } else {
        let pre = spec_byte_survivors(segs, hay, needle, cands, m - 1);
        if spec_span_matches(segs, hay, needle, cands[m - 1] as int) {
            pre.push(cands[m - 1])
        } else {
            pre
        }
    }
}

/// The reported match positions: all positions whose hash collides with the
/// needle's; when that leaves more than one, only those whose bytes equal
/// the needle's survive.
pub open spec fn spec_match_result(
    segs: Seq<TsSegment>,
    hay: Seq<u8>,
    needle: Seq<u8>,
    h: u64,
) -> Seq<usize> {
    let cands = spec_hash_matches(segs, h, segs.len() as int);
    if cands.len() <= 1 {
        cands
    } else {
        spec_byte_survivors(segs, hay, needle, cands, cands.len() as int)
    }
}

/// Compares the haystack bytes `[start, end)` against the whole needle.
fn subrange_eq(hay: &Vec<u8>, start: usize, end: usize, needle: &Vec<u8>) -> (r: bool)
    requires
        start <= end <= hay@.len(),
        end - start == needle@.len(),
    ensures
        r == (hay@.subrange(start as int, end as int) == needle@),
{
    let mut j: usize = 0;
    while j < needle.len()
        invariant
            0 <= j <= needle@.len(),
            start <= end <= hay@.len(),
            end - start == needle@.len(),
            forall|t: int| 0 <= t < j ==> hay@[start + t] == needle@[t],
        decreases needle@.len() - j,
    {
        if hay[start + j] != needle[j] {
            assert(hay@.subrange(start as int, end as int)[j as int] != needle@[j as int]);
            return false;
        }
        j = j + 1;
    }
    assert(hay@.subrange(start as int, end as int) =~= needle@);
    true
}

/// Finds the needle clip inside the indexed haystack.
///
/// The clip must scan to exactly one segment; the result is then every index
/// position the clip can have originated at: the positions with the clip's
/// hash, thinned by exact byte comparison whenever the hash alone is
/// ambiguous. An empty result is the defined negative outcome, not an error.
pub fn match_segment(index: &HashFile, haystack: &Vec<u8>, needle: &Vec<u8>) -> (r: Result<
    Vec<usize>,
    MatchError,
>)
    requires
        segments_wf(index.segments@, haystack@.len() as int),
    ensures
        match r {
            Ok(v) => {
                &&& spec_scan(needle@) is Some
                &&& spec_scan(needle@)->Some_0.len() == 1
                &&& v@ == spec_match_result(
                    index.segments@,
                    haystack@,
                    needle@,
                    spec_scan(needle@)->Some_0[0].hash,
                )
            },
            Err(MatchError::NeedleScan(e)) => spec_scan(needle@) is None
                && e == ScanError::TruncatedPacket,
            Err(MatchError::TooManySegments) => spec_scan(needle@) is Some && spec_scan(
                needle@,
            )->Some_0.len() > 1,
        },
{
    let needle_segs = match scan_segments(needle) {
        Ok(v) => v,
        Err(e) => {
            return Err(MatchError::NeedleScan(e));
        },
    };
    proof {
        assert(needle@.len() == needle.len());
        crate::scanner::lemma_scan_wf(needle@);
    }
    if needle_segs.len() > 1 {
        return Err(MatchError::TooManySegments);
    }
    let needle_hash = needle_segs[0].hash;

    let n = index.segments.len();
    let mut cands: Vec<usize> = Vec::new();
    let mut i: usize = 0;
    while i < n
        invariant
            i <= n,
            n == index.segments@.len(),
            cands@ == spec_hash_matches(index.segments@, needle_hash, i as int),
            forall|t: int| 0 <= t < cands@.len() ==> (#[trigger] cands@[t]) < n,
        decreases n - i,
    {
        if index.segments[i].hash == needle_hash {
            cands.push(i);
        }
        i = i + 1;
    }

    if cands.len() <= 1 {
        return Ok(cands);
    }

    let m = cands.len();
    let hay_len = haystack.len();
    let mut result: Vec<usize> = Vec::new();
    let mut k: usize = 0;
    while k < m
        invariant
            k <= m,
            m == cands@.len(),
            m >= 2,
            n == index.segments@.len(),
            hay_len == haystack@.len(),
            segments_wf(index.segments@, haystack@.len() as int),
            forall|t: int| 0 <= t < cands@.len() ==> (#[trigger] cands@[t]) < n,
            result@ == spec_byte_survivors(index.segments@, haystack@, needle@, cands@, k as int),
        decreases m - k,
    {
        let c = cands[k];
        let start = index.segments[c].offset;
        let end: u64 = if c + 1 < n {
            index.segments[c + 1].offset
        } else {
            hay_len as u64
        };
        proof {
            let segsv = index.segments@;
            assert(end as int == spec_segment_end(segsv, c as int, haystack@.len() as int));
            if c + 1 < n {
                assert(segsv[c as int].offset < segsv[c as int + 1].offset);
                assert(segsv[c as int + 1].offset <= haystack@.len());
            } else {
                assert(segsv[c as int].offset <= haystack@.len());
            }
            assert(start <= end <= hay_len as u64);
        }
        if end - start == needle.len() as u64 {
            let su = start as usize;
            let eu = end as usize;
            assert(su == start && eu == end);
            if subrange_eq(haystack, su, eu, needle) {
                result.push(c);
            }
        }
        k = k + 1;
    }
    Ok(result)
}

/// One ready-to-use cut instruction: the source to cut from, the first byte
/// to keep, and the exclusive end — absent when the range runs through the
/// end of the source.
pub struct CutRange {
    pub source: String,
    pub from: u64,
    pub to: Option<u64>,
}

/// The cut instructions reported for one surviving match position: the
/// previous segment's range (absent for the first segment), the matched
/// segment's own range, and the following segment's range (absent for the
/// last segment); a range reaching the last segment is open-ended.
pub struct CutSuggestion {
    pub previous: Option<CutRange>,
    pub current: CutRange,
    pub next: Option<CutRange>,
}

/// Builds the three neighbouring cut ranges for the match at position `i`.
pub fn cut_suggestion(index: &HashFile, i: usize) -> (r: CutSuggestion)
    requires
        i < index.segments@.len(),
    ensures
        ({
            let segs = index.segments@;
            let n = segs.len();
            &&& (i == 0 ==> r.previous is None)
            &&& (i > 0 ==> r.previous == Some(
                CutRange {
                    source: index.file,
                    from: segs[i - 1].offset,
                    to: Some(segs[i as int].offset),
                },
            ))
            &&& r.current.source == index.file
            &&& r.current.from == segs[i as int].offset
            &&& (i + 1 < n ==> r.current.to == Some(segs[i + 1].offset))
            &&& (i + 1 >= n ==> r.current.to is None)
            &&& (i + 2 < n ==> r.next == Some(
                CutRange {
                    source: index.file,
                    from: segs[i + 1].offset,
                    to: Some(segs[i + 2].offset),
                },
            ))
            &&& (i + 2 == n ==> r.next == Some(
                CutRange { source: index.file, from: segs[i + 1].offset, to: None },
            ))
            &&& (i + 1 >= n ==> r.next is None)
        }),
{
    let n = index.segments.len();
    let previous = if i > 0 {
        Some(
            CutRange {
                source: index.file.clone(),
                from: index.segments[i - 1].offset,
                to: Some(index.segments[i].offset),
            },
        )
    } else {
        None
    };
    let current = CutRange {
        source: index.file.clone(),
        from: index.segments[i].offset,
        to: if i + 1 < n {
            Some(index.segments[i + 1].offset)
        } else {
            None
        },
    };
    let next = if n - i > 2 {
        Some(
            CutRange {
                source: index.file.clone(),
                from: index.segments[i + 1].offset,
                to: Some(index.segments[i + 2].offset),
            },
        )
    } else if i + 1 < n {
        Some(CutRange { source: index.file.clone(), from: index.segments[i + 1].offset, to: None })
    } else {
        None
    };
    CutSuggestion { previous, current, next }
}

/// Law: when two index positions collide on the needle's hash and have the
/// same span length, but only one of their byte spans equals the needle, the
/// match result reports the byte-identical one and not the other.
pub proof fn lemma_match_disambiguation(
    segs: Seq<TsSegment>,
    hay: Seq<u8>,
    needle: Seq<u8>,
    h: u64,
    i: usize,
    j: usize,
)
    requires
        segs.len() <= usize::MAX,
        i < segs.len(),
        j < segs.len(),
        i != j,
        segs[i as int].hash == h,
        segs[j as int].hash == h,
        spec_span_matches(segs, hay, needle, i as int),
        !spec_span_matches(segs, hay, needle, j as int),
    ensures
        spec_match_result(segs, hay, needle, h).contains(i),
        !spec_match_result(segs, hay, needle, h).contains(j),
{
    let n = segs.len() as int;
    let cands = spec_hash_matches(segs, h, n);
    lemma_hash_matches_elems(segs, h, n, i);
    lemma_hash_matches_elems(segs, h, n, j);
    assert(cands.contains(i) && cands.contains(j));
    let wi = choose|w: int| 0 <= w < cands.len() && (#[trigger] cands[w]) == i;
    let wj = choose|w: int| 0 <= w < cands.len() && (#[trigger] cands[w]) == j;
    assert(wi != wj);
    assert(cands.len() >= 2);
    lemma_byte_survivors_elems(segs, hay, needle, cands, cands.len() as int, i);
    lemma_byte_survivors_elems(segs, hay, needle, cands, cands.len() as int, j);
    assert(0 <= wi < cands.len() && cands[wi] == i && spec_span_matches(segs, hay, needle, i as int));
    if spec_match_result(segs, hay, needle, h).contains(j) {
        let p = choose|p: int|
            0 <= p < cands.len() && (#[trigger] cands[p]) == j && spec_span_matches(
                segs,
                hay,
                needle,
                j as int,
            );
        assert(false);
    }
}

/// Law: a clip extracted verbatim as segment `k`'s byte span of an indexed
/// stream scans to exactly one segment, and matching it against that index
/// reports position `k` among the surviving candidates.
pub proof fn lemma_match_finds_extracted_clip(hay: Seq<u8>, k: usize)
    requires
        hay.len() <= usize::MAX,
        spec_scan(hay) is Some,
        spec_scan(hay)->Some_0.len() <= usize::MAX,
        k < spec_scan(hay)->Some_0.len(),
    ensures
        ({
            let segs = spec_scan(hay)->Some_0;
            let start = segs[k as int].offset as int;
            let end = spec_segment_end(segs, k as int, hay.len() as int);
            let needle = hay.subrange(start, end);
            &&& spec_scan(needle) is Some
            &&& spec_scan(needle)->Some_0.len() == 1
            &&& spec_match_result(segs, hay, needle, spec_scan(needle)->Some_0[0].hash).contains(k)
        }),
{
    let segs = spec_scan(hay)->Some_0;
    crate::scanner::lemma_scan_wf(hay);
    crate::scanner::lemma_scan_segment_rescans(hay, k as int);
    let start = segs[k as int].offset as int;
    let end = spec_segment_end(segs, k as int, hay.len() as int);
    let needle = hay.subrange(start, end);
    assert(spec_scan(needle) == Some(
        seq![TsSegment { hash: segs[k as int].hash, offset: 0 }],
    ));
    assert(spec_span_matches(segs, hay, needle, k as int));
    lemma_match_reports_verbatim(segs, hay, needle, segs[k as int].hash, k);
}

/// Law: a needle whose hash is segment `k`'s hash and whose bytes are
/// exactly segment `k`'s span is always reported at `k`, however many other
/// positions collide on the hash.
pub proof fn lemma_match_reports_verbatim(
    segs: Seq<TsSegment>,
    hay: Seq<u8>,
    needle: Seq<u8>,
    h: u64,
    k: usize,
)
    requires
        segs.len() <= usize::MAX,
        k < segs.len(),
        segs[k as int].hash == h,
        spec_span_matches(segs, hay, needle, k as int),
    ensures
        spec_match_result(segs, hay, needle, h).contains(k),
{
    let n = segs.len() as int;
    let cands = spec_hash_matches(segs, h, n);
    lemma_hash_matches_elems(segs, h, n, k);
    assert(cands.contains(k));
    let wk = choose|w: int| 0 <= w < cands.len() && (#[trigger] cands[w]) == k;
    if cands.len() <= 1 {
        assert(spec_match_result(segs, hay, needle, h) == cands);
    } else {
        lemma_byte_survivors_elems(segs, hay, needle, cands, cands.len() as int, k);
        assert(0 <= wk < cands.len() && cands[wk] == k && spec_span_matches(
            segs,
            hay,
            needle,
            k as int,
        ));
    }
}

/// Every element the hash-candidate list holds, and nothing else: position
/// `k` appears exactly when it lies below `n` and its hash is `h`.
pub proof fn lemma_hash_matches_elems(segs: Seq<TsSegment>, h: u64, n: int, k: usize)
    requires
        n <= segs.len() <= usize::MAX,
    ensures
        spec_hash_matches(segs, h, n).contains(k) <==> (k < n && segs[k as int].hash == h),
    decreases n,
{
    let cur = spec_hash_matches(segs, h, n);
    if n <= 0 {
        assert(!cur.contains(k));
    } else {
        lemma_hash_matches_elems(segs, h, n - 1, k);
        let pre = spec_hash_matches(segs, h, n - 1);
        if segs[n - 1].hash == h {
            let x = (n - 1) as usize;
            assert(cur == pre.push(x));
            if k < n && segs[k as int].hash == h {
                if k == x {
                    assert(cur[cur.len() - 1] == k);
                    assert(cur.contains(k));
                } else {
                    assert(pre.contains(k));
                    let w = choose|w: int| 0 <= w < pre.len() && (#[trigger] pre[w]) == k;
                    assert(cur[w] == k);
                    assert(cur.contains(k));
                }
            }
            if cur.contains(k) {
                let w = choose|w: int| 0 <= w < cur.len() && (#[trigger] cur[w]) == k;
                if w < pre.len() {
                    assert(pre[w] == k);
                    assert(pre.contains(k));
                } else {
                    assert(k == x);
                }
            }
        } else {
            assert(cur == pre);
        }
    }
}

/// Every element the survivor list holds, and nothing else: a position
/// appears exactly when it stands among the first `m` candidates and its
/// span matches the needle byte for byte.
pub proof fn lemma_byte_survivors_elems(
    segs: Seq<TsSegment>,
    hay: Seq<u8>,
    needle: Seq<u8>,
    cands: Seq<usize>,
    m: int,
    k: usize,
)
    requires
        m <= cands.len(),
    ensures
        spec_byte_survivors(segs, hay, needle, cands, m).contains(k) <==> (exists|p: int|
            0 <= p < m && cands[p] == k && spec_span_matches(segs, hay, needle, k as int)),
    decreases m,
{
    let cur = spec_byte_survivors(segs, hay, needle, cands, m);
    if m <= 0 {
        assert(!cur.contains(k));
    } else {
        lemma_byte_survivors_elems(segs, hay, needle, cands, m - 1, k);
        let pre = spec_byte_survivors(segs, hay, needle, cands, m - 1);
        if spec_span_matches(segs, hay, needle, cands[m - 1] as int) {
            assert(cur == pre.push(cands[m - 1]));
            if cur.contains(k) {
                let w = choose|w: int| 0 <= w < cur.len() && (#[trigger] cur[w]) == k;
                if w < pre.len() {
                    assert(pre[w] == k);
                    assert(pre.contains(k));
                } else {
                    assert(cands[m - 1] == k);
                    assert(exists|p: int|
                        0 <= p < m && (#[trigger] cands[p]) == k && spec_span_matches(
                            segs,
                            hay,
                            needle,
                            k as int,
                        ));
                }
            }
            if exists|p: int|
                0 <= p < m && (#[trigger] cands[p]) == k && spec_span_matches(
                    segs,
                    hay,
                    needle,
                    k as int,
                ) {
                let p = choose|p: int|
                    0 <= p < m && (#[trigger] cands[p]) == k && spec_span_matches(
                        segs,
                        hay,
                        needle,
                        k as int,
                    );
                if p == m - 1 {
                    assert(cur[cur.len() - 1] == k);
                    assert(cur.contains(k));
                } else {
                    assert(pre.contains(k));
                    let w = choose|w: int| 0 <= w < pre.len() && (#[trigger] pre[w]) == k;
                    assert(cur[w] == k);
                    assert(cur.contains(k));
                }
            }
        } else {
            assert(cur == pre);
            if exists|p: int|
                0 <= p < m && (#[trigger] cands[p]) == k && spec_span_matches(
                    segs,
                    hay,
                    needle,
                    k as int,
                ) {
                let p = choose|p: int|
                    0 <= p < m && (#[trigger] cands[p]) == k && spec_span_matches(
                        segs,
                        hay,
                        needle,
                        k as int,
                    );
                assert(p != m - 1);
            }
        }
    }
}

} // verus!
