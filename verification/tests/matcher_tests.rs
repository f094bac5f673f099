use mpegts_finder::{build_index, match_segment, cut_suggestion, MatchError};

/// One 188-byte packet with the given pid, start flag, and payload filler.
fn packet_filled(pid: u16, is_start: bool, fill: u8) -> Vec<u8> {
    let mut p = vec![fill; 188];
    p[0] = 0x47;
    p[1] = ((pid >> 8) as u8 & 0x1f) | if is_start { 0x40 } else { 0 };
    p[2] = (pid & 0xff) as u8;
    p[3] = 0x10;
    p
}

/// A haystack of three segments, two packets each, with distinct payloads.
fn haystack_three() -> Vec<u8> {
    let mut data = Vec::new();
    for (seg, fill) in [(0usize, 0xaau8), (1, 0xbb), (2, 0xcc)] {
        data.extend_from_slice(&packet_filled(0, true, fill));
        data.extend_from_slice(&packet_filled(100 + seg as u16, false, fill));
    }
    data
}

#[test]
fn verbatim_clip_is_reported() {
    let haystack = haystack_three();
    let idx = build_index(String::from("hay.ts"), &haystack).unwrap();
    assert_eq!(idx.len(), 3);
    // the clip is haystack bytes [offset[1], offset[2]), extracted verbatim
    let needle = haystack[376..752].to_vec();
    let result = match_segment(&idx, &haystack, &needle).unwrap();
    assert!(result.contains(&1));
}

#[test]
fn colliding_hashes_are_disambiguated_by_bytes() {
    // segments 0 and 1 carry identical PID sequences (so identical hashes)
    // but different payload bytes and equal lengths
    let mut haystack = Vec::new();
    haystack.extend_from_slice(&packet_filled(0, true, 0xaa));
    haystack.extend_from_slice(&packet_filled(300, false, 0xaa));
    haystack.extend_from_slice(&packet_filled(0, true, 0xbb));
    haystack.extend_from_slice(&packet_filled(300, false, 0xbb));
    let idx = build_index(String::from("hay.ts"), &haystack).unwrap();
    assert_eq!(idx.len(), 2);
    assert_eq!(idx.index(0).hash, idx.index(1).hash);

    let needle = haystack[376..752].to_vec();
    let result = match_segment(&idx, &haystack, &needle).unwrap();
    assert_eq!(result, vec![1]);
}

#[test]
fn clip_spanning_two_boundaries_is_rejected() {
    let haystack = haystack_three();
    let idx = build_index(String::from("hay.ts"), &haystack).unwrap();
    // a clip holding two PAT starts scans to more than one segment
    let needle = haystack[0..752].to_vec();
    assert_eq!(
        match_segment(&idx, &haystack, &needle),
        Err(MatchError::TooManySegments)
    );
}

#[test]
fn unknown_clip_is_a_negative_result() {
    let haystack = haystack_three();
    let idx = build_index(String::from("hay.ts"), &haystack).unwrap();
    // a clip from elsewhere: one PAT packet with a pid mix the index lacks
    let mut needle = Vec::new();
    needle.extend_from_slice(&packet_filled(0, true, 0x00));
    needle.extend_from_slice(&packet_filled(4000, false, 0x00));
    let result = match_segment(&idx, &haystack, &needle).unwrap();
    assert!(result.is_empty());
}

#[test]
fn truncated_clip_is_a_scan_error() {
    let haystack = haystack_three();
    let idx = build_index(String::from("hay.ts"), &haystack).unwrap();
    let needle = vec![0x47u8, 0x00];
    assert!(matches!(
        match_segment(&idx, &haystack, &needle),
        Err(MatchError::NeedleScan(_))
    ));
}

#[test]
fn suggestions_cover_neighbouring_segments() {
    let haystack = haystack_three();
    let idx = build_index(String::from("hay.ts"), &haystack).unwrap();

    let s0 = cut_suggestion(&idx, 0);
    assert!(s0.previous.is_none());
    assert_eq!(s0.current.from, 0);
    assert_eq!(s0.current.to, Some(376));
    let n0 = s0.next.unwrap();
    assert_eq!(n0.from, 376);
    assert_eq!(n0.to, Some(752));

    let s1 = cut_suggestion(&idx, 1);
    let p1 = s1.previous.unwrap();
    assert_eq!(p1.from, 0);
    assert_eq!(p1.to, Some(376));
    assert_eq!(p1.source, "hay.ts");
    assert_eq!(s1.current.from, 376);
    assert_eq!(s1.current.to, Some(752));
    let n1 = s1.next.unwrap();
    assert_eq!(n1.from, 752);
    assert_eq!(n1.to, None);

    let s2 = cut_suggestion(&idx, 2);
    let p2 = s2.previous.unwrap();
    assert_eq!(p2.from, 376);
    assert_eq!(p2.to, Some(752));
    assert_eq!(s2.current.from, 752);
    assert_eq!(s2.current.to, None);
    assert!(s2.next.is_none());
}
