use mpegts_finder::{build_index, scan_segments, HashFile, MpegtsHeader, ScanError, TsSegment};

/// One 188-byte packet with the given pid and start flag.
fn packet(pid: u16, is_start: bool) -> Vec<u8> {
    let mut p = vec![0u8; 188];
    p[0] = 0x47;
    p[1] = ((pid >> 8) as u8 & 0x1f) | if is_start { 0x40 } else { 0 };
    p[2] = (pid & 0xff) as u8;
    p[3] = 0x10;
    p
}

/// A stream of `n` packets with PAT-start packets at the given indices and
/// pid 256 everywhere else.
fn stream(n: usize, pat_at: &[usize]) -> Vec<u8> {
    let mut data = Vec::new();
    for i in 0..n {
        if pat_at.contains(&i) {
            data.extend_from_slice(&packet(0, true));
        } else {
            data.extend_from_slice(&packet(256, false));
        }
    }
    data
}

#[test]
fn header_decodes_pid_and_start() {
    let p = packet(256, false);
    let h = MpegtsHeader::new(&p[0..4]);
    assert_eq!(h.pid, 256);
    assert!(!h.is_start);

    let p = packet(0, true);
    let h = MpegtsHeader::new(&p[0..4]);
    assert_eq!(h.pid, 0);
    assert!(h.is_start);

    let p = packet(8191, true);
    let h = MpegtsHeader::new(&p[0..4]);
    assert_eq!(h.pid, 8191);
    assert!(h.is_start);
}

#[test]
fn concrete_scenario_three_segments() {
    let data = stream(15, &[0, 5, 12]);
    let segs = scan_segments(&data).unwrap();
    assert_eq!(segs.len(), 3);
    assert_eq!(segs[0].offset, 0);
    assert_eq!(segs[1].offset, 5 * 188);
    assert_eq!(segs[2].offset, 12 * 188);
    assert_eq!(segs[0].hash, 12143381815679945245u64);
    assert_eq!(segs[1].hash, 3411252256635259253u64);
    assert_eq!(segs[2].hash, 14932673000346317893u64);
}

#[test]
fn scan_is_idempotent() {
    let data = stream(9, &[0, 4]);
    let a = scan_segments(&data).unwrap();
    let b = scan_segments(&data).unwrap();
    assert_eq!(a, b);
}

#[test]
fn empty_stream_yields_one_segment() {
    let data: Vec<u8> = Vec::new();
    let segs = scan_segments(&data).unwrap();
    assert_eq!(segs.len(), 1);
    assert_eq!(segs[0].offset, 0);
    assert_eq!(segs[0].hash, 14695981039346656037u64);
}

#[test]
fn stream_without_pat_yields_one_segment_at_zero() {
    let data = stream(4, &[]);
    let segs = scan_segments(&data).unwrap();
    assert_eq!(segs.len(), 1);
    assert_eq!(segs[0].offset, 0);
}

#[test]
fn leading_garbage_is_resynchronized() {
    let mut data = vec![0x00u8, 0x11, 0x22];
    data.extend_from_slice(&stream(3, &[0]));
    let segs = scan_segments(&data).unwrap();
    // the garbage before the first PAT still belongs to the segment open at 0
    assert_eq!(segs.len(), 2);
    assert_eq!(segs[0].offset, 0);
    assert_eq!(segs[1].offset, 3);
}

#[test]
fn sync_in_final_three_bytes_is_truncated_packet() {
    let mut data = stream(2, &[0]);
    data.extend_from_slice(&[0x47, 0x00]);
    assert_eq!(scan_segments(&data), Err(ScanError::TruncatedPacket));
}

#[test]
fn offsets_are_strictly_increasing() {
    let data = stream(20, &[0, 3, 7, 8, 19]);
    let segs = scan_segments(&data).unwrap();
    for i in 0..segs.len() - 1 {
        assert!(segs[i].offset < segs[i + 1].offset);
    }
    assert_eq!(segs[0].offset, 0);
    assert!(segs.last().unwrap().offset <= data.len() as u64);
}

#[test]
fn coverage_has_no_gaps() {
    let data = stream(10, &[0, 2, 6]);
    let segs = scan_segments(&data).unwrap();
    // union of [offset[i], offset[i+1]) plus the final open range is [0, len)
    let mut expected_start = 0u64;
    for i in 0..segs.len() {
        assert_eq!(segs[i].offset, expected_start);
        expected_start = if i + 1 < segs.len() {
            segs[i + 1].offset
        } else {
            data.len() as u64
        };
    }
    assert_eq!(expected_start, data.len() as u64);
}

#[test]
fn pat_continuation_creates_no_boundary() {
    // a PID-0 packet without the start flag contributes to the hash but
    // never opens a segment
    let mut data = Vec::new();
    data.extend_from_slice(&packet(0, true));
    data.extend_from_slice(&packet(0, false));
    data.extend_from_slice(&packet(256, false));
    let segs = scan_segments(&data).unwrap();
    assert_eq!(segs.len(), 1);
    assert_eq!(segs[0].offset, 0);

    // the same stream with the start flag set splits instead
    let mut data2 = Vec::new();
    data2.extend_from_slice(&packet(0, true));
    data2.extend_from_slice(&packet(0, true));
    data2.extend_from_slice(&packet(256, false));
    let segs2 = scan_segments(&data2).unwrap();
    assert_eq!(segs2.len(), 2);
    assert_ne!(segs[0].hash, segs2[1].hash);
}

#[test]
fn build_index_carries_file_identity() {
    let data = stream(6, &[0, 3]);
    let idx = build_index(String::from("capture.ts"), &data).unwrap();
    assert_eq!(idx.file, "capture.ts");
    assert_eq!(idx.len(), 2);
    assert_eq!(idx.index(0).offset, 0);
    assert_eq!(idx.index(1).offset, 3 * 188);
    assert_eq!(idx.iter().len(), 2);
    assert!(idx.check_wf(data.len() as u64));
}

#[test]
fn check_wf_rejects_unsorted_offsets() {
    let idx = HashFile {
        file: String::from("x"),
        segments: vec![
            TsSegment { hash: 1, offset: 100 },
            TsSegment { hash: 2, offset: 50 },
        ],
    };
    assert!(!idx.check_wf(1000));
    let idx2 = HashFile {
        file: String::from("x"),
        segments: vec![TsSegment { hash: 1, offset: 100 }],
    };
    assert!(!idx2.check_wf(50));
    assert!(idx2.check_wf(100));
}
