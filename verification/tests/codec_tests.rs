use mpegts_finder::{decode_index, encode_index, u64_to_string, CodecError, HashFile, TsSegment};

fn sample() -> HashFile {
    HashFile {
        file: String::from("video.ts"),
        segments: vec![
            TsSegment { hash: 12143381815679945245, offset: 0 },
            TsSegment { hash: 3411252256635259253, offset: 940 },
            TsSegment { hash: 14932673000346317893, offset: 2256 },
        ],
    }
}

#[test]
fn encode_then_decode_reproduces_the_index() {
    let idx = sample();
    let text = encode_index(&idx);
    let back = decode_index(&text).unwrap();
    assert_eq!(back.file, idx.file);
    assert_eq!(back.segments, idx.segments);
}

#[test]
fn round_trip_keeps_extreme_values() {
    let idx = HashFile {
        file: String::from(""),
        segments: vec![TsSegment { hash: u64::MAX, offset: u64::MAX }],
    };
    let back = decode_index(&encode_index(&idx)).unwrap();
    assert_eq!(back.file, "");
    assert_eq!(back.segments, idx.segments);
}

#[test]
fn round_trip_escapes_the_path() {
    let idx = HashFile {
        file: String::from("a \"quoted\" \\ path"),
        segments: vec![TsSegment { hash: 7, offset: 0 }],
    };
    let text = encode_index(&idx);
    let back = decode_index(&text).unwrap();
    assert_eq!(back.file, "a \"quoted\" \\ path");
}

#[test]
fn encoding_is_the_canonical_text() {
    let idx = HashFile {
        file: String::from("v.ts"),
        segments: vec![
            TsSegment { hash: 1, offset: 0 },
            TsSegment { hash: 2, offset: 188 },
        ],
    };
    assert_eq!(
        encode_index(&idx),
        "{\"file\":\"v.ts\",\"segments\":[{\"hash\":1,\"offset\":0},{\"hash\":2,\"offset\":188}]}"
    );
}

#[test]
fn decoding_accepts_whitespace_and_field_order() {
    let text = "  {\n  \"segments\": [ { \"offset\" : 188 , \"hash\" : 42 } ] ,\n  \"file\" : \"v.ts\"\n}\n";
    let idx = decode_index(text).unwrap();
    assert_eq!(idx.file, "v.ts");
    assert_eq!(idx.segments, vec![TsSegment { hash: 42, offset: 188 }]);
}

#[test]
fn decoding_accepts_an_empty_segment_list() {
    let idx = decode_index("{\"file\":\"v.ts\",\"segments\":[]}").unwrap();
    assert_eq!(idx.file, "v.ts");
    assert!(idx.segments.is_empty());
}

#[test]
fn malformed_records_are_rejected() {
    for bad in [
        "",
        "{",
        "{\"file\":\"v\"}",
        "{\"file\":\"v\",\"segments\":[}",
        "{\"file\":\"v\",\"segments\":[{\"hash\":1}]}",
        "{\"file\":\"v\",\"segments\":[{\"hash\":1,\"hash\":2}]}",
        "{\"file\":\"v\",\"segments\":[{\"hash\":1,\"offset\":2}]} trailing",
        "{\"file\":\"v\",\"segments\":[{\"hash\":18446744073709551616,\"offset\":0}]}",
        "{\"file\":v,\"segments\":[]}",
    ] {
        assert!(
            matches!(decode_index(bad), Err(CodecError::Malformed)),
            "{bad}"
        );
    }
}

#[test]
fn numbers_print_in_decimal() {
    assert_eq!(u64_to_string(0), "0");
    assert_eq!(u64_to_string(9), "9");
    assert_eq!(u64_to_string(10), "10");
    assert_eq!(u64_to_string(18446744073709551615), "18446744073709551615");
}

#[test]
fn encoded_text_is_readable_json() {
    let idx = sample();
    let text = encode_index(&idx);
    let value: serde_json::Value = serde_json::from_str(&text).unwrap();
    assert_eq!(value.get("file").unwrap().as_str().unwrap(), "video.ts");
    let segs = value.get("segments").unwrap().as_array().unwrap();
    assert_eq!(segs.len(), 3);
    assert_eq!(segs[1].get("hash").unwrap().as_u64().unwrap(), 3411252256635259253);
    assert_eq!(segs[1].get("offset").unwrap().as_u64().unwrap(), 940);
}

#[test]
fn foreign_json_output_is_decodable() {
    let mut seg = serde_json::Map::new();
    seg.insert(String::from("hash"), serde_json::Value::from(5u64));
    seg.insert(String::from("offset"), serde_json::Value::from(188u64));
    let mut root = serde_json::Map::new();
    root.insert(String::from("file"), serde_json::Value::from("v.ts"));
    root.insert(
        String::from("segments"),
        serde_json::Value::Array(vec![serde_json::Value::Object(seg)]),
    );
    let text = serde_json::to_string_pretty(&serde_json::Value::Object(root)).unwrap();
    let idx = decode_index(&text).unwrap();
    assert_eq!(idx.file, "v.ts");
    assert_eq!(idx.segments, vec![TsSegment { hash: 5, offset: 188 }]);
}
