use mpegts_finder::{cut_range, CutError};

fn source() -> Vec<u8> {
    (0u8..100).collect()
}

#[test]
fn cut_copies_the_half_open_range() {
    let data = source();
    let out = cut_range(&data, 10, Some(25)).unwrap();
    assert_eq!(out.len(), 15);
    assert_eq!(out, data[10..25].to_vec());
}

#[test]
fn cut_without_end_runs_to_the_end() {
    let data = source();
    let out = cut_range(&data, 60, None).unwrap();
    assert_eq!(out.len(), data.len() - 60);
    assert_eq!(out, data[60..].to_vec());
}

#[test]
fn cut_of_the_whole_source_is_the_source() {
    let data = source();
    assert_eq!(cut_range(&data, 0, None).unwrap(), data);
    assert_eq!(cut_range(&data, 0, Some(100)).unwrap(), data);
}

#[test]
fn empty_range_is_empty() {
    let data = source();
    assert_eq!(cut_range(&data, 30, Some(30)).unwrap(), Vec::<u8>::new());
    assert_eq!(cut_range(&data, 100, None).unwrap(), Vec::<u8>::new());
}

#[test]
fn backward_range_is_a_usage_error() {
    let data = source();
    assert_eq!(cut_range(&data, 30, Some(29)), Err(CutError::BackwardRange));
}

#[test]
fn range_past_the_end_is_a_read_error() {
    let data = source();
    assert_eq!(cut_range(&data, 10, Some(101)), Err(CutError::SourceTooShort));
    assert_eq!(cut_range(&data, 101, None), Err(CutError::SourceTooShort));
}
