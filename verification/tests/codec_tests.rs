//! Tests of the run-length tile codec and the region reader.

use lvl_map::encode::encode_cells;
use lvl_map::region::{read_region, Region, REGION_FLAG_BASE, REGION_FLAG_NO_WEAPONS};
use lvl_map::LoadError;

#[test]
fn set_tile_counts_distinct_cells() {
    let mut region = Region::empty();
    region.set_tile(2, 3);
    region.set_tile(7, 3);
    region.set_tile(5, 9);
    assert_eq!(region.tile_count, 3);
    assert!(region.in_region(2, 3));
    assert!(region.in_region(7, 3));
    assert!(region.in_region(5, 9));
    assert!(!region.in_region(3, 2));
}

#[test]
fn set_tile_twice_is_counted_once() {
    let mut region = Region::empty();
    region.set_tile(5, 5);
    assert_eq!(region.tile_count, 1);
    region.set_tile(5, 5);
    assert_eq!(region.tile_count, 1);
}

#[test]
fn overlapping_present_runs_leave_count_unchanged() {
    // A present-run of two cells decoded twice from the same cursor marks
    // the same two cells both times.
    let mut region = Region::empty();
    let cursor = region.parse_data(&[0x41], (0, 0)).unwrap();
    assert_eq!(cursor, (2, 0));
    assert_eq!(region.tile_count, 2);
    let cursor = region.parse_data(&[0x41], (0, 0)).unwrap();
    assert_eq!(cursor, (2, 0));
    assert_eq!(region.tile_count, 2);
}

#[test]
fn get_tiles_lists_cells_in_flattened_order() {
    let mut region = Region::empty();
    region.set_tile(5, 9);
    region.set_tile(2, 3);
    region.set_tile(7, 3);
    assert_eq!(region.get_tiles(), vec![(2, 3), (7, 3), (5, 9)]);
}

#[test]
fn short_present_run_wraps_once_at_row_end() {
    // A present-run of length 5 starting at x = 1022 crosses the row end:
    // the last three cells land at the start of the next row, and the
    // cursor wraps to x = 0.
    let mut region = Region::empty();
    let cursor = region.parse_data(&[0x44], (1022, 7)).unwrap();
    assert_eq!(cursor, (0, 8));
    assert!(region.in_region(1022, 7));
    assert!(region.in_region(1023, 7));
    assert!(region.in_region(0, 8));
    assert!(region.in_region(1, 8));
    assert!(region.in_region(2, 8));
    assert!(!region.in_region(3, 8));
    assert_eq!(region.tile_count, 5);
}

#[test]
fn row_repeat_copies_the_row_above() {
    // Row 4 holds cells (3,4) and (9,4); a repeat-previous-row record with
    // run 2 at cursor row 5 copies them into rows 5 and 6 and nothing else.
    let mut region = Region::empty();
    region.set_tile(3, 4);
    region.set_tile(9, 4);
    let cursor = region.parse_data(&[0xC1], (0, 5)).unwrap();
    assert_eq!(cursor, (0, 7));
    assert!(region.in_region(3, 5));
    assert!(region.in_region(9, 5));
    assert!(region.in_region(3, 6));
    assert!(region.in_region(9, 6));
    assert!(!region.in_region(4, 5));
    assert!(!region.in_region(3, 7));
    assert_eq!(region.tile_count, 6);
}

#[test]
fn row_repeat_at_top_row_copies_nothing() {
    let mut region = Region::empty();
    let cursor = region.parse_data(&[0xC0], (0, 0)).unwrap();
    assert_eq!(cursor, (0, 1));
    assert_eq!(region.tile_count, 0);
}

#[test]
fn short_runs_decode_lengths_one_to_thirty_two() {
    // Low five bits 0 and 31 give runs 1 and 32.
    let mut region = Region::empty();
    let cursor = region.parse_data(&[0x00], (0, 0)).unwrap();
    assert_eq!(cursor, (1, 0));
    let cursor = region.parse_data(&[0x1F], (0, 0)).unwrap();
    assert_eq!(cursor, (32, 0));
}

#[test]
fn long_runs_decode_lengths_one_to_1024() {
    // Long empty-run with payload bits 0 gives run 1; with all ten bits set
    // it gives run 1024, exactly one row, so the cursor wraps once.
    let mut region = Region::empty();
    let cursor = region.parse_data(&[0x20, 0x00], (0, 0)).unwrap();
    assert_eq!(cursor, (1, 0));
    let cursor = region.parse_data(&[0x23, 0xFF], (0, 0)).unwrap();
    assert_eq!(cursor, (0, 1));
}

#[test]
fn row_skip_resets_x_and_adds_rows() {
    let mut region = Region::empty();
    let cursor = region.parse_data(&[0x9F], (17, 3)).unwrap();
    assert_eq!(cursor, (0, 35));
    assert_eq!(region.tile_count, 0);
}

#[test]
fn long_record_cut_at_last_byte_is_an_error() {
    let mut region = Region::empty();
    assert_eq!(
        region.parse_data(&[0x20], (0, 0)),
        Err(LoadError::TruncatedRunRecord)
    );
    assert_eq!(
        region.parse_data(&[0x00, 0xE5], (0, 0)),
        Err(LoadError::TruncatedRunRecord)
    );
}

#[test]
fn encoded_cells_decode_back_to_the_same_set() {
    let cells: Vec<usize> = vec![0, 5, 1023, 1024, 5000, 1048575];
    let encoded = encode_cells(&cells);
    let mut region = Region::empty();
    region.parse_data(&encoded, (0, 0)).unwrap();
    assert_eq!(region.tile_count, cells.len() as u32);
    assert!(region.in_region(0, 0));
    assert!(region.in_region(5, 0));
    assert!(region.in_region(1023, 0));
    assert!(region.in_region(0, 1));
    assert!(region.in_region(904, 4));
    assert!(region.in_region(1023, 1023));
    let pairs = region.get_tiles();
    assert_eq!(
        pairs,
        vec![(0, 0), (5, 0), (1023, 0), (0, 1), (904, 4), (1023, 1023)]
    );
}

#[test]
fn region_reader_assembles_name_flags_and_tiles() {
    // rBSE, then rNAM "Room", then rTIL with a present-run of five cells.
    let mut payload: Vec<u8> = Vec::new();
    payload.extend_from_slice(b"rBSE");
    payload.extend_from_slice(&[0, 0, 0, 0]);
    payload.extend_from_slice(b"rNAM");
    payload.extend_from_slice(&[4, 0, 0, 0]);
    payload.extend_from_slice(b"Room");
    payload.extend_from_slice(b"rTIL");
    payload.extend_from_slice(&[1, 0, 0, 0]);
    payload.extend_from_slice(&[0x44, 0, 0, 0]);
    let region = read_region(&payload).unwrap();
    assert_eq!(region.name, "Room");
    assert_eq!(region.flags, REGION_FLAG_BASE);
    assert_eq!(region.tile_count, 5);
    assert!(region.in_region(0, 0));
    assert!(region.in_region(4, 0));
    assert!(!region.in_region(5, 0));
}

#[test]
fn region_reader_threads_the_cursor_across_tile_chunks() {
    // Two rTIL sub-chunks: the first leaves the cursor at (2, 0), so the
    // second's present-run starts there.
    let mut payload: Vec<u8> = Vec::new();
    payload.extend_from_slice(b"rTIL");
    payload.extend_from_slice(&[1, 0, 0, 0]);
    payload.extend_from_slice(&[0x01, 0, 0, 0]);
    payload.extend_from_slice(b"rTIL");
    payload.extend_from_slice(&[1, 0, 0, 0]);
    payload.extend_from_slice(&[0x42, 0, 0, 0]);
    let region = read_region(&payload).unwrap();
    assert!(!region.in_region(0, 0));
    assert!(!region.in_region(1, 0));
    assert!(region.in_region(2, 0));
    assert!(region.in_region(3, 0));
    assert!(region.in_region(4, 0));
    assert_eq!(region.tile_count, 3);
}

#[test]
fn region_reader_ors_flags_and_skips_unknown_tags() {
    let mut payload: Vec<u8> = Vec::new();
    payload.extend_from_slice(b"rNWP");
    payload.extend_from_slice(&[0, 0, 0, 0]);
    payload.extend_from_slice(b"rAWP");
    payload.extend_from_slice(&[0, 0, 0, 0]);
    payload.extend_from_slice(b"rBSE");
    payload.extend_from_slice(&[0, 0, 0, 0]);
    // One trailing byte so the last header is still followed by data.
    payload.extend_from_slice(&[0]);
    let region = read_region(&payload).unwrap();
    assert_eq!(region.flags, REGION_FLAG_BASE | REGION_FLAG_NO_WEAPONS);
    assert_eq!(region.tile_count, 0);
}

#[test]
fn region_name_must_be_utf8() {
    let mut payload: Vec<u8> = Vec::new();
    payload.extend_from_slice(b"rNAM");
    payload.extend_from_slice(&[2, 0, 0, 0]);
    payload.extend_from_slice(&[0xFF, 0xFE, 0, 0]);
    payload.extend_from_slice(&[0]);
    assert!(matches!(read_region(&payload), Err(LoadError::InvalidUtf8)));
}

#[test]
fn region_tile_chunk_with_cut_record_is_an_error() {
    let mut payload: Vec<u8> = Vec::new();
    payload.extend_from_slice(b"rTIL");
    payload.extend_from_slice(&[1, 0, 0, 0]);
    payload.extend_from_slice(&[0x3C, 0, 0, 0]);
    assert!(matches!(
        read_region(&payload),
        Err(LoadError::TruncatedRunRecord)
    ));
}
