use vweditor::hex::{
    apply_nibble, ascii_char, ascii_click_byte, find_bytes, format_offset, hex_click_byte, offset_width,
    parse_hex_query, row_count, HexEditBuffer, HexPane, HexState,
};

#[test]
fn row_count_boundaries() {
    assert_eq!(row_count(0), 1, "an empty file still needs a row for the caret");
    assert_eq!(row_count(1), 1);
    assert_eq!(row_count(31), 1);
    assert_eq!(row_count(32), 1);
    assert_eq!(row_count(33), 2);
    assert_eq!(row_count(64), 2);
    assert_eq!(row_count(65), 3);
}

#[test]
fn offset_width_grows_past_16mb() {
    assert_eq!(offset_width(0), 6);
    assert_eq!(offset_width(0xFF_FFFF), 6);
    assert_eq!(offset_width(0x100_0001), 7);
    assert_eq!(offset_width(0x1_0000_0001), 9);
}

#[test]
fn format_offset_matches_reference_ui() {
    assert_eq!(format_offset(0, 6), "000000");
    assert_eq!(format_offset(1, 6), "000020");
    assert_eq!(format_offset(2, 6), "000040");
    assert_eq!(format_offset(9, 6), "000120");
    assert_eq!(format_offset(0x100_0000 / 32, 7), "1000000");
}

#[test]
fn ascii_char_printable_range_only() {
    assert_eq!(ascii_char(0x1F), '.');
    assert_eq!(ascii_char(0x20), ' ');
    assert_eq!(ascii_char(b'A'), 'A');
    assert_eq!(ascii_char(0x7E), '~');
    assert_eq!(ascii_char(0x7F), '.');
    assert_eq!(ascii_char(0x80), '.');
    assert_eq!(ascii_char(0xFF), '.');
    assert_eq!(ascii_char(0x00), '.');
}

#[test]
fn apply_nibble_high_and_low() {
    assert_eq!(apply_nibble(0x00, true, 0xA), 0xA0);
    assert_eq!(apply_nibble(0x00, false, 0xA), 0x0A);
    assert_eq!(apply_nibble(0xFF, true, 0x0), 0x0F);
    assert_eq!(apply_nibble(0xFF, false, 0x0), 0xF0);
    assert_eq!(apply_nibble(0x12, true, 0x3), 0x32);
    assert_eq!(apply_nibble(0x12, false, 0x3), 0x13);
}

#[test]
fn hex_click_byte_maps_columns() {
    assert_eq!(hex_click_byte(0), Some((0, true)));
    assert_eq!(hex_click_byte(1), Some((0, false)));
    assert_eq!(hex_click_byte(2), Some((0, false)));
    assert_eq!(hex_click_byte(3), Some((1, true)));
    assert_eq!(hex_click_byte(95), Some((31, false)));
    assert_eq!(hex_click_byte(96), None, "past the row width");
}

#[test]
fn ascii_click_byte_maps_columns() {
    assert_eq!(ascii_click_byte(0), Some(0));
    assert_eq!(ascii_click_byte(31), Some(31));
    assert_eq!(ascii_click_byte(32), None);
}

#[test]
fn parse_hex_query_accepts_spaced_and_packed() {
    assert_eq!(parse_hex_query("53 51 4C"), Some(vec![0x53, 0x51, 0x4C]));
    assert_eq!(parse_hex_query("53514c"), Some(vec![0x53, 0x51, 0x4C]));
    assert_eq!(parse_hex_query("  53  51 "), Some(vec![0x53, 0x51]));
    assert_eq!(parse_hex_query("ab CD ef"), Some(vec![0xAB, 0xCD, 0xEF]));
}

#[test]
fn parse_hex_query_rejects_bad_input() {
    assert_eq!(parse_hex_query(""), None, "nothing to search for");
    assert_eq!(parse_hex_query("   "), None);
    assert_eq!(parse_hex_query("5"), None, "odd number of digits");
    assert_eq!(parse_hex_query("53 5"), None);
    assert_eq!(parse_hex_query("5G"), None, "not a hex digit");
    assert_eq!(parse_hex_query("한글"), None);
}

#[test]
fn find_bytes_forward_then_wraps() {
    let hay = b"abcXabcX";
    assert_eq!(find_bytes(hay, b"abc", 0), Some(0));
    assert_eq!(find_bytes(hay, b"abc", 1), Some(4));
    assert_eq!(find_bytes(hay, b"abc", 5), Some(0), "wraps to the start");
    assert_eq!(find_bytes(hay, b"zzz", 0), None);
    assert_eq!(find_bytes(hay, b"", 0), None, "an empty needle finds nothing");
    assert_eq!(find_bytes(b"", b"a", 0), None);
    assert_eq!(find_bytes(hay, b"abc", 999), Some(0), "a start past the end wraps");
}

#[test]
fn overwrite_replaces_and_sets_dirty() {
    let mut b = HexEditBuffer::new(vec![1, 2, 3, 4]);
    assert!(!b.dirty);
    b.overwrite(1, &[9, 8]);
    assert_eq!(b.bytes, vec![1, 9, 8, 4]);
    assert!(b.dirty);
}

#[test]
fn overwrite_past_end_extends() {
    let mut b = HexEditBuffer::new(vec![1, 2]);
    b.overwrite(1, &[7, 8, 9]);
    assert_eq!(b.bytes, vec![1, 7, 8, 9]);
    assert_eq!(b.undo(), Some(1));
    assert_eq!(b.bytes, vec![1, 2], "undo also restores the length");
}

#[test]
fn insert_and_delete_roundtrip_via_undo() {
    let mut b = HexEditBuffer::new(vec![1, 2, 3]);
    b.insert(1, &[9, 9]);
    assert_eq!(b.bytes, vec![1, 9, 9, 2, 3]);
    b.delete_range(2, 4);
    assert_eq!(b.bytes, vec![1, 9, 3]);
    assert_eq!(b.undo(), Some(2), "undoing the delete puts the caret where it was");
    assert_eq!(b.bytes, vec![1, 9, 9, 2, 3]);
    assert_eq!(b.undo(), Some(1), "undoing the insert");
    assert_eq!(b.bytes, vec![1, 2, 3]);
    assert_eq!(b.undo(), None, "nothing left to undo");
}

#[test]
fn redo_reapplies_and_new_edit_clears_redo() {
    let mut b = HexEditBuffer::new(vec![1, 2, 3]);
    b.overwrite(0, &[7]);
    b.undo();
    assert_eq!(b.bytes, vec![1, 2, 3]);
    assert_eq!(b.redo(), Some(0));
    assert_eq!(b.bytes, vec![7, 2, 3]);
    b.undo();
    b.insert(3, &[5]);
    assert_eq!(b.redo(), None);
}

#[test]
fn delete_range_clamps_to_len_and_ignores_empty() {
    let mut b = HexEditBuffer::new(vec![1, 2, 3]);
    b.delete_range(2, 999);
    assert_eq!(b.bytes, vec![1, 2]);
    let dirty_before = b.dirty;
    b.delete_range(1, 1);
    b.delete_range(5, 9);
    assert_eq!(b.bytes, vec![1, 2]);
    assert_eq!(b.dirty, dirty_before);
    assert_eq!(b.undo(), Some(2), "only the real delete was recorded");
    assert_eq!(b.undo(), None);
}

#[test]
fn undo_then_redo_restores_every_state() {
    let mut b = HexEditBuffer::new(vec![10, 20, 30, 40]);
    b.overwrite(2, &[1, 2, 3]);
    let s1 = b.bytes.clone();
    b.insert(0, &[5]);
    let s2 = b.bytes.clone();
    b.delete_range(1, 3);
    let s3 = b.bytes.clone();
    b.undo();
    assert_eq!(b.bytes, s2);
    b.undo();
    assert_eq!(b.bytes, s1);
    b.undo();
    assert_eq!(b.bytes, vec![10, 20, 30, 40]);
    b.redo();
    b.redo();
    b.redo();
    assert_eq!(b.bytes, s3);
    assert_eq!(b.redo(), None);
}

#[test]
fn hex_state_defaults() {
    let h = HexState::new();
    assert!(h.edit.is_none());
    assert_eq!(h.caret, (0, true));
    assert!(h.sel.is_none());
    assert!(matches!(h.pane, HexPane::Hex));
    assert!(!h.insert_mode);
    assert!(h.find_hex, "the hex document's find box reads hexadecimal by default");
    assert!(h.last_match.is_none());
    assert!(!h.confirm_load);
}

#[test]
fn undo_and_redo_offsets_follow_the_edits() {
    let mut b = HexEditBuffer::new(vec![0; 8]);
    b.overwrite(5, &[1]);
    b.insert(2, &[9]);
    b.delete_range(6, 8);
    assert_eq!(b.undo(), Some(6));
    assert_eq!(b.undo(), Some(2));
    assert_eq!(b.redo(), Some(2));
    assert_eq!(b.redo(), Some(6));
    assert_eq!(b.undo(), Some(6));
    assert_eq!(b.undo(), Some(2));
    assert_eq!(b.undo(), Some(5));
    assert_eq!(b.undo(), None);
    assert_eq!(b.redo(), Some(5));
}
