use vweditor::index::{LineIndex, Phase};
use vweditor::indexer::{index_range, newline_pattern, scan_offsets};
use vweditor::parse::Encoding;

#[test]
fn push_and_count() {
    let mut idx = LineIndex::new(100);
    idx.push_offset(0);
    idx.push_offset(10);
    idx.push_offset(20);
    assert_eq!(idx.line_count(), 3);
}

#[test]
fn line_range_uses_next_offset() {
    let mut idx = LineIndex::new(100);
    idx.push_offset(0);
    idx.push_offset(10);
    idx.push_offset(25);
    assert_eq!(idx.line_range(0), Some((0, 10)));
    assert_eq!(idx.line_range(1), Some((10, 25)));
}

#[test]
fn last_line_range_uses_total_bytes() {
    let mut idx = LineIndex::new(30);
    idx.push_offset(0);
    idx.push_offset(10);
    assert_eq!(idx.line_range(1), Some((10, 30)));
}

#[test]
fn line_range_past_end_is_none() {
    let mut idx = LineIndex::new(30);
    idx.push_offset(0);
    assert_eq!(idx.line_range(1), None);
    assert_eq!(idx.offset(1), None);
    assert_eq!(idx.offset(0), Some(0));
}

#[test]
fn replace_offsets_swaps_whole_array() {
    let mut idx = LineIndex::new(100);
    idx.push_offset(0);
    idx.push_offset(10);
    assert_eq!(idx.line_count(), 2);
    idx.replace_offsets(vec![0, 10, 20, 30, 40]);
    assert_eq!(idx.line_count(), 5);
    assert_eq!(idx.line_range(4), Some((40, 100)));
}

#[test]
fn pause_flag_roundtrip() {
    let mut idx = LineIndex::new(0);
    assert!(!idx.pause_requested());
    idx.request_pause();
    assert!(idx.pause_requested());
    idx.clear_pause();
    assert!(!idx.pause_requested());
}

#[test]
fn status_reflects_setters() {
    let mut idx = LineIndex::new(1000);
    idx.set_phase(Phase::Indexing);
    idx.set_bytes_done(400);
    let st = idx.status();
    assert_eq!(st.phase, Phase::Indexing);
    assert_eq!(st.bytes_done, 400);
    assert_eq!(st.total_bytes, 1000);
}

#[test]
fn newline_patterns_per_encoding() {
    assert_eq!(newline_pattern(Encoding::Utf8), b"\n");
    assert_eq!(newline_pattern(Encoding::Cp949), b"\n");
    assert_eq!(newline_pattern(Encoding::Utf16Le), &[0x0A, 0x00]);
    assert_eq!(newline_pattern(Encoding::Utf16Be), &[0x00, 0x0A]);
}

#[test]
fn scan_utf8_lf() {
    let offs = scan_offsets(b"ab\ncd\nef", 0, Encoding::Utf8);
    assert_eq!(offs, vec![0, 3, 6]);
}

#[test]
fn scan_with_start_offset() {
    let offs = scan_offsets(b"ab\ncd", 100, Encoding::Utf8);
    assert_eq!(offs, vec![100, 103]);
}

#[test]
fn scan_crlf_still_lf_boundary() {
    let offs = scan_offsets(b"ab\r\ncd", 0, Encoding::Utf8);
    assert_eq!(offs, vec![0, 4]);
}

#[test]
fn scan_utf16le_lf() {
    let bytes = [0x61, 0x00, 0x0A, 0x00, 0x62, 0x00];
    let offs = scan_offsets(&bytes, 0, Encoding::Utf16Le);
    assert_eq!(offs, vec![0, 4]);
}

#[test]
fn scan_trailing_newline_adds_no_empty_line() {
    assert_eq!(scan_offsets(b"a\nb\nc\nd\n", 0, Encoding::Utf8), vec![0, 2, 4, 6]);
    assert_eq!(scan_offsets(b"", 0, Encoding::Utf8), Vec::<u64>::new());
}

#[test]
fn indexer_utf16le_newline_straddles_chunk_boundary() {
    let mut bytes = Vec::new();
    for ch_pair in ["ab", "cd", "ef", "gh"] {
        for c in ch_pair.chars() {
            let mut buf = [0u8; 2];
            let code = c as u16;
            buf[0] = (code & 0xFF) as u8;
            buf[1] = (code >> 8) as u8;
            bytes.extend_from_slice(&buf);
        }
        bytes.extend_from_slice(&[0x0A, 0x00]);
    }
    assert_eq!(bytes.len(), 24);

    let expected = scan_offsets(&bytes, 0, Encoding::Utf16Le);
    assert_eq!(expected, vec![0, 6, 12, 18]);

    let mut idx = LineIndex::new(bytes.len() as u64);
    let paused = index_range(&bytes, &mut idx, Encoding::Utf16Le, 5, 0, || false, |_done_pos| {});
    assert!(!paused);

    let got: Vec<u64> = (0..idx.line_count()).map(|i| idx.offset(i).unwrap()).collect();
    assert_eq!(got, expected);
    assert_eq!(idx.line_count(), 4);
}

#[test]
fn index_range_result_does_not_depend_on_chunk_size() {
    let text = b"alpha\nbeta\r\ngamma\n\ndelta";
    let whole = scan_offsets(text, 0, Encoding::Utf8);
    for chunk in 1..=text.len() + 2 {
        let mut idx = LineIndex::new(text.len() as u64);
        let paused = index_range(text, &mut idx, Encoding::Utf8, chunk, 0, || false, |_| {});
        assert!(!paused);
        let got: Vec<u64> = (0..idx.line_count()).map(|i| idx.offset(i).unwrap()).collect();
        assert_eq!(got, whole, "chunk size {chunk}");
    }
}

#[test]
fn index_range_stops_when_asked() {
    let text = b"a\nb\nc\nd\n";
    let mut idx = LineIndex::new(text.len() as u64);
    let paused = index_range(text, &mut idx, Encoding::Utf8, 2, 0, || true, |_| {});
    assert!(paused);
    assert_eq!(idx.line_count(), 1);
}
