use std::path::Path;
use vweditor::layout::detect_layout;
use vweditor::parse::{Encoding, SeparatorMode};

#[test]
fn detect_layout_finds_comma_and_text_header() {
    let r = detect_layout(b"name,age\nann,30\nbob,41\n", Path::new("people.txt"));
    assert_eq!(r, Some((Encoding::Utf8, SeparatorMode::Char(b','), true)));
}

#[test]
fn detect_layout_numeric_first_row_is_data() {
    let r = detect_layout(b"1,2\n3,4\n", Path::new("n.txt"));
    assert_eq!(r, Some((Encoding::Utf8, SeparatorMode::Char(b','), false)));
}

#[test]
fn detect_layout_plain_text_has_no_header() {
    let r = detect_layout(b"hello world\nsecond line\n", Path::new("notes.txt"));
    assert_eq!(r, Some((Encoding::Utf8, SeparatorMode::Plain, false)));
}

#[test]
fn detect_layout_extension_decides() {
    let r = detect_layout(b"single_column_line\n", Path::new("a.TSV"));
    assert_eq!(r, Some((Encoding::Utf8, SeparatorMode::Char(b'\t'), true)));
}

#[test]
fn detect_layout_crlf_lines() {
    let r = detect_layout(b"a;b\r\nc;d\r\n", Path::new("x.dat"));
    assert_eq!(r, Some((Encoding::Utf8, SeparatorMode::Char(b';'), true)));
}

#[test]
fn detect_layout_utf16_with_bom() {
    let r = detect_layout(b"\xFF\xFEa\0,\0b\0\n\0", Path::new("u.txt"));
    assert_eq!(r, Some((Encoding::Utf16Le, SeparatorMode::Char(b','), true)));
}

#[test]
fn detect_layout_reads_only_the_head() {
    let mut src = vec![b'a'; 65536];
    src.extend_from_slice(b"\n1,2\n3,4\n5,6\n");
    let r = detect_layout(&src, Path::new("big.txt"));
    assert_eq!(r, Some((Encoding::Utf8, SeparatorMode::Plain, false)));
}

#[test]
fn detect_layout_samples_fifty_lines() {
    let mut src = Vec::new();
    for _ in 0..50 {
        src.extend_from_slice(b"plain\n");
    }
    for _ in 0..200 {
        src.extend_from_slice(b"a,b,c\n");
    }
    let r = detect_layout(&src, Path::new("mixed.txt"));
    assert_eq!(r, Some((Encoding::Utf8, SeparatorMode::Plain, false)));
}

#[test]
fn detect_layout_empty_file() {
    let r = detect_layout(b"", Path::new("empty.txt"));
    assert_eq!(r, Some((Encoding::Utf8, SeparatorMode::Plain, false)));
}
