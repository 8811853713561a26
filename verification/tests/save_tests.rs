use vweditor::edit::Newline;
use vweditor::parse::Encoding;
use vweditor::save::{bom_bytes, document_bytes, encode_bytes, SaveOptions};

fn v(strs: &[&str]) -> Vec<String> {
    strs.iter().map(|s| s.to_string()).collect()
}

#[test]
fn write_utf8_lf() {
    let opts = SaveOptions { enc: Encoding::Utf8, bom: false, newline: Newline::Lf };
    assert_eq!(document_bytes(&v(&["a", "b"]), &opts), b"a\nb\n");
}

#[test]
fn write_crlf() {
    let opts = SaveOptions { enc: Encoding::Utf8, bom: false, newline: Newline::CrLf };
    assert_eq!(document_bytes(&v(&["a", "b"]), &opts), b"a\r\nb\r\n");
}

#[test]
fn write_utf8_bom() {
    let opts = SaveOptions { enc: Encoding::Utf8, bom: true, newline: Newline::Lf };
    assert_eq!(document_bytes(&v(&["x"]), &opts), b"\xEF\xBB\xBFx\n");
}

#[test]
fn write_cp949_roundtrip() {
    let opts = SaveOptions { enc: Encoding::Cp949, bom: false, newline: Newline::Lf };
    assert_eq!(document_bytes(&v(&["가나"]), &opts), vec![0xB0, 0xA1, 0xB3, 0xAA, b'\n']);
}

#[test]
fn write_utf16le_bom() {
    let opts = SaveOptions { enc: Encoding::Utf16Le, bom: true, newline: Newline::Lf };
    assert_eq!(document_bytes(&v(&["A"]), &opts), vec![0xFF, 0xFE, 0x41, 0x00, 0x0A, 0x00]);
}

#[test]
fn encode_utf16be_char() {
    assert_eq!(encode_bytes("A", Encoding::Utf16Be), vec![0x00, 0x41]);
}

#[test]
fn encode_utf16_surrogate_pair() {
    // U+1F600 is D83D DE00 in UTF-16.
    assert_eq!(encode_bytes("😀", Encoding::Utf16Be), vec![0xD8, 0x3D, 0xDE, 0x00]);
    assert_eq!(encode_bytes("😀", Encoding::Utf16Le), vec![0x3D, 0xD8, 0x00, 0xDE]);
}

#[test]
fn bom_per_encoding() {
    assert_eq!(bom_bytes(Encoding::Utf8), vec![0xEF, 0xBB, 0xBF]);
    assert_eq!(bom_bytes(Encoding::Utf16Le), vec![0xFF, 0xFE]);
    assert_eq!(bom_bytes(Encoding::Utf16Be), vec![0xFE, 0xFF]);
    assert_eq!(bom_bytes(Encoding::Cp949), Vec::<u8>::new());
}

#[test]
fn cp949_has_no_bom_even_when_asked() {
    let opts = SaveOptions { enc: Encoding::Cp949, bom: true, newline: Newline::CrLf };
    assert_eq!(document_bytes(&v(&["a"]), &opts), b"a\r\n");
}

#[test]
fn empty_document_is_just_the_bom() {
    let opts = SaveOptions { enc: Encoding::Utf8, bom: true, newline: Newline::Lf };
    assert_eq!(document_bytes(&[], &opts), vec![0xEF, 0xBB, 0xBF]);
}

#[test]
fn utf8_save_then_load_gives_the_lines_back() {
    let lines = v(&["\u{FEFF}이름,나이", "", "a\rb", "끝"]);
    for bom in [false, true] {
        for newline in [Newline::Lf, Newline::CrLf] {
            let opts = SaveOptions { enc: Encoding::Utf8, bom, newline };
            let first_ok = bom;
            let ls: Vec<String> = if first_ok { lines.clone() } else { lines[1..].to_vec() };
            let bytes = document_bytes(&ls, &opts);
            let buf = vweditor::edit::load_edit_buffer(&bytes, Encoding::Utf8);
            assert_eq!(buf.lines, ls);
            assert_eq!(buf.newline, newline);
        }
    }
}

#[test]
fn utf8_load_drops_a_leading_mark_on_any_line() {
    let opts = SaveOptions { enc: Encoding::Utf8, bom: false, newline: Newline::Lf };
    let bytes = document_bytes(&v(&["a", "\u{FEFF}b"]), &opts);
    let buf = vweditor::edit::load_edit_buffer(&bytes, Encoding::Utf8);
    assert_eq!(buf.lines, v(&["a", "b"]));
}
