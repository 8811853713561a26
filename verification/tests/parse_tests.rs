use std::path::Path;
use vweditor::parse::{
    decode_line, detect_encoding, detect_header, detect_separator, field_bounds, field_slice, join_fields,
    separator_for, separator_from_content, split_fields, Encoding, SeparatorMode,
};

/// A reader made fresh for each line: the reference `split_fields` is held to.
fn split_fields_with(reader: &mut csv_core::Reader, line: &str) -> Vec<String> {
    let bytes = line.as_bytes();
    let mut out = vec![0u8; bytes.len() + 1];
    let mut ends = vec![0usize; bytes.len() + 1];
    let mut input = bytes;
    let mut total_nend = 0usize;
    loop {
        let (result, nin, _nout, nend) = reader.read_record(input, &mut out, &mut ends[total_nend..]);
        total_nend += nend;
        input = &input[nin..];
        match result {
            csv_core::ReadRecordResult::End => break,
            csv_core::ReadRecordResult::InputEmpty => {
                if input.is_empty() {
                    continue;
                }
            }
            csv_core::ReadRecordResult::OutputFull => {
                out.resize(out.len() * 2, 0);
            }
            csv_core::ReadRecordResult::OutputEndsFull => {
                ends.resize(ends.len() * 2, 0);
            }
            csv_core::ReadRecordResult::Record => {
                break;
            }
        }
        if input.is_empty() && total_nend > 0 {
            break;
        }
    }
    let mut fields = Vec::new();
    for i in 0..total_nend {
        let start = if i == 0 { 0 } else { ends[i - 1] };
        let end = ends[i];
        fields.push(String::from_utf8_lossy(&out[start..end]).into_owned());
    }
    if fields.is_empty() {
        fields.push(String::new());
    }
    fields
}

#[test]
fn detects_utf8_bom() {
    let bytes = [0xEF, 0xBB, 0xBF, b'a', b'b'];
    assert_eq!(detect_encoding(&bytes), Encoding::Utf8);
}

#[test]
fn detects_utf16le_bom() {
    let bytes = [0xFF, 0xFE, b'a', 0x00];
    assert_eq!(detect_encoding(&bytes), Encoding::Utf16Le);
}

#[test]
fn detects_utf16be_bom() {
    let bytes = [0xFE, 0xFF, 0x00, b'a'];
    assert_eq!(detect_encoding(&bytes), Encoding::Utf16Be);
}

#[test]
fn plain_ascii_is_utf8() {
    assert_eq!(detect_encoding(b"name,age\n"), Encoding::Utf8);
}

#[test]
fn valid_utf8_korean_is_utf8() {
    assert_eq!(detect_encoding("이름".as_bytes()), Encoding::Utf8);
}

#[test]
fn invalid_utf8_falls_back_to_cp949() {
    let bytes = [0xB0, 0xA1];
    assert_eq!(detect_encoding(&bytes), Encoding::Cp949);
}

#[test]
fn decode_utf8_line() {
    assert_eq!(decode_line("이름,나이".as_bytes(), Encoding::Utf8), "이름,나이");
}

#[test]
fn decode_cp949_line() {
    let bytes = [0xB0, 0xA1, 0xB3, 0xAA];
    assert_eq!(decode_line(&bytes, Encoding::Cp949), "가나");
}

#[test]
fn decode_invalid_bytes_no_panic() {
    let bytes = [0xFF, 0xFE, 0x00];
    let s = decode_line(&bytes, Encoding::Utf8);
    assert!(!s.is_empty());
}

#[test]
fn tsv_extension_picks_tab() {
    assert_eq!(detect_separator(Path::new("a.tsv"), &["x\ty"]), SeparatorMode::Char(b'\t'));
}

#[test]
fn csv_extension_picks_comma() {
    assert_eq!(detect_separator(Path::new("a.csv"), &["x,y"]), SeparatorMode::Char(b','));
}

#[test]
fn txt_content_picks_consistent_delimiter() {
    let lines = ["a|b|c", "d|e|f", "g|h|i"];
    assert_eq!(detect_separator(Path::new("a.txt"), &lines), SeparatorMode::Char(b'|'));
}

#[test]
fn plain_text_without_delimiter_is_none() {
    let lines = ["This is just a sentence.", "Another line of prose here", "No delimiters to speak of"];
    assert_eq!(detect_separator(Path::new("notes.txt"), &lines), SeparatorMode::Plain);
}

#[test]
fn json_content_is_none() {
    let lines = ["{", "  \"name\": \"Alice\",", "  \"age\": 30", "}"];
    assert_eq!(detect_separator(Path::new("data.json"), &lines), SeparatorMode::Plain);
}

#[test]
fn tsv_extension_wins_even_if_content_sparse() {
    assert_eq!(detect_separator(Path::new("a.tsv"), &["single_column_line"]), SeparatorMode::Char(b'\t'));
}

#[test]
fn separator_extensions_are_case_insensitive() {
    assert_eq!(separator_for(Some("TSV"), &["a,b"]), SeparatorMode::Char(b'\t'));
    assert_eq!(separator_for(Some("Tab"), &["a,b"]), SeparatorMode::Char(b'\t'));
    assert_eq!(separator_for(Some("PSV"), &["a,b"]), SeparatorMode::Char(b'|'));
    assert_eq!(separator_for(Some("txt"), &["a;b", "c;d"]), SeparatorMode::Char(b';'));
    assert_eq!(separator_for(None, &["a;b", "c;d"]), SeparatorMode::Char(b';'));
}

#[test]
fn separator_content_prefers_steadier_candidate() {
    // Both comma and tab occur; the tab count is constant per line, the
    // comma count is not, so the tab wins.
    let lines = ["a\tb,,,", "c\td", "e\tf,"];
    assert_eq!(separator_from_content(&lines), SeparatorMode::Char(b'\t'));
    // No lines: plain text.
    let none: [&str; 0] = [];
    assert_eq!(separator_from_content(&none), SeparatorMode::Plain);
}

#[test]
fn split_basic_fields() {
    assert_eq!(split_fields("a,b,c", b','), vec!["a", "b", "c"]);
}

#[test]
fn field_slice_basic() {
    assert_eq!(field_slice(b"a,b,c", b',', 0), Some(&b"a"[..]));
    assert_eq!(field_slice(b"a,b,c", b',', 1), Some(&b"b"[..]));
    assert_eq!(field_slice(b"a,b,c", b',', 2), Some(&b"c"[..]));
    assert_eq!(field_slice(b"a,b,c", b',', 3), None);
}

#[test]
fn field_slice_empty_fields() {
    assert_eq!(field_slice(b"a,,c", b',', 1), Some(&b""[..]));
    assert_eq!(field_slice(b",x", b',', 0), Some(&b""[..]));
}

#[test]
fn field_slice_quoted_delimiter_ignored() {
    assert_eq!(field_slice(b"\"a,b\",c", b',', 0), Some(&b"\"a,b\""[..]));
    assert_eq!(field_slice(b"\"a,b\",c", b',', 1), Some(&b"c"[..]));
}

#[test]
fn field_slice_tab_delim() {
    assert_eq!(field_slice(b"x\ty\tz", b'\t', 2), Some(&b"z"[..]));
}

#[test]
fn field_slice_last_field_to_end() {
    assert_eq!(field_slice(b"a,bcd", b',', 1), Some(&b"bcd"[..]));
}

#[test]
fn field_slice_quote_mid_field_is_literal() {
    assert_eq!(field_slice(b"a\",b", b',', 0), Some(&b"a\""[..]));
    assert_eq!(field_slice(b"a\",b", b',', 1), Some(&b"b"[..]));
}

#[test]
fn field_slice_delimiter_alive_after_closing_quote() {
    assert_eq!(field_slice(b"\"a\"b,c", b',', 0), Some(&b"\"a\"b"[..]));
    assert_eq!(field_slice(b"\"a\"b,c", b',', 1), Some(&b"c"[..]));
}

#[test]
fn field_slice_escaped_quote_keeps_quoting() {
    assert_eq!(field_slice(b"\"a\"\",b\",c", b',', 0), Some(&b"\"a\"\",b\""[..]));
    assert_eq!(field_slice(b"\"a\"\",b\",c", b',', 1), Some(&b"c"[..]));
}

#[test]
fn field_bounds_gives_byte_range() {
    assert_eq!(field_bounds(b"ab,\"c,d\",e", b',', 0), Some((0, 2)));
    assert_eq!(field_bounds(b"ab,\"c,d\",e", b',', 1), Some((3, 8)));
    assert_eq!(field_bounds(b"ab,\"c,d\",e", b',', 2), Some((9, 10)));
    assert_eq!(field_bounds(b"ab,\"c,d\",e", b',', 3), None);
    assert_eq!(field_bounds(b"", b',', 0), Some((0, 0)));
}

#[test]
fn field_slice_field_count_matches_split_fields_exhaustively() {
    const ALPHABET: [char; 3] = ['a', '"', ','];
    for len in 0..=6usize {
        for n in 0..ALPHABET.len().pow(len as u32) {
            let mut n = n;
            let mut s = String::new();
            for _ in 0..len {
                s.push(ALPHABET[n % ALPHABET.len()]);
                n /= ALPHABET.len();
            }
            let want = split_fields(&s, b',');
            let bytes = s.as_bytes();
            let mut got = 0usize;
            while field_slice(bytes, b',', got).is_some() {
                got += 1;
                assert!(got < 32, "runaway loop");
            }
            assert_eq!(got, want.len(), "input {s:?}");
        }
    }
}

#[test]
fn split_quoted_field_with_delimiter() {
    assert_eq!(split_fields("\"a,b\",c", b','), vec!["a,b", "c"]);
}

#[test]
fn split_empty_fields() {
    assert_eq!(split_fields("a,,c", b','), vec!["a", "", "c"]);
}

#[test]
fn split_fields_reuses_reader_across_delims() {
    assert_eq!(split_fields("a,b", b','), vec!["a", "b"]);
    assert_eq!(split_fields("c,d,e", b','), vec!["c", "d", "e"]);
    assert_eq!(split_fields("f", b','), vec!["f"]);
    assert_eq!(split_fields("a\tb\tc", b'\t'), vec!["a", "b", "c"]);
    assert_eq!(split_fields("a,b\tc", b'\t'), vec!["a,b", "c"]);
    assert_eq!(split_fields("a,b", b','), vec!["a", "b"]);
    assert_eq!(split_fields("x\ty,z", b','), vec!["x\ty", "z"]);
    assert_eq!(split_fields("p|q", b'|'), vec!["p", "q"]);
    assert_eq!(split_fields("p,q", b'|'), vec!["p,q"]);
    assert_eq!(split_fields("p,q", b','), vec!["p", "q"]);
}

#[test]
fn split_fields_quotes_survive_reader_reuse() {
    assert_eq!(split_fields("\"a,b", b','), vec!["a,b"]);
    assert_eq!(split_fields("c,d", b','), vec!["c", "d"]);
    assert_eq!(split_fields("\"a,b\",c", b','), vec!["a,b", "c"]);
    assert_eq!(split_fields("\"a\"\"b\",c", b','), vec!["a\"b", "c"]);
    assert_eq!(split_fields("e,f", b','), vec!["e", "f"]);
}

#[test]
fn split_fields_strips_bom_even_on_cached_reader() {
    let bom_line = "\u{FEFF}a,b";
    assert_eq!(split_fields("x,y", b','), vec!["x", "y"]);
    assert_eq!(split_fields(bom_line, b','), vec!["a", "b"]);
    assert_eq!(split_fields(bom_line, b','), vec!["a", "b"]);
    let mut fresh = csv_core::ReaderBuilder::new().delimiter(b',').build();
    assert_eq!(split_fields(bom_line, b','), split_fields_with(&mut fresh, bom_line));
}

#[test]
fn split_fields_cached_reader_matches_fresh_reader_exhaustively() {
    const ALPHABET: [char; 5] = ['a', '"', ',', '\t', '\u{FEFF}'];
    for len in 0..=4usize {
        for n in 0..ALPHABET.len().pow(len as u32) {
            let mut n = n;
            let mut s = String::new();
            for _ in 0..len {
                s.push(ALPHABET[n % ALPHABET.len()]);
                n /= ALPHABET.len();
            }
            for delim in [b',', b'\t', b'|'] {
                let mut fresh = csv_core::ReaderBuilder::new().delimiter(delim).build();
                let want = split_fields_with(&mut fresh, &s);
                assert_eq!(split_fields(&s, delim), want, "input {s:?} delim {delim:?} first call");
                assert_eq!(split_fields(&s, delim), want, "input {s:?} delim {delim:?} second call");
            }
        }
    }
}

#[test]
fn split_fields_long_line_grows_buffers() {
    let line: String = (0..500).map(|i| format!("\"f{i}\"")).collect::<Vec<_>>().join(",");
    let got = split_fields(&line, b',');
    assert_eq!(got.len(), 500);
    assert_eq!(got[0], "f0");
    assert_eq!(got[499], "f499");
}

#[test]
fn header_when_first_row_text_rest_numeric() {
    let rows = vec![
        vec!["name".to_string(), "age".to_string()],
        vec!["Alice".to_string(), "30".to_string()],
        vec!["Bob".to_string(), "25".to_string()],
    ];
    assert!(detect_header(&rows));
}

#[test]
fn no_header_when_all_numeric() {
    let rows = vec![vec!["1".to_string(), "2".to_string()], vec!["3".to_string(), "4".to_string()]];
    assert!(!detect_header(&rows));
}

#[test]
fn header_on_when_ambiguous_all_text() {
    let rows = vec![vec!["a".to_string(), "b".to_string()], vec!["c".to_string(), "d".to_string()]];
    assert!(detect_header(&rows));
}

#[test]
fn join_basic() {
    let f = vec!["a".to_string(), "b".to_string(), "c".to_string()];
    assert_eq!(join_fields(&f, b','), "a,b,c");
}

#[test]
fn join_quotes_field_with_delim() {
    let f = vec!["a,b".to_string(), "c".to_string()];
    assert_eq!(join_fields(&f, b','), "\"a,b\",c");
}

#[test]
fn join_escapes_inner_quote() {
    let f = vec!["a\"b".to_string()];
    assert_eq!(join_fields(&f, b','), "\"a\"\"b\"");
}

#[test]
fn join_quotes_field_with_newline() {
    let f = vec!["a\nb".to_string()];
    assert_eq!(join_fields(&f, b','), "\"a\nb\"");
}

#[test]
fn join_tab_delim() {
    let f = vec!["x".to_string(), "y".to_string()];
    assert_eq!(join_fields(&f, b'\t'), "x\ty");
}

#[test]
fn numeric_text_trims_unicode_white_space() {
    assert!(vweditor::number::is_numeric("\u{3000} 12.5\u{2003}"));
    assert!(vweditor::number::is_numeric("\t-3e2\n"));
    assert!(!vweditor::number::is_numeric("\u{200B}12"));
    assert!(!vweditor::number::is_numeric("   "));
}
