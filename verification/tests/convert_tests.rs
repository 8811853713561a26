use vweditor::convert::{convert_all, convert_line, convert_line_traced, ConvertPath};
use vweditor::parse::{join_fields, split_fields};

fn reference(line: &str, old: u8, new: u8) -> String {
    join_fields(&split_fields(line, old), new)
}

#[test]
fn quoted_delimiter_is_preserved() {
    let got = convert_line("홍길동,\"서울, 강남구\",30", b',', b'\t');
    assert_eq!(got, "홍길동\t서울, 강남구\t30");
    assert_eq!(split_fields(&got, b'\t').len(), 3);
}

#[test]
fn new_delimiter_in_value_gets_quoted() {
    let got = convert_line("홍길동\t서울, 강남구", b'\t', b',');
    assert_eq!(got, "홍길동,\"서울, 강남구\"");
    assert_eq!(split_fields(&got, b',').len(), 2);
}

#[test]
fn plain_row_converts() {
    assert_eq!(convert_line("a,b,c", b',', b'\t'), "a\tb\tc");
    assert_eq!(convert_line("a\tb\tc", b'\t', b'|'), "a|b|c");
    assert_eq!(convert_line("a|b|c", b'|', b'~'), "a~b~c");
}

#[test]
fn empty_and_single_field() {
    assert_eq!(convert_line("", b',', b'\t'), "");
    assert_eq!(convert_line("solo", b',', b'\t'), "solo");
    assert_eq!(convert_line(",,", b',', b'\t'), "\t\t");
}

#[test]
fn non_ascii_content_untouched() {
    let got = convert_line("한국어,인도네시아,日本語", b',', b'\t');
    assert_eq!(got, "한국어\t인도네시아\t日本語");
}

#[test]
fn paths_follow_quotes_and_new_delimiter() {
    assert_eq!(convert_line_traced("a,b", b',', b'\t').1, ConvertPath::Fast);
    assert_eq!(convert_line_traced("a,\"b\"", b',', b'\t').1, ConvertPath::Fallback);
    assert_eq!(convert_line_traced("a\tb,c", b',', b'\t').1, ConvertPath::Fallback);
    assert_eq!(convert_line_traced("a,b", 0xC3, b'\t').1, ConvertPath::Fallback);
}

#[test]
fn differential_exhaustive_corpus() {
    let alphabet = ['a', '"', ',', '\t', '|'];
    let delims = [b',', b'\t', b'|'];
    let mut fast = 0usize;
    let mut slow = 0usize;
    let mut checked = 0usize;

    for len in 0..=4u32 {
        let total = (alphabet.len() as u64).pow(len);
        for n in 0..total {
            let mut rest = n;
            let mut s = String::new();
            for _ in 0..len {
                s.push(alphabet[(rest % alphabet.len() as u64) as usize]);
                rest /= alphabet.len() as u64;
            }
            for &old in &delims {
                for &new in &delims {
                    if old == new {
                        continue;
                    }
                    let want = reference(&s, old, new);
                    let (got, path) = convert_line_traced(&s, old, new);
                    assert_eq!(got, want, "input {s:?} old {old:?} new {new:?}");
                    match path {
                        ConvertPath::Fast => fast += 1,
                        ConvertPath::Fallback => slow += 1,
                    }
                    checked += 1;
                }
            }
        }
    }

    assert!(checked > 1000, "corpus too small: {checked}");
    assert!(fast > 0, "no input took the fast path");
    assert!(slow > 0, "no input took the fallback");
}

#[test]
fn roundtrip_preserves_field_values() {
    let cases = ["a,b,c", "홍길동,\"서울, 강남구\",30", "\"quoted\",plain", "a,,c", "\"has\"\"escaped\",x"];
    for src in cases {
        let want: Vec<String> = split_fields(src, b',');
        let there = convert_line(src, b',', b'\t');
        let back = convert_line(&there, b'\t', b',');
        let got: Vec<String> = split_fields(&back, b',');
        assert_eq!(got, want, "round trip failed: {src:?} -> {there:?} -> {back:?}");
    }
}

#[test]
fn convert_all_reports_only_changed_rows() {
    let lines: Vec<String> = ["a,b", "solo", "c,d"].iter().map(|s| s.to_string()).collect();
    let changed = convert_all(&lines, b',', b'\t');
    assert_eq!(changed, vec![(0, "a\tb".to_owned()), (2, "c\td".to_owned())]);
}

#[test]
fn convert_all_preserves_index_order() {
    let lines: Vec<String> = (0..5000).map(|i| format!("r{i},x,y")).collect();
    let changed = convert_all(&lines, b',', b'\t');
    assert_eq!(changed.len(), 5000);
    for (n, (i, _)) in changed.iter().enumerate() {
        assert_eq!(*i, n, "indices are not increasing");
    }
}

#[test]
fn convert_all_empty_when_nothing_changes() {
    let lines: Vec<String> = ["solo", "alone"].iter().map(|s| s.to_string()).collect();
    assert!(convert_all(&lines, b',', b'\t').is_empty());
}
