use std::sync::atomic::{AtomicUsize, Ordering};
use vweditor::index::LineIndex;
use vweditor::indexer::index_range;
use vweditor::parse::{split_fields, Encoding};
use vweditor::validate::{
    check_line, merge_results, preview_of, scan_errors, scan_lines, RowError, RowIssue, ScanResult, PREVIEW_CHARS,
};

/// Rows per work unit in the original parallel scan; tests use it to size inputs.
const CHUNK: usize = 64 * 1024;

#[test]
fn ok_line_has_no_issue() {
    assert_eq!(check_line("a,b,c", b',', 3), None);
}

#[test]
fn field_count_too_few() {
    assert_eq!(
        check_line("a,b", b',', 3),
        Some(RowIssue::FieldCount { got: 2, expected: 3 })
    );
}

#[test]
fn field_count_too_many() {
    assert_eq!(
        check_line("a,b,c,d", b',', 3),
        Some(RowIssue::FieldCount { got: 4, expected: 3 })
    );
}

#[test]
fn unbalanced_quote_detected() {
    assert_eq!(
        check_line("a,\"b,c", b',', 3),
        Some(RowIssue::UnbalancedQuote)
    );
}

#[test]
fn balanced_quote_is_ok() {
    assert_eq!(check_line("a,\"b,c\"", b',', 2), None);
}

#[test]
fn decode_error_detected() {
    let line = "a,\u{FFFD},c";
    assert_eq!(check_line(line, b',', 3), Some(RowIssue::DecodeError));
}

#[test]
fn empty_line_is_not_an_error() {
    assert_eq!(check_line("", b',', 3), None);
}

#[test]
fn decode_error_wins_over_other_issues() {
    let line = "\u{FFFD},\"b";
    assert_eq!(check_line(line, b',', 5), Some(RowIssue::DecodeError));
}

#[test]
fn unbalanced_quote_wins_over_field_count() {
    let line = "a,\"b,c";
    assert_ne!(split_fields(line, b',').len(), 3);
    assert_eq!(
        check_line(line, b',', 3),
        Some(RowIssue::UnbalancedQuote)
    );
}

#[test]
fn escaped_quotes_are_balanced() {
    assert_eq!(check_line("\"a\"\"b\",c", b',', 2), None);
}

#[test]
fn preview_truncates_long_line() {
    let long: String = "x".repeat(300);
    let p = preview_of(&long);
    assert!(p.chars().count() <= PREVIEW_CHARS + 1); // + '…'
    assert!(p.ends_with('…'));
}

#[test]
fn preview_keeps_short_line() {
    assert_eq!(preview_of("abc"), "abc");
}

#[test]
fn preview_cuts_on_char_boundary_for_multibyte() {
    let long: String = "한".repeat(300);
    let p = preview_of(&long);
    assert_eq!(p.chars().count(), PREVIEW_CHARS + 1);
    assert!(p.starts_with('한'));
    assert!(p.ends_with('…'));
}

//

fn res(rows: &[usize], dropped: usize) -> ScanResult {
    ScanResult {
        errors: rows
            .iter()
            .map(|&logical| RowError {
                logical,
                issue: RowIssue::FieldCount { got: 1, expected: 2 },
                preview: format!("row{logical}"),
            })
            .collect(),
        dropped,
    }
}

fn rows_of(r: &ScanResult) -> Vec<usize> {
    r.errors.iter().map(|e| e.logical).collect()
}

#[test]
fn merge_interleaves_in_row_order() {
    let m = merge_results(res(&[10, 30, 50], 0), res(&[20, 40], 0), 100);
    assert_eq!(rows_of(&m), vec![10, 20, 30, 40, 50]);
    assert_eq!(m.dropped, 0);
}

#[test]
fn merge_limit_keeps_smallest_rows_regardless_of_side() {
    let m = merge_results(res(&[100, 200], 0), res(&[1, 2], 0), 3);
    assert_eq!(rows_of(&m), vec![1, 2, 100], "the three smallest");
    assert_eq!(m.dropped, 1, "the one cut is counted");
}

#[test]
fn merge_accumulates_dropped_from_both_sides() {
    let m = merge_results(res(&[1], 5), res(&[2], 7), 100);
    assert_eq!(rows_of(&m), vec![1, 2]);
    assert_eq!(m.dropped, 12);
    assert_eq!(m.total(), 14);
}

#[test]
fn merge_limit_zero_drops_everything() {
    let m = merge_results(res(&[1, 2], 0), res(&[3], 0), 0);
    assert!(m.errors.is_empty());
    assert_eq!(m.dropped, 3);
}

///
///
#[test]
fn merge_with_empty_is_identity_for_limit_respecting_values() {
    let a = res(&[3, 9], 2);
    assert_eq!(merge_results(a.clone(), ScanResult::default(), 100), a);
    assert_eq!(merge_results(ScanResult::default(), a.clone(), 100), a);
    assert_eq!(merge_results(a.clone(), ScanResult::default(), 2), a);
}

#[test]
fn merge_with_empty_truncates_over_limit_values() {
    let a = res(&[1, 2, 3, 4], 0);
    let m = merge_results(a, ScanResult::default(), 2);
    assert_eq!(rows_of(&m), vec![1, 2]);
    assert_eq!(m.dropped, 2, "what is cut is counted");
}

///
///
#[test]
fn merge_is_associative_across_fold_trees() {
    let all: Vec<usize> = (1..=12).collect();

    fn fold_chunk(rows: &[usize], limit: usize) -> ScanResult {
        let mut acc = ScanResult::default();
        for &r in rows {
            acc = merge_results(acc, res(&[r], 0), limit);
        }
        acc
    }

    for mask in 0u32..(1 << 11) {
        let mut chunks: Vec<Vec<usize>> = Vec::new();
        let mut cur: Vec<usize> = vec![all[0]];
        for (i, &row) in all.iter().enumerate().skip(1) {
            if mask & (1 << (i - 1)) != 0 {
                chunks.push(std::mem::take(&mut cur));
            }
            cur.push(row);
        }
        chunks.push(cur);

        for &limit in &[0usize, 1, 5, 12, 100] {
            let folded: Vec<ScanResult> =
                chunks.iter().map(|c| fold_chunk(c, limit)).collect();

            let left = folded
                .iter()
                .cloned()
                .fold(ScanResult::default(), |a, b| merge_results(a, b, limit));
            let right = folded
                .iter()
                .cloned()
                .rev()
                .fold(ScanResult::default(), |a, b| merge_results(b, a, limit));

            let expect_kept = all.len().min(limit);
            assert_eq!(
                rows_of(&left),
                all[..expect_kept],
                "mask={mask} limit={limit}"
            );
            assert_eq!(left, right, "the result depends on the fold tree mask={mask}");
            assert_eq!(
                left.total(),
                all.len(),
                "the total depends on neither split nor limit mask={mask} limit={limit}"
            );
        }
    }
}

#[test]
fn merge_keeps_duplicates_at_same_row() {
    let m = merge_results(res(&[7], 0), res(&[7], 0), 100);
    assert_eq!(rows_of(&m), vec![7, 7]);
}


fn lines(v: &[&str]) -> Vec<String> {
    v.iter().map(|s| s.to_string()).collect()
}

#[test]
fn scan_lines_finds_bad_rows_with_logical_numbers() {
    let src = lines(&["a,b,c", "1,2,3", "4,5", "6,7,8"]);
    let r = scan_lines(&src, b',', 3, 1, 100);
    assert_eq!(r.errors.len(), 1);
    assert_eq!(r.errors[0].logical, 2);
    assert_eq!(
        r.errors[0].issue,
        RowIssue::FieldCount { got: 2, expected: 3 }
    );
    assert_eq!(r.errors[0].preview, "4,5");
    assert_eq!(r.dropped, 0);
}

#[test]
fn scan_lines_respects_data_start_skipping_header() {
    let src = lines(&["only_one_col", "1,2,3"]);
    let r = scan_lines(&src, b',', 3, 1, 100);
    assert!(r.errors.is_empty(), "the header row is not checked");
}

#[test]
fn scan_lines_without_header_checks_row_zero() {
    let src = lines(&["only_one_col", "1,2,3"]);
    let r = scan_lines(&src, b',', 3, 0, 100);
    assert_eq!(r.errors.len(), 1);
    assert_eq!(r.errors[0].logical, 0);
}

#[test]
fn scan_lines_results_sorted_by_logical() {
    let src = lines(&["a,b", "1", "2,3", "4", "5"]);
    let r = scan_lines(&src, b',', 2, 1, 100);
    let nums: Vec<usize> = r.errors.iter().map(|e| e.logical).collect();
    assert_eq!(nums, vec![1, 3, 4]);
}

#[test]
fn scan_lines_limit_caps_collected_and_counts_dropped() {
    let src = lines(&["a,b", "1", "2", "3"]);
    let r = scan_lines(&src, b',', 2, 1, 2);
    assert_eq!(r.errors.len(), 2, "collected up to the limit");
    assert_eq!(r.dropped, 1, "the dropped count is reported");
    assert_eq!(r.total(), 3, "the total is the real number of errors");
}

///
#[test]
fn scan_lines_limit_keeps_lowest_row_numbers() {
    const ROWS: usize = CHUNK * 6;
    const STRIDE: usize = 9_973;
    let mut src = vec!["a,b".to_string()];
    let mut bad_rows: Vec<usize> = Vec::new();
    for i in 0..ROWS {
        let logical = i + 1;
        if i % STRIDE == 0 {
            src.push("bad".to_string());
            bad_rows.push(logical);
        } else {
            src.push("ok,ok".to_string());
        }
    }
    let limit = bad_rows.len() / 2;
    let r = scan_lines(&src, b',', 2, 1, limit);

    assert_eq!(r.errors.len(), limit);
    assert_eq!(r.dropped, bad_rows.len() - limit);
    assert_eq!(r.total(), bad_rows.len(), "the total is the real number of errors");

    let nums: Vec<usize> = r.errors.iter().map(|e| e.logical).collect();
    assert_eq!(nums, bad_rows[..limit], "the lowest row numbers stay");
}

#[test]
fn scan_lines_limit_is_deterministic() {
    const ROWS: usize = CHUNK * 4;
    let mut src = vec!["a,b".to_string()];
    for i in 0..ROWS {
        src.push(if i % 1_000 == 0 { "bad".into() } else { "ok,ok".into() });
    }
    let first = scan_lines(&src, b',', 2, 1, 37);
    for _ in 0..4 {
        assert_eq!(scan_lines(&src, b',', 2, 1, 37), first);
    }
    assert_eq!(first.errors.len(), 37);
    assert!(first.dropped > 0, "the limit must really be hit");
}

#[test]
fn scan_lines_empty_and_header_only() {
    assert_eq!(scan_lines(&[], b',', 3, 0, 100), ScanResult::default());
    let src = lines(&["a,b,c"]);
    assert_eq!(scan_lines(&src, b',', 3, 1, 100), ScanResult::default());
}

#[test]
fn counts_by_issue_type() {
    let src = lines(&[
        "a,b",
        "1",
        "\"x,y",
        "\u{FFFD},z",
        "ok,ok",
    ]);
    let r = scan_lines(&src, b',', 2, 1, 100);
    assert_eq!(r.errors.len(), 3);
    assert_eq!(r.counts(), (1, 1, 1));
}

/// The bytes of a file together with its complete line index.
fn open_indexed(content: &[u8]) -> (Vec<u8>, LineIndex) {
    let mut idx = LineIndex::new(content.len() as u64);
    let paused = index_range(content, &mut idx, Encoding::Utf8, 1 << 20, 0, || false, |_| {});
    assert!(!paused);
    (content.to_vec(), idx)
}

#[test]
fn scan_finds_bad_rows_with_logical_numbers() {
    let (src, idx) = open_indexed(b"a,b,c\n1,2,3\n4,5\n6,7,8\n");
    let r = scan_errors(&src, &idx, Encoding::Utf8, b',', 3, 1, 100, || false);
    assert_eq!(r.errors.len(), 1);
    assert_eq!(r.errors[0].logical, 2);
    assert_eq!(r.errors[0].issue, RowIssue::FieldCount { got: 2, expected: 3 });
    assert_eq!(r.errors[0].preview, "4,5");
}

#[test]
fn scan_strips_crlf_from_preview() {
    let (src, idx) = open_indexed(b"a,b,c\r\n4,5\r\n");
    let r = scan_errors(&src, &idx, Encoding::Utf8, b',', 3, 1, 100, || false);
    assert_eq!(r.errors.len(), 1);
    assert_eq!(r.errors[0].preview, "4,5", "no \\r may remain");
}

#[test]
fn scan_respects_data_start_skipping_header() {
    let (src, idx) = open_indexed(b"only_one_col\n1,2,3\n");
    let r = scan_errors(&src, &idx, Encoding::Utf8, b',', 3, 1, 100, || false);
    assert!(r.errors.is_empty(), "the header row is not checked");
}

#[test]
fn scan_results_sorted_by_logical() {
    let (src, idx) = open_indexed(b"a,b\n1\n2,3\n4\n5\n");
    let r = scan_errors(&src, &idx, Encoding::Utf8, b',', 2, 1, 100, || false);
    let nums: Vec<usize> = r.errors.iter().map(|e| e.logical).collect();
    assert_eq!(nums, vec![1, 3, 4]);
}

#[test]
fn scan_limit_caps_collected_errors() {
    let (src, idx) = open_indexed(b"a,b\n1\n2\n3\n");
    let r = scan_errors(&src, &idx, Encoding::Utf8, b',', 2, 1, 2, || false);
    assert_eq!(r.errors.len(), 2);
    assert_eq!(r.dropped, 1);
}

#[test]
fn scan_cancel_stops_collection() {
    let (src, idx) = open_indexed(b"a,b\n1\n2\n3\n");
    let r = scan_errors(&src, &idx, Encoding::Utf8, b',', 2, 1, 100, || true);
    assert!(r.errors.is_empty(), "a cancelled scan collects nothing");
}

#[test]
fn scan_cancel_stops_mid_chunk() {
    const ROWS: usize = 20_000;
    let mut content = Vec::from(&b"a,b\n"[..]);
    for _ in 0..ROWS {
        content.extend_from_slice(b"bad\n");
    }
    let (src, idx) = open_indexed(&content);
    let calls = AtomicUsize::new(0);
    let trip = || calls.fetch_add(1, Ordering::Relaxed) >= 2;
    let r = scan_errors(&src, &idx, Encoding::Utf8, b',', 2, 1, usize::MAX, trip);
    assert!(r.errors.len() < ROWS, "cancelled, yet all {} rows were checked", r.errors.len());
    assert!(calls.load(Ordering::Relaxed) > 1, "cancel must be asked more than once");
}

#[test]
fn scan_not_cancelled_collects_normally() {
    let (src, idx) = open_indexed(b"a,b\n1\n2\n3\n");
    let r = scan_errors(&src, &idx, Encoding::Utf8, b',', 2, 1, 100, || false);
    assert_eq!(r.errors.len(), 3);
}

#[test]
fn mmap_and_lines_paths_agree() {
    let content = b"a,b,c\n1,2,3\n4,5\n\"x,y\n\n6,7,8,9\n";
    let (src, idx) = open_indexed(content);
    let from_mmap = scan_errors(&src, &idx, Encoding::Utf8, b',', 3, 1, 100, || false);

    let text = String::from_utf8(content.to_vec()).unwrap();
    let mut buf: Vec<String> = text.split('\n').map(|s| s.to_string()).collect();
    if text.ends_with('\n') {
        buf.pop();
    }
    let from_lines = scan_lines(&buf, b',', 3, 1, 100);

    assert_eq!(from_mmap, from_lines);
    assert!(!from_mmap.errors.is_empty(), "comparing empty results proves nothing");
}

#[test]
fn scan_decodes_rows_with_the_file_encoding() {
    // "가,나" in CP949, then a short row.
    let content = [0xB0, 0xA1, b',', 0xB3, 0xAA, b'\n', b'x', b'\n'];
    let mut idx = LineIndex::new(content.len() as u64);
    index_range(&content, &mut idx, Encoding::Cp949, 3, 0, || false, |_| {});
    let r = scan_errors(&content, &idx, Encoding::Cp949, b',', 2, 0, 100, || false);
    assert_eq!(r.errors.len(), 1);
    assert_eq!(r.errors[0].logical, 1);
    assert_eq!(r.errors[0].preview, "x");
}
