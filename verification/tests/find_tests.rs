use vweditor::edit::TextPos;
use vweditor::edit::load_edit_buffer;
use vweditor::find::{
    find_in_line, find_in_line_scoped, find_next, find_prev, matching_lines, needle_is_bytefold_exact, replace_all,
    replace_cells_bytes, replace_in_line, replace_row_can_skip, unescape, FindOptions, Match, MatchScope, Prefilter,
};
use vweditor::find::{ascii_lower, find_ci_ascii, find_ci_ascii_from, query_is_case_foldable_by_bytes};
use vweditor::parse::Encoding;

fn opts(match_case: bool, whole_word: bool) -> FindOptions {
    let scope = if whole_word { MatchScope::WholeWord } else { MatchScope::Partial };
    FindOptions { match_case, scope }
}

fn cell_opts(match_case: bool) -> FindOptions {
    FindOptions { match_case, scope: MatchScope::WholeCell }
}

fn lines(strs: &[&str]) -> Vec<String> {
    strs.iter().map(|s| s.to_string()).collect()
}

fn getter(v: Vec<String>) -> impl Fn(usize) -> Option<String> {
    move |i| v.get(i).cloned()
}

#[test]
fn find_in_line_basic() {
    let hits = find_in_line("abc abc x", "abc", &opts(true, false));
    assert_eq!(hits, vec![(0, 3), (4, 3)]);
}

#[test]
fn find_in_line_empty_needle_returns_nothing() {
    assert!(find_in_line("abc", "", &opts(true, false)).is_empty());
    assert!(find_in_line("", "", &opts(false, false)).is_empty());
}

#[test]
fn find_in_line_non_overlapping() {
    let hits = find_in_line("aaaa", "aa", &opts(true, false));
    assert_eq!(hits, vec![(0, 2), (2, 2)]);
    assert_eq!(find_in_line("aaa", "aa", &opts(true, false)), vec![(0, 2)]);
}

#[test]
fn find_in_line_char_index_with_hangul() {
    let hits = find_in_line("가나다ABC가나", "가나", &opts(true, false));
    assert_eq!(hits, vec![(0, 2), (6, 2)]);
    let chars: Vec<char> = "가나다ABC가나".chars().collect();
    for (col, len) in hits {
        let got: String = chars[col..col + len].iter().collect();
        assert_eq!(got, "가나");
    }
}

#[test]
fn find_in_line_case_insensitive() {
    let hits = find_in_line("Hello HELLO hello", "hello", &opts(false, false));
    assert_eq!(hits.len(), 3);
    assert_eq!(hits, vec![(0, 5), (6, 5), (12, 5)]);
}

#[test]
fn find_in_line_case_insensitive_index_with_multibyte() {
    let hits = find_in_line("가나ABC가나abc", "ABC", &opts(false, false));
    assert_eq!(hits, vec![(2, 3), (7, 3)]);
}

#[test]
fn find_in_line_case_insensitive_index_with_emoji() {
    let hits = find_in_line("😀ABC😀abc", "abc", &opts(false, false));
    assert_eq!(hits, vec![(1, 3), (5, 3)]);
}

#[test]
fn find_in_line_case_insensitive_with_expanding_lowercase() {
    let hay = "İabc"; // four chars: 'İ','a','b','c'
    let hits = find_in_line(hay, "ABC", &opts(false, false));
    assert_eq!(hits, vec![(1, 3)]);
    let chars: Vec<char> = hay.chars().collect();
    let got: String = chars[1..4].iter().collect();
    assert_eq!(got, "abc");
}

#[test]
fn find_in_line_rejects_partial_expansion_match() {
    let hits = find_in_line("İ", "\u{0307}", &opts(false, false));
    assert!(hits.is_empty(), "a match on part of an expansion is dropped");
}

#[test]
fn whole_word_rejects_substring() {
    assert!(find_in_line("testing", "test", &opts(true, true)).is_empty());
    assert_eq!(find_in_line("a test here", "test", &opts(true, true)), vec![(2, 4)]);
    assert_eq!(find_in_line("test", "test", &opts(true, true)), vec![(0, 4)]);
}

#[test]
fn whole_word_underscore_is_word_char() {
    assert!(find_in_line("a_test", "test", &opts(true, true)).is_empty());
}

#[test]
fn whole_word_hangul_is_alphanumeric() {
    assert!(find_in_line("가나다", "나", &opts(true, true)).is_empty());
    assert_eq!(find_in_line("가 나 다", "나", &opts(true, true)), vec![(2, 1)]);
}

#[test]
fn replace_in_line_counts_and_result() {
    let (s, n) = replace_in_line("a b a b", "a", "X", &opts(true, false), None);
    assert_eq!(s, "X b X b");
    assert_eq!(n, 2);
}

#[test]
fn replace_in_line_no_match_is_unchanged() {
    let (s, n) = replace_in_line("abc", "zzz", "X", &opts(true, false), None);
    assert_eq!(s, "abc");
    assert_eq!(n, 0);
}

#[test]
fn replace_in_line_empty_needle_is_noop() {
    let (s, n) = replace_in_line("abc", "", "X", &opts(true, false), None);
    assert_eq!(s, "abc");
    assert_eq!(n, 0);
}

#[test]
fn replace_in_line_sanitizes_newline_in_replacement() {
    let (s, n) = replace_in_line("a,b", "b", "x\ny", &opts(true, false), None);
    assert_eq!(s, "a,x y");
    assert_eq!(n, 1);
    assert!(!s.contains('\n'));
    let (s2, _) = replace_in_line("a", "a", "p\r\nq", &opts(true, false), None);
    assert_eq!(s2, "p  q", "\\r and \\n each become a space");
    assert!(!s2.contains('\r'));
}

#[test]
fn replace_in_line_longer_replacement() {
    let (s, n) = replace_in_line("a-a-a", "a", "LONG", &opts(true, false), None);
    assert_eq!(s, "LONG-LONG-LONG");
    assert_eq!(n, 3);
}

#[test]
fn replace_in_line_multibyte_slicing_is_safe() {
    let (s, n) = replace_in_line("가나ABC가나", "ABC", "다", &opts(false, false), None);
    assert_eq!(s, "가나다가나");
    assert_eq!(n, 1);
}

#[test]
fn replace_in_line_case_insensitive_keeps_surrounding_text() {
    let (s, n) = replace_in_line("Hello HELLO", "hello", "hi", &opts(false, false), None);
    assert_eq!(s, "hi hi");
    assert_eq!(n, 2);
}

#[test]
fn find_next_moves_forward_and_wraps() {
    let v = lines(&["x a", "b a", "a c"]);
    let n = 3;
    let m = find_next(n, TextPos { line: 0, col: 2 }, "a", &opts(true, false), None, getter(v.clone()));
    assert_eq!(m, Some(Match { line: 1, col: 2, len: 1 }));
    let m = find_next(n, TextPos { line: 2, col: 0 }, "a", &opts(true, false), None, getter(v));
    assert_eq!(m, Some(Match { line: 0, col: 2, len: 1 }));
}

#[test]
fn find_next_does_not_return_from_position() {
    let v = lines(&["a a a"]);
    let m = find_next(1, TextPos { line: 0, col: 0 }, "a", &opts(true, false), None, getter(v));
    assert_eq!(m, Some(Match { line: 0, col: 2, len: 1 }));
}

#[test]
fn find_next_single_match_wraps_to_itself() {
    let v = lines(&["zzz", "hit", "zzz"]);
    let m = find_next(3, TextPos { line: 1, col: 0 }, "hit", &opts(true, false), None, getter(v));
    assert_eq!(m, Some(Match { line: 1, col: 0, len: 3 }));
}

#[test]
fn find_next_returns_none_when_absent() {
    let v = lines(&["a", "b", "c"]);
    let m = find_next(3, TextPos { line: 0, col: 0 }, "zzz", &opts(true, false), None, getter(v));
    assert_eq!(m, None);
}

#[test]
fn find_next_skips_lines_that_return_none() {
    let m = find_next(4, TextPos { line: 0, col: 0 }, "hit", &opts(true, false), None, |i| {
        match i {
            0 => Some("nothing".to_string()),
            1 => None,
            2 => None,
            3 => Some("a hit".to_string()),
            _ => None,
        }
    });
    assert_eq!(m, Some(Match { line: 3, col: 2, len: 3 }));
}

#[test]
fn find_next_empty_document_is_none() {
    assert_eq!(
        find_next(0, TextPos { line: 0, col: 0 }, "a", &opts(true, false), None, |_| None),
        None
    );
}

#[test]
fn find_next_empty_needle_is_none() {
    let v = lines(&["abc"]);
    assert_eq!(
        find_next(1, TextPos { line: 0, col: 0 }, "", &opts(true, false), None, getter(v)),
        None
    );
}

#[test]
fn find_next_from_beyond_last_line_is_clamped() {
    let v = lines(&["a", "b"]);
    let m = find_next(2, TextPos { line: 99, col: 0 }, "a", &opts(true, false), None, getter(v));
    assert_eq!(m, Some(Match { line: 0, col: 0, len: 1 }));
}

#[test]
fn find_prev_moves_backward_and_wraps() {
    let v = lines(&["x a", "b a", "a c"]);
    let n = 3;
    let m = find_prev(n, TextPos { line: 2, col: 0 }, "a", &opts(true, false), None, getter(v.clone()));
    assert_eq!(m, Some(Match { line: 1, col: 2, len: 1 }));
    let m = find_prev(n, TextPos { line: 0, col: 2 }, "a", &opts(true, false), None, getter(v));
    assert_eq!(m, Some(Match { line: 2, col: 0, len: 1 }));
}

#[test]
fn find_prev_picks_last_match_on_the_line() {
    let v = lines(&["a a a"]);
    let m = find_prev(1, TextPos { line: 0, col: 4 }, "a", &opts(true, false), None, getter(v));
    assert_eq!(m, Some(Match { line: 0, col: 2, len: 1 }));
}

#[test]
fn find_prev_single_match_wraps_to_itself() {
    let v = lines(&["zzz", "hit", "zzz"]);
    let m = find_prev(3, TextPos { line: 1, col: 0 }, "hit", &opts(true, false), None, getter(v));
    assert_eq!(m, Some(Match { line: 1, col: 0, len: 3 }));
}

#[test]
fn find_prev_returns_none_when_absent() {
    let v = lines(&["a", "b"]);
    assert_eq!(
        find_prev(2, TextPos { line: 1, col: 0 }, "zzz", &opts(true, false), None, getter(v)),
        None
    );
}

#[test]
fn find_prev_empty_document_is_none() {
    assert_eq!(
        find_prev(0, TextPos { line: 0, col: 0 }, "a", &opts(true, false), None, |_| None),
        None
    );
}

#[test]
fn find_next_cycles_through_all_matches_once() {
    let v = lines(&["a x a", "y", "a"]);
    let n = 3;
    let mut pos = TextPos { line: 0, col: 0 };
    let mut seen = Vec::new();
    for _ in 0..3 {
        let m = find_next(n, pos, "a", &opts(true, false), None, getter(v.clone())).unwrap();
        seen.push((m.line, m.col));
        pos = TextPos { line: m.line, col: m.col };
    }
    assert_eq!(seen, vec![(0, 4), (2, 0), (0, 0)]);
}

#[test]
fn matching_lines_collects_row_numbers() {
    let v = lines(&["alpha", "beta hit", "gamma", "hit again"]);
    let got = matching_lines(4, "hit", &opts(true, false), None, getter(v));
    assert_eq!(got, vec![1, 3], "only matching rows, in scan order");
}

#[test]
fn matching_lines_counts_each_row_once() {
    let v = lines(&["hit hit hit", "none"]);
    let got = matching_lines(2, "hit", &opts(true, false), None, getter(v));
    assert_eq!(got, vec![0]);
}

#[test]
fn matching_lines_empty_needle_is_empty() {
    let v = lines(&["a", "b"]);
    assert!(matching_lines(2, "", &opts(true, false), None, getter(v)).is_empty());
}

#[test]
fn matching_lines_skips_none_lines() {
    let got = matching_lines(4, "hit", &opts(true, false), None, |i| match i {
        0 => Some("hit".to_string()),
        1 => None,
        2 => None,
        3 => Some("hit too".to_string()),
        _ => None,
    });
    assert_eq!(got, vec![0, 3]);
}

#[test]
fn matching_lines_respects_match_case() {
    let v = lines(&["HIT", "hit"]);
    assert_eq!(
        matching_lines(2, "hit", &opts(true, false), None, getter(v.clone())),
        vec![1],
        "with match case on, only the lower-case row"
    );
    assert_eq!(
        matching_lines(2, "hit", &opts(false, false), None, getter(v)),
        vec![0, 1],
        "with it off, both"
    );
}

#[test]
fn matching_lines_respects_whole_word() {
    let v = lines(&["testing", "a test here"]);
    assert_eq!(
        matching_lines(2, "test", &opts(true, true), None, getter(v.clone())),
        vec![1],
        "as a whole word, 'testing' does not match"
    );
    assert_eq!(
        matching_lines(2, "test", &opts(true, false), None, getter(v)),
        vec![0, 1]
    );
}

#[test]
fn match_scope_default_is_partial() {
    assert_eq!(FindOptions::default().scope, MatchScope::Partial);
}

#[test]
fn whole_cell_matches_exact_cell_only() {
    let hits = find_in_line_scoped("a,bb,ccc", "bb", &cell_opts(true), Some(b','));
    assert_eq!(hits, vec![(2, 2)]);
    assert!(find_in_line_scoped("a,bb,ccc", "b", &cell_opts(true), Some(b',')).is_empty());
}

#[test]
fn whole_cell_char_index_with_hangul() {
    let hits = find_in_line_scoped("가,나다,x", "나다", &cell_opts(true), Some(b','));
    assert_eq!(hits, vec![(2, 2)]);
    let chars: Vec<char> = "가,나다,x".chars().collect();
    let (col, len) = hits[0];
    let got: String = chars[col..col + len].iter().collect();
    assert_eq!(got, "나다");
}

#[test]
fn whole_cell_ignore_case() {
    let hits = find_in_line_scoped("A,BB,c", "bb", &cell_opts(false), Some(b','));
    assert_eq!(hits, vec![(2, 2)]);
    assert!(find_in_line_scoped("A,BB,c", "bb", &cell_opts(true), Some(b',')).is_empty());
}

#[test]
fn whole_cell_text_mode_matches_whole_line() {
    let hits = find_in_line_scoped("hello", "hello", &cell_opts(true), None);
    assert_eq!(hits, vec![(0, 5)]);
    assert!(find_in_line_scoped("hello world", "hello", &cell_opts(true), None).is_empty());
    let hits = find_in_line_scoped("HELLO", "hello", &cell_opts(false), None);
    assert_eq!(hits, vec![(0, 5)]);
}

#[test]
fn whole_cell_respects_quotes() {
    let hits = find_in_line_scoped("\"a,b\",c", "a,b", &cell_opts(true), Some(b','));
    assert_eq!(hits, vec![(0, 5)]);
    assert!(find_in_line_scoped("\"a,b\",c", "a", &cell_opts(true), Some(b',')).is_empty());
    assert_eq!(
        find_in_line_scoped("\"a,b\",c", "c", &cell_opts(true), Some(b',')),
        vec![(6, 1)]
    );
}

#[test]
fn scoped_partial_delegates_to_find_in_line() {
    let hay = "abc abc x";
    for sc in [MatchScope::Partial, MatchScope::WholeWord] {
        let o = FindOptions { match_case: true, scope: sc };
        assert_eq!(
            find_in_line_scoped(hay, "abc", &o, Some(b',')),
            find_in_line(hay, "abc", &o),
            "scope {sc:?} ignores the delimiter"
        );
        assert_eq!(
            find_in_line_scoped(hay, "abc", &o, None),
            find_in_line(hay, "abc", &o),
        );
    }
}

#[test]
fn find_next_respects_whole_cell() {
    let v = lines(&["a,bb", "bb,a"]);
    let o = cell_opts(true);
    let m = find_next(2, TextPos { line: 0, col: 2 }, "bb", &o, Some(b','), getter(v.clone()));
    assert_eq!(m, Some(Match { line: 1, col: 0, len: 2 }));
    let m = find_next(2, TextPos { line: 0, col: 0 }, "b", &o, Some(b','), getter(v));
    assert_eq!(m, None);
}

#[test]
fn replace_whole_cell_sanitizes_newline() {
    let (s, n) = replace_in_line("a,bb,c", "bb", "x\ny", &cell_opts(true), Some(b','));
    assert_eq!(s, "a,x y,c");
    assert_eq!(n, 1);
    assert!(!s.contains('\n'));
}

#[test]
fn unescape_tab() {
    assert_eq!(unescape(r"a\tb"), "a\tb");
    assert_eq!(unescape(r"\t").chars().count(), 1);
}

#[test]
fn unescape_backslash() {
    assert_eq!(unescape(r"a\\b"), r"a\b");
    assert_eq!(unescape(r"C:\\temp"), r"C:\temp");
    assert_eq!(unescape(r"\\t"), r"\t");
}

#[test]
fn unescape_hex() {
    assert_eq!(unescape(r"\x41"), "A");
    assert_eq!(unescape(r"\x09"), "\t");
    assert_eq!(unescape(r"\x7F"), "\u{7F}");
    assert_eq!(unescape(r"\x4a"), unescape(r"\x4A"));
    assert_eq!(unescape(r"\x4a"), "J");
    assert_eq!(unescape(r"a\x41b"), "aAb");
}

#[test]
fn unescape_hex_out_of_ascii() {
    assert_eq!(unescape(r"\xE9"), "é");
    assert_eq!(unescape(r"\xFF"), "ÿ");
    assert_eq!(unescape(r"\x80"), "\u{80}");
    assert_eq!(unescape(r"\xFF").chars().count(), 1);
    assert_eq!(unescape(r"\xFF").len(), 2);
}

#[test]
fn unescape_leaves_unknown_as_is() {
    assert_eq!(unescape(r"\n"), r"\n");
    assert!(!unescape(r"a\nb").contains('\n'));
    assert_eq!(unescape(r"\r"), r"\r");
    assert_eq!(unescape(r"\z"), r"\z");
    assert_eq!(unescape(r"\0"), r"\0");
    assert_eq!(unescape(r"\u1234"), r"\u1234");
    assert_eq!(unescape(r"\가"), r"\가");
}

#[test]
fn unescape_trailing_backslash() {
    assert_eq!(unescape(r"abc\"), r"abc\");
    assert_eq!(unescape(r"\"), r"\");
}

#[test]
fn unescape_bad_hex_left_as_is() {
    assert_eq!(unescape(r"\xZZ"), r"\xZZ");
    assert_eq!(unescape(r"\x9"), r"\x9");
    assert_eq!(unescape(r"\x"), r"\x");
    assert_eq!(unescape(r"\x4"), r"\x4");
    assert_eq!(unescape(r"\xG1"), r"\xG1");
    assert_eq!(unescape(r"\xZZa"), r"\xZZa");
}

#[test]
fn unescape_hex_reads_exactly_two() {
    assert_eq!(unescape(r"\x414"), "A4");
    assert_eq!(unescape(r"\x4141"), "A41");
}

#[test]
fn unescape_no_backslash_is_identity() {
    for s in ["", "abc", "a,b\tc", "한글 텍스트", "x\u{7F}y"] {
        assert_eq!(unescape(s), s, "without a backslash the input comes back");
    }
}

#[test]
fn unescape_fast_path_agrees_with_slow_path() {
    for s in ["abc", "a,b", "한글", "x\u{7F}y", "tab\there"] {
        let via_slow = unescape(&format!(r"\\{s}"));
        assert_eq!(via_slow, format!(r"\{s}"));
        assert_eq!(&via_slow[1..], unescape(s), "both paths agree");
    }
}

//

fn replace_all_reference(
    lines: &[String],
    needle: &str,
    replacement: &str,
    opts: &FindOptions,
    delim: Option<u8>,
) -> (Vec<(usize, String)>, usize) {
    if needle.is_empty() {
        return (Vec::new(), 0);
    }
    let mut changed = Vec::new();
    let mut total = 0usize;
    for (i, line) in lines.iter().enumerate() {
        let (new, n) = replace_in_line(line, needle, replacement, opts, delim);
        if n > 0 {
            total += n;
            changed.push((i, new));
        }
    }
    (changed, total)
}

fn assert_same_as_reference(
    lines: &[String],
    needle: &str,
    rep: &str,
    opts: &FindOptions,
    delim: Option<u8>,
) {
    let fast = replace_all(lines, needle, rep, opts, delim);
    let slow = replace_all_reference(lines, needle, rep, opts, delim);
    assert_eq!(
        fast, slow,
        "mismatch: lines={lines:?} needle={needle:?} rep={rep:?} match_case={} scope={:?} delim={delim:?}",
        opts.match_case, opts.scope
    );
}

fn all_strings(alphabet: &[char], len: usize) -> Vec<String> {
    let mut out = vec![String::new()];
    let mut frontier = vec![String::new()];
    for _ in 0..len {
        let mut next = Vec::new();
        for s in &frontier {
            for &c in alphabet {
                let mut t = s.clone();
                t.push(c);
                next.push(t);
            }
        }
        out.extend(next.iter().cloned());
        frontier = next;
    }
    out
}

///
#[test]
fn replace_all_bytes_matches_reference() {
    let alphabet = ['a', 'A', '"', ',', 'b'];
    let corpus = all_strings(&alphabet, 4);
    let batch: Vec<String> = corpus.clone();
    for needle in ["a", "A", "aa", "\"", ",", "a,b", "\"a\"", "ab"] {
        for rep in ["Z", "", "a", "\"", "긴치환문"] {
            for match_case in [true, false] {
                for scope in [MatchScope::WholeCell, MatchScope::Partial, MatchScope::WholeWord]
                {
                    let o = FindOptions { match_case, scope };
                    assert_same_as_reference(&batch, needle, rep, &o, Some(b','));
                    assert_same_as_reference(&batch, needle, rep, &o, None);
                }
            }
        }
    }
}

#[test]
fn replace_all_bytes_matches_reference_tsv_hangul() {
    let alphabet = ['-', '\t', '한', 'x', '"'];
    let corpus = all_strings(&alphabet, 4);
    for needle in ["-", "한", "x", "한x", "\t", "\""] {
        for rep in ["한국어", "", "-", "\t"] {
            for match_case in [true, false] {
                let o = FindOptions { match_case, scope: MatchScope::WholeCell };
                assert_same_as_reference(&corpus, needle, rep, &o, Some(b'\t'));
            }
        }
    }
}

#[test]
fn replace_all_bytes_matches_reference_foldable_alphabet() {
    let alphabet = ['É', 'é', ',', 'a', 'İ', '\u{212A}', 'k'];
    let corpus = all_strings(&alphabet, 3);
    for needle in ["é", "É", "a", "éa", "i\u{307}", "İ", "Éé", "k", "K", "ka", "\u{212A}"] {
        for rep in ["Z", "", "é"] {
            for match_case in [true, false] {
                for scope in [MatchScope::WholeCell, MatchScope::Partial] {
                    let o = FindOptions { match_case, scope };
                    assert_same_as_reference(&corpus, needle, rep, &o, Some(b','));
                }
            }
        }
    }
}

#[test]
fn replace_all_quoted_row_falls_back() {
    assert_eq!(replace_cells_bytes("\"a\"a,b", "aa", "Z", b',', true), None);
    let v = lines(&["\"a\"a,b"]);
    let (changed, total) = replace_all(&v, "aa", "Z", &cell_opts(true), Some(b','));
    assert_eq!(total, 1, "the shown value of a quoted cell must match");
    assert_eq!(changed, vec![(0, "Z,b".to_string())]);
    let v = lines(&["\"a,b\",c"]);
    let (changed, total) = replace_all(&v, "a,b", "Z", &cell_opts(true), Some(b','));
    assert_eq!(total, 1);
    assert_eq!(changed, vec![(0, "Z,c".to_string())]);
}

#[test]
fn replace_all_non_ascii_needle() {
    let v = lines(&["한국\t미국\t한국민", "\t한국\t"]);
    let o = cell_opts(false); // ignore_case
    let (changed, total) = replace_all(&v, "한국", "KR", &o, Some(b'\t'));
    assert_eq!(total, 2, "`한국민` only contains the needle and stays");
    assert_eq!(
        changed,
        vec![(0, "KR\t미국\t한국민".to_string()), (1, "\tKR\t".to_string())]
    );
    assert!(
        replace_cells_bytes("한국\t미국", "한국", "KR", b'\t', false).is_some(),
        "a Hangul needle folds on bytes; no fallback needed"
    );
}

#[test]
fn replace_all_foldable_needle_falls_back() {
    assert_eq!(
        replace_cells_bytes("É,b", "é", "Z", b',', false),
        None,
        "a folding needle ignoring case cannot be judged on bytes"
    );
    let v = lines(&["É,b"]);
    let (changed, total) = replace_all(&v, "é", "Z", &cell_opts(false), Some(b','));
    assert_eq!(total, 1, "É folds to é, so it matches");
    assert_eq!(changed, vec![(0, "Z,b".to_string())]);
    assert!(
        replace_cells_bytes("É,b", "é", "Z", b',', true).is_some(),
        "matching case, bytes decide exactly"
    );
}

///
#[test]
fn replace_row_can_skip_never_skips_a_possible_match() {
    let exact = Prefilter::Exact(b"ab".to_vec());
    assert!(replace_row_can_skip("xyz,q", &exact, true));
    assert!(!replace_row_can_skip("xab,q", &exact, true));
    assert!(replace_row_can_skip("AB,q", &exact, true));

    let fold = Prefilter::CaseFold(b"ab".to_vec());
    for hay in ["ab", "AB", "Ab", "aB", "xxAbxx"] {
        assert!(
            !replace_row_can_skip(hay, &fold, true),
            "{hay} may match ignoring case; skipping it would lose a match"
        );
    }
    assert!(replace_row_can_skip("xyz", &fold, true));

    let aa = Prefilter::Exact(b"aa".to_vec());
    assert!(
        !replace_row_can_skip("\"a\"a,b", &aa, true),
        "a quoted row is never skipped on bytes"
    );
    assert!(replace_row_can_skip("\"a\"a,b", &aa, false));

    assert!(
        !replace_row_can_skip("a\r,b", &aa, true),
        "a CR inside a row is never judged on bytes"
    );
    assert!(
        !replace_row_can_skip("a\n,b", &aa, true),
        "nor an LF"
    );
    assert!(replace_row_can_skip("a\r,b", &aa, false));

    assert!(!replace_row_can_skip("xyz", &Prefilter::Off, false));
}

#[test]
fn replace_cells_bytes_no_match_returns_original() {
    let (out, n) = replace_cells_bytes("aaa\tbbb\tccc", "aa", "Z", b'\t', true).unwrap();
    assert_eq!((out.as_str(), n), ("aaa\tbbb\tccc", 0), "a partial match is not a whole cell");
    let (out, n) = replace_cells_bytes("aaa\tbbb", "aaa", "Z", b'\t', true).unwrap();
    assert_eq!((out.as_str(), n), ("Z\tbbb", 1));
}

#[test]
fn only_u212a_lowercases_to_ascii() {
    let mut found: Vec<u32> = Vec::new();
    for cp in 0u32..=0x10FFFF {
        let Some(c) = char::from_u32(cp) else { continue };
        if c.is_ascii() {
            continue;
        }
        let lo: String = c.to_lowercase().collect();
        if !lo.is_empty() && lo.is_ascii() {
            found.push(cp);
        }
    }
    assert_eq!(
        found,
        vec![0x212A],
        "U+212A is the only non-ASCII character lowering to ASCII"
    );
    assert_eq!(char::from_u32(0x212A).unwrap().to_lowercase().to_string(), "k");
    assert!(!needle_is_bytefold_exact("k", false));
    assert!(!needle_is_bytefold_exact("King", false));
    assert!(needle_is_bytefold_exact("k", true), "matching case folds nothing");
    assert!(needle_is_bytefold_exact("abc", false));
    assert!(needle_is_bytefold_exact("한국어", false));
    assert!(!needle_is_bytefold_exact("é", false));
}

///
#[test]
fn replace_all_kelvin_sign_matches_reference() {
    let v = lines(&["\u{212A}", "\u{212A},x", "k,\u{212A}", "K"]);
    for scope in [MatchScope::WholeCell, MatchScope::Partial, MatchScope::WholeWord] {
        let o = FindOptions { match_case: false, scope };
        assert_same_as_reference(&v, "k", "Z", &o, Some(b','));
        assert_same_as_reference(&v, "K", "Z", &o, Some(b','));
        assert_same_as_reference(&v, "k", "Z", &o, None);
    }
}

#[test]
fn replace_all_bytes_sanitizes_newline_in_replacement() {
    let v = lines(&["a\tb"]);
    let (changed, total) = replace_all(&v, "a", "x\ny", &cell_opts(true), Some(b'\t'));
    assert_eq!(total, 1);
    assert_eq!(changed, vec![(0, "x y\tb".to_string())]);
    assert!(!changed[0].1.contains('\n'));
}

//

#[test]
fn replace_all_bare_cr_regression_needle_a() {
    let bytes = b"h1,h2\na\r,b\nc,d\n".to_vec();
    let buf = load_edit_buffer(&bytes, Encoding::Utf8);
    assert_eq!(buf.lines, vec!["h1,h2", "a\r,b", "c,d"], "the CR stays inside lines[1]");

    let o = cell_opts(true); // match_case
    let fast = replace_all(&buf.lines, "a", "Z", &o, Some(b','));
    let slow = replace_all_reference(&buf.lines, "a", "Z", &o, Some(b','));
    assert_eq!(fast, slow, "the byte path must see the CR and agree with the reference");
    assert_eq!(slow, (vec![(1, "Z,b".to_string())], 1), "the reference value");
}

#[test]
fn replace_all_bare_cr_regression_needle_b() {
    let bytes = b"h1,h2\na\r,b\nc,d\n".to_vec();
    let buf = load_edit_buffer(&bytes, Encoding::Utf8);

    let o = cell_opts(true);
    let fast = replace_all(&buf.lines, "b", "Z", &o, Some(b','));
    let slow = replace_all_reference(&buf.lines, "b", "Z", &o, Some(b','));
    assert_eq!(fast, slow, "the byte path must not invent a cell boundary in a CR row");
    assert_eq!(slow, (Vec::new(), 0), "the reference finds nothing");
}

#[test]
fn replace_all_bare_cr_regression_tsv_hangul() {
    let v = lines(&["-\r\t한국"]);
    let o = cell_opts(true);
    let fast = replace_all(&v, "한국", "X", &o, Some(b'\t'));
    let slow = replace_all_reference(&v, "한국", "X", &o, Some(b'\t'));
    assert_eq!(fast, slow, "the byte path must agree with the reference on TSV, Hangul and CR");
    assert_eq!(slow, (Vec::new(), 0), "the reference finds nothing");
}

#[test]
fn replace_all_bytes_matches_reference_cr_lf_alphabet() {
    let alphabet = ['a', ',', '\r', '\n', 'b'];
    let corpus = all_strings(&alphabet, 4);
    for needle in ["a", "b", "a,b", "\r", "\n", "a\r"] {
        for rep in ["Z", "", "a"] {
            for match_case in [true, false] {
                for scope in [MatchScope::WholeCell, MatchScope::Partial, MatchScope::WholeWord]
                {
                    let o = FindOptions { match_case, scope };
                    assert_same_as_reference(&corpus, needle, rep, &o, Some(b','));
                }
            }
        }
    }
}

#[test]
fn replace_all_returns_only_changed_lines() {
    let v = lines(&["a", "b", "a", "c"]);
    let (changed, total) = replace_all(&v, "a", "Z", &opts(true, false), None);
    assert_eq!(changed, vec![(0, "Z".to_string()), (2, "Z".to_string())]);
    assert_eq!(total, 2);
}

#[test]
fn replace_all_counts_total() {
    let v = lines(&["a a a", "b", "a"]);
    let (changed, total) = replace_all(&v, "a", "Z", &opts(true, false), None);
    assert_eq!(changed.len(), 2, "only changed rows");
    assert_eq!(total, 4, "the total counts matches, not rows");
}

#[test]
fn replace_all_empty_needle_changes_nothing() {
    let v = lines(&["a", "b"]);
    let (changed, total) = replace_all(&v, "", "Z", &opts(true, false), None);
    assert!(changed.is_empty());
    assert_eq!(total, 0);
}

#[test]
fn replace_all_respects_options() {
    let v = lines(&["Test testing", "test"]);
    let (changed, total) = replace_all(&v, "test", "X", &opts(false, true), None);
    assert_eq!(total, 2);
    assert_eq!(changed, vec![(0, "X testing".to_string()), (1, "X".to_string())]);
}

#[test]
fn replace_all_never_introduces_newlines() {
    let v = lines(&["a,b", "c,a"]);
    let (changed, _) = replace_all(&v, "a", "1\n2\r3", &opts(true, false), None);
    for (_, text) in &changed {
        assert!(!text.contains('\n') && !text.contains('\r'));
    }
}

#[test]
fn replace_all_whole_cell_replaces_entire_cell() {
    let v = lines(&["a,bb,bbc", "bb,x"]);
    let (changed, total) = replace_all(&v, "bb", "Z", &cell_opts(true), Some(b','));
    assert_eq!(total, 2);
    assert_eq!(
        changed,
        vec![(0, "a,Z,bbc".to_string()), (1, "Z,x".to_string())]
    );
}

#[test]
fn find_ci_ascii_finds_every_case_variant() {
    assert_eq!(find_ci_ascii(b"xxAbxx", b"ab"), Some(2));
    assert_eq!(find_ci_ascii(b"xxaBxx", b"ab"), Some(2));
    assert_eq!(find_ci_ascii(b"xxab", b"ab"), Some(2));
    assert_eq!(find_ci_ascii(b"xxa", b"ab"), None);
    assert_eq!(find_ci_ascii(b"abab", b""), None);
    assert_eq!(find_ci_ascii_from(b"abAB", b"ab", 1), Some(2));
    assert_eq!(find_ci_ascii_from(b"abAB", b"ab", 3), None);
    assert_eq!(ascii_lower(b'Q'), b'q');
    assert_eq!(ascii_lower(b'q'), b'q');
    assert_eq!(ascii_lower(0xC3), 0xC3);
}

#[test]
fn query_foldable_by_bytes_rules() {
    assert!(query_is_case_foldable_by_bytes(""));
    assert!(query_is_case_foldable_by_bytes("ABC-123"));
    assert!(query_is_case_foldable_by_bytes("한국어"));
    assert!(!query_is_case_foldable_by_bytes("é"));
    assert!(!query_is_case_foldable_by_bytes("i\u{0307}"));
}

#[test]
fn replace_all_whole_cell_on_a_row_with_a_leading_mark_matches_replace_in_line() {
    let v = vec!["\u{FEFF}a,b".to_string(), "a,\u{FEFF}a".to_string()];
    let o = FindOptions { match_case: true, scope: MatchScope::WholeCell };
    let (changed, total) = replace_all(&v, "a", "Z", &o, Some(b','));
    let mut want = Vec::new();
    let mut sum = 0;
    for (i, l) in v.iter().enumerate() {
        let (t, n) = replace_in_line(l, "a", "Z", &o, Some(b','));
        if n > 0 {
            want.push((i, t));
            sum += n;
        }
    }
    assert_eq!(changed, want);
    assert_eq!(total, sum);
    assert_eq!(changed[0], (0, "Z,b".to_string()));
}

#[test]
fn replace_all_whole_cell_non_ascii_delimiter() {
    // A delimiter byte that no line holds leaves each line one whole cell.
    let v = lines(&["a", "ab", "a"]);
    let (changed, total) = replace_all(&v, "a", "Z", &cell_opts(true), Some(0xA7));
    assert_eq!(changed, vec![(0, "Z".to_string()), (2, "Z".to_string())]);
    assert_eq!(total, 2);
}
