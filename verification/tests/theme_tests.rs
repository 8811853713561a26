use std::path::Path;
use vweditor::theme::{
    file_name_of, title_for, window_title, FontReport, KOREAN_FONT_MISSING_MSG, KR_CANDIDATES, MONO_CANDIDATES,
    UI_CANDIDATES,
};

#[test]
fn font_candidates_cover_all_three_platforms() {
    for (name, list) in [("mono", &MONO_CANDIDATES[..]), ("ui", &UI_CANDIDATES[..]), ("kr", &KR_CANDIDATES[..])] {
        assert!(list.iter().any(|p| p.starts_with(r"C:\Windows")), "{name}: no Windows path");
        assert!(
            list.iter().any(|p| p.starts_with("/System/") || p.starts_with("/Library/")),
            "{name}: no macOS path"
        );
        assert!(list.iter().any(|p| p.starts_with("/usr/share/fonts")), "{name}: no Linux path");
    }
}

#[test]
fn font_candidates_are_absolute_and_nonempty() {
    for (name, list) in [("mono", &MONO_CANDIDATES[..]), ("ui", &UI_CANDIDATES[..]), ("kr", &KR_CANDIDATES[..])] {
        assert!(!list.is_empty(), "{name}: empty list");
        for p in list {
            assert!(!p.trim().is_empty(), "{name}: empty path");
            let absolute = p.starts_with('/') || p.starts_with(r"C:\");
            assert!(absolute, "{name}: not an absolute path: {p}");
        }
    }
}

#[test]
fn font_candidates_have_no_duplicates() {
    for (name, list) in [("mono", &MONO_CANDIDATES[..]), ("ui", &UI_CANDIDATES[..]), ("kr", &KR_CANDIDATES[..])] {
        let mut seen = std::collections::HashSet::new();
        for p in list {
            assert!(seen.insert(*p), "{name}: duplicate path: {p}");
        }
    }
}

#[test]
fn korean_font_message_tells_how_to_fix_it() {
    let m = KOREAN_FONT_MISSING_MSG;
    assert!(m.contains("Korean font"), "states the problem: {m}");
    assert!(m.contains("apt") && m.contains("dnf") && m.contains("pacman"), "names the install commands: {m}");
    assert!(m.contains("KR_CANDIDATES"), "says where to add a font that is not listed");
}

#[test]
fn korean_font_message_is_ascii_only() {
    let m = KOREAN_FONT_MISSING_MSG;
    let hangul: Vec<char> = m.chars().filter(|c| ('가'..='힣').contains(c)).collect();
    assert!(hangul.is_empty(), "the notice for a missing Korean font holds Korean: {hangul:?}");
}

#[test]
fn font_report_default_is_nothing_missing() {
    assert_eq!(FontReport::default(), FontReport { korean_missing: false });
}

#[test]
fn title_without_file_is_app_name() {
    assert_eq!(window_title(None), "vwEditor");
}

#[test]
fn title_with_file_shows_basename_only() {
    assert_eq!(window_title(Some(Path::new(r"C:\data\big.csv"))), "big.csv — vwEditor");
}

#[test]
fn title_with_rootish_path_falls_back() {
    assert_eq!(window_title(Some(Path::new(r"C:\"))), "vwEditor");
}

#[test]
fn title_with_unix_path_shows_basename() {
    assert_eq!(window_title(Some(Path::new("/home/u/report.tsv"))), "report.tsv — vwEditor");
    assert_eq!(window_title(Some(Path::new("/"))), "vwEditor");
}

#[test]
fn file_name_follows_path_rules() {
    assert_eq!(file_name_of("a/b/c.txt").as_deref(), Some("c.txt"));
    assert_eq!(file_name_of("a/b/").as_deref(), Some("b"));
    assert_eq!(file_name_of("a/b/.").as_deref(), Some("b"));
    assert_eq!(file_name_of("a/.."), None);
    assert_eq!(file_name_of(""), None);
    assert_eq!(file_name_of("."), None);
    assert_eq!(file_name_of("C:"), None);
    assert_eq!(file_name_of("C:x.csv").as_deref(), Some("x.csv"));
    assert_eq!(file_name_of(r"\\server\share\f.csv").as_deref(), Some("f.csv"));
}

#[test]
fn title_for_name() {
    assert_eq!(title_for(Some("x.csv")), "x.csv — vwEditor");
    assert_eq!(title_for(Some("")), "vwEditor");
    assert_eq!(title_for(None), "vwEditor");
}

#[test]
fn share_prefix_has_no_file_name() {
    assert_eq!(vweditor::theme::file_name_of("\\\\server\\share"), None);
    assert_eq!(vweditor::theme::file_name_of("\\\\server\\share\\"), None);
    assert_eq!(vweditor::theme::file_name_of("\\\\server"), None);
    assert_eq!(vweditor::theme::file_name_of("\\\\server\\share\\a.csv"), Some("a.csv".to_string()));
    assert_eq!(vweditor::theme::title_for(None), "vwEditor");
}
