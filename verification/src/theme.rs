//! Font candidate lists, the missing-font notice, and the window title.
//! The drawing itself (fonts, colours, sizes) belongs to the GUI.
use vstd::prelude::*;
use crate::chars::{chars_of, string_of};

verus! {

/// Fixed-width fonts for the data area, in order of preference; paths of
/// other platforms simply fail to load and are skipped.
pub const MONO_CANDIDATES: [&'static str; 13] = [
    r"C:\Windows\Fonts\CascadiaMono.ttf",
    r"C:\Windows\Fonts\CascadiaCode.ttf",
    r"C:\Windows\Fonts\consola.ttf",
    "/System/Library/Fonts/SFNSMono.ttf",
    "/System/Library/Fonts/Menlo.ttc",
    "/System/Library/Fonts/Monaco.dfont",
    "/usr/share/fonts/truetype/dejavu/DejaVuSansMono.ttf",
    "/usr/share/fonts/dejavu/DejaVuSansMono.ttf",
    "/usr/share/fonts/TTF/DejaVuSansMono.ttf",
    "/usr/share/fonts/truetype/liberation/LiberationMono-Regular.ttf",
    "/usr/share/fonts/liberation/LiberationMono-Regular.ttf",
    "/usr/share/fonts/truetype/noto/NotoSansMono-Regular.ttf",
    "/usr/share/fonts/noto/NotoSansMono-Regular.ttf",
];

/// Proportional fonts for menus, buttons and the status bar.
pub const UI_CANDIDATES: [&'static str; 11] = [
    r"C:\Windows\Fonts\segoeui.ttf",
    r"C:\Windows\Fonts\tahoma.ttf",
    "/System/Library/Fonts/SFNS.ttf",
    "/System/Library/Fonts/SFNSDisplay.ttf",
    "/System/Library/Fonts/Helvetica.ttc",
    "/usr/share/fonts/truetype/dejavu/DejaVuSans.ttf",
    "/usr/share/fonts/dejavu/DejaVuSans.ttf",
    "/usr/share/fonts/TTF/DejaVuSans.ttf",
    "/usr/share/fonts/truetype/liberation/LiberationSans-Regular.ttf",
    "/usr/share/fonts/liberation/LiberationSans-Regular.ttf",
    "/usr/share/fonts/truetype/noto/NotoSans-Regular.ttf",
];

/// Korean fallback fonts. When none loads, Korean text is drawn as boxes and
/// the user is told so (`FontReport::korean_missing`).
pub const KR_CANDIDATES: [&'static str; 13] = [
    r"C:\Windows\Fonts\malgun.ttf",
    r"C:\Windows\Fonts\gulim.ttc",
    "/System/Library/Fonts/AppleSDGothicNeo.ttc",
    "/Library/Fonts/AppleGothic.ttf",
    "/System/Library/Fonts/Supplemental/AppleGothic.ttf",
    "/usr/share/fonts/truetype/nanum/NanumGothic.ttf",
    "/usr/share/fonts/nhn-nanum/NanumGothic.ttf",
    "/usr/share/fonts/nanum/NanumGothic.ttf",
    "/usr/share/fonts/opentype/noto/NotoSansCJK-Regular.ttc",
    "/usr/share/fonts/opentype/noto/NotoSansKR-Regular.otf",
    "/usr/share/fonts/noto-cjk/NotoSansCJK-Regular.ttc",
    "/usr/share/fonts/noto/NotoSansCJK-Regular.ttc",
    "/usr/share/fonts/truetype/noto/NotoSansCJK-Regular.ttc",
];

/// What font installation found.
#[derive(Debug, Clone, Copy, PartialEq, Eq, Default)]
pub struct FontReport {
    /// No font with Korean glyphs was found.
    pub korean_missing: bool,
}

/// The notice shown when no Korean font was found. It is in English on
/// purpose: Korean text is exactly what cannot be drawn then.
pub const KOREAN_FONT_MISSING_MSG: &'static str =
    "No Korean font was found, so Korean text appears as \u{25a1}. \
     Installing one fixes it — Debian/Ubuntu: `sudo apt install fonts-nanum`, \
     Fedora: `sudo dnf install nhn-nanum-fonts`, Arch: `sudo pacman -S noto-fonts-cjk`. \
     If a font is installed but still not found, add its path to KR_CANDIDATES in src/theme.rs.";

/// A path separator: `/`, or `\` as on Windows.
pub open spec fn is_sep(c: char) -> bool {
    c == '/' || c == '\\'
}

/// An ASCII letter (a drive letter).
pub open spec fn is_drive_letter(c: char) -> bool {
    ('a' <= c && c <= 'z') || ('A' <= c && c <= 'Z')
}

/// The index just after the last separator of `t` (0 when there is none).
pub open spec fn after_last_sep(t: Seq<char>) -> int
    decreases t.len(),
{
    if t.len() == 0 {
        0
    } else if is_sep(t.last()) {
        t.len() as int
    } else {
        after_last_sep(t.drop_last())
    }
}

/// The last component of `t` without a leading drive prefix (`C:`), when
/// the component begins the path.
pub open spec fn last_name(t: Seq<char>) -> Seq<char> {
    let k = after_last_sep(t);
    let comp = t.subrange(k, t.len() as int);
    if k == 0 && comp.len() >= 2 && is_drive_letter(comp[0]) && comp[1] == ':' {
        comp.subrange(2, comp.len() as int)
    } else {
        comp
    }
}

/// In a path that starts with two separators (`\\server\share`), whether
/// the component starting at `k` is the server or the share: those make the
/// path's prefix, not file names.
pub open spec fn in_unc_prefix(t: Seq<char>, k: int) -> bool {
    t.len() >= 2 && is_sep(t[0]) && is_sep(t[1]) && forall|i: int| 2 <= i < k - 1 ==> !is_sep(t[i])
}

/// The file name of a path, as `Path::file_name` gives it with both `/` and
/// `\` as separators, a leading drive prefix and a leading share prefix
/// (`\\server\share`): trailing separators and `.` components are
/// skipped; a path that ends in `..`, is empty, is only a drive, share or
/// root, or is `.` has none.
pub open spec fn file_name(t: Seq<char>) -> Option<Seq<char>>
    decreases t.len(),
{
    if t.len() == 0 {
        None
    } else if is_sep(t.last()) {
        file_name(t.drop_last())
    } else {
        let k = after_last_sep(t);
        let name = last_name(t);
        if in_unc_prefix(t, k) {
            None
        } else if name.len() == 0 {
            None
        } else if name == seq!['.'] {
            if k == 0 {
                None
            } else {
                proof {
                    lemma_after_last_sep_bounds(t);
                }
                file_name(t.take(k))
            }
        } else if name == seq!['.', '.'] {
            None
        } else {
            Some(name)
        }
    }
}

/// `after_last_sep` is a position in `t` just after a separator (or 0), and
/// no separator follows it.
pub proof fn lemma_after_last_sep_bounds(t: Seq<char>)
    ensures
        0 <= after_last_sep(t) <= t.len(),
        after_last_sep(t) == 0 || is_sep(t[after_last_sep(t) - 1]),
        forall|i: int| after_last_sep(t) <= i < t.len() ==> !is_sep(t[i]),
    decreases t.len(),
{
    if t.len() > 0 && !is_sep(t.last()) {
        let d = t.drop_last();
        lemma_after_last_sep_bounds(d);
        assert forall|i: int| after_last_sep(t) <= i < t.len() implies !is_sep(t[i]) by {
            if i < t.len() - 1 {
                assert(d[i] == t[i]);
            }
        }
        if after_last_sep(t) > 0 {
            assert(d[after_last_sep(t) - 1] == t[after_last_sep(t) - 1]);
        }
    }
}

/// With no separator in `t[k..]`, the last separator of `t` is that of `t[..k]`.
proof fn lemma_after_last_sep_prefix(t: Seq<char>, k: int)
    requires
        0 <= k <= t.len(),
        forall|i: int| k <= i < t.len() ==> !is_sep(t[i]),
    ensures
        after_last_sep(t) == after_last_sep(t.take(k)),
    decreases t.len() - k,
{
    if k < t.len() {
        assert(t.drop_last() =~= t.take(t.len() - 1));
        lemma_after_last_sep_prefix(t.drop_last(), k);
        assert(t.drop_last().take(k) =~= t.take(k));
    } else {
        assert(t.take(k) =~= t);
    }
}

/// The file name of the path text `text` (see `file_name`).
pub fn file_name_of(text: &str) -> (r: Option<String>)
    ensures
        match r {
            Some(n) => file_name(text@) == Some(n@),
            None => file_name(text@) is None,
        },
{
    let cs = chars_of(text);
    let mut end: usize = cs.len();
    assert(cs@.take(end as int) =~= cs@);
    loop
        invariant
            end <= cs@.len(),
            cs@ == text@,
            file_name(cs@.take(end as int)) == file_name(text@),
        decreases end,
    {
        let ghost t = cs@.take(end as int);
        if end == 0 {
            return None;
        }
        if cs[end - 1] == '/' || cs[end - 1] == '\\' {
            assert(t.drop_last() =~= cs@.take(end - 1));
            end -= 1;
            continue;
        }
        let mut k: usize = end;
        while k > 0 && !(cs[k - 1] == '/' || cs[k - 1] == '\\')
            invariant
                k <= end <= cs@.len(),
                t == cs@.take(end as int),
                forall|i: int| k <= i < end ==> !is_sep(cs@[i]),
            decreases k,
        {
            k -= 1;
        }
        proof {
            lemma_after_last_sep_prefix(t, k as int);
            assert(t.take(k as int) =~= cs@.take(k as int));
            let tk = cs@.take(k as int);
            if k > 0 {
                assert(tk.last() == cs@[k - 1]);
            }
            assert(after_last_sep(t) == k);
        }
        if end >= 2 && (cs[0] == '/' || cs[0] == '\\') && (cs[1] == '/' || cs[1] == '\\') {
            assert(is_sep(cs@[1]));
            assert(k >= 2);
            let mut j: usize = 2;
            while j < k - 1 && !(cs[j] == '/' || cs[j] == '\\')
                invariant
                    2 <= j <= k,
                    k <= end <= cs@.len(),
                    forall|i: int| 2 <= i < j ==> !is_sep(cs@[i]),
                decreases k - 1 - j,
            {
                j += 1;
            }
            if j + 1 >= k {
                assert(t[0] == cs@[0] && t[1] == cs@[1]);
                assert forall|i: int| 2 <= i < k - 1 implies !is_sep(t[i]) by {
                    assert(t[i] == cs@[i]);
                }
                assert(in_unc_prefix(t, k as int));
                return None;
            }
            proof {
                assert(t[j as int] == cs@[j as int]);
            }
        }
        proof {
            if in_unc_prefix(t, k as int) {
                assert(end >= 2);
                assert(t[0] == cs@[0] && t[1] == cs@[1]);
                assert(k >= 2) by {
                    assert(is_sep(cs@[1]));
                }
            }
        }
        let mut s: usize = k;
        if k == 0 && end >= 2 && cs[1] == ':' && (('a' <= cs[0] && cs[0] <= 'z') || ('A' <= cs[0] && cs[0] <= 'Z')) {
            s = 2;
        }
        proof {
            let comp = t.subrange(k as int, t.len() as int);
            assert(last_name(t) =~= cs@.subrange(s as int, end as int));
        }
        if s == end {
            return None;
        }
        if end - s == 1 && cs[s] == '.' {
            assert(last_name(t) =~= seq!['.']);
            if k == 0 {
                return None;
            }
            assert(t.take(k as int) =~= cs@.take(k as int));
            end = k;
            continue;
        }
        if end - s == 2 && cs[s] == '.' && cs[s + 1] == '.' {
            assert(last_name(t) =~= seq!['.', '.']);
            return None;
        }
        proof {
            if last_name(t) == seq!['.'] {
                assert(last_name(t)[0] == cs@[s as int]);
            }
            if last_name(t) == seq!['.', '.'] {
                assert(last_name(t)[0] == cs@[s as int]);
                assert(last_name(t)[1] == cs@[s + 1]);
            }
        }
        let name = vstd::slice::slice_subrange(cs.as_slice(), s, end);
        return Some(string_of(name));
    }
}

/// The window title for the file name `name`: `"<name> — vwEditor"`, or
/// `"vwEditor"` when there is no (or an empty) name.
pub open spec fn title_text(name: Option<Seq<char>>) -> Seq<char> {
    match name {
        Some(n) => if n.len() > 0 { n + " — vwEditor"@ } else { "vwEditor"@ },
        None => "vwEditor"@,
    }
}

/// The window title for a path given as text (or not valid Unicode: `None`).
pub open spec fn title_of_text(text: Option<Seq<char>>) -> Seq<char> {
    title_text(match text {
        Some(x) => file_name(x),
        None => None,
    })
}

/// The window title for an already extracted file name.
pub fn title_for(name: Option<&str>) -> (t: String)
    ensures
        t@ == title_text(match name { Some(n) => Some(n@), None => None }),
{
    match name {
        Some(n) => {
            if n.is_empty() {
                "vwEditor".to_owned()
            } else {
                let mut v = chars_of(n);
                let mut suffix = chars_of(" — vwEditor");
                v.append(&mut suffix);
                string_of(v.as_slice())
            }
        },
        None => "vwEditor".to_owned(),
    }
}

/// What `Path::to_str` gives for `path`: its text, when it is valid Unicode.
pub uninterp spec fn path_str(p: &std::path::Path) -> Option<Seq<char>>;

/// The text of `path` (`Path::to_str`), when it is valid Unicode; named
/// `path_str`.
#[verifier::external_body]
fn path_text(path: &std::path::Path) -> (t: Option<String>)
    ensures
        match t {
            Some(x) => path_str(path) == Some(x@),
            None => path_str(path) is None,
        },
{
    path.to_str().map(|s| s.to_string())
}

/// The window title for the open file: its file name and the application
/// name, or the application name alone when no file (or no file name) is
/// there. Only the file name is shown; the title bar is short.
pub fn window_title(path: Option<&std::path::Path>) -> (t: String)
    ensures
        path is None ==> t@ == title_text(None),
        path matches Some(p) ==> t@ == title_of_text(path_str(p)),
{
    match path {
        None => title_for(None),
        Some(p) => match path_text(p) {
            Some(text) => {
                let name = file_name_of(text.as_str());
                let ghost fx = file_name(text@);
                match name {
                    Some(n) => {
                        let t = title_for(Some(n.as_str()));
                        assert(t@ == title_of_text(Some(text@)));
                        t
                    },
                    None => {
                        let t = title_for(None);
                        assert(t@ == title_of_text(Some(text@)));
                        t
                    },
                }
            },
            None => {
                let t = title_for(None);
                assert(t@ == title_of_text(None));
                t
            },
        },
    }
}

} // verus!
