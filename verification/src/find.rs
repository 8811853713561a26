//! Find and replace on lines of text. Every position is a character index
//! (as `TextPos::col` is), never a byte offset.
use vstd::prelude::*;
use crate::chars::{chars_of, string_of, extend_chars, hex_value, hex_digit_value};
use crate::bytes::{memchr_find, memchr2_find, lemma_ascii_byte_in_utf8};
use crate::hex::{memmem_find, occurs_at};
use crate::edit::{sanitize, split_by, split_on, join_with, cviews, lemma_join_with_step, cell_text, push_unquoted, TextPos};
use crate::parse::{split_fields, field_bounds, field_ranges, text_of, utf8_lossy, views};
use vstd::utf8::encode_utf8;

verus! {

/// How much of the text a match must cover.
#[derive(Debug, Clone, Copy, PartialEq, Eq, Structural)]
pub enum MatchScope {
    /// Anywhere in the line (the default).
    Partial,
    /// Only where no word character touches the match on either side.
    WholeWord,
    /// Only a whole cell (in text mode: the whole line).
    WholeCell,
}

/// Search options.
#[derive(Debug, Clone, Copy, PartialEq, Eq, Structural)]
pub struct FindOptions {
    /// Case matters.
    pub match_case: bool,
    /// How much a match must cover.
    pub scope: MatchScope,
}

impl Default for FindOptions {
    fn default() -> (o: Self)
        ensures
            o == (FindOptions { match_case: false, scope: MatchScope::Partial }),
    {
        FindOptions { match_case: false, scope: MatchScope::Partial }
    }
}

/// A match: line, character column and length in characters.
#[derive(Debug, Clone, Copy, PartialEq, Eq, Structural)]
pub struct Match {
    pub line: usize,
    pub col: usize,
    pub len: usize,
}

/// What `char::to_lowercase` yields for `c` (one or more characters).
pub uninterp spec fn char_lower(c: char) -> Seq<char>;

/// What `char::to_uppercase` yields for `c` (one or more characters).
pub uninterp spec fn char_upper(c: char) -> Seq<char>;

/// `char::is_alphanumeric`: Unicode Alphabetic or Numeric.
pub uninterp spec fn char_alnum(c: char) -> bool;

/// What `str::to_lowercase` makes of a text.
pub uninterp spec fn text_lower(s: Seq<char>) -> Seq<char>;

/// `char::to_lowercase`, collected; named `char_lower`. Its documentation
/// says it yields one or more characters.
#[verifier::external_body]
fn lower_chars(c: char) -> (v: Vec<char>)
    ensures
        v@ == char_lower(c),
        v@.len() >= 1,
{
    c.to_lowercase().collect()
}

/// `char::to_uppercase`, collected; named `char_upper`. Its documentation
/// says it yields one or more characters.
#[verifier::external_body]
fn upper_chars(c: char) -> (v: Vec<char>)
    ensures
        v@ == char_upper(c),
        v@.len() >= 1,
{
    c.to_uppercase().collect()
}

/// `char::is_alphanumeric`; named `char_alnum`.
#[verifier::external_body]
fn is_alnum(c: char) -> (r: bool)
    ensures
        r == char_alnum(c),
{
    c.is_alphanumeric()
}

/// `str::to_lowercase`; named `text_lower`.
#[verifier::external_body]
fn lowercase(s: &str) -> (r: String)
    ensures
        r@ == text_lower(s@),
{
    s.to_lowercase()
}

/// A word character: alphanumeric (Hangul included) or `_`.
pub open spec fn word_char(c: char) -> bool {
    char_alnum(c) || c == '_'
}

fn is_word_char(c: char) -> (r: bool)
    ensures
        r == word_char(c),
{
    is_alnum(c) || c == '_'
}

/// What one character of the text becomes for comparison.
pub open spec fn fold_piece(c: char, match_case: bool) -> Seq<char> {
    if match_case { seq![c] } else { char_lower(c) }
}

/// The text as compared: each character as is (matching case) or lowered,
/// a lowering possibly giving several characters.
pub open spec fn folded_chars(s: Seq<char>, match_case: bool) -> Seq<char>
    decreases s.len(),
{
    if s.len() == 0 {
        seq![]
    } else {
        folded_chars(s.drop_last(), match_case) + fold_piece(s.last(), match_case)
    }
}

/// For each compared character, the index of the text character it came from.
pub open spec fn folded_origin(s: Seq<char>, match_case: bool) -> Seq<int>
    decreases s.len(),
{
    if s.len() == 0 {
        seq![]
    } else {
        folded_origin(s.drop_last(), match_case)
            + Seq::new(fold_piece(s.last(), match_case).len(), |k: int| s.len() - 1)
    }
}

proof fn lemma_folded(s: Seq<char>, match_case: bool)
    requires
        match_case || forall|k: int| 0 <= k < s.len() ==> char_lower(#[trigger] s[k]).len() >= 1,
    ensures
        folded_chars(s, match_case).len() == folded_origin(s, match_case).len(),
        folded_chars(s, match_case).len() >= s.len(),
        forall|k: int| 0 <= k < folded_origin(s, match_case).len() ==>
            0 <= #[trigger] folded_origin(s, match_case)[k] < s.len(),
        forall|k: int, j: int| 0 <= k <= j < folded_origin(s, match_case).len() ==>
            folded_origin(s, match_case)[k] <= folded_origin(s, match_case)[j],
    decreases s.len(),
{
    if s.len() > 0 {
        let t = s.drop_last();
        assert forall|k: int| 0 <= k < t.len() implies (match_case || char_lower(#[trigger] t[k]).len() >= 1) by {
            assert(t[k] == s[k]);
        }
        lemma_folded(t, match_case);
        if !match_case {
            assert(char_lower(s[s.len() - 1]).len() >= 1);
        }
    }
}

/// Folds `s` for comparison, returning the compared characters and, for each,
/// the index of the character of `s` it came from.
fn folded(s: &str, match_case: bool) -> (r: (Vec<char>, Vec<usize>))
    ensures
        r.0@ == folded_chars(s@, match_case),
        r.1@.map_values(|x: usize| x as int) == folded_origin(s@, match_case),
        match_case || forall|k: int| 0 <= k < s@.len() ==> char_lower(#[trigger] s@[k]).len() >= 1,
{
    let cs = chars_of(s);
    let mut chars: Vec<char> = Vec::new();
    let mut origin: Vec<usize> = Vec::new();
    let mut i: usize = 0;
    while i < cs.len()
        invariant
            0 <= i <= cs@.len(),
            cs@ == s@,
            chars@ == folded_chars(cs@.take(i as int), match_case),
            origin@.map_values(|x: usize| x as int) == folded_origin(cs@.take(i as int), match_case),
            match_case || forall|k: int| 0 <= k < i ==> char_lower(#[trigger] cs@[k]).len() >= 1,
        decreases cs.len() - i,
    {
        let c = cs[i];
        let ghost t = cs@.take(i as int + 1);
        assert(t.drop_last() =~= cs@.take(i as int));
        assert(t.last() == c);
        let ghost before_o = origin@.map_values(|x: usize| x as int);
        if match_case {
            chars.push(c);
            origin.push(i);
            assert(origin@.map_values(|x: usize| x as int) =~= before_o + Seq::new(1, |k: int| i as int));
        } else {
            let low = lower_chars(c);
            let ghost ch0 = chars@;
            let mut j: usize = 0;
            while j < low.len()
                invariant
                    0 <= j <= low@.len(),
                    i < cs@.len(),
                    chars@ == ch0 + low@.take(j as int),
                    origin@.map_values(|x: usize| x as int) == before_o + Seq::new(j as nat, |k: int| i as int),
                decreases low.len() - j,
            {
                chars.push(low[j]);
                let ghost op = origin@;
                origin.push(i);
                assert(origin@.map_values(|x: usize| x as int) =~= op.map_values(|x: usize| x as int).push(i as int));
                j += 1;
                assert(chars@ =~= ch0 + low@.take(j as int));
                assert(origin@.map_values(|x: usize| x as int) =~= before_o + Seq::new(j as nat, |k: int| i as int));
            }
            assert(low@.take(low@.len() as int) =~= low@);
        }
        i += 1;
        assert(chars@ =~= folded_chars(cs@.take(i as int), match_case));
        assert(origin@.map_values(|x: usize| x as int) =~= folded_origin(cs@.take(i as int), match_case));
    }
    assert(cs@.take(cs@.len() as int) =~= cs@);
    (chars, origin)
}

/// The matches found by scanning the folded text `h` from index `i`: where
/// the folded needle `n` appears, starting and ending on whole characters of
/// the text `hc` (`o` maps folded characters back to it) and, for whole
/// words, with no word character on either side. After a match the scan
/// resumes past it, so matches never overlap. Each is (column, length) in
/// characters of the text.
pub open spec fn hits_from(h: Seq<char>, o: Seq<int>, n: Seq<char>, hc: Seq<char>, whole_word: bool, i: int) -> Seq<(usize, usize)>
    decreases h.len() - i,
{
    if i < 0 || n.len() == 0 || i + n.len() > h.len() {
        seq![]
    } else if h.subrange(i, i + n.len()) != n {
        hits_from(h, o, n, hc, whole_word, i + 1)
    } else {
        let start = o[i];
        let end = if i + n.len() < o.len() { o[i + n.len()] } else { hc.len() as int };
        let on_start = i == 0 || o[i - 1] != start;
        let on_end = i + n.len() >= o.len() || o[i + n.len() - 1] != end;
        let before_ok = start == 0 || !word_char(hc[start - 1]);
        let after_ok = end >= hc.len() || !word_char(hc[end]);
        if !on_start || !on_end || end <= start || (whole_word && !(before_ok && after_ok)) {
            hits_from(h, o, n, hc, whole_word, i + 1)
        } else {
            seq![(start as usize, (end - start) as usize)] + hits_from(h, o, n, hc, whole_word, i + n.len())
        }
    }
}

/// Every match of `needle` in `hay` under `opts` (whole-cell scope is not
/// looked at here), as (column, length) in characters of `hay`.
pub open spec fn spec_find_in_line(hay: Seq<char>, needle: Seq<char>, opts: FindOptions) -> Seq<(usize, usize)> {
    let h = folded_chars(hay, opts.match_case);
    let n = folded_chars(needle, opts.match_case);
    if needle.len() == 0 || n.len() == 0 || h.len() < n.len() {
        seq![]
    } else {
        hits_from(h, folded_origin(hay, opts.match_case), n, hay, opts.scope == MatchScope::WholeWord, 0)
    }
}

fn same_at(h: &Vec<char>, i: usize, n: &Vec<char>) -> (r: bool)
    requires
        i + n@.len() <= h@.len(),
    ensures
        r == (h@.subrange(i as int, i + n@.len()) == n@),
{
    let hl = h.len();
    let mut k: usize = 0;
    while k < n.len()
        invariant
            0 <= k <= n@.len(),
            hl == h@.len(),
            i + n@.len() <= hl,
            forall|j: int| 0 <= j < k ==> h@[i + j] == n@[j],
        decreases n.len() - k,
    {
        if h[i + k] != n[k] {
            assert(h@.subrange(i as int, i + n@.len())[k as int] != n@[k as int]);
            return false;
        }
        k += 1;
    }
    assert(h@.subrange(i as int, i + n@.len()) =~= n@);
    true
}

/// Every non-overlapping match of `needle` in `hay`, left to right, as
/// (column, length) in characters of `hay`. Case is ignored unless
/// `opts.match_case`; a lowering that turns one character into several is
/// handled, and a match that would split such a character is not counted.
/// With whole-word scope a match must not touch a word character on either
/// side. An empty needle matches nothing.
pub fn find_in_line(hay: &str, needle: &str, opts: &FindOptions) -> (hits: Vec<(usize, usize)>)
    ensures
        hits@ == spec_find_in_line(hay@, needle@, *opts),
{
    if needle.is_empty() {
        return Vec::new();
    }
    let (h, origin) = folded(hay, opts.match_case);
    let (n, _) = folded(needle, opts.match_case);
    if n.len() == 0 || h.len() < n.len() {
        return Vec::new();
    }
    let hay_chars = chars_of(hay);
    let hay_len = hay_chars.len();
    let ghost o = origin@.map_values(|x: usize| x as int);
    let whole_word = opts.scope == MatchScope::WholeWord;
    proof { lemma_folded(hay@, opts.match_case); }
    let mut out: Vec<(usize, usize)> = Vec::new();
    let mut i: usize = 0;
    let ghost spec = hits_from(h@, o, n@, hay@, whole_word, 0);
    let last = h.len() - n.len();
    while i <= last
        invariant
            n@.len() >= 1,
            last == h@.len() - n@.len(),
            i <= h@.len(),
            h@.len() == origin@.len(),
            o == origin@.map_values(|x: usize| x as int),
            hay_chars@ == hay@,
            hay_len == hay@.len(),
            forall|k: int| 0 <= k < o.len() ==> 0 <= #[trigger] o[k] < hay@.len(),
            forall|k: int, j: int| 0 <= k <= j < o.len() ==> o[k] <= o[j],
            spec == out@ + hits_from(h@, o, n@, hay@, whole_word, i as int),
            spec == hits_from(h@, o, n@, hay@, whole_word, 0),
        decreases h.len() - i,
    {
        if !same_at(&h, i, &n) {
            i += 1;
            continue;
        }
        let start = origin[i];
        let end = if i + n.len() < origin.len() { origin[i + n.len()] } else { hay_len };
        let on_start = i == 0 || origin[i - 1] != start;
        let on_end = i + n.len() >= origin.len() || origin[i + n.len() - 1] != end;
        if !on_start || !on_end || end <= start {
            i += 1;
            continue;
        }
        if whole_word {
            let before_ok = start == 0 || !is_word_char(hay_chars[start - 1]);
            let after_ok = end >= hay_len || !is_word_char(hay_chars[end]);
            if !(before_ok && after_ok) {
                i += 1;
                continue;
            }
        }
        let ghost prev = out@;
        out.push((start, end - start));
        assert(out@ =~= prev + seq![(start, (end - start) as usize)]);
        i += n.len();
    }
    out
}


/// Two texts are equal as the search compares them: exactly when case
/// matters, else after `str::to_lowercase` on both.
pub open spec fn texts_equal(a: Seq<char>, b: Seq<char>, match_case: bool) -> bool {
    if match_case { a == b } else { text_lower(a) == text_lower(b) }
}

pub(crate) fn same_text(a: &[char], b: &[char]) -> (r: bool)
    ensures
        r == (a@ == b@),
{
    if a.len() != b.len() {
        return false;
    }
    let mut i: usize = 0;
    while i < a.len()
        invariant
            a@.len() == b@.len(),
            0 <= i <= a@.len(),
            forall|k: int| 0 <= k < i ==> a@[k] == b@[k],
        decreases a.len() - i,
    {
        if a[i] != b[i] {
            return false;
        }
        i += 1;
    }
    assert(a@ =~= b@);
    true
}

/// Whether two texts are equal under the case rule.
fn eq_scoped(a: &str, b: &str, match_case: bool) -> (r: bool)
    ensures
        r == texts_equal(a@, b@, match_case),
{
    if match_case {
        let ac = chars_of(a);
        let bc = chars_of(b);
        same_text(ac.as_slice(), bc.as_slice())
    } else {
        let al = lowercase(a);
        let bl = lowercase(b);
        let ac = chars_of(al.as_str());
        let bc = chars_of(bl.as_str());
        same_text(ac.as_slice(), bc.as_slice())
    }
}

/// A whole-cell hit for field `col` of `hay`, if that field's displayed
/// value `fs[col]` equals the needle: the field's raw range (quotes
/// included) as (column, length) in characters.
pub open spec fn cell_hit(fs: Seq<Seq<char>>, hay: Seq<char>, needle: Seq<char>, match_case: bool, d: u8, col: int) -> Seq<(usize, usize)> {
    let b = encode_utf8(hay);
    let r = field_ranges(b, d);
    if texts_equal(fs[col], needle, match_case) && col < r.len() {
        seq![(text_of(b.take(r[col].0)).len() as usize, text_of(b.subrange(r[col].0, r[col].1)).len() as usize)]
    } else {
        seq![]
    }
}

/// The whole-cell hits among the first `k` displayed fields `fs`.
pub open spec fn cell_hits(fs: Seq<Seq<char>>, hay: Seq<char>, needle: Seq<char>, match_case: bool, d: u8, k: int) -> Seq<(usize, usize)>
    decreases k,
{
    if k <= 0 { seq![] } else { cell_hits(fs, hay, needle, match_case, d, k - 1) + cell_hit(fs, hay, needle, match_case, d, k - 1) }
}

/// A line whose CSV fields are read by their delimiters and quotes alone:
/// it holds no line break (which the CSV reader would take as the end of the
/// record) and does not start with a byte-order mark (which it drops).
pub open spec fn csv_simple(hay: Seq<char>) -> bool {
    !hay.contains('\r') && !hay.contains('\n') && !(hay.len() > 0 && hay[0] == '\u{FEFF}')
}

/// The shown value of every field of `hay`: each raw field (`field_ranges`)
/// unquoted.
pub open spec fn cell_texts(hay: Seq<char>, d: u8) -> Seq<Seq<char>> {
    let b = encode_utf8(hay);
    Seq::new(field_ranges(b, d).len(), |k: int| cell_text(b, d, k))
}

/// The shown values of the fields of `hay`: read from the raw fields for a
/// `csv_simple` line, by `split_fields` otherwise.
#[verifier::spinoff_prover]
pub(crate) fn cell_values(hay: &str, d: u8) -> (fs: Vec<String>)
    ensures
        fs@.len() >= 1,
        csv_simple(hay@) ==> views(fs@) == cell_texts(hay@, d),
        csv_simple(hay@) && !hay@.contains('"') && d < 128 ==> views(fs@) == split_by(hay@, d as char),
        !csv_simple(hay@) ==> views(fs@) == crate::parse::csv_fields(hay@, d),
{
    let bytes = hay.as_bytes();
    proof {
        assert(bytes@ == encode_utf8(hay@));
        lemma_ascii_byte_in_utf8(hay@, 13u8);
        lemma_ascii_byte_in_utf8(hay@, 10u8);
    }
    let cs = chars_of(hay);
    let bom = cs.len() > 0 && cs[0] == '\u{FEFF}';
    let brk = memchr2_find(13u8, 10u8, bytes);
    if bom || brk.is_some() {
        proof {
            if let Some(i) = brk {
                if bytes@[i as int] == 13u8 {
                    assert(encode_utf8(hay@).contains(13u8));
                } else {
                    assert(encode_utf8(hay@).contains(10u8));
                }
            }
        }
        return split_fields(hay, d);
    }
    assert(!encode_utf8(hay@).contains(13u8));
    assert(!encode_utf8(hay@).contains(10u8));
    let ghost want = cell_texts(hay@, d);
    let ghost plain = !hay@.contains('"') && d < 128;
    let ghost pieces = split_by(hay@, d as char);
    proof {
        crate::parse::lemma_field_ranges_wf(bytes@, d);
        crate::parse::lemma_field_count_bound(bytes@, d);
        if plain {
            crate::fields::lemma_plain_fields(hay@, d);
        }
    }
    let mut fs: Vec<String> = Vec::new();
    let mut col: u128 = 0;
    let n = bytes.len();
    loop
        invariant_except_break
            col <= n + 1,
            col <= field_ranges(bytes@, d).len(),
        invariant
            bytes@ == encode_utf8(hay@),
            n == bytes@.len(),
            want == cell_texts(hay@, d),
            field_ranges(bytes@, d).len() >= 1,
            field_ranges(bytes@, d).len() <= n + 1,
            forall|k: int| 0 <= k < field_ranges(bytes@, d).len() ==>
                0 <= #[trigger] field_ranges(bytes@, d)[k].0 <= field_ranges(bytes@, d)[k].1 <= bytes@.len(),
            fs@.len() == col,
            views(fs@) == want.take(col as int),
            plain == (!hay@.contains('"') && d < 128),
            pieces == split_by(hay@, d as char),
            plain ==> field_ranges(bytes@, d).len() == pieces.len(),
            plain ==> forall|k: int| 0 <= k < field_ranges(bytes@, d).len() ==>
                bytes@.subrange(#[trigger] field_ranges(bytes@, d)[k].0, field_ranges(bytes@, d)[k].1) == encode_utf8(pieces[k]),
            plain ==> views(fs@) == pieces.take(col as int),
        ensures
            views(fs@) == want,
            plain ==> views(fs@) == pieces,
        decreases n + 2 - col,
    {
        if col > n as u128 {
            assert(col == field_ranges(bytes@, d).len());
            assert(want.take(col as int) =~= want);
            proof {
                if plain {
                    assert(pieces.take(col as int) =~= pieces);
                }
            }
            break;
        }
        assert(col as usize == col);
        match field_bounds(bytes, d, col as usize) {
            Some((s, e)) => {
                let raw = vstd::slice::slice_subrange(bytes, s, e);
                let mut v: Vec<char> = Vec::new();
                push_unquoted(&mut v, raw);
                assert(v@ =~= want[col as int]);
                proof {
                    if plain {
                        let p = pieces[col as int];
                        assert(raw@ == encode_utf8(p));
                        vstd::utf8::encode_utf8_valid_utf8(p);
                        vstd::utf8::encode_utf8_decode_utf8(p);
                        crate::bytes::lemma_ascii_byte_in_utf8(hay@, 34u8);
                        assert(34u8 as char == '"');
                        if raw@.len() > 0 && raw@[0] == 34u8 {
                            assert(bytes@[field_ranges(bytes@, d)[col as int].0] == 34u8);
                            assert(encode_utf8(hay@).contains(34u8));
                        }
                        assert(v@ =~= p);
                    }
                }
                let ghost prev = fs@;
                fs.push(string_of(v.as_slice()));
                proof {
                    assert(views(fs@) =~= views(prev).push(want[col as int]));
                    assert(want.take(col + 1) =~= want.take(col as int).push(want[col as int]));
                    if plain {
                        assert(pieces.take(col + 1) =~= pieces.take(col as int).push(pieces[col as int]));
                    }
                }
                col += 1;
            },
            None => {
                assert(want.take(col as int) =~= want);
                proof {
                    if plain {
                        assert(pieces.take(col as int) =~= pieces);
                    }
                }
                break;
            },
        }
    }
    fs
}

/// `hits` is what a scoped search of `hay` for `needle` gives: nothing for an
/// empty needle; the matches of `find_in_line` for partial and whole-word
/// scope; for whole-cell scope without a delimiter, the whole line when it
/// equals the needle; with a delimiter, each field whose displayed value (as
/// `split_fields` gives it) equals the needle.
pub open spec fn scoped_hits(hay: Seq<char>, needle: Seq<char>, opts: FindOptions, delim: Option<u8>, hits: Seq<(usize, usize)>) -> bool {
    if needle.len() == 0 {
        hits == Seq::<(usize, usize)>::empty()
    } else if opts.scope != MatchScope::WholeCell {
        hits == spec_find_in_line(hay, needle, opts)
    } else {
        match delim {
            None => hits == (if texts_equal(hay, needle, opts.match_case) { seq![(0usize, hay.len() as usize)] } else { seq![] }),
            Some(d) => exists|fs: Seq<Seq<char>>| fs.len() >= 1
                && (csv_simple(hay) ==> fs == cell_texts(hay, d))
                && (csv_simple(hay) && !hay.contains('"') && d < 128 ==> fs == split_by(hay, d as char))
                && (!csv_simple(hay) ==> fs == crate::parse::csv_fields(hay, d))
                && hits == cell_hits(fs, hay, needle, opts.match_case, d, fs.len() as int),
        }
    }
}

/// The fields whose shown values a whole-cell search compares: read from
/// the raw fields for a `csv_simple` line, as `csv_core` gives them otherwise.
pub open spec fn scoped_fields(hay: Seq<char>, d: u8) -> Seq<Seq<char>> {
    if csv_simple(hay) { cell_texts(hay, d) } else { crate::parse::csv_fields(hay, d) }
}

/// The hits of a scoped search (see `scoped_hits`), as a function.
pub open spec fn scoped_hits_of(hay: Seq<char>, needle: Seq<char>, opts: FindOptions, delim: Option<u8>) -> Seq<(usize, usize)> {
    if needle.len() == 0 {
        Seq::<(usize, usize)>::empty()
    } else if opts.scope != MatchScope::WholeCell {
        spec_find_in_line(hay, needle, opts)
    } else {
        match delim {
            None => if texts_equal(hay, needle, opts.match_case) { seq![(0usize, hay.len() as usize)] } else { seq![] },
            Some(d) => cell_hits(scoped_fields(hay, d), hay, needle, opts.match_case, d, scoped_fields(hay, d).len() as int),
        }
    }
}

/// The scoped search has one result.
pub proof fn lemma_scoped_hits_unique(hay: Seq<char>, needle: Seq<char>, opts: FindOptions, delim: Option<u8>, hits: Seq<(usize, usize)>)
    requires
        scoped_hits(hay, needle, opts, delim, hits),
    ensures
        hits == scoped_hits_of(hay, needle, opts, delim),
{
}

/// Matches of `needle` in one line as (column, length) in characters, by
/// scope: partial and whole-word as `find_in_line`; whole cell in a table
/// (`delim` given) compares each cell's displayed value (quotes removed) with
/// the needle and reports the cell's raw range; whole cell in text mode
/// matches only the whole line.
pub fn find_in_line_scoped(hay: &str, needle: &str, opts: &FindOptions, delim: Option<u8>) -> (hits: Vec<(usize, usize)>)
    ensures
        scoped_hits(hay@, needle@, *opts, delim, hits@),
        hits@ == scoped_hits_of(hay@, needle@, *opts, delim),
{
    let hits = find_scoped_hits(hay, needle, opts, delim);
    proof { lemma_scoped_hits_unique(hay@, needle@, *opts, delim, hits@); }
    hits
}

/// The search `find_in_line_scoped` makes.
fn find_scoped_hits(hay: &str, needle: &str, opts: &FindOptions, delim: Option<u8>) -> (hits: Vec<(usize, usize)>)
    ensures
        scoped_hits(hay@, needle@, *opts, delim, hits@),
{
    if needle.is_empty() {
        return Vec::new();
    }
    if opts.scope != MatchScope::WholeCell {
        return find_in_line(hay, needle, opts);
    }
    match delim {
        None => {
            if eq_scoped(hay, needle, opts.match_case) {
                let n = chars_of(hay).len();
                let mut v: Vec<(usize, usize)> = Vec::new();
                v.push((0, n));
                assert(v@ =~= seq![(0usize, hay@.len() as usize)]);
                v
            } else {
                Vec::new()
            }
        },
        Some(d) => {
            let bytes = hay.as_bytes();
            let display = cell_values(hay, d);
            let ghost fs = views(display@);
            let mut out: Vec<(usize, usize)> = Vec::new();
            let mut col: usize = 0;
            proof { crate::parse::lemma_field_ranges_wf(bytes@, d); }
            while col < display.len()
                invariant
                    0 <= col <= display@.len(),
                    fs == views(display@),
                    bytes@ == encode_utf8(hay@),
                    forall|k: int| 0 <= k < field_ranges(bytes@, d).len() ==>
                        0 <= #[trigger] field_ranges(bytes@, d)[k].0 <= field_ranges(bytes@, d)[k].1 <= bytes@.len(),
                    out@ == cell_hits(fs, hay@, needle@, opts.match_case, d, col as int),
                decreases display.len() - col,
            {
                let ghost prev = out@;
                if eq_scoped(display[col].as_str(), needle, opts.match_case) {
                    match field_bounds(bytes, d, col) {
                        Some((s, e)) => {
                            let head = utf8_lossy(vstd::slice::slice_subrange(bytes, 0, s));
                            let cell = utf8_lossy(vstd::slice::slice_subrange(bytes, s, e));
                            let start_char = chars_of(head.as_str()).len();
                            let cell_len = chars_of(cell.as_str()).len();
                            out.push((start_char, cell_len));
                            assert(bytes@.subrange(0, s as int) == bytes@.take(s as int));
                        },
                        None => {},
                    }
                }
                col += 1;
                assert(out@ =~= cell_hits(fs, hay@, needle@, opts.match_case, d, col as int));
            }
            assert(fs.len() >= 1);
            assert(out@ == cell_hits(fs, hay@, needle@, opts.match_case, d, fs.len() as int));
            out
        },
    }
}

/// Replaces `\n` and `\r` with spaces: a replacement must not break a line.
fn sanitize_for_line(s: &str) -> (r: String)
    ensures
        r@ == sanitize(s@),
{
    let cs = chars_of(s);
    let mut out: Vec<char> = Vec::new();
    let mut i: usize = 0;
    while i < cs.len()
        invariant
            0 <= i <= cs@.len(),
            cs@ == s@,
            out@ == sanitize(cs@.take(i as int)),
        decreases cs.len() - i,
    {
        let c = cs[i];
        out.push(if c == '\n' || c == '\r' { ' ' } else { c });
        i += 1;
        assert(out@ =~= sanitize(cs@.take(i as int)));
    }
    assert(cs@.take(cs@.len() as int) =~= cs@);
    string_of(out.as_slice())
}

/// `hc` with the ranges `hits[k..]` replaced by `rep`, copying from `cursor`
/// on; a range before the cursor or past the end is left alone.
pub open spec fn splice_from(hc: Seq<char>, hits: Seq<(usize, usize)>, rep: Seq<char>, k: int, cursor: int) -> Seq<char>
    decreases hits.len() - k,
{
    if k < 0 || k >= hits.len() {
        hc.subrange(cursor, hc.len() as int)
    } else {
        let c = hits[k].0 as int;
        let l = hits[k].1 as int;
        if cursor <= c && c + l <= hc.len() {
            hc.subrange(cursor, c) + rep + splice_from(hc, hits, rep, k + 1, c + l)
        } else {
            splice_from(hc, hits, rep, k + 1, cursor)
        }
    }
}

/// Replaces every match of `needle` in one line with `replacement` (line
/// breaks in it turned into spaces) and counts the replacements. With
/// whole-cell scope the whole cell (its raw range) is replaced.
pub fn replace_in_line(hay: &str, needle: &str, replacement: &str, opts: &FindOptions, delim: Option<u8>) -> (r: (String, usize))
    ensures
        exists|hits: Seq<(usize, usize)>| scoped_hits(hay@, needle@, *opts, delim, hits)
            && r.0@ == splice_from(hay@, hits, sanitize(replacement@), 0, 0)
            && r.1 == hits.len(),
        r.0@ == splice_from(hay@, scoped_hits_of(hay@, needle@, *opts, delim), sanitize(replacement@), 0, 0),
        r.1 == scoped_hits_of(hay@, needle@, *opts, delim).len(),
{
    let hits = find_in_line_scoped(hay, needle, opts, delim);
    if hits.len() == 0 {
        let cs = chars_of(hay);
        assert(splice_from(hay@, hits@, sanitize(replacement@), 0, 0) =~= hay@);
        return (string_of(cs.as_slice()), 0);
    }
    let rep = sanitize_for_line(replacement);
    let rc = chars_of(rep.as_str());
    let hc = chars_of(hay);
    let n = hc.len();
    let mut out: Vec<char> = Vec::new();
    let mut cursor: usize = 0;
    let mut k: usize = 0;
    while k < hits.len()
        invariant
            0 <= k <= hits@.len(),
            cursor <= n == hc@.len(),
            hc@ == hay@,
            rc@ == sanitize(replacement@),
            out@ + splice_from(hc@, hits@, rc@, k as int, cursor as int) == splice_from(hc@, hits@, rc@, 0, 0),
        decreases hits.len() - k,
    {
        let (c, l) = hits[k];
        let ghost prev = out@;
        let ghost old_cursor = cursor as int;
        if cursor <= c && c <= n && l <= n - c {
            extend_chars(&mut out, hc.as_slice(), cursor, c);
            let rn = rc.len();
            extend_chars(&mut out, rc.as_slice(), 0, rn);
            assert(rc@.subrange(0, rn as int) == rc@);
            cursor = c + l;
            assert(splice_from(hc@, hits@, rc@, k as int, old_cursor)
                == hc@.subrange(old_cursor, c as int) + rc@ + splice_from(hc@, hits@, rc@, k + 1, cursor as int));
            assert(out@ + splice_from(hc@, hits@, rc@, k + 1, cursor as int)
                =~= prev + splice_from(hc@, hits@, rc@, k as int, old_cursor));
        } else {
            assert(splice_from(hc@, hits@, rc@, k as int, old_cursor) == splice_from(hc@, hits@, rc@, k + 1, old_cursor));
        }
        k += 1;
    }
    extend_chars(&mut out, hc.as_slice(), cursor, n);
    assert(splice_from(hc@, hits@, rc@, k as int, cursor as int) == hc@.subrange(cursor as int, n as int));
    (string_of(out.as_slice()), hits.len())
}


/// `f` gives the same answer every time it is asked about the same line.
pub open spec fn deterministic<F: Fn(usize) -> Option<String>>(f: F) -> bool {
    forall|i: usize, a: Option<String>, b: Option<String>|
        #![trigger call_ensures(f, (i,), a), call_ensures(f, (i,), b)]
        call_ensures(f, (i,), a) && call_ensures(f, (i,), b) ==> a == b
}

/// What `f` answers for line `i`.
pub open spec fn fetch<F: Fn(usize) -> Option<String>>(f: F, i: usize) -> Option<String> {
    choose|r: Option<String>| call_ensures(f, (i,), r)
}

/// The matches on line `i` as `f` gives it (none when `f` has no text for it).
pub open spec fn hits_of_line<F: Fn(usize) -> Option<String>>(f: F, i: usize, needle: Seq<char>, opts: FindOptions, delim: Option<u8>) -> Seq<(usize, usize)> {
    match fetch(f, i) {
        Some(t) => scoped_hits_of(t@, needle, opts, delim),
        None => seq![],
    }
}

/// Scanning the hits of one line forward: on the first visit of the start
/// line only columns after `from_col` count; on the final (wrapped) visit
/// the scan stops at the first column past `from_col`.
pub open spec fn pick_forward(hits: Seq<(usize, usize)>, k: int, first: bool, last: bool, from_col: usize) -> Option<(usize, usize)>
    decreases hits.len() - k,
{
    if k < 0 || k >= hits.len() {
        None
    } else if first && hits[k].0 <= from_col {
        pick_forward(hits, k + 1, first, last, from_col)
    } else if last && hits[k].0 > from_col {
        None
    } else {
        Some(hits[k])
    }
}

/// Scanning the hits of one line backward, mirrored.
pub open spec fn pick_backward(hits: Seq<(usize, usize)>, k: int, first: bool, last: bool, from_col: usize) -> Option<(usize, usize)>
    decreases k + 1,
{
    if k < 0 || k >= hits.len() {
        None
    } else if first && hits[k].0 >= from_col {
        pick_backward(hits, k - 1, first, last, from_col)
    } else if last && hits[k].0 < from_col {
        None
    } else {
        Some(hits[k])
    }
}

/// The start line: `from.line` clamped to the document.
pub open spec fn start_line(line_count: usize, from: TextPos) -> usize {
    if from.line < line_count { from.line } else { (line_count - 1) as usize }
}

/// The next match visiting lines `start+step, start+step+1, …` (wrapping),
/// `line_count + 1` visits in all so the start line is seen twice.
pub open spec fn next_from<F: Fn(usize) -> Option<String>>(line_count: usize, from: TextPos, needle: Seq<char>, opts: FindOptions, delim: Option<u8>, f: F, step: int) -> Option<Match>
    decreases line_count + 1 - step,
{
    if step < 0 || step > line_count || line_count == 0 {
        None
    } else {
        let line = ((start_line(line_count, from) + step) % (line_count as int)) as usize;
        match pick_forward(hits_of_line(f, line, needle, opts, delim), 0, step == 0, step == line_count, from.col) {
            Some(h) => Some(Match { line, col: h.0, len: h.1 }),
            None => next_from(line_count, from, needle, opts, delim, f, step + 1),
        }
    }
}

/// The previous match visiting lines `start-step` (wrapping), mirrored.
pub open spec fn prev_from<F: Fn(usize) -> Option<String>>(line_count: usize, from: TextPos, needle: Seq<char>, opts: FindOptions, delim: Option<u8>, f: F, step: int) -> Option<Match>
    decreases line_count + 1 - step,
{
    if step < 0 || step > line_count || line_count == 0 {
        None
    } else {
        let line = ((start_line(line_count, from) + line_count - step % (line_count as int)) % (line_count as int)) as usize;
        let hits = hits_of_line(f, line, needle, opts, delim);
        match pick_backward(hits, hits.len() - 1, step == 0, step == line_count, from.col) {
            Some(h) => Some(Match { line, col: h.0, len: h.1 }),
            None => prev_from(line_count, from, needle, opts, delim, f, step + 1),
        }
    }
}

fn pick_fwd(hits: &Vec<(usize, usize)>, first: bool, last: bool, from_col: usize) -> (r: Option<(usize, usize)>)
    ensures
        r == pick_forward(hits@, 0, first, last, from_col),
{
    let mut k: usize = 0;
    while k < hits.len()
        invariant
            0 <= k <= hits@.len(),
            pick_forward(hits@, 0, first, last, from_col) == pick_forward(hits@, k as int, first, last, from_col),
        decreases hits.len() - k,
    {
        let (c, l) = hits[k];
        if first && c <= from_col {
            k += 1;
            continue;
        }
        if last && c > from_col {
            return None;
        }
        return Some((c, l));
    }
    None
}

fn pick_bwd(hits: &Vec<(usize, usize)>, first: bool, last: bool, from_col: usize) -> (r: Option<(usize, usize)>)
    ensures
        r == pick_backward(hits@, hits@.len() - 1, first, last, from_col),
{
    let mut k: usize = hits.len();
    while k > 0
        invariant
            0 <= k <= hits@.len(),
            pick_backward(hits@, hits@.len() - 1, first, last, from_col) == pick_backward(hits@, k - 1, first, last, from_col),
        decreases k,
    {
        let (c, l) = hits[k - 1];
        if first && c >= from_col {
            k -= 1;
            continue;
        }
        if last && c < from_col {
            return None;
        }
        return Some((c, l));
    }
    None
}

proof fn lemma_fetch(f: impl Fn(usize) -> Option<String>, i: usize, r: Option<String>)
    requires
        deterministic(f),
        call_ensures(f, (i,), r),
    ensures
        fetch(f, i) == r,
{
    let c = fetch(f, i);
    assert(call_ensures(f, (i,), c));
}

/// The first match after `from`, going forward through the document and
/// wrapping round once (ending at `from` itself, so a lone match finds
/// itself again). Lines for which `get_line` has no text are skipped; a
/// `from` past the end counts from the last line. Nothing is found in an
/// empty document or for an empty needle. When `get_line` answers each line
/// the same way every time, the result is exactly the first such match
/// (`next_from`), whatever the scope. `get_line` is asked only about lines
/// below `line_count`, and not at all for an empty needle (the only calls
/// its `requires` must allow).
pub fn find_next(
    line_count: usize,
    from: TextPos,
    needle: &str,
    opts: &FindOptions,
    delim: Option<u8>,
    get_line: impl Fn(usize) -> Option<String>,
) -> (r: Option<Match>)
    requires
        needle@.len() > 0 ==> forall|i: usize| i < line_count ==> call_requires(get_line, (i,)),
    ensures
        (line_count == 0 || needle@.len() == 0) ==> r is None,
        r matches Some(m) ==> m.line < line_count,
        deterministic(get_line) && line_count > 0 && needle@.len() > 0
            ==> r == next_from(line_count, from, needle@, *opts, delim, get_line, 0),
{
    if line_count == 0 || needle.is_empty() {
        return None;
    }
    let start = if from.line < line_count { from.line } else { line_count - 1 };
    let mut step: u128 = 0;
    while step <= line_count as u128
        invariant
            line_count > 0,
            needle@.len() > 0,
            start == start_line(line_count, from),
            0 <= step <= line_count + 1,
            forall|i: usize| i < line_count ==> call_requires(get_line, (i,)),
            deterministic(get_line)
                ==> next_from(line_count, from, needle@, *opts, delim, get_line, 0)
                    == next_from(line_count, from, needle@, *opts, delim, get_line, step as int),
        decreases line_count + 1 - step,
    {
        let line = ((start as u128 + step) % (line_count as u128)) as usize;
        assert(line == ((start + step) % (line_count as int)) as usize);
        let text = get_line(line);
        proof {
            if deterministic(get_line) {
                lemma_fetch(get_line, line, text);
            }
        }
        match text {
            None => {
                step += 1;
                continue;
            },
            Some(t) => {
                let hits = find_in_line_scoped(t.as_str(), needle, opts, delim);
                let picked = pick_fwd(&hits, step == 0, step == line_count as u128, from.col);
                match picked {
                    Some((c, l)) => {
                        return Some(Match { line, col: c, len: l });
                    },
                    None => {
                        step += 1;
                    },
                }
            },
        }
    }
    None
}

/// The last match before `from`, going backward and wrapping round once,
/// mirroring `find_next` (`get_line` is asked only about lines below
/// `line_count`, and not at all for an empty needle).
pub fn find_prev(
    line_count: usize,
    from: TextPos,
    needle: &str,
    opts: &FindOptions,
    delim: Option<u8>,
    get_line: impl Fn(usize) -> Option<String>,
) -> (r: Option<Match>)
    requires
        needle@.len() > 0 ==> forall|i: usize| i < line_count ==> call_requires(get_line, (i,)),
    ensures
        (line_count == 0 || needle@.len() == 0) ==> r is None,
        r matches Some(m) ==> m.line < line_count,
        deterministic(get_line) && line_count > 0 && needle@.len() > 0
            ==> r == prev_from(line_count, from, needle@, *opts, delim, get_line, 0),
{
    if line_count == 0 || needle.is_empty() {
        return None;
    }
    let start = if from.line < line_count { from.line } else { line_count - 1 };
    let mut step: u128 = 0;
    while step <= line_count as u128
        invariant
            line_count > 0,
            needle@.len() > 0,
            start == start_line(line_count, from),
            0 <= step <= line_count + 1,
            forall|i: usize| i < line_count ==> call_requires(get_line, (i,)),
            deterministic(get_line)
                ==> prev_from(line_count, from, needle@, *opts, delim, get_line, 0)
                    == prev_from(line_count, from, needle@, *opts, delim, get_line, step as int),
        decreases line_count + 1 - step,
    {
        let back = (step % (line_count as u128)) as usize;
        let line = if start >= back { start - back } else { start + (line_count - back) };
        assert(line == ((start + line_count - (step as int) % (line_count as int)) % (line_count as int)) as usize) by (nonlinear_arith)
            requires
                back == (step as int) % (line_count as int),
                line_count > 0,
                start < line_count,
                line == (if start >= back { start - back } else { start + (line_count - back) });
        let text = get_line(line);
        proof {
            if deterministic(get_line) {
                lemma_fetch(get_line, line, text);
            }
        }
        match text {
            None => {
                step += 1;
                continue;
            },
            Some(t) => {
                let hits = find_in_line_scoped(t.as_str(), needle, opts, delim);
                let picked = pick_bwd(&hits, step == 0, step == line_count as u128, from.col);
                match picked {
                    Some((c, l)) => {
                        return Some(Match { line, col: c, len: l });
                    },
                    None => {
                        step += 1;
                    },
                }
            },
        }
    }
    None
}

/// The lines `0..line_count` with at least one match (each listed once, in
/// order); lines without text are skipped. When `get_line` is
/// deterministic, these are exactly the lines whose text has a scoped match.
/// `get_line` is asked only about lines below `line_count`, and not at all
/// for an empty needle.
pub fn matching_lines(
    line_count: usize,
    needle: &str,
    opts: &FindOptions,
    delim: Option<u8>,
    get_line: impl Fn(usize) -> Option<String>,
) -> (out: Vec<usize>)
    requires
        needle@.len() > 0 ==> forall|i: usize| i < line_count ==> call_requires(get_line, (i,)),
    ensures
        needle@.len() == 0 ==> out@.len() == 0,
        forall|k: int, j: int| 0 <= k < j < out@.len() ==> out@[k] < out@[j],
        forall|k: int| 0 <= k < out@.len() ==> out@[k] < line_count,
        deterministic(get_line) && needle@.len() > 0 ==>
            forall|i: usize| i < line_count ==> (out@.contains(i) <==> hits_of_line(get_line, i, needle@, *opts, delim).len() > 0),
{
    let mut out: Vec<usize> = Vec::new();
    if needle.is_empty() {
        return out;
    }
    let mut i: usize = 0;
    while i < line_count
        invariant
            0 <= i <= line_count,
            needle@.len() > 0,
            forall|q: usize| q < line_count ==> call_requires(get_line, (q,)),
            forall|k: int, j: int| 0 <= k < j < out@.len() ==> out@[k] < out@[j],
            forall|k: int| 0 <= k < out@.len() ==> out@[k] < i,
            deterministic(get_line) ==>
                forall|q: usize| q < i ==> (out@.contains(q) <==> hits_of_line(get_line, q, needle@, *opts, delim).len() > 0),
        decreases line_count - i,
    {
        let text = get_line(i);
        proof {
            if deterministic(get_line) {
                lemma_fetch(get_line, i, text);
            }
        }
        let ghost prev = out@;
        let ghost mut found = false;
        match text {
            None => {
                proof {
                    if deterministic(get_line) {
                        assert(hits_of_line(get_line, i, needle@, *opts, delim) =~= Seq::<(usize, usize)>::empty());
                    }
                }
            },
            Some(t) => {
                let hits = find_in_line_scoped(t.as_str(), needle, opts, delim);
                if hits.len() > 0 {
                    out.push(i);
                    proof { found = true; }
                }
                proof {
                    if deterministic(get_line) {
                        assert(hits_of_line(get_line, i, needle@, *opts, delim) == hits@);
                    }
                }
            },
        }
        proof {
            assert(found == (out@.len() > prev.len()));
            if deterministic(get_line) {
                assert(found == (hits_of_line(get_line, i, needle@, *opts, delim).len() > 0));
            }
            assert forall|q: usize| q <= i implies (out@.contains(q) <==> (prev.contains(q) || (q == i && out@.len() > prev.len()))) by {
                if out@.len() > prev.len() {
                    assert(out@ == prev.push(i));
                    if out@.contains(q) {
                        let k = choose|k: int| 0 <= k < out@.len() && out@[k] == q;
                        if k < prev.len() { assert(prev[k] == q); }
                    }
                    if prev.contains(q) {
                        let k = choose|k: int| 0 <= k < prev.len() && prev[k] == q;
                        assert(out@[k] == q);
                    }
                    if q == i { assert(out@[prev.len() as int] == i); }
                }
            }
            if prev.contains(i) {
                let k = choose|k: int| 0 <= k < prev.len() && prev[k] == i;
                assert(prev[k] < i);
            }
            if deterministic(get_line) {
                assert forall|q: usize| q < i + 1 implies (out@.contains(q) <==> hits_of_line(get_line, q, needle@, *opts, delim).len() > 0) by {
                    if q < i {
                        assert(out@.contains(q) <==> prev.contains(q));
                    }
                }
            }
        }
        i += 1;
    }
    out
}

/// What `unescape` makes of `s`, read from the front: `\\t` is a tab, `\\\\` one
/// backslash, `\\x` with exactly two hex digits the character of that code
/// (U+0000 to U+00FF); any other backslash stays as it is.
pub open spec fn unesc(s: Seq<char>) -> Seq<char>
    decreases s.len(),
{
    if s.len() == 0 {
        seq![]
    } else if s[0] != '\\' {
        seq![s[0]] + unesc(s.drop_first())
    } else if s.len() >= 2 && s[1] == 't' {
        seq!['\t'] + unesc(s.skip(2))
    } else if s.len() >= 2 && s[1] == '\\' {
        seq!['\\'] + unesc(s.skip(2))
    } else if s.len() >= 4 && s[1] == 'x' && hex_value(s[2]) is Some && hex_value(s[3]) is Some {
        seq![((16 * hex_value(s[2])->0 + hex_value(s[3])->0) as u8) as char] + unesc(s.skip(4))
    } else {
        seq!['\\'] + unesc(s.drop_first())
    }
}

/// Text without a backslash is its own unescaping.
proof fn lemma_unesc_plain(s: Seq<char>)
    requires
        !s.contains('\\'),
    ensures
        unesc(s) == s,
    decreases s.len(),
{
    if s.len() > 0 {
        let t = s.drop_first();
        assert(!t.contains('\\')) by {
            if t.contains('\\') {
                let k = choose|k: int| 0 <= k < t.len() && t[k] == '\\';
                assert(s[k + 1] == '\\');
            }
        }
        assert(s[0] != '\\') by {
            if s[0] == '\\' {
                assert(s.contains('\\'));
            }
        }
        lemma_unesc_plain(t);
        assert(s =~= seq![s[0]] + t);
    }
}

/// Resolves the escapes of the find and replace boxes: `\\t` (tab, which
/// the box cannot take as a key), `\\\\` (backslash) and `\\xNN` (the
/// character with hexadecimal code `NN`, exactly two digits, either case).
/// Anything else after a backslash, and a final lone backslash, stays as
/// typed. A text without a backslash (`memchr`) is returned as it is.
pub fn unescape(s: &str) -> (r: String)
    ensures
        r@ == unesc(s@),
{
    let bytes = s.as_bytes();
    if memchr_find(92u8, bytes).is_none() {
        proof {
            lemma_ascii_byte_in_utf8(s@, 92u8);
            assert(bytes@ == encode_utf8(s@));
            assert(!encode_utf8(s@).contains(92u8));
            lemma_unesc_plain(s@);
        }
        return s.to_owned();
    }
    let cs = chars_of(s);
    let n = cs.len();
    let mut out: Vec<char> = Vec::new();
    let mut i: usize = 0;
    assert(cs@.skip(0) =~= cs@);
    while i < n
        invariant
            n == cs@.len(),
            cs@ == s@,
            0 <= i <= n,
            unesc(cs@) == out@ + unesc(cs@.skip(i as int)),
        decreases n - i,
    {
        let ghost t = cs@.skip(i as int);
        let c = cs[i];
        assert(t[0] == c);
        if c != '\\' {
            out.push(c);
            assert(t.drop_first() =~= cs@.skip(i + 1));
            i += 1;
        } else if i + 1 < n && cs[i + 1] == 't' {
            assert(t[1] == 't');
            out.push('\t');
            assert(t.skip(2) =~= cs@.skip(i + 2));
            i += 2;
        } else if i + 1 < n && cs[i + 1] == '\\' {
            assert(t[1] == '\\');
            out.push('\\');
            assert(t.skip(2) =~= cs@.skip(i + 2));
            i += 2;
        } else {
            let mut decoded: Option<char> = None;
            if n - i > 3 && cs[i + 1] == 'x' {
                let h1 = hex_digit_value(cs[i + 2]);
                let h2 = hex_digit_value(cs[i + 3]);
                match (h1, h2) {
                    (Some(a), Some(b)) => {
                        let v: u8 = a * 16 + b;
                        decoded = Some(v as char);
                    },
                    _ => {},
                }
            }
            match decoded {
                Some(ch) => {
                    assert(t[1] == 'x' && t[2] == cs@[i + 2] && t[3] == cs@[i + 3]);
                    out.push(ch);
                    assert(t.skip(4) =~= cs@.skip(i + 4));
                    i += 4;
                },
                None => {
                    proof {
                        if t.len() >= 4 && t[1] == 'x' {
                            assert(t[2] == cs@[i + 2] && t[3] == cs@[i + 3]);
                        }
                        if t.len() >= 2 {
                            assert(t[1] == cs@[i + 1]);
                        }
                    }
                    out.push('\\');
                    assert(t.drop_first() =~= cs@.skip(i + 1));
                    i += 1;
                },
            }
        }
        assert(unesc(cs@) == out@ + unesc(cs@.skip(i as int)));
    }
    assert(cs@.skip(n as int) =~= Seq::<char>::empty());
    assert(out@ + Seq::<char>::empty() =~= out@);
    string_of(out.as_slice())
}

/// A character the byte path folds as the Unicode path does: ASCII, or one
/// that neither lowering nor uppercasing changes. U+0307 is excluded: it is a
/// piece of the lowering of U+0130, so a text holding it may match a
/// U+0130 of the document that bytes cannot see.
pub open spec fn byte_foldable(c: char) -> bool {
    c != '\u{0307}' && ((c as u32) < 128 || (char_lower(c) == seq![c] && char_upper(c) == seq![c]))
}

/// Every character of `q` is `byte_foldable`.
pub open spec fn spec_foldable_by_bytes(q: Seq<char>) -> bool {
    forall|i: int| 0 <= i < q.len() ==> byte_foldable(#[trigger] q[i])
}

/// Whether ignoring case by folding ASCII bytes gives the same answer as
/// Unicode folding for this query, character by character (see
/// `byte_foldable`). The empty query qualifies.
pub fn query_is_case_foldable_by_bytes(query: &str) -> (r: bool)
    ensures
        r == spec_foldable_by_bytes(query@),
{
    let cs = chars_of(query);
    let mut i: usize = 0;
    while i < cs.len()
        invariant
            cs@ == query@,
            0 <= i <= cs@.len(),
            forall|k: int| 0 <= k < i ==> byte_foldable(#[trigger] cs@[k]),
        decreases cs.len() - i,
    {
        let c = cs[i];
        if c == '\u{0307}' {
            assert(!byte_foldable(cs@[i as int]));
            return false;
        }
        if (c as u32) >= 128 {
            let lo = lower_chars(c);
            let up = upper_chars(c);
            let same = lo.len() == 1 && lo[0] == c && up.len() == 1 && up[0] == c;
            if !same {
                proof {
                    if char_lower(c) == seq![c] && char_upper(c) == seq![c] {
                        assert(lo@ == seq![c]);
                        assert(up@ == seq![c]);
                    }
                }
                assert(!byte_foldable(cs@[i as int]));
                return false;
            }
            assert(lo@ =~= seq![c]);
            assert(up@ =~= seq![c]);
        }
        i += 1;
    }
    true
}

/// Byte folding is exact for a replacement with this needle: always when
/// case matters; otherwise when the needle is `byte_foldable` throughout and
/// holds no `k` or `K`, which U+212A (KELVIN SIGN) lowers to.
pub open spec fn spec_bytefold_exact(needle: Seq<char>, match_case: bool) -> bool {
    match_case || (spec_foldable_by_bytes(needle) && !needle.contains('k') && !needle.contains('K'))
}

/// Whether a replacement may compare bytes, ASCII-folded, in place of
/// Unicode folding (see `spec_bytefold_exact`).
pub fn needle_is_bytefold_exact(needle: &str, match_case: bool) -> (r: bool)
    ensures
        r == spec_bytefold_exact(needle@, match_case),
{
    if match_case {
        return true;
    }
    if !query_is_case_foldable_by_bytes(needle) {
        return false;
    }
    let cs = chars_of(needle);
    let mut i: usize = 0;
    while i < cs.len()
        invariant
            cs@ == needle@,
            !match_case,
            spec_foldable_by_bytes(needle@),
            0 <= i <= cs@.len(),
            forall|k: int| 0 <= k < i ==> cs@[k] != 'k' && cs@[k] != 'K',
        decreases cs.len() - i,
    {
        if cs[i] == 'k' || cs[i] == 'K' {
            proof {
                if cs@[i as int] == 'k' {
                    assert(needle@[i as int] == 'k');
                    assert(needle@.contains('k'));
                } else {
                    assert(needle@[i as int] == 'K');
                    assert(needle@.contains('K'));
                }
            }
            return false;
        }
        i += 1;
    }
    true
}

/// An ASCII upper-case letter lowered; any other byte as it is.
pub open spec fn byte_lower(b: u8) -> u8 {
    if 65 <= b <= 90 { (b + 32) as u8 } else { b }
}

/// Lowers one byte if it is an ASCII capital; other bytes (digits, symbols,
/// bytes of multi-byte characters) stay.
pub fn ascii_lower(b: u8) -> (r: u8)
    ensures
        r == byte_lower(b),
{
    if 65 <= b && b <= 90 { b + 32 } else { b }
}

/// The upper-case partner of a lower-case ASCII letter; any other byte itself.
pub open spec fn byte_upper_of(b: u8) -> u8 {
    if 97 <= b <= 122 { (b - 32) as u8 } else { b }
}

/// `needle_lower` occurs at `i` of `hay`, ignoring ASCII case: the first
/// byte equals the needle's first byte or its upper-case partner, and every
/// later byte, lowered, equals the needle's byte.
pub open spec fn ci_match_at(hay: Seq<u8>, needle_lower: Seq<u8>, i: int) -> bool {
    &&& needle_lower.len() > 0
    &&& 0 <= i
    &&& i + needle_lower.len() <= hay.len()
    &&& (hay[i] == needle_lower[0] || hay[i] == byte_upper_of(needle_lower[0]))
    &&& forall|k: int| 1 <= k < needle_lower.len() ==> byte_lower(#[trigger] hay[i + k]) == needle_lower[k]
}

/// The first position `i >= from` where `needle_lower` (already lowered by
/// the caller) occurs in `hay` ignoring ASCII case; the first byte is found
/// with `memchr`/`memchr2`. Bytes from 0x80 up compare as they are.
pub fn find_ci_ascii_from(hay: &[u8], needle_lower: &[u8], from: usize) -> (r: Option<usize>)
    ensures
        match r {
            Some(i) => from <= i && ci_match_at(hay@, needle_lower@, i as int)
                && forall|j: int| from <= j < i ==> !ci_match_at(hay@, needle_lower@, j),
            None => forall|j: int| from <= j ==> !ci_match_at(hay@, needle_lower@, j),
        },
{
    let n = needle_lower.len();
    let len = hay.len();
    if n == 0 || len < n || from > len - n {
        return None;
    }
    let lo = needle_lower[0];
    let up = if 97 <= lo && lo <= 122 { lo - 32 } else { lo };
    let mut start = from;
    while start <= len - n
        invariant
            n == needle_lower@.len() > 0,
            len == hay@.len() >= n,
            lo == needle_lower@[0],
            up == byte_upper_of(lo),
            from <= start,
            forall|j: int| from <= j < start ==> !ci_match_at(hay@, needle_lower@, j),
        decreases len - start,
    {
        let rest = vstd::slice::slice_subrange(hay, start, len);
        let pos = if lo == up { memchr_find(lo, rest) } else { memchr2_find(lo, up, rest) };
        let p = match pos {
            Some(p) => p,
            None => {
                assert forall|j: int| from <= j implies !ci_match_at(hay@, needle_lower@, j) by {
                    if j >= start && ci_match_at(hay@, needle_lower@, j) {
                        assert(rest@[j - start] == hay@[j]);
                    }
                }
                return None;
            },
        };
        let i = start + p;
        assert(rest@[p as int] == hay@[i as int]);
        assert forall|j: int| from <= j < i implies !ci_match_at(hay@, needle_lower@, j) by {
            if j >= start && ci_match_at(hay@, needle_lower@, j) {
                assert(rest@[j - start] == hay@[j]);
            }
        }
        if i > len - n {
            assert forall|j: int| from <= j implies !ci_match_at(hay@, needle_lower@, j) by {
                if j >= i {
                    assert(j + n > len);
                }
            }
            return None;
        }
        let mut k: usize = 1;
        let mut ok = true;
        while k < n
            invariant
                n == needle_lower@.len(),
                len == hay@.len(),
                i + n <= len,
                1 <= k <= n,
                ok ==> forall|m: int| 1 <= m < k ==> byte_lower(#[trigger] hay@[i + m]) == needle_lower@[m],
                !ok ==> exists|m: int| 1 <= m < n && byte_lower(#[trigger] hay@[i + m]) != needle_lower@[m],
            decreases n - k,
        {
            if ascii_lower(hay[i + k]) != needle_lower[k] {
                ok = false;
                assert(byte_lower(hay@[i + k]) != needle_lower@[k as int]);
            }
            k += 1;
        }
        if ok {
            return Some(i);
        }
        start = i + 1;
    }
    None
}

/// `find_ci_ascii_from` from the start of `hay`.
pub fn find_ci_ascii(hay: &[u8], needle_lower: &[u8]) -> (r: Option<usize>)
    ensures
        match r {
            Some(i) => ci_match_at(hay@, needle_lower@, i as int)
                && forall|j: int| 0 <= j < i ==> !ci_match_at(hay@, needle_lower@, j),
            None => forall|j: int| 0 <= j ==> !ci_match_at(hay@, needle_lower@, j),
        },
{
    find_ci_ascii_from(hay, needle_lower, 0)
}

/// A cell equals the needle: exactly when case matters, after lowering ASCII
/// letters otherwise.
pub open spec fn cell_equals(cell: Seq<char>, needle: Seq<char>, match_case: bool) -> bool {
    if match_case {
        cell == needle
    } else {
        crate::parse::ascii_lower(cell) == crate::parse::ascii_lower(needle)
    }
}

/// The cells with every cell equal to the needle replaced by `rep`.
pub open spec fn replaced_cells(cells: Seq<Seq<char>>, needle: Seq<char>, rep: Seq<char>, match_case: bool) -> Seq<Seq<char>> {
    cells.map_values(|c: Seq<char>| if cell_equals(c, needle, match_case) { rep } else { c })
}

/// How many of the cells equal the needle.
pub open spec fn equal_cells(cells: Seq<Seq<char>>, needle: Seq<char>, match_case: bool) -> nat
    decreases cells.len(),
{
    if cells.len() == 0 {
        0
    } else {
        equal_cells(cells.drop_last(), needle, match_case) + if cell_equals(cells.last(), needle, match_case) { 1nat } else { 0nat }
    }
}

/// A line with neither a quote nor a line break, and not starting with a
/// byte-order mark (which the CSV reader drops): its cells are exactly its
/// pieces between delimiters, as CSV reads them.
pub open spec fn plain_line(line: Seq<char>) -> bool {
    !line.contains('"') && !line.contains('\r') && !line.contains('\n') && !(line.len() > 0 && line[0] == '\u{FEFF}')
}

/// Whether the bytes start with the UTF-8 byte-order mark.
fn starts_with_bom(b: &[u8]) -> (r: bool)
    ensures
        r == crate::parse::has_utf8_bom(b@),
{
    b.len() >= 3 && b[0] == 0xEFu8 && b[1] == 0xBBu8 && b[2] == 0xBFu8
}

/// Whether two character sequences are equal after lowering ASCII letters.
fn same_ascii_folded(a: &[char], b: &[char]) -> (r: bool)
    ensures
        r == (crate::parse::ascii_lower(a@) == crate::parse::ascii_lower(b@)),
{
    if a.len() != b.len() {
        proof {
            if crate::parse::ascii_lower(a@) == crate::parse::ascii_lower(b@) {
                assert(crate::parse::ascii_lower(a@).len() == a@.len());
            }
        }
        return false;
    }
    let mut i: usize = 0;
    while i < a.len()
        invariant
            a@.len() == b@.len(),
            0 <= i <= a@.len(),
            forall|k: int| 0 <= k < i ==> crate::parse::ascii_lower(a@)[k] == crate::parse::ascii_lower(b@)[k],
        decreases a.len() - i,
    {
        let x = a[i];
        let y = b[i];
        let lx = if 'A' <= x && x <= 'Z' { ((x as u32) + 32) as u8 as char } else { x };
        let ly = if 'A' <= y && y <= 'Z' { ((y as u32) + 32) as u8 as char } else { y };
        assert(lx == crate::parse::ascii_lower(a@)[i as int]);
        assert(ly == crate::parse::ascii_lower(b@)[i as int]);
        if lx != ly {
            return false;
        }
        i += 1;
    }
    assert(crate::parse::ascii_lower(a@) =~= crate::parse::ascii_lower(b@));
    true
}

/// Whole-cell replacement on the bytes of a line, for a table with an ASCII
/// delimiter: every cell equal to `needle` becomes `rep`, the delimiters
/// stay, and the count of cells replaced comes back. It declines (`None`)
/// where the cells as shown could differ from the pieces between
/// delimiters, a quote or a lone line break in the line (found with
/// `memchr`), and where ASCII folding could differ from Unicode folding
/// (`needle_is_bytefold_exact`).
pub fn replace_cells_bytes(line: &str, needle: &str, rep: &str, delim: u8, match_case: bool) -> (r: Option<(String, usize)>)
    requires
        delim < 128,
    ensures
        r is None <==> !plain_line(line@) || !spec_bytefold_exact(needle@, match_case),
        r matches Some((t, n)) ==> {
            let cells = split_by(line@, delim as char);
            &&& t@ == join_with(replaced_cells(cells, needle@, rep@, match_case), delim as char)
            &&& n == equal_cells(cells, needle@, match_case)
        },
{
    let lb = line.as_bytes();
    proof {
        assert(lb@ == encode_utf8(line@));
        lemma_ascii_byte_in_utf8(line@, 34u8);
        lemma_ascii_byte_in_utf8(line@, 13u8);
        lemma_ascii_byte_in_utf8(line@, 10u8);
    }
    match memchr_find(34u8, lb) {
        Some(i) => {
            assert(lb@[i as int] == 34u8);
            assert(encode_utf8(line@).contains(34u8));
            assert(line@.contains(34u8 as char));
            return None;
        },
        None => {},
    }
    match memchr2_find(13u8, 10u8, lb) {
        Some(i) => {
            proof {
                if lb@[i as int] == 13u8 {
                    assert(encode_utf8(line@).contains(13u8));
                    assert(line@.contains(13u8 as char));
                } else {
                    assert(encode_utf8(line@).contains(10u8));
                    assert(line@.contains(10u8 as char));
                }
            }
            return None;
        },
        None => {},
    }
    proof { crate::roundtrip::lemma_bom_bytes_iff(line@); }
    if starts_with_bom(lb) {
        return None;
    }
    assert(!encode_utf8(line@).contains(34u8));
    assert(!encode_utf8(line@).contains(13u8));
    assert(!encode_utf8(line@).contains(10u8));
    assert(plain_line(line@));
    if !needle_is_bytefold_exact(needle, match_case) {
        return None;
    }
    let d = delim as char;
    let cs = chars_of(line);
    let nc = chars_of(needle);
    let rc = chars_of(rep);
    let cells = split_on(cs.as_slice(), d);
    let ghost cv = cviews(cells@);
    let ghost outc = replaced_cells(cv, needle@, rep@, match_case);
    let mut out: Vec<char> = Vec::new();
    let mut count: usize = 0;
    let mut k: usize = 0;
    assert(outc.take(0) =~= Seq::<Seq<char>>::empty());
    while k < cells.len()
        invariant
            cv == cviews(cells@),
            cv == split_by(line@, d),
            d == delim as char,
            nc@ == needle@,
            rc@ == rep@,
            outc == replaced_cells(cv, needle@, rep@, match_case),
            0 <= k <= cells@.len(),
            out@ == join_with(outc.take(k as int), d),
            count == equal_cells(cv.take(k as int), needle@, match_case),
            count <= k,
        decreases cells.len() - k,
    {
        let cell = &cells[k];
        assert(cell@ == cv[k as int]);
        let hit = if match_case { same_text(cell.as_slice(), nc.as_slice()) } else { same_ascii_folded(cell.as_slice(), nc.as_slice()) };
        assert(hit == cell_equals(cv[k as int], needle@, match_case));
        proof { lemma_join_with_step(outc, k as int, d); }
        if k > 0 {
            out.push(d);
        }
        let piece: &[char] = if hit { rc.as_slice() } else { cell.as_slice() };
        assert(piece@ == outc[k as int]);
        let ghost before = out@;
        let plen = piece.len();
        extend_chars(&mut out, piece, 0, plen);
        assert(piece@.subrange(0, plen as int) =~= piece@);
        assert(cv.take(k + 1).drop_last() =~= cv.take(k as int));
        if hit {
            count = count + 1;
        }
        k += 1;
    }
    assert(outc.take(cells@.len() as int) =~= outc);
    assert(cv.take(cells@.len() as int) =~= cv);
    let t = string_of(out.as_slice());
    Some((t, count))
}

/// How the replace-all prefilter searches a row's bytes: decided once per
/// call from the needle and the options.
pub enum Prefilter {
    /// Case matters: the needle's bytes, searched with `memmem`.
    Exact(Vec<u8>),
    /// Case ignored and byte folding exact: the needle's bytes ASCII-lowered,
    /// searched with `find_ci_ascii`.
    CaseFold(Vec<u8>),
    /// No prefilter: every row goes through.
    Off,
}

/// The prefilter may skip a row with bytes `b`: the needle cannot occur in
/// it. When `quote_sensitive` (whole-cell scope) a row with a quote, a line
/// break or a leading byte-order mark is never skipped, since its cells as
/// shown differ from its bytes.
pub open spec fn prefilter_skips(pre: Prefilter, b: Seq<u8>, quote_sensitive: bool) -> bool {
    if quote_sensitive && (b.contains(34u8) || b.contains(13u8) || b.contains(10u8) || crate::parse::has_utf8_bom(b)) {
        false
    } else {
        match pre {
            Prefilter::Exact(nb) => forall|j: int| !occurs_at(b, nb@, j),
            Prefilter::CaseFold(nl) => forall|j: int| !ci_match_at(b, nl@, j),
            Prefilter::Off => false,
        }
    }
}

/// Whether a row can be skipped by the prefilter (see `prefilter_skips`).
pub fn replace_row_can_skip(line: &str, pre: &Prefilter, quote_sensitive: bool) -> (r: bool)
    ensures
        r == prefilter_skips(*pre, encode_utf8(line@), quote_sensitive),
{
    let lb = line.as_bytes();
    assert(lb@ == encode_utf8(line@));
    if quote_sensitive {
        match memchr_find(34u8, lb) {
            Some(i) => {
                assert(lb@[i as int] == 34u8);
                return false;
            },
            None => {},
        }
        match memchr2_find(13u8, 10u8, lb) {
            Some(i) => {
                assert(lb@[i as int] == 13u8 || lb@[i as int] == 10u8);
                return false;
            },
            None => {},
        }
        if starts_with_bom(lb) {
            return false;
        }
    }
    match pre {
        Prefilter::Exact(nb) => memmem_find(lb, nb.as_slice()).is_none(),
        Prefilter::CaseFold(nl) => find_ci_ascii(lb, nl.as_slice()).is_none(),
        Prefilter::Off => false,
    }
}

/// The bytes ASCII-lowered.
pub open spec fn lowered_bytes(b: Seq<u8>) -> Seq<u8> {
    b.map_values(|x: u8| byte_lower(x))
}

/// `pre` is the prefilter for this needle: its bytes when case matters, its
/// bytes lowered when byte folding is exact, none otherwise.
pub open spec fn pre_matches(pre: Prefilter, needle: Seq<char>, match_case: bool) -> bool {
    match pre {
        Prefilter::Exact(v) => match_case && v@ == encode_utf8(needle),
        Prefilter::CaseFold(v) => !match_case && spec_bytefold_exact(needle, false) && v@ == lowered_bytes(encode_utf8(needle)),
        Prefilter::Off => !match_case && !spec_bytefold_exact(needle, false),
    }
}

/// The prefilter `replace_all` uses for this needle, these options and this
/// delimiter. Whole cells with a non-ASCII delimiter skip no row.
pub open spec fn spec_prefilter_skips(line: Seq<char>, needle: Seq<char>, opts: FindOptions, delim: Option<u8>) -> bool {
    let b = encode_utf8(line);
    let qs = opts.scope == MatchScope::WholeCell;
    if qs && (delim is Some && delim->0 >= 128) {
        false
    } else if qs && (b.contains(34u8) || b.contains(13u8) || b.contains(10u8) || crate::parse::has_utf8_bom(b)) {
        false
    } else if opts.match_case {
        forall|j: int| !occurs_at(b, encode_utf8(needle), j)
    } else if spec_bytefold_exact(needle, false) {
        forall|j: int| !ci_match_at(b, lowered_bytes(encode_utf8(needle)), j)
    } else {
        false
    }
}

/// What replacing in one row gives, `t` with `n` replacements: for whole
/// cells in a table with an ASCII delimiter, on a plain row with a needle
/// that folds exactly, every
/// cell equal to the needle replaced; otherwise what `replace_in_line` gives
/// (the scoped matches, each replaced by the replacement with its line
/// breaks turned into spaces).
pub open spec fn row_outcome(line: Seq<char>, needle: Seq<char>, rep: Seq<char>, opts: FindOptions, delim: Option<u8>, t: Seq<char>, n: nat) -> bool {
    if opts.scope == MatchScope::WholeCell && delim is Some && delim->0 < 128 && plain_line(line)
        && spec_bytefold_exact(needle, opts.match_case) {
        let cells = split_by(line, delim->0 as char);
        &&& t == join_with(replaced_cells(cells, needle, sanitize(rep), opts.match_case), delim->0 as char)
        &&& n == equal_cells(cells, needle, opts.match_case)
    } else {
        exists|hits: Seq<(usize, usize)>| #[trigger] scoped_hits(line, needle, opts, delim, hits)
            && t == splice_from(line, hits, sanitize(rep), 0, 0) && n == hits.len()
    }
}

/// The sum of the counts.
pub open spec fn sum_of(c: Seq<nat>) -> nat
    decreases c.len(),
{
    if c.len() == 0 { 0 } else { sum_of(c.drop_last()) + c.last() }
}

/// Each reported change `(row, text)` is a row of `lines` with `counts[k] > 0`
/// replacements giving `text`.
pub open spec fn changes_explained(
    lines: Seq<String>,
    needle: Seq<char>,
    rep: Seq<char>,
    opts: FindOptions,
    delim: Option<u8>,
    changes: Seq<(usize, String)>,
    counts: Seq<nat>,
) -> bool {
    &&& counts.len() == changes.len()
    &&& forall|k: int| 0 <= k < changes.len() ==> {
        let (i, t) = #[trigger] changes[k];
        &&& i < lines.len()
        &&& counts[k] > 0
        &&& row_outcome(lines[i as int]@, needle, rep, opts, delim, t@, counts[k])
    }
}

/// What `replace_all` gives, `changes` and `total`: nothing for an empty
/// needle; the changed rows in increasing row order, each explained by its
/// count of replacements (`changes_explained`), the total being their sum
/// (saturating); and every row left out is one the prefilter skips or one
/// where replacing finds nothing.
pub open spec fn replace_all_result(
    lines: Seq<String>,
    needle: Seq<char>,
    rep: Seq<char>,
    opts: FindOptions,
    delim: Option<u8>,
    changes: Seq<(usize, String)>,
    total: usize,
) -> bool {
    &&& needle.len() == 0 ==> changes.len() == 0 && total == 0
    &&& forall|a: int, b: int| 0 <= a < b < changes.len() ==> changes[a].0 < changes[b].0
    &&& exists|counts: Seq<nat>| #[trigger] changes_explained(lines, needle, rep, opts, delim, changes, counts)
        && total == (if sum_of(counts) <= usize::MAX { sum_of(counts) } else { usize::MAX as nat })
    &&& needle.len() > 0 ==> forall|i: int| 0 <= i < lines.len() && !crate::convert::listed(changes, i) ==>
        spec_prefilter_skips(lines[i]@, needle, opts, delim)
        || exists|t: Seq<char>| #[trigger] row_outcome(lines[i]@, needle, rep, opts, delim, t, 0)
}

/// Replaces `needle` by `replacement` in every row and reports only the rows
/// that changed, `(row, new text)` in row order, with the total number of
/// replacements (saturating). A row is left out when the prefilter shows the
/// needle cannot occur in it, or when replacing in it found nothing. Whole
/// cells in a table take the byte path (`replace_cells_bytes`) where it
/// applies, and `replace_in_line` otherwise.
pub fn replace_all(
    lines: &[String],
    needle: &str,
    replacement: &str,
    opts: &FindOptions,
    delim: Option<u8>,
) -> (r: (Vec<(usize, String)>, usize))
    ensures
        replace_all_result(lines@, needle@, replacement@, *opts, delim, r.0@, r.1),
{
    let mut changed: Vec<(usize, String)> = Vec::new();
    let ghost mut counts: Seq<nat> = seq![];
    let mut total: usize = 0;
    if needle.is_empty() {
        assert(changes_explained(lines@, needle@, replacement@, *opts, delim, changed@, counts));
        assert(sum_of(counts) == 0);
        assert(total == (if sum_of(counts) <= usize::MAX { sum_of(counts) } else { usize::MAX as nat }));
        let r = (changed, total);
        assert(changes_explained(lines@, needle@, replacement@, *opts, delim, r.0@, counts));
        assert(r.1 == (if sum_of(counts) <= usize::MAX { sum_of(counts) } else { usize::MAX as nat }));
        return r;
    }
    let quote_sensitive = opts.scope == MatchScope::WholeCell;
    let cell_delim: Option<u8> = if quote_sensitive { delim } else { None };
    let wide = match cell_delim {
        Some(d) => d >= 128,
        None => false,
    };
    let rep = sanitize_for_line(replacement);
    let nbytes = needle.as_bytes();
    assert(nbytes@ == encode_utf8(needle@));
    let pre = if opts.match_case {
        let mut v: Vec<u8> = Vec::new();
        let mut j: usize = 0;
        while j < nbytes.len()
            invariant
                0 <= j <= nbytes@.len(),
                v@ == nbytes@.take(j as int),
            decreases nbytes.len() - j,
        {
            v.push(nbytes[j]);
            j += 1;
            assert(v@ =~= nbytes@.take(j as int));
        }
        assert(nbytes@.take(nbytes@.len() as int) =~= nbytes@);
        let p = Prefilter::Exact(v);
        assert(pre_matches(p, needle@, opts.match_case));
        p
    } else if needle_is_bytefold_exact(needle, false) {
        let mut v: Vec<u8> = Vec::new();
        let mut j: usize = 0;
        while j < nbytes.len()
            invariant
                0 <= j <= nbytes@.len(),
                v@ == lowered_bytes(nbytes@.take(j as int)),
            decreases nbytes.len() - j,
        {
            v.push(ascii_lower(nbytes[j]));
            j += 1;
            assert(v@ =~= lowered_bytes(nbytes@.take(j as int)));
        }
        assert(nbytes@.take(nbytes@.len() as int) =~= nbytes@);
        let p = Prefilter::CaseFold(v);
        assert(pre_matches(p, needle@, opts.match_case));
        p
    } else {
        let p = Prefilter::Off;
        assert(pre_matches(p, needle@, opts.match_case));
        p
    };
    proof {
        assert forall|line: Seq<char>| !wide && prefilter_skips(pre, encode_utf8(line), quote_sensitive)
            ==> #[trigger] spec_prefilter_skips(line, needle@, *opts, delim) by {}
    }
    let mut i: usize = 0;
    while i < lines.len()
        invariant
            0 <= i <= lines@.len(),
            needle@.len() > 0,
            quote_sensitive == (opts.scope == MatchScope::WholeCell),
            cell_delim == (if quote_sensitive { delim } else { None::<u8> }),
            wide == (quote_sensitive && delim is Some && delim->0 >= 128),
            rep@ == sanitize(replacement@),
            forall|line: Seq<char>| !wide && prefilter_skips(pre, encode_utf8(line), quote_sensitive)
                ==> #[trigger] spec_prefilter_skips(line, needle@, *opts, delim),
            changes_explained(lines@, needle@, replacement@, *opts, delim, changed@, counts),
            total == (if sum_of(counts) <= usize::MAX { sum_of(counts) } else { usize::MAX as nat }),
            forall|k: int| 0 <= k < changed@.len() ==> changed@[k].0 < i,
            forall|a: int, b: int| 0 <= a < b < changed@.len() ==> changed@[a].0 < changed@[b].0,
            forall|j: int| 0 <= j < i && !crate::convert::listed(changed@, j) ==>
                spec_prefilter_skips(lines@[j]@, needle@, *opts, delim)
                || exists|t: Seq<char>| #[trigger] row_outcome(lines@[j]@, needle@, replacement@, *opts, delim, t, 0),
        decreases lines.len() - i,
    {
        let line = lines[i].as_str();
        let ghost before = changed@;
        let ghost counts0 = counts;
        if !wide && replace_row_can_skip(line, &pre, quote_sensitive) {
            assert(spec_prefilter_skips(lines@[i as int]@, needle@, *opts, delim));
            proof {
                assert forall|j: int| 0 <= j < i + 1 && !crate::convert::listed(changed@, j) implies
                    spec_prefilter_skips(lines@[j]@, needle@, *opts, delim)
                    || exists|t: Seq<char>| #[trigger] row_outcome(lines@[j]@, needle@, replacement@, *opts, delim, t, 0) by {}
            }
            i += 1;
            continue;
        }
        let mut done = false;
        let mut row: Option<(String, usize)> = None;
        match cell_delim {
            Some(d) => {
                if d < 128 {
                    match replace_cells_bytes(line, needle, rep.as_str(), d, opts.match_case) {
                        Some((t, n)) => {
                            assert(row_outcome(line@, needle@, replacement@, *opts, delim, t@, n as nat));
                            row = Some((t, n));
                            done = true;
                        },
                        None => {},
                    }
                }
            },
            None => {},
        }
        if !done {
            let (t, n) = replace_in_line(line, needle, replacement, opts, delim);
            proof {
                let hits = choose|hits: Seq<(usize, usize)>| scoped_hits(line@, needle@, *opts, delim, hits)
                    && t@ == splice_from(line@, hits, sanitize(replacement@), 0, 0) && n == hits.len();
                assert(scoped_hits(line@, needle@, *opts, delim, hits));
                assert(row_outcome(line@, needle@, replacement@, *opts, delim, t@, n as nat));
            }
            row = Some((t, n));
        }
        let (t, n) = match row {
            Some(x) => x,
            None => (String::new(), 0),
        };
        assert(row_outcome(lines@[i as int]@, needle@, replacement@, *opts, delim, t@, n as nat));
        if n > 0 {
            changed.push((i, t));
            proof {
                counts = counts.push(n as nat);
                assert(counts.drop_last() =~= counts0);
                assert forall|k: int| 0 <= k < changed@.len() implies {
                    let (ii, tt) = #[trigger] changed@[k];
                    &&& ii < lines@.len()
                    &&& counts[k] > 0
                    &&& row_outcome(lines@[ii as int]@, needle@, replacement@, *opts, delim, tt@, counts[k])
                } by {
                    if k < before.len() {
                        assert(changed@[k] == before[k]);
                        assert(counts[k] == counts0[k]);
                    }
                }
                assert(changed@[before.len() as int].0 == i);
                assert forall|j: int| 0 <= j < i + 1 && !crate::convert::listed(changed@, j) implies
                    spec_prefilter_skips(lines@[j]@, needle@, *opts, delim)
                    || exists|t: Seq<char>| #[trigger] row_outcome(lines@[j]@, needle@, replacement@, *opts, delim, t, 0) by {
                    if j < i && crate::convert::listed(before, j) {
                        let k = choose|k: int| 0 <= k < before.len() && #[trigger] before[k].0 == j;
                        assert(changed@[k].0 == j);
                    }
                    if j == i {
                        assert(crate::convert::listed(changed@, j));
                    }
                }
            }
            total = total.saturating_add(n);
        } else {
            proof {
                assert forall|j: int| 0 <= j < i + 1 && !crate::convert::listed(changed@, j) implies
                    spec_prefilter_skips(lines@[j]@, needle@, *opts, delim)
                    || exists|t: Seq<char>| #[trigger] row_outcome(lines@[j]@, needle@, replacement@, *opts, delim, t, 0) by {
                    if j == i {
                        assert(row_outcome(lines@[j]@, needle@, replacement@, *opts, delim, t@, 0));
                    }
                }
            }
        }
        i += 1;
    }
    assert(changes_explained(lines@, needle@, replacement@, *opts, delim, changed@, counts));
    assert(total == (if sum_of(counts) <= usize::MAX { sum_of(counts) } else { usize::MAX as nat }));
    let r = (changed, total);
    assert(changes_explained(lines@, needle@, replacement@, *opts, delim, r.0@, counts));
    assert(exists|c: Seq<nat>| #[trigger] changes_explained(lines@, needle@, replacement@, *opts, delim, r.0@, c)
        && r.1 == (if sum_of(c) <= usize::MAX { sum_of(c) } else { usize::MAX as nat }));
    r
}

/// Matching case, folding leaves the text as it is.
proof fn lemma_folded_exact(s: Seq<char>)
    ensures
        folded_chars(s, true) == s,
    decreases s.len(),
{
    if s.len() > 0 {
        lemma_folded_exact(s.drop_last());
        assert(s.drop_last().push(s.last()) =~= s);
    }
}

/// A reported match stands on a run of the compared text equal to the needle.
proof fn lemma_hits_from_match(h: Seq<char>, o: Seq<int>, n: Seq<char>, hc: Seq<char>, whole_word: bool, i: int)
    ensures
        hits_from(h, o, n, hc, whole_word, i).len() > 0 ==> exists|j: int| 0 <= j && j + n.len() <= h.len()
            && #[trigger] h.subrange(j, j + n.len()) == n,
    decreases h.len() - i,
{
    if i < 0 || n.len() == 0 || i + n.len() > h.len() {
    } else if h.subrange(i, i + n.len()) != n {
        lemma_hits_from_match(h, o, n, hc, whole_word, i + 1);
    } else {
        lemma_hits_from_match(h, o, n, hc, whole_word, i + 1);
        lemma_hits_from_match(h, o, n, hc, whole_word, i + n.len());
    }
}

/// A whole-cell hit comes from a field equal to the needle.
proof fn lemma_cell_hits_source(fs: Seq<Seq<char>>, hay: Seq<char>, needle: Seq<char>, match_case: bool, d: u8, k: int)
    ensures
        cell_hits(fs, hay, needle, match_case, d, k).len() > 0 ==> exists|c: int| 0 <= c < k
            && c < field_ranges(encode_utf8(hay), d).len() && #[trigger] texts_equal(fs[c], needle, match_case),
    decreases k,
{
    if k > 0 {
        lemma_cell_hits_source(fs, hay, needle, match_case, d, k - 1);
    }
}

/// The replace-all prefilter never skips a row where a replacement could
/// find something, when case matters: the scoped search finds nothing on a
/// row the prefilter skips.
pub proof fn lemma_prefilter_never_skips_a_match(
    line: Seq<char>,
    needle: Seq<char>,
    opts: FindOptions,
    delim: Option<u8>,
    hits: Seq<(usize, usize)>,
)
    requires
        opts.match_case,
        needle.len() > 0,
        spec_prefilter_skips(line, needle, opts, delim),
        scoped_hits(line, needle, opts, delim, hits),
    ensures
        hits.len() == 0,
{
    let b = encode_utf8(line);
    let nb = encode_utf8(needle);
    if hits.len() > 0 {
        if opts.scope != MatchScope::WholeCell {
            lemma_folded_exact(line);
            lemma_folded_exact(needle);
            lemma_hits_from_match(line, folded_origin(line, true), needle, line, opts.scope == MatchScope::WholeWord, 0);
            let j = choose|j: int| 0 <= j && j + needle.len() <= line.len() && #[trigger] line.subrange(j, j + needle.len()) == needle;
            crate::fields::lemma_chars_occur_in_bytes(line, needle, j);
            assert(!crate::hex::occurs_at(b, nb, encode_utf8(line.take(j)).len() as int));
        } else {
            match delim {
                None => {
                    assert(line == needle);
                    assert(b.subrange(0, nb.len() as int) =~= nb);
                    assert(!crate::hex::occurs_at(b, nb, 0));
                },
                Some(d) => {
                    let fs = choose|fs: Seq<Seq<char>>| fs.len() >= 1
                        && (csv_simple(line) ==> fs == cell_texts(line, d))
                        && (csv_simple(line) && !line.contains('"') && d < 128 ==> fs == split_by(line, d as char))
                        && (!csv_simple(line) ==> fs == crate::parse::csv_fields(line, d))
                        && hits == cell_hits(fs, line, needle, opts.match_case, d, fs.len() as int);
                    crate::bytes::lemma_ascii_byte_in_utf8(line, 34u8);
                    crate::bytes::lemma_ascii_byte_in_utf8(line, 13u8);
                    crate::bytes::lemma_ascii_byte_in_utf8(line, 10u8);
                    crate::roundtrip::lemma_bom_bytes_iff(line);
                    assert(34u8 as char == '"' && 13u8 as char == '\r' && 10u8 as char == '\n');
                    assert(csv_simple(line) && !line.contains('"'));
                    assert(fs == split_by(line, d as char));
                    lemma_cell_hits_source(fs, line, needle, true, d, fs.len() as int);
                    let c = choose|c: int| 0 <= c < fs.len() && c < field_ranges(b, d).len() && #[trigger] texts_equal(fs[c], needle, true);
                    crate::fields::lemma_plain_fields(line, d);
                    let r = field_ranges(b, d)[c];
                    assert(b.subrange(r.0, r.1) == nb);
                    assert(!crate::hex::occurs_at(b, nb, r.0));
                },
            }
        }
    }
}

} // verus!
