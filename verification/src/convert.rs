//! Rewriting a document's delimiter: the bytes themselves change, quoting is
//! kept where it protects a delimiter and added where the new delimiter
//! occurs inside a value.
use vstd::prelude::*;
use crate::bytes::{memchr2_find, lemma_ascii_byte_in_utf8};
use crate::chars::{chars_of, string_of};
use crate::find::same_text;
use crate::parse::{join_fields, joined, needs_quote, views};
use crate::find::{cell_values, csv_simple};
use crate::edit::{split_by, join_with};
use vstd::utf8::encode_utf8;

verus! {

/// Which way a line was converted.
#[derive(Debug, Clone, Copy, PartialEq, Eq, Structural)]
pub enum ConvertPath {
    /// Only the delimiter characters were exchanged.
    Fast,
    /// The line was split into fields and joined again.
    Fallback,
}

/// `s` with every `old` character replaced by `new`.
pub open spec fn swap_delim(s: Seq<char>, old: u8, new: u8) -> Seq<char> {
    s.map_values(|c: char| if c == old as char { new as char } else { c })
}

/// The fast path applies: both delimiters are ASCII and the line holds
/// neither a quote nor the new delimiter, so no field needs quoting.
pub open spec fn takes_fast_path(s: Seq<char>, old: u8, new: u8) -> bool {
    old < 128 && new < 128 && !s.contains('"') && !s.contains(new as char)
}

/// What the fallback gives for line `s`: its fields joined with `new`, each
/// quoted as needed. The fields are those a whole-cell search reads
/// (`scoped_fields`: from the raw fields for a line without line breaks or a
/// leading byte-order mark, as `csv_core` gives them otherwise); for a line
/// without quotes, line breaks or a leading byte-order mark and an ASCII
/// delimiter they are exactly its pieces between delimiters.
pub open spec fn fallback_gives(s: Seq<char>, old: u8, new: u8, out: Seq<char>) -> bool {
    exists|fs: Seq<Seq<char>>| fs.len() >= 1
        && fs == crate::find::scoped_fields(s, old)
        && (csv_simple(s) && !s.contains('"') && old < 128 ==> fs == split_by(s, old as char))
        && out == #[trigger] joined(fs, new as char)
}

/// `out` is a conversion of line `s` from delimiter `old` to `new`: on the
/// fast path the delimiters exchanged in place; otherwise what the fallback
/// gives.
pub open spec fn converts_to(s: Seq<char>, old: u8, new: u8, out: Seq<char>) -> bool {
    if takes_fast_path(s, old, new) {
        out == swap_delim(s, old, new)
    } else {
        fallback_gives(s, old, new, out)
    }
}

/// `s` with each `old` replaced by `new`, character by character.
fn swap_chars(line: &str, old: u8, new: u8) -> (out: String)
    ensures
        out@ == swap_delim(line@, old, new),
{
    let cs = chars_of(line);
    let o = old as char;
    let n = new as char;
    let mut v: Vec<char> = Vec::new();
    let mut i: usize = 0;
    while i < cs.len()
        invariant
            cs@ == line@,
            o == old as char,
            n == new as char,
            0 <= i <= cs@.len(),
            v@ == swap_delim(cs@.take(i as int), old, new),
        decreases cs.len() - i,
    {
        let c = cs[i];
        if c == o {
            v.push(n);
        } else {
            v.push(c);
        }
        i += 1;
        assert(v@ =~= swap_delim(cs@.take(i as int), old, new));
    }
    assert(cs@.take(cs@.len() as int) =~= cs@);
    string_of(v.as_slice())
}

/// Splits with `old` and joins with `new`.
fn resplit(line: &str, old: u8, new: u8) -> (out: String)
    ensures
        fallback_gives(line@, old, new, out@),
{
    let fields = cell_values(line, old);
    let out = join_fields(fields.as_slice(), new);
    assert(views(fields@).len() >= 1);
    assert(out@ == joined(views(fields@), new as char));
    out
}

/// Converts one line from delimiter `old` to `new` and reports the path
/// taken. A delimiter inside quotes is data and stays; a value holding the
/// new delimiter gets quoted. When both delimiters are ASCII and the line has
/// neither `"` nor the new delimiter (`memchr2` over its bytes), no value
/// needs quoting and exchanging the delimiter characters is enough.
pub fn convert_line_traced(line: &str, old: u8, new: u8) -> (r: (String, ConvertPath))
    ensures
        (r.1 == ConvertPath::Fast) == takes_fast_path(line@, old, new),
        converts_to(line@, old, new, r.0@),
{
    if old >= 128 || new >= 128 {
        let out = resplit(line, old, new);
        return (out, ConvertPath::Fallback);
    }
    let bytes = line.as_bytes();
    let hit = memchr2_find(34u8, new, bytes);
    proof {
        assert(bytes@ == encode_utf8(line@));
        lemma_ascii_byte_in_utf8(line@, 34u8);
        lemma_ascii_byte_in_utf8(line@, new);
        assert(34u8 as char == '"');
    }
    match hit {
        None => {
            assert(!encode_utf8(line@).contains(34u8));
            assert(!encode_utf8(line@).contains(new));
            let out = swap_chars(line, old, new);
            (out, ConvertPath::Fast)
        },
        Some(i) => {
            assert(encode_utf8(line@).contains(bytes@[i as int]));
            let out = resplit(line, old, new);
            (out, ConvertPath::Fallback)
        },
    }
}

/// Converts one line from delimiter `old` to `new` (see
/// `convert_line_traced`).
pub fn convert_line(line: &str, old: u8, new: u8) -> (out: String)
    ensures
        converts_to(line@, old, new, out@),
{
    let (out, _) = convert_line_traced(line, old, new);
    out
}

/// Row `i` appears among the reported changes.
pub open spec fn listed(changes: Seq<(usize, String)>, i: int) -> bool {
    exists|k: int| 0 <= k < changes.len() && #[trigger] changes[k].0 == i
}

/// Converts every line and reports only the rows that changed, as
/// `(row, new text)` in increasing row order. A row left out converts to
/// itself.
pub fn convert_all(lines: &[String], old: u8, new: u8) -> (changes: Vec<(usize, String)>)
    ensures
        forall|k: int| 0 <= k < changes@.len() ==> {
            let (i, t) = #[trigger] changes@[k];
            &&& i < lines@.len()
            &&& converts_to(lines@[i as int]@, old, new, t@)
            &&& t@ != lines@[i as int]@
        },
        forall|a: int, b: int| 0 <= a < b < changes@.len() ==> changes@[a].0 < changes@[b].0,
        forall|i: int| 0 <= i < lines@.len() && !listed(changes@, i) ==> converts_to(lines@[i]@, old, new, lines@[i]@),
{
    let mut changes: Vec<(usize, String)> = Vec::new();
    let mut i: usize = 0;
    while i < lines.len()
        invariant
            0 <= i <= lines@.len(),
            forall|k: int| 0 <= k < changes@.len() ==> {
                let (j, t) = #[trigger] changes@[k];
                &&& j < i
                &&& converts_to(lines@[j as int]@, old, new, t@)
                &&& t@ != lines@[j as int]@
            },
            forall|a: int, b: int| 0 <= a < b < changes@.len() ==> changes@[a].0 < changes@[b].0,
            forall|j: int| 0 <= j < i && !listed(changes@, j) ==> converts_to(lines@[j]@, old, new, lines@[j]@),
        decreases lines.len() - i,
    {
        let line = lines[i].as_str();
        let out = convert_line(line, old, new);
        let a = chars_of(out.as_str());
        let b = chars_of(line);
        let ghost before = changes@;
        if !same_text(a.as_slice(), b.as_slice()) {
            changes.push((i, out));
            proof {
                assert(changes@[before.len() as int].0 == i);
                assert forall|j: int| 0 <= j < i + 1 && !listed(changes@, j) implies converts_to(lines@[j]@, old, new, lines@[j]@) by {
                    if j < i {
                        if listed(before, j) {
                            let k = choose|k: int| 0 <= k < before.len() && #[trigger] before[k].0 == j;
                            assert(changes@[k].0 == j);
                        }
                    } else {
                        assert(listed(changes@, j));
                    }
                }
            }
        } else {
            proof {
                assert forall|j: int| 0 <= j < i + 1 && !listed(changes@, j) implies converts_to(lines@[j]@, old, new, lines@[j]@) by {
                    if j == i {
                        assert(out@ == lines@[j]@);
                    }
                }
            }
        }
        i += 1;
    }
    changes
}

/// Every character of a piece of `split_by(s, sep)` is a character of `s`.
proof fn lemma_split_pieces_within(s: Seq<char>, sep: char)
    ensures
        forall|k: int, x: char| #![trigger split_by(s, sep)[k].contains(x)] 0 <= k < split_by(s, sep).len() && split_by(s, sep)[k].contains(x) ==> s.contains(x),
    decreases s.len(),
{
    if s.len() > 0 {
        let t = s.drop_last();
        lemma_split_pieces_within(t, sep);
        crate::edit::lemma_split_by_len(t, sep);
        let p = split_by(t, sep);
        assert forall|k: int, x: char| #![trigger split_by(s, sep)[k].contains(x)] 0 <= k < split_by(s, sep).len() && split_by(s, sep)[k].contains(x) implies s.contains(x) by {
            let q = split_by(s, sep)[k];
            let j = choose|j: int| 0 <= j < q.len() && q[j] == x;
            if s.last() == sep {
                if k < p.len() {
                    assert(p[k].contains(x));
                    let i = choose|i: int| 0 <= i < t.len() && t[i] == x;
                    assert(s[i] == x);
                }
            } else if k < p.len() - 1 {
                assert(p[k] == q);
                assert(p[k].contains(x));
                let i = choose|i: int| 0 <= i < t.len() && t[i] == x;
                assert(s[i] == x);
            } else {
                assert(q == p.last().push(s.last()));
                if j < p.last().len() {
                    assert(p.last()[j] == x);
                    assert(p[p.len() - 1].contains(x));
                    let i = choose|i: int| 0 <= i < t.len() && t[i] == x;
                    assert(s[i] == x);
                } else {
                    assert(s[s.len() - 1] == x);
                }
            }
        }
    }
}

/// `joined` over pieces that need no quoting is the plain join.
proof fn lemma_joined_plain(fs: Seq<Seq<char>>, d: char)
    requires
        forall|k: int| 0 <= k < fs.len() ==> !needs_quote(#[trigger] fs[k], d),
    ensures
        joined(fs, d) == join_with(fs, d),
    decreases fs.len(),
{
    if fs.len() > 1 {
        lemma_joined_plain(fs.drop_last(), d);
    }
}

/// Joining the delimiter-split pieces of `s` with the same separator gives
/// `s` back, the separator exchanged for `d`.
proof fn lemma_join_split_swap(s: Seq<char>, old: u8, new: u8)
    ensures
        join_with(split_by(s, old as char), new as char) == swap_delim(s, old, new),
    decreases s.len(),
{
    if s.len() == 0 {
        assert(swap_delim(s, old, new) =~= Seq::<char>::empty());
    } else {
        let t = s.drop_last();
        lemma_join_split_swap(t, old, new);
        let p = split_by(t, old as char);
        let c = s.last();
        assert(swap_delim(s, old, new) =~= swap_delim(t, old, new).push(if c == old as char { new as char } else { c }));
        assert(p.len() >= 1) by {
            crate::edit::lemma_split_by_len(t, old as char);
        }
        if c == old as char {
            let q = p.push(Seq::<char>::empty());
            assert(q.drop_last() =~= p);
            assert(join_with(q, new as char) =~= join_with(p, new as char) + seq![new as char] + Seq::<char>::empty());
        } else {
            let q = p.update(p.len() - 1, p.last().push(c));
            if p.len() == 1 {
                assert(join_with(q, new as char) == q[0]);
                assert(join_with(p, new as char) == p[0]);
            } else {
                assert(q.drop_last() =~= p.drop_last());
                assert(join_with(q, new as char) =~= join_with(p.drop_last(), new as char) + seq![new as char] + p.last().push(c));
            }
        }
    }
}

/// The fast path gives what splitting and joining give: on a line with no
/// quote, no new delimiter and no line break, no field needs quoting, so
/// exchanging the delimiter characters equals joining the line's
/// delimiter-separated fields with the new delimiter.
pub proof fn lemma_fast_path_rejoins(s: Seq<char>, old: u8, new: u8)
    requires
        !s.contains('"'),
        !s.contains(new as char),
        !s.contains('\r'),
        !s.contains('\n'),
    ensures
        swap_delim(s, old, new) == joined(split_by(s, old as char), new as char),
{
    lemma_split_pieces_within(s, old as char);
    let fs = split_by(s, old as char);
    assert forall|k: int| 0 <= k < fs.len() implies !needs_quote(#[trigger] fs[k], new as char) by {
        if fs[k].contains(new as char) {}
        if fs[k].contains('"') {}
        if fs[k].contains('\n') {}
        if fs[k].contains('\r') {}
    }
    lemma_joined_plain(fs, new as char);
    lemma_join_split_swap(s, old, new);
}

/// The fast path gives what the fallback gives: on a line without quotes,
/// the new delimiter, line breaks or a leading byte-order mark, with ASCII
/// delimiters, every output the fallback may produce is the line with its
/// delimiters exchanged.
pub proof fn lemma_fast_path_matches_fallback(s: Seq<char>, old: u8, new: u8, out: Seq<char>)
    requires
        takes_fast_path(s, old, new),
        csv_simple(s),
        fallback_gives(s, old, new, out),
    ensures
        out == swap_delim(s, old, new),
{
    let fs = choose|fs: Seq<Seq<char>>| fs.len() >= 1
        && (csv_simple(s) && !s.contains('"') && old < 128 ==> fs == split_by(s, old as char))
        && out == #[trigger] joined(fs, new as char);
    assert(fs == split_by(s, old as char));
    lemma_fast_path_rejoins(s, old, new);
}

/// Converting a line that holds no quote and no new delimiter from `old` to
/// `new` and back gives the line back, for distinct ASCII delimiters that
/// are not the quote: both conversions take the fast path.
pub proof fn lemma_convert_roundtrip_plain(s: Seq<char>, old: u8, new: u8, t: Seq<char>, u: Seq<char>)
    requires
        old < 128,
        new < 128,
        old != new,
        old != 34,
        new != 34,
        !s.contains('"'),
        !s.contains(new as char),
        converts_to(s, old, new, t),
        converts_to(t, new, old, u),
    ensures
        u == s,
{
    assert(t == swap_delim(s, old, new));
    assert(34u8 as char == '"');
    assert((old as char) != (new as char));
    assert(!t.contains('"')) by {
        if t.contains('"') {
            let i = choose|i: int| 0 <= i < t.len() && t[i] == '"';
            assert(s[i] == '"' || s[i] == old as char);
        }
    }
    assert(!t.contains(old as char)) by {
        if t.contains(old as char) {
            let i = choose|i: int| 0 <= i < t.len() && t[i] == old as char;
            assert(s[i] == old as char || s[i] == new as char);
        }
    }
    assert(u == swap_delim(t, new, old));
    assert forall|i: int| 0 <= i < s.len() implies u[i] == s[i] by {
        if s[i] == new as char {
            assert(s.contains(new as char));
        }
    }
    assert(u =~= s);
}

} // verus!
