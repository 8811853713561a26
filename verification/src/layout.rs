//! What opening a file guesses from its first bytes: the encoding, how to
//! split its lines, and whether the first row is a header.
use vstd::prelude::*;
use vstd::utf8::encode_utf8;
use vstd::slice::slice_subrange;
use crate::chars::{chars_of, string_of};
use crate::parse::{
    Encoding, SeparatorMode, detect_encoding, spec_detect_encoding, decode_line, line_text,
    detect_separator, spec_detect_separator, path_ext, split_fields, csv_fields, detect_header,
    spec_detect_header, rows_view, views, line_bytes, total_len,
};

verus! {

/// How many leading bytes of a file its layout is guessed from.
pub const HEAD_BYTES: usize = 65536;

/// How many leading lines of that text the delimiter is guessed from.
pub const SAMPLE_LINES: usize = 50;

/// How many of those lines the header guess reads.
pub const HEADER_ROWS: usize = 20;

/// The first `HEAD_BYTES` bytes of `source` (all of it when shorter).
pub open spec fn head_of(source: Seq<u8>) -> Seq<u8> {
    if source.len() <= HEAD_BYTES { source } else { source.take(HEAD_BYTES as int) }
}

/// At most the first `n` items of `s`.
pub open spec fn first_n<T>(s: Seq<T>, n: nat) -> Seq<T> {
    if s.len() <= n { s } else { s.take(n as int) }
}

/// A line with one trailing carriage return dropped.
pub open spec fn drop_cr(s: Seq<char>) -> Seq<char> {
    if s.len() > 0 && s.last() == '\r' { s.drop_last() } else { s }
}

/// The lines of `t` from position `i` on, the current line having begun at
/// `start`: each line ends at a line feed, which it loses together with one
/// carriage return just before it; a last line without a line feed is kept
/// as it is, and an empty one is no line.
pub open spec fn lines_from(t: Seq<char>, i: int, start: int) -> Seq<Seq<char>>
    decreases t.len() - i,
{
    if i >= t.len() {
        if 0 <= start < t.len() { seq![t.subrange(start, t.len() as int)] } else { seq![] }
    } else if t[i] == '\n' {
        seq![drop_cr(t.subrange(start, i))] + lines_from(t, i + 1, i + 1)
    } else {
        lines_from(t, i + 1, start)
    }
}

/// The lines of text `t`, as `str::lines` gives them.
pub open spec fn text_lines(t: Seq<char>) -> Seq<Seq<char>> {
    lines_from(t, 0, 0)
}

/// The encoding guessed for `source`.
pub open spec fn head_encoding(source: Seq<u8>) -> Encoding {
    spec_detect_encoding(head_of(source))
}

/// The sample lines: the first `SAMPLE_LINES` lines of the head's text.
pub open spec fn sample_lines(source: Seq<u8>) -> Seq<Seq<char>> {
    first_n(text_lines(line_text(head_encoding(source), head_of(source))), SAMPLE_LINES as nat)
}

/// The bytes of each line.
pub open spec fn utf8_lines(ls: Seq<Seq<char>>) -> Seq<Seq<u8>> {
    ls.map_values(|l: Seq<char>| encode_utf8(l))
}

/// The rows the header guess reads: the first `HEADER_ROWS` sample lines,
/// split into fields on `d`.
pub open spec fn header_rows(ls: Seq<Seq<char>>, d: u8) -> Seq<Seq<Seq<char>>> {
    first_n(ls, HEADER_ROWS as nat).map_values(|l: Seq<char>| csv_fields(l, d))
}

/// The sample is small enough for the delimiter guess's exact arithmetic:
/// its lines hold at most `u32::MAX` bytes together.
pub open spec fn sample_fits(source: Seq<u8>) -> bool {
    total_len(utf8_lines(sample_lines(source)), sample_lines(source).len() as int) <= u32::MAX
}

/// What opening a file at `path` with contents `source` guesses:
/// the encoding of its head, the separator from the path's extension or the
/// sample lines, and, for a delimited file, whether the first row is a
/// header (judged on the first rows split by that delimiter; plain text has
/// none).
pub open spec fn layout_of(source: Seq<u8>, path: &std::path::Path) -> (Encoding, SeparatorMode, bool) {
    let m = spec_detect_separator(path_ext(path), utf8_lines(sample_lines(source)));
    let h = match m {
        SeparatorMode::Char(d) => spec_detect_header(header_rows(sample_lines(source), d)),
        SeparatorMode::Plain => false,
    };
    (head_encoding(source), m, h)
}

/// Splits text into its lines like `str::lines`, stopping after `max` lines.
fn split_lines(t: &str, max: usize) -> (lines: Vec<String>)
    ensures
        views(lines@) == first_n(text_lines(t@), max as nat),
{
    let cs = chars_of(t);
    let mut lines: Vec<String> = Vec::new();
    let mut i: usize = 0;
    let mut start: usize = 0;
    while i < cs.len() && lines.len() < max
        invariant
            cs@ == t@,
            0 <= start <= i <= cs@.len(),
            lines@.len() <= max,
            views(lines@) + lines_from(cs@, i as int, start as int) == text_lines(cs@),
        decreases cs.len() - i,
    {
        if cs[i] == '\n' {
            let end = if i > start && cs[i - 1] == '\r' { i - 1 } else { i };
            let piece = string_of(slice_subrange(cs.as_slice(), start, end));
            assert(piece@ == drop_cr(cs@.subrange(start as int, i as int)));
            let ghost before = views(lines@);
            lines.push(piece);
            assert(views(lines@) =~= before.push(piece@));
            assert(before.push(piece@) + lines_from(cs@, i + 1, i + 1)
                =~= before + (seq![piece@] + lines_from(cs@, i + 1, i + 1)));
            start = i + 1;
        }
        i += 1;
    }
    if lines.len() < max {
        assert(i == cs@.len());
        if start < cs.len() {
            let piece = string_of(slice_subrange(cs.as_slice(), start, cs.len()));
            let ghost before = views(lines@);
            lines.push(piece);
            assert(views(lines@) =~= before.push(piece@));
            assert(views(lines@) =~= before + lines_from(cs@, i as int, start as int));
        } else {
            assert(views(lines@) =~= views(lines@) + lines_from(cs@, i as int, start as int));
        }
        assert(views(lines@) == text_lines(cs@));
    } else {
        let ghost full = text_lines(cs@);
        assert(full.take(max as int) =~= views(lines@));
        assert(first_n(full, max as nat) =~= views(lines@));
    }
    lines
}

/// Guesses the layout of a file at `path` whose contents are `source`, as
/// opening it does: the encoding of its first `HEAD_BYTES` bytes, then that
/// head decoded and cut into lines, the separator from the path's extension
/// or the first `SAMPLE_LINES` lines, and for a delimited file whether the
/// first row is a header, from the first `HEADER_ROWS` lines split into
/// fields (`layout_of`). `None` when those sample lines are too long
/// together for the delimiter guess (`sample_fits`).
pub fn detect_layout(source: &[u8], path: &std::path::Path) -> (r: Option<(Encoding, SeparatorMode, bool)>)
    ensures
        r is Some <==> sample_fits(source@),
        r matches Some(x) ==> x == layout_of(source@, path),
{
    let n = if source.len() <= HEAD_BYTES { source.len() } else { HEAD_BYTES };
    let head = slice_subrange(source, 0, n);
    assert(head@ =~= head_of(source@));
    let enc = detect_encoding(head);
    let text = decode_line(head, enc);
    let lines = split_lines(text.as_str(), SAMPLE_LINES);
    let ghost sample = sample_lines(source@);
    assert(views(lines@) == sample);
    let mut refs: Vec<&str> = Vec::new();
    let mut total: u64 = 0;
    let mut k: usize = 0;
    while k < lines.len()
        invariant
            0 <= k <= lines@.len(),
            sample == sample_lines(source@),
            views(lines@) == sample,
            refs@.len() == k,
            forall|j: int| 0 <= j < k ==> (#[trigger] refs@[j])@ == lines@[j]@,
            total == total_len(utf8_lines(sample), k as int),
            total <= u32::MAX,
        decreases lines.len() - k,
    {
        let l = lines[k].as_str();
        assert(l@ == views(lines@)[k as int]);
        assert(utf8_lines(sample)[k as int] == encode_utf8(l@));
        let len = l.as_bytes().len() as u64;
        assert(len == utf8_lines(sample)[k as int].len());
        assert(total_len(utf8_lines(sample), k + 1) == total + len);
        if len > u32::MAX as u64 - total {
            proof {
                let ls = utf8_lines(sample);
                assert(ls.len() == sample.len());
                crate::parse::lemma_total_len_mono(ls, k + 1, ls.len() as int);
                assert(total_len(ls, ls.len() as int) > u32::MAX);
                assert(!sample_fits(source@));
            }
            return None;
        }
        total = total + len;
        refs.push(l);
        k += 1;
    }
    assert(line_bytes(refs@) =~= utf8_lines(sample));
    assert(sample_fits(source@));
    let m = detect_separator(path, refs.as_slice());
    let h = match m {
        SeparatorMode::Char(d) => {
            let cnt = if lines.len() < HEADER_ROWS { lines.len() } else { HEADER_ROWS };
            let mut rows: Vec<Vec<String>> = Vec::new();
            let mut j: usize = 0;
            while j < cnt
                invariant
                    0 <= j <= cnt <= lines@.len(),
                    cnt == first_n(sample, HEADER_ROWS as nat).len(),
                    views(lines@) == sample,
                    rows@.len() == j,
                    forall|q: int| 0 <= q < j ==> views((#[trigger] rows@[q])@) == csv_fields(lines@[q]@, d),
                decreases cnt - j,
            {
                rows.push(split_fields(lines[j].as_str(), d));
                j += 1;
            }
            assert(rows_view(rows@) =~= header_rows(sample, d));
            detect_header(rows.as_slice())
        },
        SeparatorMode::Plain => false,
    };
    Some((enc, m, h))
}

} // verus!
