//! Encoding, delimiter and header detection, and CSV field handling.
use vstd::prelude::*;
use vstd::utf8::{valid_utf8, decode_utf8, encode_utf8};
use crate::chars::{chars_of, string_of};
use crate::number::{is_numeric, is_numeric_text};

verus! {

/// Text encodings the viewer understands.
#[derive(Debug, Clone, Copy, PartialEq, Eq, Structural)]
pub enum Encoding {
    Utf8,
    Cp949,
    Utf16Le,
    Utf16Be,
}

/// `s` begins with `p`.
pub open spec fn starts_with(s: Seq<u8>, p: Seq<u8>) -> bool {
    p.len() <= s.len() && s.take(p.len() as int) == p
}

/// Dropping the last `cut` bytes (leaving at least one) gives valid UTF-8.
pub open spec fn valid_after_cut(h: Seq<u8>, cut: int) -> bool {
    cut < h.len() && valid_utf8(h.take(h.len() - cut))
}

/// Encoding guessed from the first bytes of a file: a byte-order mark first,
/// then UTF-8 validity (also after cutting up to three trailing bytes, which
/// may be the start of a character cut off by the sample), CP949 otherwise.
pub open spec fn spec_detect_encoding(h: Seq<u8>) -> Encoding {
    if starts_with(h, seq![0xEFu8, 0xBBu8, 0xBFu8]) {
        Encoding::Utf8
    } else if starts_with(h, seq![0xFFu8, 0xFEu8]) {
        Encoding::Utf16Le
    } else if starts_with(h, seq![0xFEu8, 0xFFu8]) {
        Encoding::Utf16Be
    } else if valid_utf8(h) {
        Encoding::Utf8
    } else if valid_after_cut(h, 1) || valid_after_cut(h, 2) || valid_after_cut(h, 3) {
        Encoding::Utf8
    } else {
        Encoding::Cp949
    }
}

/// Whether `bytes` is well-formed UTF-8 (`std::str::from_utf8` succeeds).
#[verifier::external_body]
fn utf8_is_valid(bytes: &[u8]) -> (r: bool)
    ensures
        r == valid_utf8(bytes@),
{
    std::str::from_utf8(bytes).is_ok()
}

fn has_prefix(h: &[u8], p: &[u8]) -> (r: bool)
    ensures
        r == starts_with(h@, p@),
{
    if p.len() > h.len() {
        return false;
    }
    let mut i: usize = 0;
    while i < p.len()
        invariant
            p@.len() <= h@.len(),
            0 <= i <= p@.len(),
            forall|k: int| 0 <= k < i ==> h@[k] == p@[k],
        decreases p.len() - i,
    {
        if h[i] != p[i] {
            assert(h@.take(p@.len() as int)[i as int] != p@[i as int]);
            return false;
        }
        i += 1;
    }
    assert(h@.take(p@.len() as int) =~= p@);
    true
}

/// Guesses the encoding from the first bytes of a file: BOM, then UTF-8
/// validity, then CP949 as the fallback.
pub fn detect_encoding(head: &[u8]) -> (e: Encoding)
    ensures
        e == spec_detect_encoding(head@),
{
    let utf8_bom: [u8; 3] = [0xEF, 0xBB, 0xBF];
    let le_bom: [u8; 2] = [0xFF, 0xFE];
    let be_bom: [u8; 2] = [0xFE, 0xFF];
    assert(utf8_bom@ == seq![0xEFu8, 0xBBu8, 0xBFu8]);
    assert(le_bom@ == seq![0xFFu8, 0xFEu8]);
    assert(be_bom@ == seq![0xFEu8, 0xFFu8]);
    if has_prefix(head, &utf8_bom) {
        return Encoding::Utf8;
    }
    if has_prefix(head, &le_bom) {
        return Encoding::Utf16Le;
    }
    if has_prefix(head, &be_bom) {
        return Encoding::Utf16Be;
    }
    if utf8_is_valid(head) {
        return Encoding::Utf8;
    }
    let max_cut: usize = if head.len() < 3 { head.len() } else { 3 };
    let mut cut: usize = 1;
    while cut <= max_cut
        invariant
            1 <= cut <= max_cut + 1,
            max_cut <= 3,
            max_cut <= head@.len(),
            forall|c: int| 1 <= c < cut ==> !valid_after_cut(head@, c),
            max_cut < 3 ==> forall|c: int| max_cut < c <= 3 ==> !valid_after_cut(head@, c),
        decreases max_cut + 1 - cut,
    {
        let slice = vstd::slice::slice_subrange(head, 0, head.len() - cut);
        assert(slice@ == head@.take(head@.len() - cut));
        if slice.len() > 0 && utf8_is_valid(slice) {
            return Encoding::Utf8;
        }
        cut += 1;
    }
    Encoding::Cp949
}

/// The text that `encoding_rs` decodes from `bytes` in encoding `enc`
/// (malformed sequences become U+FFFD; a leading byte-order mark is honoured).
pub uninterp spec fn decoded_text(enc: Encoding, bytes: Seq<u8>) -> Seq<char>;

/// The bytes start with the UTF-8 byte-order mark `EF BB BF`.
pub open spec fn has_utf8_bom(b: Seq<u8>) -> bool {
    b.len() >= 3 && b[0] == 0xEFu8 && b[1] == 0xBBu8 && b[2] == 0xBFu8
}

/// `encoding_rs::Encoding::decode` with the encoding that `enc` names
/// (UTF-8, EUC-KR for CP949, UTF-16LE, UTF-16BE); the result is named
/// `decoded_text`. Of UTF-8 two facts of its source are stated: it sniffs a
/// byte-order mark (`for_bom`: `EF BB BF`, or `FF FE` / `FE FF`, which never
/// start well-formed UTF-8) and drops it, and well-formed UTF-8 after that
/// comes back as the text it encodes. Nothing is stated of the other
/// encodings or of malformed input.
#[verifier::external_body]
fn encoding_rs_decode(bytes: &[u8], enc: Encoding) -> (s: String)
    ensures
        s@ == decoded_text(enc, bytes@),
        enc == Encoding::Utf8 && !has_utf8_bom(bytes@) && valid_utf8(bytes@) ==> s@ == decode_utf8(bytes@),
        enc == Encoding::Utf8 && has_utf8_bom(bytes@) && valid_utf8(bytes@.skip(3)) ==> s@ == decode_utf8(bytes@.skip(3)),
{
    let encoding = match enc {
        Encoding::Utf8 => encoding_rs::UTF_8,
        Encoding::Cp949 => encoding_rs::EUC_KR,
        Encoding::Utf16Le => encoding_rs::UTF_16LE,
        Encoding::Utf16Be => encoding_rs::UTF_16BE,
    };
    let (cow, _used, _had_errors) = encoding.decode(bytes);
    cow.into_owned()
}

/// The text of one line's bytes: in UTF-8, a leading byte-order mark
/// dropped, the text that well-formed bytes encode; otherwise what
/// `encoding_rs` gives (`decoded_text`).
pub open spec fn line_text(enc: Encoding, b: Seq<u8>) -> Seq<char> {
    if enc == Encoding::Utf8 && has_utf8_bom(b) && valid_utf8(b.skip(3)) {
        decode_utf8(b.skip(3))
    } else if enc == Encoding::Utf8 && !has_utf8_bom(b) && valid_utf8(b) {
        decode_utf8(b)
    } else {
        decoded_text(enc, b)
    }
}

/// Decodes one line (newline excluded) to text; malformed bytes become
/// U+FFFD rather than an error.
pub fn decode_line(bytes: &[u8], enc: Encoding) -> (s: String)
    ensures
        s@ == decoded_text(enc, bytes@),
        s@ == line_text(enc, bytes@),
{
    encoding_rs_decode(bytes, enc)
}


/// How the screen splits a line.
#[derive(Debug, Clone, Copy, PartialEq, Eq, Structural)]
pub enum SeparatorMode {
    /// No splitting: the whole line is shown as text.
    Plain,
    /// Fields split on this byte.
    Char(u8),
}

/// Field boundaries found by scanning `line` from byte `i`: `in_q` tells
/// whether a quoted section is open, `start` is where the current field began
/// and `acc` holds the fields already closed. A `"` opens quoting only as the
/// first byte of a field; inside quotes `""` is an escaped quote and a lone
/// `"` closes the quoting; a `"` elsewhere is an ordinary byte.
pub open spec fn field_scan(line: Seq<u8>, delim: u8, i: int, in_q: bool, start: int, acc: Seq<(int, int)>) -> Seq<(int, int)>
    decreases line.len() - i,
{
    if i >= line.len() {
        acc.push((start, line.len() as int))
    } else if in_q {
        if line[i] == 34u8 {
            if i + 1 < line.len() && line[i + 1] == 34u8 {
                field_scan(line, delim, i + 2, true, start, acc)
            } else {
                field_scan(line, delim, i + 1, false, start, acc)
            }
        } else {
            field_scan(line, delim, i + 1, true, start, acc)
        }
    } else if line[i] == delim {
        if i + 1 < line.len() && line[i + 1] == 34u8 {
            field_scan(line, delim, i + 2, true, i + 1, acc.push((start, i)))
        } else {
            field_scan(line, delim, i + 1, false, i + 1, acc.push((start, i)))
        }
    } else {
        field_scan(line, delim, i + 1, false, start, acc)
    }
}

/// The `[start, end)` byte range of every field of `line`, quotes included.
pub open spec fn field_ranges(line: Seq<u8>, delim: u8) -> Seq<(int, int)> {
    let q = line.len() > 0 && line[0] == 34u8;
    field_scan(line, delim, if q { 1 } else { 0 }, q, 0, seq![])
}

/// The scan only appends to the fields it was given; every range lies in the line.
proof fn lemma_field_scan(line: Seq<u8>, delim: u8, i: int, in_q: bool, start: int, acc: Seq<(int, int)>)
    requires
        0 <= start <= i,
        start <= line.len(),
        forall|k: int| 0 <= k < acc.len() ==> 0 <= #[trigger] acc[k].0 <= acc[k].1 <= line.len(),
    ensures
        field_scan(line, delim, i, in_q, start, acc).len() > acc.len(),
        field_scan(line, delim, i, in_q, start, acc).take(acc.len() as int) == acc,
        forall|k: int| 0 <= k < field_scan(line, delim, i, in_q, start, acc).len() ==>
            0 <= #[trigger] field_scan(line, delim, i, in_q, start, acc)[k].0 <= field_scan(line, delim, i, in_q, start, acc)[k].1 <= line.len(),
    decreases line.len() - i,
{
    if i >= line.len() {
        assert(acc.push((start, line.len() as int)).take(acc.len() as int) =~= acc);
    } else if in_q {
        if line[i] == 34u8 {
            if i + 1 < line.len() && line[i + 1] == 34u8 {
                lemma_field_scan(line, delim, i + 2, true, start, acc);
            } else {
                lemma_field_scan(line, delim, i + 1, false, start, acc);
            }
        } else {
            lemma_field_scan(line, delim, i + 1, true, start, acc);
        }
    } else if line[i] == delim {
        let acc2 = acc.push((start, i));
        if i + 1 < line.len() && line[i + 1] == 34u8 {
            lemma_field_scan(line, delim, i + 2, true, i + 1, acc2);
        } else {
            lemma_field_scan(line, delim, i + 1, false, i + 1, acc2);
        }
        let r = field_scan(line, delim, i, in_q, start, acc);
        assert(r.take(acc2.len() as int).take(acc.len() as int) =~= r.take(acc.len() as int));
        assert(acc2.take(acc.len() as int) =~= acc);
    } else {
        lemma_field_scan(line, delim, i + 1, false, start, acc);
    }
}

/// The scan adds at most one field per byte left, plus the last one.
proof fn lemma_field_scan_count(line: Seq<u8>, delim: u8, i: int, in_q: bool, start: int, acc: Seq<(int, int)>)
    requires
        0 <= i,
    ensures
        field_scan(line, delim, i, in_q, start, acc).len() <= acc.len() + 1 + (if i < line.len() { line.len() - i } else { 0 }),
    decreases line.len() - i,
{
    if i >= line.len() {
    } else if in_q {
        if line[i] == 34u8 {
            if i + 1 < line.len() && line[i + 1] == 34u8 {
                lemma_field_scan_count(line, delim, i + 2, true, start, acc);
            } else {
                lemma_field_scan_count(line, delim, i + 1, false, start, acc);
            }
        } else {
            lemma_field_scan_count(line, delim, i + 1, true, start, acc);
        }
    } else if line[i] == delim {
        if i + 1 < line.len() && line[i + 1] == 34u8 {
            lemma_field_scan_count(line, delim, i + 2, true, i + 1, acc.push((start, i)));
        } else {
            lemma_field_scan_count(line, delim, i + 1, false, i + 1, acc.push((start, i)));
        }
    } else {
        lemma_field_scan_count(line, delim, i + 1, false, start, acc);
    }
}

/// A line of `n` bytes has at most `n + 1` fields.
pub proof fn lemma_field_count_bound(line: Seq<u8>, delim: u8)
    ensures
        field_ranges(line, delim).len() <= line.len() + 1,
{
    let q = line.len() > 0 && line[0] == 34u8;
    lemma_field_scan_count(line, delim, if q { 1 } else { 0 }, q, 0, seq![]);
}

/// Every line has at least one field, and each field range lies in order
/// inside the line.
pub proof fn lemma_field_ranges_wf(line: Seq<u8>, delim: u8)
    ensures
        field_ranges(line, delim).len() >= 1,
        forall|k: int| 0 <= k < field_ranges(line, delim).len() ==>
            0 <= #[trigger] field_ranges(line, delim)[k].0 <= field_ranges(line, delim)[k].1 <= line.len(),
{
    let q = line.len() > 0 && line[0] == 34u8;
    lemma_field_scan(line, delim, if q { 1 } else { 0 }, q, 0, seq![]);
}

/// The byte range `[start, end)` of field `col` of `line` (quotes
/// included), or `None` when the line has fewer fields.
pub fn field_bounds(line: &[u8], delim: u8, col: usize) -> (r: Option<(usize, usize)>)
    ensures
        col < field_ranges(line@, delim).len() ==> (r matches Some(b)
            && b.0 == field_ranges(line@, delim)[col as int].0 && b.1 == field_ranges(line@, delim)[col as int].1),
        col >= field_ranges(line@, delim).len() ==> r is None,
{
    let mut idx: usize = 0;
    let mut field_start: usize = 0;
    let mut in_quotes = line.len() > 0 && line[0] == 34u8;
    let mut i: usize = if in_quotes { 1 } else { 0 };
    let ghost mut acc: Seq<(int, int)> = seq![];
    proof { lemma_field_scan(line@, delim, i as int, in_quotes, 0, acc); }
    while i < line.len()
        invariant
            field_start <= i <= line@.len() + 1,
            field_start <= line@.len(),
            idx == acc.len(),
            idx <= col,
            forall|k: int| 0 <= k < acc.len() ==> 0 <= #[trigger] acc[k].0 <= acc[k].1 <= line@.len(),
            field_scan(line@, delim, i as int, in_quotes, field_start as int, acc) == field_ranges(line@, delim),
        decreases line.len() + 1 - i,
    {
        let b = line[i];
        if in_quotes {
            if b == 34u8 {
                if i + 1 < line.len() && line[i + 1] == 34u8 {
                    i += 2;
                    continue;
                }
                in_quotes = false;
            }
        } else if b == delim {
            proof { lemma_field_scan(line@, delim, i as int, in_quotes, field_start as int, acc); }
            if idx == col {
                proof {
                    let r = field_ranges(line@, delim);
                    lemma_field_scan(line@, delim, i as int + 1, false, i as int + 1, acc.push((field_start as int, i as int)));
                    lemma_field_scan(line@, delim, i as int + 2, true, i as int + 1, acc.push((field_start as int, i as int)));
                    assert(r.take(acc.len() as int + 1)[col as int] == (field_start as int, i as int));
                }
                return Some((field_start, i));
            }
            proof { acc = acc.push((field_start as int, i as int)); }
            idx += 1;
            field_start = i + 1;
            if field_start < line.len() && line[field_start] == 34u8 {
                in_quotes = true;
                i = field_start + 1;
                continue;
            }
        }
        i += 1;
    }
    proof { lemma_field_scan(line@, delim, i as int, in_quotes, field_start as int, acc); }
    if idx == col {
        proof {
            let r = field_ranges(line@, delim);
            assert(r == acc.push((field_start as int, line@.len() as int)));
        }
        return Some((field_start, line.len()));
    }
    proof {
        assert(field_ranges(line@, delim) == acc.push((field_start as int, line@.len() as int)));
    }
    None
}


/// The bytes of field `col` of `line` (quotes left in place), or `None` when
/// the line has fewer fields. Allocates nothing: this is the sort-key path.
pub fn field_slice(line: &[u8], delim: u8, col: usize) -> (r: Option<&[u8]>)
    ensures
        col < field_ranges(line@, delim).len() ==> (r matches Some(f)
            && f@ == line@.subrange(field_ranges(line@, delim)[col as int].0, field_ranges(line@, delim)[col as int].1)),
        col >= field_ranges(line@, delim).len() ==> r is None,
{
    proof { lemma_field_ranges_wf(line@, delim); }
    match field_bounds(line, delim, col) {
        Some((s, e)) => Some(vstd::slice::slice_subrange(line, s, e)),
        None => None,
    }
}


/// A field needs quoting when it holds the delimiter, a quote or a line break.
pub open spec fn needs_quote(f: Seq<char>, d: char) -> bool {
    f.contains(d) || f.contains('"') || f.contains('\n') || f.contains('\r')
}

/// `f` with every `"` doubled.
pub open spec fn escape_quotes(f: Seq<char>) -> Seq<char>
    decreases f.len(),
{
    if f.len() == 0 {
        seq![]
    } else {
        escape_quotes(f.drop_last()) + if f.last() == '"' { seq!['"', '"'] } else { seq![f.last()] }
    }
}

/// One field as written to a CSV line.
pub open spec fn quote_field(f: Seq<char>, d: char) -> Seq<char> {
    if needs_quote(f, d) { seq!['"'] + escape_quotes(f) + seq!['"'] } else { f }
}

/// Fields joined by the delimiter, each quoted as needed.
pub open spec fn joined(fs: Seq<Seq<char>>, d: char) -> Seq<char>
    decreases fs.len(),
{
    if fs.len() == 0 {
        seq![]
    } else if fs.len() == 1 {
        quote_field(fs[0], d)
    } else {
        joined(fs.drop_last(), d) + seq![d] + quote_field(fs.last(), d)
    }
}

/// The views of a slice of strings.
pub open spec fn views(v: Seq<String>) -> Seq<Seq<char>> {
    v.map_values(|s: String| s@)
}

/// Appends `f` to `out` as one CSV field for delimiter `d`.
fn push_quoted(out: &mut Vec<char>, f: &str, d: char)
    ensures
        final(out)@ == old(out)@ + quote_field(f@, d),
{
    let cs = chars_of(f);
    let mut needs = false;
    let mut i: usize = 0;
    while i < cs.len()
        invariant
            cs@ == f@,
            0 <= i <= cs@.len(),
            needs == needs_quote(cs@.take(i as int), d),
        decreases cs.len() - i,
    {
        let c = cs[i];
        proof {
            let t = cs@.take(i as int + 1);
            assert(t == cs@.take(i as int).push(c));
            assert(t[i as int] == c);
            assert(t.contains(c));
            assert forall|x: char| t.contains(x) <==> cs@.take(i as int).contains(x) || x == c by {
                if t.contains(x) {
                    let k = choose|k: int| 0 <= k < t.len() && t[k] == x;
                    if k < i {
                        assert(cs@.take(i as int)[k] == x);
                    }
                }
                if cs@.take(i as int).contains(x) {
                    let k = choose|k: int| 0 <= k < i && cs@.take(i as int)[k] == x;
                    assert(t[k] == x);
                }
            }
        }
        if c == d || c == '"' || c == '\n' || c == '\r' {
            needs = true;
        }
        i += 1;
    }
    assert(cs@.take(cs@.len() as int) == cs@);
    if !needs {
        let ghost start = out@;
        let mut j: usize = 0;
        while j < cs.len()
            invariant
                0 <= j <= cs@.len(),
                out@ == start + cs@.take(j as int),
            decreases cs.len() - j,
        {
            out.push(cs[j]);
            j += 1;
            assert(out@ =~= start + cs@.take(j as int));
        }
        assert(cs@.take(cs@.len() as int) == cs@);
        return;
    }
    out.push('"');
    let ghost start = out@;
    let mut j: usize = 0;
    while j < cs.len()
        invariant
            0 <= j <= cs@.len(),
            out@ == start + escape_quotes(cs@.take(j as int)),
        decreases cs.len() - j,
    {
        let c = cs[j];
        assert(cs@.take(j as int + 1).drop_last() == cs@.take(j as int));
        if c == '"' {
            out.push('"');
        }
        out.push(c);
        j += 1;
        assert(out@ =~= start + escape_quotes(cs@.take(j as int)));
    }
    out.push('"');
    assert(cs@.take(cs@.len() as int) == cs@);
}

/// Joins fields with the delimiter. A value holding the delimiter, `"`, or a
/// line break is wrapped in quotes, with inner quotes doubled.
pub fn join_fields(fields: &[String], delim: u8) -> (s: String)
    ensures
        s@ == joined(views(fields@), delim as char),
{
    let d = delim as char;
    let mut out: Vec<char> = Vec::new();
    let mut i: usize = 0;
    while i < fields.len()
        invariant
            0 <= i <= fields@.len(),
            d == delim as char,
            out@ == joined(views(fields@).take(i as int), d),
        decreases fields.len() - i,
    {
        let ghost prev = views(fields@).take(i as int);
        if i > 0 {
            out.push(d);
        }
        push_quoted(&mut out, fields[i].as_str(), d);
        i += 1;
        proof {
            let cur = views(fields@).take(i as int);
            assert(cur.drop_last() =~= prev);
            assert(cur.last() == fields@[i - 1]@);
            if i == 1 {
                assert(cur.len() == 1);
            }
        }
    }
    assert(views(fields@).take(fields@.len() as int) =~= views(fields@));
    string_of(out.as_slice())
}


/// The text of every field of every row.
pub open spec fn rows_view(rows: Seq<Vec<String>>) -> Seq<Seq<Seq<char>>> {
    rows.map_values(|r: Vec<String>| views(r@))
}

/// Some field of `row` is numeric.
pub open spec fn row_has_numeric(row: Seq<Seq<char>>) -> bool {
    exists|j: int| 0 <= j < row.len() && is_numeric_text(#[trigger] row[j])
}

/// Some row after the first has a numeric field.
pub open spec fn body_has_numeric(rows: Seq<Seq<Seq<char>>>) -> bool {
    exists|i: int| 1 <= i < rows.len() && row_has_numeric(#[trigger] rows[i])
}

/// The first row is taken for a header unless both it and the rows below
/// hold numeric fields (then it looks like data). With fewer than two rows,
/// or when nothing decides it, the answer is `true`.
pub open spec fn spec_detect_header(rows: Seq<Seq<Seq<char>>>) -> bool {
    !(rows.len() >= 2 && row_has_numeric(rows[0]) && body_has_numeric(rows))
}

/// The header guess in terms of the fields themselves: the first row is
/// taken for data, not a header, exactly when there are at least two rows,
/// some field of the first row is numeric, and some field of a later row is
/// numeric; any field counts, not only the first.
pub proof fn lemma_header_guess(rows: Seq<Seq<Seq<char>>>)
    ensures
        spec_detect_header(rows) == !(rows.len() >= 2
            && (exists|j: int| 0 <= j < rows[0].len() && is_numeric_text(#[trigger] rows[0][j]))
            && (exists|i: int, j: int| 1 <= i < rows.len() && 0 <= j < rows[i].len()
                && is_numeric_text(#[trigger] rows[i][j]))),
{
    if rows.len() >= 2 {
        if exists|i: int, j: int| 1 <= i < rows.len() && 0 <= j < rows[i].len() && is_numeric_text(#[trigger] rows[i][j]) {
            let (i, j) = choose|i: int, j: int| 1 <= i < rows.len() && 0 <= j < rows[i].len()
                && is_numeric_text(#[trigger] rows[i][j]);
            assert(row_has_numeric(rows[i]));
        }
        if body_has_numeric(rows) {
            let i = choose|i: int| 1 <= i < rows.len() && row_has_numeric(#[trigger] rows[i]);
            let j = choose|j: int| 0 <= j < rows[i].len() && is_numeric_text(#[trigger] rows[i][j]);
            assert(is_numeric_text(rows[i][j]));
        }
    }
}

fn any_numeric(row: &Vec<String>) -> (r: bool)
    ensures
        r == row_has_numeric(views(row@)),
{
    let mut j: usize = 0;
    while j < row.len()
        invariant
            0 <= j <= row@.len(),
            forall|k: int| 0 <= k < j ==> !is_numeric_text(#[trigger] views(row@)[k]),
        decreases row.len() - j,
    {
        if is_numeric(row[j].as_str()) {
            assert(is_numeric_text(views(row@)[j as int]));
            return true;
        }
        j += 1;
    }
    false
}

/// Guesses whether the first row is a header: yes when it is all text and
/// numbers appear below it, no when numbers appear both in it and below it,
/// and yes whenever the sample is too small or the case is unclear.
pub fn detect_header(rows: &[Vec<String>]) -> (h: bool)
    ensures
        h == spec_detect_header(rows_view(rows@)),
{
    if rows.len() < 2 {
        return true;
    }
    let mut body = false;
    let mut i: usize = 1;
    while i < rows.len()
        invariant
            1 <= i <= rows@.len(),
            body == exists|k: int| 1 <= k < i && row_has_numeric(#[trigger] rows_view(rows@)[k]),
        decreases rows.len() - i,
    {
        if any_numeric(&rows[i]) {
            assert(row_has_numeric(rows_view(rows@)[i as int]));
            body = true;
        }
        i += 1;
    }
    let first_numeric = any_numeric(&rows[0]);
    let first_all_text = rows[0].len() > 0 && !first_numeric;
    if first_all_text && body {
        return true;
    }
    if first_numeric && body {
        return false;
    }
    true
}


/// The text `String::from_utf8_lossy` makes of `bytes`: each malformed
/// sequence becomes U+FFFD.
pub uninterp spec fn lossy_utf8(bytes: Seq<u8>) -> Seq<char>;

/// The text of `bytes` as `String::from_utf8_lossy` gives it: the decoded
/// characters when the bytes are well-formed UTF-8, `lossy_utf8` otherwise.
pub open spec fn text_of(bytes: Seq<u8>) -> Seq<char> {
    if valid_utf8(bytes) { decode_utf8(bytes) } else { lossy_utf8(bytes) }
}

/// `String::from_utf8_lossy`, made owned. Its result is named `lossy_utf8`;
/// as its documentation says, well-formed UTF-8 comes back unchanged.
#[verifier::external_body]
pub(crate) fn utf8_lossy(bytes: &[u8]) -> (s: String)
    ensures
        s@ == lossy_utf8(bytes@),
        valid_utf8(bytes@) ==> s@ == decode_utf8(bytes@),
{
    String::from_utf8_lossy(bytes).into_owned()
}

#[verifier::external_type_specification]
#[verifier::external_body]
pub struct ExCsvReader(csv_core::Reader);

/// What one `read_record` call reports (`csv_core::ReadRecordResult`).
#[derive(Debug, Clone, Copy, PartialEq, Eq, Structural)]
pub enum RecordStep {
    InputEmpty,
    OutputFull,
    OutputEndsFull,
    Record,
    End,
}

/// A call made on a CSV reader: the input it was given and the room in the
/// output and end-position buffers.
pub type CsvCallArgs = (Seq<u8>, nat, nat);

/// A `csv_core` reader together with the delimiter it was built with and,
/// as ghost state, every call made on it since it was built or last reset.
/// The reader is a deterministic state machine: what its next call reports
/// depends on these and on that call's arguments alone.
pub struct FieldReader {
    reader: csv_core::Reader,
    delim: u8,
    calls: Ghost<Seq<CsvCallArgs>>,
}

impl View for FieldReader {
    type V = (u8, Seq<CsvCallArgs>);

    /// The delimiter and the calls made since the reader was built or reset.
    closed spec fn view(&self) -> (u8, Seq<CsvCallArgs>) {
        (self.delim, self.calls@)
    }
}

/// What `csv_core::Reader::read_record` reports on `input` (with `out_len`
/// bytes of output room and `ends_len` end positions of room) when the
/// reader was built with delimiter `delim` and the crate's other defaults
/// and has since been given exactly the calls `past`: the result kind, the
/// bytes of input read, the bytes written to the front of the output and
/// the end positions written.
pub uninterp spec fn csv_call(delim: u8, past: Seq<CsvCallArgs>, input: Seq<u8>, out_len: nat, ends_len: nat) -> (RecordStep, nat, Seq<u8>, Seq<usize>);

/// `csv_core::ReaderBuilder::new().delimiter(delim).build()`: a CSV reader
/// with `delim` as the field delimiter and the crate's other defaults, not
/// yet used.
#[verifier::external_body]
fn csv_reader(delim: u8) -> (r: FieldReader)
    ensures
        r@ == (delim, Seq::<CsvCallArgs>::empty()),
{
    FieldReader { reader: csv_core::ReaderBuilder::new().delimiter(delim).build(), delim, calls: Ghost(Seq::empty()) }
}

/// `csv_core::Reader::read_record` on `input`, writing field bytes to the
/// front of `output` and field end positions to `ends[ends_from..]`. Its
/// report is named `csv_call`, over the reader's delimiter and past calls;
/// stated besides are the bounds its documentation gives (the counts never
/// exceed the input and the room), that only the front `nout` bytes of
/// `output` and the `nend` slots of `ends` from `ends_from` are written (as
/// its source shows), and that the call joins the reader's past calls.
#[verifier::external_body]
fn csv_read_record(
    reader: &mut FieldReader,
    input: &[u8],
    output: &mut Vec<u8>,
    ends: &mut Vec<usize>,
    ends_from: usize,
) -> (r: (RecordStep, usize, usize, usize))
    requires
        ends_from <= old(ends)@.len(),
    ensures
        ({
            let c = csv_call(old(reader)@.0, old(reader)@.1, input@, old(output)@.len(), (old(ends)@.len() - ends_from) as nat);
            &&& r.0 == c.0
            &&& r.1 == c.1
            &&& r.2 == c.2.len()
            &&& r.3 == c.3.len()
            &&& final(output)@ == c.2 + old(output)@.skip(c.2.len() as int)
            &&& final(ends)@ == old(ends)@.take(ends_from as int) + c.3 + old(ends)@.skip(ends_from + c.3.len())
        }),
        r.1 <= input@.len(),
        r.2 <= old(output)@.len(),
        r.3 <= old(ends)@.len() - ends_from,
        final(reader)@ == (old(reader)@.0, old(reader)@.1.push((input@, old(output)@.len(), (old(ends)@.len() - ends_from) as nat))),
{
    let (res, nin, nout, nend) = reader.reader.read_record(input, output.as_mut_slice(), &mut ends[ends_from..]);
    let step = match res {
        csv_core::ReadRecordResult::InputEmpty => RecordStep::InputEmpty,
        csv_core::ReadRecordResult::OutputFull => RecordStep::OutputFull,
        csv_core::ReadRecordResult::OutputEndsFull => RecordStep::OutputEndsFull,
        csv_core::ReadRecordResult::Record => RecordStep::Record,
        csv_core::ReadRecordResult::End => RecordStep::End,
    };
    (step, nin, nout, nend)
}

/// `csv_core::Reader::reset`: as its documentation says, the reader then
/// behaves as if it had never been used (its delimiter is kept).
#[verifier::external_body]
fn csv_reset(reader: &mut FieldReader)
    ensures
        final(reader)@ == (old(reader)@.0, Seq::<CsvCallArgs>::empty()),
{
    reader.reader.reset();
}

/// The state of `split_fields_with`'s reading loop: position in the line,
/// output and end-position buffers, end positions filled, the reader's past
/// calls, and whether the loop has stopped.
pub struct CsvScan {
    pub pos: nat,
    pub out: Seq<u8>,
    pub ends: Seq<usize>,
    pub nend: nat,
    pub past: Seq<CsvCallArgs>,
    pub done: bool,
}

/// `v` followed by `n` zeros.
pub open spec fn grown<T>(v: Seq<T>, n: nat, zero: T) -> Seq<T> {
    v + Seq::new(n, |i: int| zero)
}

/// One round of the reading loop on line bytes `b`: call the reader on the
/// rest of the line; stop on a record or the end; on a full buffer double it
/// (while that fits); after the line is used up, call once more with no
/// input (the end of data), and stop once the line is used up and some
/// field has ended.
pub open spec fn csv_round(d: u8, b: Seq<u8>, s: CsvScan) -> CsvScan {
    let input = b.subrange(s.pos as int, b.len() as int);
    let room = (s.ends.len() - s.nend) as nat;
    let c = csv_call(d, s.past, input, s.out.len(), room);
    let pos = s.pos + c.1;
    let out0 = c.2 + s.out.skip(c.2.len() as int);
    let ends0 = s.ends.take(s.nend as int) + c.3 + s.ends.skip((s.nend + c.3.len()) as int);
    let nend = s.nend + c.3.len();
    let past = s.past.push((input, s.out.len(), room));
    let out = if c.0 == RecordStep::OutputFull && out0.len() <= usize::MAX / 2 { grown(out0, out0.len(), 0u8) } else { out0 };
    let ends = if c.0 == RecordStep::OutputEndsFull && ends0.len() <= usize::MAX / 2 { grown(ends0, ends0.len(), 0usize) } else { ends0 };
    let done = match c.0 {
        RecordStep::End => true,
        RecordStep::Record => true,
        RecordStep::InputEmpty => false,
        _ => pos == b.len() && nend > 0,
    };
    CsvScan { pos, out, ends, nend, past, done }
}

/// The reading loop run for at most `fuel` rounds.
pub open spec fn csv_rounds(d: u8, b: Seq<u8>, s: CsvScan, fuel: nat) -> CsvScan
    decreases fuel,
{
    if fuel == 0 || s.done { s } else { csv_rounds(d, b, csv_round(d, b, s), (fuel - 1) as nat) }
}

/// The room the reading loop starts with: one more than the line's length,
/// where that fits.
pub open spec fn csv_room(n: nat) -> nat {
    if n < usize::MAX { n + 1 } else { n }
}

/// The reading loop on the bytes `b` of one line from a fresh reader, with
/// room for one byte and one end position more than the line has, after at
/// most 64 rounds.
pub open spec fn csv_scan(d: u8, b: Seq<u8>) -> CsvScan {
    let room = csv_room(b.len());
    let start = CsvScan {
        pos: 0,
        out: Seq::new(room, |i: int| 0u8),
        ends: Seq::new(room, |i: int| 0usize),
        nend: 0,
        past: Seq::empty(),
        done: false,
    };
    csv_rounds(d, b, start, 64)
}

/// Field `i` of a finished scan: the lossy text of the output between the
/// previous end position (0 for the first) and its own, or empty where those
/// do not make a range of the output.
pub open spec fn scan_field(s: CsvScan, i: int) -> Seq<char> {
    let start: int = if i == 0 { 0 } else { s.ends[i - 1] as int };
    let end: int = s.ends[i] as int;
    if start <= end && end <= s.out.len() { lossy_utf8(s.out.subrange(start, end)) } else { seq![] }
}

/// The fields `csv_core` reads from one line with delimiter `d`, as the
/// reading loop (`csv_scan`) collects them from the reader's reports
/// (`csv_call`): the output between consecutive end positions, in order, as
/// lossy UTF-8 text; a line where the reader reports no field end gives one
/// empty field.
pub open spec fn csv_fields(line: Seq<char>, d: u8) -> Seq<Seq<char>> {
    let s = csv_scan(d, encode_utf8(line));
    let n = if s.nend <= s.ends.len() { s.nend } else { s.ends.len() };
    if n == 0 { seq![Seq::<char>::empty()] } else { Seq::new(n, |i: int| scan_field(s, i)) }
}

/// Splits one line into fields with `csv_core` (quotes honoured, `""` an
/// escaped quote, a leading UTF-8 byte-order mark dropped): the fields
/// `csv_fields` names, always at least one.
pub fn split_fields(line: &str, delim: u8) -> (fields: Vec<String>)
    ensures
        views(fields@) == csv_fields(line@, delim),
        fields@.len() >= 1,
{
    let mut reader = csv_reader(delim);
    split_fields_with(&mut reader, line)
}

/// Makes a reader for `split_fields_with`, splitting on `delim`.
pub(crate) fn fields_reader(delim: u8) -> (r: FieldReader)
    ensures
        r@ == (delim, Seq::<CsvCallArgs>::empty()),
{
    csv_reader(delim)
}

/// `n` zero bytes.
fn zero_bytes(n: usize) -> (v: Vec<u8>)
    ensures
        v@ == Seq::new(n as nat, |i: int| 0u8),
{
    let mut v: Vec<u8> = Vec::new();
    while v.len() < n
        invariant
            v@.len() <= n,
            forall|i: int| 0 <= i < v@.len() ==> v@[i] == 0u8,
        decreases n - v.len(),
    {
        v.push(0u8);
    }
    assert(v@ =~= Seq::new(n as nat, |i: int| 0u8));
    v
}

/// `n` zero positions.
fn zero_positions(n: usize) -> (v: Vec<usize>)
    ensures
        v@ == Seq::new(n as nat, |i: int| 0usize),
{
    let mut v: Vec<usize> = Vec::new();
    while v.len() < n
        invariant
            v@.len() <= n,
            forall|i: int| 0 <= i < v@.len() ==> v@[i] == 0usize,
        decreases n - v.len(),
    {
        v.push(0usize);
    }
    assert(v@ =~= Seq::new(n as nat, |i: int| 0usize));
    v
}

/// Appends `n` zero bytes.
fn grow_bytes(v: &mut Vec<u8>, n: usize)
    ensures
        final(v)@ == grown(old(v)@, n as nat, 0u8),
{
    let ghost start = v@;
    let mut k: usize = 0;
    while k < n
        invariant
            k <= n,
            v@ == grown(start, k as nat, 0u8),
        decreases n - k,
    {
        v.push(0u8);
        k += 1;
        assert(v@ =~= grown(start, k as nat, 0u8));
    }
}

/// Appends `n` zero positions.
fn grow_positions(v: &mut Vec<usize>, n: usize)
    ensures
        final(v)@ == grown(old(v)@, n as nat, 0usize),
{
    let ghost start = v@;
    let mut k: usize = 0;
    while k < n
        invariant
            k <= n,
            v@ == grown(start, k as nat, 0usize),
        decreases n - k,
    {
        v.push(0usize);
        k += 1;
        assert(v@ =~= grown(start, k as nat, 0usize));
    }
}

/// `split_fields` with a reader made by `fields_reader`, reset before use:
/// a scan over many lines builds the reader once.
pub(crate) fn split_fields_with(reader: &mut FieldReader, line: &str) -> (fields: Vec<String>)
    ensures
        views(fields@) == csv_fields(line@, old(reader)@.0),
        fields@.len() >= 1,
        final(reader)@.0 == old(reader)@.0,
{
    csv_reset(reader);
    let ghost d = reader@.0;
    let bytes = line.as_bytes();
    let ghost b = bytes@;
    assert(b == encode_utf8(line@));
    let n = bytes.len();
    let size: usize = if n < usize::MAX { n + 1 } else { n };
    let mut out = zero_bytes(size);
    let mut ends = zero_positions(size);
    let mut pos: usize = 0;
    let mut total_nend: usize = 0;
    let mut fuel: usize = 64;
    let mut stop = false;
    let ghost full = csv_scan(d, b);
    while fuel > 0 && !stop
        invariant
            pos <= n == b.len(),
            b == bytes@,
            total_nend <= ends@.len(),
            reader@.0 == d,
            full == csv_scan(d, b),
            fuel <= 64,
            csv_rounds(d, b, CsvScan { pos: pos as nat, out: out@, ends: ends@, nend: total_nend as nat, past: reader@.1, done: stop }, fuel as nat) == full,
        decreases fuel,
    {
        let ghost s = CsvScan { pos: pos as nat, out: out@, ends: ends@, nend: total_nend as nat, past: reader@.1, done: stop };
        fuel -= 1;
        let input = vstd::slice::slice_subrange(bytes, pos, n);
        let elen = ends.len();
        let (res, nin, _nout, nend) = csv_read_record(reader, input, &mut out, &mut ends, total_nend);
        assert(nend <= elen - total_nend);
        total_nend = total_nend + nend;
        pos = pos + nin;
        match res {
            RecordStep::End => {
                stop = true;
            },
            RecordStep::Record => {
                stop = true;
            },
            RecordStep::InputEmpty => {},
            RecordStep::OutputFull => {
                let len = out.len();
                if len <= usize::MAX / 2 {
                    grow_bytes(&mut out, len);
                }
                stop = pos == n && total_nend > 0;
            },
            RecordStep::OutputEndsFull => {
                let len = ends.len();
                if len <= usize::MAX / 2 {
                    grow_positions(&mut ends, len);
                }
                stop = pos == n && total_nend > 0;
            },
        }
        proof {
            let s2 = CsvScan { pos: pos as nat, out: out@, ends: ends@, nend: total_nend as nat, past: reader@.1, done: stop };
            assert(csv_round(d, b, s) == s2);
        }
    }
    proof {
        let s = CsvScan { pos: pos as nat, out: out@, ends: ends@, nend: total_nend as nat, past: reader@.1, done: stop };
        assert(csv_rounds(d, b, s, fuel as nat) == s);
    }
    let mut fields: Vec<String> = Vec::new();
    let mut i: usize = 0;
    while i < total_nend
        invariant
            total_nend <= ends@.len(),
            full.out == out@,
            full.ends == ends@,
            full.nend == total_nend,
            0 <= i <= total_nend,
            views(fields@) == Seq::new(i as nat, |k: int| scan_field(full, k)),
        decreases total_nend - i,
    {
        let start: usize = if i == 0 { 0 } else { ends[i - 1] };
        let end = ends[i];
        let ghost prev = fields@;
        let t = if start <= end && end <= out.len() {
            let piece = vstd::slice::slice_subrange(out.as_slice(), start, end);
            utf8_lossy(piece)
        } else {
            String::new()
        };
        assert(t@ == scan_field(full, i as int));
        fields.push(t);
        assert(views(fields@) =~= views(prev).push(t@));
        i += 1;
        assert(views(fields@) =~= Seq::new(i as nat, |k: int| scan_field(full, k)));
    }
    if fields.len() == 0 {
        fields.push(String::new());
        assert(views(fields@) =~= seq![Seq::<char>::empty()]);
    }
    fields
}

#[verifier::external_type_specification]
#[verifier::external_body]
pub struct ExPath(std::path::Path);

/// What `Path::extension` then `OsStr::to_str` give for `path`: the part of
/// the file name after its last dot, when there is one and it is valid
/// Unicode.
pub uninterp spec fn path_ext(p: &std::path::Path) -> Option<Seq<char>>;

/// The extension of `path` (`Path::extension`, then `OsStr::to_str`); its
/// result is named `path_ext`.
#[verifier::external_body]
fn path_extension(path: &std::path::Path) -> (e: Option<String>)
    ensures
        match e {
            Some(x) => path_ext(path) == Some(x@),
            None => path_ext(path) is None,
        },
{
    path.extension().and_then(|e| e.to_str()).map(|e| e.to_string())
}

/// Occurrences of byte `b` in `s`.
pub open spec fn count_byte(s: Seq<u8>, b: u8) -> nat
    decreases s.len(),
{
    if s.len() == 0 {
        0
    } else {
        count_byte(s.drop_last(), b) + if s.last() == b { 1nat } else { 0nat }
    }
}

/// The bytes of each sample line.
pub open spec fn line_bytes(lines: Seq<&str>) -> Seq<Seq<u8>> {
    lines.map_values(|l: &str| encode_utf8(l@))
}

/// Sum over the first `k` lines of the count of `b`.
pub open spec fn sum_counts(ls: Seq<Seq<u8>>, b: u8, k: int) -> nat
    decreases k,
{
    if k <= 0 { 0 } else { sum_counts(ls, b, k - 1) + count_byte(ls[k - 1], b) }
}

/// Sum over the first `k` lines of the squared count of `b`.
pub open spec fn sum_squares(ls: Seq<Seq<u8>>, b: u8, k: int) -> nat
    decreases k,
{
    if k <= 0 { 0 } else { sum_squares(ls, b, k - 1) + count_byte(ls[k - 1], b) * count_byte(ls[k - 1], b) }
}

/// Total length of the first `k` lines.
pub open spec fn total_len(ls: Seq<Seq<u8>>, k: int) -> nat
    decreases k,
{
    if k <= 0 { 0 } else { total_len(ls, k - 1) + ls[k - 1].len() }
}

/// `n` squared times the variance of the per-line counts of `b`
/// (`n` lines): `n * Σc² - (Σc)²`. Comparing it across candidates compares
/// their variances.
pub open spec fn spread(ls: Seq<Seq<u8>>, b: u8) -> int {
    ls.len() * sum_squares(ls, b, ls.len() as int) - sum_counts(ls, b, ls.len() as int) * sum_counts(ls, b, ls.len() as int)
}

/// `b` occurs at least once per line on average.
pub open spec fn frequent(ls: Seq<Seq<u8>>, b: u8) -> bool {
    ls.len() > 0 && sum_counts(ls, b, ls.len() as int) >= ls.len()
}

/// The candidate delimiters, in order of preference on ties.
pub open spec fn candidate(k: int) -> u8 {
    if k == 0 { 44u8 } else if k == 1 { 9u8 } else if k == 2 { 124u8 } else { 59u8 }
}

/// Among candidates `k..4`, starting from `best`, the frequent one with the
/// strictly lowest spread (earlier candidates win ties).
pub open spec fn pick_from(ls: Seq<Seq<u8>>, k: int, best: Option<u8>) -> Option<u8>
    decreases 4 - k,
{
    if k >= 4 {
        best
    } else {
        let c = candidate(k);
        let better = frequent(ls, c) && (best is None || spread(ls, c) < spread(ls, best->0));
        pick_from(ls, k + 1, if better { Some(c) } else { best })
    }
}

/// The delimiter that the content suggests, or plain text when no candidate
/// occurs at least once per line on average.
pub open spec fn content_separator(ls: Seq<Seq<u8>>) -> SeparatorMode {
    match pick_from(ls, 0, None) {
        Some(b) => SeparatorMode::Char(b),
        None => SeparatorMode::Plain,
    }
}

/// ASCII letters lowered, other characters kept (`str::to_ascii_lowercase`).
pub open spec fn ascii_lower(s: Seq<char>) -> Seq<char> {
    s.map_values(|c: char| if 'A' <= c <= 'Z' { ((c as u32) + 32) as char } else { c })
}

/// The separator for a file with extension `ext` (if any) and these sample
/// lines: `tsv`/`tab` give tab, `csv` comma, `psv` pipe (any letter case);
/// anything else goes by the content.
pub open spec fn spec_detect_separator(ext: Option<Seq<char>>, ls: Seq<Seq<u8>>) -> SeparatorMode {
    match ext {
        Some(e) => {
            let e = ascii_lower(e);
            if e == seq!['t', 's', 'v'] || e == seq!['t', 'a', 'b'] {
                SeparatorMode::Char(9u8)
            } else if e == seq!['c', 's', 'v'] {
                SeparatorMode::Char(44u8)
            } else if e == seq!['p', 's', 'v'] {
                SeparatorMode::Char(124u8)
            } else {
                content_separator(ls)
            }
        },
        None => content_separator(ls),
    }
}

fn count_in(bytes: &[u8], b: u8) -> (n: u64)
    requires
        bytes@.len() <= u32::MAX,
    ensures
        n == count_byte(bytes@, b),
        n <= bytes@.len(),
{
    let mut n: u64 = 0;
    let mut i: usize = 0;
    while i < bytes.len()
        invariant
            0 <= i <= bytes@.len() <= u32::MAX,
            n == count_byte(bytes@.take(i as int), b),
            n <= i,
        decreases bytes.len() - i,
    {
        assert(bytes@.take(i as int + 1).drop_last() =~= bytes@.take(i as int));
        if bytes[i] == b {
            n += 1;
        }
        i += 1;
    }
    assert(bytes@.take(bytes@.len() as int) =~= bytes@);
    n
}

proof fn lemma_sums_bounded(ls: Seq<Seq<u8>>, b: u8, k: int)
    requires
        0 <= k <= ls.len(),
    ensures
        sum_counts(ls, b, k) <= total_len(ls, k),
        sum_squares(ls, b, k) <= total_len(ls, k) * total_len(ls, k),
    decreases k,
{
    if k > 0 {
        lemma_sums_bounded(ls, b, k - 1);
        lemma_count_le(ls[k - 1], b);
        let c = count_byte(ls[k - 1], b);
        let t = total_len(ls, k - 1);
        let l = ls[k - 1].len();
        assert(c * c <= l * l) by (nonlinear_arith)
            requires c <= l;
        assert(t * t + l * l <= (t + l) * (t + l)) by (nonlinear_arith);
    }
}

proof fn lemma_count_le(s: Seq<u8>, b: u8)
    ensures
        count_byte(s, b) <= s.len(),
    decreases s.len(),
{
    if s.len() > 0 {
        lemma_count_le(s.drop_last(), b);
    }
}

pub(crate) proof fn lemma_total_len_mono(ls: Seq<Seq<u8>>, j: int, k: int)
    requires
        0 <= j <= k <= ls.len(),
    ensures
        total_len(ls, j) <= total_len(ls, k),
    decreases k - j,
{
    if j < k {
        lemma_total_len_mono(ls, j, k - 1);
    }
}

/// Choice by content alone: for each candidate delimiter, its per-line
/// counts; among those averaging at least one per line, the one whose
/// counts vary least (exact integer arithmetic; ties keep the earlier of
/// comma, tab, pipe, semicolon). No such candidate means plain text.
pub fn separator_from_content(head_lines: &[&str]) -> (m: SeparatorMode)
    requires
        head_lines@.len() <= u32::MAX,
        total_len(line_bytes(head_lines@), head_lines@.len() as int) <= u32::MAX,
    ensures
        m == content_separator(line_bytes(head_lines@)),
{
    let ghost ls = line_bytes(head_lines@);
    let n = head_lines.len();
    let cands: [u8; 4] = [44u8, 9u8, 124u8, 59u8];
    let mut best: Option<u8> = None;
    let mut best_nq: u128 = 0;
    let mut best_s2: u128 = 0;
    let mut k: usize = 0;
    while k < 4
        invariant
            0 <= k <= 4,
            n == ls.len() == head_lines@.len(),
            n <= u32::MAX,
            total_len(ls, n as int) <= u32::MAX,
            cands@ == seq![44u8, 9u8, 124u8, 59u8],
            ls == line_bytes(head_lines@),
            best matches Some(b) ==> best_nq - best_s2 == spread(ls, b) && frequent(ls, b)
                && best_nq <= u32::MAX * (u32::MAX * u32::MAX) && best_s2 <= u32::MAX * u32::MAX,
            pick_from(ls, 0, None) == pick_from(ls, k as int, best),
        decreases 4 - k,
    {
        let c = cands[k];
        assert(c == candidate(k as int));
        let mut s: u128 = 0;
        let mut q: u128 = 0;
        let mut i: usize = 0;
        while i < n
            invariant
                0 <= i <= n == ls.len() == head_lines@.len(),
                n <= u32::MAX,
                total_len(ls, n as int) <= u32::MAX,
                ls == line_bytes(head_lines@),
                s == sum_counts(ls, c, i as int),
                q == sum_squares(ls, c, i as int),
            decreases n - i,
        {
            let bytes = head_lines[i].as_bytes();
            proof {
                lemma_total_len_mono(ls, i as int + 1, n as int);
                lemma_sums_bounded(ls, c, i as int);
                assert(bytes@ == ls[i as int]);
                let t = total_len(ls, i as int);
                assert(t * t <= u32::MAX * u32::MAX) by (nonlinear_arith)
                    requires t <= u32::MAX;
            }
            let cnt = count_in(bytes, c) as u128;
            proof {
                assert(cnt * cnt <= u32::MAX * u32::MAX) by (nonlinear_arith)
                    requires cnt <= u32::MAX;
            }
            s = s + cnt;
            q = q + cnt * cnt;
            i += 1;
        }
        if n > 0 && s >= n as u128 {
            proof {
                lemma_sums_bounded(ls, c, n as int);
                let t = total_len(ls, n as int);
                assert(t * t <= u32::MAX * u32::MAX) by (nonlinear_arith)
                    requires t <= u32::MAX;
                assert(n * q <= u32::MAX * (u32::MAX * u32::MAX)) by (nonlinear_arith)
                    requires n <= u32::MAX, q <= u32::MAX * u32::MAX;
                assert(s * s <= u32::MAX * u32::MAX) by (nonlinear_arith)
                    requires s <= u32::MAX;
            }
            let nq: u128 = (n as u128) * q;
            let s2: u128 = s * s;
            let take = match best {
                None => true,
                Some(_) => nq + best_s2 < best_nq + s2,
            };
            if take {
                best = Some(c);
                best_nq = nq;
                best_s2 = s2;
            }
        }
        k += 1;
    }
    match best {
        Some(b) => SeparatorMode::Char(b),
        None => SeparatorMode::Plain,
    }
}


/// `s` with ASCII letters lowered.
fn lowered(s: &str) -> (v: Vec<char>)
    ensures
        v@ == ascii_lower(s@),
{
    let cs = chars_of(s);
    let mut v: Vec<char> = Vec::new();
    let mut i: usize = 0;
    while i < cs.len()
        invariant
            0 <= i <= cs@.len(),
            cs@ == s@,
            v@ == ascii_lower(cs@.take(i as int)),
        decreases cs.len() - i,
    {
        let c = cs[i];
        let l = if 'A' <= c && c <= 'Z' { ((c as u32) + 32) as u8 as char } else { c };
        proof {
            if 'A' <= c && c <= 'Z' {
                assert(((c as u32) + 32) as u8 as char == ((c as u32) + 32) as char);
            }
        }
        v.push(l);
        i += 1;
        assert(v@ =~= ascii_lower(cs@.take(i as int)));
    }
    assert(cs@.take(cs@.len() as int) =~= cs@);
    v
}

fn same_chars(a: &[char], b: &[char]) -> (r: bool)
    ensures
        r == (a@ == b@),
{
    if a.len() != b.len() {
        return false;
    }
    let mut i: usize = 0;
    while i < a.len()
        invariant
            a@.len() == b@.len(),
            0 <= i <= a@.len(),
            forall|k: int| 0 <= k < i ==> a@[k] == b@[k],
        decreases a.len() - i,
    {
        if a[i] != b[i] {
            return false;
        }
        i += 1;
    }
    assert(a@ =~= b@);
    true
}

/// The separator for a file whose extension is `ext` (without the dot), from
/// the extension when it names a delimited format, else from the content.
pub fn separator_for(ext: Option<&str>, head_lines: &[&str]) -> (m: SeparatorMode)
    requires
        head_lines@.len() <= u32::MAX,
        total_len(line_bytes(head_lines@), head_lines@.len() as int) <= u32::MAX,
    ensures
        m == spec_detect_separator(
            match ext { Some(e) => Some(e@), None => None },
            line_bytes(head_lines@),
        ),
{
    if let Some(e) = ext {
        let low = lowered(e);
        let tsv: [char; 3] = ['t', 's', 'v'];
        let tab: [char; 3] = ['t', 'a', 'b'];
        let csv: [char; 3] = ['c', 's', 'v'];
        let psv: [char; 3] = ['p', 's', 'v'];
        assert(tsv@ == seq!['t', 's', 'v']);
        assert(tab@ == seq!['t', 'a', 'b']);
        assert(csv@ == seq!['c', 's', 'v']);
        assert(psv@ == seq!['p', 's', 'v']);
        if same_chars(low.as_slice(), &tsv) || same_chars(low.as_slice(), &tab) {
            return SeparatorMode::Char(9u8);
        }
        if same_chars(low.as_slice(), &csv) {
            return SeparatorMode::Char(44u8);
        }
        if same_chars(low.as_slice(), &psv) {
            return SeparatorMode::Char(124u8);
        }
    }
    separator_from_content(head_lines)
}

/// Picks how to split the file at `path`: by its extension first (`tsv`,
/// `tab`, `csv`, `psv`), else by which candidate delimiter occurs most
/// consistently in the sample lines; plain text when none occurs at least
/// once per line on average. The extension comes from `Path::extension`,
/// so the result is the choice for some extension (or none).
pub fn detect_separator(path: &std::path::Path, head_lines: &[&str]) -> (m: SeparatorMode)
    requires
        head_lines@.len() <= u32::MAX,
        total_len(line_bytes(head_lines@), head_lines@.len() as int) <= u32::MAX,
    ensures
        m == spec_detect_separator(path_ext(path), line_bytes(head_lines@)),
{
    let ext = path_extension(path);
    match ext {
        Some(e) => {
            let m = separator_for(Some(e.as_str()), head_lines);
            assert(m == spec_detect_separator(Some(e@), line_bytes(head_lines@)));
            m
        },
        None => {
            let m = separator_for(None, head_lines);
            assert(m == spec_detect_separator(None, line_bytes(head_lines@)));
            m
        },
    }
}

} // verus!
