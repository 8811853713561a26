//! Whole-cell replacement on plain rows: where `replace_all` takes its byte
//! path (`replace_cells_bytes`), it gives what `replace_in_line` gives.
use vstd::prelude::*;
use vstd::utf8::encode_utf8;
use crate::edit::{split_by, join_with, cell_text};
use crate::parse::{field_ranges, text_of};
use crate::fields::cstart;
use crate::edit::sanitize;
use crate::convert::listed;
use crate::find::{
    cell_texts, cell_hit, cell_hits, splice_from, replaced_cells, equal_cells, cell_equals,
    plain_line, csv_simple, scoped_hits, FindOptions, MatchScope, replace_all_result,
    row_outcome, changes_explained, sum_of, spec_prefilter_skips, spec_find_in_line, texts_equal,
};

verus! {

/// The cells of a line without a quote, read by the CSV field scan, are its
/// pieces between delimiters.
pub proof fn lemma_plain_cell_texts(s: Seq<char>, d: u8)
    requires
        d < 128,
        !s.contains('"'),
    ensures
        cell_texts(s, d) == split_by(s, d as char),
{
    let b = encode_utf8(s);
    let fs = split_by(s, d as char);
    let r = field_ranges(b, d);
    crate::fields::lemma_plain_fields(s, d);
    crate::bytes::lemma_ascii_byte_in_utf8(s, 34u8);
    assert(34u8 as char == '"');
    assert forall|k: int| 0 <= k < fs.len() implies #[trigger] cell_text(b, d, k) == fs[k] by {
        let p = fs[k];
        let raw = b.subrange(r[k].0, r[k].1);
        assert(raw == encode_utf8(p));
        if raw.len() > 0 && raw[0] == 34u8 {
            assert(b[r[k].0] == 34u8);
            assert(b.contains(34u8));
        }
        vstd::utf8::encode_utf8_valid_utf8(p);
        vstd::utf8::encode_utf8_decode_utf8(p);
    }
    assert(cell_texts(s, d) =~= fs);
}

/// The span (start, length in characters) of cell `j` of `fs`, joined by
/// `sep`, if that cell equals the needle.
pub open spec fn span_at(fs: Seq<Seq<char>>, needle: Seq<char>, sep: char, j: int) -> Seq<(usize, usize)> {
    if fs[j] == needle {
        seq![(cstart(fs, j, sep) as usize, fs[j].len() as usize)]
    } else {
        seq![]
    }
}

/// The spans of the cells from `j` on that equal the needle, in order.
pub open spec fn spans_from(fs: Seq<Seq<char>>, needle: Seq<char>, sep: char, j: int) -> Seq<(usize, usize)>
    decreases fs.len() - j,
{
    if 0 <= j < fs.len() {
        span_at(fs, needle, sep, j) + spans_from(fs, needle, sep, j + 1)
    } else {
        seq![]
    }
}

/// On a quote-free line, the whole-cell hit of cell `j` (case matching) is
/// the cell's span in the line.
proof fn lemma_plain_cell_hit(s: Seq<char>, needle: Seq<char>, d: u8, j: int)
    requires
        d < 128,
        !s.contains('"'),
        s.len() <= usize::MAX,
        0 <= j < split_by(s, d as char).len(),
    ensures
        cell_hit(split_by(s, d as char), s, needle, true, d, j) == span_at(split_by(s, d as char), needle, d as char, j),
{
    let b = encode_utf8(s);
    let dc = d as char;
    let fs = split_by(s, dc);
    let r = field_ranges(b, d);
    crate::fields::lemma_plain_fields(s, d);
    crate::fields::lemma_plain_starts(s, d);
    crate::fields::lemma_join_split_by(s, dc);
    crate::edit::lemma_split_by_len(s, dc);
    crate::fields::lemma_join_positions(fs, dc);
    let cs = cstart(fs, j, dc);
    assert(0 <= cs && cs + fs[j].len() <= s.len());
    let head = b.take(r[j].0);
    assert(head == encode_utf8(s.take(cs)));
    vstd::utf8::encode_utf8_valid_utf8(s.take(cs));
    vstd::utf8::encode_utf8_decode_utf8(s.take(cs));
    assert(text_of(head).len() == cs);
    let raw = b.subrange(r[j].0, r[j].1);
    assert(raw == encode_utf8(fs[j]));
    vstd::utf8::encode_utf8_valid_utf8(fs[j]);
    vstd::utf8::encode_utf8_decode_utf8(fs[j]);
    assert(text_of(raw).len() == fs[j].len());
}

/// The whole-cell hits of the first `k` cells, followed by the spans of the
/// rest, are all the spans; there are as many as cells equal to the needle.
proof fn lemma_hits_spans(s: Seq<char>, needle: Seq<char>, d: u8, k: int)
    requires
        d < 128,
        !s.contains('"'),
        s.len() <= usize::MAX,
        0 <= k <= split_by(s, d as char).len(),
    ensures
        cell_hits(split_by(s, d as char), s, needle, true, d, k) + spans_from(split_by(s, d as char), needle, d as char, k)
            == spans_from(split_by(s, d as char), needle, d as char, 0),
        cell_hits(split_by(s, d as char), s, needle, true, d, k).len() == equal_cells(split_by(s, d as char).take(k), needle, true),
    decreases k,
{
    let dc = d as char;
    let fs = split_by(s, dc);
    if k == 0 {
        assert(Seq::<(usize, usize)>::empty() + spans_from(fs, needle, dc, 0) =~= spans_from(fs, needle, dc, 0));
        assert(fs.take(0) =~= Seq::<Seq<char>>::empty());
    } else {
        lemma_hits_spans(s, needle, d, k - 1);
        lemma_plain_cell_hit(s, needle, d, k - 1);
        let h0 = cell_hits(fs, s, needle, true, d, k - 1);
        let x = span_at(fs, needle, dc, k - 1);
        assert(cell_hits(fs, s, needle, true, d, k) == h0 + x);
        assert(spans_from(fs, needle, dc, k - 1) == x + spans_from(fs, needle, dc, k));
        assert(h0 + x + spans_from(fs, needle, dc, k) =~= h0 + (x + spans_from(fs, needle, dc, k)));
        assert(fs.take(k).drop_last() =~= fs.take(k - 1));
        assert(fs.take(k).last() == fs[k - 1]);
    }
}

/// Skipping the first hit and starting one further on is the same walk.
proof fn lemma_splice_shift(hc: Seq<char>, x: (usize, usize), rest: Seq<(usize, usize)>, rep: Seq<char>, i: int, c: int)
    requires
        0 <= i,
    ensures
        splice_from(hc, seq![x] + rest, rep, i + 1, c) == splice_from(hc, rest, rep, i, c),
    decreases rest.len() - i,
{
    let h = seq![x] + rest;
    if i < rest.len() {
        assert(h[i + 1] == rest[i]);
        let c2 = rest[i].0 as int;
        let l2 = rest[i].1 as int;
        lemma_splice_shift(hc, x, rest, rep, i + 1, c);
        lemma_splice_shift(hc, x, rest, rep, i + 1, c2 + l2);
    }
}

/// Joining a first piece in front of at least one more.
proof fn lemma_join_cons(a: Seq<char>, p: Seq<Seq<char>>, sep: char)
    requires
        p.len() >= 1,
    ensures
        join_with(seq![a] + p, sep) == a + seq![sep] + join_with(p, sep),
    decreases p.len(),
{
    let q = seq![a] + p;
    if p.len() == 1 {
        assert(q.drop_last() =~= seq![a]);
        assert(q.last() == p[0]);
        assert(join_with(seq![a], sep) == a);
        assert(join_with(p, sep) == p[0]);
        assert(join_with(q, sep) == join_with(q.drop_last(), sep) + seq![sep] + q.last());
    } else {
        lemma_join_cons(a, p.drop_last(), sep);
        assert(q.drop_last() =~= seq![a] + p.drop_last());
        assert(q.last() == p.last());
        let j = join_with(p.drop_last(), sep);
        assert(join_with(q, sep) == join_with(q.drop_last(), sep) + seq![sep] + q.last());
        assert(join_with(p, sep) == j + seq![sep] + p.last());
        assert(a + seq![sep] + j + seq![sep] + p.last() =~= a + seq![sep] + (j + seq![sep] + p.last()));
    }
}

/// Walking the spans of the cells from `j` on, from a cursor at or before
/// cell `j`, copies up to the cell and then gives the cells from `j` on,
/// each equal one replaced, joined by the separator.
proof fn lemma_splice_cells(s: Seq<char>, fs: Seq<Seq<char>>, needle: Seq<char>, rep: Seq<char>, sep: char, j: int, c: int)
    requires
        fs.len() >= 1,
        join_with(fs, sep) == s,
        s.len() <= usize::MAX,
        0 <= j < fs.len(),
        0 <= c <= cstart(fs, j, sep),
    ensures
        splice_from(s, spans_from(fs, needle, sep, j), rep, 0, c)
            == s.subrange(c, cstart(fs, j, sep)) + join_with(replaced_cells(fs, needle, rep, true).skip(j), sep),
    decreases fs.len() - j,
{
    crate::fields::lemma_join_positions(fs, sep);
    let rs = replaced_cells(fs, needle, rep, true);
    let cs = cstart(fs, j, sep);
    let l = fs[j].len() as int;
    let n = fs.len() as int;
    let tail = spans_from(fs, needle, sep, j + 1);
    assert(spans_from(fs, needle, sep, j) == span_at(fs, needle, sep, j) + tail);
    assert(0 <= cs && cs + l <= s.len());
    assert(s.subrange(cs, cs + l) == fs[j]);
    assert(rs[j] == (if cell_equals(fs[j], needle, true) { rep } else { fs[j] }));
    if j == n - 1 {
        assert(cs + l == s.len());
        assert(tail == Seq::<(usize, usize)>::empty());
        assert(rs.skip(j) =~= seq![rs[j]]);
    } else {
        assert(s[cs + l] == sep);
        assert(cstart(fs, j + 1, sep) == cs + l + 1);
        assert(rs.skip(j) =~= seq![rs[j]] + rs.skip(j + 1));
        lemma_join_cons(rs[j], rs.skip(j + 1), sep);
    }
    if fs[j] == needle {
        let x = (cs as usize, l as usize);
        assert(span_at(fs, needle, sep, j) == seq![x]);
        let h = seq![x] + tail;
        assert(h[0] == x);
        assert(splice_from(s, h, rep, 0, c) == s.subrange(c, cs) + rep + splice_from(s, h, rep, 1, cs + l));
        lemma_splice_shift(s, x, tail, rep, 0, cs + l);
        if j == n - 1 {
            assert(splice_from(s, tail, rep, 0, cs + l) =~= Seq::<char>::empty());
            assert(s.subrange(c, cs) + rep + Seq::<char>::empty() =~= s.subrange(c, cs) + rep);
        } else {
            lemma_splice_cells(s, fs, needle, rep, sep, j + 1, cs + l);
            assert(s.subrange(cs + l, cs + l + 1) =~= seq![sep]);
            let jr = join_with(rs.skip(j + 1), sep);
            assert(s.subrange(c, cs) + rep + (seq![sep] + jr) =~= s.subrange(c, cs) + (rep + seq![sep] + jr));
        }
    } else {
        assert(span_at(fs, needle, sep, j) == Seq::<(usize, usize)>::empty());
        assert(spans_from(fs, needle, sep, j) =~= tail);
        if j == n - 1 {
            assert(s.subrange(c, s.len() as int) =~= s.subrange(c, cs) + s.subrange(cs, cs + l));
        } else {
            lemma_splice_cells(s, fs, needle, rep, sep, j + 1, c);
            let jr = join_with(rs.skip(j + 1), sep);
            assert(s.subrange(c, cs + l + 1) =~= s.subrange(c, cs) + fs[j] + seq![sep]);
            assert(s.subrange(c, cs) + fs[j] + seq![sep] + jr =~= s.subrange(c, cs) + (fs[j] + seq![sep] + jr));
        }
    }
}

/// Whole-cell replacement, case matching, in a table with an ASCII
/// delimiter, on a plain row (no quote, no line break, no leading
/// byte-order mark): the scoped search finds exactly the cells equal
/// to the needle, and replacing its hits gives the row with each such cell
/// replaced, as many replacements as such cells. So the byte path of
/// `replace_all` (`replace_cells_bytes`) and `replace_in_line` agree there.
pub proof fn lemma_cell_path_matches_replace_in_line(
    line: Seq<char>,
    needle: Seq<char>,
    rep: Seq<char>,
    opts: FindOptions,
    d: u8,
)
    requires
        d < 128,
        opts.match_case,
        opts.scope == MatchScope::WholeCell,
        plain_line(line),
        needle.len() > 0,
        line.len() <= usize::MAX,
    ensures
        exists|hits: Seq<(usize, usize)>| #[trigger] scoped_hits(line, needle, opts, Some(d), hits)
            && splice_from(line, hits, rep, 0, 0) == join_with(replaced_cells(split_by(line, d as char), needle, rep, true), d as char)
            && hits.len() == equal_cells(split_by(line, d as char), needle, true),
{
    let dc = d as char;
    let fs = split_by(line, dc);
    crate::edit::lemma_split_by_len(line, dc);
    crate::fields::lemma_join_split_by(line, dc);
    lemma_plain_cell_texts(line, d);
    assert(csv_simple(line));
    let n = fs.len() as int;
    lemma_hits_spans(line, needle, d, n);
    let hits = cell_hits(fs, line, needle, true, d, n);
    assert(hits + spans_from(fs, needle, dc, n) == spans_from(fs, needle, dc, 0));
    assert(spans_from(fs, needle, dc, n) == Seq::<(usize, usize)>::empty());
    assert(hits =~= spans_from(fs, needle, dc, 0));
    assert(fs.take(n) =~= fs);
    lemma_splice_cells(line, fs, needle, rep, dc, 0, 0);
    assert(cstart(fs, 0, dc) == 0);
    let rs = replaced_cells(fs, needle, rep, true);
    assert(rs.skip(0) =~= rs);
    assert(line.subrange(0, 0) + join_with(rs, dc) =~= join_with(rs, dc));
    assert(scoped_hits(line, needle, opts, Some(d), hits));
}

/// What `replace_in_line` gives for one row: text `t` after `n`
/// replacements of the scoped hits (of which there is one set).
pub open spec fn in_line_outcome(line: Seq<char>, needle: Seq<char>, rep: Seq<char>, opts: FindOptions, delim: Option<u8>, t: Seq<char>, n: nat) -> bool {
    exists|hits: Seq<(usize, usize)>| #[trigger] scoped_hits(line, needle, opts, delim, hits)
        && t == splice_from(line, hits, sanitize(rep), 0, 0) && n == hits.len()
}

/// A row's outcome in `replace_all` is what `replace_in_line` gives, case
/// matching.
proof fn lemma_row_outcome_in_line(line: Seq<char>, needle: Seq<char>, rep: Seq<char>, opts: FindOptions, delim: Option<u8>, t: Seq<char>, n: nat)
    requires
        row_outcome(line, needle, rep, opts, delim, t, n),
        opts.match_case,
        needle.len() > 0,
        line.len() <= usize::MAX,
    ensures
        in_line_outcome(line, needle, rep, opts, delim, t, n),
{
    if opts.scope == MatchScope::WholeCell && delim is Some && delim->0 < 128 && plain_line(line)
        && crate::find::spec_bytefold_exact(needle, opts.match_case) {
        let d = delim->0;
        lemma_cell_path_matches_replace_in_line(line, needle, sanitize(rep), opts, d);
    }
}

/// With no hits, replacing gives the row back.
proof fn lemma_splice_none(line: Seq<char>, hits: Seq<(usize, usize)>, rep: Seq<char>)
    requires
        hits.len() == 0,
    ensures
        splice_from(line, hits, rep, 0, 0) == line,
{
    assert(line.subrange(0, line.len() as int) =~= line);
}

/// A row `replace_all` leaves out is one `replace_in_line` gives back
/// unchanged, with no replacement (case matching).
proof fn lemma_unlisted_in_line(line: Seq<char>, needle: Seq<char>, rep: Seq<char>, opts: FindOptions, delim: Option<u8>)
    requires
        spec_prefilter_skips(line, needle, opts, delim) || exists|t: Seq<char>| #[trigger] row_outcome(line, needle, rep, opts, delim, t, 0),
        opts.match_case,
        needle.len() > 0,
        line.len() <= usize::MAX,
    ensures
        in_line_outcome(line, needle, rep, opts, delim, line, 0),
{
    if exists|t: Seq<char>| #[trigger] row_outcome(line, needle, rep, opts, delim, t, 0) {
        let t = choose|t: Seq<char>| #[trigger] row_outcome(line, needle, rep, opts, delim, t, 0);
        lemma_row_outcome_in_line(line, needle, rep, opts, delim, t, 0);
        let hits = choose|hits: Seq<(usize, usize)>| #[trigger] scoped_hits(line, needle, opts, delim, hits)
            && t == splice_from(line, hits, sanitize(rep), 0, 0) && 0 == hits.len();
        lemma_splice_none(line, hits, sanitize(rep));
        assert(scoped_hits(line, needle, opts, delim, hits));
    } else {
        let hits: Seq<(usize, usize)> = if opts.scope != MatchScope::WholeCell {
            spec_find_in_line(line, needle, opts)
        } else {
            match delim {
                None => if texts_equal(line, needle, opts.match_case) { seq![(0usize, line.len() as usize)] } else { seq![] },
                Some(d) => {
                    let fs = cell_texts(line, d);
                    cell_hits(fs, line, needle, opts.match_case, d, fs.len() as int)
                },
            }
        };
        if opts.scope == MatchScope::WholeCell {
            if let Some(d) = delim {
                let b = encode_utf8(line);
                crate::bytes::lemma_ascii_byte_in_utf8(line, 34u8);
                crate::bytes::lemma_ascii_byte_in_utf8(line, 13u8);
                crate::bytes::lemma_ascii_byte_in_utf8(line, 10u8);
                crate::roundtrip::lemma_bom_bytes_iff(line);
                assert(34u8 as char == '"' && 13u8 as char == '\r' && 10u8 as char == '\n');
                assert(csv_simple(line) && !line.contains('"'));
                lemma_plain_cell_texts(line, d);
                crate::edit::lemma_split_by_len(line, d as char);
                let fs = cell_texts(line, d);
                assert(fs.len() >= 1);
                assert(scoped_hits(line, needle, opts, delim, hits));
            }
        }
        assert(scoped_hits(line, needle, opts, delim, hits));
        crate::find::lemma_prefilter_never_skips_a_match(line, needle, opts, delim, hits);
        lemma_splice_none(line, hits, sanitize(rep));
    }
}

/// Replacing everywhere, case matching, does what replacing in each row
/// with `replace_in_line` does: every change `replace_all` reports is what
/// `replace_in_line` gives for that row (the scoped search has one result,
/// `lemma_scoped_hits_unique`), with at least one replacement; the total is
/// the sum of those replacement counts (saturating); and `replace_in_line`
/// gives every other row back unchanged, with no replacement.
pub proof fn lemma_replace_all_is_per_row(
    lines: Seq<String>,
    needle: Seq<char>,
    rep: Seq<char>,
    opts: FindOptions,
    delim: Option<u8>,
    changes: Seq<(usize, String)>,
    total: usize,
)
    requires
        replace_all_result(lines, needle, rep, opts, delim, changes, total),
        opts.match_case,
        forall|i: int| 0 <= i < lines.len() ==> #[trigger] lines[i]@.len() <= usize::MAX,
    ensures
        exists|counts: Seq<nat>| counts.len() == changes.len()
            && total == (if sum_of(counts) <= usize::MAX { sum_of(counts) } else { usize::MAX as nat })
            && forall|k: int| 0 <= k < changes.len() ==> changes[k].0 < lines.len() && counts[k] > 0
                && #[trigger] in_line_outcome(lines[changes[k].0 as int]@, needle, rep, opts, delim, changes[k].1@, counts[k]),
        forall|i: int| 0 <= i < lines.len() && !listed(changes, i) ==>
            #[trigger] in_line_outcome(lines[i]@, needle, rep, opts, delim, lines[i]@, 0),
{
    let counts = choose|counts: Seq<nat>| #[trigger] changes_explained(lines, needle, rep, opts, delim, changes, counts)
        && total == (if sum_of(counts) <= usize::MAX { sum_of(counts) } else { usize::MAX as nat });
    assert forall|k: int| 0 <= k < changes.len() implies changes[k].0 < lines.len() && counts[k] > 0
        && #[trigger] in_line_outcome(lines[changes[k].0 as int]@, needle, rep, opts, delim, changes[k].1@, counts[k]) by {
        let (i, t) = changes[k];
        assert(needle.len() > 0);
        assert(row_outcome(lines[i as int]@, needle, rep, opts, delim, t@, counts[k]));
        assert(lines[i as int]@.len() <= usize::MAX);
        lemma_row_outcome_in_line(lines[i as int]@, needle, rep, opts, delim, t@, counts[k]);
    }
    assert forall|i: int| 0 <= i < lines.len() && !listed(changes, i) implies
        #[trigger] in_line_outcome(lines[i]@, needle, rep, opts, delim, lines[i]@, 0) by {
        let line = lines[i]@;
        assert(line.len() <= usize::MAX);
        if needle.len() == 0 {
            let hits = Seq::<(usize, usize)>::empty();
            assert(scoped_hits(line, needle, opts, delim, hits));
            lemma_splice_none(line, hits, sanitize(rep));
        } else {
            lemma_unlisted_in_line(line, needle, rep, opts, delim);
        }
    }
}

/// A line holds neither a line feed nor a carriage return.
pub open spec fn no_breaks(s: Seq<char>) -> bool {
    !s.contains('\n') && !s.contains('\r')
}

/// Replacing hits copies only characters of the text and of the
/// replacement.
proof fn lemma_splice_chars(hc: Seq<char>, hits: Seq<(usize, usize)>, rep: Seq<char>, k: int, c: int, x: char)
    requires
        0 <= k,
        0 <= c <= hc.len(),
        splice_from(hc, hits, rep, k, c).contains(x),
    ensures
        hc.contains(x) || rep.contains(x),
    decreases hits.len() - k,
{
    let out = splice_from(hc, hits, rep, k, c);
    let i = choose|i: int| 0 <= i < out.len() && out[i] == x;
    if k >= hits.len() {
        assert(hc[c + i] == x);
    } else {
        let s0 = hits[k].0 as int;
        let l = hits[k].1 as int;
        if c <= s0 && s0 + l <= hc.len() {
            let a = hc.subrange(c, s0);
            let rest = splice_from(hc, hits, rep, k + 1, s0 + l);
            assert(out == a + rep + rest);
            if i < a.len() {
                assert(hc[c + i] == x);
            } else if i < a.len() + rep.len() {
                assert(rep[i - a.len()] == x);
            } else {
                assert(rest[i - a.len() - rep.len()] == x);
                lemma_splice_chars(hc, hits, rep, k + 1, s0 + l, x);
            }
        } else {
            lemma_splice_chars(hc, hits, rep, k + 1, c, x);
        }
    }
}

/// A joined text holds only characters of its pieces, and the separator
/// only when there are at least two pieces.
proof fn lemma_join_chars(p: Seq<Seq<char>>, sep: char, x: char)
    requires
        join_with(p, sep).contains(x),
    ensures
        (exists|j: int| 0 <= j < p.len() && (#[trigger] p[j]).contains(x)) || (x == sep && p.len() >= 2),
    decreases p.len(),
{
    let t = join_with(p, sep);
    let i = choose|i: int| 0 <= i < t.len() && t[i] == x;
    if p.len() == 1 {
        assert(p[0].contains(x));
    } else if p.len() > 1 {
        let q = p.drop_last();
        let a = join_with(q, sep);
        assert(t == a + seq![sep] + p.last());
        if i < a.len() {
            assert(a[i] == x);
            lemma_join_chars(q, sep, x);
            if exists|j: int| 0 <= j < q.len() && (#[trigger] q[j]).contains(x) {
                let j = choose|j: int| 0 <= j < q.len() && (#[trigger] q[j]).contains(x);
                assert(p[j] == q[j]);
            }
        } else if i > a.len() {
            assert(p.last()[i - a.len() - 1] == x);
            assert(p[p.len() - 1].contains(x));
        }
    }
}

/// Replacing everywhere never puts a line break into a row that had none,
/// whatever the replacement holds: each changed row's text is free of line
/// feeds and carriage returns.
pub proof fn lemma_replace_all_keeps_rows_single_line(
    lines: Seq<String>,
    needle: Seq<char>,
    rep: Seq<char>,
    opts: FindOptions,
    delim: Option<u8>,
    changes: Seq<(usize, String)>,
    total: usize,
)
    requires
        replace_all_result(lines, needle, rep, opts, delim, changes, total),
        forall|i: int| 0 <= i < lines.len() ==> no_breaks(#[trigger] lines[i]@),
    ensures
        forall|k: int| 0 <= k < changes.len() ==> no_breaks(#[trigger] changes[k].1@),
{
    let counts = choose|counts: Seq<nat>| #[trigger] changes_explained(lines, needle, rep, opts, delim, changes, counts)
        && total == (if sum_of(counts) <= usize::MAX { sum_of(counts) } else { usize::MAX as nat });
    let srep = sanitize(rep);
    assert(!srep.contains('\n') && !srep.contains('\r')) by {
        if srep.contains('\n') {
            let i = choose|i: int| 0 <= i < srep.len() && srep[i] == '\n';
            assert(srep[i] == (if rep[i] == '\n' || rep[i] == '\r' { ' ' } else { rep[i] }));
        }
        if srep.contains('\r') {
            let i = choose|i: int| 0 <= i < srep.len() && srep[i] == '\r';
            assert(srep[i] == (if rep[i] == '\n' || rep[i] == '\r' { ' ' } else { rep[i] }));
        }
    }
    assert forall|k: int| 0 <= k < changes.len() implies no_breaks(#[trigger] changes[k].1@) by {
        let (i, t) = changes[k];
        let line = lines[i as int]@;
        assert(no_breaks(line));
        assert(row_outcome(line, needle, rep, opts, delim, t@, counts[k]));
        assert forall|x: char| x == '\n' || x == '\r' implies !t@.contains(x) by {
            if t@.contains(x) {
                if opts.scope == MatchScope::WholeCell && delim is Some && delim->0 < 128 && plain_line(line)
                    && crate::find::spec_bytefold_exact(needle, opts.match_case) {
                    let dc = delim->0 as char;
                    let cells = split_by(line, dc);
                    let pieces = replaced_cells(cells, needle, srep, opts.match_case);
                    lemma_join_chars(pieces, dc, x);
                    crate::edit::lemma_split_by_len(line, dc);
                    crate::fields::lemma_join_split_by(line, dc);
                    crate::fields::lemma_join_positions(cells, dc);
                    if exists|j: int| 0 <= j < pieces.len() && (#[trigger] pieces[j]).contains(x) {
                        let j = choose|j: int| 0 <= j < pieces.len() && (#[trigger] pieces[j]).contains(x);
                        assert(pieces[j] == (if cell_equals(cells[j], needle, opts.match_case) { srep } else { cells[j] }));
                        if !cell_equals(cells[j], needle, opts.match_case) {
                            let cj = cells[j];
                            let m = choose|m: int| 0 <= m < cj.len() && cj[m] == x;
                            let st = cstart(cells, j, dc);
                            assert(join_with(cells, dc).subrange(st, st + cj.len()) == cj);
                            assert(line[st + m] == x);
                            assert(line.contains(x));
                        }
                    } else {
                        assert(cells.len() >= 2);
                        assert(x == dc);
                        let e0 = cstart(cells, 0, dc) + cells[0].len();
                        assert(cstart(cells, 0int + 1, dc) == e0 + 1);
                        assert(0 <= cstart(cells, 1, dc) && cstart(cells, 1, dc) + cells[1].len() <= join_with(cells, dc).len());
                        assert(join_with(cells, dc)[e0] == dc);
                        assert(line[e0] == x);
                        assert(line.contains(x));
                    }
                } else {
                    let hits = choose|hits: Seq<(usize, usize)>| #[trigger] scoped_hits(line, needle, opts, delim, hits)
                        && t@ == splice_from(line, hits, srep, 0, 0) && counts[k] == hits.len();
                    lemma_splice_chars(line, hits, srep, 0, 0, x);
                }
            }
        }
    }
}

} // verus!
