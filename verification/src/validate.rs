//! Finding rows that break the table's rule: a wrong number of fields, an
//! unclosed quote, or text that did not decode.
use vstd::prelude::*;
use vstd::utf8::encode_utf8;
use crate::chars::{chars_of, string_of, extend_chars, push_char};
use crate::index::LineIndex;
use crate::parse::{FieldReader, csv_fields, count_byte, fields_reader, split_fields_with, decode_line, decoded_text, views, Encoding};

verus! {

/// How a row breaks the rule.
#[derive(Debug, Clone, Copy, PartialEq, Eq, Structural)]
pub enum RowIssue {
    /// The row has `got` fields where `expected` were expected.
    FieldCount { got: usize, expected: usize },
    /// An odd number of double quotes: a quote opened and never closed.
    UnbalancedQuote,
    /// The text holds U+FFFD, the mark of bytes that did not decode.
    DecodeError,
}

/// A row found to break the rule.
#[derive(Debug, Clone, PartialEq, Eq)]
pub struct RowError {
    /// Row number, header included, from 0.
    pub logical: usize,
    pub issue: RowIssue,
    /// The start of the row for the list (at most `PREVIEW_CHARS` characters).
    pub preview: String,
}

/// Longest row preview in the list, in characters.
pub const PREVIEW_CHARS: usize = 120;

/// Most rows the error list keeps; the rest are only counted.
pub const MAX_ROW_ERRORS: usize = 10000;

/// `check_line` may report `issue` for `line`: nothing for an empty line;
/// otherwise the first of a decoding mark (U+FFFD), an odd number of `"`
/// bytes, and a field count other than `expected` (the fields as
/// `split_fields` gives them, at least one).
pub open spec fn check_outcome(line: Seq<char>, delim: u8, expected: usize, issue: Option<RowIssue>) -> bool {
    if line.len() == 0 {
        issue is None
    } else if line.contains('\u{FFFD}') {
        issue == Some(RowIssue::DecodeError)
    } else if count_byte(encode_utf8(line), 34u8) % 2 != 0 {
        issue == Some(RowIssue::UnbalancedQuote)
    } else {
        issue == (if csv_fields(line, delim).len() != expected {
            Some(RowIssue::FieldCount { got: csv_fields(line, delim).len() as usize, expected })
        } else {
            None
        })
    }
}

/// A non-empty row without a decoding mark and with an even number of `"`
/// bytes is checked for its field count, whether or not it holds quotes:
/// the issue reported for it is a field-count mismatch with the count of its
/// fields exactly when that count differs from `expected`, and none
/// otherwise.
pub proof fn lemma_balanced_row_checks_field_count(line: Seq<char>, delim: u8, expected: usize, issue: Option<RowIssue>)
    requires
        check_outcome(line, delim, expected, issue),
        line.len() > 0,
        !line.contains('\u{FFFD}'),
        count_byte(encode_utf8(line), 34u8) % 2 == 0,
    ensures
        csv_fields(line, delim).len() != expected ==> issue == Some(RowIssue::FieldCount {
            got: csv_fields(line, delim).len() as usize,
            expected,
        }),
        csv_fields(line, delim).len() == expected ==> issue is None,
{
}

fn count_quotes(b: &[u8]) -> (n: usize)
    ensures
        n == count_byte(b@, 34u8),
{
    let mut n: usize = 0;
    let mut i: usize = 0;
    while i < b.len()
        invariant
            0 <= i <= b@.len(),
            n == count_byte(b@.take(i as int), 34u8),
            n <= i,
        decreases b.len() - i,
    {
        assert(b@.take(i as int + 1).drop_last() =~= b@.take(i as int));
        if b[i] == 34u8 {
            n += 1;
        }
        i += 1;
    }
    assert(b@.take(b@.len() as int) =~= b@);
    n
}

fn has_replacement_char(cs: &Vec<char>) -> (r: bool)
    ensures
        r == cs@.contains('\u{FFFD}'),
{
    let mut i: usize = 0;
    while i < cs.len()
        invariant
            0 <= i <= cs@.len(),
            forall|k: int| 0 <= k < i ==> cs@[k] != '\u{FFFD}',
        decreases cs.len() - i,
    {
        if cs[i] == '\u{FFFD}' {
            assert(cs@[i as int] == '\u{FFFD}');
            return true;
        }
        i += 1;
    }
    false
}

/// The first problem of one row, if any: a decoding mark first, then an odd
/// number of quotes, then the field count (each later check would be
/// misled by an earlier problem). An empty row is never an error.
pub fn check_line(line: &str, delim: u8, expected_cols: usize) -> (r: Option<RowIssue>)
    ensures
        check_outcome(line@, delim, expected_cols, r),
{
    let mut reader = fields_reader(delim);
    check_line_with(&mut reader, line, delim, expected_cols)
}

/// `check_line` with a reader from `fields_reader(delim)`, reused across rows.
fn check_line_with(reader: &mut FieldReader, line: &str, delim: u8, expected_cols: usize) -> (r: Option<RowIssue>)
    requires
        old(reader)@.0 == delim,
    ensures
        check_outcome(line@, delim, expected_cols, r),
        final(reader)@.0 == delim,
{
    if line.is_empty() {
        return None;
    }
    let cs = chars_of(line);
    if has_replacement_char(&cs) {
        return Some(RowIssue::DecodeError);
    }
    if count_quotes(line.as_bytes()) % 2 != 0 {
        return Some(RowIssue::UnbalancedQuote);
    }
    let fields = split_fields_with(reader, line);
    let got = fields.len();
    assert(views(fields@).len() == got);
    if got != expected_cols {
        return Some(RowIssue::FieldCount { got, expected: expected_cols });
    }
    None
}

/// The preview of a row: its first `PREVIEW_CHARS` characters, and `…` when
/// it was longer.
pub open spec fn spec_preview(line: Seq<char>) -> Seq<char> {
    if line.len() > PREVIEW_CHARS { line.take(PREVIEW_CHARS as int).push('…') } else { line }
}

/// The row's preview for the error list, cut by characters, not bytes.
pub fn preview_of(line: &str) -> (p: String)
    ensures
        p@ == spec_preview(line@),
{
    let cs = chars_of(line);
    let n = cs.len();
    let keep = if n < PREVIEW_CHARS { n } else { PREVIEW_CHARS };
    let mut out: Vec<char> = Vec::new();
    extend_chars(&mut out, cs.as_slice(), 0, keep);
    if n > PREVIEW_CHARS {
        out.push('…');
    }
    string_of(out.as_slice())
}

/// The outcome of one scan: the errors kept, in row order, and how many
/// more were found but not kept.
#[derive(Debug, Clone, Default, PartialEq, Eq)]
pub struct ScanResult {
    pub errors: Vec<RowError>,
    /// Errors found past the limit.
    pub dropped: usize,
}

/// Per issue kind, the number of errors among `e`.
pub open spec fn kind_counts(e: Seq<RowError>) -> (int, int, int)
    decreases e.len(),
{
    if e.len() == 0 {
        (0, 0, 0)
    } else {
        let c = kind_counts(e.drop_last());
        match e.last().issue {
            RowIssue::FieldCount { .. } => (c.0 + 1, c.1, c.2),
            RowIssue::UnbalancedQuote => (c.0, c.1 + 1, c.2),
            RowIssue::DecodeError => (c.0, c.1, c.2 + 1),
        }
    }
}

proof fn lemma_kind_counts_bounded(e: Seq<RowError>)
    ensures
        kind_counts(e).0 >= 0 && kind_counts(e).1 >= 0 && kind_counts(e).2 >= 0,
        kind_counts(e).0 + kind_counts(e).1 + kind_counts(e).2 == e.len(),
    decreases e.len(),
{
    if e.len() > 0 {
        lemma_kind_counts_bounded(e.drop_last());
    }
}

impl ScanResult {
    /// Errors found in all: kept and dropped.
    pub fn total(&self) -> (n: usize)
        requires
            self.errors@.len() + self.dropped <= usize::MAX,
        ensures
            n == self.errors@.len() + self.dropped,
    {
        self.errors.len() + self.dropped
    }

    /// Kept errors by kind: (field count, unbalanced quote, decoding).
    pub fn counts(&self) -> (c: (usize, usize, usize))
        ensures
            c.0 == kind_counts(self.errors@).0,
            c.1 == kind_counts(self.errors@).1,
            c.2 == kind_counts(self.errors@).2,
    {
        let mut fc: usize = 0;
        let mut uq: usize = 0;
        let mut de: usize = 0;
        let mut i: usize = 0;
        while i < self.errors.len()
            invariant
                0 <= i <= self.errors@.len(),
                (fc as int, uq as int, de as int) == kind_counts(self.errors@.take(i as int)),
            decreases self.errors.len() - i,
        {
            proof {
                assert(self.errors@.take(i as int + 1).drop_last() =~= self.errors@.take(i as int));
                lemma_kind_counts_bounded(self.errors@.take(i as int));
            }
            match self.errors[i].issue {
                RowIssue::FieldCount { .. } => fc += 1,
                RowIssue::UnbalancedQuote => uq += 1,
                RowIssue::DecodeError => de += 1,
            }
            i += 1;
        }
        assert(self.errors@.take(self.errors@.len() as int) =~= self.errors@);
        (fc, uq, de)
    }
}

/// The stable merge of two row-ordered lists (on equal rows the first
/// list's error comes first).
pub open spec fn merge_rows(x: Seq<RowError>, y: Seq<RowError>) -> Seq<RowError>
    decreases x.len() + y.len(),
{
    if x.len() == 0 {
        y
    } else if y.len() == 0 {
        x
    } else if x[0].logical <= y[0].logical {
        seq![x[0]] + merge_rows(x.skip(1), y)
    } else {
        seq![y[0]] + merge_rows(x, y.skip(1))
    }
}

/// Two partial results merged under `limit`: the errors of lowest row
/// number kept, up to `limit`, and everything else counted as dropped.
pub open spec fn spec_merge(a: Seq<RowError>, ad: nat, b: Seq<RowError>, bd: nat, limit: nat) -> (Seq<RowError>, nat) {
    let m = merge_rows(a, b);
    let kept = if m.len() <= limit { m.len() } else { limit };
    (m.take(kept as int), ad + bd + (m.len() - kept) as nat)
}

proof fn lemma_merge_len(x: Seq<RowError>, y: Seq<RowError>)
    ensures
        merge_rows(x, y).len() == x.len() + y.len(),
    decreases x.len() + y.len(),
{
    if x.len() > 0 && y.len() > 0 {
        if x[0].logical <= y[0].logical {
            lemma_merge_len(x.skip(1), y);
        } else {
            lemma_merge_len(x, y.skip(1));
        }
    }
}

/// A filler error (row 0, a decoding error, no preview), put in a slot of
/// a vector while its own error is moved out.
fn placeholder() -> (e: RowError)
    ensures
        e.logical == 0,
        e.issue == RowIssue::DecodeError,
        e.preview@ == Seq::<char>::empty(),
{
    RowError { logical: 0, issue: RowIssue::DecodeError, preview: String::new() }
}

/// Merges two partial results, each in row order, into one in row order
/// that keeps the `limit` errors of lowest row number (whichever side they
/// came from) and counts all the others as dropped.
pub fn merge_results(a: ScanResult, b: ScanResult, limit: usize) -> (r: ScanResult)
    requires
        a.errors@.len() + b.errors@.len() + a.dropped + b.dropped <= usize::MAX,
    ensures
        (r.errors@, r.dropped as nat) == spec_merge(a.errors@, a.dropped as nat, b.errors@, b.dropped as nat, limit as nat),
{
    let ghost m = merge_rows(a.errors@, b.errors@);
    proof { lemma_merge_len(a.errors@, b.errors@); }
    let total = a.errors.len() + b.errors.len();
    let mut xa = a.errors;
    let mut xb = b.errors;
    let na = xa.len();
    let nb = xb.len();
    let ghost va = xa@;
    let ghost vb = xb@;
    let mut errors: Vec<RowError> = Vec::new();
    let mut ia: usize = 0;
    let mut ib: usize = 0;
    assert(va.skip(0) =~= va);
    assert(vb.skip(0) =~= vb);
    assert(errors@ + merge_rows(va.skip(0), vb.skip(0)) =~= m);
    while errors.len() < limit && (ia < na || ib < nb)
        invariant
            errors@.len() <= limit,
            total == na + nb,
            0 <= ia <= na == va.len(),
            0 <= ib <= nb == vb.len(),
            xa@.len() == na,
            xb@.len() == nb,
            forall|k: int| ia <= k < na ==> xa@[k] == va[k],
            forall|k: int| ib <= k < nb ==> xb@[k] == vb[k],
            errors@.len() == ia + ib,
            m == merge_rows(va, vb),
            errors@ + merge_rows(va.skip(ia as int), vb.skip(ib as int)) == m,
        decreases na + nb - ia - ib,
    {
        let ghost rest = merge_rows(va.skip(ia as int), vb.skip(ib as int));
        let take_a = if ia < na && ib < nb {
            xa[ia].logical <= xb[ib].logical
        } else {
            ia < na
        };
        let mut tmp = placeholder();
        if take_a {
            xa.set_and_swap(ia, &mut tmp);
            proof {
                assert(va.skip(ia as int)[0] == va[ia as int]);
                assert(va.skip(ia as int).skip(1) =~= va.skip(ia + 1));
                if ib >= nb {
                    assert(vb.skip(ib as int).len() == 0);
                }
                assert(rest == seq![va[ia as int]] + merge_rows(va.skip(ia + 1), vb.skip(ib as int)));
            }
            errors.push(tmp);
            ia += 1;
        } else {
            xb.set_and_swap(ib, &mut tmp);
            proof {
                assert(vb.skip(ib as int)[0] == vb[ib as int]);
                assert(vb.skip(ib as int).skip(1) =~= vb.skip(ib + 1));
                if ia >= na {
                    assert(va.skip(ia as int).len() == 0);
                }
                assert(rest == seq![vb[ib as int]] + merge_rows(va.skip(ia as int), vb.skip(ib + 1)));
            }
            errors.push(tmp);
            ib += 1;
        }
        assert(errors@ + merge_rows(va.skip(ia as int), vb.skip(ib as int)) =~= m);
    }
    proof {
        lemma_merge_len(va.skip(ia as int), vb.skip(ib as int));
        assert(m.take(errors@.len() as int) =~= errors@);
        assert(m.len() == total);
        if errors@.len() < limit {
            assert(ia == na && ib == nb);
        }
    }
    let kept = errors.len();
    ScanResult { errors, dropped: a.dropped + b.dropped + (total - kept) }
}


/// An error as a plain value: row, issue and preview text.
pub open spec fn err_key(e: RowError) -> (usize, RowIssue, Seq<char>) {
    (e.logical, e.issue, e.preview@)
}

/// The plain values of a list of errors.
pub open spec fn err_keys(e: Seq<RowError>) -> Seq<(usize, RowIssue, Seq<char>)> {
    e.map_values(|x: RowError| err_key(x))
}

/// The errors found in rows `first, first + 1, …` whose texts are `texts`
/// and whose check outcomes are `o` (the first `k` of them), in row order.
pub open spec fn found_errors(texts: Seq<Seq<char>>, first: int, o: Seq<Option<RowIssue>>, k: int) -> Seq<(usize, RowIssue, Seq<char>)>
    decreases k,
{
    if k <= 0 {
        seq![]
    } else {
        found_errors(texts, first, o, k - 1) + match o[k - 1] {
            Some(issue) => seq![((first + k - 1) as usize, issue, spec_preview(texts[k - 1]))],
            None => Seq::<(usize, RowIssue, Seq<char>)>::empty(),
        }
    }
}

/// `r` holds the first `limit` of `found` and counts the rest as dropped.
pub open spec fn capped(r: ScanResult, found: Seq<(usize, RowIssue, Seq<char>)>, limit: usize) -> bool {
    let kept = if found.len() <= limit { found.len() } else { limit as nat };
    err_keys(r.errors@) == found.take(kept as int) && r.dropped == found.len() - kept
}

/// `r` is the scan of rows `first, first + 1, …` with texts `texts`, each
/// row's issue being `o` (an outcome `check_line` may give).
pub open spec fn scan_explained(texts: Seq<Seq<char>>, first: int, delim: u8, expected: usize, limit: usize, r: ScanResult, o: Seq<Option<RowIssue>>) -> bool {
    &&& o.len() == texts.len()
    &&& forall|i: int| 0 <= i < o.len() ==> check_outcome(texts[i], delim, expected, #[trigger] o[i])
    &&& capped(r, found_errors(texts, first, o, o.len() as int), limit)
}

/// Checks rows `data_start..` of the edit buffer. The result keeps, in row
/// order, the first `limit` rows with a problem (with their issue and
/// preview) and counts the others as dropped. Each row's issue is the one
/// `check_line` reports for it.
pub fn scan_lines(lines: &[String], delim: u8, expected_cols: usize, data_start: usize, limit: usize) -> (r: ScanResult)
    ensures
        lines@.len() <= data_start ==> r.errors@.len() == 0 && r.dropped == 0,
        lines@.len() > data_start ==> exists|o: Seq<Option<RowIssue>>|
            #[trigger] scan_explained(views(lines@).skip(data_start as int), data_start as int, delim, expected_cols, limit, r, o),
{
    let n = lines.len();
    let mut errors: Vec<RowError> = Vec::new();
    let mut dropped: usize = 0;
    if n <= data_start {
        return ScanResult { errors, dropped };
    }
    let mut reader = fields_reader(delim);
    let ghost texts = views(lines@).skip(data_start as int);
    let ghost mut o: Seq<Option<RowIssue>> = seq![];
    let mut logical: usize = data_start;
    assert(err_keys(errors@) =~= Seq::<(usize, RowIssue, Seq<char>)>::empty());
    assert(found_errors(texts, data_start as int, o, 0).take(0) =~= Seq::<(usize, RowIssue, Seq<char>)>::empty());
    while logical < n
        invariant
            data_start <= logical <= n == lines@.len(),
            reader@.0 == delim,
            texts == views(lines@).skip(data_start as int),
            o.len() == logical - data_start,
            forall|i: int| 0 <= i < o.len() ==> check_outcome(texts[i], delim, expected_cols, #[trigger] o[i]),
            capped(ScanResult { errors, dropped }, found_errors(texts, data_start as int, o, o.len() as int), limit),
            found_errors(texts, data_start as int, o, o.len() as int).len() <= logical - data_start,
        decreases n - logical,
    {
        let line = lines[logical].as_str();
        let issue = check_line_with(&mut reader, line, delim, expected_cols);
        let ghost f0 = found_errors(texts, data_start as int, o, o.len() as int);
        proof {
            assert(texts[o.len() as int] == line@);
            let o2 = o.push(issue);
            assert forall|k: int| 0 <= k <= o.len() implies found_errors(texts, data_start as int, o2, k) == found_errors(texts, data_start as int, o, k) by {
                lemma_found_prefix(texts, data_start as int, o, o2, k);
            }
            o = o2;
        }
        match issue {
            Some(iss) => {
                if errors.len() < limit {
                    let p = preview_of(line);
                    let ghost prev = errors@;
                    errors.push(RowError { logical, issue: iss, preview: p });
                    assert(err_keys(errors@) =~= err_keys(prev).push((logical, iss, p@)));
                } else {
                    dropped = dropped + 1;
                }
            },
            None => {},
        }
        proof {
            let f1 = found_errors(texts, data_start as int, o, o.len() as int);
            assert(f1.take(f0.len() as int) =~= f0);
            assert(f1.len() <= f0.len() + 1);
            if f1.len() > f0.len() {
                assert(f1[f0.len() as int] == (logical, issue->0, spec_preview(line@)));
            }
            let kept0 = if f0.len() <= limit { f0.len() } else { limit as nat };
            let kept1 = if f1.len() <= limit { f1.len() } else { limit as nat };
            assert(f1.take(kept1 as int) =~= if kept1 > kept0 { f0.take(kept0 as int).push(f1[f0.len() as int]) } else { f0.take(kept0 as int) });
        }
        logical += 1;
    }
    let r = ScanResult { errors, dropped };
    assert(scan_explained(texts, data_start as int, delim, expected_cols, limit, r, o));
    r
}

proof fn lemma_found_prefix(texts: Seq<Seq<char>>, first: int, o: Seq<Option<RowIssue>>, o2: Seq<Option<RowIssue>>, k: int)
    requires
        0 <= k <= o.len() <= o2.len(),
        forall|i: int| 0 <= i < o.len() ==> o[i] == o2[i],
    ensures
        found_errors(texts, first, o2, k) == found_errors(texts, first, o, k),
    decreases k,
{
    if k > 0 {
        lemma_found_prefix(texts, first, o, o2, k - 1);
    }
}


/// `t` without the line-break characters at its end.
pub open spec fn trim_breaks(t: Seq<char>) -> Seq<char>
    decreases t.len(),
{
    if t.len() > 0 && (t.last() == '\r' || t.last() == '\n') { trim_breaks(t.drop_last()) } else { t }
}

/// The byte range of `row` in an index with line starts `offs` over a file
/// of `total` bytes: up to the next line's start, the last line to the end.
pub open spec fn row_range(offs: Seq<u64>, total: u64, row: int) -> (u64, u64) {
    (offs[row], if row + 1 < offs.len() { offs[row + 1] } else { total })
}

/// The text of `row` as the scan checks it: its bytes decoded, line breaks
/// at the end removed; empty when its range does not lie in the bytes.
pub open spec fn row_text(b: Seq<u8>, offs: Seq<u64>, total: u64, row: int, enc: Encoding) -> Seq<char> {
    let (s, e) = row_range(offs, total, row);
    if s <= e && e <= b.len() { trim_breaks(decoded_text(enc, b.subrange(s as int, e as int))) } else { seq![] }
}

/// The texts of rows `first .. first + count`.
pub open spec fn file_rows(b: Seq<u8>, offs: Seq<u64>, total: u64, first: int, count: nat, enc: Encoding) -> Seq<Seq<char>> {
    Seq::new(count, |i: int| row_text(b, offs, total, first + i, enc))
}

fn trimmed_text(t: &str) -> (r: String)
    ensures
        r@ == trim_breaks(t@),
{
    let cs = chars_of(t);
    let mut end = cs.len();
    assert(cs@.take(end as int) =~= t@);
    while end > 0 && (cs[end - 1] == '\r' || cs[end - 1] == '\n')
        invariant
            0 <= end <= cs@.len(),
            cs@ == t@,
            trim_breaks(cs@.take(end as int)) == trim_breaks(t@),
        decreases end,
    {
        assert(cs@.take(end as int).drop_last() =~= cs@.take(end - 1));
        end -= 1;
    }
    assert(cs@.take(cs@.len() as int) =~= cs@);
    let mut out: Vec<char> = Vec::new();
    extend_chars(&mut out, cs.as_slice(), 0, end);
    assert(cs@.subrange(0, end as int) =~= cs@.take(end as int));
    string_of(out.as_slice())
}

/// Checks the data rows of a file from its bytes and its line index: each
/// row is decoded with `enc` and its line break removed. `cancel` is asked
/// every 1024 rows; the scan stops early, returning what it has, only when
/// it answered yes. The result keeps the first `limit` rows with a problem, in row
/// order, and counts the rest as dropped.
pub fn scan_errors(
    bytes: &[u8],
    index: &LineIndex,
    enc: Encoding,
    delim: u8,
    expected_cols: usize,
    data_start: usize,
    limit: usize,
    cancel: impl Fn() -> bool,
) -> (r: ScanResult)
    requires
        call_requires(cancel, ()),
    ensures
        index.offsets().len() <= data_start ==> r.errors@.len() == 0 && r.dropped == 0,
        index.offsets().len() > data_start ==> exists|upto: int, o: Seq<Option<RowIssue>>|
            data_start <= upto <= index.offsets().len()
            && (upto < index.offsets().len() ==> call_ensures(cancel, (), true))
            && #[trigger] scan_explained(
                file_rows(bytes@, index.offsets(), index.total(), data_start as int, (upto - data_start) as nat, enc),
                data_start as int, delim, expected_cols, limit, r, o),
{
    let total = index.line_count();
    let mut errors: Vec<RowError> = Vec::new();
    let mut dropped: usize = 0;
    if total <= data_start {
        return ScanResult { errors, dropped };
    }
    let mut reader = fields_reader(delim);
    let ghost all = Seq::new((total - data_start) as nat, |i: int| row_text(bytes@, index.offsets(), index.total(), data_start + i, enc));
    let ghost mut o: Seq<Option<RowIssue>> = seq![];
    let mut logical: usize = data_start;
    assert(err_keys(errors@) =~= Seq::<(usize, RowIssue, Seq<char>)>::empty());
    assert(found_errors(all.take(0), data_start as int, o, 0).take(0) =~= Seq::<(usize, RowIssue, Seq<char>)>::empty());
    while logical < total
        invariant
            data_start <= logical <= total == index.offsets().len(),
            reader@.0 == delim,
            all == Seq::new((total - data_start) as nat, |i: int| row_text(bytes@, index.offsets(), index.total(), data_start + i, enc)),
            call_requires(cancel, ()),
            o.len() == logical - data_start,
            forall|i: int| 0 <= i < o.len() ==> check_outcome(all[i], delim, expected_cols, #[trigger] o[i]),
            capped(ScanResult { errors, dropped }, found_errors(all, data_start as int, o, o.len() as int), limit),
            found_errors(all, data_start as int, o, o.len() as int).len() <= logical - data_start,
        ensures
            logical >= total || call_ensures(cancel, (), true),
        decreases total - logical,
    {
        if (logical - data_start) % 1024 == 0 {
            let stop = cancel();
            if stop {
                break;
            }
        }
        let (s, e) = match index.line_range(logical) {
            Some(range) => range,
            None => (0, 0),
        };
        let ghost text = all[logical - data_start];
        let issue: Option<RowIssue> = if s <= e && e <= bytes.len() as u64 {
            let raw = vstd::slice::slice_subrange(bytes, s as usize, e as usize);
            let decoded = decode_line(raw, enc);
            let line = trimmed_text(decoded.as_str());
            assert(line@ == text);
            let issue = check_line_with(&mut reader, line.as_str(), delim, expected_cols);
            match issue {
                Some(iss) => {
                    if errors.len() < limit {
                        let p = preview_of(line.as_str());
                        let ghost prev = errors@;
                        errors.push(RowError { logical, issue: iss, preview: p });
                        assert(err_keys(errors@) =~= err_keys(prev).push((logical, iss, p@)));
                    } else {
                        dropped = dropped + 1;
                    }
                },
                None => {},
            }
            issue
        } else {
            assert(text == Seq::<char>::empty());
            None
        };
        let ghost f0 = found_errors(all, data_start as int, o, o.len() as int);
        proof {
            let o2 = o.push(issue);
            assert forall|k: int| 0 <= k <= o.len() implies found_errors(all, data_start as int, o2, k) == found_errors(all, data_start as int, o, k) by {
                lemma_found_prefix(all, data_start as int, o, o2, k);
            }
            o = o2;
            let f1 = found_errors(all, data_start as int, o, o.len() as int);
            assert(f1.take(f0.len() as int) =~= f0);
            if f1.len() > f0.len() {
                assert(f1[f0.len() as int] == (logical, issue->0, spec_preview(text)));
            }
            let kept0 = if f0.len() <= limit { f0.len() } else { limit as nat };
            let kept1 = if f1.len() <= limit { f1.len() } else { limit as nat };
            assert(f1.take(kept1 as int) =~= if kept1 > kept0 { f0.take(kept0 as int).push(f1[f0.len() as int]) } else { f0.take(kept0 as int) });
        }
        logical += 1;
    }
    let r = ScanResult { errors, dropped };
    proof {
        let texts = file_rows(bytes@, index.offsets(), index.total(), data_start as int, (logical - data_start) as nat, enc);
        assert(texts =~= all.take(logical - data_start));
        assert forall|k: int| 0 <= k <= o.len() implies found_errors(texts, data_start as int, o, k) == found_errors(all, data_start as int, o, k) by {
            lemma_found_texts(texts, all, data_start as int, o, k);
        }
        assert(scan_explained(texts, data_start as int, delim, expected_cols, limit, r, o));
    }
    r
}

proof fn lemma_found_texts(t1: Seq<Seq<char>>, t2: Seq<Seq<char>>, first: int, o: Seq<Option<RowIssue>>, k: int)
    requires
        0 <= k <= o.len(),
        o.len() <= t1.len(),
        o.len() <= t2.len(),
        forall|i: int| 0 <= i < o.len() ==> t1[i] == t2[i],
    ensures
        found_errors(t1, first, o, k) == found_errors(t2, first, o, k),
    decreases k,
{
    if k > 0 {
        lemma_found_texts(t1, t2, first, o, k - 1);
    }
}


proof fn lemma_merge_rows_assoc(x: Seq<RowError>, y: Seq<RowError>, z: Seq<RowError>)
    ensures
        merge_rows(merge_rows(x, y), z) == merge_rows(x, merge_rows(y, z)),
    decreases x.len() + y.len() + z.len(),
{
    if x.len() == 0 {
        assert(merge_rows(x, y) == y);
        assert(merge_rows(x, merge_rows(y, z)) == merge_rows(y, z));
    } else if y.len() == 0 {
        assert(merge_rows(x, y) == x);
        assert(merge_rows(y, z) == z);
    } else if z.len() == 0 {
        lemma_merge_len(x, y);
        assert(merge_rows(y, z) == y);
        assert(merge_rows(merge_rows(x, y), z) == merge_rows(x, y));
    } else {
        let m = merge_rows(x, y);
        let w = merge_rows(y, z);
        lemma_merge_len(x, y);
        lemma_merge_len(y, z);
        if x[0].logical <= y[0].logical {
            assert(m == seq![x[0]] + merge_rows(x.skip(1), y));
            assert(m[0] == x[0]);
            assert(m.skip(1) =~= merge_rows(x.skip(1), y));
            if x[0].logical <= z[0].logical {
                if y[0].logical <= z[0].logical {
                    assert(w[0] == y[0]);
                } else {
                    assert(w[0] == z[0]);
                }
                lemma_merge_rows_assoc(x.skip(1), y, z);
            } else {
                assert(w == seq![z[0]] + merge_rows(y, z.skip(1)));
                assert(w.skip(1) =~= merge_rows(y, z.skip(1)));
                lemma_merge_rows_assoc(x, y, z.skip(1));
                assert(merge_rows(x, y) == m);
            }
        } else {
            assert(m == seq![y[0]] + merge_rows(x, y.skip(1)));
            assert(m[0] == y[0]);
            assert(m.skip(1) =~= merge_rows(x, y.skip(1)));
            if y[0].logical <= z[0].logical {
                assert(w == seq![y[0]] + merge_rows(y.skip(1), z));
                assert(w[0] == y[0]);
                assert(w.skip(1) =~= merge_rows(y.skip(1), z));
                lemma_merge_rows_assoc(x, y.skip(1), z);
            } else {
                assert(w == seq![z[0]] + merge_rows(y, z.skip(1)));
                assert(w[0] == z[0]);
                assert(w.skip(1) =~= merge_rows(y, z.skip(1)));
                lemma_merge_rows_assoc(x, y, z.skip(1));
            }
        }
    }
}

/// The first `n` elements of `s` (all of them when it is shorter).
pub open spec fn first_n(s: Seq<RowError>, n: nat) -> Seq<RowError> {
    if s.len() <= n { s } else { s.take(n as int) }
}

/// Cutting the first list to its first `m >= n` does not change the first
/// `n` of the merge.
proof fn lemma_merge_first_left(x: Seq<RowError>, y: Seq<RowError>, m: nat, n: nat)
    requires
        m >= n,
    ensures
        first_n(merge_rows(first_n(x, m), y), n) == first_n(merge_rows(x, y), n),
    decreases x.len() + y.len(),
{
    lemma_merge_len(x, y);
    lemma_merge_len(first_n(x, m), y);
    if n == 0 {
        assert(first_n(merge_rows(first_n(x, m), y), n) =~= Seq::<RowError>::empty());
        assert(first_n(merge_rows(x, y), n) =~= Seq::<RowError>::empty());
    } else if x.len() <= m {
        assert(first_n(x, m) == x);
    } else if y.len() == 0 {
        assert(merge_rows(first_n(x, m), y) == first_n(x, m));
        assert(merge_rows(x, y) == x);
        assert(first_n(first_n(x, m), n) =~= first_n(x, n));
    } else {
        let xm = first_n(x, m);
        assert(xm.len() > 0);
        assert(xm[0] == x[0]);
        if x[0].logical <= y[0].logical {
            assert(xm.skip(1) =~= first_n(x.skip(1), (m - 1) as nat));
            lemma_merge_first_left(x.skip(1), y, (m - 1) as nat, (n - 1) as nat);
            lemma_merge_len(x.skip(1), y);
            lemma_merge_len(xm.skip(1), y);
            assert(merge_rows(xm, y) == seq![x[0]] + merge_rows(xm.skip(1), y));
            assert(merge_rows(x, y) == seq![x[0]] + merge_rows(x.skip(1), y));
            assert(first_n(merge_rows(xm, y), n) =~= seq![x[0]] + first_n(merge_rows(xm.skip(1), y), (n - 1) as nat));
            assert(first_n(merge_rows(x, y), n) =~= seq![x[0]] + first_n(merge_rows(x.skip(1), y), (n - 1) as nat));
        } else {
            lemma_merge_first_left(x, y.skip(1), m, (n - 1) as nat);
            lemma_merge_len(x, y.skip(1));
            lemma_merge_len(xm, y.skip(1));
            assert(merge_rows(xm, y) == seq![y[0]] + merge_rows(xm, y.skip(1)));
            assert(merge_rows(x, y) == seq![y[0]] + merge_rows(x, y.skip(1)));
            assert(first_n(merge_rows(xm, y), n) =~= seq![y[0]] + first_n(merge_rows(xm, y.skip(1)), (n - 1) as nat));
            assert(first_n(merge_rows(x, y), n) =~= seq![y[0]] + first_n(merge_rows(x, y.skip(1)), (n - 1) as nat));
        }
    }
}

/// Cutting the second list to its first `m >= n` does not change the first
/// `n` of the merge.
proof fn lemma_merge_first_right(x: Seq<RowError>, y: Seq<RowError>, m: nat, n: nat)
    requires
        m >= n,
    ensures
        first_n(merge_rows(x, first_n(y, m)), n) == first_n(merge_rows(x, y), n),
    decreases x.len() + y.len(),
{
    lemma_merge_len(x, y);
    lemma_merge_len(x, first_n(y, m));
    if n == 0 {
        assert(first_n(merge_rows(x, first_n(y, m)), n) =~= Seq::<RowError>::empty());
        assert(first_n(merge_rows(x, y), n) =~= Seq::<RowError>::empty());
    } else if y.len() <= m {
        assert(first_n(y, m) == y);
    } else if x.len() == 0 {
        assert(merge_rows(x, first_n(y, m)) == first_n(y, m));
        assert(merge_rows(x, y) == y);
        assert(first_n(first_n(y, m), n) =~= first_n(y, n));
    } else {
        let ym = first_n(y, m);
        assert(ym.len() > 0);
        assert(ym[0] == y[0]);
        if x[0].logical <= y[0].logical {
            lemma_merge_first_right(x.skip(1), y, m, (n - 1) as nat);
            lemma_merge_len(x.skip(1), y);
            lemma_merge_len(x.skip(1), ym);
            assert(merge_rows(x, ym) == seq![x[0]] + merge_rows(x.skip(1), ym));
            assert(merge_rows(x, y) == seq![x[0]] + merge_rows(x.skip(1), y));
            assert(first_n(merge_rows(x, ym), n) =~= seq![x[0]] + first_n(merge_rows(x.skip(1), ym), (n - 1) as nat));
            assert(first_n(merge_rows(x, y), n) =~= seq![x[0]] + first_n(merge_rows(x.skip(1), y), (n - 1) as nat));
        } else {
            assert(ym.skip(1) =~= first_n(y.skip(1), (m - 1) as nat));
            lemma_merge_first_right(x, y.skip(1), (m - 1) as nat, (n - 1) as nat);
            lemma_merge_len(x, y.skip(1));
            lemma_merge_len(x, ym.skip(1));
            assert(merge_rows(x, ym) == seq![y[0]] + merge_rows(x, ym.skip(1)));
            assert(merge_rows(x, y) == seq![y[0]] + merge_rows(x, y.skip(1)));
            assert(first_n(merge_rows(x, ym), n) =~= seq![y[0]] + first_n(merge_rows(x, ym.skip(1)), (n - 1) as nat));
            assert(first_n(merge_rows(x, y), n) =~= seq![y[0]] + first_n(merge_rows(x, y.skip(1)), (n - 1) as nat));
        }
    }
}

/// Merging partial scan results is associative: however the chunks of a
/// scan are grouped when their results are combined, the rows kept and the
/// count of dropped errors are the same.
pub proof fn lemma_merge_associative(
    a: Seq<RowError>, ad: nat,
    b: Seq<RowError>, bd: nat,
    c: Seq<RowError>, cd: nat,
    limit: nat,
)
    ensures
        ({
            let ab = spec_merge(a, ad, b, bd, limit);
            let bc = spec_merge(b, bd, c, cd, limit);
            spec_merge(ab.0, ab.1, c, cd, limit) == spec_merge(a, ad, bc.0, bc.1, limit)
        }),
{
    let ab = spec_merge(a, ad, b, bd, limit);
    let bc = spec_merge(b, bd, c, cd, limit);
    let mab = merge_rows(a, b);
    let mbc = merge_rows(b, c);
    lemma_merge_len(a, b);
    lemma_merge_len(b, c);
    assert(ab.0 == first_n(mab, limit));
    assert(bc.0 == first_n(mbc, limit));
    lemma_merge_first_left(mab, c, limit, limit);
    lemma_merge_first_right(a, mbc, limit, limit);
    lemma_merge_rows_assoc(a, b, c);
    lemma_merge_len(ab.0, c);
    lemma_merge_len(a, bc.0);
    lemma_merge_len(mab, c);
    let l = spec_merge(ab.0, ab.1, c, cd, limit);
    let r = spec_merge(a, ad, bc.0, bc.1, limit);
    assert(l.0 == first_n(merge_rows(ab.0, c), limit));
    assert(r.0 == first_n(merge_rows(a, bc.0), limit));
    assert(l.0 == r.0);
}

/// Merging with an empty result changes nothing for a result that already
/// respects the limit.
pub proof fn lemma_merge_empty_identity(a: Seq<RowError>, ad: nat, limit: nat)
    requires
        a.len() <= limit,
    ensures
        spec_merge(a, ad, Seq::<RowError>::empty(), 0, limit) == (a, ad),
        spec_merge(Seq::<RowError>::empty(), 0, a, ad, limit) == (a, ad),
{
    assert(merge_rows(a, Seq::<RowError>::empty()) == a);
    assert(a.take(a.len() as int) =~= a);
}

} // verus!
