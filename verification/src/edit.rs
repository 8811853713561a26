//! The in-memory edit buffer: text editing by character positions, cell
//! editing of delimited rows, row insertion and removal, reordering, and the
//! undo stack.
use vstd::prelude::*;
use crate::chars::{chars_of, string_of, extend_chars};
use crate::bytes::{memchr_find, first_at};
use crate::parse::{Encoding, csv_fields, decode_line, line_text, views, split_fields, join_fields, joined, field_slice, field_ranges, lossy_utf8, text_of, utf8_lossy, lemma_field_ranges_wf};
use vstd::utf8::encode_utf8;

verus! {

/// A caret position: line index and character (not byte) column.
#[derive(Debug, Clone, Copy, PartialEq, Eq, Structural)]
pub struct TextPos {
    pub line: usize,
    pub col: usize,
}

/// `a` comes no later than `b` in reading order.
pub open spec fn pos_le(a: TextPos, b: TextPos) -> bool {
    a.line < b.line || (a.line == b.line && a.col <= b.col)
}

/// A column clamped to the end of line `l`, as the editor does when a column
/// lies past the end of its line.
pub open spec fn clamp_col(l: Seq<char>, col: usize) -> int {
    if col <= l.len() { col as int } else { l.len() as int }
}

/// Orders two positions so the first is the earlier one.
pub fn normalize(a: TextPos, b: TextPos) -> (r: (TextPos, TextPos))
    ensures
        r == (if pos_le(a, b) { (a, b) } else { (b, a) }),
{
    if a.line < b.line || (a.line == b.line && a.col <= b.col) {
        (a, b)
    } else {
        (b, a)
    }
}

proof fn lemma_views_update(v: Seq<String>, i: int, s: String)
    requires
        0 <= i < v.len(),
    ensures
        views(v.update(i, s)) == views(v).update(i, s@),
{
    assert(views(v.update(i, s)) =~= views(v).update(i, s@));
}

proof fn lemma_views_insert(v: Seq<String>, i: int, s: String)
    requires
        0 <= i <= v.len(),
    ensures
        views(v.insert(i, s)) == views(v).insert(i, s@),
{
    assert(views(v.insert(i, s)) =~= views(v).insert(i, s@));
}

proof fn lemma_views_remove(v: Seq<String>, i: int)
    requires
        0 <= i < v.len(),
    ensures
        views(v.remove(i)) == views(v).remove(i),
{
    assert(views(v.remove(i)) =~= views(v).remove(i));
}

/// The characters of line `i`.
fn line_chars(lines: &[String], i: usize) -> (v: Vec<char>)
    requires
        i < lines@.len(),
    ensures
        v@ == views(lines@)[i as int],
{
    chars_of(lines[i].as_str())
}

/// `l` with `ch` inserted at column `c` (clamped).
pub open spec fn spec_insert_char(ls: Seq<Seq<char>>, pos: TextPos, ch: char) -> Seq<Seq<char>> {
    let l = ls[pos.line as int];
    let c = clamp_col(l, pos.col);
    ls.update(pos.line as int, l.take(c).push(ch) + l.skip(c))
}

/// Inserts one character at `pos` (a column past the line end means the end)
/// and returns the position just after it.
pub fn insert_char(lines: &mut Vec<String>, pos: TextPos, ch: char) -> (r: TextPos)
    requires
        pos.line < old(lines)@.len(),
        pos.col < usize::MAX,
    ensures
        views(final(lines)@) == spec_insert_char(views(old(lines)@), pos, ch),
        r == (TextPos { line: pos.line, col: (pos.col + 1) as usize }),
{
    let cs = line_chars(lines.as_slice(), pos.line);
    let c: usize = if pos.col <= cs.len() { pos.col } else { cs.len() };
    let mut out: Vec<char> = Vec::new();
    extend_chars(&mut out, cs.as_slice(), 0, c);
    out.push(ch);
    extend_chars(&mut out, cs.as_slice(), c, cs.len());
    let s = string_of(out.as_slice());
    proof {
        lemma_views_update(lines@, pos.line as int, s);
        assert(cs@.subrange(0, c as int) == cs@.take(c as int));
        assert(cs@.subrange(c as int, cs@.len() as int) == cs@.skip(c as int));
    }
    lines.set(pos.line, s);
    TextPos { line: pos.line, col: pos.col + 1 }
}

/// Line `pos.line` split at the (clamped) column into two lines.
pub open spec fn spec_split_line(ls: Seq<Seq<char>>, pos: TextPos) -> Seq<Seq<char>> {
    let l = ls[pos.line as int];
    let c = clamp_col(l, pos.col);
    ls.update(pos.line as int, l.take(c)).insert(pos.line + 1, l.skip(c))
}

/// Breaks the line at `pos` (Enter) and returns the start of the new line.
pub fn split_line(lines: &mut Vec<String>, pos: TextPos) -> (r: TextPos)
    requires
        pos.line < old(lines)@.len(),
    ensures
        views(final(lines)@) == spec_split_line(views(old(lines)@), pos),
        r == (TextPos { line: (pos.line + 1) as usize, col: 0 }),
{
    let cs = line_chars(lines.as_slice(), pos.line);
    let c: usize = if pos.col <= cs.len() { pos.col } else { cs.len() };
    let mut head: Vec<char> = Vec::new();
    extend_chars(&mut head, cs.as_slice(), 0, c);
    let mut tail: Vec<char> = Vec::new();
    extend_chars(&mut tail, cs.as_slice(), c, cs.len());
    let hs = string_of(head.as_slice());
    let ts = string_of(tail.as_slice());
    proof {
        lemma_views_update(lines@, pos.line as int, hs);
        lemma_views_insert(lines@.update(pos.line as int, hs), pos.line + 1, ts);
        assert(cs@.subrange(0, c as int) == cs@.take(c as int));
        assert(cs@.subrange(c as int, cs@.len() as int) == cs@.skip(c as int));
    }
    lines.set(pos.line, hs);
    assert(pos.line < lines.len());
    lines.insert(pos.line + 1, ts);
    TextPos { line: pos.line + 1, col: 0 }
}


/// The pieces of `s` between occurrences of `sep`: `s.split(sep)`.
pub open spec fn split_by(s: Seq<char>, sep: char) -> Seq<Seq<char>>
    decreases s.len(),
{
    if s.len() == 0 {
        seq![Seq::<char>::empty()]
    } else {
        let p = split_by(s.drop_last(), sep);
        if s.last() == sep {
            p.push(Seq::<char>::empty())
        } else {
            p.update(p.len() - 1, p.last().push(s.last()))
        }
    }
}

/// The pieces of `s` between line breaks: `s.split('\n')`.
pub open spec fn split_nl(s: Seq<char>) -> Seq<Seq<char>> {
    split_by(s, '\n')
}

/// Pieces joined with line breaks between them.
pub open spec fn join_nl(p: Seq<Seq<char>>) -> Seq<char>
    decreases p.len(),
{
    if p.len() == 0 {
        seq![]
    } else if p.len() == 1 {
        p[0]
    } else {
        join_nl(p.drop_last()) + seq!['\n'] + p.last()
    }
}

/// No line break occurs in `s`.
pub open spec fn no_newline(s: Seq<char>) -> bool {
    forall|j: int| 0 <= j < s.len() ==> s[j] != '\n'
}

pub(crate) proof fn lemma_split_by_len(s: Seq<char>, sep: char)
    ensures
        split_by(s, sep).len() >= 1,
    decreases s.len(),
{
    if s.len() > 0 {
        lemma_split_by_len(s.drop_last(), sep);
    }
}

proof fn lemma_split_nl_len(s: Seq<char>)
    ensures
        split_nl(s).len() >= 1,
{
    lemma_split_by_len(s, '\n');
}

/// A text splits into a single piece only when it has no line break.
proof fn lemma_split_nl_single(s: Seq<char>)
    requires
        split_nl(s).len() == 1,
    ensures
        split_nl(s)[0] == s,
    decreases s.len(),
{
    if s.len() > 0 {
        lemma_split_nl_len(s.drop_last());
        if s.last() != '\n' {
            lemma_split_nl_single(s.drop_last());
            assert(s.drop_last().push(s.last()) =~= s);
        }
    }
}

/// Appending text without line breaks extends the last piece.
proof fn lemma_split_nl_append(x: Seq<char>, y: Seq<char>)
    requires
        no_newline(y),
    ensures
        split_nl(x + y) == split_nl(x).update(split_nl(x).len() - 1, split_nl(x).last() + y),
    decreases y.len(),
{
    lemma_split_nl_len(x);
    let q = split_nl(x);
    if y.len() == 0 {
        assert(x + y =~= x);
        assert(q.last() + y =~= q.last());
        assert(q.update(q.len() - 1, q.last()) =~= q);
    } else {
        let y1 = y.drop_last();
        assert(no_newline(y1));
        lemma_split_nl_append(x, y1);
        assert((x + y).drop_last() =~= x + y1);
        assert((x + y).last() == y.last());
        assert((q.last() + y1).push(y.last()) =~= q.last() + y);
        assert(q.update(q.len() - 1, q.last() + y1).update(q.len() - 1, q.last() + y) =~= q.update(q.len() - 1, q.last() + y));
    }
}

/// Splitting undoes joining, for pieces without line breaks.
proof fn lemma_split_join(p: Seq<Seq<char>>)
    requires
        p.len() >= 1,
        forall|i: int| 0 <= i < p.len() ==> no_newline(#[trigger] p[i]),
    ensures
        split_nl(join_nl(p)) == p,
    decreases p.len(),
{
    if p.len() == 1 {
        lemma_split_nl_append(Seq::<char>::empty(), p[0]);
        assert(Seq::<char>::empty() + p[0] =~= p[0]);
        assert(split_nl(Seq::<char>::empty()) =~= seq![Seq::<char>::empty()]);
        assert(Seq::<char>::empty() + p[0] =~= p[0]);
        assert(seq![Seq::<char>::empty()].update(0, Seq::<char>::empty() + p[0]) =~= p);
    } else {
        let q = p.drop_last();
        assert forall|i: int| 0 <= i < q.len() implies no_newline(#[trigger] q[i]) by {
            assert(q[i] == p[i]);
        }
        lemma_split_join(q);
        let j = join_nl(q);
        let jn = j.push('\n');
        assert(jn.drop_last() =~= j);
        assert(split_nl(jn) == q.push(Seq::<char>::empty()));
        assert(no_newline(p.last()));
        lemma_split_nl_append(jn, p.last());
        assert(jn + p.last() =~= join_nl(p));
        assert(Seq::<char>::empty() + p.last() =~= p.last());
        assert(q.push(Seq::<char>::empty()).update(q.len() as int, Seq::<char>::empty() + p.last()) =~= p);
    }
}

/// The views of a list of character vectors.
pub open spec fn cviews(v: Seq<Vec<char>>) -> Seq<Seq<char>> {
    v.map_values(|x: Vec<char>| x@)
}

/// Splits `s` at every occurrence of `sep`.
pub(crate) fn split_on(s: &[char], sep: char) -> (parts: Vec<Vec<char>>)
    ensures
        cviews(parts@) == split_by(s@, sep),
{
    let mut parts: Vec<Vec<char>> = Vec::new();
    let mut cur: Vec<char> = Vec::new();
    let mut i: usize = 0;
    assert(s@.take(0) =~= Seq::<char>::empty());
    assert(cviews(parts@).push(cur@) =~= split_by(s@.take(0), sep));
    while i < s.len()
        invariant
            0 <= i <= s@.len(),
            cviews(parts@).push(cur@) == split_by(s@.take(i as int), sep),
        decreases s.len() - i,
    {
        let c = s[i];
        let ghost before = cviews(parts@);
        assert(s@.take(i as int + 1).drop_last() =~= s@.take(i as int));
        assert(s@.take(i as int + 1).last() == c);
        if c == sep {
            let done = cur;
            parts.push(done);
            cur = Vec::new();
            assert(cviews(parts@) =~= before.push(done@));
            assert(cviews(parts@).push(cur@) =~= before.push(done@).push(Seq::<char>::empty()));
        } else {
            cur.push(c);
            assert(cviews(parts@) =~= before);
            assert(cviews(parts@).push(cur@) =~= before.push(cur@.drop_last()).update(before.len() as int, cur@));
        }
        i += 1;
    }
    assert(s@.take(s@.len() as int) =~= s@);
    let ghost before = cviews(parts@);
    parts.push(cur);
    assert(cviews(parts@) =~= before.push(cur@));
    parts
}

/// `p` with `h` put before its first piece and `t` after its last.
pub open spec fn attach(p: Seq<Seq<char>>, h: Seq<char>, t: Seq<char>) -> Seq<Seq<char>> {
    let q = p.update(0, h + p[0]);
    q.update(q.len() - 1, q.last() + t)
}

/// Inserting `s` at `pos`: the text's first piece joins the head of the line,
/// its last piece the rest of the line, the pieces between become new lines.
/// Returns the new lines and the position just after the inserted text.
pub open spec fn spec_insert_str(ls: Seq<Seq<char>>, pos: TextPos, s: Seq<char>) -> (Seq<Seq<char>>, TextPos) {
    let l = ls[pos.line as int];
    let c = clamp_col(l, pos.col);
    let p = split_nl(s);
    let new_lines = ls.take(pos.line as int) + attach(p, l.take(c), l.skip(c)) + ls.skip(pos.line + 1);
    let end = if p.len() == 1 {
        TextPos { line: pos.line, col: (pos.col + p[0].len()) as usize }
    } else {
        TextPos { line: (pos.line + p.len() - 1) as usize, col: p.last().len() as usize }
    };
    (new_lines, end)
}

proof fn lemma_views_concat(a: Seq<String>, b: Seq<String>)
    ensures
        views(a + b) == views(a) + views(b),
{
    assert(views(a + b) =~= views(a) + views(b));
}

/// Inserts text at `pos`, turning each line break in it into a new line, and
/// returns the position just after the inserted text.
pub fn insert_str(lines: &mut Vec<String>, pos: TextPos, s: &str) -> (r: TextPos)
    requires
        pos.line < old(lines)@.len(),
        split_nl(s@).len() == 1 ==> pos.col + s@.len() <= usize::MAX,
    ensures
        (views(final(lines)@), r) == spec_insert_str(views(old(lines)@), pos, s@),
{
    let ghost ls = views(lines@);
    let cs = line_chars(lines.as_slice(), pos.line);
    let c: usize = if pos.col <= cs.len() { pos.col } else { cs.len() };
    let sc = chars_of(s);
    let parts = split_on(sc.as_slice(), '\n');
    proof { lemma_split_nl_len(s@); }
    let n = parts.len();
    let ghost p = split_nl(s@);
    let ghost head = cs@.take(c as int);
    let ghost tail = cs@.skip(c as int);
    assert(parts@[0]@ == p[0]);
    let mut first: Vec<char> = Vec::new();
    extend_chars(&mut first, cs.as_slice(), 0, c);
    extend_chars(&mut first, parts[0].as_slice(), 0, parts[0].len());
    assert(cs@.subrange(0, c as int) == head);
    assert(parts@[0]@.subrange(0, parts@[0]@.len() as int) == p[0]);
    assert(first@ == head + p[0]);
    if n == 1 {
        proof { lemma_split_nl_single(s@); }
        extend_chars(&mut first, cs.as_slice(), c, cs.len());
        assert(cs@.subrange(c as int, cs@.len() as int) == tail);
        let fs = string_of(first.as_slice());
        proof {
            lemma_views_update(lines@, pos.line as int, fs);
            let q = p.update(0, head + p[0]);
            assert(attach(p, head, tail) =~= seq![head + p[0] + tail]);
            assert(ls.update(pos.line as int, head + p[0] + tail) =~= ls.take(pos.line as int) + seq![head + p[0] + tail] + ls.skip(pos.line + 1));
        }
        lines.set(pos.line, fs);
        return TextPos { line: pos.line, col: pos.col + parts[0].len() };
    }
    let fs = string_of(first.as_slice());
    proof { lemma_views_update(lines@, pos.line as int, fs); }
    lines.set(pos.line, fs);
    let mut k: usize = 1;
    assert(views(lines@) =~= ls.take(pos.line as int) + seq![head + p[0]] + p.subrange(1, 1) + ls.skip(pos.line + 1));
    while k < n - 1
        invariant
            1 <= k <= n - 1,
            n == p.len(),
            n >= 2,
            cviews(parts@) == p,
            pos.line < ls.len(),
            lines@.len() == ls.len() + k - 1,
            views(lines@) == ls.take(pos.line as int) + seq![head + p[0]] + p.subrange(1, k as int) + ls.skip(pos.line + 1),
        decreases n - 1 - k,
    {
        assert(parts@[k as int]@ == p[k as int]);
        let piece = string_of(parts[k].as_slice());
        let ghost before = views(lines@);
        let cur_len = lines.len();
        assert(pos.line + k <= cur_len);
        proof { lemma_views_insert(lines@, pos.line + k, piece); }
        lines.insert(pos.line + k, piece);
        k += 1;
        assert(views(lines@) =~= ls.take(pos.line as int) + seq![head + p[0]] + p.subrange(1, k as int) + ls.skip(pos.line + 1));
    }
    assert(parts@[n - 1]@ == p[n - 1]);
    assert(lines@.len() == ls.len() + n - 2);
    let mut last: Vec<char> = Vec::new();
    extend_chars(&mut last, parts[n - 1].as_slice(), 0, parts[n - 1].len());
    let col = last.len();
    extend_chars(&mut last, cs.as_slice(), c, cs.len());
    assert(cs@.subrange(c as int, cs@.len() as int) == tail);
    assert(parts@[n - 1]@.subrange(0, parts@[n - 1]@.len() as int) == p[n - 1]);
    let ls2 = string_of(last.as_slice());
    let cur_len = lines.len();
    assert(pos.line + n - 1 <= cur_len);
    proof {
        lemma_views_insert(lines@, pos.line + n - 1, ls2);
        let q = p.update(0, head + p[0]);
        assert(attach(p, head, tail) =~= seq![head + p[0]] + p.subrange(1, n - 1) + seq![p[n - 1] + tail]);
        assert(views(lines@).insert(pos.line + n - 1, ls2@) =~= ls.take(pos.line as int) + attach(p, head, tail) + ls.skip(pos.line + 1));
    }
    lines.insert(pos.line + (n - 1), ls2);
    TextPos { line: pos.line + (n - 1), col }
}


/// The earlier of two positions.
pub open spec fn pos_lo(a: TextPos, b: TextPos) -> TextPos {
    if pos_le(a, b) { a } else { b }
}

/// The later of two positions.
pub open spec fn pos_hi(a: TextPos, b: TextPos) -> TextPos {
    if pos_le(a, b) { b } else { a }
}

/// Deleting the text between `a` and `b` (in either order): the head of the
/// first line joins the rest of the last, the lines between go. Returns the
/// new lines and the earlier position.
pub open spec fn spec_delete_range(ls: Seq<Seq<char>>, a: TextPos, b: TextPos) -> (Seq<Seq<char>>, TextPos) {
    let lo = pos_lo(a, b);
    let hi = pos_hi(a, b);
    if lo == hi {
        (ls, lo)
    } else if lo.line == hi.line {
        let l = ls[lo.line as int];
        (ls.update(lo.line as int, l.take(clamp_col(l, lo.col)) + l.skip(clamp_col(l, hi.col))), lo)
    } else {
        let la = ls[lo.line as int];
        let lb = ls[hi.line as int];
        (ls.take(lo.line as int) + seq![la.take(clamp_col(la, lo.col)) + lb.skip(clamp_col(lb, hi.col))]
            + ls.skip(hi.line + 1), lo)
    }
}

/// Deletes the text between two positions (given in either order) and
/// returns the earlier one.
pub fn delete_range(lines: &mut Vec<String>, a: TextPos, b: TextPos) -> (r: TextPos)
    requires
        a == b || (a.line < old(lines)@.len() && b.line < old(lines)@.len()),
    ensures
        (views(final(lines)@), r) == spec_delete_range(views(old(lines)@), a, b),
{
    let ghost ls = views(lines@);
    let (a, b) = normalize(a, b);
    if a == b {
        return a;
    }
    if a.line == b.line {
        let cs = line_chars(lines.as_slice(), a.line);
        let sa: usize = if a.col <= cs.len() { a.col } else { cs.len() };
        let sb: usize = if b.col <= cs.len() { b.col } else { cs.len() };
        let mut out: Vec<char> = Vec::new();
        extend_chars(&mut out, cs.as_slice(), 0, sa);
        extend_chars(&mut out, cs.as_slice(), sb, cs.len());
        let os = string_of(out.as_slice());
        proof {
            lemma_views_update(lines@, a.line as int, os);
            assert(cs@.subrange(0, sa as int) == cs@.take(sa as int));
            assert(cs@.subrange(sb as int, cs@.len() as int) == cs@.skip(sb as int));
        }
        lines.set(a.line, os);
        return a;
    }
    let ca = line_chars(lines.as_slice(), a.line);
    let cb = line_chars(lines.as_slice(), b.line);
    let sa: usize = if a.col <= ca.len() { a.col } else { ca.len() };
    let sb: usize = if b.col <= cb.len() { b.col } else { cb.len() };
    let mut out: Vec<char> = Vec::new();
    extend_chars(&mut out, ca.as_slice(), 0, sa);
    extend_chars(&mut out, cb.as_slice(), sb, cb.len());
    let os = string_of(out.as_slice());
    proof {
        assert(ca@.subrange(0, sa as int) == ca@.take(sa as int));
        assert(cb@.subrange(sb as int, cb@.len() as int) == cb@.skip(sb as int));
    }
    let ghost orig = lines@;
    let n_lines = lines.len();
    assert(b.line < n_lines);
    let mut rest = lines.split_off(b.line + 1);
    lines.truncate(a.line);
    lines.push(os);
    lines.append(&mut rest);
    proof {
        assert(lines@ =~= orig.subrange(0, a.line as int).push(os) + orig.subrange(b.line + 1, orig.len() as int));
        lemma_views_concat(orig.subrange(0, a.line as int).push(os), orig.subrange(b.line + 1, orig.len() as int));
        assert(views(orig.subrange(0, a.line as int).push(os)) =~= ls.take(a.line as int) + seq![os@]);
        assert(views(orig.subrange(b.line + 1, orig.len() as int)) =~= ls.skip(b.line + 1));
    }
    a
}

/// The pieces of a selection spanning lines: the rest of the first line,
/// the lines between, and the head of the last line (the end clamped to the
/// last line of the document).
pub open spec fn sel_pieces(ls: Seq<Seq<char>>, lo: TextPos, hi: TextPos) -> Seq<Seq<char>> {
    let last = if hi.line < ls.len() { hi.line as int } else { ls.len() - 1 };
    let la = ls[lo.line as int];
    let first = la.skip(clamp_col(la, lo.col));
    if last > lo.line {
        seq![first] + ls.subrange(lo.line + 1, last) + seq![ls[last].take(clamp_col(ls[last], hi.col))]
    } else {
        seq![first]
    }
}

/// The text between `a` and `b` (in either order), lines joined by `\n`;
/// empty when the range is empty or starts past the last line.
pub open spec fn spec_selection_text(ls: Seq<Seq<char>>, a: TextPos, b: TextPos) -> Seq<char> {
    let lo = pos_lo(a, b);
    let hi = pos_hi(a, b);
    if lo == hi || lo.line >= ls.len() {
        seq![]
    } else if lo.line == hi.line {
        let l = ls[lo.line as int];
        l.subrange(clamp_col(l, lo.col), clamp_col(l, hi.col))
    } else {
        join_nl(sel_pieces(ls, lo, hi))
    }
}

/// The text between two positions (in either order): the same range that
/// `delete_range` removes, with line breaks between lines.
pub fn selection_text(lines: &[String], a: TextPos, b: TextPos) -> (s: String)
    ensures
        s@ == spec_selection_text(views(lines@), a, b),
{
    let ghost ls = views(lines@);
    let (a, b) = normalize(a, b);
    if a == b || a.line >= lines.len() {
        return string_of(Vec::<char>::new().as_slice());
    }
    if a.line == b.line {
        let cs = line_chars(lines, a.line);
        let sa: usize = if a.col <= cs.len() { a.col } else { cs.len() };
        let sb: usize = if b.col <= cs.len() { b.col } else { cs.len() };
        let mut out: Vec<char> = Vec::new();
        extend_chars(&mut out, cs.as_slice(), sa, sb);
        return string_of(out.as_slice());
    }
    let last: usize = if b.line < lines.len() { b.line } else { lines.len() - 1 };
    let ghost pieces = sel_pieces(ls, a, b);
    let ca = line_chars(lines, a.line);
    let sa: usize = if a.col <= ca.len() { a.col } else { ca.len() };
    let mut out: Vec<char> = Vec::new();
    extend_chars(&mut out, ca.as_slice(), sa, ca.len());
    assert(ca@.subrange(sa as int, ca@.len() as int) == ca@.skip(sa as int));
    assert(pieces[0] == ca@.skip(sa as int));
    assert(out@ == join_nl(pieces.take(1)));
    let mut l: usize = a.line + 1;
    while l < last
        invariant
            a.line + 1 <= l <= last || (last <= a.line && l == a.line + 1),
            last < lines@.len(),
            a.line < lines@.len(),
            ls == views(lines@),
            pieces == sel_pieces(ls, a, b),
            last == (if b.line < ls.len() { b.line as int } else { ls.len() - 1 }),
            out@ == join_nl(pieces.take(l - a.line)),
        decreases last - l,
    {
        let cl = line_chars(lines, l);
        let ghost prev = out@;
        out.push('\n');
        extend_chars(&mut out, cl.as_slice(), 0, cl.len());
        l += 1;
        proof {
            let t = pieces.take(l - a.line);
            assert(t.drop_last() =~= pieces.take(l - 1 - a.line));
            assert(t.last() == ls[l - 1]);
            assert(cl@.subrange(0, cl@.len() as int) == cl@);
            assert(out@ =~= prev + seq!['\n'] + cl@);
        }
    }
    if last > a.line {
        let cl = line_chars(lines, last);
        let sb: usize = if b.col <= cl.len() { b.col } else { cl.len() };
        let ghost prev = out@;
        out.push('\n');
        extend_chars(&mut out, cl.as_slice(), 0, sb);
        proof {
            assert(l == last);
            let t = pieces.take(last - a.line + 1);
            assert(t.drop_last() =~= pieces.take(last - a.line));
            assert(t =~= pieces);
            assert(cl@.subrange(0, sb as int) == cl@.take(sb as int));
            assert(out@ =~= prev + seq!['\n'] + cl@.take(sb as int));
        }
    } else {
        assert(pieces.take(1) =~= pieces);
    }
    string_of(out.as_slice())
}

/// Backspace at `pos`: removes the character before it, or joins the line to
/// the previous one at the line start; nothing at the document start.
pub open spec fn spec_backspace(ls: Seq<Seq<char>>, pos: TextPos) -> (Seq<Seq<char>>, TextPos) {
    if pos.col > 0 {
        spec_delete_range(ls, TextPos { line: pos.line, col: (pos.col - 1) as usize }, pos)
    } else if pos.line == 0 {
        (ls, pos)
    } else {
        spec_delete_range(ls, TextPos { line: (pos.line - 1) as usize, col: ls[pos.line - 1].len() as usize }, pos)
    }
}

/// Deletes the character before `pos` (joining lines at a line start) and
/// returns the new caret position.
pub fn backspace(lines: &mut Vec<String>, pos: TextPos) -> (r: TextPos)
    requires
        (pos.line == 0 && pos.col == 0) || pos.line < old(lines)@.len(),
    ensures
        (views(final(lines)@), r) == spec_backspace(views(old(lines)@), pos),
{
    if pos.col > 0 {
        let prev = TextPos { line: pos.line, col: pos.col - 1 };
        return delete_range(lines, prev, pos);
    }
    if pos.line == 0 {
        return pos;
    }
    let prev_len = line_chars(lines.as_slice(), pos.line - 1).len();
    let merge = TextPos { line: pos.line - 1, col: prev_len };
    delete_range(lines, merge, pos)
}


/// A position lies in the document: an existing line, a column up to its end.
pub open spec fn pos_valid(ls: Seq<Seq<char>>, p: TextPos) -> bool {
    p.line < ls.len() && p.col <= ls[p.line as int].len()
}

/// Every line is free of line breaks (the edit buffer's invariant).
pub open spec fn lines_without_breaks(ls: Seq<Seq<char>>) -> bool {
    forall|i: int| 0 <= i < ls.len() ==> no_newline(#[trigger] ls[i])
}

proof fn lemma_split_nl_plain(s: Seq<char>)
    requires
        no_newline(s),
    ensures
        split_nl(s) == seq![s],
{
    lemma_split_join(seq![s]);
}

/// Cut and paste undo each other: taking the text between two valid
/// positions, deleting it, and inserting it again where the deletion left the
/// caret gives back the same lines, with the caret at the later position.
pub proof fn lemma_cut_paste_roundtrip(ls: Seq<Seq<char>>, a: TextPos, b: TextPos)
    requires
        pos_valid(ls, a),
        pos_valid(ls, b),
        lines_without_breaks(ls),
    ensures
        spec_insert_str(spec_delete_range(ls, a, b).0, spec_delete_range(ls, a, b).1, spec_selection_text(ls, a, b))
            == (ls, pos_hi(a, b)),
{
    let lo = pos_lo(a, b);
    let hi = pos_hi(a, b);
    let cut = spec_selection_text(ls, a, b);
    let del = spec_delete_range(ls, a, b);
    assert(del.1 == lo);
    if lo == hi {
        let l = ls[lo.line as int];
        assert(cut =~= Seq::<char>::empty());
        assert(split_nl(cut) =~= seq![Seq::<char>::empty()]);
        let c = lo.col as int;
        assert(l.take(c) + Seq::<char>::empty() =~= l.take(c));
        assert(l.take(c) + l.skip(c) =~= l);
        assert(attach(split_nl(cut), l.take(lo.col as int), l.skip(lo.col as int)) =~= seq![l]);
        assert(ls.take(lo.line as int) + seq![l] + ls.skip(lo.line + 1) =~= ls);
    } else if lo.line == hi.line {
        let l = ls[lo.line as int];
        let ca = lo.col as int;
        let cb = hi.col as int;
        assert(cut == l.subrange(ca, cb));
        assert(no_newline(cut)) by {
            assert forall|j: int| 0 <= j < cut.len() implies cut[j] != '\n' by {
                assert(cut[j] == l[ca + j]);
            }
        }
        lemma_split_nl_plain(cut);
        let m = l.take(ca) + l.skip(cb);
        assert(del.0 == ls.update(lo.line as int, m));
        assert(m.take(ca) =~= l.take(ca));
        assert(m.skip(ca) =~= l.skip(cb));
        assert(l.take(ca) + cut + l.skip(cb) =~= l);
        assert(attach(split_nl(cut), m.take(ca), m.skip(ca)) =~= seq![l]);
        assert(del.0.take(lo.line as int) + seq![l] + del.0.skip(lo.line + 1) =~= ls);
    } else {
        let la = ls[lo.line as int];
        let lb = ls[hi.line as int];
        let ca = lo.col as int;
        let cb = hi.col as int;
        let pieces = sel_pieces(ls, lo, hi);
        assert(pieces == seq![la.skip(ca)] + ls.subrange(lo.line + 1, hi.line as int) + seq![lb.take(cb)]);
        assert forall|i: int| 0 <= i < pieces.len() implies no_newline(#[trigger] pieces[i]) by {
            if i == 0 {
                assert forall|j: int| 0 <= j < pieces[i].len() implies pieces[i][j] != '\n' by {
                    assert(pieces[i][j] == la[ca + j]);
                }
            } else if i == pieces.len() - 1 {
                assert forall|j: int| 0 <= j < pieces[i].len() implies pieces[i][j] != '\n' by {
                    assert(pieces[i][j] == lb[j]);
                }
            } else {
                assert(pieces[i] == ls[lo.line + i]);
            }
        }
        lemma_split_join(pieces);
        let m = la.take(ca) + lb.skip(cb);
        assert(del.0 == ls.take(lo.line as int) + seq![m] + ls.skip(hi.line + 1));
        assert(del.0[lo.line as int] == m);
        assert(m.take(ca) =~= la.take(ca));
        assert(m.skip(ca) =~= lb.skip(cb));
        assert(la.take(ca) + la.skip(ca) =~= la);
        assert(lb.take(cb) + lb.skip(cb) =~= lb);
        assert(attach(pieces, m.take(ca), m.skip(ca)) =~= ls.subrange(lo.line as int, hi.line + 1));
        assert(del.0.take(lo.line as int) =~= ls.take(lo.line as int));
        assert(del.0.skip(lo.line + 1) =~= ls.skip(hi.line + 1));
        assert(ls.take(lo.line as int) + ls.subrange(lo.line as int, hi.line + 1) + ls.skip(hi.line + 1) =~= ls);
    }
}


/// A cell value with each line break (`\n` or `\r`) turned into a space.
pub open spec fn sanitize(v: Seq<char>) -> Seq<char> {
    v.map_values(|c: char| if c == '\n' || c == '\r' { ' ' } else { c })
}

/// Replaces `\n` and `\r` with spaces: a cell belongs to one row.
fn sanitize_cell_value(value: &str) -> (s: String)
    ensures
        s@ == sanitize(value@),
{
    let cs = chars_of(value);
    let mut out: Vec<char> = Vec::new();
    let mut i: usize = 0;
    while i < cs.len()
        invariant
            0 <= i <= cs@.len(),
            cs@ == value@,
            out@ == sanitize(cs@.take(i as int)),
        decreases cs.len() - i,
    {
        let c = cs[i];
        if c == '\n' || c == '\r' {
            out.push(' ');
        } else {
            out.push(c);
        }
        i += 1;
        assert(out@ =~= sanitize(cs@.take(i as int)));
    }
    assert(cs@.take(cs@.len() as int) =~= cs@);
    string_of(out.as_slice())
}

/// `fs` padded with empty fields up to `col + 1` fields.
pub open spec fn padded(fs: Seq<Seq<char>>, col: int) -> Seq<Seq<char>> {
    if col < fs.len() { fs } else { fs + Seq::new((col + 1 - fs.len()) as nat, |i: int| Seq::<char>::empty()) }
}

/// `fs` with field `col` set to `v`, padding with empty fields as needed.
pub open spec fn set_field(fs: Seq<Seq<char>>, col: int, v: Seq<char>) -> Seq<Seq<char>> {
    padded(fs, col).update(col, v)
}

/// Pads `fields` with empty strings up to `col + 1` entries.
fn pad_fields(fields: &mut Vec<String>, col: usize)
    requires
        col < usize::MAX,
    ensures
        views(final(fields)@) == padded(views(old(fields)@), col as int),
{
    if col < fields.len() {
        return;
    }
    let ghost start = views(fields@);
    while fields.len() < col + 1
        invariant
            col < usize::MAX,
            start.len() <= fields@.len() <= col + 1,
            views(fields@) == start + Seq::new((fields@.len() - start.len()) as nat, |i: int| Seq::<char>::empty()),
        decreases col + 1 - fields.len(),
    {
        let ghost prev = fields@;
        let e = String::new();
        assert(e@ == Seq::<char>::empty());
        fields.push(e);
        assert(views(fields@) =~= views(prev).push(Seq::<char>::empty()));
        assert(views(fields@) =~= start + Seq::new((fields@.len() - start.len()) as nat, |i: int| Seq::<char>::empty()));
    }
}

/// Sets field `col` of `fields` to `value`, padding as needed.
fn set_field_in(fields: &mut Vec<String>, col: usize, value: String)
    requires
        col < usize::MAX,
    ensures
        views(final(fields)@) == set_field(views(old(fields)@), col as int, value@),
{
    pad_fields(fields, col);
    assert(views(fields@).len() == fields@.len());
    assert(col < fields@.len());
    let ghost before = fields@;
    fields.set(col, value);
    proof { lemma_views_update(before, col as int, value); }
}

/// Sets field `col` of `fields` to `value` and joins them into a line.
fn set_and_join(fields: &mut Vec<String>, col: usize, value: String, delim: u8) -> (line: String)
    requires
        col < usize::MAX,
    ensures
        views(final(fields)@) == set_field(views(old(fields)@), col as int, value@),
        line@ == joined(set_field(views(old(fields)@), col as int, value@), delim as char),
{
    set_field_in(fields, col, value);
    join_fields(fields.as_slice(), delim)
}

/// Replaces field `col` of row `logical` with `value` (line breaks in it
/// turned into spaces), padding with empty fields when the row is short, and
/// rebuilds the row with CSV quoting. The row's fields are those
/// `split_fields` gives.
pub fn set_cell(lines: &mut [String], logical: usize, col: usize, value: &str, delim: u8)
    requires
        logical < old(lines)@.len(),
        col < usize::MAX,
    ensures
        final(lines)@.len() == old(lines)@.len(),
        forall|i: int| 0 <= i < old(lines)@.len() && i != logical ==> final(lines)@[i]@ == old(lines)@[i]@,
        final(lines)@[logical as int]@ == joined(set_field(csv_fields(old(lines)@[logical as int]@, delim), col as int, sanitize(value@)), delim as char),
{
    let v = sanitize_cell_value(value);
    let mut fields = split_fields(lines[logical].as_str(), delim);
    let ghost fs = views(fields@);
    let line = set_and_join(&mut fields, col, v, delim);
    lines[logical] = line;
    assert(fs.len() >= 1);
}


/// Pieces joined with `sep` between them.
pub open spec fn join_with(p: Seq<Seq<char>>, sep: char) -> Seq<char>
    decreases p.len(),
{
    if p.len() == 0 {
        seq![]
    } else if p.len() == 1 {
        p[0]
    } else {
        join_with(p.drop_last(), sep) + seq![sep] + p.last()
    }
}

/// The value of a raw CSV field scanned from byte `i`: inside quotes `""`
/// stands for one quote and a lone `"` ends the quoting (and is dropped);
/// elsewhere bytes are kept. Runs of kept bytes are decoded as lossy UTF-8.
pub open spec fn unquote_from(f: Seq<u8>, i: int, in_q: bool, seg: int) -> Seq<char>
    decreases f.len() - i,
{
    if i >= f.len() {
        text_of(f.subrange(seg, f.len() as int))
    } else if in_q && f[i] == 34u8 {
        if i + 1 < f.len() && f[i + 1] == 34u8 {
            text_of(f.subrange(seg, i)) + seq!['"'] + unquote_from(f, i + 2, true, i + 2)
        } else {
            text_of(f.subrange(seg, i)) + unquote_from(f, i + 1, false, i + 1)
        }
    } else {
        unquote_from(f, i + 1, in_q, seg)
    }
}

/// The value of a raw CSV field: a field that starts with `"` is unquoted,
/// any other is taken as it is.
pub open spec fn unquote(f: Seq<u8>) -> Seq<char> {
    if f.len() > 0 && f[0] == 34u8 {
        unquote_from(f, 1, true, 1)
    } else {
        text_of(f)
    }
}

/// Appends the value of raw CSV field `f` (quotes removed as the CSV
/// reader removes them) to `out`.
pub(crate) fn push_unquoted(out: &mut Vec<char>, f: &[u8])
    ensures
        final(out)@ == old(out)@ + unquote(f@),
        !(f@.len() > 0 && f@[0] == 34u8) && vstd::utf8::valid_utf8(f@) ==> final(out)@ == old(out)@ + vstd::utf8::decode_utf8(f@),
{
    if !(f.len() > 0 && f[0] == 34u8) {
        let t = chars_of(utf8_lossy(f).as_str());
        let n = t.len();
        extend_chars(out, t.as_slice(), 0, n);
        assert(t@.subrange(0, n as int) == t@);
        return;
    }
    let ghost start = old(out)@;
    let mut i: usize = 1;
    let mut in_quotes = true;
    let mut seg_start: usize = 1;
    while i < f.len()
        invariant
            1 <= seg_start <= i <= f@.len(),
            f@.len() > 0 && f@[0] == 34u8,
            start + unquote(f@) == out@ + unquote_from(f@, i as int, in_quotes, seg_start as int),
        decreases f.len() - i,
    {
        if in_quotes && f[i] == 34u8 {
            let piece = vstd::slice::slice_subrange(f, seg_start, i);
            let t = chars_of(utf8_lossy(piece).as_str());
            let n = t.len();
            extend_chars(out, t.as_slice(), 0, n);
            assert(t@.subrange(0, n as int) == t@);
            if i + 1 < f.len() && f[i + 1] == 34u8 {
                out.push('"');
                i += 2;
            } else {
                in_quotes = false;
                i += 1;
            }
            seg_start = i;
        } else {
            i += 1;
        }
    }
    let piece = vstd::slice::slice_subrange(f, seg_start, f.len());
    let t = chars_of(utf8_lossy(piece).as_str());
    let n = t.len();
    extend_chars(out, t.as_slice(), 0, n);
    assert(t@.subrange(0, n as int) == t@);
}

/// The text of field `c` of a line with bytes `b`: its unquoted value, or
/// empty when the line has fewer fields.
pub open spec fn cell_text(b: Seq<u8>, delim: u8, c: int) -> Seq<char> {
    let r = field_ranges(b, delim);
    if 0 <= c < r.len() { unquote(b.subrange(r[c].0, r[c].1)) } else { seq![] }
}

/// One row of a copied block: fields `c0..=c1` separated by tabs, or empty
/// past the last line.
pub open spec fn row_tsv(ls: Seq<Seq<char>>, r: int, delim: u8, c0: int, c1: int) -> Seq<char> {
    if 0 <= r < ls.len() {
        join_with(Seq::new((c1 - c0 + 1) as nat, |k: int| cell_text(encode_utf8(ls[r]), delim, c0 + k)), '\t')
    } else {
        seq![]
    }
}

/// The block of rows `r0..=r1` and fields `c0..=c1` (corners in any order)
/// as tab-separated text, rows separated by `\n`.
pub open spec fn spec_cells_to_tsv(ls: Seq<Seq<char>>, r0: usize, c0: usize, r1: usize, c1: usize, delim: u8) -> Seq<char> {
    let rl = if r0 <= r1 { r0 as int } else { r1 as int };
    let rh = if r0 <= r1 { r1 as int } else { r0 as int };
    let cl = if c0 <= c1 { c0 as int } else { c1 as int };
    let ch = if c0 <= c1 { c1 as int } else { c0 as int };
    join_with(Seq::new((rh - rl + 1) as nat, |k: int| row_tsv(ls, rl + k, delim, cl, ch)), '\n')
}

pub(crate) proof fn lemma_join_with_step(f: Seq<Seq<char>>, k: int, sep: char)
    requires
        0 <= k < f.len(),
    ensures
        k == 0 ==> join_with(f.take(k + 1), sep) == f[k],
        k > 0 ==> join_with(f.take(k + 1), sep) == join_with(f.take(k), sep) + seq![sep] + f[k],
{
    assert(f.take(k + 1).drop_last() =~= f.take(k));
    if k == 0 {
        assert(f.take(1).len() == 1);
    }
}

/// The text of fields `cl..=ch` of one line, separated by tabs.
fn row_cells(out: &mut Vec<char>, line: &str, delim: u8, cl: usize, ch: usize)
    requires
        cl <= ch,
    ensures
        final(out)@ == old(out)@ + join_with(Seq::new((ch - cl + 1) as nat, |k: int| cell_text(encode_utf8(line@), delim, cl + k)), '\t'),
{
    let bytes = line.as_bytes();
    let ghost cells = Seq::new((ch - cl + 1) as nat, |k: int| cell_text(encode_utf8(line@), delim, cl + k));
    let ghost start = out@;
    let mut c: usize = cl;
    assert(cells.take(0) =~= Seq::<Seq<char>>::empty());
    loop
        invariant_except_break
            out@ == start + join_with(cells.take(c - cl), '\t'),
        invariant
            cl <= c <= ch,
            bytes@ == encode_utf8(line@),
            cells == Seq::new((ch - cl + 1) as nat, |k: int| cell_text(encode_utf8(line@), delim, cl + k)),
        ensures
            out@ == start + join_with(cells, '\t'),
        decreases ch - c,
    {
        let ghost before = out@;
        if c > cl {
            out.push('\t');
        }
        let ghost mid = out@;
        if let Some(f) = field_slice(bytes, delim, c) {
            push_unquoted(out, f);
        }
        proof {
            lemma_join_with_step(cells, c - cl, '\t');
            assert(cells[c - cl] == cell_text(bytes@, delim, c as int));
            assert(out@ == mid + cells[c - cl]);
            if c > cl {
                assert(out@ =~= start + (join_with(cells.take(c - cl), '\t') + seq!['\t'] + cells[c - cl]));
            } else {
                assert(out@ =~= start + cells[0]);
            }
        }
        if c == ch {
            assert(cells.take(c - cl + 1) =~= cells);
            break;
        }
        c += 1;
    }
}

/// Copies the block of rows `r0..=r1` and fields `c0..=c1` (corners in any
/// order) as TSV: fields by tab, rows by `\n`, quoted values unquoted, missing
/// fields and rows past the end as empty text.
pub fn cells_to_tsv(lines: &[String], r0: usize, c0: usize, r1: usize, c1: usize, delim: u8) -> (s: String)
    ensures
        s@ == spec_cells_to_tsv(views(lines@), r0, c0, r1, c1, delim),
{
    let ghost ls = views(lines@);
    let rl = if r0 <= r1 { r0 } else { r1 };
    let rh = if r0 <= r1 { r1 } else { r0 };
    let cl = if c0 <= c1 { c0 } else { c1 };
    let ch = if c0 <= c1 { c1 } else { c0 };
    let ghost rows = Seq::new((rh - rl + 1) as nat, |k: int| row_tsv(ls, rl + k, delim, cl as int, ch as int));
    let mut out: Vec<char> = Vec::new();
    let mut r: usize = rl;
    assert(rows.take(0) =~= Seq::<Seq<char>>::empty());
    loop
        invariant_except_break
            out@ == join_with(rows.take(r - rl), '\n'),
        invariant
            rl <= r <= rh,
            cl <= ch,
            ls == views(lines@),
            rows == Seq::new((rh - rl + 1) as nat, |k: int| row_tsv(ls, rl + k, delim, cl as int, ch as int)),
        ensures
            out@ == join_with(rows, '\n'),
        decreases rh - r,
    {
        if r > rl {
            out.push('\n');
        }
        let ghost mid = out@;
        if r < lines.len() {
            row_cells(&mut out, lines[r].as_str(), delim, cl, ch);
        }
        proof {
            lemma_join_with_step(rows, r - rl, '\n');
            assert(rows[r - rl] == row_tsv(ls, r as int, delim, cl as int, ch as int));
            assert(out@ =~= mid + rows[r - rl]);
        }
        if r == rh {
            assert(rows.take(r - rl + 1) =~= rows);
            break;
        }
        r += 1;
    }
    string_of(out.as_slice())
}

/// Field `c` of a line with bytes `b` is missing or empty.
pub open spec fn field_blank(b: Seq<u8>, delim: u8, c: int) -> bool {
    let r = field_ranges(b, delim);
    c >= r.len() || r[c].0 == r[c].1
}

/// Fields `c0..=c1` of a line with bytes `b` are all missing or empty.
pub open spec fn cells_blank(b: Seq<u8>, delim: u8, c0: int, c1: int) -> bool {
    forall|c: int| c0 <= c <= c1 ==> field_blank(b, delim, c)
}

/// `fs` with fields `c0..=c1` (those that exist) emptied.
pub open spec fn cleared(fs: Seq<Seq<char>>, c0: int, c1: int) -> Seq<Seq<char>> {
    Seq::new(fs.len(), |c: int| if c0 <= c <= c1 { Seq::<char>::empty() } else { fs[c] })
}

fn blank_cells(bytes: &[u8], delim: u8, cl: usize, ch: usize) -> (r: bool)
    requires
        cl <= ch,
    ensures
        r == cells_blank(bytes@, delim, cl as int, ch as int),
{
    let mut c: usize = cl;
    proof { lemma_field_ranges_wf(bytes@, delim); }
    loop
        invariant
            cl <= c <= ch,
            forall|k: int| cl <= k < c ==> field_blank(bytes@, delim, k),
            field_ranges(bytes@, delim).len() >= 1,
            forall|k: int| 0 <= k < field_ranges(bytes@, delim).len() ==>
                0 <= #[trigger] field_ranges(bytes@, delim)[k].0 <= field_ranges(bytes@, delim)[k].1 <= bytes@.len(),
        decreases ch - c,
    {
        match field_slice(bytes, delim, c) {
            None => {
                assert forall|k: int| cl <= k <= ch implies field_blank(bytes@, delim, k) by {
                    if k >= c {
                        assert(k >= field_ranges(bytes@, delim).len());
                    }
                }
                return true;
            },
            Some(f) => {
                if f.len() > 0 {
                    assert(!field_blank(bytes@, delim, c as int));
                    return false;
                }
            },
        }
        if c == ch {
            return true;
        }
        c += 1;
    }
}

fn clear_fields(fields: &mut Vec<String>, cl: usize, ch: usize)
    ensures
        views(final(fields)@) == cleared(views(old(fields)@), cl as int, ch as int),
{
    let ghost start = views(fields@);
    let mut c: usize = 0;
    while c < fields.len()
        invariant
            0 <= c <= fields@.len() == start.len(),
            forall|k: int| 0 <= k < c ==> views(fields@)[k] == cleared(start, cl as int, ch as int)[k],
            forall|k: int| c <= k < fields@.len() ==> views(fields@)[k] == start[k],
        decreases fields.len() - c,
    {
        if cl <= c && c <= ch {
            let ghost before = fields@;
            let e = String::new();
            proof { lemma_views_update(before, c as int, e); }
            fields.set(c, e);
        }
        c += 1;
    }
    assert(views(fields@) =~= cleared(start, cl as int, ch as int));
}

/// `after` is `before` with the fields `c0..=c1` of rows `r0..=r1` (corners
/// in any order) emptied: rows whose targets are all missing or empty stay
/// as they are, other rows in the block become the CSV join of their fields
/// (as `split_fields` gives them) with the targets emptied, other rows stay.
pub open spec fn cells_cleared(before: Seq<String>, after: Seq<String>, r0: usize, c0: usize, r1: usize, c1: usize, delim: u8) -> bool {
    &&& after.len() == before.len()
    &&& forall|i: int| #![trigger after[i]] 0 <= i < before.len() ==> {
        let rl = if r0 <= r1 { r0 as int } else { r1 as int };
        let rh = if r0 <= r1 { r1 as int } else { r0 as int };
        let cl = if c0 <= c1 { c0 as int } else { c1 as int };
        let ch = if c0 <= c1 { c1 as int } else { c0 as int };
        if rl <= i <= rh && !cells_blank(encode_utf8(before[i]@), delim, cl, ch) {
            after[i]@ == joined(cleared(csv_fields(before[i]@, delim), cl, ch), delim as char)
        } else {
            after[i]@ == before[i]@
        }
    }
}

/// Empties the fields `c0..=c1` of rows `r0..=r1` (corners in any order).
/// A row whose target fields are all already missing or empty is left
/// exactly as it is; other rows are rebuilt from their `split_fields` fields
/// with the targets emptied.
pub fn clear_cells(lines: &mut [String], r0: usize, c0: usize, r1: usize, c1: usize, delim: u8)
    ensures
        cells_cleared(old(lines)@, final(lines)@, r0, c0, r1, c1, delim),
{
    let ghost orig = lines@;
    let rl = if r0 <= r1 { r0 } else { r1 };
    let rh = if r0 <= r1 { r1 } else { r0 };
    let cl = if c0 <= c1 { c0 } else { c1 };
    let ch = if c0 <= c1 { c1 } else { c0 };
    let mut r: usize = rl;
    loop
        invariant_except_break
            forall|i: int| 0 <= i < orig.len() && i >= r ==> lines@[i] == orig[i],
            forall|i: int| 0 <= i < orig.len() && rl <= i < r ==> {
                if !cells_blank(encode_utf8(orig[i]@), delim, cl as int, ch as int) {
                    lines@[i]@ == joined(cleared(csv_fields(orig[i]@, delim), cl as int, ch as int), delim as char)
                } else {
                    lines@[i]@ == orig[i]@
                }
            },
        invariant
            rl <= r <= rh,
            cl <= ch,
            lines@.len() == orig.len(),
            forall|i: int| 0 <= i < orig.len() && i < rl ==> lines@[i] == orig[i],
        ensures
            forall|i: int| 0 <= i < orig.len() && i > rh ==> lines@[i] == orig[i],
            forall|i: int| 0 <= i < orig.len() && rl <= i <= rh ==> {
                if !cells_blank(encode_utf8(orig[i]@), delim, cl as int, ch as int) {
                    lines@[i]@ == joined(cleared(csv_fields(orig[i]@, delim), cl as int, ch as int), delim as char)
                } else {
                    lines@[i]@ == orig[i]@
                }
            },
        decreases rh - r,
    {
        if r >= lines.len() {
            break;
        }
        let bytes = lines[r].as_str().as_bytes();
        let blank = blank_cells(bytes, delim, cl, ch);
        if !blank {
            let mut fields = split_fields(lines[r].as_str(), delim);
            let ghost fs = views(fields@);
            clear_fields(&mut fields, cl, ch);
            let line = join_fields(fields.as_slice(), delim);
            lines[r] = line;
            assert(lines@[r as int]@ == joined(cleared(fs, cl as int, ch as int), delim as char));
        }
        if r == rh {
            break;
        }
        r += 1;
    }
}


/// `fs` with the cells of one pasted row written from field `c0` on, each
/// with line breaks turned into spaces.
pub open spec fn paste_cells(fs: Seq<Seq<char>>, c0: int, cells: Seq<Seq<char>>) -> Seq<Seq<char>>
    decreases cells.len(),
{
    if cells.len() == 0 {
        fs
    } else {
        set_field(paste_cells(fs, c0, cells.drop_last()), c0 + cells.len() - 1, sanitize(cells.last()))
    }
}

/// `after` is `before` with TSV text `tsv` pasted at row `r0`, field `c0`:
/// rows are added (empty) up to the last pasted row; each pasted row is the
/// CSV join of its old fields (as `split_fields` gives them) with the cells
/// written in; the other rows stay.
pub open spec fn cells_pasted(before: Seq<String>, after: Seq<String>, r0: usize, c0: usize, tsv: Seq<char>, delim: u8) -> bool {
    &&& after.len() == (if r0 + split_nl(tsv).len() > before.len() { r0 + split_nl(tsv).len() } else { before.len() as int })
    &&& forall|i: int| 0 <= i < after.len() ==> {
        if r0 <= i < r0 + split_nl(tsv).len() {
            #[trigger] after[i]@ == joined(paste_cells(csv_fields(if i < before.len() { before[i]@ } else { Seq::<char>::empty() }, delim), c0 as int, split_by(split_nl(tsv)[i - r0], '\t')), delim as char)
        } else if i < before.len() {
            after[i]@ == before[i]@
        } else {
            after[i]@ == Seq::<char>::empty()
        }
    }
}

/// Pastes TSV text (rows by `\n`, cells by tab) into the grid with its top
/// left cell at row `r0`, field `c0`, adding rows and fields as needed. Each
/// touched row is rebuilt from its `split_fields` fields; cell values have
/// line breaks turned into spaces.
#[verifier::rlimit(40)]
#[verifier::spinoff_prover]
pub fn paste_tsv(lines: &mut Vec<String>, r0: usize, c0: usize, tsv: &str, delim: u8)
    requires
        r0 + split_nl(tsv@).len() <= usize::MAX,
        forall|k: int| 0 <= k < split_nl(tsv@).len() ==> c0 + #[trigger] split_by(split_nl(tsv@)[k], '\t').len() <= usize::MAX,
    ensures
        cells_pasted(old(lines)@, final(lines)@, r0, c0, tsv@, delim),
{
    let ghost orig = lines@;
    let ghost rows = split_nl(tsv@);
    proof { lemma_split_nl_len(tsv@); }
    let tc = chars_of(tsv);
    let parts = split_on(tc.as_slice(), '\n');
    let nr = parts.len();
    let mut dr: usize = 0;
    while dr < nr
        invariant
            0 <= dr <= nr == rows.len(),
            nr >= 1,
            cviews(parts@) == rows,
            r0 + rows.len() <= usize::MAX,
            forall|k: int| 0 <= k < rows.len() ==> c0 + #[trigger] split_by(rows[k], '\t').len() <= usize::MAX,
            lines@.len() == (if dr > 0 && r0 + dr > orig.len() { r0 + dr } else { orig.len() as int }),
            forall|i: int| 0 <= i < lines@.len() ==> {
                if r0 <= i < r0 + dr {
                    #[trigger] lines@[i]@ == joined(paste_cells(csv_fields(if i < orig.len() { orig[i]@ } else { Seq::<char>::empty() }, delim), c0 as int, split_by(rows[i - r0], '\t')), delim as char)
                } else if i < orig.len() {
                    lines@[i]@ == orig[i]@
                } else {
                    lines@[i]@ == Seq::<char>::empty()
                }
            },
        decreases nr - dr,
    {
        let r = r0 + dr;
        let ghost before = lines@;
        assert(parts@[dr as int]@ == rows[dr as int]);
        assert(c0 + split_by(rows[dr as int], '\t').len() <= usize::MAX);
        proof {
            if r < before.len() {
                assert(r < orig.len());
                assert(before[r as int]@ == orig[r as int]@);
            }
        }
        paste_row(lines, r, c0, &parts[dr], delim);
        dr += 1;
        assert forall|i: int| 0 <= i < lines@.len() implies {
            if r0 <= i < r0 + dr {
                #[trigger] lines@[i]@ == joined(paste_cells(csv_fields(if i < orig.len() { orig[i]@ } else { Seq::<char>::empty() }, delim), c0 as int, split_by(rows[i - r0], '\t')), delim as char)
            } else if i < orig.len() {
                lines@[i]@ == orig[i]@
            } else {
                lines@[i]@ == Seq::<char>::empty()
            }
        } by {
            if i != r && i < before.len() {
                assert(lines@[i] == before[i]);
            }
        }
    }
}

/// Writes one pasted row (`row`, cells separated by tab) into line `r` from
/// field `c0` on, first adding empty lines up to `r`.
fn paste_row(lines: &mut Vec<String>, r: usize, c0: usize, row: &Vec<char>, delim: u8)
    requires
        r < usize::MAX,
        c0 + split_by(row@, '\t').len() <= usize::MAX,
    ensures
        final(lines)@.len() == (if r + 1 > old(lines)@.len() { r + 1 } else { old(lines)@.len() as int }),
        forall|i: int| 0 <= i < old(lines)@.len() && i != r ==> final(lines)@[i] == old(lines)@[i],
        forall|i: int| old(lines)@.len() <= i < final(lines)@.len() && i != r ==> final(lines)@[i]@ == Seq::<char>::empty(),
        final(lines)@[r as int]@ == joined(paste_cells(csv_fields(if r < old(lines)@.len() { old(lines)@[r as int]@ } else { Seq::<char>::empty() }, delim), c0 as int, split_by(row@, '\t')), delim as char),
{
    let ghost before = lines@;
    while r >= lines.len()
        invariant
            r < usize::MAX,
            before.len() <= lines@.len(),
            lines@.len() <= (if r + 1 > before.len() { r + 1 } else { before.len() as int }),
            forall|i: int| 0 <= i < before.len() ==> lines@[i] == before[i],
            forall|i: int| before.len() <= i < lines@.len() ==> lines@[i]@ == Seq::<char>::empty(),
        decreases r + 1 - lines.len(),
    {
        let e = String::new();
        lines.push(e);
    }
    assert(lines@[r as int]@ == (if r < before.len() { before[r as int]@ } else { Seq::<char>::empty() }));
    let mut fields = split_fields(lines[r].as_str(), delim);
    let ghost fs = views(fields@);
    let cells = split_on(row.as_slice(), '\t');
    let ghost cs = split_by(row@, '\t');
    let nc = cells.len();
    let mut dc: usize = 0;
    assert(cs.take(0) =~= Seq::<Seq<char>>::empty());
    while dc < nc
        invariant
            0 <= dc <= nc == cs.len(),
            cviews(cells@) == cs,
            c0 + cs.len() <= usize::MAX,
            views(fields@) == paste_cells(fs, c0 as int, cs.take(dc as int)),
        decreases nc - dc,
    {
        assert(cells@[dc as int]@ == cs[dc as int]);
        let raw = string_of(cells[dc].as_slice());
        let v = sanitize_cell_value(raw.as_str());
        set_field_in(&mut fields, c0 + dc, v);
        dc += 1;
        assert(cs.take(dc as int).drop_last() =~= cs.take(dc - 1));
    }
    assert(cs.take(nc as int) =~= cs);
    let line = join_fields(fields.as_slice(), delim);
    lines.set(r, line);
}

/// Inserts a row with `text` at `at`, or at the end when `at` is past it.
pub fn insert_row(lines: &mut Vec<String>, at: usize, text: String)
    ensures
        views(final(lines)@) == views(old(lines)@).insert(
            if at <= old(lines)@.len() { at as int } else { old(lines)@.len() as int }, text@),
{
    let at = if at <= lines.len() { at } else { lines.len() };
    proof { lemma_views_insert(lines@, at as int, text); }
    lines.insert(at, text);
}

/// Removes row `at` if it exists; a document never ends up with no rows
/// (removing the last one leaves one empty row).
pub fn remove_row(lines: &mut Vec<String>, at: usize)
    ensures
        ({
            let removed = if at < old(lines)@.len() { views(old(lines)@).remove(at as int) } else { views(old(lines)@) };
            views(final(lines)@) == if removed.len() == 0 { seq![Seq::<char>::empty()] } else { removed }
        }),
{
    if at < lines.len() {
        proof { lemma_views_remove(lines@, at as int); }
        lines.remove(at);
    }
    if lines.len() == 0 {
        let e = String::new();
        lines.push(e);
        assert(views(lines@) =~= seq![Seq::<char>::empty()]);
    }
}


/// The lines that `order` names, in its order, skipping indices past the end.
pub open spec fn picks(ls: Seq<Seq<char>>, order: Seq<u32>) -> Seq<Seq<char>>
    decreases order.len(),
{
    if order.len() == 0 {
        seq![]
    } else {
        picks(ls, order.drop_last()) + if (order.last() as int) < ls.len() { seq![ls[order.last() as int]] } else { seq![] }
    }
}

/// Reordering: the first `data_start` lines stay, then come the lines that
/// `order` names; nothing changes when `data_start` is past the end.
pub open spec fn spec_apply_permutation(ls: Seq<Seq<char>>, order: Seq<u32>, data_start: usize) -> Seq<Seq<char>> {
    if data_start > ls.len() { ls } else { ls.take(data_start as int) + picks(ls, order) }
}

/// Rearranges the data rows in the order `order` gives (original row
/// indices); the rows before `data_start` (the header) stay in front.
pub fn apply_permutation(lines: &mut Vec<String>, order: &[u32], data_start: usize)
    ensures
        views(final(lines)@) == spec_apply_permutation(views(old(lines)@), order@, data_start),
{
    if data_start > lines.len() {
        return;
    }
    let ghost ls = views(lines@);
    let mut out: Vec<String> = Vec::new();
    let mut i: usize = 0;
    while i < data_start
        invariant
            0 <= i <= data_start <= lines@.len(),
            ls == views(lines@),
            views(out@) == ls.take(i as int),
        decreases data_start - i,
    {
        let t = lines[i].clone();
        let ghost prev = out@;
        out.push(t);
        assert(views(out@) =~= views(prev).push(t@));
        assert(ls.take(i as int + 1) =~= ls.take(i as int).push(ls[i as int]));
        i += 1;
    }
    let mut k: usize = 0;
    while k < order.len()
        invariant
            0 <= k <= order@.len(),
            data_start <= lines@.len(),
            ls == views(lines@),
            views(out@) == ls.take(data_start as int) + picks(ls, order@.take(k as int)),
        decreases order.len() - k,
    {
        let idx = order[k] as usize;
        let ghost prev = out@;
        assert(order@.take(k as int + 1).drop_last() =~= order@.take(k as int));
        if idx < lines.len() {
            let t = lines[idx].clone();
            out.push(t);
            assert(views(out@) =~= views(prev).push(t@));
        }
        k += 1;
        assert(views(out@) =~= ls.take(data_start as int) + picks(ls, order@.take(k as int)));
    }
    assert(order@.take(order@.len() as int) =~= order@);
    *lines = out;
}

/// `ls` reordered by every entry of `order` being in range: the picks are
/// the named lines one for one.
proof fn lemma_picks_all(ls: Seq<Seq<char>>, order: Seq<u32>)
    requires
        forall|i: int| 0 <= i < order.len() ==> (#[trigger] order[i] as int) < ls.len(),
    ensures
        picks(ls, order) == Seq::new(order.len(), |i: int| ls[order[i] as int]),
    decreases order.len(),
{
    if order.len() > 0 {
        let o = order.drop_last();
        assert forall|i: int| 0 <= i < o.len() implies (#[trigger] o[i] as int) < ls.len() by {
            assert(o[i] == order[i]);
        }
        lemma_picks_all(ls, o);
        assert(picks(ls, order) =~= Seq::new(order.len(), |i: int| ls[order[i] as int]));
    }
}

/// Slot of original row `orig` among the data rows (0 for rows before them).
pub open spec fn slot_of(orig: u32, data_start: usize) -> int {
    if orig as int >= data_start { orig - data_start } else { 0 }
}

/// The table `inverse_of` fills after its first `k` entries of `order`: entry
/// `slot_of(order[i])` gets `data_start + i` (as `u32`), later entries
/// overwriting earlier ones.
pub open spec fn inverse_upto(order: Seq<u32>, data_start: usize, k: int) -> Seq<u32>
    decreases k,
{
    if k <= 0 {
        Seq::new(order.len(), |i: int| 0u32)
    } else {
        let prev = inverse_upto(order, data_start, k - 1);
        let slot = slot_of(order[k - 1], data_start);
        if slot < order.len() { prev.update(slot, (data_start + (k - 1)) as u32) } else { prev }
    }
}

proof fn lemma_inverse_upto_len(order: Seq<u32>, data_start: usize, k: int)
    ensures
        inverse_upto(order, data_start, k).len() == order.len(),
    decreases k,
{
    if k > 0 {
        lemma_inverse_upto_len(order, data_start, k - 1);
    }
}

/// The inverse of a reordering: if `order[i]` is the original row that goes
/// to data position `i`, the result maps each original data row back to the
/// position it now holds, so that applying it undoes the reordering.
pub fn inverse_of(order: &[u32], data_start: usize) -> (inv: Vec<u32>)
    ensures
        inv@ == inverse_upto(order@, data_start, order@.len() as int),
{
    let n = order.len();
    let mut inv: Vec<u32> = Vec::new();
    let mut j: usize = 0;
    while j < n
        invariant
            0 <= j <= n == order@.len(),
            inv@ == Seq::new(j as nat, |i: int| 0u32),
        decreases n - j,
    {
        inv.push(0u32);
        j += 1;
        assert(inv@ =~= Seq::new(j as nat, |i: int| 0u32));
    }
    let mut k: usize = 0;
    while k < n
        invariant
            0 <= k <= n == order@.len(),
            inv@ == inverse_upto(order@, data_start, k as int),
        decreases n - k,
    {
        proof { lemma_inverse_upto_len(order@, data_start, k as int); }
        let orig = order[k];
        let slot: usize = if orig as usize >= data_start { orig as usize - data_start } else { 0 };
        if slot < n {
            let v = (data_start as u128 + k as u128) as u32;
            inv.set(slot, v);
        }
        k += 1;
    }
    inv
}

/// `order` lists each data row of `ls` (the rows from `data_start` on)
/// exactly once: a reordering of them.
pub open spec fn is_reordering(ls: Seq<Seq<char>>, order: Seq<u32>, data_start: usize) -> bool {
    &&& data_start <= ls.len()
    &&& order.len() == ls.len() - data_start
    &&& forall|i: int| 0 <= i < order.len() ==> data_start <= #[trigger] order[i] < ls.len()
    &&& forall|i: int, j: int| 0 <= i < j < order.len() ==> order[i] != order[j]
    &&& forall|r: int| #![trigger ls[r]] data_start <= r < ls.len() ==> exists|i: int| 0 <= i < order.len() && #[trigger] order[i] == r
}

proof fn lemma_inverse_entries(ls: Seq<Seq<char>>, order: Seq<u32>, data_start: usize, k: int)
    requires
        is_reordering(ls, order, data_start),
        0 <= k <= order.len(),
    ensures
        inverse_upto(order, data_start, k).len() == order.len(),
        forall|i: int| 0 <= i < k ==> inverse_upto(order, data_start, k)[#[trigger] order[i] - data_start] == data_start + i,
    decreases k,
{
    lemma_inverse_upto_len(order, data_start, k);
    if k > 0 {
        // The last line is a data row that some entry names, so every data
        // position fits in a `u32`.
        let last = ls.len() - 1;
        assert(ls[last] == ls[last]);
        assert(exists|i: int| 0 <= i < order.len() && #[trigger] order[i] == last);
        lemma_inverse_entries(ls, order, data_start, k - 1);
        let prev = inverse_upto(order, data_start, k - 1);
        assert forall|i: int| 0 <= i < k implies inverse_upto(order, data_start, k)[#[trigger] order[i] - data_start] == data_start + i by {
            if i < k - 1 {
                assert(order[i] != order[k - 1]);
                assert(prev[order[i] - data_start] == data_start + i);
            }
        }
    }
}

/// Reordering and then applying the inverse reordering gives back the
/// original lines, for any reordering of the data rows.
pub proof fn lemma_inverse_restores(ls: Seq<Seq<char>>, order: Seq<u32>, data_start: usize)
    requires
        is_reordering(ls, order, data_start),
    ensures
        spec_apply_permutation(
            spec_apply_permutation(ls, order, data_start),
            inverse_upto(order, data_start, order.len() as int),
            data_start,
        ) == ls,
{
    let n = order.len();
    let inv = inverse_upto(order, data_start, n as int);
    lemma_inverse_entries(ls, order, data_start, n as int);
    lemma_picks_all(ls, order);
    let l1 = spec_apply_permutation(ls, order, data_start);
    assert(l1 == ls.take(data_start as int) + Seq::new(n, |i: int| ls[order[i] as int]));
    assert(l1.len() == ls.len());
    assert forall|j: int| 0 <= j < n implies (#[trigger] inv[j] as int) < l1.len() && l1[inv[j] as int] == ls[data_start + j] by {
        let r = data_start + j;
        assert(ls[r] == ls[r]);
        assert(exists|i: int| 0 <= i < n && #[trigger] order[i] == r);
        let i = choose|i: int| 0 <= i < n && order[i] == r;
        assert(order[i] - data_start == j);
        assert(inv[j] == data_start + i);
        assert(l1[data_start + i] == ls[order[i] as int]);
    }
    lemma_picks_all(l1, inv);
    assert(spec_apply_permutation(l1, inv, data_start) =~= ls);
}


/// One undo step: the least each kind of edit needs to be taken back.
#[derive(Debug, PartialEq, Eq)]
pub enum EditOp {
    /// Restore the previous text of some rows: (row, previous text) pairs.
    Replace(Vec<(usize, String)>),
    /// Remove `count` inserted rows starting at `at`.
    RemoveInserted { at: usize, count: usize },
    /// Put removed rows back at `at`.
    ReinsertRemoved { at: usize, lines: Vec<String> },
    /// Undo a reordering by applying `inverse` to the data rows.
    Reorder { inverse: Vec<u32>, data_start: usize },
    /// Several steps taken back as one, in the order given.
    Batch(Vec<EditOp>),
}

/// Restoring `(row, text)` pairs in order, skipping rows past the end.
pub open spec fn apply_replace(ls: Seq<Seq<char>>, items: Seq<(usize, String)>) -> Seq<Seq<char>>
    decreases items.len(),
{
    if items.len() == 0 {
        ls
    } else {
        let prev = apply_replace(ls, items.drop_last());
        let (row, text) = items.last();
        if (row as int) < prev.len() { prev.update(row as int, text@) } else { prev }
    }
}

/// The effect of taking back one step.
pub open spec fn spec_apply_op(ls: Seq<Seq<char>>, op: EditOp) -> Seq<Seq<char>>
    decreases op,
{
    match op {
        EditOp::Replace(items) => apply_replace(ls, items@),
        EditOp::RemoveInserted { at, count } => {
            let end = if at + count <= ls.len() { at + count } else { ls.len() as int };
            if at < end { ls.take(at as int) + ls.skip(end) } else { ls }
        },
        EditOp::ReinsertRemoved { at, lines } => {
            let at = if at <= ls.len() { at as int } else { ls.len() as int };
            ls.take(at) + views(lines@) + ls.skip(at)
        },
        EditOp::Reorder { inverse, data_start } => spec_apply_permutation(ls, inverse@, data_start),
        EditOp::Batch(ops) => spec_apply_ops(ls, ops@),
    }
}

/// Replacing rows with `items` sets every row that some item names (and
/// that exists) to the text of the last item naming it, and leaves every
/// other row as it was.
proof fn lemma_apply_replace_rows(ls: Seq<Seq<char>>, items: Seq<(usize, String)>)
    ensures
        apply_replace(ls, items).len() == ls.len(),
        forall|r: int| 0 <= r < ls.len() && (forall|k: int| 0 <= k < items.len() ==> #[trigger] items[k].0 != r)
            ==> #[trigger] apply_replace(ls, items)[r] == ls[r],
        forall|k: int| #![trigger items[k]] 0 <= k < items.len() && items[k].0 < ls.len()
            && (forall|q: int| k < q < items.len() ==> #[trigger] items[q].0 != items[k].0)
            ==> apply_replace(ls, items)[items[k].0 as int] == items[k].1@,
    decreases items.len(),
{
    if items.len() > 0 {
        let front = items.drop_last();
        lemma_apply_replace_rows(ls, front);
        assert forall|r: int| 0 <= r < ls.len() && (forall|k: int| 0 <= k < items.len() ==> #[trigger] items[k].0 != r)
            implies #[trigger] apply_replace(ls, items)[r] == ls[r] by {
            assert(items[items.len() - 1].0 != r);
            assert forall|k: int| 0 <= k < front.len() implies #[trigger] front[k].0 != r by {
                assert(front[k] == items[k]);
            }
        }
        assert forall|k: int| #![trigger items[k]] 0 <= k < items.len() && items[k].0 < ls.len()
            && (forall|q: int| k < q < items.len() ==> #[trigger] items[q].0 != items[k].0)
            implies apply_replace(ls, items)[items[k].0 as int] == items[k].1@ by {
            if k < items.len() - 1 {
                assert(front[k] == items[k]);
                assert(items[items.len() - 1].0 != items[k].0);
                assert forall|q: int| k < q < front.len() implies #[trigger] front[q].0 != front[k].0 by {
                    assert(front[q] == items[q]);
                }
            }
        }
    }
}

/// Undoing a `Replace` step restores the rows it recorded: every existing
/// row named by an item gets the text of the last item naming it, every
/// other row is left as it is, and no row is added or removed.
pub proof fn lemma_undo_replace_restores_rows(ls: Seq<Seq<char>>, items: Vec<(usize, String)>)
    ensures
        spec_apply_op(ls, EditOp::Replace(items)).len() == ls.len(),
        forall|r: int| 0 <= r < ls.len() && (forall|k: int| 0 <= k < items@.len() ==> #[trigger] items@[k].0 != r)
            ==> #[trigger] spec_apply_op(ls, EditOp::Replace(items))[r] == ls[r],
        forall|k: int| #![trigger items@[k]] 0 <= k < items@.len() && items@[k].0 < ls.len()
            && (forall|q: int| k < q < items@.len() ==> #[trigger] items@[q].0 != items@[k].0)
            ==> spec_apply_op(ls, EditOp::Replace(items))[items@[k].0 as int] == items@[k].1@,
{
    lemma_apply_replace_rows(ls, items@);
}

/// The effect of taking back steps in the order given.
pub open spec fn spec_apply_ops(ls: Seq<Seq<char>>, ops: Seq<EditOp>) -> Seq<Seq<char>>
    decreases ops,
{
    if ops.len() == 0 {
        ls
    } else {
        spec_apply_ops(spec_apply_op(ls, ops[0]), ops.drop_first())
    }
}

/// A step can be taken back without arithmetic overflow.
pub open spec fn op_in_range(op: EditOp) -> bool
    decreases op,
{
    match op {
        EditOp::RemoveInserted { at, count } => at + count <= usize::MAX,
        EditOp::Batch(ops) => ops_in_range(ops@),
        _ => true,
    }
}

/// Every step of `ops` can be taken back without overflow.
pub open spec fn ops_in_range(ops: Seq<EditOp>) -> bool
    decreases ops,
{
    if ops.len() == 0 {
        true
    } else {
        op_in_range(ops[0]) && ops_in_range(ops.drop_first())
    }
}

/// Takes back one step (a batch applies its steps in order). Rows past the
/// end are skipped rather than failing.
fn apply_undo_op(lines: &mut Vec<String>, op: EditOp)
    requires
        op_in_range(op),
    ensures
        views(final(lines)@) == spec_apply_op(views(old(lines)@), op),
    decreases op,
{
    match op {
        EditOp::Replace(items) => {
            let ghost ls = views(lines@);
            let mut k: usize = 0;
            while k < items.len()
                invariant
                    0 <= k <= items@.len(),
                    views(lines@) == apply_replace(ls, items@.take(k as int)),
                decreases items.len() - k,
            {
                let row = items[k].0;
                assert(items@.take(k as int + 1).drop_last() =~= items@.take(k as int));
                if row < lines.len() {
                    let t = items[k].1.clone();
                    let ghost prev = lines@;
                    proof { lemma_views_update(prev, row as int, t); }
                    lines.set(row, t);
                }
                k += 1;
            }
            assert(items@.take(items@.len() as int) =~= items@);
        },
        EditOp::RemoveInserted { at, count } => {
            let len = lines.len();
            let end = if at + count <= len { at + count } else { len };
            if at < end {
                let ghost orig = lines@;
                let mut rest = lines.split_off(end);
                lines.truncate(at);
                lines.append(&mut rest);
                proof {
                    assert(lines@ =~= orig.take(at as int) + orig.skip(end as int));
                    lemma_views_concat(orig.take(at as int), orig.skip(end as int));
                    assert(views(orig.take(at as int)) =~= views(orig).take(at as int));
                    assert(views(orig.skip(end as int)) =~= views(orig).skip(end as int));
                }
            }
        },
        EditOp::ReinsertRemoved { at, lines: removed } => {
            let ghost ls = views(lines@);
            let at = if at <= lines.len() { at } else { lines.len() };
            let mut k: usize = 0;
            while k < removed.len()
                invariant
                    0 <= k <= removed@.len(),
                    at <= ls.len(),
                    lines@.len() == ls.len() + k,
                    views(lines@) == ls.take(at as int) + views(removed@).take(k as int) + ls.skip(at as int),
                decreases removed.len() - k,
            {
                let t = removed[k].clone();
                let cur = lines.len();
                assert(at + k <= cur);
                proof { lemma_views_insert(lines@, at + k, t); }
                lines.insert(at + k, t);
                k += 1;
                assert(views(lines@) =~= ls.take(at as int) + views(removed@).take(k as int) + ls.skip(at as int));
            }
            assert(views(removed@).take(removed@.len() as int) =~= views(removed@));
        },
        EditOp::Reorder { inverse, data_start } => {
            apply_permutation(lines, inverse.as_slice(), data_start);
        },
        EditOp::Batch(ops) => {
            let ghost all = ops@;
            let total = ops.len();
            proof {
                assert(decreases_to!(op => ops));
                assert(decreases_to!(ops => ops@));
                assert forall|j: int| 0 <= j < all.len() implies decreases_to!(op => #[trigger] all[j]) by {
                    assert(decreases_to!(all => all[j]));
                }
            }
            let mut rest = ops;
            let mut k: usize = 0;
            let ghost ls = views(lines@);
            while rest.len() > 0
                invariant
                    0 <= k <= all.len(),
                    all.len() == total,
                    forall|j: int| 0 <= j < all.len() ==> decreases_to!(op => #[trigger] all[j]),
                    rest@ == all.skip(k as int),
                    ops_in_range(rest@),
                    spec_apply_ops(ls, all) == spec_apply_ops(views(lines@), rest@),
                decreases rest.len(),
            {
                let inner = rest.remove(0);
                proof {
                    assert(inner == all[k as int]);
                }
                apply_undo_op(lines, inner);
                k += 1;
                assert(rest@ =~= all.skip(k as int));
            }
            assert(spec_apply_ops(views(lines@), rest@) == views(lines@));
        },
    }
}


/// Default undo depth.
pub const UNDO_LIMIT: usize = 100;

/// `steps` after recording `op` with room for `limit` steps: nothing is kept
/// with no room, and the oldest step goes when the stack is full.
pub open spec fn spec_push(steps: Seq<EditOp>, op: EditOp, limit: usize) -> Seq<EditOp> {
    if limit == 0 {
        steps
    } else if steps.len() >= limit {
        steps.drop_first().push(op)
    } else {
        steps.push(op)
    }
}

/// The undo stack: at most `limit` steps, the oldest dropped first.
pub struct UndoStack {
    ops: Vec<EditOp>,
    limit: usize,
}

impl UndoStack {
    #[verifier::type_invariant]
    spec fn within_limit(self) -> bool {
        self.ops@.len() <= self.limit
    }

    /// The recorded steps, oldest first.
    pub closed spec fn steps(&self) -> Seq<EditOp> {
        self.ops@
    }

    /// How many steps the stack keeps.
    pub closed spec fn capacity(&self) -> usize {
        self.limit
    }

    /// An empty stack that keeps at most `limit` steps.
    pub fn new(limit: usize) -> (s: Self)
        ensures
            s.steps() == Seq::<EditOp>::empty(),
            s.capacity() == limit,
    {
        UndoStack { ops: Vec::new(), limit }
    }

    /// Number of recorded steps.
    pub fn len(&self) -> (n: usize)
        ensures
            n == self.steps().len(),
            n <= self.capacity(),
    {
        proof { use_type_invariant(self); }
        self.ops.len()
    }

    /// No step is recorded.
    pub fn is_empty(&self) -> (b: bool)
        ensures
            b == (self.steps().len() == 0),
    {
        self.ops.len() == 0
    }

    /// Records a step; call it just before the edit it takes back. When the
    /// stack is full the oldest step is dropped.
    pub fn push(&mut self, op: EditOp)
        ensures
            final(self).capacity() == old(self).capacity(),
            final(self).steps() == spec_push(old(self).steps(), op, old(self).capacity()),
            final(self).steps().len() <= final(self).capacity(),
    {
        proof { use_type_invariant(&*self); }
        if self.limit == 0 {
            return;
        }
        let mut ops: Vec<EditOp> = Vec::new();
        std::mem::swap(&mut ops, &mut self.ops);
        if ops.len() >= self.limit {
            ops.remove(0);
        }
        ops.push(op);
        assert(ops@ =~= spec_push(old(self).ops@, op, self.limit));
        std::mem::swap(&mut ops, &mut self.ops);
    }

    /// Forgets every step.
    pub fn clear(&mut self)
        ensures
            final(self).capacity() == old(self).capacity(),
            final(self).steps() == Seq::<EditOp>::empty(),
    {
        let mut ops: Vec<EditOp> = Vec::new();
        std::mem::swap(&mut ops, &mut self.ops);
    }

    /// Takes back the latest step on `lines` and drops it; `false` when
    /// there is none. Afterwards the document still has at least one line.
    pub fn undo(&mut self, lines: &mut Vec<String>) -> (done: bool)
        requires
            old(self).steps().len() > 0 ==> op_in_range(old(self).steps().last()),
        ensures
            done == (old(self).steps().len() > 0),
            final(self).capacity() == old(self).capacity(),
            done ==> final(self).steps() == old(self).steps().drop_last(),
            done ==> ({
                let after = spec_apply_op(views(old(lines)@), old(self).steps().last());
                views(final(lines)@) == if after.len() == 0 { seq![Seq::<char>::empty()] } else { after }
            }),
            !done ==> final(self).steps() == old(self).steps() && final(lines)@ == old(lines)@,
    {
        proof { use_type_invariant(&*self); }
        let mut ops: Vec<EditOp> = Vec::new();
        std::mem::swap(&mut ops, &mut self.ops);
        let popped = ops.pop();
        std::mem::swap(&mut ops, &mut self.ops);
        match popped {
            None => false,
            Some(op) => {
                apply_undo_op(lines, op);
                if lines.len() == 0 {
                    let e = String::new();
                    lines.push(e);
                    assert(views(lines@) =~= seq![Seq::<char>::empty()]);
                }
                true
            },
        }
    }
}

/// `steps` after recording each of `ops` in turn with room for `limit` steps.
pub open spec fn spec_push_all(steps: Seq<EditOp>, ops: Seq<EditOp>, limit: usize) -> Seq<EditOp>
    decreases ops.len(),
{
    if ops.len() == 0 {
        steps
    } else {
        spec_push(spec_push_all(steps, ops.drop_last(), limit), ops.last(), limit)
    }
}

/// Recording steps one after another on an empty stack keeps the latest
/// `limit` of them (all of them when there are fewer), oldest first, so undo
/// takes them back newest first; with no room nothing is kept.
pub proof fn lemma_pushes_keep_latest(ops: Seq<EditOp>, limit: usize)
    ensures
        limit == 0 ==> spec_push_all(Seq::empty(), ops, limit) == Seq::<EditOp>::empty(),
        limit > 0 ==> spec_push_all(Seq::empty(), ops, limit)
            == ops.subrange(if ops.len() <= limit { 0 } else { ops.len() - limit }, ops.len() as int),
    decreases ops.len(),
{
    if ops.len() > 0 {
        let n = ops.len() as int;
        let front = ops.drop_last();
        lemma_pushes_keep_latest(front, limit);
        if limit > 0 {
            let r = spec_push_all(Seq::empty(), front, limit);
            if n - 1 >= limit {
                assert(r.drop_first().push(ops.last()) =~= ops.subrange(n - limit, n));
            } else {
                assert(r.push(ops.last()) =~= ops.subrange(0, n));
            }
        }
    }
}

/// The line-ending style of the file, kept for saving.
#[derive(Debug, Clone, Copy, PartialEq, Eq, Structural)]
pub enum Newline {
    Lf,
    CrLf,
}

/// The in-memory document of edit mode: every line, without its line break.
pub struct EditBuffer {
    pub lines: Vec<String>,
    pub dirty: bool,
    pub newline: Newline,
    /// Undo history (the latest `UNDO_LIMIT` steps).
    pub undo: UndoStack,
}


/// The first line feed at or after `i`.
pub open spec fn next_nl(b: Seq<u8>, i: int) -> Option<int>
    decreases b.len() - i,
{
    if i >= b.len() || i < 0 {
        None
    } else if b[i] == 10u8 {
        Some(i)
    } else {
        next_nl(b, i + 1)
    }
}

/// A line feed found from `i` on lies at or after `i`.
pub proof fn lemma_next_nl_ge(b: Seq<u8>, i: int)
    ensures
        next_nl(b, i) matches Some(k) ==> i <= k < b.len() && b[k] == 10u8,
    decreases b.len() - i,
{
    if 0 <= i < b.len() && b[i] != 10u8 {
        lemma_next_nl_ge(b, i + 1);
    }
}

/// The pieces of `b` from `start` on, split at line feeds.
pub open spec fn raw_lines(b: Seq<u8>, start: int) -> Seq<Seq<u8>>
    decreases b.len() - start,
{
    if start < 0 || start > b.len() {
        seq![]
    } else {
        match next_nl(b, start) {
            Some(k) => {
                proof { lemma_next_nl_ge(b, start); }
                seq![b.subrange(start, k)] + raw_lines(b, k + 1)
            },
            None => seq![b.subrange(start, b.len() as int)],
        }
    }
}

proof fn lemma_raw_lines_len(b: Seq<u8>, start: int)
    requires
        0 <= start <= b.len(),
    ensures
        raw_lines(b, start).len() >= 1,
        raw_lines(b, start).len() == 1 ==> raw_lines(b, start)[0] == b.subrange(start, b.len() as int),
    decreases b.len() - start,
{
    lemma_next_nl_ge(b, start);
    match next_nl(b, start) {
        Some(k) => { lemma_raw_lines_len(b, k + 1); },
        None => {},
    }
}

/// The lines of a file's bytes: split at line feeds, a final line feed ending
/// the last line rather than starting an empty one.
pub open spec fn file_lines(b: Seq<u8>) -> Seq<Seq<u8>> {
    let r = raw_lines(b, 0);
    if r.last().len() == 0 { r.drop_last() } else { r }
}

/// A line without its trailing carriage return, if it has one.
pub open spec fn strip_cr(p: Seq<u8>) -> Seq<u8> {
    if p.len() > 0 && p.last() == 13u8 { p.drop_last() } else { p }
}

/// Some line ends with a carriage return (the file uses CRLF).
pub open spec fn has_crlf(ls: Seq<Seq<u8>>) -> bool {
    exists|k: int| 0 <= k < ls.len() && (#[trigger] ls[k]).len() > 0 && ls[k].last() == 13u8
}

/// The decoded text of each line, carriage return removed.
pub open spec fn decoded_lines(ls: Seq<Seq<u8>>, enc: Encoding) -> Seq<Seq<char>> {
    ls.map_values(|p: Seq<u8>| line_text(enc, strip_cr(p)))
}

proof fn lemma_memchr_next_nl(b: Seq<u8>, i: int, r: Option<usize>)
    requires
        0 <= i <= b.len(),
        match r {
            Some(k) => first_at(b.subrange(i, b.len() as int), 10u8, k as int),
            None => forall|j: int| 0 <= j < b.len() - i ==> b.subrange(i, b.len() as int)[j] != 10u8,
        },
    ensures
        match r {
            Some(k) => next_nl(b, i) == Some(i + k),
            None => next_nl(b, i) is None,
        },
    decreases b.len() - i,
{
    if i < b.len() {
        assert(b.subrange(i, b.len() as int)[0] == b[i]);
        if b[i] != 10u8 {
            let r2: Option<usize> = match r { Some(k) => Some((k - 1) as usize), None => None };
            match r {
                Some(k) => {
                    assert(k > 0);
                    assert forall|j: int| 0 <= j < k - 1 implies #[trigger] b.subrange(i + 1, b.len() as int)[j] != 10u8 by {
                        assert(b.subrange(i + 1, b.len() as int)[j] == b.subrange(i, b.len() as int)[j + 1]);
                    }
                    assert(b.subrange(i + 1, b.len() as int)[k - 1] == b.subrange(i, b.len() as int)[k as int]);
                },
                None => {
                    assert forall|j: int| 0 <= j < b.len() - (i + 1) implies #[trigger] b.subrange(i + 1, b.len() as int)[j] != 10u8 by {
                        assert(b.subrange(i + 1, b.len() as int)[j] == b.subrange(i, b.len() as int)[j + 1]);
                    }
                },
            }
            lemma_memchr_next_nl(b, i + 1, r2);
        } else {
            match r {
                Some(k) => { assert(k == 0); },
                None => {},
            }
        }
    }
}

/// Builds the edit buffer from a file's bytes: lines split at `\n`, each
/// decoded with `enc` after dropping a trailing `\r`; CRLF style when any line
/// had one; a final line feed starts no extra line; an empty file is one
/// empty line.
pub fn load_edit_buffer(bytes: &[u8], enc: Encoding) -> (buf: EditBuffer)
    ensures
        !buf.dirty,
        buf.undo.steps() == Seq::<EditOp>::empty(),
        buf.undo.capacity() == UNDO_LIMIT,
        bytes@.len() == 0 ==> views(buf.lines@) == seq![Seq::<char>::empty()] && buf.newline == Newline::Lf,
        bytes@.len() > 0 ==> views(buf.lines@) == decoded_lines(file_lines(bytes@), enc)
            && (buf.newline == Newline::CrLf <==> has_crlf(file_lines(bytes@))),
{
    if bytes.len() == 0 {
        let mut lines: Vec<String> = Vec::new();
        let e = String::new();
        lines.push(e);
        assert(views(lines@) =~= seq![Seq::<char>::empty()]);
        return EditBuffer { lines, dirty: false, newline: Newline::Lf, undo: UndoStack::new(UNDO_LIMIT) };
    }
    let ghost b = bytes@;
    let ghost all = raw_lines(b, 0);
    let n = bytes.len();
    let mut crlf = false;
    let mut lines: Vec<String> = Vec::new();
    let mut start: usize = 0;
    let ghost mut done: Seq<Seq<u8>> = seq![];
    loop
        invariant_except_break
            start <= n,
        invariant
            n == b.len() > 0,
            b == bytes@,
            all == raw_lines(b, 0),
            start <= n,
            all == done + raw_lines(b, start as int),
            views(lines@) == decoded_lines(done, enc),
            crlf == has_crlf(done),
        ensures
            start <= n,
            next_nl(b, start as int) is None,
        decreases n - start,
    {
        let rest = vstd::slice::slice_subrange(bytes, start, n);
        let found = memchr_find(10u8, rest);
        proof { lemma_memchr_next_nl(b, start as int, found); }
        match found {
            None => break,
            Some(pos) => {
                let nl = start + pos;
                let mut end = nl;
                let ghost piece = b.subrange(start as int, nl as int);
                if end > start && bytes[end - 1] == 13u8 {
                    end -= 1;
                    crlf = true;
                }
                let text = decode_line(vstd::slice::slice_subrange(bytes, start, end), enc);
                proof {
                    assert(b.subrange(start as int, end as int) == strip_cr(piece));
                    assert(raw_lines(b, start as int) == seq![piece] + raw_lines(b, nl + 1));
                    let d2 = done.push(piece);
                    assert(all =~= d2 + raw_lines(b, nl + 1));
                    assert(decoded_lines(d2, enc) =~= decoded_lines(done, enc).push(text@));
                    if crlf {
                        if has_crlf(done) {
                            let k = choose|k: int| 0 <= k < done.len() && (#[trigger] done[k]).len() > 0 && done[k].last() == 13u8;
                            assert(d2[k] == done[k]);
                        } else {
                            assert(d2[done.len() as int] == piece);
                        }
                    } else {
                        assert forall|k: int| 0 <= k < d2.len() implies !((#[trigger] d2[k]).len() > 0 && d2[k].last() == 13u8) by {
                            if k < done.len() {
                                assert(d2[k] == done[k]);
                            }
                        }
                    }
                    done = d2;
                }
                let ghost prev = lines@;
                lines.push(text);
                assert(views(lines@) =~= views(prev).push(text@));
                start = nl + 1;
            },
        }
    }
    proof {
        assert(raw_lines(b, start as int) == seq![b.subrange(start as int, n as int)]);
        assert(all == done.push(b.subrange(start as int, n as int)));
    }
    if start < n {
        let mut end = n;
        let ghost piece = b.subrange(start as int, n as int);
        if end > start && bytes[end - 1] == 13u8 {
            end -= 1;
            crlf = true;
        }
        let text = decode_line(vstd::slice::slice_subrange(bytes, start, end), enc);
        proof {
            assert(b.subrange(start as int, end as int) == strip_cr(piece));
            assert(file_lines(b) == all);
            assert(decoded_lines(all, enc) =~= decoded_lines(done, enc).push(text@));
            if crlf {
                if has_crlf(done) {
                    let k = choose|k: int| 0 <= k < done.len() && (#[trigger] done[k]).len() > 0 && done[k].last() == 13u8;
                    assert(all[k] == done[k]);
                } else {
                    assert(all[done.len() as int] == piece);
                }
            } else {
                assert forall|k: int| 0 <= k < all.len() implies !((#[trigger] all[k]).len() > 0 && all[k].last() == 13u8) by {
                    if k < done.len() {
                        assert(all[k] == done[k]);
                    }
                }
            }
        }
        let ghost prev = lines@;
        lines.push(text);
        assert(views(lines@) =~= views(prev).push(text@));
    } else {
        proof {
            assert(all.last().len() == 0);
            assert(file_lines(b) =~= done);
            lemma_raw_lines_len(b, 0);
            if done.len() == 0 {
                assert(all.len() == 1);
                assert(all[0] == b.subrange(0, n as int));
                assert(false);
            }
        }
    }
    let newline = if crlf { Newline::CrLf } else { Newline::Lf };
    EditBuffer { lines, dirty: false, newline, undo: UndoStack::new(UNDO_LIMIT) }
}

} // verus!
