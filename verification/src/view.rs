//! Editing decisions of the viewer's table and text modes: rectangle
//! selections, caret movement, and how each key or menu action changes the
//! edit buffer, the caret and the selection. Drawing and input collection
//! are the application's; they hand these functions plain values.
use vstd::prelude::*;
use crate::chars::{chars_of, string_of};
use crate::edit::{
    TextPos, EditBuffer, normalize, pos_le, pos_lo, pos_hi, clamp_col, insert_str, split_line,
    delete_range, selection_text, backspace, spec_insert_str, spec_split_line, spec_delete_range,
    spec_selection_text, spec_backspace, split_nl, split_by, cells_to_tsv, clear_cells, paste_tsv,
    insert_row, remove_row, spec_cells_to_tsv, cells_cleared, cells_pasted,
};
use crate::parse::views;

verus! {

/// A rectangle `(r0, c0, r1, c1)` with its corners ordered.
pub open spec fn spec_normalize_rect(sel: (usize, usize, usize, usize)) -> (usize, usize, usize, usize) {
    let (r0, c0, r1, c1) = sel;
    (
        if r0 <= r1 { r0 } else { r1 },
        if c0 <= c1 { c0 } else { c1 },
        if r0 <= r1 { r1 } else { r0 },
        if c0 <= c1 { c1 } else { c0 },
    )
}

/// Orders a rectangle's corners: `(r0 <= r1, c0 <= c1)`.
pub fn normalize_rect(sel: (usize, usize, usize, usize)) -> (r: (usize, usize, usize, usize))
    ensures
        r == spec_normalize_rect(sel),
{
    let (r0, c0, r1, c1) = sel;
    (
        if r0 <= r1 { r0 } else { r1 },
        if c0 <= c1 { c0 } else { c1 },
        if r0 <= r1 { r1 } else { r0 },
        if c0 <= c1 { c1 } else { c0 },
    )
}

/// Whether cell `(row, col)` lies in the rectangle, whatever its corner order.
pub fn rect_contains(sel: (usize, usize, usize, usize), row: usize, col: usize) -> (b: bool)
    ensures
        b == ({
            let (r0, c0, r1, c1) = spec_normalize_rect(sel);
            r0 <= row <= r1 && c0 <= col <= c1
        }),
{
    let (r0, c0, r1, c1) = normalize_rect(sel);
    r0 <= row && row <= r1 && c0 <= col && col <= c1
}

/// Drag selection over cells: off whenever the button is up, on once a
/// press on a cell has been seen, otherwise as before.
pub fn next_cell_drag_active(prev: bool, primary_down: bool, pressed_on_cell: bool) -> (b: bool)
    ensures
        b == (primary_down && (prev || pressed_on_cell)),
{
    if !primary_down {
        return false;
    }
    prev || pressed_on_cell
}

/// One caret movement.
#[derive(Debug, Clone, Copy, PartialEq, Eq, Structural)]
pub enum CaretMove {
    Left,
    Right,
    Up,
    Down,
    Home,
    End,
}

/// Number of characters of a line.
pub fn line_char_len(s: &str) -> (n: usize)
    ensures
        n == s@.len(),
{
    chars_of(s).len()
}

/// `p` brought inside the document: the line clamped to the last line, the
/// column to that line's end; `(0, 0)` for a document without lines.
pub open spec fn spec_clamp_pos(ls: Seq<Seq<char>>, p: TextPos) -> TextPos {
    if ls.len() == 0 {
        TextPos { line: 0, col: 0 }
    } else {
        let line = if p.line < ls.len() { p.line } else { (ls.len() - 1) as usize };
        TextPos { line, col: clamp_col(ls[line as int], p.col) as usize }
    }
}

/// Clamps a caret position into the document.
pub fn clamp_pos(lines: &[String], p: TextPos) -> (r: TextPos)
    ensures
        r == spec_clamp_pos(views(lines@), p),
{
    if lines.len() == 0 {
        return TextPos { line: 0, col: 0 };
    }
    let line = if p.line < lines.len() { p.line } else { lines.len() - 1 };
    let len = line_char_len(lines[line].as_str());
    let col = if p.col <= len { p.col } else { len };
    TextPos { line, col }
}

/// Whether a movement reads the caret's line (and so needs a line to read).
pub open spec fn reads_line(mv: CaretMove) -> bool {
    mv == CaretMove::Right || mv == CaretMove::Down || mv == CaretMove::End
}

/// One movement from `p` (first clamped): left and right cross line ends,
/// up and down keep the column where the target line allows, up from the
/// first line goes to the document start and down from the last line to its
/// end, home and end go to the ends of the line.
pub open spec fn spec_caret_move(ls: Seq<Seq<char>>, p0: TextPos, mv: CaretMove) -> TextPos {
    let p = spec_clamp_pos(ls, p0);
    match mv {
        CaretMove::Left => {
            if p.col > 0 {
                TextPos { line: p.line, col: (p.col - 1) as usize }
            } else if p.line > 0 {
                TextPos { line: (p.line - 1) as usize, col: ls[p.line - 1].len() as usize }
            } else {
                p
            }
        },
        CaretMove::Right => {
            if p.col < ls[p.line as int].len() {
                TextPos { line: p.line, col: (p.col + 1) as usize }
            } else if p.line + 1 < ls.len() {
                TextPos { line: (p.line + 1) as usize, col: 0 }
            } else {
                p
            }
        },
        CaretMove::Up => {
            if p.line == 0 {
                TextPos { line: 0, col: 0 }
            } else {
                spec_clamp_pos(ls, TextPos { line: (p.line - 1) as usize, col: p.col })
            }
        },
        CaretMove::Down => {
            if p.line + 1 >= ls.len() {
                TextPos { line: p.line, col: ls[p.line as int].len() as usize }
            } else {
                spec_clamp_pos(ls, TextPos { line: (p.line + 1) as usize, col: p.col })
            }
        },
        CaretMove::Home => TextPos { line: p.line, col: 0 },
        CaretMove::End => TextPos { line: p.line, col: ls[p.line as int].len() as usize },
    }
}

/// The caret after one movement.
pub fn apply_caret_move(lines: &[String], p: TextPos, mv: CaretMove) -> (r: TextPos)
    requires
        lines@.len() > 0 || !reads_line(mv),
    ensures
        r == spec_caret_move(views(lines@), p, mv),
{
    let p = clamp_pos(lines, p);
    match mv {
        CaretMove::Left => {
            if p.col > 0 {
                TextPos { line: p.line, col: p.col - 1 }
            } else if p.line > 0 {
                TextPos { line: p.line - 1, col: line_char_len(lines[p.line - 1].as_str()) }
            } else {
                p
            }
        },
        CaretMove::Right => {
            if p.col < line_char_len(lines[p.line].as_str()) {
                TextPos { line: p.line, col: p.col + 1 }
            } else if p.line + 1 < lines.len() {
                TextPos { line: p.line + 1, col: 0 }
            } else {
                p
            }
        },
        CaretMove::Up => {
            if p.line == 0 {
                TextPos { line: 0, col: 0 }
            } else {
                clamp_pos(lines, TextPos { line: p.line - 1, col: p.col })
            }
        },
        CaretMove::Down => {
            assert(views(lines@).len() == lines@.len());
            assert(p.line < lines.len());
            if p.line + 1 >= lines.len() {
                TextPos { line: p.line, col: line_char_len(lines[p.line].as_str()) }
            } else {
                clamp_pos(lines, TextPos { line: p.line + 1, col: p.col })
            }
        },
        CaretMove::Home => TextPos { line: p.line, col: 0 },
        CaretMove::End => TextPos { line: p.line, col: line_char_len(lines[p.line].as_str()) },
    }
}

/// Caret and selection after an arrow, Home or End key: with Shift the
/// selection grows from its anchor (the caret if there was none) and
/// vanishes when caret and anchor meet; without Shift a selection collapses
/// to its start (left, up) or end (right, down) without moving, Home and End
/// move within the caret's line; with no selection the caret just moves.
pub open spec fn spec_next_caret_and_sel(
    ls: Seq<Seq<char>>,
    caret: TextPos,
    sel: Option<(TextPos, TextPos)>,
    mv: CaretMove,
    extend: bool,
) -> (TextPos, Option<(TextPos, TextPos)>) {
    if extend {
        let anchor = match sel { Some(s) => s.0, None => caret };
        let to = spec_caret_move(ls, caret, mv);
        (to, if anchor == to { None } else { Some((anchor, to)) })
    } else {
        match sel {
            Some(s) => {
                if mv == CaretMove::Left || mv == CaretMove::Up {
                    (pos_lo(s.0, s.1), None)
                } else if mv == CaretMove::Right || mv == CaretMove::Down {
                    (pos_hi(s.0, s.1), None)
                } else {
                    (spec_caret_move(ls, caret, mv), None)
                }
            },
            None => (spec_caret_move(ls, caret, mv), None),
        }
    }
}

/// The caret and selection after an arrow, Home or End key.
pub fn next_caret_and_sel(
    lines: &[String],
    caret: TextPos,
    sel: Option<(TextPos, TextPos)>,
    mv: CaretMove,
    extend: bool,
) -> (r: (TextPos, Option<(TextPos, TextPos)>))
    requires
        lines@.len() > 0 || !reads_line(mv),
    ensures
        r == spec_next_caret_and_sel(views(lines@), caret, sel, mv, extend),
{
    if extend {
        let anchor = match sel {
            Some((a, _)) => a,
            None => caret,
        };
        let to = apply_caret_move(lines, caret, mv);
        let new_sel = if anchor == to { None } else { Some((anchor, to)) };
        return (to, new_sel);
    }
    match sel {
        Some((a, b)) => {
            let (lo, hi) = normalize(a, b);
            match mv {
                CaretMove::Left | CaretMove::Up => (lo, None),
                CaretMove::Right | CaretMove::Down => (hi, None),
                _ => (apply_caret_move(lines, caret, mv), None),
            }
        },
        None => (apply_caret_move(lines, caret, mv), None),
    }
}

/// Backspace or Delete changed the buffer: a selection was deleted, or the
/// caret moved.
pub fn backspace_or_delete_changed(had_sel: bool, before: TextPos, after: TextPos) -> (b: bool)
    ensures
        b == (had_sel || before != after),
{
    had_sel || before != after
}

/// The selection of the whole document: from the start to the end of the
/// last line (both `(0, 0)` without lines).
pub open spec fn spec_whole_document_sel(ls: Seq<Seq<char>>) -> (TextPos, TextPos) {
    let last = if ls.len() > 0 { ls.len() - 1 } else { 0 };
    (TextPos { line: 0, col: 0 }, TextPos { line: last as usize, col: if ls.len() > 0 { ls[last].len() as usize } else { 0 } })
}

/// The selection covering the whole document.
pub fn whole_document_sel(lines: &[String]) -> (r: (TextPos, TextPos))
    ensures
        r == spec_whole_document_sel(views(lines@)),
{
    let last = if lines.len() > 0 { lines.len() - 1 } else { 0 };
    let col = if last < lines.len() { line_char_len(lines[last].as_str()) } else { 0 };
    (TextPos { line: 0, col: 0 }, TextPos { line: last, col })
}

/// The span `[c0, c1)` that a selection `a..b` (ordered) shades on `line`
/// of length `len`; a line the selection runs past also shades its line
/// break (`len + 1`). `None` when the line is outside or nothing is shaded.
pub open spec fn spec_sel_span(a: TextPos, b: TextPos, line: usize, len: usize) -> Option<(usize, usize)> {
    if line < a.line || line > b.line {
        None
    } else {
        let c0 = if line == a.line { if a.col <= len { a.col } else { len } } else { 0 };
        let c1: int = if line == b.line { if b.col <= len { b.col as int } else { len as int } } else { len + 1 };
        if c0 >= c1 { None } else { Some((c0, c1 as usize)) }
    }
}

/// The shaded span of an ordered selection on one line.
pub fn sel_span_on_line(a: TextPos, b: TextPos, line: usize, len: usize) -> (r: Option<(usize, usize)>)
    requires
        len < usize::MAX,
    ensures
        r == spec_sel_span(a, b, line, len),
{
    if line < a.line || line > b.line {
        return None;
    }
    let c0 = if line == a.line { if a.col <= len { a.col } else { len } } else { 0 };
    let c1 = if line == b.line { if b.col <= len { b.col } else { len } } else { len + 1 };
    if c0 >= c1 {
        return None;
    }
    Some((c0, c1))
}


/// What a key, clipboard or menu event asks of the text editor.
pub enum TextEditIntent {
    /// Typed text (may hold line breaks); replaces the selection.
    Insert(String),
    /// Enter: replaces the selection, then breaks the line.
    Newline,
    Backspace,
    Delete,
    /// A caret movement; `true` extends the selection from its anchor.
    Move(CaretMove, bool),
    SelectAll,
    Copy,
    Cut,
    /// Pasted text.
    Paste(String),
}

/// `t` without carriage returns.
pub open spec fn without_cr(t: Seq<char>) -> Seq<char>
    decreases t.len(),
{
    if t.len() == 0 {
        seq![]
    } else {
        without_cr(t.drop_last()) + if t.last() == '\r' { Seq::<char>::empty() } else { seq![t.last()] }
    }
}

/// `s` with `\r\n` and then lone `\r` turned into `\n`.
pub open spec fn unify_breaks(s: Seq<char>) -> Seq<char>
    decreases s.len(),
{
    if s.len() == 0 {
        seq![]
    } else if s[0] == '\r' && s.len() > 1 && s[1] == '\n' {
        seq!['\n'] + unify_breaks(s.skip(2))
    } else if s[0] == '\r' {
        seq!['\n'] + unify_breaks(s.skip(1))
    } else {
        seq![s[0]] + unify_breaks(s.skip(1))
    }
}

proof fn lemma_without_cr_len(t: Seq<char>)
    ensures
        without_cr(t).len() <= t.len(),
    decreases t.len(),
{
    if t.len() > 0 {
        lemma_without_cr_len(t.drop_last());
    }
}

proof fn lemma_unify_len(s: Seq<char>)
    ensures
        unify_breaks(s).len() <= s.len(),
    decreases s.len(),
{
    if s.len() > 0 {
        if s[0] == '\r' && s.len() > 1 && s[1] == '\n' {
            lemma_unify_len(s.skip(2));
        } else {
            lemma_unify_len(s.skip(1));
        }
    }
}

fn remove_cr(t: &str) -> (r: String)
    ensures
        r@ == without_cr(t@),
{
    let cs = chars_of(t);
    let mut out: Vec<char> = Vec::new();
    let mut i: usize = 0;
    while i < cs.len()
        invariant
            0 <= i <= cs@.len(),
            cs@ == t@,
            out@ == without_cr(cs@.take(i as int)),
        decreases cs.len() - i,
    {
        assert(cs@.take(i as int + 1).drop_last() =~= cs@.take(i as int));
        if cs[i] != '\r' {
            out.push(cs[i]);
        }
        i += 1;
        assert(out@ =~= without_cr(cs@.take(i as int)));
    }
    assert(cs@.take(cs@.len() as int) =~= cs@);
    string_of(out.as_slice())
}

fn unify_newlines(t: &str) -> (r: String)
    ensures
        r@ == unify_breaks(t@),
{
    let cs = chars_of(t);
    let n = cs.len();
    let mut out: Vec<char> = Vec::new();
    let mut i: usize = 0;
    assert(cs@.skip(0) =~= cs@);
    assert(out@ + unify_breaks(cs@.skip(0)) =~= unify_breaks(cs@));
    while i < n
        invariant
            0 <= i <= n == cs@.len(),
            cs@ == t@,
            out@ + unify_breaks(cs@.skip(i as int)) == unify_breaks(cs@),
        decreases n - i,
    {
        let ghost rest = cs@.skip(i as int);
        assert(rest[0] == cs@[i as int]);
        if cs[i] == '\r' && i + 1 < n && cs[i + 1] == '\n' {
            assert(rest[1] == cs@[i + 1]);
            assert(rest.skip(2) =~= cs@.skip(i + 2));
            out.push('\n');
            i += 2;
        } else {
            assert(rest.skip(1) =~= cs@.skip(i + 1));
            if cs[i] == '\r' {
                out.push('\n');
            } else {
                out.push(cs[i]);
            }
            i += 1;
        }
    }
    assert(cs@.skip(n as int) =~= Seq::<char>::empty());
    assert(out@ + Seq::<char>::empty() =~= out@);
    string_of(out.as_slice())
}

/// The selection clamped into the document, dropped when empty.
pub open spec fn clamped_sel(ls: Seq<Seq<char>>, sel: Option<(TextPos, TextPos)>) -> Option<(TextPos, TextPos)> {
    match sel {
        Some(s) => {
            let a = spec_clamp_pos(ls, s.0);
            let b = spec_clamp_pos(ls, s.1);
            if a != b { Some((a, b)) } else { None }
        },
        None => None,
    }
}

/// The text editor's state as the intents see it.
pub struct EditorState {
    pub lines: Seq<Seq<char>>,
    pub caret: TextPos,
    pub sel: Option<(TextPos, TextPos)>,
    pub dirty: bool,
    pub clipboard: Seq<char>,
}

/// The state after one intent, and the text handed to the system clipboard
/// (for copy and cut). An empty document first gets one empty line; caret
/// and selection are clamped before use. Typing, Enter and pasting replace
/// the selection; Backspace and Delete mark the buffer dirty only when they
/// removed something; copy and cut need a selection.
pub open spec fn spec_text_intent(st: EditorState, intent: TextEditIntent) -> (EditorState, Option<Seq<char>>) {
    let ls = if st.lines.len() == 0 { seq![Seq::<char>::empty()] } else { st.lines };
    let caret = spec_clamp_pos(ls, st.caret);
    let sel = clamped_sel(ls, st.sel);
    let del = match sel { Some(s) => spec_delete_range(ls, s.0, s.1), None => (ls, caret) };
    let same = EditorState { lines: ls, ..st };
    match intent {
        TextEditIntent::Insert(t) => {
            let t2 = without_cr(t@);
            if t2.len() == 0 {
                (same, None)
            } else {
                let r = spec_insert_str(del.0, del.1, t2);
                (EditorState { lines: r.0, caret: r.1, sel: None, dirty: true, ..st }, None)
            }
        },
        TextEditIntent::Newline => (
            EditorState {
                lines: spec_split_line(del.0, del.1),
                caret: TextPos { line: (del.1.line + 1) as usize, col: 0 },
                sel: None,
                dirty: true,
                ..st
            },
            None,
        ),
        TextEditIntent::Backspace => {
            let r = if sel is Some { del } else { spec_backspace(ls, caret) };
            (EditorState { lines: r.0, caret: r.1, sel: None, dirty: st.dirty || sel is Some || caret != r.1, ..st }, None)
        },
        TextEditIntent::Delete => {
            if sel is Some {
                (EditorState { lines: del.0, caret: del.1, sel: None, dirty: true, ..st }, None)
            } else {
                let next = spec_caret_move(ls, caret, CaretMove::Right);
                if next == caret {
                    (EditorState { lines: ls, caret, sel: None, ..st }, None)
                } else {
                    let r = spec_delete_range(ls, caret, next);
                    (EditorState { lines: r.0, caret: r.1, sel: None, dirty: true, ..st }, None)
                }
            }
        },
        TextEditIntent::Move(mv, extend) => {
            let r = spec_next_caret_and_sel(ls, caret, sel, mv, extend);
            (EditorState { lines: ls, caret: r.0, sel: r.1, ..st }, None)
        },
        TextEditIntent::SelectAll => {
            let w = spec_whole_document_sel(ls);
            (EditorState { lines: ls, caret: w.1, sel: Some(w), ..st }, None)
        },
        TextEditIntent::Copy => match sel {
            Some(s) => {
                let text = spec_selection_text(ls, s.0, s.1);
                (EditorState { lines: ls, clipboard: text, ..st }, Some(text))
            },
            None => (same, None),
        },
        TextEditIntent::Cut => match sel {
            Some(s) => {
                let text = spec_selection_text(ls, s.0, s.1);
                (EditorState { lines: del.0, caret: del.1, sel: None, dirty: true, clipboard: text, ..st }, Some(text))
            },
            None => (same, None),
        },
        TextEditIntent::Paste(p) => {
            let t2 = unify_breaks(p@);
            if t2.len() == 0 {
                (same, None)
            } else {
                let r = spec_insert_str(del.0, del.1, t2);
                (EditorState { lines: r.0, caret: r.1, sel: None, dirty: true, ..st }, None)
            }
        },
    }
}

/// Characters an intent inserts (before removing carriage returns).
pub open spec fn intent_text_len(intent: TextEditIntent) -> nat {
    match intent {
        TextEditIntent::Insert(t) => t@.len(),
        TextEditIntent::Paste(p) => p@.len(),
        _ => 0,
    }
}

proof fn lemma_clamp_valid(ls: Seq<Seq<char>>, p: TextPos)
    requires
        ls.len() > 0,
    ensures
        spec_clamp_pos(ls, p).line < ls.len(),
        spec_clamp_pos(ls, p).col <= ls[spec_clamp_pos(ls, p).line as int].len(),
{
}

/// Applies one text-mode intent to the edit buffer, the caret, the selection
/// and the in-app clipboard; returns the text to put on the system
/// clipboard when the intent copies.
#[verifier::rlimit(80)]
#[verifier::spinoff_prover]
pub fn apply_text_intent(
    buf: &mut EditBuffer,
    caret: &mut TextPos,
    sel: &mut Option<(TextPos, TextPos)>,
    clipboard: &mut String,
    intent: TextEditIntent,
) -> (copied: Option<String>)
    requires
        forall|i: int| 0 <= i < old(buf).lines@.len() ==> old(buf).lines@[i]@.len() + intent_text_len(intent) <= usize::MAX,
    ensures
        ({
            let before = EditorState {
                lines: views(old(buf).lines@),
                caret: *old(caret),
                sel: *old(sel),
                dirty: old(buf).dirty,
                clipboard: old(clipboard)@,
            };
            let (after, out) = spec_text_intent(before, intent);
            &&& views(final(buf).lines@) == after.lines
            &&& *final(caret) == after.caret
            &&& *final(sel) == after.sel
            &&& final(buf).dirty == after.dirty
            &&& final(clipboard)@ == after.clipboard
            &&& match copied { Some(c) => out == Some(c@), None => out is None }
        }),
        final(buf).newline == old(buf).newline,
        final(buf).undo.steps() == old(buf).undo.steps(),
        final(buf).undo.capacity() == old(buf).undo.capacity(),
{
    let ghost st0 = EditorState {
        lines: views(buf.lines@),
        caret: *caret,
        sel: *sel,
        dirty: buf.dirty,
        clipboard: clipboard@,
    };
    if buf.lines.len() == 0 {
        let e = String::new();
        buf.lines.push(e);
        assert(views(buf.lines@) =~= seq![Seq::<char>::empty()]);
    }
    let ghost ls = views(buf.lines@);
    assert(ls == (if st0.lines.len() == 0 { seq![Seq::<char>::empty()] } else { st0.lines }));
    assert(st0.lines.len() > 0 ==> forall|i: int| 0 <= i < ls.len() ==> ls[i].len() + intent_text_len(intent) <= usize::MAX);
    let cur = clamp_pos(buf.lines.as_slice(), *caret);
    let s = match *sel {
        Some((a, b)) => {
            let a2 = clamp_pos(buf.lines.as_slice(), a);
            let b2 = clamp_pos(buf.lines.as_slice(), b);
            if a2 != b2 { Some((a2, b2)) } else { None }
        },
        None => None,
    };
    proof {
        lemma_clamp_valid(ls, st0.caret);
        if let Some(x) = st0.sel {
            lemma_clamp_valid(ls, x.0);
            lemma_clamp_valid(ls, x.1);
        }
    }
    match intent {
        TextEditIntent::Insert(t) => {
            let t2 = remove_cr(t.as_str());
            proof { lemma_without_cr_len(t@); }
            if t2.as_str().is_empty() {
                return None;
            }
            let tn = chars_of(t2.as_str()).len();
            let at = match s {
                Some((a, b)) => delete_range(&mut buf.lines, a, b),
                None => cur,
            };
            assert(at.col + t2@.len() <= usize::MAX) by {
                if st0.lines.len() > 0 {
                    assert(ls[at.line as int].len() + intent_text_len(intent) <= usize::MAX);
                }
            }
            *caret = insert_str(&mut buf.lines, at, t2.as_str());
            *sel = None;
            buf.dirty = true;
            None
        },
        TextEditIntent::Newline => {
            let at = match s {
                Some((a, b)) => delete_range(&mut buf.lines, a, b),
                None => cur,
            };
            *caret = split_line(&mut buf.lines, at);
            *sel = None;
            buf.dirty = true;
            None
        },
        TextEditIntent::Backspace => {
            let had_sel = s.is_some();
            let after = match s {
                Some((a, b)) => delete_range(&mut buf.lines, a, b),
                None => backspace(&mut buf.lines, cur),
            };
            *caret = after;
            *sel = None;
            if backspace_or_delete_changed(had_sel, cur, after) {
                buf.dirty = true;
            }
            None
        },
        TextEditIntent::Delete => {
            let mut changed = s.is_some();
            let after = match s {
                Some((a, b)) => delete_range(&mut buf.lines, a, b),
                None => {
                    let next = apply_caret_move(buf.lines.as_slice(), cur, CaretMove::Right);
                    if next == cur {
                        cur
                    } else {
                        changed = true;
                        delete_range(&mut buf.lines, cur, next)
                    }
                },
            };
            *caret = after;
            *sel = None;
            if changed {
                buf.dirty = true;
            }
            None
        },
        TextEditIntent::Move(mv, extend) => {
            let (c, ns) = next_caret_and_sel(buf.lines.as_slice(), cur, s, mv, extend);
            *caret = c;
            *sel = ns;
            None
        },
        TextEditIntent::SelectAll => {
            let (a, b) = whole_document_sel(buf.lines.as_slice());
            *sel = Some((a, b));
            *caret = b;
            None
        },
        TextEditIntent::Copy => {
            match s {
                Some((a, b)) => {
                    let (a, b) = normalize(a, b);
                    let text = selection_text(buf.lines.as_slice(), a, b);
                    *clipboard = text.clone();
                    Some(text)
                },
                None => None,
            }
        },
        TextEditIntent::Cut => {
            match s {
                Some((a, b)) => {
                    let (a, b) = normalize(a, b);
                    let text = selection_text(buf.lines.as_slice(), a, b);
                    *clipboard = text.clone();
                    *caret = delete_range(&mut buf.lines, a, b);
                    *sel = None;
                    buf.dirty = true;
                    Some(text)
                },
                None => None,
            }
        },
        TextEditIntent::Paste(p) => {
            let t2 = unify_newlines(p.as_str());
            proof { lemma_unify_len(p@); }
            if t2.as_str().is_empty() {
                return None;
            }
            let tn = chars_of(t2.as_str()).len();
            let at = match s {
                Some((a, b)) => delete_range(&mut buf.lines, a, b),
                None => cur,
            };
            assert(at.col + t2@.len() <= usize::MAX) by {
                if st0.lines.len() > 0 {
                    assert(ls[at.line as int].len() + intent_text_len(intent) <= usize::MAX);
                }
            }
            *caret = insert_str(&mut buf.lines, at, t2.as_str());
            *sel = None;
            buf.dirty = true;
            None
        },
    }
}


/// An action from the table's context menu.
#[derive(Debug, Clone, Copy, PartialEq, Eq, Structural)]
pub enum CellMenuAction {
    Copy,
    Cut,
    Paste,
    Clear,
    InsertRowAbove,
    InsertRowBelow,
    DeleteRows,
}

/// `remove_row` at `at`: the row goes if it exists, and a document left
/// without rows gets one empty row.
pub open spec fn remove_one(ls: Seq<Seq<char>>, at: int) -> Seq<Seq<char>> {
    let x = if 0 <= at < ls.len() { ls.remove(at) } else { ls };
    if x.len() == 0 { seq![Seq::<char>::empty()] } else { x }
}

/// Removing rows `r`, `r - 1`, …, `r0`, from the bottom up.
pub open spec fn removed_rows(ls: Seq<Seq<char>>, r0: int, r: int) -> Seq<Seq<char>>
    decreases r - r0 + 1,
{
    if r < r0 { ls } else { removed_rows(remove_one(ls, r), r0, r - 1) }
}

/// The menu action can run without arithmetic overflow.
pub open spec fn menu_action_fits(sel: (usize, usize, usize, usize), act: CellMenuAction, clipboard: Seq<char>) -> bool {
    let (r0, c0, r1, c1) = spec_normalize_rect(sel);
    &&& (act == CellMenuAction::InsertRowAbove || act == CellMenuAction::InsertRowBelow) ==> r1 < usize::MAX
    &&& act == CellMenuAction::Paste ==> {
        &&& r0 + split_nl(clipboard).len() <= usize::MAX
        &&& forall|k: int| 0 <= k < split_nl(clipboard).len() ==> c0 + #[trigger] split_by(split_nl(clipboard)[k], '\t').len() <= usize::MAX
    }
}

/// Applies a context-menu action to the selected block of cells (corners in
/// any order) in the edit buffer: copy or cut it as TSV (returned for the
/// system clipboard and kept in `clipboard`), paste `clipboard` at its top
/// left, clear it, insert an empty row above or below it, or delete its
/// rows. Nothing happens without a selection.
pub fn apply_cell_menu_action(
    buf: &mut EditBuffer,
    cell_sel: &mut Option<(usize, usize, usize, usize)>,
    editing_cell: &mut Option<(usize, usize)>,
    delim: u8,
    clipboard: &mut String,
    act: CellMenuAction,
) -> (copied: Option<String>)
    requires
        *old(cell_sel) matches Some(sel) ==> menu_action_fits(sel, act, old(clipboard)@),
    ensures
        final(buf).newline == old(buf).newline,
        final(buf).undo.steps() == old(buf).undo.steps(),
        final(buf).undo.capacity() == old(buf).undo.capacity(),
        *old(cell_sel) is None ==> {
            &&& final(buf).lines@ == old(buf).lines@
            &&& final(buf).dirty == old(buf).dirty
            &&& *final(cell_sel) == *old(cell_sel)
            &&& *final(editing_cell) == *old(editing_cell)
            &&& final(clipboard)@ == old(clipboard)@
            &&& copied is None
        },
        *old(cell_sel) matches Some(sel) ==> ({
            let (r0, c0, r1, c1) = spec_normalize_rect(sel);
            let before = old(buf).lines@;
            let after = final(buf).lines@;
            match act {
                CellMenuAction::Copy => {
                    &&& after == before
                    &&& final(buf).dirty == old(buf).dirty
                    &&& final(clipboard)@ == spec_cells_to_tsv(views(before), r0, c0, r1, c1, delim)
                    &&& copied matches Some(t) && t@ == final(clipboard)@
                    &&& *final(cell_sel) == *old(cell_sel)
                    &&& *final(editing_cell) == *old(editing_cell)
                },
                CellMenuAction::Cut => {
                    &&& cells_cleared(before, after, r0, c0, r1, c1, delim)
                    &&& final(buf).dirty
                    &&& final(clipboard)@ == spec_cells_to_tsv(views(before), r0, c0, r1, c1, delim)
                    &&& copied matches Some(t) && t@ == final(clipboard)@
                    &&& *final(cell_sel) == *old(cell_sel)
                    &&& *final(editing_cell) == *old(editing_cell)
                },
                CellMenuAction::Paste => {
                    &&& old(clipboard)@.len() > 0 ==> cells_pasted(before, after, r0, c0, old(clipboard)@, delim) && final(buf).dirty
                    &&& old(clipboard)@.len() == 0 ==> after == before && final(buf).dirty == old(buf).dirty
                    &&& final(clipboard)@ == old(clipboard)@
                    &&& copied is None
                    &&& *final(cell_sel) == *old(cell_sel)
                    &&& *final(editing_cell) == *old(editing_cell)
                },
                CellMenuAction::Clear => {
                    &&& cells_cleared(before, after, r0, c0, r1, c1, delim)
                    &&& final(buf).dirty
                    &&& final(clipboard)@ == old(clipboard)@
                    &&& copied is None
                    &&& *final(cell_sel) == *old(cell_sel)
                    &&& *final(editing_cell) == *old(editing_cell)
                },
                CellMenuAction::InsertRowAbove => {
                    &&& views(after) == views(before).insert(if r0 <= before.len() { r0 as int } else { before.len() as int }, Seq::<char>::empty())
                    &&& final(buf).dirty
                    &&& *final(cell_sel) == Some(((r0 + 1) as usize, c0, (r1 + 1) as usize, c1))
                    &&& final(clipboard)@ == old(clipboard)@
                    &&& copied is None
                    &&& *final(editing_cell) == *old(editing_cell)
                },
                CellMenuAction::InsertRowBelow => {
                    &&& views(after) == views(before).insert(if r1 + 1 <= before.len() { r1 + 1 } else { before.len() as int }, Seq::<char>::empty())
                    &&& final(buf).dirty
                    &&& *final(cell_sel) == *old(cell_sel)
                    &&& final(clipboard)@ == old(clipboard)@
                    &&& copied is None
                    &&& *final(editing_cell) == *old(editing_cell)
                },
                CellMenuAction::DeleteRows => {
                    &&& views(after) == removed_rows(views(before), r0 as int, r1 as int)
                    &&& final(buf).dirty
                    &&& *final(cell_sel) == Some(({
                        let last = if after.len() > 0 { after.len() - 1 } else { 0 };
                        (if r0 <= last { r0 } else { last as usize }, c0, if r0 <= last { r0 } else { last as usize }, c1)
                    }))
                    &&& *final(editing_cell) == None::<(usize, usize)>
                    &&& final(clipboard)@ == old(clipboard)@
                    &&& copied is None
                },
            }
        }),
{
    let sel = match *cell_sel {
        Some(s) => s,
        None => return None,
    };
    let (r0, c0, r1, c1) = normalize_rect(sel);
    match act {
        CellMenuAction::Copy => {
            let tsv = cells_to_tsv(buf.lines.as_slice(), r0, c0, r1, c1, delim);
            *clipboard = tsv.clone();
            Some(tsv)
        },
        CellMenuAction::Cut => {
            let tsv = cells_to_tsv(buf.lines.as_slice(), r0, c0, r1, c1, delim);
            *clipboard = tsv.clone();
            clear_cells(buf.lines.as_mut_slice(), r0, c0, r1, c1, delim);
            buf.dirty = true;
            Some(tsv)
        },
        CellMenuAction::Paste => {
            if !clipboard.as_str().is_empty() {
                paste_tsv(&mut buf.lines, r0, c0, clipboard.as_str(), delim);
                buf.dirty = true;
            }
            None
        },
        CellMenuAction::Clear => {
            clear_cells(buf.lines.as_mut_slice(), r0, c0, r1, c1, delim);
            buf.dirty = true;
            None
        },
        CellMenuAction::InsertRowAbove => {
            insert_row(&mut buf.lines, r0, String::new());
            buf.dirty = true;
            *cell_sel = Some((r0 + 1, c0, r1 + 1, c1));
            None
        },
        CellMenuAction::InsertRowBelow => {
            insert_row(&mut buf.lines, r1 + 1, String::new());
            buf.dirty = true;
            None
        },
        CellMenuAction::DeleteRows => {
            let ghost start = views(buf.lines@);
            let mut r = r1;
            loop
                invariant_except_break
                    removed_rows(views(buf.lines@), r0 as int, r as int) == removed_rows(start, r0 as int, r1 as int),
                invariant
                    r0 <= r <= r1,
                    buf.newline == old(buf).newline,
                    buf.undo.steps() == old(buf).undo.steps(),
                    buf.undo.capacity() == old(buf).undo.capacity(),
                ensures
                    views(buf.lines@) == removed_rows(start, r0 as int, r1 as int),
                decreases r - r0,
            {
                let ghost x = views(buf.lines@);
                remove_row(&mut buf.lines, r);
                assert(views(buf.lines@) == remove_one(x, r as int));
                if r == r0 {
                    assert(removed_rows(remove_one(x, r as int), r0 as int, r - 1) == remove_one(x, r as int));
                    break;
                }
                r -= 1;
            }
            buf.dirty = true;
            let len = buf.lines.len();
            let last = if len > 0 { len - 1 } else { 0 };
            let r = if r0 <= last { r0 } else { last };
            *cell_sel = Some((r, c0, r, c1));
            *editing_cell = None;
            None
        },
    }
}

} // verus!
