//! What every text-mode intent keeps of the edit buffer: at least one line,
//! and no line break inside a line.
use vstd::prelude::*;
use crate::edit::{TextPos, split_by, split_nl, spec_insert_str, spec_delete_range, spec_split_line, spec_backspace, attach, clamp_col};
use crate::view::{EditorState, TextEditIntent, CaretMove, spec_text_intent, spec_clamp_pos, spec_caret_move, clamped_sel, without_cr, unify_breaks};

verus! {

/// No line of `ls` holds the character `x`.
pub open spec fn free_of(ls: Seq<Seq<char>>, x: char) -> bool {
    forall|i: int| 0 <= i < ls.len() ==> !(#[trigger] ls[i]).contains(x)
}

/// Joining two texts free of `x` gives a text free of `x`.
proof fn lemma_concat_free(a: Seq<char>, b: Seq<char>, x: char)
    requires
        !a.contains(x),
        !b.contains(x),
    ensures
        !(a + b).contains(x),
{
    if (a + b).contains(x) {
        let i = choose|i: int| 0 <= i < (a + b).len() && (a + b)[i] == x;
        if i < a.len() {
            assert(a[i] == x);
        } else {
            assert(b[i - a.len()] == x);
        }
    }
}

/// A piece of a text free of `x` is free of `x`.
proof fn lemma_sub_free(a: Seq<char>, lo: int, hi: int, x: char)
    requires
        !a.contains(x),
        0 <= lo <= hi <= a.len(),
    ensures
        !a.subrange(lo, hi).contains(x),
{
    if a.subrange(lo, hi).contains(x) {
        let i = choose|i: int| 0 <= i < hi - lo && a.subrange(lo, hi)[i] == x;
        assert(a[lo + i] == x);
    }
}

/// The pieces of a text split at `sep` hold no `sep`, and hold only
/// characters of the text.
proof fn lemma_split_pieces(s: Seq<char>, sep: char, x: char)
    ensures
        split_by(s, sep).len() >= 1,
        free_of(split_by(s, sep), sep),
        !s.contains(x) ==> free_of(split_by(s, sep), x),
    decreases s.len(),
{
    if s.len() > 0 {
        let t = s.drop_last();
        lemma_split_pieces(t, sep, x);
        let p = split_by(t, sep);
        let c = s.last();
        if !s.contains(x) {
            assert(!t.contains(x)) by {
                if t.contains(x) {
                    let i = choose|i: int| 0 <= i < t.len() && t[i] == x;
                    assert(s[i] == x);
                }
            }
        }
        if c == sep {
            let q = p.push(Seq::<char>::empty());
            assert forall|i: int| 0 <= i < q.len() implies !(#[trigger] q[i]).contains(sep) && (!s.contains(x) ==> !q[i].contains(x)) by {
                if i < p.len() {
                    assert(q[i] == p[i]);
                }
            }
        } else {
            let q = p.update(p.len() - 1, p.last().push(c));
            assert forall|i: int| 0 <= i < q.len() implies !(#[trigger] q[i]).contains(sep) && (!s.contains(x) ==> !q[i].contains(x)) by {
                if i < p.len() - 1 {
                    assert(q[i] == p[i]);
                } else {
                    assert(q[i] == p[p.len() - 1] + seq![c]);
                    lemma_concat_free(p[p.len() - 1], seq![c], sep);
                    if !s.contains(x) {
                        assert(s[s.len() - 1] == c);
                        lemma_concat_free(p[p.len() - 1], seq![c], x);
                    }
                }
            }
        }
    }
}

/// `without_cr` leaves no carriage return.
proof fn lemma_without_cr_free(t: Seq<char>)
    ensures
        !without_cr(t).contains('\r'),
    decreases t.len(),
{
    if t.len() > 0 {
        lemma_without_cr_free(t.drop_last());
        let tail: Seq<char> = if t.last() == '\r' { Seq::<char>::empty() } else { seq![t.last()] };
        lemma_concat_free(without_cr(t.drop_last()), tail, '\r');
    }
}

/// `unify_breaks` leaves no carriage return.
proof fn lemma_unify_free(s: Seq<char>)
    ensures
        !unify_breaks(s).contains('\r'),
    decreases s.len(),
{
    if s.len() > 0 {
        if s[0] == '\r' && s.len() > 1 && s[1] == '\n' {
            lemma_unify_free(s.skip(2));
            lemma_concat_free(seq!['\n'], unify_breaks(s.skip(2)), '\r');
        } else if s[0] == '\r' {
            lemma_unify_free(s.skip(1));
            lemma_concat_free(seq!['\n'], unify_breaks(s.skip(1)), '\r');
        } else {
            lemma_unify_free(s.skip(1));
            lemma_concat_free(seq![s[0]], unify_breaks(s.skip(1)), '\r');
        }
    }
}

/// Inserting text keeps at least one line; the lines hold no line feed, and
/// hold `x` only where the old lines or the text did.
proof fn lemma_insert_keeps(ls: Seq<Seq<char>>, pos: TextPos, s: Seq<char>, x: char)
    requires
        pos.line < ls.len(),
    ensures
        spec_insert_str(ls, pos, s).0.len() >= 1,
        free_of(ls, '\n') ==> free_of(spec_insert_str(ls, pos, s).0, '\n'),
        free_of(ls, x) && !s.contains(x) ==> free_of(spec_insert_str(ls, pos, s).0, x),
{
    let l = ls[pos.line as int];
    let c = clamp_col(l, pos.col);
    let p = split_nl(s);
    lemma_split_pieces(s, '\n', x);
    let a = attach(p, l.take(c), l.skip(c));
    let r = ls.take(pos.line as int) + a + ls.skip(pos.line + 1);
    assert(r == spec_insert_str(ls, pos, s).0);
    assert forall|y: char| (y == '\n' && free_of(ls, '\n')) || (y == x && free_of(ls, x) && !s.contains(x)) implies free_of(r, y) by {
        assert(free_of(p, y));
        assert(!l.contains(y));
        lemma_sub_free(l, 0, c, y);
        lemma_sub_free(l, c, l.len() as int, y);
        assert(l.take(c) == l.subrange(0, c));
        assert(l.skip(c) == l.subrange(c, l.len() as int));
        let q = p.update(0, l.take(c) + p[0]);
        lemma_concat_free(l.take(c), p[0], y);
        assert(free_of(q, y)) by {
            assert forall|i: int| 0 <= i < q.len() implies !(#[trigger] q[i]).contains(y) by {
                if i != 0 {
                    assert(q[i] == p[i]);
                }
            }
        }
        lemma_concat_free(q.last(), l.skip(c), y);
        assert(free_of(a, y)) by {
            assert forall|i: int| 0 <= i < a.len() implies !(#[trigger] a[i]).contains(y) by {
                if i != a.len() - 1 {
                    assert(a[i] == q[i]);
                }
            }
        }
        assert forall|i: int| 0 <= i < r.len() implies !(#[trigger] r[i]).contains(y) by {
            if i < pos.line {
                assert(r[i] == ls[i]);
            } else if i < pos.line + a.len() {
                assert(r[i] == a[i - pos.line]);
            } else {
                assert(r[i] == ls[i - a.len() + 1]);
            }
        }
    }
}

/// Deleting between two positions of the document keeps at least one line
/// and keeps the lines free of whatever they were free of.
proof fn lemma_delete_keeps(ls: Seq<Seq<char>>, a: TextPos, b: TextPos, x: char)
    requires
        a.line < ls.len(),
        b.line < ls.len(),
    ensures
        spec_delete_range(ls, a, b).0.len() >= 1,
        free_of(ls, x) ==> free_of(spec_delete_range(ls, a, b).0, x),
{
    let lo = crate::edit::pos_lo(a, b);
    let hi = crate::edit::pos_hi(a, b);
    let r = spec_delete_range(ls, a, b).0;
    if free_of(ls, x) && lo != hi {
        if lo.line == hi.line {
            let l = ls[lo.line as int];
            let c1 = clamp_col(l, lo.col);
            let c2 = clamp_col(l, hi.col);
            assert(!l.contains(x));
            lemma_sub_free(l, 0, c1, x);
            lemma_sub_free(l, c2, l.len() as int, x);
            assert(l.take(c1) == l.subrange(0, c1));
            assert(l.skip(c2) == l.subrange(c2, l.len() as int));
            lemma_concat_free(l.take(c1), l.skip(c2), x);
            assert forall|i: int| 0 <= i < r.len() implies !(#[trigger] r[i]).contains(x) by {
                if i != lo.line {
                    assert(r[i] == ls[i]);
                }
            }
        } else {
            let la = ls[lo.line as int];
            let lb = ls[hi.line as int];
            let c1 = clamp_col(la, lo.col);
            let c2 = clamp_col(lb, hi.col);
            assert(!la.contains(x));
            assert(!lb.contains(x));
            lemma_sub_free(la, 0, c1, x);
            lemma_sub_free(lb, c2, lb.len() as int, x);
            assert(la.take(c1) == la.subrange(0, c1));
            assert(lb.skip(c2) == lb.subrange(c2, lb.len() as int));
            lemma_concat_free(la.take(c1), lb.skip(c2), x);
            let m = la.take(c1) + lb.skip(c2);
            assert forall|i: int| 0 <= i < r.len() implies !(#[trigger] r[i]).contains(x) by {
                if i < lo.line {
                    assert(r[i] == ls[i]);
                } else if i == lo.line {
                    assert(r[i] == m);
                } else {
                    assert(r[i] == ls[i - lo.line - 1 + hi.line + 1]);
                }
            }
        }
    }
}

/// The lines an intent starts from: one empty line for an empty document.
spec fn base(st: EditorState) -> Seq<Seq<char>> {
    if st.lines.len() == 0 { seq![Seq::<char>::empty()] } else { st.lines }
}

/// The lines and caret after the selection (if any) is deleted.
spec fn del_of(st: EditorState) -> (Seq<Seq<char>>, TextPos) {
    let ls = base(st);
    match clamped_sel(ls, st.sel) {
        Some(s) => spec_delete_range(ls, s.0, s.1),
        None => (ls, spec_clamp_pos(ls, st.caret)),
    }
}

proof fn lemma_base(st: EditorState, y: char)
    ensures
        base(st).len() >= 1,
        free_of(st.lines, y) ==> free_of(base(st), y),
        spec_clamp_pos(base(st), st.caret).line < base(st).len(),
{
    let ls = base(st);
    if st.lines.len() == 0 {
        assert forall|i: int| 0 <= i < ls.len() implies !(#[trigger] ls[i]).contains(y) by {
            assert(ls[i] == Seq::<char>::empty());
        }
    }
}

proof fn lemma_del(st: EditorState, y: char)
    ensures
        del_of(st).0.len() >= 1,
        free_of(st.lines, y) ==> free_of(del_of(st).0, y),
        del_of(st).1.line < del_of(st).0.len(),
{
    lemma_base(st, y);
    let ls = base(st);
    match clamped_sel(ls, st.sel) {
        Some(s) => {
            let a = spec_clamp_pos(ls, st.sel.unwrap().0);
            let b = spec_clamp_pos(ls, st.sel.unwrap().1);
            lemma_delete_keeps(ls, a, b, y);
            let lo = crate::edit::pos_lo(a, b);
            let hi = crate::edit::pos_hi(a, b);
            if lo.line != hi.line {
                assert(spec_delete_range(ls, a, b).0.len() == ls.len() - (hi.line - lo.line));
            }
        },
        None => {},
    }
}

/// Enter keeps what the lines were free of.
proof fn lemma_split_keeps(ls: Seq<Seq<char>>, pos: TextPos, y: char)
    requires
        pos.line < ls.len(),
    ensures
        spec_split_line(ls, pos).len() >= 1,
        free_of(ls, y) ==> free_of(spec_split_line(ls, pos), y),
{
    let l = ls[pos.line as int];
    let c = clamp_col(l, pos.col);
    let r = spec_split_line(ls, pos);
    if free_of(ls, y) {
        assert(!l.contains(y));
        lemma_sub_free(l, 0, c, y);
        lemma_sub_free(l, c, l.len() as int, y);
        assert(l.take(c) == l.subrange(0, c));
        assert(l.skip(c) == l.subrange(c, l.len() as int));
        assert forall|i: int| 0 <= i < r.len() implies !(#[trigger] r[i]).contains(y) by {
            if i < pos.line {
                assert(r[i] == ls[i]);
            } else if i == pos.line {
                assert(r[i] == l.take(c));
            } else if i == pos.line + 1 {
                assert(r[i] == l.skip(c));
            } else {
                assert(r[i] == ls[i - 1]);
            }
        }
    }
}

/// Backspace and Delete without a selection keep what the lines were free of.
proof fn lemma_erase_keeps(ls: Seq<Seq<char>>, caret: TextPos, y: char)
    requires
        ls.len() >= 1,
        caret.line < ls.len(),
        caret.col <= ls[caret.line as int].len(),
    ensures
        spec_backspace(ls, caret).0.len() >= 1,
        free_of(ls, y) ==> free_of(spec_backspace(ls, caret).0, y),
        spec_delete_range(ls, caret, spec_caret_move(ls, caret, CaretMove::Right)).0.len() >= 1,
        free_of(ls, y) ==> free_of(spec_delete_range(ls, caret, spec_caret_move(ls, caret, CaretMove::Right)).0, y),
{
    if caret.col > 0 {
        lemma_delete_keeps(ls, TextPos { line: caret.line, col: (caret.col - 1) as usize }, caret, y);
    } else if caret.line > 0 {
        lemma_delete_keeps(ls, TextPos { line: (caret.line - 1) as usize, col: ls[caret.line - 1].len() as usize }, caret, y);
    }
    let next = spec_caret_move(ls, caret, CaretMove::Right);
    assert(spec_clamp_pos(ls, caret) == caret);
    assert(next.line < ls.len());
    lemma_delete_keeps(ls, caret, next, y);
}

/// Every text-mode intent leaves at least one line, and leaves the lines
/// free of line feeds, and of carriage returns, where they were before:
/// typed and pasted text is split at its line breaks and loses its carriage
/// returns.
#[verifier::spinoff_prover]
#[verifier::rlimit(40)]
pub proof fn lemma_text_intent_keeps_lines(st: EditorState, intent: TextEditIntent)
    ensures
        spec_text_intent(st, intent).0.lines.len() >= 1,
        free_of(st.lines, '\n') ==> free_of(spec_text_intent(st, intent).0.lines, '\n'),
        free_of(st.lines, '\r') ==> free_of(spec_text_intent(st, intent).0.lines, '\r'),
{
    lemma_base(st, '\n');
    lemma_base(st, '\r');
    lemma_del(st, '\n');
    lemma_del(st, '\r');
    let ls = base(st);
    let caret = spec_clamp_pos(ls, st.caret);
    let d = del_of(st);
    match intent {
        TextEditIntent::Insert(t) => {
            lemma_without_cr_free(t@);
            if without_cr(t@).len() > 0 {
                lemma_insert_keeps(d.0, d.1, without_cr(t@), '\r');
            }
        },
        TextEditIntent::Paste(p) => {
            lemma_unify_free(p@);
            if unify_breaks(p@).len() > 0 {
                lemma_insert_keeps(d.0, d.1, unify_breaks(p@), '\r');
            }
        },
        TextEditIntent::Newline => {
            lemma_split_keeps(d.0, d.1, '\n');
            lemma_split_keeps(d.0, d.1, '\r');
        },
        TextEditIntent::Backspace => {
            lemma_erase_keeps(ls, caret, '\n');
            lemma_erase_keeps(ls, caret, '\r');
        },
        TextEditIntent::Delete => {
            lemma_erase_keeps(ls, caret, '\n');
            lemma_erase_keeps(ls, caret, '\r');
        },
        _ => {},
    }
}

/// A text-mode intent that changes the lines marks the buffer dirty, and no
/// intent clears the mark.
pub proof fn lemma_text_intent_marks_changes(st: EditorState, intent: TextEditIntent)
    requires
        st.lines.len() > 0,
    ensures
        spec_text_intent(st, intent).0.lines != st.lines ==> spec_text_intent(st, intent).0.dirty,
        st.dirty ==> spec_text_intent(st, intent).0.dirty,
{
    let ls = st.lines;
    let caret = spec_clamp_pos(ls, st.caret);
    match intent {
        TextEditIntent::Backspace => {
            if clamped_sel(ls, st.sel) is None {
                let r = spec_backspace(ls, caret);
                if caret.col > 0 {
                    assert(r.1 == TextPos { line: caret.line, col: (caret.col - 1) as usize });
                } else if caret.line > 0 {
                    assert(r.1.line == caret.line - 1);
                }
            }
        },
        _ => {},
    }
}

} // verus!
