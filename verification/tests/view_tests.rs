use vweditor::edit::{backspace, load_edit_buffer, EditBuffer, TextPos};
use vweditor::parse::Encoding;
use vweditor::view::{
    apply_caret_move, apply_cell_menu_action, apply_text_intent, backspace_or_delete_changed, clamp_pos,
    next_caret_and_sel, next_cell_drag_active, normalize_rect, rect_contains, sel_span_on_line, whole_document_sel,
    CaretMove, CellMenuAction, TextEditIntent,
};

#[test]
fn normalize_rect_orders_corners() {
    assert_eq!(normalize_rect((5, 4, 2, 1)), (2, 1, 5, 4));
    assert_eq!(normalize_rect((2, 1, 5, 4)), (2, 1, 5, 4));
    assert_eq!(normalize_rect((2, 4, 5, 1)), (2, 1, 5, 4));
}

#[test]
fn rect_contains_respects_unnormalized_input() {
    let sel = (5, 4, 2, 1);
    assert!(rect_contains(sel, 3, 2));
    assert!(rect_contains(sel, 2, 1));
    assert!(rect_contains(sel, 5, 4));
    assert!(!rect_contains(sel, 1, 2), "row outside");
    assert!(!rect_contains(sel, 3, 0), "column outside");
    assert!(!rect_contains(sel, 6, 4), "row outside");
}

#[test]
fn cell_drag_active_latches_only_on_cell_press() {
    assert!(!next_cell_drag_active(true, false, false));
    assert!(!next_cell_drag_active(true, false, true));
    assert!(!next_cell_drag_active(false, true, false));
    assert!(next_cell_drag_active(false, true, true));
    assert!(next_cell_drag_active(true, true, false));
    let after_release = next_cell_drag_active(true, false, false);
    assert!(!next_cell_drag_active(after_release, true, false));
}

fn v(strs: &[&str]) -> Vec<String> {
    strs.iter().map(|s| s.to_string()).collect()
}

fn tp(line: usize, col: usize) -> TextPos {
    TextPos { line, col }
}

#[test]
fn clamp_pos_bounds_line_and_col() {
    let lines = v(&["ab", "cdef"]);
    assert_eq!(clamp_pos(&lines, tp(9, 9)), tp(1, 4));
    assert_eq!(clamp_pos(&lines, tp(0, 9)), tp(0, 2));
    assert_eq!(clamp_pos(&lines, tp(1, 2)), tp(1, 2));
    assert_eq!(clamp_pos(&[], tp(3, 3)), tp(0, 0));
}

#[test]
fn caret_move_crosses_line_boundaries() {
    let lines = v(&["ab", "cd"]);
    assert_eq!(apply_caret_move(&lines, tp(0, 2), CaretMove::Right), tp(1, 0));
    assert_eq!(apply_caret_move(&lines, tp(1, 0), CaretMove::Left), tp(0, 2));
    assert_eq!(apply_caret_move(&lines, tp(0, 0), CaretMove::Left), tp(0, 0));
    assert_eq!(apply_caret_move(&lines, tp(1, 2), CaretMove::Right), tp(1, 2));
}

#[test]
fn caret_move_up_down_clamps_column() {
    let lines = v(&["abcdef", "xy"]);
    assert_eq!(apply_caret_move(&lines, tp(0, 5), CaretMove::Down), tp(1, 2));
    assert_eq!(apply_caret_move(&lines, tp(0, 3), CaretMove::Up), tp(0, 0));
    assert_eq!(apply_caret_move(&lines, tp(1, 1), CaretMove::Down), tp(1, 2));
}

#[test]
fn caret_move_home_end() {
    let lines = v(&["hello"]);
    assert_eq!(apply_caret_move(&lines, tp(0, 3), CaretMove::Home), tp(0, 0));
    assert_eq!(apply_caret_move(&lines, tp(0, 1), CaretMove::End), tp(0, 5));
}

#[test]
fn shift_arrow_extends_keeping_anchor() {
    let lines = v(&["abcdef"]);
    let (c, s) = next_caret_and_sel(&lines, tp(0, 2), None, CaretMove::Right, true);
    assert_eq!(c, tp(0, 3));
    assert_eq!(s, Some((tp(0, 2), tp(0, 3))));
    let (c2, s2) = next_caret_and_sel(&lines, c, s, CaretMove::Right, true);
    assert_eq!(c2, tp(0, 4));
    assert_eq!(s2, Some((tp(0, 2), tp(0, 4))));
    let (_, s3) = next_caret_and_sel(&lines, tp(0, 3), s, CaretMove::Left, true);
    assert_eq!(s3, None);
}

#[test]
fn plain_arrow_collapses_selection_without_moving() {
    let lines = v(&["abcdef"]);
    let sel = Some((tp(0, 1), tp(0, 4)));
    assert_eq!(
        next_caret_and_sel(&lines, tp(0, 4), sel, CaretMove::Left, false),
        (tp(0, 1), None)
    );
    assert_eq!(
        next_caret_and_sel(&lines, tp(0, 4), sel, CaretMove::Right, false),
        (tp(0, 4), None)
    );
    let rev = Some((tp(0, 4), tp(0, 1)));
    assert_eq!(
        next_caret_and_sel(&lines, tp(0, 1), rev, CaretMove::Right, false),
        (tp(0, 4), None)
    );
}

#[test]
fn plain_arrow_moves_when_no_selection() {
    let lines = v(&["abc"]);
    assert_eq!(
        next_caret_and_sel(&lines, tp(0, 1), None, CaretMove::Right, false),
        (tp(0, 2), None)
    );
}

#[test]
fn select_all_spans_whole_document() {
    let lines = v(&["ab", "cde"]);
    assert_eq!(whole_document_sel(&lines), (tp(0, 0), tp(1, 3)));
    assert_eq!(whole_document_sel(&[]), (tp(0, 0), tp(0, 0)));
}

#[test]
fn sel_span_covers_first_middle_last_lines() {
    let a = tp(0, 2);
    let b = tp(2, 1);
    assert_eq!(sel_span_on_line(a, b, 0, 5), Some((2, 6)));
    assert_eq!(sel_span_on_line(a, b, 1, 3), Some((0, 4)));
    assert_eq!(sel_span_on_line(a, b, 2, 7), Some((0, 1)));
    assert_eq!(sel_span_on_line(a, b, 3, 4), None);
}

#[test]
fn sel_span_single_line_and_empty() {
    let a = tp(1, 1);
    let b = tp(1, 3);
    assert_eq!(sel_span_on_line(a, b, 1, 5), Some((1, 3)));
    assert_eq!(sel_span_on_line(a, a, 1, 5), None);
    assert_eq!(sel_span_on_line(tp(0, 0), tp(1, 0), 1, 5), None);
}

#[test]
fn backspace_at_origin_is_not_dirty() {
    let mut lines = v(&["ab", "cd"]);
    let before = tp(0, 0);
    let after = backspace(&mut lines, before);
    assert_eq!(lines, v(&["ab", "cd"]), "the buffer must not change");
    assert!(!backspace_or_delete_changed(false, before, after));
}

#[test]
fn backspace_that_deletes_is_dirty() {
    let mut lines = v(&["ab"]);
    let before = tp(0, 2);
    let after = backspace(&mut lines, before);
    assert_eq!(lines, v(&["a"]));
    assert!(backspace_or_delete_changed(false, before, after));

    let mut lines = v(&["ab", "cd"]);
    let before = tp(1, 0);
    let after = backspace(&mut lines, before);
    assert_eq!(lines, v(&["abcd"]));
    assert!(backspace_or_delete_changed(false, before, after));

    assert!(backspace_or_delete_changed(true, tp(0, 0), tp(0, 0)));
}

#[test]
fn delete_at_document_end_is_noop() {
    let lines = v(&["ab", "cd"]);
    let caret = tp(1, 2);
    assert_eq!(apply_caret_move(&lines, caret, CaretMove::Right), caret);
    let mid = tp(0, 2);
    assert_ne!(apply_caret_move(&lines, mid, CaretMove::Right), mid);
}

fn buffer(text: &str) -> EditBuffer {
    load_edit_buffer(text.as_bytes(), Encoding::Utf8)
}

#[test]
fn typing_replaces_the_selection_and_marks_dirty() {
    let mut buf = buffer("hello\nworld\n");
    let mut caret = tp(0, 5);
    let mut sel = Some((tp(0, 1), tp(0, 5)));
    let mut clip = String::new();
    let copied = apply_text_intent(&mut buf, &mut caret, &mut sel, &mut clip, TextEditIntent::Insert("ey".into()));
    assert_eq!(copied, None);
    assert_eq!(buf.lines, v(&["hey", "world"]));
    assert_eq!(caret, tp(0, 3));
    assert_eq!(sel, None);
    assert!(buf.dirty);
}

#[test]
fn newline_splits_the_line() {
    let mut buf = buffer("abcd");
    let mut caret = tp(0, 2);
    let mut sel = None;
    let mut clip = String::new();
    apply_text_intent(&mut buf, &mut caret, &mut sel, &mut clip, TextEditIntent::Newline);
    assert_eq!(buf.lines, v(&["ab", "cd"]));
    assert_eq!(caret, tp(1, 0));
}

#[test]
fn backspace_at_origin_leaves_buffer_clean() {
    let mut buf = buffer("ab\ncd");
    let mut caret = tp(0, 0);
    let mut sel = None;
    let mut clip = String::new();
    apply_text_intent(&mut buf, &mut caret, &mut sel, &mut clip, TextEditIntent::Backspace);
    assert_eq!(buf.lines, v(&["ab", "cd"]));
    assert!(!buf.dirty);
}

#[test]
fn delete_joins_with_next_line() {
    let mut buf = buffer("ab\ncd");
    let mut caret = tp(0, 2);
    let mut sel = None;
    let mut clip = String::new();
    apply_text_intent(&mut buf, &mut caret, &mut sel, &mut clip, TextEditIntent::Delete);
    assert_eq!(buf.lines, v(&["abcd"]));
    assert_eq!(caret, tp(0, 2));
    assert!(buf.dirty);
}

#[test]
fn delete_at_end_changes_nothing() {
    let mut buf = buffer("ab\ncd");
    let mut caret = tp(1, 2);
    let mut sel = None;
    let mut clip = String::new();
    apply_text_intent(&mut buf, &mut caret, &mut sel, &mut clip, TextEditIntent::Delete);
    assert_eq!(buf.lines, v(&["ab", "cd"]));
    assert!(!buf.dirty);
}

#[test]
fn copy_cut_paste_through_the_clipboard() {
    let mut buf = buffer("hello\nworld");
    let mut caret = tp(1, 2);
    let mut sel = Some((tp(0, 3), tp(1, 2)));
    let mut clip = String::new();
    let copied = apply_text_intent(&mut buf, &mut caret, &mut sel, &mut clip, TextEditIntent::Copy);
    assert_eq!(copied.as_deref(), Some("lo\nwo"));
    assert_eq!(clip, "lo\nwo");
    assert!(!buf.dirty);
    let cut = apply_text_intent(&mut buf, &mut caret, &mut sel, &mut clip, TextEditIntent::Cut);
    assert_eq!(cut.as_deref(), Some("lo\nwo"));
    assert_eq!(buf.lines, v(&["helrld"]));
    assert_eq!(caret, tp(0, 3));
    assert_eq!(sel, None);
    apply_text_intent(&mut buf, &mut caret, &mut sel, &mut clip, TextEditIntent::Paste("lo\r\nwo".into()));
    assert_eq!(buf.lines, v(&["hello", "world"]));
    assert_eq!(caret, tp(1, 2));
}

#[test]
fn select_all_then_move_collapses() {
    let mut buf = buffer("ab\ncde");
    let mut caret = tp(0, 1);
    let mut sel = None;
    let mut clip = String::new();
    apply_text_intent(&mut buf, &mut caret, &mut sel, &mut clip, TextEditIntent::SelectAll);
    assert_eq!(sel, Some((tp(0, 0), tp(1, 3))));
    assert_eq!(caret, tp(1, 3));
    apply_text_intent(&mut buf, &mut caret, &mut sel, &mut clip, TextEditIntent::Move(CaretMove::Left, false));
    assert_eq!(caret, tp(0, 0));
    assert_eq!(sel, None);
}

#[test]
fn cell_menu_copy_cut_paste() {
    let mut buf = buffer("a,b,c\nd,e,f\n");
    let mut cell_sel = Some((1, 1, 0, 0));
    let mut editing = None;
    let mut clip = String::new();
    let copied = apply_cell_menu_action(&mut buf, &mut cell_sel, &mut editing, b',', &mut clip, CellMenuAction::Copy);
    assert_eq!(copied.as_deref(), Some("a\tb\nd\te"));
    assert_eq!(clip, "a\tb\nd\te");
    assert!(!buf.dirty);
    let cut = apply_cell_menu_action(&mut buf, &mut cell_sel, &mut editing, b',', &mut clip, CellMenuAction::Cut);
    assert_eq!(cut.as_deref(), Some("a\tb\nd\te"));
    assert_eq!(buf.lines, v(&[",,c", ",,f"]));
    assert!(buf.dirty);
    let mut at = Some((0, 1, 0, 1));
    apply_cell_menu_action(&mut buf, &mut at, &mut editing, b',', &mut clip, CellMenuAction::Paste);
    assert_eq!(buf.lines, v(&[",a,b", ",d,e"]));
}

#[test]
fn cell_menu_rows() {
    let mut buf = buffer("a\nb\nc");
    let mut cell_sel = Some((1, 0, 1, 0));
    let mut editing = Some((1, 0));
    let mut clip = String::new();
    apply_cell_menu_action(&mut buf, &mut cell_sel, &mut editing, b',', &mut clip, CellMenuAction::InsertRowAbove);
    assert_eq!(buf.lines, v(&["a", "", "b", "c"]));
    let mut sel2 = Some((2, 0, 2, 0));
    apply_cell_menu_action(&mut buf, &mut sel2, &mut editing, b',', &mut clip, CellMenuAction::InsertRowBelow);
    assert_eq!(buf.lines, v(&["a", "", "b", "", "c"]));
    let mut all = Some((0, 0, 4, 0));
    apply_cell_menu_action(&mut buf, &mut all, &mut editing, b',', &mut clip, CellMenuAction::DeleteRows);
    assert_eq!(buf.lines, v(&[""]));
}

#[test]
fn cell_menu_without_selection_does_nothing() {
    let mut buf = buffer("a,b");
    let mut cell_sel = None;
    let mut editing = None;
    let mut clip = "x".to_string();
    let r = apply_cell_menu_action(&mut buf, &mut cell_sel, &mut editing, b',', &mut clip, CellMenuAction::Clear);
    assert_eq!(r, None);
    assert_eq!(buf.lines, v(&["a,b"]));
    assert!(!buf.dirty);
}

#[test]
fn pasted_and_typed_breaks_become_lines_without_carriage_returns() {
    let mut buf = buffer("xy\n");
    let mut caret = tp(0, 1);
    let mut sel = None;
    let mut clip = String::new();
    apply_text_intent(&mut buf, &mut caret, &mut sel, &mut clip, TextEditIntent::Paste("a\r\nb\rc".into()));
    assert_eq!(buf.lines, v(&["xa", "b", "cy"]));
    apply_text_intent(&mut buf, &mut caret, &mut sel, &mut clip, TextEditIntent::Insert("1\r\n2".into()));
    assert!(buf.lines.iter().all(|l| !l.contains('\n') && !l.contains('\r')));
    assert!(!buf.lines.is_empty());
}
