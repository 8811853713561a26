use vweditor::edit::{
    apply_permutation, backspace, cells_to_tsv, clear_cells, delete_range, insert_char, insert_row, insert_str,
    inverse_of, load_edit_buffer, normalize, paste_tsv, remove_row, selection_text, set_cell, split_line, EditOp,
    Newline, TextPos, UndoStack, UNDO_LIMIT,
};
use vweditor::parse::{split_fields, Encoding};

fn v(strs: &[&str]) -> Vec<String> {
    strs.iter().map(|s| s.to_string()).collect()
}

#[test]
fn load_lf_basic() {
    let buf = load_edit_buffer(b"a\nb\nc\n", Encoding::Utf8);
    assert_eq!(buf.lines, vec!["a", "b", "c"]);
    assert_eq!(buf.newline, Newline::Lf);
    assert!(!buf.dirty);
}

#[test]
fn load_crlf_detected() {
    let buf = load_edit_buffer(b"a\r\nb\r\n", Encoding::Utf8);
    assert_eq!(buf.lines, vec!["a", "b"]);
    assert_eq!(buf.newline, Newline::CrLf);
}

#[test]
fn load_no_trailing_newline() {
    let buf = load_edit_buffer(b"a\nb", Encoding::Utf8);
    assert_eq!(buf.lines, vec!["a", "b"]);
}

#[test]
fn load_empty_file_is_one_empty_line() {
    let buf = load_edit_buffer(b"", Encoding::Utf8);
    assert_eq!(buf.lines, vec![""]);
    assert_eq!(buf.newline, Newline::Lf);
}

#[test]
fn load_cp949_decodes() {
    let buf = load_edit_buffer(&[0xB0, 0xA1, 0xB3, 0xAA, b'\n'], Encoding::Cp949);
    assert_eq!(buf.lines, vec!["가나"]);
}

#[test]
fn load_keeps_lone_carriage_return_inside_a_line() {
    let buf = load_edit_buffer(b"a\rb\nc\r", Encoding::Utf8);
    assert_eq!(buf.lines, vec!["a\rb", "c"]);
    assert_eq!(buf.undo.len(), 0);
}

#[test]
fn insert_char_mid_line() {
    let mut lines = v(&["abc"]);
    let p = insert_char(&mut lines, TextPos { line: 0, col: 1 }, 'X');
    assert_eq!(lines, v(&["aXbc"]));
    assert_eq!(p, TextPos { line: 0, col: 2 });
}

#[test]
fn split_line_enter() {
    let mut lines = v(&["abcd"]);
    let p = split_line(&mut lines, TextPos { line: 0, col: 2 });
    assert_eq!(lines, v(&["ab", "cd"]));
    assert_eq!(p, TextPos { line: 1, col: 0 });
}

#[test]
fn backspace_mid_line() {
    let mut lines = v(&["abc"]);
    let p = backspace(&mut lines, TextPos { line: 0, col: 2 });
    assert_eq!(lines, v(&["ac"]));
    assert_eq!(p, TextPos { line: 0, col: 1 });
}

#[test]
fn backspace_at_line_start_merges() {
    let mut lines = v(&["ab", "cd"]);
    let p = backspace(&mut lines, TextPos { line: 1, col: 0 });
    assert_eq!(lines, v(&["abcd"]));
    assert_eq!(p, TextPos { line: 0, col: 2 });
}

#[test]
fn backspace_at_origin_noop() {
    let mut lines = v(&["ab"]);
    let p = backspace(&mut lines, TextPos { line: 0, col: 0 });
    assert_eq!(lines, v(&["ab"]));
    assert_eq!(p, TextPos { line: 0, col: 0 });
}

#[test]
fn delete_range_within_line() {
    let mut lines = v(&["abcdef"]);
    let p = delete_range(&mut lines, TextPos { line: 0, col: 1 }, TextPos { line: 0, col: 4 });
    assert_eq!(lines, v(&["aef"]));
    assert_eq!(p, TextPos { line: 0, col: 1 });
}

#[test]
fn delete_range_multiline() {
    let mut lines = v(&["abc", "XXX", "defg"]);
    let p = delete_range(&mut lines, TextPos { line: 0, col: 1 }, TextPos { line: 2, col: 2 });
    assert_eq!(lines, v(&["afg"]));
    assert_eq!(p, TextPos { line: 0, col: 1 });
}

#[test]
fn insert_str_with_newlines() {
    let mut lines = v(&["ad"]);
    let p = insert_str(&mut lines, TextPos { line: 0, col: 1 }, "b\nc");
    assert_eq!(lines, v(&["ab", "cd"]));
    assert_eq!(p, TextPos { line: 1, col: 1 });
}

#[test]
fn selection_text_single_line() {
    let lines = v(&["abcdef"]);
    let s = selection_text(&lines, TextPos { line: 0, col: 1 }, TextPos { line: 0, col: 4 });
    assert_eq!(s, "bcd");
}

#[test]
fn selection_text_multiline() {
    let lines = v(&["abc", "XXX", "defg"]);
    let s = selection_text(&lines, TextPos { line: 0, col: 1 }, TextPos { line: 2, col: 2 });
    assert_eq!(s, "bc\nXXX\nde");
}

#[test]
fn selection_text_empty_range() {
    let lines = v(&["abc"]);
    let s = selection_text(&lines, TextPos { line: 0, col: 2 }, TextPos { line: 0, col: 2 });
    assert_eq!(s, "");
}

#[test]
fn selection_text_reversed_is_normalized() {
    let lines = v(&["ab", "cd"]);
    let s = selection_text(&lines, TextPos { line: 1, col: 1 }, TextPos { line: 0, col: 1 });
    assert_eq!(s, "b\nc");
}

#[test]
fn selection_text_two_adjacent_lines() {
    let lines = v(&["ab", "cd", "ef"]);
    let s = selection_text(&lines, TextPos { line: 0, col: 2 }, TextPos { line: 1, col: 0 });
    assert_eq!(s, "\n");
}

#[test]
fn selection_text_multibyte_chars() {
    let lines = v(&["가나다라"]);
    let s = selection_text(&lines, TextPos { line: 0, col: 1 }, TextPos { line: 0, col: 3 });
    assert_eq!(s, "나다");
}

#[test]
fn selection_text_mirrors_delete_range() {
    let orig = v(&["hello", "world", "again"]);
    let a = TextPos { line: 0, col: 2 };
    let b = TextPos { line: 2, col: 3 };
    let cut = selection_text(&orig, a, b);
    let mut lines = orig.clone();
    let p = delete_range(&mut lines, a, b);
    let end = insert_str(&mut lines, p, &cut);
    assert_eq!(lines, orig);
    assert_eq!(end, b);
}

#[test]
fn cut_then_paste_roundtrip_on_many_ranges() {
    let orig = v(&["한글abc", "", "xyz", "last line"]);
    for l0 in 0..orig.len() {
        for l1 in l0..orig.len() {
            let n0 = orig[l0].chars().count();
            let n1 = orig[l1].chars().count();
            for c0 in 0..=n0 {
                for c1 in 0..=n1 {
                    if l0 == l1 && c1 < c0 {
                        continue;
                    }
                    let a = TextPos { line: l0, col: c0 };
                    let b = TextPos { line: l1, col: c1 };
                    let cut = selection_text(&orig, a, b);
                    let mut lines = orig.clone();
                    let p = delete_range(&mut lines, a, b);
                    assert_eq!(p, a);
                    let end = insert_str(&mut lines, p, &cut);
                    assert_eq!(lines, orig, "range {a:?}..{b:?}");
                    assert_eq!(end, b);
                }
            }
        }
    }
}

#[test]
fn normalize_swaps_when_reversed() {
    let a = TextPos { line: 2, col: 0 };
    let b = TextPos { line: 1, col: 3 };
    assert_eq!(normalize(a, b), (b, a));
    assert_eq!(normalize(b, a), (b, a));
}

#[test]
fn set_cell_replaces_field() {
    let mut lines = v(&["a,b,c"]);
    set_cell(&mut lines, 0, 1, "Z", b',');
    assert_eq!(lines, v(&["a,Z,c"]));
}

#[test]
fn set_cell_pads_missing_columns() {
    let mut lines = v(&["a,b"]);
    set_cell(&mut lines, 0, 3, "Z", b',');
    assert_eq!(lines, v(&["a,b,,Z"]));
}

#[test]
fn set_cell_quotes_when_value_has_delim() {
    let mut lines = v(&["a,b"]);
    set_cell(&mut lines, 0, 0, "x,y", b',');
    assert_eq!(lines, v(&["\"x,y\",b"]));
}

#[test]
fn set_cell_strips_newlines_from_value() {
    let mut lines = v(&["a,b"]);
    set_cell(&mut lines, 0, 0, "x\ny", b',');
    assert_eq!(lines, v(&["x y,b"]));
    assert!(!lines[0].contains('\n'));
}

#[test]
fn set_cell_strips_carriage_return() {
    let mut lines = v(&["a,b"]);
    set_cell(&mut lines, 0, 1, "p\r\nq", b',');
    assert_eq!(lines, v(&["a,p  q"]));
}

#[test]
fn clear_cells_rectangle() {
    let mut lines = v(&["a,b,c", "d,e,f", "g,h,i"]);
    clear_cells(&mut lines, 0, 0, 1, 1, b',');
    assert_eq!(lines, v(&[",,c", ",,f", "g,h,i"]));
}

#[test]
fn clear_cells_skips_already_empty_rows_byte_exactly() {
    let mut lines = v(&["\"a\"b,,c", ",,", "x,y,z"]);
    let before = lines.clone();
    clear_cells(&mut lines, 0, 1, 1, 1, b',');
    assert_eq!(lines[0], before[0], "a row already blank there is left alone");
    assert_eq!(lines[1], before[1], "a row already blank there is left alone");
    assert_eq!(lines[2], before[2], "rows outside the range stay");
}

#[test]
fn clear_cells_still_clears_non_empty() {
    let mut lines = v(&["a,b,c", "d,,f", "g,h,i"]);
    clear_cells(&mut lines, 0, 1, 2, 1, b',');
    assert_eq!(lines, v(&["a,,c", "d,,f", "g,,i"]));
}

#[test]
fn insert_and_remove_row() {
    let mut lines = v(&["a", "b"]);
    insert_row(&mut lines, 1, String::new());
    assert_eq!(lines, v(&["a", "", "b"]));
    remove_row(&mut lines, 1);
    assert_eq!(lines, v(&["a", "b"]));
}

#[test]
fn remove_last_row_keeps_one_empty() {
    let mut lines = v(&["only"]);
    remove_row(&mut lines, 0);
    assert_eq!(lines, v(&[""]));
}

#[test]
fn insert_row_past_end_appends() {
    let mut lines = v(&["a"]);
    insert_row(&mut lines, 9, "z".to_string());
    assert_eq!(lines, v(&["a", "z"]));
    remove_row(&mut lines, 9);
    assert_eq!(lines, v(&["a", "z"]));
}

#[test]
fn cells_to_tsv_basic() {
    let lines = v(&["a,b,c", "d,e,f"]);
    let s = cells_to_tsv(&lines, 0, 0, 1, 1, b',');
    assert_eq!(s, "a\tb\nd\te");
}

#[test]
fn cells_to_tsv_single_column_matches_split_fields() {
    let lines = v(&["a,b,c", "d,e,f", "\"x,y\",z,w"]);
    for col in 0..3 {
        let fast = cells_to_tsv(&lines, 0, col, 2, col, b',');
        let mut want = String::new();
        for (i, l) in lines.iter().enumerate() {
            if i > 0 {
                want.push('\n');
            }
            let f = split_fields(l, b',');
            want.push_str(f.get(col).map(|s| s.as_str()).unwrap_or(""));
        }
        assert_eq!(fast, want, "col {col}");
    }
}

#[test]
fn cells_to_tsv_matches_split_fields_on_tricky_quoting() {
    let lines = v(&["\"a\"\"b\",z", "\"\",z", ",z", "\"only\",z", "\"\"\"\",z"]);
    for col in 0..2 {
        let fast = cells_to_tsv(&lines, 0, col, lines.len() - 1, col, b',');
        let mut want = String::new();
        for (i, l) in lines.iter().enumerate() {
            if i > 0 {
                want.push('\n');
            }
            let f = split_fields(l, b',');
            want.push_str(f.get(col).map(|s| s.as_str()).unwrap_or(""));
        }
        assert_eq!(fast, want, "col {col}");
    }
}

#[test]
fn cells_to_tsv_matches_split_fields_exhaustively() {
    const ALPHABET: [char; 3] = ['a', '"', ','];
    let mut checked = 0usize;
    for len in 0..=5usize {
        let total = ALPHABET.len().pow(len as u32);
        for n in 0..total {
            let mut n = n;
            let mut s = String::new();
            for _ in 0..len {
                s.push(ALPHABET[n % ALPHABET.len()]);
                n /= ALPHABET.len();
            }
            let lines = vec![s.clone()];
            let want = split_fields(&s, b',');
            for col in 0..want.len() {
                let got = cells_to_tsv(&lines, 0, col, 0, col, b',');
                assert_eq!(got, want[col], "input {s:?} col {col}");
                checked += 1;
            }
        }
    }
    assert!(checked > 500, "the exhaustive check really ran");
}

#[test]
fn paste_tsv_overwrites_grid() {
    let mut lines = v(&["a,b,c", "d,e,f"]);
    paste_tsv(&mut lines, 0, 1, "X\tY\nZ\tW", b',');
    assert_eq!(lines, v(&["a,X,Y", "d,Z,W"]));
}

#[test]
fn paste_tsv_extends_rows_and_cols() {
    let mut lines = v(&["a"]);
    paste_tsv(&mut lines, 0, 0, "1\t2\n3\t4", b',');
    assert_eq!(lines, v(&["1,2", "3,4"]));
}

#[test]
fn paste_tsv_sanitizes_carriage_return() {
    let mut lines = v(&["a,b"]);
    paste_tsv(&mut lines, 0, 0, "X\r\nY", b',');
    assert!(!lines.iter().any(|l| l.contains('\r')));
    assert!(!lines.iter().any(|l| l.contains('\n')));
}

#[test]
fn apply_permutation_reorders_data_rows() {
    let mut lines = v(&["name", "banana", "apple"]);
    apply_permutation(&mut lines, &[2, 1], 1);
    assert_eq!(lines, v(&["name", "apple", "banana"]));
}

#[test]
fn apply_permutation_no_header() {
    let mut lines = v(&["b", "a", "c"]);
    apply_permutation(&mut lines, &[1, 0, 2], 0);
    assert_eq!(lines, v(&["a", "b", "c"]));
}

#[test]
fn undo_replace_restores_previous_lines() {
    let mut lines = v(&["a,b", "c,d"]);
    let mut st = UndoStack::new(UNDO_LIMIT);
    st.push(EditOp::Replace(vec![(1, lines[1].clone())]));
    lines[1] = "X,Y".to_string();
    assert!(st.undo(&mut lines));
    assert_eq!(lines, v(&["a,b", "c,d"]));
}

#[test]
fn undo_remove_inserted_rows() {
    let mut lines = v(&["a", "b"]);
    let mut st = UndoStack::new(UNDO_LIMIT);
    insert_row(&mut lines, 1, String::new());
    st.push(EditOp::RemoveInserted { at: 1, count: 1 });
    assert_eq!(lines, v(&["a", "", "b"]));
    assert!(st.undo(&mut lines));
    assert_eq!(lines, v(&["a", "b"]));
}

#[test]
fn undo_reinsert_removed_rows() {
    let mut lines = v(&["a", "b", "c"]);
    let mut st = UndoStack::new(UNDO_LIMIT);
    st.push(EditOp::ReinsertRemoved { at: 1, lines: vec!["b".to_string()] });
    remove_row(&mut lines, 1);
    assert_eq!(lines, v(&["a", "c"]));
    assert!(st.undo(&mut lines));
    assert_eq!(lines, v(&["a", "b", "c"]));
}

#[test]
fn undo_reorder_restores_original_order() {
    let mut lines = v(&["hdr", "b", "a", "c"]);
    let order: Vec<u32> = vec![2, 1, 3];
    let inverse = inverse_of(&order, 1);
    let mut st = UndoStack::new(UNDO_LIMIT);
    st.push(EditOp::Reorder { inverse, data_start: 1 });
    apply_permutation(&mut lines, &order, 1);
    assert_eq!(lines, v(&["hdr", "a", "b", "c"]));
    assert!(st.undo(&mut lines));
    assert_eq!(lines, v(&["hdr", "b", "a", "c"]));
}

#[test]
fn undo_pops_in_lifo_order() {
    let mut lines = v(&["a"]);
    let mut st = UndoStack::new(UNDO_LIMIT);
    st.push(EditOp::Replace(vec![(0, "a".to_string())]));
    lines[0] = "b".to_string();
    st.push(EditOp::Replace(vec![(0, "b".to_string())]));
    lines[0] = "c".to_string();
    st.undo(&mut lines);
    assert_eq!(lines, v(&["b"]), "the latest step goes first");
    st.undo(&mut lines);
    assert_eq!(lines, v(&["a"]));
}

#[test]
fn undo_on_empty_stack_is_false() {
    let mut lines = v(&["a"]);
    let mut st = UndoStack::new(UNDO_LIMIT);
    assert!(!st.undo(&mut lines));
    assert_eq!(lines, v(&["a"]));
}

#[test]
fn undo_stack_drops_oldest_beyond_limit() {
    let mut st = UndoStack::new(2);
    st.push(EditOp::Replace(vec![(0, "1".into())]));
    st.push(EditOp::Replace(vec![(0, "2".into())]));
    st.push(EditOp::Replace(vec![(0, "3".into())]));
    assert_eq!(st.len(), 2, "the oldest step is dropped");
}

#[test]
fn undo_stack_keeps_newest_after_dropping() {
    let mut lines = v(&["x"]);
    let mut st = UndoStack::new(2);
    st.push(EditOp::Replace(vec![(0, "1".into())]));
    st.push(EditOp::Replace(vec![(0, "2".into())]));
    st.push(EditOp::Replace(vec![(0, "3".into())]));
    assert!(st.undo(&mut lines));
    assert_eq!(lines, v(&["3"]));
    assert!(st.undo(&mut lines));
    assert_eq!(lines, v(&["2"]));
    assert!(!st.undo(&mut lines));
    st.clear();
    assert!(st.is_empty());
}

#[test]
fn undo_replace_out_of_range_row_is_ignored() {
    let mut lines = v(&["a"]);
    let mut st = UndoStack::new(UNDO_LIMIT);
    st.push(EditOp::Replace(vec![(5, "x".to_string())]));
    assert!(st.undo(&mut lines));
    assert_eq!(lines, v(&["a"]));
}

#[test]
fn undo_batch_is_one_step() {
    let mut lines = v(&["a,b"]);
    let mut st = UndoStack::new(UNDO_LIMIT);
    st.push(EditOp::Batch(vec![
        EditOp::RemoveInserted { at: 1, count: 1 },
        EditOp::Replace(vec![(0, "a,b".to_string())]),
    ]));
    paste_tsv(&mut lines, 0, 0, "1\t2\n3\t4", b',');
    assert_eq!(lines, v(&["1,2", "3,4"]));
    assert!(st.undo(&mut lines));
    assert_eq!(lines, v(&["a,b"]), "one undo restores everything");
    assert!(st.is_empty(), "a batch is one step");
}

#[test]
fn undo_batch_applies_in_order() {
    let mut lines = v(&["only"]);
    let mut st = UndoStack::new(UNDO_LIMIT);
    st.push(EditOp::Batch(vec![
        EditOp::RemoveInserted { at: 0, count: 1 },
        EditOp::ReinsertRemoved { at: 0, lines: v(&["x", "y"]) },
    ]));
    remove_row(&mut lines, 0);
    assert_eq!(lines, v(&[""]));
    assert!(st.undo(&mut lines));
    assert_eq!(lines, v(&["x", "y"]), "restored without a stray line");
}

#[test]
fn inverse_of_roundtrips() {
    let order: Vec<u32> = vec![3, 1, 2];
    let inv = inverse_of(&order, 1);
    let mut lines = v(&["h", "x", "y", "z"]);
    let before = lines.clone();
    apply_permutation(&mut lines, &order, 1);
    apply_permutation(&mut lines, &inv, 1);
    assert_eq!(lines, before);
}

#[test]
fn inverse_of_roundtrips_for_every_permutation_of_four() {
    let base = v(&["h", "p", "q", "r", "s"]);
    let mut perm = vec![1u32, 2, 3, 4];
    // Heap's algorithm over the four data rows.
    let mut c = [0usize; 4];
    let mut check = |order: &Vec<u32>| {
        let inv = inverse_of(order, 1);
        let mut lines = base.clone();
        apply_permutation(&mut lines, order, 1);
        apply_permutation(&mut lines, &inv, 1);
        assert_eq!(lines, base, "order {order:?}");
    };
    check(&perm);
    let mut i = 0;
    while i < 4 {
        if c[i] < i {
            if i % 2 == 0 {
                perm.swap(0, i);
            } else {
                perm.swap(c[i], i);
            }
            check(&perm);
            c[i] += 1;
            i = 0;
        } else {
            c[i] = 0;
            i += 1;
        }
    }
}
