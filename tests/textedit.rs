use theframework::textedit::{find_range, TheCursor, TheSelection, TheTextEditState};

fn state(rows: &[&str]) -> TheTextEditState {
    let mut s = TheTextEditState::default();
    s.set_text(rows.join("\n"));
    s
}

fn rows(s: &TheTextEditState) -> Vec<String> {
    s.rows.clone()
}

#[test]
fn default_is_one_empty_row() {
    let s = TheTextEditState::default();
    assert_eq!(rows(&s), vec![String::new()]);
    assert!(s.is_empty());
    assert_eq!(s.row_count(), 1);
    assert_eq!(s.find_cursor_index(), 0);
}

#[test]
fn cursor_index_round_trip() {
    let s = state(&["abc", "de", "", "fgh"]);
    for row in 0..s.row_count() {
        let n = s.rows[row].chars().count();
        for col in 0..=n {
            let mut t = state(&["abc", "de", "", "fgh"]);
            t.set_cursor(TheCursor::new(row, col));
            let index = t.find_cursor_index();
            assert_eq!(t.find_row_col_of_index(index), (row, col));
        }
    }
}

#[test]
fn ranges_of_rows_count_line_breaks_but_not_the_last() {
    let s = state(&["abc", "def"]);
    assert_eq!(s.find_range_of_row(0), (0, 4));
    assert_eq!(s.find_range_of_row(1), (4, 7));
    assert_eq!(s.find_start_index_of_row(1), 4);
    assert_eq!(s.find_row_number_of_index(3), 0);
    assert_eq!(s.find_row_number_of_index(4), 1);
    assert_eq!(s.find_row_number_of_index(7), 1);
    assert_eq!(s.find_row_col_of_index(7), (1, 3));
}

#[test]
fn set_text_then_to_text_round_trip() {
    for text in ["", "a", "a\nb", "a\n", "\n\n", "héllo\nwörld\n\nx"] {
        let mut s = TheTextEditState::default();
        s.set_text(text.to_string());
        assert_eq!(s.to_text(), text);
    }
    let s = state(&["a", ""]);
    assert_eq!(s.row_count(), 2);
    assert_eq!(s.to_text(), "a\n");
}

#[test]
fn insert_then_delete_restores_text_and_cursor() {
    let mut s = state(&["hello", "world"]);
    s.set_cursor(TheCursor::new(1, 2));
    let before = s.to_text();
    let range = s.insert_text("x".to_string());
    assert_eq!(range, (8, 9));
    assert_eq!(s.to_text(), "hello\nwoxrld");
    assert!(s.delete_text());
    assert_eq!(s.to_text(), before);
    assert_eq!((s.cursor.row, s.cursor.column), (1, 2));
}

#[test]
fn select_all_then_cut_takes_everything() {
    let mut s = state(&["abc", "", "de"]);
    s.set_cursor(TheCursor::new(2, 1));
    s.select_all();
    assert_eq!((s.selection.start, s.selection.end), (0, 7));
    assert_eq!(s.cut_text(), "abc\n\nde");
    assert_eq!(rows(&s), vec![String::new()]);
    assert_eq!((s.cursor.row, s.cursor.column), (0, 0));
    assert!(s.selection.is_none());
}

#[test]
fn move_left_at_start_and_right_at_end_do_nothing() {
    let mut s = state(&["ab", "c"]);
    assert!(!s.move_cursor_left());
    assert_eq!((s.cursor.row, s.cursor.column), (0, 0));
    assert_eq!(s.to_text(), "ab\nc");
    s.set_cursor(TheCursor::new(1, 1));
    assert!(!s.move_cursor_right());
    assert_eq!((s.cursor.row, s.cursor.column), (1, 1));
    assert_eq!(s.to_text(), "ab\nc");
}

#[test]
fn cursor_moves_across_row_boundaries() {
    let mut s = state(&["ab", "c"]);
    s.set_cursor(TheCursor::new(0, 2));
    assert!(s.move_cursor_right());
    assert_eq!((s.cursor.row, s.cursor.column), (1, 0));
    assert!(s.move_cursor_left());
    assert_eq!((s.cursor.row, s.cursor.column), (0, 2));
    assert!(s.move_cursor_down());
    assert_eq!((s.cursor.row, s.cursor.column), (1, 1));
    assert!(!s.move_cursor_down());
    assert!(s.move_cursor_up());
    assert_eq!((s.cursor.row, s.cursor.column), (0, 1));
    assert!(!s.move_cursor_up());
    assert!(s.move_cursor_to_line_end());
    assert_eq!(s.cursor.column, 2);
    assert!(!s.move_cursor_to_line_end());
    assert!(s.move_cursor_to_line_start());
    assert!(!s.move_cursor_to_line_start());
}

#[test]
fn insert_row_splits_at_row_end() {
    let mut s = state(&["abc", "def"]);
    s.set_cursor(TheCursor::new(0, 3));
    s.insert_row();
    assert_eq!(rows(&s), vec!["abc", "", "def"]);
    assert_eq!((s.cursor.row, s.cursor.column), (1, 0));
}

#[test]
fn insert_row_in_the_middle_and_at_the_start() {
    let mut s = state(&["abc"]);
    s.set_cursor(TheCursor::new(0, 1));
    s.insert_row();
    assert_eq!(rows(&s), vec!["a", "bc"]);
    assert_eq!((s.cursor.row, s.cursor.column), (1, 0));
    s.insert_row();
    assert_eq!(rows(&s), vec!["a", "", "bc"]);
    assert_eq!((s.cursor.row, s.cursor.column), (2, 0));
}

#[test]
fn quick_select_selects_the_word() {
    let mut s = state(&["hello world"]);
    s.set_cursor(TheCursor::new(0, 2));
    s.quick_select();
    assert_eq!((s.selection.start, s.selection.end), (0, 5));
}

#[test]
fn quick_select_whitespace_runs_and_line_breaks() {
    let mut s = state(&["ab   cd", "x", ""]);
    s.set_cursor(TheCursor::new(0, 3));
    s.quick_select();
    assert_eq!((s.selection.start, s.selection.end), (2, 5));
    s.set_cursor(TheCursor::new(0, 7));
    s.quick_select();
    assert_eq!((s.selection.start, s.selection.end), (7, 8));
    s.set_cursor(TheCursor::new(2, 0));
    s.quick_select();
    assert_eq!((s.selection.start, s.selection.end), (9, 10));
    assert_eq!((s.cursor.row, s.cursor.column), (1, 1));
    let mut e = TheTextEditState::default();
    e.quick_select();
    assert!(e.selection.is_none());
}

#[test]
fn find_range_finds_maximal_runs() {
    let flags = vec![false, false, true, true, true, false];
    assert_eq!(find_range(&flags, 0), (0, 2));
    assert_eq!(find_range(&flags, 3), (2, 5));
    assert_eq!(find_range(&flags, 5), (5, 6));
}

#[test]
fn cut_across_line_breaks_merges_rows() {
    let mut s = state(&["a", "b", "c"]);
    s.select(1, 4);
    assert_eq!(s.cut_text(), "\nb\n");
    assert_eq!(rows(&s), vec!["ac"]);
    assert_eq!((s.cursor.row, s.cursor.column), (0, 0));
}

#[test]
fn cut_without_selection_is_empty() {
    let mut s = state(&["abc"]);
    assert_eq!(s.cut_text(), "");
    assert_eq!(rows(&s), vec!["abc"]);
}

#[test]
fn selected_ranges_of_rows() {
    let mut s = state(&["abc", "", "de"]);
    s.select(1, 6);
    assert_eq!(s.find_selected_range_of_row(0), Some((1, 3)));
    assert_eq!(s.find_selected_range_of_row(1), Some((4, 5)));
    assert_eq!(s.find_selected_range_of_row(2), Some((5, 6)));
    assert!(!s.is_row_all_selected(0));
    s.select(0, 6);
    assert!(s.is_row_all_selected(0));
    s.select(3, 4);
    assert_eq!(s.find_selected_range_of_row(0), Some((3, 4)));
    assert_eq!(s.find_selected_range_of_row(2), None);
    s.reset_selection();
    assert_eq!(s.find_selected_range_of_row(0), None);
}

#[test]
fn delete_text_joins_rows_at_column_zero() {
    let mut s = state(&["ab", "cd"]);
    s.set_cursor(TheCursor::new(1, 0));
    assert!(s.delete_text());
    assert_eq!(rows(&s), vec!["abcd"]);
    assert_eq!((s.cursor.row, s.cursor.column), (0, 2));
    s.set_cursor(TheCursor::new(0, 0));
    assert!(!s.delete_text());
}

#[test]
fn delete_text_removes_selection_first() {
    let mut s = state(&["abcdef"]);
    s.set_cursor(TheCursor::new(0, 5));
    s.select(1, 3);
    assert!(s.delete_text());
    assert_eq!(rows(&s), vec!["adef"]);
    assert_eq!((s.cursor.row, s.cursor.column), (0, 3));
    assert!(s.selection.is_none());
}

#[test]
fn insert_char_replaces_selection() {
    let mut s = state(&["abc"]);
    s.set_cursor(TheCursor::new(0, 3));
    s.select(0, 2);
    s.insert_char('x');
    assert_eq!(rows(&s), vec!["cx"]);
    assert_eq!((s.cursor.row, s.cursor.column), (0, 2));
}

#[test]
fn insert_multiline_text() {
    let mut s = state(&["abXY"]);
    s.set_cursor(TheCursor::new(0, 2));
    let range = s.insert_text("1\n22\n333".to_string());
    assert_eq!(range, (2, 10));
    assert_eq!(rows(&s), vec!["ab1", "22", "333XY"]);
    assert_eq!((s.cursor.row, s.cursor.column), (2, 3));
}

#[test]
fn graphemes_count_as_one_column() {
    let mut s = TheTextEditState::default();
    let range = s.insert_text("e\u{301}a".to_string());
    assert_eq!(range, (0, 2));
    assert_eq!(s.cursor.column, 2);
    assert!(s.move_cursor_left());
    assert_eq!(s.cursor.column, 1);
    assert!(s.delete_text());
    assert_eq!(s.to_text(), "a");
    s.select_all();
    assert_eq!((s.selection.start, s.selection.end), (0, 1));
}

#[test]
fn move_lines_up_and_down() {
    let mut s = state(&["a", "b", "c"]);
    s.set_cursor(TheCursor::new(1, 1));
    assert!(s.move_lines_up());
    assert_eq!(rows(&s), vec!["b", "a", "c"]);
    assert_eq!((s.cursor.row, s.cursor.column), (0, 1));
    assert!(!s.move_lines_up());
    assert!(s.move_lines_down());
    assert!(s.move_lines_down());
    assert_eq!(rows(&s), vec!["a", "c", "b"]);
    assert_eq!(s.cursor.row, 2);
    assert!(!s.move_lines_down());
}

#[test]
fn move_lines_with_selection_moves_the_selection() {
    let mut s = state(&["a", "bb", "c"]);
    s.set_cursor(TheCursor::new(1, 0));
    s.select(2, 4);
    assert!(s.move_lines_down());
    assert_eq!(rows(&s), vec!["a", "c", "bb"]);
    assert_eq!((s.selection.start, s.selection.end), (4, 6));
    assert_eq!(s.cursor.row, 2);
    assert!(s.move_lines_up());
    assert_eq!(rows(&s), vec!["a", "bb", "c"]);
    assert_eq!((s.selection.start, s.selection.end), (2, 4));
}

#[test]
fn select_row_and_reset() {
    let mut s = state(&["ab", "cd"]);
    s.set_cursor(TheCursor::new(0, 1));
    s.select_row();
    assert_eq!((s.selection.start, s.selection.end), (0, 3));
    assert!(s.is_last_row(1));
    assert!(!s.is_last_row(0));
    s.reset();
    assert!(s.is_empty());
    assert!(s.cursor.is_zero());
}

#[test]
fn cursor_and_selection_helpers() {
    let mut c = TheCursor::new(2, 3);
    assert!(!c.is_zero());
    c.reset();
    assert!(c.is_zero());
    assert!(TheCursor::zero().is_zero());
    let mut sel = TheSelection { start: 2, end: 5 };
    assert!(sel.intersects(4, 8));
    assert!(!sel.intersects(5, 8));
    assert!(!sel.is_none());
    sel.reset();
    assert!(sel.is_none());
}

#[test]
fn insert_line_break_then_delete_restores() {
    let mut s = state(&["hello", "world"]);
    s.set_cursor(TheCursor::new(0, 2));
    let before = s.to_text();
    assert_eq!(s.insert_text("\n".to_string()), (2, 3));
    assert_eq!(rows(&s), vec!["he", "llo", "world"]);
    assert_eq!((s.cursor.row, s.cursor.column), (1, 0));
    assert!(s.delete_text());
    assert_eq!(s.to_text(), before);
    assert_eq!((s.cursor.row, s.cursor.column), (0, 2));
}
