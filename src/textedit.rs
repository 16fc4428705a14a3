//! The text buffer: rows of text, a cursor and a selection, addressed by
//! grapheme columns and by a document-wide cursor index.
use vstd::math::min;
use vstd::prelude::*;

use crate::model::{
    after_backspace, after_delete, after_insert, after_insert_char, after_insert_row, char_budget,
    col_of_index, cursor_index, is_run, lemma_budget_concat, lemma_budget_ge_len,
    lemma_budget_single, lemma_col_of_index, lemma_delete_budget, lemma_index_bounds,
    lemma_lines_budget, lemma_lines_of, lemma_moved_rows, lemma_moved_rows_index,
    lemma_no_break_join, lemma_row_of_index, lemma_row_of_index_mono, lemma_row_of_index_unique,
    lemma_row_ok, lemma_selection_shift, lemma_single_row_wf, lemma_splice_wf, lemma_start_mono,
    lemma_start_nonneg, lemma_take_len_mono, lemma_text_between_empty, line_span, moved_lines,
    moved_mid, row_length, row_of_index, rows_wf, selected_range_of_row, space_flags, splice,
    start_of_row, step_right, text_between, total_length,
};
use crate::segment::{
    append_clusters, clusters, drop_glyphs, glyph_count, graphemes_of, is_whitespace, join_lines,
    lemma_glyph_count_le, lemma_no_break_parts, lemma_take_drop, lines_of, no_break, push_char,
    segmented, split_lines, take_glyphs,
};

verus! {

broadcast use {Seq::lemma_flatten_push, Seq::lemma_flatten_singleton};

/// A position in the buffer: a row and a grapheme column within it.
#[derive(Clone, Copy, Debug, PartialEq, Eq, Structural)]
pub struct TheCursor {
    pub row: usize,
    pub column: usize,
}

impl Default for TheCursor {
    fn default() -> (r: Self)
        ensures
            r.row == 0 && r.column == 0,
    {
        TheCursor { row: 0, column: 0 }
    }
}

impl TheCursor {
    pub fn new(row: usize, column: usize) -> (r: Self)
        ensures
            r.row == row && r.column == column,
    {
        Self { row, column }
    }

    pub fn zero() -> (r: Self)
        ensures
            r.row == 0 && r.column == 0,
    {
        Self { row: 0, column: 0 }
    }

    pub fn is_zero(&self) -> (r: bool)
        ensures
            r == (self.row == 0 && self.column == 0),
    {
        self.row == 0 && self.column == 0
    }

    pub fn reset(&mut self)
        ensures
            final(self).row == 0 && final(self).column == 0,
    {
        self.row = 0;
        self.column = 0;
    }
}

/// A half-open range `[start, end)` of cursor indices; empty when the ends meet.
#[derive(Clone, Copy, Debug, PartialEq, Eq, Structural)]
pub struct TheSelection {
    pub start: usize,
    pub end: usize,
}

impl Default for TheSelection {
    fn default() -> (r: Self)
        ensures
            r.start == 0 && r.end == 0,
    {
        TheSelection { start: 0, end: 0 }
    }
}

impl TheSelection {
    /// Whether the selection overlaps the range `[start, end)`.
    pub fn intersects(&self, start: usize, end: usize) -> (r: bool)
        ensures
            r == (start < self.end && end > self.start),
    {
        start < self.end && end > self.start
    }

    pub fn is_none(&self) -> (r: bool)
        ensures
            r == (self.start == self.end),
    {
        self.start == self.end
    }

    pub fn reset(&mut self)
        ensures
            final(self).start == 0 && final(self).end == 0,
    {
        self.start = 0;
        self.end = 0;
    }
}

/// The buffer: rows of text without their line breaks, a cursor and a selection.
pub struct TheTextEditState {
    pub cursor: TheCursor,
    pub rows: Vec<String>,
    pub selection: TheSelection,
}

impl Default for TheTextEditState {
    /// A single empty row, the cursor at its start, nothing selected.
    fn default() -> (r: Self)
        ensures
            r.wf(),
            r.text_rows() == seq![Seq::<char>::empty()],
            r.cursor.row == 0 && r.cursor.column == 0,
            r.selection.start == 0 && r.selection.end == 0,
    {
        let r = TheTextEditState {
            cursor: TheCursor { row: 0, column: 0 },
            rows: vec![empty_row()],
            selection: TheSelection { start: 0, end: 0 },
        };
        proof {
            assert(r.text_rows() =~= seq![Seq::<char>::empty()]);
            lemma_single_row_wf(r.text_rows());
        }
        r
    }
}

impl TheTextEditState {
    /// The rows as character sequences.
    pub open spec fn text_rows(&self) -> Seq<Seq<char>> {
        self.rows@.map_values(|r: String| r@)
    }

    /// A consistent buffer: well-formed rows, a cursor on a row and within its
    /// clusters, and a selection within the document.
    pub open spec fn wf(&self) -> bool {
        &&& rows_wf(self.text_rows())
        &&& self.cursor.row < self.rows@.len()
        &&& self.cursor.column <= glyph_count(self.text_rows()[self.cursor.row as int])
        &&& self.selection.start <= self.selection.end
        &&& self.selection.start < self.selection.end ==> self.selection.end <= total_length(
            self.text_rows(),
        )
    }

    /// Cursor index of the cursor.
    pub open spec fn cursor_at(&self) -> int {
        cursor_index(self.text_rows(), self.cursor.row as int, self.cursor.column as int)
    }

    fn glyphs_in_row(&self, row_number: usize) -> (r: usize)
        requires
            self.wf(),
            row_number < self.rows@.len(),
        ensures
            r == glyph_count(self.text_rows()[row_number as int]),
    {
        let g = clusters(&self.rows[row_number]);
        proof {
            assert(self.text_rows()[row_number as int] == self.rows@[row_number as int]@);
        }
        g.len()
    }

    fn row_len(&self, row_number: usize) -> (r: usize)
        requires
            self.wf(),
            row_number < self.rows@.len(),
        ensures
            r == row_length(self.text_rows(), row_number as int),
    {
        proof {
            lemma_index_bounds(self.text_rows(), row_number as int);
        }
        let len = self.glyphs_in_row(row_number);
        if self.is_last_row(row_number) {
            len
        } else {
            len + 1
        }
    }

    pub fn is_last_row(&self, row_number: usize) -> (r: bool)
        requires
            self.rows@.len() >= 1,
        ensures
            r == (row_number == self.rows@.len() - 1),
    {
        row_number == self.rows.len() - 1
    }

    pub fn row_count(&self) -> (r: usize)
        ensures
            r == self.rows@.len(),
    {
        self.rows.len()
    }

    /// Cursor index where row `row_number` starts.
    pub fn find_start_index_of_row(&self, row_number: usize) -> (r: usize)
        requires
            self.wf(),
            row_number < self.rows@.len(),
        ensures
            r == start_of_row(self.text_rows(), row_number as int),
    {
        let mut index: usize = 0;
        let mut i: usize = 0;
        while i < row_number
            invariant
                self.wf(),
                row_number < self.rows@.len(),
                i <= row_number,
                index == start_of_row(self.text_rows(), i as int),
            decreases row_number - i,
        {
            proof {
                lemma_index_bounds(self.text_rows(), i as int);
            }
            index += self.row_len(i);
            i += 1;
        }
        index
    }

    /// Cursor-index range `[start, end)` of a row; it holds the row's line break
    /// unless it is the last row.
    pub fn find_range_of_row(&self, row_number: usize) -> (r: (usize, usize))
        requires
            self.wf(),
            row_number < self.rows@.len(),
        ensures
            r.0 == start_of_row(self.text_rows(), row_number as int),
            r.1 == r.0 + row_length(self.text_rows(), row_number as int),
    {
        proof {
            lemma_index_bounds(self.text_rows(), row_number as int);
        }
        let start = self.find_start_index_of_row(row_number);
        let end = start + self.row_len(row_number);
        (start, end)
    }

    /// Cursor index of the cursor.
    pub fn find_cursor_index(&self) -> (r: usize)
        requires
            self.wf(),
        ensures
            r == self.cursor_at(),
    {
        proof {
            lemma_index_bounds(self.text_rows(), self.cursor.row as int);
        }
        self.find_start_index_of_row(self.cursor.row) + self.cursor.column
    }

    /// The row that holds a cursor index, found by binary search over the rows' ranges.
    pub fn find_row_number_of_index(&self, index: usize) -> (r: usize)
        requires
            self.wf(),
        ensures
            r == row_of_index(self.text_rows(), index as int),
    {
        let ghost rows = self.text_rows();
        let mut left: usize = 0;
        let mut right: usize = self.row_count();
        while left < right
            invariant
                self.wf(),
                rows == self.text_rows(),
                0 <= left <= right <= rows.len(),
                left > 0 ==> index >= start_of_row(rows, left - 1) + row_length(rows, left - 1),
                right < rows.len() ==> index < start_of_row(rows, right as int),
            decreases right - left,
        {
            let row_number = left + (right - left) / 2;
            let (row_start, row_end) = self.find_range_of_row(row_number);
            if index < row_start {
                right = row_number;
            } else if index >= row_end {
                left = row_number + 1;
            } else {
                proof {
                    lemma_row_of_index_unique(rows, index as int, row_number as int);
                }
                return row_number;
            }
        }
        proof {
            if left < rows.len() {
                if left > 0 {
                    assert(start_of_row(rows, left as int) == start_of_row(rows, left - 1)
                        + glyph_count(rows[left - 1]) + 1);
                }
                assert(false);
            }
            lemma_row_of_index_unique(rows, index as int, rows.len() - 1);
        }
        self.row_count() - 1
    }

    /// Row and column of a cursor index.
    pub fn find_row_col_of_index(&self, index: usize) -> (r: (usize, usize))
        requires
            self.wf(),
        ensures
            r.0 == row_of_index(self.text_rows(), index as int),
            r.1 == col_of_index(self.text_rows(), index as int),
    {
        let row = self.find_row_number_of_index(index);
        proof {
            lemma_row_of_index(self.text_rows(), index as int);
        }
        let row_start_index = self.find_start_index_of_row(row);
        let col = index - row_start_index;
        (row, col)
    }

    /// Selected part of a row, in cursor indices.
    pub fn find_selected_range_of_row(&self, row_number: usize) -> (r: Option<(usize, usize)>)
        requires
            self.wf(),
            row_number < self.rows@.len(),
        ensures
            r matches Some(p) ==> selected_range_of_row(
                self.text_rows(),
                self.selection.start as int,
                self.selection.end as int,
                row_number as int,
            ) == Some((p.0 as int, p.1 as int)),
            r is None ==> selected_range_of_row(
                self.text_rows(),
                self.selection.start as int,
                self.selection.end as int,
                row_number as int,
            ) is None,
    {
        if self.selection.is_none() {
            return None;
        }
        let (start, end) = self.find_range_of_row(row_number);
        if !self.selection.intersects(start, end) {
            return None;
        }
        if self.selection.start == end - 1 {
            return Some((end - 1, end));
        }
        let left = if self.selection.start > start {
            self.selection.start
        } else {
            start
        };
        let bound = if start + 1 == end || self.is_last_row(row_number) {
            end
        } else {
            end - 1
        };
        let right = if self.selection.end < bound {
            self.selection.end
        } else {
            bound
        };
        if left == right {
            None
        } else {
            Some((left, right))
        }
    }

    /// Whether a whole row, its line break included, is selected.
    pub fn is_row_all_selected(&self, row_number: usize) -> (r: bool)
        requires
            self.wf(),
            row_number < self.rows@.len(),
        ensures
            r == (match selected_range_of_row(
                self.text_rows(),
                self.selection.start as int,
                self.selection.end as int,
                row_number as int,
            ) {
                Some(p) => p.0 == start_of_row(self.text_rows(), row_number as int) && p.1 + 1
                    == start_of_row(self.text_rows(), row_number as int) + row_length(
                    self.text_rows(),
                    row_number as int,
                ),
                None => false,
            }),
    {
        match self.find_selected_range_of_row(row_number) {
            Some(selected_range) => {
                let range = self.find_range_of_row(row_number);
                range.0 == selected_range.0 && range.1 >= 1 && range.1 - 1 == selected_range.1
            },
            None => false,
        }
    }

    pub fn move_cursor_down(&mut self) -> (r: bool)
        requires
            old(self).wf(),
        ensures
            final(self).wf(),
            final(self).rows == old(self).rows,
            final(self).selection == old(self).selection,
            r == (old(self).cursor.row + 1 < old(self).rows@.len()),
            r ==> final(self).cursor.row == old(self).cursor.row + 1 && final(self).cursor.column
                == min(
                old(self).cursor.column as int,
                glyph_count(old(self).text_rows()[old(self).cursor.row + 1]) as int,
            ),
            !r ==> final(self).cursor == old(self).cursor,
    {
        if self.is_last_row(self.cursor.row) {
            return false;
        }
        proof {
            lemma_index_bounds(self.text_rows(), self.cursor.row as int);
        }
        let n = self.glyphs_in_row(self.cursor.row + 1);
        self.cursor.row += 1;
        if n < self.cursor.column {
            self.cursor.column = n;
        }
        true
    }

    pub fn move_cursor_up(&mut self) -> (r: bool)
        requires
            old(self).wf(),
        ensures
            final(self).wf(),
            final(self).rows == old(self).rows,
            final(self).selection == old(self).selection,
            r == (old(self).cursor.row > 0),
            r ==> final(self).cursor.row == old(self).cursor.row - 1 && final(self).cursor.column
                == min(
                old(self).cursor.column as int,
                glyph_count(old(self).text_rows()[old(self).cursor.row - 1]) as int,
            ),
            !r ==> final(self).cursor == old(self).cursor,
    {
        if self.cursor.row == 0 {
            return false;
        }
        let n = self.glyphs_in_row(self.cursor.row - 1);
        self.cursor.row -= 1;
        if n < self.cursor.column {
            self.cursor.column = n;
        }
        true
    }

    /// One step left; from the start of a row to the end of the previous one.
    pub fn move_cursor_left(&mut self) -> (r: bool)
        requires
            old(self).wf(),
        ensures
            final(self).wf(),
            final(self).rows == old(self).rows,
            final(self).selection == old(self).selection,
            r == (old(self).cursor_at() > 0),
            r ==> final(self).cursor_at() == old(self).cursor_at() - 1,
            r && old(self).cursor.column == 0 ==> final(self).cursor.row == old(self).cursor.row
                - 1 && final(self).cursor.column == glyph_count(
                old(self).text_rows()[old(self).cursor.row - 1],
            ),
            r && old(self).cursor.column > 0 ==> final(self).cursor.row == old(self).cursor.row
                && final(self).cursor.column == old(self).cursor.column - 1,
            !r ==> final(self).cursor == old(self).cursor,
    {
        proof {
            lemma_start_nonneg(self.text_rows(), self.cursor.row as int);
            if self.cursor.row > 0 {
                lemma_start_mono(self.text_rows(), 0, self.cursor.row as int);
            }
        }
        if self.cursor.is_zero() {
            return false;
        }
        if self.cursor.column == 0 {
            let n = self.glyphs_in_row(self.cursor.row - 1);
            self.cursor.row -= 1;
            self.cursor.column = n;
        } else {
            self.cursor.column -= 1;
        }
        true
    }

    /// One step right; from the end of a row to the start of the next one.
    pub fn move_cursor_right(&mut self) -> (r: bool)
        requires
            old(self).wf(),
        ensures
            final(self).wf(),
            final(self).rows == old(self).rows,
            final(self).selection == old(self).selection,
            r == (old(self).cursor_at() < total_length(old(self).text_rows())),
            r ==> final(self).cursor_at() == old(self).cursor_at() + 1,
            r && old(self).cursor.column == glyph_count(
                old(self).text_rows()[old(self).cursor.row as int],
            ) ==> final(self).cursor.row == old(self).cursor.row + 1 && final(self).cursor.column
                == 0,
            r && old(self).cursor.column < glyph_count(
                old(self).text_rows()[old(self).cursor.row as int],
            ) ==> final(self).cursor.row == old(self).cursor.row && final(self).cursor.column
                == old(self).cursor.column + 1,
            !r ==> final(self).cursor == old(self).cursor,
            (final(self).text_rows(), final(self).cursor.row as int, final(self).cursor.column as int)
                == step_right(
                old(self).text_rows(),
                old(self).cursor.row as int,
                old(self).cursor.column as int,
            ),
    {
        let ghost rows = self.text_rows();
        proof {
            if self.cursor.row + 1 < rows.len() {
                lemma_start_mono(rows, self.cursor.row as int, rows.len() - 1);
            }
            lemma_index_bounds(rows, self.cursor.row as int);
        }
        let n = self.glyphs_in_row(self.cursor.row);
        if self.is_last_row(self.cursor.row) && self.cursor.column == n {
            return false;
        }
        if self.cursor.column == n {
            self.cursor.row += 1;
            self.cursor.column = 0;
        } else {
            self.cursor.column += 1;
        }
        true
    }

    pub fn move_cursor_to_line_end(&mut self) -> (r: bool)
        requires
            old(self).wf(),
        ensures
            final(self).wf(),
            final(self).rows == old(self).rows,
            final(self).selection == old(self).selection,
            final(self).cursor.row == old(self).cursor.row,
            final(self).cursor.column == glyph_count(
                old(self).text_rows()[old(self).cursor.row as int],
            ),
            r == (old(self).cursor.column != final(self).cursor.column),
    {
        let n = self.glyphs_in_row(self.cursor.row);
        if self.cursor.column == n {
            return false;
        }
        self.cursor.column = n;
        true
    }

    pub fn move_cursor_to_line_start(&mut self) -> (r: bool)
        requires
            old(self).wf(),
        ensures
            final(self).wf(),
            final(self).rows == old(self).rows,
            final(self).selection == old(self).selection,
            final(self).cursor.row == old(self).cursor.row,
            final(self).cursor.column == 0,
            r == (old(self).cursor.column != 0),
    {
        if self.cursor.column == 0 {
            return false;
        }
        self.cursor.column = 0;
        true
    }

    /// Whether the document is a single empty row.
    pub fn is_empty(&self) -> (r: bool)
        ensures
            r == (self.rows@.len() == 0 || (self.rows@.len() == 1 && self.rows@[0]@.len() == 0)),
    {
        self.rows.len() == 0 || (self.rows.len() == 1 && self.rows[0].as_str().is_empty())
    }

    pub fn reset_cursor(&mut self)
        ensures
            final(self).rows == old(self).rows,
            final(self).selection == old(self).selection,
            final(self).cursor.row == 0 && final(self).cursor.column == 0,
    {
        self.cursor.reset();
    }

    pub fn reset_selection(&mut self)
        ensures
            final(self).rows == old(self).rows,
            final(self).cursor == old(self).cursor,
            final(self).selection.start == 0 && final(self).selection.end == 0,
    {
        self.selection.reset();
    }

    /// Makes the document a single empty row, with the cursor at its start and no selection.
    pub fn reset(&mut self)
        ensures
            final(self).wf(),
            final(self).text_rows() == seq![Seq::<char>::empty()],
            final(self).cursor.row == 0 && final(self).cursor.column == 0,
            final(self).selection.start == 0 && final(self).selection.end == 0,
    {
        let row = empty_row();
        self.rows = vec![row];
        self.reset_cursor();
        self.reset_selection();
        proof {
            assert(self.text_rows() =~= seq![Seq::<char>::empty()]);
            lemma_single_row_wf(self.text_rows());
        }
    }

    /// Sets the selection to `[start, end)`.
    pub fn select(&mut self, start: usize, end: usize)
        requires
            old(self).wf(),
            start <= end <= total_length(old(self).text_rows()),
        ensures
            final(self).wf(),
            final(self).rows == old(self).rows,
            final(self).cursor == old(self).cursor,
            final(self).selection.start == start && final(self).selection.end == end,
    {
        self.selection.start = start;
        self.selection.end = end;
    }

    /// Selects the whole document.
    pub fn select_all(&mut self)
        requires
            old(self).wf(),
        ensures
            final(self).wf(),
            final(self).rows == old(self).rows,
            final(self).cursor == old(self).cursor,
            final(self).selection.start == 0,
            final(self).selection.end == total_length(old(self).text_rows()),
    {
        let end = self.total_len();
        self.select(0, end);
    }

    /// Selects the cursor's row with its line break.
    pub fn select_row(&mut self)
        requires
            old(self).wf(),
        ensures
            final(self).wf(),
            final(self).rows == old(self).rows,
            final(self).cursor == old(self).cursor,
            final(self).selection.start == start_of_row(
                old(self).text_rows(),
                old(self).cursor.row as int,
            ),
            final(self).selection.end == final(self).selection.start + row_length(
                old(self).text_rows(),
                old(self).cursor.row as int,
            ),
    {
        let (start, end) = self.find_range_of_row(self.cursor.row);
        proof {
            let rows = self.text_rows();
            if self.cursor.row + 1 < rows.len() {
                lemma_start_mono(rows, self.cursor.row as int, rows.len() - 1);
            }
        }
        self.select(start, end);
    }

    /// Moves the cursor.
    pub fn set_cursor(&mut self, cursor: TheCursor)
        requires
            old(self).wf(),
            cursor.row < old(self).rows@.len(),
            cursor.column <= glyph_count(old(self).text_rows()[cursor.row as int]),
        ensures
            final(self).wf(),
            final(self).rows == old(self).rows,
            final(self).selection == old(self).selection,
            final(self).cursor == cursor,
    {
        self.cursor = cursor;
    }

    /// Loads a text: one row per line, cursor at the start, no selection.
    pub fn set_text(&mut self, text: String)
        requires
            text@.len() < usize::MAX,
        ensures
            final(self).wf(),
            final(self).text_rows() == lines_of(text@),
            final(self).cursor.row == 0 && final(self).cursor.column == 0,
            final(self).selection.start == 0 && final(self).selection.end == 0,
    {
        let rows = split_lines(text.as_str());
        proof {
            lemma_lines_of(text@);
        }
        let mut i: usize = 0;
        while i < rows.len()
            invariant
                rows@.map_values(|p: String| p@) == lines_of(text@),
                0 <= i <= rows@.len(),
                forall|k: int| 0 <= k < i ==> #[trigger] segmented(rows@[k]@),
            decreases rows@.len() - i,
        {
            let _ = clusters(&rows[i]);
            i += 1;
        }
        self.rows = rows;
        self.cursor = TheCursor::zero();
        self.selection = TheSelection { start: 0, end: 0 };
        proof {
            assert(self.text_rows() == lines_of(text@));
            let rs = self.text_rows();
            assert forall|k: int| 0 <= k < rs.len() implies #[trigger] segmented(rs[k]) && no_break(
                rs[k],
            ) by {
                assert(rs[k] == rows@[k]@);
            }
            lemma_start_nonneg(rs, rs.len() - 1);
        }
    }

    /// The document text: the rows joined by line breaks.
    pub fn to_text(&self) -> (r: String)
        requires
            self.rows@.len() >= 1,
        ensures
            r@ == join_lines(self.text_rows()),
    {
        let ghost rows = self.text_rows();
        let mut text = self.rows[0].clone();
        let mut i: usize = 1;
        proof {
            assert(rows.take(1) =~= seq![rows[0]]);
        }
        while i < self.rows.len()
            invariant
                rows == self.text_rows(),
                1 <= i <= rows.len(),
                text@ == join_lines(rows.take(i as int)),
            decreases rows.len() - i,
        {
            push_char(&mut text, '\n');
            text.append(self.rows[i].as_str());
            proof {
                assert(rows.take(i + 1).drop_last() =~= rows.take(i as int));
            }
            i += 1;
        }
        proof {
            assert(rows.take(rows.len() as int) =~= rows);
        }
        text
    }

    /// Length of the document in cursor indices.
    fn total_len(&self) -> (r: usize)
        requires
            self.wf(),
        ensures
            r == total_length(self.text_rows()),
    {
        let last = self.rows.len() - 1;
        proof {
            lemma_index_bounds(self.text_rows(), last as int);
        }
        self.find_start_index_of_row(last) + self.row_len(last)
    }

    /// The first `n` clusters of a row.
    fn row_head(&self, row_number: usize, n: usize) -> (r: String)
        requires
            rows_wf(self.text_rows()),
            row_number < self.rows@.len(),
            n <= glyph_count(self.text_rows()[row_number as int]),
        ensures
            r@ == take_glyphs(self.text_rows()[row_number as int], n as int),
    {
        let gs = clusters(&self.rows[row_number]);
        let mut r = String::new();
        append_clusters(&mut r, &gs, 0, n);
        proof {
            assert(self.text_rows()[row_number as int] == self.rows@[row_number as int]@);
            assert(graphemes_of(self.rows@[row_number as int]@).subrange(0, n as int)
                =~= graphemes_of(self.rows@[row_number as int]@).take(n as int));
        }
        r
    }

    /// A row after its first `n` clusters.
    fn row_tail(&self, row_number: usize, n: usize) -> (r: String)
        requires
            rows_wf(self.text_rows()),
            row_number < self.rows@.len(),
            n <= glyph_count(self.text_rows()[row_number as int]),
        ensures
            r@ == drop_glyphs(self.text_rows()[row_number as int], n as int),
    {
        let gs = clusters(&self.rows[row_number]);
        let mut r = String::new();
        append_clusters(&mut r, &gs, n, gs.len());
        proof {
            assert(self.text_rows()[row_number as int] == self.rows@[row_number as int]@);
            let g = graphemes_of(self.rows@[row_number as int]@);
            assert(g.subrange(n as int, g.len() as int) =~= g.skip(n as int));
        }
        r
    }

    /// Replaces the rows `[a, b)` by `mid`.
    fn splice_rows(&mut self, a: usize, b: usize, mid: Vec<String>)
        requires
            a <= b <= old(self).rows@.len(),
        ensures
            final(self).text_rows() == splice(
                old(self).text_rows(),
                a as int,
                b as int,
                mid@.map_values(|r: String| r@),
            ),
            final(self).cursor == old(self).cursor,
            final(self).selection == old(self).selection,
    {
        let ghost rows = self.text_rows();
        let ghost midv = mid@.map_values(|r: String| r@);
        let mut out: Vec<String> = Vec::new();
        let mut i: usize = 0;
        while i < a
            invariant
                rows == self.text_rows(),
                a <= b <= rows.len(),
                i <= a,
                out@.map_values(|r: String| r@) =~= rows.take(i as int),
            decreases a - i,
        {
            let ghost prev = out@;
            out.push(self.rows[i].clone());
            proof {
                assert(out@ =~= prev.push(self.rows@[i as int]));
                assert(rows.take(i + 1) =~= rows.take(i as int).push(rows[i as int]));
                assert(out@.map_values(|r: String| r@) =~= prev.map_values(|r: String| r@).push(
                    rows[i as int],
                ));
            }
            i += 1;
        }
        let mut j: usize = 0;
        while j < mid.len()
            invariant
                midv == mid@.map_values(|r: String| r@),
                j <= mid@.len(),
                out@.map_values(|r: String| r@) =~= rows.take(a as int) + midv.take(j as int),
            decreases mid@.len() - j,
        {
            let ghost prev = out@;
            out.push(mid[j].clone());
            proof {
                assert(out@ =~= prev.push(mid@[j as int]));
                assert(midv.take(j + 1) =~= midv.take(j as int).push(midv[j as int]));
                assert(out@.map_values(|r: String| r@) =~= prev.map_values(|r: String| r@).push(
                    midv[j as int],
                ));
            }
            j += 1;
        }
        let mut k: usize = b;
        while k < self.rows.len()
            invariant
                rows == self.text_rows(),
                midv == mid@.map_values(|r: String| r@),
                b <= k <= rows.len(),
                out@.map_values(|r: String| r@) =~= rows.take(a as int) + midv + rows.subrange(
                    b as int,
                    k as int,
                ),
            decreases rows.len() - k,
        {
            let ghost prev = out@;
            out.push(self.rows[k].clone());
            proof {
                assert(out@ =~= prev.push(self.rows@[k as int]));
                assert(rows.subrange(b as int, k + 1) =~= rows.subrange(b as int, k as int).push(
                    rows[k as int],
                ));
                assert(out@.map_values(|r: String| r@) =~= prev.map_values(|r: String| r@).push(
                    rows[k as int],
                ));
            }
            k += 1;
        }
        proof {
            assert(midv.take(mid@.len() as int) =~= midv);
            assert(rows.subrange(b as int, rows.len() as int) =~= rows.skip(b as int));
        }
        self.rows = out;
    }

    /// Deletes the clusters between two columns of a row; false when that range is empty.
    fn delete_range_of_row(&mut self, row_number: usize, start: usize, end: usize) -> (r: bool)
        requires
            rows_wf(old(self).text_rows()),
            row_number < old(self).rows@.len(),
        ensures
            rows_wf(final(self).text_rows()),
            final(self).cursor == old(self).cursor,
            final(self).selection == old(self).selection,
            ({
                let rows = old(self).text_rows();
                let left = min(start as int, end as int);
                let right = min(
                    vstd::math::max(start as int, end as int),
                    glyph_count(rows[row_number as int]) as int,
                );
                &&& r == (left < right)
                &&& r ==> final(self).text_rows() == rows.update(
                    row_number as int,
                    take_glyphs(rows[row_number as int], left) + drop_glyphs(
                        rows[row_number as int],
                        right,
                    ),
                )
                &&& !r ==> final(self).text_rows() == rows
            }),
    {
        let ghost rows = self.text_rows();
        let n = self.glyphs_in_row_of(row_number);
        let left = if start < end {
            start
        } else {
            end
        };
        let hi = if start < end {
            end
        } else {
            start
        };
        let right = if hi < n {
            hi
        } else {
            n
        };
        if left >= right {
            return false;
        }
        let mut text = self.row_head(row_number, left);
        let tail = self.row_tail(row_number, right);
        text.append(tail.as_str());
        let _ = clusters(&text);
        let mut mid: Vec<String> = Vec::new();
        mid.push(text);
        proof {
            let row = rows[row_number as int];
            lemma_row_ok(rows, row_number as int);
            lemma_index_bounds(rows, row_number as int);
            lemma_take_drop(row, left as int);
            lemma_take_drop(row, right as int);
            lemma_take_len_mono(row, left as int, right as int);
            lemma_no_break_parts(take_glyphs(row, left as int), drop_glyphs(row, left as int));
            lemma_no_break_parts(take_glyphs(row, right as int), drop_glyphs(row, right as int));
            lemma_no_break_join(take_glyphs(row, left as int), drop_glyphs(row, right as int));
            let midv = mid@.map_values(|r: String| r@);
            assert(midv =~= seq![text@]);
            lemma_budget_single(text@);
            lemma_budget_single(row);
            assert(rows.subrange(row_number as int, row_number + 1) =~= seq![row]);
            lemma_splice_wf(rows, row_number as int, row_number + 1, midv, 0);
            assert(splice(rows, row_number as int, row_number + 1, midv) =~= rows.update(
                row_number as int,
                text@,
            ));
        }
        self.splice_rows(row_number, row_number + 1, mid);
        true
    }

    /// Cluster count of a row, for rows that need not hold a cursor.
    fn glyphs_in_row_of(&self, row_number: usize) -> (r: usize)
        requires
            row_number < self.rows@.len(),
        ensures
            r == glyph_count(self.text_rows()[row_number as int]),
    {
        let g = clusters(&self.rows[row_number]);
        proof {
            assert(self.text_rows()[row_number as int] == self.rows@[row_number as int]@);
        }
        g.len()
    }

    /// Puts the cursor at a cursor index, clamped to the document's end.
    fn place_cursor(&mut self, index: usize)
        requires
            rows_wf(old(self).text_rows()),
            old(self).selection.start == old(self).selection.end,
        ensures
            final(self).wf(),
            final(self).rows == old(self).rows,
            final(self).selection == old(self).selection,
            final(self).cursor.row == row_of_index(
                old(self).text_rows(),
                min(index as int, total_length(old(self).text_rows())),
            ),
            final(self).cursor.column == col_of_index(
                old(self).text_rows(),
                min(index as int, total_length(old(self).text_rows())),
            ),
    {
        self.cursor = TheCursor { row: 0, column: 0 };
        proof {
            lemma_start_nonneg(self.text_rows(), self.rows@.len() - 1);
        }
        let total = self.total_len();
        let i = if index < total {
            index
        } else {
            total
        };
        let (row, col) = self.find_row_col_of_index(i);
        proof {
            lemma_row_of_index(self.text_rows(), i as int);
            lemma_col_of_index(self.text_rows(), i as int);
        }
        self.cursor = TheCursor { row, column: col };
    }

    /// Deletes the selected text and clears the selection; the cursor keeps its
    /// place in the remaining text. False when nothing is selected.
    fn delete_text_by_selection(&mut self) -> (r: bool)
        requires
            old(self).wf(),
        ensures
            final(self).wf(),
            r == (old(self).selection.start != old(self).selection.end),
            (final(self).text_rows(), final(self).cursor.row as int, final(self).cursor.column as int)
                == after_delete(
                old(self).text_rows(),
                old(self).selection.start as int,
                old(self).selection.end as int,
                old(self).cursor.row as int,
                old(self).cursor.column as int,
            ),
            r ==> final(self).selection.start == 0 && final(self).selection.end == 0,
            !r ==> final(self).selection == old(self).selection,
            char_budget(final(self).text_rows()) <= char_budget(old(self).text_rows()),
    {
        if self.selection.is_none() {
            return false;
        }
        let ghost rows = self.text_rows();
        let a = self.selection.start;
        let b = self.selection.end;
        let cursor_index = self.find_cursor_index();
        let (ra, ca) = self.find_row_col_of_index(a);
        let (rb, cb) = self.find_row_col_of_index(b);
        proof {
            lemma_row_of_index(rows, a as int);
            lemma_row_of_index(rows, b as int);
            lemma_col_of_index(rows, a as int);
            lemma_col_of_index(rows, b as int);
            lemma_row_of_index_mono(rows, a as int, b as int);
            lemma_index_bounds(rows, self.cursor.row as int);
        }
        let mut text = self.row_head(ra, ca);
        let tail = self.row_tail(rb, cb);
        text.append(tail.as_str());
        let _ = clusters(&text);
        let mut mid: Vec<String> = Vec::new();
        mid.push(text);
        proof {
            let midv = mid@.map_values(|r: String| r@);
            assert(midv =~= seq![text@]);
            lemma_delete_budget(rows, a as int, b as int);
            lemma_splice_wf(rows, ra as int, rb + 1, midv, 0);
        }
        self.splice_rows(ra, rb + 1, mid);
        self.selection = TheSelection { start: 0, end: 0 };
        let index = if cursor_index < a {
            cursor_index
        } else if cursor_index < b {
            a
        } else {
            cursor_index - (b - a)
        };
        self.place_cursor(index);
        true
    }

    /// The text between two cursor indices, with a line break for each row boundary crossed.
    fn get_text(&self, start: usize, end: usize) -> (r: String)
        requires
            self.wf(),
            start <= end <= total_length(self.text_rows()),
        ensures
            r@ == text_between(self.text_rows(), start as int, end as int),
    {
        let ghost rows = self.text_rows();
        let (start_row, start_col) = self.find_row_col_of_index(start);
        let (end_row, end_col) = self.find_row_col_of_index(end);
        proof {
            lemma_row_of_index(rows, start as int);
            lemma_row_of_index(rows, end as int);
            lemma_col_of_index(rows, start as int);
            lemma_col_of_index(rows, end as int);
            lemma_row_of_index_mono(rows, start as int, end as int);
        }
        if start_row == end_row {
            let gs = clusters(&self.rows[start_row]);
            let mut text = String::new();
            proof {
                assert(rows[start_row as int] == self.rows@[start_row as int]@);
                if start_col > end_col {
                    lemma_start_nonneg(rows, start_row as int);
                }
            }
            append_clusters(&mut text, &gs, start_col, end_col);
            text
        } else {
            let mut text = self.row_tail(start_row, start_col);
            let ghost first = seq![text@];
            proof {
                assert(rows.subrange(start_row + 1, start_row + 1) =~= Seq::<Seq<char>>::empty());
                assert(first + rows.subrange(start_row + 1, start_row + 1) =~= first);
            }
            let mut i: usize = start_row + 1;
            while i < end_row
                invariant
                    rows == self.text_rows(),
                    first.len() == 1,
                    start_row < i <= end_row < rows.len(),
                    text@ == join_lines(first + rows.subrange(start_row + 1, i as int)),
                decreases end_row - i,
            {
                let ghost prev = text@;
                push_char(&mut text, '\n');
                text.append(self.rows[i].as_str());
                proof {
                    assert(text@ =~= prev + seq!['\n'] + self.rows@[i as int]@);
                    let x = first + rows.subrange(start_row + 1, i + 1);
                    assert(x.drop_last() =~= first + rows.subrange(start_row + 1, i as int));
                    assert(x.last() == self.rows@[i as int]@);
                    assert(first.len() == 1);
                    assert(rows.subrange(start_row + 1, i + 1).len() == i - start_row);
                    assert(x.len() >= 2);
                    assert(join_lines(x) == join_lines(x.drop_last()) + seq!['\n'] + x.last());
                }
                i += 1;
            }
            let head = self.row_head(end_row, end_col);
            let ghost prev = text@;
            push_char(&mut text, '\n');
            text.append(head.as_str());
            proof {
                assert(text@ =~= prev + seq!['\n'] + head@);
                let x = first + rows.subrange(start_row + 1, end_row as int) + seq![head@];
                assert(x.drop_last() =~= first + rows.subrange(start_row + 1, end_row as int));
            }
            text
        }
    }

    /// Removes the selected text and returns it; an empty string when nothing is selected.
    pub fn cut_text(&mut self) -> (r: String)
        requires
            old(self).wf(),
        ensures
            final(self).wf(),
            r@ == text_between(
                old(self).text_rows(),
                old(self).selection.start as int,
                old(self).selection.end as int,
            ),
            (final(self).text_rows(), final(self).cursor.row as int, final(self).cursor.column as int)
                == after_delete(
                old(self).text_rows(),
                old(self).selection.start as int,
                old(self).selection.end as int,
                old(self).cursor.row as int,
                old(self).cursor.column as int,
            ),
            old(self).selection.start != old(self).selection.end ==> final(self).selection.start
                == 0 && final(self).selection.end == 0,
            old(self).selection.start == old(self).selection.end ==> final(self).selection == old(
                self,
            ).selection,
    {
        let text = if self.selection.is_none() {
            String::new()
        } else {
            self.get_text(self.selection.start, self.selection.end)
        };
        proof {
            if self.selection.start == self.selection.end {
                lemma_text_between_empty(self.text_rows(), self.selection.start as int);
            }
        }
        self.delete_text_by_selection();
        text
    }

    /// Deletes the cluster before the cursor, joining the row to the previous
    /// one at its start; false at the start of the document.
    fn delete_char_by_cursor(&mut self) -> (r: bool)
        requires
            old(self).wf(),
            old(self).selection.start == old(self).selection.end,
        ensures
            final(self).wf(),
            final(self).selection == old(self).selection,
            r == !(old(self).cursor.row == 0 && old(self).cursor.column == 0),
            (final(self).text_rows(), final(self).cursor.row as int, final(self).cursor.column as int)
                == after_backspace(
                old(self).text_rows(),
                old(self).cursor.row as int,
                old(self).cursor.column as int,
            ),
            char_budget(final(self).text_rows()) <= char_budget(old(self).text_rows()),
    {
        let ghost rows = self.text_rows();
        if self.cursor.is_zero() {
            return false;
        }
        let row = self.cursor.row;
        if self.cursor.column == 0 {
            let n = self.glyphs_in_row(row - 1);
            let mut merged = self.rows[row - 1].clone();
            merged.append(self.rows[row].as_str());
            let m = clusters(&merged).len();
            let mut mid: Vec<String> = Vec::new();
            mid.push(merged);
            proof {
                lemma_index_bounds(rows, row as int);
                lemma_row_ok(rows, row - 1);
                lemma_row_ok(rows, row as int);
                lemma_no_break_join(rows[row - 1], rows[row as int]);
                let midv = mid@.map_values(|r: String| r@);
                assert(midv =~= seq![merged@]);
                lemma_budget_single(merged@);
                assert(rows.subrange(row - 1, row + 1) =~= seq![rows[row - 1]] + seq![rows[row as int]]);
                lemma_budget_concat(seq![rows[row - 1]], seq![rows[row as int]]);
                lemma_budget_single(rows[row - 1]);
                lemma_budget_single(rows[row as int]);
                lemma_splice_wf(rows, row - 1, row + 1, midv, 0);
            }
            self.splice_rows(row - 1, row + 1, mid);
            self.cursor = TheCursor { row: row - 1, column: if n < m { n } else { m } };
            return true;
        }
        let col = self.cursor.column;
        self.delete_range_of_row(row, col - 1, col);
        proof {
            lemma_row_ok(rows, row as int);
            lemma_take_drop(rows[row as int], col - 1);
            lemma_take_drop(rows[row as int], col as int);
            lemma_take_len_mono(rows[row as int], col - 1, col as int);
            assert(rows.subrange(row as int, row + 1) =~= seq![rows[row as int]]);
            lemma_budget_single(rows[row as int]);
            lemma_budget_single(self.text_rows()[row as int]);
            lemma_budget_concat(rows.take(row as int), seq![rows[row as int]]);
            lemma_budget_concat(rows.take(row as int) + seq![rows[row as int]], rows.skip(row + 1));
            assert(rows.take(row as int) + seq![rows[row as int]] + rows.skip(row + 1) =~= rows);
            let nr = self.text_rows();
            lemma_budget_concat(nr.take(row as int), seq![nr[row as int]]);
            lemma_budget_concat(nr.take(row as int) + seq![nr[row as int]], nr.skip(row + 1));
            assert(nr.take(row as int) + seq![nr[row as int]] + nr.skip(row + 1) =~= nr);
            assert(nr.take(row as int) =~= rows.take(row as int));
            assert(nr.skip(row + 1) =~= rows.skip(row + 1));
        }
        let n = self.glyphs_in_row_of(row);
        self.cursor.column = if col - 1 < n { col - 1 } else { n };
        proof {
            lemma_start_nonneg(self.text_rows(), self.rows@.len() - 1);
        }
        true
    }

    /// Deletes the selection if there is one, otherwise the cluster before the cursor.
    pub fn delete_text(&mut self) -> (r: bool)
        requires
            old(self).wf(),
        ensures
            final(self).wf(),
            old(self).selection.start != old(self).selection.end ==> r && (
                final(self).text_rows(),
                final(self).cursor.row as int,
                final(self).cursor.column as int,
            ) == after_delete(
                old(self).text_rows(),
                old(self).selection.start as int,
                old(self).selection.end as int,
                old(self).cursor.row as int,
                old(self).cursor.column as int,
            ) && final(self).selection.start == 0 && final(self).selection.end == 0,
            old(self).selection.start == old(self).selection.end ==> r == !(old(self).cursor.row
                == 0 && old(self).cursor.column == 0) && (
                final(self).text_rows(),
                final(self).cursor.row as int,
                final(self).cursor.column as int,
            ) == after_backspace(
                old(self).text_rows(),
                old(self).cursor.row as int,
                old(self).cursor.column as int,
            ) && final(self).selection == old(self).selection,
    {
        if !self.selection.is_none() {
            self.delete_text_by_selection()
        } else {
            self.delete_char_by_cursor()
        }
    }

    /// Splits the cursor's row at the cursor and moves the cursor to the start of the new row.
    pub fn insert_row(&mut self)
        requires
            old(self).wf(),
            char_budget(old(self).text_rows()) < usize::MAX,
        ensures
            final(self).wf(),
            ({
                let d = after_delete(
                    old(self).text_rows(),
                    old(self).selection.start as int,
                    old(self).selection.end as int,
                    old(self).cursor.row as int,
                    old(self).cursor.column as int,
                );
                (final(self).text_rows(), final(self).cursor.row as int, final(self).cursor.column as int)
                    == after_insert_row(d.0, d.1, d.2)
            }),
            old(self).selection.start != old(self).selection.end ==> final(self).selection.start
                == 0 && final(self).selection.end == 0,
            old(self).selection.start == old(self).selection.end ==> final(self).selection == old(
                self,
            ).selection,
    {
        if !self.selection.is_none() {
            self.delete_text_by_selection();
        }
        let ghost rows = self.text_rows();
        let row = self.cursor.row;
        let col = self.cursor.column;
        let head = self.row_head(row, col);
        let tail = self.row_tail(row, col);
        let _ = clusters(&head);
        let _ = clusters(&tail);
        let mut mid: Vec<String> = Vec::new();
        mid.push(head);
        mid.push(tail);
        proof {
            lemma_row_ok(rows, row as int);
            lemma_index_bounds(rows, row as int);
            lemma_take_drop(rows[row as int], col as int);
            lemma_no_break_parts(take_glyphs(rows[row as int], col as int), drop_glyphs(rows[row as int], col as int));
            let midv = mid@.map_values(|r: String| r@);
            assert(midv =~= seq![head@] + seq![tail@]);
            lemma_budget_concat(seq![head@], seq![tail@]);
            lemma_budget_single(head@);
            lemma_budget_single(tail@);
            lemma_budget_single(rows[row as int]);
            assert(rows.subrange(row as int, row + 1) =~= seq![rows[row as int]]);
            lemma_splice_wf(rows, row as int, row + 1, midv, 1);
            assert(midv =~= seq![take_glyphs(rows[row as int], col as int), drop_glyphs(rows[row as int], col as int)]);
        }
        self.splice_rows(row, row + 1, mid);
        self.cursor = TheCursor { row: row + 1, column: 0 };
    }

    /// Inserts one character at the cursor and steps the cursor past it.
    pub fn insert_char(&mut self, char: char)
        requires
            old(self).wf(),
            char != '\n',
            char_budget(old(self).text_rows()) < usize::MAX,
        ensures
            final(self).wf(),
            ({
                let d = after_delete(
                    old(self).text_rows(),
                    old(self).selection.start as int,
                    old(self).selection.end as int,
                    old(self).cursor.row as int,
                    old(self).cursor.column as int,
                );
                (final(self).text_rows(), final(self).cursor.row as int, final(self).cursor.column as int)
                    == after_insert_char(d.0, d.1, d.2, char)
            }),
            old(self).selection.start != old(self).selection.end ==> final(self).selection.start
                == 0 && final(self).selection.end == 0,
            old(self).selection.start == old(self).selection.end ==> final(self).selection == old(
                self,
            ).selection,
    {
        if !self.selection.is_none() {
            self.delete_text_by_selection();
        }
        let ghost rows = self.text_rows();
        let row = self.cursor.row;
        let col = self.cursor.column;
        let mut text = self.row_head(row, col);
        let tail = self.row_tail(row, col);
        push_char(&mut text, char);
        text.append(tail.as_str());
        assert(text@ =~= take_glyphs(rows[row as int], col as int) + seq![char] + drop_glyphs(
            rows[row as int],
            col as int,
        ));
        let n = clusters(&text).len();
        let mut mid: Vec<String> = Vec::new();
        mid.push(text);
        proof {
            let row_s = rows[row as int];
            lemma_index_bounds(rows, row as int);
            lemma_row_ok(rows, row as int);
            lemma_take_drop(row_s, col as int);
            lemma_no_break_parts(take_glyphs(row_s, col as int), drop_glyphs(row_s, col as int));
            assert(no_break(seq![char]));
            lemma_no_break_join(take_glyphs(row_s, col as int), seq![char]);
            lemma_no_break_join(take_glyphs(row_s, col as int) + seq![char], drop_glyphs(row_s, col as int));
            let midv = mid@.map_values(|r: String| r@);
            assert(midv =~= seq![text@]);
            lemma_budget_single(text@);
            lemma_budget_single(row_s);
            assert(rows.subrange(row as int, row + 1) =~= seq![row_s]);
            lemma_splice_wf(rows, row as int, row + 1, midv, 1);
            assert(splice(rows, row as int, row + 1, midv) =~= rows.update(row as int, text@));
        }
        self.splice_rows(row, row + 1, mid);
        self.cursor.column = if col < n { col } else { n };
        proof {
            lemma_start_nonneg(self.text_rows(), self.rows@.len() - 1);
        }
        self.move_cursor_right();
    }

    /// Inserts a text at the cursor, splitting it into rows at its line breaks,
    /// and moves the cursor to its end. Returns the cursor-index range it covers.
    pub fn insert_text(&mut self, text: String) -> (r: (usize, usize))
        requires
            old(self).wf(),
            char_budget(old(self).text_rows()) + text@.len() <= usize::MAX,
        ensures
            final(self).wf(),
            ({
                let d = after_delete(
                    old(self).text_rows(),
                    old(self).selection.start as int,
                    old(self).selection.end as int,
                    old(self).cursor.row as int,
                    old(self).cursor.column as int,
                );
                &&& final(self).text_rows() == after_insert(d.0, d.1, d.2, text@).0
                &&& final(self).cursor.row == after_insert(d.0, d.1, d.2, text@).1
                &&& final(self).cursor.column == after_insert(d.0, d.1, d.2, text@).2
                &&& r.0 == cursor_index(d.0, d.1, d.2)
                &&& r.1 == r.0 + glyph_count(text@)
            }),
            old(self).selection.start != old(self).selection.end ==> final(self).selection.start
                == 0 && final(self).selection.end == 0,
            old(self).selection.start == old(self).selection.end ==> final(self).selection == old(
                self,
            ).selection,
    {
        if !self.selection.is_none() {
            self.delete_text_by_selection();
        }
        let ghost rows = self.text_rows();
        let row = self.cursor.row;
        let col = self.cursor.column;
        let start = self.find_cursor_index();
        let glyph_count = clusters(&text).len();
        let pieces = split_lines(text.as_str());
        let ghost ls = lines_of(text@);
        proof {
            lemma_index_bounds(rows, row as int);
            lemma_glyph_count_le(text@);
            lemma_lines_of(text@);
            lemma_budget_ge_len(ls);
            lemma_row_ok(rows, row as int);
            lemma_take_drop(rows[row as int], col as int);
            lemma_no_break_parts(take_glyphs(rows[row as int], col as int), drop_glyphs(rows[row as int], col as int));
            assert(rows.subrange(row as int, row + 1) =~= seq![rows[row as int]]);
            lemma_budget_single(rows[row as int]);
        }
        let head = self.row_head(row, col);
        let tail = self.row_tail(row, col);
        if pieces.len() == 1 {
            let mut x = head;
            x.append(text.as_str());
            x.append(tail.as_str());
            let n = clusters(&x).len();
            let mut mid: Vec<String> = Vec::new();
            mid.push(x);
            proof {
                assert(pieces@[0]@ == ls[0]);
                assert(join_lines(ls) == ls[0]);
                lemma_no_break_join(take_glyphs(rows[row as int], col as int), text@);
                lemma_no_break_join(take_glyphs(rows[row as int], col as int) + text@, drop_glyphs(rows[row as int], col as int));
                let midv = mid@.map_values(|r: String| r@);
                assert(midv =~= seq![x@]);
                lemma_budget_single(x@);
                lemma_splice_wf(rows, row as int, row + 1, midv, text@.len() as int);
                assert(splice(rows, row as int, row + 1, midv) =~= rows.update(row as int, x@));
            }
            self.splice_rows(row, row + 1, mid);
            self.cursor.column = if col + glyph_count < n { col + glyph_count } else { n };
            proof {
                lemma_start_nonneg(self.text_rows(), self.rows@.len() - 1);
            }
            return (start, start + glyph_count);
        }
        let k = pieces.len() - 1;
        let mut first = head;
        first.append(pieces[0].as_str());
        let _ = clusters(&first);
        let mut mid: Vec<String> = Vec::new();
        mid.push(first);
        proof {
            assert(pieces@[0]@ == ls[0]);
            assert(no_break(ls[0]));
            lemma_no_break_join(take_glyphs(rows[row as int], col as int), ls[0]);
            assert(mid@.map_values(|r: String| r@) =~= seq![first@] + ls.subrange(1, 1));
        }
        let mut i: usize = 1;
        while i < k
            invariant
                pieces@.map_values(|p: String| p@) == ls,
                k == pieces@.len() - 1,
                1 <= i <= k,
                mid@.map_values(|r: String| r@) =~= seq![first@] + ls.subrange(1, i as int),
                forall|j: int| 0 <= j < mid@.len() ==> #[trigger] segmented(mid@[j]@),
            decreases k - i,
        {
            let _ = clusters(&pieces[i]);
            let ghost prev = mid@;
            mid.push(pieces[i].clone());
            proof {
                assert(pieces@[i as int]@ == ls[i as int]);
                assert(mid@ =~= prev.push(pieces@[i as int]));
                assert(ls.subrange(1, i + 1) =~= ls.subrange(1, i as int).push(ls[i as int]));
                assert(mid@.map_values(|r: String| r@) =~= prev.map_values(|r: String| r@).push(ls[i as int]));
                assert forall|j: int| 0 <= j < mid@.len() implies #[trigger] segmented(mid@[j]@) by {
                    if j < prev.len() {
                        assert(mid@[j] == prev[j]);
                    }
                }
            }
            i += 1;
        }
        let last_count = clusters(&pieces[k]).len();
        let mut last = pieces[k].clone();
        last.append(tail.as_str());
        let n = clusters(&last).len();
        let ghost prev = mid@;
        mid.push(last);
        proof {
            let midv = mid@.map_values(|r: String| r@);
            let head_s = take_glyphs(rows[row as int], col as int);
            let tail_s = drop_glyphs(rows[row as int], col as int);
            assert(pieces@[k as int]@ == ls[k as int]);
            assert(mid@ =~= prev.push(last));
            assert(midv =~= seq![head_s + ls[0]] + ls.subrange(1, k as int) + seq![ls[k as int] + tail_s]);
            assert(no_break(ls[k as int]));
            lemma_no_break_join(ls[k as int], tail_s);
            assert forall|j: int| 0 <= j < midv.len() implies #[trigger] segmented(midv[j]) && no_break(midv[j]) by {
                if j < prev.len() {
                    assert(mid@[j] == prev[j]);
                }
                if 1 <= j < k {
                    assert(midv[j] == ls[j]);
                }
            }
            lemma_lines_budget(ls, head_s, tail_s);
            lemma_splice_wf(rows, row as int, row + 1, midv, text@.len() as int);
        }
        self.splice_rows(row, row + 1, mid);
        self.cursor = TheCursor { row: row + k, column: if last_count < n { last_count } else { n } };
        proof {
            lemma_start_nonneg(self.text_rows(), self.rows@.len() - 1);
        }
        (start, start + glyph_count)
    }

    /// Selects the run of whitespace or of other clusters at the cursor; at the
    /// end of a row, its line break; on an empty last row, the line break before it.
    pub fn quick_select(&mut self)
        requires
            old(self).wf(),
        ensures
            final(self).wf(),
            final(self).rows == old(self).rows,
            ({
                let rows = old(self).text_rows();
                let r = old(self).cursor.row as int;
                let c = old(self).cursor.column as int;
                let n = glyph_count(rows[r]) as int;
                let st = start_of_row(rows, r);
                if c >= n && r == rows.len() - 1 && n == 0 {
                    if r == 0 {
                        final(self).selection == old(self).selection && final(self).cursor == old(
                            self,
                        ).cursor
                    } else {
                        &&& final(self).selection.start == st - 1
                        &&& final(self).selection.end == st
                        &&& final(self).cursor.row == r - 1
                        &&& final(self).cursor.column == glyph_count(rows[r - 1])
                    }
                } else if c >= n && r < rows.len() - 1 {
                    &&& final(self).selection.start == st + n
                    &&& final(self).selection.end == st + n + 1
                    &&& final(self).cursor == old(self).cursor
                } else {
                    &&& final(self).cursor == old(self).cursor
                    &&& is_run(
                        space_flags(rows[r]),
                        min(c, n - 1),
                        final(self).selection.start - st,
                        final(self).selection.end - st,
                    )
                }
            }),
    {
        let ghost rows = self.text_rows();
        let row = self.cursor.row;
        let col = self.cursor.column;
        let gs = clusters(&self.rows[row]);
        let n = gs.len();
        let (row_start, row_end) = self.find_range_of_row(row);
        proof {
            assert(rows[row as int] == self.rows@[row as int]@);
            lemma_index_bounds(rows, row as int);
            if row > 0 {
                lemma_start_mono(rows, row - 1, row as int);
                lemma_start_nonneg(rows, row - 1);
            }
            if row + 1 < rows.len() {
                lemma_start_mono(rows, row as int, rows.len() - 1);
            }
        }
        if col >= n {
            if self.is_last_row(row) {
                if n == 0 {
                    if row == 0 {
                        return;
                    }
                    self.selection = TheSelection { start: row_start - 1, end: row_start };
                    self.move_cursor_left();
                    return;
                }
            } else {
                proof {
                    lemma_start_mono(rows, row as int, rows.len() - 1);
                }
                self.selection = TheSelection { start: row_end - 1, end: row_end };
                return;
            }
        }
        let c = if col < n - 1 {
            col
        } else {
            n - 1
        };
        let mut flags: Vec<bool> = Vec::new();
        let mut i: usize = 0;
        while i < n
            invariant
                gs@.map_values(|g: String| g@) == graphemes_of(rows[row as int]),
                n == gs@.len(),
                i <= n,
                flags@ =~= space_flags(rows[row as int]).take(i as int),
            decreases n - i,
        {
            let f = match first_char(gs[i].as_str()) {
                Some(ch) => is_whitespace(ch),
                None => false,
            };
            proof {
                assert(gs@[i as int]@ == graphemes_of(rows[row as int])[i as int]);
            }
            flags.push(f);
            i += 1;
        }
        let (s, e) = find_range(&flags, c);
        proof {
            lemma_row_ok(rows, row as int);
            lemma_take_drop(rows[row as int], 0);
            assert(space_flags(rows[row as int]).take(n as int) =~= space_flags(rows[row as int]));
        }
        self.selection = TheSelection { start: row_start + s, end: row_start + e };
    }

    /// The moved rows and their neighbour, in their order after the move.
    fn moved_block(&self, start: usize, end: usize, down: bool) -> (r: Vec<String>)
        requires
            self.wf(),
            start <= end < self.rows@.len(),
            down ==> end + 1 < self.rows@.len(),
            !down ==> start > 0,
        ensures
            r@.map_values(|x: String| x@) == moved_mid(
                self.text_rows(),
                start as int,
                end as int,
                down,
            ),
    {
        let ghost rows = self.text_rows();
        proof {
            lemma_index_bounds(rows, end as int);
        }
        let adj = if down {
            end + 1
        } else {
            start - 1
        };
        let mut mid: Vec<String> = Vec::new();
        if down {
            mid.push(self.rows[adj].clone());
        }
        proof {
            assert(mid@.map_values(|r: String| r@) =~= (if down {
                seq![rows[adj as int]]
            } else {
                Seq::empty()
            }) + rows.subrange(start as int, start as int));
        }
        let mut i: usize = start;
        while i <= end
            invariant
                rows == self.text_rows(),
                start <= i <= end + 1,
                end + 1 <= rows.len() <= usize::MAX,
                adj < rows.len(),
                mid@.map_values(|r: String| r@) =~= (if down {
                    seq![rows[adj as int]]
                } else {
                    Seq::empty()
                }) + rows.subrange(start as int, i as int),
            decreases end + 1 - i,
        {
            let ghost prev = mid@;
            mid.push(self.rows[i].clone());
            proof {
                assert(mid@ =~= prev.push(self.rows@[i as int]));
                assert(mid@.map_values(|r: String| r@) =~= prev.map_values(|r: String| r@).push(
                    rows[i as int],
                ));
            }
            i += 1;
        }
        if !down {
            let ghost prev = mid@;
            mid.push(self.rows[adj].clone());
            proof {
                assert(mid@ =~= prev.push(self.rows@[adj as int]));
                assert(mid@.map_values(|r: String| r@) =~= prev.map_values(|r: String| r@).push(
                    rows[adj as int],
                ));
            }
        }
        proof {
            assert(mid@.map_values(|r: String| r@) =~= moved_mid(rows, start as int, end as int, down));
        }
        mid
    }

    /// Moves the rows `[start, end]` one row up or down past their neighbour;
    /// the cursor stays on its text, and a selection moves with the rows.
    fn move_lines(&mut self, start: usize, end: usize, down: bool) -> (r: bool)
        requires
            old(self).wf(),
            start <= end < old(self).rows@.len(),
            old(self).selection.start < old(self).selection.end ==> start == row_of_index(
                old(self).text_rows(),
                old(self).selection.start as int,
            ) && end == row_of_index(old(self).text_rows(), old(self).selection.end as int),
        ensures
            final(self).wf(),
            (final(self).text_rows(), final(self).cursor, final(self).selection) == moved_lines(
                old(self).text_rows(),
                old(self).cursor,
                old(self).selection,
                start as int,
                end as int,
                down,
            ),
            r == (if down {
                end + 1 < old(self).rows@.len()
            } else {
                start > 0
            }),
    {
        let ghost rows = self.text_rows();
        proof {
            lemma_index_bounds(rows, end as int);
        }
        if (!down && start == 0) || (down && end + 1 >= self.rows.len()) {
            return false;
        }
        let (a, b, adj) = if down {
            (start, end + 2, end + 1)
        } else {
            (start - 1, end + 1, start - 1)
        };
        let mid = self.moved_block(start, end, down);
        proof {
            lemma_index_bounds(rows, adj as int);
        }
        let shift = self.glyphs_in_row(adj) + 1;
        proof {
            lemma_moved_rows(rows, start as int, end as int, down);
            lemma_splice_wf(rows, a as int, b as int, moved_mid(rows, start as int, end as int, down), 0);
            if self.selection.start != self.selection.end {
                lemma_selection_shift(rows, self.selection.start as int, self.selection.end as int, down);
            }
        }
        self.splice_rows(a, b, mid);
        proof {
            lemma_moved_rows_index(rows, start as int, end as int, down, self.cursor.row as int);
        }
        if !self.selection.is_none() {
            if down {
                self.selection.start += shift;
                self.selection.end += shift;
            } else {
                self.selection.start -= shift;
                self.selection.end -= shift;
            }
        }
        let row = self.cursor.row;
        if start <= row && row <= end {
            self.cursor.row = if down {
                row + 1
            } else {
                row - 1
            };
        } else if row == adj {
            self.cursor.row = if down {
                start
            } else {
                end
            };
        }
        true
    }

    /// Moves the cursor's row, or the rows of the selection, one row down.
    pub fn move_lines_down(&mut self) -> (r: bool)
        requires
            old(self).wf(),
        ensures
            final(self).wf(),
            ({
                let (s, e) = line_span(old(self).text_rows(), old(self).cursor, old(self).selection);
                &&& (final(self).text_rows(), final(self).cursor, final(self).selection) == moved_lines(
                    old(self).text_rows(),
                    old(self).cursor,
                    old(self).selection,
                    s,
                    e,
                    true,
                )
                &&& r == (e + 1 < old(self).rows@.len())
            }),
    {
        if self.selection.is_none() {
            self.move_lines(self.cursor.row, self.cursor.row, true)
        } else {
            let s = self.find_row_number_of_index(self.selection.start);
            let e = self.find_row_number_of_index(self.selection.end);
            proof {
                lemma_row_of_index(self.text_rows(), self.selection.end as int);
                lemma_row_of_index_mono(self.text_rows(), self.selection.start as int, self.selection.end as int);
            }
            self.move_lines(s, e, true)
        }
    }

    /// Moves the cursor's row, or the rows of the selection, one row up.
    pub fn move_lines_up(&mut self) -> (r: bool)
        requires
            old(self).wf(),
        ensures
            final(self).wf(),
            ({
                let (s, e) = line_span(old(self).text_rows(), old(self).cursor, old(self).selection);
                &&& (final(self).text_rows(), final(self).cursor, final(self).selection) == moved_lines(
                    old(self).text_rows(),
                    old(self).cursor,
                    old(self).selection,
                    s,
                    e,
                    false,
                )
                &&& r == (s > 0)
            }),
    {
        if self.selection.is_none() {
            self.move_lines(self.cursor.row, self.cursor.row, false)
        } else {
            let s = self.find_row_number_of_index(self.selection.start);
            let e = self.find_row_number_of_index(self.selection.end);
            proof {
                lemma_row_of_index(self.text_rows(), self.selection.end as int);
                lemma_row_of_index_mono(self.text_rows(), self.selection.start as int, self.selection.end as int);
            }
            self.move_lines(s, e, false)
        }
    }
}

/// An empty row, with its clusters known.
fn empty_row() -> (r: String)
    ensures
        r@ == Seq::<char>::empty(),
        segmented(r@),
{
    let row = String::new();
    let _ = clusters(&row);
    row
}

/// The longest run of equal flags that holds position `index`, as `[start, end)`.
pub fn find_range(flags: &Vec<bool>, index: usize) -> (r: (usize, usize))
    requires
        index < flags@.len(),
    ensures
        is_run(flags@, index as int, r.0 as int, r.1 as int),
{
    let f = flags[index];
    let mut start: usize = index;
    while start > 0 && flags[start - 1] == f
        invariant
            start <= index < flags@.len(),
            f == flags@[index as int],
            forall|j: int| start <= j <= index ==> flags@[j] == f,
        decreases start,
    {
        start -= 1;
    }
    let n = flags.len();
    let mut end: usize = index + 1;
    while end < n && flags[end] == f
        invariant
            index < end <= flags@.len(),
            n == flags@.len(),
            f == flags@[index as int],
            forall|j: int| index <= j < end ==> flags@[j] == f,
        decreases flags@.len() - end,
    {
        end += 1;
    }
    (start, end)
}

/// The first character of a string.
fn first_char(s: &str) -> (r: Option<char>)
    ensures
        s@.len() > 0 ==> r == Some(s@[0]),
        s@.len() == 0 ==> r is None,
{
    broadcast use {vstd::string::axiom_spec_iter, vstd::string::next_postcondition};

    let mut it = s.chars();
    it.next()
}

} // verus!
