//! Row and glyph geometry of laid-out text, the scroll viewport over it, and
//! the mapping from pixel coordinates back to cursor positions.
use vstd::math::{max, min};
use vstd::prelude::*;

use crate::segment::{join_lines, push_char};
use crate::model::selected_range_of_row;
use crate::textedit::{TheCursor, TheTextEditState};
use vstd::utf8::encode_utf8;

verus! {

/// Largest pixel coordinate the layout works with: coordinates stay within `i32`.
pub const COORD_LIMIT: usize = 0x7fff_ffff;

/// A pair of unsigned pixel values: an offset or a size.
#[derive(Clone, Copy, Debug, PartialEq, Eq, Structural)]
pub struct Vec2u {
    pub x: usize,
    pub y: usize,
}

/// A pair of signed pixel values: a point or a displacement.
#[derive(Clone, Copy, Debug, PartialEq, Eq, Structural)]
pub struct Vec2i {
    pub x: i32,
    pub y: i32,
}

/// A rectangle in pixels.
#[derive(Clone, Copy, Debug, PartialEq, Eq, Structural)]
pub struct TheDim {
    pub x: i32,
    pub y: i32,
    pub width: i32,
    pub height: i32,
}

impl TheDim {
    pub fn new(x: i32, y: i32, width: i32, height: i32) -> (r: Self)
        ensures
            r.x == x && r.y == y && r.width == width && r.height == height,
    {
        TheDim { x, y, width, height }
    }

    pub open spec fn spec_zero() -> TheDim {
        TheDim { x: 0, y: 0, width: 0, height: 0 }
    }

    pub fn zero() -> (r: Self)
        ensures
            r == Self::spec_zero(),
    {
        TheDim { x: 0, y: 0, width: 0, height: 0 }
    }

    /// A rectangle with an area.
    pub fn is_valid(&self) -> (r: bool)
        ensures
            r == (self.width > 0 && self.height > 0),
    {
        self.width > 0 && self.height > 0
    }
}

/// One shaped glyph as the font-shaping service reports it, in whole pixels.
#[derive(Clone, Copy, Debug, PartialEq, Eq, Structural)]
pub struct TheShapedGlyph {
    pub parent: char,
    pub byte_offset: usize,
    pub x: usize,
    pub width: usize,
}

/// One shaped line: its vertical extent and baseline, and its glyphs
/// `[glyph_start, glyph_end]`.
#[derive(Clone, Copy, Debug, PartialEq, Eq, Structural)]
pub struct TheShapedLine {
    pub top: usize,
    pub bottom: usize,
    pub baseline: usize,
    pub glyph_start: usize,
    pub glyph_end: usize,
}

/// A glyph of the layout: its character, its bytes `[start, end)` in the
/// shaped text, its left edge and its width.
#[derive(Clone, Copy, Debug, PartialEq, Eq, Structural)]
pub struct TheGlyph {
    pub parent: char,
    pub start: usize,
    pub end: usize,
    pub x: usize,
    pub width: usize,
}

/// Geometry of one row: its box, its baseline, its glyphs
/// `[glyph_start, glyph_end]` and its colour runs, if highlighted.
#[derive(Debug)]
pub struct TheRowInfo {
    pub top: usize,
    pub left: usize,
    pub bottom: usize,
    pub right: usize,
    pub baseline: usize,
    pub glyph_start: usize,
    pub glyph_end: usize,
    pub highlights: Option<Vec<([u8; 4], usize)>>,
}

/// Colours the renderer draws with.
#[derive(Clone, Copy, Debug, PartialEq, Eq)]
pub struct TheTextColors {
    pub text: [u8; 4],
    pub caret: [u8; 4],
    pub selection: [u8; 4],
}

/// One drawing step on the surface, in pixels of the surface.
#[derive(Clone, Copy, Debug, PartialEq, Eq)]
pub enum TheDrawOp {
    /// Fill `(left, top, width, height)` with a colour.
    Rect { rect: (usize, usize, usize, usize), color: [u8; 4] },
    /// Blend a colour over `(left, top, width, height)`.
    BlendRect { rect: (usize, usize, usize, usize), color: [u8; 4] },
    /// Draw bytes `[start, end)` of row `row` with its left edge at `x` and
    /// its top at `y`, clipped to `clip`.
    Text {
        row: usize,
        start: usize,
        end: usize,
        x: i128,
        y: i128,
        clip: (usize, usize, usize, usize),
        color: [u8; 4],
    },
}

/// Number of bytes of a character in UTF-8.
pub open spec fn utf8_len(c: char) -> int {
    if (c as u32) < 0x80 {
        1
    } else if (c as u32) < 0x800 {
        2
    } else if (c as u32) < 0x10000 {
        3
    } else {
        4
    }
}

/// Number of bytes of a character in UTF-8.
pub fn len_utf8(c: char) -> (r: usize)
    ensures
        r == utf8_len(c),
{
    let v = c as u32;
    if v < 0x80 {
        1
    } else if v < 0x800 {
        2
    } else if v < 0x10000 {
        3
    } else {
        4
    }
}

/// Lays out text for drawing and hit testing, and scrolls over it.
pub struct TheTextRenderer {
    pub left: usize,
    pub top: usize,
    pub width: usize,
    pub height: usize,
    pub cursor_width: usize,
    pub cursor_vertical_shrink: usize,
    pub font_size: usize,
    pub padding: (usize, usize, usize, usize),
    pub selection_extend: usize,
    pub actual_size: Vec2u,
    pub glyphs: Vec<TheGlyph>,
    pub row_info: Vec<TheRowInfo>,
    pub scroll_offset: Vec2u,
}

/// Glyphs and rows that agree: each row's glyphs exist, and all coordinates
/// stay within the limit.
pub open spec fn layout_ok(glyphs: Seq<TheGlyph>, rows: Seq<TheRowInfo>) -> bool {
    &&& forall|i: int|
        0 <= i < glyphs.len() ==> #[trigger] glyphs[i].x + glyphs[i].width <= COORD_LIMIT
    &&& forall|i: int|
        0 <= i < rows.len() ==> {
            &&& #[trigger] rows[i].glyph_start <= rows[i].glyph_end
            &&& rows[i].glyph_end < glyphs.len()
            &&& rows[i].top <= rows[i].bottom <= COORD_LIMIT
            &&& rows[i].baseline <= COORD_LIMIT
            &&& rows[i].left <= COORD_LIMIT
            &&& rows[i].right <= COORD_LIMIT
        }
}

/// First row from `k` on whose bottom lies below `y`; the row count if none.
pub open spec fn first_bottom_past(rows: Seq<TheRowInfo>, y: int, k: int) -> int
    decreases rows.len() - k,
{
    if k < 0 || k >= rows.len() {
        rows.len() as int
    } else if rows[k].bottom > y {
        k
    } else {
        first_bottom_past(rows, y, k + 1)
    }
}

/// First row from `k` on whose top lies below `y`; the row count if none.
pub open spec fn first_top_past(rows: Seq<TheRowInfo>, y: int, k: int) -> int
    decreases rows.len() - k,
{
    if k < 0 || k >= rows.len() {
        rows.len() as int
    } else if rows[k].top > y {
        k
    } else {
        first_top_past(rows, y, k + 1)
    }
}

/// First row from `k` on whose bottom is at or below `y`; the row count if none.
pub open spec fn first_bottom_reaching(rows: Seq<TheRowInfo>, y: int, k: int) -> int
    decreases rows.len() - k,
{
    if k < 0 || k >= rows.len() {
        rows.len() as int
    } else if y <= rows[k].bottom {
        k
    } else {
        first_bottom_reaching(rows, y, k + 1)
    }
}

/// Rows `[first, last]` that the viewport at `offset_y` with height `height`
/// shows: from the first row that ends below the offset, to the row before
/// the first later one that starts below the viewport.
pub open spec fn visible_range(rows: Seq<TheRowInfo>, offset_y: int, height: int) -> Option<(int, int)> {
    let n = rows.len() as int;
    if n == 0 {
        None
    } else {
        let s0 = first_bottom_past(rows, offset_y, 0);
        let s = if s0 == n {
            0
        } else {
            s0
        };
        let e = if s < n - 1 {
            let t = first_top_past(rows, height + offset_y, s + 1);
            if t == n {
                n - 1
            } else {
                t - 1
            }
        } else {
            s
        };
        Some((s, e))
    }
}

/// Largest right edge of the rows `[s, e]`.
pub open spec fn max_right(rows: Seq<TheRowInfo>, s: int, e: int) -> int
    decreases e - s,
{
    if e <= s {
        rows[s].right as int
    } else {
        max(max_right(rows, s, e - 1), rows[e].right as int)
    }
}

/// An offset moved by `delta` and clamped to `[0, hi]`.
pub open spec fn clamp_offset(offset: int, delta: int, hi: int) -> int {
    min(max(offset + delta, 0), hi)
}

/// `a - b`, or zero when `b` is larger.
pub open spec fn sat_sub(a: int, b: int) -> int {
    if a > b {
        a - b
    } else {
        0
    }
}

/// Left edge of the glyph at `index`; past the last glyph, the right edge of the last one.
pub open spec fn text_left(glyphs: Seq<TheGlyph>, index: int) -> int {
    if glyphs.len() == 0 {
        0
    } else if index < glyphs.len() {
        glyphs[index].x as int
    } else {
        glyphs.last().x + glyphs.last().width
    }
}

/// First glyph of `[i, end]` whose right edge lies right of `x`; `end + 1` if none.
pub open spec fn first_glyph_past(glyphs: Seq<TheGlyph>, x: int, i: int, end: int) -> int
    decreases end + 1 - i,
{
    if i > end {
        end + 1
    } else if glyphs[i].x + glyphs[i].width > x {
        i
    } else {
        first_glyph_past(glyphs, x, i + 1, end)
    }
}

/// Column after the last glyph of a row: one more unless the row ends in a line break.
pub open spec fn row_end_column(glyphs: Seq<TheGlyph>, row: TheRowInfo, last: TheGlyph) -> int {
    row.glyph_end - row.glyph_start + if last.parent != '\n' {
        1int
    } else {
        0int
    }
}

/// The cursor under the content point `(x, y)`: the first row whose bottom is
/// at or below `y`, and in it the first glyph whose right edge is right of `x`;
/// before everything the document start, after everything the document end.
pub open spec fn hit(glyphs: Seq<TheGlyph>, rows: Seq<TheRowInfo>, x: int, y: int) -> (int, int) {
    if (x < 0 && y < 0) || glyphs.len() == 0 || rows.len() == 0 {
        (0, 0)
    } else {
        let r = first_bottom_reaching(rows, y, 0);
        if r < rows.len() {
            let row = rows[r];
            let g = first_glyph_past(glyphs, x, row.glyph_start as int, row.glyph_end as int);
            if g <= row.glyph_end {
                (r, g - row.glyph_start)
            } else {
                (r, row_end_column(glyphs, row, glyphs[row.glyph_end as int]))
            }
        } else {
            let last = rows.len() - 1;
            (last, row_end_column(glyphs, rows[last], glyphs.last()))
        }
    }
}

impl Default for TheTextRenderer {
    fn default() -> (r: Self)
        ensures
            r.wf(),
            r.row_info@.len() == 0,
            r.glyphs@.len() == 0,
            r.scroll_offset == (Vec2u { x: 0, y: 0 }),
            r.actual_size == (Vec2u { x: 0, y: 0 }),
    {
        TheTextRenderer {
            left: 0,
            top: 0,
            width: 0,
            height: 0,
            cursor_width: 2,
            cursor_vertical_shrink: 1,
            font_size: 14,
            padding: (5, 0, 5, 0),
            selection_extend: 2,
            actual_size: Vec2u { x: 0, y: 0 },
            glyphs: Vec::new(),
            row_info: Vec::new(),
            scroll_offset: Vec2u { x: 0, y: 0 },
        }
    }
}

impl TheTextRenderer {
    /// Geometry that agrees with itself, and sizes within the coordinate limit.
    pub open spec fn wf(&self) -> bool {
        &&& layout_ok(self.glyphs@, self.row_info@)
        &&& self.left <= COORD_LIMIT
        &&& self.top <= COORD_LIMIT
        &&& self.width <= COORD_LIMIT
        &&& self.height <= COORD_LIMIT
        &&& self.cursor_width <= COORD_LIMIT
        &&& self.cursor_vertical_shrink <= COORD_LIMIT
        &&& self.selection_extend <= COORD_LIMIT
        &&& self.font_size <= COORD_LIMIT
    }

    pub open spec fn spec_glyphs(&self) -> Seq<TheGlyph> {
        self.glyphs@
    }

    pub open spec fn spec_rows(&self) -> Seq<TheRowInfo> {
        self.row_info@
    }

    pub open spec fn spec_dim(&self) -> (usize, usize, usize, usize) {
        (self.left, self.top, self.width, self.height)
    }

    /// The widget's rectangle: the text area grown by the padding.
    pub fn dim(&self) -> (r: TheDim)
        requires
            self.left >= self.padding.0,
            self.top >= self.padding.1,
            self.width + self.padding.0 + self.padding.2 <= i32::MAX,
            self.height + self.padding.1 + self.padding.3 <= i32::MAX,
            self.left <= i32::MAX,
            self.top <= i32::MAX,
        ensures
            r.x == self.left - self.padding.0,
            r.y == self.top - self.padding.1,
            r.width == self.width + self.padding.0 + self.padding.2,
            r.height == self.height + self.padding.1 + self.padding.3,
    {
        TheDim::new(
            (self.left - self.padding.0) as i32,
            (self.top - self.padding.1) as i32,
            (self.width + self.padding.0 + self.padding.2) as i32,
            (self.height + self.padding.1 + self.padding.3) as i32,
        )
    }

    pub fn is_horizontal_overflow(&self) -> (r: bool)
        ensures
            r == (self.actual_size.x > self.width),
    {
        self.actual_size.x > self.width
    }

    pub fn is_vertical_overflow(&self) -> (r: bool)
        ensures
            r == (self.actual_size.y > self.height),
    {
        self.actual_size.y > self.height
    }

    pub fn row_baseline(&self, row_number: usize) -> (r: usize)
        requires
            row_number < self.row_info@.len(),
        ensures
            r == self.row_info@[row_number as int].baseline,
    {
        self.row_info[row_number].baseline
    }

    pub fn row_count(&self) -> (r: usize)
        ensures
            r == self.row_info@.len(),
    {
        self.row_info.len()
    }

    /// Places the text area.
    pub fn set_dim(&mut self, left: usize, top: usize, width: usize, height: usize)
        requires
            old(self).wf(),
            left <= COORD_LIMIT,
            top <= COORD_LIMIT,
            width <= COORD_LIMIT,
            height <= COORD_LIMIT,
        ensures
            final(self).wf(),
            final(self).spec_dim() == (left, top, width, height),
            final(self).spec_rows() == old(self).spec_rows(),
            final(self).spec_glyphs() == old(self).spec_glyphs(),
            final(self).scroll_offset == old(self).scroll_offset,
            same_style(final(self), old(self)),
            final(self).font_size == old(self).font_size,
            final(self).actual_size == old(self).actual_size,
    {
        self.left = left;
        self.top = top;
        self.width = width;
        self.height = height;
    }

    /// Sets the font size in pixels.
    pub fn set_font_size(&mut self, font_size: usize)
        requires
            old(self).wf(),
            font_size <= COORD_LIMIT,
        ensures
            final(self).wf(),
            final(self).font_size == font_size,
            final(self).spec_rows() == old(self).spec_rows(),
            final(self).spec_glyphs() == old(self).spec_glyphs(),
            same_style(final(self), old(self)),
            final(self).spec_dim() == old(self).spec_dim(),
            final(self).scroll_offset == old(self).scroll_offset,
            final(self).actual_size == old(self).actual_size,
    {
        self.font_size = font_size;
    }

    /// Bytes of the shaped text that the glyph at `index` comes from; past the
    /// last glyph, the empty range at the end.
    fn get_glyph_text_range(&self, index: usize) -> (r: (usize, usize))
        ensures
            self.glyphs@.len() == 0 ==> r == (0usize, 0usize),
            index < self.glyphs@.len() ==> r == (self.glyphs@[index as int].start, self.glyphs@[index as int].end),
            self.glyphs@.len() > 0 && index >= self.glyphs@.len() ==> r == (self.glyphs@.last().end, self.glyphs@.last().end),
    {
        if self.glyphs.len() == 0 {
            return (0, 0);
        }
        if index < self.glyphs.len() {
            return (self.glyphs[index].start, self.glyphs[index].end);
        }
        let last = self.glyphs.len() - 1;
        (self.glyphs[last].end, self.glyphs[last].end)
    }

    /// Left edge of the glyph at a cursor index.
    fn get_text_left(&self, index: usize) -> (r: usize)
        requires
            self.wf(),
        ensures
            r == text_left(self.glyphs@, index as int),
            r <= COORD_LIMIT,
    {
        if self.glyphs.len() == 0 {
            return 0;
        }
        if index < self.glyphs.len() {
            return self.glyphs[index].x;
        }
        let last = self.glyphs.len() - 1;
        proof {
            assert(self.glyphs@[last as int].x + self.glyphs@[last as int].width <= COORD_LIMIT);
        }
        self.glyphs[last].x + self.glyphs[last].width
    }

    /// Rows `[first, last]` that the viewport shows; none without rows.
    pub fn visible_rows(&self) -> (r: Option<(usize, usize)>)
        requires
            self.wf(),
        ensures
            r matches Some(p) ==> visible_range(
                self.row_info@,
                self.scroll_offset.y as int,
                self.height as int,
            ) == Some((p.0 as int, p.1 as int)) && p.0 <= p.1 < self.row_info@.len(),
            r is None <==> self.row_info@.len() == 0,
    {
        let n = self.row_info.len();
        if n == 0 {
            return None;
        }
        let ghost rows = self.row_info@;
        let y = self.scroll_offset.y;
        let mut k: usize = 0;
        while k < n && self.row_info[k].bottom <= y
            invariant
                rows == self.row_info@,
                n == rows.len(),
                k <= n,
                first_bottom_past(rows, y as int, 0) == first_bottom_past(rows, y as int, k as int),
            decreases n - k,
        {
            k += 1;
        }
        let start_row = if k == n {
            0
        } else {
            k
        };
        let end_row = if start_row < n - 1 {
            let mut j: usize = start_row + 1;
            while j < n && !(self.row_info[j].top > y && self.row_info[j].top - y > self.height)
                invariant
                    rows == self.row_info@,
                    n == rows.len(),
                    start_row < j <= n,
                    first_top_past(rows, self.height + y, start_row + 1) == first_top_past(
                        rows,
                        self.height + y,
                        j as int,
                    ),
                decreases n - j,
            {
                j += 1;
            }
            if j == n {
                n - 1
            } else {
                j - 1
            }
        } else {
            start_row
        };
        Some((start_row, end_row))
    }

    /// Largest right edge of the rows `[s, e]`.
    fn max_row_right(&self, s: usize, e: usize) -> (r: usize)
        requires
            s <= e < self.row_info@.len(),
        ensures
            r == max_right(self.row_info@, s as int, e as int),
    {
        let mut best = self.row_info[s].right;
        let mut i: usize = s;
        while i < e
            invariant
                s <= i <= e < self.row_info@.len(),
                best == max_right(self.row_info@, s as int, i as int),
            decreases e - i,
        {
            i += 1;
            if self.row_info[i].right > best {
                best = self.row_info[i].right;
            }
        }
        best
    }

    /// Moves the viewport by `delta`, clamped to the content; with
    /// `visible_constrained`, horizontally only as far as the visible rows reach.
    /// Returns whether the offset changed; without rows the offset goes to zero.
    pub fn scroll(&mut self, delta: &Vec2i, visible_constrained: bool) -> (r: bool)
        requires
            old(self).wf(),
        ensures
            final(self).wf(),
            final(self).spec_rows() == old(self).spec_rows(),
            final(self).spec_glyphs() == old(self).spec_glyphs(),
            final(self).spec_dim() == old(self).spec_dim(),
            final(self).actual_size == old(self).actual_size,
            old(self).row_info@.len() == 0 ==> r && final(self).scroll_offset == (Vec2u { x: 0, y: 0 }),
            old(self).row_info@.len() > 0 ==> {
                let max_width = if visible_constrained {
                    match visible_range(
                        old(self).row_info@,
                        old(self).scroll_offset.y as int,
                        old(self).height as int,
                    ) {
                        Some(p) => max_right(old(self).row_info@, p.0, p.1),
                        None => old(self).actual_size.x as int,
                    }
                } else {
                    old(self).actual_size.x as int
                };
                &&& final(self).scroll_offset.x == clamp_offset(
                    old(self).scroll_offset.x as int,
                    delta.x as int,
                    sat_sub(max_width, old(self).width as int),
                )
                &&& final(self).scroll_offset.y == clamp_offset(
                    old(self).scroll_offset.y as int,
                    delta.y as int,
                    sat_sub(old(self).actual_size.y as int, old(self).height as int),
                )
                &&& r == (final(self).scroll_offset != old(self).scroll_offset)
            },
            same_style(final(self), old(self)),
            final(self).font_size == old(self).font_size,
    {
        if self.row_info.len() == 0 {
            self.scroll_offset = Vec2u { x: 0, y: 0 };
            return true;
        }
        let previous_offset = self.scroll_offset;
        let max_width = if visible_constrained {
            match self.visible_rows() {
                Some((start_row, end_row)) => self.max_row_right(start_row, end_row),
                None => self.actual_size.x,
            }
        } else {
            self.actual_size.x
        };
        let rightmost = if max_width > self.width {
            max_width - self.width
        } else {
            0
        };
        self.scroll_offset.x = clamp_exec(self.scroll_offset.x, delta.x, rightmost);
        let downmost = if self.actual_size.y > self.height {
            self.actual_size.y - self.height
        } else {
            0
        };
        self.scroll_offset.y = clamp_exec(self.scroll_offset.y, delta.y, downmost);
        previous_offset != self.scroll_offset
    }

    /// Scrolls as little as needed to bring the glyph at `cursor_index` of row
    /// `cursor_row` into view. Where the cursor fits in the viewport across and
    /// the row fits up and down, the cursor lies inside the viewport afterwards.
    pub fn scroll_to_cursor(&mut self, cursor_index: usize, cursor_row: usize)
        requires
            old(self).wf(),
            cursor_row < old(self).row_info@.len(),
        ensures
            final(self).wf(),
            final(self).spec_rows() == old(self).spec_rows(),
            final(self).spec_glyphs() == old(self).spec_glyphs(),
            final(self).spec_dim() == old(self).spec_dim(),
            ({
                let left = text_left(old(self).glyphs@, cursor_index as int);
                let row = old(self).row_info@[cursor_row as int];
                let cw = old(self).cursor_width as int;
                let w = old(self).width as int;
                let h = old(self).height as int;
                let x = final(self).scroll_offset.x as int;
                let y = final(self).scroll_offset.y as int;
                &&& x == max(min(old(self).scroll_offset.x as int, left), sat_sub(left + cw, w))
                &&& y == max(
                    min(old(self).scroll_offset.y as int, row.top as int),
                    sat_sub(row.bottom as int, h),
                )
                &&& cw <= w ==> x <= left && left + cw <= x + w
                &&& row.bottom - row.top <= h ==> y <= row.top && row.bottom <= y + h
            }),
            same_style(final(self), old(self)),
            final(self).font_size == old(self).font_size,
            final(self).actual_size == old(self).actual_size,
    {
        let text_width_before_cursor = self.get_text_left(cursor_index);
        let leftmost = text_width_before_cursor;
        if leftmost < self.scroll_offset.x {
            self.scroll_offset.x = leftmost;
        }
        let reach = text_width_before_cursor + self.cursor_width;
        let rightmost = if reach > self.width {
            reach - self.width
        } else {
            0
        };
        if rightmost > self.scroll_offset.x {
            self.scroll_offset.x = rightmost;
        }
        let upmost = self.row_info[cursor_row].top;
        if upmost < self.scroll_offset.y {
            self.scroll_offset.y = upmost;
        }
        let bottom = self.row_info[cursor_row].bottom;
        let downmost = if bottom > self.height {
            bottom - self.height
        } else {
            0
        };
        if downmost > self.scroll_offset.y {
            self.scroll_offset.y = downmost;
        }
    }

    /// The cursor position under a pixel coordinate of the widget.
    pub fn find_cursor(&self, coord: &Vec2i) -> (r: TheCursor)
        requires
            self.wf(),
        ensures
            hit(
                self.glyphs@,
                self.row_info@,
                coord.x + self.scroll_offset.x - self.padding.0,
                coord.y + self.scroll_offset.y - self.padding.1,
            ) == (r.row as int, r.column as int),
    {
        let ghost glyphs = self.glyphs@;
        let ghost rows = self.row_info@;
        let x: i128 = coord.x as i128 + self.scroll_offset.x as i128 - self.padding.0 as i128;
        let y: i128 = coord.y as i128 + self.scroll_offset.y as i128 - self.padding.1 as i128;
        if (x < 0 && y < 0) || self.glyphs.len() == 0 || self.row_info.len() == 0 {
            return TheCursor { row: 0, column: 0 };
        }
        let n = self.row_info.len();
        let glen = self.glyphs.len();
        let mut k: usize = 0;
        while k < n
            invariant
                self.wf(),
                glyphs == self.glyphs@,
                glen == glyphs.len(),
                x == coord.x + self.scroll_offset.x - self.padding.0,
                y == coord.y + self.scroll_offset.y - self.padding.1,
                !((x < 0 && y < 0) || glyphs.len() == 0 || rows.len() == 0),
                rows == self.row_info@,
                n == rows.len(),
                k <= n,
                first_bottom_reaching(rows, y as int, 0) == first_bottom_reaching(rows, y as int, k as int),
            decreases n - k,
        {
            if y <= self.row_info[k].bottom as i128 {
                let start_index = self.row_info[k].glyph_start;
                let end_index = self.row_info[k].glyph_end;
                proof {
                    assert(rows[k as int].glyph_start <= rows[k as int].glyph_end < glyphs.len());
                }
                let mut column = end_index - start_index;
                if self.glyphs[end_index].parent != '\n' {
                    column += 1;
                }
                let mut i: usize = start_index;
                while i <= end_index
                    invariant
                        glyphs == self.glyphs@,
                        rows == self.row_info@,
                        k < rows.len(),
                        y <= rows[k as int].bottom,
                        start_index == rows[k as int].glyph_start,
                        end_index == rows[k as int].glyph_end,
                        x == coord.x + self.scroll_offset.x - self.padding.0,
                        y == coord.y + self.scroll_offset.y - self.padding.1,
                        !((x < 0 && y < 0) || glyphs.len() == 0 || rows.len() == 0),
                        first_bottom_reaching(rows, y as int, 0) == first_bottom_reaching(rows, y as int, k as int),
                        glen == glyphs.len(),
                        start_index <= i <= end_index + 1,
                        end_index < glyphs.len(),
                        first_glyph_past(glyphs, x as int, start_index as int, end_index as int)
                            == first_glyph_past(glyphs, x as int, i as int, end_index as int),
                    decreases end_index + 1 - i,
                {
                    let glyph = self.glyphs[i];
                    if glyph.x as i128 + glyph.width as i128 > x {
                        proof {
                            assert(first_bottom_reaching(rows, y as int, k as int) == k);
                            assert(first_glyph_past(glyphs, x as int, i as int, end_index as int) == i);
                            assert(rows[k as int].glyph_start == start_index);
                        }
                        return TheCursor { row: k, column: i - start_index };
                    }
                    i += 1;
                }
                return TheCursor { row: k, column };
            }
            k += 1;
        }
        let last = n - 1;
        proof {
            assert(rows[last as int].glyph_start <= rows[last as int].glyph_end < glyphs.len());
        }
        let mut column = self.row_info[last].glyph_end - self.row_info[last].glyph_start;
        if self.glyphs[self.glyphs.len() - 1].parent != '\n' {
            column += 1;
        }
        TheCursor { row: last, column }
    }

    /// The text to shape for a buffer: its rows joined by line breaks, and one
    /// more line break when the last row is empty, so that row has a glyph.
    pub fn shaping_text(state: &TheTextEditState) -> (r: String)
        requires
            state.rows@.len() >= 1,
        ensures
            r@ == join_lines(state.text_rows()) + if state.text_rows().last().len() == 0 {
                seq!['\n']
            } else {
                Seq::<char>::empty()
            },
    {
        let mut text = state.to_text();
        let last = state.rows.len() - 1;
        if state.rows[last].as_str().is_empty() {
            push_char(&mut text, '\n');
        }
        proof {
            assert(state.text_rows().last() == state.rows@[last as int]@);
            assert(text@ =~= join_lines(state.text_rows()) + if state.text_rows().last().len() == 0 {
                seq!['\n']
            } else {
                Seq::<char>::empty()
            });
        }
        text
    }

    /// Builds the row and glyph geometry from the shaping service's glyphs and
    /// lines, attaches colour runs per row, and clamps the scroll offset to
    /// the new content. A trailing space reported without width gets
    /// `space_width`. Returns false, with an empty layout, when the shaping
    /// result is inconsistent or out of range.
    pub fn prepare(
        &mut self,
        glyphs: &Vec<TheShapedGlyph>,
        lines: &Vec<TheShapedLine>,
        space_width: usize,
        highlights: Option<Vec<Vec<([u8; 4], usize)>>>,
    ) -> (r: bool)
        requires
            old(self).wf(),
        ensures
            final(self).wf(),
            r == shaping_ok(glyphs@, lines@, space_width),
            r ==> final(self).glyphs@.len() == glyphs@.len(),
            r ==> forall|j: int|
                0 <= j < glyphs@.len() ==> final(self).glyphs@[j] == laid_glyph(
                    glyphs@,
                    lines@,
                    j,
                    space_width,
                ),
            r ==> final(self).row_info@.len() == lines@.len(),
            r ==> forall|i: int|
                0 <= i < lines@.len() ==> #[trigger] row_matches(
                    final(self).row_info@[i],
                    lines@[i],
                    final(self).glyphs@,
                ),
            r ==> forall|i: int|
                0 <= i < lines@.len() ==> final(self).row_info@[i].highlights == row_highlights(
                    highlights,
                    i,
                ),
            r ==> final(self).actual_size.x == widest(final(self).row_info@, lines@.len() as int),
            r ==> final(self).actual_size.y == lowest(final(self).row_info@, lines@.len() as int),
            !r ==> final(self).glyphs@.len() == 0 && final(self).row_info@.len() == 0
                && final(self).actual_size == (Vec2u { x: 0, y: 0 }),
            final(self).row_info@.len() == 0 ==> final(self).scroll_offset == (Vec2u { x: 0, y: 0 }),
            final(self).row_info@.len() > 0 ==> final(self).scroll_offset.x == min(
                old(self).scroll_offset.x as int,
                sat_sub(final(self).actual_size.x as int, old(self).width as int),
            ) && final(self).scroll_offset.y == min(
                old(self).scroll_offset.y as int,
                sat_sub(final(self).actual_size.y as int, old(self).height as int),
            ),
            final(self).spec_dim() == old(self).spec_dim(),
            same_style(final(self), old(self)),
            final(self).font_size == old(self).font_size,
    {
        self.actual_size = Vec2u { x: 0, y: 0 };
        self.glyphs = Vec::new();
        self.row_info = Vec::new();
        if !check_shaping(glyphs, lines, space_width) {
            self.scroll(&Vec2i { x: 0, y: 0 }, false);
            return false;
        }
        proof {
            assert forall|i: int| 0 <= i < lines@.len() implies #[trigger] lines@[i].glyph_end
                < glyphs@.len() by {
                assert(lines@[i].glyph_start <= lines@[i].glyph_end);
            }
        }
        let ends = line_ends(glyphs, lines);
        let mut laid: Vec<TheGlyph> = Vec::new();
        let mut j: usize = 0;
        while j < glyphs.len()
            invariant
                shaping_ok(glyphs@, lines@, space_width),
                ends@.len() == glyphs@.len(),
                forall|k: int| 0 <= k < glyphs@.len() ==> ends@[k] == ends_line(lines@, k),
                j <= glyphs@.len(),
                laid@.len() == j,
                forall|k: int| 0 <= k < j ==> laid@[k] == laid_glyph(glyphs@, lines@, k, space_width),
            decreases glyphs@.len() - j,
        {
            let g = glyphs[j];
            let width = if g.parent == ' ' && g.width == 0 && ends[j] {
                space_width
            } else {
                g.width
            };
            laid.push(
                TheGlyph {
                    parent: g.parent,
                    start: g.byte_offset,
                    end: g.byte_offset + len_utf8(g.parent),
                    x: g.x,
                    width,
                },
            );
            j += 1;
        }
        let mut rev: Vec<Vec<([u8; 4], usize)>> = Vec::new();
        let ghost spans = match highlights {
            Some(ref h) => h@,
            None => Seq::empty(),
        };
        let has = highlights.is_some();
        if let Some(mut h) = highlights {
            while h.len() > 0
                invariant
                    spans.len() == h@.len() + rev@.len(),
                    forall|k: int| 0 <= k < h@.len() ==> h@[k] == spans[k],
                    forall|k: int| 0 <= k < rev@.len() ==> rev@[k] == spans[spans.len() - 1 - k],
                decreases h@.len(),
            {
                let x = h.pop().unwrap();
                rev.push(x);
            }
        }
        let mut rows: Vec<TheRowInfo> = Vec::new();
        let mut wide: usize = 0;
        let mut low: usize = 0;
        let mut i: usize = 0;
        while i < lines.len()
            invariant
                shaping_ok(glyphs@, lines@, space_width),
                laid@.len() == glyphs@.len(),
                forall|k: int| 0 <= k < glyphs@.len() ==> laid@[k] == laid_glyph(glyphs@, lines@, k, space_width),
                i <= lines@.len(),
                rows@.len() == i,
                forall|k: int| 0 <= k < i ==> #[trigger] row_matches(rows@[k], lines@[k], laid@),
                forall|k: int| 0 <= k < i ==> rows@[k].highlights == row_highlights(highlights, k),
                has == highlights.is_some(),
                has ==> spans == highlights->0@,
                rev@.len() == if has && spans.len() > i { spans.len() - i } else { 0 },
                forall|k: int| 0 <= k < rev@.len() ==> rev@[k] == spans[spans.len() - 1 - k],
                wide == widest(rows@, i as int),
                low == lowest(rows@, i as int),
                wide <= COORD_LIMIT,
                low <= COORD_LIMIT,
            decreases lines@.len() - i,
        {
            let line = lines[i];
            proof {
                assert(line.glyph_start <= line.glyph_end < glyphs@.len());
                assert(laid@[line.glyph_end as int] == laid_glyph(glyphs@, lines@, line.glyph_end as int, space_width));
            }
            let last = laid[line.glyph_end];
            let right = last.x + last.width;
            let hl = if has && rev.len() > 0 {
                rev.pop()
            } else {
                None
            };
            let row = TheRowInfo {
                top: line.top,
                left: laid[line.glyph_start].x,
                bottom: line.bottom,
                right,
                baseline: line.baseline,
                glyph_start: line.glyph_start,
                glyph_end: line.glyph_end,
                highlights: hl,
            };
            let ghost prev = rows@;
            rows.push(row);
            proof {
                assert(rows@.take(i as int) =~= prev);
                assert(rows@[i as int] == row);
                lemma_extremes_prefix(prev, rows@, i as int);
            }
            if right > wide {
                wide = right;
            }
            if line.bottom > low {
                low = line.bottom;
            }
            i += 1;
        }
        self.glyphs = laid;
        self.row_info = rows;
        self.actual_size = Vec2u { x: wide, y: low };
        proof {
            assert forall|k: int| 0 <= k < self.glyphs@.len() implies #[trigger] self.glyphs@[k].x
                + self.glyphs@[k].width <= COORD_LIMIT by {
                assert(self.glyphs@[k] == laid_glyph(glyphs@, lines@, k, space_width));
            }
            assert forall|k: int| 0 <= k < self.row_info@.len() implies {
                &&& #[trigger] self.row_info@[k].glyph_start <= self.row_info@[k].glyph_end
                &&& self.row_info@[k].glyph_end < self.glyphs@.len()
                &&& self.row_info@[k].top <= self.row_info@[k].bottom <= COORD_LIMIT
                &&& self.row_info@[k].baseline <= COORD_LIMIT
                &&& self.row_info@[k].left <= COORD_LIMIT
                &&& self.row_info@[k].right <= COORD_LIMIT
            } by {
                assert(row_matches(self.row_info@[k], lines@[k], self.glyphs@));
                let gs = lines@[k].glyph_start as int;
                let ge = lines@[k].glyph_end as int;
                assert(self.glyphs@[gs] == laid_glyph(glyphs@, lines@, gs, space_width));
                assert(self.glyphs@[ge] == laid_glyph(glyphs@, lines@, ge, space_width));
            }
        }
        self.scroll(&Vec2i { x: 0, y: 0 }, false);
        true
    }

    /// Height of a row of text: the font size.
    fn row_height(&self) -> (r: usize)
        ensures
            r == self.font_size,
    {
        self.font_size
    }

    /// Width drawn for a selected line break: half the font size, rounded up.
    fn linebreak_width(&self) -> (r: usize)
        requires
            self.wf(),
        ensures
            r == (self.font_size + 1) / 2,
    {
        (self.font_size + 1) / 2
    }

    /// Whether a rectangle lies wholly outside the viewport.
    fn is_rect_out_of_visible_area(&self, left: usize, top: usize, width: usize, height: usize) -> (r: bool)
        ensures
            r == out_of_view(self.scroll_offset, self.width as int, self.height as int, left as int, top as int, width as int, height as int),
    {
        let sx = self.scroll_offset.x as u128;
        let sy = self.scroll_offset.y as u128;
        top as u128 > sy + self.height as u128 || (top as u128 + height as u128) < sy
            || left as u128 > sx + self.width as u128 || (left as u128 + width as u128) < sx
    }

    /// Width of the glyphs `[min(start, end), max(start, end)]` of one row, up
    /// to where the next glyph begins.
    fn get_text_width(&self, start: usize, end: usize) -> (r: usize)
        requires
            self.wf(),
            start < self.glyphs@.len(),
            end < self.glyphs@.len(),
        ensures
            r == text_width(self.glyphs@, start as int, end as int),
            r <= COORD_LIMIT,
    {
        let left = if start < end {
            start
        } else {
            end
        };
        let right = if start < end {
            end
        } else {
            start
        };
        let last_char_end = self.glyphs[right].x + self.glyphs[right].width;
        let n = self.glyphs.len();
        let right_end = if right < n - 1 && last_char_end < self.glyphs[right + 1].x {
            self.glyphs[right + 1].x - 1
        } else {
            last_char_end
        };
        if right_end > self.glyphs[left].x {
            right_end - self.glyphs[left].x
        } else {
            0
        }
    }

    /// The selection rectangle of `[start, end)` on a row; none when the row is out of view.
    fn render_selection(&self, row_number: usize, start: usize, end: usize, color: [u8; 4]) -> (r: Option<TheDrawOp>)
        requires
            self.wf(),
            row_number < self.row_info@.len(),
            1 <= end <= self.glyphs@.len(),
            start < self.glyphs@.len(),
        ensures
            r == selection_op(self, row_number as int, start as int, end as int, color),
    {
        let row = &self.row_info[row_number];
        let height: i128 = self.font_size as i128 + 2 * self.selection_extend as i128;
        let row_width = if row.right > row.left {
            row.right - row.left
        } else {
            0
        };
        if self.is_rect_out_of_visible_area(row.left, row.top, row_width, self.row_height()) {
            return None;
        }
        let w = self.get_text_width(start, end - 1);
        let width = if w == 0 {
            self.linebreak_width()
        } else {
            w
        };
        let left: i128 = self.left as i128 + self.get_text_left(start) as i128 - self.scroll_offset.x as i128;
        let top: i128 = self.top as i128 + row.baseline as i128 + self.selection_extend as i128 - height
            - self.scroll_offset.y as i128;
        let right = clamp_low(left + width as i128, self.left as i128 + self.width as i128);
        let bottom = clamp_low(top + height, self.top as i128 + self.height as i128);
        let l = raise(left, self.left);
        let t = raise(top, self.top);
        Some(
            TheDrawOp::BlendRect {
                rect: (l, t, if right > l { right - l } else { 0 }, if bottom > t { bottom - t } else { 0 }),
                color,
            },
        )
    }

    /// The caret rectangle at a cursor; none when it is out of view.
    fn render_cursor(&self, cursor: &TheCursor, cursor_index: usize, color: [u8; 4]) -> (r: Option<TheDrawOp>)
        requires
            self.wf(),
            cursor.row < self.row_info@.len(),
        ensures
            r == cursor_op(self, cursor.row as int, cursor_index as int, color),
    {
        let shrink: i128 = 2 * self.cursor_vertical_shrink as i128;
        let height: i128 = if self.font_size as i128 > shrink {
            self.font_size as i128 - shrink
        } else {
            0
        };
        let left: i128 = self.get_text_left(cursor_index) as i128 - (self.cursor_width / 2) as i128;
        let top: i128 = self.row_baseline(cursor.row) as i128 - height;
        if self.is_rect_out_of_visible_area(
            raise(left, 0),
            raise(top, 0),
            self.cursor_width,
            height as usize,
        ) {
            return None;
        }
        let l = raise(self.left as i128 + left - self.scroll_offset.x as i128, self.left);
        let top2: i128 = self.top as i128 + top - self.scroll_offset.y as i128;
        let bottom = clamp_low(top2 + height, self.top as i128 + self.height as i128);
        let t = raise(top2, self.top);
        Some(
            TheDrawOp::Rect {
                rect: (l, t, self.cursor_width, if bottom > t { bottom - t } else { 0 }),
                color,
            },
        )
    }

    /// The text runs of one row: one run in the text colour, or one per colour
    /// run of the row that reaches the visible part; none when the row is out of view.
    fn render_row(&self, text_len: usize, row_number: usize, color: [u8; 4]) -> (r: Vec<TheDrawOp>)
        requires
            self.wf(),
            row_number < self.row_info@.len(),
        ensures
            r@ == row_runs(self, row_number as int, text_len as int, color),
    {
        let row = &self.row_info[row_number];
        let mut ops: Vec<TheDrawOp> = Vec::new();
        let rw = if row.right > row.left {
            row.right - row.left
        } else {
            0
        };
        let rh = if row.bottom > row.top {
            row.bottom - row.top
        } else {
            0
        };
        if self.is_rect_out_of_visible_area(row.left, row.top, rw, rh) {
            return ops;
        }
        let glyph_start = row.glyph_start;
        let glyphs_count = row.glyph_end - glyph_start;
        let (visible_start, visible_end) = self.visible_glyphs(glyph_start, glyphs_count);
        let left: i128 = self.left as i128 - self.scroll_offset.x as i128 - self.get_text_left(glyph_start) as i128;
        let top: i128 = self.top as i128 - self.scroll_offset.y as i128 + row.top as i128;
        let clip = (self.left, self.top, self.width, self.height);
        let glen = self.glyphs.len();
        match &row.highlights {
            Some(highlights) => {
                let ghost h = highlights@;
                let ghost i = row_number as int;
                let mut token_end: usize = 0;
                let mut k: usize = 0;
                let ghost mut done = false;
                while k < highlights.len()
                    invariant
                        done ==> colour_runs(self, i, h, k as int) == Seq::<TheDrawOp>::empty(),
                        self.wf(),
                        row_number < self.row_info@.len(),
                        self.row_info@[row_number as int].highlights == Some(*highlights),
                        h == highlights@,
                        i == row_number,
                        glyph_start == self.row_info@[i].glyph_start,
                        glyphs_count == self.row_info@[i].glyph_end - glyph_start,
                        (visible_start as int, visible_end as int) == visible_span(
                            self,
                            glyph_start as int,
                            glyphs_count as int,
                        ),
                        clip == (self.left, self.top, self.width, self.height),
                        top == self.top - self.scroll_offset.y + self.row_info@[i].top,
                        left == self.left - self.scroll_offset.x - text_left(self.glyphs@, glyph_start as int),
                        text_left(self.glyphs@, glyph_start as int) <= COORD_LIMIT,
                        k <= h.len(),
                        glen == self.glyphs@.len(),
                        token_end == run_start(h, k as int),
                        colour_runs(self, i, h, 0) == ops@ + colour_runs(self, i, h, k as int),
                    ensures
                        done || k == h.len(),
                    decreases h.len() - k,
                {
                    let (c, token_len) = highlights[k];
                    let token_start = token_end;
                    proof {
                        assert(h[k as int] == (c, token_len));
                    }
                    if token_start > visible_end {
                        proof {
                            assert(colour_runs(self, i, h, k as int) =~= Seq::<TheDrawOp>::empty());
                            assert(ops@ + Seq::<TheDrawOp>::empty() =~= ops@);
                            done = true;
                        }
                        break;
                    }
                    if token_len > usize::MAX - token_start {
                        proof {
                            assert(colour_runs(self, i, h, k as int) =~= Seq::<TheDrawOp>::empty());
                            assert(ops@ + Seq::<TheDrawOp>::empty() =~= ops@);
                            done = true;
                        }
                        break;
                    }
                    token_end = token_start + token_len;
                    if token_end >= visible_start {
                        let at = if token_start <= usize::MAX - glyph_start {
                            glyph_start + token_start
                        } else {
                            usize::MAX
                        };
                        let x: i128 = left + self.get_text_left(at) as i128;
                        let op = TheDrawOp::Text { row: row_number, start: token_start, end: token_end, x, y: top - 1, clip, color: c };
                        let ghost prev = ops@;
                        ops.push(op);
                        proof {
                            assert(self.glyphs@.len() <= usize::MAX);
                            assert(text_left(self.glyphs@, at as int) == text_left(
                                self.glyphs@,
                                glyph_start + run_start(h, k as int),
                            ));
                            assert(op == run_op(self, i, h, k as int));
                            assert(colour_runs(self, i, h, k as int) == seq![op] + colour_runs(self, i, h, k + 1));
                            assert(prev + (seq![op] + colour_runs(self, i, h, k + 1)) =~= ops@ + colour_runs(self, i, h, k + 1));
                        }
                    } else {
                        proof {
                            assert(colour_runs(self, i, h, k as int) == colour_runs(self, i, h, k + 1));
                        }
                    }
                    k += 1;
                }
                proof {
                    if k == h.len() {
                        assert(colour_runs(self, i, h, k as int) =~= Seq::<TheDrawOp>::empty());
                    }
                    assert(ops@ + Seq::<TheDrawOp>::empty() =~= ops@);
                    assert(ops@ == colour_runs(self, i, h, 0));
                    assert(!row_out_of_view(self, i));
                    assert(self.row_info@[i].highlights == Some(*highlights));
                }
            },
            None => {
                let x: i128 = left + self.get_text_left(glyph_start + visible_start) as i128;
                let row_start_index = self.get_glyph_text_range(glyph_start).0;
                let a = self.get_glyph_text_range(glyph_start + visible_start).0;
                let b = self.get_glyph_text_range(glyph_start + visible_end).1;
                let start = if a > row_start_index { a - row_start_index } else { 0 };
                let end0 = if b > row_start_index { b - row_start_index } else { 0 };
                let end = if text_len < end0 { text_len } else { end0 };
                ops.push(TheDrawOp::Text { row: row_number, start, end, x, y: top - 1, clip, color });
                proof {
                    assert(ops@ =~= seq![plain_run(self, row_number as int, text_len as int, color)]);
                }
            },
        }
        ops
    }

    /// The glyphs of a row, counted from its first, that the viewport shows
    /// across: from the first whose width from the row start reaches the
    /// offset, to the one after which it passes the viewport's right edge.
    fn visible_glyphs(&self, glyph_start: usize, glyphs_count: usize) -> (r: (usize, usize))
        requires
            self.wf(),
            glyph_start + glyphs_count < self.glyphs@.len(),
        ensures
            (r.0 as int, r.1 as int) == visible_span(self, glyph_start as int, glyphs_count as int),
            r.0 <= glyphs_count,
            r.1 <= glyphs_count,
    {
        let n = self.glyphs.len();
        let mut visible_start: usize = 0;
        let mut found = false;
        let mut acc: usize = 0;
        let mut i: usize = 0;
        while i < glyphs_count
            invariant
                self.wf(),
                n == self.glyphs@.len(),
                glyph_start + glyphs_count < self.glyphs@.len(),
                i <= glyphs_count,
                visible_start <= glyphs_count,
                visible_span(self, glyph_start as int, glyphs_count as int) == scan_visible(
                    self,
                    glyph_start as int,
                    glyphs_count as int,
                    i as int,
                    found,
                    acc as int,
                    visible_start as int,
                ),
            decreases glyphs_count - i,
        {
            if found && acc as u128 >= self.scroll_offset.x as u128 + self.width as u128 {
                return (visible_start, i);
            }
            acc = self.get_text_width(glyph_start, glyph_start + i);
            if !found && acc >= self.scroll_offset.x {
                visible_start = i;
                found = true;
            }
            i += 1;
        }
        (visible_start, glyphs_count)
    }

    /// The steps of one row: its selection when focused, then its text.
    fn plan_row(&self, state: &TheTextEditState, focused: bool, colors: &TheTextColors, i: usize) -> (r: Vec<TheDrawOp>)
        requires
            self.wf(),
            state.wf(),
            i < self.row_info@.len(),
        ensures
            r@ == row_steps(self, state, focused, *colors, i as int),
    {
        let mut ops: Vec<TheDrawOp> = Vec::new();
        if i >= state.rows.len() {
            return ops;
        }
        if focused {
            if let Some((a, b)) = state.find_selected_range_of_row(i) {
                if b >= 1 && b <= self.glyphs.len() && a < self.glyphs.len() {
                    if let Some(op) = self.render_selection(i, a, b, colors.selection) {
                        ops.push(op);
                    }
                }
            }
        }
        let ghost sel = ops@;
        let t = state.rows[i].as_str();
        let n = t.len();
        proof {
            assert(n == encode_utf8(t@).len() as usize);
            assert(state.text_rows()[i as int] == state.rows@[i as int]@);
            assert(sel =~= selection_steps(self, state, focused, colors.selection, i as int));
        }
        let mut row_ops = self.render_row(n, i, colors.text);
        ops.append(&mut row_ops);
        proof {
            assert(sel =~= selection_steps(self, state, focused, colors.selection, i as int));
        }
        ops
    }

    /// What to draw for the visible rows of a buffer: for each row its
    /// selection when focused, then its text; then the caret when focused and
    /// editable.
    pub fn render_text(
        &self,
        state: &TheTextEditState,
        focused: bool,
        readonly: bool,
        colors: &TheTextColors,
    ) -> (r: Vec<TheDrawOp>)
        requires
            self.wf(),
            state.wf(),
        ensures
            r@ == text_steps(self, state, focused, readonly, *colors),
    {
        let mut ops: Vec<TheDrawOp> = Vec::new();
        let nrows = self.row_info.len();
        if let Some((start_row, end_row)) = self.visible_rows() {
            let ghost s = start_row as int;
            let ghost e = end_row as int;
            proof {
                assert(ops@ + rows_steps(self, state, focused, *colors, s, e) =~= rows_steps(
                    self,
                    state,
                    focused,
                    *colors,
                    s,
                    e,
                ));
            }
            let mut i: usize = start_row;
            while i <= end_row
                invariant
                    self.wf(),
                    state.wf(),
                    nrows == self.row_info@.len(),
                    s == start_row,
                    e == end_row,
                    start_row <= i <= end_row + 1,
                    end_row < self.row_info@.len(),
                    rows_steps(self, state, focused, *colors, s, e) == ops@ + rows_steps(
                        self,
                        state,
                        focused,
                        *colors,
                        i as int,
                        e,
                    ),
                decreases end_row + 1 - i,
            {
                let ghost prev = ops@;
                let mut row_ops = self.plan_row(state, focused, colors, i);
                ops.append(&mut row_ops);
                proof {
                    assert(rows_steps(self, state, focused, *colors, i as int, e) == row_steps(
                        self,
                        state,
                        focused,
                        *colors,
                        i as int,
                    ) + rows_steps(self, state, focused, *colors, i + 1, e));
                    assert(prev + (row_steps(self, state, focused, *colors, i as int) + rows_steps(
                        self,
                        state,
                        focused,
                        *colors,
                        i + 1,
                        e,
                    )) =~= ops@ + rows_steps(self, state, focused, *colors, i + 1, e));
                }
                i += 1;
            }
            proof {
                assert(rows_steps(self, state, focused, *colors, i as int, e) =~= Seq::<TheDrawOp>::empty());
                assert(ops@ + Seq::<TheDrawOp>::empty() =~= ops@);
            }
            if focused && !readonly && state.cursor.row < self.row_info.len() {
                let index = state.find_cursor_index();
                if let Some(op) = self.render_cursor(&state.cursor, index, colors.caret) {
                    ops.push(op);
                }
            }
        }
        ops
    }
}

/// An offset moved by `delta` and clamped to `[0, hi]`.
fn clamp_exec(offset: usize, delta: i32, hi: usize) -> (r: usize)
    ensures
        r == clamp_offset(offset as int, delta as int, hi as int),
{
    let moved: i128 = offset as i128 + delta as i128;
    if moved <= 0 {
        0
    } else if moved >= hi as i128 {
        hi
    } else {
        moved as usize
    }
}

/// Whether glyph `j` ends one of the lines.
pub open spec fn ends_line(lines: Seq<TheShapedLine>, j: int) -> bool {
    exists|i: int| 0 <= i < lines.len() && #[trigger] lines[i].glyph_end == j
}

/// A shaping result the layout can hold: each line's glyphs exist, and every
/// coordinate, with a trailing space widened, stays within the limit.
pub open spec fn shaping_ok(glyphs: Seq<TheShapedGlyph>, lines: Seq<TheShapedLine>, space_width: usize) -> bool {
    &&& forall|j: int|
        0 <= j < glyphs.len() ==> {
            &&& #[trigger] glyphs[j].x + glyphs[j].width <= COORD_LIMIT
            &&& glyphs[j].x + space_width <= COORD_LIMIT
            &&& glyphs[j].byte_offset + 4 <= usize::MAX
        }
    &&& forall|i: int|
        0 <= i < lines.len() ==> {
            &&& #[trigger] lines[i].glyph_start <= lines[i].glyph_end
            &&& lines[i].glyph_end < glyphs.len()
            &&& lines[i].top <= lines[i].bottom <= COORD_LIMIT
            &&& lines[i].baseline <= COORD_LIMIT
        }
}

/// Glyph `j` of the layout: the shaped glyph with its byte range, and the
/// space width for a zero-width space that ends a line.
pub open spec fn laid_glyph(
    glyphs: Seq<TheShapedGlyph>,
    lines: Seq<TheShapedLine>,
    j: int,
    space_width: usize,
) -> TheGlyph {
    let g = glyphs[j];
    TheGlyph {
        parent: g.parent,
        start: g.byte_offset,
        end: (g.byte_offset + utf8_len(g.parent)) as usize,
        x: g.x,
        width: if g.parent == ' ' && g.width == 0 && ends_line(lines, j) {
            space_width
        } else {
            g.width
        },
    }
}

/// A row built from a shaped line: the line's extent and glyphs, left at its
/// first glyph and right at the end of its last one.
pub open spec fn row_matches(row: TheRowInfo, line: TheShapedLine, glyphs: Seq<TheGlyph>) -> bool {
    &&& row.top == line.top
    &&& row.bottom == line.bottom
    &&& row.baseline == line.baseline
    &&& row.glyph_start == line.glyph_start
    &&& row.glyph_end == line.glyph_end
    &&& row.left == glyphs[line.glyph_start as int].x
    &&& row.right == glyphs[line.glyph_end as int].x + glyphs[line.glyph_end as int].width
}

/// Colour runs of row `i`, when the highlighter gave some for it.
pub open spec fn row_highlights(highlights: Option<Vec<Vec<([u8; 4], usize)>>>, i: int) -> Option<
    Vec<([u8; 4], usize)>,
> {
    match highlights {
        Some(h) => if i < h@.len() {
            Some(h@[i])
        } else {
            None
        },
        None => None,
    }
}

/// Largest right edge of the first `n` rows; zero without rows.
pub open spec fn widest(rows: Seq<TheRowInfo>, n: int) -> int
    decreases n,
{
    if n <= 0 {
        0
    } else {
        max(widest(rows, n - 1), rows[n - 1].right as int)
    }
}

/// Lowest bottom edge of the first `n` rows; zero without rows.
pub open spec fn lowest(rows: Seq<TheRowInfo>, n: int) -> int
    decreases n,
{
    if n <= 0 {
        0
    } else {
        max(lowest(rows, n - 1), rows[n - 1].bottom as int)
    }
}

/// Whether a shaping result can be laid out.
fn check_shaping(glyphs: &Vec<TheShapedGlyph>, lines: &Vec<TheShapedLine>, space_width: usize) -> (r: bool)
    ensures
        r == shaping_ok(glyphs@, lines@, space_width),
{
    let mut j: usize = 0;
    while j < glyphs.len()
        invariant
            j <= glyphs@.len(),
            forall|k: int|
                0 <= k < j ==> {
                    &&& #[trigger] glyphs@[k].x + glyphs@[k].width <= COORD_LIMIT
                    &&& glyphs@[k].x + space_width <= COORD_LIMIT
                    &&& glyphs@[k].byte_offset + 4 <= usize::MAX
                },
        decreases glyphs@.len() - j,
    {
        let g = glyphs[j];
        if g.x > COORD_LIMIT || g.width > COORD_LIMIT - g.x || space_width > COORD_LIMIT - g.x
            || g.byte_offset > usize::MAX - 4 {
            return false;
        }
        j += 1;
    }
    let mut i: usize = 0;
    while i < lines.len()
        invariant
            i <= lines@.len(),
            forall|k: int|
                0 <= k < glyphs@.len() ==> {
                    &&& #[trigger] glyphs@[k].x + glyphs@[k].width <= COORD_LIMIT
                    &&& glyphs@[k].x + space_width <= COORD_LIMIT
                    &&& glyphs@[k].byte_offset + 4 <= usize::MAX
                },
            forall|k: int|
                0 <= k < i ==> {
                    &&& #[trigger] lines@[k].glyph_start <= lines@[k].glyph_end
                    &&& lines@[k].glyph_end < glyphs@.len()
                    &&& lines@[k].top <= lines@[k].bottom <= COORD_LIMIT
                    &&& lines@[k].baseline <= COORD_LIMIT
                },
        decreases lines@.len() - i,
    {
        let l = lines[i];
        if !(l.glyph_start <= l.glyph_end && l.glyph_end < glyphs.len() && l.top <= l.bottom
            && l.bottom <= COORD_LIMIT && l.baseline <= COORD_LIMIT) {
            return false;
        }
        i += 1;
    }
    true
}

/// For each glyph, whether it ends one of the lines.
fn line_ends(glyphs: &Vec<TheShapedGlyph>, lines: &Vec<TheShapedLine>) -> (r: Vec<bool>)
    requires
        forall|i: int| 0 <= i < lines@.len() ==> #[trigger] lines@[i].glyph_end < glyphs@.len(),
    ensures
        r@.len() == glyphs@.len(),
        forall|k: int| 0 <= k < glyphs@.len() ==> r@[k] == ends_line(lines@, k),
{
    let mut r: Vec<bool> = Vec::new();
    let mut j: usize = 0;
    while j < glyphs.len()
        invariant
            j <= glyphs@.len(),
            r@.len() == j,
            forall|k: int| 0 <= k < j ==> !r@[k],
        decreases glyphs@.len() - j,
    {
        r.push(false);
        j += 1;
    }
    let mut i: usize = 0;
    while i < lines.len()
        invariant
            forall|i: int| 0 <= i < lines@.len() ==> #[trigger] lines@[i].glyph_end < glyphs@.len(),
            i <= lines@.len(),
            r@.len() == glyphs@.len(),
            forall|k: int|
                0 <= k < glyphs@.len() ==> r@[k] == exists|m: int|
                    0 <= m < i && #[trigger] lines@[m].glyph_end == k,
        decreases lines@.len() - i,
    {
        let e = lines[i].glyph_end;
        r.set(e, true);
        proof {
            assert forall|k: int| 0 <= k < glyphs@.len() implies r@[k] == exists|m: int|
                0 <= m < i + 1 && #[trigger] lines@[m].glyph_end == k by {
                if k == e {
                    assert(lines@[i as int].glyph_end == k);
                } else {
                    if exists|m: int| 0 <= m < i + 1 && #[trigger] lines@[m].glyph_end == k {
                        let m = choose|m: int| 0 <= m < i + 1 && #[trigger] lines@[m].glyph_end == k;
                        assert(m != i);
                    }
                }
            }
        }
        i += 1;
    }
    r
}

/// The extremes of the first `n` rows depend on those rows alone.
proof fn lemma_extremes_prefix(a: Seq<TheRowInfo>, b: Seq<TheRowInfo>, n: int)
    requires
        0 <= n <= a.len(),
        n <= b.len(),
        forall|k: int| 0 <= k < n ==> a[k] == b[k],
    ensures
        widest(a, n) == widest(b, n),
        lowest(a, n) == lowest(b, n),
    decreases n,
{
    if n > 0 {
        lemma_extremes_prefix(a, b, n - 1);
    }
}

/// Whether the rectangle `(left, top, width, height)` lies wholly outside the
/// viewport at `offset` of size `width` by `height`.
pub open spec fn out_of_view(
    offset: Vec2u,
    view_width: int,
    view_height: int,
    left: int,
    top: int,
    width: int,
    height: int,
) -> bool {
    top > offset.y + view_height || top + height < offset.y || left > offset.x + view_width || left
        + width < offset.x
}

/// Width of glyphs `[min(a, b), max(a, b)]`: to the end of the last one, or to
/// just before the next glyph when a gap follows.
pub open spec fn text_width(glyphs: Seq<TheGlyph>, a: int, b: int) -> int {
    let left = min(a, b);
    let right = max(a, b);
    let last_end = glyphs[right].x + glyphs[right].width;
    let right_end = if right + 1 < glyphs.len() && last_end < glyphs[right + 1].x {
        glyphs[right + 1].x - 1
    } else {
        last_end
    };
    sat_sub(right_end, glyphs[left].x as int)
}

/// `v` clamped below at zero and above at `hi`.
pub open spec fn clamp_low_spec(v: int, hi: int) -> int {
    min(max(v, 0), hi)
}

/// `v` raised to at least zero and at least `lo`, and kept within `usize`.
pub open spec fn raise_spec(v: int, lo: int) -> int {
    min(max(max(v, 0), lo), usize::MAX as int)
}

fn clamp_low(v: i128, hi: i128) -> (r: usize)
    requires
        0 <= hi <= usize::MAX,
    ensures
        r == clamp_low_spec(v as int, hi as int),
{
    if v <= 0 {
        0
    } else if v >= hi {
        hi as usize
    } else {
        v as usize
    }
}

fn raise(v: i128, lo: usize) -> (r: usize)
    ensures
        r == raise_spec(v as int, lo as int),
{
    if v <= lo as i128 {
        lo
    } else if v > usize::MAX as i128 {
        usize::MAX
    } else {
        v as usize
    }
}

/// The selection rectangle of glyphs `[a, b)` on row `i`, blended in `color`;
/// none when the row is out of view. A selected line break has half the
/// font size as width.
pub open spec fn selection_op(r: &TheTextRenderer, i: int, a: int, b: int, color: [u8; 4]) -> Option<TheDrawOp> {
    let row = r.row_info@[i];
    let height = r.font_size + 2 * r.selection_extend;
    if !(0 <= i < r.row_info@.len() && 1 <= b <= r.glyphs@.len() && 0 <= a < r.glyphs@.len()) {
        None
    } else if out_of_view(r.scroll_offset, r.width as int, r.height as int, row.left as int, row.top as int, sat_sub(row.right as int, row.left as int), r.font_size as int) {
        None
    } else {
        let w = text_width(r.glyphs@, a, b - 1);
        let width = if w == 0 {
            (r.font_size + 1) / 2
        } else {
            w
        };
        let left = r.left + text_left(r.glyphs@, a) - r.scroll_offset.x;
        let top = r.top + row.baseline + r.selection_extend - height - r.scroll_offset.y;
        let right = clamp_low_spec(left + width, r.left + r.width);
        let bottom = clamp_low_spec(top + height, r.top + r.height);
        let l = raise_spec(left, r.left as int);
        let t = raise_spec(top, r.top as int);
        Some(
            TheDrawOp::BlendRect {
                rect: (l as usize, t as usize, sat_sub(right, l) as usize, sat_sub(bottom, t) as usize),
                color,
            },
        )
    }
}

/// The caret at cursor index `index` on row `row`, filled in `color`: the
/// cursor width across, the font size less the shrink at both ends down,
/// centred on the left edge of the glyph; none when it is out of view.
pub open spec fn cursor_op(r: &TheTextRenderer, row: int, index: int, color: [u8; 4]) -> Option<TheDrawOp> {
    let height = sat_sub(r.font_size as int, 2 * r.cursor_vertical_shrink);
    let left = text_left(r.glyphs@, index) - r.cursor_width / 2;
    let top = r.row_info@[row].baseline - height;
    if out_of_view(r.scroll_offset, r.width as int, r.height as int, max(left, 0), max(top, 0), r.cursor_width as int, height) {
        None
    } else {
        let l = raise_spec(r.left + left - r.scroll_offset.x, r.left as int);
        let top2 = r.top + top - r.scroll_offset.y;
        let bottom = clamp_low_spec(top2 + height, r.top + r.height);
        let t = raise_spec(top2, r.top as int);
        Some(TheDrawOp::Rect { rect: (l as usize, t as usize, r.cursor_width, sat_sub(bottom, t) as usize), color })
    }
}

/// Whether the box of row `i` lies wholly outside the viewport.
pub open spec fn row_out_of_view(r: &TheTextRenderer, i: int) -> bool {
    let row = r.row_info@[i];
    out_of_view(
        r.scroll_offset,
        r.width as int,
        r.height as int,
        row.left as int,
        row.top as int,
        sat_sub(row.right as int, row.left as int),
        sat_sub(row.bottom as int, row.top as int),
    )
}

/// Scan for the visible glyphs of a row from glyph `i` on, with `found` and
/// `acc` the state so far and `vs` the first visible glyph found.
pub open spec fn scan_visible(
    r: &TheTextRenderer,
    gs: int,
    count: int,
    i: int,
    found: bool,
    acc: int,
    vs: int,
) -> (int, int)
    decreases count - i,
{
    if i >= count {
        (vs, count)
    } else if found && acc >= r.scroll_offset.x + r.width {
        (vs, i)
    } else {
        let w = text_width(r.glyphs@, gs, gs + i);
        if !found && w >= r.scroll_offset.x {
            scan_visible(r, gs, count, i + 1, true, w, i)
        } else {
            scan_visible(r, gs, count, i + 1, found, w, vs)
        }
    }
}

/// The visible glyphs `[first, last]` of a row with `count` glyphs after `gs`.
pub open spec fn visible_span(r: &TheTextRenderer, gs: int, count: int) -> (int, int) {
    scan_visible(r, gs, count, 0, false, 0, 0)
}

/// Bytes of the shaped text that glyph `i` comes from; past the last glyph,
/// the empty range at the end.
pub open spec fn glyph_bytes(glyphs: Seq<TheGlyph>, i: int) -> (int, int) {
    if glyphs.len() == 0 {
        (0, 0)
    } else if i < glyphs.len() {
        (glyphs[i].start as int, glyphs[i].end as int)
    } else {
        (glyphs.last().end as int, glyphs.last().end as int)
    }
}

/// The single run of row `i` in the text colour: the bytes of its visible
/// glyphs, relative to the row's first byte and cut at the row's length.
pub open spec fn plain_run(r: &TheTextRenderer, i: int, text_len: int, color: [u8; 4]) -> TheDrawOp {
    let row = r.row_info@[i];
    let gs = row.glyph_start as int;
    let (vs, ve) = visible_span(r, gs, row.glyph_end - gs);
    let row_start = glyph_bytes(r.glyphs@, gs).0;
    TheDrawOp::Text {
        row: i as usize,
        start: sat_sub(glyph_bytes(r.glyphs@, gs + vs).0, row_start) as usize,
        end: min(text_len, sat_sub(glyph_bytes(r.glyphs@, gs + ve).1, row_start)) as usize,
        x: (r.left - r.scroll_offset.x - text_left(r.glyphs@, gs) + text_left(r.glyphs@, gs + vs)) as i128,
        y: (r.top - r.scroll_offset.y + row.top - 1) as i128,
        clip: (r.left, r.top, r.width, r.height),
        color,
    }
}

/// Where colour run `k` starts: the lengths of the runs before it.
pub open spec fn run_start(h: Seq<([u8; 4], usize)>, k: int) -> int
    decreases k,
{
    if k <= 0 {
        0
    } else {
        run_start(h, k - 1) + h[k - 1].1
    }
}

/// Text run `k` of the colour runs `h` of row `i`: the run's bytes and
/// colour, with its left edge at the glyph where the run starts.
pub open spec fn run_op(r: &TheTextRenderer, i: int, h: Seq<([u8; 4], usize)>, k: int) -> TheDrawOp {
    let row = r.row_info@[i];
    let gs = row.glyph_start as int;
    let ts = run_start(h, k);
    TheDrawOp::Text {
        row: i as usize,
        start: ts as usize,
        end: (ts + h[k].1) as usize,
        x: (r.left - r.scroll_offset.x - text_left(r.glyphs@, gs) + text_left(r.glyphs@, gs + ts)) as i128,
        y: (r.top - r.scroll_offset.y + row.top - 1) as i128,
        clip: (r.left, r.top, r.width, r.height),
        color: h[k].0,
    }
}

/// Text runs for the colour runs of row `i` from run `k` on: each run that
/// reaches the visible glyphs, in order, until a run starts past them or
/// would end beyond `usize`.
pub open spec fn colour_runs(r: &TheTextRenderer, i: int, h: Seq<([u8; 4], usize)>, k: int) -> Seq<TheDrawOp>
    decreases h.len() - k,
{
    if k < 0 || k >= h.len() {
        Seq::empty()
    } else {
        let row = r.row_info@[i];
        let gs = row.glyph_start as int;
        let span = visible_span(r, gs, row.glyph_end - gs);
        let ts = run_start(h, k);
        let te = ts + h[k].1;
        if ts > span.1 || te > usize::MAX {
            Seq::empty()
        } else if te >= span.0 {
            seq![run_op(r, i, h, k)] + colour_runs(r, i, h, k + 1)
        } else {
            colour_runs(r, i, h, k + 1)
        }
    }
}

/// Text runs of row `i`, whose text is `text_len` bytes long: none when the
/// row is out of view; its colour runs when it has some; else one run in `color`.
pub open spec fn row_runs(r: &TheTextRenderer, i: int, text_len: int, color: [u8; 4]) -> Seq<TheDrawOp> {
    if row_out_of_view(r, i) {
        Seq::empty()
    } else {
        match r.row_info@[i].highlights {
            Some(h) => colour_runs(r, i, h@, 0),
            None => seq![plain_run(r, i, text_len, color)],
        }
    }
}

/// The selection rectangle of row `i` when focused and part of the row is
/// selected within the glyphs.
pub open spec fn selection_steps(
    r: &TheTextRenderer,
    state: &TheTextEditState,
    focused: bool,
    color: [u8; 4],
    i: int,
) -> Seq<TheDrawOp> {
    if !focused {
        Seq::empty()
    } else {
        match selected_range_of_row(
            state.text_rows(),
            state.selection.start as int,
            state.selection.end as int,
            i,
        ) {
            Some(p) => if 1 <= p.1 <= r.glyphs@.len() && 0 <= p.0 < r.glyphs@.len() {
                match selection_op(r, i, p.0, p.1, color) {
                    Some(op) => seq![op],
                    None => Seq::empty(),
                }
            } else {
                Seq::empty()
            },
            None => Seq::empty(),
        }
    }
}

/// The steps of row `i` of a buffer: its selection, then its text runs.
pub open spec fn row_steps(
    r: &TheTextRenderer,
    state: &TheTextEditState,
    focused: bool,
    colors: TheTextColors,
    i: int,
) -> Seq<TheDrawOp> {
    if i < 0 || i >= state.rows@.len() {
        Seq::empty()
    } else {
        selection_steps(r, state, focused, colors.selection, i) + row_runs(
            r,
            i,
            (encode_utf8(state.text_rows()[i]).len() as usize) as int,
            colors.text,
        )
    }
}

/// The steps of rows `[i, e]`, in order.
pub open spec fn rows_steps(
    r: &TheTextRenderer,
    state: &TheTextEditState,
    focused: bool,
    colors: TheTextColors,
    i: int,
    e: int,
) -> Seq<TheDrawOp>
    decreases e + 1 - i,
{
    if i > e {
        Seq::empty()
    } else {
        row_steps(r, state, focused, colors, i) + rows_steps(r, state, focused, colors, i + 1, e)
    }
}

/// The steps that draw a buffer: those of each visible row, then the caret
/// when focused, editable, on a laid-out row and in view.
pub open spec fn text_steps(
    r: &TheTextRenderer,
    state: &TheTextEditState,
    focused: bool,
    readonly: bool,
    colors: TheTextColors,
) -> Seq<TheDrawOp> {
    match visible_range(r.row_info@, r.scroll_offset.y as int, r.height as int) {
        None => Seq::empty(),
        Some(p) => rows_steps(r, state, focused, colors, p.0, p.1) + if focused && !readonly
            && state.cursor.row < r.row_info@.len() {
            match cursor_op(r, state.cursor.row as int, state.cursor_at(), colors.caret) {
                Some(op) => seq![op],
                None => Seq::empty(),
            }
        } else {
            Seq::empty()
        },
    }
}

/// The drawing settings of two renderers agree: caret size, padding and
/// selection extent.
pub open spec fn same_style(a: &TheTextRenderer, b: &TheTextRenderer) -> bool {
    &&& a.cursor_width == b.cursor_width
    &&& a.cursor_vertical_shrink == b.cursor_vertical_shrink
    &&& a.padding == b.padding
    &&& a.selection_extend == b.selection_extend
}

} // verus!
