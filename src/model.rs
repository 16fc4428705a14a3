//! The document model: cursor-index arithmetic over rows of text, the
//! effect of each edit on rows and cursor, and the facts proved about them.
use vstd::math::min;
use vstd::prelude::*;

use crate::segment::{
    drop_glyphs, glyph_count, glyph_slice, graphemes_of, join_lines, lemma_glyph_count_le,
    lemma_no_break_parts, lemma_take_drop, lines_of, no_break, segmented, take_glyphs, white_space,
};
use crate::textedit::{TheCursor, TheSelection};

verus! {

broadcast use {Seq::lemma_flatten_push, Seq::lemma_flatten_singleton};

/// Cursor index of the first position of row `r`: every row before it
/// counts its clusters and its line break.
pub open spec fn start_of_row(rows: Seq<Seq<char>>, r: int) -> int
    decreases r,
{
    if r <= 0 {
        0
    } else {
        start_of_row(rows, r - 1) + glyph_count(rows[r - 1]) + 1
    }
}

/// Length of row `r` in cursor indices: its clusters, and its line break
/// unless it is the last row.
pub open spec fn row_length(rows: Seq<Seq<char>>, r: int) -> int {
    glyph_count(rows[r]) + if r == rows.len() - 1 {
        0int
    } else {
        1int
    }
}

/// Length of the whole document in cursor indices.
pub open spec fn total_length(rows: Seq<Seq<char>>) -> int {
    start_of_row(rows, rows.len() - 1) + glyph_count(rows.last())
}

/// Cursor index of `(row, col)`.
pub open spec fn cursor_index(rows: Seq<Seq<char>>, row: int, col: int) -> int {
    start_of_row(rows, row) + col
}

pub open spec fn row_of_index_from(rows: Seq<Seq<char>>, index: int, r: int) -> int
    decreases rows.len() - r,
{
    if r < 0 || r + 1 >= rows.len() || index < start_of_row(rows, r + 1) {
        r
    } else {
        row_of_index_from(rows, index, r + 1)
    }
}

/// The row that holds cursor index `index`; indices past the end belong to the last row.
pub open spec fn row_of_index(rows: Seq<Seq<char>>, index: int) -> int {
    row_of_index_from(rows, index, 0)
}

/// Column of cursor index `index` within its row.
pub open spec fn col_of_index(rows: Seq<Seq<char>>, index: int) -> int {
    index - start_of_row(rows, row_of_index(rows, index))
}

/// Characters plus one per row: the room the rows take, which bounds every index.
pub open spec fn char_budget(rows: Seq<Seq<char>>) -> int
    decreases rows.len(),
{
    if rows.len() == 0 {
        0
    } else {
        char_budget(rows.drop_last()) + rows.last().len() + 1
    }
}

/// Rows that form a document: at least one, none with a line break, each
/// with known clusters, and indices that fit in `usize`.
pub open spec fn rows_wf(rows: Seq<Seq<char>>) -> bool {
    &&& rows.len() >= 1
    &&& char_budget(rows) <= usize::MAX
    &&& forall|i: int| 0 <= i < rows.len() ==> #[trigger] segmented(rows[i]) && no_break(rows[i])
}

pub proof fn lemma_budget_concat(a: Seq<Seq<char>>, b: Seq<Seq<char>>)
    ensures
        char_budget(a + b) == char_budget(a) + char_budget(b),
    decreases b.len(),
{
    if b.len() == 0 {
        assert(a + b =~= a);
    } else {
        assert((a + b).drop_last() =~= a + b.drop_last());
        lemma_budget_concat(a, b.drop_last());
    }
}

pub proof fn lemma_budget_prefix(rows: Seq<Seq<char>>, k: int)
    requires
        0 <= k <= rows.len(),
    ensures
        char_budget(rows.take(k)) <= char_budget(rows),
        char_budget(rows.take(k)) >= 0,
    decreases rows.len(),
{
    if k == rows.len() {
        assert(rows.take(k) =~= rows);
        lemma_budget_nonneg(rows);
    } else {
        assert(rows.take(k) =~= rows.drop_last().take(k));
        lemma_budget_prefix(rows.drop_last(), k);
    }
}

pub proof fn lemma_budget_ge_len(rows: Seq<Seq<char>>)
    ensures
        char_budget(rows) >= rows.len(),
    decreases rows.len(),
{
    if rows.len() > 0 {
        lemma_budget_ge_len(rows.drop_last());
    }
}

pub proof fn lemma_budget_nonneg(rows: Seq<Seq<char>>)
    ensures
        char_budget(rows) >= 0,
    decreases rows.len(),
{
    if rows.len() > 0 {
        lemma_budget_nonneg(rows.drop_last());
    }
}

/// Every row starts within the budget of the rows before it.
pub proof fn lemma_start_le_budget(rows: Seq<Seq<char>>, r: int)
    requires
        rows_wf(rows),
        0 <= r <= rows.len(),
    ensures
        start_of_row(rows, r) <= char_budget(rows.take(r)),
    decreases r,
{
    if r > 0 {
        lemma_start_le_budget(rows, r - 1);
        assert(rows.take(r).drop_last() =~= rows.take(r - 1));
        assert(segmented(rows[r - 1]));
        lemma_glyph_count_le(rows[r - 1]);
    }
}

/// Indices of a well-formed document fit in `usize`.
pub proof fn lemma_index_bounds(rows: Seq<Seq<char>>, r: int)
    requires
        rows_wf(rows),
        0 <= r < rows.len(),
    ensures
        0 <= start_of_row(rows, r),
        start_of_row(rows, r) + glyph_count(rows[r]) + 1 <= char_budget(rows),
        total_length(rows) + 1 <= char_budget(rows),
        char_budget(rows) <= usize::MAX,
        rows.len() <= char_budget(rows),
{
    lemma_budget_ge_len(rows);
    lemma_start_nonneg(rows, r);
    lemma_start_le_budget(rows, r + 1);
    lemma_budget_prefix(rows, r + 1);
    lemma_start_le_budget(rows, rows.len() as int);
    assert(rows.take(rows.len() as int) =~= rows);
    lemma_start_le_budget(rows, rows.len() - 1);
    lemma_budget_prefix(rows, rows.len() - 1);
    assert(rows.take(rows.len() as int).drop_last() =~= rows.take(rows.len() - 1));
    assert(segmented(rows.last()));
    lemma_glyph_count_le(rows.last());
    assert(segmented(rows[r]));
    lemma_glyph_count_le(rows[r]);
    assert(rows.take(r + 1).drop_last() =~= rows.take(r));
    lemma_start_le_budget(rows, r);
}

pub proof fn lemma_start_nonneg(rows: Seq<Seq<char>>, r: int)
    ensures
        0 <= start_of_row(rows, r),
    decreases r,
{
    if r > 0 {
        lemma_start_nonneg(rows, r - 1);
    }
}

/// Rows start in increasing order, each after the clusters and line break of the ones before.
pub proof fn lemma_start_mono(rows: Seq<Seq<char>>, i: int, j: int)
    requires
        0 <= i < j,
    ensures
        start_of_row(rows, i) + glyph_count(rows[i]) + 1 <= start_of_row(rows, j),
    decreases j,
{
    if i < j - 1 {
        lemma_start_mono(rows, i, j - 1);
    }
}

/// The row that holds an index is the one whose range contains it.
pub proof fn lemma_row_of_index_unique(rows: Seq<Seq<char>>, index: int, r: int)
    requires
        0 <= r < rows.len(),
        start_of_row(rows, r) <= index,
        r + 1 == rows.len() || index < start_of_row(rows, r + 1),
    ensures
        row_of_index(rows, index) == r,
{
    lemma_row_of_index_from(rows, index, r, 0);
}

pub(crate) proof fn lemma_row_of_index_from(rows: Seq<Seq<char>>, index: int, r: int, k: int)
    requires
        0 <= k <= r < rows.len(),
        start_of_row(rows, r) <= index,
        r + 1 == rows.len() || index < start_of_row(rows, r + 1),
    ensures
        row_of_index_from(rows, index, k) == r,
    decreases r - k,
{
    if k < r {
        if k + 1 < r {
            lemma_start_mono(rows, k + 1, r);
        }
        lemma_row_of_index_from(rows, index, r, k + 1);
    }
}

/// The row of an index holds it: it starts at or before the index, and the next row after it.
pub proof fn lemma_row_of_index(rows: Seq<Seq<char>>, index: int)
    requires
        rows.len() >= 1,
        0 <= index,
    ensures
        0 <= row_of_index(rows, index) < rows.len(),
        start_of_row(rows, row_of_index(rows, index)) <= index,
        row_of_index(rows, index) + 1 == rows.len() || index < start_of_row(
            rows,
            row_of_index(rows, index) + 1,
        ),
{
    lemma_row_of_index_from_props(rows, index, 0);
}

pub(crate) proof fn lemma_row_of_index_from_props(rows: Seq<Seq<char>>, index: int, k: int)
    requires
        0 <= k < rows.len(),
        start_of_row(rows, k) <= index,
    ensures
        k <= row_of_index_from(rows, index, k) < rows.len(),
        start_of_row(rows, row_of_index_from(rows, index, k)) <= index,
        row_of_index_from(rows, index, k) + 1 == rows.len() || index < start_of_row(
            rows,
            row_of_index_from(rows, index, k) + 1,
        ),
    decreases rows.len() - k,
{
    if k + 1 < rows.len() && index >= start_of_row(rows, k + 1) {
        lemma_row_of_index_from_props(rows, index, k + 1);
    }
}

/// A column of a document index is within its row.
pub proof fn lemma_col_of_index(rows: Seq<Seq<char>>, index: int)
    requires
        rows.len() >= 1,
        0 <= index <= total_length(rows),
    ensures
        0 <= col_of_index(rows, index) <= glyph_count(rows[row_of_index(rows, index)]),
{
    lemma_row_of_index(rows, index);
}

/// Selected part of row `r` in cursor indices, for the selection `[a, b)`: the
/// row's line break alone when the selection starts on it; otherwise the
/// overlap with the row, which leaves out the line break unless the row is
/// empty or the last one.
pub open spec fn selected_range_of_row(rows: Seq<Seq<char>>, a: int, b: int, r: int) -> Option<
    (int, int),
> {
    let start = start_of_row(rows, r);
    let end = start + row_length(rows, r);
    if a == b || !(start < b && end > a) {
        None
    } else if a == end - 1 {
        Some((end - 1, end))
    } else {
        let left = if a > start {
            a
        } else {
            start
        };
        let bound = if start + 1 == end || r == rows.len() - 1 {
            end
        } else {
            end - 1
        };
        let right = if b < bound {
            b
        } else {
            bound
        };
        if left == right {
            None
        } else {
            Some((left, right))
        }
    }
}

pub(crate) proof fn lemma_single_row_wf(rows: Seq<Seq<char>>)
    requires
        rows.len() == 1,
        segmented(rows[0]),
        no_break(rows[0]),
        rows[0].len() == 0,
    ensures
        rows_wf(rows),
        total_length(rows) == 0,
{
    assert(rows.drop_last() =~= Seq::<Seq<char>>::empty());
    assert(char_budget(rows.drop_last()) == 0);
    assert(char_budget(rows) == 1);
    lemma_glyph_count_le(rows[0]);
}

/// Splitting a text into lines: at least one line, none with a line break,
/// one unit of budget per character and one more, and joining gives the text back.
pub proof fn lemma_lines_of(s: Seq<char>)
    ensures
        lines_of(s).len() >= 1,
        forall|i: int| 0 <= i < lines_of(s).len() ==> #[trigger] no_break(lines_of(s)[i]),
        char_budget(lines_of(s)) == s.len() + 1,
        join_lines(lines_of(s)) == s,
    decreases s.len(),
{
    if s.len() == 0 {
        let ls = lines_of(s);
        assert(ls.drop_last() =~= Seq::<Seq<char>>::empty());
        assert(s =~= Seq::<char>::empty());
        assert(no_break(ls[0]));
        assert(char_budget(ls.drop_last()) == 0);
    } else {
        let p = s.drop_last();
        lemma_lines_of(p);
        let rest = lines_of(p);
        let ls = lines_of(s);
        assert(p.push(s.last()) =~= s);
        if s.last() == '\n' {
            assert(ls.drop_last() =~= rest);
            assert forall|i: int| 0 <= i < ls.len() implies #[trigger] no_break(ls[i]) by {
                if i < rest.len() {
                    assert(ls[i] == rest[i]);
                }
            }
            assert(join_lines(ls) =~= join_lines(rest) + seq!['\n'] + Seq::<char>::empty());
            assert(char_budget(ls) == char_budget(rest) + 1);
        } else {
            let x = rest.last().push(s.last());
            assert(ls.drop_last() =~= rest.drop_last());
            assert(char_budget(ls) == char_budget(rest.drop_last()) + x.len() + 1);
            assert(char_budget(rest) == char_budget(rest.drop_last()) + rest.last().len() + 1);
            assert forall|i: int| 0 <= i < ls.len() implies #[trigger] no_break(ls[i]) by {
                if i < rest.len() - 1 {
                    assert(ls[i] == rest[i]);
                } else {
                    assert(no_break(rest[i]));
                    assert forall|j: int| 0 <= j < x.len() implies x[j] != '\n' by {
                        if j < rest.last().len() {
                            assert(x[j] == rest.last()[j]);
                        }
                    }
                }
            }
            if rest.len() == 1 {
                assert(join_lines(ls) == ls[0]);
                assert(join_lines(rest) == rest[0]);
                assert(join_lines(ls) =~= s);
            } else {
                assert(join_lines(ls) == join_lines(rest.drop_last()) + seq!['\n'] + x);
                assert(join_lines(ls) =~= s);
            }
        }
    }
}

/// Round trip between a row and column and the cursor index: the index of
/// `(row, col)` lies in row `row`, at column `col`.
pub proof fn lemma_index_round_trip(rows: Seq<Seq<char>>, row: int, col: int)
    requires
        rows.len() >= 1,
        0 <= row < rows.len(),
        0 <= col <= glyph_count(rows[row]),
    ensures
        row_of_index(rows, cursor_index(rows, row, col)) == row,
        col_of_index(rows, cursor_index(rows, row, col)) == col,
{
    lemma_row_of_index_unique(rows, cursor_index(rows, row, col), row);
}

/// Loading a text and reading it back gives the same text.
pub proof fn lemma_text_round_trip(s: Seq<char>)
    ensures
        join_lines(lines_of(s)) == s,
{
    lemma_lines_of(s);
}

/// The rows with `[a, b)` replaced by `mid`.
pub open spec fn splice(rows: Seq<Seq<char>>, a: int, b: int, mid: Seq<Seq<char>>) -> Seq<
    Seq<char>,
> {
    rows.take(a) + mid + rows.skip(b)
}

/// The rows after deleting the cursor-index range `[a, b)`: the start of the
/// row holding `a` joins the end of the row holding `b`.
pub open spec fn rows_without(rows: Seq<Seq<char>>, a: int, b: int) -> Seq<Seq<char>> {
    let ra = row_of_index(rows, a);
    let rb = row_of_index(rows, b);
    splice(
        rows,
        ra,
        rb + 1,
        seq![take_glyphs(rows[ra], col_of_index(rows, a)) + drop_glyphs(rows[rb], col_of_index(rows, b))],
    )
}

/// Where cursor index `i` goes when `[a, b)` is deleted.
pub open spec fn index_after_delete(i: int, a: int, b: int) -> int {
    if i < a {
        i
    } else if i < b {
        a
    } else {
        i - (b - a)
    }
}

/// Rows, cursor row and cursor column after deleting the selection `[a, b)`;
/// unchanged when the selection is empty.
pub open spec fn after_delete(rows: Seq<Seq<char>>, a: int, b: int, r: int, c: int) -> (
    Seq<Seq<char>>,
    int,
    int,
) {
    if a == b {
        (rows, r, c)
    } else {
        let nr = rows_without(rows, a, b);
        let i = min(index_after_delete(cursor_index(rows, r, c), a, b), total_length(nr));
        (nr, row_of_index(nr, i), col_of_index(nr, i))
    }
}

/// The text between cursor indices `a` and `b`: a line break for each row boundary crossed.
pub open spec fn text_between(rows: Seq<Seq<char>>, a: int, b: int) -> Seq<char> {
    let ra = row_of_index(rows, a);
    let rb = row_of_index(rows, b);
    if a >= b {
        Seq::empty()
    } else if ra == rb {
        glyph_slice(rows[ra], col_of_index(rows, a), col_of_index(rows, b))
    } else {
        join_lines(
            seq![drop_glyphs(rows[ra], col_of_index(rows, a))] + rows.subrange(ra + 1, rb) + seq![
                take_glyphs(rows[rb], col_of_index(rows, b)),
            ],
        )
    }
}

pub(crate) proof fn lemma_text_between_empty(rows: Seq<Seq<char>>, a: int)
    ensures
        text_between(rows, a, a) == Seq::<char>::empty(),
{
}

pub(crate) proof fn lemma_take_len_mono(s: Seq<char>, l: int, r: int)
    requires
        segmented(s),
        0 <= l <= r <= glyph_count(s),
    ensures
        take_glyphs(s, l).len() <= take_glyphs(s, r).len(),
        take_glyphs(s, l) + glyph_slice(s, l, r) == take_glyphs(s, r),
{
    let g = graphemes_of(s);
    vstd::seq_lib::lemma_flatten_concat(g.take(l), g.subrange(l, r));
    assert(g.take(l) + g.subrange(l, r) =~= g.take(r));
}

pub(crate) proof fn lemma_no_break_join(a: Seq<char>, b: Seq<char>)
    requires
        no_break(a),
        no_break(b),
    ensures
        no_break(a + b),
{
    assert forall|i: int| 0 <= i < (a + b).len() implies (a + b)[i] != '\n' by {
        if i < a.len() {
            assert((a + b)[i] == a[i]);
        } else {
            assert((a + b)[i] == b[i - a.len()]);
        }
    }
}

pub(crate) proof fn lemma_budget_single(x: Seq<char>)
    ensures
        char_budget(seq![x]) == x.len() + 1,
{
    assert(seq![x].drop_last() =~= Seq::<Seq<char>>::empty());
    assert(char_budget(Seq::<Seq<char>>::empty()) == 0);
}

/// Each row of a well-formed document has known clusters and no line break.
pub proof fn lemma_row_ok(rows: Seq<Seq<char>>, i: int)
    requires
        rows_wf(rows),
        0 <= i < rows.len(),
    ensures
        segmented(rows[i]),
        no_break(rows[i]),
{
    assert(segmented(rows[i]) && no_break(rows[i]));
}

/// Replacing rows keeps the document well formed when the new rows are, and
/// the budget grows by no more than the room left.
pub(crate) proof fn lemma_splice_wf(rows: Seq<Seq<char>>, a: int, b: int, mid: Seq<Seq<char>>, room: int)
    requires
        rows_wf(rows),
        0 <= a <= b <= rows.len(),
        forall|i: int| 0 <= i < mid.len() ==> #[trigger] segmented(mid[i]) && no_break(mid[i]),
        rows.len() - (b - a) + mid.len() >= 1,
        char_budget(mid) <= char_budget(rows.subrange(a, b)) + room,
        char_budget(rows) + room <= usize::MAX,
    ensures
        rows_wf(splice(rows, a, b, mid)),
        char_budget(splice(rows, a, b, mid)) == char_budget(rows) - char_budget(rows.subrange(a, b))
            + char_budget(mid),
{
    lemma_budget_concat(rows.take(a), rows.subrange(a, b));
    lemma_budget_concat(rows.take(a) + rows.subrange(a, b), rows.skip(b));
    assert(rows.take(a) + rows.subrange(a, b) + rows.skip(b) =~= rows);
    lemma_budget_concat(rows.take(a), mid);
    lemma_budget_concat(rows.take(a) + mid, rows.skip(b));
    let n = splice(rows, a, b, mid);
    assert forall|i: int| 0 <= i < n.len() implies #[trigger] segmented(n[i]) && no_break(n[i]) by {
        if i < a {
            assert(n[i] == rows[i]);
        } else if i < a + mid.len() {
            assert(n[i] == mid[i - a]);
        } else {
            assert(n[i] == rows[i - a - mid.len() + b]);
        }
    }
}

/// Rows of indices come in the order of the indices.
pub(crate) proof fn lemma_row_of_index_mono(rows: Seq<Seq<char>>, a: int, b: int)
    requires
        rows.len() >= 1,
        0 <= a <= b,
    ensures
        row_of_index(rows, a) <= row_of_index(rows, b),
        row_of_index(rows, a) == row_of_index(rows, b) ==> col_of_index(rows, a) <= col_of_index(
            rows,
            b,
        ),
{
    lemma_row_of_index(rows, a);
    lemma_row_of_index(rows, b);
    let ra = row_of_index(rows, a);
    let rb = row_of_index(rows, b);
    if rb < ra {
        if rb + 1 < ra {
            lemma_start_mono(rows, rb + 1, ra);
        }
    }
}

/// Deleting a non-empty range leaves a joined row without line breaks that
/// takes no more room than the rows it replaces.
pub(crate) proof fn lemma_delete_budget(rows: Seq<Seq<char>>, a: int, b: int)
    requires
        rows_wf(rows),
        0 <= a < b <= total_length(rows),
    ensures
        ({
            let ra = row_of_index(rows, a);
            let rb = row_of_index(rows, b);
            let x = take_glyphs(rows[ra], col_of_index(rows, a)) + drop_glyphs(
                rows[rb],
                col_of_index(rows, b),
            );
            &&& 0 <= ra <= rb < rows.len()
            &&& no_break(x)
            &&& char_budget(seq![x]) <= char_budget(rows.subrange(ra, rb + 1))
        }),
{
    lemma_row_of_index(rows, a);
    lemma_row_of_index(rows, b);
    lemma_col_of_index(rows, a);
    lemma_col_of_index(rows, b);
    lemma_row_of_index_mono(rows, a, b);
    let ra = row_of_index(rows, a);
    let rb = row_of_index(rows, b);
    let ca = col_of_index(rows, a);
    let cb = col_of_index(rows, b);
    let sa = rows[ra];
    let sb = rows[rb];
    lemma_row_ok(rows, ra);
    lemma_row_ok(rows, rb);
    lemma_take_drop(sa, ca);
    lemma_take_drop(sb, cb);
    lemma_no_break_parts(take_glyphs(sa, ca), drop_glyphs(sa, ca));
    lemma_no_break_parts(take_glyphs(sb, cb), drop_glyphs(sb, cb));
    lemma_no_break_join(take_glyphs(sa, ca), drop_glyphs(sb, cb));
    let x = take_glyphs(sa, ca) + drop_glyphs(sb, cb);
    lemma_budget_single(x);
    if ra == rb {
        lemma_take_len_mono(sa, ca, cb);
        assert(rows.subrange(ra, rb + 1) =~= seq![sa]);
        lemma_budget_single(sa);
    } else {
        let sub = rows.subrange(ra, rb + 1);
        assert(sub =~= seq![sa] + rows.subrange(ra + 1, rb) + seq![sb]);
        lemma_budget_concat(seq![sa], rows.subrange(ra + 1, rb));
        lemma_budget_concat(seq![sa] + rows.subrange(ra + 1, rb), seq![sb]);
        lemma_budget_single(sa);
        lemma_budget_single(sb);
        lemma_budget_nonneg(rows.subrange(ra + 1, rb));
    }
}

/// Rows, cursor row and cursor column after deleting the cluster before
/// `(r, c)`; at the start of a row, that row joins the previous one.
pub open spec fn after_backspace(rows: Seq<Seq<char>>, r: int, c: int) -> (
    Seq<Seq<char>>,
    int,
    int,
) {
    if r == 0 && c == 0 {
        (rows, r, c)
    } else if c == 0 {
        let merged = rows[r - 1] + rows[r];
        (
            splice(rows, r - 1, r + 1, seq![merged]),
            r - 1,
            min(glyph_count(rows[r - 1]) as int, glyph_count(merged) as int),
        )
    } else {
        let x = take_glyphs(rows[r], c - 1) + drop_glyphs(rows[r], c);
        (rows.update(r, x), r, min(c - 1, glyph_count(x) as int))
    }
}

/// Rows and cursor after splitting row `r` at column `c`.
pub open spec fn after_insert_row(rows: Seq<Seq<char>>, r: int, c: int) -> (
    Seq<Seq<char>>,
    int,
    int,
) {
    (splice(rows, r, r + 1, seq![take_glyphs(rows[r], c), drop_glyphs(rows[r], c)]), r + 1, 0)
}

/// One step right from `(r, c)`: to the next row from the end of a row, nowhere at the end.
pub open spec fn step_right(rows: Seq<Seq<char>>, r: int, c: int) -> (Seq<Seq<char>>, int, int) {
    if c == glyph_count(rows[r]) {
        if r == rows.len() - 1 {
            (rows, r, c)
        } else {
            (rows, r + 1, 0)
        }
    } else {
        (rows, r, c + 1)
    }
}

/// Rows and cursor after inserting `ch` at `(r, c)` and stepping past it.
pub open spec fn after_insert_char(rows: Seq<Seq<char>>, r: int, c: int, ch: char) -> (
    Seq<Seq<char>>,
    int,
    int,
) {
    let x = take_glyphs(rows[r], c) + seq![ch] + drop_glyphs(rows[r], c);
    step_right(rows.update(r, x), r, min(c, glyph_count(x) as int))
}

/// Rows and cursor after inserting `text` at `(r, c)`: a text without line
/// breaks goes into the row; otherwise the row is split at the cursor, its
/// start takes the first line of the text, and its end follows the last line.
pub open spec fn after_insert(rows: Seq<Seq<char>>, r: int, c: int, text: Seq<char>) -> (
    Seq<Seq<char>>,
    int,
    int,
) {
    let ls = lines_of(text);
    let k = ls.len() - 1;
    let head = take_glyphs(rows[r], c);
    let tail = drop_glyphs(rows[r], c);
    if k == 0 {
        let x = head + text + tail;
        (rows.update(r, x), r, min(c + glyph_count(text), glyph_count(x) as int))
    } else {
        let last = ls[k] + tail;
        (
            splice(rows, r, r + 1, seq![head + ls[0]] + ls.subrange(1, k) + seq![last]),
            r + k,
            min(glyph_count(ls[k]) as int, glyph_count(last) as int),
        )
    }
}

pub(crate) proof fn lemma_lines_budget(ls: Seq<Seq<char>>, head: Seq<char>, tail: Seq<char>)
    requires
        ls.len() >= 2,
    ensures
        char_budget(seq![head + ls[0]] + ls.subrange(1, ls.len() - 1) + seq![ls.last() + tail])
            == char_budget(ls) + head.len() + tail.len(),
{
    let k = ls.len() - 1;
    let m = ls.subrange(1, k);
    assert(ls =~= seq![ls[0]] + m + seq![ls[k]]);
    lemma_budget_concat(seq![ls[0]], m);
    lemma_budget_concat(seq![ls[0]] + m, seq![ls[k]]);
    lemma_budget_concat(seq![head + ls[0]], m);
    lemma_budget_concat(seq![head + ls[0]] + m, seq![ls[k] + tail]);
    lemma_budget_single(ls[0]);
    lemma_budget_single(ls[k]);
    lemma_budget_single(head + ls[0]);
    lemma_budget_single(ls[k] + tail);
}

/// Whether a cluster begins with whitespace.
pub open spec fn glyph_is_space(g: Seq<char>) -> bool {
    g.len() > 0 && white_space(g[0])
}

/// For each cluster of a row, whether it begins with whitespace.
pub open spec fn space_flags(s: Seq<char>) -> Seq<bool> {
    graphemes_of(s).map_values(|g: Seq<char>| glyph_is_space(g))
}

/// `[s, e)` is the longest run of equal flags around `i`.
pub open spec fn is_run(flags: Seq<bool>, i: int, s: int, e: int) -> bool {
    &&& 0 <= s <= i < e <= flags.len()
    &&& forall|j: int| s <= j < e ==> flags[j] == flags[i]
    &&& s == 0 || flags[s - 1] != flags[i]
    &&& e == flags.len() || flags[e] != flags[i]
}

/// The rows covered by a line move: the selection's rows, or the cursor's row.
pub open spec fn line_span(rows: Seq<Seq<char>>, cursor: TheCursor, sel: TheSelection) -> (int, int) {
    if sel.start == sel.end {
        (cursor.row as int, cursor.row as int)
    } else {
        (row_of_index(rows, sel.start as int), row_of_index(rows, sel.end as int))
    }
}

/// Rows, cursor and selection after moving rows `[s, e]` one row down or up
/// past their neighbour; nothing changes at the edge of the document.
pub open spec fn moved_lines(
    rows: Seq<Seq<char>>,
    cursor: TheCursor,
    sel: TheSelection,
    s: int,
    e: int,
    down: bool,
) -> (Seq<Seq<char>>, TheCursor, TheSelection) {
    if (down && e + 1 >= rows.len()) || (!down && s == 0) {
        (rows, cursor, sel)
    } else {
        let adj = if down {
            e + 1
        } else {
            s - 1
        };
        let shift = glyph_count(rows[adj]) + 1;
        let new_rows = moved_rows(rows, s, e, down);
        let new_row = moved_row_index(cursor.row as int, s, e, down);
        let new_sel = if sel.start == sel.end {
            sel
        } else if down {
            TheSelection { start: (sel.start + shift) as usize, end: (sel.end + shift) as usize }
        } else {
            TheSelection { start: (sel.start - shift) as usize, end: (sel.end - shift) as usize }
        };
        (new_rows, TheCursor { row: new_row as usize, column: cursor.column }, new_sel)
    }
}

/// Rows after moving rows `[s, e]` one row down or up past their neighbour.
pub open spec fn moved_rows(rows: Seq<Seq<char>>, s: int, e: int, down: bool) -> Seq<Seq<char>> {
    if down {
        rows.take(s) + seq![rows[e + 1]] + rows.subrange(s, e + 1) + rows.skip(e + 2)
    } else {
        rows.take(s - 1) + rows.subrange(s, e + 1) + seq![rows[s - 1]] + rows.skip(e + 1)
    }
}

/// Where row `row` goes when rows `[s, e]` move one row down or up.
pub open spec fn moved_row_index(row: int, s: int, e: int, down: bool) -> int {
    if s <= row <= e {
        if down {
            row + 1
        } else {
            row - 1
        }
    } else if down && row == e + 1 {
        s
    } else if !down && row == s - 1 {
        e
    } else {
        row
    }
}

/// The rows that replace the moved rows and their neighbour.
pub open spec fn moved_mid(rows: Seq<Seq<char>>, s: int, e: int, down: bool) -> Seq<Seq<char>> {
    if down {
        seq![rows[e + 1]] + rows.subrange(s, e + 1)
    } else {
        rows.subrange(s, e + 1) + seq![rows[s - 1]]
    }
}

/// Clusters of all rows.
pub open spec fn count_sum(rows: Seq<Seq<char>>) -> int
    decreases rows.len(),
{
    if rows.len() == 0 {
        0
    } else {
        count_sum(rows.drop_last()) + glyph_count(rows.last())
    }
}

pub(crate) proof fn lemma_count_sum_concat(a: Seq<Seq<char>>, b: Seq<Seq<char>>)
    ensures
        count_sum(a + b) == count_sum(a) + count_sum(b),
    decreases b.len(),
{
    if b.len() == 0 {
        assert(a + b =~= a);
    } else {
        assert((a + b).drop_last() =~= a + b.drop_last());
        lemma_count_sum_concat(a, b.drop_last());
    }
}

pub(crate) proof fn lemma_start_count(rows: Seq<Seq<char>>, r: int)
    requires
        0 <= r <= rows.len(),
    ensures
        start_of_row(rows, r) == count_sum(rows.take(r)) + r,
    decreases r,
{
    if r > 0 {
        lemma_start_count(rows, r - 1);
        assert(rows.take(r).drop_last() =~= rows.take(r - 1));
    } else {
        assert(rows.take(0) =~= Seq::<Seq<char>>::empty());
    }
}

/// The document's length is its clusters plus its line breaks.
pub(crate) proof fn lemma_total_count(rows: Seq<Seq<char>>)
    requires
        rows.len() >= 1,
    ensures
        total_length(rows) == count_sum(rows) + rows.len() - 1,
{
    lemma_start_count(rows, rows.len() - 1);
    assert(rows.take(rows.len() - 1) =~= rows.drop_last());
}

/// First row that a move replaces.
pub open spec fn moved_from(s: int, down: bool) -> int {
    if down {
        s
    } else {
        s - 1
    }
}

/// Row after the last one that a move replaces.
pub open spec fn moved_to(e: int, down: bool) -> int {
    if down {
        e + 2
    } else {
        e + 1
    }
}

/// Moving rows replaces a range by the same rows in another order: the room
/// and the length of the document stay, and the new rows are well formed.
pub(crate) proof fn lemma_moved_rows(rows: Seq<Seq<char>>, s: int, e: int, down: bool)
    requires
        rows_wf(rows),
        0 <= s <= e < rows.len(),
        down ==> e + 1 < rows.len(),
        !down ==> s > 0,
    ensures
        splice(rows, moved_from(s, down), moved_to(e, down), moved_mid(rows, s, e, down))
            == moved_rows(rows, s, e, down),
        char_budget(moved_mid(rows, s, e, down)) == char_budget(
            rows.subrange(moved_from(s, down), moved_to(e, down)),
        ),
        forall|i: int|
            0 <= i < moved_mid(rows, s, e, down).len() ==> #[trigger] segmented(
                moved_mid(rows, s, e, down)[i],
            ) && no_break(moved_mid(rows, s, e, down)[i]),
        total_length(moved_rows(rows, s, e, down)) == total_length(rows),
        moved_rows(rows, s, e, down).len() == rows.len(),
{
    let a = moved_from(s, down);
    let b = moved_to(e, down);
    let mid = moved_mid(rows, s, e, down);
    let block = rows.subrange(s, e + 1);
    let adj = if down {
        e + 1
    } else {
        s - 1
    };
    let one = seq![rows[adj]];
    lemma_moved_split(rows, s, e, down);
    lemma_budget_concat(block, one);
    lemma_budget_concat(one, block);
    lemma_count_sum_concat(block, one);
    lemma_count_sum_concat(one, block);
    lemma_moved_mid_ok(rows, s, e, down);
    let m = moved_rows(rows, s, e, down);
    lemma_count_sum_splice(rows, a, b, mid);
    lemma_total_count(rows);
    lemma_total_count(m);
}

pub(crate) proof fn lemma_moved_split(rows: Seq<Seq<char>>, s: int, e: int, down: bool)
    requires
        0 <= s <= e < rows.len(),
        down ==> e + 1 < rows.len(),
        !down ==> s > 0,
    ensures
        ({
            let block = rows.subrange(s, e + 1);
            let one = if down {
                seq![rows[e + 1]]
            } else {
                seq![rows[s - 1]]
            };
            let sub = rows.subrange(moved_from(s, down), moved_to(e, down));
            let mid = moved_mid(rows, s, e, down);
            &&& down ==> sub == block + one && mid == one + block
            &&& !down ==> sub == one + block && mid == block + one
            &&& splice(rows, moved_from(s, down), moved_to(e, down), mid) == moved_rows(rows, s, e, down)
            &&& moved_rows(rows, s, e, down).len() == rows.len()
        }),
{
    let block = rows.subrange(s, e + 1);
    let a = moved_from(s, down);
    let b = moved_to(e, down);
    let mid = moved_mid(rows, s, e, down);
    if down {
        let one = seq![rows[e + 1]];
        assert(rows.subrange(a, b) =~= block + one);
        assert(mid =~= one + block);
    } else {
        let one = seq![rows[s - 1]];
        assert(rows.subrange(a, b) =~= one + block);
        assert(mid =~= block + one);
    }
    assert(splice(rows, a, b, mid) =~= moved_rows(rows, s, e, down));
}

/// Replacing rows by rows with as many clusters keeps the clusters of the whole.
pub(crate) proof fn lemma_count_sum_splice(rows: Seq<Seq<char>>, a: int, b: int, mid: Seq<Seq<char>>)
    requires
        0 <= a <= b <= rows.len(),
    ensures
        count_sum(splice(rows, a, b, mid)) == count_sum(rows) - count_sum(rows.subrange(a, b))
            + count_sum(mid),
{
    lemma_count_sum_concat(rows.take(a), rows.subrange(a, b));
    lemma_count_sum_concat(rows.take(a) + rows.subrange(a, b), rows.skip(b));
    assert(rows.take(a) + rows.subrange(a, b) + rows.skip(b) =~= rows);
    lemma_count_sum_concat(rows.take(a), mid);
    lemma_count_sum_concat(rows.take(a) + mid, rows.skip(b));
}

/// A moved row keeps its text at its new place.
pub(crate) proof fn lemma_moved_rows_index(rows: Seq<Seq<char>>, s: int, e: int, down: bool, row: int)
    requires
        0 <= s <= e < rows.len(),
        down ==> e + 1 < rows.len(),
        !down ==> s > 0,
        0 <= row < rows.len(),
    ensures
        0 <= moved_row_index(row, s, e, down) < rows.len(),
        moved_rows(rows, s, e, down)[moved_row_index(row, s, e, down)] == rows[row],
{
    let m = moved_rows(rows, s, e, down);
    assert(m.len() == rows.len());
    let j = moved_row_index(row, s, e, down);
    if down {
        if row < s {
            assert(m[j] == rows.take(s)[row]);
        } else if row <= e {
            assert(m[j] == rows.subrange(s, e + 1)[row - s]);
        } else if row == e + 1 {
            assert(m[j] == rows[e + 1]);
        } else {
            assert(m[j] == rows.skip(e + 2)[row - e - 2]);
        }
    } else {
        if row < s - 1 {
            assert(m[j] == rows.take(s - 1)[row]);
        } else if row == s - 1 {
            assert(m[j] == rows[s - 1]);
        } else if row <= e {
            assert(m[j] == rows.subrange(s, e + 1)[row - s]);
        } else {
            assert(m[j] == rows.skip(e + 1)[row - e - 1]);
        }
    }
}

/// A selection over rows `[s, e]` stays within the document when it moves
/// past a neighbouring row.
pub(crate) proof fn lemma_selection_shift(rows: Seq<Seq<char>>, a: int, b: int, down: bool)
    requires
        rows_wf(rows),
        0 <= a < b <= total_length(rows),
        down ==> row_of_index(rows, b) + 1 < rows.len(),
        !down ==> row_of_index(rows, a) > 0,
    ensures
        down ==> b + glyph_count(rows[row_of_index(rows, b) + 1]) + 1 <= total_length(rows),
        !down ==> a >= glyph_count(rows[row_of_index(rows, a) - 1]) + 1,
{
    lemma_row_of_index(rows, a);
    lemma_row_of_index(rows, b);
    let e = row_of_index(rows, b);
    let s = row_of_index(rows, a);
    if down {
        if e + 2 < rows.len() {
            lemma_start_mono(rows, e + 1, e + 2);
            if e + 2 < rows.len() - 1 {
                lemma_start_mono(rows, e + 2, rows.len() - 1);
            }
        }
    } else {
        lemma_start_mono(rows, s - 1, s);
        lemma_start_nonneg(rows, s - 1);
    }
}

/// A text without line breaks is a single line.
pub proof fn lemma_single_line(s: Seq<char>)
    requires
        no_break(s),
    ensures
        lines_of(s) == seq![s],
    decreases s.len(),
{
    if s.len() == 0 {
        assert(s =~= Seq::<char>::empty());
    } else {
        let p = s.drop_last();
        assert(no_break(p)) by {
            assert forall|i: int| 0 <= i < p.len() implies p[i] != '\n' by {
                assert(p[i] == s[i]);
            }
        }
        lemma_single_line(p);
        assert(s[s.len() - 1] != '\n');
        assert(p.push(s.last()) =~= s);
        assert(lines_of(s) =~= seq![s]);
    }
}

/// Cutting a selection of the whole document returns the document's text and
/// leaves one empty row with the cursor at its start.
pub proof fn lemma_cut_all(rows: Seq<Seq<char>>, r: int, c: int)
    requires
        rows_wf(rows),
        0 <= r < rows.len(),
        0 <= c <= glyph_count(rows[r]),
    ensures
        text_between(rows, 0, total_length(rows)) == join_lines(rows),
        total_length(rows) > 0 ==> after_delete(rows, 0, total_length(rows), r, c) == (
            seq![Seq::<char>::empty()],
            0int,
            0int,
        ),
        total_length(rows) == 0 ==> rows == seq![Seq::<char>::empty()] && r == 0 && c == 0,
{
    let n = rows.len();
    let last = n - 1;
    let total = total_length(rows);
    lemma_index_bounds(rows, last);
    lemma_start_nonneg(rows, last);
    lemma_row_ok(rows, 0);
    lemma_row_ok(rows, last);
    lemma_take_drop(rows[0], 0);
    lemma_take_drop(rows[last], glyph_count(rows[last]) as int);
    if n > 1 {
        lemma_start_mono(rows, 0, 1);
        lemma_start_mono(rows, 0, last);
    }
    lemma_row_of_index_unique(rows, 0, 0);
    lemma_row_of_index_unique(rows, total, last);
    if total == 0 {
        assert(n == 1);
        lemma_glyph_count_le(rows[0]);
        lemma_flatten_len_zero(rows[0]);
        assert(rows =~= seq![Seq::<char>::empty()]);
        if r == 0 {
        }
    } else {
        if n == 1 {
            let g = graphemes_of(rows[0]);
            assert(g.subrange(0, g.len() as int) =~= g);
            assert(text_between(rows, 0, total) == rows[0]);
        } else {
            assert(seq![drop_glyphs(rows[0], 0)] + rows.subrange(1, last) + seq![
                take_glyphs(rows[last], glyph_count(rows[last]) as int),
            ] =~= rows);
        }
        let mid = seq![take_glyphs(rows[0], 0) + drop_glyphs(rows[last], glyph_count(rows[last]) as int)];
        assert(mid =~= seq![Seq::<char>::empty()]);
        assert(rows_without(rows, 0, total) =~= seq![Seq::<char>::empty()]);
        let nr = rows_without(rows, 0, total);
        lemma_start_nonneg(rows, r);
        let i = min(index_after_delete(cursor_index(rows, r, c), 0, total), total_length(nr));
        lemma_index_bounds(rows, r);
        if r < last {
            lemma_start_mono(rows, r, last);
        }
        assert(i == 0);
    }
}

/// A row without clusters is empty.
pub(crate) proof fn lemma_flatten_len_zero(s: Seq<char>)
    requires
        segmented(s),
        glyph_count(s) == 0,
    ensures
        s.len() == 0,
{
    assert(graphemes_of(s) =~= Seq::<Seq<char>>::empty());
}

/// Inserting one cluster at a cursor and then deleting backwards restores the
/// rows and the cursor, where the cluster stays a cluster of its own in the
/// edited row.
pub proof fn lemma_insert_then_delete(rows: Seq<Seq<char>>, r: int, c: int, text: Seq<char>)
    requires
        rows_wf(rows),
        0 <= r < rows.len(),
        0 <= c <= glyph_count(rows[r]),
        no_break(text),
        graphemes_of(text).len() == 1,
        graphemes_of(take_glyphs(rows[r], c) + text + drop_glyphs(rows[r], c)) == graphemes_of(
            rows[r],
        ).take(c) + graphemes_of(text) + graphemes_of(rows[r]).skip(c),
    ensures
        ({
            let i = after_insert(rows, r, c, text);
            after_backspace(i.0, i.1, i.2) == (rows, r, c)
        }),
{
    lemma_single_line(text);
    lemma_row_ok(rows, r);
    lemma_take_drop(rows[r], c);
    let g = graphemes_of(rows[r]);
    let x = take_glyphs(rows[r], c) + text + drop_glyphs(rows[r], c);
    let h = graphemes_of(x);
    assert(h.take(c) =~= g.take(c));
    assert(h.skip(c + 1) =~= g.skip(c));
    let i = after_insert(rows, r, c, text);
    assert(i.0 == rows.update(r, x));
    assert(i.2 == c + 1);
    assert(i.0.update(r, rows[r]) =~= rows);
}

pub(crate) proof fn lemma_moved_mid_ok(rows: Seq<Seq<char>>, s: int, e: int, down: bool)
    requires
        rows_wf(rows),
        0 <= s <= e < rows.len(),
        down ==> e + 1 < rows.len(),
        !down ==> s > 0,
    ensures
        forall|i: int|
            0 <= i < moved_mid(rows, s, e, down).len() ==> #[trigger] segmented(
                moved_mid(rows, s, e, down)[i],
            ) && no_break(moved_mid(rows, s, e, down)[i]),
{
    let mid = moved_mid(rows, s, e, down);
    let block = rows.subrange(s, e + 1);
    assert(block.len() == e + 1 - s);
    assert(mid.len() == block.len() + 1);
    if down {
        assert(mid[0] == rows[e + 1]);
    } else {
        assert(mid[block.len() as int] == rows[s - 1]);
    }
    assert forall|i: int| 0 <= i < mid.len() implies #[trigger] segmented(mid[i]) && no_break(
        mid[i],
    ) by {
        if down {
            if i == 0 {
                lemma_row_ok(rows, e + 1);
            } else {
                assert(mid[i] == rows[s + i - 1]);
                lemma_row_ok(rows, s + i - 1);
            }
        } else {
            if i < block.len() {
                assert(mid[i] == rows[s + i]);
                lemma_row_ok(rows, s + i);
            } else {
                lemma_row_ok(rows, s - 1);
            }
        }
    }
}

/// Inserting a line break at a cursor and then deleting backwards restores
/// the rows and the cursor, where the start of the split row keeps its
/// clusters and an empty row has none.
pub proof fn lemma_insert_break_then_delete(rows: Seq<Seq<char>>, r: int, c: int)
    requires
        rows_wf(rows),
        0 <= r < rows.len(),
        0 <= c <= glyph_count(rows[r]),
        glyph_count(take_glyphs(rows[r], c)) == c,
        glyph_count(Seq::<char>::empty()) == 0,
    ensures
        ({
            let i = after_insert(rows, r, c, seq!['\n']);
            after_backspace(i.0, i.1, i.2) == (rows, r, c)
        }),
{
    let e = Seq::<char>::empty();
    let text = seq!['\n'];
    assert(text.drop_last() =~= e);
    assert(lines_of(e) == seq![e]);
    let ls = lines_of(text);
    assert(ls =~= seq![e, e]);
    lemma_row_ok(rows, r);
    lemma_take_drop(rows[r], c);
    let head = take_glyphs(rows[r], c);
    let tail = drop_glyphs(rows[r], c);
    assert(head + ls[0] =~= head);
    assert(ls[1] + tail =~= tail);
    assert(ls.subrange(1, 1) =~= Seq::<Seq<char>>::empty());
    let i = after_insert(rows, r, c, text);
    let mid = seq![head + ls[0]] + ls.subrange(1, 1) + seq![ls[1] + tail];
    assert(mid =~= seq![head, tail]);
    let nr = splice(rows, r, r + 1, mid);
    assert(i.0 == nr);
    assert(i.1 == r + 1);
    assert(i.2 == 0);
    assert(nr[r] == head);
    assert(nr[r + 1] == tail);
    assert(nr[r] + nr[r + 1] == rows[r]);
    assert(splice(nr, r, r + 2, seq![nr[r] + nr[r + 1]]) =~= rows);
}

} // verus!
