use theframework::layout::{
    len_utf8, TheDim, TheDrawOp, TheShapedGlyph, TheShapedLine, TheTextColors, TheTextRenderer,
    Vec2i, Vec2u,
};
use theframework::rgbabuffer::TheRGBABuffer;
use theframework::textedit::{TheCursor, TheTextEditState};

fn glyph(parent: char, byte_offset: usize, x: usize, width: usize) -> TheShapedGlyph {
    TheShapedGlyph { parent, byte_offset, x, width }
}

fn line(top: usize, bottom: usize, baseline: usize, glyph_start: usize, glyph_end: usize) -> TheShapedLine {
    TheShapedLine { top, bottom, baseline, glyph_start, glyph_end }
}

/// "ab\ncd" shaped with 7 pixel wide glyphs and 14 pixel high lines.
fn two_rows() -> TheTextRenderer {
    let glyphs = vec![
        glyph('a', 0, 0, 7),
        glyph('b', 1, 7, 7),
        glyph('\n', 2, 14, 0),
        glyph('c', 3, 0, 7),
        glyph('d', 4, 7, 7),
    ];
    let lines = vec![line(0, 14, 11, 0, 2), line(14, 28, 25, 3, 4)];
    let mut r = TheTextRenderer::default();
    r.set_dim(0, 0, 10, 14);
    assert!(r.prepare(&glyphs, &lines, 4, None));
    r
}

#[test]
fn prepare_builds_rows_and_content_size() {
    let r = two_rows();
    assert_eq!(r.row_count(), 2);
    assert_eq!(r.row_info[0].left, 0);
    assert_eq!(r.row_info[0].right, 14);
    assert_eq!(r.row_info[1].right, 14);
    assert_eq!(r.row_info[1].top, 14);
    assert_eq!(r.row_baseline(1), 25);
    assert_eq!(r.actual_size, Vec2u { x: 14, y: 28 });
    assert_eq!((r.glyphs[4].start, r.glyphs[4].end), (4, 5));
    assert!(r.is_horizontal_overflow());
    assert!(r.is_vertical_overflow());
}

#[test]
fn trailing_space_gets_the_space_width() {
    let glyphs = vec![glyph('a', 0, 0, 7), glyph(' ', 1, 7, 0)];
    let lines = vec![line(0, 14, 11, 0, 1)];
    let mut r = TheTextRenderer::default();
    assert!(r.prepare(&glyphs, &lines, 5, None));
    assert_eq!(r.glyphs[1].width, 5);
    assert_eq!(r.row_info[0].right, 12);
    assert_eq!(r.actual_size.x, 12);
}

#[test]
fn inconsistent_shaping_is_refused() {
    let glyphs = vec![glyph('a', 0, 0, 7)];
    let lines = vec![line(0, 14, 11, 0, 3)];
    let mut r = TheTextRenderer::default();
    assert!(!r.prepare(&glyphs, &lines, 5, None));
    assert_eq!(r.row_count(), 0);
    assert_eq!(r.visible_rows(), None);
}

#[test]
fn highlights_attach_to_rows() {
    let glyphs = vec![glyph('a', 0, 0, 7), glyph('\n', 1, 7, 0), glyph('b', 2, 0, 7)];
    let lines = vec![line(0, 14, 11, 0, 1), line(14, 28, 25, 2, 2)];
    let mut r = TheTextRenderer::default();
    let spans = vec![vec![([1, 2, 3, 255], 1)]];
    assert!(r.prepare(&glyphs, &lines, 5, Some(spans)));
    assert_eq!(r.row_info[0].highlights, Some(vec![([1, 2, 3, 255], 1)]));
    assert_eq!(r.row_info[1].highlights, None);
}

#[test]
fn scroll_clamps_to_the_content() {
    let mut r = two_rows();
    assert!(r.scroll(&Vec2i { x: 100, y: 100 }, false));
    assert_eq!(r.scroll_offset, Vec2u { x: 4, y: 14 });
    assert!(!r.scroll(&Vec2i { x: 100, y: 100 }, false));
    assert!(r.scroll(&Vec2i { x: -100, y: -5 }, false));
    assert_eq!(r.scroll_offset, Vec2u { x: 0, y: 9 });
    let mut empty = TheTextRenderer::default();
    assert!(empty.scroll(&Vec2i { x: 3, y: 3 }, true));
    assert_eq!(empty.scroll_offset, Vec2u { x: 0, y: 0 });
}

#[test]
fn visible_rows_follow_the_offset() {
    let mut r = two_rows();
    assert_eq!(r.visible_rows(), Some((0, 1)));
    r.set_dim(0, 0, 10, 5);
    assert_eq!(r.visible_rows(), Some((0, 0)));
    r.scroll_offset = Vec2u { x: 0, y: 20 };
    assert_eq!(r.visible_rows(), Some((1, 1)));
}

#[test]
fn scroll_to_cursor_brings_the_cursor_into_view() {
    let mut r = two_rows();
    r.scroll_offset = Vec2u { x: 100, y: 100 };
    r.scroll_to_cursor(4, 1);
    assert_eq!(r.scroll_offset, Vec2u { x: 7, y: 14 });
    r.scroll_offset = Vec2u { x: 0, y: 0 };
    r.scroll_to_cursor(5, 1);
    // right edge of "d" is 14, the caret is 2 wide, the view 10 wide
    assert_eq!(r.scroll_offset, Vec2u { x: 6, y: 14 });
}

#[test]
fn find_cursor_maps_points_to_positions() {
    let r = two_rows();
    // padding is 5 on the left
    assert_eq!(r.find_cursor(&Vec2i { x: -20, y: -20 }), TheCursor::new(0, 0));
    assert_eq!(r.find_cursor(&Vec2i { x: 5, y: 3 }), TheCursor::new(0, 0));
    assert_eq!(r.find_cursor(&Vec2i { x: 13, y: 3 }), TheCursor::new(0, 1));
    assert_eq!(r.find_cursor(&Vec2i { x: 40, y: 3 }), TheCursor::new(0, 2));
    assert_eq!(r.find_cursor(&Vec2i { x: 13, y: 20 }), TheCursor::new(1, 1));
    assert_eq!(r.find_cursor(&Vec2i { x: 40, y: 20 }), TheCursor::new(1, 2));
    assert_eq!(r.find_cursor(&Vec2i { x: 5, y: 100 }), TheCursor::new(1, 2));
}

#[test]
fn render_text_plans_selection_text_and_caret() {
    let mut r = two_rows();
    r.set_dim(0, 0, 100, 100);
    let mut s = TheTextEditState::default();
    s.set_text("ab\ncd".to_string());
    s.set_cursor(TheCursor::new(1, 1));
    s.select(1, 2);
    let colors = TheTextColors { text: [1, 1, 1, 255], caret: [2, 2, 2, 255], selection: [3, 3, 3, 255] };
    let ops = r.render_text(&s, true, false, &colors);
    assert_eq!(ops.len(), 4);
    assert!(matches!(ops[0], TheDrawOp::BlendRect { color: [3, 3, 3, 255], .. }));
    assert!(matches!(ops[1], TheDrawOp::Text { row: 0, start: 0, .. }));
    assert!(matches!(ops[2], TheDrawOp::Text { row: 1, .. }));
    match ops[3] {
        TheDrawOp::Rect { rect, color } => {
            assert_eq!(color, [2, 2, 2, 255]);
            assert_eq!(rect.2, 2);
        }
        _ => panic!("caret expected last"),
    }
    let unfocused = r.render_text(&s, false, false, &colors);
    assert_eq!(unfocused.len(), 2);
}

#[test]
fn shaping_text_marks_a_trailing_empty_row() {
    let mut s = TheTextEditState::default();
    assert_eq!(TheTextRenderer::shaping_text(&s), "\n");
    s.set_text("ab\n".to_string());
    assert_eq!(TheTextRenderer::shaping_text(&s), "ab\n\n");
    s.set_text("ab".to_string());
    assert_eq!(TheTextRenderer::shaping_text(&s), "ab");
}

#[test]
fn utf8_lengths() {
    assert_eq!(len_utf8('a'), 1);
    assert_eq!(len_utf8('é'), 2);
    assert_eq!(len_utf8('€'), 3);
    assert_eq!(len_utf8('😀'), 4);
}

#[test]
fn renderer_dim_includes_padding() {
    let mut r = TheTextRenderer::default();
    r.set_dim(10, 4, 100, 50);
    assert_eq!(r.dim(), TheDim::new(5, 4, 110, 50));
}

#[test]
fn rgba_buffer_allocates_and_copies() {
    let mut dest = TheRGBABuffer::new(TheDim::new(0, 0, 3, 2));
    assert_eq!(dest.pixels().len(), 24);
    assert_eq!(dest.stride(), 3);
    assert!(dest.is_valid());
    let src = TheRGBABuffer::from(vec![9u8; 8], 2, 1);
    dest.copy_into(1, 1, &src);
    let p = dest.pixels();
    assert!(p[..16].iter().all(|&b| b == 0));
    assert!(p[16..24].iter().all(|&b| b == 9));
    dest.set_dim(TheDim::new(0, 0, 1, 1));
    assert_eq!(dest.pixels(), &[0, 0, 0, 0]);
    dest.set_dim(TheDim::new(0, 0, 0, 1));
    assert!(!dest.is_valid());
    assert!(dest.pixels().is_empty());
    let e = TheRGBABuffer::empty();
    assert_eq!(*e.dim(), TheDim::zero());
}

#[test]
fn highlighted_rows_draw_one_run_per_colour() {
    let glyphs = vec![glyph('a', 0, 0, 7), glyph('b', 1, 7, 7), glyph('\n', 2, 14, 0)];
    let lines = vec![line(0, 14, 11, 0, 2)];
    let mut r = TheTextRenderer::default();
    r.set_dim(0, 0, 100, 100);
    let spans = vec![vec![([1, 0, 0, 255], 1), ([2, 0, 0, 255], 1)]];
    assert!(r.prepare(&glyphs, &lines, 5, Some(spans)));
    let mut s = TheTextEditState::default();
    s.set_text("ab".to_string());
    let colors = TheTextColors { text: [9, 9, 9, 255], caret: [0; 4], selection: [0; 4] };
    let ops = r.render_text(&s, false, false, &colors);
    assert_eq!(ops.len(), 2);
    assert!(matches!(ops[0], TheDrawOp::Text { start: 0, end: 1, x: 0, color: [1, 0, 0, 255], .. }));
    assert!(matches!(ops[1], TheDrawOp::Text { start: 1, end: 2, x: 7, color: [2, 0, 0, 255], .. }));
}

#[test]
fn plain_rows_draw_their_bytes() {
    // "éa": the first glyph takes two bytes
    let glyphs = vec![glyph('é', 0, 0, 7), glyph('a', 2, 7, 7)];
    let lines = vec![line(0, 14, 11, 0, 1)];
    let mut r = TheTextRenderer::default();
    r.set_dim(0, 0, 100, 100);
    assert!(r.prepare(&glyphs, &lines, 5, None));
    assert_eq!((r.glyphs[0].start, r.glyphs[0].end), (0, 2));
    let mut s = TheTextEditState::default();
    s.set_text("éa".to_string());
    let colors = TheTextColors { text: [9, 9, 9, 255], caret: [0; 4], selection: [0; 4] };
    let ops = r.render_text(&s, false, false, &colors);
    assert_eq!(ops.len(), 1);
    assert!(matches!(ops[0], TheDrawOp::Text { row: 0, start: 0, end: 3, y: -1, color: [9, 9, 9, 255], .. }));
}

#[test]
fn scroll_handles_extreme_deltas() {
    let mut r = two_rows();
    assert!(r.scroll(&Vec2i { x: i32::MIN, y: i32::MAX }, false));
    assert_eq!(r.scroll_offset, Vec2u { x: 0, y: 14 });
    assert!(r.scroll(&Vec2i { x: i32::MAX, y: i32::MIN }, true));
    assert_eq!(r.scroll_offset, Vec2u { x: 4, y: 0 });
}
