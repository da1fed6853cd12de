use overlay_canvas::canvas::Canvas;

fn buffer_of(c: &Canvas) -> Vec<u32> {
    c.buffer().clone()
}

/// Draw one complete stroke from `from` to `to`.
fn stroke(c: &mut Canvas, from: (i32, i32), to: (i32, i32)) {
    c.invert_drawing();
    assert!(c.drawing());
    c.draw(to, from);
    c.invert_drawing();
    assert!(!c.drawing());
}

#[test]
fn fresh_canvas_is_transparent() {
    let c = Canvas::new(8, 6);
    assert_eq!(c.width(), 8);
    assert_eq!(c.height(), 6);
    assert_eq!(c.buffer().len(), 48);
    for i in 0..48u32 {
        assert_eq!(c.pixel(i), 0x00000000);
    }
    assert_eq!(c.brush_size(), 2);
    assert_eq!(c.brush_color(), 0xffffccaa);
    assert!(!c.drawing());
    assert_eq!(c.undo_depth(), 0);
    assert_eq!(c.redo_depth(), 0);
}

#[test]
fn draw_paints_brush_color() {
    let mut c = Canvas::new(16, 16);
    stroke(&mut c, (3, 3), (3, 3));
    // brush size 2: the footprint of (3,3) includes the center
    assert_eq!(c.pixel(3 + 3 * 16), 0xffffccaa);
    assert_eq!(c.undo_depth(), 1);
}

#[test]
fn undo_then_redo_restores_exact_state() {
    let mut c = Canvas::new(20, 20);
    stroke(&mut c, (2, 2), (10, 7));
    let after_stroke = buffer_of(&c);
    c.undo();
    assert_ne!(buffer_of(&c), after_stroke);
    c.redo();
    assert_eq!(buffer_of(&c), after_stroke);
    assert_eq!(c.undo_depth(), 1);
    assert_eq!(c.redo_depth(), 0);
}

#[test]
fn stroke_then_undo_restores_every_pixel() {
    let mut c = Canvas::new(20, 20);
    c.fill(Some(0x11223344));
    let before = buffer_of(&c);
    stroke(&mut c, (1, 1), (15, 9));
    assert_ne!(buffer_of(&c), before);
    c.undo();
    assert_eq!(buffer_of(&c), before);
}

#[test]
fn overlapping_stroke_undo_is_exact() {
    let mut c = Canvas::new(20, 20);
    let before = buffer_of(&c);
    // one stroke that paints the same cells several times
    c.invert_drawing();
    c.draw((10, 5), (2, 5));
    c.draw((2, 5), (10, 5));
    c.draw((6, 5), (6, 5));
    c.invert_drawing();
    assert_eq!(c.undo_depth(), 1);
    c.undo();
    assert_eq!(buffer_of(&c), before);
}

#[test]
fn three_strokes_two_undos_two_redos() {
    let mut c = Canvas::new(24, 24);
    stroke(&mut c, (1, 1), (6, 1));
    stroke(&mut c, (3, 8), (9, 12));
    stroke(&mut c, (15, 15), (20, 4));
    let after_third = buffer_of(&c);
    c.undo();
    c.undo();
    assert_eq!(c.undo_depth(), 1);
    assert_eq!(c.redo_depth(), 2);
    c.redo();
    c.redo();
    assert_eq!(buffer_of(&c), after_third);
    assert_eq!(c.undo_depth(), 3);
    assert_eq!(c.redo_depth(), 0);
}

#[test]
fn all_undos_return_to_blank() {
    let mut c = Canvas::new(24, 24);
    let blank = buffer_of(&c);
    stroke(&mut c, (1, 1), (6, 1));
    stroke(&mut c, (3, 8), (9, 12));
    c.undo();
    c.undo();
    assert_eq!(buffer_of(&c), blank);
}

#[test]
fn undo_on_empty_history_is_noop() {
    let mut c = Canvas::new(8, 8);
    let before = buffer_of(&c);
    c.undo();
    assert_eq!(buffer_of(&c), before);
    assert_eq!(c.undo_depth(), 0);
    assert_eq!(c.redo_depth(), 0);
}

#[test]
fn new_stroke_clears_redo() {
    let mut c = Canvas::new(20, 20);
    stroke(&mut c, (2, 2), (8, 2));
    stroke(&mut c, (2, 6), (8, 6));
    c.undo();
    assert_eq!(c.redo_depth(), 1);
    stroke(&mut c, (2, 10), (8, 10));
    // the new stroke invalidated the redo history
    assert_eq!(c.redo_depth(), 0);
    let after = buffer_of(&c);
    c.redo();
    assert_eq!(buffer_of(&c), after);
}

#[test]
fn resize_clears_canvas_and_history() {
    let mut c = Canvas::new(10, 10);
    stroke(&mut c, (2, 2), (7, 7));
    c.resize_canvas(12, 9);
    assert_eq!(c.width(), 12);
    assert_eq!(c.height(), 9);
    assert_eq!(c.buffer().len(), 108);
    for i in 0..108u32 {
        assert_eq!(c.pixel(i), 0x00000000);
    }
    assert_eq!(c.undo_depth(), 0);
    assert_eq!(c.redo_depth(), 0);
}

#[test]
fn degenerate_resize_is_rejected() {
    let mut c = Canvas::new(10, 10);
    c.fill(Some(0xdeadbeef));
    c.resize_canvas(0, 50);
    assert_eq!(c.width(), 10);
    assert_eq!(c.height(), 10);
    assert_eq!(c.pixel(0), 0xdeadbeef);
    c.resize_canvas(50, 0);
    assert_eq!(c.width(), 10);
}

#[test]
fn fill_sets_every_cell() {
    let mut c = Canvas::new(6, 4);
    c.fill(Some(0x01020304));
    for i in 0..24u32 {
        assert_eq!(c.pixel(i), 0x01020304);
    }
    c.fill(None);
    for i in 0..24u32 {
        assert_eq!(c.pixel(i), 0x00000000);
    }
}

#[test]
fn clear_action_stack_empties_history() {
    let mut c = Canvas::new(10, 10);
    stroke(&mut c, (1, 1), (5, 5));
    stroke(&mut c, (2, 2), (6, 6));
    c.undo();
    c.clear_action_stack();
    assert_eq!(c.undo_depth(), 0);
    assert_eq!(c.redo_depth(), 0);
    assert_eq!(c.pending_len(), 0);
}

#[test]
fn to_pixel_pos_clamps_to_edges() {
    let c = Canvas::new(10, 10);
    assert_eq!(c.to_pixel_pos(0, 0), 0);
    assert_eq!(c.to_pixel_pos(3, 2), 23);
    assert_eq!(c.to_pixel_pos(-5, -7), 0);
    assert_eq!(c.to_pixel_pos(15, 12), 99);
    assert_eq!(c.to_pixel_pos(9, 20), 9 + 9 * 10);
}

#[test]
fn bulk_pixel_convert_clamps_each_point() {
    let c = Canvas::new(10, 10);
    let pts = vec![(0, 0), (-3, 4), (12, 3), (4, -1), (9, 9)];
    let idx = c.bulk_pixel_convert(pts);
    assert_eq!(idx, vec![0, 40, 39, 4, 99]);
    for i in idx {
        assert!(i < 100);
    }
}

#[test]
fn corner_draw_with_wide_brush_stays_in_range() {
    let mut c = Canvas::new(10, 10);
    // widen the brush well past the edge
    c.change_brush_size(5, 5_000);
    assert_eq!(c.brush_size(), 7);
    let seg = c.stroke_segment((9, 9), (9, 9));
    assert!(!seg.is_empty());
    for i in &seg {
        assert!(*i < 100);
    }
    // the actual draw neither panics nor writes out of range
    c.invert_drawing();
    c.draw((9, 9), (9, 9));
    c.invert_drawing();
    assert_eq!(c.pixel(99), c.brush_color());
}

#[test]
fn brush_size_cooldown_rejects_quick_changes() {
    let mut c = Canvas::new(200, 200);
    assert_eq!(c.brush_size(), 2);
    // still within the initial cooldown window
    c.change_brush_size(1, 500);
    assert_eq!(c.brush_size(), 2);
    // past the window: accepted
    c.change_brush_size(1, 1_500);
    assert_eq!(c.brush_size(), 3);
    // two calls within one window: the second leaves the size alone
    c.change_brush_size(1, 2_000);
    assert_eq!(c.brush_size(), 3);
    // a rejected call does not reset the cooldown, so this one lands
    c.change_brush_size(1, 2_600);
    assert_eq!(c.brush_size(), 4);
}

#[test]
fn brush_size_same_value_is_ignored() {
    let mut c = Canvas::new(200, 200);
    c.change_brush_size(0, 5_000);
    assert_eq!(c.brush_size(), 2);
    // the no-op did not reset the cooldown: a real change lands now
    c.change_brush_size(1, 5_001);
    assert_eq!(c.brush_size(), 3);
}

#[test]
fn brush_size_clamps_to_bounds() {
    let mut c = Canvas::new(200, 200);
    c.change_brush_size(100, 2_000);
    assert_eq!(c.brush_size(), 10);
    c.change_brush_size(-100, 4_000);
    assert_eq!(c.brush_size(), 1);
}

#[test]
fn accepted_brush_change_stamps_glyph() {
    let mut c = Canvas::new(200, 200);
    c.change_brush_size(1, 2_000);
    assert_eq!(c.brush_size(), 3);
    // glyph box anchors at (width - 36, height - 116); the top bar of
    // the digit 3 is lit at its fifth column, first row
    let xs = 200 - 36;
    let ys = 200 - 116;
    assert_eq!(c.pixel((xs + 4) + ys * 200), c.brush_color());
    // the glyph is not part of the stroke history
    assert_eq!(c.undo_depth(), 0);
    assert_eq!(c.pending_len(), 0);
}

#[test]
fn glyph_skipped_on_tiny_canvas() {
    let mut c = Canvas::new(20, 20);
    c.change_brush_size(1, 2_000);
    assert_eq!(c.brush_size(), 3);
    for i in 0..400u32 {
        assert_eq!(c.pixel(i), 0x00000000);
    }
}

#[test]
fn single_cell_brush_segment_is_the_line() {
    let mut c = Canvas::new(4, 4);
    c.change_brush_size(-1, 2_000);
    assert_eq!(c.brush_size(), 1);
    let seg = c.stroke_segment((0, 0), (2, 0));
    assert_eq!(seg, vec![0, 1, 2]);
}
