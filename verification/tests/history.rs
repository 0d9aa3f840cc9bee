use touchpaint::app::PaintingApp;
use touchpaint::geom::{PointQ, RectQ};
use touchpaint::input::TouchState;

/// A fresh app with its canvas basis established at `rect(0,0,100,100)`.
fn app_with_basis() -> PaintingApp {
    let mut app = PaintingApp::new(false);
    app.update_canvas_rect(&RectQ::from_ints(0, 0, 100, 100));
    app
}

/// Draws a one-segment stroke from `(x0,y0)` to `(x1,y1)` with touch id
/// `id`, committing it to the current frame (which records history).
fn draw_stroke(app: &mut PaintingApp, id: u32, x0: i64, y0: i64, x1: i64, y1: i64) {
    app.handle_touch_point(id, TouchState::Began, PointQ::from_ints(x0, y0));
    app.handle_touch_point(id, TouchState::Moved, PointQ::from_ints(x1, y1));
    app.handle_touch_point(id, TouchState::Ended, PointQ::from_ints(x1, y1));
}

#[test]
fn undo_after_record_restores_prior_frame() {
    let mut app = app_with_basis();
    draw_stroke(&mut app, 1, 10, 10, 20, 20);
    assert_eq!(app.frames[0].len(), 1);
    draw_stroke(&mut app, 2, 30, 30, 40, 40);
    assert_eq!(app.frames[0].len(), 2);

    app.undo();
    assert_eq!(app.frames[0].len(), 1);
    // The restored stroke holds the exact prior contents, rebased to the
    // unchanged basis, so its values are untouched.
    let s = &app.frames[0][0];
    assert_eq!(s.points.len(), 2);
    assert_eq!(s.points[0].x.num as i128 * 1, 10 * s.points[0].x.den as i128);
    assert_eq!(s.points[1].y.num as i128 * 1, 20 * s.points[1].y.den as i128);

    app.redo();
    assert_eq!(app.frames[0].len(), 2);
    let t = &app.frames[0][1];
    assert_eq!(t.points[0].x.num as i128 * 1, 30 * t.points[0].x.den as i128);
}

#[test]
fn undo_on_empty_stack_is_no_op() {
    let mut app = app_with_basis();
    app.undo();
    assert_eq!(app.frames[0].len(), 0);
    assert_eq!(app.undo_history.len(), 0);
    app.redo();
    assert_eq!(app.redo_history.len(), 0);
}

#[test]
fn record_without_basis_is_deferred() {
    let mut app = PaintingApp::new(false);
    app.save_state_for_undo();
    assert_eq!(app.undo_history.len(), 0);
}

#[test]
fn undo_depth_capped_at_thirty_evicting_oldest() {
    let mut app = app_with_basis();
    // One stroke, committed with a snapshot of the empty frame.
    draw_stroke(&mut app, 1, 10, 10, 20, 20);
    assert_eq!(app.undo_history.len(), 1);
    // Thirty more recordings: the thirty-first overall evicts the
    // oldest (empty) snapshot, not an arbitrary one.
    for _ in 0..30 {
        app.clear_current_frame();
    }
    assert_eq!(app.undo_history.len(), 30);
    // Unwinding the whole stack lands on the oldest surviving snapshot:
    // the one holding the single stroke.
    for _ in 0..30 {
        app.undo();
    }
    assert_eq!(app.undo_history.len(), 0);
    assert_eq!(app.frames[0].len(), 1);
}

#[test]
fn mutation_after_undo_clears_redo() {
    let mut app = app_with_basis();
    draw_stroke(&mut app, 1, 10, 10, 20, 20);
    draw_stroke(&mut app, 2, 30, 30, 40, 40);
    app.undo();
    assert_eq!(app.redo_history.len(), 1);
    draw_stroke(&mut app, 3, 50, 50, 60, 60);
    assert_eq!(app.redo_history.len(), 0);
}

#[test]
fn copy_and_paste_replace_current_frame() {
    let mut app = app_with_basis();
    draw_stroke(&mut app, 1, 10, 10, 20, 20);
    app.copy_current_frame();
    app.clear_current_frame();
    assert_eq!(app.frames[0].len(), 0);
    app.paste_to_current_frame();
    assert_eq!(app.frames[0].len(), 1);
}

#[test]
fn paste_without_copy_is_no_op() {
    let mut app = app_with_basis();
    draw_stroke(&mut app, 1, 10, 10, 20, 20);
    app.paste_to_current_frame();
    assert_eq!(app.frames[0].len(), 1);
    assert_eq!(app.undo_history.len(), 1);
}

#[test]
fn reset_all_frames_clears_everything() {
    let mut app = app_with_basis();
    draw_stroke(&mut app, 1, 10, 10, 20, 20);
    app.advance_animation_frame();
    assert_eq!(app.current_frame, 1);
    draw_stroke(&mut app, 2, 30, 30, 40, 40);
    app.reset_all_frames();
    assert_eq!(app.current_frame, 0);
    for f in &app.frames {
        assert_eq!(f.len(), 0);
    }
}

#[test]
fn animation_wraps_after_last_frame() {
    let mut app = app_with_basis();
    for _ in 0..7 {
        app.advance_animation_frame();
    }
    assert_eq!(app.current_frame, 7);
    app.advance_animation_frame();
    assert_eq!(app.current_frame, 0);
}
