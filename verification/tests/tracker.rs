use touchpaint::app::{PaintingApp, ToolMode};
use touchpaint::canvas::TouchMap;
use touchpaint::frac::Frac;
use touchpaint::geom::{PointQ, RectQ};
use touchpaint::input::{TouchInput, TouchState};
use touchpaint::stroke::Stroke;

fn app_with_basis() -> PaintingApp {
    let mut app = PaintingApp::new(false);
    app.update_canvas_rect(&RectQ::from_ints(0, 0, 100, 100));
    app
}

fn assert_value(f: &Frac, num: i128, den: i128) {
    assert_eq!(f.num as i128 * den, num * f.den as i128);
}

#[test]
fn began_inside_canvas_opens_stroke() {
    let mut app = app_with_basis();
    app.handle_touch_point(4, TouchState::Began, PointQ::from_ints(10, 10));
    assert_eq!(app.active_touches.len(), 1);
    let (id, s) = &app.active_touches.entries[0];
    assert_eq!(*id, 4);
    assert_eq!(s.points.len(), 1);
    assert_eq!(s.color, app.brush_color);
}

#[test]
fn began_outside_canvas_is_ignored() {
    let mut app = app_with_basis();
    app.handle_touch_point(4, TouchState::Began, PointQ::from_ints(500, 500));
    assert_eq!(app.active_touches.len(), 0);
}

#[test]
fn moved_outside_canvas_drops_point_without_ending_stroke() {
    let mut app = app_with_basis();
    app.handle_touch_point(4, TouchState::Began, PointQ::from_ints(10, 10));
    app.handle_touch_point(4, TouchState::Moved, PointQ::from_ints(500, 10));
    assert_eq!(app.active_touches.len(), 1);
    assert_eq!(app.active_touches.entries[0].1.points.len(), 1);
    app.handle_touch_point(4, TouchState::Moved, PointQ::from_ints(20, 10));
    assert_eq!(app.active_touches.entries[0].1.points.len(), 2);
}

#[test]
fn ended_appends_final_point_once_and_commits() {
    let mut app = app_with_basis();
    app.handle_touch_point(4, TouchState::Began, PointQ::from_ints(10, 10));
    app.handle_touch_point(4, TouchState::Moved, PointQ::from_ints(20, 10));
    // Final position equals the last recorded point: not appended again.
    app.handle_touch_point(4, TouchState::Ended, PointQ::from_ints(20, 10));
    assert_eq!(app.active_touches.len(), 0);
    assert_eq!(app.frames[0].len(), 1);
    assert_eq!(app.frames[0][0].points.len(), 2);
    assert_eq!(app.undo_history.len(), 1);
}

#[test]
fn ended_with_new_final_position_appends_it() {
    let mut app = app_with_basis();
    app.handle_touch_point(4, TouchState::Began, PointQ::from_ints(10, 10));
    app.handle_touch_point(4, TouchState::Ended, PointQ::from_ints(30, 40));
    assert_eq!(app.frames[0][0].points.len(), 2);
    assert_value(&app.frames[0][0].points[1].x, 30, 1);
    assert_value(&app.frames[0][0].points[1].y, 40, 1);
}

#[test]
fn ended_for_unknown_id_is_no_op() {
    let mut app = app_with_basis();
    app.handle_touch_point(4, TouchState::Ended, PointQ::from_ints(10, 10));
    assert_eq!(app.frames[0].len(), 0);
    assert_eq!(app.undo_history.len(), 0);
}

#[test]
fn eraser_removes_touched_stroke() {
    let mut app = app_with_basis();
    app.handle_touch_point(1, TouchState::Began, PointQ::from_ints(10, 10));
    app.handle_touch_point(1, TouchState::Moved, PointQ::from_ints(20, 10));
    app.handle_touch_point(1, TouchState::Ended, PointQ::from_ints(20, 10));
    app.handle_touch_point(2, TouchState::Began, PointQ::from_ints(80, 80));
    app.handle_touch_point(2, TouchState::Ended, PointQ::from_ints(90, 90));
    assert_eq!(app.frames[0].len(), 2);

    let hit = app.erase_strokes_at_position(&PointQ::from_ints(15, 10), 512);
    assert!(hit);
    assert_eq!(app.frames[0].len(), 1);
    // The far-away stroke survives.
    assert_value(&app.frames[0][0].points[0].x, 80, 1);
}

#[test]
fn eraser_miss_changes_nothing_and_records_nothing() {
    let mut app = app_with_basis();
    app.handle_touch_point(1, TouchState::Began, PointQ::from_ints(10, 10));
    app.handle_touch_point(1, TouchState::Ended, PointQ::from_ints(20, 10));
    let recorded = app.undo_history.len();
    let hit = app.erase_strokes_at_position(&PointQ::from_ints(90, 90), 256);
    assert!(!hit);
    assert_eq!(app.frames[0].len(), 1);
    assert_eq!(app.undo_history.len(), recorded);
}

#[test]
fn eraser_hits_segment_between_points() {
    let mut app = app_with_basis();
    app.handle_touch_point(1, TouchState::Began, PointQ::from_ints(10, 50));
    app.handle_touch_point(1, TouchState::Moved, PointQ::from_ints(90, 50));
    app.handle_touch_point(1, TouchState::Ended, PointQ::from_ints(90, 50));
    // Near the middle of the segment, away from both endpoints.
    let hit = app.erase_strokes_at_position(&PointQ::from_ints(50, 51), 512);
    assert!(hit);
    assert_eq!(app.frames[0].len(), 0);
}

#[test]
fn process_touch_events_drains_batch_in_order() {
    let mut app = app_with_basis();
    let screen = RectQ::from_ints(0, 0, 100, 100);
    let events = vec![
        TouchInput {
            id: 1,
            pos: PointQ { x: Frac::new(1, 10), y: Frac::new(1, 10) },
            state: TouchState::Began,
        },
        TouchInput {
            id: 1,
            pos: PointQ { x: Frac::new(2, 10), y: Frac::new(1, 10) },
            state: TouchState::Moved,
        },
        TouchInput {
            id: 1,
            pos: PointQ { x: Frac::new(2, 10), y: Frac::new(1, 10) },
            state: TouchState::Ended,
        },
    ];
    app.process_touch_events(&events, &screen);
    assert_eq!(app.frames[0].len(), 1);
    assert_eq!(app.frames[0][0].points.len(), 2);
    assert_value(&app.frames[0][0].points[0].x, 10, 1);
    assert_value(&app.frames[0][0].points[1].x, 20, 1);
}

#[test]
fn eraser_tool_erases_through_event_batch() {
    let mut app = app_with_basis();
    let screen = RectQ::from_ints(0, 0, 100, 100);
    app.handle_touch_point(1, TouchState::Began, PointQ::from_ints(50, 50));
    app.handle_touch_point(1, TouchState::Ended, PointQ::from_ints(60, 50));
    assert_eq!(app.frames[0].len(), 1);
    app.tool_mode = ToolMode::Eraser;
    let events = vec![TouchInput {
        id: 2,
        pos: PointQ { x: Frac::new(5, 10), y: Frac::new(5, 10) },
        state: TouchState::Began,
    }];
    app.process_touch_events(&events, &screen);
    assert_eq!(app.frames[0].len(), 0);
}

#[test]
fn touch_map_insert_take_and_replace() {
    let mut m = TouchMap::new();
    m.insert(1, Stroke::default());
    m.insert(2, Stroke::default());
    assert_eq!(m.len(), 2);
    m.insert(1, Stroke::default());
    assert_eq!(m.len(), 2);
    assert!(m.take(3).is_none());
    assert!(m.take(1).is_some());
    assert_eq!(m.len(), 1);
    assert!(m.take(1).is_none());
}

#[test]
fn basis_change_rebases_stored_strokes() {
    let mut app = app_with_basis();
    app.handle_touch_point(1, TouchState::Began, PointQ::from_ints(50, 50));
    app.handle_touch_point(1, TouchState::Ended, PointQ::from_ints(60, 60));
    // The canvas basis changes from rect(0,0,100,100) to rect(0,0,200,50).
    app.update_canvas_rect(&RectQ::from_ints(0, 0, 200, 50));
    let p = &app.frames[0][0].points[0];
    assert_value(&p.x, 100, 1);
    assert_value(&p.y, 25, 1);
}

#[test]
fn degenerate_basis_leaves_coordinates_unchanged() {
    let mut app = app_with_basis();
    app.handle_touch_point(1, TouchState::Began, PointQ::from_ints(50, 50));
    app.handle_touch_point(1, TouchState::Ended, PointQ::from_ints(60, 60));
    // Zero-width target rectangle: rebasing is skipped entirely.
    app.update_canvas_rect(&RectQ::from_ints(0, 0, 0, 100));
    let p = &app.frames[0][0].points[0];
    assert_value(&p.x, 50, 1);
    assert_value(&p.y, 50, 1);
}

#[test]
fn aspect_ratio_rect_fits_and_centers() {
    let app = PaintingApp::new(false);
    // Aspect 3:4 in a 300x400 space: width-limited, scaled to 95%.
    let r = app
        .calculate_aspect_ratio_rect(&RectQ::from_ints(0, 0, 300, 400))
        .unwrap();
    let width = |r: &RectQ| {
        (r.max.x.num as f64 / r.max.x.den as f64) - (r.min.x.num as f64 / r.min.x.den as f64)
    };
    let height = |r: &RectQ| {
        (r.max.y.num as f64 / r.max.y.den as f64) - (r.min.y.num as f64 / r.min.y.den as f64)
    };
    assert!((width(&r) - 285.0).abs() < 1e-9);
    assert!((height(&r) - 380.0).abs() < 1e-9);
    // Centered in the available space.
    let cx = (r.min.x.num as f64 / r.min.x.den as f64) + width(&r) / 2.0;
    let cy = (r.min.y.num as f64 / r.min.y.den as f64) + height(&r) / 2.0;
    assert!((cx - 150.0).abs() < 1e-9);
    assert!((cy - 200.0).abs() < 1e-9);
}

#[test]
fn thumbnail_rect_fills_limiting_dimension() {
    let app = PaintingApp::new(false);
    let r = app
        .calculate_thumbnail_rect(&RectQ::from_ints(0, 0, 60, 60))
        .unwrap();
    // Aspect 3:4 in a square: height-limited, so height 60 and width 45.
    let w = (r.max.x.num as f64 / r.max.x.den as f64) - (r.min.x.num as f64 / r.min.x.den as f64);
    let h = (r.max.y.num as f64 / r.max.y.den as f64) - (r.min.y.num as f64 / r.min.y.den as f64);
    assert!((w - 45.0).abs() < 1e-9);
    assert!((h - 60.0).abs() < 1e-9);
}

#[test]
fn recalculate_round_trip_restores_exact_values() {
    // The remap is its own inverse with old and new swapped: rebasing all
    // frames from A to B and back to A restores every coordinate exactly.
    let mut app = app_with_basis();
    app.handle_touch_point(1, TouchState::Began, PointQ::from_ints(10, 20));
    app.handle_touch_point(1, TouchState::Moved, PointQ::from_ints(37, 81));
    app.handle_touch_point(1, TouchState::Ended, PointQ::from_ints(37, 81));
    let a = RectQ::from_ints(0, 0, 100, 100);
    let b = RectQ::from_ints(-7, 12, 313, 57);
    app.recalculate_strokes_relative_to(&a, &b);
    app.recalculate_strokes_relative_to(&b, &a);
    let pts = &app.frames[0][0].points;
    assert_value(&pts[0].x, 10, 1);
    assert_value(&pts[0].y, 20, 1);
    assert_value(&pts[1].x, 37, 1);
    assert_value(&pts[1].y, 81, 1);
}

#[test]
fn eraser_ended_is_no_op() {
    let mut app = app_with_basis();
    let screen = RectQ::from_ints(0, 0, 100, 100);
    app.handle_touch_point(1, TouchState::Began, PointQ::from_ints(50, 50));
    app.handle_touch_point(1, TouchState::Ended, PointQ::from_ints(60, 50));
    assert_eq!(app.frames[0].len(), 1);
    app.tool_mode = ToolMode::Eraser;
    let events = vec![TouchInput {
        id: 2,
        pos: PointQ { x: Frac::new(5, 10), y: Frac::new(5, 10) },
        state: TouchState::Ended,
    }];
    app.process_touch_events(&events, &screen);
    assert_eq!(app.frames[0].len(), 1);
    assert_eq!(app.undo_history.len(), 1);
}

#[test]
fn eraser_outside_canvas_is_no_op() {
    let mut app = app_with_basis();
    // The canvas covers rect(0,0,95,95)-ish inside a 100x100 screen, so a
    // touch at the far corner of a much larger screen lands outside it.
    let screen = RectQ::from_ints(0, 0, 1000, 1000);
    app.handle_touch_point(1, TouchState::Began, PointQ::from_ints(50, 50));
    app.handle_touch_point(1, TouchState::Ended, PointQ::from_ints(60, 50));
    app.tool_mode = ToolMode::Eraser;
    let events = vec![TouchInput {
        id: 2,
        pos: PointQ { x: Frac::new(99, 100), y: Frac::new(99, 100) },
        state: TouchState::Began,
    }];
    app.process_touch_events(&events, &screen);
    assert_eq!(app.frames[0].len(), 1);
}
