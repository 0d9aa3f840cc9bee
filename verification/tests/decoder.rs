use touchpaint::frac::Frac;
use touchpaint::input::{RawAxisEvent, TouchDecoder, TouchInput, TouchState};

fn frac_f64(f: &Frac) -> f64 {
    f.num as f64 / f.den as f64
}

#[test]
fn single_touch_cycle_emits_began_moved_ended() {
    // Device axis ranges X:[0,4095], Y:[0,4095]; one full touch cycle.
    let mut dec = TouchDecoder::new(0, 4095, 0, 4095);
    let events = vec![
        RawAxisEvent::TrackingId(7),
        RawAxisEvent::PositionX(2048),
        RawAxisEvent::PositionY(2048),
        RawAxisEvent::Sync,
    ];
    let out = dec.decode_batch(&events);
    assert_eq!(out.len(), 2);
    assert_eq!(out[0].id, 7);
    assert_eq!(out[0].state, TouchState::Began);
    assert_eq!(out[0].pos.x.num, 2048);
    assert_eq!(out[0].pos.x.den, 4095);
    assert!((frac_f64(&out[0].pos.x) - 0.5).abs() < 1e-3);
    assert!((frac_f64(&out[0].pos.y) - 0.5).abs() < 1e-3);
    assert_eq!(out[1].state, TouchState::Moved);
    assert_eq!(out[1].pos.x.num, 2048);

    let out2 = dec.decode_batch(&vec![RawAxisEvent::PositionX(4095), RawAxisEvent::Sync]);
    assert_eq!(out2.len(), 1);
    assert_eq!(out2[0].state, TouchState::Moved);
    assert_eq!(out2[0].pos.x.num, 4095);
    assert_eq!(out2[0].pos.x.den, 4095);
    assert!((frac_f64(&out2[0].pos.x) - 1.0).abs() < 1e-12);

    let out3 = dec.decode_batch(&vec![RawAxisEvent::TrackingId(-1), RawAxisEvent::Sync]);
    assert_eq!(out3.len(), 1);
    assert_eq!(out3[0].id, 7);
    assert_eq!(out3[0].state, TouchState::Ended);
    assert_eq!(out3[0].pos.x.num, 4095);
    assert!((frac_f64(&out3[0].pos.y) - 0.5).abs() < 1e-3);
}

#[test]
fn full_cycle_order_one_began_one_ended() {
    let mut dec = TouchDecoder::new(0, 1000, 0, 1000);
    let events = vec![
        RawAxisEvent::TrackingId(3),
        RawAxisEvent::PositionX(10),
        RawAxisEvent::PositionY(20),
        RawAxisEvent::Sync,
        RawAxisEvent::PositionX(30),
        RawAxisEvent::Sync,
        RawAxisEvent::PositionY(40),
        RawAxisEvent::Sync,
        RawAxisEvent::TrackingId(-1),
    ];
    let out: Vec<TouchInput> = dec.decode_batch(&events);
    let begans: Vec<usize> = (0..out.len()).filter(|&i| out[i].state == TouchState::Began).collect();
    let endeds: Vec<usize> = (0..out.len()).filter(|&i| out[i].state == TouchState::Ended).collect();
    assert_eq!(begans.len(), 1);
    assert_eq!(endeds.len(), 1);
    assert_eq!(begans[0], 0);
    assert_eq!(endeds[0], out.len() - 1);
    for i in 1..out.len() - 1 {
        assert_eq!(out[i].state, TouchState::Moved);
        assert_eq!(out[i].id, 3);
    }
    // The Began carries the first synchronized position.
    assert_eq!(out[0].pos.x.num, 10);
    assert_eq!(out[0].pos.y.num, 20);
    // The Ended carries the last known position.
    let last = &out[out.len() - 1];
    assert_eq!(last.pos.x.num, 30);
    assert_eq!(last.pos.y.num, 40);
}

#[test]
fn new_tracking_id_ends_previous_touch_first() {
    let mut dec = TouchDecoder::new(0, 100, 0, 100);
    let events = vec![
        RawAxisEvent::TrackingId(7),
        RawAxisEvent::PositionX(50),
        RawAxisEvent::PositionY(50),
        RawAxisEvent::Sync,
        RawAxisEvent::TrackingId(9),
        RawAxisEvent::Sync,
        RawAxisEvent::TrackingId(-1),
    ];
    let out = dec.decode_batch(&events);
    // Began 7, Moved 7, Ended 7, Began 9, Moved 9, Ended 9.
    assert_eq!(out.len(), 6);
    assert_eq!((out[2].id, out[2].state), (7, TouchState::Ended));
    let first_for_9 = (0..out.len()).find(|&i| out[i].id == 9).unwrap();
    let end_of_7 = (0..out.len())
        .find(|&i| out[i].id == 7 && out[i].state == TouchState::Ended)
        .unwrap();
    assert!(end_of_7 < first_for_9);
    // The implicit end reports the old touch's last known position.
    assert_eq!(out[2].pos.x.num, 50);
}

#[test]
fn ended_without_active_touch_is_no_op() {
    let mut dec = TouchDecoder::new(0, 100, 0, 100);
    let out = dec.decode_batch(&vec![RawAxisEvent::TrackingId(-1), RawAxisEvent::Sync]);
    assert_eq!(out.len(), 0);
}

#[test]
fn position_without_sync_emits_nothing() {
    let mut dec = TouchDecoder::new(0, 100, 0, 100);
    let out = dec.decode_batch(&vec![
        RawAxisEvent::TrackingId(1),
        RawAxisEvent::PositionX(10),
        RawAxisEvent::PositionY(10),
    ]);
    assert_eq!(out.len(), 0);
}

#[test]
fn lift_before_any_sync_cancels_began() {
    let mut dec = TouchDecoder::new(0, 100, 0, 100);
    let out = dec.decode_batch(&vec![
        RawAxisEvent::TrackingId(5),
        RawAxisEvent::PositionX(10),
        RawAxisEvent::TrackingId(-1),
        RawAxisEvent::Sync,
    ]);
    // Only the synthesized Ended: the pending Began never fires.
    assert_eq!(out.len(), 1);
    assert_eq!(out[0].state, TouchState::Ended);
    assert_eq!(out[0].id, 5);
}

#[test]
fn degenerate_calibration_falls_back_to_unit_range() {
    let dec = TouchDecoder::new(5, 5, 10, -3);
    assert_eq!(dec.range_x.min, 0);
    assert_eq!(dec.range_x.max, 1);
    assert_eq!(dec.range_y.min, 0);
    assert_eq!(dec.range_y.max, 1);
}

#[test]
fn out_of_calibration_samples_pass_through_unclamped() {
    let mut dec = TouchDecoder::new(100, 200, 0, 100);
    let out = dec.decode_batch(&vec![
        RawAxisEvent::TrackingId(1),
        RawAxisEvent::PositionX(50),
        RawAxisEvent::Sync,
    ]);
    // (50 - 100) / (200 - 100) = -0.5: outside [0,1], accepted as is.
    assert_eq!(out[0].pos.x.num, -50);
    assert_eq!(out[0].pos.x.den, 100);
    assert!(frac_f64(&out[0].pos.x) < 0.0);
}
