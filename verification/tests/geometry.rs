use touchpaint::canvas::map_touch;
use touchpaint::frac::{
    frac_add, frac_div, frac_eq, frac_le, frac_mul, frac_sub, frac_to_fixed, Frac,
};
use touchpaint::geom::{rebase_point, PointQ, RectQ};
use touchpaint::utils::{point_within, segment_within};

fn frac_f64(f: &Frac) -> f64 {
    f.num as f64 / f.den as f64
}

fn assert_value(f: &Frac, num: i128, den: i128) {
    assert_eq!(f.num as i128 * den, num * f.den as i128);
}

#[test]
fn rational_arithmetic_is_exact_and_reduced() {
    let a = Frac::new(1, 3);
    let b = Frac::new(1, 6);
    let s = frac_add(&a, &b).unwrap();
    assert_eq!((s.num, s.den), (1, 2));
    let d = frac_sub(&s, &b).unwrap();
    assert_value(&d, 1, 3);
    let m = frac_mul(&a, &Frac::new(6, 1)).unwrap();
    assert_eq!((m.num, m.den), (2, 1));
    let q = frac_div(&Frac::new(3, 1), &Frac::new(4, 1)).unwrap();
    assert_eq!((q.num, q.den), (3, 4));
    let qn = frac_div(&Frac::new(3, 1), &Frac::new(-4, 1)).unwrap();
    assert_eq!((qn.num, qn.den), (-3, 4));
    assert!(frac_le(&a, &s));
    assert!(!frac_le(&s, &b));
    assert!(frac_eq(&Frac::new(2, 4), &Frac::new(1, 2)));
}

#[test]
fn fixed_point_rounds_toward_negative_infinity() {
    assert_eq!(frac_to_fixed(&Frac::new(3, 2)), 384);
    assert_eq!(frac_to_fixed(&Frac::new(-3, 2)), -384);
    assert_eq!(frac_to_fixed(&Frac::new(1, 3)), 85); // floor(256/3)
    assert_eq!(frac_to_fixed(&Frac::new(-1, 3)), -86); // floor(-256/3)
    assert_eq!(frac_to_fixed(&Frac::new(i64::MAX, 1)), 0x40000000);
    assert_eq!(frac_to_fixed(&Frac::new(i64::MIN + 1, 1)), -0x40000000);
}

#[test]
fn proportional_rebase_of_center_point() {
    // Basis changes from rect(0,0,100,100) to rect(0,0,200,50): the
    // stored center (50,50) moves to the new center (100,25).
    let a = RectQ::from_ints(0, 0, 100, 100);
    let b = RectQ::from_ints(0, 0, 200, 50);
    let p = PointQ::from_ints(50, 50);
    let q = rebase_point(&p, &a, &b).unwrap();
    assert_value(&q.x, 100, 1);
    assert_value(&q.y, 25, 1);
}

#[test]
fn rebase_round_trip_restores_exact_values() {
    let a = RectQ::from_ints(-7, 3, 94, 61);
    let b = RectQ::from_ints(12, -5, 400, 17);
    let p = PointQ { x: Frac::new(13, 3), y: Frac::new(55, 7) };
    let q = rebase_point(&p, &a, &b).unwrap();
    let z = rebase_point(&q, &b, &a).unwrap();
    assert!(z.eq_value(&p));
}

#[test]
fn rebase_between_equal_rects_is_identity() {
    let a = RectQ::from_ints(10, 10, 110, 210);
    let b = RectQ::from_ints(10, 10, 110, 210);
    let p = PointQ { x: Frac::new(101, 2), y: Frac::new(77, 5) };
    let q = rebase_point(&p, &a, &b).unwrap();
    assert!(q.eq_value(&p));
}

#[test]
fn rect_contains_is_inclusive() {
    let r = RectQ::from_ints(0, 0, 10, 10);
    assert!(r.contains(&PointQ::from_ints(0, 0)));
    assert!(r.contains(&PointQ::from_ints(10, 10)));
    assert!(r.contains(&PointQ::from_ints(5, 5)));
    assert!(!r.contains(&PointQ::from_ints(11, 5)));
    assert!(!r.contains(&PointQ::from_ints(5, -1)));
}

#[test]
fn quantized_distance_tests_are_exact() {
    // (0,0) to (3,4) is exactly 5.
    assert!(point_within(0, 0, 3, 4, 5));
    assert!(!point_within(0, 0, 3, 4, 4));
    // (0,10) is exactly 10 from the segment (-5,0)..(5,0).
    assert!(segment_within(0, 10, -5, 0, 5, 0, 10));
    assert!(!segment_within(0, 10, -5, 0, 5, 0, 9));
    // Beyond the endpoint the distance is to the endpoint.
    assert!(segment_within(8, 4, -5, 0, 5, 0, 5));
    assert!(!segment_within(9, 4, -5, 0, 5, 0, 4));
    // A degenerate segment behaves as its single point.
    assert!(segment_within(3, 4, 0, 0, 0, 0, 5));
}

#[test]
fn touch_mapping_scales_into_screen() {
    let screen = RectQ::from_ints(0, 0, 100, 200);
    let pos = PointQ { x: Frac::new(1, 4), y: Frac::new(1, 2) };
    let q = map_touch(&pos, &screen, false).unwrap();
    assert_value(&q.x, 25, 1);
    assert_value(&q.y, 100, 1);
}

#[test]
fn touch_mapping_with_rotation_remaps_axes() {
    // (x, y) -> (y, 1 - x) before scaling.
    let screen = RectQ::from_ints(0, 0, 100, 200);
    let pos = PointQ { x: Frac::new(1, 4), y: Frac::new(1, 2) };
    let q = map_touch(&pos, &screen, true).unwrap();
    assert_value(&q.x, 50, 1); // 1/2 * 100
    assert_value(&q.y, 150, 1); // 3/4 * 200
    assert!((frac_f64(&q.y) - 150.0).abs() < 1e-12);
}
