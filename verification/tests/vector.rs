use netsim::sqrt::isqrt;
use netsim::vector::{saturate, Vec2};

#[test]
fn isqrt_of_small_numbers() {
    assert_eq!(isqrt(0), 0);
    assert_eq!(isqrt(1), 1);
    assert_eq!(isqrt(2), 1);
    assert_eq!(isqrt(3), 1);
    assert_eq!(isqrt(4), 2);
    assert_eq!(isqrt(15), 3);
    assert_eq!(isqrt(16), 4);
    assert_eq!(isqrt(17), 4);
}

#[test]
fn isqrt_rounds_down_below_a_square() {
    assert_eq!(isqrt(1_000_000_000_000), 1_000_000);
    assert_eq!(isqrt(999_999_999_999), 999_999);
}

#[test]
fn isqrt_of_the_largest_numbers() {
    assert_eq!(isqrt(u128::MAX), u64::MAX);
    assert_eq!(isqrt(1u128 << 64), 1u64 << 32);
    assert_eq!(isqrt(1u128 << 127), 13_043_817_825_332_782_212);
}

#[test]
fn isqrt_brackets_its_argument() {
    let mut n: u128 = 0;
    while n < 5000 {
        let r = isqrt(n) as u128;
        assert!(r * r <= n && n < (r + 1) * (r + 1));
        n += 1;
    }
}

#[test]
fn saturate_keeps_what_fits() {
    assert_eq!(saturate(0), 0);
    assert_eq!(saturate(-5), -5);
    assert_eq!(saturate(i32::MAX as i128), i32::MAX);
    assert_eq!(saturate(i32::MIN as i128), i32::MIN);
}

#[test]
fn saturate_stops_at_the_bounds() {
    assert_eq!(saturate(i32::MAX as i128 + 1), i32::MAX);
    assert_eq!(saturate(i32::MIN as i128 - 1), i32::MIN);
    assert_eq!(saturate(i128::MAX), i32::MAX);
    assert_eq!(saturate(i128::MIN), i32::MIN);
}

#[test]
fn new_sets_both_coordinates() {
    let v = Vec2::new(3, -4);
    assert_eq!(v.x, 3);
    assert_eq!(v.y, -4);
}

#[test]
fn distance_squared_is_pythagorean() {
    assert_eq!(Vec2::new(0, 0).distance_squared(Vec2::new(3, 4)), 25);
    assert_eq!(Vec2::new(-1, -1).distance_squared(Vec2::new(2, 3)), 25);
    assert_eq!(Vec2::new(7, 7).distance_squared(Vec2::new(7, 7)), 0);
}

#[test]
fn distance_squared_across_the_plane() {
    let a = Vec2::new(i32::MIN, i32::MIN);
    let b = Vec2::new(i32::MAX, i32::MAX);
    let side: u128 = (1u128 << 32) - 1;
    assert_eq!(a.distance_squared(b), 2 * side * side);
    assert_eq!(b.distance_squared(a), 2 * side * side);
}

#[test]
fn is_within_includes_the_rim() {
    let origin = Vec2::new(0, 0);
    assert!(Vec2::new(3, 4).is_within(origin, 5));
    assert!(!Vec2::new(3, 4).is_within(origin, 4));
    assert!(Vec2::new(0, 10).is_within(origin, 10));
    assert!(!Vec2::new(0, 11).is_within(origin, 10));
    assert!(origin.is_within(origin, 0));
    assert!(!Vec2::new(1, 0).is_within(origin, 0));
}

#[test]
fn offset_along_an_axis_is_exact() {
    let origin = Vec2::new(0, 0);
    assert_eq!(origin.offset_toward(Vec2::new(0, 70), 30), (0, 30));
    assert_eq!(origin.offset_toward(Vec2::new(0, -70), 30), (0, -30));
    assert_eq!(origin.offset_toward(Vec2::new(5, 0), 30), (30, 0));
    assert_eq!(origin.offset_toward(Vec2::new(-5, 0), 30), (-30, 0));
}

#[test]
fn offset_on_a_pythagorean_ray_is_exact() {
    let origin = Vec2::new(0, 0);
    assert_eq!(origin.offset_toward(Vec2::new(3, 4), 10), (6, 8));
    assert_eq!(origin.offset_toward(Vec2::new(-3, 4), 10), (-6, 8));
    assert_eq!(origin.offset_toward(Vec2::new(7, -24), 100), (28, -96));
}

#[test]
fn offset_rounds_each_component_toward_zero() {
    let origin = Vec2::new(0, 0);
    assert_eq!(origin.offset_toward(Vec2::new(1, 1), 30), (21, 21));
    assert_eq!(origin.offset_toward(Vec2::new(-1, -1), 30), (-21, -21));
    assert_eq!(origin.offset_toward(Vec2::new(1, 2), 5), (2, 4));
    assert_eq!(Vec2::new(10, 10).offset_toward(Vec2::new(13, 15), 1000), (514, 857));
}

#[test]
fn offset_of_coincident_points_is_zero() {
    let p = Vec2::new(12, -9);
    assert_eq!(p.offset_toward(p, 30), (0, 0));
    assert_eq!(p.offset_toward(p, 0), (0, 0));
    assert_eq!(p.offset_toward(p, u32::MAX), (0, 0));
    assert_eq!(p.point_toward(p, 30), p);
}

#[test]
fn offset_of_length_zero_is_zero() {
    assert_eq!(Vec2::new(0, 0).offset_toward(Vec2::new(5, 9), 0), (0, 0));
}

#[test]
fn offset_across_the_plane_does_not_overflow() {
    let low = Vec2::new(i32::MIN, i32::MIN);
    let high = Vec2::new(i32::MAX, i32::MAX);
    assert_eq!(low.offset_toward(high, u32::MAX), (3_037_000_499, 3_037_000_499));
    assert_eq!(low.point_toward(high, u32::MAX), Vec2::new(889_516_851, 889_516_851));
    let corner = Vec2::new(i32::MAX, i32::MIN);
    let opposite = Vec2::new(i32::MIN, i32::MAX);
    assert_eq!(corner.offset_toward(opposite, u32::MAX), (-3_037_000_499, 3_037_000_499));
}

#[test]
fn offset_is_no_longer_than_asked_and_less_than_a_unit_short() {
    let from = Vec2::new(-3, 11);
    let mut x: i32 = -40;
    while x <= 40 {
        let mut y: i32 = -40;
        while y <= 40 {
            let to = Vec2::new(x, y);
            if to != from {
                let (wx, wy) = from.offset_toward(to, 97);
                let len2 = wx * wx + wy * wy;
                let more = (wx.abs() + 1) * (wx.abs() + 1) + (wy.abs() + 1) * (wy.abs() + 1);
                assert!(len2 <= 97 * 97 && 97 * 97 < more);
            }
            y += 1;
        }
        x += 1;
    }
}

#[test]
fn offset_keeps_the_direction() {
    let from = Vec2::new(5, -6);
    let mut x: i32 = -30;
    while x <= 30 {
        let mut y: i32 = -30;
        while y <= 30 {
            let to = Vec2::new(x, y);
            if to != from {
                let dx = (x - from.x) as i64;
                let dy = (y - from.y) as i64;
                let (wx, wy) = from.offset_toward(to, 1000);
                assert!(wx * dx >= 0 && wy * dy >= 0);
                let cross = wx.abs() * dy.abs() - wy.abs() * dx.abs();
                assert!(-dy.abs() <= cross && cross <= dx.abs());
            }
            y += 1;
        }
        x += 1;
    }
}

#[test]
fn point_toward_moves_from_the_first_point() {
    assert_eq!(Vec2::new(0, 100).point_toward(Vec2::new(0, 30), 30), Vec2::new(0, 70));
    assert_eq!(Vec2::new(10, 10).point_toward(Vec2::new(13, 14), 10), Vec2::new(16, 18));
}

#[test]
fn point_toward_stops_at_the_edge_of_the_plane() {
    let near_edge = Vec2::new(i32::MAX - 1, 0);
    assert_eq!(near_edge.point_toward(Vec2::new(i32::MAX, 0), 10), Vec2::new(i32::MAX, 0));
    let low = Vec2::new(0, i32::MIN + 3);
    assert_eq!(low.point_toward(Vec2::new(0, i32::MIN), 50), Vec2::new(0, i32::MIN));
}
