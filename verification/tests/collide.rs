use netsim::collide::{resolve, resolve_position, Obstacle};
use netsim::knot::Knot;
use netsim::vector::Vec2;

fn circle(x: i32, y: i32, radius: u32) -> Obstacle {
    Obstacle::new(Vec2::new(x, y), radius)
}

#[test]
fn obstacle_new_keeps_centre_and_radius() {
    let o = circle(3, 4, 5);
    assert_eq!(o.center, Vec2::new(3, 4));
    assert_eq!(o.radius, 5);
}

#[test]
fn contains_is_strict() {
    let o = circle(0, 0, 10);
    assert!(o.contains(Vec2::new(0, 0)));
    assert!(o.contains(Vec2::new(7, 7)));
    assert!(!o.contains(Vec2::new(6, 8)));
    assert!(!o.contains(Vec2::new(10, 0)));
    assert!(!o.contains(Vec2::new(8, 7)));
}

#[test]
fn obstacle_of_radius_zero_contains_nothing() {
    let o = circle(5, 5, 0);
    assert!(!o.contains(Vec2::new(5, 5)));
    assert_eq!(o.push_out(Vec2::new(5, 5)), Vec2::new(5, 5));
}

#[test]
fn knot_inside_goes_to_the_rim_along_its_ray() {
    let o = circle(0, 0, 10);
    assert_eq!(o.push_out(Vec2::new(3, 4)), Vec2::new(6, 8));
    assert_eq!(o.push_out(Vec2::new(0, -1)), Vec2::new(0, -10));
    assert_eq!(circle(0, 0, 30).push_out(Vec2::new(-1, -1)), Vec2::new(-21, -21));
    assert_eq!(circle(100, 50, 10).push_out(Vec2::new(103, 54)), Vec2::new(106, 58));
}

#[test]
fn knot_on_the_rim_or_outside_stays() {
    let o = circle(0, 0, 10);
    assert_eq!(o.push_out(Vec2::new(6, 8)), Vec2::new(6, 8));
    assert_eq!(o.push_out(Vec2::new(8, 7)), Vec2::new(8, 7));
    assert_eq!(o.push_out(Vec2::new(500, -500)), Vec2::new(500, -500));
}

#[test]
fn knot_at_the_centre_stays() {
    assert_eq!(circle(0, 0, 10).push_out(Vec2::new(0, 0)), Vec2::new(0, 0));
}

#[test]
fn rounding_may_leave_a_knot_just_inside_the_rim() {
    let o = circle(0, 0, 10);
    let q = o.push_out(Vec2::new(1, 1));
    assert_eq!(q, Vec2::new(7, 7));
    assert_eq!(o.push_out(q), Vec2::new(7, 7));
}

#[test]
fn pushed_knot_is_at_the_radius_within_rounding_and_on_its_ray() {
    let o = circle(10, -20, 50);
    let mut x: i32 = -45;
    while x <= 65 {
        let mut y: i32 = -75;
        while y <= 35 {
            let p = Vec2::new(x, y);
            if o.contains(p) && p != o.center {
                let q = o.push_out(p);
                let dx = (p.x - 10) as i64;
                let dy = (p.y + 20) as i64;
                let wx = (q.x - 10) as i64;
                let wy = (q.y + 20) as i64;
                assert!(wx * wx + wy * wy <= 2500);
                assert!(2500 < (wx.abs() + 1) * (wx.abs() + 1) + (wy.abs() + 1) * (wy.abs() + 1));
                assert!(wx * dx >= 0 && wy * dy >= 0);
                let cross = wx.abs() * dy.abs() - wy.abs() * dx.abs();
                assert!(-dy.abs() <= cross && cross <= dx.abs());
            }
            y += 1;
        }
        x += 1;
    }
}

#[test]
fn push_stops_at_the_edge_of_the_plane() {
    let o = circle(i32::MAX - 1, 0, 10);
    assert_eq!(o.push_out(Vec2::new(i32::MAX, 0)), Vec2::new(i32::MAX, 0));
}

#[test]
fn obstacles_push_in_the_order_of_the_list() {
    let first = circle(0, 0, 10);
    let second = circle(12, 0, 5);
    let p = Vec2::new(1, 0);
    assert_eq!(resolve_position(p, &vec![first, second]), Vec2::new(7, 0));
    assert_eq!(resolve_position(p, &vec![second, first]), Vec2::new(10, 0));
}

#[test]
fn no_obstacles_move_nothing() {
    assert_eq!(resolve_position(Vec2::new(1, 2), &Vec::new()), Vec2::new(1, 2));
}

#[test]
fn resolve_pushes_every_knot() {
    let mut knots = vec![
        Knot::from(Vec2::new(3, 4)),
        Knot::from(Vec2::new(50, 50)),
        Knot::from(Vec2::new(0, -2)),
    ];
    knots[0].add_neighbour(1);
    resolve(&mut knots, &vec![circle(0, 0, 10)]);
    assert_eq!(knots[0].position, Vec2::new(6, 8));
    assert_eq!(knots[1].position, Vec2::new(50, 50));
    assert_eq!(knots[2].position, Vec2::new(0, -10));
    assert_eq!(knots[0].neighbours, vec![1]);
    assert!(knots[1].neighbours.is_empty());
}

#[test]
fn resolve_without_knots_or_obstacles() {
    let mut none: Vec<Knot> = Vec::new();
    resolve(&mut none, &vec![circle(0, 0, 10)]);
    assert!(none.is_empty());
    let mut one = vec![Knot::from(Vec2::new(1, 1))];
    resolve(&mut one, &Vec::new());
    assert_eq!(one[0].position, Vec2::new(1, 1));
}
