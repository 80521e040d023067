use netsim::knot::Knot;
use netsim::pin::{apply_pin, capture, place_of, track_pointer, Pointer};
use netsim::vector::Vec2;

fn knots_at(points: &[(i32, i32)]) -> Vec<Knot> {
    let mut knots: Vec<Knot> = Vec::new();
    for &(x, y) in points {
        knots.push(Knot::from(Vec2::new(x, y)));
    }
    knots
}

fn pointer(at: Option<(i32, i32)>, pressed: bool, released: bool) -> Pointer {
    Pointer { position: at.map(|(x, y)| Vec2::new(x, y)), pressed, released }
}

#[test]
fn capture_finds_the_knot_under_the_pointer() {
    let knots = knots_at(&[(0, 0), (100, 0), (200, 0)]);
    assert_eq!(capture(&knots, Vec2::new(103, 4), 10), Some(1));
}

#[test]
fn capture_includes_the_rim_of_the_radius() {
    let knots = knots_at(&[(0, 0)]);
    assert_eq!(capture(&knots, Vec2::new(6, 8), 10), Some(0));
    assert_eq!(capture(&knots, Vec2::new(7, 8), 10), None);
}

#[test]
fn capture_prefers_the_lowest_index() {
    let knots = knots_at(&[(50, 0), (4, 0), (0, 0), (1, 0)]);
    assert_eq!(capture(&knots, Vec2::new(0, 0), 10), Some(1));
}

#[test]
fn capture_finds_nothing_out_of_reach() {
    let knots = knots_at(&[(0, 0), (100, 0)]);
    assert_eq!(capture(&knots, Vec2::new(50, 50), 10), None);
    assert_eq!(capture(&Vec::new(), Vec2::new(0, 0), 10), None);
}

#[test]
fn press_within_reach_pins_the_knot() {
    let knots = knots_at(&[(0, 0), (100, 0)]);
    let p = pointer(Some((98, 1)), true, false);
    assert_eq!(track_pointer(None, &knots, &p, 10), Some(1));
}

#[test]
fn press_within_reach_replaces_an_earlier_pin() {
    let knots = knots_at(&[(0, 0), (100, 0)]);
    let p = pointer(Some((98, 1)), true, false);
    assert_eq!(track_pointer(Some(0), &knots, &p, 10), Some(1));
}

#[test]
fn press_out_of_reach_changes_nothing() {
    let knots = knots_at(&[(0, 0), (100, 0)]);
    let p = pointer(Some((50, 50)), true, false);
    assert_eq!(track_pointer(None, &knots, &p, 10), None);
    assert_eq!(track_pointer(Some(1), &knots, &p, 10), Some(1));
}

#[test]
fn release_clears_the_pin() {
    let knots = knots_at(&[(0, 0), (100, 0)]);
    let p = pointer(Some((98, 1)), false, true);
    assert_eq!(track_pointer(Some(1), &knots, &p, 10), None);
    assert_eq!(track_pointer(None, &knots, &p, 10), None);
}

#[test]
fn release_clears_the_pin_wherever_the_pointer_is() {
    let knots = knots_at(&[(0, 0), (100, 0)]);
    let p = pointer(Some((5000, 5000)), false, true);
    assert_eq!(track_pointer(Some(0), &knots, &p, 10), None);
}

#[test]
fn press_goes_before_release_in_one_frame() {
    let knots = knots_at(&[(0, 0), (100, 0)]);
    let hit = pointer(Some((1, 1)), true, true);
    assert_eq!(track_pointer(Some(1), &knots, &hit, 10), Some(0));
    let miss = pointer(Some((50, 50)), true, true);
    assert_eq!(track_pointer(Some(1), &knots, &miss, 10), Some(1));
}

#[test]
fn moving_pointer_keeps_the_pin() {
    let knots = knots_at(&[(0, 0), (100, 0)]);
    let p = pointer(Some((500, 500)), false, false);
    assert_eq!(track_pointer(Some(1), &knots, &p, 10), Some(1));
    assert_eq!(track_pointer(None, &knots, &p, 10), None);
}

#[test]
fn absent_pointer_neither_pins_nor_unpins() {
    let knots = knots_at(&[(0, 0), (100, 0)]);
    assert_eq!(track_pointer(Some(1), &knots, &pointer(None, true, false), 10), Some(1));
    assert_eq!(track_pointer(Some(1), &knots, &pointer(None, false, true), 10), Some(1));
    assert_eq!(track_pointer(None, &knots, &pointer(None, true, true), 10), None);
    assert_eq!(track_pointer(None, &knots, &pointer(None, true, false), 1000), None);
}

#[test]
fn absent_pointer_is_not_a_pointer_at_the_origin() {
    let knots = knots_at(&[(0, 0)]);
    assert_eq!(track_pointer(None, &knots, &pointer(None, true, false), 10), None);
    assert_eq!(track_pointer(None, &knots, &pointer(Some((0, 0)), true, false), 10), Some(0));
}

#[test]
fn pinned_knot_is_held_at_the_pointer() {
    assert_eq!(place_of(&pointer(Some((12, -7)), false, false)), Vec2::new(12, -7));
}

#[test]
fn pinned_knot_is_held_at_the_origin_without_a_pointer() {
    assert_eq!(place_of(&pointer(None, false, false)), Vec2::new(0, 0));
}

#[test]
fn apply_pin_moves_only_the_pinned_knot() {
    let mut knots = knots_at(&[(0, 0), (100, 0), (200, 0)]);
    knots[1].add_neighbour(0);
    apply_pin(&mut knots, Some(1), Vec2::new(5, 6));
    assert_eq!(knots[0].position, Vec2::new(0, 0));
    assert_eq!(knots[1].position, Vec2::new(5, 6));
    assert_eq!(knots[2].position, Vec2::new(200, 0));
    assert_eq!(knots[1].neighbours, vec![0]);
}

#[test]
fn apply_pin_without_a_pin_moves_nothing() {
    let mut knots = knots_at(&[(0, 0), (100, 0)]);
    apply_pin(&mut knots, None, Vec2::new(5, 6));
    assert_eq!(knots[0].position, Vec2::new(0, 0));
    assert_eq!(knots[1].position, Vec2::new(100, 0));
}

#[test]
fn apply_pin_ignores_a_pin_that_names_no_knot() {
    let mut knots = knots_at(&[(0, 0), (100, 0)]);
    apply_pin(&mut knots, Some(2), Vec2::new(5, 6));
    assert_eq!(knots[0].position, Vec2::new(0, 0));
    assert_eq!(knots[1].position, Vec2::new(100, 0));
}
