use netsim::integrate::{advance, calculate_velocity_for, integrate, Spring, TICKS_PER_UNIT};
use netsim::knot::Knot;
use netsim::vector::Vec2;

fn network(points: &[(i32, i32)], ties: &[&[usize]]) -> Vec<Knot> {
    let mut knots: Vec<Knot> = Vec::new();
    for (i, &(x, y)) in points.iter().enumerate() {
        let mut knot = Knot::from(Vec2::new(x, y));
        for &j in ties[i] {
            knot.add_neighbour(j);
        }
        knots.push(knot);
    }
    knots
}

fn places(knots: &Vec<Knot>) -> Vec<(i32, i32)> {
    knots.iter().map(|k| (k.position.x, k.position.y)).collect()
}

fn spring(leeway: u32, tension: u32, max_dt: u32, substeps: u32) -> Spring {
    Spring { rest_distance: 30, leeway, tension, max_dt, substeps }
}

#[test]
fn one_unit_of_time_has_a_million_ticks() {
    assert_eq!(TICKS_PER_UNIT, 1_000_000);
}

#[test]
fn velocity_is_the_sum_of_the_pulls() {
    let knots = network(&[(0, 0), (0, 100), (100, 100)], &[&[], &[0, 2], &[]]);
    assert_eq!(calculate_velocity_for(&knots, 1, 30, 0), Vec2::new(70, -70));
}

#[test]
fn velocity_leaves_out_pulls_within_the_leeway() {
    let knots = network(&[(0, 0), (0, 100), (100, 100)], &[&[], &[0, 2], &[]]);
    assert_eq!(calculate_velocity_for(&knots, 1, 30, 70), Vec2::new(0, 0));
    assert_eq!(calculate_velocity_for(&knots, 1, 30, 69), Vec2::new(70, -70));
}

#[test]
fn velocity_of_a_knot_without_neighbours_is_zero() {
    let knots = network(&[(0, 0), (0, 100)], &[&[1], &[]]);
    assert_eq!(calculate_velocity_for(&knots, 1, 30, 0), Vec2::new(0, 0));
}

#[test]
fn velocity_pushes_apart_knots_that_are_too_near() {
    let knots = network(&[(0, 0), (0, 10)], &[&[1], &[0]]);
    assert_eq!(calculate_velocity_for(&knots, 1, 30, 0), Vec2::new(0, 20));
    assert_eq!(calculate_velocity_for(&knots, 0, 30, 0), Vec2::new(0, -20));
}

#[test]
fn velocity_ignores_a_neighbour_in_the_same_place() {
    let knots = network(&[(3, 3), (3, 3)], &[&[1], &[0]]);
    assert_eq!(calculate_velocity_for(&knots, 0, 30, 0), Vec2::new(0, 0));
}

#[test]
fn velocity_counts_a_neighbour_as_often_as_it_is_tied() {
    let knots = network(&[(0, 0), (0, 100)], &[&[], &[0, 0, 0]]);
    assert_eq!(calculate_velocity_for(&knots, 1, 30, 0), Vec2::new(0, -210));
}

#[test]
fn velocity_of_a_self_tie_is_zero() {
    let knots = network(&[(8, 8)], &[&[0]]);
    assert_eq!(calculate_velocity_for(&knots, 0, 30, 0), Vec2::new(0, 0));
}

#[test]
fn advance_rounds_toward_zero_both_ways() {
    assert_eq!(advance(Vec2::new(0, 0), Vec2::new(71, -71), 1, 2), Vec2::new(35, -35));
    assert_eq!(advance(Vec2::new(10, 10), Vec2::new(1, -1), 1, 2), Vec2::new(10, 10));
    assert_eq!(advance(Vec2::new(10, 10), Vec2::new(3, -3), 5, 2), Vec2::new(17, 3));
}

#[test]
fn advance_stops_at_the_edge_of_the_plane() {
    let v = Vec2::new(i32::MAX, i32::MIN);
    assert_eq!(advance(Vec2::new(5, -5), v, u64::MAX, 1), Vec2::new(i32::MAX, i32::MIN));
    let corner = Vec2::new(i32::MAX, i32::MIN);
    assert_eq!(advance(corner, Vec2::new(1, -1), 1, 1), corner);
}

#[test]
fn one_pass_moves_by_velocity_times_tension_times_time() {
    let mut knots = network(&[(0, 0), (0, 100)], &[&[], &[0]]);
    integrate(&mut knots, &spring(0, 500, 100_000, 1), 100_000, None);
    assert_eq!(places(&knots), vec![(0, 0), (0, -3400)]);
}

#[test]
fn a_step_is_cut_to_whole_units_toward_zero() {
    let mut knots = network(&[(0, 0), (0, 101)], &[&[], &[0]]);
    integrate(&mut knots, &spring(0, 1, 1_000_000, 1), 500_000, None);
    assert_eq!(places(&knots), vec![(0, 0), (0, 66)]);
}

#[test]
fn passes_read_what_the_pass_before_has_left() {
    let mut knots = network(&[(0, 0), (-7, -100)], &[&[], &[0]]);
    integrate(&mut knots, &spring(0, 3, 1_000_000, 2), 1_000_000, None);
    assert_eq!(places(&knots), vec![(0, 0), (0, 42)]);
}

#[test]
fn knots_are_moved_in_index_order_within_a_pass() {
    let mut knots = network(&[(0, 0), (0, 100)], &[&[1], &[0]]);
    integrate(&mut knots, &spring(0, 500, 100_000, 20), 5_000, None);
    assert_eq!(places(&knots), vec![(0, 34), (0, 71)]);
}

#[test]
fn held_knot_is_not_moved_by_the_passes() {
    let mut knots = network(&[(0, 0), (0, 100)], &[&[1], &[0]]);
    integrate(&mut knots, &spring(0, 500, 100_000, 20), 5_000, Some(0));
    assert_eq!(places(&knots), vec![(0, 0), (0, 38)]);
}

#[test]
fn chain_with_a_held_head_is_drawn_together() {
    let mut knots = network(&[(0, 0), (30, 40), (90, 40)], &[&[1], &[0, 2], &[1]]);
    integrate(&mut knots, &spring(0, 500, 100_000, 20), 5_000, Some(0));
    assert_eq!(places(&knots), vec![(0, 0), (34, 29), (69, 40)]);
}

#[test]
fn elapsed_time_beyond_the_ceiling_does_not_count() {
    let mut long = network(&[(0, 0), (30, 40), (90, 40)], &[&[1], &[0, 2], &[1]]);
    let mut ceiling = network(&[(0, 0), (30, 40), (90, 40)], &[&[1], &[0, 2], &[1]]);
    integrate(&mut long, &spring(0, 500, 100_000, 20), 10_000_000, Some(0));
    integrate(&mut ceiling, &spring(0, 500, 100_000, 20), 100_000, Some(0));
    assert_eq!(places(&long), places(&ceiling));
    assert_eq!(
        places(&long),
        vec![(0, 0), (-710_867_705, -344_441_765), (-1_518_913_187, -715_820_145)]
    );
}

#[test]
fn elapsed_time_below_the_ceiling_counts_in_full() {
    let mut short = network(&[(0, 0), (0, 100)], &[&[], &[0]]);
    let mut ceiling = network(&[(0, 0), (0, 100)], &[&[], &[0]]);
    integrate(&mut short, &spring(0, 500, 100_000, 1), 50_000, None);
    integrate(&mut ceiling, &spring(0, 500, 100_000, 1), 100_000, None);
    assert_eq!(places(&short), vec![(0, 0), (0, -1650)]);
    assert_eq!(places(&ceiling), vec![(0, 0), (0, -3400)]);
}

#[test]
fn pull_within_the_leeway_moves_nothing() {
    let mut knots = network(&[(0, 0), (0, 31)], &[&[1], &[0]]);
    integrate(&mut knots, &spring(1, 500, 100_000, 20), 5_000, None);
    assert_eq!(places(&knots), vec![(0, 0), (0, 31)]);
}

#[test]
fn pull_beyond_the_leeway_moves_both_ends() {
    let mut knots = network(&[(0, 0), (0, 32)], &[&[1], &[0]]);
    integrate(&mut knots, &spring(1, 500, 100_000, 4), 16_000, None);
    assert_eq!(places(&knots), vec![(0, 16), (0, 48)]);
}

#[test]
fn no_passes_move_nothing() {
    let mut knots = network(&[(0, 0), (0, 100)], &[&[1], &[0]]);
    integrate(&mut knots, &spring(0, 500, 100_000, 0), 5_000, None);
    assert_eq!(places(&knots), vec![(0, 0), (0, 100)]);
}

#[test]
fn no_elapsed_time_moves_nothing() {
    let mut knots = network(&[(0, 0), (0, 100)], &[&[1], &[0]]);
    integrate(&mut knots, &spring(0, 500, 100_000, 20), 0, None);
    assert_eq!(places(&knots), vec![(0, 0), (0, 100)]);
}

#[test]
fn knot_without_neighbours_stays_through_a_frame() {
    let mut knots = network(&[(0, 0), (0, 100), (77, -77)], &[&[1], &[0], &[]]);
    integrate(&mut knots, &spring(0, 500, 100_000, 20), 5_000, None);
    assert_eq!(knots[2].position, Vec2::new(77, -77));
    assert_ne!(knots[1].position, Vec2::new(0, 100));
}

#[test]
fn coincident_knots_stay_through_repeated_frames() {
    let mut knots = network(&[(6, 6), (6, 6)], &[&[1], &[0]]);
    integrate(&mut knots, &spring(0, 500, 100_000, 20), 5_000, None);
    assert_eq!(places(&knots), vec![(6, 6), (6, 6)]);
    integrate(&mut knots, &spring(0, 500, 100_000, 20), 100_000, None);
    assert_eq!(places(&knots), vec![(6, 6), (6, 6)]);
}

#[test]
fn one_way_tie_moves_only_the_knot_that_has_it() {
    let mut knots = network(&[(0, 0), (0, 100)], &[&[], &[0]]);
    integrate(&mut knots, &spring(0, 500, 100_000, 20), 5_000, None);
    assert_eq!(knots[0].position, Vec2::new(0, 0));
    assert_eq!(knots[1].position, Vec2::new(0, 38));
}

#[test]
fn integrate_keeps_the_ties() {
    let mut knots = network(&[(0, 0), (30, 40), (90, 40)], &[&[1], &[0, 2], &[1]]);
    integrate(&mut knots, &spring(0, 500, 100_000, 20), 5_000, None);
    assert_eq!(knots[0].neighbours, vec![1]);
    assert_eq!(knots[1].neighbours, vec![0, 2]);
    assert_eq!(knots[2].neighbours, vec![1]);
}

#[test]
fn largest_settings_do_not_overflow() {
    let mut knots = network(
        &[(i32::MIN, i32::MIN), (i32::MAX, i32::MAX)],
        &[&[1, 1, 1], &[0, 0, 0]],
    );
    let s = Spring {
        rest_distance: u32::MAX,
        leeway: u32::MAX,
        tension: u32::MAX,
        max_dt: u32::MAX,
        substeps: 3,
    };
    integrate(&mut knots, &s, u32::MAX, None);
    assert_eq!(places(&knots), vec![(i32::MIN, i32::MIN), (i32::MAX, i32::MAX)]);
    let t = Spring { leeway: 0, ..s };
    integrate(&mut knots, &t, u32::MAX, None);
    assert_eq!(places(&knots), vec![(i32::MAX, i32::MAX), (i32::MAX, i32::MAX)]);
}
