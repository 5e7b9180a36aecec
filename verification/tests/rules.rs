use particle_life::fixed::UNIT;
use particle_life::particle::{
    distance_between, Particle, ParticleColor, ParticleRule, CUTOFF, MARGIN_HIGH, MARGIN_LOW,
};
use particle_life::quadtree::XY;

fn raw(units: f64) -> i32 {
    (units * UNIT as f64).round() as i32
}

fn at(x: f64, y: f64, color: ParticleColor) -> Particle {
    Particle { pos: XY { x: raw(x), y: raw(y) }, vx: 0, vy: 0, color }
}

/// Lets `rule` act on the first of `particles`, with all of them as neighbours.
fn act(rule: &ParticleRule, particles: &Vec<Particle>) -> Particle {
    let mut moved = particles[0];
    let in_range: Vec<usize> = (0..particles.len()).collect();
    let distances = ParticleRule::get_distances(&moved, &in_range, particles);
    rule.run(&mut moved, &in_range, particles, &distances);
    moved
}

#[test]
fn the_constants_are_whole_units() {
    assert_eq!(CUTOFF, 175 * UNIT as u64);
    assert_eq!(MARGIN_LOW, 20 * UNIT);
    assert_eq!(MARGIN_HIGH, 780 * UNIT);
}

#[test]
fn distances_are_rounded_down() {
    let a = XY { x: raw(400.0), y: raw(400.0) };
    assert_eq!(distance_between(&a, &a), 0);
    assert_eq!(distance_between(&a, &XY { x: raw(403.0), y: raw(404.0) }), 5 * UNIT as u64);
    assert_eq!(distance_between(&XY { x: raw(403.0), y: raw(404.0) }, &a), 5 * UNIT as u64);
    assert_eq!(distance_between(&XY { x: 0, y: 0 }, &XY { x: 1, y: 1 }), 1);
    assert_eq!(distance_between(&XY { x: 0, y: 0 }, &XY { x: 2, y: 2 }), 2);
    assert_eq!(distance_between(&XY { x: 0, y: 0 }, &XY { x: 0, y: -7 }), 7);
    assert_eq!(
        distance_between(&XY { x: i32::MIN, y: i32::MIN }, &XY { x: i32::MAX, y: i32::MAX }),
        6074000998
    );
}

#[test]
fn get_distances_follows_the_list_of_neighbours() {
    let particles = vec![
        at(400.0, 400.0, ParticleColor::Red),
        at(403.0, 404.0, ParticleColor::Green),
        at(400.0, 410.0, ParticleColor::Yellow),
    ];
    let distances = ParticleRule::get_distances(&particles[0], &vec![2, 0, 1, 2], &particles);
    assert_eq!(distances, vec![10 * UNIT as u64, 0, 5 * UNIT as u64, 10 * UNIT as u64]);
    assert_eq!(ParticleRule::get_distances(&particles[0], &vec![], &particles), Vec::<u64>::new());
}

#[test]
fn a_rule_applies_to_its_own_colour_only() {
    let rule = ParticleRule { from: ParticleColor::Red, to: ParticleColor::Green, g: UNIT };
    assert!(rule.applies_to(&at(1.0, 1.0, ParticleColor::Red)));
    assert!(!rule.applies_to(&at(1.0, 1.0, ParticleColor::Green)));
    assert!(!rule.applies_to(&at(1.0, 1.0, ParticleColor::Yellow)));
}

#[test]
fn the_force_is_gain_times_offset_over_distance() {
    let particles =
        vec![at(400.0, 400.0, ParticleColor::Red), at(403.0, 404.0, ParticleColor::Green)];
    let rule = ParticleRule { from: ParticleColor::Red, to: ParticleColor::Green, g: raw(2.5) };
    let moved = act(&rule, &particles);
    // force = 2.5 / 5 * (-3, -4) = (-1.5, -2), velocity = half of it
    assert_eq!(moved.vx, raw(-0.75));
    assert_eq!(moved.vy, raw(-1.0));
    assert_eq!(moved.pos, XY { x: raw(399.25), y: raw(399.0) });
    assert_eq!(moved.color, ParticleColor::Red);
}

#[test]
fn the_old_velocity_is_averaged_with_the_force() {
    let mut first = at(400.0, 400.0, ParticleColor::Red);
    first.vx = raw(3.0);
    first.vy = raw(-1.0);
    let particles = vec![first, at(403.0, 404.0, ParticleColor::Green)];
    let rule = ParticleRule { from: ParticleColor::Red, to: ParticleColor::Green, g: raw(2.5) };
    let moved = act(&rule, &particles);
    assert_eq!(moved.vx, raw(0.75));
    assert_eq!(moved.vy, raw(-1.5));
    assert_eq!(moved.pos, XY { x: raw(400.75), y: raw(398.5) });
}

#[test]
fn forces_and_halves_round_toward_zero() {
    let particles =
        vec![at(400.0, 400.0, ParticleColor::Red), at(403.0, 404.0, ParticleColor::Green)];
    let faint = ParticleRule { from: ParticleColor::Red, to: ParticleColor::Green, g: 1 };
    let moved = act(&faint, &particles);
    assert_eq!((moved.vx, moved.vy), (0, 0));
    let weak = ParticleRule { from: ParticleColor::Red, to: ParticleColor::Green, g: 5 };
    let moved = act(&weak, &particles);
    // force = (-3, -4) raw steps, halved toward zero
    assert_eq!((moved.vx, moved.vy), (-1, -2));
    let weak = ParticleRule { from: ParticleColor::Red, to: ParticleColor::Green, g: -5 };
    let moved = act(&weak, &particles);
    assert_eq!((moved.vx, moved.vy), (1, 2));
}

#[test]
fn only_the_rule_of_the_matching_colours_changes_the_velocity() {
    let particles =
        vec![at(400.0, 400.0, ParticleColor::Red), at(410.0, 400.0, ParticleColor::Green)];
    let from_other =
        ParticleRule { from: ParticleColor::Green, to: ParticleColor::Green, g: raw(1.0) };
    let to_other = ParticleRule { from: ParticleColor::Red, to: ParticleColor::Yellow, g: raw(1.0) };
    let to_own = ParticleRule { from: ParticleColor::Red, to: ParticleColor::Red, g: raw(1.0) };
    let matching = ParticleRule { from: ParticleColor::Red, to: ParticleColor::Green, g: raw(1.0) };
    assert_eq!(act(&from_other, &particles), particles[0]);
    assert_eq!(act(&to_other, &particles), particles[0]);
    assert_eq!(act(&to_own, &particles), particles[0]);
    let moved = act(&matching, &particles);
    assert_eq!((moved.vx, moved.vy), (raw(-0.5), 0));
    assert_eq!(moved.pos, XY { x: raw(399.5), y: raw(400.0) });
}

#[test]
fn a_rule_of_another_colour_leaves_even_a_moving_particle_alone() {
    let mut first = at(10.0, 790.0, ParticleColor::Yellow);
    first.vx = raw(4.0);
    first.vy = raw(-2.0);
    let particles = vec![first, at(12.0, 790.0, ParticleColor::Green)];
    let rule = ParticleRule { from: ParticleColor::Green, to: ParticleColor::Green, g: raw(1.0) };
    assert_eq!(act(&rule, &particles), first);
}

#[test]
fn neighbours_at_the_cutoff_or_at_the_same_place_exert_no_force() {
    let rule = ParticleRule { from: ParticleColor::Red, to: ParticleColor::Green, g: raw(1.0) };
    let first = at(200.0, 400.0, ParticleColor::Red);
    let at_cutoff = vec![first, at(375.0, 400.0, ParticleColor::Green)];
    assert_eq!(act(&rule, &at_cutoff), first);
    let same_place = vec![first, at(200.0, 400.0, ParticleColor::Green)];
    assert_eq!(act(&rule, &same_place), first);
    let mut inside = at(375.0, 400.0, ParticleColor::Green);
    inside.pos.x -= 1;
    let moved = act(&rule, &vec![first, inside]);
    assert_eq!((moved.vx, moved.vy), (raw(-0.5), 0));
}

#[test]
fn the_forces_of_all_neighbours_add_up() {
    let rule = ParticleRule { from: ParticleColor::Red, to: ParticleColor::Green, g: raw(-1.0) };
    let particles = vec![
        at(400.0, 400.0, ParticleColor::Red),
        at(410.0, 400.0, ParticleColor::Green),
        at(400.0, 420.0, ParticleColor::Green),
        at(390.0, 400.0, ParticleColor::Yellow),
        at(405.0, 400.0, ParticleColor::Green),
    ];
    let moved = act(&rule, &particles);
    assert_eq!((moved.vx, moved.vy), (raw(1.0), raw(0.5)));
}

#[test]
fn the_distances_handed_in_are_the_ones_used() {
    let rule = ParticleRule { from: ParticleColor::Red, to: ParticleColor::Green, g: raw(1.0) };
    let particles =
        vec![at(400.0, 400.0, ParticleColor::Red), at(410.0, 400.0, ParticleColor::Green)];
    let mut moved = particles[0];
    rule.run(&mut moved, &vec![1], &particles, &vec![20 * UNIT as u64, 99]);
    assert_eq!((moved.vx, moved.vy), (raw(-0.25), 0));
    let mut moved = particles[0];
    rule.run(&mut moved, &vec![1], &particles, &vec![CUTOFF]);
    assert_eq!(moved, particles[0]);
    let mut moved = particles[0];
    rule.run(&mut moved, &vec![], &particles, &vec![]);
    assert_eq!(moved, particles[0]);
}

#[test]
fn near_an_edge_in_x_the_x_velocity_turns() {
    let rule = ParticleRule { from: ParticleColor::Red, to: ParticleColor::Green, g: raw(1.0) };
    let mut first = at(15.0, 400.0, ParticleColor::Red);
    first.vx = raw(2.0);
    first.vy = raw(2.0);
    let moved = act(&rule, &vec![first]);
    assert_eq!((moved.vx, moved.vy), (raw(-1.0), raw(1.0)));
    assert_eq!(moved.pos, XY { x: raw(14.0), y: raw(401.0) });
    let mut first = at(780.0, 400.0, ParticleColor::Red);
    first.vx = raw(2.0);
    let moved = act(&rule, &vec![first]);
    assert_eq!(moved.vx, raw(-1.0));
    let mut first = at(20.0, 400.0, ParticleColor::Red);
    first.vx = raw(-2.0);
    let moved = act(&rule, &vec![first]);
    assert_eq!(moved.vx, raw(1.0));
    let mut first = at(20.0, 400.0, ParticleColor::Red);
    first.pos.x += 1;
    first.vx = raw(-2.0);
    let moved = act(&rule, &vec![first]);
    assert_eq!(moved.vx, raw(-1.0));
}

#[test]
fn near_an_edge_in_y_the_x_velocity_turns_too() {
    let rule = ParticleRule { from: ParticleColor::Red, to: ParticleColor::Green, g: raw(1.0) };
    let mut first = at(400.0, 785.0, ParticleColor::Red);
    first.vx = raw(2.0);
    first.vy = raw(2.0);
    let moved = act(&rule, &vec![first]);
    assert_eq!((moved.vx, moved.vy), (raw(-1.0), raw(1.0)));
    assert_eq!(moved.pos, XY { x: raw(399.0), y: raw(786.0) });
    let mut corner = at(5.0, 5.0, ParticleColor::Red);
    corner.vx = raw(2.0);
    corner.vy = raw(2.0);
    let moved = act(&rule, &vec![corner]);
    assert_eq!((moved.vx, moved.vy), (raw(1.0), raw(1.0)));
}

#[test]
fn the_turn_does_not_depend_on_the_force() {
    let mut first = at(15.0, 400.0, ParticleColor::Red);
    first.vx = raw(2.0);
    for g in [raw(-30.0), raw(-1.0), 0, raw(0.5), raw(30.0)] {
        let rule = ParticleRule { from: ParticleColor::Red, to: ParticleColor::Green, g };
        let free = {
            let mut twin = first;
            twin.pos.x = raw(415.0);
            act(&rule, &vec![twin, at(418.0, 404.0, ParticleColor::Green)])
        };
        let turned = act(&rule, &vec![first, at(18.0, 404.0, ParticleColor::Green)]);
        assert_eq!(turned.vx, -free.vx);
        assert_eq!(turned.vy, free.vy);
    }
}

#[test]
fn velocities_and_coordinates_saturate() {
    let rule = ParticleRule { from: ParticleColor::Red, to: ParticleColor::Green, g: i32::MAX };
    let mut first = at(400.0, 400.0, ParticleColor::Red);
    first.vx = i32::MAX;
    first.vy = i32::MIN;
    let mut particles = vec![first];
    for _ in 0..8 {
        particles.push(at(399.0, 401.0, ParticleColor::Green));
    }
    let moved = act(&rule, &particles);
    assert_eq!((moved.vx, moved.vy), (i32::MAX, -i32::MAX));
    assert_eq!(moved.pos, XY { x: i32::MAX, y: raw(400.0) - i32::MAX });

    let still = ParticleRule { from: ParticleColor::Red, to: ParticleColor::Green, g: 0 };
    let mut far = at(400.0, 400.0, ParticleColor::Red);
    far.pos = XY { x: i32::MAX - 5, y: i32::MIN };
    far.vx = -100;
    far.vy = -100;
    let moved = act(&still, &vec![far]);
    assert_eq!((moved.vx, moved.vy), (-50, -50));
    assert_eq!(moved.pos, XY { x: i32::MAX - 55, y: -i32::MAX });
}

#[test]
fn a_rule_of_another_colour_does_not_look_at_the_lists() {
    let mut first = at(10.0, 790.0, ParticleColor::Yellow);
    first.vx = raw(4.0);
    first.vy = raw(-2.0);
    let rule = ParticleRule { from: ParticleColor::Green, to: ParticleColor::Green, g: raw(1.0) };
    let mut moved = first;
    rule.run(&mut moved, &vec![99, 7], &vec![], &vec![]);
    assert_eq!(moved, first);
    let mut moved = first;
    rule.run(&mut moved, &vec![0, 0, 0], &vec![first], &vec![5]);
    assert_eq!(moved, first);
}
