use ballistics::geometry::{circle_point, isqrt, line_circle_intersection, Vec2, MAX_COORD};
use ballistics::grid::{new_grid_raycast, GridIntersection, SegmentT};
use ballistics::hits::{detect_hit, detect_hits, speed, Collider, Projectile, Target, TileGrid};
use ballistics::kinematics::{apply_drag, can_launch, decay_speed, despawn_stationary_projectiles, launch_projectile, launch_shot};
use ballistics::NANOS_PER_SECOND;
use ballistics::guns::Gun;

fn v(x: i64, y: i64) -> Vec2 {
    Vec2 { x, y }
}

fn empty_grid() -> TileGrid {
    TileGrid { tile_width: 10, tile_height: 10, width: 0, height: 0, offset: v(0, 0), occupied: vec![] }
}

fn projectile(prev: Vec2, pos: Vec2, vel: Vec2) -> Projectile {
    Projectile {
        position: pos,
        previous_position: prev,
        velocity: vel,
        mass: 2,
        base_damage_per_speed: 3,
        flying_recovery_rate: 100,
        colour: 7,
        spawned_mid_tick: SegmentT { num: 0, den: 1 },
        destroyed: false,
    }
}

fn target(x: i64, y: i64, radius: u64, solid: bool) -> Target {
    Target { position: v(x, y), collider: Collider { radius, solid }, hits: vec![] }
}

fn crossing(x: i64, y: i64, num: u64, den: u64) -> GridIntersection {
    GridIntersection { tile_x: x, tile_y: y, intersection_t: SegmentT { num, den } }
}

#[test]
fn isqrt_rounds_down() {
    assert_eq!(isqrt(0), 0);
    assert_eq!(isqrt(40000), 200);
    assert_eq!(isqrt(40001), 200);
    assert_eq!(isqrt(39999), 199);
}

#[test]
fn circle_point_includes_boundary() {
    assert!(circle_point(5, v(0, 0), v(3, 4)));
    assert!(!circle_point(5, v(0, 0), v(4, 4)));
}

#[test]
fn line_circle_roots() {
    let r = line_circle_intersection(v(-10, 0), v(10, 0), 5, v(0, 0)).unwrap();
    assert_eq!((r.entry, r.exit, r.den), (200, 600, 800));
    assert!(line_circle_intersection(v(-10, 10), v(10, 10), 5, v(0, 0)).is_none());
    assert!(line_circle_intersection(v(1, 1), v(1, 1), 5, v(0, 0)).is_none());
}

#[test]
fn raycast_along_a_row() {
    let r = new_grid_raycast(v(5, 5), v(35, 5), 10, 10, v(0, 0));
    assert_eq!(r, vec![crossing(0, 0, 0, 30), crossing(1, 0, 5, 30), crossing(2, 0, 15, 30), crossing(3, 0, 25, 30)]);
}

#[test]
fn raycast_through_a_corner_steps_diagonally() {
    let r = new_grid_raycast(v(5, 5), v(25, 25), 10, 10, v(0, 0));
    assert_eq!(r, vec![crossing(0, 0, 0, 400), crossing(1, 1, 100, 400), crossing(2, 2, 300, 400)]);
}

#[test]
fn raycast_backwards_with_offset() {
    let r = new_grid_raycast(v(0, 3), v(-20, 3), 10, 10, v(-5, -5));
    assert_eq!(r, vec![crossing(0, 0, 0, 20), crossing(-1, 0, 5, 20), crossing(-2, 0, 15, 20)]);
}

#[test]
fn raycast_times_strictly_increase() {
    let r = new_grid_raycast(v(-37, 12), v(81, -64), 7, 9, v(3, -2));
    assert_eq!(r[0].intersection_t.num, 0);
    for w in r.windows(2) {
        assert!(w[0].intersection_t.num < w[1].intersection_t.num);
    }
    let last = r.last().unwrap();
    assert!(last.intersection_t.num <= last.intersection_t.den);
}

#[test]
fn projectile_through_target_hits_at_entry() {
    let mut p = projectile(v(-10, 0), v(10, 0), v(100, 0));
    let mut targets = vec![target(0, 0, 5, true)];
    let wall = detect_hit(&mut p, &mut targets, &empty_grid());
    assert!(wall.is_none());
    assert_eq!(targets[0].hits.len(), 1);
    let hit = targets[0].hits[0];
    assert_eq!(hit.entry_point, v(-5, 0));
    assert_eq!(hit.damage, 100 * 3);
    assert_eq!(hit.force, v(200, 0));
    assert_eq!(hit.blood_loss, 2);
    assert!(hit.apply_force);
    assert_eq!(p.position, v(-5, 0));
    assert!(p.destroyed);
}

#[test]
fn point_blank_hit_is_at_previous_position() {
    let mut p = projectile(v(1, 1), v(30, 1), v(100, 0));
    let mut targets = vec![target(0, 0, 5, true)];
    detect_hit(&mut p, &mut targets, &empty_grid());
    assert_eq!(targets[0].hits[0].entry_point, v(1, 1));
    assert_eq!(p.position, v(1, 1));
    assert!(p.destroyed);
}

#[test]
fn non_solid_target_is_passed() {
    let mut p = projectile(v(-10, 0), v(10, 0), v(100, 0));
    let mut targets = vec![target(0, 0, 5, false)];
    detect_hit(&mut p, &mut targets, &empty_grid());
    assert!(targets[0].hits.is_empty());
    assert_eq!(p.position, v(10, 0));
    assert!(!p.destroyed);
}

#[test]
fn target_out_of_reach_is_passed() {
    let mut p = projectile(v(-30, 0), v(-10, 0), v(100, 0));
    let mut targets = vec![target(0, 0, 5, true)];
    detect_hit(&mut p, &mut targets, &empty_grid());
    assert!(targets[0].hits.is_empty());
    assert!(!p.destroyed);
}

fn walled_grid() -> TileGrid {
    // 4 by 1 tiles of 10, the third one a wall
    TileGrid { tile_width: 10, tile_height: 10, width: 4, height: 1, offset: v(0, 0), occupied: vec![false, false, true, false] }
}

#[test]
fn wall_stops_projectile() {
    let mut p = projectile(v(5, 5), v(35, 5), v(100, 0));
    let mut targets = vec![target(32, 5, 2, true)];
    let wall = detect_hit(&mut p, &mut targets, &walled_grid());
    assert_eq!(wall, Some(SegmentT { num: 15, den: 30 }));
    assert!(targets[0].hits.is_empty());
    assert_eq!(p.position, v(20, 5));
    assert!(p.destroyed);
}

#[test]
fn target_before_wall_is_struck() {
    let mut p = projectile(v(5, 5), v(35, 5), v(100, 0));
    let mut targets = vec![target(14, 5, 2, true)];
    detect_hit(&mut p, &mut targets, &walled_grid());
    assert_eq!(targets[0].hits[0].entry_point, v(12, 5));
    assert_eq!(p.position, v(12, 5));
}

#[test]
fn tiles_outside_grid_are_not_walls() {
    let mut p = projectile(v(-25, 5), v(-5, 5), v(100, 0));
    let mut targets: Vec<Target> = vec![];
    let wall = detect_hit(&mut p, &mut targets, &walled_grid());
    assert!(wall.is_none());
    assert!(!p.destroyed);
}

#[test]
fn first_listed_target_beating_the_wall_wins() {
    let mut p = projectile(v(-50, 0), v(50, 0), v(100, 0));
    let mut targets = vec![target(20, 0, 5, true), target(-20, 0, 5, true)];
    detect_hit(&mut p, &mut targets, &empty_grid());
    assert_eq!(targets[0].hits.len(), 1);
    assert!(targets[1].hits.is_empty());
    assert_eq!(p.position, v(15, 0));
}

#[test]
fn detect_hits_skips_destroyed_projectiles() {
    let mut done = projectile(v(-10, 0), v(10, 0), v(100, 0));
    done.destroyed = true;
    let live = projectile(v(-10, 0), v(10, 0), v(100, 0));
    let mut ps = vec![done, live];
    let mut targets = vec![target(0, 0, 5, true)];
    detect_hits(&mut ps, &mut targets, &empty_grid());
    assert_eq!(ps[0], done);
    assert!(ps[1].destroyed);
    assert_eq!(targets[0].hits.len(), 1);
}

#[test]
fn speed_rounds_down() {
    assert_eq!(speed(v(3, 4)), 5);
    assert_eq!(speed(v(1, 1)), 1);
}

#[test]
fn drag_takes_speed_linearly_to_zero() {
    assert_eq!(decay_speed(100, 50, 1_000_000_000), 50);
    assert_eq!(decay_speed(100, 50, 500_000_000), 75);
    assert_eq!(decay_speed(100, 500, 1_000_000_000), 0);
    assert_eq!(decay_speed(0, 500, 1_000_000_000), 0);
    assert_eq!(decay_speed(100, 0, 1_000_000_000), 100);
}

#[test]
fn drag_scales_velocity_keeping_direction() {
    let mut p = projectile(v(0, 0), v(0, 0), v(-300, 400));
    p.flying_recovery_rate = 250;
    apply_drag(&mut p, 1_000_000_000);
    assert_eq!(p.velocity, v(-150, 200));
}

#[test]
fn launch_advances_and_slows_projectile() {
    let g = Gun {
        projectile_speed: 1000,
        projectile_flying_recovery_rate: 100,
        projectile_count: 1,
        muzzle_distance: 5,
        projectile_colour: 0x00ffffff,
        projectile_mass: 4,
        projectile_base_damage_per_unit: 7,
        cooldown: 10,
        auto: true,
        cooldown_timer: 0,
        trigger_depressed: false,
        trigger_depressed_previous_frame: false,
    };
    let p = launch_projectile(&g, v(5, 0), v(1000, 0), 500_000_000, NANOS_PER_SECOND);
    assert_eq!(p.previous_position, v(5, 0));
    assert_eq!(p.position, v(505, 0));
    assert_eq!(p.velocity, v(950, 0));
    assert_eq!((p.mass, p.base_damage_per_speed, p.destroyed), (4, 7, false));
    assert_eq!(p.colour, 0x00ffffff);
    assert_eq!(p.spawned_mid_tick, SegmentT { num: 500_000_000, den: NANOS_PER_SECOND });
    // a frame longer than a second
    let q = launch_projectile(&g, v(0, 0), v(-1000, 0), 0, 3 * NANOS_PER_SECOND);
    assert_eq!(q.position, v(-3000, 0));
    assert_eq!(q.velocity, v(-700, 0));
}

#[test]
fn despawn_removes_only_stationary() {
    let a = projectile(v(0, 0), v(0, 0), v(0, 0));
    let b = projectile(v(0, 0), v(0, 0), v(0, 1));
    let mut ps = vec![a, b, a];
    despawn_stationary_projectiles(&mut ps);
    assert_eq!(ps, vec![b]);
}

#[test]
fn struck_projectile_stopped_by_drag_is_despawned() {
    let mut ps = vec![projectile(v(-10, 0), v(10, 0), v(100, 0))];
    let mut targets = vec![target(0, 0, 5, true)];
    detect_hits(&mut ps, &mut targets, &empty_grid());
    assert!(ps[0].destroyed);
    apply_drag(&mut ps[0], 1_000_000_000);
    assert_eq!(ps[0].velocity, v(0, 0));
    despawn_stationary_projectiles(&mut ps);
    assert!(ps.is_empty());
}

#[test]
fn geometry_at_the_edge_of_the_range() {
    let m = MAX_COORD;
    let roots = line_circle_intersection(v(-m, -m), v(m, m), m as u64, v(0, 0)).unwrap();
    assert!(0 <= roots.entry && roots.entry <= roots.exit && roots.exit <= roots.den);
    assert!(circle_point(m as u64, v(0, 0), v(m, 0)));
    assert!(!circle_point(m as u64, v(0, 0), v(m, m)));
    assert_eq!(speed(v(m, 0)), m as u64);
    let r = new_grid_raycast(v(-m, -m), v(m, m), m as u64, m as u64, v(0, 0));
    let den = (2 * m as u64) * (2 * m as u64);
    assert_eq!(r, vec![crossing(-1, -1, 0, den), crossing(0, 0, den / 2, den)]);
}

#[test]
fn wall_only_hit_appends_nothing_and_keeps_other_fields() {
    let mut ps = vec![projectile(v(5, 5), v(35, 5), v(100, 0))];
    let mut targets = vec![target(100, 100, 2, true)];
    detect_hits(&mut ps, &mut targets, &walled_grid());
    assert_eq!(ps[0].position, v(20, 5));
    assert!(ps[0].destroyed);
    assert_eq!((ps[0].mass, ps[0].colour, ps[0].velocity), (2, 7, v(100, 0)));
    assert!(targets[0].hits.is_empty());
}

#[test]
fn several_projectiles_hit_the_same_target_in_order() {
    let a = projectile(v(-10, 0), v(10, 0), v(100, 0));
    let b = projectile(v(0, -10), v(0, 10), v(0, 50));
    let mut ps = vec![a, b];
    let mut targets = vec![target(0, 0, 5, true)];
    detect_hits(&mut ps, &mut targets, &empty_grid());
    assert_eq!(targets[0].hits.len(), 2);
    assert_eq!(targets[0].hits[0].entry_point, v(-5, 0));
    assert_eq!(targets[0].hits[1].entry_point, v(0, -5));
    assert_eq!(targets[0].hits[1].damage, 150);
}

#[test]
fn point_blank_hit_through_detect_hits() {
    let mut ps = vec![projectile(v(1, 0), v(20, 0), v(100, 0))];
    let mut targets = vec![target(0, 0, 5, true)];
    detect_hits(&mut ps, &mut targets, &empty_grid());
    assert_eq!(targets[0].hits.len(), 1);
    assert_eq!(targets[0].hits[0].entry_point, v(1, 0));
    assert_eq!(ps[0].position, v(1, 0));
    assert!(ps[0].destroyed);
}

fn plain_gun() -> Gun {
    Gun {
        projectile_speed: 1000,
        projectile_flying_recovery_rate: 100,
        projectile_count: 3,
        muzzle_distance: 5,
        projectile_colour: 9,
        projectile_mass: 4,
        projectile_base_damage_per_unit: 7,
        cooldown: 10,
        auto: true,
        cooldown_timer: 0,
        trigger_depressed: false,
        trigger_depressed_previous_frame: false,
    }
}

#[test]
fn launch_shot_makes_one_projectile_per_velocity() {
    let g = plain_gun();
    let vs = vec![v(1000, 0), v(0, -1000), v(600, 800)];
    let ps = launch_shot(&g, v(0, 0), &vs, 0, NANOS_PER_SECOND);
    assert_eq!(ps.len(), g.projectile_count as usize);
    assert_eq!(ps[0].position, v(1000, 0));
    assert_eq!(ps[1].velocity, v(0, -900));
    assert_eq!(ps[2].velocity, v(540, 720));
    assert!(ps.iter().all(|p| p.colour == 9 && p.previous_position == v(0, 0)));
}

#[test]
fn can_launch_checks_the_range() {
    assert!(can_launch(v(0, 0), v(1000, 0), 0, NANOS_PER_SECOND));
    assert!(!can_launch(v(MAX_COORD, 0), v(1000, 0), 0, NANOS_PER_SECOND));
    assert!(can_launch(v(MAX_COORD, 0), v(-1000, 0), 0, NANOS_PER_SECOND));
    assert!(!can_launch(v(0, 0), v(0, 0), 5, 4));
    assert!(!can_launch(v(0, 0), v(0, 0), 0, 0));
}
