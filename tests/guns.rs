use ballistics::guns::{progress_time_with_cooldown_interrupt, resolve_trigger, tick_gun, tick_guns, CarrierIntent, Gun};

const MS: u64 = 1_000_000;

fn gun(cooldown: u64, timer: u64, auto: bool) -> Gun {
    Gun {
        projectile_speed: 2000,
        projectile_flying_recovery_rate: 250,
        projectile_count: 1,
        muzzle_distance: 5,
        projectile_colour: 0x00ffffff,
        projectile_mass: 1,
        projectile_base_damage_per_unit: 1,
        cooldown,
        auto,
        cooldown_timer: timer,
        trigger_depressed: false,
        trigger_depressed_previous_frame: false,
    }
}

#[test]
fn progress_stops_where_cooldown_runs_out() {
    let mut current = 0u64;
    let mut cooldown = 30u64;
    progress_time_with_cooldown_interrupt(&mut current, 100, &mut cooldown);
    assert_eq!((current, cooldown), (30, 0));
}

#[test]
fn progress_reaches_target_before_cooldown() {
    let mut current = 80u64;
    let mut cooldown = 30u64;
    progress_time_with_cooldown_interrupt(&mut current, 100, &mut cooldown);
    assert_eq!((current, cooldown), (100, 10));
}

#[test]
fn trigger_needs_a_living_willing_carrier() {
    assert!(!resolve_trigger(None));
    assert!(!resolve_trigger(Some(CarrierIntent { alive: true, depress_trigger: None })));
    assert!(!resolve_trigger(Some(CarrierIntent { alive: false, depress_trigger: Some(true) })));
    assert!(!resolve_trigger(Some(CarrierIntent { alive: true, depress_trigger: Some(false) })));
    assert!(resolve_trigger(Some(CarrierIntent { alive: true, depress_trigger: Some(true) })));
}

#[test]
fn automatic_fires_floor_of_frame_over_cooldown() {
    let mut g = gun(10 * MS, 10 * MS, true);
    let shots = tick_gun(&mut g, true, 100 * MS);
    assert_eq!(shots.len(), 10);
    let expected: Vec<u64> = (1..=10).map(|k| k * 10 * MS).collect();
    assert_eq!(shots, expected);
    assert_eq!(g.cooldown_timer, 10 * MS);
}

#[test]
fn automatic_fires_floor_when_frame_is_not_a_multiple() {
    let mut g = gun(30 * MS, 30 * MS, true);
    let shots = tick_gun(&mut g, true, 100 * MS);
    assert_eq!(shots, vec![30 * MS, 60 * MS, 90 * MS]);
    assert_eq!(g.cooldown_timer, 20 * MS);
}

#[test]
fn automatic_fires_on_the_tick_where_time_reaches_cooldown() {
    let mut g = gun(10 * MS, 10 * MS, true);
    let shots = tick_gun(&mut g, true, 10 * MS);
    assert_eq!(shots, vec![10 * MS]);
}

#[test]
fn automatic_gun_ready_at_frame_start_fires_every_cooldown() {
    // cooldown 10 ms, frame 100 ms, ready to fire: ten shots, at 0, 10, ..., 90 ms
    let mut g = gun(10 * MS, 0, true);
    let shots = tick_gun(&mut g, true, 100 * MS);
    let expected: Vec<u64> = (0..10).map(|k| k * 10 * MS).collect();
    assert_eq!(shots, expected);
    // the shot due at the end of the frame opens the next one
    assert_eq!(g.cooldown_timer, 0);
    let shots = tick_gun(&mut g, true, 100 * MS);
    assert_eq!(shots, expected);
}

#[test]
fn automatic_gun_fires_floor_whatever_its_timer() {
    for timer in [0, 3 * MS, 7 * MS, 10 * MS] {
        let mut g = gun(10 * MS, timer, true);
        assert_eq!(tick_gun(&mut g, true, 105 * MS).len(), 10);
    }
}

#[test]
fn automatic_gun_in_frames_shorter_than_cooldown_keeps_its_rate() {
    let mut g = gun(10 * MS, 0, true);
    let mut all = Vec::new();
    for frame in 0..8u64 {
        for t in tick_gun(&mut g, true, 5 * MS) {
            all.push(frame * 5 * MS + t);
        }
    }
    assert_eq!(all, vec![0, 10 * MS, 20 * MS, 30 * MS, 40 * MS]);
}

#[test]
fn released_trigger_only_runs_the_cooldown_down() {
    let mut g = gun(50 * MS, 40 * MS, true);
    let shots = tick_gun(&mut g, false, 16 * MS);
    assert!(shots.is_empty());
    assert_eq!(g.cooldown_timer, 24 * MS);
    let shots = tick_gun(&mut g, false, 100 * MS);
    assert!(shots.is_empty());
    assert_eq!(g.cooldown_timer, 0);
}

#[test]
fn zero_length_frame_fires_nothing() {
    let mut g = gun(10 * MS, 0, true);
    assert!(tick_gun(&mut g, true, 0).is_empty());
    assert_eq!(g.cooldown_timer, 0);
}

#[test]
fn semi_automatic_fires_once_per_press() {
    let mut g = gun(10 * MS, 0, false);
    assert_eq!(tick_gun(&mut g, true, 100 * MS), vec![0]);
    assert!(g.trigger_depressed_previous_frame);
    assert!(tick_gun(&mut g, true, 100 * MS).is_empty());
    assert!(tick_gun(&mut g, false, 100 * MS).is_empty());
    assert_eq!(tick_gun(&mut g, true, 100 * MS), vec![0]);
}

#[test]
fn semi_automatic_waits_for_cooldown() {
    let mut g = gun(1000 * MS, 1000 * MS, false);
    assert!(tick_gun(&mut g, true, 16 * MS).is_empty());
    assert_eq!(g.cooldown_timer, 984 * MS);
}

#[test]
fn tick_guns_takes_triggers_from_carriers() {
    let mut guns = vec![gun(10 * MS, 0, true), gun(10 * MS, 0, true)];
    let carriers = vec![Some(CarrierIntent { alive: true, depress_trigger: Some(true) }), None];
    let shots = tick_guns(&mut guns, &carriers, 25 * MS);
    assert_eq!(shots, vec![vec![0, 10 * MS], vec![]]);
    assert!(guns[0].trigger_depressed);
    assert!(!guns[1].trigger_depressed);
}

#[test]
fn longest_frame_and_cooldown_do_not_overflow() {
    let half = 1u64 << 63;
    let mut g = gun(half, half, true);
    let shots = tick_gun(&mut g, true, u64::MAX);
    assert_eq!(shots, vec![half]);
    assert_eq!(g.cooldown_timer, 1);
}

#[test]
fn automatic_gun_with_no_cooldown_and_released_trigger_stops() {
    let mut g = gun(0, 0, true);
    assert!(tick_gun(&mut g, false, 16 * MS).is_empty());
    assert_eq!(g.cooldown_timer, 0);
}
