use vstd::prelude::*;
use crate::geometry::{Vec2, MAX_COORD, dist2};
use crate::guns::Gun;
use crate::hits::{Projectile, speed, speed_of, lemma_isqrt_exists};
use crate::NANOS_PER_SECOND;
use crate::grid::SegmentT;

verus! {

/// The speed left after `elapsed` nanoseconds of drag that takes `rate`
/// units per second off each second; it stops at zero.
pub open spec fn decayed_speed(speed: int, rate: int, elapsed: int) -> int {
    let loss = rate * elapsed / (NANOS_PER_SECOND as int);
    if loss >= speed {
        0
    } else {
        speed - loss
    }
}

/// A velocity component scaled from a speed of `from` to one of `to`,
/// rounded towards zero.
pub open spec fn scale_coord(c: int, to: int, from: int) -> int {
    if c >= 0 {
        c * to / from
    } else {
        -((-c) * to / from)
    }
}

/// A velocity after drag: unchanged where its speed is zero or did not
/// change, else scaled to the new speed.
pub open spec fn dragged_velocity(v: Vec2, rate: int, elapsed: int) -> Vec2 {
    let old_speed = speed_of(v);
    let new_speed = decayed_speed(old_speed, rate, elapsed);
    if old_speed > 0 && new_speed != old_speed {
        Vec2 { x: scale_coord(v.x as int, new_speed, old_speed) as i64, y: scale_coord(v.y as int, new_speed, old_speed) as i64 }
    } else {
        v
    }
}

/// Speed after drag over `elapsed` nanoseconds.
pub fn decay_speed(speed: u64, rate: u64, elapsed: u64) -> (r: u64)
    ensures
        r == decayed_speed(speed as int, rate as int, elapsed as int),
        r <= speed,
{
    assert((rate as int) * (elapsed as int) <= 0xffffffffffffffff * 0xffffffffffffffff) by (nonlinear_arith)
        requires
            rate <= 0xffffffffffffffff,
            elapsed <= 0xffffffffffffffff,
    ;
    let loss: u128 = (rate as u128) * (elapsed as u128) / (NANOS_PER_SECOND as u128);
    if loss >= speed as u128 {
        0
    } else {
        speed - loss as u64
    }
}

fn scale_coord_exec(c: i64, to: u64, from: u64) -> (r: i64)
    requires
        -MAX_COORD <= c <= MAX_COORD,
        0 < from,
        to <= from,
    ensures
        r == scale_coord(c as int, to as int, from as int),
        -MAX_COORD <= r <= MAX_COORD,
        c >= 0 ==> 0 <= r <= c,
        c < 0 ==> c <= r <= 0,
        to == 0 ==> r == 0,
{
    let m: u64 = if c >= 0 {
        c as u64
    } else {
        (-c) as u64
    };
    proof {
        assert(m * to <= m * from) by (nonlinear_arith)
            requires
                to <= from,
        ;
        assert(m * to <= 0x10000000 * 0x10000000000000000) by (nonlinear_arith)
            requires
                m <= 0x10000000,
                to <= 0xffffffffffffffff,
        ;
        assert((m * to) / (from as int) <= m) by (nonlinear_arith)
            requires
                0 <= m * to <= m * from,
                from > 0,
        ;
        assert(0 <= (m * to) / (from as int)) by (nonlinear_arith)
            requires
                0 <= m * to,
                from > 0,
        ;
    }
    let q: u128 = (m as u128) * (to as u128) / (from as u128);
    if c >= 0 {
        q as i64
    } else {
        -(q as i64)
    }
}

/// One velocity component is `after` the other where it keeps its sign and
/// is no larger.
pub open spec fn shrunk(before: int, after: int) -> bool {
    if before >= 0 {
        0 <= after <= before
    } else {
        before <= after <= 0
    }
}

/// Applies `elapsed` nanoseconds of the projectile's drag to its velocity,
/// which keeps its direction (each component its sign) and grows in no
/// component; everything else is kept.
pub fn apply_drag(p: &mut Projectile, elapsed: u64)
    requires
        old(p).wf(),
    ensures
        *final(p) == (Projectile {
            velocity: dragged_velocity(old(p).velocity, old(p).flying_recovery_rate as int, elapsed as int),
            ..*old(p)
        }),
        shrunk(old(p).velocity.x as int, final(p).velocity.x as int),
        shrunk(old(p).velocity.y as int, final(p).velocity.y as int),
        final(p).wf(),
{
    let old_speed = speed(p.velocity);
    let new_speed = decay_speed(old_speed, p.flying_recovery_rate, elapsed);
    if old_speed > 0 && new_speed != old_speed {
        p.velocity = Vec2 {
            x: scale_coord_exec(p.velocity.x, new_speed, old_speed),
            y: scale_coord_exec(p.velocity.y, new_speed, old_speed),
        };
    }
}

/// Drag never speeds a projectile up, and never takes its speed below zero.
pub proof fn lemma_drag_slows(speed: int, rate: int, elapsed: int)
    requires
        speed >= 0,
        rate >= 0,
        elapsed >= 0,
    ensures
        0 <= decayed_speed(speed, rate, elapsed) <= speed,
{
    assert(0 <= rate * elapsed / (NANOS_PER_SECOND as int)) by (nonlinear_arith)
        requires
            rate >= 0,
            elapsed >= 0,
    ;
}

/// Whether a velocity is exactly zero.
pub open spec fn is_stationary(v: Vec2) -> bool {
    v.x == 0 && v.y == 0
}

/// The projectiles that are still moving, in order.
pub open spec fn moving(ps: Seq<Projectile>) -> Seq<Projectile> {
    ps.filter(|p: Projectile| !is_stationary(p.velocity))
}

/// Removes every projectile whose velocity is exactly zero; the others keep
/// their order.
pub fn despawn_stationary_projectiles(projectiles: &mut Vec<Projectile>)
    ensures
        final(projectiles)@ == moving(old(projectiles)@),
{
    let ghost ps0 = projectiles@;
    let mut kept: Vec<Projectile> = Vec::new();
    let mut i: usize = 0;
    while i < projectiles.len()
        invariant
            projectiles@ == ps0,
            0 <= i <= ps0.len(),
            kept@ == moving(ps0.subrange(0, i as int)),
        decreases ps0.len() - i,
    {
        let p = projectiles[i];
        proof {
            assert(ps0.subrange(0, i + 1) == ps0.subrange(0, i as int).push(p));
            ps0.subrange(0, i as int).lemma_filter_push(p, |p: Projectile| !is_stationary(p.velocity));
        }
        if !(p.velocity.x == 0 && p.velocity.y == 0) {
            kept.push(p);
        }
        i = i + 1;
    }
    assert(ps0.subrange(0, ps0.len() as int) == ps0);
    *projectiles = kept;
}

/// A projectile whose drag has taken its speed to zero stands exactly still,
/// and so is among no projectiles that despawning keeps.
pub proof fn lemma_stopped_projectile_despawned(p: Projectile, elapsed: nat, others: Seq<Projectile>)
    requires
        p.wf(),
        decayed_speed(speed_of(p.velocity), p.flying_recovery_rate as int, elapsed as int) == 0,
    ensures
        is_stationary(dragged_velocity(p.velocity, p.flying_recovery_rate as int, elapsed as int)),
        !moving(others).contains(Projectile {
            velocity: dragged_velocity(p.velocity, p.flying_recovery_rate as int, elapsed as int),
            ..p
        }),
{
    let v = p.velocity;
    let n = dist2(v, Vec2 { x: 0, y: 0 });
    assert(n >= 0) by (nonlinear_arith)
        requires
            n == (v.x - 0) * (v.x - 0) + (v.y - 0) * (v.y - 0),
    ;
    lemma_isqrt_exists(n);
    let s = speed_of(v);
    if s == 0 {
        assert(v.x == 0 && v.y == 0) by (nonlinear_arith)
            requires
                n == (v.x - 0) * (v.x - 0) + (v.y - 0) * (v.y - 0),
                n < (0 + 1) * (0 + 1),
        ;
    } else {
        assert(0 * s / s == 0) by (nonlinear_arith)
            requires
                s > 0,
        ;
    }
    let q = Projectile { velocity: dragged_velocity(v, p.flying_recovery_rate as int, elapsed as int), ..p };
    if moving(others).contains(q) {
        let k = choose|k: int| 0 <= k < moving(others).len() && moving(others)[k] == q;
        others.lemma_filter_pred(|p: Projectile| !is_stationary(p.velocity), k);
    }
}

/// Despawning leaves no projectile that stands exactly still.
pub proof fn lemma_despawn_leaves_none_stationary(ps: Seq<Projectile>)
    ensures
        forall|k: int| 0 <= k < moving(ps).len() ==> !is_stationary(#[trigger] moving(ps)[k].velocity),
{
    assert forall|k: int| 0 <= k < moving(ps).len() implies !is_stationary(#[trigger] moving(ps)[k].velocity) by {
        ps.lemma_filter_pred(|p: Projectile| !is_stationary(p.velocity), k);
    }
}

/// Where a body at `c` moving at `v` units per second stands `elapsed`
/// nanoseconds later, the displacement rounded towards zero.
pub open spec fn advanced(c: int, v: int, elapsed: int) -> int {
    c + scale_coord(v, elapsed, NANOS_PER_SECOND as int)
}

/// How far a body moving at `v` units per second goes in `elapsed`
/// nanoseconds, rounded towards zero.
fn displacement(v: i64, elapsed: u64) -> (r: i64)
    requires
        -MAX_COORD <= v <= MAX_COORD,
        -2 * MAX_COORD <= scale_coord(v as int, elapsed as int, NANOS_PER_SECOND as int) <= 2 * MAX_COORD,
    ensures
        r == scale_coord(v as int, elapsed as int, NANOS_PER_SECOND as int),
{
    let m: u64 = if v >= 0 {
        v as u64
    } else {
        (-v) as u64
    };
    assert((m as int) * (elapsed as int) <= 0x10000000 * 0x10000000000000000) by (nonlinear_arith)
        requires
            m <= 0x10000000,
            elapsed <= 0xffffffffffffffff,
    ;
    let q: u128 = (m as u128) * (elapsed as u128) / (NANOS_PER_SECOND as u128);
    if v >= 0 {
        q as i64
    } else {
        -(q as i64)
    }
}

/// A projectile fired by `gun` from `muzzle` with `velocity`, `shot_time`
/// nanoseconds into a frame of `frame` nanoseconds: a shot fired earlier in
/// the frame has flown longer, and its drag for that time is applied at once.
/// It records how far into the frame it was fired.
pub fn launch_projectile(gun: &Gun, muzzle: Vec2, velocity: Vec2, shot_time: u64, frame: u64) -> (p: Projectile)
    requires
        muzzle.in_range(),
        velocity.in_range(),
        shot_time <= frame,
        frame > 0,
        -MAX_COORD <= advanced(muzzle.x as int, velocity.x as int, (frame - shot_time) as int) <= MAX_COORD,
        -MAX_COORD <= advanced(muzzle.y as int, velocity.y as int, (frame - shot_time) as int) <= MAX_COORD,
    ensures
        p.previous_position == muzzle,
        p.position.x == advanced(muzzle.x as int, velocity.x as int, (frame - shot_time) as int),
        p.position.y == advanced(muzzle.y as int, velocity.y as int, (frame - shot_time) as int),
        p.velocity == dragged_velocity(velocity, gun.projectile_flying_recovery_rate as int, (frame - shot_time) as int),
        p.mass == gun.projectile_mass,
        p.base_damage_per_speed == gun.projectile_base_damage_per_unit,
        p.flying_recovery_rate == gun.projectile_flying_recovery_rate,
        p.colour == gun.projectile_colour,
        p.spawned_mid_tick == (SegmentT { num: shot_time, den: frame }),
        p.spawned_mid_tick.wf(),
        shrunk(velocity.x as int, p.velocity.x as int),
        shrunk(velocity.y as int, p.velocity.y as int),
        !p.destroyed,
        p.wf(),
{
    let remaining = frame - shot_time;
    let dx = displacement(velocity.x, remaining);
    let dy = displacement(velocity.y, remaining);
    let mut p = Projectile {
        position: Vec2 { x: muzzle.x + dx, y: muzzle.y + dy },
        previous_position: muzzle,
        velocity,
        mass: gun.projectile_mass,
        base_damage_per_speed: gun.projectile_base_damage_per_unit,
        flying_recovery_rate: gun.projectile_flying_recovery_rate,
        colour: gun.projectile_colour,
        spawned_mid_tick: SegmentT { num: shot_time, den: frame },
        destroyed: false,
    };
    apply_drag(&mut p, remaining);
    p
}

/// What `launch_projectile` asks of its arguments: points within range, the
/// shot within the frame, and the projectile still within range at its end.
pub open spec fn launch_fits(muzzle: Vec2, velocity: Vec2, shot_time: u64, frame: u64) -> bool {
    &&& muzzle.in_range()
    &&& velocity.in_range()
    &&& shot_time <= frame
    &&& frame > 0
    &&& -MAX_COORD <= advanced(muzzle.x as int, velocity.x as int, (frame - shot_time) as int) <= MAX_COORD
    &&& -MAX_COORD <= advanced(muzzle.y as int, velocity.y as int, (frame - shot_time) as int) <= MAX_COORD
}

fn coord_in_range(c: i64) -> (r: bool)
    ensures
        r == (-MAX_COORD <= c <= MAX_COORD),
{
    -MAX_COORD <= c && c <= MAX_COORD
}

/// Whether a shot can be launched with these arguments.
pub fn can_launch(muzzle: Vec2, velocity: Vec2, shot_time: u64, frame: u64) -> (r: bool)
    ensures
        r == launch_fits(muzzle, velocity, shot_time, frame),
{
    if !(coord_in_range(muzzle.x) && coord_in_range(muzzle.y) && coord_in_range(velocity.x) && coord_in_range(velocity.y)) {
        return false;
    }
    if shot_time > frame || frame == 0 {
        return false;
    }
    let remaining = frame - shot_time;
    let mx: u64 = if velocity.x >= 0 { velocity.x as u64 } else { (-velocity.x) as u64 };
    let my: u64 = if velocity.y >= 0 { velocity.y as u64 } else { (-velocity.y) as u64 };
    assert((mx as int) * (remaining as int) <= 0x10000000 * 0x10000000000000000) by (nonlinear_arith)
        requires
            mx <= 0x10000000,
            remaining <= 0xffffffffffffffff,
    ;
    assert((my as int) * (remaining as int) <= 0x10000000 * 0x10000000000000000) by (nonlinear_arith)
        requires
            my <= 0x10000000,
            remaining <= 0xffffffffffffffff,
    ;
    let qx: i128 = ((mx as u128) * (remaining as u128) / (NANOS_PER_SECOND as u128)) as i128;
    let qy: i128 = ((my as u128) * (remaining as u128) / (NANOS_PER_SECOND as u128)) as i128;
    let ax: i128 = if velocity.x >= 0 { muzzle.x as i128 + qx } else { muzzle.x as i128 - qx };
    let ay: i128 = if velocity.y >= 0 { muzzle.y as i128 + qy } else { muzzle.y as i128 - qy };
    -(MAX_COORD as i128) <= ax && ax <= MAX_COORD as i128 && -(MAX_COORD as i128) <= ay && ay <= MAX_COORD as i128
}

/// The projectiles of one shot: one for each velocity drawn, all fired from
/// `muzzle`, `shot_time` nanoseconds into a frame of `frame` nanoseconds.
/// A gun's shot draws `projectile_count` velocities.
pub fn launch_shot(gun: &Gun, muzzle: Vec2, velocities: &Vec<Vec2>, shot_time: u64, frame: u64) -> (ps: Vec<Projectile>)
    requires
        forall|i: int| 0 <= i < velocities@.len() ==> launch_fits(muzzle, #[trigger] velocities@[i], shot_time, frame),
    ensures
        ps@.len() == velocities@.len(),
        forall|i: int| 0 <= i < ps@.len() ==> {
            &&& (#[trigger] ps@[i]).previous_position == muzzle
            &&& ps@[i].position.x == advanced(muzzle.x as int, velocities@[i].x as int, (frame - shot_time) as int)
            &&& ps@[i].position.y == advanced(muzzle.y as int, velocities@[i].y as int, (frame - shot_time) as int)
            &&& ps@[i].velocity == dragged_velocity(
                velocities@[i],
                gun.projectile_flying_recovery_rate as int,
                (frame - shot_time) as int,
            )
            &&& shrunk(velocities@[i].x as int, ps@[i].velocity.x as int)
            &&& shrunk(velocities@[i].y as int, ps@[i].velocity.y as int)
            &&& ps@[i].mass == gun.projectile_mass
            &&& ps@[i].base_damage_per_speed == gun.projectile_base_damage_per_unit
            &&& ps@[i].flying_recovery_rate == gun.projectile_flying_recovery_rate
            &&& ps@[i].colour == gun.projectile_colour
            &&& ps@[i].spawned_mid_tick == (SegmentT { num: shot_time, den: frame })
            &&& !ps@[i].destroyed
            &&& ps@[i].wf()
        },
{
    let mut ps: Vec<Projectile> = Vec::new();
    let mut i: usize = 0;
    while i < velocities.len()
        invariant
            0 <= i <= velocities@.len(),
            ps@.len() == i,
            forall|j: int| 0 <= j < velocities@.len() ==> launch_fits(muzzle, #[trigger] velocities@[j], shot_time, frame),
            forall|j: int| 0 <= j < i ==> {
                &&& (#[trigger] ps@[j]).previous_position == muzzle
                &&& ps@[j].position.x == advanced(muzzle.x as int, velocities@[j].x as int, (frame - shot_time) as int)
                &&& ps@[j].position.y == advanced(muzzle.y as int, velocities@[j].y as int, (frame - shot_time) as int)
                &&& ps@[j].velocity == dragged_velocity(
                    velocities@[j],
                    gun.projectile_flying_recovery_rate as int,
                    (frame - shot_time) as int,
                )
                &&& shrunk(velocities@[j].x as int, ps@[j].velocity.x as int)
                &&& shrunk(velocities@[j].y as int, ps@[j].velocity.y as int)
                &&& ps@[j].mass == gun.projectile_mass
                &&& ps@[j].base_damage_per_speed == gun.projectile_base_damage_per_unit
                &&& ps@[j].flying_recovery_rate == gun.projectile_flying_recovery_rate
                &&& ps@[j].colour == gun.projectile_colour
                &&& ps@[j].spawned_mid_tick == (SegmentT { num: shot_time, den: frame })
                &&& !ps@[j].destroyed
                &&& ps@[j].wf()
            },
        decreases velocities@.len() - i,
    {
        assert(launch_fits(muzzle, velocities@[i as int], shot_time, frame));
        let p = launch_projectile(gun, muzzle, velocities[i], shot_time, frame);
        ps.push(p);
        i = i + 1;
    }
    ps
}

} // verus!
