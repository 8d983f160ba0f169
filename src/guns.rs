use vstd::prelude::*;

verus! {

/// A gun's configuration and firing state.
///
/// Durations are integer nanoseconds, lengths are integer length units and
/// speeds are length units per second.
#[derive(Clone, Copy, PartialEq, Eq, Structural, Debug)]
pub struct Gun {
    pub projectile_speed: u64,
    /// Speed lost by a flying projectile per second.
    pub projectile_flying_recovery_rate: u64,
    pub projectile_count: u32,
    pub muzzle_distance: u64,
    /// The colour tag given to each projectile.
    pub projectile_colour: u32,
    pub projectile_mass: u32,
    pub projectile_base_damage_per_unit: u32,
    /// Time between two shots.
    pub cooldown: u64,
    /// Whether holding the trigger keeps firing.
    pub auto: bool,
    /// Time left before the gun may fire again.
    pub cooldown_timer: u64,
    pub trigger_depressed: bool,
    pub trigger_depressed_previous_frame: bool,
}

/// What a carrier wants of the gun it holds.
#[derive(Clone, Copy, PartialEq, Eq, Structural, Debug)]
pub struct CarrierIntent {
    pub alive: bool,
    /// The carrier's will to depress the trigger, where it has a will at all.
    pub depress_trigger: Option<bool>,
}

impl Gun {
    /// The timer never exceeds the cooldown.
    pub open spec fn wf(&self) -> bool {
        self.cooldown_timer <= self.cooldown
    }
}

/// The trigger is depressed only by a living carrier that wills it.
pub open spec fn trigger_of(carrier: Option<CarrierIntent>) -> bool {
    match carrier {
        Some(c) => c.alive && c.depress_trigger == Some(true),
        None => false,
    }
}

/// Whether the gun is asked to fire this frame: an automatic gun while the
/// trigger is held, a semi-automatic one on the frame the trigger goes down.
pub open spec fn shot_requested(auto: bool, trigger: bool, trigger_previous: bool) -> bool {
    if auto {
        trigger
    } else {
        trigger && !trigger_previous
    }
}

/// The most shots an automatic gun fires in a frame of `delta`: one per
/// full cooldown that the frame holds, and at least one.
pub open spec fn max_shots(cooldown: nat, delta: nat) -> nat {
    if cooldown > 0 && delta / cooldown >= 1 {
        delta / cooldown
    } else {
        1
    }
}

/// How many shots a frame of `delta` holds, the gun's timer standing at `timer`.
/// The shots fall at `timer`, `timer + cooldown`, ... up to and including
/// `delta`, but an automatic gun fires no more than `max_shots`: a shot that
/// falls due beyond those waits, the timer at zero, and opens the next frame.
pub open spec fn shot_count(timer: nat, cooldown: nat, auto: bool, shoot: bool, delta: nat) -> nat {
    if !shoot || delta == 0 || timer > delta {
        0
    } else if !auto {
        1
    } else if ((delta - timer) as nat / cooldown) + 1 <= max_shots(cooldown, delta) {
        ((delta - timer) as nat / cooldown) + 1
    } else {
        max_shots(cooldown, delta)
    }
}

/// The time offset of shot `k` within the frame.
pub open spec fn shot_time(timer: nat, cooldown: nat, k: nat) -> nat {
    timer + k * cooldown
}

/// The gun's timer at the end of the frame.
pub open spec fn timer_after(timer: nat, cooldown: nat, auto: bool, shoot: bool, delta: nat) -> nat {
    let n = shot_count(timer, cooldown, auto, shoot, delta);
    if n == 0 {
        if timer >= delta {
            (timer - delta) as nat
        } else {
            0
        }
    } else {
        let last = shot_time(timer, cooldown, (n - 1) as nat);
        if cooldown >= delta - last {
            (cooldown - (delta - last)) as nat
        } else {
            0
        }
    }
}

/// Moves `current` towards `target`, stopping early where the cooldown runs
/// out first; the cooldown goes down by the time that passed.
pub fn progress_time_with_cooldown_interrupt(current: &mut u64, target: u64, cooldown: &mut u64)
    requires
        *old(current) < target,
    ensures
        *final(current) - *old(current) == *old(cooldown) - *final(cooldown),
        *final(current) == if target - *old(current) <= *old(cooldown) {
            target as int
        } else {
            *old(current) + *old(cooldown)
        },
{
    let delta: u64 = if target - *current < *cooldown {
        target - *current
    } else {
        *cooldown
    };
    *current = *current + delta;
    *cooldown = *cooldown - delta;
}

/// The trigger state that a gun takes from its carrier, if any.
pub fn resolve_trigger(carrier: Option<CarrierIntent>) -> (r: bool)
    ensures
        r == trigger_of(carrier),
{
    match carrier {
        Some(c) => match c.depress_trigger {
            Some(d) => c.alive && d,
            None => false,
        },
        None => false,
    }
}

proof fn lemma_quotient_at_least(x: nat, c: nat, q: nat)
    requires
        c > 0,
        q * c <= x,
    ensures
        x / c >= q,
{
    assert(x / c >= q) by (nonlinear_arith)
        requires
            c > 0,
            q * c <= x,
    {
        vstd::arithmetic::div_mod::lemma_fundamental_div_mod(x as int, c as int);
    }
}

proof fn lemma_quotient(x: nat, c: nat, q: nat)
    requires
        c > 0,
        q * c <= x,
        x < q * c + c,
    ensures
        x / c == q,
{
    assert(x / c == q) by (nonlinear_arith)
        requires
            c > 0,
            q * c <= x,
            x < q * c + c,
    ;
}

/// `after` and `shots` are what a frame of `delta` makes of `before` with
/// the trigger now at `trigger`: the shots fall at `shot_time`, as many as
/// `shot_count` gives, the timer ends at `timer_after`, the trigger is
/// remembered for the next frame, and the configuration is kept.
pub open spec fn ticked(before: Gun, trigger: bool, delta: u64, after: Gun, shots: Seq<u64>) -> bool {
    let shoot = shot_requested(before.auto, trigger, before.trigger_depressed_previous_frame);
    let t0 = before.cooldown_timer as nat;
    let c = before.cooldown as nat;
    &&& after.wf()
    &&& shots.len() == shot_count(t0, c, before.auto, shoot, delta as nat)
    &&& forall|k: int| 0 <= k < shots.len() ==> shots[k] == shot_time(t0, c, k as nat)
    &&& after.cooldown_timer == timer_after(t0, c, before.auto, shoot, delta as nat)
    &&& after.trigger_depressed == trigger
    &&& after.trigger_depressed_previous_frame == trigger
    &&& after.cooldown == before.cooldown
    &&& after.auto == before.auto
    &&& after.projectile_speed == before.projectile_speed
    &&& after.projectile_flying_recovery_rate == before.projectile_flying_recovery_rate
    &&& after.projectile_count == before.projectile_count
    &&& after.muzzle_distance == before.muzzle_distance
    &&& after.projectile_colour == before.projectile_colour
    &&& after.projectile_mass == before.projectile_mass
    &&& after.projectile_base_damage_per_unit == before.projectile_base_damage_per_unit
}

/// Runs one frame of `delta` nanoseconds on a gun whose trigger is now
/// `trigger_depressed`, and returns the time offset of each shot, in order.
pub fn tick_gun(gun: &mut Gun, trigger_depressed: bool, delta: u64) -> (shots: Vec<u64>)
    requires
        old(gun).wf(),
        // with no cooldown, an automatic gun whose trigger is held would fire without end
        old(gun).auto && trigger_depressed ==> old(gun).cooldown > 0,
    ensures
        ticked(*old(gun), trigger_depressed, delta, *final(gun), shots@),
{
    let ghost g0 = *gun;
    let ghost t0 = g0.cooldown_timer as nat;
    let ghost c = g0.cooldown as nat;
    let requested = if gun.auto {
        trigger_depressed
    } else {
        trigger_depressed && !gun.trigger_depressed_previous_frame
    };
    let mut shoot = requested;
    gun.trigger_depressed = trigger_depressed;
    let mut shots: Vec<u64> = Vec::new();
    let mut current: u64 = 0;
    let cap: u64 = if gun.cooldown > 0 && delta / gun.cooldown >= 1 {
        delta / gun.cooldown
    } else {
        1
    };
    loop
        invariant_except_break
            current <= delta,
            g0.auto ==> shots@.len() <= cap,
            shots@.len() == 0 ==> current == 0 && gun.cooldown_timer == t0 && shoot == requested,
            shots@.len() > 0 ==> {
                &&& requested
                &&& delta > 0
                &&& current == shot_time(t0, c, (shots@.len() - 1) as nat)
                &&& gun.cooldown_timer == c
                &&& shoot == g0.auto
                &&& !g0.auto ==> shots@.len() == 1
            },
        invariant
            g0.wf(),
            g0.auto && trigger_depressed ==> g0.cooldown > 0,
            t0 == g0.cooldown_timer,
            c == g0.cooldown,
            gun.cooldown == g0.cooldown,
            gun.auto == g0.auto,
            gun.trigger_depressed == trigger_depressed,
            gun.trigger_depressed_previous_frame == g0.trigger_depressed_previous_frame,
            gun.projectile_speed == g0.projectile_speed,
            gun.projectile_flying_recovery_rate == g0.projectile_flying_recovery_rate,
            gun.projectile_count == g0.projectile_count,
            gun.muzzle_distance == g0.muzzle_distance,
            gun.projectile_colour == g0.projectile_colour,
            gun.projectile_mass == g0.projectile_mass,
            gun.projectile_base_damage_per_unit == g0.projectile_base_damage_per_unit,
            requested == shot_requested(g0.auto, trigger_depressed, g0.trigger_depressed_previous_frame),
            forall|k: int| 0 <= k < shots@.len() ==> shots@[k] == shot_time(t0, c, k as nat),
            gun.cooldown_timer <= c,
            cap == max_shots(c, delta as nat),
            cap <= delta || delta == 0,
        ensures
            shots@.len() == shot_count(t0, c, g0.auto, requested, delta as nat),
            gun.cooldown_timer == timer_after(t0, c, g0.auto, requested, delta as nat),
            gun.cooldown == g0.cooldown,
            gun.auto == g0.auto,
            gun.trigger_depressed == trigger_depressed,
            gun.projectile_speed == g0.projectile_speed,
            gun.projectile_flying_recovery_rate == g0.projectile_flying_recovery_rate,
            gun.projectile_count == g0.projectile_count,
            gun.muzzle_distance == g0.muzzle_distance,
            gun.projectile_colour == g0.projectile_colour,
            gun.projectile_mass == g0.projectile_mass,
            gun.projectile_base_damage_per_unit == g0.projectile_base_damage_per_unit,
            forall|k: int| 0 <= k < shots@.len() ==> shots@[k] == shot_time(t0, c, k as nat),
        decreases
            2 * (delta - current) + (if gun.cooldown_timer == 0 { 1int } else { 0 }) + (if shoot { 1int } else { 0 }),
    {
        let ghost k = shots@.len();
        if current >= delta {
            proof {
                if k > 0 && g0.auto {
                    assert((k - 1) * c + c == k * c) by (nonlinear_arith);
                    lemma_quotient((delta - t0) as nat, c, (k - 1) as nat);
                }
            }
            break;
        }
        let ghost cur0 = current;
        let ghost tm0 = gun.cooldown_timer;
        progress_time_with_cooldown_interrupt(&mut current, delta, &mut gun.cooldown_timer);
        if shoot && gun.cooldown_timer == 0 && (!gun.auto || (shots.len() as u64) < cap) {
            gun.cooldown_timer = gun.cooldown;
            if !gun.auto {
                shoot = false;
            }
            proof {
                assert(current - cur0 == tm0);
                if k > 0 {
                    assert(shot_time(t0, c, k as nat) == shot_time(t0, c, (k - 1) as nat) + c) by (nonlinear_arith)
                        requires k > 0;
                } else {
                    assert(shot_time(t0, c, 0) == t0) by (nonlinear_arith);
                }
                assert(current == shot_time(t0, c, k as nat));
            }
            shots.push(current);
        } else {
            proof {
                if k > 0 && g0.auto {
                    let last = shot_time(t0, c, (k - 1) as nat);
                    assert(last == t0 + (k - 1) * c);
                    assert((k - 1) * c + c == k * c) by (nonlinear_arith);
                    if shoot && gun.cooldown_timer == 0 {
                        assert(current == t0 + k * c);
                        lemma_quotient_at_least((delta - t0) as nat, c, k as nat);
                    } else {
                        lemma_quotient((delta - t0) as nat, c, (k - 1) as nat);
                    }
                }
            }
            break;
        }
    }
    gun.trigger_depressed_previous_frame = trigger_depressed;
    shots
}

/// An automatic gun with its trigger held fires exactly `delta / cooldown`
/// times in a frame of `delta` at least one cooldown long, whatever its timer
/// (which never exceeds the cooldown). One whose timer stands at a full
/// cooldown fires on the tick where time reaches it, the end of the frame
/// included; one ready at the start fires at once and every cooldown after.
pub proof fn lemma_automatic_fires_floor(timer: nat, cooldown: nat, delta: nat)
    requires
        cooldown > 0,
        timer <= cooldown,
        delta >= cooldown,
    ensures
        shot_count(timer, cooldown, true, shot_requested(true, true, true), delta) == delta / cooldown,
        shot_count(timer, cooldown, true, shot_requested(true, true, false), delta) == delta / cooldown,
        timer == cooldown ==> shot_time(timer, cooldown, (delta / cooldown - 1) as nat) <= delta,
        timer == 0 ==> forall|k: nat| k < delta / cooldown ==> #[trigger] shot_time(timer, cooldown, k) == k * cooldown,
{
    assert(((delta - timer) as nat) / cooldown + 1 >= delta / cooldown) by (nonlinear_arith)
        requires
            cooldown > 0,
            delta >= cooldown,
            timer <= cooldown,
    {
        vstd::arithmetic::div_mod::lemma_fundamental_div_mod((delta - timer) as int, cooldown as int);
        vstd::arithmetic::div_mod::lemma_fundamental_div_mod(delta as int, cooldown as int);
    }
    assert(delta / cooldown >= 1) by (nonlinear_arith)
        requires
            cooldown > 0,
            delta >= cooldown,
    ;
    assert((delta / cooldown) * cooldown <= delta) by (nonlinear_arith)
        requires
            cooldown > 0,
    {
        vstd::arithmetic::div_mod::lemma_fundamental_div_mod(delta as int, cooldown as int);
    }
    assert(cooldown + ((delta / cooldown - 1) as nat) * cooldown == (delta / cooldown) * cooldown) by (nonlinear_arith)
        requires
            delta / cooldown >= 1,
    ;
}

/// A semi-automatic gun fires at most once in a frame, whatever its length,
/// and not at all when the trigger was already down on the frame before.
pub proof fn lemma_semi_automatic_once_per_press(
    timer: nat,
    cooldown: nat,
    trigger: bool,
    trigger_previous: bool,
    delta: nat,
)
    ensures
        shot_count(timer, cooldown, false, shot_requested(false, trigger, trigger_previous), delta) <= 1,
        trigger_previous ==> shot_count(
            timer,
            cooldown,
            false,
            shot_requested(false, trigger, trigger_previous),
            delta,
        ) == 0,
{
}

/// Holding the trigger of a semi-automatic gun down over two frames fires at
/// most once in the first and never in the second.
pub proof fn lemma_semi_automatic_held_trigger(
    g0: Gun,
    g1: Gun,
    g2: Gun,
    delta1: u64,
    delta2: u64,
    shots1: Seq<u64>,
    shots2: Seq<u64>,
)
    requires
        !g0.auto,
        ticked(g0, true, delta1, g1, shots1),
        ticked(g1, true, delta2, g2, shots2),
    ensures
        shots1.len() <= 1,
        shots2.len() == 0,
{
    lemma_semi_automatic_once_per_press(g0.cooldown_timer as nat, g0.cooldown as nat, true, g0.trigger_depressed_previous_frame, delta1 as nat);
    lemma_semi_automatic_once_per_press(g1.cooldown_timer as nat, g1.cooldown as nat, true, true, delta2 as nat);
}

/// Over any run of frames of a semi-automatic gun, each frame fires at most
/// once, and a frame whose trigger was already down on the frame before
/// fires nothing: one shot per press at most.
pub proof fn lemma_semi_automatic_run(
    guns: Seq<Gun>,
    triggers: Seq<bool>,
    deltas: Seq<u64>,
    shots: Seq<Seq<u64>>,
)
    requires
        guns.len() == triggers.len() + 1,
        deltas.len() == triggers.len(),
        shots.len() == triggers.len(),
        !guns[0].auto,
        forall|k: int| 0 <= k < triggers.len() ==> ticked(
            guns[k],
            #[trigger] triggers[k],
            deltas[k],
            guns[k + 1],
            shots[k],
        ),
    ensures
        forall|k: int| 0 <= k < shots.len() ==> (#[trigger] shots[k]).len() <= 1,
        forall|k: int| 0 < k < shots.len() && triggers[k - 1] && triggers[k] ==> (#[trigger] shots[k]).len() == 0,
{
    assert forall|k: int| 0 <= k < triggers.len() implies !guns[k].auto by {
        lemma_run_keeps_mode(guns, triggers, deltas, shots, k);
    }
    assert forall|k: int| 0 <= k < shots.len() implies (#[trigger] shots[k]).len() <= 1 by {
        assert(ticked(guns[k], triggers[k], deltas[k], guns[k + 1], shots[k]));
        lemma_semi_automatic_once_per_press(
            guns[k].cooldown_timer as nat,
            guns[k].cooldown as nat,
            triggers[k],
            guns[k].trigger_depressed_previous_frame,
            deltas[k] as nat,
        );
    }
    assert forall|k: int| 0 < k < shots.len() && triggers[k - 1] && triggers[k] implies (#[trigger] shots[k]).len() == 0 by {
        assert(ticked(guns[k - 1], triggers[k - 1], deltas[k - 1], guns[k], shots[k - 1]));
        assert(ticked(guns[k], triggers[k], deltas[k], guns[k + 1], shots[k]));
        lemma_semi_automatic_once_per_press(
            guns[k].cooldown_timer as nat,
            guns[k].cooldown as nat,
            triggers[k],
            guns[k].trigger_depressed_previous_frame,
            deltas[k] as nat,
        );
    }
}

proof fn lemma_run_keeps_mode(guns: Seq<Gun>, triggers: Seq<bool>, deltas: Seq<u64>, shots: Seq<Seq<u64>>, k: int)
    requires
        guns.len() == triggers.len() + 1,
        deltas.len() == triggers.len(),
        shots.len() == triggers.len(),
        forall|k: int| 0 <= k < triggers.len() ==> ticked(
            guns[k],
            #[trigger] triggers[k],
            deltas[k],
            guns[k + 1],
            shots[k],
        ),
        0 <= k <= triggers.len(),
    ensures
        guns[k].auto == guns[0].auto,
    decreases k,
{
    if k > 0 {
        lemma_run_keeps_mode(guns, triggers, deltas, shots, k - 1);
        assert(ticked(guns[k - 1], triggers[k - 1], deltas[k - 1], guns[k], shots[k - 1]));
    }
}

/// Runs one frame of `delta` nanoseconds on every gun, gun `i` taking its
/// trigger from `carriers[i]`; returns the shot times of each gun.
pub fn tick_guns(guns: &mut Vec<Gun>, carriers: &Vec<Option<CarrierIntent>>, delta: u64) -> (shots: Vec<Vec<u64>>)
    requires
        old(guns)@.len() == carriers@.len(),
        forall|i: int| 0 <= i < old(guns)@.len() ==> #[trigger] old(guns)@[i].wf(),
        forall|i: int| 0 <= i < old(guns)@.len() ==> #[trigger] old(guns)@[i].auto && trigger_of(carriers@[i])
            ==> old(guns)@[i].cooldown > 0,
    ensures
        final(guns)@.len() == old(guns)@.len(),
        shots@.len() == old(guns)@.len(),
        forall|i: int| 0 <= i < old(guns)@.len() ==> ticked(
            old(guns)@[i],
            trigger_of(carriers@[i]),
            delta,
            #[trigger] final(guns)@[i],
            shots@[i]@,
        ),
{
    let ghost gs0 = guns@;
    let mut all: Vec<Vec<u64>> = Vec::new();
    let mut i: usize = 0;
    while i < guns.len()
        invariant
            guns@.len() == gs0.len(),
            gs0.len() == carriers@.len(),
            0 <= i <= guns@.len(),
            all@.len() == i,
            forall|k: int| i <= k < guns@.len() ==> #[trigger] guns@[k] == gs0[k],
            forall|k: int| 0 <= k < gs0.len() ==> #[trigger] gs0[k].wf(),
            forall|k: int| 0 <= k < gs0.len() ==> #[trigger] gs0[k].auto && trigger_of(carriers@[k]) ==> gs0[k].cooldown > 0,
            forall|k: int| 0 <= k < i ==> ticked(gs0[k], trigger_of(carriers@[k]), delta, #[trigger] guns@[k], all@[k]@),
        decreases guns@.len() - i,
    {
        let mut gun = guns[i];
        let trigger = resolve_trigger(carriers[i]);
        let fired = tick_gun(&mut gun, trigger, delta);
        guns.set(i, gun);
        all.push(fired);
        i = i + 1;
    }
    all
}

} // verus!
