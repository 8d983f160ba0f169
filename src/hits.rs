use vstd::prelude::*;
use crate::geometry::{
    Vec2, MAX_COORD, dist2, is_isqrt, isqrt, circle_point, line_circle_intersection, quad_a, quad_b, discriminant,
};
use crate::grid::{SegmentT, GridIntersection, new_grid_raycast, raycast_of, lemma_raycast_unique};

verus! {

/// The share of momentum that a hit turns into blood loss, in hundredths.
pub const PROJECTILE_BLOOD_LOSS_PERCENT: u64 = 1;

/// A circular body that projectiles may strike.
#[derive(Clone, Copy, PartialEq, Eq, Structural, Debug)]
pub struct Collider {
    pub radius: u64,
    pub solid: bool,
}

/// What a projectile did to the target it struck.
#[derive(Clone, Copy, PartialEq, Eq, Structural, Debug)]
pub struct Hit {
    pub entry_point: Vec2,
    pub force: Vec2,
    pub damage: u64,
    pub apply_force: bool,
    /// Speed times mass times the blood-loss share, rounded down.
    pub blood_loss: u64,
}

/// A target: where it stands, its collider, and the hits it has taken.
pub struct Target {
    pub position: Vec2,
    pub collider: Collider,
    pub hits: Vec<Hit>,
}

/// A fired projectile. It is `destroyed` once it has struck something: it is
/// still drawn, but takes no further part in hit detection.
#[derive(Clone, Copy, PartialEq, Eq, Structural, Debug)]
pub struct Projectile {
    pub position: Vec2,
    pub previous_position: Vec2,
    pub velocity: Vec2,
    /// Mass in integer mass units, at a scale the caller picks (a fine one,
    /// such as grams, keeps small masses and blood losses apart from zero).
    pub mass: u32,
    pub base_damage_per_speed: u32,
    pub flying_recovery_rate: u64,
    /// The colour tag the projectile is drawn with.
    pub colour: u32,
    /// How far into its frame the projectile was fired: shot time over frame time.
    pub spawned_mid_tick: SegmentT,
    pub destroyed: bool,
}

impl Projectile {
    pub open spec fn wf(self) -> bool {
        self.position.in_range() && self.previous_position.in_range() && self.velocity.in_range()
    }
}

impl Target {
    pub open spec fn wf(self) -> bool {
        self.position.in_range() && self.collider.radius <= MAX_COORD as u64
    }
}

/// The integer square root of `n`, as a spec function.
pub open spec fn sqrt_floor(n: int) -> int {
    choose|s: int| is_isqrt(n, s)
}

/// Speed of a velocity, rounded down.
pub open spec fn speed_of(v: Vec2) -> int {
    sqrt_floor(dist2(v, Vec2 { x: 0, y: 0 }))
}

/// The coordinate a fraction `t` of the way from `a` to `b`, rounded down.
pub open spec fn lerp_coord(a: int, b: int, t: SegmentT) -> int {
    a + ((b - a) * t.num) / (t.den as int)
}

pub open spec fn lerp(a: Vec2, b: Vec2, t: SegmentT) -> Vec2 {
    Vec2 { x: lerp_coord(a.x as int, b.x as int, t) as i64, y: lerp_coord(a.y as int, b.y as int, t) as i64 }
}

/// Where along the projectile's last step it meets the target, and the
/// entry wound: at its start where it started inside the circle, else where
/// the step enters the circle, if it does within the step.
pub open spec fn collision_of(p: Projectile, t: Target) -> Option<(SegmentT, Vec2)> {
    let start = p.previous_position;
    let end = p.position;
    let center = t.position;
    let r = t.collider.radius as int;
    if !t.collider.solid {
        None
    } else if dist2(start, center) <= r * r {
        Some((SegmentT { num: 0, den: 1 }, start))
    } else {
        let a = quad_a(start, end);
        let disc = discriminant(start, end, center, r);
        let entry = -quad_b(start, end, center) - sqrt_floor(disc);
        if a == 0 || disc < 0 || entry < 0 || entry > 2 * a {
            None
        } else {
            let ct = SegmentT { num: entry as u64, den: (2 * a) as u64 };
            Some((ct, lerp(start, end, ct)))
        }
    }
}

/// Whether a collision at `t` comes before the current best, if any.
pub open spec fn beats(t: SegmentT, best: Option<SegmentT>) -> bool {
    match best {
        None => true,
        Some(b) => t.before(b),
    }
}

/// The first target, from `i` on, whose collision comes before `best`; the
/// scan stops at it, whether or not a later target lies nearer.
pub open spec fn first_struck(p: Projectile, targets: Seq<Target>, best: Option<SegmentT>, i: int) -> Option<int>
    decreases targets.len() - i,
{
    if i < 0 || i >= targets.len() {
        None
    } else {
        match collision_of(p, targets[i]) {
            Some((ct, _)) => if beats(ct, best) {
                Some(i)
            } else {
                first_struck(p, targets, best, i + 1)
            },
            None => first_struck(p, targets, best, i + 1),
        }
    }
}

proof fn lemma_isqrt_unique(n: int, s1: int, s2: int)
    requires
        is_isqrt(n, s1),
        is_isqrt(n, s2),
    ensures
        s1 == s2,
{
    if s1 < s2 {
        assert((s1 + 1) * (s1 + 1) <= s2 * s2) by (nonlinear_arith)
            requires
                0 <= s1 < s2,
        ;
    } else if s2 < s1 {
        assert((s2 + 1) * (s2 + 1) <= s1 * s1) by (nonlinear_arith)
            requires
                0 <= s2 < s1,
        ;
    }
}

proof fn lemma_sqrt_floor(n: int, s: int)
    requires
        is_isqrt(n, s),
    ensures
        sqrt_floor(n) == s,
{
    lemma_isqrt_unique(n, s, sqrt_floor(n));
}

/// `a + ((b - a) * num) / den`, rounded down.
fn lerp_coord_exec(a: i64, b: i64, t: SegmentT) -> (r: i64)
    requires
        t.wf(),
        t.den <= 0x2000000000000000,
        -MAX_COORD <= a <= MAX_COORD,
        -MAX_COORD <= b <= MAX_COORD,
    ensures
        r == lerp_coord(a as int, b as int, t),
        -MAX_COORD <= r <= MAX_COORD,
{
    let ghost d = b - a;
    let ghost n = t.num as int;
    let ghost den = t.den as int;
    assert(-0x20000000 <= d <= 0x20000000);
    assert(-0x20000000 * 0x2000000000000000 <= d * n <= 0x20000000 * 0x2000000000000000) by (nonlinear_arith)
        requires
            -0x20000000 <= d <= 0x20000000,
            0 <= n <= 0x2000000000000000,
    ;
    if b >= a {
        let m: u128 = ((b - a) as u128) * (t.num as u128);
        let q: u128 = m / (t.den as u128);
        proof {
            assert(0 <= d * n <= d * den) by (nonlinear_arith)
                requires
                    0 <= d,
                    0 <= n <= den,
            ;
            assert(q <= d) by (nonlinear_arith)
                requires
                    q == (d * n) / den,
                    0 <= d * n <= d * den,
                    den > 0,
                    d >= 0,
            ;
        }
        a + q as i64
    } else {
        assert(0 <= (-d) * n <= 0x20000000 * 0x2000000000000000) by (nonlinear_arith)
            requires
                0 < -d <= 0x20000000,
                0 <= n <= 0x2000000000000000,
        ;
        let m: u128 = ((a - b) as u128) * (t.num as u128);
        let q: u128 = (m + t.den as u128 - 1) / (t.den as u128);
        proof {
            let mm = m as int;
            assert(0 <= mm <= (-d) * den) by (nonlinear_arith)
                requires
                    mm == (-d) * n,
                    d < 0,
                    0 <= n <= den,
            ;
            vstd::arithmetic::div_mod::lemma_fundamental_div_mod(mm + den - 1, den);
            let qq = q as int;
            assert(qq * den <= mm + den - 1 < qq * den + den) by (nonlinear_arith)
                requires
                    qq == (mm + den - 1) / den,
                    den > 0,
            ;
            assert(d * n == (-qq) * den + (qq * den - mm)) by (nonlinear_arith)
                requires
                    mm == (-d) * n,
            ;
            vstd::arithmetic::div_mod::lemma_fundamental_div_mod_converse_div(d * n, den, -qq, qq * den - mm);
            assert(qq <= -d) by (nonlinear_arith)
                requires
                    qq * den <= mm + den - 1,
                    mm <= (-d) * den,
                    den > 0,
            ;
        }
        a - q as i64
    }
}

fn lerp_exec(a: Vec2, b: Vec2, t: SegmentT) -> (r: Vec2)
    requires
        t.wf(),
        t.den <= 0x2000000000000000,
        a.in_range(),
        b.in_range(),
    ensures
        r == lerp(a, b, t),
        r.in_range(),
{
    Vec2 { x: lerp_coord_exec(a.x, b.x, t), y: lerp_coord_exec(a.y, b.y, t) }
}

/// Whether `a` comes strictly before `b`.
pub fn segment_before(a: SegmentT, b: SegmentT) -> (r: bool)
    requires
        a.num <= 0x2000000000000000,
        a.den <= 0x2000000000000000,
        b.num <= 0x2000000000000000,
        b.den <= 0x2000000000000000,
    ensures
        r == a.before(b),
{
    assert(a.num * b.den <= 0x2000000000000000 * 0x2000000000000000) by (nonlinear_arith)
        requires
            a.num <= 0x2000000000000000,
            b.den <= 0x2000000000000000,
    ;
    assert(b.num * a.den <= 0x2000000000000000 * 0x2000000000000000) by (nonlinear_arith)
        requires
            b.num <= 0x2000000000000000,
            a.den <= 0x2000000000000000,
    ;
    (a.num as u128) * (b.den as u128) < (b.num as u128) * (a.den as u128)
}

/// A parameter small enough to compare and interpolate.
pub open spec fn small_t(t: SegmentT) -> bool {
    t.wf() && t.den <= 0x2000000000000000
}

/// Where the projectile's last step meets the target, and the entry wound.
pub fn collision_with(p: &Projectile, target: &Target) -> (r: Option<(SegmentT, Vec2)>)
    requires
        p.wf(),
        target.wf(),
    ensures
        r == collision_of(*p, *target),
        r matches Some((ct, entry)) ==> small_t(ct) && entry.in_range(),
{
    let start = p.previous_position;
    let end = p.position;
    if !target.collider.solid {
        return None;
    }
    if circle_point(target.collider.radius, target.position, start) {
        return Some((SegmentT { num: 0, den: 1 }, start));
    }
    match line_circle_intersection(start, end, target.collider.radius, target.position) {
        None => None,
        Some(roots) => {
            proof {
                let disc = discriminant(start, end, target.position, target.collider.radius as int);
                let s = choose|s: int| is_isqrt(disc, s) && roots.entry == -quad_b(start, end, target.position) - s && roots.exit == -quad_b(start, end, target.position) + s;
                lemma_sqrt_floor(disc, s);
                assert(quad_a(start, end) <= 0x800000000000000) by (nonlinear_arith)
                    requires
                        quad_a(start, end) == dist2(end, start),
                        -0x20000000 <= end.x - start.x <= 0x20000000,
                        -0x20000000 <= end.y - start.y <= 0x20000000,
                ;
            }
            if roots.entry < 0 || roots.entry > roots.den {
                None
            } else {
                let ct = SegmentT { num: roots.entry as u64, den: roots.den as u64 };
                Some((ct, lerp_exec(start, end, ct)))
            }
        },
    }
}

/// The first target whose collision with the projectile comes before
/// `best`; the scan stops there.
pub fn first_struck_target(p: &Projectile, targets: &Vec<Target>, best: Option<SegmentT>) -> (r: Option<(usize, SegmentT, Vec2)>)
    requires
        p.wf(),
        forall|i: int| 0 <= i < targets@.len() ==> #[trigger] targets@[i].wf(),
        best matches Some(b) ==> small_t(b),
    ensures
        match r {
            None => first_struck(*p, targets@, best, 0).is_none(),
            Some((i, ct, entry)) => {
                &&& first_struck(*p, targets@, best, 0) == Some(i as int)
                &&& i < targets@.len()
                &&& collision_of(*p, targets@[i as int]) == Some((ct, entry))
                &&& small_t(ct)
                &&& entry.in_range()
            },
        },
{
    let mut i: usize = 0;
    while i < targets.len()
        invariant
            p.wf(),
            0 <= i <= targets@.len(),
            forall|j: int| 0 <= j < targets@.len() ==> #[trigger] targets@[j].wf(),
            best matches Some(b) ==> small_t(b),
            first_struck(*p, targets@, best, 0) == first_struck(*p, targets@, best, i as int),
        decreases targets@.len() - i,
    {
        match collision_with(p, &targets[i]) {
            Some((ct, entry)) => {
                let wins = match best {
                    None => true,
                    Some(b) => segment_before(ct, b),
                };
                if wins {
                    return Some((i, ct, entry));
                }
            },
            None => {},
        }
        i = i + 1;
    }
    None
}

/// The wall tiles: a grid of `width` by `height` tiles, each `tile_width`
/// by `tile_height`, counted from `offset`; `occupied` holds each tile's
/// state row by row.
pub struct TileGrid {
    pub tile_width: u64,
    pub tile_height: u64,
    pub width: u32,
    pub height: u32,
    pub offset: Vec2,
    pub occupied: Vec<bool>,
}

impl TileGrid {
    pub open spec fn wf(&self) -> bool {
        &&& 1 <= self.tile_width <= MAX_COORD
        &&& 1 <= self.tile_height <= MAX_COORD
        &&& self.offset.in_range()
        &&& self.occupied@.len() == self.width * self.height
    }

    /// The tile lies within the grid and holds a wall.
    pub open spec fn occupied_at(&self, x: int, y: int) -> bool {
        &&& 0 <= x < self.width
        &&& 0 <= y < self.height
        &&& self.occupied@[y * self.width + x]
    }

    /// Whether tile `(x, y)` lies within the grid and holds a wall; tiles
    /// outside the grid hold none.
    pub fn is_occupied(&self, x: i64, y: i64) -> (r: bool)
        requires
            self.wf(),
        ensures
            r == self.occupied_at(x as int, y as int),
    {
        if x < 0 || y < 0 || x >= self.width as i64 || y >= self.height as i64 {
            return false;
        }
        let len = self.occupied.len();
        proof {
            assert(y * self.width + x < self.width * self.height) by (nonlinear_arith)
                requires
                    0 <= x < self.width,
                    0 <= y < self.height,
            ;
            assert(0 <= y * self.width <= y * self.width + x) by (nonlinear_arith)
                requires
                    0 <= x,
                    0 <= y,
            ;
        }
        let index: usize = (y as usize) * (self.width as usize) + (x as usize);
        self.occupied[index]
    }
}

/// The parameter of the first crossing, from `i` on, into a wall tile.
pub open spec fn first_wall(cs: Seq<GridIntersection>, grid: TileGrid, i: int) -> Option<SegmentT>
    decreases cs.len() - i,
{
    if i < 0 || i >= cs.len() {
        None
    } else if grid.occupied_at(cs[i].tile_x as int, cs[i].tile_y as int) {
        Some(cs[i].intersection_t)
    } else {
        first_wall(cs, grid, i + 1)
    }
}

/// The first of the crossings that enters a wall tile; tiles outside the
/// grid are passed over.
pub fn first_wall_hit(crossings: &Vec<GridIntersection>, grid: &TileGrid) -> (r: Option<SegmentT>)
    requires
        grid.wf(),
    ensures
        r == first_wall(crossings@, *grid, 0),
{
    let mut i: usize = 0;
    while i < crossings.len()
        invariant
            grid.wf(),
            0 <= i <= crossings@.len(),
            first_wall(crossings@, *grid, 0) == first_wall(crossings@, *grid, i as int),
        decreases crossings@.len() - i,
    {
        if grid.is_occupied(crossings[i].tile_x, crossings[i].tile_y) {
            return Some(crossings[i].intersection_t);
        }
        i = i + 1;
    }
    None
}

/// The hit a projectile deals with its entry wound at `entry`.
pub open spec fn hit_of(p: Projectile, entry: Vec2) -> Hit {
    let speed = speed_of(p.velocity);
    Hit {
        entry_point: entry,
        force: Vec2 { x: (p.velocity.x * p.mass) as i64, y: (p.velocity.y * p.mass) as i64 },
        damage: (speed * p.base_damage_per_speed) as u64,
        apply_force: true,
        blood_loss: (speed * p.mass * PROJECTILE_BLOOD_LOSS_PERCENT / 100) as u64,
    }
}

/// The speed of a velocity, rounded down.
pub fn speed(v: Vec2) -> (r: u64)
    requires
        v.in_range(),
    ensures
        r == speed_of(v),
        r <= 0x40000000,
{
    proof {
        assert(v.x * v.x <= 0x100000000000000 && v.y * v.y <= 0x100000000000000) by (nonlinear_arith)
            requires
                v.in_range(),
        ;
        assert(0 <= v.x * v.x && 0 <= v.y * v.y) by (nonlinear_arith);
    }
    let sq: u128 = (v.x as i128 * v.x as i128 + v.y as i128 * v.y as i128) as u128;
    let s = isqrt(sq);
    proof {
        lemma_sqrt_floor(dist2(v, Vec2 { x: 0, y: 0 }), s as int);
        assert(s <= 0x40000000) by (nonlinear_arith)
            requires
                (s as int) * (s as int) <= 0x200000000000000,
        ;
    }
    s
}

/// The hit that projectile `p` deals with its entry wound at `entry`.
pub fn make_hit(p: &Projectile, entry: Vec2) -> (r: Hit)
    requires
        p.wf(),
    ensures
        r == hit_of(*p, entry),
{
    let s = speed(p.velocity);
    proof {
        assert(-0x10000000 * 0x100000000 <= p.velocity.x * p.mass <= 0x10000000 * 0x100000000) by (nonlinear_arith)
            requires
                p.velocity.in_range(),
                p.mass <= 0xffffffff,
        ;
        assert(-0x10000000 * 0x100000000 <= p.velocity.y * p.mass <= 0x10000000 * 0x100000000) by (nonlinear_arith)
            requires
                p.velocity.in_range(),
                p.mass <= 0xffffffff,
        ;
        assert(s * p.base_damage_per_speed <= 0x40000000 * 0x100000000) by (nonlinear_arith)
            requires
                s <= 0x40000000,
                p.base_damage_per_speed <= 0xffffffff,
        ;
        assert(s * p.mass <= 0x40000000 * 0x100000000) by (nonlinear_arith)
            requires
                s <= 0x40000000,
                p.mass <= 0xffffffff,
        ;
    }
    let momentum: u64 = s * (p.mass as u64);
    Hit {
        entry_point: entry,
        force: Vec2 { x: p.velocity.x * (p.mass as i64), y: p.velocity.y * (p.mass as i64) },
        damage: s * (p.base_damage_per_speed as u64),
        apply_force: true,
        blood_loss: momentum * PROJECTILE_BLOOD_LOSS_PERCENT / 100,
    }
}

/// Where the projectile's last step first enters a wall tile, if anywhere.
pub open spec fn wall_of(p: Projectile, grid: TileGrid) -> Option<SegmentT> {
    first_wall(raycast_of(p.previous_position, p.position, grid.tile_width, grid.tile_height, grid.offset), grid, 0)
}

/// The target that the projectile strikes on its last step, if any: the
/// first, in order, whose collision comes before the wall.
pub open spec fn struck_target(p: Projectile, targets: Seq<Target>, grid: TileGrid) -> Option<int> {
    if p.destroyed {
        None
    } else {
        first_struck(p, targets, wall_of(p, grid), 0)
    }
}

/// The projectile after hit detection: cut back to the struck target's
/// collision, else to the wall, and marked destroyed; untouched where
/// nothing was struck or it was destroyed already.
pub open spec fn after_hits(p: Projectile, targets: Seq<Target>, grid: TileGrid) -> Projectile {
    if p.destroyed {
        p
    } else {
        match struck_target(p, targets, grid) {
            Some(i) => Projectile {
                position: lerp(p.previous_position, p.position, collision_of(p, targets[i]).unwrap().0),
                destroyed: true,
                ..p
            },
            None => match wall_of(p, grid) {
                Some(w) => Projectile { position: lerp(p.previous_position, p.position, w), destroyed: true, ..p },
                None => p,
            },
        }
    }
}

/// The hits that projectile `p` deals to target `j`: one where it strikes
/// it, none otherwise.
pub open spec fn hits_from(p: Projectile, targets: Seq<Target>, grid: TileGrid, j: int) -> Seq<Hit> {
    if struck_target(p, targets, grid) == Some(j) {
        seq![hit_of(p, collision_of(p, targets[j]).unwrap().1)]
    } else {
        seq![]
    }
}

/// The hits that the projectiles, in order, deal to target `j`.
pub open spec fn new_hits(ps: Seq<Projectile>, targets: Seq<Target>, grid: TileGrid, j: int) -> Seq<Hit>
    decreases ps.len(),
{
    if ps.len() == 0 {
        seq![]
    } else {
        new_hits(ps.drop_last(), targets, grid, j) + hits_from(ps.last(), targets, grid, j)
    }
}

/// Two target lists with the same bodies: positions and colliders.
pub open spec fn same_bodies(a: Seq<Target>, b: Seq<Target>) -> bool {
    &&& a.len() == b.len()
    &&& forall|j: int| 0 <= j < a.len() ==> (#[trigger] a[j]).position == b[j].position && a[j].collider == b[j].collider
}

proof fn lemma_same_bodies_struck(p: Projectile, a: Seq<Target>, b: Seq<Target>, best: Option<SegmentT>, i: int)
    requires
        same_bodies(a, b),
    ensures
        first_struck(p, a, best, i) == first_struck(p, b, best, i),
        0 <= i < a.len() ==> collision_of(p, a[i]) == collision_of(p, b[i]),
    decreases a.len() - i,
{
    if 0 <= i < a.len() {
        assert(a[i].position == b[i].position && a[i].collider == b[i].collider);
        lemma_same_bodies_struck(p, a, b, best, i + 1);
    }
}

proof fn lemma_same_bodies_outcome(p: Projectile, a: Seq<Target>, b: Seq<Target>, grid: TileGrid, j: int)
    requires
        same_bodies(a, b),
        0 <= j < a.len(),
    ensures
        struck_target(p, a, grid) == struck_target(p, b, grid),
        after_hits(p, a, grid) == after_hits(p, b, grid),
        hits_from(p, a, grid, j) == hits_from(p, b, grid, j),
{
    lemma_same_bodies_struck(p, a, b, wall_of(p, grid), 0);
    lemma_same_bodies_struck(p, a, b, wall_of(p, grid), j);
    match first_struck(p, a, wall_of(p, grid), 0) {
        Some(i) => {
            lemma_first_struck_range(p, a, wall_of(p, grid), 0);
            lemma_same_bodies_struck(p, a, b, wall_of(p, grid), i);
        },
        None => {},
    }
}

proof fn lemma_first_struck_range(p: Projectile, a: Seq<Target>, best: Option<SegmentT>, i: int)
    ensures
        first_struck(p, a, best, i) matches Some(k) ==> 0 <= k < a.len() && collision_of(p, a[k]).is_some(),
    decreases a.len() - i,
{
    if 0 <= i < a.len() {
        lemma_first_struck_range(p, a, best, i + 1);
    }
}

/// Appends `hit` to the hits of target `i`.
fn record_hit(targets: &mut Vec<Target>, i: usize, hit: Hit)
    requires
        i < old(targets)@.len(),
    ensures
        final(targets)@.len() == old(targets)@.len(),
        forall|j: int| 0 <= j < old(targets)@.len() && j != i ==> #[trigger] final(targets)@[j] == old(targets)@[j],
        final(targets)@[i as int].position == old(targets)@[i as int].position,
        final(targets)@[i as int].collider == old(targets)@[i as int].collider,
        final(targets)@[i as int].hits@ == old(targets)@[i as int].hits@.push(hit),
{
    let mut target = targets.remove(i);
    target.hits.push(hit);
    targets.insert(i, target);
    assert(forall|j: int| 0 <= j < old(targets)@.len() && j != i ==> #[trigger] targets@[j] == old(targets)@[j]);
}

/// Checks one projectile's last step, from its previous to its current
/// position, against the wall tiles and the targets. The first wall tile
/// crossed bounds the step; the first target, in order, struck before that
/// takes a hit. Where anything was struck, the projectile is cut back to the
/// point of impact and marked destroyed. Returns where the step met a wall.
#[verifier::rlimit(60)]
pub fn detect_hit(p: &mut Projectile, targets: &mut Vec<Target>, grid: &TileGrid) -> (wall: Option<SegmentT>)
    requires
        old(p).wf(),
        !old(p).destroyed,
        forall|i: int| 0 <= i < old(targets)@.len() ==> #[trigger] old(targets)@[i].wf(),
        grid.wf(),
    ensures
        wall == wall_of(*old(p), *grid),
        *final(p) == after_hits(*old(p), old(targets)@, *grid),
        final(p).wf(),
        same_bodies(final(targets)@, old(targets)@),
        forall|j: int| 0 <= j < final(targets)@.len() ==> (#[trigger] final(targets)@[j]).wf()
            && final(targets)@[j].hits@ == old(targets)@[j].hits@ + hits_from(*old(p), old(targets)@, *grid, j),
{
    let start = p.previous_position;
    let end = p.position;
    let crossings = new_grid_raycast(start, end, grid.tile_width, grid.tile_height, grid.offset);
    let wall = first_wall_hit(&crossings, grid);
    proof {
        lemma_raycast_unique(start, end, grid.tile_width, grid.tile_height, grid.offset, crossings@);
        assert(forall|j: int| 0 <= j < crossings@.len() ==> #[trigger] crossings@[j].intersection_t.den
            <= 0x2000000000000000);
        lemma_first_wall_in(crossings@, *grid, 0);
        assert(wall == wall_of(*old(p), *grid));
        assert(struck_target(*old(p), old(targets)@, *grid) == first_struck(*old(p), old(targets)@, wall, 0));
    }
    let struck = first_struck_target(p, targets, wall);
    let mut ray_hit_t = wall;
    match struck {
        Some((i, ct, entry)) => {
            let hit = make_hit(p, entry);
            record_hit(targets, i, hit);
            ray_hit_t = Some(ct);
            proof {
                assert forall|j: int| 0 <= j < targets@.len() implies (#[trigger] targets@[j]).wf()
                    && targets@[j].hits@ == old(targets)@[j].hits@ + hits_from(*old(p), old(targets)@, *grid, j) by {
                    assert(old(targets)@[j].wf());
                    if j != i {
                        assert(targets@[j] == old(targets)@[j]);
                        assert(old(targets)@[j].hits@ + seq![] =~= old(targets)@[j].hits@);
                    } else {
                        assert(old(targets)@[j].hits@.push(hit) =~= old(targets)@[j].hits@ + seq![hit]);
                    }
                }
            }
        },
        None => {
            proof {
                assert forall|j: int| 0 <= j < targets@.len() implies (#[trigger] targets@[j]).wf()
                    && targets@[j].hits@ == old(targets)@[j].hits@ + hits_from(*old(p), old(targets)@, *grid, j) by {
                    assert(old(targets)@[j].hits@ + seq![] =~= old(targets)@[j].hits@);
                }
            }
        },
    }
    match ray_hit_t {
        Some(t) => {
            p.position = lerp_exec(start, end, t);
            p.destroyed = true;
        },
        None => {},
    }
    wall
}

proof fn lemma_first_wall_in(cs: Seq<GridIntersection>, grid: TileGrid, i: int)
    requires
        forall|j: int| 0 <= j < cs.len() ==> #[trigger] cs[j].intersection_t.wf(),
        forall|j: int| 0 <= j < cs.len() ==> #[trigger] cs[j].intersection_t.den <= 0x2000000000000000,
    ensures
        first_wall(cs, grid, i) matches Some(w) ==> small_t(w),
    decreases cs.len() - i,
{
    if 0 <= i < cs.len() && !grid.occupied_at(cs[i].tile_x as int, cs[i].tile_y as int) {
        lemma_first_wall_in(cs, grid, i + 1);
    }
}

/// Runs hit detection on every projectile not yet destroyed, in order: each
/// ends as `after_hits` gives, and each target gains, in order, the hits
/// that the projectiles deal it.
pub fn detect_hits(projectiles: &mut Vec<Projectile>, targets: &mut Vec<Target>, grid: &TileGrid)
    requires
        forall|i: int| 0 <= i < old(projectiles)@.len() ==> #[trigger] old(projectiles)@[i].wf(),
        forall|i: int| 0 <= i < old(targets)@.len() ==> #[trigger] old(targets)@[i].wf(),
        grid.wf(),
    ensures
        final(projectiles)@.len() == old(projectiles)@.len(),
        forall|i: int| 0 <= i < final(projectiles)@.len() ==> {
            &&& (#[trigger] final(projectiles)@[i]).wf()
            &&& final(projectiles)@[i] == after_hits(old(projectiles)@[i], old(targets)@, *grid)
        },
        same_bodies(final(targets)@, old(targets)@),
        forall|j: int| 0 <= j < final(targets)@.len() ==> {
            &&& (#[trigger] final(targets)@[j]).wf()
            &&& final(targets)@[j].hits@ == old(targets)@[j].hits@ + new_hits(old(projectiles)@, old(targets)@, *grid, j)
        },
{
    let ghost ps0 = projectiles@;
    let ghost ts0 = targets@;
    let mut i: usize = 0;
    assert forall|j: int| 0 <= j < targets@.len() implies targets@[j].hits@ == ts0[j].hits@ + new_hits(
        ps0.subrange(0, 0),
        ts0,
        *grid,
        j,
    ) by {
        assert(ts0[j].hits@ + seq![] =~= ts0[j].hits@);
    }
    while i < projectiles.len()
        invariant
            grid.wf(),
            0 <= i <= projectiles@.len(),
            projectiles@.len() == ps0.len(),
            forall|k: int| 0 <= k < projectiles@.len() ==> (#[trigger] projectiles@[k]).wf(),
            forall|k: int| i <= k < projectiles@.len() ==> #[trigger] projectiles@[k] == ps0[k],
            forall|k: int| 0 <= k < i ==> #[trigger] projectiles@[k] == after_hits(ps0[k], ts0, *grid),
            same_bodies(targets@, ts0),
            forall|j: int| 0 <= j < targets@.len() ==> {
                &&& (#[trigger] targets@[j]).wf()
                &&& targets@[j].hits@ == ts0[j].hits@ + new_hits(ps0.subrange(0, i as int), ts0, *grid, j)
            },
        decreases projectiles@.len() - i,
    {
        let mut p = projectiles[i];
        let ghost ts1 = targets@;
        proof {
            assert(ps0.subrange(0, i + 1).drop_last() =~= ps0.subrange(0, i as int));
            assert(ps0.subrange(0, i + 1).last() == p);
        }
        if !p.destroyed {
            detect_hit(&mut p, targets, grid);
            proof {
                assert forall|j: int| 0 <= j < targets@.len() implies targets@[j].hits@ == ts0[j].hits@ + new_hits(
                    ps0.subrange(0, i + 1),
                    ts0,
                    *grid,
                    j,
                ) by {
                    lemma_same_bodies_outcome(ps0[i as int], ts1, ts0, *grid, j);
                    assert(ts0[j].hits@ + new_hits(ps0.subrange(0, i as int), ts0, *grid, j) + hits_from(
                        ps0[i as int],
                        ts0,
                        *grid,
                        j,
                    ) =~= ts0[j].hits@ + (new_hits(ps0.subrange(0, i as int), ts0, *grid, j) + hits_from(
                        ps0[i as int],
                        ts0,
                        *grid,
                        j,
                    )));
                }
                if ts1.len() > 0 {
                    lemma_same_bodies_outcome(ps0[i as int], ts1, ts0, *grid, 0);
                } else {
                    assert(after_hits(ps0[i as int], ts1, *grid) == after_hits(ps0[i as int], ts0, *grid)) by {
                        lemma_same_bodies_struck(ps0[i as int], ts1, ts0, wall_of(ps0[i as int], *grid), 0);
                    }
                }
            }
            projectiles.set(i, p);
        } else {
            proof {
                assert forall|j: int| 0 <= j < targets@.len() implies targets@[j].hits@ == ts0[j].hits@ + new_hits(
                    ps0.subrange(0, i + 1),
                    ts0,
                    *grid,
                    j,
                ) by {
                    assert(new_hits(ps0.subrange(0, i as int), ts0, *grid, j) + seq![] =~= new_hits(
                        ps0.subrange(0, i as int),
                        ts0,
                        *grid,
                        j,
                    ));
                }
            }
        }
        i = i + 1;
    }
    assert(ps0.subrange(0, ps0.len() as int) =~= ps0);
}

/// Every natural number has an integer square root.
pub proof fn lemma_isqrt_exists(n: int)
    requires
        n >= 0,
    ensures
        is_isqrt(n, sqrt_floor(n)),
    decreases n,
{
    if n == 0 {
        assert(is_isqrt(0, 0));
    } else {
        lemma_isqrt_exists(n - 1);
        let s = sqrt_floor(n - 1);
        if (s + 1) * (s + 1) <= n {
            assert(n < (s + 2) * (s + 2)) by (nonlinear_arith)
                requires
                    n - 1 < (s + 1) * (s + 1),
                    (s + 1) * (s + 1) <= n,
                    s >= 0,
            ;
            assert(is_isqrt(n, s + 1));
        } else {
            assert(is_isqrt(n, s));
        }
    }
}

/// A projectile whose last step starts strictly inside a solid target's
/// circle strikes it at the very start of the step: the collision parameter
/// is zero, and the entry wound and the point it is cut back to are its
/// previous position.
pub proof fn lemma_point_blank(p: Projectile, target: Target)
    requires
        p.wf(),
        target.collider.solid,
        dist2(p.previous_position, target.position) < target.collider.radius * target.collider.radius,
    ensures
        collision_of(p, target) == Some((SegmentT { num: 0, den: 1 }, p.previous_position)),
        lerp(p.previous_position, p.position, SegmentT { num: 0, den: 1 }) == p.previous_position,
{
}

/// Where hit detection picks a target that the projectile's last step
/// starts strictly inside, the hit's entry wound is the previous position,
/// and the projectile is cut back to it.
pub proof fn lemma_point_blank_hit(p: Projectile, targets: Seq<Target>, grid: TileGrid, j: int)
    requires
        p.wf(),
        0 <= j < targets.len(),
        struck_target(p, targets, grid) == Some(j),
        dist2(p.previous_position, targets[j].position) < targets[j].collider.radius * targets[j].collider.radius,
    ensures
        hits_from(p, targets, grid, j) == seq![hit_of(p, p.previous_position)],
        after_hits(p, targets, grid).position == p.previous_position,
        after_hits(p, targets, grid).destroyed,
{
    lemma_first_struck_range(p, targets, wall_of(p, grid), 0);
    assert(targets[j].collider.solid);
    lemma_point_blank(p, targets[j]);
}

} // verus!
