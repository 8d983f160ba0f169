use vstd::prelude::*;

verus! {

/// The largest coordinate magnitude the geometry accepts, in length units.
pub const MAX_COORD: i64 = 268435456;

/// A point or vector of the world, in integer length units.
#[derive(Clone, Copy, PartialEq, Eq, Structural, Debug)]
pub struct Vec2 {
    pub x: i64,
    pub y: i64,
}

impl Vec2 {
    /// Both coordinates lie within `MAX_COORD` of zero.
    pub open spec fn in_range(self) -> bool {
        &&& -MAX_COORD <= self.x <= MAX_COORD
        &&& -MAX_COORD <= self.y <= MAX_COORD
    }
}

/// Squared distance between two points.
pub open spec fn dist2(a: Vec2, b: Vec2) -> int {
    (a.x - b.x) * (a.x - b.x) + (a.y - b.y) * (a.y - b.y)
}

/// `s` is the integer square root of `n`.
pub open spec fn is_isqrt(n: int, s: int) -> bool {
    &&& 0 <= s
    &&& s * s <= n
    &&& n < (s + 1) * (s + 1)
}

/// The largest integer whose square is at most `n`.
pub fn isqrt(n: u128) -> (s: u64)
    requires
        n < 0x10000000000000000000000000000000u128,
    ensures
        is_isqrt(n as int, s as int),
{
    let mut lo: u64 = 0;
    let mut hi: u64 = 0x4000000000000000u64;
    assert((hi as int) * (hi as int) == 0x10000000000000000000000000000000int) by (nonlinear_arith)
        requires
            hi == 0x4000000000000000int,
    ;
    while hi - lo > 1
        invariant
            lo < hi <= 0x4000000000000000u64,
            (lo as int) * (lo as int) <= n,
            n < (hi as int) * (hi as int),
        decreases hi - lo,
    {
        let mid: u64 = lo + (hi - lo) / 2;
        assert((mid as int) * (mid as int) <= 0x10000000000000000000000000000000int) by (nonlinear_arith)
            requires
                mid < hi <= 0x4000000000000000int,
        ;
        let sq: u128 = (mid as u128) * (mid as u128);
        if sq <= n {
            lo = mid;
        } else {
            hi = mid;
        }
    }
    assert(hi == lo + 1);
    lo
}

/// Whether `point` lies in the circle of `radius` round `center`, boundary included.
pub fn circle_point(radius: u64, center: Vec2, point: Vec2) -> (r: bool)
    requires
        center.in_range(),
        point.in_range(),
        radius <= MAX_COORD,
    ensures
        r == (dist2(point, center) <= radius * radius),
{
    let dx: i128 = point.x as i128 - center.x as i128;
    let dy: i128 = point.y as i128 - center.y as i128;
    proof {
        lemma_square_bound(dx as int);
        lemma_square_bound(dy as int);
        lemma_square_bound(radius as int);
    }
    let rr: i128 = (radius as i128) * (radius as i128);
    dx * dx + dy * dy <= rr
}

proof fn lemma_square_bound(v: int)
    requires
        -0x20000000 <= v <= 0x20000000,
    ensures
        0 <= v * v <= 0x400000000000000,
{
    assert(0 <= v * v <= 0x400000000000000) by (nonlinear_arith)
        requires
            -0x20000000 <= v <= 0x20000000,
    ;
}

proof fn lemma_product_bound(u: int, v: int)
    requires
        -0x20000000 <= u <= 0x20000000,
        -0x20000000 <= v <= 0x20000000,
    ensures
        -0x400000000000000 <= u * v <= 0x400000000000000,
{
    assert(-0x400000000000000 <= u * v <= 0x400000000000000) by (nonlinear_arith)
        requires
            -0x20000000 <= u <= 0x20000000,
            -0x20000000 <= v <= 0x20000000,
    ;
}

/// The quadratic `a t² + b t + c` whose roots are where the segment from
/// `start` to `end` meets the circle.
pub open spec fn quad_a(start: Vec2, end: Vec2) -> int {
    dist2(end, start)
}

pub open spec fn quad_b(start: Vec2, end: Vec2, center: Vec2) -> int {
    2 * ((start.x - center.x) * (end.x - start.x) + (start.y - center.y) * (end.y - start.y))
}

pub open spec fn quad_c(start: Vec2, center: Vec2, radius: int) -> int {
    dist2(start, center) - radius * radius
}

pub open spec fn discriminant(start: Vec2, end: Vec2, center: Vec2, radius: int) -> int {
    quad_b(start, end, center) * quad_b(start, end, center) - 4 * quad_a(start, end) * quad_c(start, center, radius)
}

/// The two roots of a segment and a circle, as segment parameters
/// `entry / den` and `exit / den`.
#[derive(Clone, Copy, PartialEq, Eq, Structural, Debug)]
pub struct Roots {
    pub entry: i128,
    pub exit: i128,
    pub den: i128,
}

/// The roots where the segment's line meets the circle, the square root of
/// the discriminant taken as its integer square root; `None` where the line
/// misses the circle or the segment has no length.
pub fn line_circle_intersection(start: Vec2, end: Vec2, radius: u64, center: Vec2) -> (r: Option<Roots>)
    requires
        start.in_range(),
        end.in_range(),
        center.in_range(),
        radius <= MAX_COORD,
    ensures
        ({
            let a = quad_a(start, end);
            let b = quad_b(start, end, center);
            let disc = discriminant(start, end, center, radius as int);
            match r {
                None => a == 0 || disc < 0,
                Some(roots) => a != 0 && disc >= 0 && roots.den == 2 * a && exists|s: int|
                    is_isqrt(disc, s) && roots.entry == -b - s && roots.exit == -b + s,
            }
        }),
{
    let dx: i128 = end.x as i128 - start.x as i128;
    let dy: i128 = end.y as i128 - start.y as i128;
    let fx: i128 = start.x as i128 - center.x as i128;
    let fy: i128 = start.y as i128 - center.y as i128;
    proof {
        lemma_square_bound(dx as int);
        lemma_square_bound(dy as int);
        lemma_square_bound(fx as int);
        lemma_square_bound(fy as int);
        lemma_square_bound(radius as int);
        lemma_product_bound(fx as int, dx as int);
        lemma_product_bound(fy as int, dy as int);
    }
    let a: i128 = dx * dx + dy * dy;
    let b: i128 = 2 * (fx * dx + fy * dy);
    let rr: i128 = (radius as i128) * (radius as i128);
    let c: i128 = fx * fx + fy * fy - rr;
    proof {
        assert(0 <= b * b <= 0x1000000000000000000000000000000int) by (nonlinear_arith)
            requires
                -0x1000000000000000int <= b <= 0x1000000000000000int,
        ;
        assert(-0x1000000000000000000000000000000int <= 4 * a * c <= 0x1000000000000000000000000000000int)
            by (nonlinear_arith)
            requires
                0 <= a <= 0x800000000000000int,
                -0x800000000000000int <= c <= 0x800000000000000int,
        ;
    }
    if a == 0 {
        return None;
    }
    let disc: i128 = b * b - 4 * a * c;
    if disc < 0 {
        return None;
    }
    let s: u64 = isqrt(disc as u128);
    proof {
        assert(is_isqrt(disc as int, s as int));
        assert((s as int) * (s as int) <= disc);
        assert(s < 0x2000000000000000) by (nonlinear_arith)
            requires
                (s as int) * (s as int) <= disc,
                disc <= 0x2000000000000000000000000000000int,
        ;
    }
    Some(Roots { entry: -b - s as i128, exit: -b + s as i128, den: 2 * a })
}

} // verus!
