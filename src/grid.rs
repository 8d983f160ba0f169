use vstd::prelude::*;
use crate::geometry::{Vec2, MAX_COORD};

verus! {

/// A parameter `num / den` along a segment: 0 at its start, 1 at its end.
#[derive(Clone, Copy, PartialEq, Eq, Structural, Debug)]
pub struct SegmentT {
    pub num: u64,
    pub den: u64,
}

impl SegmentT {
    pub open spec fn wf(self) -> bool {
        self.den > 0 && self.num <= self.den
    }

    /// `self` comes strictly before `other` along the segment.
    pub open spec fn before(self, other: SegmentT) -> bool {
        self.num * other.den < other.num * self.den
    }
}

/// The tile that a segment enters at `intersection_t`.
#[derive(Clone, Copy, PartialEq, Eq, Structural, Debug)]
pub struct GridIntersection {
    pub tile_x: i64,
    pub tile_y: i64,
    pub intersection_t: SegmentT,
}

/// The tile index along one axis of the coordinate `x`, tiles of `size`
/// starting at `origin`.
pub open spec fn tile_of(x: int, origin: int, size: int) -> int {
    (x - origin) / size
}

/// The tile a segment along one axis occupies just after its start: moving
/// down from a tile's lower edge it is already in the tile below.
pub open spec fn first_tile(x0: int, x1: int, origin: int, size: int) -> int {
    if x1 < x0 {
        tile_of(x0 - 1, origin, size)
    } else {
        tile_of(x0, origin, size)
    }
}

/// The tile a segment along one axis occupies just before its end.
pub open spec fn last_tile(x0: int, x1: int, origin: int, size: int) -> int {
    if x1 > x0 {
        tile_of(x1 - 1, origin, size)
    } else {
        tile_of(x1, origin, size)
    }
}

/// The extent of a segment along one axis, or 1 where it has none.
pub open spec fn extent(x0: int, x1: int) -> int {
    if x1 > x0 {
        x1 - x0
    } else if x1 < x0 {
        x0 - x1
    } else {
        1
    }
}

/// The common denominator of the parameters of a raycast.
pub open spec fn raycast_den(start: Vec2, end: Vec2) -> int {
    extent(start.x as int, end.x as int) * extent(start.y as int, end.y as int)
}

/// The tile index `t` changes by one step in the direction from `x0` to `x1`, or not at all.
pub open spec fn steps_toward(x0: int, x1: int, a: int, b: int) -> bool {
    if x1 > x0 {
        b == a || b == a + 1
    } else if x1 < x0 {
        b == a || b == a - 1
    } else {
        b == a
    }
}

proof fn lemma_floor(a: int, w: int)
    requires
        w > 0,
    ensures
        (a / w) * w <= a < (a / w) * w + w,
{
    vstd::arithmetic::div_mod::lemma_fundamental_div_mod(a, w);
    assert(0 <= a % w < w);
    assert((a / w) * w == w * (a / w)) by (nonlinear_arith);
}

proof fn lemma_floor_monotonic(a: int, b: int, w: int)
    requires
        w > 0,
        a <= b,
    ensures
        a / w <= b / w,
{
    lemma_floor(a, w);
    lemma_floor(b, w);
    assert(a / w <= b / w) by (nonlinear_arith)
        requires
            w > 0,
            a <= b,
            (a / w) * w <= a,
            b < (b / w) * w + w,
    ;
}

/// `a / w` rounded down, as the spec's `/` does.
fn floor_div(a: i64, w: u64) -> (r: i64)
    requires
        0 < w <= 0x40000000,
        -0x40000000 <= a <= 0x40000000,
    ensures
        r == (a as int) / (w as int),
{
    if a >= 0 {
        (a as u64 / w) as i64
    } else {
        let m: u64 = (-a) as u64;
        let q: u64 = (m + w - 1) / w;
        proof {
            lemma_floor((m + w - 1) as int, w as int);
            let qq = q as int;
            assert(qq * w <= m + w - 1 < qq * w + w);
            assert((-qq) * (w as int) == -(qq * w)) by (nonlinear_arith);
            assert(a == (-qq) * (w as int) + (qq * w - m));
            vstd::arithmetic::div_mod::lemma_fundamental_div_mod_converse_div(
                a as int,
                w as int,
                -qq,
                qq * w - m,
            );
            assert(qq <= m) by (nonlinear_arith)
                requires
                    qq * w <= m + w - 1,
                    w >= 1,
                    m >= 1,
            ;
        }
        -(q as i64)
    }
}

/// The walk along one axis: it stands in `tile`, between the first and the
/// last tile, and leaves it at the parameter whose numerator is `next`, over
/// a denominator of the axis's extent times `other`.
pub open spec fn axis_ok(x0: int, x1: int, origin: int, size: int, other: int, tile: int, next: int) -> bool {
    if x1 > x0 {
        let edge = origin + (tile + 1) * size;
        &&& next == (edge - x0) * other
        &&& x0 < edge
        &&& first_tile(x0, x1, origin, size) <= tile <= last_tile(x0, x1, origin, size)
    } else if x1 < x0 {
        let edge = origin + tile * size;
        &&& next == (x0 - edge) * other
        &&& edge < x0
        &&& last_tile(x0, x1, origin, size) <= tile <= first_tile(x0, x1, origin, size)
    } else {
        tile == first_tile(x0, x1, origin, size) && tile == last_tile(x0, x1, origin, size)
    }
}

proof fn lemma_axis_bound(x0: int, x1: int, origin: int, size: int, other: int, tile: int, next: int)
    requires
        size > 0,
        other > 0,
        axis_ok(x0, x1, origin, size, other, tile, next),
        tile != last_tile(x0, x1, origin, size),
    ensures
        0 < next < extent(x0, x1) * other,
{
    let last = last_tile(x0, x1, origin, size);
    if x1 > x0 {
        lemma_floor(x1 - 1 - origin, size);
        let edge = origin + (tile + 1) * size;
        assert((tile + 1) * size <= last * size) by (nonlinear_arith)
            requires
                tile < last,
                size > 0,
        ;
        assert(0 < (edge - x0) * other < (x1 - x0) * other) by (nonlinear_arith)
            requires
                0 < edge - x0 < x1 - x0,
                other > 0,
        ;
    } else {
        lemma_floor(x1 - origin, size);
        let edge = origin + tile * size;
        assert((last + 1) * size <= tile * size) by (nonlinear_arith)
            requires
                last < tile,
                size > 0,
        ;
        assert((last + 1) * size == last * size + size) by (nonlinear_arith);
        assert(edge > x1);
        assert(0 < (x0 - edge) * other < (x0 - x1) * other) by (nonlinear_arith)
            requires
                0 < x0 - edge < x0 - x1,
                other > 0,
        ;
    }
}

proof fn lemma_axis_last(x0: int, x1: int, origin: int, size: int, other: int, tile: int, next: int)
    requires
        size > 0,
        other > 0,
        x1 != x0,
        axis_ok(x0, x1, origin, size, other, tile, next),
        tile == last_tile(x0, x1, origin, size),
    ensures
        next >= extent(x0, x1) * other,
{
    if x1 > x0 {
        lemma_floor(x1 - 1 - origin, size);
        let edge = origin + (tile + 1) * size;
        assert((tile + 1) * size == tile * size + size) by (nonlinear_arith);
        assert((edge - x0) * other >= (x1 - x0) * other) by (nonlinear_arith)
            requires
                edge - x0 >= x1 - x0,
                other > 0,
        ;
    } else {
        lemma_floor(x1 - origin, size);
        let edge = origin + tile * size;
        assert((x0 - edge) * other >= (x0 - x1) * other) by (nonlinear_arith)
            requires
                x0 - edge >= x0 - x1,
                other > 0,
        ;
    }
}

proof fn lemma_axis_step(x0: int, x1: int, origin: int, size: int, other: int, tile: int, next: int)
    requires
        size > 0,
        other > 0,
        axis_ok(x0, x1, origin, size, other, tile, next),
        tile != last_tile(x0, x1, origin, size),
    ensures
        x1 > x0 ==> axis_ok(x0, x1, origin, size, other, tile + 1, next + size * other),
        x1 < x0 ==> axis_ok(x0, x1, origin, size, other, tile - 1, next + size * other),
        x1 != x0,
{
    if x1 > x0 {
        let edge = origin + (tile + 1) * size;
        assert((origin + (tile + 2) * size - x0) * other == (edge - x0) * other + size * other)
            by (nonlinear_arith)
            requires
                edge == origin + (tile + 1) * size,
        ;
        assert(origin + (tile + 2) * size == edge + size) by (nonlinear_arith)
            requires
                edge == origin + (tile + 1) * size,
        ;
    } else if x1 < x0 {
        let edge = origin + tile * size;
        assert((x0 - (origin + (tile - 1) * size)) * other == (x0 - edge) * other + size * other)
            by (nonlinear_arith)
            requires
                edge == origin + tile * size,
        ;
        assert(origin + (tile - 1) * size == edge - size) by (nonlinear_arith)
            requires
                edge == origin + tile * size,
        ;
    }
}

/// The first tile of one axis and the numerator at which the walk leaves it.
fn axis_start(x0: i64, x1: i64, origin: i64, size: u64, other: u64) -> (r: (i64, u64))
    requires
        -MAX_COORD <= x0 <= MAX_COORD,
        -MAX_COORD <= x1 <= MAX_COORD,
        -MAX_COORD <= origin <= MAX_COORD,
        1 <= size <= MAX_COORD,
        1 <= other <= 0x20000000,
    ensures
        r.0 == first_tile(x0 as int, x1 as int, origin as int, size as int),
        axis_ok(x0 as int, x1 as int, origin as int, size as int, other as int, r.0 as int, r.1 as int),
        -0x40000000 <= r.0 <= 0x40000000,
        x1 != x0 ==> r.1 <= size * other,
{
    let ghost s = size as int;
    let ghost o = origin as int;
    proof {
        lemma_floor(x0 - o, s);
        lemma_floor(x0 - 1 - o, s);
        lemma_floor(x1 - o, s);
        lemma_floor(x1 - 1 - o, s);
        assert(-0x40000000 <= (x0 - o) / s <= 0x40000000) by (nonlinear_arith)
            requires
                s >= 1,
                ((x0 - o) / s) * s <= x0 - o < ((x0 - o) / s) * s + s,
                -0x20000000 <= x0 - o <= 0x20000000,
        ;
        assert(-0x40000000 <= (x0 - 1 - o) / s <= 0x40000000) by (nonlinear_arith)
            requires
                s >= 1,
                ((x0 - 1 - o) / s) * s <= x0 - 1 - o < ((x0 - 1 - o) / s) * s + s,
                -0x20000001 <= x0 - 1 - o <= 0x20000000,
        ;
    }
    if x1 > x0 {
        let tile = floor_div(x0 - origin, size);
        proof {
            lemma_floor_monotonic(x0 - o, x1 - 1 - o, s);
            assert(0 < (tile + 1) * s - (x0 - o) <= s) by (nonlinear_arith)
                requires
                    tile * s <= x0 - o < tile * s + s,
            ;
            assert(((tile + 1) * s - (x0 - o)) * other <= s * other) by (nonlinear_arith)
                requires
                    (tile + 1) * s - (x0 - o) <= s,
                    other >= 1,
            ;
            assert(s * other <= 0x20000000 * 0x20000000) by (nonlinear_arith)
                requires
                    s <= 0x20000000,
                    other <= 0x20000000,
            ;
        }
        let gap: u64 = ((tile as i128 + 1) * (size as i128) - (x0 as i128 - origin as i128)) as u64;
        (tile, gap * other)
    } else if x1 < x0 {
        let tile = floor_div(x0 - 1 - origin, size);
        proof {
            lemma_floor_monotonic(x1 - o, x0 - 1 - o, s);
            assert(0 < (x0 - o) - tile * s <= s) by (nonlinear_arith)
                requires
                    tile * s <= x0 - 1 - o < tile * s + s,
            ;
            assert(((x0 - o) - tile * s) * other <= s * other) by (nonlinear_arith)
                requires
                    (x0 - o) - tile * s <= s,
                    other >= 1,
            ;
            assert(s * other <= 0x20000000 * 0x20000000) by (nonlinear_arith)
                requires
                    s <= 0x20000000,
                    other <= 0x20000000,
            ;
        }
        let gap: u64 = ((x0 as i128 - origin as i128) - (tile as i128) * (size as i128)) as u64;
        (tile, gap * other)
    } else {
        (floor_div(x0 - origin, size), 0)
    }
}

fn extent_of(x0: i64, x1: i64) -> (r: u64)
    requires
        -MAX_COORD <= x0 <= MAX_COORD,
        -MAX_COORD <= x1 <= MAX_COORD,
    ensures
        r == extent(x0 as int, x1 as int),
        1 <= r <= 0x20000000,
{
    if x1 > x0 {
        (x1 - x0) as u64
    } else if x1 < x0 {
        (x0 - x1) as u64
    } else {
        1
    }
}

fn direction(x0: i64, x1: i64) -> (r: i64)
    ensures
        r == if x1 > x0 { 1int } else if x1 < x0 { -1int } else { 0int },
{
    if x1 > x0 {
        1
    } else if x1 < x0 {
        -1
    } else {
        0
    }
}

/// The numerator of the parameter at which a walk along one axis leaves
/// `tile`, over a denominator of the axis's extent times `other`.
pub open spec fn next_edge(x0: int, x1: int, origin: int, size: int, other: int, tile: int) -> int {
    if x1 > x0 {
        (origin + (tile + 1) * size - x0) * other
    } else if x1 < x0 {
        (x0 - (origin + tile * size)) * other
    } else {
        0
    }
}

/// The direction of a segment along one axis.
pub open spec fn dir_of(x0: int, x1: int) -> int {
    if x1 > x0 {
        1
    } else if x1 < x0 {
        -1
    } else {
        0
    }
}

/// `b` is the crossing after `a`: the segment leaves `a`'s tile through the
/// edge it meets first, and enters the tile beyond it; where it meets an x
/// edge and a y edge at once, it enters the tile diagonally beyond both. An
/// axis whose last tile is reached has no more edges.
pub open spec fn raycast_step(
    start: Vec2,
    end: Vec2,
    tile_width: u64,
    tile_height: u64,
    offset: Vec2,
    a: GridIntersection,
    b: GridIntersection,
) -> bool {
    let x0 = start.x as int;
    let x1 = end.x as int;
    let y0 = start.y as int;
    let y1 = end.y as int;
    let ox = offset.x as int;
    let oy = offset.y as int;
    let w = tile_width as int;
    let h = tile_height as int;
    let nx = next_edge(x0, x1, ox, w, extent(y0, y1), a.tile_x as int);
    let ny = next_edge(y0, y1, oy, h, extent(x0, x1), a.tile_y as int);
    let vx = a.tile_x != last_tile(x0, x1, ox, w);
    let vy = a.tile_y != last_tile(y0, y1, oy, h);
    let t = if vx && (!vy || nx <= ny) {
        nx
    } else {
        ny
    };
    let sx = vx && t == nx;
    let sy = vy && t == ny;
    &&& b.tile_x == a.tile_x + (if sx { dir_of(x0, x1) } else { 0 })
    &&& b.tile_y == a.tile_y + (if sy { dir_of(y0, y1) } else { 0 })
    &&& b.intersection_t.num == t
    &&& b.intersection_t.den == a.intersection_t.den
}

proof fn lemma_step_intro(
    start: Vec2,
    end: Vec2,
    tile_width: u64,
    tile_height: u64,
    offset: Vec2,
    a: GridIntersection,
    b: GridIntersection,
    nx: int,
    ny: int,
    vx: bool,
    vy: bool,
    t: int,
)
    requires
        nx == next_edge(start.x as int, end.x as int, offset.x as int, tile_width as int, extent(start.y as int, end.y as int), a.tile_x as int),
        ny == next_edge(start.y as int, end.y as int, offset.y as int, tile_height as int, extent(start.x as int, end.x as int), a.tile_y as int),
        vx == (a.tile_x != last_tile(start.x as int, end.x as int, offset.x as int, tile_width as int)),
        vy == (a.tile_y != last_tile(start.y as int, end.y as int, offset.y as int, tile_height as int)),
        t == if vx && (!vy || nx <= ny) { nx } else { ny },
        b.tile_x == a.tile_x + (if vx && t == nx { dir_of(start.x as int, end.x as int) } else { 0 }),
        b.tile_y == a.tile_y + (if vy && t == ny { dir_of(start.y as int, end.y as int) } else { 0 }),
        b.intersection_t.num == t,
        b.intersection_t.den == a.intersection_t.den,
    ensures
        raycast_step(start, end, tile_width, tile_height, offset, a, b),
{
}

/// `a` stands in the segment's last tile.
pub open spec fn at_last_tile(start: Vec2, end: Vec2, tile_width: u64, tile_height: u64, offset: Vec2, a: GridIntersection) -> bool {
    &&& a.tile_x == last_tile(start.x as int, end.x as int, offset.x as int, tile_width as int)
    &&& a.tile_y == last_tile(start.y as int, end.y as int, offset.y as int, tile_height as int)
}

/// Along one axis, the segment stays within `tile`, edges included, for
/// parameters from `from` to `to` (numerators over the raycast's
/// denominator): it enters the tile no later than `from` and leaves it no
/// earlier than `to`.
pub open spec fn axis_covers(x0: int, x1: int, origin: int, size: int, other: int, tile: int, from: int, to: int) -> bool {
    if x1 != x0 {
        &&& next_edge(x0, x1, origin, size, other, tile) - size * other <= from
        &&& to <= next_edge(x0, x1, origin, size, other, tile)
    } else {
        tile == tile_of(x0, origin, size)
    }
}

/// The segment stays within `c`'s tile from `c`'s parameter up to `to`.
pub open spec fn covers(start: Vec2, end: Vec2, tile_width: u64, tile_height: u64, offset: Vec2, c: GridIntersection, to: int) -> bool {
    let x0 = start.x as int;
    let x1 = end.x as int;
    let y0 = start.y as int;
    let y1 = end.y as int;
    &&& axis_covers(x0, x1, offset.x as int, tile_width as int, extent(y0, y1), c.tile_x as int, c.intersection_t.num as int, to)
    &&& axis_covers(y0, y1, offset.y as int, tile_height as int, extent(x0, x1), c.tile_y as int, c.intersection_t.num as int, to)
}

/// The crossings cover the whole segment: from each crossing's parameter
/// to the next one's, and from the last one's to the segment's end, the
/// segment lies within that crossing's tile.
pub open spec fn raycast_covers(start: Vec2, end: Vec2, tile_width: u64, tile_height: u64, offset: Vec2, r: Seq<GridIntersection>) -> bool {
    forall|i: int| 0 <= i < r.len() ==> covers(
        start,
        end,
        tile_width,
        tile_height,
        offset,
        #[trigger] r[i],
        if i + 1 < r.len() { r[i + 1].intersection_t.num as int } else { raycast_den(start, end) },
    )
}

/// `r` lists the tiles that the segment from `start` to `end` passes
/// through: it starts in the segment's first tile at parameter 0, each next
/// crossing follows the one before by `raycast_step`, and it stops at the first
/// crossing into the segment's last tile. So each tile is one step on, in the
/// segment's direction along one axis or both, at a strictly later parameter,
/// and every parameter lies within the segment, over one common denominator.
pub open spec fn is_raycast(start: Vec2, end: Vec2, tile_width: u64, tile_height: u64, offset: Vec2, r: Seq<GridIntersection>) -> bool {
    let (x0, x1, y0, y1) = (start.x as int, end.x as int, start.y as int, end.y as int);
    let (ox, oy, w, h) = (offset.x as int, offset.y as int, tile_width as int, tile_height as int);
    let den = raycast_den(start, end);
    &&& r.len() >= 1
    &&& 1 <= den <= 0x400000000000000
    &&& r[0].tile_x == first_tile(x0, x1, ox, w)
    &&& r[0].tile_y == first_tile(y0, y1, oy, h)
    &&& r[0].intersection_t.num == 0
    &&& r.last().tile_x == last_tile(x0, x1, ox, w)
    &&& r.last().tile_y == last_tile(y0, y1, oy, h)
    &&& forall|i: int| 0 <= i < r.len() ==> {
        &&& r[i].intersection_t.wf()
        &&& r[i].intersection_t.den == den
    }
    &&& forall|i: int| #![trigger r[i]] 0 <= i < r.len() - 1 ==> {
        &&& raycast_step(start, end, tile_width, tile_height, offset, r[i], r[i + 1])
        &&& !at_last_tile(start, end, tile_width, tile_height, offset, r[i])
        &&& r[i].intersection_t.num < r[i + 1].intersection_t.num
        &&& steps_toward(x0, x1, r[i].tile_x as int, r[i + 1].tile_x as int)
        &&& steps_toward(y0, y1, r[i].tile_y as int, r[i + 1].tile_y as int)
        &&& (r[i].tile_x != r[i + 1].tile_x || r[i].tile_y != r[i + 1].tile_y)
    }
}

/// The tiles that the segment from `start` to `end` passes through, in order,
/// each with the parameter at which the segment enters it; tiles are
/// `tile_width` by `tile_height`, counted from `offset`.
pub fn new_grid_raycast(start: Vec2, end: Vec2, tile_width: u64, tile_height: u64, offset: Vec2) -> (r: Vec<GridIntersection>)
    requires
        start.in_range(),
        end.in_range(),
        offset.in_range(),
        1 <= tile_width <= MAX_COORD,
        1 <= tile_height <= MAX_COORD,
    ensures
        is_raycast(start, end, tile_width, tile_height, offset, r@),
        raycast_covers(start, end, tile_width, tile_height, offset, r@),
{
    let ghost x0 = start.x as int;
    let ghost x1 = end.x as int;
    let ghost y0 = start.y as int;
    let ghost y1 = end.y as int;
    let ghost ox = offset.x as int;
    let ghost oy = offset.y as int;
    let ghost w = tile_width as int;
    let ghost h = tile_height as int;
    let ext_x = extent_of(start.x, end.x);
    let ext_y = extent_of(start.y, end.y);
    assert(ext_x * ext_y <= 0x20000000 * 0x20000000) by (nonlinear_arith)
        requires
            1 <= ext_x <= 0x20000000,
            1 <= ext_y <= 0x20000000,
    ;
    assert(tile_width * ext_y <= 0x20000000 * 0x20000000 && tile_height * ext_x <= 0x20000000 * 0x20000000) by (nonlinear_arith)
        requires
            1 <= ext_x <= 0x20000000,
            1 <= ext_y <= 0x20000000,
            1 <= tile_width <= 0x20000000,
            1 <= tile_height <= 0x20000000,
    ;
    let den: u64 = ext_x * ext_y;
    assert(den == ext_y * ext_x) by (nonlinear_arith)
        requires
            den == ext_x * ext_y,
    ;
    let step_x: u64 = tile_width * ext_y;
    let step_y: u64 = tile_height * ext_x;
    let (mut cx, mut nx) = axis_start(start.x, end.x, offset.x, tile_width, ext_y);
    let (mut cy, mut ny) = axis_start(start.y, end.y, offset.y, tile_height, ext_x);
    proof {
        lemma_floor(x1 - ox, w);
        lemma_floor(x1 - 1 - ox, w);
        lemma_floor(y1 - oy, h);
        lemma_floor(y1 - 1 - oy, h);
    }
    let lx = if end.x > start.x {
        floor_div(end.x - 1 - offset.x, tile_width)
    } else {
        floor_div(end.x - offset.x, tile_width)
    };
    let ly = if end.y > start.y {
        floor_div(end.y - 1 - offset.y, tile_height)
    } else {
        floor_div(end.y - offset.y, tile_height)
    };
    let dir_x = direction(start.x, end.x);
    let dir_y = direction(start.y, end.y);
    let mut out: Vec<GridIntersection> = Vec::new();
    out.push(GridIntersection { tile_x: cx, tile_y: cy, intersection_t: SegmentT { num: 0, den } });
    let mut last_t: u64 = 0;
    proof {
        if cx != lx {
            lemma_axis_bound(x0, x1, ox, w, ext_y as int, cx as int, nx as int);
        }
        if cy != ly {
            lemma_axis_bound(y0, y1, oy, h, ext_x as int, cy as int, ny as int);
        }
        assert(den >= 1) by (nonlinear_arith)
            requires
                den == ext_x * ext_y,
                ext_x >= 1,
                ext_y >= 1,
        ;
        assert(step_x >= 1 && step_y >= 1) by (nonlinear_arith)
            requires
                step_x == w * ext_y,
                step_y == h * ext_x,
                w >= 1,
                h >= 1,
                ext_x >= 1,
                ext_y >= 1,
        ;
    }
    while cx != lx || cy != ly
        invariant
            x0 == start.x as int && x1 == end.x as int && y0 == start.y as int && y1 == end.y as int,
            ox == offset.x as int && oy == offset.y as int && w == tile_width as int && h == tile_height as int,
            den == raycast_den(start, end),
            ext_x == extent(x0, x1),
            ext_y == extent(y0, y1),
            step_x == w * ext_y,
            step_y == h * ext_x,
            1 <= ext_x <= 0x20000000,
            1 <= ext_y <= 0x20000000,
            1 <= step_x <= 0x20000000 * 0x20000000,
            1 <= step_y <= 0x20000000 * 0x20000000,
            1 <= den <= 0x20000000 * 0x20000000,
            den == ext_x * ext_y,
            den == ext_y * ext_x,
            w > 0,
            h > 0,
            lx == last_tile(x0, x1, ox, w),
            ly == last_tile(y0, y1, oy, h),
            dir_x == if x1 > x0 { 1int } else if x1 < x0 { -1int } else { 0int },
            dir_y == if y1 > y0 { 1int } else if y1 < y0 { -1int } else { 0int },
            axis_ok(x0, x1, ox, w, ext_y as int, cx as int, nx as int),
            axis_ok(y0, y1, oy, h, ext_x as int, cy as int, ny as int),
            cx != lx ==> last_t < nx,
            cy != ly ==> last_t < ny,
            last_t <= den,
            out@.len() >= 1,
            out@[0].tile_x == first_tile(x0, x1, ox, w),
            out@[0].tile_y == first_tile(y0, y1, oy, h),
            out@[0].intersection_t.num == 0,
            out@.last().tile_x == cx,
            out@.last().tile_y == cy,
            out@.last().intersection_t.num == last_t,
            out@.last().intersection_t.den == den,
            x1 != x0 ==> nx == next_edge(x0, x1, ox, w, ext_y as int, cx as int),
            y1 != y0 ==> ny == next_edge(y0, y1, oy, h, ext_x as int, cy as int),
            x1 != x0 ==> nx - step_x <= last_t,
            y1 != y0 ==> ny - step_y <= last_t,
            forall|k: int| 0 <= k < out@.len() - 1 ==> covers(
                start,
                end,
                tile_width,
                tile_height,
                offset,
                #[trigger] out@[k],
                out@[k + 1].intersection_t.num as int,
            ),
            forall|i: int| 0 <= i < out@.len() ==> {
                &&& out@[i].intersection_t.wf()
                &&& out@[i].intersection_t.den == den
            },
            forall|i: int| #![trigger out@[i]] 0 <= i < out@.len() - 1 ==> {
                &&& raycast_step(start, end, tile_width, tile_height, offset, out@[i], out@[i + 1])
                &&& !at_last_tile(start, end, tile_width, tile_height, offset, out@[i])
                &&& out@[i].intersection_t.num < out@[i + 1].intersection_t.num
                &&& steps_toward(x0, x1, out@[i].tile_x as int, out@[i + 1].tile_x as int)
                &&& steps_toward(y0, y1, out@[i].tile_y as int, out@[i + 1].tile_y as int)
                &&& (out@[i].tile_x != out@[i + 1].tile_x || out@[i].tile_y != out@[i + 1].tile_y)
            },
        decreases
            (if cx > lx { cx - lx } else { lx - cx }) + (if cy > ly { cy - ly } else { ly - cy }),
    {
        proof {
            if cx != lx {
                lemma_axis_bound(x0, x1, ox, w, ext_y as int, cx as int, nx as int);
                lemma_axis_step(x0, x1, ox, w, ext_y as int, cx as int, nx as int);
            }
            if cy != ly {
                lemma_axis_bound(y0, y1, oy, h, ext_x as int, cy as int, ny as int);
                lemma_axis_step(y0, y1, oy, h, ext_x as int, cy as int, ny as int);
            }
            assert(w * ext_y == ext_y * w) by (nonlinear_arith);
        }
        let ghost prev = out@.last();
        let ghost cx0 = cx;
        let ghost cy0 = cy;
        let ghost nx0 = nx;
        let ghost ny0 = ny;
        proof {
            if cx == lx && x1 != x0 {
                lemma_axis_last(x0, x1, ox, w, ext_y as int, cx as int, nx as int);
            }
            if cy == ly && y1 != y0 {
                lemma_axis_last(y0, y1, oy, h, ext_x as int, cy as int, ny as int);
            }
            let enx = next_edge(x0, x1, ox, w, extent(y0, y1), cx as int);
            let eny = next_edge(y0, y1, oy, h, extent(x0, x1), cy as int);
            if cx != lx {
                assert(x1 != x0);
                assert(nx == enx);
            }
            if cy != ly {
                assert(y1 != y0);
                assert(ny == eny);
            }
        }
        let take_x = cx != lx && (cy == ly || nx <= ny);
        let take_y = cy != ly && (cx == lx || ny <= nx);
        let t = if take_x {
            nx
        } else {
            ny
        };
        if take_x {
            cx = cx + dir_x;
            nx = nx + step_x;
        }
        if take_y {
            cy = cy + dir_y;
            ny = ny + step_y;
        }
        out.push(GridIntersection { tile_x: cx, tile_y: cy, intersection_t: SegmentT { num: t, den } });
        last_t = t;
        proof {
            assert(prev.tile_x == cx0 && prev.tile_y == cy0);
            let enx = next_edge(x0, x1, ox, w, extent(y0, y1), prev.tile_x as int);
            let eny = next_edge(y0, y1, oy, h, extent(x0, x1), prev.tile_y as int);
            let vx = prev.tile_x != last_tile(x0, x1, ox, w);
            let vy = prev.tile_y != last_tile(y0, y1, oy, h);
            assert(vx == (cx0 != lx));
            assert(vy == (cy0 != ly));
            assert(vx ==> enx == nx0);
            assert(vy ==> eny == ny0);
            let tt = if vx && (!vy || enx <= eny) { enx } else { eny };
            assert(tt == t);
            assert((vx && tt == enx) == take_x);
            assert((vy && tt == eny) == take_y);
            let b = out@[out@.len() - 1];
            assert(b.tile_x == prev.tile_x + if vx && tt == enx { dir_of(x0, x1) } else { 0 });
            assert(b.tile_y == prev.tile_y + if vy && tt == eny { dir_of(y0, y1) } else { 0 });
            assert(b.intersection_t.num == tt);
            assert(b.intersection_t.den == prev.intersection_t.den);
            lemma_step_intro(start, end, tile_width, tile_height, offset, prev, b, enx, eny, vx, vy, tt);
            assert(covers(start, end, tile_width, tile_height, offset, prev, t as int));
            assert(out@[out@.len() - 2] == prev);
        }
    }
    proof {
        if x1 != x0 {
            lemma_axis_last(x0, x1, ox, w, ext_y as int, cx as int, nx as int);
        }
        if y1 != y0 {
            lemma_axis_last(y0, y1, oy, h, ext_x as int, cy as int, ny as int);
        }
        assert(covers(start, end, tile_width, tile_height, offset, out@[out@.len() - 1], den as int));
    }
    out
}

/// The crossings of the segment from `start` to `end`; `new_grid_raycast`
/// returns exactly these.
pub open spec fn raycast_of(start: Vec2, end: Vec2, tile_width: u64, tile_height: u64, offset: Vec2) -> Seq<GridIntersection> {
    choose|r: Seq<GridIntersection>| is_raycast(start, end, tile_width, tile_height, offset, r)
}

proof fn lemma_raycast_agree(
    start: Vec2,
    end: Vec2,
    tile_width: u64,
    tile_height: u64,
    offset: Vec2,
    r1: Seq<GridIntersection>,
    r2: Seq<GridIntersection>,
    i: int,
)
    requires
        is_raycast(start, end, tile_width, tile_height, offset, r1),
        is_raycast(start, end, tile_width, tile_height, offset, r2),
        0 <= i < r1.len(),
        i < r2.len(),
    ensures
        r1[i] == r2[i],
    decreases i,
{
    if i > 0 {
        lemma_raycast_agree(start, end, tile_width, tile_height, offset, r1, r2, i - 1);
        assert(raycast_step(start, end, tile_width, tile_height, offset, r1[i - 1], r1[i]));
        assert(raycast_step(start, end, tile_width, tile_height, offset, r2[i - 1], r2[i]));
    }
}

/// The crossings of a segment are unique: `raycast_of` names any list that
/// meets `is_raycast`.
pub proof fn lemma_raycast_unique(
    start: Vec2,
    end: Vec2,
    tile_width: u64,
    tile_height: u64,
    offset: Vec2,
    r: Seq<GridIntersection>,
)
    requires
        is_raycast(start, end, tile_width, tile_height, offset, r),
    ensures
        raycast_of(start, end, tile_width, tile_height, offset) == r,
{
    let r2 = raycast_of(start, end, tile_width, tile_height, offset);
    assert(is_raycast(start, end, tile_width, tile_height, offset, r2));
    if r.len() < r2.len() {
        lemma_raycast_agree(start, end, tile_width, tile_height, offset, r, r2, r.len() - 1);
        assert(!at_last_tile(start, end, tile_width, tile_height, offset, r2[r.len() - 1]));
    } else if r2.len() < r.len() {
        lemma_raycast_agree(start, end, tile_width, tile_height, offset, r, r2, r2.len() - 1);
        assert(!at_last_tile(start, end, tile_width, tile_height, offset, r[r2.len() - 1]));
    }
    assert forall|i: int| 0 <= i < r.len() implies r[i] == r2[i] by {
        lemma_raycast_agree(start, end, tile_width, tile_height, offset, r, r2, i);
    }
    assert(r =~= r2);
}

} // verus!
