//! Wall rectangles, hitboxes and the integer direction vectors used for aiming.
use vstd::prelude::*;

verus! {

/// Side of the square hitbox of the player and of every hostile.
pub const HITBOX: i32 = 20;

/// Per-axis distance below which two entities touch.
pub const PROXIMITY: i32 = 20;

/// An axis-aligned wall rectangle in world coordinates.
#[derive(Clone, Copy, Debug, PartialEq, Eq)]
pub struct Rect {
    pub x: i32,
    pub y: i32,
    pub w: u32,
    pub h: u32,
}

/// The hitbox with top-left corner `(x, y)` overlaps `r`.
pub open spec fn box_hits_rect(r: Rect, x: int, y: int) -> bool {
    &&& x < r.x + r.w
    &&& x + HITBOX > r.x
    &&& y < r.y + r.h
    &&& y + HITBOX > r.y
}

/// The hitbox with top-left corner `(x, y)` overlaps some wall of `maze`.
pub open spec fn box_hits_maze(maze: Seq<Rect>, x: int, y: int) -> bool {
    exists|i: int| 0 <= i < maze.len() && #[trigger] box_hits_rect(maze[i], x, y)
}

/// Two hitboxes with top-left corners `(ax, ay)` and `(bx, by)` overlap.
pub open spec fn boxes_overlap(ax: int, ay: int, bx: int, by: int) -> bool {
    &&& ax < bx + HITBOX
    &&& ax + HITBOX > bx
    &&& ay < by + HITBOX
    &&& ay + HITBOX > by
}

/// Two points are within the proximity threshold on both axes.
pub open spec fn near(ax: int, ay: int, bx: int, by: int) -> bool {
    -PROXIMITY < ax - bx < PROXIMITY && -PROXIMITY < ay - by < PROXIMITY
}

/// Whether a hitbox at `(x, y)` overlaps any wall of `maze`.
pub fn box_overlaps_maze(maze: &[Rect], x: i32, y: i32) -> (r: bool)
    ensures
        r == box_hits_maze(maze@, x as int, y as int),
{
    let mut i: usize = 0;
    while i < maze.len()
        invariant
            0 <= i <= maze@.len(),
            forall|j: int| 0 <= j < i ==> !box_hits_rect(maze@[j], x as int, y as int),
        decreases maze@.len() - i,
    {
        let m = maze[i];
        let (xx, yy) = (x as i64, y as i64);
        if xx < m.x as i64 + m.w as i64 && xx + (HITBOX as i64) > m.x as i64 && yy < m.y as i64
            + m.h as i64 && yy + (HITBOX as i64) > m.y as i64 {
            assert(box_hits_rect(maze@[i as int], x as int, y as int));
            return true;
        }
        i += 1;
    }
    false
}

/// Whether `(ax, ay)` and `(bx, by)` are within the proximity threshold on both axes.
pub fn is_near(ax: i32, ay: i32, bx: i32, by: i32) -> (r: bool)
    ensures
        r == near(ax as int, ay as int, bx as int, by as int),
{
    let dx = ax as i64 - bx as i64;
    let dy = ay as i64 - by as i64;
    -(PROXIMITY as i64) < dx && dx < PROXIMITY as i64 && -(PROXIMITY as i64) < dy && dy
        < PROXIMITY as i64
}

/// `k` is the integer part of `speed * c / sqrt(d2)` for `c >= 0`:
/// the largest `k` with `k * sqrt(d2) <= speed * c`.
pub open spec fn is_floor_scaled(k: int, c: int, d2: int, speed: int) -> bool {
    &&& 0 <= k
    &&& k * k * d2 <= speed * speed * c * c
    &&& (k + 1) * (k + 1) * d2 > speed * speed * c * c
}

/// One axis of `speed` times the unit vector `(c, o) / |(c, o)|`, truncated
/// toward zero; zero when the vector `(c, o)` is zero.
pub open spec fn scaled_axis(k: int, c: int, o: int, speed: int) -> bool {
    if c == 0 && o == 0 {
        k == 0
    } else if c >= 0 {
        is_floor_scaled(k, c, c * c + o * o, speed)
    } else {
        is_floor_scaled(-k, -c, c * c + o * o, speed)
    }
}

/// Largest `k` in `0..=speed` with `k * k * d2 <= speed * speed * c * c`.
fn floor_scaled(c: i128, d2: i128, speed: i128) -> (k: i128)
    requires
        0 <= c,
        c * c <= d2,
        0 < d2 < 0x1_0000_0000_0000_0000_0000,
        0 <= speed <= 0xFFFF,
    ensures
        is_floor_scaled(k as int, c as int, d2 as int, speed as int),
        k <= speed,
{
    assert(speed * speed <= 0x1_0000_0000 && 0 <= speed * speed) by (nonlinear_arith)
        requires 0 <= speed <= 0xFFFF;
    assert(0 <= speed * speed * c * c <= 0x1_0000_0000 * d2) by (nonlinear_arith)
        requires 0 <= speed * speed <= 0x1_0000_0000, 0 <= c, c * c <= d2;
    assert(c < 0x100_0000_0000) by (nonlinear_arith)
        requires 0 <= c, c * c <= d2, d2 < 0x1_0000_0000_0000_0000_0000;
    assert(0 <= speed * speed * c <= 0x1_0000_0000 * c) by (nonlinear_arith)
        requires 0 <= speed * speed <= 0x1_0000_0000, 0 <= c;
    let target = speed * speed * c * c;
    assert(0 * 0 * d2 == 0) by (nonlinear_arith);
    let mut k: i128 = 0;
    while k < speed
        invariant
            0 <= k <= speed,
            0 < d2 < 0x1_0000_0000_0000_0000_0000,
            0 <= speed <= 0xFFFF,
            k * k * d2 <= target,
        ensures
            k * k * d2 <= target,
            k == speed || (k + 1) * (k + 1) * d2 > target,
        decreases speed - k,
    {
        assert(0 <= (k + 1) * (k + 1) <= 0x1_0000_0000 && (k + 1) * (k + 1) * d2 <= 0x1_0000_0000 * d2)
            by (nonlinear_arith)
            requires 0 <= k < speed <= 0xFFFF, 0 < d2;
        if (k + 1) * (k + 1) * d2 > target {
            break;
        }
        k += 1;
    }
    proof {
        if k == speed {
            assert((k + 1) * (k + 1) * d2 > target) by (nonlinear_arith)
                requires k == speed, 0 <= c, c * c <= d2, 0 < d2, target == speed * speed * c * c,
                    0 <= speed;
        }
    }
    k
}

/// `speed` times the unit vector toward `(dx, dy)`, each component truncated
/// toward zero; the zero vector for a zero direction.
pub fn scaled_direction(dx: i64, dy: i64, speed: i32) -> (v: (i32, i32))
    requires
        -0x1_0000_0000 <= dx <= 0x1_0000_0000,
        -0x1_0000_0000 <= dy <= 0x1_0000_0000,
        0 <= speed <= 0xFFFF,
    ensures
        scaled_axis(v.0 as int, dx as int, dy as int, speed as int),
        scaled_axis(v.1 as int, dy as int, dx as int, speed as int),
        -speed <= v.0 <= speed,
        -speed <= v.1 <= speed,
{
    if dx == 0 && dy == 0 {
        return (0, 0);
    }
    let (cx, cy) = (dx as i128, dy as i128);
    proof {
        assert(cx * cx <= 0x1_0000_0000_0000_0000) by (nonlinear_arith)
            requires -0x1_0000_0000 <= cx <= 0x1_0000_0000;
        assert(cy * cy <= 0x1_0000_0000_0000_0000) by (nonlinear_arith)
            requires -0x1_0000_0000 <= cy <= 0x1_0000_0000;
        assert(cx * cx >= 0 && cy * cy >= 0) by (nonlinear_arith);
        assert(cx * cx + cy * cy > 0) by (nonlinear_arith)
            requires cx != 0 || cy != 0;
    }
    let d2 = cx * cx + cy * cy;
    let ax = if cx >= 0 { cx } else { -cx };
    let ay = if cy >= 0 { cy } else { -cy };
    assert(ax * ax == cx * cx) by (nonlinear_arith) requires ax == cx || ax == -cx;
    assert(ay * ay == cy * cy) by (nonlinear_arith) requires ay == cy || ay == -cy;
    let kx = floor_scaled(ax, d2, speed as i128);
    let ky = floor_scaled(ay, d2, speed as i128);
    let vx = if cx >= 0 { kx as i32 } else { -(kx as i32) };
    let vy = if cy >= 0 { ky as i32 } else { -(ky as i32) };
    proof {
        assert(speed * speed * ax * ax == speed * speed * dx * dx) by (nonlinear_arith)
            requires ax * ax == cx * cx, cx == dx;
        assert(speed * speed * ay * ay == speed * speed * dy * dy) by (nonlinear_arith)
            requires ay * ay == cy * cy, cy == dy;
        assert(speed * speed * ax * ax == speed * speed * (-dx) * (-dx)) by (nonlinear_arith)
            requires ax * ax == cx * cx, cx == dx;
        assert(speed * speed * ay * ay == speed * speed * (-dy) * (-dy)) by (nonlinear_arith)
            requires ay * ay == cy * cy, cy == dy;
        assert(d2 == dy * dy + dx * dx);
    }
    (vx, vy)
}


/// A scaled direction component is at most `speed` in size.
pub proof fn lemma_scaled_axis_bound(k: int, c: int, o: int, speed: int)
    requires
        scaled_axis(k, c, o, speed),
        0 <= speed,
    ensures
        -speed <= k <= speed,
{
    if !(c == 0 && o == 0) {
        let d2 = c * c + o * o;
        assert(d2 > 0 && c * c <= d2) by (nonlinear_arith)
            requires c != 0 || o != 0, d2 == c * c + o * o;
        let a = if c >= 0 { k } else { -k };
        let m = if c >= 0 { c } else { -c };
        assert(m * m == c * c) by (nonlinear_arith) requires m == c || m == -c;
        assert(a <= speed) by (nonlinear_arith)
            requires 0 <= a, a * a * d2 <= speed * speed * m * m, m * m <= d2, 0 < d2, 0 <= speed;
    }
}

} // verus!
