//! Shortest 4-directional paths on the unit grid, avoiding wall cells.
//!
//! Every cell with non-negative coordinates that no wall rectangle covers is
//! passable; the grid has no upper bound. The search runs inside a box that
//! reaches one column and one row past every wall, the start and the goal:
//! a walk that leaves the box can be pressed back into it without growing,
//! so a shortest path inside the box is a shortest path on the whole grid.
use vstd::prelude::*;
use vstd::set_lib::*;
use crate::geometry::Rect;

verus! {

/// Most cells that the planner's search box may hold.
pub const PLAN_CELLS: usize = 0x4000_0000;

const UNSEEN: u32 = 0xFFFF_FFFF;

/// Rectangle `r` covers the unit cell `(x, y)`.
pub open spec fn covers(r: Rect, x: int, y: int) -> bool {
    r.x <= x < r.x + r.w && r.y <= y < r.y + r.h
}

/// Some wall of `maze` covers the unit cell `(x, y)`.
pub open spec fn cell_blocked(maze: Seq<Rect>, x: int, y: int) -> bool {
    exists|i: int| 0 <= i < maze.len() && #[trigger] covers(maze[i], x, y)
}

/// A cell that a path may enter: both coordinates non-negative, no wall on it.
pub open spec fn passable(maze: Seq<Rect>, c: (i32, i32)) -> bool {
    c.0 >= 0 && c.1 >= 0 && !cell_blocked(maze, c.0 as int, c.1 as int)
}

/// The two cells differ by one unit step along one axis.
pub open spec fn adjacent(a: (i32, i32), b: (i32, i32)) -> bool {
    ||| a.0 == b.0 && (a.1 - b.1 == 1 || b.1 - a.1 == 1)
    ||| a.1 == b.1 && (a.0 - b.0 == 1 || b.0 - a.0 == 1)
}

/// `p` walks from `start` to `goal` in unit steps, and every cell after the
/// first is passable; the start itself may be any cell.
pub open spec fn is_path(maze: Seq<Rect>, p: Seq<(i32, i32)>, start: (i32, i32), goal: (i32, i32)) -> bool {
    &&& p.len() >= 1
    &&& p[0] == start
    &&& p.last() == goal
    &&& forall|i: int| 1 <= i < p.len() ==> passable(maze, #[trigger] p[i]) && adjacent(p[i - 1], p[i])
}

/// `p` is a path from `start` to `goal` with no path shorter than it.
pub open spec fn is_shortest_path(maze: Seq<Rect>, p: Seq<(i32, i32)>, start: (i32, i32), goal: (i32, i32)) -> bool {
    &&& is_path(maze, p, start, goal)
    &&& forall|q: Seq<(i32, i32)>| #[trigger] is_path(maze, q, start, goal) ==> p.len() <= q.len()
}

pub open spec fn max_int(a: int, b: int) -> int {
    if a >= b { a } else { b }
}

/// The right edge of the wall reaching farthest right, and at least 0.
pub open spec fn reach_x(maze: Seq<Rect>) -> int
    decreases maze.len(),
{
    if maze.len() == 0 {
        0
    } else {
        max_int(reach_x(maze.drop_last()), maze.last().x + maze.last().w)
    }
}

/// The bottom edge of the wall reaching farthest down, and at least 0.
pub open spec fn reach_y(maze: Seq<Rect>) -> int
    decreases maze.len(),
{
    if maze.len() == 0 {
        0
    } else {
        max_int(reach_y(maze.drop_last()), maze.last().y + maze.last().h)
    }
}

/// Width of the search box: columns up to every wall's right edge, the
/// start's and the goal's column, all included.
pub open spec fn box_w(maze: Seq<Rect>, start: (i32, i32), goal: (i32, i32)) -> int {
    max_int(max_int(reach_x(maze), start.0 as int), goal.0 as int) + 1
}

/// Height of the search box, as `box_w` along the other axis.
pub open spec fn box_h(maze: Seq<Rect>, start: (i32, i32), goal: (i32, i32)) -> int {
    max_int(max_int(reach_y(maze), start.1 as int), goal.1 as int) + 1
}

pub open spec fn in_box(c: (i32, i32), bw: int, bh: int) -> bool {
    0 <= c.0 < bw && 0 <= c.1 < bh
}

/// The last column and the last row of the box hold no wall cell, nor does
/// anything beyond them.
pub open spec fn box_clear(maze: Seq<Rect>, bw: int, bh: int) -> bool {
    forall|x: int, y: int| (x >= bw - 1 || y >= bh - 1) ==> !#[trigger] cell_blocked(maze, x, y)
}

/// The cell of the box nearest to `c`, for `c` with non-negative coordinates.
pub open spec fn clamp(c: (i32, i32), bw: int, bh: int) -> (i32, i32) {
    (
        (if c.0 < bw - 1 { c.0 as int } else { bw - 1 }) as i32,
        (if c.1 < bh - 1 { c.1 as int } else { bh - 1 }) as i32,
    )
}

#[verifier::opaque]
pub open spec fn cell_index(c: (i32, i32), bw: int) -> int {
    c.1 * bw + c.0
}

/// The neighbour of `c` in direction `d`: down, up, right, left for `d` = 0, 1, 2, 3.
pub open spec fn neighbor(c: (i32, i32), d: int) -> (i32, i32) {
    if d == 0 {
        (c.0, (c.1 + 1) as i32)
    } else if d == 1 {
        (c.0, (c.1 - 1) as i32)
    } else if d == 2 {
        ((c.0 + 1) as i32, c.1)
    } else {
        ((c.0 - 1) as i32, c.1)
    }
}

pub open spec fn opposite(d: int) -> int {
    if d == 0 { 1 } else if d == 1 { 0 } else if d == 2 { 3 } else { 2 }
}

proof fn lemma_index_injective(a: (i32, i32), b: (i32, i32), bw: int, bh: int)
    requires
        in_box(a, bw, bh),
        in_box(b, bw, bh),
    ensures
        0 <= cell_index(a, bw) < bw * bh,
        cell_index(a, bw) == cell_index(b, bw) ==> a == b,
{
    reveal(cell_index);
    let (ax, ay, bx, by) = (a.0 as int, a.1 as int, b.0 as int, b.1 as int);
    assert(0 <= ay * bw + ax < bw * bh) by (nonlinear_arith)
        requires 0 <= ax < bw, 0 <= ay < bh;
    if ay < by {
        assert(ay * bw + ax < by * bw + bx) by (nonlinear_arith)
            requires 0 <= ax < bw, 0 <= bx, ay < by;
    } else if by < ay {
        assert(by * bw + bx < ay * bw + ax) by (nonlinear_arith)
            requires 0 <= bx < bw, 0 <= ax, by < ay;
    }
}

proof fn lemma_adjacent_is_neighbor(u: (i32, i32), c: (i32, i32))
    requires
        adjacent(u, c),
    ensures
        exists|d: int| 0 <= d < 4 && neighbor(u, d) == c,
{
    if c.1 - u.1 == 1 {
        assert(neighbor(u, 0) == c);
    } else if u.1 - c.1 == 1 {
        assert(neighbor(u, 1) == c);
    } else if c.0 - u.0 == 1 {
        assert(neighbor(u, 2) == c);
    } else {
        assert(neighbor(u, 3) == c);
    }
}

/// Index of box cell `c` in the search tables.
fn index_of(c: (i32, i32), bw: usize, bh: usize) -> (r: usize)
    requires
        in_box(c, bw as int, bh as int),
        bw * bh <= PLAN_CELLS,
    ensures
        r == cell_index(c, bw as int),
        r < bw * bh,
{
    proof {
        lemma_index_injective(c, c, bw as int, bh as int);
        reveal(cell_index);
    }
    (c.1 as usize) * bw + c.0 as usize
}

/// Whether the unit cell `(x, y)` is passable.
fn cell_passable(maze: &[Rect], x: i32, y: i32) -> (r: bool)
    ensures
        r == passable(maze@, (x, y)),
{
    if x < 0 || y < 0 {
        return false;
    }
    let mut i: usize = 0;
    while i < maze.len()
        invariant
            0 <= i <= maze@.len(),
            forall|j: int| 0 <= j < i ==> !covers(maze@[j], x as int, y as int),
        decreases maze@.len() - i,
    {
        let m = maze[i];
        if m.x as i64 <= x as i64 && (x as i64) < m.x as i64 + m.w as i64 && m.y as i64 <= y as i64
            && (y as i64) < m.y as i64 + m.h as i64 {
            assert(covers(maze@[i as int], x as int, y as int));
            return false;
        }
        i += 1;
    }
    true
}

proof fn lemma_reach_bounds(maze: Seq<Rect>, i: int)
    requires
        0 <= i < maze.len(),
    ensures
        maze[i].x + maze[i].w <= reach_x(maze),
        maze[i].y + maze[i].h <= reach_y(maze),
        0 <= reach_x(maze),
        0 <= reach_y(maze),
    decreases maze.len(),
{
    if maze.len() > 1 {
        let k = if i < maze.len() - 1 { i } else { 0 };
        lemma_reach_bounds(maze.drop_last(), k);
        if i < maze.len() - 1 {
            assert(maze.drop_last()[i] == maze[i]);
        }
    } else {
        assert(maze.drop_last().len() == 0);
        assert(reach_x(maze.drop_last()) == 0 && reach_y(maze.drop_last()) == 0);
    }
}

pub proof fn lemma_reach_nonneg(maze: Seq<Rect>)
    ensures
        0 <= reach_x(maze),
        0 <= reach_y(maze),
    decreases maze.len(),
{
    if maze.len() > 0 {
        lemma_reach_nonneg(maze.drop_last());
    }
}

proof fn lemma_box_clear(maze: Seq<Rect>, start: (i32, i32), goal: (i32, i32))
    ensures
        box_clear(maze, box_w(maze, start, goal), box_h(maze, start, goal)),
{
    let bw = box_w(maze, start, goal);
    let bh = box_h(maze, start, goal);
    assert forall|x: int, y: int| (x >= bw - 1 || y >= bh - 1) implies !#[trigger] cell_blocked(maze, x, y) by {
        if cell_blocked(maze, x, y) {
            let i = choose|i: int| 0 <= i < maze.len() && #[trigger] covers(maze[i], x, y);
            lemma_reach_bounds(maze, i);
        }
    }
}

/// The search box for `start` and `goal` as `(width, height)`.
fn search_box(maze: &[Rect], start: (i32, i32), goal: (i32, i32)) -> (r: (usize, usize))
    requires
        box_w(maze@, start, goal) * box_h(maze@, start, goal) <= PLAN_CELLS,
    ensures
        r.0 == box_w(maze@, start, goal),
        r.1 == box_h(maze@, start, goal),
        1 <= r.0,
        1 <= r.1,
{
    let mut rx: i64 = 0;
    let mut ry: i64 = 0;
    let mut i: usize = 0;
    while i < maze.len()
        invariant
            0 <= i <= maze@.len(),
            rx == reach_x(maze@.take(i as int)),
            ry == reach_y(maze@.take(i as int)),
            0 <= rx <= 0x2_0000_0000,
            0 <= ry <= 0x2_0000_0000,
        decreases maze@.len() - i,
    {
        assert(maze@.take(i + 1).drop_last() =~= maze@.take(i as int));
        let m = maze[i];
        let ex = m.x as i64 + m.w as i64;
        let ey = m.y as i64 + m.h as i64;
        if ex > rx {
            rx = ex;
        }
        if ey > ry {
            ry = ey;
        }
        i += 1;
    }
    assert(maze@.take(maze@.len() as int) =~= maze@);
    let mut bx = rx;
    if start.0 as i64 > bx {
        bx = start.0 as i64;
    }
    if goal.0 as i64 > bx {
        bx = goal.0 as i64;
    }
    let mut hy = ry;
    if start.1 as i64 > hy {
        hy = start.1 as i64;
    }
    if goal.1 as i64 > hy {
        hy = goal.1 as i64;
    }
    assert((bx + 1) <= PLAN_CELLS && (hy + 1) <= PLAN_CELLS) by (nonlinear_arith)
        requires (bx + 1) * (hy + 1) <= PLAN_CELLS, 1 <= bx + 1, 1 <= hy + 1;
    ((bx + 1) as usize, (hy + 1) as usize)
}
/// The cell from which `c` was first reached lies in direction `parent[c]`,
/// one step closer to the start.
spec fn parent_ok(maze: Seq<Rect>, dist: Seq<u32>, parent: Seq<u8>, c: (i32, i32), bw: int, bh: int) -> bool {
    let d = parent[cell_index(c, bw)] as int;
    let p = neighbor(c, d);
    &&& d < 4
    &&& in_box(p, bw, bh)
    &&& dist[cell_index(p, bw)] != UNSEEN
    &&& dist[cell_index(p, bw)] + 1 == dist[cell_index(c, bw)]
    &&& passable(maze, c)
    &&& adjacent(p, c)
}

/// Each reached cell other than the start knows its predecessor.
#[verifier::opaque]
spec fn links_ok(maze: Seq<Rect>, start: (i32, i32), dist: Seq<u32>, parent: Seq<u8>, bw: int, bh: int) -> bool {
    forall|c: (i32, i32)|
        in_box(c, bw, bh) && #[trigger] dist[cell_index(c, bw)] != UNSEEN && c != start ==> parent_ok(
            maze,
            dist,
            parent,
            c, bw, bh)
}

/// `seen` is the set of indices of reached cells, one for each queued cell.
#[verifier::opaque]
spec fn seen_ok(dist: Seq<u32>, queue: Seq<(i32, i32)>, seen: Set<int>, bw: int, bh: int) -> bool {
    &&& seen.finite() && seen.len() == queue.len() && seen.subset_of(set_int_range(0, bw * bh))
    &&& forall|i: int| 0 <= i < bw * bh ==> (#[trigger] seen.contains(i) <==> dist[i] != UNSEEN)
}

/// Every queued cell is reached, and `order` gives its place in the queue.
#[verifier::opaque]
spec fn queue_ok(dist: Seq<u32>, queue: Seq<(i32, i32)>, order: Seq<int>, bw: int, bh: int) -> bool {
    forall|j: int|
        0 <= j < queue.len() ==> {
            &&& in_box(#[trigger] queue[j], bw, bh)
            &&& dist[cell_index(queue[j], bw)] != UNSEEN
            &&& order[cell_index(queue[j], bw)] == j
            &&& dist[cell_index(queue[j], bw)] <= j
        }
}

/// Every reached cell stands in the queue at the place `order` gives.
#[verifier::opaque]
spec fn members_ok(dist: Seq<u32>, queue: Seq<(i32, i32)>, order: Seq<int>, bw: int, bh: int) -> bool {
    forall|c: (i32, i32)|
        in_box(c, bw, bh) && #[trigger] dist[cell_index(c, bw)] != UNSEEN ==> {
            &&& 0 <= order[cell_index(c, bw)] < queue.len()
            &&& queue[order[cell_index(c, bw)]] == c
        }
}

/// Distances never decrease along the queue.
#[verifier::opaque]
spec fn monotone(dist: Seq<u32>, queue: Seq<(i32, i32)>, bw: int, bh: int) -> bool {
    forall|i: int, j: int|
        #![trigger queue[i], queue[j]]
        0 <= i <= j < queue.len() ==> dist[cell_index(queue[i], bw)] <= dist[cell_index(queue[j], bw)]
}

/// Invariant of the breadth-first search: the queue holds each reached cell
/// once, in order of non-decreasing distance, and each reached cell other
/// than the start knows a predecessor.
spec fn search_inv(
    maze: Seq<Rect>,
    start: (i32, i32),
    dist: Seq<u32>,
    parent: Seq<u8>,
    queue: Seq<(i32, i32)>,
    order: Seq<int>,
    seen: Set<int>, bw: int, bh: int) -> bool {
    &&& dist.len() == bw * bh && parent.len() == bw * bh && order.len() == bw * bh
    &&& in_box(start, bw, bh) && queue.len() >= 1 && queue[0] == start
    &&& dist[cell_index(start, bw)] == 0
    &&& queue.len() <= bw * bh
    &&& seen_ok(dist, queue, seen, bw, bh)
    &&& queue_ok(dist, queue, order, bw, bh)
    &&& members_ok(dist, queue, order, bw, bh)
    &&& monotone(dist, queue, bw, bh)
    &&& links_ok(maze, start, dist, parent, bw, bh)
}

/// Every passable neighbour of the first `head` queued cells has been reached,
/// at most one step farther than that cell.
#[verifier::opaque]
spec fn expanded(
    maze: Seq<Rect>,
    dist: Seq<u32>,
    queue: Seq<(i32, i32)>,
    head: int, bw: int, bh: int) -> bool {
    forall|j: int, c: (i32, i32)|
        0 <= j < head && #[trigger] adjacent(queue[j], c) && in_box(c, bw, bh) && passable(maze, c) ==> {
            &&& dist[cell_index(c, bw)] != UNSEEN
            &&& dist[cell_index(c, bw)] <= dist[cell_index(queue[j], bw)] + 1
        }
}

/// Along a path from the start, every cell pressed into the box has been
/// expanded once all cells closer than `dist[queue[head]]` have been.
proof fn lemma_path_prefix_expanded(
    maze: Seq<Rect>,
    start: (i32, i32),
    goal: (i32, i32),
    dist: Seq<u32>,
    parent: Seq<u8>,
    queue: Seq<(i32, i32)>,
    order: Seq<int>,
    seen: Set<int>,
    head: int,
    q: Seq<(i32, i32)>,
    j: int,
    bw: int,
    bh: int,
)
    requires
        search_inv(maze, start, dist, parent, queue, order, seen, bw, bh),
        box_clear(maze, bw, bh),
        in_box(goal, bw, bh),
        0 <= head <= queue.len(),
        expanded(maze, dist, queue, head, bw, bh),
        is_path(maze, q, start, goal),
        0 <= j < q.len(),
        head == queue.len() || q.len() <= dist[cell_index(queue[head], bw)],
    ensures
        in_box(clamp(q[j], bw, bh), bw, bh),
        dist[cell_index(clamp(q[j], bw, bh), bw)] != UNSEEN,
        dist[cell_index(clamp(q[j], bw, bh), bw)] <= j,
        order[cell_index(clamp(q[j], bw, bh), bw)] < head,
    decreases j,
{
    reveal(queue_ok);
    reveal(members_ok);
    reveal(monotone);
    reveal(expanded);
    let c = clamp(q[j], bw, bh);
    if j == 0 {
        assert(c == start);
        assert(order[cell_index(queue[0], bw)] == 0);
    } else {
        lemma_path_prefix_expanded(maze, start, goal, dist, parent, queue, order, seen, head, q, j - 1, bw, bh);
        let p = clamp(q[j - 1], bw, bh);
        assert(passable(maze, q[j]) && adjacent(q[j - 1], q[j]));
        if j - 1 > 0 {
            assert(passable(maze, q[j - 1]));
        }
        if c != p {
            assert(adjacent(p, c));
            if c != q[j] {
                assert(!cell_blocked(maze, c.0 as int, c.1 as int));
            }
            assert(passable(maze, c));
            let o = order[cell_index(p, bw)];
            assert(queue[o] == p);
            assert(adjacent(queue[o], c));
            let o2 = order[cell_index(c, bw)];
            assert(queue[o2] == c);
            if o2 >= head {
                assert(dist[cell_index(queue[head], bw)] <= dist[cell_index(queue[o2], bw)]);
            }
        }
    }
}

/// Walks the predecessor links back from `goal` and returns the path from the start.
fn trace_back(
    Ghost(maze): Ghost<Seq<Rect>>,
    start: (i32, i32),
    goal: (i32, i32),
    dist: &Vec<u32>,
    parent: &Vec<u8>,
    width: usize,
    height: usize,
) -> (path: Vec<(i32, i32)>)
    requires
        links_ok(maze, start, dist@, parent@, width as int, height as int),
        dist@.len() == width * height && parent@.len() == width * height,
        width * height <= PLAN_CELLS,
        width <= PLAN_CELLS && height <= PLAN_CELLS,
        in_box(start, width as int, height as int),
        dist@[cell_index(start, width as int)] == 0,
        in_box(goal, width as int, height as int),
        dist@[cell_index(goal, width as int)] != UNSEEN,
    ensures
        is_path(maze, path@, start, goal),
        path@.len() == dist@[cell_index(goal, width as int)] + 1,
{
    let mut rev: Vec<(i32, i32)> = Vec::new();
    rev.push(goal);
    let mut cur = goal;
    while dist[index_of(cur, width, height)] > 0
        invariant
            links_ok(maze, start, dist@, parent@, width as int, height as int),
            dist@.len() == width * height && parent@.len() == width * height,
        width * height <= PLAN_CELLS,
        width <= PLAN_CELLS && height <= PLAN_CELLS,
            width <= PLAN_CELLS && height <= PLAN_CELLS,
            in_box(start, width as int, height as int),
            dist@[cell_index(start, width as int)] == 0,
            in_box(cur, width as int, height as int),
            dist@[cell_index(cur, width as int)] != UNSEEN,
            rev@.len() >= 1,
            rev@[0] == goal,
            rev@.last() == cur,
            rev@.len() + dist@[cell_index(cur, width as int)] == dist@[cell_index(goal, width as int)] + 1,
            forall|i: int|
                1 <= i < rev@.len() ==> passable(maze, #[trigger] rev@[i - 1]) && adjacent(
                    rev@[i],
                    rev@[i - 1],
                ),
        decreases dist@[cell_index(cur, width as int)],
    {
        let ci = index_of(cur, width, height);
        let d = parent[ci];
        assert(cur != start);
        assert(parent_ok(maze, dist@, parent@, cur, width as int, height as int)) by {
            reveal(links_ok);
        }
        let prev = if d == 0 {
            (cur.0, cur.1 + 1)
        } else if d == 1 {
            (cur.0, cur.1 - 1)
        } else if d == 2 {
            (cur.0 + 1, cur.1)
        } else {
            (cur.0 - 1, cur.1)
        };
        assert(prev == neighbor(cur, d as int));
        let ghost old_rev = rev@;
        rev.push(prev);
        assert forall|i: int| 1 <= i < rev@.len() implies passable(maze, #[trigger] rev@[i - 1])
            && adjacent(rev@[i], rev@[i - 1]) by {
            if i < old_rev.len() {
                assert(rev@[i] == old_rev[i] && rev@[i - 1] == old_rev[i - 1]);
            }
        }
        cur = prev;
    }
    assert(cur == start) by {
        reveal(links_ok);
        if cur != start {
            assert(parent_ok(maze, dist@, parent@, cur, width as int, height as int));
        }
    }
    let mut path: Vec<(i32, i32)> = Vec::new();
    let mut k: usize = rev.len();
    while k > 0
        invariant
            0 <= k <= rev@.len(),
            path@.len() + k == rev@.len(),
            forall|i: int| 0 <= i < path@.len() ==> path@[i] == rev@[rev@.len() - 1 - i],
        decreases k,
    {
        k -= 1;
        path.push(rev[k]);
    }
    assert forall|i: int| 1 <= i < path@.len() implies passable(maze, #[trigger] path@[i])
        && adjacent(path@[i - 1], path@[i]) by {
        let m = rev@.len() - i;
        assert(path@[i] == rev@[m - 1] && path@[i - 1] == rev@[m]);
    }
    path
}


/// Reaching the passable, unreached neighbour `v` of the cell at the head of
/// the queue keeps the search invariant.
#[verifier::spinoff_prover]
#[verifier::rlimit(100)]
proof fn lemma_reach(
    maze: Seq<Rect>,
    start: (i32, i32),
    dist: Seq<u32>,
    parent: Seq<u8>,
    queue: Seq<(i32, i32)>,
    order: Seq<int>,
    seen: Set<int>,
    head: int,
    d: int,
    v: (i32, i32), bw: int, bh: int)
    requires
        search_inv(maze, start, dist, parent, queue, order, seen, bw, bh),
        bw * bh <= PLAN_CELLS,
        0 <= head < queue.len(),
        0 <= d < 4,
        v == neighbor(queue[head], d),
        in_box(v, bw, bh),
        passable(maze, v),
        dist[cell_index(v, bw)] == UNSEEN,
        dist[cell_index(queue.last(), bw)] <= dist[cell_index(queue[head], bw)] + 1,
        expanded(maze, dist, queue, head, bw, bh),
    ensures
        queue.len() < bw * bh,
        search_inv(
            maze,
            start,
            dist.update(cell_index(v, bw), (dist[cell_index(queue[head], bw)] + 1) as u32),
            parent.update(cell_index(v, bw), opposite(d) as u8),
            queue.push(v),
            order.update(cell_index(v, bw), queue.len() as int),
            seen.insert(cell_index(v, bw)), bw, bh),
        expanded(
            maze,
            dist.update(cell_index(v, bw), (dist[cell_index(queue[head], bw)] + 1) as u32),
            queue.push(v),
            head, bw, bh),
{
    let u = queue[head];
    let vi = cell_index(v, bw);
    let du = dist[cell_index(u, bw)];
    let dist2 = dist.update(vi, (du + 1) as u32);
    let parent2 = parent.update(vi, opposite(d) as u8);
    let queue2 = queue.push(v);
    let order2 = order.update(vi, queue.len() as int);
    let seen2 = seen.insert(vi);
    lemma_index_injective(v, v, bw, bh);
    assert(in_box(u, bw, bh) && dist[cell_index(u, bw)] != UNSEEN && du <= head) by {
        reveal(queue_ok);
    }
    assert(bw <= PLAN_CELLS && bh <= PLAN_CELLS) by (nonlinear_arith)
        requires 1 <= bw, 1 <= bh, bw * bh <= PLAN_CELLS;
    lemma_index_injective(start, v, bw, bh);
    lemma_index_injective(u, v, bw, bh);
    assert forall|c: (i32, i32)| in_box(c, bw, bh) && cell_index(c, bw) == vi implies c == v by {
        lemma_index_injective(c, v, bw, bh);
    }
    assert(seen_ok(dist2, queue2, seen2, bw, bh) && queue.len() < bw * bh) by {
        reveal(seen_ok);
        assert(!seen.contains(vi));
        lemma_int_range(0, bw * bh);
        lemma_len_subset(seen2, set_int_range(0, bw * bh));
        assert forall|i: int| 0 <= i < bw * bh implies (#[trigger] seen2.contains(i) <==> dist2[i]
            != UNSEEN) by {
            assert(seen.contains(i) <==> dist[i] != UNSEEN);
            if i == vi {
                assert(dist2[i] == (du + 1) as u32);
            }
        }
    }
    assert(queue_ok(dist2, queue2, order2, bw, bh)) by {
        reveal(queue_ok);
        assert forall|j: int| 0 <= j < queue2.len() implies {
            &&& in_box(#[trigger] queue2[j], bw, bh)
            &&& dist2[cell_index(queue2[j], bw)] != UNSEEN
            &&& order2[cell_index(queue2[j], bw)] == j
            &&& dist2[cell_index(queue2[j], bw)] <= j
        } by {
            if j < queue.len() {
                assert(queue2[j] == queue[j]);
                assert(dist[cell_index(queue[j], bw)] != UNSEEN);
                lemma_index_injective(queue[j], v, bw, bh);
            }
        }
    }
    assert(members_ok(dist2, queue2, order2, bw, bh)) by {
        reveal(members_ok);
        assert forall|c: (i32, i32)| in_box(c, bw, bh) && #[trigger] dist2[cell_index(c, bw)] != UNSEEN implies {
            &&& 0 <= order2[cell_index(c, bw)] < queue2.len()
            &&& queue2[order2[cell_index(c, bw)]] == c
        } by {
            lemma_index_injective(c, v, bw, bh);
            if cell_index(c, bw) != vi {
                assert(dist[cell_index(c, bw)] != UNSEEN);
            }
        }
    }
    assert(monotone(dist2, queue2, bw, bh)) by {
        reveal(monotone);
        reveal(queue_ok);
        assert forall|i: int, j: int|
            #![trigger queue2[i], queue2[j]]
            0 <= i <= j < queue2.len() implies dist2[cell_index(queue2[i], bw)] <= dist2[cell_index(queue2[j], bw)] by {
            if i < queue.len() {
                lemma_index_injective(queue[i], v, bw, bh);
            }
            if j < queue.len() {
                lemma_index_injective(queue[j], v, bw, bh);
            }
            if j < queue.len() {
                assert(dist[cell_index(queue[i], bw)] != UNSEEN && dist[cell_index(queue[j], bw)] != UNSEEN);
            } else if i < queue.len() {
                assert(dist[cell_index(queue[i], bw)] <= dist[cell_index(queue[queue.len() - 1], bw)]);
                assert(dist[cell_index(queue[i], bw)] != UNSEEN);
            }
        }
    }
    assert(links_ok(maze, start, dist2, parent2, bw, bh)) by {
        reveal(links_ok);
        assert(neighbor(v, opposite(d)) == u);
        assert forall|c: (i32, i32)|
            in_box(c, bw, bh) && #[trigger] dist2[cell_index(c, bw)] != UNSEEN && c != start implies parent_ok(
            maze,
            dist2,
            parent2,
            c, bw, bh) by {
            lemma_index_injective(c, v, bw, bh);
            if cell_index(c, bw) == vi {
                assert(c == v);
            } else {
                assert(dist[cell_index(c, bw)] != UNSEEN);
                assert(parent_ok(maze, dist, parent, c, bw, bh));
                lemma_index_injective(neighbor(c, parent[cell_index(c, bw)] as int), v, bw, bh);
            }
        }
    }
    assert(expanded(maze, dist2, queue2, head, bw, bh)) by {
        reveal(expanded);
        assert forall|j: int, c: (i32, i32)|
            0 <= j < head && #[trigger] adjacent(queue2[j], c) && in_box(c, bw, bh) && passable(maze, c) implies {
            &&& dist2[cell_index(c, bw)] != UNSEEN
            &&& dist2[cell_index(c, bw)] <= dist2[cell_index(queue2[j], bw)] + 1
        } by {
            assert(queue2[j] == queue[j]);
            assert(adjacent(queue[j], c));
            reveal(queue_ok);
            assert(dist[cell_index(queue[j], bw)] != UNSEEN);
            lemma_index_injective(c, v, bw, bh);
            lemma_index_injective(queue[j], v, bw, bh);
        }
    }
}

/// Breadth-first search from `start` inside the `width` × `height` box.
fn search(maze: &[Rect], start: (i32, i32), end: (i32, i32), width: usize, height: usize) -> (r: Option<Vec<(i32, i32)>>)
    requires
        1 <= width,
        1 <= height,
        width * height <= PLAN_CELLS,
        in_box(start, width as int, height as int),
        in_box(end, width as int, height as int),
        box_clear(maze@, width as int, height as int),
    ensures
        match r {
            Some(p) => is_shortest_path(maze@, p@, start, end),
            None => forall|q: Seq<(i32, i32)>| !is_path(maze@, q, start, end),
        },
{
    let ghost bw = width as int;
    let ghost bh = height as int;
    assert(width <= PLAN_CELLS && height <= PLAN_CELLS) by (nonlinear_arith)
        requires 1 <= width, 1 <= height, width * height <= PLAN_CELLS;
    let n = width * height;
    let mut dist: Vec<u32> = Vec::new();
    let mut parent: Vec<u8> = Vec::new();
    let mut i: usize = 0;
    while i < n
        invariant
            0 <= i <= n,
            n == bw * bh,
            dist@.len() == i,
            parent@.len() == i,
            forall|k: int| 0 <= k < i ==> dist@[k] == UNSEEN,
        decreases n - i,
    {
        dist.push(UNSEEN);
        parent.push(0);
        i += 1;
    }
    let si = index_of(start, width, height);
    proof { lemma_index_injective(start, start, bw, bh); }
    dist.set(si, 0);
    let mut queue: Vec<(i32, i32)> = Vec::new();
    queue.push(start);
    let ghost mut order: Seq<int> = Seq::new(n as nat, |k: int| 0int).update(si as int, 0);
    let ghost mut seen: Set<int> = set![si as int];
    proof {
        lemma_int_range(0, bw * bh);
        assert forall|c: (i32, i32)| in_box(c, bw, bh) && #[trigger] dist@[cell_index(c, bw)] != UNSEEN
            implies c == start by {
            lemma_index_injective(c, start, bw, bh);
        }
        assert forall|c: (i32, i32)| in_box(c, bw, bh) implies 0 <= #[trigger] cell_index(c, bw) < bw * bh by {
            lemma_index_injective(c, c, bw, bh);
        }
        reveal(seen_ok);
        reveal(queue_ok);
        reveal(members_ok);
        reveal(monotone);
        reveal(links_ok);
        reveal(expanded);
        assert forall|i: int| 0 <= i < bw * bh implies (#[trigger] seen.contains(i) <==> dist@[i] != UNSEEN) by {
        }
        assert(seen.len() == 1);
    }
    let mut head: usize = 0;
    while head < queue.len()
        invariant
            search_inv(maze@, start, dist@, parent@, queue@, order, seen, bw, bh),
            0 <= head <= queue@.len(),
            head < queue@.len() ==> dist@[cell_index(queue@.last(), bw)] <= dist@[cell_index(queue@[head as int], bw)] + 1,
            expanded(maze@, dist@, queue@, head as int, bw, bh),
            forall|j: int| 0 <= j < head ==> queue@[j] != end,
            forall|c: (i32, i32)| in_box(c, bw, bh) ==> 0 <= #[trigger] cell_index(c, bw) < bw * bh,
            bw == width && bh == height && n == bw * bh,
            width * height <= PLAN_CELLS,
            width <= PLAN_CELLS && height <= PLAN_CELLS,
            box_clear(maze@, bw, bh),
            in_box(end, bw, bh),
        decreases n - head,
    {
        let u = queue[head];
        assert(in_box(u, bw, bh) && dist@[cell_index(u, bw)] <= head) by {
            reveal(queue_ok);
        }
        let ui = index_of(u, width, height);
        if u.0 == end.0 && u.1 == end.1 {
            let path = trace_back(Ghost(maze@), start, end, &dist, &parent, width, height);
            proof { reveal(queue_ok); }
            proof {
                assert forall|q: Seq<(i32, i32)>| #[trigger] is_path(maze@, q, start, end) implies path@.len() <= q.len() by {
                    if q.len() <= dist@[cell_index(end, bw)] {
                        lemma_path_prefix_expanded(maze@, start, end, dist@, parent@, queue@, order, seen, head as int, q, q.len() - 1, bw, bh);
                    }
                }
            }
            return Some(path);
        }
        let du = dist[ui];
        let mut d: u8 = 0;
        while d < 4
            invariant
                search_inv(maze@, start, dist@, parent@, queue@, order, seen, bw, bh),
                0 <= head < queue@.len(),
                queue@[head as int] == u,
                in_box(u, bw, bh),
                du == dist@[cell_index(u, bw)],
                du <= head,
                dist@[cell_index(queue@.last(), bw)] <= du + 1,
                expanded(maze@, dist@, queue@, head as int, bw, bh),
                forall|j: int| 0 <= j < head ==> queue@[j] != end,
                forall|c: (i32, i32)| in_box(c, bw, bh) ==> 0 <= #[trigger] cell_index(c, bw) < bw * bh,
                bw == width && bh == height && n == bw * bh,
                width * height <= PLAN_CELLS,
                width <= PLAN_CELLS && height <= PLAN_CELLS,
                0 <= d <= 4,
                forall|e: int| 0 <= e < d && in_box(neighbor(u, e), bw, bh) && passable(maze@, #[trigger] neighbor(u, e)) ==> {
                    &&& dist@[cell_index(neighbor(u, e), bw)] != UNSEEN
                    &&& dist@[cell_index(neighbor(u, e), bw)] <= du + 1
                },
            decreases 4 - d,
        {
            let (nx, ny) = if d == 0 {
                (u.0, u.1 + 1)
            } else if d == 1 {
                (u.0, u.1 - 1)
            } else if d == 2 {
                (u.0 + 1, u.1)
            } else {
                (u.0 - 1, u.1)
            };
            let v = (nx, ny);
            assert(v == neighbor(u, d as int));
            let ghost dist0 = dist@;
            if nx >= 0 && (nx as usize) < width && ny >= 0 && (ny as usize) < height && cell_passable(maze, nx, ny) {
                let vi = index_of(v, width, height);
                assert(vi == cell_index(v, bw));
                if dist[vi] != UNSEEN {
                    proof {
                        reveal(members_ok);
                        reveal(monotone);
                        let o = order[cell_index(v, bw)];
                        assert(queue@[o] == v);
                        assert(dist@[cell_index(queue@[o], bw)] <= dist@[cell_index(queue@[queue@.len() - 1], bw)]);
                    }
                } else {
                    proof {
                        lemma_reach(maze@, start, dist@, parent@, queue@, order, seen, head as int, d as int, v, bw, bh);
                        order = order.update(vi as int, queue@.len() as int);
                        seen = seen.insert(vi as int);
                    }
                    assert(cell_index(u, bw) != vi as int);
                    let od: u8 = if d == 0 { 1 } else if d == 1 { 0 } else if d == 2 { 3 } else { 2 };
                    dist.set(vi, du + 1);
                    parent.set(vi, od);
                    queue.push(v);
                }
                assert(dist@[cell_index(v, bw)] != UNSEEN && dist@[cell_index(v, bw)] <= du + 1);
            }
            proof {
                assert forall|e: int| 0 <= e < d + 1 && in_box(neighbor(u, e), bw, bh) && passable(maze@, #[trigger] neighbor(u, e)) implies {
                    &&& dist@[cell_index(neighbor(u, e), bw)] != UNSEEN
                    &&& dist@[cell_index(neighbor(u, e), bw)] <= du + 1
                } by {
                    if e < d {
                        assert(dist0[cell_index(neighbor(u, e), bw)] != UNSEEN);
                        assert(dist0[cell_index(neighbor(u, e), bw)] <= du + 1);
                        assert(dist@[cell_index(neighbor(u, e), bw)] == dist0[cell_index(neighbor(u, e), bw)]);
                    } else {
                        assert(neighbor(u, e) == v);
                    }
                }
            }
            d += 1;
        }
        proof {
            assert forall|j: int, c: (i32, i32)|
                0 <= j < head + 1 && #[trigger] adjacent(queue@[j], c) && in_box(c, bw, bh) && passable(maze@, c) implies {
                &&& dist@[cell_index(c, bw)] != UNSEEN
                &&& dist@[cell_index(c, bw)] <= dist@[cell_index(queue@[j], bw)] + 1
            } by {
                reveal(expanded);
                if j == head {
                    lemma_adjacent_is_neighbor(u, c);
                }
            }
            reveal(expanded);
            if head + 1 < queue@.len() {
                reveal(monotone);
                assert(dist@[cell_index(queue@[head as int], bw)] <= dist@[cell_index(queue@[head + 1], bw)]);
            }
        }
        head += 1;
    }
    proof {
        assert forall|q: Seq<(i32, i32)>| !is_path(maze@, q, start, end) by {
            if is_path(maze@, q, start, end) {
                lemma_path_prefix_expanded(maze@, start, end, dist@, parent@, queue@, order, seen, head as int, q, q.len() - 1, bw, bh);
                reveal(members_ok);
                let o = order[cell_index(end, bw)];
                assert(queue@[o] == end);
            }
        }
    }
    None
}



/// A path from `start` with at least two cells, less its first cell, is a
/// path from its second cell.
proof fn lemma_path_tail(maze: Seq<Rect>, q: Seq<(i32, i32)>, start: (i32, i32), goal: (i32, i32))
    requires
        is_path(maze, q, start, goal),
        q.len() >= 2,
    ensures
        is_path(maze, q.subrange(1, q.len() as int), q[1], goal),
{
    let t = q.subrange(1, q.len() as int);
    assert forall|i: int| 1 <= i < t.len() implies passable(maze, #[trigger] t[i]) && adjacent(t[i - 1], t[i]) by {
        assert(t[i] == q[i + 1] && t[i - 1] == q[i]);
    }
}

/// A shortest 4-directional path from `start` to `goal`, both included,
/// whose cells after the start have non-negative coordinates and lie in no
/// wall; `None` when no such path exists. The search is breadth-first,
/// trying the neighbours of each cell down, up, right, left, inside the box
/// that reaches one cell past every wall, the start and the goal; with unit
/// steps it finds paths of the length an A* search under the Manhattan
/// heuristic finds. The box must fit in `PLAN_CELLS` cells.
pub fn find_path(maze: &[Rect], start: (i32, i32), end: (i32, i32)) -> (r: Option<Vec<(i32, i32)>>)
    requires
        box_w(maze@, start, end) * box_h(maze@, start, end) <= PLAN_CELLS,
    ensures
        match r {
            Some(p) => is_shortest_path(maze@, p@, start, end),
            None => forall|q: Seq<(i32, i32)>| !is_path(maze@, q, start, end),
        },
{
    if start.0 == end.0 && start.1 == end.1 {
        let mut p: Vec<(i32, i32)> = Vec::new();
        p.push(start);
        assert(is_path(maze@, p@, start, end));
        return Some(p);
    }
    if end.0 < 0 || end.1 < 0 {
        proof {
            assert forall|q: Seq<(i32, i32)>| !is_path(maze@, q, start, end) by {
                if is_path(maze@, q, start, end) {
                    assert(q.len() > 1);
                    assert(passable(maze@, q[q.len() - 1]));
                }
            }
        }
        return None;
    }
    let (width, height) = search_box(maze, start, end);
    proof {
        lemma_box_clear(maze@, start, end);
    }
    if start.0 >= 0 && start.1 >= 0 {
        return search(maze, start, end, width, height);
    }
    let entry: (i32, i32);
    if start.0 == -1 && start.1 >= 0 {
        entry = (0, start.1);
    } else if start.1 == -1 && start.0 >= 0 {
        entry = (start.0, 0);
    } else {
        proof {
            assert forall|q: Seq<(i32, i32)>| !is_path(maze@, q, start, end) by {
                if is_path(maze@, q, start, end) {
                    assert(q.len() > 1);
                    assert(passable(maze@, q[1]) && adjacent(q[0], q[1]));
                }
            }
        }
        return None;
    }
    assert forall|q: Seq<(i32, i32)>| #[trigger] is_path(maze@, q, start, end) implies q.len() >= 2 && q[1] == entry by {
        assert(q.len() > 1);
        assert(passable(maze@, q[1]) && adjacent(q[0], q[1]));
    }
    if !cell_passable(maze, entry.0, entry.1) {
        proof {
            assert forall|q: Seq<(i32, i32)>| !is_path(maze@, q, start, end) by {
                if is_path(maze@, q, start, end) {
                    assert(passable(maze@, q[1]));
                }
            }
        }
        return None;
    }
    match search(maze, entry, end, width, height) {
        Some(p) => {
            let mut r: Vec<(i32, i32)> = Vec::new();
            r.push(start);
            let mut i: usize = 0;
            while i < p.len()
                invariant
                    0 <= i <= p@.len(),
                    r@ == seq![start] + p@.take(i as int),
                decreases p@.len() - i,
            {
                r.push(p[i]);
                assert(r@ =~= seq![start] + p@.take(i + 1));
                i += 1;
            }
            proof {
                assert(p@.take(p@.len() as int) =~= p@);
                assert(is_path(maze@, p@, entry, end));
                assert forall|i: int| 1 <= i < r@.len() implies passable(maze@, #[trigger] r@[i]) && adjacent(r@[i - 1], r@[i]) by {
                    assert(r@[i] == p@[i - 1]);
                    if i >= 2 {
                        assert(r@[i - 1] == p@[i - 2]);
                    }
                }
                assert(r@.last() == p@.last());
                assert forall|q: Seq<(i32, i32)>| #[trigger] is_path(maze@, q, start, end) implies r@.len() <= q.len() by {
                    lemma_path_tail(maze@, q, start, end);
                }
            }
            Some(r)
        },
        None => {
            proof {
                assert forall|q: Seq<(i32, i32)>| !is_path(maze@, q, start, end) by {
                    if is_path(maze@, q, start, end) {
                        lemma_path_tail(maze@, q, start, end);
                    }
                }
            }
            None
        },
    }
}

pub open spec fn abs(v: int) -> int {
    if v >= 0 { v } else { -v }
}

/// The 4-directional grid distance between two cells.
pub open spec fn manhattan(a: (i32, i32), b: (i32, i32)) -> int {
    abs(a.0 - b.0) + abs(a.1 - b.1)
}

proof fn lemma_prefix_distance(maze: Seq<Rect>, p: Seq<(i32, i32)>, start: (i32, i32), goal: (i32, i32), j: int)
    requires
        is_path(maze, p, start, goal),
        0 <= j < p.len(),
    ensures
        manhattan(start, p[j]) <= j,
    decreases j,
{
    if j > 0 {
        lemma_prefix_distance(maze, p, start, goal, j - 1);
        assert(adjacent(p[j - 1], p[j]));
    }
}

/// The coordinate `i` unit steps from `from` in the direction of `to`.
pub open spec fn toward(from: int, to: int, i: int) -> int {
    if to >= from { from + i } else { from - i }
}

/// The path that first walks along the row to the goal's column, then along
/// the column to the goal.
pub open spec fn staircase(start: (i32, i32), goal: (i32, i32)) -> Seq<(i32, i32)> {
    let ax = abs(goal.0 - start.0);
    let ay = abs(goal.1 - start.1);
    Seq::new(
        (ax + ay + 1) as nat,
        |i: int|
            if i <= ax {
                (toward(start.0 as int, goal.0 as int, i) as i32, start.1)
            } else {
                (goal.0, toward(start.1 as int, goal.1 as int, i - ax) as i32)
            },
    )
}

#[verifier::rlimit(60)]
proof fn lemma_staircase(start: (i32, i32), goal: (i32, i32))
    requires
        start.0 >= 0 && start.1 >= 0,
        goal.0 >= 0 && goal.1 >= 0,
    ensures
        is_path(Seq::empty(), staircase(start, goal), start, goal),
{
    let maze = Seq::<Rect>::empty();
    let q = staircase(start, goal);
    let ax = abs(goal.0 - start.0);
    assert forall|i: int| 1 <= i < q.len() implies passable(maze, #[trigger] q[i]) && adjacent(q[i - 1], q[i]) by {
        if i <= ax {
        } else if i == ax + 1 {
        }
    }
    assert(q.last() == goal);
}

/// With no walls, any two cells with non-negative coordinates are joined by a path, and a
/// shortest path has exactly one cell more than their Manhattan distance.
#[verifier::rlimit(100)]
pub proof fn lemma_open_field_distance(start: (i32, i32), goal: (i32, i32))
    requires
        start.0 >= 0 && start.1 >= 0,
        goal.0 >= 0 && goal.1 >= 0,
    ensures
        is_path(Seq::empty(), staircase(start, goal), start, goal),
        forall|p: Seq<(i32, i32)>|
            #[trigger] is_shortest_path(Seq::empty(), p, start, goal) ==> p.len() == manhattan(start, goal) + 1,
{
    let maze = Seq::<Rect>::empty();
    let q = staircase(start, goal);
    lemma_staircase(start, goal);
    assert forall|p: Seq<(i32, i32)>| #[trigger] is_shortest_path(maze, p, start, goal) implies p.len() == manhattan(
        start,
        goal,
    ) + 1 by {
        lemma_prefix_distance(maze, p, start, goal, p.len() - 1);
        lemma_prefix_distance(maze, q, start, goal, q.len() - 1);
    }
}

/// The cell lies on the border of the box with corners `(x0, y0)` and `(x1, y1)`.
pub open spec fn on_border(x0: int, y0: int, x1: int, y1: int, c: (i32, i32)) -> bool {
    ||| x0 <= c.0 <= x1 && (c.1 == y0 || c.1 == y1)
    ||| y0 <= c.1 <= y1 && (c.0 == x0 || c.0 == x1)
}

/// The cell lies strictly within the border of the box.
pub open spec fn within_ring(x0: int, y0: int, x1: int, y1: int, c: (i32, i32)) -> bool {
    x0 < c.0 < x1 && y0 < c.1 < y1
}

/// Walls cover every cell of the border of the box: a ring with no gap.
pub open spec fn solid_ring(maze: Seq<Rect>, x0: int, y0: int, x1: int, y1: int) -> bool {
    forall|c: (i32, i32)| #[trigger] on_border(x0, y0, x1, y1, c) ==> cell_blocked(maze, c.0 as int, c.1 as int)
}

proof fn lemma_ring_forward(maze: Seq<Rect>, x0: int, y0: int, x1: int, y1: int, p: Seq<(i32, i32)>, start: (i32, i32), goal: (i32, i32), j: int)
    requires
        solid_ring(maze, x0, y0, x1, y1),
        within_ring(x0, y0, x1, y1, start),
        is_path(maze, p, start, goal),
        0 <= j < p.len(),
    ensures
        within_ring(x0, y0, x1, y1, p[j]),
    decreases j,
{
    if j > 0 {
        lemma_ring_forward(maze, x0, y0, x1, y1, p, start, goal, j - 1);
        assert(passable(maze, p[j]) && adjacent(p[j - 1], p[j]));
        if !within_ring(x0, y0, x1, y1, p[j]) {
            assert(on_border(x0, y0, x1, y1, p[j]));
        }
    }
}

proof fn lemma_ring_backward(maze: Seq<Rect>, x0: int, y0: int, x1: int, y1: int, p: Seq<(i32, i32)>, start: (i32, i32), goal: (i32, i32), j: int)
    requires
        solid_ring(maze, x0, y0, x1, y1),
        within_ring(x0, y0, x1, y1, goal),
        !(x0 <= start.0 <= x1 && y0 <= start.1 <= y1),
        is_path(maze, p, start, goal),
        1 <= j < p.len(),
    ensures
        within_ring(x0, y0, x1, y1, p[j]),
    decreases p.len() - j,
{
    if j < p.len() - 1 {
        lemma_ring_backward(maze, x0, y0, x1, y1, p, start, goal, j + 1);
        assert(passable(maze, p[j + 1]) && adjacent(p[j], p[j + 1]));
        assert(passable(maze, p[j]));
        if !within_ring(x0, y0, x1, y1, p[j]) {
            assert(on_border(x0, y0, x1, y1, p[j]));
        }
    }
}

/// A solid wall ring separates its inside from its outside: no path leads
/// from a cell within it to a cell that is not, nor from a cell off the ring
/// and its inside to a cell within it.
pub proof fn lemma_ring_separates(maze: Seq<Rect>, x0: int, y0: int, x1: int, y1: int, start: (i32, i32), goal: (i32, i32))
    requires
        solid_ring(maze, x0, y0, x1, y1),
        ({
            ||| within_ring(x0, y0, x1, y1, start) && !within_ring(x0, y0, x1, y1, goal)
            ||| !(x0 <= start.0 <= x1 && y0 <= start.1 <= y1) && within_ring(x0, y0, x1, y1, goal)
        }),
    ensures
        forall|q: Seq<(i32, i32)>| !#[trigger] is_path(maze, q, start, goal),
{
    assert forall|q: Seq<(i32, i32)>| !#[trigger] is_path(maze, q, start, goal) by {
        if is_path(maze, q, start, goal) {
            if within_ring(x0, y0, x1, y1, start) {
                lemma_ring_forward(maze, x0, y0, x1, y1, q, start, goal, q.len() - 1);
            } else if q.len() == 1 {
                assert(q[0] == goal);
            } else {
                lemma_ring_backward(maze, x0, y0, x1, y1, q, start, goal, 1);
                assert(adjacent(q[0], q[1]));
            }
        }
    }
}

} // verus!
