//! Maze generation: a randomized depth-first carve over a grid of cells,
//! turned into wall rectangles and closed by four boundary walls.
use vstd::prelude::*;
use vstd::set_lib::*;
use crate::geometry::Rect;

verus! {

/// Thickness of the four boundary walls.
pub const BOUNDARY_THICKNESS: i32 = 20;

#[verifier::external_type_specification]
#[verifier::external_body]
pub struct ExStdRng(rand::rngs::StdRng);

/// Relies on rand's `SeedableRng::seed_from_u64` for `StdRng`: a generator
/// whose whole output is fixed by the seed.
#[verifier::external_body]
fn seeded_rng(seed: u64) -> (r: rand::rngs::StdRng) {
    <rand::rngs::StdRng as rand::SeedableRng>::seed_from_u64(seed)
}

/// Relies on rand's `SliceRandom::shuffle`, which only swaps elements: the
/// result is a permutation of the input.
#[verifier::external_body]
fn shuffle_cells(cells: &mut Vec<(usize, usize)>, rng: &mut rand::rngs::StdRng)
    ensures
        final(cells)@.to_multiset() =~= old(cells)@.to_multiset(),
{
    rand::seq::SliceRandom::shuffle(cells.as_mut_slice(), rng)
}

/// The grid has `h` rows of `w` cells each; `true` marks a wall cell.
pub open spec fn well_sized(g: Seq<Vec<bool>>, w: int, h: int) -> bool {
    &&& g.len() == h
    &&& forall|y: int| 0 <= y < h ==> #[trigger] g[y]@.len() == w
}

pub open spec fn in_grid(w: int, h: int, x: int, y: int) -> bool {
    0 <= x < w && 0 <= y < h
}

pub open spec fn is_open(g: Seq<Vec<bool>>, x: int, y: int) -> bool {
    !g[y]@[x]
}

/// Every in-bounds 4-neighbour of `(x, y)` is open.
pub open spec fn neighbors_open(g: Seq<Vec<bool>>, w: int, h: int, x: int, y: int) -> bool {
    &&& x > 0 ==> is_open(g, x - 1, y)
    &&& x + 1 < w ==> is_open(g, x + 1, y)
    &&& y > 0 ==> is_open(g, x, y - 1)
    &&& y + 1 < h ==> is_open(g, x, y + 1)
}

/// The state the carve leaves: the origin is open, and every open cell has
/// opened all its neighbours.
pub open spec fn carved(g: Seq<Vec<bool>>, w: int, h: int) -> bool {
    &&& well_sized(g, w, h)
    &&& w >= 1 && h >= 1
    &&& is_open(g, 0, 0)
    &&& forall|x: int, y: int|
        in_grid(w, h, x, y) && #[trigger] is_open(g, x, y) ==> neighbors_open(g, w, h, x, y)
}

/// `(x, y)` can be reached from the origin in at most `k` 4-directional moves
/// through open cells.
pub open spec fn reach_within(g: Seq<Vec<bool>>, w: int, h: int, k: nat, x: int, y: int) -> bool
    decreases k,
{
    if k == 0 {
        x == 0 && y == 0 && is_open(g, 0, 0)
    } else {
        ||| reach_within(g, w, h, (k - 1) as nat, x, y)
        ||| in_grid(w, h, x, y) && is_open(g, x, y) && {
            ||| reach_within(g, w, h, (k - 1) as nat, x - 1, y)
            ||| reach_within(g, w, h, (k - 1) as nat, x + 1, y)
            ||| reach_within(g, w, h, (k - 1) as nat, x, y - 1)
            ||| reach_within(g, w, h, (k - 1) as nat, x, y + 1)
        }
    }
}

/// In a carved grid every cell is open.
pub proof fn lemma_carved_all_open(g: Seq<Vec<bool>>, w: int, h: int, x: int, y: int)
    requires
        carved(g, w, h),
        in_grid(w, h, x, y),
    ensures
        is_open(g, x, y),
    decreases x + y,
{
    if x > 0 {
        lemma_carved_all_open(g, w, h, x - 1, y);
    } else if y > 0 {
        lemma_carved_all_open(g, w, h, x, y - 1);
    }
}

/// Every open cell of a carved grid is reachable from the origin through open
/// cells, in `x + y` moves.
#[verifier::rlimit(30)]
pub proof fn lemma_carved_connected(g: Seq<Vec<bool>>, w: int, h: int, x: int, y: int)
    requires
        carved(g, w, h),
        in_grid(w, h, x, y),
        is_open(g, x, y),
    ensures
        reach_within(g, w, h, (x + y) as nat, x, y),
    decreases x + y,
{
    let k = (x + y) as nat;
    if x > 0 {
        lemma_carved_all_open(g, w, h, x - 1, y);
        lemma_carved_connected(g, w, h, x - 1, y);
        assert(reach_within(g, w, h, (k - 1) as nat, x - 1, y));
    } else if y > 0 {
        lemma_carved_all_open(g, w, h, x, y - 1);
        lemma_carved_connected(g, w, h, x, y - 1);
        assert(reach_within(g, w, h, (k - 1) as nat, x, y - 1));
    }
}


proof fn lemma_grid_index(w: int, h: int, x: int, y: int, x2: int, y2: int)
    requires
        in_grid(w, h, x, y),
        in_grid(w, h, x2, y2),
    ensures
        0 <= y * w + x < w * h,
        y * w + x == y2 * w + x2 ==> x == x2 && y == y2,
{
    assert(0 <= y * w + x < w * h) by (nonlinear_arith)
        requires 0 <= x < w, 0 <= y < h;
    if y < y2 {
        assert(y * w + x < y2 * w + x2) by (nonlinear_arith)
            requires 0 <= x < w, 0 <= x2, y < y2;
    } else if y2 < y {
        assert(y2 * w + x2 < y * w + x) by (nonlinear_arith)
            requires 0 <= x2 < w, 0 <= x, y2 < y;
    }
}

/// Open-cell bookkeeping of the carve: `opened` holds the index of each open cell.
spec fn opened_ok(g: Seq<Vec<bool>>, w: int, h: int, opened: Set<int>) -> bool {
    &&& opened.finite()
    &&& opened.subset_of(set_int_range(0, w * h))
    &&& forall|x: int, y: int|
        in_grid(w, h, x, y) ==> (opened.contains(y * w + x) <==> #[trigger] is_open(g, x, y))
}

/// Every open cell is still waiting on the stack or has opened its neighbours.
spec fn frontier_ok(g: Seq<Vec<bool>>, w: int, h: int, stack: Seq<(usize, usize)>, skip: (int, int)) -> bool {
    forall|x: int, y: int|
        in_grid(w, h, x, y) && #[trigger] is_open(g, x, y) ==> {
            ||| stack.contains((x as usize, y as usize))
            ||| neighbors_open(g, w, h, x, y)
            ||| (x, y) == skip
        }
}

spec fn stack_ok(g: Seq<Vec<bool>>, w: int, h: int, stack: Seq<(usize, usize)>) -> bool {
    forall|j: int|
        0 <= j < stack.len() ==> in_grid(w, h, #[trigger] stack[j].0 as int, stack[j].1 as int)
            && is_open(g, stack[j].0 as int, stack[j].1 as int)
}

/// The in-bounds 4-neighbours of `(cx, cy)`: left, right, up, down.
fn grid_neighbors(cx: usize, cy: usize, width: usize, height: usize) -> (r: Vec<(usize, usize)>)
    requires
        cx < width,
        cy < height,
    ensures
        forall|j: int| 0 <= j < r@.len() ==> in_grid(width as int, height as int, #[trigger] r@[j].0 as int, r@[j].1 as int),
        cx > 0 ==> r@.contains(((cx - 1) as usize, cy)),
        cx + 1 < width ==> r@.contains(((cx + 1) as usize, cy)),
        cy > 0 ==> r@.contains((cx, (cy - 1) as usize)),
        cy + 1 < height ==> r@.contains((cx, (cy + 1) as usize)),
{
    let mut r: Vec<(usize, usize)> = Vec::new();
    if cx > 0 {
        r.push((cx - 1, cy));
    }
    let ghost i1 = r@.len() as int;
    if cx + 1 < width {
        r.push((cx + 1, cy));
    }
    let ghost i2 = r@.len() as int;
    if cy > 0 {
        r.push((cx, cy - 1));
    }
    let ghost i3 = r@.len() as int;
    if cy + 1 < height {
        r.push((cx, cy + 1));
    }
    proof {
        if cx > 0 {
            assert(r@[0] == ((cx - 1) as usize, cy));
        }
        if cx + 1 < width {
            assert(r@[i1] == ((cx + 1) as usize, cy));
        }
        if cy > 0 {
            assert(r@[i2] == (cx, (cy - 1) as usize));
        }
        if cy + 1 < height {
            assert(r@[i3] == (cx, (cy + 1) as usize));
        }
    }
    r
}

/// Randomized depth-first carve of a `width` × `height` grid of wall cells,
/// starting from the origin: each cell taken from the stack opens, in an
/// order drawn from `rng`, every neighbour that is still a wall, and pushes it.
pub fn carve(width: usize, height: usize, rng: &mut rand::rngs::StdRng) -> (g: Vec<Vec<bool>>)
    requires
        1 <= width,
        1 <= height,
    ensures
        carved(g@, width as int, height as int),
{
    let ghost w = width as int;
    let ghost h = height as int;
    let mut g: Vec<Vec<bool>> = Vec::new();
    let mut y: usize = 0;
    while y < height
        invariant
            0 <= y <= height,
            g@.len() == y,
            forall|yy: int| 0 <= yy < y ==> #[trigger] g@[yy]@.len() == width,
            forall|xx: int, yy: int| 0 <= yy < y && 0 <= xx < width ==> !is_open(g@, xx, yy),
        decreases height - y,
    {
        let mut row: Vec<bool> = Vec::new();
        let mut x: usize = 0;
        while x < width
            invariant
                0 <= x <= width,
                row@.len() == x,
                forall|xx: int| 0 <= xx < x ==> row@[xx],
            decreases width - x,
        {
            row.push(true);
            x += 1;
        }
        let ghost g0 = g@;
        let ghost rv = row@;
        g.push(row);
        proof {
            assert forall|xx: int, yy: int| 0 <= yy < y + 1 && 0 <= xx < width implies !is_open(g@, xx, yy) by {
                if yy < y {
                    assert(!is_open(g0, xx, yy));
                    assert(g@[yy] == g0[yy]);
                } else {
                    assert(rv[xx]);
                    assert(g@[yy]@ == rv);
                }
            }
        }
        y += 1;
    }
    let ghost g0 = g@;
    g[0].set(0, false);
    proof {
        assert forall|yy: int| 0 < yy < h implies #[trigger] g@[yy] == g0[yy] by {}
        assert(g@[0]@ == g0[0]@.update(0, false));
        assert forall|x: int, y: int| in_grid(w, h, x, y) implies (is_open(g@, x, y) <==> (x == 0 && y == 0)) by {
            assert(!is_open(g0, x, y));
            if y != 0 {
                assert(g@[y] == g0[y]);
            }
        }
    }
    let mut stack: Vec<(usize, usize)> = Vec::new();
    stack.push((0, 0));
    let ghost mut opened: Set<int> = set![0int];
    proof {
        lemma_grid_index(w, h, 0, 0, 0, 0);
        assert(stack@[0] == (0usize, 0usize));
        assert forall|x: int, y: int|
            in_grid(w, h, x, y) implies (opened.contains(y * w + x) <==> #[trigger] is_open(g@, x, y)) by {
            lemma_grid_index(w, h, x, y, 0, 0);
        }
        assert forall|x: int, y: int| in_grid(w, h, x, y) && #[trigger] is_open(g@, x, y) implies {
            ||| stack@.contains((x as usize, y as usize))
            ||| neighbors_open(g@, w, h, x, y)
            ||| (x, y) == (-1int, -1int)
        } by {
            assert(x == 0 && y == 0);
            assert(stack@[0] == (x as usize, y as usize));
        }
        lemma_int_range(0, w * h);
        assert(opened.subset_of(set_int_range(0, w * h)));
    }
    loop
        invariant
            w == width && h == height,
            1 <= width,
            1 <= height,
            well_sized(g@, w, h),
            is_open(g@, 0, 0),
            stack_ok(g@, w, h, stack@),
            frontier_ok(g@, w, h, stack@, (-1, -1)),
            opened_ok(g@, w, h, opened),
        ensures
            carved(g@, w, h),
        decreases (w * h - opened.len()) + stack@.len(),
    {
        proof {
            lemma_int_range(0, w * h);
            lemma_len_subset(opened, set_int_range(0, w * h));
        }
        let ghost stack0 = stack@;
        let top = stack.pop();
        match top {
            None => {
                proof {
                    assert forall|x: int, y: int|
                        in_grid(w, h, x, y) && #[trigger] is_open(g@, x, y) implies neighbors_open(g@, w, h, x, y) by {
                        if stack0.contains((x as usize, y as usize)) {
                            let j = choose|j: int| 0 <= j < stack0.len() && stack0[j] == (x as usize, y as usize);
                        }
                    }
                }
                break;
            },
            Some(c) => {
                let (cx, cy) = c;
                proof {
                    assert(stack0[stack0.len() - 1] == c);
                    assert(in_grid(w, h, cx as int, cy as int));
                    assert forall|x: int, y: int| in_grid(w, h, x, y) && #[trigger] is_open(g@, x, y) implies {
                        ||| stack@.contains((x as usize, y as usize))
                        ||| neighbors_open(g@, w, h, x, y)
                        ||| (x, y) == (cx as int, cy as int)
                    } by {
                        if stack0.contains((x as usize, y as usize)) && (x, y) != (cx as int, cy as int) {
                            let j = choose|j: int| 0 <= j < stack0.len() && stack0[j] == (x as usize, y as usize);
                            assert(j != stack0.len() - 1);
                            assert(stack@[j] == stack0[j]);
                        }
                    }
                }
                let mut nbrs = grid_neighbors(cx, cy, width, height);
                let ghost listed = nbrs@;
                proof {
                    assert forall|n: (usize, usize)| #[trigger] listed.contains(n) implies in_grid(w, h, n.0 as int, n.1 as int) by {
                        let j = choose|j: int| 0 <= j < listed.len() && listed[j] == n;
                    }
                }
                shuffle_cells(&mut nbrs, rng);
                proof {
                    broadcast use vstd::seq_lib::group_to_multiset_ensures;
                    assert forall|n: (usize, usize)| listed.contains(n) implies nbrs@.contains(n) by {
                        assert(listed.to_multiset().count(n) > 0);
                    }
                    assert forall|n: (usize, usize)| nbrs@.contains(n) implies listed.contains(n) by {
                        assert(nbrs@.to_multiset().count(n) > 0);
                    }
                }
                let ghost measure = (w * h - opened.len()) + stack@.len();
                let mut k: usize = 0;
                while k < nbrs.len()
                    invariant
                        w == width && h == height,
                        1 <= width,
                        1 <= height,
                        in_grid(w, h, cx as int, cy as int),
                        forall|n: (usize, usize)| nbrs@.contains(n) <==> listed.contains(n),
                        forall|n: (usize, usize)| #[trigger] listed.contains(n) ==> in_grid(w, h, n.0 as int, n.1 as int),
                        0 <= k <= nbrs@.len(),
                        forall|j: int| 0 <= j < k ==> is_open(g@, #[trigger] nbrs@[j].0 as int, nbrs@[j].1 as int),
                        well_sized(g@, w, h),
                        is_open(g@, 0, 0),
                        is_open(g@, cx as int, cy as int),
                        stack_ok(g@, w, h, stack@),
                        frontier_ok(g@, w, h, stack@, (cx as int, cy as int)),
                        opened_ok(g@, w, h, opened),
                        (w * h - opened.len()) + stack@.len() == measure,
                    decreases nbrs@.len() - k,
                {
                    let (nx, ny) = nbrs[k];
                    proof {
                        assert(nbrs@.contains(nbrs@[k as int]));
                        assert(listed.contains(nbrs@[k as int]));
                        assert(in_grid(w, h, nx as int, ny as int));
                    }
                    if g[ny][nx] {
                        let ghost g0 = g@;
                        let ghost stack1 = stack@;
                        let ghost idx = ny as int * w + nx as int;
                        proof {
                            lemma_grid_index(w, h, nx as int, ny as int, nx as int, ny as int);
                            lemma_int_range(0, w * h);
                            lemma_len_subset(opened, set_int_range(0, w * h));
                            assert(!is_open(g@, nx as int, ny as int));
                            assert(!opened.contains(idx));
                        }
                        g[ny].set(nx, false);
                        stack.push((nx, ny));
                        let ghost opened0 = opened;
                        proof {
                            opened = opened.insert(idx);
                            assert(g@[ny as int]@ == g0[ny as int]@.update(nx as int, false));
                            assert forall|yy: int| 0 <= yy < h && yy != ny implies #[trigger] g@[yy] == g0[yy] by {}
                            assert(well_sized(g@, w, h));
                            assert forall|x: int, y: int| in_grid(w, h, x, y) implies (is_open(g@, x, y) <==> (
                            is_open(g0, x, y) || (x == nx && y == ny))) by {
                                if y != ny {
                                    assert(g@[y] == g0[y]);
                                }
                            }
                            assert forall|x: int, y: int| in_grid(w, h, x, y) implies (opened.contains(y * w + x)
                                <==> #[trigger] is_open(g@, x, y)) by {
                                lemma_grid_index(w, h, x, y, nx as int, ny as int);
                                assert(opened0.contains(y * w + x) <==> is_open(g0, x, y));
                            }
                            assert forall|j: int| 0 <= j < stack@.len() implies in_grid(w, h, #[trigger] stack@[j].0 as int, stack@[j].1 as int)
                                && is_open(g@, stack@[j].0 as int, stack@[j].1 as int) by {
                                if j < stack1.len() {
                                    assert(stack@[j] == stack1[j]);
                                }
                            }
                            assert forall|x: int, y: int| in_grid(w, h, x, y) && #[trigger] is_open(g@, x, y) implies {
                                ||| stack@.contains((x as usize, y as usize))
                                ||| neighbors_open(g@, w, h, x, y)
                                ||| (x, y) == (cx as int, cy as int)
                            } by {
                                if x == nx && y == ny {
                                    assert(stack@[stack@.len() - 1] == (x as usize, y as usize));
                                } else {
                                    assert(is_open(g0, x, y));
                                    if stack1.contains((x as usize, y as usize)) {
                                        let j = choose|j: int| 0 <= j < stack1.len() && stack1[j] == (x as usize, y as usize);
                                        assert(stack@[j] == stack1[j]);
                                    }
                                }
                            }
                            assert forall|j: int| 0 <= j < k + 1 implies is_open(g@, #[trigger] nbrs@[j].0 as int, nbrs@[j].1 as int) by {
                                if j < k {
                                    assert(is_open(g0, nbrs@[j].0 as int, nbrs@[j].1 as int));
                                    assert(nbrs@.contains(nbrs@[j]));
                                    assert(listed.contains(nbrs@[j]));
                                }
                            }
                        }
                    }
                    k += 1;
                }
                proof {
                    assert forall|x: int, y: int| in_grid(w, h, x, y) && #[trigger] is_open(g@, x, y) implies {
                        ||| stack@.contains((x as usize, y as usize))
                        ||| neighbors_open(g@, w, h, x, y)
                        ||| (x, y) == (-1int, -1int)
                    } by {
                        if x == cx && y == cy {
                            assert forall|n: (usize, usize)| listed.contains(n) implies is_open(g@, n.0 as int, n.1 as int) by {
                                assert(nbrs@.contains(n));
                                let j = choose|j: int| 0 <= j < nbrs@.len() && nbrs@[j] == n;
                            }
                            if cx > 0 {
                                assert(listed.contains(((cx - 1) as usize, cy)));
                            }
                            if cx + 1 < width {
                                assert(listed.contains(((cx + 1) as usize, cy)));
                            }
                            if cy > 0 {
                                assert(listed.contains((cx, (cy - 1) as usize)));
                            }
                            if cy + 1 < height {
                                assert(listed.contains((cx, (cy + 1) as usize)));
                            }
                        }
                    }
                }
            },
        }
    }
    g
}


/// The wall rectangle of grid cell `(x, y)`.
pub open spec fn cell_rect(x: int, y: int, cell_size: int) -> Rect {
    Rect { x: (x * cell_size) as i32, y: (y * cell_size) as i32, w: cell_size as u32, h: cell_size as u32 }
}

/// Rectangles of the wall cells among the first `n` cells of row `y`, left to right.
pub open spec fn row_walls(row: Seq<bool>, y: int, cell_size: int, n: nat) -> Seq<Rect>
    decreases n,
{
    if n == 0 {
        seq![]
    } else {
        let rest = row_walls(row, y, cell_size, (n - 1) as nat);
        if row[n - 1] {
            rest.push(cell_rect(n - 1, y, cell_size))
        } else {
            rest
        }
    }
}

/// Rectangles of the wall cells of the first `m` rows, in row-major order.
pub open spec fn grid_walls(g: Seq<Vec<bool>>, w: int, cell_size: int, m: nat) -> Seq<Rect>
    decreases m,
{
    if m == 0 {
        seq![]
    } else {
        grid_walls(g, w, cell_size, (m - 1) as nat) + row_walls(g[m - 1]@, m - 1, cell_size, w as nat)
    }
}

proof fn lemma_open_row_no_walls(row: Seq<bool>, y: int, cell_size: int, n: nat)
    requires
        n <= row.len(),
        forall|x: int| 0 <= x < n ==> !#[trigger] row[x],
    ensures
        row_walls(row, y, cell_size, n) == Seq::<Rect>::empty(),
    decreases n,
{
    if n > 0 {
        lemma_open_row_no_walls(row, y, cell_size, (n - 1) as nat);
    }
}

proof fn lemma_carved_no_walls(g: Seq<Vec<bool>>, w: int, h: int, cell_size: int, m: nat)
    requires
        carved(g, w, h),
        m <= h,
    ensures
        grid_walls(g, w, cell_size, m) == Seq::<Rect>::empty(),
    decreases m,
{
    if m > 0 {
        lemma_carved_no_walls(g, w, h, cell_size, (m - 1) as nat);
        assert forall|x: int| 0 <= x < w implies !#[trigger] g[m - 1]@[x] by {
            lemma_carved_all_open(g, w, h, x, m - 1);
        }
        lemma_open_row_no_walls(g[m - 1]@, m - 1, cell_size, w as nat);
        assert(Seq::<Rect>::empty() + Seq::<Rect>::empty() =~= Seq::<Rect>::empty());
    }
}

/// One `cell_size` square wall rectangle for each wall cell, in row-major order.
pub fn walls_from_grid(g: &Vec<Vec<bool>>, width: usize, height: usize, cell_size: i32) -> (r: Vec<Rect>)
    requires
        well_sized(g@, width as int, height as int),
        1 <= cell_size,
        width * cell_size <= i32::MAX,
        height * cell_size <= i32::MAX,
    ensures
        r@ == grid_walls(g@, width as int, cell_size as int, height as nat),
{
    let mut r: Vec<Rect> = Vec::new();
    let mut y: usize = 0;
    while y < height
        invariant
            well_sized(g@, width as int, height as int),
            1 <= cell_size,
            width * cell_size <= i32::MAX,
            height * cell_size <= i32::MAX,
            0 <= y <= height,
            r@ == grid_walls(g@, width as int, cell_size as int, y as nat),
        decreases height - y,
    {
        let ghost before = r@;
        let mut x: usize = 0;
        while x < width
            invariant
                well_sized(g@, width as int, height as int),
                1 <= cell_size,
                width * cell_size <= i32::MAX,
                height * cell_size <= i32::MAX,
                0 <= y < height,
                0 <= x <= width,
                r@ == before + row_walls(g@[y as int]@, y as int, cell_size as int, x as nat),
            decreases width - x,
        {
            if g[y][x] {
                assert(0 <= x * cell_size <= width * cell_size) by (nonlinear_arith)
                    requires 0 <= x < width, 1 <= cell_size;
                assert(0 <= y * cell_size <= height * cell_size) by (nonlinear_arith)
                    requires 0 <= y < height, 1 <= cell_size;
                assert(x <= width * cell_size && y <= height * cell_size) by (nonlinear_arith)
                    requires 0 <= x < width, 0 <= y < height, 1 <= cell_size;
                let px = ((x as i64) * (cell_size as i64)) as i32;
                let py = ((y as i64) * (cell_size as i64)) as i32;
                r.push(Rect { x: px, y: py, w: cell_size as u32, h: cell_size as u32 });
                assert(r@ =~= before + row_walls(g@[y as int]@, y as int, cell_size as int, (x + 1) as nat));
            }
            x += 1;
        }
        y += 1;
    }
    r
}

/// The four boundary walls of a `total_w` × `total_h` area: top, bottom, left, right.
pub open spec fn boundary_walls(total_w: int, total_h: int) -> Seq<Rect> {
    seq![
        Rect { x: 0, y: 0, w: total_w as u32, h: BOUNDARY_THICKNESS as u32 },
        Rect { x: 0, y: (total_h - BOUNDARY_THICKNESS) as i32, w: total_w as u32, h: BOUNDARY_THICKNESS as u32 },
        Rect { x: 0, y: 0, w: BOUNDARY_THICKNESS as u32, h: total_h as u32 },
        Rect { x: (total_w - BOUNDARY_THICKNESS) as i32, y: 0, w: BOUNDARY_THICKNESS as u32, h: total_h as u32 },
    ]
}

/// The single wall placed at the centre cell when the carve leaves no wall cell.
pub open spec fn center_wall(w: int, h: int, cell_size: int) -> Rect {
    cell_rect(w / 2, h / 2, cell_size)
}

/// The maze that generation yields. The carve opens every cell of the grid,
/// so no wall cell is left: the centre wall stands in for them, followed by
/// the four boundary walls.
pub open spec fn maze_layout(w: int, h: int, cell_size: int) -> Seq<Rect> {
    seq![center_wall(w, h, cell_size)] + boundary_walls(w * cell_size, h * cell_size)
}

/// Generates the maze of a `width_cells` × `height_cells` grid of
/// `cell_size` cells, with the carve order drawn from a generator seeded by
/// `seed`. The carve opens every cell it reaches and reaches the whole grid,
/// so no wall cell is left and the centre wall stands in for them.
pub fn generate_maze(seed: u64, width_cells: usize, height_cells: usize, cell_size: i32) -> (maze: Vec<Rect>)
    requires
        1 <= width_cells,
        1 <= height_cells,
        1 <= cell_size,
        width_cells * cell_size <= i32::MAX,
        height_cells * cell_size <= i32::MAX,
    ensures
        maze@ == maze_layout(width_cells as int, height_cells as int, cell_size as int),
{
    let mut rng = seeded_rng(seed);
    let grid = carve(width_cells, height_cells, &mut rng);
    let mut maze = walls_from_grid(&grid, width_cells, height_cells, cell_size);
    proof {
        lemma_carved_no_walls(grid@, width_cells as int, height_cells as int, cell_size as int, height_cells as nat);
    }
    let ghost (w, h, c) = (width_cells as int, height_cells as int, cell_size as int);
    assert(w / 2 * c <= w * c && h / 2 * c <= h * c && w <= w * c && h <= h * c) by (nonlinear_arith)
        requires 1 <= c, 1 <= w, 1 <= h;
    let total_w = ((width_cells as i64) * (cell_size as i64)) as i32;
    let total_h = ((height_cells as i64) * (cell_size as i64)) as i32;
    if maze.len() == 0 {
        let cx = (((width_cells / 2) as i64) * (cell_size as i64)) as i32;
        let cy = (((height_cells / 2) as i64) * (cell_size as i64)) as i32;
        maze.push(Rect { x: cx, y: cy, w: cell_size as u32, h: cell_size as u32 });
    }
    maze.push(Rect { x: 0, y: 0, w: total_w as u32, h: BOUNDARY_THICKNESS as u32 });
    maze.push(Rect { x: 0, y: total_h - BOUNDARY_THICKNESS, w: total_w as u32, h: BOUNDARY_THICKNESS as u32 });
    maze.push(Rect { x: 0, y: 0, w: BOUNDARY_THICKNESS as u32, h: total_h as u32 });
    maze.push(Rect { x: total_w - BOUNDARY_THICKNESS, y: 0, w: BOUNDARY_THICKNESS as u32, h: total_h as u32 });
    assert(maze@ =~= maze_layout(w, h, c));
    maze
}

} // verus!
