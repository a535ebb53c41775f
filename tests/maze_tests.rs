use maze_arena::geometry::Rect;
use maze_arena::maze::{carve, generate_maze, walls_from_grid};
use maze_arena::path::find_path;
use rand::SeedableRng;

fn rect(x: i32, y: i32, w: u32, h: u32) -> Rect {
    Rect { x, y, w, h }
}

#[test]
fn generated_maze_is_center_wall_and_boundary() {
    let maze = generate_maze(42, 20, 15, 40);
    assert_eq!(
        maze,
        vec![
            rect(400, 280, 40, 40),
            rect(0, 0, 800, 20),
            rect(0, 580, 800, 20),
            rect(0, 0, 20, 600),
            rect(780, 0, 20, 600),
        ]
    );
}

#[test]
fn generation_is_identical_for_the_same_seed() {
    let a = generate_maze(1234, 20, 15, 40);
    let b = generate_maze(1234, 20, 15, 40);
    assert_eq!(a, b);
}

#[test]
fn generation_does_not_depend_on_seed() {
    assert_eq!(generate_maze(1, 9, 4, 10), generate_maze(99, 9, 4, 10));
}

#[test]
fn single_cell_grid_keeps_center_wall() {
    let maze = generate_maze(0, 1, 1, 40);
    assert_eq!(maze.len(), 5);
    assert_eq!(maze[0], rect(0, 0, 40, 40));
    assert_eq!(maze[4], rect(20, 0, 20, 40));
}

#[test]
fn carve_opens_every_cell() {
    let mut rng = rand::rngs::StdRng::seed_from_u64(7);
    let g = carve(20, 15, &mut rng);
    assert_eq!(g.len(), 15);
    for row in &g {
        assert_eq!(row.len(), 20);
        assert!(row.iter().all(|&w| !w));
    }
}

#[test]
fn carved_cells_are_connected_to_origin() {
    let mut rng = rand::rngs::StdRng::seed_from_u64(11);
    let g = carve(6, 5, &mut rng);
    let mut seen = vec![vec![false; 6]; 5];
    let mut stack = vec![(0usize, 0usize)];
    seen[0][0] = true;
    while let Some((x, y)) = stack.pop() {
        let mut next = Vec::new();
        if x > 0 { next.push((x - 1, y)); }
        if x + 1 < 6 { next.push((x + 1, y)); }
        if y > 0 { next.push((x, y - 1)); }
        if y + 1 < 5 { next.push((x, y + 1)); }
        for (nx, ny) in next {
            if !g[ny][nx] && !seen[ny][nx] {
                seen[ny][nx] = true;
                stack.push((nx, ny));
            }
        }
    }
    for y in 0..5 {
        for x in 0..6 {
            if !g[y][x] {
                assert!(seen[y][x]);
            }
        }
    }
}

#[test]
fn walls_from_grid_is_row_major() {
    let g = vec![vec![true, false, true], vec![false, true, false]];
    let walls = walls_from_grid(&g, 3, 2, 10);
    assert_eq!(walls, vec![rect(0, 0, 10, 10), rect(20, 0, 10, 10), rect(10, 10, 10, 10)]);
}

#[test]
fn walls_from_open_grid_is_empty() {
    let g = vec![vec![false; 4]; 3];
    assert!(walls_from_grid(&g, 4, 3, 10).is_empty());
}

fn assert_valid_path(p: &[(i32, i32)], start: (i32, i32), goal: (i32, i32)) {
    assert_eq!(p[0], start);
    assert_eq!(*p.last().unwrap(), goal);
    for w in p.windows(2) {
        let d = (w[0].0 - w[1].0).abs() + (w[0].1 - w[1].1).abs();
        assert_eq!(d, 1);
    }
}

#[test]
fn open_field_path_has_manhattan_length() {
    let p = find_path(&[], (2, 3), (7, 1)).unwrap();
    assert_eq!(p.len(), 5 + 2 + 1);
    assert_valid_path(&p, (2, 3), (7, 1));
}

#[test]
fn path_to_self_is_single_cell() {
    assert_eq!(find_path(&[], (4, 4), (4, 4)), Some(vec![(4, 4)]));
}

#[test]
fn walled_ring_has_no_path() {
    let ring = [rect(10, 10, 10, 1), rect(10, 19, 10, 1), rect(10, 10, 1, 10), rect(19, 10, 1, 10)];
    assert_eq!(find_path(&ring, (15, 15), (40, 40)), None);
}

#[test]
fn path_goes_around_a_wall() {
    let wall = [rect(5, 0, 1, 5)];
    let p = find_path(&wall, (3, 2), (7, 2)).unwrap();
    assert_valid_path(&p, (3, 2), (7, 2));
    assert_eq!(p.len(), 11);
    for c in &p {
        assert!(!(c.0 == 5 && c.1 < 5));
    }
}

#[test]
fn blocked_goal_has_no_path() {
    assert_eq!(find_path(&[rect(9, 9, 1, 1)], (0, 0), (9, 9)), None);
}

#[test]
fn negative_goal_has_no_path() {
    assert_eq!(find_path(&[], (0, 0), (-1, 0)), None);
}

#[test]
fn negative_start_has_no_path() {
    assert_eq!(find_path(&[], (-3, 0), (0, 0)), None);
}

#[test]
fn blocked_start_may_leave() {
    let p = find_path(&[rect(0, 0, 2, 1)], (0, 0), (0, 2)).unwrap();
    assert_eq!(p, vec![(0, 0), (0, 1), (0, 2)]);
}

#[test]
fn walled_ring_keeps_outside_out() {
    let ring = [rect(10, 10, 10, 1), rect(10, 19, 10, 1), rect(10, 10, 1, 10), rect(19, 10, 1, 10)];
    assert_eq!(find_path(&ring, (40, 40), (15, 15)), None);
}

#[test]
fn far_cells_are_searched() {
    assert_eq!(find_path(&[], (2000, 0), (2000, 0)), Some(vec![(2000, 0)]));
    let p = find_path(&[], (1500, 3), (1503, 3)).unwrap();
    assert_eq!(p, vec![(1500, 3), (1501, 3), (1502, 3), (1503, 3)]);
}

#[test]
fn start_just_off_grid_steps_in() {
    assert_eq!(find_path(&[], (-1, 0), (0, 0)), Some(vec![(-1, 0), (0, 0)]));
    let p = find_path(&[], (3, -1), (3, 2)).unwrap();
    assert_eq!(p, vec![(3, -1), (3, 0), (3, 1), (3, 2)]);
}

#[test]
fn start_diagonally_off_grid_has_no_path() {
    assert_eq!(find_path(&[], (-1, -1), (0, 0)), None);
}

#[test]
fn path_detours_past_the_far_end_of_a_long_wall() {
    let wall = [rect(0, 5, 1500, 1)];
    let p = find_path(&wall, (1400, 0), (1400, 10)).unwrap();
    assert_valid_path(&p, (1400, 0), (1400, 10));
    assert_eq!(p.len(), 100 + 100 + 10 + 1);
    assert!(p.iter().any(|c| c.0 >= 1500));
}
