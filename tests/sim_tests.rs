use maze_arena::entity::{AmmoDrop, Bullet, Enemy, Keys, Player};
use maze_arena::geometry::{scaled_direction, Rect};
use maze_arena::maze::generate_maze;
use maze_arena::sim::{collect_drops, resolve_hits, Event, Input, World};

fn player(x: i32, y: i32, ammo: i32, last_shot: u64) -> Player {
    Player { x, y, health: 100, ammo, last_shot }
}

fn enemy(x: i32, y: i32, health: i32) -> Enemy {
    Enemy { x, y, health, alive: true }
}

fn no_keys() -> Keys {
    Keys { left: false, right: false, up: false, down: false }
}

#[test]
fn direction_is_scaled_and_truncated() {
    assert_eq!(scaled_direction(3, 4, 10), (6, 8));
    assert_eq!(scaled_direction(-3, -4, 10), (-6, -8));
    assert_eq!(scaled_direction(1, 1, 10), (7, 7));
    assert_eq!(scaled_direction(5, 0, 2), (2, 0));
    assert_eq!(scaled_direction(1, 2, 2), (0, 1));
}

#[test]
fn zero_direction_gives_zero_vector() {
    assert_eq!(scaled_direction(0, 0, 10), (0, 0));
}

#[test]
fn player_moves_diagonally_unnormalized() {
    let mut p = player(100, 100, 0, 0);
    p.move_player(&Keys { left: false, right: true, up: false, down: true }, &[]);
    assert_eq!((p.x, p.y), (105, 105));
}

#[test]
fn opposite_keys_cancel() {
    let mut p = player(100, 100, 0, 0);
    p.move_player(&Keys { left: true, right: true, up: true, down: false }, &[]);
    assert_eq!((p.x, p.y), (100, 95));
}

#[test]
fn blocked_diagonal_cancels_both_axes() {
    let wall = [Rect { x: 121, y: 121, w: 10, h: 10 }];
    let mut p = player(100, 100, 0, 0);
    p.move_player(&Keys { left: false, right: true, up: false, down: true }, &wall);
    assert_eq!((p.x, p.y), (100, 100));
}

#[test]
fn hitbox_touching_edge_does_not_collide() {
    let p = player(0, 0, 0, 0);
    let wall = [Rect { x: 20, y: 0, w: 10, h: 10 }];
    assert!(!p.collides_with_maze(0, 0, &wall));
    assert!(p.collides_with_maze(1, 0, &wall));
}

#[test]
fn shots_a_cooldown_apart_with_one_round() {
    let mut p = player(100, 100, 1, 0);
    let first = p.shoot(200, 100, 1000);
    let second = p.shoot(200, 100, 2000);
    assert!(first.is_some());
    assert!(second.is_none());
    assert_eq!(p.ammo, 0);
    assert_eq!(p.last_shot, 1000);
}

#[test]
fn shot_during_cooldown_is_refused_then_accepted() {
    let mut p = player(100, 100, 1, 500);
    assert!(p.shoot(200, 100, 1000).is_none());
    assert_eq!(p, player(100, 100, 1, 500));
    let b = p.shoot(200, 100, 2000).unwrap();
    assert_eq!(b, Bullet { x: 100, y: 100, vx: 10, vy: 0, active: true });
}

#[test]
fn no_ammo_never_shoots() {
    let mut p = player(100, 100, 0, 0);
    assert!(p.shoot(200, 100, 100_000).is_none());
    assert_eq!(p.ammo, 0);
}

#[test]
fn degenerate_aim_gives_still_bullet() {
    let mut p = player(100, 100, 3, 0);
    let b = p.shoot(100, 100, 5000).unwrap();
    assert_eq!((b.vx, b.vy), (0, 0));
}

#[test]
fn bullet_leaving_world_deactivates() {
    let mut b = Bullet { x: 795, y: 300, vx: 10, vy: 0, active: true };
    b.update(800, 600);
    assert_eq!(b.x, 805);
    assert!(!b.active);
    let mut c = Bullet { x: 790, y: 300, vx: 10, vy: 0, active: true };
    c.update(800, 600);
    assert!(c.active);
}

#[test]
fn enemy_collision_excludes_itself_by_index() {
    let others = vec![enemy(100, 100, 3), enemy(100, 130, 3)];
    let me = others[0];
    assert!(!me.collides_with_enemies(0, 100, 100, &others));
    assert!(me.collides_with_enemies(0, 100, 115, &others));
    assert!(others[1].collides_with_enemies(1, 100, 115, &others));
}

#[test]
fn dead_enemies_do_not_block() {
    let mut others = vec![enemy(0, 0, 3), enemy(100, 100, 3)];
    others[1].alive = false;
    assert!(!others[0].collides_with_enemies(0, 100, 100, &others));
}

#[test]
fn enemy_steps_one_cell_along_path() {
    let mut e = enemy(50, 50, 3);
    let others = vec![e];
    e.update(0, 50, 60, &others, &[]);
    assert_eq!((e.x, e.y), (50, 51));
}

#[test]
fn enemy_falls_back_to_straight_line() {
    let ring = [
        Rect { x: 200, y: 200, w: 100, h: 1 },
        Rect { x: 200, y: 299, w: 100, h: 1 },
        Rect { x: 200, y: 200, w: 1, h: 100 },
        Rect { x: 299, y: 200, w: 1, h: 100 },
    ];
    let mut e = enemy(100, 100, 3);
    let others = vec![e];
    e.update(0, 250, 250, &others, &ring);
    assert_eq!((e.x, e.y), (101, 101));
}

#[test]
fn dead_enemy_does_not_move() {
    let mut e = Enemy { x: 50, y: 50, health: 0, alive: false };
    let others = vec![e];
    e.update(0, 60, 60, &others, &[]);
    assert_eq!(e, Enemy { x: 50, y: 50, health: 0, alive: false });
}

#[test]
fn single_hit_fells_last_health() {
    let mut bullets = vec![Bullet { x: 405, y: 125, vx: 0, vy: 0, active: true }];
    let mut enemies = vec![enemy(400, 120, 1), enemy(600, 120, 1)];
    let mut drops = Vec::new();
    let mut events = Vec::new();
    resolve_hits(&mut bullets, &mut enemies, &mut drops, &mut events);
    assert!(!bullets[0].active);
    assert!(!enemies[0].alive);
    assert!(enemies[1].alive);
    assert_eq!(drops, vec![AmmoDrop { x: 400, y: 120, active: true }]);
    assert_eq!(
        events,
        vec![Event::Hit { enemy: 0 }, Event::Killed { enemy: 0 }, Event::DropSpawned { x: 400, y: 120 }]
    );
}

#[test]
fn proximity_is_strict() {
    let mut bullets = vec![Bullet { x: 420, y: 120, vx: 0, vy: 0, active: true }];
    let mut enemies = vec![enemy(400, 120, 1)];
    let mut drops = Vec::new();
    let mut events = Vec::new();
    resolve_hits(&mut bullets, &mut enemies, &mut drops, &mut events);
    assert!(bullets[0].active);
    assert!(enemies[0].alive);
    assert!(drops.is_empty());
}

#[test]
fn bullet_is_consumed_by_first_enemy_only() {
    let mut bullets = vec![Bullet { x: 410, y: 120, vx: 0, vy: 0, active: true }];
    let mut enemies = vec![enemy(400, 120, 3), enemy(415, 120, 3)];
    let mut drops = Vec::new();
    let mut events = Vec::new();
    resolve_hits(&mut bullets, &mut enemies, &mut drops, &mut events);
    assert_eq!(enemies[0].health, 2);
    assert_eq!(enemies[1].health, 3);
    assert_eq!(events, vec![Event::Hit { enemy: 0 }]);
}

#[test]
fn three_hits_over_three_ticks_fell_hostile() {
    let maze = generate_maze(5, 20, 15, 40);
    assert_eq!(maze, generate_maze(5, 20, 15, 40));
    let mut enemies = vec![enemy(400, 120, 3)];
    let mut drops = Vec::new();
    for tick in 0..3 {
        let mut bullets = vec![Bullet { x: 400, y: 125, vx: 0, vy: 0, active: true }];
        let mut events = Vec::new();
        resolve_hits(&mut bullets, &mut enemies, &mut drops, &mut events);
        assert!(!bullets[0].active);
        assert_eq!(enemies[0].health, 2 - tick);
    }
    assert!(!enemies[0].alive);
    assert_eq!(drops, vec![AmmoDrop { x: 400, y: 120, active: true }]);
}

#[test]
fn pickup_grants_bonus_once() {
    let mut p = player(100, 100, 2, 0);
    let mut drops = vec![AmmoDrop { x: 110, y: 90, active: true }, AmmoDrop { x: 300, y: 300, active: true }];
    let mut events = Vec::new();
    collect_drops(&mut p, &mut drops, &mut events);
    assert_eq!(p.ammo, 7);
    assert!(!drops[0].active);
    assert!(drops[1].active);
    assert_eq!(events, vec![Event::DropCollected { x: 110, y: 90 }]);
    collect_drops(&mut p, &mut drops, &mut events);
    assert_eq!(p.ammo, 7);
}

#[test]
fn ammo_bonus_saturates() {
    let mut p = player(100, 100, i32::MAX - 2, 0);
    let mut drops = vec![AmmoDrop { x: 100, y: 100, active: true }];
    let mut events = Vec::new();
    collect_drops(&mut p, &mut drops, &mut events);
    assert_eq!(p.ammo, i32::MAX);
}

fn sample_world() -> World {
    World {
        player: player(120, 120, 50, 0),
        bullets: vec![
            Bullet { x: 10, y: 10, vx: 1, vy: 0, active: false },
            Bullet { x: 30, y: 30, vx: 1, vy: 1, active: true },
        ],
        enemies: vec![Enemy { x: 400, y: 120, health: 0, alive: false }, enemy(450, 120, 3)],
        drops: vec![AmmoDrop { x: 1, y: 1, active: false }, AmmoDrop { x: 50, y: 50, active: true }],
        width: 800,
        height: 600,
    }
}

#[test]
fn compaction_is_idempotent() {
    let mut w = sample_world();
    w.compact();
    let once = w.clone();
    w.compact();
    assert_eq!(w.bullets, once.bullets);
    assert_eq!(w.enemies, once.enemies);
    assert_eq!(w.drops, once.drops);
    assert_eq!(once.bullets.len(), 1);
    assert_eq!(once.enemies, vec![enemy(450, 120, 3)]);
    assert_eq!(once.drops, vec![AmmoDrop { x: 50, y: 50, active: true }]);
}

#[test]
fn step_moves_fires_and_keeps_everything_enclosed() {
    let maze = generate_maze(3, 20, 15, 40);
    let mut w = World {
        player: player(120, 120, 50, 0),
        bullets: Vec::new(),
        enemies: vec![enemy(400, 120, 3), enemy(450, 120, 3)],
        drops: Vec::new(),
        width: 800,
        height: 600,
    };
    let input = Input {
        keys: Keys { left: false, right: true, up: false, down: false },
        fire: true,
        aim_x: 400,
        aim_y: 120,
        now: 1000,
    };
    let events = w.step(&input, &maze);
    assert!(events.is_empty());
    assert_eq!((w.player.x, w.player.y), (125, 120));
    assert_eq!(w.player.ammo, 49);
    assert_eq!(w.bullets, vec![Bullet { x: 135, y: 120, vx: 10, vy: 0, active: true }]);
    assert_eq!((w.enemies[0].x, w.enemies[0].y), (399, 120));
    let quiet = Input { keys: no_keys(), fire: true, aim_x: 0, aim_y: 0, now: 1500 };
    for _ in 0..3 {
        w.step(&quiet, &maze);
    }
    assert_eq!(w.player.ammo, 49);
    for e in &w.enemies {
        assert!(e.alive && e.x >= 20 && e.x <= 760 && e.y >= 20 && e.y <= 560);
    }
}

#[test]
fn step_resolves_a_kill_and_pickup() {
    let maze = generate_maze(3, 20, 15, 40);
    let mut w = World {
        player: player(120, 120, 0, 0),
        bullets: vec![Bullet { x: 300, y: 300, vx: 0, vy: 0, active: true }],
        enemies: vec![enemy(300, 300, 1)],
        drops: vec![AmmoDrop { x: 125, y: 125, active: true }],
        width: 800,
        height: 600,
    };
    let events = w.step(&Input { keys: no_keys(), fire: false, aim_x: 0, aim_y: 0, now: 0 }, &maze);
    assert!(w.enemies.is_empty());
    assert!(w.bullets.is_empty());
    assert_eq!(w.player.ammo, 5);
    assert!(events.contains(&Event::Killed { enemy: 0 }));
    assert!(events.contains(&Event::DropCollected { x: 125, y: 125 }));
}

#[test]
fn new_world_matches_spawn_list() {
    let w = World::new(800, 600);
    assert_eq!(w.player, player(120, 120, 50, 0));
    assert_eq!(w.enemies.iter().map(|e| e.x).collect::<Vec<_>>(), vec![400, 450, 500, 550]);
    assert!(w.enemies.iter().all(|e| e.alive && e.health == 3 && e.y == 120));
    assert!(w.bullets.is_empty() && w.drops.is_empty());
}
