//! The entities of the arena: the player, projectiles, hostiles and ammo drops.
use vstd::prelude::*;
use crate::geometry::{
    Rect, HITBOX, box_hits_maze, boxes_overlap, box_overlaps_maze, scaled_axis, scaled_direction,
};
use crate::path::{PLAN_CELLS, box_h, box_w, find_path, is_path, is_shortest_path};

verus! {

/// Units per axis per tick that the player moves.
pub const PLAYER_SPEED: i32 = 5;

/// Units per tick of a projectile.
pub const BULLET_SPEED: i32 = 10;

/// Units per tick of a hostile in straight-line pursuit.
pub const ENEMY_SPEED: i32 = 2;

/// Cooldown between two accepted shots, in milliseconds.
pub const FIRE_RATE_MS: u64 = 1000;

/// The held movement keys.
#[derive(Clone, Copy, Debug, PartialEq, Eq)]
pub struct Keys {
    pub left: bool,
    pub right: bool,
    pub up: bool,
    pub down: bool,
}

/// The player: top-left position, health, ammunition and the time of the
/// last accepted shot, in milliseconds.
#[derive(Clone, Copy, Debug, PartialEq, Eq)]
pub struct Player {
    pub x: i32,
    pub y: i32,
    pub health: i32,
    pub ammo: i32,
    pub last_shot: u64,
}

/// A projectile: position, velocity per tick, and whether it is still in flight.
#[derive(Clone, Copy, Debug, PartialEq, Eq)]
pub struct Bullet {
    pub x: i32,
    pub y: i32,
    pub vx: i32,
    pub vy: i32,
    pub active: bool,
}

/// A hostile: top-left position, health, and whether it is alive.
#[derive(Clone, Copy, Debug, PartialEq, Eq)]
pub struct Enemy {
    pub x: i32,
    pub y: i32,
    pub health: i32,
    pub alive: bool,
}

/// An ammunition pickup left where a hostile fell.
#[derive(Clone, Copy, Debug, PartialEq, Eq)]
pub struct AmmoDrop {
    pub x: i32,
    pub y: i32,
    pub active: bool,
}

/// The position that the held keys ask for: each axis moves on its own, and
/// opposite keys cancel.
pub open spec fn candidate(p: Player, keys: Keys) -> (int, int) {
    let dx = (if keys.right { PLAYER_SPEED as int } else { 0 }) - (if keys.left { PLAYER_SPEED as int } else { 0 });
    let dy = (if keys.down { PLAYER_SPEED as int } else { 0 }) - (if keys.up { PLAYER_SPEED as int } else { 0 });
    (p.x + dx, p.y + dy)
}

/// A shot at time `now` is accepted: ammunition is left and the cooldown has
/// elapsed since the last accepted shot.
pub open spec fn shot_accepted(p: Player, now: u64) -> bool {
    p.ammo > 0 && now >= p.last_shot && now - p.last_shot >= FIRE_RATE_MS
}

/// The player after an accepted shot at time `now`.
pub open spec fn after_shot(p: Player, now: u64) -> Player {
    Player { ammo: (p.ammo - 1) as i32, last_shot: now, ..p }
}

/// `b` is the projectile that a shot from `p` toward `(tx, ty)` spawns.
pub open spec fn spawned_bullet(p: Player, tx: int, ty: int, b: Bullet) -> bool {
    &&& b.x == p.x && b.y == p.y && b.active
    &&& scaled_axis(b.vx as int, tx - p.x, ty - p.y, BULLET_SPEED as int)
    &&& scaled_axis(b.vy as int, ty - p.y, tx - p.x, BULLET_SPEED as int)
}

/// Two shot attempts a cooldown apart, by a player with one round left,
/// give exactly one accepted shot; with no round left no attempt is accepted.
pub proof fn lemma_fire_rate_gating(p: Player, t: u64)
    requires
        p.ammo == 1,
        t >= p.last_shot,
        t + FIRE_RATE_MS <= u64::MAX,
    ensures
        shot_accepted(p, t) ==> !shot_accepted(after_shot(p, t), (t + FIRE_RATE_MS) as u64),
        !shot_accepted(p, t) ==> shot_accepted(p, (t + FIRE_RATE_MS) as u64),
        forall|now: u64| !#[trigger] shot_accepted((Player { ammo: 0, ..p }), now),
{
}

impl Player {
    /// Whether the player's hitbox at `(x, y)` overlaps any wall.
    pub fn collides_with_maze(&self, x: i32, y: i32, maze: &[Rect]) -> (r: bool)
        ensures
            r == box_hits_maze(maze@, x as int, y as int),
    {
        box_overlaps_maze(maze, x, y)
    }

    /// Moves by the held keys when the combined move is free of walls; else stays.
    pub fn move_player(&mut self, keys: &Keys, maze: &[Rect])
        requires
            i32::MIN + PLAYER_SPEED <= old(self).x <= i32::MAX - PLAYER_SPEED,
            i32::MIN + PLAYER_SPEED <= old(self).y <= i32::MAX - PLAYER_SPEED,
        ensures
            ({
                let (nx, ny) = candidate(*old(self), *keys);
                if box_hits_maze(maze@, nx, ny) {
                    *final(self) == *old(self)
                } else {
                    *final(self) == Player { x: nx as i32, y: ny as i32, ..*old(self) }
                }
            }),
    {
        let mut new_x = self.x;
        let mut new_y = self.y;
        if keys.left {
            new_x -= PLAYER_SPEED;
        }
        if keys.right {
            new_x += PLAYER_SPEED;
        }
        if keys.up {
            new_y -= PLAYER_SPEED;
        }
        if keys.down {
            new_y += PLAYER_SPEED;
        }
        if !self.collides_with_maze(new_x, new_y, maze) {
            self.x = new_x;
            self.y = new_y;
        }
    }

    /// Fires toward `(target_x, target_y)` at time `now` when a shot is
    /// accepted: spends one round, restarts the cooldown, and returns the new
    /// projectile; otherwise changes nothing.
    pub fn shoot(&mut self, target_x: i32, target_y: i32, now: u64) -> (r: Option<Bullet>)
        ensures
            shot_accepted(*old(self), now) ==> *final(self) == after_shot(*old(self), now) && r is Some
                && spawned_bullet(*old(self), target_x as int, target_y as int, r->0),
            !shot_accepted(*old(self), now) ==> *final(self) == *old(self) && r is None,
    {
        if self.ammo > 0 && now >= self.last_shot && now - self.last_shot >= FIRE_RATE_MS {
            self.ammo -= 1;
            self.last_shot = now;
            let dx = target_x as i64 - self.x as i64;
            let dy = target_y as i64 - self.y as i64;
            let (vx, vy) = scaled_direction(dx, dy, BULLET_SPEED);
            Some(Bullet { x: self.x, y: self.y, vx, vy, active: true })
        } else {
            None
        }
    }
}

/// Inside the world `[0, width] × [0, height]`, bounds included.
pub open spec fn in_world(x: int, y: int, width: int, height: int) -> bool {
    0 <= x <= width && 0 <= y <= height
}

impl Bullet {
    /// Advances by the velocity; leaves flight once outside the world.
    pub fn update(&mut self, width: i32, height: i32)
        requires
            i32::MIN <= old(self).x + old(self).vx <= i32::MAX,
            i32::MIN <= old(self).y + old(self).vy <= i32::MAX,
        ensures
            final(self).x == old(self).x + old(self).vx,
            final(self).y == old(self).y + old(self).vy,
            final(self).vx == old(self).vx,
            final(self).vy == old(self).vy,
            final(self).active == (old(self).active && in_world(
                final(self).x as int,
                final(self).y as int,
                width as int,
                height as int,
            )),
    {
        self.x += self.vx;
        self.y += self.vy;
        self.active = self.active && self.x >= 0 && self.x <= width && self.y >= 0 && self.y <= height;
    }
}

/// An alive hostile other than the one at `index` whose hitbox overlaps a
/// hitbox at `(x, y)`.
pub open spec fn blocked_by_enemies(others: Seq<Enemy>, index: int, x: int, y: int) -> bool {
    exists|j: int|
        0 <= j < others.len() && j != index && #[trigger] others[j].alive && boxes_overlap(
            x,
            y,
            others[j].x as int,
            others[j].y as int,
        )
}

/// A hostile may step onto `(x, y)`: no wall and no other alive hostile is in the way.
pub open spec fn step_free(maze: Seq<Rect>, others: Seq<Enemy>, index: int, x: int, y: int) -> bool {
    !box_hits_maze(maze, x, y) && !blocked_by_enemies(others, index, x, y)
}

/// `r` is an answer that the planner may give from `start` to `goal`.
pub open spec fn planner_answer(
    maze: Seq<Rect>,
    start: (i32, i32),
    goal: (i32, i32),
    r: Option<Seq<(i32, i32)>>,
) -> bool {
    match r {
        Some(p) => is_shortest_path(maze, p, start, goal),
        None => forall|q: Seq<(i32, i32)>| !is_path(maze, q, start, goal),
    }
}

/// The planner's answer as a sequence of cells.
pub open spec fn route_view(r: Option<Vec<(i32, i32)>>) -> Option<Seq<(i32, i32)>> {
    match r {
        Some(p) => Some(p@),
        None => None,
    }
}

/// `(tx, ty)` is the straight-line pursuit target of `e` toward `(px, py)`.
pub open spec fn fallback_target(e: Enemy, px: int, py: int, tx: int, ty: int) -> bool {
    &&& scaled_axis(tx - e.x, px - e.x, py - e.y, ENEMY_SPEED as int)
    &&& scaled_axis(ty - e.y, py - e.y, px - e.x, ENEMY_SPEED as int)
}

/// What one tick of pursuit makes of the alive hostile `e`, given the
/// planner's answer `r`: with a path of two cells or more it steps to the
/// second cell, with no path it takes the straight-line target, and in
/// either case only onto a free spot.
pub open spec fn pursued(
    e: Enemy,
    e2: Enemy,
    index: int,
    px: int,
    py: int,
    r: Option<Seq<(i32, i32)>>,
    others: Seq<Enemy>,
    maze: Seq<Rect>,
) -> bool {
    match r {
        Some(p) => if p.len() > 1 && step_free(maze, others, index, p[1].0 as int, p[1].1 as int) {
            e2 == Enemy { x: p[1].0, y: p[1].1, ..e }
        } else {
            e2 == e
        },
        None => {
            ||| e2 == e && forall|tx: int, ty: int|
                #[trigger] fallback_target(e, px, py, tx, ty) ==> !step_free(maze, others, index, tx, ty)
            ||| fallback_target(e, px, py, e2.x as int, e2.y as int) && step_free(
                maze,
                others,
                index,
                e2.x as int,
                e2.y as int,
            ) && e2 == Enemy { x: e2.x, y: e2.y, ..e }
        },
    }
}

proof fn lemma_floor_scaled_unique(k1: int, k2: int, c: int, d2: int, s: int)
    requires
        0 < d2,
        0 <= k1,
        0 <= k2,
        k1 * k1 * d2 <= s,
        (k1 + 1) * (k1 + 1) * d2 > s,
        k2 * k2 * d2 <= s,
        (k2 + 1) * (k2 + 1) * d2 > s,
    ensures
        k1 == k2,
{
    if k1 < k2 {
        assert((k1 + 1) * (k1 + 1) * d2 <= k2 * k2 * d2) by (nonlinear_arith)
            requires 0 <= k1 < k2, 0 < d2;
    } else if k2 < k1 {
        assert((k2 + 1) * (k2 + 1) * d2 <= k1 * k1 * d2) by (nonlinear_arith)
            requires 0 <= k2 < k1, 0 < d2;
    }
}

/// The scaled direction has a single value on each axis.
proof fn lemma_scaled_axis_unique(k1: int, k2: int, c: int, o: int, speed: int)
    requires
        scaled_axis(k1, c, o, speed),
        scaled_axis(k2, c, o, speed),
    ensures
        k1 == k2,
{
    if !(c == 0 && o == 0) {
        assert(c * c + o * o > 0) by (nonlinear_arith)
            requires c != 0 || o != 0;
        if c >= 0 {
            lemma_floor_scaled_unique(k1, k2, c, c * c + o * o, speed * speed * c * c);
        } else {
            lemma_floor_scaled_unique(-k1, -k2, -c, c * c + o * o, speed * speed * (-c) * (-c));
        }
    }
}

impl Enemy {
    /// Whether this hostile's hitbox at `(x, y)` overlaps any wall.
    pub fn collides_with_maze(&self, x: i32, y: i32, maze: &[Rect]) -> (r: bool)
        ensures
            r == box_hits_maze(maze@, x as int, y as int),
    {
        box_overlaps_maze(maze, x, y)
    }

    /// Whether a hitbox at `(x, y)` overlaps an alive hostile of `others`
    /// other than the one at `index`, which is this hostile itself.
    pub fn collides_with_enemies(&self, index: usize, x: i32, y: i32, others: &[Enemy]) -> (r: bool)
        ensures
            r == blocked_by_enemies(others@, index as int, x as int, y as int),
    {
        let mut j: usize = 0;
        while j < others.len()
            invariant
                0 <= j <= others@.len(),
                forall|k: int|
                    0 <= k < j && k != index ==> !(#[trigger] others@[k].alive && boxes_overlap(
                        x as int,
                        y as int,
                        others@[k].x as int,
                        others@[k].y as int,
                    )),
            decreases others@.len() - j,
        {
            let e = others[j];
            if j != index && e.alive && (x as i64) < e.x as i64 + HITBOX as i64 && (x as i64)
                + HITBOX as i64 > e.x as i64 && (y as i64) < e.y as i64 + HITBOX as i64 && (y as i64)
                + HITBOX as i64 > e.y as i64 {
                assert(others@[j as int].alive);
                return true;
            }
            j += 1;
        }
        false
    }

    /// One tick of pursuit given the planner's answer `route` from this
    /// hostile to `(player_x, player_y)`; `others` are the hostiles as they
    /// stood at the start of the tick, this one at `index`.
    pub fn follow_route(
        &mut self,
        index: usize,
        player_x: i32,
        player_y: i32,
        route: Option<Vec<(i32, i32)>>,
        others: &[Enemy],
        maze: &[Rect],
    )
        requires
            old(self).alive,
            i32::MIN + ENEMY_SPEED <= old(self).x <= i32::MAX - ENEMY_SPEED,
            i32::MIN + ENEMY_SPEED <= old(self).y <= i32::MAX - ENEMY_SPEED,
        ensures
            pursued(
                *old(self),
                *final(self),
                index as int,
                player_x as int,
                player_y as int,
                route_view(route),
                others@,
                maze@,
            ),
            *final(self) != *old(self) ==> !box_hits_maze(maze@, final(self).x as int, final(self).y as int),
    {
        match route {
            Some(path) => {
                if path.len() > 1 {
                    let next = path[1];
                    if !self.collides_with_maze(next.0, next.1, maze) && !self.collides_with_enemies(
                        index,
                        next.0,
                        next.1,
                        others,
                    ) {
                        self.x = next.0;
                        self.y = next.1;
                    }
                }
            },
            None => {
                let dx = player_x as i64 - self.x as i64;
                let dy = player_y as i64 - self.y as i64;
                let (vx, vy) = scaled_direction(dx, dy, ENEMY_SPEED);
                let new_x = self.x + vx;
                let new_y = self.y + vy;
                let e0 = *self;
                if !self.collides_with_maze(new_x, new_y, maze) && !self.collides_with_enemies(
                    index,
                    new_x,
                    new_y,
                    others,
                ) {
                    self.x = new_x;
                    self.y = new_y;
                } else {
                    assert forall|tx: int, ty: int|
                        #[trigger] fallback_target(e0, player_x as int, player_y as int, tx, ty) implies !step_free(
                        maze@,
                        others@,
                        index as int,
                        tx,
                        ty,
                    ) by {
                        lemma_scaled_axis_unique(tx - e0.x, vx as int, dx as int, dy as int, ENEMY_SPEED as int);
                        lemma_scaled_axis_unique(ty - e0.y, vy as int, dy as int, dx as int, ENEMY_SPEED as int);
                    }
                }
            },
        }
    }

    /// One tick of pursuit of the player at `(player_x, player_y)`: asks the
    /// planner for a route and follows it. A hostile that is not alive stays.
    pub fn update(&mut self, index: usize, player_x: i32, player_y: i32, others: &[Enemy], maze: &[Rect])
        requires
            box_w(maze@, (old(self).x, old(self).y), (player_x, player_y)) * box_h(
                maze@,
                (old(self).x, old(self).y),
                (player_x, player_y),
            ) <= PLAN_CELLS,
            i32::MIN + ENEMY_SPEED <= old(self).x <= i32::MAX - ENEMY_SPEED,
            i32::MIN + ENEMY_SPEED <= old(self).y <= i32::MAX - ENEMY_SPEED,
        ensures
            !old(self).alive ==> *final(self) == *old(self),
            old(self).alive ==> exists|r: Option<Seq<(i32, i32)>>|
                planner_answer(maze@, (old(self).x, old(self).y), (player_x, player_y), r)
                    && #[trigger] pursued(
                    *old(self),
                    *final(self),
                    index as int,
                    player_x as int,
                    player_y as int,
                    r,
                    others@,
                    maze@,
                ),
            *final(self) != *old(self) ==> !box_hits_maze(maze@, final(self).x as int, final(self).y as int),
    {
        if !self.alive {
            return;
        }
        let route = find_path(maze, (self.x, self.y), (player_x, player_y));
        let ghost answer = route_view(route);
        assert(planner_answer(maze@, (self.x, self.y), (player_x, player_y), answer));
        self.follow_route(index, player_x, player_y, route, others, maze);
    }
}

} // verus!
