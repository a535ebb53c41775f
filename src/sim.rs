//! The tick pipeline: input, shooting, projectiles, pursuit, hits, pickups
//! and compaction, in that order.
use vstd::prelude::*;
use crate::geometry::{
    Rect, HITBOX, box_hits_rect, box_hits_maze, near, is_near, lemma_scaled_axis_bound,
};
use crate::path::{PLAN_CELLS, box_h, box_w, is_path, reach_x, reach_y};
use crate::entity::{
    AmmoDrop, Bullet, Enemy, Keys, Player, BULLET_SPEED, ENEMY_SPEED, candidate, in_world,
    planner_answer, pursued, shot_accepted, step_free, after_shot, spawned_bullet,
};
use crate::maze::{BOUNDARY_THICKNESS, boundary_walls};

verus! {

/// Rounds granted by one ammo drop.
pub const AMMO_BONUS: i32 = 5;

/// Something that happened during a tick, for sound and display.
#[derive(Clone, Copy, Debug, PartialEq, Eq)]
pub enum Event {
    Hit { enemy: usize },
    Killed { enemy: usize },
    DropSpawned { x: i32, y: i32 },
    DropCollected { x: i32, y: i32 },
}

/// Projectiles, hostiles, drops and events while hits are resolved.
pub type Melee = (Seq<Bullet>, Seq<Enemy>, Seq<AmmoDrop>, Seq<Event>);

/// Projectile `b` against hostile `e`: when the projectile is in flight, the
/// hostile alive and the two near, the hostile loses a point of health and
/// the projectile stops; a hostile left with no health falls and leaves a drop.
pub open spec fn hit_pair(s: Melee, b: int, e: int) -> Melee {
    let (bs, es, ds, evs) = s;
    let bl = bs[b];
    let en = es[e];
    if bl.active && en.alive && near(bl.x as int, bl.y as int, en.x as int, en.y as int) {
        let health = en.health - 1;
        let bs2 = bs.update(b, Bullet { active: false, ..bl });
        if health <= 0 {
            (
                bs2,
                es.update(e, Enemy { health: health as i32, alive: false, ..en }),
                ds.push(AmmoDrop { x: en.x, y: en.y, active: true }),
                evs.push(Event::Hit { enemy: e as usize }).push(Event::Killed { enemy: e as usize }).push(
                    Event::DropSpawned { x: en.x, y: en.y },
                ),
            )
        } else {
            (
                bs2,
                es.update(e, Enemy { health: health as i32, ..en }),
                ds,
                evs.push(Event::Hit { enemy: e as usize }),
            )
        }
    } else {
        s
    }
}

/// Projectile `b` against the first `n` hostiles, in order.
pub open spec fn run_bullet(s: Melee, b: int, n: nat) -> Melee
    decreases n,
{
    if n == 0 {
        s
    } else {
        hit_pair(run_bullet(s, b, (n - 1) as nat), b, n - 1)
    }
}

/// The first `m` projectiles, each against all `ne` hostiles, in order.
pub open spec fn run_hits(s: Melee, m: nat, ne: nat) -> Melee
    decreases m,
{
    if m == 0 {
        s
    } else {
        run_bullet(run_hits(s, (m - 1) as nat, ne), m - 1, ne)
    }
}

/// An active drop at the position of one of `enemies`.
pub open spec fn left_by(d: AmmoDrop, enemies: Seq<Enemy>) -> bool {
    exists|i: int| 0 <= i < enemies.len() && d == (AmmoDrop { x: #[trigger] enemies[i].x, y: enemies[i].y, active: true })
}

/// Resolves projectile-hostile hits: every projectile in turn against every
/// hostile in turn, a projectile stopping at its first hit.
pub fn resolve_hits(
    bullets: &mut Vec<Bullet>,
    enemies: &mut Vec<Enemy>,
    drops: &mut Vec<AmmoDrop>,
    events: &mut Vec<Event>,
)
    requires
        forall|i: int| 0 <= i < old(enemies)@.len() && #[trigger] old(enemies)@[i].alive ==> old(enemies)@[i].health > i32::MIN,
    ensures
        (final(bullets)@, final(enemies)@, final(drops)@, final(events)@) == run_hits(
            (old(bullets)@, old(enemies)@, old(drops)@, old(events)@),
            old(bullets)@.len(),
            old(enemies)@.len(),
        ),
        final(bullets)@.len() == old(bullets)@.len(),
        final(enemies)@.len() == old(enemies)@.len(),
        forall|i: int| 0 <= i < final(bullets)@.len() ==> (#[trigger] final(bullets)@[i] == old(bullets)@[i]
            || final(bullets)@[i] == (Bullet { active: false, ..old(bullets)@[i] })),
        forall|i: int| 0 <= i < final(enemies)@.len() ==> {
            &&& (#[trigger] final(enemies)@[i]).x == old(enemies)@[i].x
            &&& final(enemies)@[i].y == old(enemies)@[i].y
            &&& final(enemies)@[i].alive ==> (final(enemies)@[i] == old(enemies)@[i] || final(enemies)@[i].health >= 1)
        },
        final(drops)@.len() >= old(drops)@.len(),
        final(drops)@.subrange(0, old(drops)@.len() as int) == old(drops)@,
        forall|k: int| old(drops)@.len() <= k < final(drops)@.len() ==> left_by(#[trigger] final(drops)@[k], old(enemies)@),
{
    let ghost s0: Melee = (bullets@, enemies@, drops@, events@);
    let ghost e0 = enemies@;
    let ghost b0 = bullets@;
    let ghost d0 = drops@;
    let nb = bullets.len();
    let ne = enemies.len();
    let mut b: usize = 0;
    while b < nb
        invariant
            nb == b0.len(),
            ne == e0.len(),
            0 <= b <= nb,
            (bullets@, enemies@, drops@, events@) == run_hits(s0, b as nat, ne as nat),
            bullets@.len() == nb,
            enemies@.len() == ne,
            forall|i: int| 0 <= i < nb ==> (#[trigger] bullets@[i] == b0[i] || bullets@[i] == (Bullet { active: false, ..b0[i] })),
            forall|i: int| 0 <= i < ne ==> {
                &&& (#[trigger] enemies@[i]).x == e0[i].x
                &&& enemies@[i].y == e0[i].y
                &&& enemies@[i].alive ==> (enemies@[i] == e0[i] || enemies@[i].health >= 1)
            },
            forall|i: int| 0 <= i < ne && #[trigger] e0[i].alive ==> e0[i].health > i32::MIN,
            drops@.len() >= d0.len(),
            drops@.subrange(0, d0.len() as int) == d0,
            forall|k: int| d0.len() <= k < drops@.len() ==> left_by(#[trigger] drops@[k], e0),
        decreases nb - b,
    {
        let ghost before = (bullets@, enemies@, drops@, events@);
        let mut e: usize = 0;
        while e < ne
            invariant
                nb == b0.len(),
                ne == e0.len(),
                0 <= b < nb,
                0 <= e <= ne,
                (bullets@, enemies@, drops@, events@) == run_bullet(before, b as int, e as nat),
                bullets@.len() == nb,
                enemies@.len() == ne,
                forall|i: int| 0 <= i < nb ==> (#[trigger] bullets@[i] == b0[i] || bullets@[i] == (Bullet { active: false, ..b0[i] })),
                forall|i: int| 0 <= i < ne ==> {
                    &&& (#[trigger] enemies@[i]).x == e0[i].x
                    &&& enemies@[i].y == e0[i].y
                    &&& enemies@[i].alive ==> (enemies@[i] == e0[i] || enemies@[i].health >= 1)
                },
                forall|i: int| 0 <= i < ne && #[trigger] e0[i].alive ==> e0[i].health > i32::MIN,
                drops@.len() >= d0.len(),
                drops@.subrange(0, d0.len() as int) == d0,
                forall|k: int| d0.len() <= k < drops@.len() ==> left_by(#[trigger] drops@[k], e0),
            decreases ne - e,
        {
            let bl = bullets[b];
            let en = enemies[e];
            let ghost pre = (bullets@, enemies@, drops@, events@);
            let ghost dpre = drops@;
            if bl.active && en.alive && is_near(bl.x, bl.y, en.x, en.y) {
                assert(en.health > i32::MIN) by {
                    if en != e0[e as int] {
                        assert(en.health >= 1);
                    }
                }
                let health = en.health - 1;
                bullets.set(b, Bullet { active: false, ..bl });
                if health <= 0 {
                    enemies.set(e, Enemy { health, alive: false, ..en });
                    drops.push(AmmoDrop { x: en.x, y: en.y, active: true });
                    events.push(Event::Hit { enemy: e });
                    events.push(Event::Killed { enemy: e });
                    events.push(Event::DropSpawned { x: en.x, y: en.y });
                    proof {
                        assert(drops@.subrange(0, d0.len() as int) =~= dpre.subrange(0, d0.len() as int));
                        assert forall|k: int| d0.len() <= k < drops@.len() implies left_by(#[trigger] drops@[k], e0) by {
                            if k < dpre.len() {
                                assert(drops@[k] == dpre[k]);
                            } else {
                                assert(drops@[k] == AmmoDrop { x: e0[e as int].x, y: e0[e as int].y, active: true });
                            }
                        }
                    }
                } else {
                    enemies.set(e, Enemy { health, ..en });
                    events.push(Event::Hit { enemy: e });
                }
            }
            e += 1;
        }
        b += 1;
    }
}


proof fn lemma_single_bullet_run(s: Melee, k: int, n: nat)
    requires
        s.0.len() == 1,
        s.0[0].active,
        0 <= k < s.1.len(),
        n <= s.1.len(),
        s.1[k].alive,
        s.1[k].health == 1,
        near(s.0[0].x as int, s.0[0].y as int, s.1[k].x as int, s.1[k].y as int),
        forall|j: int|
            0 <= j < s.1.len() && j != k ==> !(#[trigger] s.1[j].alive && near(
                s.0[0].x as int,
                s.0[0].y as int,
                s.1[j].x as int,
                s.1[j].y as int,
            )),
    ensures
        n <= k ==> run_bullet(s, 0, n) == s,
        n > k ==> run_bullet(s, 0, n) == hit_pair(s, 0, k),
    decreases n,
{
    if n > 0 {
        lemma_single_bullet_run(s, k, (n - 1) as nat);
        if n - 1 < k {
            assert(!(s.1[n - 1].alive && near(s.0[0].x as int, s.0[0].y as int, s.1[n - 1].x as int, s.1[n - 1].y as int)));
        }
    }
}

/// A projectile near exactly one alive hostile, which has one point of
/// health left, stops, fells that hostile, and leaves exactly one drop where
/// the hostile stood.
pub proof fn lemma_hit_consumption(
    b: Bullet,
    enemies: Seq<Enemy>,
    drops: Seq<AmmoDrop>,
    events: Seq<Event>,
    k: int,
)
    requires
        b.active,
        0 <= k < enemies.len(),
        enemies[k].alive,
        enemies[k].health == 1,
        near(b.x as int, b.y as int, enemies[k].x as int, enemies[k].y as int),
        forall|j: int|
            0 <= j < enemies.len() && j != k ==> !(#[trigger] enemies[j].alive && near(
                b.x as int,
                b.y as int,
                enemies[j].x as int,
                enemies[j].y as int,
            )),
    ensures
        ({
            let r = run_hits((seq![b], enemies, drops, events), 1, enemies.len());
            &&& !r.0[0].active
            &&& !r.1[k].alive
            &&& r.2 == drops.push(AmmoDrop { x: enemies[k].x, y: enemies[k].y, active: true })
        }),
{
    let s: Melee = (seq![b], enemies, drops, events);
    assert(run_hits(s, 0, enemies.len()) == s);
    lemma_single_bullet_run(s, k, enemies.len());
}

/// A drop that the player at its current position picks up.
pub open spec fn drop_taken(p: Player, d: AmmoDrop) -> bool {
    d.active && near(p.x as int, p.y as int, d.x as int, d.y as int)
}

/// Ammunition after one bonus, held at the largest `i32`.
pub open spec fn with_bonus(ammo: int) -> int {
    if ammo <= i32::MAX - AMMO_BONUS {
        ammo + AMMO_BONUS
    } else {
        i32::MAX as int
    }
}

/// The player's ammunition after picking up what it can of the first `n` drops.
pub open spec fn ammo_after(p: Player, drops: Seq<AmmoDrop>, n: nat) -> int
    decreases n,
{
    if n == 0 {
        p.ammo as int
    } else {
        let a = ammo_after(p, drops, (n - 1) as nat);
        if drop_taken(p, drops[n - 1]) {
            with_bonus(a)
        } else {
            a
        }
    }
}

/// The pickup events among the first `n` drops.
pub open spec fn pickup_events(p: Player, drops: Seq<AmmoDrop>, n: nat) -> Seq<Event>
    decreases n,
{
    if n == 0 {
        seq![]
    } else {
        let r = pickup_events(p, drops, (n - 1) as nat);
        if drop_taken(p, drops[n - 1]) {
            r.push(Event::DropCollected { x: drops[n - 1].x, y: drops[n - 1].y })
        } else {
            r
        }
    }
}

/// A drop after the player's pass over it.
pub open spec fn after_pickup(p: Player, d: AmmoDrop) -> AmmoDrop {
    if drop_taken(p, d) {
        AmmoDrop { active: false, ..d }
    } else {
        d
    }
}

/// The player picks up every active drop near it, gaining the bonus for each.
pub fn collect_drops(player: &mut Player, drops: &mut Vec<AmmoDrop>, events: &mut Vec<Event>)
    ensures
        *final(player) == (Player { ammo: ammo_after(*old(player), old(drops)@, old(drops)@.len()) as i32, ..*old(player) }),
        final(drops)@.len() == old(drops)@.len(),
        forall|i: int| 0 <= i < final(drops)@.len() ==> #[trigger] final(drops)@[i] == after_pickup(*old(player), old(drops)@[i]),
        final(events)@ == old(events)@ + pickup_events(*old(player), old(drops)@, old(drops)@.len()),
{
    let ghost p_start = *player;
    let ghost d0 = drops@;
    let ghost ev0 = events@;
    let n = drops.len();
    let mut i: usize = 0;
    while i < n
        invariant
            n == d0.len(),
            0 <= i <= n,
            drops@.len() == n,
            *player == (Player { ammo: player.ammo, ..p_start }),
            player.ammo == ammo_after(p_start, d0, i as nat),
            forall|j: int| 0 <= j < i ==> #[trigger] drops@[j] == after_pickup(p_start, d0[j]),
            forall|j: int| i <= j < n ==> #[trigger] drops@[j] == d0[j],
            events@ == ev0 + pickup_events(p_start, d0, i as nat),
        decreases n - i,
    {
        let d = drops[i];
        if d.active && is_near(player.x, player.y, d.x, d.y) {
            if player.ammo <= i32::MAX - AMMO_BONUS {
                player.ammo = player.ammo + AMMO_BONUS;
            } else {
                player.ammo = i32::MAX;
            }
            drops.set(i, AmmoDrop { active: false, ..d });
            events.push(Event::DropCollected { x: d.x, y: d.y });
        }
        proof {
            assert(events@ =~= ev0 + pickup_events(p_start, d0, (i + 1) as nat));
        }
        i += 1;
    }
}

/// The items of `s` that `keep` accepts, in order.
pub open spec fn kept<T>(s: Seq<T>, keep: spec_fn(T) -> bool) -> Seq<T>
    decreases s.len(),
{
    if s.len() == 0 {
        s
    } else {
        let r = kept(s.drop_last(), keep);
        if keep(s.last()) {
            r.push(s.last())
        } else {
            r
        }
    }
}

/// The projectiles still in flight, in order.
pub open spec fn live_bullets(s: Seq<Bullet>) -> Seq<Bullet> {
    kept(s, |b: Bullet| b.active)
}

/// The hostiles still alive, in order.
pub open spec fn live_enemies(s: Seq<Enemy>) -> Seq<Enemy> {
    kept(s, |e: Enemy| e.alive)
}

/// The drops not yet picked up, in order.
pub open spec fn live_drops(s: Seq<AmmoDrop>) -> Seq<AmmoDrop> {
    kept(s, |d: AmmoDrop| d.active)
}

/// What `kept` returns is accepted and comes from `s`; when `keep` accepts
/// all of `s`, nothing is dropped.
proof fn lemma_kept<T>(s: Seq<T>, keep: spec_fn(T) -> bool)
    ensures
        forall|i: int| 0 <= i < kept(s, keep).len() ==> keep(#[trigger] kept(s, keep)[i]) && s.contains(kept(s, keep)[i]),
        (forall|i: int| 0 <= i < s.len() ==> keep(#[trigger] s[i])) ==> kept(s, keep) == s,
    decreases s.len(),
{
    if s.len() > 0 {
        lemma_kept(s.drop_last(), keep);
        let r = kept(s.drop_last(), keep);
        assert forall|i: int| 0 <= i < kept(s, keep).len() implies keep(#[trigger] kept(s, keep)[i]) && s.contains(kept(s, keep)[i]) by {
            if i < r.len() {
                assert(kept(s, keep)[i] == r[i]);
                assert(keep(r[i]));
                assert(s.drop_last().contains(r[i]));
                let j = choose|j: int| 0 <= j < s.drop_last().len() && s.drop_last()[j] == r[i];
                assert(s[j] == r[i]);
            } else {
                assert(s[s.len() - 1] == kept(s, keep)[i]);
            }
        }
        if forall|i: int| 0 <= i < s.len() ==> keep(#[trigger] s[i]) {
            assert forall|i: int| 0 <= i < s.drop_last().len() implies keep(#[trigger] s.drop_last()[i]) by {
                assert(keep(s[i]));
            }
            assert(s.drop_last().push(s.last()) =~= s);
        }
    }
}

proof fn lemma_live_bullets(s: Seq<Bullet>)
    ensures
        forall|i: int| 0 <= i < live_bullets(s).len() ==> #[trigger] live_bullets(s)[i].active && s.contains(live_bullets(s)[i]),
        (forall|i: int| 0 <= i < s.len() ==> #[trigger] s[i].active) ==> live_bullets(s) == s,
{
    lemma_kept(s, |b: Bullet| b.active);
}

proof fn lemma_live_enemies(s: Seq<Enemy>)
    ensures
        forall|i: int| 0 <= i < live_enemies(s).len() ==> #[trigger] live_enemies(s)[i].alive && s.contains(live_enemies(s)[i]),
        (forall|i: int| 0 <= i < s.len() ==> #[trigger] s[i].alive) ==> live_enemies(s) == s,
{
    lemma_kept(s, |e: Enemy| e.alive);
}

proof fn lemma_live_drops(s: Seq<AmmoDrop>)
    ensures
        forall|i: int| 0 <= i < live_drops(s).len() ==> #[trigger] live_drops(s)[i].active && s.contains(live_drops(s)[i]),
        (forall|i: int| 0 <= i < s.len() ==> #[trigger] s[i].active) ==> live_drops(s) == s,
{
    lemma_kept(s, |d: AmmoDrop| d.active);
}

/// Compacting twice keeps exactly what compacting once keeps.
pub proof fn lemma_compaction_idempotent(bullets: Seq<Bullet>, enemies: Seq<Enemy>, drops: Seq<AmmoDrop>)
    ensures
        live_bullets(live_bullets(bullets)) == live_bullets(bullets),
        live_enemies(live_enemies(enemies)) == live_enemies(enemies),
        live_drops(live_drops(drops)) == live_drops(drops),
{
    lemma_live_bullets(bullets);
    lemma_live_bullets(live_bullets(bullets));
    lemma_live_enemies(enemies);
    lemma_live_enemies(live_enemies(enemies));
    lemma_live_drops(drops);
    lemma_live_drops(live_drops(drops));
}

fn retain_bullets(v: &Vec<Bullet>) -> (r: Vec<Bullet>)
    ensures
        r@ == live_bullets(v@),
{
    let mut r: Vec<Bullet> = Vec::new();
    let mut i: usize = 0;
    while i < v.len()
        invariant
            0 <= i <= v@.len(),
            r@ == live_bullets(v@.take(i as int)),
        decreases v@.len() - i,
    {
        assert(v@.take(i + 1).drop_last() =~= v@.take(i as int));
        if v[i].active {
            r.push(v[i]);
        }
        i += 1;
    }
    assert(v@.take(v@.len() as int) =~= v@);
    r
}

fn retain_enemies(v: &Vec<Enemy>) -> (r: Vec<Enemy>)
    ensures
        r@ == live_enemies(v@),
{
    let mut r: Vec<Enemy> = Vec::new();
    let mut i: usize = 0;
    while i < v.len()
        invariant
            0 <= i <= v@.len(),
            r@ == live_enemies(v@.take(i as int)),
        decreases v@.len() - i,
    {
        assert(v@.take(i + 1).drop_last() =~= v@.take(i as int));
        if v[i].alive {
            r.push(v[i]);
        }
        i += 1;
    }
    assert(v@.take(v@.len() as int) =~= v@);
    r
}

fn retain_drops(v: &Vec<AmmoDrop>) -> (r: Vec<AmmoDrop>)
    ensures
        r@ == live_drops(v@),
{
    let mut r: Vec<AmmoDrop> = Vec::new();
    let mut i: usize = 0;
    while i < v.len()
        invariant
            0 <= i <= v@.len(),
            r@ == live_drops(v@.take(i as int)),
        decreases v@.len() - i,
    {
        assert(v@.take(i + 1).drop_last() =~= v@.take(i as int));
        if v[i].active {
            r.push(v[i]);
        }
        i += 1;
    }
    assert(v@.take(v@.len() as int) =~= v@);
    r
}


/// What the surrounding loop hands to one tick: held keys, a fire request,
/// the aim point in world coordinates and the time in milliseconds.
#[derive(Clone, Copy, Debug, PartialEq, Eq)]
pub struct Input {
    pub keys: Keys,
    pub fire: bool,
    pub aim_x: i32,
    pub aim_y: i32,
    pub now: u64,
}

/// Everything that changes from tick to tick; the maze is kept apart and
/// shared read-only.
#[derive(Clone, Debug)]
pub struct World {
    pub player: Player,
    pub bullets: Vec<Bullet>,
    pub enemies: Vec<Enemy>,
    pub drops: Vec<AmmoDrop>,
    pub width: i32,
    pub height: i32,
}

/// A hitbox at `(x, y)` lies between the boundary walls of a `w` × `h` world.
pub open spec fn inside(x: int, y: int, w: int, h: int) -> bool {
    &&& BOUNDARY_THICKNESS <= x <= w - BOUNDARY_THICKNESS - HITBOX
    &&& BOUNDARY_THICKNESS <= y <= h - BOUNDARY_THICKNESS - HITBOX
}

/// The maze ends with the four boundary walls of a `w` × `h` world.
pub open spec fn has_boundary(maze: Seq<Rect>, w: int, h: int) -> bool {
    maze.len() >= 4 && maze.subrange(maze.len() - 4, maze.len() as int) == boundary_walls(w, h)
}

/// No wall reaches past the right or bottom edge of a `w` × `h` world.
pub open spec fn walls_within(maze: Seq<Rect>, w: int, h: int) -> bool {
    forall|i: int| 0 <= i < maze.len() ==> #[trigger] maze[i].x + maze[i].w <= w && maze[i].y + maze[i].h <= h
}

proof fn lemma_reach_within(maze: Seq<Rect>, w: int, h: int)
    requires
        walls_within(maze, w, h),
        0 <= w,
        0 <= h,
    ensures
        reach_x(maze) <= w,
        reach_y(maze) <= h,
    decreases maze.len(),
{
    if maze.len() > 0 {
        let m = maze.drop_last();
        assert forall|i: int| 0 <= i < m.len() implies #[trigger] m[i].x + m[i].w <= w && m[i].y + m[i].h <= h by {
            assert(m[i] == maze[i]);
        }
        lemma_reach_within(m, w, h);
        assert(maze.last() == maze[maze.len() - 1]);
    }
}

/// The planner's search box for a hostile chasing the player in a world
/// whose walls stay inside it fits the planner's limit.
proof fn lemma_plan_fits(maze: Seq<Rect>, w: int, h: int, a: (i32, i32), b: (i32, i32))
    requires
        walls_within(maze, w, h),
        0 <= w <= 0x4000,
        0 <= h <= 0x4000,
        a.0 <= w && a.1 <= h && b.0 <= w && b.1 <= h,
    ensures
        box_w(maze, a, b) * box_h(maze, a, b) <= PLAN_CELLS,
{
    lemma_reach_within(maze, w, h);
    crate::path::lemma_reach_nonneg(maze);
    let bw = box_w(maze, a, b);
    let bh = box_h(maze, a, b);
    assert(1 <= bw <= 0x4001 && 1 <= bh <= 0x4001);
    assert(bw * bh <= 0x4001 * 0x4001) by (nonlinear_arith)
        requires 1 <= bw <= 0x4001, 1 <= bh <= 0x4001;
}

/// A world in which every entity is enclosed by the boundary walls: the
/// player, each hostile and each drop between them, each projectile within
/// the world; what compaction removes is gone.
pub open spec fn world_ok(w: World, maze: Seq<Rect>) -> bool {
    &&& 0 <= w.width <= 0x4000
    &&& 0 <= w.height <= 0x4000
    &&& has_boundary(maze, w.width as int, w.height as int)
    &&& walls_within(maze, w.width as int, w.height as int)
    &&& inside(w.player.x as int, w.player.y as int, w.width as int, w.height as int)
    &&& forall|i: int| 0 <= i < w.bullets@.len() ==> {
        let b = #[trigger] w.bullets@[i];
        &&& b.active
        &&& in_world(b.x as int, b.y as int, w.width as int, w.height as int)
        &&& -BULLET_SPEED <= b.vx <= BULLET_SPEED
        &&& -BULLET_SPEED <= b.vy <= BULLET_SPEED
    }
    &&& forall|i: int| 0 <= i < w.enemies@.len() ==> {
        let e = #[trigger] w.enemies@[i];
        &&& e.alive
        &&& e.health >= 1
        &&& inside(e.x as int, e.y as int, w.width as int, w.height as int)
    }
    &&& forall|i: int| 0 <= i < w.drops@.len() ==> {
        let d = #[trigger] w.drops@[i];
        &&& d.active
        &&& inside(d.x as int, d.y as int, w.width as int, w.height as int)
    }
}

/// The boundary walls keep a hitbox between them: from a spot between them,
/// a move of less than the wall thickness on each axis that overlaps no wall
/// ends between them again.
pub proof fn lemma_boundary_encloses(maze: Seq<Rect>, w: int, h: int, x: int, y: int, nx: int, ny: int)
    requires
        0 <= w <= 0x10_0000,
        0 <= h <= 0x10_0000,
        has_boundary(maze, w, h),
        inside(x, y, w, h),
        -BOUNDARY_THICKNESS < nx - x < BOUNDARY_THICKNESS,
        -BOUNDARY_THICKNESS < ny - y < BOUNDARY_THICKNESS,
        !box_hits_maze(maze, nx, ny),
    ensures
        inside(nx, ny, w, h),
{
    let n = maze.len() as int;
    assert(maze[n - 4] == maze.subrange(n - 4, n)[0]);
    assert(maze[n - 3] == maze.subrange(n - 4, n)[1]);
    assert(maze[n - 2] == maze.subrange(n - 4, n)[2]);
    assert(maze[n - 1] == maze.subrange(n - 4, n)[3]);
    assert(!box_hits_rect(maze[n - 4], nx, ny));
    assert(!box_hits_rect(maze[n - 3], nx, ny));
    assert(!box_hits_rect(maze[n - 2], nx, ny));
    assert(!box_hits_rect(maze[n - 1], nx, ny));
}

/// A projectile after one advance.
pub open spec fn advanced(b: Bullet, w: int, h: int) -> Bullet {
    let x = b.x + b.vx;
    let y = b.y + b.vy;
    Bullet { x: x as i32, y: y as i32, active: b.active && in_world(x, y, w, h), ..b }
}

/// Advances every projectile by its velocity.
pub fn advance_bullets(bullets: &mut Vec<Bullet>, width: i32, height: i32)
    requires
        forall|i: int| 0 <= i < old(bullets)@.len() ==> {
            let b = #[trigger] old(bullets)@[i];
            &&& i32::MIN <= b.x + b.vx <= i32::MAX
            &&& i32::MIN <= b.y + b.vy <= i32::MAX
        },
    ensures
        final(bullets)@.len() == old(bullets)@.len(),
        forall|i: int| 0 <= i < final(bullets)@.len() ==> #[trigger] final(bullets)@[i] == advanced(old(bullets)@[i], width as int, height as int),
{
    let ghost b0 = bullets@;
    let n = bullets.len();
    let mut i: usize = 0;
    while i < n
        invariant
            n == b0.len(),
            0 <= i <= n,
            bullets@.len() == n,
            forall|j: int| 0 <= j < i ==> #[trigger] bullets@[j] == advanced(b0[j], width as int, height as int),
            forall|j: int| i <= j < n ==> #[trigger] bullets@[j] == b0[j],
            forall|j: int| 0 <= j < n ==> {
                let b = #[trigger] b0[j];
                &&& i32::MIN <= b.x + b.vx <= i32::MAX
                &&& i32::MIN <= b.y + b.vy <= i32::MAX
            },
        decreases n - i,
    {
        let mut b = bullets[i];
        assert(b == b0[i as int]);
        b.update(width, height);
        bullets.set(i, b);
        i += 1;
    }
}

/// Moves every alive hostile one tick toward the player at `(player_x,
/// player_y)`; all of them decide against the positions at the start of the tick.
pub fn advance_enemies(enemies: &mut Vec<Enemy>, player_x: i32, player_y: i32, maze: &[Rect])
    requires
        forall|i: int| 0 <= i < old(enemies)@.len() ==> {
            let e = #[trigger] old(enemies)@[i];
            &&& i32::MIN + ENEMY_SPEED <= e.x <= i32::MAX - ENEMY_SPEED
            &&& i32::MIN + ENEMY_SPEED <= e.y <= i32::MAX - ENEMY_SPEED
            &&& box_w(maze@, (e.x, e.y), (player_x, player_y)) * box_h(maze@, (e.x, e.y), (player_x, player_y))
                <= PLAN_CELLS
        },
    ensures
        final(enemies)@.len() == old(enemies)@.len(),
        forall|i: int| 0 <= i < final(enemies)@.len() && !(#[trigger] old(enemies)@[i]).alive ==> final(enemies)@[i] == old(enemies)@[i],
        forall|i: int| 0 <= i < final(enemies)@.len() && (#[trigger] old(enemies)@[i]).alive ==> exists|r: Option<Seq<(i32, i32)>>|
            planner_answer(maze@, (old(enemies)@[i].x, old(enemies)@[i].y), (player_x, player_y), r)
                && #[trigger] pursued(old(enemies)@[i], final(enemies)@[i], i, player_x as int, player_y as int, r, old(enemies)@, maze@),
{
    let ghost e0 = enemies@;
    let n = enemies.len();
    let mut snapshot: Vec<Enemy> = Vec::new();
    let mut i: usize = 0;
    while i < n
        invariant
            n == e0.len(),
            enemies@ == e0,
            0 <= i <= n,
            snapshot@ == e0.take(i as int),
        decreases n - i,
    {
        snapshot.push(enemies[i]);
        assert(snapshot@ =~= e0.take(i + 1));
        i += 1;
    }
    assert(snapshot@ =~= e0);
    let mut i: usize = 0;
    while i < n
        invariant
            n == e0.len(),
            snapshot@ == e0,
            0 <= i <= n,
            enemies@.len() == n,
            forall|j: int| i <= j < n ==> #[trigger] enemies@[j] == e0[j],
            forall|j: int| 0 <= j < i && !(#[trigger] e0[j]).alive ==> enemies@[j] == e0[j],
            forall|j: int| 0 <= j < i && (#[trigger] e0[j]).alive ==> exists|r: Option<Seq<(i32, i32)>>|
                planner_answer(maze@, (e0[j].x, e0[j].y), (player_x, player_y), r)
                    && #[trigger] pursued(e0[j], enemies@[j], j, player_x as int, player_y as int, r, e0, maze@),
            forall|j: int| 0 <= j < n ==> {
                let e = #[trigger] e0[j];
                &&& i32::MIN + ENEMY_SPEED <= e.x <= i32::MAX - ENEMY_SPEED
                &&& i32::MIN + ENEMY_SPEED <= e.y <= i32::MAX - ENEMY_SPEED
                &&& box_w(maze@, (e.x, e.y), (player_x, player_y)) * box_h(maze@, (e.x, e.y), (player_x, player_y))
                    <= PLAN_CELLS
            },
        decreases n - i,
    {
        let mut e = enemies[i];
        assert(e == e0[i as int]);
        e.update(i, player_x, player_y, snapshot.as_slice(), maze);
        let ghost before = enemies@;
        enemies.set(i, e);
        proof {
            assert forall|j: int| 0 <= j < i + 1 && (#[trigger] e0[j]).alive implies exists|r: Option<Seq<(i32, i32)>>|
                planner_answer(maze@, (e0[j].x, e0[j].y), (player_x, player_y), r)
                    && #[trigger] pursued(e0[j], enemies@[j], j, player_x as int, player_y as int, r, e0, maze@) by {
                if j < i {
                    assert(enemies@[j] == before[j]);
                    let r = choose|r: Option<Seq<(i32, i32)>>|
                        planner_answer(maze@, (e0[j].x, e0[j].y), (player_x, player_y), r)
                            && #[trigger] pursued(e0[j], before[j], j, player_x as int, player_y as int, r, e0, maze@);
                    assert(pursued(e0[j], enemies@[j], j, player_x as int, player_y as int, r, e0, maze@));
                } else {
                    assert(enemies@[j] == e);
                    let r = choose|r: Option<Seq<(i32, i32)>>|
                        planner_answer(maze@, (e0[j].x, e0[j].y), (player_x, player_y), r)
                            && #[trigger] pursued(e0[j], e, j, player_x as int, player_y as int, r, e0, maze@);
                    assert(pursued(e0[j], enemies@[j], j, player_x as int, player_y as int, r, e0, maze@));
                }
            }
        }
        i += 1;
    }
}

/// A pursuing hostile between the boundary walls stays between them, alive
/// and with its health.
proof fn lemma_pursuit_enclosed(
    e: Enemy,
    e2: Enemy,
    index: int,
    px: int,
    py: int,
    r: Option<Seq<(i32, i32)>>,
    others: Seq<Enemy>,
    maze: Seq<Rect>,
    w: int,
    h: int,
)
    requires
        0 <= w <= 0x10_0000,
        0 <= h <= 0x10_0000,
        has_boundary(maze, w, h),
        inside(e.x as int, e.y as int, w, h),
        planner_answer(maze, (e.x, e.y), (px as i32, py as i32), r),
        pursued(e, e2, index, px, py, r, others, maze),
    ensures
        inside(e2.x as int, e2.y as int, w, h),
        e2.alive == e.alive,
        e2.health == e.health,
{
    match r {
        Some(p) => {
            if p.len() > 1 && step_free(maze, others, index, p[1].0 as int, p[1].1 as int) {
                assert(is_path(maze, p, (e.x, e.y), (px as i32, py as i32)));
                assert(p[0] == (e.x, e.y));
                assert(crate::path::adjacent(p[0], p[1]));
                lemma_boundary_encloses(maze, w, h, e.x as int, e.y as int, p[1].0 as int, p[1].1 as int);
            }
        },
        None => {
            if e2 != e {
                lemma_scaled_axis_bound(e2.x - e.x, px - e.x, py - e.y, ENEMY_SPEED as int);
                lemma_scaled_axis_bound(e2.y - e.y, py - e.y, px - e.x, ENEMY_SPEED as int);
                lemma_boundary_encloses(maze, w, h, e.x as int, e.y as int, e2.x as int, e2.y as int);
            }
        },
    }
}

/// `e1` is what one tick of pursuit of the player at `(px, py)` makes of
/// the hostiles `e0`, each deciding against `e0`.
pub open spec fn pursuit_tick(e0: Seq<Enemy>, e1: Seq<Enemy>, px: int, py: int, maze: Seq<Rect>) -> bool {
    &&& e1.len() == e0.len()
    &&& forall|i: int| 0 <= i < e0.len() && !(#[trigger] e0[i]).alive ==> e1[i] == e0[i]
    &&& forall|i: int| 0 <= i < e0.len() && (#[trigger] e0[i]).alive ==> exists|r: Option<Seq<(i32, i32)>>|
        planner_answer(maze, (e0[i].x, e0[i].y), (px as i32, py as i32), r)
            && #[trigger] pursued(e0[i], e1[i], i, px, py, r, e0, maze)
}

/// The player after the movement step of a tick.
pub open spec fn moved_player(w: World, input: Input, maze: Seq<Rect>) -> Player {
    let (nx, ny) = candidate(w.player, input.keys);
    if box_hits_maze(maze, nx, ny) {
        w.player
    } else {
        Player { x: nx as i32, y: ny as i32, ..w.player }
    }
}

/// A shot is fired during the tick.
pub open spec fn fires(w: World, input: Input, maze: Seq<Rect>) -> bool {
    input.fire && shot_accepted(moved_player(w, input, maze), input.now)
}

/// The player after the movement and shooting steps of a tick.
pub open spec fn armed_player(w: World, input: Input, maze: Seq<Rect>) -> Player {
    if fires(w, input, maze) {
        after_shot(moved_player(w, input, maze), input.now)
    } else {
        moved_player(w, input, maze)
    }
}

/// `w2` and `events` are what one tick makes of `w` under `input`: the
/// player moves and may fire `shot`, projectiles advance, hostiles pursue
/// (`pursuers`), hits are resolved (`m`), drops are picked up, and what is
/// spent is compacted away.
pub open spec fn tick_with(
    w: World,
    input: Input,
    maze: Seq<Rect>,
    w2: World,
    events: Seq<Event>,
    shot: Bullet,
    pursuers: Seq<Enemy>,
    m: Melee,
) -> bool {
    let fired = fires(w, input, maze);
    let armed = armed_player(w, input, maze);
    let b1 = if fired { w.bullets@.push(shot) } else { w.bullets@ };
    let b2 = Seq::new(b1.len(), |i: int| advanced(b1[i], w.width as int, w.height as int));
    let d4 = Seq::new(m.2.len(), |i: int| after_pickup(armed, m.2[i]));
    &&& fired ==> spawned_bullet(moved_player(w, input, maze), input.aim_x as int, input.aim_y as int, shot)
    &&& pursuit_tick(w.enemies@, pursuers, armed.x as int, armed.y as int, maze)
    &&& m == run_hits((b2, pursuers, w.drops@, seq![]), b2.len(), pursuers.len())
    &&& w2.player == (Player { ammo: ammo_after(armed, m.2, m.2.len()) as i32, ..armed })
    &&& w2.bullets@ == live_bullets(m.0)
    &&& w2.enemies@ == live_enemies(m.1)
    &&& w2.drops@ == live_drops(d4)
    &&& events == m.3 + pickup_events(armed, m.2, m.2.len())
    &&& w2.width == w.width
    &&& w2.height == w.height
}

/// `w2` and `events` are what one tick may make of `w` under `input`; the
/// only freedom is which shortest path the planner picks for a hostile.
pub open spec fn tick(w: World, input: Input, maze: Seq<Rect>, w2: World, events: Seq<Event>) -> bool {
    exists|shot: Bullet, pursuers: Seq<Enemy>, m: Melee| #[trigger] tick_with(w, input, maze, w2, events, shot, pursuers, m)
}

/// The maze that generation yields ends with the boundary walls of the
/// whole grid, and no wall of it reaches past the grid.
pub proof fn lemma_generated_maze_bounded(w: int, h: int, cell_size: int)
    requires
        1 <= w,
        1 <= h,
        1 <= cell_size,
        w * cell_size <= i32::MAX,
        h * cell_size <= i32::MAX,
    ensures
        has_boundary(crate::maze::maze_layout(w, h, cell_size), w * cell_size, h * cell_size),
        w * cell_size >= BOUNDARY_THICKNESS && h * cell_size >= BOUNDARY_THICKNESS ==> walls_within(
            crate::maze::maze_layout(w, h, cell_size),
            w * cell_size,
            h * cell_size,
        ),
{
    let m = crate::maze::maze_layout(w, h, cell_size);
    assert(m.subrange(m.len() - 4, m.len() as int) =~= boundary_walls(w * cell_size, h * cell_size));
    assert((w / 2) * cell_size + cell_size <= w * cell_size && (h / 2) * cell_size + cell_size <= h * cell_size
        && 0 <= (w / 2) * cell_size && 0 <= (h / 2) * cell_size && cell_size <= w * cell_size) by (nonlinear_arith)
        requires 1 <= w, 1 <= h, 1 <= cell_size;
    let b = boundary_walls(w * cell_size, h * cell_size);
    if w * cell_size >= BOUNDARY_THICKNESS && h * cell_size >= BOUNDARY_THICKNESS {
    assert forall|i: int| 0 <= i < m.len() implies #[trigger] m[i].x + m[i].w <= w * cell_size && m[i].y + m[i].h
        <= h * cell_size by {
        if i > 0 {
            assert(m[i] == b[i - 1]);
        }
    }
    }
}

/// The opening world lies enclosed in any world wide and tall enough to hold
/// its spawn points between the boundary walls; with the maze's boundary, every
/// tick from there keeps it enclosed.
pub proof fn lemma_opening_world_enclosed(w: World, maze: Seq<Rect>)
    requires
        w.player == (Player { x: 120, y: 120, health: 100, ammo: 50, last_shot: 0 }),
        w.bullets@ == Seq::<Bullet>::empty(),
        w.enemies@ == seq![
            Enemy { x: 400, y: 120, health: ENEMY_HEALTH, alive: true },
            Enemy { x: 450, y: 120, health: ENEMY_HEALTH, alive: true },
            Enemy { x: 500, y: 120, health: ENEMY_HEALTH, alive: true },
            Enemy { x: 550, y: 120, health: ENEMY_HEALTH, alive: true },
        ],
        w.drops@ == Seq::<AmmoDrop>::empty(),
        590 <= w.width <= 0x4000,
        160 <= w.height <= 0x4000,
        has_boundary(maze, w.width as int, w.height as int),
        walls_within(maze, w.width as int, w.height as int),
    ensures
        world_ok(w, maze),
{
}

/// Health of a hostile when it spawns.
pub const ENEMY_HEALTH: i32 = 3;

impl World {
    /// The session's opening state in a `width` × `height` world: the player
    /// at (120, 120) with full health and 50 rounds, four hostiles in a row
    /// from (400, 120) to (550, 120), nothing in flight and nothing to pick up.
    pub fn new(width: i32, height: i32) -> (w: World)
        ensures
            w.player == (Player { x: 120, y: 120, health: 100, ammo: 50, last_shot: 0 }),
            w.bullets@ == Seq::<Bullet>::empty(),
            w.enemies@ == seq![
                Enemy { x: 400, y: 120, health: ENEMY_HEALTH, alive: true },
                Enemy { x: 450, y: 120, health: ENEMY_HEALTH, alive: true },
                Enemy { x: 500, y: 120, health: ENEMY_HEALTH, alive: true },
                Enemy { x: 550, y: 120, health: ENEMY_HEALTH, alive: true },
            ],
            w.drops@ == Seq::<AmmoDrop>::empty(),
            w.width == width,
            w.height == height,
    {
        let mut enemies: Vec<Enemy> = Vec::new();
        enemies.push(Enemy { x: 400, y: 120, health: ENEMY_HEALTH, alive: true });
        enemies.push(Enemy { x: 450, y: 120, health: ENEMY_HEALTH, alive: true });
        enemies.push(Enemy { x: 500, y: 120, health: ENEMY_HEALTH, alive: true });
        enemies.push(Enemy { x: 550, y: 120, health: ENEMY_HEALTH, alive: true });
        assert(enemies@ =~= seq![
            Enemy { x: 400, y: 120, health: ENEMY_HEALTH, alive: true },
            Enemy { x: 450, y: 120, health: ENEMY_HEALTH, alive: true },
            Enemy { x: 500, y: 120, health: ENEMY_HEALTH, alive: true },
            Enemy { x: 550, y: 120, health: ENEMY_HEALTH, alive: true },
        ]);
        World {
            player: Player { x: 120, y: 120, health: 100, ammo: 50, last_shot: 0 },
            bullets: Vec::new(),
            enemies,
            drops: Vec::new(),
            width,
            height,
        }
    }

    /// One tick: moves the player by the held keys, fires if asked, advances
    /// projectiles, lets hostiles pursue the player, resolves hits and
    /// pickups, and compacts. Returns what happened, in order.
    pub fn step(&mut self, input: &Input, maze: &[Rect]) -> (events: Vec<Event>)
        requires
            world_ok(*old(self), maze@),
        ensures
            world_ok(*final(self), maze@),
            tick(*old(self), *input, maze@, *final(self), events@),
    {
        let ghost w0 = *self;
        let ghost (wd, ht) = (self.width as int, self.height as int);
        let mut events: Vec<Event> = Vec::new();
        self.player.move_player(&input.keys, maze);
        proof {
            let (nx, ny) = candidate(w0.player, input.keys);
            if !box_hits_maze(maze@, nx, ny) {
                lemma_boundary_encloses(maze@, wd, ht, w0.player.x as int, w0.player.y as int, nx, ny);
            }
        }
        let ghost moved = self.player;
        let ghost mut shot = Bullet { x: 0, y: 0, vx: 0, vy: 0, active: false };
        if input.fire {
            let ghost b_before = self.bullets@;
            let fired = self.player.shoot(input.aim_x, input.aim_y, input.now);
            match fired {
                Some(b) => {
                    proof {
                        shot = b;
                        lemma_scaled_axis_bound(b.vx as int, input.aim_x - moved.x, input.aim_y - moved.y, BULLET_SPEED as int);
                        lemma_scaled_axis_bound(b.vy as int, input.aim_y - moved.y, input.aim_x - moved.x, BULLET_SPEED as int);
                    }
                    self.bullets.push(b);
                    proof {
                        assert forall|i: int| 0 <= i < self.bullets@.len() implies {
                            let b = #[trigger] self.bullets@[i];
                            &&& in_world(b.x as int, b.y as int, wd, ht)
                            &&& -BULLET_SPEED <= b.vx <= BULLET_SPEED
                            &&& -BULLET_SPEED <= b.vy <= BULLET_SPEED
                        } by {
                            if i < b_before.len() {
                                assert(self.bullets@[i] == w0.bullets@[i]);
                            }
                        }
                    }
                },
                None => {},
            }
        }
        let ghost b1 = self.bullets@;
        assert forall|i: int| 0 <= i < b1.len() implies {
            let b = #[trigger] b1[i];
            &&& in_world(b.x as int, b.y as int, wd, ht)
            &&& -BULLET_SPEED <= b.vx <= BULLET_SPEED
            &&& -BULLET_SPEED <= b.vy <= BULLET_SPEED
        } by {
            if b1 == w0.bullets@ {
                assert(b1[i] == w0.bullets@[i]);
            }
        }
        advance_bullets(&mut self.bullets, self.width, self.height);
        let ghost b2 = self.bullets@;
        let px = self.player.x;
        let py = self.player.y;
        proof {
            assert forall|i: int| 0 <= i < self.enemies@.len() implies {
                let e = #[trigger] self.enemies@[i];
                &&& i32::MIN + ENEMY_SPEED <= e.x <= i32::MAX - ENEMY_SPEED
                &&& i32::MIN + ENEMY_SPEED <= e.y <= i32::MAX - ENEMY_SPEED
                &&& box_w(maze@, (e.x, e.y), (px, py)) * box_h(maze@, (e.x, e.y), (px, py)) <= PLAN_CELLS
            } by {
                let e = self.enemies@[i];
                lemma_plan_fits(maze@, wd, ht, (e.x, e.y), (px, py));
            }
        }
        advance_enemies(&mut self.enemies, px, py, maze);
        let ghost e2 = self.enemies@;
        proof {
            assert forall|i: int| 0 <= i < e2.len() implies {
                let e = #[trigger] e2[i];
                &&& e.alive
                &&& e.health >= 1
                &&& inside(e.x as int, e.y as int, wd, ht)
            } by {
                let e = w0.enemies@[i];
                assert(e.alive);
                let r = choose|r: Option<Seq<(i32, i32)>>|
                    planner_answer(maze@, (e.x, e.y), (px, py), r)
                        && #[trigger] pursued(e, e2[i], i, px as int, py as int, r, w0.enemies@, maze@);
                lemma_pursuit_enclosed(e, e2[i], i, px as int, py as int, r, w0.enemies@, maze@, wd, ht);
            }
        }
        resolve_hits(&mut self.bullets, &mut self.enemies, &mut self.drops, &mut events);
        let ghost b3 = self.bullets@;
        let ghost e3 = self.enemies@;
        let ghost d3 = self.drops@;
        proof {
            assert forall|k: int| 0 <= k < d3.len() implies {
                let d = #[trigger] d3[k];
                &&& d.active
                &&& inside(d.x as int, d.y as int, wd, ht)
            } by {
                if k < w0.drops@.len() {
                    assert(d3[k] == d3.subrange(0, w0.drops@.len() as int)[k]);
                    assert(d3[k] == w0.drops@[k]);
                } else {
                    assert(left_by(d3[k], e2));
                    let i = choose|i: int| 0 <= i < e2.len() && d3[k] == (AmmoDrop { x: #[trigger] e2[i].x, y: e2[i].y, active: true });
                    assert(inside(e2[i].x as int, e2[i].y as int, wd, ht));
                }
            }
        }
        let ghost armed = self.player;
        let ghost ev3 = events@;
        collect_drops(&mut self.player, &mut self.drops, &mut events);
        let ghost d4 = self.drops@;
        self.compact();
        proof {
            lemma_live_bullets(b3);
            lemma_live_enemies(e3);
            lemma_live_drops(d4);
            let w1 = *self;
            assert forall|i: int| 0 <= i < w1.bullets@.len() implies {
                let b = #[trigger] w1.bullets@[i];
                &&& b.active
                &&& in_world(b.x as int, b.y as int, wd, ht)
                &&& -BULLET_SPEED <= b.vx <= BULLET_SPEED
                &&& -BULLET_SPEED <= b.vy <= BULLET_SPEED
            } by {
                let b = w1.bullets@[i];
                assert(live_bullets(b3)[i].active);
                let j = choose|j: int| 0 <= j < b3.len() && b3[j] == b;
                assert(b2[j] == advanced(b1[j], wd, ht));
                assert(b3[j] == b2[j] || b3[j] == (Bullet { active: false, ..b2[j] }));
                assert(b1[j].vx == b.vx);
            }
            assert forall|i: int| 0 <= i < w1.enemies@.len() implies {
                let e = #[trigger] w1.enemies@[i];
                &&& e.alive
                &&& e.health >= 1
                &&& inside(e.x as int, e.y as int, wd, ht)
            } by {
                let e = w1.enemies@[i];
                assert(live_enemies(e3)[i].alive);
                let j = choose|j: int| 0 <= j < e3.len() && e3[j] == e;
                assert(e3[j].x == e2[j].x);
                assert(e2[j].alive);
            }
            assert forall|i: int| 0 <= i < w1.drops@.len() implies {
                let d = #[trigger] w1.drops@[i];
                &&& d.active
                &&& inside(d.x as int, d.y as int, wd, ht)
            } by {
                let d = w1.drops@[i];
                assert(live_drops(d4)[i].active);
                let j = choose|j: int| 0 <= j < d4.len() && d4[j] == d;
                assert(d4[j] == after_pickup(armed, d3[j]));
                assert(d3[j].active);
            }
            let m: Melee = (b3, e3, d3, ev3);
            assert(armed == armed_player(w0, *input, maze@));
            assert(b2 =~= Seq::new(b1.len(), |i: int| advanced(b1[i], wd, ht)));
            assert(d4 =~= Seq::new(d3.len(), |i: int| after_pickup(armed, d3[i])));
            assert(b1 == if fires(w0, *input, maze@) { w0.bullets@.push(shot) } else { w0.bullets@ });
            assert(tick_with(w0, *input, maze@, *self, events@, shot, e2, m));
        }
        events
    }

    /// Drops projectiles out of flight, fallen hostiles and picked-up drops.
    pub fn compact(&mut self)
        ensures
            final(self).bullets@ == live_bullets(old(self).bullets@),
            final(self).enemies@ == live_enemies(old(self).enemies@),
            final(self).drops@ == live_drops(old(self).drops@),
            final(self).player == old(self).player,
            final(self).width == old(self).width,
            final(self).height == old(self).height,
    {
        self.bullets = retain_bullets(&self.bullets);
        self.enemies = retain_enemies(&self.enemies);
        self.drops = retain_drops(&self.drops);
    }
}

} // verus!
