//! A player controlled by the client: what it knows of its surroundings,
//! the commands it queues, and its moves.
use vstd::prelude::*;
use crate::world::{WorldTiles, tile_in, after_set};
use crate::commands::{
    texts, walk, remove_tile, assert_pos, get_tiles, walk_text, remove_tile_text, assert_pos_text,
    get_tiles_text,
};
use crate::pathing::{
    search_paths, walk_value, pathing_seq, open_cells, cell_value, descent, dir_dx, dir_dy, in_view,
    view_index, lemma_view_index, VIEW_CELLS, VIEW_RADIUS, VIEW_SIDE, WALKABLE,
};

verus! {

/// The most time steps counted since the player last dug out a tile.
pub const MAXTSB: u8 = 64;

/// The most half-steps of walking budget a player holds.
pub const MAX_DWALKS: u8 = 64;

/// Another entity in the world, at `(x, y)`.
pub struct Enemy {
    pub x: i32,
    pub y: i32,
}

/// A tile that blocks walking and can be dug out: `0x81..=0x88`.
pub open spec fn solid(t: u8) -> bool {
    0x81 <= t && t <= 0x88
}

/// A tile that a step cannot enter: a solid tile, or `0x95` or `0x96`.
pub open spec fn blocks_step(t: u8) -> bool {
    solid(t) || t == 0x95 || t == 0x96
}

/// Whether an `i32` can hold `v`.
pub open spec fn fits_i32(v: int) -> bool {
    i32::MIN <= v <= i32::MAX
}

/// The walk commands for the steps `p`, in the order they are taken: the last
/// step of `p` first.
pub open spec fn walk_texts(p: Seq<u8>) -> Seq<Seq<char>> {
    Seq::new(p.len(), |i: int| walk_text(p[p.len() - 1 - i]))
}

/// Every step of a way back is one of the four directions.
pub proof fn lemma_descent_dirs(w: Seq<u8>, x: int, y: int, fuel: nat)
    ensures
        forall|i: int| 0 <= i < descent(w, x, y, fuel).len() ==> #[trigger] descent(w, x, y, fuel)[i] < 4,
        descent(w, x, y, fuel).len() <= fuel,
    decreases fuel,
{
    if fuel > 0 {
        let f = (fuel - 1) as nat;
        lemma_descent_dirs(w, x, y - 1, f);
        lemma_descent_dirs(w, x + 1, y, f);
        lemma_descent_dirs(w, x, y + 1, f);
        lemma_descent_dirs(w, x - 1, y, f);
    }
}

/// A way back that takes a step starts next to the searched square: a step
/// needs a smaller neighbour, and only cells of the square are below
/// `WALKABLE`.
pub proof fn lemma_descent_starts_near(w: Seq<u8>, x: int, y: int, fuel: nat)
    requires
        descent(w, x, y, fuel).len() > 0,
    ensures
        -34 <= x <= 34,
        -34 <= y <= 34,
{
}

/// The horizontal move of a step in direction `d`.
fn step_x(d: u8) -> (dx: i32)
    requires
        d < 4,
    ensures
        dx == dir_dx(d),
{
    if d == 1 {
        1
    } else if d == 3 {
        -1
    } else {
        0
    }
}

/// The vertical move of a step in direction `d`.
fn step_y(d: u8) -> (dy: i32)
    requires
        d < 4,
    ensures
        dy == dir_dy(d),
{
    if d == 0 {
        -1
    } else if d == 2 {
        1
    } else {
        0
    }
}

proof fn lemma_walk_texts_extend(p: Seq<u8>, m: int, n: int)
    requires
        0 < m <= n <= p.len(),
    ensures
        walk_texts(p.subrange(m - 1, n)) == walk_texts(p.subrange(m, n)).push(walk_text(p[m - 1])),
{
    assert(walk_texts(p.subrange(m - 1, n)) =~= walk_texts(p.subrange(m, n)).push(walk_text(p[m - 1])));
}

/// Whether `v` fits in an `i32` whose absolute value can be taken.
pub open spec fn fits_abs(v: int) -> bool {
    i32::MIN < v <= i32::MAX
}

/// The absolute value of `v`.
pub open spec fn abs_int(v: int) -> int {
    if v < 0 {
        -v
    } else {
        v
    }
}

/// Whether `e` is closer than `dist` to `(x, y)` along both axes.
pub open spec fn near(e: Enemy, x: int, y: int, dist: int) -> bool {
    abs_int(e.x - x) < dist && abs_int(e.y - y) < dist
}

/// Looks through the enemies from index `i` on for one near `(x, y)`, as
/// `is_near_enemy` does: `None` when a distance it computes on the way does
/// not fit in an `i32` or is `i32::MIN`.
pub open spec fn near_scan(en: Seq<Enemy>, x: int, y: int, dist: int, i: int) -> Option<bool>
    decreases en.len() - i,
{
    if i < 0 || i >= en.len() {
        Some(false)
    } else if !fits_abs(en[i].x - x) {
        None
    } else if abs_int(en[i].x - x) < dist {
        if !fits_abs(en[i].y - y) {
            None
        } else if abs_int(en[i].y - y) < dist {
            Some(true)
        } else {
            near_scan(en, x, y, dist, i + 1)
        }
    } else {
        near_scan(en, x, y, dist, i + 1)
    }
}

proof fn lemma_near_scan(en: Seq<Enemy>, x: int, y: int, dist: int, i: int)
    requires
        0 <= i <= en.len(),
        near_scan(en, x, y, dist, i) is Some,
    ensures
        near_scan(en, x, y, dist, i) == Some(exists|j: int| i <= j < en.len() && near(#[trigger] en[j], x, y, dist)),
    decreases en.len() - i,
{
    if i < en.len() {
        if !near(en[i], x, y, dist) {
            lemma_near_scan(en, x, y, dist, i + 1);
            if exists|j: int| i <= j < en.len() && near(#[trigger] en[j], x, y, dist) {
                let j = choose|j: int| i <= j < en.len() && near(#[trigger] en[j], x, y, dist);
                assert(i + 1 <= j);
            }
        }
    }
}

proof fn lemma_near_scan_fits(en: Seq<Enemy>, x: int, y: int, dist: int, i: int)
    requires
        0 <= i <= en.len(),
        forall|j: int|
            0 <= j < en.len() ==> i32::MIN < (#[trigger] en[j]).x - x <= i32::MAX && i32::MIN < en[j].y - y <= i32::MAX,
    ensures
        near_scan(en, x, y, dist, i) is Some,
    decreases en.len() - i,
{
    if i < en.len() {
        lemma_near_scan_fits(en, x, y, dist, i + 1);
    }
}

/// An enemy counts as near only when it is closer than `dist` along both
/// axes: when every distance to an enemy fits in an `i32`, the scan finds a
/// near enemy exactly when some enemy lies strictly within `dist` of `(x, y)`
/// along x and along y. An enemy `dist` or more away on either axis never
/// counts.
pub proof fn lemma_near_both_axes(en: Seq<Enemy>, x: int, y: int, dist: int)
    requires
        forall|j: int|
            0 <= j < en.len() ==> i32::MIN < (#[trigger] en[j]).x - x <= i32::MAX && i32::MIN < en[j].y - y <= i32::MAX,
    ensures
        near_scan(en, x, y, dist, 0) == Some(
            exists|j: int| 0 <= j < en.len() && -dist < (#[trigger] en[j]).x - x < dist && -dist < en[j].y - y < dist,
        ),
{
    lemma_near_scan_fits(en, x, y, dist, 0);
    lemma_near_scan(en, x, y, dist, 0);
    assert((exists|j: int| 0 <= j < en.len() && near(#[trigger] en[j], x, y, dist)) == (exists|j: int|
        0 <= j < en.len() && -dist < (#[trigger] en[j]).x - x < dist && -dist < en[j].y - y < dist));
}

/// Boring flees only from an enemy within 8 tiles on both axes: when every
/// distance to an enemy fits and no enemy is closer than 8 on both axes,
/// the flight takes no step; when one is, and more than two half-steps of
/// budget are left, the flight takes at least one step (if it can).
pub proof fn lemma_flight_only_from_near(
    en: Seq<Enemy>,
    x: int,
    y: int,
    dw: nat,
    ox: int,
    oy: int,
    dir_ok: bool,
)
    requires
        forall|j: int|
            0 <= j < en.len() ==> i32::MIN < (#[trigger] en[j]).x - x <= i32::MAX && i32::MIN < en[j].y - y <= i32::MAX,
    ensures
        (forall|j: int| 0 <= j < en.len() ==> !(-8 < (#[trigger] en[j]).x - x < 8 && -8 < en[j].y - y < 8)) ==> flee(
            en,
            x,
            y,
            dw,
            ox,
            oy,
            dir_ok,
        ) == Some((x, y, dw, 0nat)),
        (exists|j: int| 0 <= j < en.len() && -8 < (#[trigger] en[j]).x - x < 8 && -8 < en[j].y - y < 8) && dw > 2
            && flee(en, x, y, dw, ox, oy, dir_ok) is Some ==> flee(en, x, y, dw, ox, oy, dir_ok).unwrap().3 >= 1,
{
    lemma_near_both_axes(en, x, y, 8);
}

/// `k` copies of the text `t`.
pub open spec fn repeat_text(t: Seq<char>, k: nat) -> Seq<Seq<char>> {
    Seq::new(k, |i: int| t)
}

/// While more than 48 half-steps of budget are left, step by `(ox, oy)`,
/// stopping before a tile that blocks the step. The result is the final
/// position and budget, the number of steps, and whether a blocking tile
/// stopped it; `None` when a step would be taken in no direction
/// (`dir_ok` false) or a position does not fit in an `i32`.
pub open spec fn advance(
    m: Map<(int, int), Seq<u8>>,
    x: int,
    y: int,
    dw: nat,
    ox: int,
    oy: int,
    dir_ok: bool,
) -> Option<(int, int, nat, nat, bool)>
    decreases dw,
{
    if dw <= 48 {
        Some((x, y, dw, 0nat, false))
    } else if !dir_ok || !fits_i32(x + ox) || !fits_i32(y + oy) {
        None
    } else if blocks_step(tile_in(m, x + ox, y + oy)) {
        Some((x, y, dw, 0nat, true))
    } else {
        match advance(m, x + ox, y + oy, (dw - 2) as nat, ox, oy, dir_ok) {
            Some(r) => Some((r.0, r.1, r.2, r.3 + 1, r.4)),
            None => None,
        }
    }
}

/// While an enemy is within 8 tiles and more than two half-steps of budget
/// are left, step by `(ox, oy)`. The result is the final position and
/// budget and the number of steps; `None` as for `advance`, or when the
/// distance to an enemy does not fit (see `near_scan`).
pub open spec fn flee(
    en: Seq<Enemy>,
    x: int,
    y: int,
    dw: nat,
    ox: int,
    oy: int,
    dir_ok: bool,
) -> Option<(int, int, nat, nat)>
    decreases dw,
{
    match near_scan(en, x, y, 8, 0) {
        None => None,
        Some(false) => Some((x, y, dw, 0nat)),
        Some(true) => if dw <= 2 {
            Some((x, y, dw, 0nat))
        } else if !dir_ok || !fits_i32(x + ox) || !fits_i32(y + oy) {
            None
        } else {
            match flee(en, x + ox, y + oy, (dw - 2) as nat, ox, oy, dir_ok) {
                Some(r) => Some((r.0, r.1, r.2, r.3 + 1)),
                None => None,
            }
        },
    }
}

/// The horizontal move of boring in play mode `pm` (mode 0 has none).
pub open spec fn bore_dx(pm: u8) -> int {
    if pm == 0 {
        5
    } else if pm == 2 {
        1
    } else if pm == 4 {
        -1
    } else {
        0
    }
}

/// The vertical move of boring in play mode `pm`.
pub open spec fn bore_dy(pm: u8) -> int {
    if pm == 0 {
        5
    } else if pm == 1 {
        -1
    } else if pm == 3 {
        1
    } else {
        0
    }
}

/// The first part of a step of boring, taken only when exactly 18 time
/// steps have passed since the last dig: a step ahead, whatever the tile
/// there. The result is the position, budget and commands after it.
pub open spec fn bore_first(p: Player) -> Option<(int, int, nat, Seq<Seq<char>>)> {
    let ox = bore_dx(p.play_mode);
    let oy = bore_dy(p.play_mode);
    let dw = p.dwalks_left as nat;
    if p.time_since_break == 18 {
        if p.play_mode < 1 || dw < 2 || !fits_i32(p.x + ox) || !fits_i32(p.y + oy) {
            None
        } else {
            Some((p.x + ox, p.y + oy, (dw - 2) as nat, seq![walk_text((p.play_mode - 1) as u8)]))
        }
    } else {
        Some((p.x as int, p.y as int, dw, Seq::<Seq<char>>::empty()))
    }
}

/// The walking part of a step of boring, from `(x1, y1)` with budget `dw1`:
/// `advance`, then `flee` unless a blocking tile stopped the advance. The
/// result is the position, budget and commands after it.
pub open spec fn bore_walk(p: Player, m: Map<(int, int), Seq<u8>>, x1: int, y1: int, dw1: nat) -> Option<
    (int, int, nat, Seq<Seq<char>>),
> {
    let ox = bore_dx(p.play_mode);
    let oy = bore_dy(p.play_mode);
    let dir_ok = p.play_mode >= 1;
    let t = walk_text((p.play_mode - 1) as u8);
    match advance(m, x1, y1, dw1, ox, oy, dir_ok) {
        None => None,
        Some((x2, y2, dw2, n2, blocked)) => if blocked {
            Some((x2, y2, dw2, repeat_text(t, n2)))
        } else {
            match flee(p.enemies@, x2, y2, dw2, ox, oy, dir_ok) {
                None => None,
                Some((x3, y3, dw3, n3)) => Some((x3, y3, dw3, repeat_text(t, n2) + repeat_text(t, n3))),
            }
        },
    }
}

/// One time step of boring: what `game_step_bore` makes of player `p` in the
/// world `m`. The result is the new position, budget and time since the last
/// dig, the commands queued, and the tile dug out, if any; `None` when the
/// step would fail (a play mode above 4, a command in no direction, a budget
/// that runs out, or a position that does not fit in an `i32`).
pub open spec fn bore(p: Player, m: Map<(int, int), Seq<u8>>) -> Option<
    (int, int, nat, u8, Seq<Seq<char>>, Option<(int, int)>),
> {
    if p.time_since_break < 18 {
        Some((p.x as int, p.y as int, p.dwalks_left as nat, p.time_since_break, Seq::empty(), None))
    } else if p.play_mode > 4 {
        None
    } else {
        let ox = bore_dx(p.play_mode);
        let oy = bore_dy(p.play_mode);
        match bore_first(p) {
            None => None,
            Some((x1, y1, dw1, c1)) => if !fits_i32(x1 + ox) || !fits_i32(y1 + oy) {
                None
            } else if solid(tile_in(m, x1 + ox, y1 + oy)) {
                if p.play_mode < 1 {
                    None
                } else {
                    Some(
                        (
                            x1,
                            y1,
                            dw1,
                            0u8,
                            c1.push(remove_tile_text((p.play_mode - 1) as u8)),
                            Some((x1 + ox, y1 + oy)),
                        ),
                    )
                }
            } else {
                match bore_walk(p, m, x1, y1, dw1) {
                    None => None,
                    Some((x3, y3, dw3, c3)) => Some((x3, y3, dw3, p.time_since_break, c1 + c3, None)),
                }
            },
        }
    }
}

/// `near_scan` of all the enemies, the distances computed where they cannot
/// overflow.
fn near_check(en: &Vec<Enemy>, x: i32, y: i32, dist: i32) -> (r: Option<bool>)
    ensures
        r == near_scan(en@, x as int, y as int, dist as int, 0),
{
    let n = en.len();
    for k in 0..n
        invariant
            n == en@.len(),
            near_scan(en@, x as int, y as int, dist as int, k as int) == near_scan(en@, x as int, y as int, dist as int, 0),
    {
        let dx = en[k].x as i64 - x as i64;
        if dx <= i32::MIN as i64 || dx > i32::MAX as i64 {
            return None;
        }
        let adx = if dx < 0 { -dx } else { dx };
        if adx < dist as i64 {
            let dy = en[k].y as i64 - y as i64;
            if dy <= i32::MIN as i64 || dy > i32::MAX as i64 {
                return None;
            }
            let ady = if dy < 0 { -dy } else { dy };
            if ady < dist as i64 {
                return Some(true);
            }
        }
    }
    Some(false)
}

/// `v + d`, when it fits in an `i32`.
fn shifted(v: i32, d: i32) -> (r: Option<i32>)
    ensures
        r is Some <==> fits_i32(v + d),
        r matches Some(w) ==> w == v + d,
{
    let w = v as i64 + d as i64;
    if w < i32::MIN as i64 || w > i32::MAX as i64 {
        None
    } else {
        Some(w as i32)
    }
}

/// The horizontal move of boring in play mode `pm`.
fn bore_step_x(pm: u8) -> (ox: i32)
    requires
        pm <= 4,
    ensures
        ox == bore_dx(pm),
{
    if pm == 0 {
        5
    } else if pm == 2 {
        1
    } else if pm == 4 {
        -1
    } else {
        0
    }
}

/// The vertical move of boring in play mode `pm`.
fn bore_step_y(pm: u8) -> (oy: i32)
    requires
        pm <= 4,
    ensures
        oy == bore_dy(pm),
{
    if pm == 0 {
        5
    } else if pm == 1 {
        -1
    } else if pm == 3 {
        1
    } else {
        0
    }
}

proof fn lemma_repeat_push(t: Seq<char>, k: nat)
    ensures
        repeat_text(t, k).push(t) == repeat_text(t, k + 1),
{
    assert(repeat_text(t, k).push(t) =~= repeat_text(t, k + 1));
}

/// The client's part of a time step for player `p` in world `m`: a step of
/// boring in play modes 1 to 5 (see `bore`), nothing in the other modes.
pub open spec fn local_step(p: Player, m: Map<(int, int), Seq<u8>>) -> (int, int, nat, u8, Seq<Seq<char>>, Option<(int, int)>) {
    if 1 <= p.play_mode <= 5 {
        bore(p, m).unwrap()
    } else {
        (p.x as int, p.y as int, p.dwalks_left as nat, p.time_since_break, Seq::empty(), None)
    }
}

/// A counter that grows by one each time step up to `limit`.
pub open spec fn tick(v: int, limit: int) -> int {
    if v < limit {
        v + 1
    } else {
        v
    }
}

proof fn lemma_advance_spends(m: Map<(int, int), Seq<u8>>, x: int, y: int, dw: nat, ox: int, oy: int, dir_ok: bool)
    requires
        advance(m, x, y, dw, ox, oy, dir_ok) is Some,
    ensures
        advance(m, x, y, dw, ox, oy, dir_ok).unwrap().2 <= dw,
    decreases dw,
{
    if dw > 48 && dir_ok && fits_i32(x + ox) && fits_i32(y + oy) && !blocks_step(tile_in(m, x + ox, y + oy)) {
        lemma_advance_spends(m, x + ox, y + oy, (dw - 2) as nat, ox, oy, dir_ok);
    }
}

proof fn lemma_flee_spends(en: Seq<Enemy>, x: int, y: int, dw: nat, ox: int, oy: int, dir_ok: bool)
    requires
        flee(en, x, y, dw, ox, oy, dir_ok) is Some,
    ensures
        flee(en, x, y, dw, ox, oy, dir_ok).unwrap().2 <= dw,
    decreases dw,
{
    if near_scan(en, x, y, 8, 0) == Some(true) && dw > 2 && dir_ok && fits_i32(x + ox) && fits_i32(y + oy) {
        lemma_flee_spends(en, x + ox, y + oy, (dw - 2) as nat, ox, oy, dir_ok);
    }
}

/// The walking budget never grows past 64 half-steps: a time step of the
/// client that starts within the limit ends within it, and the time since
/// the last dig likewise stays within 64.
pub proof fn lemma_budget_bounded(p: Player, m: Map<(int, int), Seq<u8>>)
    requires
        p.dwalks_left <= MAX_DWALKS,
        p.time_since_break <= MAXTSB,
        1 <= p.play_mode <= 5 ==> bore(p, m) is Some,
    ensures
        tick(local_step(p, m).2 as int, MAX_DWALKS as int) <= MAX_DWALKS,
        tick(local_step(p, m).3 as int, MAXTSB as int) <= MAXTSB,
{
    if 1 <= p.play_mode <= 5 && p.time_since_break >= 18 {
        let f = bore_first(p).unwrap();
        let ox = bore_dx(p.play_mode);
        let oy = bore_dy(p.play_mode);
        if fits_i32(f.0 + ox) && fits_i32(f.1 + oy) && !solid(tile_in(m, f.0 + ox, f.1 + oy)) {
            lemma_advance_spends(m, f.0, f.1, f.2, ox, oy, p.play_mode >= 1);
            let a = advance(m, f.0, f.1, f.2, ox, oy, p.play_mode >= 1).unwrap();
            if !a.4 {
                lemma_flee_spends(p.enemies@, a.0, a.1, a.2, ox, oy, p.play_mode >= 1);
            }
        }
    }
}

/// The search square is a function of the player's position and the tiles
/// of the world alone: searching again from the same position, in a world
/// that gives the same tile everywhere, leaves the same square.
pub proof fn lemma_pathing_repeatable(p: Player, q: Player, m: Map<(int, int), Seq<u8>>, n: Map<(int, int), Seq<u8>>)
    requires
        p.x == q.x,
        p.y == q.y,
        forall|a: int, b: int| #[trigger] tile_in(m, a, b) == tile_in(n, a, b),
    ensures
        p.pathing_in(m) == q.pathing_in(n),
{
    assert(p.open_in(m) =~= q.open_in(n));
}

/// The player's own state, as the client keeps it.
pub struct Player {
    pub pindex: i32,
    pub x: i32,
    pub y: i32,
    pub rx: i32,
    pub ry: i32,
    pub health: u8,
    pub user: String,
    /// Commands waiting to be sent at the end of the step.
    pub comque: Vec<String>,
    pub enemies: Vec<Enemy>,
    /// The result of the last path search, a square of 67 by 67 cells
    /// centred on the player (see `crate::pathing`).
    pub walks_to: Vec<u8>,
    /// Walking budget in half-steps: each step costs two, and one comes back
    /// each time step.
    pub dwalks_left: u8,
    pub time_since_break: u8,
    /// 0: manual control; 1 to 4: boring in direction `play_mode - 1`.
    pub play_mode: u8,
}

impl Player {
    /// The search square has its full size.
    pub open spec fn wf(&self) -> bool {
        self.walks_to@.len() == VIEW_CELLS
    }

    /// `self` and `other` agree on every field but the search square.
    pub open spec fn same_but_walks(&self, other: &Player) -> bool {
        &&& self.pindex == other.pindex
        &&& self.x == other.x
        &&& self.y == other.y
        &&& self.rx == other.rx
        &&& self.ry == other.ry
        &&& self.health == other.health
        &&& self.user == other.user
        &&& self.comque == other.comque
        &&& self.enemies == other.enemies
        &&& self.dwalks_left == other.dwalks_left
        &&& self.time_since_break == other.time_since_break
        &&& self.play_mode == other.play_mode
    }

    /// Which cells around the player can be walked on in `world`.
    pub open spec fn open_in(&self, world: Map<(int, int), Seq<u8>>) -> spec_fn(int, int) -> bool {
        open_cells(world, self.x as int, self.y as int)
    }

    /// The search square for the player's position in `world`.
    pub open spec fn pathing_in(&self, world: Map<(int, int), Seq<u8>>) -> Seq<u8> {
        pathing_seq(self.open_in(world))
    }

    /// The steps of the way from the player to `(crx, cry)`, relative to
    /// the player, last step first (see `descent`).
    pub open spec fn walk_plan(&self, world: Map<(int, int), Seq<u8>>, crx: int, cry: int) -> Seq<u8> {
        let w = self.pathing_in(world);
        descent(w, crx, cry, cell_value(w, crx, cry) as nat)
    }

    /// The search fits in `i32` around the player's position.
    pub open spec fn search_fits(&self) -> bool {
        &&& i32::MIN + 33 <= self.x <= i32::MAX - 33
        &&& i32::MIN + 33 <= self.y <= i32::MAX - 33
    }

    /// `self` and `other` agree on every field that moving leaves alone.
    pub open spec fn same_but_moves(&self, other: &Player) -> bool {
        &&& self.pindex == other.pindex
        &&& self.rx == other.rx
        &&& self.ry == other.ry
        &&& self.health == other.health
        &&& self.user == other.user
        &&& self.enemies == other.enemies
        &&& self.time_since_break == other.time_since_break
        &&& self.play_mode == other.play_mode
    }

    /// The positions that `try_walk` computes fit in `i32`.
    pub open spec fn try_walk_fits(&self, world: Map<(int, int), Seq<u8>>, crx: int, cry: int) -> bool {
        let p = self.walk_plan(world, crx, cry);
        p.len() > 0 && p.len() * 2 <= self.dwalks_left ==> {
            &&& fits_i32(self.x + crx)
            &&& fits_i32(self.y + cry)
            &&& solid(tile_in(world, self.x + crx, self.y + cry)) ==> {
                &&& fits_i32(self.x + (crx - dir_dx(p[0])))
                &&& fits_i32(self.y + (cry - dir_dy(p[0])))
            }
        }
    }

    /// `self` and `other` agree on every field that boring leaves alone.
    pub open spec fn same_but_bore(&self, other: &Player) -> bool {
        &&& self.pindex == other.pindex
        &&& self.rx == other.rx
        &&& self.ry == other.ry
        &&& self.health == other.health
        &&& self.user == other.user
        &&& self.enemies == other.enemies
        &&& self.walks_to == other.walks_to
        &&& self.play_mode == other.play_mode
    }

    /// What a step of boring leaves: see `bore`.
    pub open spec fn bored(&self, old: &Player, wnew: Map<(int, int), Seq<u8>>, wold: Map<(int, int), Seq<u8>>) -> bool {
        let r = bore(*old, wold).unwrap();
        &&& self.same_but_bore(old)
        &&& self.x == r.0
        &&& self.y == r.1
        &&& self.dwalks_left == r.2
        &&& self.time_since_break == r.3
        &&& texts(self.comque@) == texts(old.comque@) + r.4
        &&& wnew == match r.5 {
            Some(d) => after_set(wold, d.0, d.1, 2),
            None => wold,
        }
    }

    /// A new player called `user`: at the origin, with a full walking budget,
    /// under manual control, with nothing searched yet.
    pub fn new(user: String) -> (p: Self)
        ensures
            p.wf(),
            p.pindex == 0 && p.x == 0 && p.y == 0 && p.rx == 0 && p.ry == 0 && p.health == 0,
            p.user == user,
            p.comque@.len() == 0,
            p.enemies@.len() == 0,
            forall|i: int| 0 <= i < VIEW_CELLS ==> p.walks_to@[i] == WALKABLE,
            p.dwalks_left == MAX_DWALKS,
            p.play_mode == 0,
            p.time_since_break == MAXTSB,
    {
        Self {
            pindex: 0,
            x: 0,
            y: 0,
            rx: 0,
            ry: 0,
            health: 0,
            user: user,
            comque: Vec::new(),
            enemies: Vec::new(),
            walks_to: vec![WALKABLE; VIEW_CELLS],
            dwalks_left: MAX_DWALKS,
            play_mode: 0,
            time_since_break: MAXTSB,
        }
    }

    /// The search value of the cell `(x, y)` relative to the player;
    /// cells outside the square count as walkable.
    pub fn get_walk_relpos(&self, x: i32, y: i32) -> (t: u8)
        requires
            self.wf(),
            x > i32::MIN,
            y > i32::MIN,
        ensures
            t == cell_value(self.walks_to@, x as int, y as int),
    {
        walk_value(&self.walks_to, x, y)
    }

    /// Overwrites the search value stored for `(x, y)` relative to the player.
    pub fn set_walk_relpos(&mut self, x: i32, y: i32, tile: u8)
        requires
            old(self).wf(),
            fits_i32(x + 33),
            fits_i32(y + 33),
            fits_i32((y + 33) * 67),
            0 <= view_index(x as int, y as int) < VIEW_CELLS,
        ensures
            final(self).wf(),
            final(self).same_but_walks(old(self)),
            final(self).walks_to@ == old(self).walks_to@.update(view_index(x as int, y as int), tile),
    {
        let i = (x + VIEW_RADIUS) + (y + VIEW_RADIUS) * VIEW_SIDE;
        self.walks_to.set(i as usize, tile);
    }

    /// Searches the surroundings again: see `crate::pathing`.
    pub fn generate_pathing(&mut self, world_tiles: &mut WorldTiles)
        requires
            old(self).wf(),
            old(world_tiles).inv(),
            old(self).search_fits(),
        ensures
            final(self).wf(),
            final(self).same_but_walks(old(self)),
            final(self).walks_to@ == old(self).pathing_in(old(world_tiles)@),
            *final(world_tiles) == *old(world_tiles),
    {
        search_paths(&mut self.walks_to, world_tiles, self.x, self.y);
    }

    /// Searches the surroundings again and returns the way from the player to
    /// `(crx, cry)`, relative to the player: the directions of its steps,
    /// the last step first.
    pub fn get_walk_to(&mut self, crx: i32, cry: i32, world_tiles: &mut WorldTiles) -> (walks: Vec<u8>)
        requires
            old(self).wf(),
            old(world_tiles).inv(),
            old(self).search_fits(),
            i32::MIN + 1 < crx < i32::MAX,
            i32::MIN + 1 < cry < i32::MAX,
        ensures
            final(self).wf(),
            final(self).same_but_walks(old(self)),
            final(self).walks_to@ == old(self).pathing_in(old(world_tiles)@),
            *final(world_tiles) == *old(world_tiles),
            walks@ == old(self).walk_plan(old(world_tiles)@, crx as int, cry as int),
    {
        let mut relx = crx;
        let mut rely = cry;
        self.generate_pathing(world_tiles);
        let ghost w = self.walks_to@;
        let steps = self.get_walk_relpos(relx, rely);
        let mut walks: Vec<u8> = Vec::new();
        let mut i: u8 = 0;
        while i < steps
            invariant
                self.wf(),
                w == self.walks_to@,
                self.same_but_walks(old(self)),
                w == old(self).pathing_in(old(world_tiles)@),
                *world_tiles == *old(world_tiles),
                steps == cell_value(w, crx as int, cry as int),
                i <= steps,
                (relx == crx && rely == cry) || in_view(relx as int, rely as int),
                i32::MIN + 1 < crx < i32::MAX,
                i32::MIN + 1 < cry < i32::MAX,
                walks@ + descent(w, relx as int, rely as int, (steps - i) as nat) == descent(
                    w,
                    crx as int,
                    cry as int,
                    steps as nat,
                ),
            decreases steps - i,
        {
            let ghost fuel = (steps - i) as nat;
            let ghost (px, py) = (relx as int, rely as int);
            let ghost before = walks@;
            let otsep = self.get_walk_relpos(relx, rely);
            if self.get_walk_relpos(relx, rely - 1) < otsep {
                rely = rely - 1;
                walks.push(2);
                proof {
                    assert(descent(w, px, py, fuel) == seq![2u8] + descent(w, px, py - 1, (fuel - 1) as nat));
                }
            } else if self.get_walk_relpos(relx + 1, rely) < otsep {
                relx = relx + 1;
                walks.push(3);
                proof {
                    assert(descent(w, px, py, fuel) == seq![3u8] + descent(w, px + 1, py, (fuel - 1) as nat));
                }
            } else if self.get_walk_relpos(relx, rely + 1) < otsep {
                rely = rely + 1;
                walks.push(0);
                proof {
                    assert(descent(w, px, py, fuel) == seq![0u8] + descent(w, px, py + 1, (fuel - 1) as nat));
                }
            } else if self.get_walk_relpos(relx - 1, rely) < otsep {
                relx = relx - 1;
                walks.push(1);
                proof {
                    assert(descent(w, px, py, fuel) == seq![1u8] + descent(w, px - 1, py, (fuel - 1) as nat));
                }
            } else {
                // A local minimum: only out of the square or at the player.
                proof {
                    assert(descent(w, relx as int, rely as int, fuel) =~= Seq::<u8>::empty());
                    assert(walks@ + Seq::<u8>::empty() =~= walks@);
                }
                return walks;
            }
            proof {
                // Moving to a smaller value lands inside the square.
                assert(in_view(relx as int, rely as int));
                assert(walks@ == before.push(walks@.last()));
                assert(walks@ + descent(w, relx as int, rely as int, (fuel - 1) as nat) =~= before + (seq![walks@.last()] + descent(w, relx as int, rely as int, (fuel - 1) as nat)));
            }
            i = i + 1;
        }
        proof {
            assert(descent(w, relx as int, rely as int, 0) =~= Seq::<u8>::empty());
            assert(walks@ + Seq::<u8>::empty() =~= walks@);
        }
        walks
    }

    /// Walks to `(crx, cry)`, relative to the player, along the way that
    /// `get_walk_to` finds, if the walking budget allows two half-steps per
    /// step. When the target is a solid tile, the last step digs it out
    /// instead and the player stops beside it. The walk is followed by a
    /// position check and a request for tiles.
    pub fn try_walk(&mut self, crx: i32, cry: i32, world_tiles: &mut WorldTiles)
        requires
            old(self).wf(),
            old(world_tiles).inv(),
            old(self).search_fits(),
            i32::MIN + 1 < crx < i32::MAX,
            i32::MIN + 1 < cry < i32::MAX,
            old(self).try_walk_fits(old(world_tiles)@, crx as int, cry as int),
        ensures
            final(self).wf(),
            final(self).walks_to@ == old(self).pathing_in(old(world_tiles)@),
            *final(world_tiles) == *old(world_tiles),
            ({
                let p = old(self).walk_plan(old(world_tiles)@, crx as int, cry as int);
                if p.len() == 0 || p.len() * 2 > old(self).dwalks_left {
                    final(self).same_but_walks(old(self))
                } else {
                    let t = tile_in(old(world_tiles)@, old(self).x + crx, old(self).y + cry);
                    &&& final(self).same_but_moves(old(self))
                    &&& final(self).dwalks_left == old(self).dwalks_left - 2 * p.len()
                    &&& if solid(t) {
                        &&& texts(final(self).comque@) == texts(old(self).comque@) + walk_texts(p.drop_first())
                            + seq![remove_tile_text(p[0]), assert_pos_text(), get_tiles_text()]
                        &&& final(self).x == old(self).x + crx - dir_dx(p[0])
                        &&& final(self).y == old(self).y + cry - dir_dy(p[0])
                    } else {
                        &&& texts(final(self).comque@) == texts(old(self).comque@) + walk_texts(p) + seq![
                            assert_pos_text(),
                            get_tiles_text(),
                        ]
                        &&& final(self).x == old(self).x + crx
                        &&& final(self).y == old(self).y + cry
                    }
                }
            }),
    {
        let ghost p = old(self).walk_plan(old(world_tiles)@, crx as int, cry as int);
        let mut walks = self.get_walk_to(crx, cry, world_tiles);
        proof {
            let w = old(self).pathing_in(old(world_tiles)@);
            lemma_descent_dirs(w, crx as int, cry as int, cell_value(w, crx as int, cry as int) as nat);
        }
        let n = walks.len();
        if n * 2 > self.dwalks_left as usize || n == 0 {
            return;
        }
        let ghost base = texts(self.comque@);
        let tile = world_tiles.get_tile_at(self.x + crx, self.y + cry);
        if tile >= 0x81 && tile <= 0x88 {
            self.dwalks_left = self.dwalks_left - 2 * (n as u8);
            while walks.len() > 1
                invariant
                    1 <= walks@.len() <= n,
                    n == p.len(),
                    walks@ == p.subrange(0, walks@.len() as int),
                    forall|i: int| 0 <= i < p.len() ==> #[trigger] p[i] < 4,
                    self.x == old(self).x,
                    self.y == old(self).y,
                    self.wf(),
                    self.same_but_moves(old(self)),
                    self.walks_to@ == old(self).pathing_in(old(world_tiles)@),
                    self.dwalks_left == old(self).dwalks_left - 2 * p.len(),
                    *world_tiles == *old(world_tiles),
                    texts(self.comque@) == base + walk_texts(p.subrange(walks@.len() as int, n as int)),
                decreases walks@.len(),
            {
                let ghost m = walks@.len() as int;
                match walks.pop() {
                    Some(d) => {
                        proof {
                            lemma_walk_texts_extend(p, m, n as int);
                        }
                        walk(&mut self.comque, d);
                    },
                    None => {},
                }
            }
            match walks.pop() {
                Some(d) => {
                    proof {
                        assert(p.subrange(1, n as int) =~= p.drop_first());
                    }
                    remove_tile(&mut self.comque, d);
                    self.x = self.x + (crx - step_x(d));
                    self.y = self.y + (cry - step_y(d));
                },
                None => {},
            }
        } else {
            self.dwalks_left = self.dwalks_left - 2 * (n as u8);
            proof {
                assert(p.subrange(n as int, n as int) =~= Seq::<u8>::empty());
                assert(walk_texts(Seq::<u8>::empty()) =~= Seq::<Seq<char>>::empty());
            }
            while walks.len() > 0
                invariant
                    walks@.len() <= n,
                    n == p.len(),
                    walks@ == p.subrange(0, walks@.len() as int),
                    forall|i: int| 0 <= i < p.len() ==> #[trigger] p[i] < 4,
                    self.x == old(self).x,
                    self.y == old(self).y,
                    self.wf(),
                    self.same_but_moves(old(self)),
                    self.walks_to@ == old(self).pathing_in(old(world_tiles)@),
                    self.dwalks_left == old(self).dwalks_left - 2 * p.len(),
                    *world_tiles == *old(world_tiles),
                    texts(self.comque@) == base + walk_texts(p.subrange(walks@.len() as int, n as int)),
                decreases walks@.len(),
            {
                let ghost m = walks@.len() as int;
                match walks.pop() {
                    Some(d) => {
                        proof {
                            lemma_walk_texts_extend(p, m, n as int);
                        }
                        walk(&mut self.comque, d);
                    },
                    None => {},
                }
            }
            proof {
                assert(p.subrange(0, n as int) =~= p);
            }
            self.x = self.x + crx;
            self.y = self.y + cry;
        }
        assert_pos(&mut self.comque);
        get_tiles(&mut self.comque);
    }

    /// Whether an enemy is closer than `dist` along both axes.
    pub fn is_near_enemy(&self, dist: i32) -> (r: bool)
        requires
            near_scan(self.enemies@, self.x as int, self.y as int, dist as int, 0) is Some,
        ensures
            Some(r) == near_scan(self.enemies@, self.x as int, self.y as int, dist as int, 0),
            r == exists|j: int| 0 <= j < self.enemies@.len() && near(#[trigger] self.enemies@[j], self.x as int, self.y as int, dist as int),
    {
        let ghost en = self.enemies@;
        let ghost (x, y) = (self.x as int, self.y as int);
        proof {
            lemma_near_scan(en, x, y, dist as int, 0);
        }
        let n = self.enemies.len();
        for k in 0..n
            invariant
                n == en.len(),
                en == self.enemies@,
                x == self.x,
                y == self.y,
                near_scan(en, x, y, dist as int, 0) is Some,
                near_scan(en, x, y, dist as int, k as int) == near_scan(en, x, y, dist as int, 0),
        {
            let ex = self.enemies[k].x;
            let ey = self.enemies[k].y;
            let dx = ex - self.x;
            let adx = if dx < 0 { -dx } else { dx };
            if adx < dist {
                let dy = ey - self.y;
                let ady = if dy < 0 { -dy } else { dy };
                if ady < dist {
                    return true;
                }
            }
        }
        false
    }

    /// Steps by `(ox, oy)` in direction `dir` unless the tile there blocks
    /// the step; says whether it stepped.
    pub fn try_step(&mut self, world_tiles: &mut WorldTiles, dir: u8, ox: i32, oy: i32) -> (stepped: bool)
        requires
            old(world_tiles).inv(),
            fits_i32(old(self).x + ox),
            fits_i32(old(self).y + oy),
            !blocks_step(tile_in(old(world_tiles)@, old(self).x + ox, old(self).y + oy)) ==> old(
                self,
            ).dwalks_left >= 2,
        ensures
            *final(world_tiles) == *old(world_tiles),
            stepped == !blocks_step(tile_in(old(world_tiles)@, old(self).x + ox, old(self).y + oy)),
            !stepped ==> *final(self) == *old(self),
            stepped ==> {
                &&& final(self).same_but_moves(old(self))
                &&& final(self).walks_to == old(self).walks_to
                &&& texts(final(self).comque@) == texts(old(self).comque@).push(walk_text(dir))
                &&& final(self).dwalks_left == old(self).dwalks_left - 2
                &&& final(self).x == old(self).x + ox
                &&& final(self).y == old(self).y + oy
            },
    {
        let tile = world_tiles.get_tile_at(self.x + ox, self.y + oy);
        if (tile >= 0x81 && tile <= 0x88) || tile == 0x95 || tile == 0x96 {
            return false;
        }
        walk(&mut self.comque, dir);
        self.dwalks_left = self.dwalks_left - 2;
        self.x = self.x + ox;
        self.y = self.y + oy;
        true
    }

    /// One time step of boring in direction `play_mode - 1`, at most once
    /// every 18 time steps after a dig: dig out a solid tile ahead, or walk
    /// ahead while the budget is above 48 half-steps, then keep walking while
    /// an enemy is within 8 tiles. See `bore` for the exact outcome.
    #[verifier::rlimit(60)]
    pub fn game_step_bore(&mut self, world_tiles: &mut WorldTiles)
        requires
            old(world_tiles).inv(),
            bore(*old(self), old(world_tiles)@) is Some,
        ensures
            final(world_tiles).inv(),
            final(self).bored(old(self), final(world_tiles)@, old(world_tiles)@),
    {
        let ghost m = world_tiles@;
        let ghost p0 = *old(self);
        if self.time_since_break < 18 {
            proof {
                assert(texts(self.comque@) =~= texts(old(self).comque@) + Seq::<Seq<char>>::empty());
            }
            return;
        }
        let ox = bore_step_x(self.play_mode);
        let oy = bore_step_y(self.play_mode);
        let ghost base = texts(old(self).comque@);
        let ghost first = bore_first(p0).unwrap();
        if self.time_since_break == 18 {
            walk(&mut self.comque, self.play_mode - 1);
            self.dwalks_left = self.dwalks_left - 2;
            self.x = self.x + ox;
            self.y = self.y + oy;
        }
        proof {
            assert(texts(self.comque@) =~= base + first.3);
            assert(self.x == first.0 && self.y == first.1 && self.dwalks_left == first.2);
        }
        let tile = world_tiles.get_tile_at(self.x + ox, self.y + oy);
        if tile >= 0x81 && tile <= 0x88 {
            remove_tile(&mut self.comque, self.play_mode - 1);
            world_tiles.set_tile_at(self.x + ox, self.y + oy, 2);
            self.time_since_break = 0;
            proof {
                assert(texts(self.comque@) =~= base + first.3.push(remove_tile_text((p0.play_mode - 1) as u8)));
            }
            return;
        }
        let ghost walked = bore_walk(p0, m, first.0, first.1, first.2);
        proof {
            assert(bore(p0, m) == Some((walked.unwrap().0, walked.unwrap().1, walked.unwrap().2, p0.time_since_break, first.3 + walked.unwrap().3, None::<(int, int)>)));
        }
        let ghost a = advance(m, first.0, first.1, first.2, bore_dx(p0.play_mode), bore_dy(p0.play_mode), p0.play_mode >= 1).unwrap();
        let ghost t = walk_text((p0.play_mode - 1) as u8);
        let mid = self.walk_ahead(world_tiles, ox, oy);
        proof {
            assert(texts(self.comque@) == base + first.3 + repeat_text(t, a.3));
        }
        if mid {
            let ghost fl = flee(p0.enemies@, a.0, a.1, a.2, bore_dx(p0.play_mode), bore_dy(p0.play_mode), p0.play_mode >= 1).unwrap();
            self.flee_enemies(ox, oy);
            proof {
                assert(walked.unwrap() == (fl.0, fl.1, fl.2, repeat_text(t, a.3) + repeat_text(t, fl.3)));
                assert(texts(self.comque@) =~= base + (first.3 + walked.unwrap().3));
            }
        } else {
            proof {
                assert(walked.unwrap() == (a.0, a.1, a.2, repeat_text(t, a.3)));
                assert(texts(self.comque@) =~= base + (first.3 + walked.unwrap().3));
            }
        }
    }

    /// The advance of a step of boring (see `advance`): says whether it
    /// ended with the budget spent rather than at a blocking tile.
    fn walk_ahead(&mut self, world_tiles: &mut WorldTiles, ox: i32, oy: i32) -> (done: bool)
        requires
            old(world_tiles).inv(),
            old(self).play_mode <= 4,
            ox == bore_dx(old(self).play_mode),
            oy == bore_dy(old(self).play_mode),
            advance(old(world_tiles)@, old(self).x as int, old(self).y as int, old(self).dwalks_left as nat, ox as int, oy as int, old(self).play_mode >= 1) is Some,
        ensures
            *final(world_tiles) == *old(world_tiles),
            final(self).same_but_bore(old(self)),
            final(self).time_since_break == old(self).time_since_break,
            ({
                let a = advance(old(world_tiles)@, old(self).x as int, old(self).y as int, old(self).dwalks_left as nat, ox as int, oy as int, old(self).play_mode >= 1).unwrap();
                &&& final(self).x == a.0
                &&& final(self).y == a.1
                &&& final(self).dwalks_left == a.2
                &&& done == !a.4
                &&& texts(final(self).comque@) == texts(old(self).comque@) + repeat_text(walk_text((old(self).play_mode - 1) as u8), a.3)
            }),
    {
        let ghost m = world_tiles@;
        let ghost dir_ok = self.play_mode >= 1;
        let ghost t = walk_text((self.play_mode - 1) as u8);
        let ghost base = texts(self.comque@);
        let ghost a0 = advance(m, self.x as int, self.y as int, self.dwalks_left as nat, ox as int, oy as int, dir_ok);
        let ghost mut k: nat = 0;
        proof {
            assert(texts(self.comque@) =~= base + repeat_text(t, 0));
        }
        while self.dwalks_left > 48
            invariant
                *world_tiles == *old(world_tiles),
                world_tiles.inv(),
                world_tiles@ == m,
                dir_ok == (self.play_mode >= 1),
                t == walk_text((self.play_mode - 1) as u8),
                self.play_mode <= 4,
                ox == bore_dx(self.play_mode),
                oy == bore_dy(self.play_mode),
                self.same_but_bore(old(self)),
                self.time_since_break == old(self).time_since_break,
                a0 is Some,
                a0 == advance(old(world_tiles)@, old(self).x as int, old(self).y as int, old(self).dwalks_left as nat, ox as int, oy as int, old(self).play_mode >= 1),
                base == texts(old(self).comque@),
                advance(m, self.x as int, self.y as int, self.dwalks_left as nat, ox as int, oy as int, dir_ok) is Some,
                a0 == Some(
                    (
                        advance(m, self.x as int, self.y as int, self.dwalks_left as nat, ox as int, oy as int, dir_ok).unwrap().0,
                        advance(m, self.x as int, self.y as int, self.dwalks_left as nat, ox as int, oy as int, dir_ok).unwrap().1,
                        advance(m, self.x as int, self.y as int, self.dwalks_left as nat, ox as int, oy as int, dir_ok).unwrap().2,
                        advance(m, self.x as int, self.y as int, self.dwalks_left as nat, ox as int, oy as int, dir_ok).unwrap().3 + k,
                        advance(m, self.x as int, self.y as int, self.dwalks_left as nat, ox as int, oy as int, dir_ok).unwrap().4,
                    ),
                ),
                texts(self.comque@) == base + repeat_text(t, k),
            decreases self.dwalks_left,
        {
            let ghost cur = (self.x as int, self.y as int, self.dwalks_left as nat);
            proof {
                assert(dir_ok);
                assert(fits_i32(cur.0 + ox) && fits_i32(cur.1 + oy));
            }
            let success = self.try_step(world_tiles, self.play_mode - 1, ox, oy);
            if !success {
                proof {
                    assert(advance(m, cur.0, cur.1, cur.2, ox as int, oy as int, dir_ok) == Some((cur.0, cur.1, cur.2, 0nat, true)));
                    assert(a0 == Some((cur.0, cur.1, cur.2, k, true)));
                    assert(a0 == advance(old(world_tiles)@, old(self).x as int, old(self).y as int, old(self).dwalks_left as nat, ox as int, oy as int, old(self).play_mode >= 1));
                }
                return false;
            }
            proof {
                lemma_repeat_push(t, k);
                k = k + 1;
            }
        }
        true
    }

    /// The flight part of a step of boring: see `flee`.
    fn flee_enemies(&mut self, ox: i32, oy: i32)
        requires
            old(self).play_mode <= 4,
            ox == bore_dx(old(self).play_mode),
            oy == bore_dy(old(self).play_mode),
            flee(old(self).enemies@, old(self).x as int, old(self).y as int, old(self).dwalks_left as nat, ox as int, oy as int, old(self).play_mode >= 1) is Some,
        ensures
            final(self).same_but_bore(old(self)),
            final(self).time_since_break == old(self).time_since_break,
            ({
                let f = flee(old(self).enemies@, old(self).x as int, old(self).y as int, old(self).dwalks_left as nat, ox as int, oy as int, old(self).play_mode >= 1).unwrap();
                &&& final(self).x == f.0
                &&& final(self).y == f.1
                &&& final(self).dwalks_left == f.2
                &&& texts(final(self).comque@) == texts(old(self).comque@) + repeat_text(walk_text((old(self).play_mode - 1) as u8), f.3)
            }),
    {
        let ghost dir_ok = self.play_mode >= 1;
        let ghost t = walk_text((self.play_mode - 1) as u8);
        let ghost base = texts(self.comque@);
        let ghost en = self.enemies@;
        let ghost f0 = flee(en, self.x as int, self.y as int, self.dwalks_left as nat, ox as int, oy as int, dir_ok);
        let ghost mut k: nat = 0;
        proof {
            assert(texts(self.comque@) =~= base + repeat_text(t, 0));
        }
        while self.is_near_enemy(8) && self.dwalks_left > 2
            invariant
                dir_ok == (self.play_mode >= 1),
                t == walk_text((self.play_mode - 1) as u8),
                en == self.enemies@,
                self.play_mode <= 4,
                ox == bore_dx(self.play_mode),
                oy == bore_dy(self.play_mode),
                self.same_but_bore(old(self)),
                self.time_since_break == old(self).time_since_break,
                f0 is Some,
                f0 == flee(old(self).enemies@, old(self).x as int, old(self).y as int, old(self).dwalks_left as nat, ox as int, oy as int, old(self).play_mode >= 1),
                base == texts(old(self).comque@),
                flee(en, self.x as int, self.y as int, self.dwalks_left as nat, ox as int, oy as int, dir_ok) is Some,
                f0 == Some(
                    (
                        flee(en, self.x as int, self.y as int, self.dwalks_left as nat, ox as int, oy as int, dir_ok).unwrap().0,
                        flee(en, self.x as int, self.y as int, self.dwalks_left as nat, ox as int, oy as int, dir_ok).unwrap().1,
                        flee(en, self.x as int, self.y as int, self.dwalks_left as nat, ox as int, oy as int, dir_ok).unwrap().2,
                        flee(en, self.x as int, self.y as int, self.dwalks_left as nat, ox as int, oy as int, dir_ok).unwrap().3 + k,
                    ),
                ),
                texts(self.comque@) == base + repeat_text(t, k),
            decreases self.dwalks_left,
        {
            walk(&mut self.comque, self.play_mode - 1);
            self.dwalks_left = self.dwalks_left - 2;
            self.x = self.x + ox;
            self.y = self.y + oy;
            proof {
                lemma_repeat_push(t, k);
                k = k + 1;
            }
        }
    }

    /// The client's part of a time step, once the server's messages are
    /// handled: bore in play modes 1 to 5, then win back one half-step of
    /// walking budget (up to 64) and count one more time step since the last
    /// dig (up to 64). The queued commands are then sent and the queue
    /// emptied by the caller.
    pub fn game_step_local(&mut self, world_tiles: &mut WorldTiles)
        requires
            old(world_tiles).inv(),
            1 <= old(self).play_mode <= 5 ==> bore(*old(self), old(world_tiles)@) is Some,
        ensures
            final(world_tiles).inv(),
            ({
                let r = local_step(*old(self), old(world_tiles)@);
                &&& final(self).same_but_bore(old(self))
                &&& final(self).x == r.0
                &&& final(self).y == r.1
                &&& final(self).dwalks_left == tick(r.2 as int, MAX_DWALKS as int)
                &&& final(self).time_since_break == tick(r.3 as int, MAXTSB as int)
                &&& texts(final(self).comque@) == texts(old(self).comque@) + r.4
                &&& final(world_tiles)@ == match r.5 {
                    Some(d) => after_set(old(world_tiles)@, d.0, d.1, 2),
                    None => old(world_tiles)@,
                }
            }),
    {
        if self.play_mode == 0 {
        } else if self.play_mode >= 1 && self.play_mode <= 5 {
            self.game_step_bore(world_tiles);
        } else if self.play_mode == 6 {
        }
        proof {
            if !(1 <= old(self).play_mode <= 5) {
                assert(texts(self.comque@) =~= texts(old(self).comque@) + Seq::<Seq<char>>::empty());
            }
        }
        if self.dwalks_left < MAX_DWALKS {
            self.dwalks_left = self.dwalks_left + 1;
        }
        if self.time_since_break < MAXTSB {
            self.time_since_break = self.time_since_break + 1;
        }
    }

    /// The player is at least 35 cells from the ends of `i32` on both axes,
    /// and `crx`, `cry` lie strictly between `i32::MIN + 1` and `i32::MAX`.
    pub open spec fn walk_margins(&self, crx: int, cry: int) -> bool {
        &&& i32::MIN + 35 <= self.x <= i32::MAX - 35
        &&& i32::MIN + 35 <= self.y <= i32::MAX - 35
        &&& i32::MIN + 1 < crx < i32::MAX
        &&& i32::MIN + 1 < cry < i32::MAX
    }

    /// A check that `try_walk(crx, cry, ..)` can be called: the player and
    /// the target are far enough from the ends of `i32` (`walk_margins`),
    /// which is enough for `try_walk` in any world.
    pub fn can_try_walk(&self, crx: i32, cry: i32) -> (ok: bool)
        ensures
            ok == self.walk_margins(crx as int, cry as int),
            ok ==> {
                &&& self.search_fits()
                &&& i32::MIN + 1 < crx < i32::MAX
                &&& i32::MIN + 1 < cry < i32::MAX
                &&& forall|m: Map<(int, int), Seq<u8>>| #[trigger] self.try_walk_fits(m, crx as int, cry as int)
            },
    {
        let ok = self.x >= i32::MIN + 35 && self.x <= i32::MAX - 35 && self.y >= i32::MIN + 35 && self.y <= i32::MAX
            - 35 && crx > i32::MIN + 1 && crx < i32::MAX && cry > i32::MIN + 1 && cry < i32::MAX;
        proof {
            if ok {
                assert forall|m: Map<(int, int), Seq<u8>>| #[trigger] self.try_walk_fits(m, crx as int, cry as int) by {
                    let w = self.pathing_in(m);
                    let p = self.walk_plan(m, crx as int, cry as int);
                    if p.len() > 0 {
                        lemma_descent_starts_near(w, crx as int, cry as int, cell_value(w, crx as int, cry as int) as nat);
                        lemma_descent_dirs(w, crx as int, cry as int, cell_value(w, crx as int, cry as int) as nat);
                        assert(p[0] < 4);
                    }
                }
            }
        }
        ok
    }

    /// Whether a step of boring can be taken in `world_tiles`, that is
    /// whether `bore` succeeds: the check to make before `game_step_local`
    /// in play modes 1 to 5.
    pub fn bore_ok(&self, world_tiles: &WorldTiles) -> (ok: bool)
        requires
            world_tiles.inv(),
        ensures
            ok == (bore(*self, world_tiles@) is Some),
    {
        if self.time_since_break < 18 {
            return true;
        }
        if self.play_mode > 4 {
            return false;
        }
        let ghost m = world_tiles@;
        let ghost p = *self;
        let ox = bore_step_x(self.play_mode);
        let oy = bore_step_y(self.play_mode);
        let dir_ok = self.play_mode >= 1;
        let mut x: i32 = self.x;
        let mut y: i32 = self.y;
        let mut dw: u8 = self.dwalks_left;
        if self.time_since_break == 18 {
            if !dir_ok || dw < 2 {
                return false;
            }
            match (shifted(x, ox), shifted(y, oy)) {
                (Some(a), Some(b)) => {
                    x = a;
                    y = b;
                    dw = dw - 2;
                },
                _ => {
                    return false;
                },
            }
        }
        proof {
            assert(bore_first(p) matches Some(f) && f.0 == x && f.1 == y && f.2 == dw);
        }
        let (ax, ay) = match (shifted(x, ox), shifted(y, oy)) {
            (Some(a), Some(b)) => (a, b),
            _ => {
                return false;
            },
        };
        let tile = world_tiles.get_tile_at(ax, ay);
        if tile >= 0x81 && tile <= 0x88 {
            return dir_ok;
        }
        assert((bore(p, m) is Some) == (bore_walk(p, m, x as int, y as int, dw as nat) is Some));
        while dw > 48
            invariant
                world_tiles.inv(),
                world_tiles@ == m,
                p == *self,
                p.play_mode <= 4,
                ox == bore_dx(p.play_mode),
                oy == bore_dy(p.play_mode),
                dir_ok == (p.play_mode >= 1),
                (bore(p, m) is Some) == (bore_walk(p, m, x as int, y as int, dw as nat) is Some),
            decreases dw,
        {
            if !dir_ok {
                return false;
            }
            let (nx, ny) = match (shifted(x, ox), shifted(y, oy)) {
                (Some(a), Some(b)) => (a, b),
                _ => {
                    return false;
                },
            };
            let t = world_tiles.get_tile_at(nx, ny);
            if (t >= 0x81 && t <= 0x88) || t == 0x95 || t == 0x96 {
                return true;
            }
            proof {
                let a = advance(m, nx as int, ny as int, (dw - 2) as nat, ox as int, oy as int, dir_ok);
                assert(advance(m, x as int, y as int, dw as nat, ox as int, oy as int, dir_ok) == match a {
                    Some(r) => Some((r.0, r.1, r.2, r.3 + 1, r.4)),
                    None => None::<(int, int, nat, nat, bool)>,
                });
            }
            x = nx;
            y = ny;
            dw = dw - 2;
        }
        assert((bore(p, m) is Some) == (flee(p.enemies@, x as int, y as int, dw as nat, ox as int, oy as int, dir_ok) is Some));
        loop
            invariant
                world_tiles@ == m,
                p == *self,
                p.play_mode <= 4,
                ox == bore_dx(p.play_mode),
                oy == bore_dy(p.play_mode),
                dir_ok == (p.play_mode >= 1),
                (bore(p, m) is Some) == (flee(p.enemies@, x as int, y as int, dw as nat, ox as int, oy as int, dir_ok) is Some),
            decreases dw,
        {
            match near_check(&self.enemies, x, y, 8) {
                None => {
                    return false;
                },
                Some(false) => {
                    return true;
                },
                Some(true) => {
                    if dw <= 2 {
                        return true;
                    }
                    if !dir_ok {
                        return false;
                    }
                    let (nx, ny) = match (shifted(x, ox), shifted(y, oy)) {
                        (Some(a), Some(b)) => (a, b),
                        _ => {
                            return false;
                        },
                    };
                    x = nx;
                    y = ny;
                    dw = dw - 2;
                },
            }
        }
    }
}

} // verus!