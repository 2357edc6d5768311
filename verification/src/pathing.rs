//! Distances from the player to the tiles around it, found by breadth-first
//! search over the tiles that can be walked on.
use vstd::prelude::*;
use crate::world::{WorldTiles, tile_in, chunks_wf};

verus! {

/// Half the side of the square of tiles around the player that path finding
/// looks at; the square spans `-VIEW_RADIUS..=VIEW_RADIUS` on each axis.
pub const VIEW_RADIUS: i32 = 33;

/// Tiles along each side of that square.
pub const VIEW_SIDE: i32 = 67;

/// Cells in that square.
pub const VIEW_CELLS: usize = 4489;

/// The most steps the search takes from the player.
pub const MAX_STEPS: u8 = 30;

/// Marks a tile that can be walked on but that no search reached.
pub const WALKABLE: u8 = 255;

/// Marks a tile that cannot be walked on.
pub const UNWALK: u8 = 254;

/// Whether a tile can be walked on: the floor tiles `1..=0x80` and
/// `0x89..=0x94`.
pub open spec fn passable(t: u8) -> bool {
    (0 < t && t <= 0x80) || (0x89 <= t && t <= 0x94)
}

/// The absolute value of `v`.
pub open spec fn abs(v: int) -> int {
    if v < 0 {
        -v
    } else {
        v
    }
}

/// Whether `(x, y)`, relative to the player, lies in the searched square.
pub open spec fn in_view(x: int, y: int) -> bool {
    -33 <= x <= 33 && -33 <= y <= 33
}

/// Where the cell `(x, y)` of the square is stored: rows of 67 cells.
pub open spec fn view_index(x: int, y: int) -> int {
    (x + 33) + (y + 33) * 67
}

/// Which cells, relative to a player at `(px, py)`, can be walked on.
pub open spec fn open_cells(m: Map<(int, int), Seq<u8>>, px: int, py: int) -> spec_fn(int, int) -> bool {
    |x: int, y: int| passable(tile_in(m, px + x, py + y))
}

/// Whether the player, at `(0, 0)`, can reach `(x, y)` in at most `n` steps
/// of one tile up, down, left or right, each onto an open cell of the square.
pub open spec fn reach(open: spec_fn(int, int) -> bool, x: int, y: int, n: nat) -> bool
    decreases n,
{
    if n == 0 {
        x == 0 && y == 0
    } else {
        reach(open, x, y, (n - 1) as nat) || (in_view(x, y) && open(x, y) && (reach(
            open,
            x - 1,
            y,
            (n - 1) as nat,
        ) || reach(open, x + 1, y, (n - 1) as nat) || reach(open, x, y - 1, (n - 1) as nat) || reach(
            open,
            x,
            y + 1,
            (n - 1) as nat,
        )))
    }
}

/// `(x, y)` is reachable in `k` steps and no fewer.
pub open spec fn first_reach(open: spec_fn(int, int) -> bool, x: int, y: int, k: nat) -> bool {
    reach(open, x, y, k) && (k == 0 || !reach(open, x, y, (k - 1) as nat))
}

/// What the search leaves in the cell `(x, y)`: the fewest steps to reach it
/// when that is at most 30, and otherwise whether it can be walked on.
pub open spec fn pathing_value(open: spec_fn(int, int) -> bool, x: int, y: int) -> u8 {
    if reach(open, x, y, MAX_STEPS as nat) {
        (choose|k: nat| k <= MAX_STEPS && first_reach(open, x, y, k)) as u8
    } else if open(x, y) {
        WALKABLE
    } else {
        UNWALK
    }
}

/// The value of every cell before the search: walkable or not.
pub open spec fn initial_value(open: spec_fn(int, int) -> bool, x: int, y: int) -> u8 {
    if open(x, y) {
        WALKABLE
    } else {
        UNWALK
    }
}

/// The whole square after the search, cell by cell.
pub open spec fn pathing_map(walks: Seq<u8>, open: spec_fn(int, int) -> bool) -> bool {
    &&& walks.len() == VIEW_CELLS
    &&& forall|x: int, y: int|
        #![trigger view_index(x, y)]
        in_view(x, y) ==> walks[view_index(x, y)] == pathing_value(open, x, y)
}

/// A cell of the square has its place in the stored square.
pub proof fn lemma_view_index(x: int, y: int)
    requires
        in_view(x, y),
    ensures
        0 <= view_index(x, y) < VIEW_CELLS,
{
    assert(0 <= (y + 33) * 67 <= 66 * 67) by (nonlinear_arith)
        requires
            0 <= y + 33 <= 66,
    ;
}

/// Two cells of the square never share a place.
pub proof fn lemma_view_index_injective(x: int, y: int, a: int, b: int)
    requires
        in_view(x, y),
        in_view(a, b),
        view_index(x, y) == view_index(a, b),
    ensures
        x == a && y == b,
{
    assert(x == a && y == b) by (nonlinear_arith)
        requires
            0 <= x + 33 < 67,
            0 <= a + 33 < 67,
            (x + 33) + (y + 33) * 67 == (a + 33) + (b + 33) * 67,
    ;
}

/// Reachability only grows with the number of steps allowed.
pub proof fn lemma_reach_mono(open: spec_fn(int, int) -> bool, x: int, y: int, n: nat, m: nat)
    requires
        n <= m,
        reach(open, x, y, n),
    ensures
        reach(open, x, y, m),
    decreases m - n,
{
    if n < m {
        lemma_reach_mono(open, x, y, n, (m - 1) as nat);
    }
}

/// A cell reachable in `n` steps is at most `n` tiles away.
pub proof fn lemma_reach_near(open: spec_fn(int, int) -> bool, x: int, y: int, n: nat)
    requires
        reach(open, x, y, n),
    ensures
        abs(x) + abs(y) <= n,
    decreases n,
{
    if n > 0 {
        if reach(open, x, y, (n - 1) as nat) {
            lemma_reach_near(open, x, y, (n - 1) as nat);
        } else if reach(open, x - 1, y, (n - 1) as nat) {
            lemma_reach_near(open, x - 1, y, (n - 1) as nat);
        } else if reach(open, x + 1, y, (n - 1) as nat) {
            lemma_reach_near(open, x + 1, y, (n - 1) as nat);
        } else if reach(open, x, y - 1, (n - 1) as nat) {
            lemma_reach_near(open, x, y - 1, (n - 1) as nat);
        } else {
            lemma_reach_near(open, x, y + 1, (n - 1) as nat);
        }
    }
}

/// The fewest steps to a cell is unique.
pub proof fn lemma_first_reach_unique(open: spec_fn(int, int) -> bool, x: int, y: int, k1: nat, k2: nat)
    requires
        first_reach(open, x, y, k1),
        first_reach(open, x, y, k2),
    ensures
        k1 == k2,
{
    if k1 < k2 {
        lemma_reach_mono(open, x, y, k1, (k2 - 1) as nat);
    } else if k2 < k1 {
        lemma_reach_mono(open, x, y, k2, (k1 - 1) as nat);
    }
}

/// A cell reachable in `n` steps is reached first at some step `k <= n`.
pub proof fn lemma_first_reach_exists(open: spec_fn(int, int) -> bool, x: int, y: int, n: nat) -> (k: nat)
    requires
        reach(open, x, y, n),
    ensures
        k <= n,
        first_reach(open, x, y, k),
    decreases n,
{
    if n > 0 && reach(open, x, y, (n - 1) as nat) {
        lemma_first_reach_exists(open, x, y, (n - 1) as nat)
    } else {
        n
    }
}

/// When no cell is first reached at step `j + 1`, no step after `j` reaches
/// anything new.
pub proof fn lemma_search_stalls(open: spec_fn(int, int) -> bool, j: nat, n: nat, x: int, y: int)
    requires
        j <= n,
        forall|a: int, b: int| #[trigger] reach(open, a, b, j + 1) ==> reach(open, a, b, j),
        reach(open, x, y, n),
    ensures
        reach(open, x, y, j),
    decreases n,
{
    if n > j {
        let p = (n - 1) as nat;
        if reach(open, x, y, p) {
            lemma_search_stalls(open, j, p, x, y);
        } else {
            // Some neighbour was reachable in `n - 1` steps, hence in `j`.
            if reach(open, x - 1, y, p) {
                lemma_search_stalls(open, j, p, x - 1, y);
            } else if reach(open, x + 1, y, p) {
                lemma_search_stalls(open, j, p, x + 1, y);
            } else if reach(open, x, y - 1, p) {
                lemma_search_stalls(open, j, p, x, y - 1);
            } else {
                lemma_search_stalls(open, j, p, x, y + 1);
            }
            assert(reach(open, x, y, j + 1));
        }
    }
}

/// A cell first reached at step `j + 1` has a neighbour first reached at
/// step `j`.
pub proof fn lemma_parent(open: spec_fn(int, int) -> bool, j: nat, x: int, y: int) -> (d: (int, int))
    requires
        first_reach(open, x, y, j + 1),
    ensures
        first_reach(open, d.0, d.1, j),
        abs(d.0 - x) + abs(d.1 - y) == 1,
        in_view(x, y),
        open(x, y),
{
    let d = if reach(open, x - 1, y, j) {
        (x - 1, y)
    } else if reach(open, x + 1, y, j) {
        (x + 1, y)
    } else if reach(open, x, y - 1, j) {
        (x, y - 1)
    } else {
        (x, y + 1)
    };
    if j > 0 && reach(open, d.0, d.1, (j - 1) as nat) {
        // Then `(x, y)` would have been reached in `j` steps.
        assert(reach(open, x, y, j));
    }
    d
}


/// After `j` rounds of the search: each cell reached within `j` steps holds
/// its fewest steps, and every other cell its initial value.
spec fn rounds_done(walks: Seq<u8>, open: spec_fn(int, int) -> bool, j: nat) -> bool {
    &&& walks.len() == VIEW_CELLS
    &&& forall|x: int, y: int|
        #![trigger view_index(x, y)]
        in_view(x, y) ==> (reach(open, x, y, j) ==> walks[view_index(x, y)] <= j && first_reach(
            open,
            x,
            y,
            walks[view_index(x, y)] as nat,
        )) && (!reach(open, x, y, j) ==> walks[view_index(x, y)] == initial_value(open, x, y))
}

/// `coords` lists exactly the cells first reached at step `j`.
spec fn frontier(coords: Seq<(i32, i32)>, open: spec_fn(int, int) -> bool, j: nat) -> bool {
    &&& forall|k: int|
        0 <= k < coords.len() ==> in_view((#[trigger] coords[k]).0 as int, coords[k].1 as int)
            && first_reach(open, coords[k].0 as int, coords[k].1 as int, j)
    &&& forall|x: int, y: int|
        #![trigger first_reach(open, x, y, j)]
        in_view(x, y) && first_reach(open, x, y, j) ==> coords.contains((x as i32, y as i32))
}

/// Part way through the round that follows `j` rounds: the cells in
/// `covered` that are first reached at step `j + 1` hold `j + 1` and are
/// listed in `next`; all other cells are as they were (`w0`).
spec fn layer_state(
    walks: Seq<u8>,
    next: Seq<(i32, i32)>,
    open: spec_fn(int, int) -> bool,
    j: nat,
    w0: Seq<u8>,
    covered: Set<(int, int)>,
) -> bool {
    &&& walks.len() == VIEW_CELLS
    &&& forall|x: int, y: int|
        #![trigger view_index(x, y)]
        in_view(x, y) ==> walks[view_index(x, y)] == (if first_reach(open, x, y, j + 1) && covered.contains(
            (x, y),
        ) {
            (j + 1) as u8
        } else {
            w0[view_index(x, y)]
        })
    &&& forall|x: int, y: int|
        #![trigger covered.contains((x, y))]
        in_view(x, y) && first_reach(open, x, y, j + 1) && covered.contains((x, y)) ==> next.contains((x as i32, y as i32))
    &&& forall|k: int|
        0 <= k < next.len() ==> in_view((#[trigger] next[k]).0 as int, next[k].1 as int) && first_reach(
            open,
            next[k].0 as int,
            next[k].1 as int,
            j + 1,
        )
}

/// The value stored for the cell `(x, y)` of the square around the player;
/// cells outside the square count as walkable.
pub fn walk_value(walks: &Vec<u8>, x: i32, y: i32) -> (v: u8)
    requires
        walks@.len() == VIEW_CELLS,
        x > i32::MIN,
        y > i32::MIN,
    ensures
        v == (if in_view(x as int, y as int) {
            walks@[view_index(x as int, y as int)]
        } else {
            WALKABLE
        }),
{
    let ax = if x < 0 { -x } else { x };
    let ay = if y < 0 { -y } else { y };
    if ax > VIEW_RADIUS || ay > VIEW_RADIUS {
        return WALKABLE;
    }
    proof {
        lemma_view_index(x as int, y as int);
    }
    let i = (x + VIEW_RADIUS) + (y + VIEW_RADIUS) * VIEW_SIDE;
    walks[i as usize]
}

/// Looks at the neighbour `(cx + dx, cy + dy)` of a cell first reached at
/// step `value`: if it is walkable and not reached yet, it is reached now.
fn visit(
    walks: &mut Vec<u8>,
    next: &mut Vec<(i32, i32)>,
    cx: i32,
    cy: i32,
    dx: i32,
    dy: i32,
    value: u8,
    Ghost(open): Ghost<spec_fn(int, int) -> bool>,
    Ghost(w0): Ghost<Seq<u8>>,
    Ghost(covered): Ghost<Set<(int, int)>>,
)
    requires
        value < MAX_STEPS,
        (dx == 0 && (dy == 1 || dy == -1)) || (dy == 0 && (dx == 1 || dx == -1)),
        in_view(cx as int, cy as int),
        first_reach(open, cx as int, cy as int, value as nat),
        rounds_done(w0, open, value as nat),
        layer_state(old(walks)@, old(next)@, open, value as nat, w0, covered),
    ensures
        layer_state(
            final(walks)@,
            final(next)@,
            open,
            value as nat,
            w0,
            covered.insert(((cx + dx) as int, (cy + dy) as int)),
        ),
{
    let ghost j = value as nat;
    proof {
        lemma_reach_near(open, cx as int, cy as int, j);
    }
    let nx = cx + dx;
    let ny = cy + dy;
    let ghost n = (nx as int, ny as int);
    assert(in_view(nx as int, ny as int));
    let ghost ni = view_index(nx as int, ny as int);
    proof {
        lemma_view_index(nx as int, ny as int);
        // The neighbour is reachable in `j + 1` steps exactly when it is open.
        if open(nx as int, ny as int) {
            assert(reach(open, nx as int, ny as int, j + 1));
        }
    }
    let nt = walk_value(walks, nx, ny);
    let ghost covered2 = covered.insert(n);
    if nt == WALKABLE {
        proof {
            if reach(open, nx as int, ny as int, j) {
                assert(w0[ni] <= j);
            }
            assert(!reach(open, nx as int, ny as int, j));
            assert(first_reach(open, nx as int, ny as int, j + 1));
        }
        walks.set((nx + VIEW_RADIUS + (ny + VIEW_RADIUS) * VIEW_SIDE) as usize, value + 1);
        next.push((nx, ny));
        proof {
            assert forall|x: int, y: int|
                #![trigger view_index(x, y)]
                in_view(x, y) implies walks@[view_index(x, y)] == (if first_reach(open, x, y, j + 1)
                && covered2.contains((x, y)) {
                (j + 1) as u8
            } else {
                w0[view_index(x, y)]
            }) by {
                lemma_view_index(x, y);
                if view_index(x, y) == ni {
                    lemma_view_index_injective(x, y, nx as int, ny as int);
                }
            }
            assert forall|x: int, y: int|
                #![trigger covered2.contains((x, y))]
                in_view(x, y) && first_reach(open, x, y, j + 1) && covered2.contains((x, y)) implies next@.contains((x as i32, y as i32)) by {
                lemma_view_index(x, y);
                if (x, y) == n {
                    assert(next@[next@.len() - 1] == (x as i32, y as i32));
                } else {
                    let k = choose|k: int| 0 <= k < old(next)@.len() && old(next)@[k] == (x as i32, y as i32);
                    assert(next@[k] == (x as i32, y as i32));
                }
            }
            assert forall|k: int| 0 <= k < next@.len() implies in_view((#[trigger] next@[k]).0 as int, next@[k].1 as int)
                && first_reach(open, next@[k].0 as int, next@[k].1 as int, j + 1) by {
                if k < old(next)@.len() {
                    assert(next@[k] == old(next)@[k]);
                }
            }
            assert(layer_state(walks@, next@, open, j, w0, covered2));
        }
    } else {
        proof {
            if first_reach(open, nx as int, ny as int, j + 1) && !covered.contains(n) {
                let p = lemma_parent(open, j, nx as int, ny as int);
                assert(w0[ni] == initial_value(open, nx as int, ny as int));
                assert(false);
            }
            assert forall|x: int, y: int|
                #![trigger view_index(x, y)]
                in_view(x, y) implies walks@[view_index(x, y)] == (if first_reach(open, x, y, j + 1)
                && covered2.contains((x, y)) {
                (j + 1) as u8
            } else {
                w0[view_index(x, y)]
            }) by {
                if (x, y) == n && !first_reach(open, x, y, j + 1) {
                    // Unreached and walkable would have been found.
                    if !reach(open, x, y, j) && open(x, y) {
                        assert(reach(open, x, y, j + 1));
                    }
                    if reach(open, x, y, j) {
                        assert(w0[view_index(x, y)] <= j);
                    }
                }
            }
            assert forall|x: int, y: int|
                #![trigger covered2.contains((x, y))]
                in_view(x, y) && first_reach(open, x, y, j + 1) && covered2.contains((x, y)) implies next@.contains((x as i32, y as i32)) by {
                lemma_view_index(x, y);
                assert(covered.contains((x, y)));
            }
            assert(layer_state(walks@, next@, open, j, w0, covered2));
        }
    }
}


/// One round of the search: every walkable, unreached neighbour of a cell in
/// `coords` (the cells first reached at step `j`) is reached at step `j + 1`.
/// Returns the cells so reached.
fn expand_layer(
    walks: &mut Vec<u8>,
    coords: &Vec<(i32, i32)>,
    j: u8,
    Ghost(open): Ghost<spec_fn(int, int) -> bool>,
) -> (next: Vec<(i32, i32)>)
    requires
        j < MAX_STEPS,
        rounds_done(old(walks)@, open, j as nat),
        frontier(coords@, open, j as nat),
    ensures
        rounds_done(final(walks)@, open, (j + 1) as nat),
        frontier(next@, open, (j + 1) as nat),
{
    let ghost w0 = walks@;
    let ghost mut covered: Set<(int, int)> = Set::empty();
    let mut next: Vec<(i32, i32)> = Vec::new();
    let n = coords.len();
    assert(layer_state(walks@, next@, open, j as nat, w0, covered));
    for k in 0..n
        invariant
            n == coords@.len(),
            j < MAX_STEPS,
            rounds_done(w0, open, j as nat),
            frontier(coords@, open, j as nat),
            layer_state(walks@, next@, open, j as nat, w0, covered),
            forall|t: int|
                0 <= t < k ==> {
                    let c = #[trigger] coords@[t];
                    &&& covered.contains((c.0 as int, c.1 as int - 1))
                    &&& covered.contains((c.0 as int + 1, c.1 as int))
                    &&& covered.contains((c.0 as int, c.1 as int + 1))
                    &&& covered.contains((c.0 as int - 1, c.1 as int))
                },
    {
        let (cx, cy) = coords[k];
        proof {
            assert(coords@[k as int] == (cx, cy));
        }
        visit(walks, &mut next, cx, cy, 0, -1, j, Ghost(open), Ghost(w0), Ghost(covered));
        proof {
            covered = covered.insert((cx as int, cy as int - 1));
        }
        visit(walks, &mut next, cx, cy, 1, 0, j, Ghost(open), Ghost(w0), Ghost(covered));
        proof {
            covered = covered.insert((cx as int + 1, cy as int));
        }
        visit(walks, &mut next, cx, cy, 0, 1, j, Ghost(open), Ghost(w0), Ghost(covered));
        proof {
            covered = covered.insert((cx as int, cy as int + 1));
        }
        visit(walks, &mut next, cx, cy, -1, 0, j, Ghost(open), Ghost(w0), Ghost(covered));
        proof {
            covered = covered.insert((cx as int - 1, cy as int));
        }
    }
    proof {
        let jn = j as nat;
        // Every cell first reached at step `j + 1` neighbours a cell of `coords`.
        assert forall|x: int, y: int| #[trigger] first_reach(open, x, y, jn + 1) implies covered.contains((x, y)) by {
            let d = lemma_parent(open, jn, x, y);
            lemma_reach_near(open, d.0, d.1, jn);
            assert(in_view(d.0, d.1));
            assert(first_reach(open, d.0, d.1, jn));
            assert(coords@.contains((d.0 as i32, d.1 as i32)));
            let t = choose|t: int| 0 <= t < coords@.len() && coords@[t] == (d.0 as i32, d.1 as i32);
            assert(coords@[t] == (d.0 as i32, d.1 as i32));
        }
        assert forall|x: int, y: int|
            #![trigger view_index(x, y)]
            in_view(x, y) implies (reach(open, x, y, jn + 1) ==> walks@[view_index(x, y)] <= jn + 1
                && first_reach(open, x, y, walks@[view_index(x, y)] as nat)) && (!reach(open, x, y, jn + 1)
                ==> walks@[view_index(x, y)] == initial_value(open, x, y)) by {
            if reach(open, x, y, jn + 1) && !reach(open, x, y, jn) {
                assert(first_reach(open, x, y, jn + 1));
            }
            if !reach(open, x, y, jn + 1) {
                assert(!reach(open, x, y, jn));
            }
        }
        assert forall|x: int, y: int|
            #![trigger first_reach(open, x, y, jn + 1)]
            in_view(x, y) && first_reach(open, x, y, jn + 1) implies next@.contains((x as i32, y as i32)) by {
            assert(covered.contains((x, y)));
        }
    }
    next
}

/// Fills `walks` with the search from a player at `(px, py)` through the
/// world `world`: see `pathing_value`.
pub fn search_paths(walks: &mut Vec<u8>, world: &WorldTiles, px: i32, py: i32)
    requires
        old(walks)@.len() == VIEW_CELLS,
        world.inv(),
        i32::MIN + 33 <= px <= i32::MAX - 33,
        i32::MIN + 33 <= py <= i32::MAX - 33,
    ensures
        pathing_map(final(walks)@, open_cells(world@, px as int, py as int)),
        final(walks)@ == pathing_seq(open_cells(world@, px as int, py as int)),
{
    let ghost open = open_cells(world@, px as int, py as int);
    // Every cell starts as walkable or not.
    let mut i: usize = 0;
    let mut y: i32 = -VIEW_RADIUS;
    while y <= VIEW_RADIUS
        invariant
            -33 <= y <= 34,
            i == view_index(-33, y as int),
            walks@.len() == VIEW_CELLS,
            world.inv(),
            open == open_cells(world@, px as int, py as int),
            i32::MIN + 33 <= px <= i32::MAX - 33,
            i32::MIN + 33 <= py <= i32::MAX - 33,
            forall|a: int, b: int|
                #![trigger view_index(a, b)]
                in_view(a, b) && b < y ==> walks@[view_index(a, b)] == initial_value(open, a, b),
        decreases 34 - y,
    {
        let mut x: i32 = -VIEW_RADIUS;
        while x <= VIEW_RADIUS
            invariant
                -33 <= y <= 33,
                -33 <= x <= 34,
                i == view_index(x as int, y as int),
                walks@.len() == VIEW_CELLS,
                world.inv(),
                open == open_cells(world@, px as int, py as int),
                i32::MIN + 33 <= px <= i32::MAX - 33,
                i32::MIN + 33 <= py <= i32::MAX - 33,
                forall|a: int, b: int|
                    #![trigger view_index(a, b)]
                    in_view(a, b) && (b < y || (b == y && a < x)) ==> walks@[view_index(a, b)] == initial_value(
                        open,
                        a,
                        b,
                    ),
            decreases 34 - x,
        {
            let tile = world.get_tile_at(px + x, py + y);
            let v = if (tile > 0 && tile <= 0x80) || (tile >= 0x89 && tile <= 0x94) {
                WALKABLE
            } else {
                UNWALK
            };
            proof {
                lemma_view_index(x as int, y as int);
            }
            let ghost before = walks@;
            walks.set(i, v);
            proof {
                assert forall|a: int, b: int|
                    #![trigger view_index(a, b)]
                    in_view(a, b) && (b < y || (b == y && a < x + 1)) implies walks@[view_index(a, b)]
                        == initial_value(open, a, b) by {
                    lemma_view_index(a, b);
                    if view_index(a, b) == i {
                        lemma_view_index_injective(a, b, x as int, y as int);
                    }
                }
            }
            i = i + 1;
            x = x + 1;
        }
        y = y + 1;
    }
    // The player's own cell is reached in no steps.
    proof {
        lemma_view_index(0, 0);
    }
    walks.set(2244, 0);
    proof {
        assert forall|x: int, y: int|
            #![trigger view_index(x, y)]
            in_view(x, y) implies (reach(open, x, y, 0) ==> walks@[view_index(x, y)] <= 0 && first_reach(
                open,
                x,
                y,
                walks@[view_index(x, y)] as nat,
            )) && (!reach(open, x, y, 0) ==> walks@[view_index(x, y)] == initial_value(open, x, y)) by {
            lemma_view_index(x, y);
            if view_index(x, y) == 2244 {
                lemma_view_index_injective(x, y, 0, 0);
            }
        }
        assert(rounds_done(walks@, open, 0));
    }
    let mut coords: Vec<(i32, i32)> = Vec::new();
    coords.push((0, 0));
    proof {
        assert forall|x: int, y: int|
            #![trigger first_reach(open, x, y, 0)]
            in_view(x, y) && first_reach(open, x, y, 0) implies coords@.contains((x as i32, y as i32)) by {
            assert(coords@[0] == (x as i32, y as i32));
        }
        assert(frontier(coords@, open, 0));
    }
    let mut j: u8 = 0;
    while j < MAX_STEPS
        invariant
            j <= MAX_STEPS,
            rounds_done(walks@, open, j as nat),
            frontier(coords@, open, j as nat),
            open == open_cells(world@, px as int, py as int),
        decreases MAX_STEPS - j,
    {
        let next = expand_layer(walks, &coords, j, Ghost(open));
        if next.len() == 0 {
            proof {
                let jn = (j + 1) as nat;
                assert forall|a: int, b: int| #[trigger] reach(open, a, b, jn + 1) implies reach(open, a, b, jn) by {
                    if !reach(open, a, b, jn) {
                        lemma_reach_near(open, a, b, jn + 1);
                        assert(in_view(a, b));
                        assert(first_reach(open, a, b, jn + 1));
                        let d = lemma_parent(open, jn, a, b);
                        lemma_reach_near(open, d.0, d.1, jn);
                        assert(in_view(d.0, d.1));
                        assert(next@.contains((d.0 as i32, d.1 as i32)));
                    }
                }
                assert forall|x: int, y: int|
                    #![trigger view_index(x, y)]
                    in_view(x, y) implies walks@[view_index(x, y)] == pathing_value(open, x, y) by {
                    if reach(open, x, y, MAX_STEPS as nat) {
                        if MAX_STEPS as nat >= jn {
                            lemma_search_stalls(open, jn, MAX_STEPS as nat, x, y);
                        } else {
                            lemma_reach_mono(open, x, y, MAX_STEPS as nat, jn);
                        }
                        let k = choose|k: nat| k <= MAX_STEPS && first_reach(open, x, y, k);
                        let w = walks@[view_index(x, y)] as nat;
                        lemma_first_reach_exists(open, x, y, MAX_STEPS as nat);
                        lemma_first_reach_unique(open, x, y, k, w);
                    } else if reach(open, x, y, jn) {
                        lemma_reach_mono(open, x, y, walks@[view_index(x, y)] as nat, MAX_STEPS as nat);
                    }
                }
                lemma_pathing_seq(walks@, open);
            }
            return;
        }
        coords = next;
        j = j + 1;
    }
    proof {
        assert forall|x: int, y: int|
            #![trigger view_index(x, y)]
            in_view(x, y) implies walks@[view_index(x, y)] == pathing_value(open, x, y) by {
            if reach(open, x, y, MAX_STEPS as nat) {
                let k = choose|k: nat| k <= MAX_STEPS && first_reach(open, x, y, k);
                let w = walks@[view_index(x, y)] as nat;
                lemma_first_reach_exists(open, x, y, MAX_STEPS as nat);
                lemma_first_reach_unique(open, x, y, k, w);
            }
        }
        lemma_pathing_seq(walks@, open);
    }
}

/// The square after the search, as stored: cell `(x, y)` at `view_index(x, y)`.
pub open spec fn pathing_seq(open: spec_fn(int, int) -> bool) -> Seq<u8> {
    Seq::new(VIEW_CELLS as nat, |i: int| pathing_value(open, i % 67 - 33, i / 67 - 33))
}

/// A cell can be read back from its place in the stored square.
pub proof fn lemma_view_index_inverse(x: int, y: int)
    requires
        in_view(x, y),
    ensures
        view_index(x, y) % 67 - 33 == x,
        view_index(x, y) / 67 - 33 == y,
{
    lemma_view_index(x, y);
    let i = view_index(x, y);
    assert(i % 67 == x + 33 && i / 67 == y + 33) by (nonlinear_arith)
        requires
            i == (x + 33) + (y + 33) * 67,
            0 <= x + 33 < 67,
            0 <= y + 33 < 67,
    ;
}

proof fn lemma_pathing_seq(walks: Seq<u8>, open: spec_fn(int, int) -> bool)
    requires
        pathing_map(walks, open),
    ensures
        walks == pathing_seq(open),
{
    assert forall|i: int| 0 <= i < VIEW_CELLS implies walks[i] == pathing_seq(open)[i] by {
        let x = i % 67 - 33;
        let y = i / 67 - 33;
        assert(in_view(x, y) && view_index(x, y) == i) by (nonlinear_arith)
            requires
                0 <= i < 4489,
                x == i % 67 - 33,
                y == i / 67 - 33,
        ;
    }
    assert(walks =~= pathing_seq(open));
}

/// The value the search leaves at `(x, y)`, where `walks` is the stored
/// square; cells outside the square count as walkable.
pub open spec fn cell_value(walks: Seq<u8>, x: int, y: int) -> u8 {
    if in_view(x, y) {
        walks[view_index(x, y)]
    } else {
        WALKABLE
    }
}

proof fn lemma_closed_unreached(open: spec_fn(int, int) -> bool, x: int, y: int, n: nat)
    requires
        !open(x, y),
        !(x == 0 && y == 0),
    ensures
        !reach(open, x, y, n),
    decreases n,
{
    if n > 0 {
        lemma_closed_unreached(open, x, y, (n - 1) as nat);
    }
}

/// A cell next to the player, in the world `m`, is one step away when its
/// tile can be walked on, a floor tile `1..=0x80` or a trail tile
/// `0x89..=0x94`, and is marked unwalkable (254) when it holds any other
/// tile: the empty tile 0, a solid tile `0x81..=0x88` or any tile above
/// `0x94`.
pub proof fn lemma_neighbour_distance(m: Map<(int, int), Seq<u8>>, px: int, py: int, a: int, b: int)
    requires
        (a == 0 && (b == 1 || b == -1)) || (b == 0 && (a == 1 || a == -1)),
    ensures
        ({
            let t = tile_in(m, px + a, py + b);
            let w = pathing_seq(open_cells(m, px, py));
            &&& (1 <= t <= 0x80 || 0x89 <= t <= 0x94) ==> cell_value(w, a, b) == 1
            &&& !(1 <= t <= 0x80 || 0x89 <= t <= 0x94) ==> cell_value(w, a, b) == 254
        }),
{
    let open = open_cells(m, px, py);
    lemma_view_index(a, b);
    lemma_view_index_inverse(a, b);
    assert(pathing_seq(open)[view_index(a, b)] == pathing_value(open, a, b));
    if open(a, b) {
        assert(reach(open, 0, 0, 0));
        assert(reach(open, a, b, 1));
        lemma_reach_mono(open, a, b, 1, MAX_STEPS as nat);
        assert(first_reach(open, a, b, 1));
        let k = choose|k: nat| k <= MAX_STEPS && first_reach(open, a, b, k);
        lemma_first_reach_unique(open, a, b, k, 1);
    } else {
        lemma_closed_unreached(open, a, b, MAX_STEPS as nat);
    }
}

proof fn lemma_line_reached(open: spec_fn(int, int) -> bool, n: nat)
    requires
        n <= 33,
        forall|i: int| 1 <= i <= n ==> #[trigger] open(i, 0),
    ensures
        reach(open, n as int, 0, n),
    decreases n,
{
    if n > 0 {
        lemma_line_reached(open, (n - 1) as nat);
    }
}

/// A cell at the end of a straight line of walkable tiles, floor or trail,
/// running right from the player is reached along that line: at `n` tiles
/// (up to 30), its distance is `n`.
pub proof fn lemma_straight_line(m: Map<(int, int), Seq<u8>>, px: int, py: int, n: nat)
    requires
        1 <= n <= 30,
        forall|i: int|
            1 <= i <= n ==> (1 <= #[trigger] tile_in(m, px + i, py) <= 0x80 || 0x89 <= tile_in(m, px + i, py) <= 0x94),
    ensures
        cell_value(pathing_seq(open_cells(m, px, py)), n as int, 0) == n,
{
    let open = open_cells(m, px, py);
    assert forall|i: int| 1 <= i <= n implies #[trigger] open(i, 0) by {
        assert(tile_in(m, px + i, py) == tile_in(m, px + i, py + 0));
    }
    lemma_line_reached(open, n);
    lemma_reach_mono(open, n as int, 0, n, MAX_STEPS as nat);
    if reach(open, n as int, 0, (n - 1) as nat) {
        lemma_reach_near(open, n as int, 0, (n - 1) as nat);
    }
    assert(first_reach(open, n as int, 0, n));
    let k = choose|k: nat| k <= MAX_STEPS && first_reach(open, n as int, 0, k);
    lemma_first_reach_unique(open, n as int, 0, k, n);
    lemma_view_index(n as int, 0);
    lemma_view_index_inverse(n as int, 0);
    assert(pathing_seq(open)[view_index(n as int, 0)] == pathing_value(open, n as int, 0));
}

/// How a step in direction `d` moves: 0 up, 1 right, 2 down, 3 left.
pub open spec fn dir_dx(d: u8) -> int {
    if d == 1 {
        1
    } else if d == 3 {
        -1
    } else {
        0
    }
}

/// The vertical move of a step in direction `d` (see `dir_dx`).
pub open spec fn dir_dy(d: u8) -> int {
    if d == 0 {
        -1
    } else if d == 2 {
        1
    } else {
        0
    }
}

/// Where a list of steps leads, all of them taken.
pub open spec fn walk_offset(p: Seq<u8>) -> (int, int)
    decreases p.len(),
{
    if p.len() == 0 {
        (0, 0)
    } else {
        let rest = walk_offset(p.drop_first());
        (dir_dx(p[0]) + rest.0, dir_dy(p[0]) + rest.1)
    }
}

/// The way back from `(x, y)` to the player, taking at most `fuel` steps:
/// each step moves to the first neighbour, in the order above, right, below,
/// left, whose value is smaller, and records the direction of the step that
/// leads from that neighbour back to this cell. It stops where no neighbour
/// is smaller.
pub open spec fn descent(walks: Seq<u8>, x: int, y: int, fuel: nat) -> Seq<u8>
    decreases fuel,
{
    if fuel == 0 {
        Seq::empty()
    } else {
        let v = cell_value(walks, x, y);
        if cell_value(walks, x, y - 1) < v {
            seq![2u8] + descent(walks, x, y - 1, (fuel - 1) as nat)
        } else if cell_value(walks, x + 1, y) < v {
            seq![3u8] + descent(walks, x + 1, y, (fuel - 1) as nat)
        } else if cell_value(walks, x, y + 1) < v {
            seq![0u8] + descent(walks, x, y + 1, (fuel - 1) as nat)
        } else if cell_value(walks, x - 1, y) < v {
            seq![1u8] + descent(walks, x - 1, y, (fuel - 1) as nat)
        } else {
            Seq::empty()
        }
    }
}

proof fn lemma_value_of_reached(open: spec_fn(int, int) -> bool, x: int, y: int, k: nat)
    requires
        k <= MAX_STEPS,
        first_reach(open, x, y, k),
    ensures
        in_view(x, y),
        cell_value(pathing_seq(open), x, y) == k,
{
    lemma_reach_near(open, x, y, k);
    lemma_reach_mono(open, x, y, k, MAX_STEPS as nat);
    lemma_view_index_inverse(x, y);
    lemma_view_index(x, y);
    let c = choose|c: nat| c <= MAX_STEPS && first_reach(open, x, y, c);
    lemma_first_reach_unique(open, x, y, c, k);
}

/// A neighbour whose value is below that of a cell first reached at step
/// `v > 0` was first reached at step `v - 1`.
proof fn lemma_smaller_neighbour(open: spec_fn(int, int) -> bool, x: int, y: int, v: nat, a: int, b: int)
    requires
        0 < v <= MAX_STEPS,
        first_reach(open, x, y, v),
        abs(a - x) + abs(b - y) == 1,
        cell_value(pathing_seq(open), a, b) < v,
    ensures
        first_reach(open, a, b, (v - 1) as nat),
        cell_value(pathing_seq(open), a, b) == v - 1,
{
    let w = pathing_seq(open);
    lemma_parent(open, (v - 1) as nat, x, y);
    assert(in_view(a, b));
    lemma_view_index_inverse(a, b);
    lemma_view_index(a, b);
    assert(w[view_index(a, b)] == pathing_value(open, a, b));
    assert(reach(open, a, b, MAX_STEPS as nat));
    let k = lemma_first_reach_exists(open, a, b, MAX_STEPS as nat);
    lemma_value_of_reached(open, a, b, k);
    // Reaching the neighbour in `k` steps reaches `(x, y)` in `k + 1`.
    assert(reach(open, x, y, k + 1));
    if k + 1 < v {
        lemma_reach_mono(open, x, y, k + 1, (v - 1) as nat);
    }
}

/// The way back from a cell that the search reached has one step per step
/// of its distance, and its steps, taken from the player, lead to the cell.
pub proof fn lemma_walk_leads_to_target(open: spec_fn(int, int) -> bool, x: int, y: int)
    requires
        reach(open, x, y, MAX_STEPS as nat),
    ensures
        ({
            let w = pathing_seq(open);
            let p = descent(w, x, y, cell_value(w, x, y) as nat);
            &&& p.len() == cell_value(w, x, y)
            &&& walk_offset(p) == (x, y)
        }),
{
    let k = lemma_first_reach_exists(open, x, y, MAX_STEPS as nat);
    lemma_value_of_reached(open, x, y, k);
    lemma_descent_from_reached(open, x, y, k);
}

proof fn lemma_descent_from_reached(open: spec_fn(int, int) -> bool, x: int, y: int, v: nat)
    requires
        v <= MAX_STEPS,
        first_reach(open, x, y, v),
    ensures
        ({
            let p = descent(pathing_seq(open), x, y, v);
            &&& p.len() == v
            &&& walk_offset(p) == (x, y)
        }),
    decreases v,
{
    let w = pathing_seq(open);
    lemma_value_of_reached(open, x, y, v);
    if v > 0 {
        let vm = (v - 1) as nat;
        let d = lemma_parent(open, vm, x, y);
        lemma_value_of_reached(open, d.0, d.1, vm);
        let p = descent(w, x, y, v);
        let n = if cell_value(w, x, y - 1) < v {
            (x, y - 1)
        } else if cell_value(w, x + 1, y) < v {
            (x + 1, y)
        } else if cell_value(w, x, y + 1) < v {
            (x, y + 1)
        } else {
            (x - 1, y)
        };
        lemma_smaller_neighbour(open, x, y, v, n.0, n.1);
        lemma_descent_from_reached(open, n.0, n.1, vm);
        assert(p.drop_first() == descent(w, n.0, n.1, vm));
    }
}

} // verus!
