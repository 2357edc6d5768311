//! The tile map of the world, stored as square chunks of 128 by 128 tiles.
use vstd::prelude::*;
use vstd::string::StringExecFns;
use crate::decimal::{push_signed, signed_decimal};

verus! {

/// Tiles along each side of a chunk.
pub const CHUNK_SIDE: i32 = 128;

/// Tiles in one chunk.
pub const CHUNK_TILES: usize = 16384;

/// The tile reported for any position whose chunk is not loaded.
pub const DEFAULT_TILE: u8 = 1;

/// The origin (lowest coordinate) of the chunk that holds coordinate `v`.
pub open spec fn chunk_origin(v: int) -> int {
    v - v % 128
}

/// Where the tile at `(x, y)` is stored inside its chunk: rows of 128 tiles.
pub open spec fn cell_index(x: int, y: int) -> int {
    x % 128 + 128 * (y % 128)
}

/// The tiles of a freshly created chunk: all of them the default tile.
pub open spec fn blank_tiles() -> Seq<u8> {
    Seq::new(CHUNK_TILES as nat, |i: int| DEFAULT_TILE)
}

/// A map from chunk origins to chunk contents is well formed when each chunk
/// holds exactly one tile per cell.
pub open spec fn chunks_wf(m: Map<(int, int), Seq<u8>>) -> bool {
    forall|o: (int, int)| #[trigger] m.contains_key(o) ==> m[o].len() == CHUNK_TILES
}

/// The tile at `(x, y)` in a world whose loaded chunks are `m`.
pub open spec fn tile_in(m: Map<(int, int), Seq<u8>>, x: int, y: int) -> u8 {
    let o = (chunk_origin(x), chunk_origin(y));
    if m.contains_key(o) {
        m[o][cell_index(x, y)]
    } else {
        DEFAULT_TILE
    }
}

/// The loaded chunks after the tile at `(x, y)` is set to `tile`: the chunk
/// that holds the position is loaded blank first if it was not loaded.
pub open spec fn after_set(m: Map<(int, int), Seq<u8>>, x: int, y: int, tile: u8) -> Map<(int, int), Seq<u8>> {
    let o = (chunk_origin(x), chunk_origin(y));
    let old_tiles = if m.contains_key(o) { m[o] } else { blank_tiles() };
    m.insert(o, old_tiles.update(cell_index(x, y), tile))
}

proof fn lemma_cell_index_bounds(x: int, y: int)
    ensures
        0 <= cell_index(x, y) < CHUNK_TILES,
{
    assert(0 <= x % 128 < 128);
    assert(0 <= y % 128 < 128);
}

/// Setting a tile and then reading it back gives the tile that was set.
pub proof fn lemma_get_after_set(m: Map<(int, int), Seq<u8>>, x: int, y: int, tile: u8)
    requires
        chunks_wf(m),
    ensures
        tile_in(after_set(m, x, y, tile), x, y) == tile,
        chunks_wf(after_set(m, x, y, tile)),
{
    lemma_cell_index_bounds(x, y);
}

/// Setting a tile leaves the tile at every other position as it was.
pub proof fn lemma_get_after_set_other(
    m: Map<(int, int), Seq<u8>>,
    x: int,
    y: int,
    tile: u8,
    a: int,
    b: int,
)
    requires
        chunks_wf(m),
        (a, b) != (x, y),
    ensures
        tile_in(after_set(m, x, y, tile), a, b) == tile_in(m, a, b),
{
    lemma_cell_index_bounds(x, y);
    lemma_cell_index_bounds(a, b);
    let o = (chunk_origin(x), chunk_origin(y));
    let p = (chunk_origin(a), chunk_origin(b));
    if o == p {
        // Same chunk, different cell: the cell indices differ.
        assert(cell_index(a, b) != cell_index(x, y)) by {
            assert(a % 128 + 128 * (b % 128) == x % 128 + 128 * (y % 128) ==> a % 128 == x % 128
                && b % 128 == y % 128) by (nonlinear_arith)
                requires
                    0 <= a % 128 < 128,
                    0 <= x % 128 < 128,
            ;
        }
    }
}

/// The loaded chunks after the writes `ws`, in order, to the loaded chunks
/// `m`: each write is a position and the tile set there.
pub open spec fn after_writes(m: Map<(int, int), Seq<u8>>, ws: Seq<(int, int, u8)>) -> Map<(int, int), Seq<u8>>
    decreases ws.len(),
{
    if ws.len() == 0 {
        m
    } else {
        after_set(after_writes(m, ws.drop_last()), ws.last().0, ws.last().1, ws.last().2)
    }
}

/// The tile at `(x, y)` that the writes `ws` leave on top of `m`: the tile
/// of the last write to `(x, y)`, or the tile of `m` when there is none.
pub open spec fn last_write(m: Map<(int, int), Seq<u8>>, ws: Seq<(int, int, u8)>, x: int, y: int) -> u8
    decreases ws.len(),
{
    if ws.len() == 0 {
        tile_in(m, x, y)
    } else if ws.last().0 == x && ws.last().1 == y {
        ws.last().2
    } else {
        last_write(m, ws.drop_last(), x, y)
    }
}

proof fn lemma_last_write_none(m: Map<(int, int), Seq<u8>>, ws: Seq<(int, int, u8)>, x: int, y: int)
    requires
        forall|k: int| 0 <= k < ws.len() ==> !(#[trigger] ws[k].0 == x && ws[k].1 == y),
    ensures
        last_write(m, ws, x, y) == tile_in(m, x, y),
    decreases ws.len(),
{
    if ws.len() > 0 {
        let d = ws.drop_last();
        assert(!(ws[ws.len() - 1].0 == x && ws[ws.len() - 1].1 == y));
        assert forall|k: int| 0 <= k < d.len() implies !(#[trigger] d[k].0 == x && d[k].1 == y) by {
            assert(d[k] == ws[k]);
        }
        lemma_last_write_none(m, d, x, y);
    }
}

proof fn lemma_last_write_at(m: Map<(int, int), Seq<u8>>, ws: Seq<(int, int, u8)>, x: int, y: int, k: int)
    requires
        0 <= k < ws.len(),
        ws[k].0 == x && ws[k].1 == y,
        forall|j: int| k < j < ws.len() ==> !(#[trigger] ws[j].0 == x && ws[j].1 == y),
    ensures
        last_write(m, ws, x, y) == ws[k].2,
    decreases ws.len(),
{
    if k < ws.len() - 1 {
        let d = ws.drop_last();
        assert(!(ws[ws.len() - 1].0 == x && ws[ws.len() - 1].1 == y));
        assert(d[k] == ws[k]);
        assert forall|j: int| k < j < d.len() implies !(#[trigger] d[j].0 == x && d[j].1 == y) by {
            assert(d[j] == ws[j]);
        }
        lemma_last_write_at(m, d, x, y, k);
    }
}

proof fn lemma_after_writes(m: Map<(int, int), Seq<u8>>, ws: Seq<(int, int, u8)>, x: int, y: int)
    requires
        chunks_wf(m),
    ensures
        chunks_wf(after_writes(m, ws)),
        tile_in(after_writes(m, ws), x, y) == last_write(m, ws, x, y),
    decreases ws.len(),
{
    if ws.len() > 0 {
        let w = ws.last();
        lemma_after_writes(m, ws.drop_last(), x, y);
        let prev = after_writes(m, ws.drop_last());
        lemma_get_after_set(prev, w.0, w.1, w.2);
        if !(w.0 == x && w.1 == y) {
            lemma_get_after_set_other(prev, w.0, w.1, w.2, x, y);
        }
    }
}

/// The world behaves as a total map from positions to tiles: after any
/// sequence of writes, a position holds the tile of the last write to it,
/// and a position never written holds what it held before (the default
/// tile, 1, in a new world, whose map of chunks is empty).
pub proof fn lemma_writes_total(m: Map<(int, int), Seq<u8>>, ws: Seq<(int, int, u8)>, x: int, y: int)
    requires
        chunks_wf(m),
    ensures
        chunks_wf(after_writes(m, ws)),
        tile_in(after_writes(m, ws), x, y) == last_write(m, ws, x, y),
        (forall|k: int| 0 <= k < ws.len() ==> !(#[trigger] ws[k].0 == x && ws[k].1 == y)) ==> tile_in(
            after_writes(m, ws),
            x,
            y,
        ) == tile_in(m, x, y),
        forall|k: int|
            0 <= k < ws.len() && #[trigger] ws[k].0 == x && ws[k].1 == y && (forall|j: int|
                k < j < ws.len() ==> !(#[trigger] ws[j].0 == x && ws[j].1 == y)) ==> tile_in(after_writes(m, ws), x, y)
                == ws[k].2,
        tile_in(Map::<(int, int), Seq<u8>>::empty(), x, y) == DEFAULT_TILE,
{
    lemma_after_writes(m, ws, x, y);
    if forall|k: int| 0 <= k < ws.len() ==> !(#[trigger] ws[k].0 == x && ws[k].1 == y) {
        lemma_last_write_none(m, ws, x, y);
    }
    assert forall|k: int|
        0 <= k < ws.len() && #[trigger] ws[k].0 == x && ws[k].1 == y && (forall|j: int|
            k < j < ws.len() ==> !(#[trigger] ws[j].0 == x && ws[j].1 == y)) implies tile_in(
        after_writes(m, ws),
        x,
        y,
    ) == ws[k].2 by {
        lemma_last_write_at(m, ws, x, y, k);
    }
}

/// A square region of 128 by 128 tiles whose origin is `(x, y)`.
pub struct Chunk {
    x: i32,
    y: i32,
    tiles: Vec<u8>,
}

impl Chunk {
    pub closed spec fn origin(&self) -> (int, int) {
        (self.x as int, self.y as int)
    }

    pub closed spec fn tiles_view(&self) -> Seq<u8> {
        self.tiles@
    }

    /// A chunk at `(x, y)` filled with the default tile.
    pub fn new_empty(x: i32, y: i32) -> (c: Self)
        ensures
            c.origin() == (x as int, y as int),
            c.tiles_view() == blank_tiles(),
    {
        let tiles = vec![DEFAULT_TILE; CHUNK_TILES];
        assert(tiles@ =~= blank_tiles());
        Chunk { x, y, tiles }
    }
}

/// Every tile of the world that a client has seen, in chunks of 128 by 128.
pub struct WorldTiles {
    chunks: Vec<Chunk>,
}

impl View for WorldTiles {
    /// Each loaded chunk's origin, mapped to its tiles.
    type V = Map<(int, int), Seq<u8>>;

    closed spec fn view(&self) -> Map<(int, int), Seq<u8>> {
        Map::new(
            |o: (int, int)| exists|i: int| 0 <= i < self.chunks@.len() && #[trigger] self.chunks@[i].origin() == o,
            |o: (int, int)| self.chunks@[choose|i: int| 0 <= i < self.chunks@.len() && #[trigger] self.chunks@[i].origin() == o].tiles@,
        )
    }
}

impl WorldTiles {
    /// The origins of the loaded chunks, in the order they were loaded.
    pub closed spec fn chunk_origins(&self) -> Seq<(int, int)> {
        Seq::new(self.chunks@.len(), |i: int| self.chunks@[i].origin())
    }

    /// Every loaded chunk's origin is a multiple of 128 on both axes.
    pub open spec fn origins_aligned(&self) -> bool {
        forall|i: int| 0 <= i < self.chunk_origins().len() ==> (#[trigger] self.chunk_origins()[i]).0 % 128 == 0
            && self.chunk_origins()[i].1 % 128 == 0
    }

    /// No two chunks share an origin, and each chunk holds one tile per
    /// cell.
    pub closed spec fn inv(&self) -> bool {
        &&& forall|i: int| 0 <= i < self.chunks@.len() ==> (#[trigger] self.chunks@[i]).tiles@.len() == CHUNK_TILES
        &&& forall|i: int, j: int|
            0 <= i < self.chunks@.len() && 0 <= j < self.chunks@.len() && i != j
                ==> (#[trigger] self.chunks@[i]).origin() != (#[trigger] self.chunks@[j]).origin()
    }

    proof fn lemma_view_at(&self, i: int)
        requires
            self.inv(),
            0 <= i < self.chunks@.len(),
        ensures
            self@.contains_key(self.chunks@[i].origin()),
            self@[self.chunks@[i].origin()] == self.chunks@[i].tiles@,
    {
        let o = self.chunks@[i].origin();
        assert(self@.contains_key(o));
        let j = choose|j: int| 0 <= j < self.chunks@.len() && #[trigger] self.chunks@[j].origin() == o;
        assert(j == i);
    }

    /// The loaded chunks of a well-formed world have pairwise distinct
    /// origins, and they are exactly the chunks of the view.
    pub proof fn lemma_chunk_origins(&self)
        requires
            self.inv(),
        ensures
            forall|i: int, j: int|
                0 <= i < self.chunk_origins().len() && 0 <= j < self.chunk_origins().len() && i != j
                    ==> #[trigger] self.chunk_origins()[i] != #[trigger] self.chunk_origins()[j],
            forall|o: (int, int)| #[trigger] self@.contains_key(o) <==> self.chunk_origins().contains(o),
    {
        assert forall|o: (int, int)| #[trigger] self@.contains_key(o) <==> self.chunk_origins().contains(o) by {
            if self@.contains_key(o) {
                let i = choose|i: int| 0 <= i < self.chunks@.len() && #[trigger] self.chunks@[i].origin() == o;
                assert(self.chunk_origins()[i] == o);
            }
            if self.chunk_origins().contains(o) {
                let i = choose|i: int| 0 <= i < self.chunk_origins().len() && self.chunk_origins()[i] == o;
                self.lemma_view_at(i);
            }
        }
    }

    /// The loaded chunks of a well-formed world are well formed.
    pub proof fn lemma_view_wf(&self)
        requires
            self.inv(),
        ensures
            chunks_wf(self@),
    {
        assert forall|o: (int, int)| #[trigger] self@.contains_key(o) implies self@[o].len() == CHUNK_TILES by {
            let i = choose|i: int| 0 <= i < self.chunks@.len() && #[trigger] self.chunks@[i].origin() == o;
            self.lemma_view_at(i);
        }
    }

    /// An empty world: no chunk is loaded.
    pub fn new() -> (w: Self)
        ensures
            w.inv(),
            w@ == Map::<(int, int), Seq<u8>>::empty(),
            w.chunk_origins().len() == 0,
            w.origins_aligned(),
    {
        let w = Self { chunks: Vec::new() };
        assert(w@ =~= Map::<(int, int), Seq<u8>>::empty());
        w
    }

    /// Whether the chunk with origin `(x, y)` is loaded.
    fn loaded_chunk_at(&self, x: i32, y: i32) -> (r: bool)
        requires
            self.inv(),
        ensures
            r == self@.contains_key((x as int, y as int)),
    {
        let n = self.chunks.len();
        for k in 0..n
            invariant
                n == self.chunks@.len(),
                self.inv(),
                forall|j: int| 0 <= j < k ==> self.chunks@[j].origin() != (x as int, y as int),
        {
            if self.chunks[k].x == x && self.chunks[k].y == y {
                proof {
                    self.lemma_view_at(k as int);
                }
                return true;
            }
        }
        false
    }

    /// The index of the chunk with origin `(x, y)`, which is created blank
    /// when it is not loaded yet.
    fn get_chunk_id_at(&mut self, x: i32, y: i32) -> (i: usize)
        requires
            old(self).inv(),
        ensures
            old(self).origins_aligned() && x % 128 == 0 && y % 128 == 0 ==> final(self).origins_aligned(),
            final(self).chunk_origins() == (if old(self)@.contains_key((x as int, y as int)) {
                old(self).chunk_origins()
            } else {
                old(self).chunk_origins().push((x as int, y as int))
            }),
            final(self).inv(),
            i < final(self).chunks@.len(),
            final(self).chunks@[i as int].origin() == (x as int, y as int),
            final(self)@ == (if old(self)@.contains_key((x as int, y as int)) {
                old(self)@
            } else {
                old(self)@.insert((x as int, y as int), blank_tiles())
            }),
    {
        let n = self.chunks.len();
        for k in 0..n
            invariant
                n == self.chunks@.len(),
                self.inv(),
                *self == *old(self),
                forall|j: int| 0 <= j < k ==> self.chunks@[j].origin() != (x as int, y as int),
        {
            if self.chunks[k].x == x && self.chunks[k].y == y {
                proof {
                    self.lemma_view_at(k as int);
                }
                return k;
            }
        }
        let ghost old_view = self@;
        assert(!old_view.contains_key((x as int, y as int)));
        self.chunks.push(Chunk::new_empty(x, y));
        proof {
            assert(self.inv());
            let ghost target = old_view.insert((x as int, y as int), blank_tiles());
            assert forall|o: (int, int)| #[trigger] target.contains_key(o) implies self@.contains_key(o) by {
                if o == (x as int, y as int) {
                    assert(self.chunks@[n as int].origin() == o);
                } else {
                    let j = choose|j: int| 0 <= j < n && #[trigger] old(self).chunks@[j].origin() == o;
                    assert(self.chunks@[j].origin() == o);
                }
            }
            assert forall|o: (int, int)| #[trigger] self@.contains_key(o) implies target.contains_key(o) by {
                let j = choose|j: int| 0 <= j < self.chunks@.len() && #[trigger] self.chunks@[j].origin() == o;
                if j < n {
                    assert(old(self).chunks@[j].origin() == o);
                }
            }
            assert forall|o: (int, int)| #[trigger] self@.contains_key(o) implies self@[o] == old_view.insert((x as int, y as int), blank_tiles())[o] by {
                let j = choose|j: int| 0 <= j < self.chunks@.len() && #[trigger] self.chunks@[j].origin() == o;
                self.lemma_view_at(j);
                if j < n {
                    old(self).lemma_view_at(j);
                }
            }
            assert(self@ =~= old_view.insert((x as int, y as int), blank_tiles()));
            assert(self.chunk_origins() =~= old(self).chunk_origins().push((x as int, y as int)));
        }
        self.chunks.len() - 1
    }
}


/// The origin of the chunk that holds coordinate `v`: `v` with its low seven
/// bits cleared.
fn origin_of(v: i32) -> (r: i32)
    ensures
        r as int == chunk_origin(v as int),
        r % 128 == 0,
{
    assert((v & -128i32) as int == v - (v as int % 128)) by (bit_vector);
    assert((v - v as int % 128) % 128 == 0) by (nonlinear_arith);
    v & -128i32
}

/// The position of the tile at `(x, y)` inside its chunk.
fn index_in_chunk(x: i32, y: i32) -> (r: usize)
    ensures
        r as int == cell_index(x as int, y as int),
        r < CHUNK_TILES,
{
    assert((x & 0x7Fi32) as int == x as int % 128) by (bit_vector);
    assert((y & 0x7Fi32) as int == y as int % 128) by (bit_vector);
    let a = x & 0x7F;
    let b = y & 0x7F;
    assert((a | (b << 7i32)) as int == a + 128 * b) by (bit_vector)
        requires
            0 <= a < 128,
            0 <= b < 128,
    ;
    let i = a | (b << 7);
    i as usize
}

impl WorldTiles {
    /// The tile at `(x, y)`; the default tile where no chunk is loaded.
    pub fn get_tile_at(&self, x: i32, y: i32) -> (t: u8)
        requires
            self.inv(),
        ensures
            t == tile_in(self@, x as int, y as int),
    {
        let cx = origin_of(x);
        let cy = origin_of(y);
        let n = self.chunks.len();
        for k in 0..n
            invariant
                n == self.chunks@.len(),
                self.inv(),
                cx as int == chunk_origin(x as int),
                cy as int == chunk_origin(y as int),
                forall|j: int| 0 <= j < k ==> self.chunks@[j].origin() != (cx as int, cy as int),
        {
            if self.chunks[k].x == cx && self.chunks[k].y == cy {
                proof {
                    self.lemma_view_at(k as int);
                }
                let i = index_in_chunk(x, y);
                return self.chunks[k].tiles[i];
            }
        }
        DEFAULT_TILE
    }

    /// Sets the tile at `(x, y)`, loading its chunk blank first if needed.
    pub fn set_tile_at(&mut self, x: i32, y: i32, tile: u8)
        requires
            old(self).inv(),
        ensures
            final(self).inv(),
            final(self)@ == after_set(old(self)@, x as int, y as int, tile),
            old(self).origins_aligned() ==> final(self).origins_aligned(),
            ({
                let o = (chunk_origin(x as int), chunk_origin(y as int));
                final(self).chunk_origins() == if old(self)@.contains_key(o) {
                    old(self).chunk_origins()
                } else {
                    old(self).chunk_origins().push(o)
                }
            }),
    {
        let cx = origin_of(x);
        let cy = origin_of(y);
        let k = self.get_chunk_id_at(cx, cy);
        let i = index_in_chunk(x, y);
        let ghost mid = *self;
        proof {
            mid.lemma_view_at(k as int);
        }
        self.chunks[k].tiles.set(i, tile);
        proof {
            let o = (cx as int, cy as int);
            assert(self.chunks@ == mid.chunks@.update(k as int, self.chunks@[k as int]));
            assert(self.chunk_origins() =~= mid.chunk_origins());
            assert(self.inv());
            let target = mid@.insert(o, mid@[o].update(i as int, tile));
            assert forall|p: (int, int)| #[trigger] target.contains_key(p) implies self@.contains_key(p) by {
                if p == o {
                    assert(self.chunks@[k as int].origin() == p);
                } else {
                    let j = choose|j: int| 0 <= j < mid.chunks@.len() && #[trigger] mid.chunks@[j].origin() == p;
                    assert(self.chunks@[j].origin() == p);
                }
            }
            assert forall|p: (int, int)| #[trigger] self@.contains_key(p) implies target.contains_key(p) by {
                let j = choose|j: int| 0 <= j < self.chunks@.len() && #[trigger] self.chunks@[j].origin() == p;
                assert(mid.chunks@[j].origin() == p);
            }
            assert forall|p: (int, int)| #[trigger] self@.contains_key(p) implies self@[p] == target[p] by {
                let j = choose|j: int| 0 <= j < self.chunks@.len() && #[trigger] self.chunks@[j].origin() == p;
                self.lemma_view_at(j);
                mid.lemma_view_at(j);
            }
            assert(self@ =~= target);
        }
    }
}

/// Bytes before the tiles in a chunk's file.
pub const FILE_HEADER: usize = 9;

/// Bytes in a chunk's file: a header, then one byte per tile, row by row.
pub const FILE_BYTES: usize = 16393;

/// The contents of a chunk's file for the tiles `t`: nine zero bytes, then
/// the tiles.
pub open spec fn file_image(t: Seq<u8>) -> Seq<u8> {
    Seq::new(FILE_HEADER as nat, |i: int| 0u8) + t
}

/// The tiles that a chunk's file contents `b` hold: the bytes after the
/// header.
pub open spec fn tiles_of_image(b: Seq<u8>) -> Seq<u8> {
    b.subrange(FILE_HEADER as int, b.len() as int)
}

/// Reading back what was saved gives the same tiles.
pub proof fn lemma_file_round_trip(t: Seq<u8>)
    ensures
        tiles_of_image(file_image(t)) == t,
{
    assert(tiles_of_image(file_image(t)) =~= t);
}

/// The name of the file that holds the chunk at `(x, y)`: the two
/// coordinates in decimal, joined by an underscore.
pub open spec fn chunk_file_name(x: int, y: int) -> Seq<char> {
    signed_decimal(x) + seq!['_'] + signed_decimal(y)
}

impl Chunk {
    /// The chunk at `(x, y)` read from `buf`, the buffer its file was read
    /// into: the tiles are the bytes after the header.
    pub fn from_file_buffer(x: i32, y: i32, buf: &[u8]) -> (c: Self)
        requires
            buf@.len() == FILE_BYTES,
        ensures
            c.origin() == (x as int, y as int),
            c.tiles_view() == tiles_of_image(buf@),
    {
        let mut chunk = Self::new_empty(x, y);
        for i in 0..CHUNK_TILES
            invariant
                buf@.len() == FILE_BYTES,
                chunk.x == x,
                chunk.y == y,
                chunk.tiles@.len() == CHUNK_TILES,
                forall|j: int| 0 <= j < i ==> chunk.tiles@[j] == buf@[j + FILE_HEADER],
        {
            chunk.tiles.set(i, buf[i + FILE_HEADER]);
        }
        assert(chunk.tiles@ =~= tiles_of_image(buf@));
        chunk
    }

    /// The contents of the chunk's file: see `file_image`.
    pub fn to_file_bytes(&self) -> (b: Vec<u8>)
        requires
            self.tiles_view().len() == CHUNK_TILES,
        ensures
            b@ == file_image(self.tiles_view()),
    {
        let mut buf: Vec<u8> = vec![0u8; FILE_BYTES];
        for i in 0..CHUNK_TILES
            invariant
                self.tiles@.len() == CHUNK_TILES,
                buf@.len() == FILE_BYTES,
                forall|j: int| 0 <= j < FILE_HEADER ==> buf@[j] == 0,
                forall|j: int| 0 <= j < i ==> buf@[j + FILE_HEADER] == self.tiles@[j],
        {
            buf.set(i + FILE_HEADER, self.tiles[i]);
        }
        assert(buf@ =~= file_image(self.tiles@));
        buf
    }

    /// The name of the chunk's file: see `chunk_file_name`.
    pub fn file_name(&self) -> (s: String)
        ensures
            s@ == chunk_file_name(self.origin().0, self.origin().1),
    {
        let mut s = String::new();
        push_signed(&mut s, self.x as i64);
        proof {
            reveal_strlit("_");
        }
        s.append("_");
        push_signed(&mut s, self.y as i64);
        assert(s@ =~= chunk_file_name(self.x as int, self.y as int));
        s
    }
}

} // verus!
