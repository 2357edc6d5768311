//! The server's messages: each carries a list of commands that update what
//! the client knows of the world and of its player.
use vstd::prelude::*;
use vstd::string::StringExecFns;
use crate::json::{Json, field, item, members, as_str, as_i32, as_u8, json_as_i32, json_as_u8, json_as_str};
use crate::parse::{parse_json, parsed_json};
use crate::world::{WorldTiles, after_set, tile_in, chunks_wf};
use crate::pathing::{pathing_seq, open_cells, VIEW_CELLS};
use crate::player::{Player, Enemy};

verus! {

/// The tile written at index `k` of a `setTiles` command's tile list.
pub open spec fn list_tile(list: Json, k: int) -> u8 {
    as_u8(item(list, k)).unwrap()
}

/// The world after the first `k` tiles of a square of side `size` with its
/// corner at `(x0, y0)` are written, row by row, from the tile list `list`.
pub open spec fn write_square(
    m: Map<(int, int), Seq<u8>>,
    x0: int,
    y0: int,
    size: int,
    list: Json,
    k: nat,
) -> Map<(int, int), Seq<u8>>
    decreases k,
{
    if k == 0 {
        m
    } else {
        let j = k - 1;
        after_set(write_square(m, x0, y0, size, list, j as nat), x0 + j % size, y0 + j / size, list_tile(list, j))
    }
}

/// The number of tiles in a square of side `size` (none when it is not
/// positive).
pub open spec fn square_cells(size: int) -> nat {
    if size > 0 {
        (size * size) as nat
    } else {
        0
    }
}

proof fn lemma_div_mod(j: int, size: int)
    requires
        size > 0,
        j >= 0,
    ensures
        0 <= j % size < size,
        j == (j / size) * size + j % size,
        j / size >= 0,
{
    assert(0 <= j % size < size && j == (j / size) * size + j % size && j / size >= 0) by (nonlinear_arith)
        requires
            size > 0,
            j >= 0,
    ;
}

proof fn lemma_cell_of(a: int, b: int, size: int)
    requires
        size > 0,
        0 <= a < size,
        0 <= b,
    ensures
        (b * size + a) % size == a,
        (b * size + a) / size == b,
{
    assert((b * size + a) % size == a && (b * size + a) / size == b) by (nonlinear_arith)
        requires
            size > 0,
            0 <= a < size,
            0 <= b,
    ;
}

/// After the first `k` tiles of the square are written, each position holds
/// the tile written there, if any, and otherwise what it held before.
pub proof fn lemma_square_written(
    m: Map<(int, int), Seq<u8>>,
    x0: int,
    y0: int,
    size: int,
    list: Json,
    k: nat,
    a: int,
    b: int,
)
    requires
        chunks_wf(m),
        size > 0,
    ensures
        chunks_wf(write_square(m, x0, y0, size, list, k)),
        tile_in(write_square(m, x0, y0, size, list, k), a, b) == (if 0 <= a - x0 < size && 0 <= b - y0
            && (b - y0) * size + (a - x0) < k {
            list_tile(list, (b - y0) * size + (a - x0))
        } else {
            tile_in(m, a, b)
        }),
    decreases k,
{
    if k > 0 {
        let j = k - 1;
        let prev = write_square(m, x0, y0, size, list, j as nat);
        lemma_square_written(m, x0, y0, size, list, j as nat, a, b);
        lemma_div_mod(j, size);
        let cx = x0 + j % size;
        let cy = y0 + j / size;
        crate::world::lemma_get_after_set(prev, cx, cy, list_tile(list, j));
        if (a, b) == (cx, cy) {
            assert((b - y0) * size + (a - x0) == j);
        } else {
            crate::world::lemma_get_after_set_other(prev, cx, cy, list_tile(list, j), a, b);
            if 0 <= a - x0 < size && 0 <= b - y0 {
                lemma_cell_of(a - x0, b - y0, size);
                assert((b - y0) * size + (a - x0) != j);
            }
        }
    }
}

/// What the client knows that the server's commands change: the player's
/// position, health, name and nearby enemies, the world, and the search
/// square around the player.
pub struct ClientState {
    pub x: int,
    pub y: int,
    pub health: u8,
    pub user: Seq<char>,
    pub enemies: Seq<Enemy>,
    pub world: Map<(int, int), Seq<u8>>,
    pub walks: Seq<u8>,
}

/// The name of a command.
pub open spec fn command_name(c: Json) -> Option<Seq<char>> {
    as_str(field(c, "commandName"@))
}

/// An `i32` member of a member of a command, such as `pos.x`.
pub open spec fn nested_i32(c: Json, outer: Seq<char>, inner: Seq<char>) -> Option<i32> {
    as_i32(field(field(c, outer), inner))
}

/// Whether a position keeps the search around it within `i32`.
pub open spec fn search_fits_at(x: int, y: int) -> bool {
    i32::MIN + 33 <= x <= i32::MAX - 33 && i32::MIN + 33 <= y <= i32::MAX - 33
}

/// Whether `setTiles` can be carried out: a side, a corner and a tile per
/// cell, and positions that fit in an `i32`.
pub open spec fn set_tiles_ok(c: Json) -> bool {
    let size = as_i32(field(c, "size"@));
    let x0 = nested_i32(c, "pos"@, "x"@);
    let y0 = nested_i32(c, "pos"@, "y"@);
    &&& size is Some
    &&& x0 is Some
    &&& y0 is Some
    &&& square_cells(size.unwrap() as int) <= usize::MAX
    &&& size.unwrap() > 0 ==> {
        &&& x0.unwrap() + size.unwrap() - 1 <= i32::MAX
        &&& y0.unwrap() + size.unwrap() - 1 <= i32::MAX
    }
    &&& forall|k: int| 0 <= k < square_cells(size.unwrap() as int) ==> #[trigger] as_u8(item(field(c, "tileList"@), k)) is Some
}

/// The world after a `setTiles` command that `set_tiles_ok` accepts.
pub open spec fn tiles_set(m: Map<(int, int), Seq<u8>>, c: Json) -> Map<(int, int), Seq<u8>> {
    let size = as_i32(field(c, "size"@)).unwrap() as int;
    write_square(
        m,
        nested_i32(c, "pos"@, "x"@).unwrap() as int,
        nested_i32(c, "pos"@, "y"@).unwrap() as int,
        size,
        field(c, "tileList"@),
        square_cells(size),
    )
}

/// A `setTiles` command with a positive side `size`, a corner `(x0, y0)`
/// and a tile for every cell is carried out wherever its corner lies,
/// negative coordinates included, as long as the square ends within `i32`
/// and the player's search fits: afterwards tile `k` of the list stands at
/// `(x0 + k % size, y0 + k / size)`.
pub proof fn lemma_set_tiles_anywhere(s: ClientState, c: Json, size: i32, x0: i32, y0: i32, k: int)
    requires
        command_name(c) == Some("setTiles"@),
        as_i32(field(c, "size"@)) == Some(size),
        as_i32(field(field(c, "pos"@), "x"@)) == Some(x0),
        as_i32(field(field(c, "pos"@), "y"@)) == Some(y0),
        size > 0,
        size * size <= usize::MAX,
        x0 + size - 1 <= i32::MAX,
        y0 + size - 1 <= i32::MAX,
        forall|j: int| 0 <= j < size * size ==> #[trigger] as_u8(item(field(c, "tileList"@), j)) is Some,
        i32::MIN + 33 <= s.x <= i32::MAX - 33,
        i32::MIN + 33 <= s.y <= i32::MAX - 33,
        chunks_wf(s.world),
        0 <= k < size * size,
    ensures
        command_ok(s, c),
        tile_in(apply_command(s, c).world, x0 + k % (size as int), y0 + k / (size as int)) == as_u8(
            item(field(c, "tileList"@), k),
        ).unwrap(),
{
    let sz = size as int;
    assert(square_cells(sz) == sz * sz);
    lemma_div_mod(k, sz);
    let a = x0 + k % sz;
    let b = y0 + k / sz;
    assert(k / sz < sz) by (nonlinear_arith)
        requires
            0 <= k < sz * sz,
            sz > 0,
            k == (k / sz) * sz + k % sz,
            0 <= k % sz,
    ;
    lemma_square_written(s.world, x0 as int, y0 as int, sz, field(c, "tileList"@), square_cells(sz), a, b);
}

/// Whether a command can be carried out in state `s` (the client stops on
/// any other).
pub open spec fn command_ok(s: ClientState, c: Json) -> bool {
    match command_name(c) {
        None => false,
        Some(name) => if name == "setTiles"@ {
            set_tiles_ok(c) && search_fits_at(s.x, s.y)
        } else if name == "setLocalPlayerPos"@ {
            &&& nested_i32(c, "pos"@, "x"@) is Some
            &&& nested_i32(c, "pos"@, "y"@) is Some
            &&& search_fits_at(nested_i32(c, "pos"@, "x"@).unwrap() as int, nested_i32(c, "pos"@, "y"@).unwrap() as int)
        } else if name == "addEntity"@ {
            &&& nested_i32(field(c, "entityInfo"@), "pos"@, "x"@) is Some
            &&& nested_i32(field(c, "entityInfo"@), "pos"@, "y"@) is Some
        } else if name == "setLocalPlayerInfo"@ {
            as_str(field(c, "username"@)) is Some
        } else if name == "setStats"@ {
            as_u8(field(c, "health"@)) is Some
        } else {
            true
        },
    }
}

/// The state after command `c`, which `command_ok` accepts. Commands with
/// other names change nothing.
pub open spec fn apply_command(s: ClientState, c: Json) -> ClientState {
    let name = command_name(c).unwrap();
    if name == "setTiles"@ {
        let w = tiles_set(s.world, c);
        ClientState { world: w, walks: pathing_seq(open_cells(w, s.x, s.y)), ..s }
    } else if name == "setLocalPlayerPos"@ {
        let x = nested_i32(c, "pos"@, "x"@).unwrap() as int;
        let y = nested_i32(c, "pos"@, "y"@).unwrap() as int;
        ClientState { x: x, y: y, walks: pathing_seq(open_cells(s.world, x, y)), ..s }
    } else if name == "addEntity"@ {
        let e = Enemy {
            x: nested_i32(field(c, "entityInfo"@), "pos"@, "x"@).unwrap(),
            y: nested_i32(field(c, "entityInfo"@), "pos"@, "y"@).unwrap(),
        };
        ClientState { enemies: s.enemies.push(e), ..s }
    } else if name == "removeAllEntities"@ {
        ClientState { enemies: Seq::empty(), ..s }
    } else if name == "setLocalPlayerInfo"@ {
        ClientState { user: as_str(field(c, "username"@)).unwrap(), ..s }
    } else if name == "setStats"@ {
        ClientState { health: as_u8(field(c, "health"@)).unwrap(), ..s }
    } else {
        s
    }
}

/// Whether a command is a chat message, which the client prints.
pub open spec fn is_chat(c: Json) -> bool {
    command_name(c) == Some("addChatMessage"@)
}

/// Whether the commands from index `i` on can all be carried out in turn.
pub open spec fn commands_ok(s: ClientState, cmds: Seq<Json>, i: int) -> bool
    decreases cmds.len() - i,
{
    if i < 0 || i >= cmds.len() {
        true
    } else {
        command_ok(s, cmds[i]) && commands_ok(apply_command(s, cmds[i]), cmds, i + 1)
    }
}

/// The state after the commands from index `i` on, in turn.
pub open spec fn apply_commands(s: ClientState, cmds: Seq<Json>, i: int) -> ClientState
    decreases cmds.len() - i,
{
    if i < 0 || i >= cmds.len() {
        s
    } else {
        apply_commands(apply_command(s, cmds[i]), cmds, i + 1)
    }
}

/// How many of the commands from index `i` on are carried out in turn,
/// from state `s`, before the first one that cannot be.
pub open spec fn carried(s: ClientState, cmds: Seq<Json>, i: int) -> nat
    decreases cmds.len() - i,
{
    if i < 0 || i >= cmds.len() || !command_ok(s, cmds[i]) {
        0
    } else {
        1 + carried(apply_command(s, cmds[i]), cmds, i + 1)
    }
}

/// The state after the commands from index `i` on are carried out in turn,
/// from state `s`, up to the first one that cannot be, which changes
/// nothing.
pub open spec fn apply_carried(s: ClientState, cmds: Seq<Json>, i: int) -> ClientState
    decreases cmds.len() - i,
{
    if i < 0 || i >= cmds.len() || !command_ok(s, cmds[i]) {
        s
    } else {
        apply_carried(apply_command(s, cmds[i]), cmds, i + 1)
    }
}

proof fn lemma_carried_bound(s: ClientState, cmds: Seq<Json>, i: int)
    requires
        0 <= i <= cmds.len(),
    ensures
        i + carried(s, cmds, i) <= cmds.len(),
    decreases cmds.len() - i,
{
    if i < cmds.len() && command_ok(s, cmds[i]) {
        lemma_carried_bound(apply_command(s, cmds[i]), cmds, i + 1);
    }
}

/// When every command can be carried out in turn, all of them are, and
/// carrying them out up to the first failure is carrying them all out.
pub proof fn lemma_carried_all(s: ClientState, cmds: Seq<Json>, i: int)
    requires
        0 <= i <= cmds.len(),
        commands_ok(s, cmds, i),
    ensures
        i + carried(s, cmds, i) == cmds.len(),
        apply_carried(s, cmds, i) == apply_commands(s, cmds, i),
    decreases cmds.len() - i,
{
    if i < cmds.len() {
        lemma_carried_all(apply_command(s, cmds[i]), cmds, i + 1);
    }
}

/// The commands of a message: its member `commandList`.
pub open spec fn message_commands(msg: Json) -> Seq<Json> {
    members(field(msg, "commandList"@))
}

/// For each command of a list, whether it is a chat message.
pub open spec fn chat_flags(cmds: Seq<Json>) -> Seq<bool> {
    Seq::new(cmds.len(), |i: int| is_chat(cmds[i]))
}

impl Player {
    /// What the server's commands can change, with the world `world`.
    pub open spec fn client_state(&self, world: Map<(int, int), Seq<u8>>) -> ClientState {
        ClientState {
            x: self.x as int,
            y: self.y as int,
            health: self.health,
            user: self.user@,
            enemies: self.enemies@,
            world: world,
            walks: self.walks_to@,
        }
    }

    /// `self` and `other` agree on every field that the server's commands
    /// leave alone.
    pub open spec fn same_but_commands(&self, other: &Player) -> bool {
        &&& self.pindex == other.pindex
        &&& self.rx == other.rx
        &&& self.ry == other.ry
        &&& self.comque == other.comque
        &&& self.dwalks_left == other.dwalks_left
        &&& self.time_since_break == other.time_since_break
        &&& self.play_mode == other.play_mode
    }
}

/// Writes the square of tiles that a `setTiles` command carries: row by row
/// from its corner `pos`, `size` tiles a side, from `tileList`.
pub fn cq_set_tiles(command: &Json, world_tiles: &mut WorldTiles)
    requires
        old(world_tiles).inv(),
        set_tiles_ok(*command),
    ensures
        final(world_tiles).inv(),
        final(world_tiles)@ == tiles_set(old(world_tiles)@, *command),
{
    proof {
        reveal_strlit("size");
        reveal_strlit("pos");
        reveal_strlit("x");
        reveal_strlit("y");
        reveal_strlit("tileList");
    }
    let slen: i32 = i32_of(lookup(Some(command), "size")).unwrap();
    let pos = lookup(Some(command), "pos");
    let x0 = i32_of(lookup(pos, "x")).unwrap();
    let y0 = i32_of(lookup(pos, "y")).unwrap();
    let list = lookup(Some(command), "tileList");
    let ghost m0 = world_tiles@;
    let ghost size = slen as int;
    let mut tilei: usize = 0;
    let mut y: i32 = 0;
    while y < slen
        invariant
            world_tiles.inv(),
            set_tiles_ok(*command),
            size == slen,
            slen == as_i32(field(*command, "size"@)).unwrap(),
            x0 == nested_i32(*command, "pos"@, "x"@).unwrap(),
            y0 == nested_i32(*command, "pos"@, "y"@).unwrap(),
            slen > 0 ==> x0 + slen - 1 <= i32::MAX && y0 + slen - 1 <= i32::MAX,
            square_cells(size) <= usize::MAX,
            or_null(list) == field(*command, "tileList"@),
            0 <= y <= slen || (slen <= 0 && y == 0),
            y >= 0,
            tilei == y * size,
            world_tiles@ == write_square(m0, x0 as int, y0 as int, size, or_null(list), tilei as nat),
        decreases slen - y,
    {
        let mut x: i32 = 0;
        while x < slen
            invariant
                world_tiles.inv(),
                set_tiles_ok(*command),
                size == slen,
                slen == as_i32(field(*command, "size"@)).unwrap(),
                0 <= y < slen,
                0 <= x <= slen,
                x0 + slen - 1 <= i32::MAX && y0 + slen - 1 <= i32::MAX,
                square_cells(size) <= usize::MAX,
                or_null(list) == field(*command, "tileList"@),
                tilei == y * size + x,
                world_tiles@ == write_square(m0, x0 as int, y0 as int, size, or_null(list), tilei as nat),
            decreases slen - x,
        {
            proof {
                assert(y * size + x < size * size) by (nonlinear_arith)
                    requires
                        0 <= y < size,
                        0 <= x < size,
                ;
                lemma_cell_of(x as int, y as int, size);
                assert(square_cells(size) == size * size);
                assert(as_u8(item(field(*command, "tileList"@), tilei as int)) is Some);
            }
            let tile = u8_of(index_of(list, tilei)).unwrap();
            world_tiles.set_tile_at(x + x0, y + y0, tile);
            tilei = tilei + 1;
            x = x + 1;
        }
        proof {
            assert((y + 1) * size == y * size + size) by (nonlinear_arith);
        }
        y = y + 1;
    }
    proof {
        if slen > 0 {
            assert(tilei == size * size);
        }
        assert(tilei == square_cells(size));
        assert(slen == as_i32(field(*command, "size"@)).unwrap());
        assert(x0 == nested_i32(*command, "pos"@, "x"@).unwrap());
        assert(y0 == nested_i32(*command, "pos"@, "y"@).unwrap());
    }
}

/// The value a lookup found, `Null` when it found nothing.
pub open spec fn or_null(o: Option<&Json>) -> Json {
    match o {
        Some(v) => *v,
        None => Json::Null,
    }
}

/// `j[key]`, where `None` stands for `Null`.
fn lookup<'a>(j: Option<&'a Json>, key: &str) -> (r: Option<&'a Json>)
    ensures
        or_null(r) == field(or_null(j), key@),
{
    match j {
        Some(v) => v.get(&String::from_str(key)),
        None => None,
    }
}

/// `j[i]`, where `None` stands for `Null`.
fn index_of<'a>(j: Option<&'a Json>, i: usize) -> (r: Option<&'a Json>)
    ensures
        or_null(r) == item(or_null(j), i as int),
        r is Some <==> i < members(or_null(j)).len(),
{
    match j {
        Some(v) => v.at(i),
        None => None,
    }
}

/// `as_i32`, where `None` stands for `Null`.
fn i32_of(j: Option<&Json>) -> (r: Option<i32>)
    ensures
        r == as_i32(or_null(j)),
{
    match j {
        Some(v) => json_as_i32(v),
        None => None,
    }
}

/// `as_u8`, where `None` stands for `Null`.
fn u8_of(j: Option<&Json>) -> (r: Option<u8>)
    ensures
        r == as_u8(or_null(j)),
{
    match j {
        Some(v) => json_as_u8(v),
        None => None,
    }
}

/// `as_str`, where `None` stands for `Null`.
fn str_of<'a>(j: Option<&'a Json>) -> (r: Option<&'a String>)
    ensures
        r matches Some(s) ==> as_str(or_null(j)) == Some(s@),
        r is None ==> as_str(or_null(j)) is None,
{
    match j {
        Some(v) => json_as_str(v),
        None => None,
    }
}

/// The command names differ from one another.
proof fn lemma_names_differ()
    ensures
        "setTiles"@ != "setLocalPlayerPos"@,
        "setTiles"@ != "addEntity"@,
        "setTiles"@ != "removeAllEntities"@,
        "setTiles"@ != "setLocalPlayerInfo"@,
        "setTiles"@ != "setStats"@,
        "setTiles"@ != "addChatMessage"@,
        "setLocalPlayerPos"@ != "addEntity"@,
        "setLocalPlayerPos"@ != "removeAllEntities"@,
        "setLocalPlayerPos"@ != "setLocalPlayerInfo"@,
        "setLocalPlayerPos"@ != "setStats"@,
        "setLocalPlayerPos"@ != "addChatMessage"@,
        "addEntity"@ != "removeAllEntities"@,
        "addEntity"@ != "setLocalPlayerInfo"@,
        "addEntity"@ != "setStats"@,
        "addEntity"@ != "addChatMessage"@,
        "removeAllEntities"@ != "setLocalPlayerInfo"@,
        "removeAllEntities"@ != "setStats"@,
        "removeAllEntities"@ != "addChatMessage"@,
        "setLocalPlayerInfo"@ != "setStats"@,
        "setLocalPlayerInfo"@ != "addChatMessage"@,
        "setStats"@ != "addChatMessage"@,
{
    reveal_strlit("setTiles");
    reveal_strlit("setLocalPlayerPos");
    reveal_strlit("addEntity");
    reveal_strlit("removeAllEntities");
    reveal_strlit("setLocalPlayerInfo");
    reveal_strlit("setStats");
    reveal_strlit("addChatMessage");
    assert("setTiles"@.len() != "setLocalPlayerPos"@.len());
    assert("setTiles"@[0] != "addEntity"@[0]);
    assert("setTiles"@.len() != "removeAllEntities"@.len());
    assert("setTiles"@.len() != "setLocalPlayerInfo"@.len());
    assert("setTiles"@[3] != "setStats"@[3]);
    assert("setTiles"@[0] != "addChatMessage"@[0]);
    assert("setLocalPlayerPos"@[0] != "addEntity"@[0]);
    assert("setLocalPlayerPos"@[0] != "removeAllEntities"@[0]);
    assert("setLocalPlayerPos"@.len() != "setLocalPlayerInfo"@.len() || "setLocalPlayerPos"@[14] != "setLocalPlayerInfo"@[14]);
    assert("setLocalPlayerPos"@.len() != "setStats"@.len());
    assert("setLocalPlayerPos"@[0] != "addChatMessage"@[0]);
    assert("addEntity"@[0] != "removeAllEntities"@[0]);
    assert("addEntity"@[0] != "setLocalPlayerInfo"@[0]);
    assert("addEntity"@[0] != "setStats"@[0]);
    assert("addEntity"@.len() != "addChatMessage"@.len());
    assert("removeAllEntities"@[0] != "setLocalPlayerInfo"@[0]);
    assert("removeAllEntities"@[0] != "setStats"@[0]);
    assert("removeAllEntities"@[0] != "addChatMessage"@[0]);
    assert("setLocalPlayerInfo"@.len() != "setStats"@.len());
    assert("setLocalPlayerInfo"@[0] != "addChatMessage"@[0]);
    assert("setStats"@[0] != "addChatMessage"@[0]);
}

/// Only `setLocalPlayerPos` moves the player.
proof fn lemma_apply_keeps_position(s: ClientState, c: Json)
    requires
        command_name(c) is Some,
        command_name(c) != Some("setLocalPlayerPos"@),
    ensures
        apply_command(s, c).x == s.x,
        apply_command(s, c).y == s.y,
{
}

/// Records the entity that an `addEntity` command announces, at its
/// `entityInfo.pos`.
pub fn cq_add_entity(command: &Json, enemies: &mut Vec<Enemy>)
    requires
        nested_i32(field(*command, "entityInfo"@), "pos"@, "x"@) is Some,
        nested_i32(field(*command, "entityInfo"@), "pos"@, "y"@) is Some,
    ensures
        final(enemies)@ == old(enemies)@.push(
            Enemy {
                x: nested_i32(field(*command, "entityInfo"@), "pos"@, "x"@).unwrap(),
                y: nested_i32(field(*command, "entityInfo"@), "pos"@, "y"@).unwrap(),
            },
        ),
{
    let pos = lookup(lookup(Some(command), "entityInfo"), "pos");
    let x = i32_of(lookup(pos, "x")).unwrap();
    let y = i32_of(lookup(pos, "y")).unwrap();
    enemies.push(Enemy { x, y });
}

/// Whether `name` is the text `lit`.
fn name_is(name: &String, lit: &str) -> (r: bool)
    ensures
        r == (name@ == lit@),
{
    *name == String::from_str(lit)
}

/// Whether `set_tiles_ok` holds of a command.
fn check_set_tiles(c: &Json) -> (r: bool)
    ensures
        r == set_tiles_ok(*c),
{
    let size = match i32_of(lookup(Some(c), "size")) {
        Some(v) => v,
        None => return false,
    };
    let pos = lookup(Some(c), "pos");
    let x0 = match i32_of(lookup(pos, "x")) {
        Some(v) => v,
        None => return false,
    };
    let y0 = match i32_of(lookup(pos, "y")) {
        Some(v) => v,
        None => return false,
    };
    let cells: u64 = if size > 0 {
        assert((size as u64) * (size as u64) <= 0x4000_0000_0000_0000) by (nonlinear_arith)
            requires
                0 < size <= 0x7fff_ffff,
        ;
        (size as u64) * (size as u64)
    } else {
        0
    };
    if cells > usize::MAX as u64 {
        return false;
    }
    if size > 0 && (x0 as i64 + size as i64 - 1 > i32::MAX as i64 || y0 as i64 + size as i64 - 1 > i32::MAX as i64) {
        return false;
    }
    let list = lookup(Some(c), "tileList");
    let n = cells as usize;
    for k in 0..n
        invariant
            n == square_cells(size as int),
            as_i32(field(*c, "size"@)) == Some(size),
            or_null(list) == field(*c, "tileList"@),
            forall|j: int| 0 <= j < k ==> #[trigger] as_u8(item(field(*c, "tileList"@), j)) is Some,
    {
        if u8_of(index_of(list, k)).is_none() {
            return false;
        }
    }
    true
}

/// Whether `command_ok` holds of a command in any state at `(x, y)`.
fn check_command(x: i32, y: i32, c: &Json, Ghost(s): Ghost<ClientState>) -> (r: bool)
    requires
        s.x == x,
        s.y == y,
    ensures
        r == command_ok(s, *c),
{
    let name = match str_of(lookup(Some(c), "commandName")) {
        Some(n) => n,
        None => return false,
    };
    proof {
        lemma_names_differ();
    }
    let fits = x >= i32::MIN + 33 && x <= i32::MAX - 33 && y >= i32::MIN + 33 && y <= i32::MAX - 33;
    if name_is(name, "setTiles") {
        check_set_tiles(c) && fits
    } else if name_is(name, "setLocalPlayerPos") {
        let pos = lookup(Some(c), "pos");
        match (i32_of(lookup(pos, "x")), i32_of(lookup(pos, "y"))) {
            (Some(a), Some(b)) => a >= i32::MIN + 33 && a <= i32::MAX - 33 && b >= i32::MIN + 33 && b <= i32::MAX
                - 33,
            _ => false,
        }
    } else if name_is(name, "addEntity") {
        let pos = lookup(lookup(Some(c), "entityInfo"), "pos");
        i32_of(lookup(pos, "x")).is_some() && i32_of(lookup(pos, "y")).is_some()
    } else if name_is(name, "setLocalPlayerInfo") {
        str_of(lookup(Some(c), "username")).is_some()
    } else if name_is(name, "setStats") {
        u8_of(lookup(Some(c), "health")).is_some()
    } else {
        true
    }
}

impl Player {
    /// Carries out one command from the server; says whether it is a chat
    /// message (which the caller prints).
    pub fn apply_command(&mut self, command: &Json, world_tiles: &mut WorldTiles) -> (chat: bool)
        requires
            old(self).wf(),
            old(world_tiles).inv(),
            command_ok(old(self).client_state(old(world_tiles)@), *command),
        ensures
            final(self).wf(),
            final(world_tiles).inv(),
            final(self).same_but_commands(old(self)),
            final(self).client_state(final(world_tiles)@) == apply_command(
                old(self).client_state(old(world_tiles)@),
                *command,
            ),
            chat == is_chat(*command),
    {
        let ghost s = self.client_state(world_tiles@);
        proof {
            lemma_names_differ();
        }
        let typ = str_of(lookup(Some(command), "commandName")).unwrap();
        if name_is(typ, "setTiles") {
            cq_set_tiles(command, world_tiles);
            self.generate_pathing(world_tiles);
            proof {
                assert(self.client_state(world_tiles@) =~= apply_command(s, *command));
            }
        } else if name_is(typ, "setLocalPlayerPos") {
            let pos = lookup(Some(command), "pos");
            self.x = i32_of(lookup(pos, "x")).unwrap();
            self.y = i32_of(lookup(pos, "y")).unwrap();
            self.generate_pathing(world_tiles);
        } else if name_is(typ, "addEntity") {
            cq_add_entity(command, &mut self.enemies);
        } else if name_is(typ, "removeAllEntities") {
            self.enemies = Vec::new();
            proof {
                assert(self.enemies@ =~= Seq::<Enemy>::empty());
            }
        } else if name_is(typ, "setLocalPlayerInfo") {
            self.user = str_of(lookup(Some(command), "username")).unwrap().clone();
        } else if name_is(typ, "setStats") {
            self.health = u8_of(lookup(Some(command), "health")).unwrap();
        }
        name_is(typ, "addChatMessage")
    }

    /// Whether every command of a message can be carried out in turn.
    pub fn check_message(&self, message: &Json, world_tiles: &WorldTiles) -> (ok: bool)
        ensures
            ok == commands_ok(self.client_state(world_tiles@), message_commands(*message), 0),
    {
        let ghost world = world_tiles@;
        let list = lookup(Some(message), "commandList");
        let ghost cmds = message_commands(*message);
        let n: usize = match list {
            Some(Json::Array(v)) => v.len(),
            _ => 0,
        };
        assert(n == cmds.len());
        let mut x = self.x;
        let mut y = self.y;
        let ghost mut st = self.client_state(world);
        for k in 0..n
            invariant
                n == cmds.len(),
                or_null(list) == field(*message, "commandList"@),
                cmds == message_commands(*message),
                world == world_tiles@,
                st.x == x,
                st.y == y,
                commands_ok(self.client_state(world), cmds, 0) == commands_ok(st, cmds, k as int),
        {
            let c = index_of(list, k).unwrap();
            if !check_command(x, y, c, Ghost(st)) {
                return false;
            }
            let ghost old_st = st;
            proof {
                st = apply_command(st, cmds[k as int]);
            }
            proof {
                lemma_names_differ();
            }
            let nm = str_of(lookup(Some(c), "commandName")).unwrap();
            if name_is(nm, "setLocalPlayerPos") {
                let pos = lookup(Some(c), "pos");
                x = i32_of(lookup(pos, "x")).unwrap();
                y = i32_of(lookup(pos, "y")).unwrap();
            } else {
                proof {
                    lemma_apply_keeps_position(old_st, *c);
                }
            }
        }
        true
    }

    /// Handles the text of one message from the server: parses it and
    /// carries out its commands in turn, up to the first that cannot be
    /// carried out; the commands before it stay carried out. Returns, for
    /// each command carried out, whether it is a chat message: `Ok` when all
    /// of them were, `Err` when the text does not parse (nothing changes)
    /// or a command cannot be carried out.
    pub fn handle_message(&mut self, text: &str, world_tiles: &mut WorldTiles) -> (r: Result<Vec<bool>, Vec<bool>>)
        requires
            old(self).wf(),
            old(world_tiles).inv(),
        ensures
            final(self).wf(),
            final(world_tiles).inv(),
            final(self).same_but_commands(old(self)),
            parsed_json(text@) is None ==> (r matches Err(c) && c@.len() == 0) && *final(self) == *old(self)
                && *final(world_tiles) == *old(world_tiles),
            parsed_json(text@) matches Some(m) ==> {
                let s = old(self).client_state(old(world_tiles)@);
                let cmds = message_commands(m);
                &&& r is Ok <==> commands_ok(s, cmds, 0)
                &&& final(self).client_state(final(world_tiles)@) == apply_carried(s, cmds, 0)
                &&& r is Ok ==> final(self).client_state(final(world_tiles)@) == apply_commands(s, cmds, 0)
                &&& match r {
                    Ok(c) => c@ == chat_flags(cmds),
                    Err(c) => c@ == chat_flags(cmds).take(carried(s, cmds, 0) as int),
                }
            },
    {
        let message = match parse_json(text) {
            None => {
                return Err(Vec::new());
            },
            Some(m) => m,
        };
        let ghost s0 = self.client_state(world_tiles@);
        let list = lookup(Some(&message), "commandList");
        let ghost cmds = message_commands(message);
        let n: usize = match list {
            Some(Json::Array(v)) => v.len(),
            _ => 0,
        };
        assert(n == cmds.len());
        proof {
            lemma_carried_bound(s0, cmds, 0);
        }
        let mut chats: Vec<bool> = Vec::new();
        let ghost mut st = s0;
        for k in 0..n
            invariant
                n == cmds.len(),
                or_null(list) == field(message, "commandList"@),
                cmds == message_commands(message),
                parsed_json(text@) == Some(message),
                s0 == old(self).client_state(old(world_tiles)@),
                st == self.client_state(world_tiles@),
                self.wf(),
                world_tiles.inv(),
                self.same_but_commands(old(self)),
                apply_carried(s0, cmds, 0) == apply_carried(st, cmds, k as int),
                carried(s0, cmds, 0) == k + carried(st, cmds, k as int),
                commands_ok(s0, cmds, 0) == commands_ok(st, cmds, k as int),
                chats@ == chat_flags(cmds).take(k as int),
        {
            let c = index_of(list, k).unwrap();
            if !check_command(self.x, self.y, c, Ghost(st)) {
                return Err(chats);
            }
            let chat = self.apply_command(c, world_tiles);
            chats.push(chat);
            proof {
                st = apply_command(st, cmds[k as int]);
                assert(chat_flags(cmds).take(k as int + 1) =~= chat_flags(cmds).take(k as int).push(chat));
            }
        }
        proof {
            assert(chat_flags(cmds).take(n as int) =~= chat_flags(cmds));
            lemma_carried_all(s0, cmds, 0);
        }
        Ok(chats)
    }

    /// Carries out, in turn, the commands of a message from the server.
    /// Returns, for each command, whether it is a chat message (which the
    /// caller prints).
    pub fn apply_message(&mut self, message: &Json, world_tiles: &mut WorldTiles) -> (chats: Vec<bool>)
        requires
            old(self).wf(),
            old(world_tiles).inv(),
            commands_ok(old(self).client_state(old(world_tiles)@), message_commands(*message), 0),
        ensures
            final(self).wf(),
            final(world_tiles).inv(),
            final(self).same_but_commands(old(self)),
            final(self).client_state(final(world_tiles)@) == apply_commands(
                old(self).client_state(old(world_tiles)@),
                message_commands(*message),
                0,
            ),
            chats@ == chat_flags(message_commands(*message)),
    {
        let list = lookup(Some(message), "commandList");
        let ghost cmds = message_commands(*message);
        let n: usize = match list {
            Some(Json::Array(v)) => v.len(),
            _ => 0,
        };
        assert(n == cmds.len());
        let mut chats: Vec<bool> = Vec::new();
        for k in 0..n
            invariant
                n == cmds.len(),
                or_null(list) == field(*message, "commandList"@),
                cmds == message_commands(*message),
                self.wf(),
                world_tiles.inv(),
                self.same_but_commands(old(self)),
                commands_ok(self.client_state(world_tiles@), cmds, k as int),
                apply_commands(old(self).client_state(old(world_tiles)@), cmds, 0) == apply_commands(
                    self.client_state(world_tiles@),
                    cmds,
                    k as int,
                ),
                chats@ == chat_flags(cmds).take(k as int),
        {
            let c = index_of(list, k).unwrap();
            let chat = self.apply_command(c, world_tiles);
            chats.push(chat);
            proof {
                assert(chat_flags(cmds).take(k as int + 1) =~= chat_flags(cmds).take(k as int).push(chat));
            }
        }
        proof {
            assert(chat_flags(cmds).take(n as int) =~= chat_flags(cmds));
        }
        chats
    }
}

} // verus!
