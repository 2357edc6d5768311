//! What the client draws: where the screen's tiles lie in the world, how each
//! kind of tile looks, and the text it shows.
use vstd::prelude::*;
use crate::world::{WorldTiles, tile_in};
use vstd::string::StringExecFns;
use crate::decimal::{push_signed, push_unsigned, signed_decimal, decimal};

verus! {

/// Screen pixels along each side of a drawn tile.
pub const TILE_PIXELS: i32 = 8;

/// Integer division that rounds toward zero, as Rust's `/` does.
pub open spec fn trunc_div(a: int, b: int) -> int {
    if a >= 0 {
        a / b
    } else {
        -((-a) / b)
    }
}

/// The world position under the mouse at `mouse` in a window of `ww` by
/// `wh` pixels centred on the tile `cam`: eight pixels per tile, rounding
/// down.
pub open spec fn mouse_world(mouse: (i32, i32), cam: (i32, i32), ww: i32, wh: i32) -> (int, int) {
    (
        (mouse.0 - trunc_div(ww as int, 2)) / 8 + cam.0,
        (mouse.1 - trunc_div(wh as int, 2)) / 8 + cam.1,
    )
}

/// The world position under the mouse: see `mouse_world`.
pub fn mouse_to_world(mouse: &(i32, i32), cam: &(i32, i32), ww: i32, wh: i32) -> (w: (i32, i32))
    requires
        fits(mouse.0 - trunc_div(ww as int, 2)),
        fits(mouse.1 - trunc_div(wh as int, 2)),
        fits(mouse_world(*mouse, *cam, ww, wh).0),
        fits(mouse_world(*mouse, *cam, ww, wh).1),
    ensures
        w.0 as int == mouse_world(*mouse, *cam, ww, wh).0,
        w.1 as int == mouse_world(*mouse, *cam, ww, wh).1,
{
    let mxr = mouse.0 - ww / 2;
    let myr = mouse.1 - wh / 2;
    assert((mxr >> 3i32) as int == mxr as int / 8) by (bit_vector);
    assert((myr >> 3i32) as int == myr as int / 8) by (bit_vector);
    ((mxr >> 3) + cam.0, (myr >> 3) + cam.1)
}

/// Whether an `i32` can hold `v`.
pub open spec fn fits(v: int) -> bool {
    i32::MIN <= v <= i32::MAX
}

/// How a tile is drawn in its 8 by 8 pixel square.
pub enum TileLook {
    /// Filled with one colour.
    Solid(u8, u8, u8),
    /// Filled white, with a square of the colour inset by two pixels.
    Framed(u8, u8, u8),
    /// Filled white, with the sprite at `(x, y)` of the sprite sheet on top.
    Glyph(i32, i32),
    /// Only the sprite at `(x, y)` of the sprite sheet.
    Sprite(i32, i32),
}

/// Where the sprite for byte `t` lies in the sprite sheet: sixteen 8 by 8
/// sprites per row.
pub open spec fn glyph_source(t: u8) -> (i32, i32) {
    (((t % 16) * 8) as i32, ((t / 16) * 8) as i32)
}

/// The sprite position for byte `t`: see `glyph_source`.
pub fn glyph_origin(t: u8) -> (r: (i32, i32))
    ensures
        r == glyph_source(t),
{
    assert(((t & 15u8) << 3u8) == (t % 16) * 8) by (bit_vector);
    assert(((t >> 4u8) << 3u8) == (t / 16) * 8) by (bit_vector);
    (((t & 15) << 3) as i32, ((t >> 4) << 3) as i32)
}

/// The colours of the solid tiles `0x80..=0x88`: white, red, orange,
/// yellow, green, teal, blue, purple, grey.
pub open spec fn solid_colour(i: int) -> (u8, u8, u8) {
    let r = seq![255u8, 255, 255, 238, 0, 0, 0, 204, 170];
    let g = seq![255u8, 0, 170, 238, 204, 204, 0, 0, 170];
    let b = seq![255u8, 0, 0, 0, 0, 204, 255, 204, 170];
    (r[i], g[i], b[i])
}

/// The inner colours of the framed tiles `0x89..=0x90`.
pub open spec fn framed_colour(i: int) -> (u8, u8, u8) {
    let r = seq![255u8, 255, 255, 170, 170, 170, 255, 238];
    let g = seq![170u8, 238, 255, 255, 255, 170, 170, 238];
    let b = seq![170u8, 170, 170, 170, 255, 255, 255, 238];
    (r[i], g[i], b[i])
}

/// How tile `t` is drawn.
pub open spec fn tile_look_spec(t: u8) -> TileLook {
    if 0x80 <= t <= 0x88 {
        let c = solid_colour(t - 0x80);
        TileLook::Solid(c.0, c.1, c.2)
    } else if 0x89 <= t <= 0x90 {
        let c = framed_colour(t - 0x89);
        TileLook::Framed(c.0, c.1, c.2)
    } else if (0x21 <= t <= 0x7e) || (0x91 <= t <= 0x94) {
        TileLook::Glyph(glyph_source(t).0, glyph_source(t).1)
    } else if t == 0x95 || t == 0x96 {
        TileLook::Sprite(glyph_source(t).0, glyph_source(t).1)
    } else {
        TileLook::Solid(51, 51, 51)
    }
}

/// Tiles drawn from the sprite sheet take the square of the sheet that
/// holds their byte, at column `t % 16` and row `t / 16`, 8 pixels each: the
/// sprite tiles `0x95` and `0x96` alone, the glyph tiles `0x21..=0x7e` and
/// `0x91..=0x94` on white. Only tiles of no known kind are drawn as the
/// dark grey square.
pub proof fn lemma_sheet_tiles(t: u8)
    ensures
        t == 0x95 || t == 0x96 ==> tile_look_spec(t) == TileLook::Sprite(((t % 16) * 8) as i32, ((t / 16) * 8) as i32),
        (0x21 <= t <= 0x7e) || (0x91 <= t <= 0x94) ==> tile_look_spec(t) == TileLook::Glyph(
            ((t % 16) * 8) as i32,
            ((t / 16) * 8) as i32,
        ),
        tile_look_spec(t) == TileLook::Solid(51, 51, 51) ==> t < 0x21 || (0x7e < t < 0x80) || t > 0x96,
{
}

/// How tile `t` is drawn: see `tile_look_spec`.
pub fn tile_look(t: u8) -> (l: TileLook)
    ensures
        l == tile_look_spec(t),
{
    if t >= 0x80 && t <= 0x88 {
        let i = t - 0x80;
        let (r, g, b) = if i == 0 {
            (255, 255, 255)
        } else if i == 1 {
            (255, 0, 0)
        } else if i == 2 {
            (255, 170, 0)
        } else if i == 3 {
            (238, 238, 0)
        } else if i == 4 {
            (0, 204, 0)
        } else if i == 5 {
            (0, 204, 204)
        } else if i == 6 {
            (0, 0, 255)
        } else if i == 7 {
            (204, 0, 204)
        } else {
            (170, 170, 170)
        };
        TileLook::Solid(r, g, b)
    } else if t >= 0x89 && t <= 0x90 {
        let i = t - 0x89;
        let (r, g, b) = if i == 0 {
            (255, 170, 170)
        } else if i == 1 {
            (255, 238, 170)
        } else if i == 2 {
            (255, 255, 170)
        } else if i == 3 {
            (170, 255, 170)
        } else if i == 4 {
            (170, 255, 255)
        } else if i == 5 {
            (170, 170, 255)
        } else if i == 6 {
            (255, 170, 255)
        } else {
            (238, 238, 238)
        };
        TileLook::Framed(r, g, b)
    } else if (t >= 0x21 && t <= 0x7e) || (t >= 0x91 && t <= 0x94) {
        let (x, y) = glyph_origin(t);
        TileLook::Glyph(x, y)
    } else if t == 0x95 || t == 0x96 {
        let (x, y) = glyph_origin(t);
        TileLook::Sprite(x, y)
    } else {
        TileLook::Solid(51, 51, 51)
    }
}

/// The world rectangle the screen shows, `x0..x2` by `y0..y2`, for a window
/// of `ww` by `wh` pixels centred on `cam`.
pub open spec fn view_bounds_spec(cam: (i32, i32), ww: i32, wh: i32) -> (int, int, int, int) {
    let hx = trunc_div(trunc_div(ww as int, 2), 8);
    let hy = trunc_div(trunc_div(wh as int, 2), 8);
    (cam.0 - hx, cam.0 + hx, cam.1 - hy, cam.1 + hy)
}

/// The world rectangle the screen shows: see `view_bounds_spec`.
pub fn view_bounds(cam: &(i32, i32), ww: i32, wh: i32) -> (b: (i32, i32, i32, i32))
    requires
        fits(view_bounds_spec(*cam, ww, wh).0),
        fits(view_bounds_spec(*cam, ww, wh).1),
        fits(view_bounds_spec(*cam, ww, wh).2),
        fits(view_bounds_spec(*cam, ww, wh).3),
    ensures
        (b.0 as int, b.1 as int, b.2 as int, b.3 as int) == view_bounds_spec(*cam, ww, wh),
{
    let s = TILE_PIXELS;
    (cam.0 - ww / 2 / s, cam.0 + ww / 2 / s, cam.1 - wh / 2 / s, cam.1 + wh / 2 / s)
}

/// One tile to draw: its top left pixel on the screen and its look.
pub struct TileDraw {
    pub screen_x: i32,
    pub screen_y: i32,
    pub look: TileLook,
}

/// The tiles of the world rectangle `x0..x2` by `y0..y2`, column by column:
/// the `k`-th is the tile at `(x0 + k / h, y0 + k % h)`, where `h` is the
/// height of the rectangle, drawn at eight pixels per tile from the
/// rectangle's corner.
pub open spec fn tile_draw_at(m: Map<(int, int), Seq<u8>>, x0: int, y0: int, h: int, k: int) -> TileDraw {
    let x = x0 + k / h;
    let y = y0 + k % h;
    TileDraw {
        screen_x: ((x - x0) * 8) as i32,
        screen_y: ((y - y0) * 8) as i32,
        look: tile_look_spec(tile_in(m, x, y)),
    }
}

/// Where on the screen the sprite of a player or enemy at `(px, py)` goes,
/// when the view starts at `(x0, y0)`: one tile of `TILE_PIXELS` per cell.
pub fn sprite_origin(px: i32, py: i32, x0: i32, y0: i32) -> (r: (i32, i32))
    requires
        fits((px - x0) * TILE_PIXELS),
        fits((py - y0) * TILE_PIXELS),
    ensures
        r.0 == (px - x0) * TILE_PIXELS,
        r.1 == (py - y0) * TILE_PIXELS,
{
    let dx = px as i64 - x0 as i64;
    let dy = py as i64 - y0 as i64;
    ((dx * 8) as i32, (dy * 8) as i32)
}

/// The tiles to draw for the world rectangle `x0..x2` by `y0..y2`: see
/// `tile_draw_at`. An empty rectangle draws nothing.
pub fn world_tile_draws(world_tiles: &WorldTiles, x0: i32, x2: i32, y0: i32, y2: i32) -> (d: Vec<TileDraw>)
    requires
        world_tiles.inv(),
        x2 - x0 <= 0x0fff_ffff,
        y2 - y0 <= 0x0fff_ffff,
        x0 < x2 && y0 < y2 ==> (x2 - x0) * (y2 - y0) <= usize::MAX,
    ensures
        x0 < x2 && y0 < y2 ==> d@.len() == (x2 - x0) * (y2 - y0),
        !(x0 < x2 && y0 < y2) ==> d@.len() == 0,
        forall|k: int| 0 <= k < d@.len() ==> #[trigger] d@[k] == tile_draw_at(world_tiles@, x0 as int, y0 as int, (y2 - y0) as int, k),
{
    let mut d: Vec<TileDraw> = Vec::new();
    if !(x0 < x2 && y0 < y2) {
        return d;
    }
    let ghost h = (y2 - y0) as int;
    let mut x = x0;
    while x < x2
        invariant
            world_tiles.inv(),
            x0 < x2 && y0 < y2,
            h == y2 - y0,
            x2 - x0 <= 0x0fff_ffff,
            y2 - y0 <= 0x0fff_ffff,
            x0 <= x <= x2,
            d@.len() == (x - x0) * h,
            forall|k: int| 0 <= k < d@.len() ==> #[trigger] d@[k] == tile_draw_at(world_tiles@, x0 as int, y0 as int, h, k),
        decreases x2 - x,
    {
        let mut y = y0;
        while y < y2
            invariant
                world_tiles.inv(),
                x0 <= x < x2,
                y0 <= y <= y2,
                h == y2 - y0,
                h > 0,
                x2 - x0 <= 0x0fff_ffff,
                y2 - y0 <= 0x0fff_ffff,
                d@.len() == (x - x0) * h + (y - y0),
                forall|k: int| 0 <= k < d@.len() ==> #[trigger] d@[k] == tile_draw_at(world_tiles@, x0 as int, y0 as int, h, k),
            decreases y2 - y,
        {
            let ghost k = d@.len() as int;
            proof {
                let a = (x - x0) as int;
                let b = (y - y0) as int;
                assert(k / h == a && k % h == b) by (nonlinear_arith)
                    requires
                        k == a * h + b,
                        0 <= b < h,
                        a >= 0,
                ;
            }
            let tile = world_tiles.get_tile_at(x, y);
            d.push(TileDraw { screen_x: (x - x0) * TILE_PIXELS, screen_y: (y - y0) * TILE_PIXELS, look: tile_look(tile) });
            y = y + 1;
        }
        proof {
            assert((x - x0 + 1) * h == (x - x0) * h + h) by (nonlinear_arith);
        }
        x = x + 1;
    }
    d
}

/// The colour of a player's status box for `health` from 1 to 5: red for 1
/// and 2, then yellow, green, and light blue.
pub open spec fn health_colour(health: u8) -> (u8, u8, u8) {
    let r = seq![255u8, 255, 255, 0, 0];
    let g = seq![0u8, 0, 255, 255, 170];
    let b = seq![0u8, 0, 0, 0, 255];
    (r[health - 1], g[health - 1], b[health - 1])
}

/// The colour of a player's status box: see `health_colour`.
pub fn statbox_colour(health: u8) -> (c: (u8, u8, u8))
    requires
        1 <= health <= 5,
    ensures
        c == health_colour(health),
{
    if health == 1 {
        (255, 0, 0)
    } else if health == 2 {
        (255, 0, 0)
    } else if health == 3 {
        (255, 255, 0)
    } else if health == 4 {
        (0, 255, 0)
    } else {
        (0, 170, 255)
    }
}

/// The play mode chosen by a right click at `(x, y)` in a window of `ww` by
/// `wh` pixels: boring toward the side of the window's centre the click
/// lies on, split by the two diagonals: 1 up, 2 right, 3 down, 4 left.
pub open spec fn click_mode(x: i32, y: i32, ww: i32, wh: i32) -> u8 {
    let rx = x - trunc_div(ww as int, 2);
    let ry = y - trunc_div(wh as int, 2);
    let below_main = ry > rx;
    let below_anti = ry > -rx;
    if !below_main && !below_anti {
        1
    } else if !below_main && below_anti {
        2
    } else if below_main && below_anti {
        3
    } else {
        4
    }
}

/// The play mode chosen by a right click: see `click_mode`.
pub fn click_play_mode(x: i32, y: i32, ww: i32, wh: i32) -> (m: u8)
    requires
        i32::MIN < x - trunc_div(ww as int, 2) <= i32::MAX,
        fits(y - trunc_div(wh as int, 2)),
    ensures
        m == click_mode(x, y, ww, wh),
{
    let rx = x - ww / 2;
    let ry = y - wh / 2;
    let a: u8 = if ry > rx { 1 } else { 0 };
    let b: u8 = if ry > -rx { 1 } else { 0 };
    let a3: u8 = a * 3;
    let m: u8 = a3 ^ b;
    assert(m == (if a3 == 0 && b == 0 {
        0u8
    } else if a3 == 0 {
        1u8
    } else if b == 1 {
        2u8
    } else {
        3u8
    })) by (bit_vector)
        requires
            a3 == 0 || a3 == 3,
            b <= 1,
            m == a3 ^ b,
    ;
    m + 1
}

/// One sprite to copy: from `(src_x, src_y)` in the sprite sheet to
/// `(dst_x, dst_y)` on the screen, 8 by 8 pixels.
pub struct SpriteDraw {
    pub src_x: i32,
    pub src_y: i32,
    pub dst_x: i32,
    pub dst_y: i32,
}

/// The sprites that write `text` with its top left corner at `(x, y)`: one
/// per byte, eight pixels apart.
pub open spec fn text_sprite(text: Seq<u8>, x: i32, y: i32, i: int) -> SpriteDraw {
    SpriteDraw {
        src_x: glyph_source(text[i]).0,
        src_y: glyph_source(text[i]).1,
        dst_x: (i * 8 + x) as i32,
        dst_y: y,
    }
}

/// The sprites that write `text` at `(x, y)`: see `text_sprite`. The text
/// sits on a white box `8 * text.len()` pixels wide and 8 high.
pub fn text_sprites(text: &[u8], x: i32, y: i32) -> (d: Vec<SpriteDraw>)
    requires
        text@.len() == 0 || (fits((text@.len() - 1) * 8) && fits((text@.len() - 1) * 8 + x)),
    ensures
        d@.len() == text@.len(),
        forall|i: int| 0 <= i < d@.len() ==> #[trigger] d@[i] == text_sprite(text@, x, y, i),
{
    let mut d: Vec<SpriteDraw> = Vec::new();
    let n = text.len();
    for i in 0..n
        invariant
            n == text@.len(),
            n == 0 || (fits((n - 1) * 8) && fits((n - 1) * 8 + x)),
            d@.len() == i,
            forall|j: int| 0 <= j < i ==> #[trigger] d@[j] == text_sprite(text@, x, y, j),
    {
        let (sx, sy) = glyph_origin(text[i]);
        d.push(SpriteDraw { src_x: sx, src_y: sy, dst_x: (i as i32) * TILE_PIXELS + x, dst_y: y });
    }
    d
}

/// Two numbers in decimal, separated by a space.
pub fn pair_label(a: i32, b: i32) -> (s: String)
    ensures
        s@ == signed_decimal(a as int) + seq![' '] + signed_decimal(b as int),
{
    let mut s = String::new();
    push_signed(&mut s, a as i64);
    proof {
        reveal_strlit(" ");
    }
    s.append(" ");
    push_signed(&mut s, b as i64);
    assert(s@ =~= signed_decimal(a as int) + seq![' '] + signed_decimal(b as int));
    s
}

/// A player's health and position in decimal, separated by spaces.
pub fn status_label(health: u8, x: i32, y: i32) -> (s: String)
    ensures
        s@ == decimal(health as nat) + seq![' '] + signed_decimal(x as int) + seq![' '] + signed_decimal(y as int),
{
    let mut s = String::new();
    push_unsigned(&mut s, health as u64);
    proof {
        reveal_strlit(" ");
    }
    s.append(" ");
    push_signed(&mut s, x as i64);
    s.append(" ");
    push_signed(&mut s, y as i64);
    assert(s@ =~= decimal(health as nat) + seq![' '] + signed_decimal(x as int) + seq![' '] + signed_decimal(y as int));
    s
}

} // verus!
