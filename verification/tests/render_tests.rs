use crust::render::{
    click_play_mode, glyph_origin, sprite_origin, mouse_to_world, pair_label, status_label, statbox_colour, text_sprites, tile_look,
    view_bounds, world_tile_draws, TileLook,
};
use crust::world::WorldTiles;

#[test]
fn mouse_positions() {
    assert_eq!(mouse_to_world(&(970, 480), &(0, 0), 1920, 960), (1, 0));
    assert_eq!(mouse_to_world(&(950, 470), &(0, 0), 1920, 960), (-2, -2));
    assert_eq!(mouse_to_world(&(950, 470), &(100, -5), 1920, 960), (98, -7));
    assert_eq!(mouse_to_world(&(0, 0), &(0, 0), 1920, 960), (-120, -60));
}

#[test]
fn tile_looks() {
    assert!(matches!(tile_look(0x80), TileLook::Solid(255, 255, 255)));
    assert!(matches!(tile_look(0x85), TileLook::Solid(0, 204, 204)));
    assert!(matches!(tile_look(0x88), TileLook::Solid(170, 170, 170)));
    assert!(matches!(tile_look(0x89), TileLook::Framed(255, 170, 170)));
    assert!(matches!(tile_look(0x90), TileLook::Framed(238, 238, 238)));
    assert!(matches!(tile_look(0x41), TileLook::Glyph(8, 32)));
    assert!(matches!(tile_look(0x93), TileLook::Glyph(24, 72)));
    assert!(matches!(tile_look(0x95), TileLook::Sprite(40, 72)));
    assert!(matches!(tile_look(0), TileLook::Solid(51, 51, 51)));
    assert!(matches!(tile_look(0x20), TileLook::Solid(51, 51, 51)));
    assert!(matches!(tile_look(0x97), TileLook::Solid(51, 51, 51)));
    assert_eq!(glyph_origin(0xa7), (56, 80));
}

#[test]
fn screen_rectangle() {
    assert_eq!(view_bounds(&(0, 0), 1920, 960), (-120, 120, -60, 60));
    assert_eq!(view_bounds(&(5, -5), 20, 20), (4, 6, -6, -4));
}

#[test]
fn tile_draw_list() {
    let mut w = WorldTiles::new();
    w.set_tile_at(1, 1, 0x81);
    let d = world_tile_draws(&w, 0, 2, 0, 3);
    assert_eq!(d.len(), 6);
    assert_eq!((d[4].screen_x, d[4].screen_y), (8, 8));
    assert!(matches!(d[4].look, TileLook::Solid(255, 0, 0)));
    assert_eq!((d[2].screen_x, d[2].screen_y), (0, 16));
    assert!(matches!(d[2].look, TileLook::Solid(51, 51, 51)));
    assert!(world_tile_draws(&w, 3, 3, 0, 3).is_empty());
}

#[test]
fn status_colours() {
    assert_eq!(statbox_colour(1), (255, 0, 0));
    assert_eq!(statbox_colour(3), (255, 255, 0));
    assert_eq!(statbox_colour(4), (0, 255, 0));
    assert_eq!(statbox_colour(5), (0, 170, 255));
}

#[test]
fn right_click_modes() {
    assert_eq!(click_play_mode(960, 200, 1920, 960), 1);
    assert_eq!(click_play_mode(1500, 480, 1920, 960), 2);
    assert_eq!(click_play_mode(960, 900, 1920, 960), 3);
    assert_eq!(click_play_mode(100, 480, 1920, 960), 4);
}

#[test]
fn text_layout_and_labels() {
    let d = text_sprites(b"A!", 4, 4);
    assert_eq!(d.len(), 2);
    assert_eq!((d[0].src_x, d[0].src_y, d[0].dst_x, d[0].dst_y), (8, 32, 4, 4));
    assert_eq!((d[1].src_x, d[1].src_y, d[1].dst_x, d[1].dst_y), (8, 16, 12, 4));
    assert!(text_sprites(b"", 0, 0).is_empty());
    assert_eq!(pair_label(-3, 7), "-3 7");
    assert_eq!(status_label(5, 10, -2), "5 10 -2");
}

#[test]
fn sprite_positions() {
    assert_eq!(sprite_origin(5, 7, 2, 10), (24, -24));
    assert_eq!(sprite_origin(-3, 0, -3, 0), (0, 0));
}
