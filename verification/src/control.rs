//! The client's main loop decisions: the camera keys and the commands each
//! player queues on a schedule.
use vstd::prelude::*;
use crate::commands::{
    texts, place_green_tile, place_green_tile_text, assert_pos, get_stats, get_tiles, get_entities, assert_pos_text, get_stats_text, get_tiles_text,
    get_entities_text,
};

verus! {

/// The keys that move the camera.
pub enum CameraKey {
    /// Follow the first player again.
    Track,
    /// Eight tiles left.
    Left,
    /// Eight tiles down.
    Down,
    /// Eight tiles up.
    Up,
    /// Eight tiles right.
    Right,
    /// Back to the origin.
    Reset,
}

/// The camera after `key`: where it looks and whether it follows the first
/// player. Any key but `Track` stops the following.
pub open spec fn camera_key_spec(cam: (i32, i32), key: CameraKey) -> ((int, int), bool) {
    match key {
        CameraKey::Track => ((cam.0 as int, cam.1 as int), true),
        CameraKey::Left => ((cam.0 - 8, cam.1 as int), false),
        CameraKey::Down => ((cam.0 as int, cam.1 + 8), false),
        CameraKey::Up => ((cam.0 as int, cam.1 - 8), false),
        CameraKey::Right => ((cam.0 + 8, cam.1 as int), false),
        CameraKey::Reset => ((0, 0), false),
    }
}

/// The camera after `key`: see `camera_key_spec`.
pub fn camera_after_key(cam: (i32, i32), key: CameraKey) -> (r: ((i32, i32), bool))
    requires
        i32::MIN <= camera_key_spec(cam, key).0.0 <= i32::MAX,
        i32::MIN <= camera_key_spec(cam, key).0.1 <= i32::MAX,
    ensures
        ((r.0.0 as int, r.0.1 as int), r.1) == camera_key_spec(cam, key),
{
    match key {
        CameraKey::Track => (cam, true),
        CameraKey::Left => ((cam.0 - 8, cam.1), false),
        CameraKey::Down => ((cam.0, cam.1 + 8), false),
        CameraKey::Up => ((cam.0, cam.1 - 8), false),
        CameraKey::Right => ((cam.0 + 8, cam.1), false),
        CameraKey::Reset => ((0, 0), false),
    }
}

/// The camera after a time step: on the first player, at `lead`, while it
/// follows that player; where it was otherwise.
pub fn camera_after_step(cam: (i32, i32), tracks: bool, lead: (i32, i32)) -> (r: (i32, i32))
    ensures
        r == (if tracks {
            lead
        } else {
            cam
        }),
{
    if tracks {
        lead
    } else {
        cam
    }
}

/// What a left click does.
pub enum ClickAction {
    /// Leave the current play mode for manual control.
    LeaveMode,
    /// Walk by this offset from the player, to the clicked cell.
    WalkBy(i32, i32),
}

/// The action of a left click on the world cell `target` for a player at
/// `(px, py)` in play mode `play_mode`: leave any play mode but manual
/// control; under manual control, walk to the clicked cell.
pub fn left_click_action(play_mode: u8, target: (i32, i32), px: i32, py: i32) -> (a: ClickAction)
    requires
        play_mode == 0 ==> i32::MIN <= target.0 - px <= i32::MAX,
        play_mode == 0 ==> i32::MIN <= target.1 - py <= i32::MAX,
    ensures
        play_mode != 0 ==> a == ClickAction::LeaveMode,
        play_mode == 0 ==> a == ClickAction::WalkBy((target.0 - px) as i32, (target.1 - py) as i32),
{
    if play_mode != 0 {
        ClickAction::LeaveMode
    } else {
        ClickAction::WalkBy(target.0 - px, target.1 - py)
    }
}

/// The keys that place a green tile next to the player.
pub enum PlaceKey {
    /// Above the player (key W).
    Up,
    /// Right of the player (key D).
    Right,
    /// Below the player (key S).
    Down,
    /// Left of the player (key A).
    Left,
}

/// The direction a key places a tile in: 0 up, 1 right, 2 down, 3 left.
pub open spec fn place_dir(key: PlaceKey) -> u8 {
    match key {
        PlaceKey::Up => 0,
        PlaceKey::Right => 1,
        PlaceKey::Down => 2,
        PlaceKey::Left => 3,
    }
}

/// Queues the command that places a green tile in the key's direction.
pub fn place_key(command_vec: &mut Vec<String>, key: PlaceKey)
    ensures
        texts(final(command_vec)@) == texts(old(command_vec)@).push(place_green_tile_text(place_dir(key))),
{
    let dir: u8 = match key {
        PlaceKey::Up => 0,
        PlaceKey::Right => 1,
        PlaceKey::Down => 2,
        PlaceKey::Left => 3,
    };
    place_green_tile(command_vec, dir);
}

/// The commands a player queues on time step `i`: a position check and a
/// request for statistics every 64 steps, a request for tiles and one for
/// entities every 32 steps.
pub open spec fn periodic_texts(i: int) -> Seq<Seq<char>> {
    (if i % 64 == 0 {
        seq![assert_pos_text(), get_stats_text()]
    } else {
        Seq::empty()
    }) + (if i % 32 == 0 {
        seq![get_tiles_text(), get_entities_text()]
    } else {
        Seq::empty()
    })
}

/// Queues the commands of time step `i`: see `periodic_texts`.
pub fn queue_periodic(command_vec: &mut Vec<String>, i: i32)
    ensures
        texts(final(command_vec)@) == texts(old(command_vec)@) + periodic_texts(i as int),
{
    let ghost base = texts(command_vec@);
    if i % 64 == 0 {
        assert_pos(command_vec);
        get_stats(command_vec);
    }
    if i % 32 == 0 {
        get_tiles(command_vec);
        get_entities(command_vec);
    }
    assert(texts(command_vec@) =~= base + periodic_texts(i as int));
}

} // verus!
