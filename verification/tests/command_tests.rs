use crust::commands::{
    add_chat_message, assert_pos, command_batch, get_entities, get_stats, get_tiles, initial_commands,
    place_green_tile, remove_tile, start_playing, walk,
};
use crust::control::{
    camera_after_key, camera_after_step, left_click_action, place_key, queue_periodic, CameraKey, ClickAction, PlaceKey,
};
use crust::decimal::{push_signed, push_unsigned};

#[test]
fn fixed_commands() {
    let mut v: Vec<String> = Vec::new();
    get_entities(&mut v);
    start_playing(&mut v);
    assert_pos(&mut v);
    get_stats(&mut v);
    get_tiles(&mut v);
    assert_eq!(
        v,
        vec![
            "{\"commandName\": \"getEntities\"}",
            "{\"commandName\": \"startPlaying\"}",
            "{\"commandName\":\"assertPos\", \"pos\":{\"x\":0,\"y\":0}}",
            "{\"commandName\":\"getStats\"}",
            "{\"commandName\":\"getTiles\",\"size\":31}",
        ]
    );
}

#[test]
fn commands_with_a_direction() {
    let mut v: Vec<String> = Vec::new();
    walk(&mut v, 3);
    remove_tile(&mut v, 0);
    place_green_tile(&mut v, 2);
    walk(&mut v, 255);
    assert_eq!(v[0], "{\"commandName\":\"walk\",\"direction\":3}");
    assert_eq!(v[1], "{\"commandName\":\"removeTile\",\"direction\":0}");
    assert_eq!(v[2], "{\"commandName\":\"removeTile\",\"direction\":2,\"tile\":132}");
    assert_eq!(v[3], "{\"commandName\":\"walk\",\"direction\":255}");
}

#[test]
fn chat_message_text() {
    let mut v: Vec<String> = vec!["x".to_string()];
    add_chat_message(&mut v, "hello there".to_string());
    assert_eq!(v.len(), 2);
    assert_eq!(v[0], "x");
    assert_eq!(v[1], "{\"commandName\":\"addChatMessage\",\"text\":\"hello there\"}");
}

#[test]
fn initial_commands_in_order() {
    let mut v: Vec<String> = Vec::new();
    initial_commands(&mut v);
    let mut w: Vec<String> = Vec::new();
    start_playing(&mut w);
    assert_pos(&mut w);
    get_tiles(&mut w);
    assert_eq!(v, w);
}

#[test]
fn batch_of_commands() {
    let empty: Vec<String> = Vec::new();
    assert_eq!(command_batch(&empty), None);
    let one = vec!["{\"a\":1}".to_string()];
    assert_eq!(command_batch(&one), Some("[{\"a\":1}]".to_string()));
    let three = vec!["1".to_string(), "".to_string(), "3".to_string()];
    assert_eq!(command_batch(&three), Some("[1,,3]".to_string()));
}

#[test]
fn decimal_text() {
    let mut s = String::from("n=");
    push_unsigned(&mut s, 0);
    assert_eq!(s, "n=0");
    let mut s = String::new();
    push_unsigned(&mut s, u64::MAX);
    assert_eq!(s, "18446744073709551615");
    let mut s = String::new();
    push_signed(&mut s, -120);
    assert_eq!(s, "-120");
    let mut s = String::new();
    push_signed(&mut s, i64::MIN + 1);
    assert_eq!(s, (i64::MIN + 1).to_string());
    let mut s = String::new();
    push_signed(&mut s, i64::MIN);
    assert_eq!(s, "-9223372036854775808");
}

#[test]
fn periodic_commands() {
    let mut v: Vec<String> = Vec::new();
    queue_periodic(&mut v, 0);
    assert_eq!(v.len(), 4);
    assert_eq!(v[0], "{\"commandName\":\"assertPos\", \"pos\":{\"x\":0,\"y\":0}}");
    assert_eq!(v[1], "{\"commandName\":\"getStats\"}");
    assert_eq!(v[2], "{\"commandName\":\"getTiles\",\"size\":31}");
    assert_eq!(v[3], "{\"commandName\": \"getEntities\"}");
    let mut v: Vec<String> = Vec::new();
    queue_periodic(&mut v, 32);
    assert_eq!(v.len(), 2);
    assert_eq!(v[0], "{\"commandName\":\"getTiles\",\"size\":31}");
    let mut v: Vec<String> = Vec::new();
    queue_periodic(&mut v, 33);
    assert!(v.is_empty());
    queue_periodic(&mut v, 128);
    assert_eq!(v.len(), 4);
}

#[test]
fn camera_keys() {
    assert_eq!(camera_after_key((3, 4), CameraKey::Left), ((-5, 4), false));
    assert_eq!(camera_after_key((3, 4), CameraKey::Right), ((11, 4), false));
    assert_eq!(camera_after_key((3, 4), CameraKey::Up), ((3, -4), false));
    assert_eq!(camera_after_key((3, 4), CameraKey::Down), ((3, 12), false));
    assert_eq!(camera_after_key((3, 4), CameraKey::Reset), ((0, 0), false));
    assert_eq!(camera_after_key((3, 4), CameraKey::Track), ((3, 4), true));
}

#[test]
fn camera_follows_first_player() {
    assert_eq!(camera_after_step((1, 2), true, (30, -40)), (30, -40));
    assert_eq!(camera_after_step((1, 2), false, (30, -40)), (1, 2));
}

#[test]
fn left_clicks() {
    assert!(matches!(left_click_action(3, (10, 10), 0, 0), ClickAction::LeaveMode));
    assert!(matches!(left_click_action(0, (10, -7), 4, 5), ClickAction::WalkBy(6, -12)));
}

#[test]
fn place_keys() {
    let mut v = Vec::new();
    place_key(&mut v, PlaceKey::Up);
    place_key(&mut v, PlaceKey::Right);
    place_key(&mut v, PlaceKey::Down);
    place_key(&mut v, PlaceKey::Left);
    assert_eq!(
        v,
        vec![
            "{\"commandName\":\"removeTile\",\"direction\":0,\"tile\":132}",
            "{\"commandName\":\"removeTile\",\"direction\":1,\"tile\":132}",
            "{\"commandName\":\"removeTile\",\"direction\":2,\"tile\":132}",
            "{\"commandName\":\"removeTile\",\"direction\":3,\"tile\":132}",
        ]
    );
}
