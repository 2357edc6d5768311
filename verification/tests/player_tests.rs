use crust::player::{Enemy, Player};
use crust::world::WorldTiles;

fn ready_player(world: &mut WorldTiles) -> Player {
    let mut p = Player::new("tester".to_string());
    p.generate_pathing(world);
    p
}

#[test]
fn new_player_defaults() {
    let p = Player::new("ann".to_string());
    assert_eq!(p.user, "ann");
    assert_eq!((p.x, p.y, p.health, p.pindex), (0, 0, 0, 0));
    assert_eq!(p.dwalks_left, 64);
    assert_eq!(p.time_since_break, 64);
    assert_eq!(p.play_mode, 0);
    assert_eq!(p.walks_to.len(), 67 * 67);
    assert!(p.walks_to.iter().all(|v| *v == 255));
    assert!(p.comque.is_empty());
}

#[test]
fn search_distances_in_open_world() {
    let mut world = WorldTiles::new();
    let p = ready_player(&mut world);
    assert_eq!(p.get_walk_relpos(0, 0), 0);
    assert_eq!(p.get_walk_relpos(3, -4), 7);
    assert_eq!(p.get_walk_relpos(30, 0), 30);
    assert_eq!(p.get_walk_relpos(31, 0), 255);
    assert_eq!(p.get_walk_relpos(20, 20), 255);
    assert_eq!(p.get_walk_relpos(34, 0), 255);
}

#[test]
fn search_goes_around_walls() {
    let mut world = WorldTiles::new();
    world.set_tile_at(1, 0, 0x81);
    world.set_tile_at(0, -1, 0x95);
    let p = ready_player(&mut world);
    assert_eq!(p.get_walk_relpos(1, 0), 254);
    assert_eq!(p.get_walk_relpos(0, -1), 254);
    assert_eq!(p.get_walk_relpos(2, 0), 4);
    assert_eq!(p.get_walk_relpos(0, -2), 4);
}

#[test]
fn search_starts_on_an_unwalkable_cell() {
    let mut world = WorldTiles::new();
    world.set_tile_at(0, 0, 0x82);
    let p = ready_player(&mut world);
    assert_eq!(p.get_walk_relpos(0, 0), 0);
    assert_eq!(p.get_walk_relpos(1, 0), 1);
}

#[test]
fn set_walk_relpos_writes_cell() {
    let mut p = Player::new("a".to_string());
    p.set_walk_relpos(-33, -33, 7);
    p.set_walk_relpos(33, 33, 9);
    assert_eq!(p.walks_to[0], 7);
    assert_eq!(p.walks_to[67 * 67 - 1], 9);
    assert_eq!(p.get_walk_relpos(33, 33), 9);
}

#[test]
fn walks_found_last_step_first() {
    let mut world = WorldTiles::new();
    let mut p = Player::new("a".to_string());
    assert_eq!(p.get_walk_to(2, 0, &mut world), vec![1, 1]);
    assert_eq!(p.get_walk_to(0, -2, &mut world), vec![0, 0]);
    assert_eq!(p.get_walk_to(-1, 1, &mut world), vec![2, 3]);
    assert_eq!(p.get_walk_to(0, 0, &mut world), Vec::<u8>::new());
}

#[test]
fn try_walk_to_open_tile() {
    let mut world = WorldTiles::new();
    let mut p = Player::new("a".to_string());
    p.try_walk(2, 0, &mut world);
    assert_eq!((p.x, p.y), (2, 0));
    assert_eq!(p.dwalks_left, 60);
    assert_eq!(
        p.comque,
        vec![
            "{\"commandName\":\"walk\",\"direction\":1}",
            "{\"commandName\":\"walk\",\"direction\":1}",
            "{\"commandName\":\"assertPos\", \"pos\":{\"x\":0,\"y\":0}}",
            "{\"commandName\":\"getTiles\",\"size\":31}",
        ]
    );
}

#[test]
fn try_walk_digs_a_solid_target() {
    let mut world = WorldTiles::new();
    world.set_tile_at(2, 0, 0x81);
    let mut p = Player::new("a".to_string());
    p.try_walk(2, 0, &mut world);
    assert_eq!((p.x, p.y), (2, -1));
    assert_eq!(p.dwalks_left, 56);
    assert_eq!(
        p.comque,
        vec![
            "{\"commandName\":\"walk\",\"direction\":1}",
            "{\"commandName\":\"walk\",\"direction\":0}",
            "{\"commandName\":\"walk\",\"direction\":1}",
            "{\"commandName\":\"removeTile\",\"direction\":2}",
            "{\"commandName\":\"assertPos\", \"pos\":{\"x\":0,\"y\":0}}",
            "{\"commandName\":\"getTiles\",\"size\":31}",
        ]
    );
    // The world is only read.
    assert_eq!(world.get_tile_at(2, 0), 0x81);
}

#[test]
fn try_walk_without_budget_does_nothing() {
    let mut world = WorldTiles::new();
    let mut p = Player::new("a".to_string());
    p.dwalks_left = 3;
    p.try_walk(2, 0, &mut world);
    assert_eq!((p.x, p.y, p.dwalks_left), (0, 0, 3));
    assert!(p.comque.is_empty());
    p.dwalks_left = 64;
    p.try_walk(0, 0, &mut world);
    assert!(p.comque.is_empty());
}

#[test]
fn enemies_nearby() {
    let mut p = Player::new("a".to_string());
    assert!(!p.is_near_enemy(8));
    p.enemies.push(Enemy { x: 5, y: 5 });
    assert!(p.is_near_enemy(8));
    assert!(!p.is_near_enemy(5));
    p.enemies.push(Enemy { x: -4, y: 1 });
    assert!(p.is_near_enemy(5));
}

#[test]
fn try_step_blocked_and_open() {
    let mut world = WorldTiles::new();
    world.set_tile_at(1, 0, 0x96);
    let mut p = Player::new("a".to_string());
    assert!(!p.try_step(&mut world, 1, 1, 0));
    assert_eq!((p.x, p.y, p.dwalks_left), (0, 0, 64));
    assert!(p.comque.is_empty());
    assert!(p.try_step(&mut world, 2, 0, 1));
    assert_eq!((p.x, p.y, p.dwalks_left), (0, 1, 62));
    assert_eq!(p.comque, vec!["{\"commandName\":\"walk\",\"direction\":2}"]);
}

#[test]
fn boring_walks_until_budget_is_low() {
    let mut world = WorldTiles::new();
    let mut p = Player::new("a".to_string());
    p.play_mode = 2;
    p.game_step_bore(&mut world);
    assert_eq!((p.x, p.y), (8, 0));
    assert_eq!(p.dwalks_left, 48);
    assert_eq!(p.comque.len(), 8);
    assert!(p.comque.iter().all(|c| c == "{\"commandName\":\"walk\",\"direction\":1}"));
}

#[test]
fn boring_digs_a_solid_tile() {
    let mut world = WorldTiles::new();
    world.set_tile_at(0, 1, 0x84);
    let mut p = Player::new("a".to_string());
    p.play_mode = 3;
    p.game_step_bore(&mut world);
    assert_eq!(world.get_tile_at(0, 1), 2);
    assert_eq!(p.time_since_break, 0);
    assert_eq!((p.x, p.y, p.dwalks_left), (0, 0, 64));
    assert_eq!(p.comque, vec!["{\"commandName\":\"removeTile\",\"direction\":2}"]);
}

#[test]
fn boring_stops_at_blocking_tile() {
    let mut world = WorldTiles::new();
    world.set_tile_at(-3, 0, 0x95);
    let mut p = Player::new("a".to_string());
    p.play_mode = 4;
    p.game_step_bore(&mut world);
    assert_eq!((p.x, p.y, p.dwalks_left), (-2, 0, 60));
    assert_eq!(p.comque.len(), 2);
}

#[test]
fn boring_flees_enemies() {
    let mut world = WorldTiles::new();
    let mut p = Player::new("a".to_string());
    p.play_mode = 1;
    p.dwalks_left = 10;
    p.enemies.push(Enemy { x: 0, y: 0 });
    p.game_step_bore(&mut world);
    // Walks up while the enemy is within 8 tiles and budget lasts.
    assert_eq!((p.x, p.y, p.dwalks_left), (0, -4, 2));
    assert_eq!(p.comque.len(), 4);
}

#[test]
fn boring_waits_after_a_dig() {
    let mut world = WorldTiles::new();
    let mut p = Player::new("a".to_string());
    p.play_mode = 1;
    p.time_since_break = 17;
    p.game_step_bore(&mut world);
    assert_eq!((p.x, p.y, p.dwalks_left), (0, 0, 64));
    assert!(p.comque.is_empty());
    p.time_since_break = 18;
    p.dwalks_left = 40;
    p.game_step_bore(&mut world);
    assert_eq!((p.x, p.y, p.dwalks_left), (0, -1, 38));
    assert_eq!(p.comque.len(), 1);
}

#[test]
fn local_step_counters() {
    let mut world = WorldTiles::new();
    let mut p = Player::new("a".to_string());
    p.dwalks_left = 60;
    p.time_since_break = 3;
    p.game_step_local(&mut world);
    assert_eq!((p.dwalks_left, p.time_since_break), (61, 4));
    p.dwalks_left = 64;
    p.time_since_break = 64;
    p.game_step_local(&mut world);
    assert_eq!((p.dwalks_left, p.time_since_break), (64, 64));
    p.play_mode = 2;
    p.game_step_local(&mut world);
    assert_eq!((p.x, p.dwalks_left), (8, 49));
}

#[test]
fn bore_checks() {
    let world = WorldTiles::new();
    let mut p = Player::new("a".to_string());
    p.play_mode = 2;
    assert!(p.bore_ok(&world));
    p.play_mode = 5;
    assert!(!p.bore_ok(&world));
    p.time_since_break = 10;
    assert!(p.bore_ok(&world));
    p.play_mode = 1;
    p.time_since_break = 18;
    p.dwalks_left = 1;
    assert!(!p.bore_ok(&world));
    p.dwalks_left = 64;
    p.y = i32::MIN + 3;
    assert!(!p.bore_ok(&world));
    p.play_mode = 2;
    p.y = 0;
    p.x = i32::MAX - 5;
    assert!(!p.bore_ok(&world));
    p.x = 0;
    p.dwalks_left = 10;
    p.enemies.push(Enemy { x: i32::MIN, y: 0 });
    assert!(!p.bore_ok(&world));
    p.enemies[0] = Enemy { x: 1 << 30, y: 0 };
    assert!(p.bore_ok(&world));
}

#[test]
fn try_walk_margins() {
    let mut p = Player::new("a".to_string());
    assert!(p.can_try_walk(3, -4));
    assert!(!p.can_try_walk(i32::MIN + 1, 0));
    assert!(!p.can_try_walk(0, i32::MAX));
    p.x = i32::MAX - 35;
    assert!(p.can_try_walk(0, 0));
    p.x = i32::MAX - 34;
    assert!(!p.can_try_walk(0, 0));
    p.x = 0;
    p.y = i32::MIN + 34;
    assert!(!p.can_try_walk(0, 0));
}

#[test]
fn search_repeats_with_same_tiles() {
    let mut world = WorldTiles::new();
    world.set_tile_at(2, 0, 0x81);
    let mut p = ready_player(&mut world);
    let first = p.walks_to.clone();
    world.set_tile_at(1000, 1000, 1);
    p.generate_pathing(&mut world);
    assert_eq!(p.walks_to, first);
    p.generate_pathing(&mut world);
    assert_eq!(p.walks_to, first);
}
