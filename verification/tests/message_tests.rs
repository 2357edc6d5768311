use crust::json::Json;
use crust::parse::parse_json;
use crust::player::Player;
use crust::world::WorldTiles;

fn num(v: i64) -> Json {
    Json::Number(v >= 0, v.unsigned_abs(), 0)
}

fn text(t: &str) -> Json {
    Json::Str(t.to_string())
}

fn obj(entries: Vec<(&str, Json)>) -> Json {
    Json::Object(entries.into_iter().map(|(k, v)| (k.to_string(), v)).collect())
}

fn pos(x: i64, y: i64) -> Json {
    obj(vec![("x", num(x)), ("y", num(y))])
}

fn same(a: &Json, b: &Json) -> bool {
    match (a, b) {
        (Json::Null, Json::Null) => true,
        (Json::Str(x), Json::Str(y)) => x == y,
        (Json::Number(p, m, e), Json::Number(q, n, f)) => p == q && m == n && e == f,
        (Json::Boolean(x), Json::Boolean(y)) => x == y,
        (Json::Object(x), Json::Object(y)) => {
            x.len() == y.len() && x.iter().zip(y.iter()).all(|(u, v)| u.0 == v.0 && same(&u.1, &v.1))
        }
        (Json::Array(x), Json::Array(y)) => x.len() == y.len() && x.iter().zip(y.iter()).all(|(u, v)| same(u, v)),
        _ => false,
    }
}

fn message(cmds: Vec<Json>) -> Json {
    obj(vec![("commandList", Json::Array(cmds))])
}

#[test]
fn set_tiles_writes_square_and_searches() {
    let mut world = WorldTiles::new();
    let mut p = Player::new("a".to_string());
    let cmd = obj(vec![
        ("commandName", text("setTiles")),
        ("size", num(2)),
        ("pos", pos(10, 20)),
        ("tileList", Json::Array(vec![num(0x81), num(2), num(3), num(4)])),
    ]);
    let m = message(vec![cmd]);
    assert!(p.check_message(&m, &world));
    let chats = p.apply_message(&m, &mut world);
    assert_eq!(chats, vec![false]);
    assert_eq!(world.get_tile_at(10, 20), 0x81);
    assert_eq!(world.get_tile_at(11, 20), 2);
    assert_eq!(world.get_tile_at(10, 21), 3);
    assert_eq!(world.get_tile_at(11, 21), 4);
    assert_eq!(world.get_tile_at(12, 20), 1);
    assert_eq!(p.get_walk_relpos(0, 0), 0);
    assert_eq!(p.get_walk_relpos(10, 20), 254);
}

#[test]
fn player_commands() {
    let mut world = WorldTiles::new();
    let mut p = Player::new("a".to_string());
    let m = message(vec![
        obj(vec![("commandName", text("setLocalPlayerPos")), ("pos", pos(-5, 6))]),
        obj(vec![("commandName", text("addEntity")), ("entityInfo", obj(vec![("pos", pos(7, 8))]))]),
        obj(vec![("commandName", text("addEntity")), ("entityInfo", obj(vec![("pos", pos(-1, 0))]))]),
        obj(vec![("commandName", text("setStats")), ("health", num(3))]),
        obj(vec![("commandName", text("setLocalPlayerInfo")), ("username", text("bob"))]),
        obj(vec![("commandName", text("addChatMessage")), ("text", text("hi"))]),
        obj(vec![("commandName", text("somethingElse"))]),
    ]);
    assert!(p.check_message(&m, &world));
    let chats = p.apply_message(&m, &mut world);
    assert_eq!(chats, vec![false, false, false, false, false, true, false]);
    assert_eq!((p.x, p.y), (-5, 6));
    assert_eq!(p.enemies.len(), 2);
    assert_eq!((p.enemies[0].x, p.enemies[0].y), (7, 8));
    assert_eq!((p.enemies[1].x, p.enemies[1].y), (-1, 0));
    assert_eq!(p.health, 3);
    assert_eq!(p.user, "bob");
    let m = message(vec![obj(vec![("commandName", text("removeAllEntities"))])]);
    p.apply_message(&m, &mut world);
    assert!(p.enemies.is_empty());
}

#[test]
fn malformed_messages_are_refused() {
    let world = WorldTiles::new();
    let p = Player::new("a".to_string());
    let no_name = message(vec![obj(vec![("size", num(2))])]);
    assert!(!p.check_message(&no_name, &world));
    let bad_health = message(vec![obj(vec![("commandName", text("setStats")), ("health", num(300))])]);
    assert!(!p.check_message(&bad_health, &world));
    let exponent = message(vec![obj(vec![
        ("commandName", text("setLocalPlayerPos")),
        ("pos", obj(vec![("x", Json::Number(true, 5, 1)), ("y", num(0))])),
    ])]);
    assert!(!p.check_message(&exponent, &world));
    let short_list = message(vec![obj(vec![
        ("commandName", text("setTiles")),
        ("size", num(2)),
        ("pos", pos(0, 0)),
        ("tileList", Json::Array(vec![num(1), num(2), num(3)])),
    ])]);
    assert!(!p.check_message(&short_list, &world));
    let far = message(vec![obj(vec![("commandName", text("setLocalPlayerPos")), ("pos", pos(i32::MAX as i64, 0))])]);
    assert!(!p.check_message(&far, &world));
}

#[test]
fn message_without_command_list_does_nothing() {
    let mut world = WorldTiles::new();
    let mut p = Player::new("a".to_string());
    let m = obj(vec![("other", num(1))]);
    assert!(p.check_message(&m, &world));
    assert!(p.apply_message(&m, &mut world).is_empty());
    assert_eq!(p.check_message(&Json::Null, &world), true);
}

#[test]
fn json_lookups() {
    let v = obj(vec![("a", num(-7)), ("b", Json::Array(vec![text("s"), Json::Boolean(true)]))]);
    assert!(matches!(v.get(&"a".to_string()), Some(Json::Number(false, 7, 0))));
    assert!(v.get(&"c".to_string()).is_none());
    let b = v.get(&"b".to_string()).unwrap();
    assert!(matches!(b.at(1), Some(Json::Boolean(true))));
    assert!(b.at(2).is_none());
    assert_eq!(crust::json::json_as_i32(&num(-7)), Some(-7));
    assert_eq!(crust::json::json_as_i32(&num(1i64 << 40)), None);
    assert_eq!(crust::json::json_as_u8(&num(255)), Some(255));
    assert_eq!(crust::json::json_as_u8(&num(-1)), None);
    assert_eq!(crust::json::json_as_str(&text("x")).map(|s| s.as_str()), Some("x"));
}

#[test]
fn message_texts_are_parsed() {
    let parsed = parse_json("{\"commandList\":[{\"commandName\":\"setStats\",\"health\":4},{\"commandName\":\"x\",\"n\":-2.5}]}");
    let expected = message(vec![
        obj(vec![("commandName", text("setStats")), ("health", num(4))]),
        obj(vec![("commandName", text("x")), ("n", Json::Number(false, 25, -1))]),
    ]);
    assert!(same(parsed.as_ref().unwrap(), &expected));
    assert!(parse_json("{\"commandList\": [").is_none());
}

#[test]
fn message_text_handling() {
    let mut world = WorldTiles::new();
    let mut p = Player::new("a".to_string());
    let chats = p.handle_message(
        "{\"commandList\":[{\"commandName\":\"setLocalPlayerPos\",\"pos\":{\"x\":3,\"y\":-4}},{\"commandName\":\"addChatMessage\",\"text\":\"hi\"}]}",
        &mut world,
    );
    assert_eq!(chats, Ok(vec![false, true]));
    assert_eq!((p.x, p.y), (3, -4));
    assert_eq!(p.handle_message("not json", &mut world), Err(vec![]));
    assert_eq!(
        p.handle_message("{\"commandList\":[{\"commandName\":\"setStats\",\"health\":300}]}", &mut world),
        Err(vec![])
    );
    assert_eq!(p.health, 0);
    assert_eq!((p.x, p.y), (3, -4));
}

#[test]
fn earlier_commands_stay_carried_out() {
    let mut world = WorldTiles::new();
    let mut p = Player::new("a".to_string());
    let r = p.handle_message(
        "{\"commandList\":[{\"commandName\":\"addChatMessage\",\"text\":\"hi\"},{\"commandName\":\"setLocalPlayerPos\",\"pos\":{\"x\":7,\"y\":8}},{\"commandName\":\"setStats\",\"health\":-1},{\"commandName\":\"setStats\",\"health\":2}]}",
        &mut world,
    );
    assert_eq!(r, Err(vec![true, false]));
    assert_eq!((p.x, p.y), (7, 8));
    assert_eq!(p.health, 0);
}
