use crust::world::{Chunk, WorldTiles, FILE_BYTES};

#[test]
fn unloaded_tiles_read_as_default() {
    let w = WorldTiles::new();
    assert_eq!(w.get_tile_at(0, 0), 1);
    assert_eq!(w.get_tile_at(-5000, 77), 1);
    assert_eq!(w.get_tile_at(i32::MIN, i32::MAX), 1);
}

#[test]
fn set_then_get_gives_tile() {
    let mut w = WorldTiles::new();
    w.set_tile_at(5, 7, 0x83);
    assert_eq!(w.get_tile_at(5, 7), 0x83);
    // The rest of the new chunk is blank.
    assert_eq!(w.get_tile_at(6, 7), 1);
    assert_eq!(w.get_tile_at(5, 8), 1);
}

#[test]
fn set_leaves_other_positions() {
    let mut w = WorldTiles::new();
    w.set_tile_at(0, 0, 9);
    w.set_tile_at(127, 127, 10);
    w.set_tile_at(128, 0, 11);
    w.set_tile_at(-1, -1, 12);
    w.set_tile_at(-128, -128, 13);
    w.set_tile_at(-129, 0, 14);
    assert_eq!(w.get_tile_at(0, 0), 9);
    assert_eq!(w.get_tile_at(127, 127), 10);
    assert_eq!(w.get_tile_at(128, 0), 11);
    assert_eq!(w.get_tile_at(-1, -1), 12);
    assert_eq!(w.get_tile_at(-128, -128), 13);
    assert_eq!(w.get_tile_at(-129, 0), 14);
    w.set_tile_at(0, 0, 2);
    assert_eq!(w.get_tile_at(0, 0), 2);
    assert_eq!(w.get_tile_at(127, 127), 10);
}

#[test]
fn extreme_coordinates() {
    let mut w = WorldTiles::new();
    w.set_tile_at(i32::MAX, i32::MIN, 0x90);
    assert_eq!(w.get_tile_at(i32::MAX, i32::MIN), 0x90);
    assert_eq!(w.get_tile_at(i32::MAX - 1, i32::MIN), 1);
}

#[test]
fn chunk_file_round_trip() {
    let c = Chunk::new_empty(-128, 256);
    let bytes = c.to_file_bytes();
    assert_eq!(bytes.len(), FILE_BYTES);
    assert!(bytes[..9].iter().all(|b| *b == 0));
    assert!(bytes[9..].iter().all(|b| *b == 1));
    let mut buf = bytes.clone();
    buf[9] = 0x85;
    buf[FILE_BYTES - 1] = 0x22;
    let d = Chunk::from_file_buffer(0, 0, &buf);
    let again = d.to_file_bytes();
    assert_eq!(again[9], 0x85);
    assert_eq!(again[FILE_BYTES - 1], 0x22);
    assert_eq!(again[10], 1);
}

#[test]
fn chunk_file_names() {
    assert_eq!(Chunk::new_empty(-128, 256).file_name(), "-128_256");
    assert_eq!(Chunk::new_empty(0, 0).file_name(), "0_0");
    assert_eq!(Chunk::new_empty(i32::MIN, i32::MAX).file_name(), "-2147483648_2147483647");
}

#[test]
fn writes_behave_as_total_map() {
    let mut w = WorldTiles::new();
    let writes: Vec<(i32, i32, u8)> = vec![
        (0, 0, 5),
        (127, 127, 6),
        (128, 0, 7),
        (-1, -1, 8),
        (0, 0, 9),
        (-129, 300, 10),
        (127, 127, 11),
    ];
    for (x, y, t) in &writes {
        w.set_tile_at(*x, *y, *t);
    }
    assert_eq!(w.get_tile_at(0, 0), 9);
    assert_eq!(w.get_tile_at(127, 127), 11);
    assert_eq!(w.get_tile_at(128, 0), 7);
    assert_eq!(w.get_tile_at(-1, -1), 8);
    assert_eq!(w.get_tile_at(-129, 300), 10);
    assert_eq!(w.get_tile_at(1, 0), 1);
    assert_eq!(w.get_tile_at(-128, 300), 1);
    assert_eq!(w.get_tile_at(5000, -5000), 1);
}
