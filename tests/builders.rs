use mappy::builders::RoomBuilder;
use mappy::TileMap;

#[test]
fn test_runs() {
    let mut map: TileMap<char> = TileMap::new("map", 50, 50, &|_| '#');
    let floor = |_: (usize, usize)| '.';
    let wall = |_: (usize, usize)| '#';
    let mut builder = RoomBuilder::new(&mut map, &floor, &wall);

    builder.create(7, 4, 10).unwrap();
}

#[test]
fn builder_rejects_bad_sizes_and_leaves_map_alone() {
    let mut map: TileMap<char> = TileMap::new("map", 20, 20, &|_| '#');
    let floor = |_: (usize, usize)| '.';
    let wall = |_: (usize, usize)| '#';
    {
        let mut builder = RoomBuilder::new(&mut map, &floor, &wall);
        assert_eq!(builder.create(5, 2, 6), Err("min_size too small (must be >3".to_string()));
        assert_eq!(builder.create(5, 3, 21), Err("max_size too large".to_string()));
    }
    assert!(map.rooms.is_empty());
    assert!(map.tiles.iter().all(|c| *c == '#'));
}

#[test]
fn builder_rooms_are_apart_and_floored() {
    let mut map: TileMap<char> = TileMap::new("map", 40, 30, &|_| ' ');
    let floor = |_: (usize, usize)| '.';
    let wall = |_: (usize, usize)| '#';
    {
        let mut builder = RoomBuilder::new(&mut map, &floor, &wall);
        builder.create(10, 3, 8).unwrap();
    }
    assert!(!map.rooms.is_empty());
    assert!(map.rooms.len() <= 10);
    for (i, a) in map.rooms.iter().enumerate() {
        assert!(a.lrc.0 + 1 < 40 && a.lrc.1 + 1 < 30);
        let w = a.lrc.0 - a.ulc.0;
        let h = a.lrc.1 - a.ulc.1;
        assert!((3..8).contains(&w) && (3..8).contains(&h));
        for (j, b) in map.rooms.iter().enumerate() {
            if i != j {
                assert!(!a.intersect(b));
            }
        }
        for y in a.ulc.1 + 1..a.lrc.1 {
            for x in a.ulc.0 + 1..a.lrc.0 {
                assert_eq!(map.get(&(x, y)), Some(&'.'));
            }
        }
    }
}
