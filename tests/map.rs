use std::collections::HashMap;

use mappy::map::generate_ascii_map;
use mappy::rectangle::Rectangle;
use mappy::TileMap;

#[test]
fn test_random_tile_loc() {
    //  +-+
    //  |.|
    //  +-+
    let mut map = TileMap::new("map", 3, 3, &|_| '.');
    let room = Rectangle::new(0, 0, 3, 3).unwrap();
    map.add_room(room);
    assert!(map.find_random_tile_loc(&|c: &char| *c == '.').is_ok());

    assert!(map.find_random_tile_loc(&|c: &char| *c != '.').is_err());
}

#[test]
fn test_is_valid_loc() {
    let width = 5;
    let map = TileMap::new("map", width, 10, &|_| '.');

    assert!(map.is_valid_loc(&(0, 0)));
    assert!(map.is_valid_loc(&(1, 0)));
    assert!(map.is_valid_loc(&(0, 1)));
    assert!(!map.is_valid_loc(&(6, 0)));
    assert!(!map.is_valid_loc(&(0, 10)));
}

#[test]
fn test_point_for() {
    let width = 5;
    let map = TileMap::new("map", width, 10, &|_| '.');

    assert_eq!(map.point_for(0), (0, 0));
    assert_eq!(map.point_for(1), (1, 0));
    assert_eq!(map.point_for(5), (0, 1));
}

#[test]
fn test_get_and_set() {
    let width = 5;
    let mut map = TileMap::new("map", width, 10, &|_| '.');

    let loc = (0, 0);
    assert_eq!(map.get(&loc).unwrap(), &'.');
    map.set(&loc, '=');
    assert_eq!(map.get(&loc).unwrap(), &'=');
}

#[test]
fn test_adjacent_ats() {
    let width = 5;
    let map = TileMap::new("map", width, 10, &|_| '.');
    let available = |tile: &char| if tile == &'.' { 1 } else { 0 };

    //  +--
    //  |xo
    //  |oo
    let ats = map.adjacent_ats(&(0, 0), &available);
    let ats: Vec<(usize, usize)> = ats.into_iter().map(|(loc, _)| loc).collect();
    assert_eq!(ats, vec![(1, 0), (0, 1), (1, 1)]);

    //  +---
    //  |oxo
    //  |ooo
    let ats = map.adjacent_ats(&(1, 0), &available);
    let ats: Vec<(usize, usize)> = ats.into_iter().map(|(loc, _)| loc).collect();
    assert_eq!(ats, vec![(0, 0), (2, 0), (0, 1), (1, 1), (2, 1)]);

    //  +---
    //  |ooo
    //  |oxo
    //  |ooo
    let ats = map.adjacent_ats(&(1, 1), &available);
    let ats: Vec<(usize, usize)> = ats.into_iter().map(|(loc, _)| loc).collect();
    assert_eq!(ats, vec![(0, 0), (1, 0), (2, 0), (0, 1), (2, 1), (0, 2), (1, 2), (2, 2)]);

    // --+
    // ox|
    // oo|
    let ats = map.adjacent_ats(&(4, 0), &available);
    let ats: Vec<(usize, usize)> = ats.into_iter().map(|(loc, _)| loc).collect();
    assert_eq!(ats, vec![(3, 0), (3, 1), (4, 1)]);

    // oo|
    // ox|
    // --+
    let ats = map.adjacent_ats(&(4, 9), &available);
    let ats: Vec<(usize, usize)> = ats.into_iter().map(|(loc, _)| loc).collect();
    assert_eq!(ats, vec![(3, 8), (4, 8), (3, 9)]);
}

#[test]
fn test_adjacent_paths() {
    let map_string = "##############\n\
                      #..#......#..#\n\
                      #..###.#.....#\n\
                      #..###..#.#..#\n\
                      #..######.#..#\n\
                      #............#\n\
                      ##############";
    let map = generate_ascii_map("map", map_string).unwrap();

    let mut pattern = map.adjacent_paths(&(0, 0), &|c: &char| *c == '#', false);
    println!("Upper left corner");
    println!("Pattern: {:03b}", ((pattern >> 6) & 7));
    println!("Pattern: {:03b}", ((pattern >> 3) & 7));
    println!("Pattern: {:03b}", (pattern & 7));
    assert_eq!(pattern, 0b_010_100_000);
    pattern = map.adjacent_paths(&(13, 0), &|c: &char| *c == '#', false);
    println!("Upper right corner");
    println!("Pattern: {:03b}", ((pattern >> 6) & 7));
    println!("Pattern: {:03b}", ((pattern >> 3) & 7));
    println!("Pattern: {:03b}", (pattern & 7));
    assert_eq!(pattern, 0b_010_001_000);
    pattern = map.adjacent_paths(&(4, 3), &|c: &char| *c == '#', true);
    println!("Surrounded");
    println!("Pattern: {:03b}", ((pattern >> 6) & 7));
    println!("Pattern: {:03b}", ((pattern >> 3) & 7));
    println!("Pattern: {:03b}", (pattern & 7));
    assert_eq!(pattern, 0b_111_101_111);
}

#[test]
fn test_generate_ascii_map() {
    let map_string = "##############\n\
                            #..#......#..#\n\
                            #...##.#.....#\n\
                            #..##...#.#..#\n\
                            #..######.#..#\n\
                            #............#\n\
                            ##############";

    let mut map = generate_ascii_map("map", map_string).unwrap();
    let mut weights = HashMap::new();
    weights.insert('.', 1 as usize);
    let available = |tile: &char| *weights.get(tile).unwrap_or(&0);
    let path = map.shortest_path(&(1, 1), &(12, 1), &available);
    if let Some(path) = path {
        let (path, distance) = path;
        println!("distance {}", distance);
        let route: Vec<_> = path.iter().collect();
        println!("Path {:?}", route);
        for i in &path {
            map.set(i, 'x');
        }

        for line in map
            .iter()
            .iter()
            .map(|(_, tile)| **tile)
            .collect::<Vec<char>>()
            .chunks(map.width)
        {
            let text: String = line.iter().collect();
            println!("{}", text);
        }
    }
}

#[test]
fn test_map_iterator() {
    let map_string = "123\n\
                            #.#\n\
                            ###";
    let map = generate_ascii_map("map", map_string).unwrap();

    let string: String = map.iter().into_iter().map(|(_, tile)| tile).collect();

    assert_eq!(string, "123#.####");
}

fn floor_weight(tile: &char) -> usize {
    if *tile == '.' {
        1
    } else {
        0
    }
}

#[test]
fn route_through_room_example() {
    let map_string = "##############\n\
                      #..#......#..#\n\
                      #...##.#.....#\n\
                      #..##...#.#..#\n\
                      #..######.#..#\n\
                      #............#\n\
                      ##############";
    let map = generate_ascii_map("map", map_string).unwrap();
    let (path, cost) = map.shortest_path(&(1, 1), &(12, 1), &floor_weight).unwrap();
    assert_eq!(cost, 11);
    assert_eq!(path.len() - 1, 11);
    assert_eq!(path[0], (1, 1));
    assert_eq!(path[path.len() - 1], (12, 1));
}

#[test]
fn route_along_single_corridor() {
    let map_string = "#######\n\
                      #12345#\n\
                      #######";
    let map = generate_ascii_map("corridor", map_string).unwrap();
    let weight = |t: &char| t.to_digit(10).map(|d| d as usize).unwrap_or(0);
    let (path, cost) = map.shortest_path(&(1, 1), &(5, 1), &weight).unwrap();
    assert_eq!(path, vec![(1, 1), (2, 1), (3, 1), (4, 1), (5, 1)]);
    assert_eq!(path.len() - 1, 4);
    assert_eq!(cost, 2 + 3 + 4 + 5);
}

#[test]
fn route_blocked_by_partition() {
    let map_string = "......\n\
                      ..#...\n\
                      ..#...\n\
                      ..#...";
    let mut map = generate_ascii_map("split", map_string).unwrap();
    map.set(&(2, 0), '#');
    assert!(map.shortest_path(&(0, 0), &(5, 3), &floor_weight).is_none());
    map.set(&(2, 0), '.');
    assert!(map.shortest_path(&(0, 0), &(5, 3), &floor_weight).is_some());
}

#[test]
fn route_to_itself_is_one_cell() {
    let map = TileMap::new("m", 3, 3, &|_| '.');
    let (path, cost) = map.shortest_path(&(1, 1), &(1, 1), &floor_weight).unwrap();
    assert_eq!(path, vec![(1, 1)]);
    assert_eq!(cost, 0);
}

#[test]
fn write_then_read_and_out_of_bounds() {
    let mut map = TileMap::new("m", 4, 3, &|p: (usize, usize)| p.0 + 10 * p.1);
    assert_eq!(map.get(&(3, 2)), Some(&23));
    assert!(map.set(&(3, 2), 99));
    assert_eq!(map.get(&(3, 2)), Some(&99));
    assert_eq!(map.get(&(4, 0)), None);
    assert_eq!(map.get(&(0, 3)), None);
    assert!(!map.set(&(4, 0), 1));
    assert!(!map.set(&(usize::MAX, usize::MAX), 1));
    assert_eq!(map.tiles.len(), 12);
}

#[test]
fn neighbor_counts_corner_edge_interior() {
    let map = TileMap::new("m", 4, 5, &|_| '.');
    assert_eq!(map.adjacent_locs(&(0, 0), true), vec![(1, 0), (0, 1), (1, 1)]);
    assert_eq!(map.adjacent_locs(&(3, 4), true), vec![(2, 3), (3, 3), (2, 4)]);
    assert_eq!(map.adjacent_locs(&(0, 2), true).len(), 5);
    assert_eq!(map.adjacent_locs(&(2, 0), true).len(), 5);
    assert_eq!(
        map.adjacent_locs(&(1, 1), true),
        vec![(0, 0), (1, 0), (2, 0), (0, 1), (2, 1), (0, 2), (1, 2), (2, 2)]
    );
    assert_eq!(map.adjacent_locs(&(1, 1), false), vec![(1, 0), (0, 1), (2, 1), (1, 2)]);
}

#[test]
fn adjacency_bit_follows_offset() {
    let map = TileMap::new("m", 2, 1, &|_| '#');
    assert_eq!(map.adjacent_paths(&(0, 0), &|c: &char| *c == '#', false), 32);
    assert_eq!(map.adjacent_paths(&(1, 0), &|c: &char| *c == '#', false), 8);
    let tall = TileMap::new("m", 1, 2, &|_| '#');
    assert_eq!(tall.adjacent_paths(&(0, 0), &|c: &char| *c == '#', true), 128);
    assert_eq!(tall.adjacent_paths(&(0, 1), &|c: &char| *c == '#', true), 2);
}

#[test]
fn adjacency_orthogonal_only_without_diagonals() {
    let map = TileMap::new("m", 3, 3, &|_| '#');
    let all = map.adjacent_paths(&(1, 1), &|c: &char| *c == '#', true);
    assert_eq!(all, 0b_111_101_111);
    let straight = map.adjacent_paths(&(1, 1), &|c: &char| *c == '#', false);
    assert_eq!(straight, 0b_010_101_010);
    assert_eq!(straight & 0b_101_010_101, 0);
    let none = map.adjacent_paths(&(1, 1), &|c: &char| *c == '.', true);
    assert_eq!(none, 0);
}

#[test]
fn ascii_map_rejects_ragged_and_empty_text() {
    assert!(generate_ascii_map("m", "").is_err());
    assert!(generate_ascii_map("m", "ab\nabc").is_err());
    let m = generate_ascii_map("m", "ab\ncd\n").unwrap();
    assert_eq!((m.width, m.height), (2, 2));
    assert_eq!(m.get(&(1, 1)), Some(&'d'));
    assert_eq!(m.name, "m");
}

#[test]
fn random_tile_lands_inside_room_body() {
    let mut map = TileMap::new("m", 8, 8, &|p: (usize, usize)| if p.0 == 3 && p.1 == 3 { '.' } else { '#' });
    map.add_room(Rectangle::new(1, 1, 4, 4).unwrap());
    for _ in 0..20 {
        if let Ok(loc) = map.find_random_tile_loc(&|c: &char| *c == '.') {
            assert_eq!(loc, (3, 3));
        }
    }
}

#[test]
fn zero_sized_grid_has_no_cells() {
    let mut map: TileMap<u8> = TileMap::new("empty", 0, 7, &|_| 1);
    assert_eq!(map.tiles.len(), 0);
    assert_eq!(map.get(&(0, 0)), None);
    assert!(!map.set(&(0, 0), 3));
    assert!(map.iter().is_empty());
    assert!(map.adjacent_locs(&(0, 0), true).is_empty());
    let overlay = map.create_overlay();
    assert_eq!(overlay.dims(), (0, 7));
    assert!(overlay.iter().is_empty());
}

#[test]
fn offsets_never_wrap() {
    assert_eq!(mappy::math_is_hard(0, -1), None);
    assert_eq!(mappy::math_is_hard(3, -3), Some(0));
    assert_eq!(mappy::math_is_hard(usize::MAX, 1), None);
    assert_eq!(mappy::math_is_hard(7, isize::MIN), None);
    assert_eq!(mappy::add_delta(&(0, 5), &(1, -1)), Some((1, 4)));
    assert_eq!(mappy::add_delta(&(5, 0), &(1, -1)), None);
}
