use mappy::map::generate_ascii_map;
use mappy::{calculate_field_of_view, Overlay};

const FOV_MAP: &str = ".................\n\
                       .......###.......\n\
                       .......###.......\n\
                       .......###..#..##\n\
                       .......##........\n\
                       .................\n\
                       .................\n";

const FOV_ANSWER_7_6: &str = "......######....#\n\
                              .......####....##\n\
                              .......###....#.#\n\
                              .......##........\n\
                              .................\n\
                              .................\n\
                              .................\n";

/// One line per row: `.` where the flag differs from `default`, `#` where it does not.
fn render(o: &Overlay, default: bool) -> String {
    let (w, h) = o.dims();
    let mut s = String::new();
    for y in 0..h {
        for x in 0..w {
            s.push(if o.get((x, y)).unwrap() == default { '#' } else { '.' });
        }
        s.push('\n');
    }
    s
}

#[test]
fn test_fov() {
    let mut map = generate_ascii_map("map", FOV_MAP).unwrap();
    let mut light_map = map.create_overlay();
    let visible = |tile: &char| *tile == '.';
    calculate_field_of_view(&mut map, (7, 6), 20, &mut light_map, &visible);

    let ascii = render(&light_map, false);

    println!("{}", ascii);
    assert_eq!(ascii, FOV_ANSWER_7_6)
}

#[test]
fn fov_open_room_is_a_disc() {
    let map = generate_ascii_map("room", ".........\n.........\n.........\n.........\n.........\n.........\n.........\n.........\n.........\n").unwrap();
    let mut light = map.create_overlay();
    calculate_field_of_view(&map, (4, 4), 3, &mut light, &|_: &char| true);
    for y in 0..9usize {
        for x in 0..9usize {
            let dx = x as i64 - 4;
            let dy = y as i64 - 4;
            let expected = dx * dx + dy * dy < 9;
            assert_eq!(light.get((x, y)).unwrap(), expected, "cell ({}, {})", x, y);
        }
    }
}

#[test]
fn fov_wall_shadows_cells_behind_it() {
    let map = generate_ascii_map("wall", ".......\n.......\n.......\n..###..\n.......\n.......\n.......\n").unwrap();
    let mut light = map.create_overlay();
    calculate_field_of_view(&map, (3, 6), 10, &mut light, &|c: &char| *c == '.');
    // the wall itself is seen, the cells straight behind it are not
    assert!(light.get((3, 3)).unwrap());
    assert!(!light.get((3, 2)).unwrap());
    assert!(!light.get((3, 1)).unwrap());
    assert!(!light.get((3, 0)).unwrap());
    // the viewpoint is always marked
    assert!(light.get((3, 6)).unwrap());
}

#[test]
fn fov_radius_zero_marks_only_origin() {
    let map = generate_ascii_map("room", "...\n...\n...\n").unwrap();
    let mut light = map.create_overlay();
    light.set((0, 0), true);
    calculate_field_of_view(&map, (1, 1), 0, &mut light, &|_: &char| true);
    assert_eq!(render(&light, false), "###\n#.#\n###\n");
}

#[test]
fn fov_adjacent_wall_hides_its_column() {
    let map = generate_ascii_map("col", ".....\n.....\n.....\n..#..\n.....\n").unwrap();
    let mut light = map.create_overlay();
    calculate_field_of_view(&map, (2, 4), 10, &mut light, &|c: &char| *c == '.');
    assert!(light.get((2, 3)).unwrap());
    assert!(!light.get((2, 2)).unwrap());
    assert!(!light.get((2, 1)).unwrap());
    assert!(!light.get((2, 0)).unwrap());
    assert!(light.get((1, 2)).unwrap());
    assert!(light.get((0, 1)).unwrap());
}
