use mappy::rectangle::Rectangle;
use mappy::rectangle::RectangleIteratorType::BORDER;

#[test]
fn test_new() {
    let rect = Rectangle::new(0, 0, 2, 2);
    assert!(rect.is_ok());

    let rect = Rectangle::new(0, 0, 1, 1);
    assert!(rect.is_err());
}

#[test]
fn test_center() {
    let rect = Rectangle::new(0, 0, 4, 4).unwrap();

    assert_eq!(rect.center(), (2, 2));

    // We round down since this is integer result.
    let rect = Rectangle::new(0, 0, 5, 5).unwrap();

    assert_eq!(rect.center(), (2, 2));
}

#[test]
fn test_intersect() {
    let rect1 = Rectangle::new(0, 0, 4, 4).unwrap();
    let rect2 = Rectangle::new(1, 1, 4, 4).unwrap();

    assert!(rect1.intersect(&rect2));
    assert!(rect2.intersect(&rect1));
    assert!(rect1.intersect(&rect1));

    let rect3 = Rectangle::new(1, 1, 2, 2).unwrap();
    assert!(rect1.intersect(&rect3));
}

#[test]
fn test_rect_iterator() {
    let rect = Rectangle::new(1, 1, 2, 2).unwrap();
    let string: String = rect
        .iter()
        .into_iter()
        .map(|(point, point_type)| {
            format!(
                "({},{},{})",
                point.0,
                point.1,
                if point_type == BORDER { '#' } else { '.' }
            )
        })
        .collect();

    assert_eq!(string, "(1,1,#)(2,1,#)(3,1,#)(1,2,#)(2,2,.)(3,2,#)(1,3,#)(2,3,#)(3,3,#)");
}

#[test]
fn test_rand_x() {
    //   012345
    // 0 .......
    // 1 .####..
    // 2 .#..#..
    // 3 .####..
    let rect = Rectangle::new(1, 1, 4, 3).unwrap();

    let mut x = rect.random_x(true);
    assert!(x >= 1 && x < 5);
    x = rect.random_x(false);
    assert!(x > 1 && x < 4);
}

#[test]
fn test_rand_y() {
    //   012345
    // 0 .......
    // 1 .####..
    // 2 .#..#..
    // 3 .####..
    let rect = Rectangle::new(1, 1, 4, 3).unwrap();

    let mut y = rect.random_y(true);
    assert!(y >= 1 && y < 5);
    y = rect.random_y(false);
    assert!(y > 1 && y < 4);
}

#[test]
fn rect_far_intersections_are_rejected() {
    let a = Rectangle::new(0, 0, 2, 2).unwrap();
    let b = Rectangle::new(5, 0, 2, 2).unwrap();
    assert!(!a.intersect(&b));
    assert!(!b.intersect(&a));
    let touching = Rectangle::new(2, 2, 3, 3).unwrap();
    assert!(a.intersect(&touching));
}

#[test]
fn rect_too_small_on_one_axis_is_an_error() {
    assert!(Rectangle::new(3, 3, 2, 1).is_err());
    assert!(Rectangle::new(3, 3, 1, 5).is_err());
    let r = Rectangle::new(3, 4, 2, 5).unwrap();
    assert_eq!(r.ulc, (3, 4));
    assert_eq!(r.lrc, (5, 9));
}

#[test]
fn rect_center_of_offset_rectangle() {
    let r = Rectangle::new(3, 7, 4, 5).unwrap();
    assert_eq!(r.center(), (5, 9));
}

#[test]
fn rect_iterator_body_cells() {
    let r = Rectangle::new(0, 0, 3, 2).unwrap();
    let cells = r.iter();
    assert_eq!(cells.len(), 12);
    let bodies: Vec<(usize, usize)> = cells
        .into_iter()
        .filter(|(_, t)| *t != BORDER)
        .map(|(p, _)| p)
        .collect();
    assert_eq!(bodies, vec![(1, 1), (2, 1)]);
}
