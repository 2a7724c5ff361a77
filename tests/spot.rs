use mappy::Spot;

#[test]
fn test_add_item() {
    let mut spot: Spot<i32, i32> = Spot::new(1, None);

    assert_eq!(spot.items, None);

    spot.add_item((2, 5));
    assert_eq!(spot.items, Some(vec![(2, 5)]));

    spot.add_item((2, 1));
    assert_eq!(spot.items, Some(vec![(2, 6)]));

    spot.add_item((3, 10));
    assert_eq!(spot.items, Some(vec![(2, 6), (3, 10)]));

    spot.add_item((3, 20));
    assert_eq!(spot.items, Some(vec![(2, 6), (3, 30)]));
}

#[test]
fn test_remove_item() {
    let mut spot: Spot<i32, i32> = Spot::new(1, Some(vec![(1, 10), (2, 5)]));

    assert_eq!(spot.items, Some(vec![(1, 10), (2, 5)]));
    assert_eq!(spot.remove_item((4, 1)), 0);
    assert_eq!(spot.remove_item((2, 2)), 2);
    assert_eq!(spot.items, Some(vec![(1, 10), (2, 3)]));
    assert_eq!(spot.remove_item((2, 4)), 3);
    assert_eq!(spot.items, Some(vec![(1, 10)]));
    assert_eq!(spot.remove_item((1, 10)), 10);
    assert_eq!(spot.items, None);
}

#[test]
fn spot_remove_from_empty_spot_takes_nothing() {
    let mut spot: Spot<char, u8> = Spot::new('#', None);
    assert_eq!(spot.remove_item((1, 4)), 0);
    assert_eq!(spot.items, None);
    assert_eq!(spot.solid, '#');
}

#[test]
fn spot_remove_middle_stack_keeps_order() {
    let mut spot: Spot<i32, i32> = Spot::new(0, Some(vec![(1, 1), (2, 2), (3, 3)]));
    assert_eq!(spot.remove_item((2, 9)), 2);
    assert_eq!(spot.items, Some(vec![(1, 1), (3, 3)]));
}

#[test]
fn spot_add_to_empty_list_appends() {
    let mut spot: Spot<i32, i32> = Spot::new(0, Some(vec![]));
    spot.add_item((7, 2));
    assert_eq!(spot.items, Some(vec![(7, 2)]));
}
