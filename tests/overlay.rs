use mappy::Overlay;

#[test]
fn test_or() {
    let mut o1 = Overlay::new(3, 4, false);
    let mut o2 = Overlay::new(3, 4, false);

    o1.set((0, 0), true);
    o2.set((1, 1), true);

    o1.or(&o2);

    assert!(o1.get((0, 0)).unwrap());
    assert!(o1.get((1, 1)).unwrap());
    assert!(!o1.get((2, 1)).unwrap());
}

#[test]
fn test_iter() {
    let mut o1 = Overlay::new(3, 4, false);
    o1.set((0, 0), true);
    o1.set((2, 0), true);
    o1.set((0, 1), true);

    let mut iter = o1.iter().into_iter();

    assert_eq!(iter.next(), Some(((0, 0), (true))));
    assert_eq!(iter.next(), Some(((1, 0), (false))));
    assert_eq!(iter.next(), Some(((2, 0), (true))));
    assert_eq!(iter.next(), Some(((0, 1), (true))));
    assert_eq!(iter.next(), Some(((1, 1), (false))));
}

fn flags(o: &Overlay) -> Vec<bool> {
    o.iter().into_iter().map(|(_, v)| v).collect()
}

#[test]
fn or_merges_in_any_order() {
    let mut a = Overlay::new(3, 2, false);
    let mut b = Overlay::new(3, 2, false);
    let mut c = Overlay::new(3, 2, false);
    a.set((0, 0), true);
    b.set((1, 1), true);
    c.set((2, 0), true);
    c.set((0, 0), true);

    let mut abc = Overlay::new(3, 2, false);
    abc.or(&a);
    abc.or(&b);
    abc.or(&c);
    let mut acb = Overlay::new(3, 2, false);
    acb.or(&a);
    acb.or(&c);
    acb.or(&b);
    assert_eq!(flags(&abc), flags(&acb));
    assert_eq!(flags(&abc), vec![true, false, true, false, true, false]);
}

#[test]
fn reset_restores_default_after_writes() {
    let mut o = Overlay::new(2, 2, true);
    o.set((0, 0), false);
    o.set((1, 1), false);
    assert!(!o.set((2, 2), false));
    o.reset();
    assert_eq!(flags(&o), vec![true; 4]);
    assert_eq!(o.dims(), (2, 2));
    assert_eq!(o.get((2, 0)), None);
}
