use btree_node::offset::Offset;

#[test]
fn before_is_least() {
    for k in [0usize, 1, 2, 7, 1000, usize::MAX - 1] {
        assert!(Offset::before() < Offset::from(k));
    }
    assert!(Offset::before() == Offset::before());
}

#[test]
fn before_properties() {
    let o = Offset::before();
    assert!(o.is_before());
    assert_eq!(o.value(), None);
    assert!(!Offset::from(0).is_before());
    assert_eq!(Offset::from(5).value(), Some(5));
    assert_eq!(Offset::from(5).unwrap(), 5);
}

#[test]
fn concrete_order() {
    assert!(Offset::from(0) < Offset::from(1));
    assert!(Offset::from(3) < Offset::from(10));
    assert!(Offset::from(4) == Offset::from(4));
    assert!(!(Offset::from(4) < Offset::from(4)));
}

#[test]
fn incr_from_sentinel_reaches_zero() {
    let mut o = Offset::before();
    o.incr();
    assert_eq!(o.value(), Some(0));
    o.incr();
    assert_eq!(o.value(), Some(1));
}

#[test]
fn decr_from_zero_reaches_sentinel() {
    let mut o = Offset::from(1);
    o.decr();
    assert_eq!(o.value(), Some(0));
    o.decr();
    assert!(o.is_before());
}
