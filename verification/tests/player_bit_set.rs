use rs_poker::utils::PlayerBitSet;

#[test]
fn test_new_count() {
    assert_eq!(7, PlayerBitSet::new(7).count());
}

#[test]
fn test_default_zero_count() {
    assert_eq!(0, PlayerBitSet::default().count());
}

#[test]
fn test_disable_count() {
    let mut s = PlayerBitSet::new(7);

    assert_eq!(7, s.count());
    s.disable(6);
    assert_eq!(6, s.count());
    s.disable(0);
    assert_eq!(5, s.count());
}

#[test]
fn test_enable_count() {
    let mut s = PlayerBitSet::default();

    assert_eq!(0, s.count());
    s.enable(0);
    assert_eq!(1, s.count());
    s.enable(0);
    assert_eq!(1, s.count());

    s.enable(2);
    assert_eq!(2, s.count());

    s.disable(0);
    assert_eq!(1, s.count());
}

#[test]
fn test_iter() {
    let s = PlayerBitSet::new(2);
    let mut iter = s.ones();

    assert_eq!(Some(0), iter.next());
    assert_eq!(Some(1), iter.next());
    assert_eq!(None, iter.next());
}

#[test]
fn test_iter_with_disabled() {
    let mut s = PlayerBitSet::new(3);
    let mut iter = s.ones();

    assert_eq!(Some(0), iter.next());
    assert_eq!(Some(1), iter.next());
    assert_eq!(Some(2), iter.next());
    assert_eq!(None, iter.next());

    s.disable(0);

    let mut after_iter = s.ones();
    assert_eq!(Some(1), after_iter.next());
    assert_eq!(Some(2), after_iter.next());
    assert_eq!(None, after_iter.next());
}

#[test]
fn test_iter_with_enabled() {
    let mut s = PlayerBitSet::default();
    let mut iter = s.ones();
    assert_eq!(None, iter.next());

    s.enable(3);

    let mut after_iter = s.ones();
    assert_eq!(Some(3), after_iter.next());
    assert_eq!(None, after_iter.next());
}

#[test]
fn get_empty_union_and_nth() {
    let mut s = PlayerBitSet::default();
    assert!(s.empty());
    s.enable(5);
    assert!(s.get(5));
    assert!(!s.get(4));
    assert!(!s.empty());
    let t = s | PlayerBitSet::new(2);
    assert_eq!(3, t.count());
    assert_eq!(5, t.nth(2));
    assert_eq!(1, t.nth(1));
}
