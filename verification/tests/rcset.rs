use weakset::rcset::RcSet;

#[test]
fn test_rcset() {
    let mut set: RcSet<&str> = RcSet::new();
    let _0 = set.insert("hello world!");
    println!("set: {:?}", set.counts());
    let _1 = set.insert("hello luna!");
    println!("set: {:?}", set.counts());

    set.drop_item(_0);
    println!("set: {:?}", set.counts());

    let _2 = set.insert("hello enso!");
    println!("set: {:?}", set.counts());

    let _3 = set.clone_item(&_2);
    println!("set: {:?}", set.counts());
    let mut it = set.iter();
    while let Some(item) = it.next(&mut set) {
        println!("{:?}", item.borrow(&set));
        set.drop_item(item);
    }
}

fn iterated_values(set: &mut RcSet<&'static str>) -> Vec<&'static str> {
    let mut values: Vec<&'static str> = Vec::new();
    let items = set.iter_items();
    for item in items {
        values.push(*item.borrow(set));
        set.drop_item(item);
    }
    values
}

#[test]
fn rc_iteration_counts_tracked_values() {
    let mut set: RcSet<&str> = RcSet::new();
    assert_eq!(iterated_values(&mut set).len(), 0);

    let a = set.insert("a");
    let b = set.insert("b");
    let c = set.insert("c");
    assert_eq!(iterated_values(&mut set).len(), 3);
    assert_eq!(set.counts().len(), 3);

    let b2 = set.clone_item(&b);
    assert_eq!(iterated_values(&mut set).len(), 3);

    set.drop_item(a);
    assert_eq!(iterated_values(&mut set).len(), 2);

    set.drop_item(b);
    set.drop_item(b2);
    assert_eq!(iterated_values(&mut set), vec!["c"]);

    set.drop_item(c);
    assert_eq!(iterated_values(&mut set).len(), 0);
    assert_eq!(set.counts().len(), 0);
}

#[test]
fn rc_clone_then_release_one_keeps_value() {
    let mut set: RcSet<&str> = RcSet::new();
    let i = set.insert("kept");
    let i2 = set.clone_item(&i);

    set.drop_item(i);
    assert_eq!(*i2.borrow(&set), "kept");
    assert_eq!(set.counts(), vec![(0, 1)]);

    set.drop_item(i2);
    assert_eq!(set.counts(), vec![]);
}

#[test]
fn rc_identifiers_are_never_reused() {
    let mut set: RcSet<&str> = RcSet::new();
    let a = set.insert("a");
    let b = set.insert("b");
    assert_eq!(a.id(), 0);
    assert_eq!(b.id(), 1);

    set.drop_item(a);
    let c = set.insert("c");
    assert_eq!(c.id(), 2);

    assert_eq!(set.counts(), vec![(1, 1), (2, 1)]);
    set.drop_item(b);
    set.drop_item(c);
}

#[test]
fn rc_iteration_snapshot_excludes_insert() {
    let mut set: RcSet<&str> = RcSet::new();
    let _a = set.insert("a");
    let _b = set.insert("b");

    let mut it = set.iter();
    let first = it.next(&mut set).unwrap();
    assert_eq!(*first.borrow(&set), "a");

    // Inserting after the snapshot: the new value's identifier lies at or
    // above the captured bound, so the in-flight iteration never yields it.
    let _c = set.insert("c");
    let second = it.next(&mut set).unwrap();
    assert_eq!(*second.borrow(&set), "b");
    assert!(it.next(&mut set).is_none());
}

#[test]
fn rc_iteration_skips_value_released_before_visit() {
    let mut set: RcSet<&str> = RcSet::new();
    let a = set.insert("a");
    let b = set.insert("b");
    let c = set.insert("c");

    let mut it = set.iter();
    let first = it.next(&mut set).unwrap();
    assert_eq!(*first.borrow(&set), "a");

    set.drop_item(b);
    let second = it.next(&mut set).unwrap();
    assert_eq!(*second.borrow(&set), "c");
    assert!(it.next(&mut set).is_none());

    set.drop_item(a);
    set.drop_item(c);
    set.drop_item(first);
    set.drop_item(second);
}

#[test]
fn rc_iteration_survives_release_of_visited_value() {
    let mut set: RcSet<&str> = RcSet::new();
    let a = set.insert("a");
    let b = set.insert("b");

    let mut it = set.iter();
    let first = it.next(&mut set).unwrap();
    // The yielded item is a strong reference of its own: releasing the
    // original leaves the value tracked.
    set.drop_item(a);
    assert_eq!(*first.borrow(&set), "a");

    let second = it.next(&mut set).unwrap();
    assert_eq!(*second.borrow(&set), "b");
    assert!(it.next(&mut set).is_none());

    set.drop_item(first);
    set.drop_item(second);
    set.drop_item(b);
    assert_eq!(set.counts(), vec![]);
}

#[test]
fn rc_diagnostics_do_not_perturb_counts() {
    let mut set: RcSet<&str> = RcSet::new();
    let a = set.insert("a");
    let b = set.insert("b");

    assert_eq!(set.counts(), vec![(0, 1), (1, 1)]);
    assert_eq!(set.counts(), vec![(0, 1), (1, 1)]);

    set.drop_item(a);
    assert_eq!(set.counts(), vec![(1, 1)]);
    set.drop_item(b);
}
