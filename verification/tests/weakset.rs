use weakset::{WeakSet, WeakSetEntry};

#[test]
fn test_set() {
    let mut set: WeakSet<&str> = WeakSet::new();
    let _0 = set.insert("hello world!");
    println!("set: {:?}", set.counts());
    let _1 = set.insert("hello luna!");
    println!("set: {:?}", set.counts());

    set.drop_entry(_0);
    println!("set: {:?}", set.counts());

    let _2 = set.insert("hello enso!");
    println!("set: {:?}", set.counts());

    let _3 = set.clone_entry(&_2);
    println!("set: {:?}", set.counts());
}

fn iterated_values(set: &mut WeakSet<&'static str>) -> Vec<&'static str> {
    let mut values: Vec<&'static str> = Vec::new();
    let entries = set.iter_entries();
    for entry in entries {
        values.push(*entry.borrow(set));
        set.drop_entry(entry);
    }
    values
}

#[test]
fn iteration_counts_live_slots() {
    let mut set: WeakSet<&str> = WeakSet::new();
    assert_eq!(iterated_values(&mut set).len(), 0);

    let a = set.insert("a");
    let b = set.insert("b");
    let c = set.insert("c");
    assert_eq!(iterated_values(&mut set).len(), 3);
    assert_eq!(set.counts().len(), 3);

    let b2 = set.clone_entry(&b);
    assert_eq!(iterated_values(&mut set).len(), 3);

    set.drop_entry(a);
    assert_eq!(iterated_values(&mut set).len(), 2);
    assert_eq!(set.counts().len(), 2);

    set.drop_entry(b);
    set.drop_entry(b2);
    assert_eq!(iterated_values(&mut set).len(), 1);

    set.drop_entry(c);
    assert_eq!(iterated_values(&mut set).len(), 0);
    assert_eq!(set.counts().len(), 0);
}

#[test]
fn clone_then_release_one_keeps_value() {
    let mut set: WeakSet<&str> = WeakSet::new();
    let h = set.insert("kept");
    let h2 = set.clone_entry(&h);

    set.drop_entry(h);
    assert_eq!(*h2.borrow(&set), "kept");
    assert_eq!(set.counts(), vec![(0, 1)]);

    set.drop_entry(h2);
    assert_eq!(set.counts(), vec![]);
}

#[test]
fn slot_reuse_after_last_release() {
    let mut set: WeakSet<&str> = WeakSet::new();
    let h1 = set.insert("a");
    let h2 = set.insert("b");
    assert_eq!(h1.slot_index(), 0);
    assert_eq!(h2.slot_index(), 1);

    set.drop_entry(h1);
    let h3 = set.insert("c");
    assert_eq!(h3.slot_index(), 0);

    let mut values = iterated_values(&mut set);
    values.sort();
    assert_eq!(values, vec!["b", "c"]);

    let h2b = set.clone_entry(&h2);
    set.drop_entry(h2);
    let mut values = iterated_values(&mut set);
    values.sort();
    assert_eq!(values, vec!["b", "c"]);

    set.drop_entry(h2b);
    assert_eq!(iterated_values(&mut set), vec!["c"]);
    set.drop_entry(h3);
}

#[test]
fn iteration_snapshot_excludes_append() {
    let mut set: WeakSet<&str> = WeakSet::new();
    let _a = set.insert("a");
    let _b = set.insert("b");

    let mut it = set.iter();
    let first = it.next(&mut set).unwrap();
    assert_eq!(*first.borrow(&set), "a");

    // Appending after the snapshot: the new slot lies beyond the captured
    // bound, so the in-flight iteration never reaches it.
    let _c = set.insert("c");
    let second = it.next(&mut set).unwrap();
    assert_eq!(*second.borrow(&set), "b");
    assert!(it.next(&mut set).is_none());
}

#[test]
fn iteration_skips_slot_released_before_visit() {
    let mut set: WeakSet<&str> = WeakSet::new();
    let a = set.insert("a");
    let b = set.insert("b");
    let c = set.insert("c");

    let mut it = set.iter();
    let first = it.next(&mut set).unwrap();
    assert_eq!(*first.borrow(&set), "a");

    set.drop_entry(b);
    let second = it.next(&mut set).unwrap();
    assert_eq!(*second.borrow(&set), "c");
    assert!(it.next(&mut set).is_none());

    set.drop_entry(a);
    set.drop_entry(c);
    set.drop_entry(first);
    set.drop_entry(second);
}

#[test]
fn iteration_survives_release_of_visited_value() {
    let mut set: WeakSet<&str> = WeakSet::new();
    let a = set.insert("a");
    let b = set.insert("b");

    let mut it = set.iter();
    let first = it.next(&mut set).unwrap();
    // The yielded handle holds a reference of its own: releasing the
    // original handle leaves the value alive.
    set.drop_entry(a);
    assert_eq!(*first.borrow(&set), "a");

    let second = it.next(&mut set).unwrap();
    assert_eq!(*second.borrow(&set), "b");
    assert!(it.next(&mut set).is_none());

    set.drop_entry(first);
    set.drop_entry(second);
    set.drop_entry(b);
    assert_eq!(set.counts(), vec![]);
}

#[test]
fn diagnostics_do_not_perturb_counts() {
    let mut set: WeakSet<&str> = WeakSet::new();
    let a = set.insert("a");
    let b = set.insert("b");

    assert_eq!(set.counts(), vec![(0, 1), (1, 1)]);
    assert_eq!(set.counts(), vec![(0, 1), (1, 1)]);

    set.drop_entry(a);
    assert_eq!(set.counts(), vec![(1, 1)]);
    set.drop_entry(b);
}

#[test]
fn borrow_mut_updates_value_in_place() {
    let mut set: WeakSet<u64> = WeakSet::new();
    let h = set.insert(41);
    {
        let v = h.borrow_mut(&mut set);
        *v += 1;
    }
    assert_eq!(*h.borrow(&set), 42);
    assert_eq!(set.counts(), vec![(0, 1)]);
    set.drop_entry(h);
}

#[test]
fn slot_state_reports_empty_and_used() {
    let mut set: WeakSet<&str> = WeakSet::new();
    let a = set.insert("a");
    let b = set.insert("b");
    set.drop_entry(a);

    assert_eq!(set.max_index(), 2);
    assert!(set.slot_state(0).is_none());
    let (value, count) = set.slot_state(1).unwrap();
    assert_eq!((*value, count), ("b", 1));
    set.drop_entry(b);
}

#[test]
fn handle_count_tracks_clones() {
    let mut set: WeakSet<&str> = WeakSet::new();
    let h: WeakSetEntry<&str> = set.insert("x");
    let h2 = set.clone_entry(&h);
    let h3 = set.clone_entry(&h2);
    assert_eq!(set.counts(), vec![(0, 3)]);
    set.drop_entry(h2);
    assert_eq!(set.counts(), vec![(0, 2)]);
    set.drop_entry(h);
    set.drop_entry(h3);
    assert_eq!(set.counts(), vec![]);
}
