use coruscant_subscriber::snapshot::Snapshot;
use coruscant_subscriber::table::Table;

#[test]
fn snapshot_lists_keys_in_ascending_order() {
    let mut snapshot: Snapshot<u32> = Snapshot::new();
    snapshot.insert("pear".to_string(), 1);
    snapshot.insert("apple".to_string(), 2);
    snapshot.insert("plum".to_string(), 3);
    snapshot.insert("app".to_string(), 4);
    assert_eq!(snapshot.len(), 4);
    assert_eq!(snapshot.key_at(0), "app");
    assert_eq!(snapshot.key_at(1), "apple");
    assert_eq!(snapshot.key_at(2), "pear");
    assert_eq!(snapshot.key_at(3), "plum");
    assert_eq!(*snapshot.value_at(0), 4);
    assert_eq!(*snapshot.value_at(1), 2);
    assert_eq!(*snapshot.value_at(2), 1);
    assert_eq!(*snapshot.value_at(3), 3);
}

#[test]
fn snapshot_orders_by_code_point() {
    let mut snapshot: Snapshot<u32> = Snapshot::new();
    snapshot.insert("\u{e9}".to_string(), 1);
    snapshot.insert("z".to_string(), 2);
    snapshot.insert("Z".to_string(), 3);
    snapshot.insert("".to_string(), 4);
    snapshot.insert("\u{1f600}".to_string(), 5);
    snapshot.insert("\u{ffff}".to_string(), 6);
    assert_eq!(snapshot.key_at(0), "");
    assert_eq!(snapshot.key_at(1), "Z");
    assert_eq!(snapshot.key_at(2), "z");
    assert_eq!(snapshot.key_at(3), "\u{e9}");
    assert_eq!(snapshot.key_at(4), "\u{ffff}");
    assert_eq!(snapshot.key_at(5), "\u{1f600}");
}

#[test]
fn snapshot_insert_replaces_the_value_of_a_key() {
    let mut snapshot: Snapshot<u32> = Snapshot::new();
    snapshot.insert("a".to_string(), 1);
    snapshot.insert("b".to_string(), 2);
    snapshot.insert("a".to_string(), 3);
    assert_eq!(snapshot.len(), 2);
    assert_eq!(snapshot.get("a"), Some(&3));
    assert_eq!(snapshot.get("b"), Some(&2));
    assert_eq!(snapshot.get("c"), None);
    assert_eq!(snapshot.get(""), None);
    assert!(snapshot.contains_key("a"));
    assert!(!snapshot.contains_key("ab"));
}

#[test]
fn snapshot_of_nothing_is_empty() {
    let snapshot: Snapshot<u32> = Snapshot::new();
    assert_eq!(snapshot.len(), 0);
    assert_eq!(snapshot.get("a"), None);
    assert_eq!(snapshot.join_keys(", "), "");
}

#[test]
fn snapshot_joins_its_keys_in_order() {
    let mut snapshot: Snapshot<()> = Snapshot::new();
    snapshot.insert("c".to_string(), ());
    assert_eq!(snapshot.join_keys(", "), "c");
    snapshot.insert("a".to_string(), ());
    snapshot.insert("b".to_string(), ());
    assert_eq!(snapshot.join_keys(", "), "a, b, c");
    assert_eq!(snapshot.join_keys(""), "abc");
    assert_eq!(snapshot.join_keys("-"), "a-b-c");
}

#[test]
fn snapshot_clone_has_the_same_entries() {
    let mut snapshot: Snapshot<(usize, usize)> = Snapshot::new();
    snapshot.insert("b".to_string(), (1, 2));
    snapshot.insert("a".to_string(), (3, 4));
    let copy = snapshot.clone();
    snapshot.insert("c".to_string(), (5, 6));
    assert_eq!(copy.len(), 2);
    assert_eq!(copy.key_at(0), "a");
    assert_eq!(copy.get("a"), Some(&(3, 4)));
    assert_eq!(copy.get("b"), Some(&(1, 2)));
    assert_eq!(copy.get("c"), None);
    assert_eq!(snapshot.len(), 3);
}

#[test]
fn nested_snapshot_clone_has_the_same_entries() {
    let mut inner: Snapshot<(usize, usize)> = Snapshot::new();
    inner.insert("x".to_string(), (1, 2));
    let mut outer: Snapshot<Snapshot<(usize, usize)>> = Snapshot::new();
    outer.insert("k".to_string(), inner);
    outer.insert("j".to_string(), Snapshot::new());
    let copy = outer.clone();
    assert_eq!(copy.len(), 2);
    assert_eq!(copy.key_at(0), "j");
    assert_eq!(copy.value_at(0).len(), 0);
    assert_eq!(copy.get("k").unwrap().get("x"), Some(&(1, 2)));
    let mut top: Snapshot<Snapshot<Snapshot<(usize, usize)>>> = Snapshot::new();
    top.insert("t".to_string(), copy);
    let top_copy = top.clone();
    assert_eq!(top_copy.get("t").unwrap().get("k").unwrap().get("x"), Some(&(1, 2)));
}

#[test]
fn table_finds_each_key_at_its_own_place() {
    let mut table: Table<u32> = Table::new();
    assert_eq!(table.len(), 0);
    assert_eq!(table.find("a"), None);
    table.push_new("b".to_string(), 10);
    table.push_new("a".to_string(), 20);
    table.push_new("c".to_string(), 30);
    assert_eq!(table.len(), 3);
    assert_eq!(table.find("b"), Some(0));
    assert_eq!(table.find("a"), Some(1));
    assert_eq!(table.find("c"), Some(2));
    assert_eq!(table.find("d"), None);
    assert_eq!(table.find(""), None);
    assert_eq!(table.key_at(1), "a");
    assert_eq!(*table.value_at(1), 20);
}

#[test]
fn table_changes_a_value_where_it_stands() {
    let mut table: Table<u32> = Table::new();
    table.push_new("a".to_string(), 1);
    table.push_new("b".to_string(), 2);
    *table.value_at_mut(0) += 10;
    assert_eq!(*table.value_at(0), 11);
    assert_eq!(*table.value_at(1), 2);
    assert_eq!(table.find("a"), Some(0));
    let (keys, values) = table.into_parts();
    assert_eq!(keys, vec!["a".to_string(), "b".to_string()]);
    assert_eq!(values, vec![11, 2]);
}
