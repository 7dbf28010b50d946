use kvstore::diff::{compare, DiffEntry};
use kvstore::store::KVStore;

fn store_of(pairs: &[(&str, &str)]) -> KVStore {
    let mut store = KVStore::new();
    for (k, v) in pairs {
        store.set(k.to_string(), v.to_string());
    }
    store
}

fn added(key: &str, new_value: &str) -> DiffEntry {
    DiffEntry::Added { key: key.to_string(), new_value: new_value.to_string() }
}

fn removed(key: &str, old_value: &str) -> DiffEntry {
    DiffEntry::Removed { key: key.to_string(), old_value: old_value.to_string() }
}

fn changed(key: &str, old_value: &str, new_value: &str) -> DiffEntry {
    DiffEntry::Changed {
        key: key.to_string(),
        old_value: old_value.to_string(),
        new_value: new_value.to_string(),
    }
}

fn mirrored(entry: &DiffEntry) -> DiffEntry {
    match entry {
        DiffEntry::Added { key, new_value } => removed(key, new_value),
        DiffEntry::Removed { key, old_value } => added(key, old_value),
        DiffEntry::Changed { key, old_value, new_value } => changed(key, new_value, old_value),
    }
}

#[test]
fn deleted_key_is_reported_as_removed() {
    let s1 = store_of(&[("x", "1")]);
    let s2 = store_of(&[]);
    assert_eq!(compare(&s1, &s2), vec![removed("x", "1")]);
}

#[test]
fn overwritten_key_is_reported_as_changed() {
    let s1 = store_of(&[("a", "1")]);
    let s2 = store_of(&[("a", "2")]);
    assert_eq!(compare(&s1, &s2), vec![changed("a", "1", "2")]);
}

#[test]
fn new_key_is_reported_as_added() {
    let s1 = store_of(&[]);
    let s2 = store_of(&[("n", "v")]);
    assert_eq!(compare(&s1, &s2), vec![added("n", "v")]);
}

#[test]
fn equal_maps_have_an_empty_report() {
    let s1 = store_of(&[("a", "1"), ("b", "2")]);
    let s2 = store_of(&[("b", "2"), ("a", "1")]);
    assert_eq!(compare(&s1, &s2), Vec::<DiffEntry>::new());
    assert_eq!(compare(&store_of(&[]), &store_of(&[])), Vec::<DiffEntry>::new());
}

#[test]
fn report_is_in_key_order_and_leaves_out_what_did_not_change() {
    let s1 = store_of(&[("d", "4"), ("b", "2"), ("same", "s"), ("a", "1"), ("z", "26")]);
    let s2 = store_of(&[("c", "3"), ("same", "s"), ("b", "two"), ("z", "26"), ("e", "5")]);
    assert_eq!(
        compare(&s1, &s2),
        vec![
            removed("a", "1"),
            changed("b", "2", "two"),
            added("c", "3"),
            removed("d", "4"),
            added("e", "5"),
        ]
    );
}

#[test]
fn report_the_other_way_round_is_the_mirror_image() {
    let s1 = store_of(&[("d", "4"), ("b", "2"), ("same", "s"), ("a", "1")]);
    let s2 = store_of(&[("c", "3"), ("same", "s"), ("b", "two"), ("e", "5")]);
    let forth = compare(&s1, &s2);
    let back = compare(&s2, &s1);
    let expected: Vec<DiffEntry> = forth.iter().map(mirrored).collect();
    assert_eq!(back, expected);
    assert_eq!(forth.len(), 5);
}
