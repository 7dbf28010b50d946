use kvstore::store::KVStore;

#[test]
fn set_then_get_returns_the_value() {
    let mut store = KVStore::new();
    store.set("x".to_string(), "1".to_string());
    assert_eq!(store.get("x"), Some("1".to_string()));
    assert_eq!(store.get("y"), None);
    assert_eq!(store.len(), 1);
}

#[test]
fn set_overwrites_a_present_key() {
    let mut store = KVStore::new();
    store.set("a".to_string(), "1".to_string());
    store.set("a".to_string(), "2".to_string());
    assert_eq!(store.get("a"), Some("2".to_string()));
    assert_eq!(store.len(), 1);
}

#[test]
fn delete_of_an_absent_key_changes_nothing() {
    let mut store = KVStore::new();
    store.set("a".to_string(), "1".to_string());
    store.delete("b");
    assert_eq!(store.get("a"), Some("1".to_string()));
    assert_eq!(store.len(), 1);
    store.delete("a");
    assert_eq!(store.get("a"), None);
    assert_eq!(store.len(), 0);
}

#[test]
fn empty_keys_and_values_are_kept() {
    let mut store = KVStore::new();
    store.set(String::new(), String::new());
    assert_eq!(store.get(""), Some(String::new()));
    assert_eq!(store.len(), 1);
}

#[test]
fn from_pairs_lets_the_later_pair_win() {
    let pairs = vec![
        ("b".to_string(), "1".to_string()),
        ("a".to_string(), "2".to_string()),
        ("b".to_string(), "3".to_string()),
    ];
    let store = KVStore::from_pairs(&pairs);
    assert_eq!(store.len(), 2);
    assert_eq!(store.get("a"), Some("2".to_string()));
    assert_eq!(store.get("b"), Some("3".to_string()));
}

#[test]
fn replace_substitutes_the_whole_content() {
    let mut store = KVStore::new();
    store.set("old".to_string(), "0".to_string());
    let mut other = KVStore::new();
    other.set("new".to_string(), "1".to_string());
    store.replace(other);
    assert_eq!(store.get("old"), None);
    assert_eq!(store.get("new"), Some("1".to_string()));
    assert_eq!(store.len(), 1);
}

#[test]
fn clone_and_default_agree_with_the_map() {
    let mut store = KVStore::default();
    assert_eq!(store.len(), 0);
    store.set("k".to_string(), "v".to_string());
    let copy = store.clone();
    store.delete("k");
    assert_eq!(copy.get("k"), Some("v".to_string()));
    assert_eq!(store.get("k"), None);
}

#[test]
fn many_keys_in_any_order_are_all_found() {
    let mut store = KVStore::new();
    let keys = ["m", "c", "x", "a", "q", "zz", "z", "", "é", "b", "mm"];
    for (n, k) in keys.iter().enumerate() {
        store.set(k.to_string(), format!("{}", n));
    }
    assert_eq!(store.len(), keys.len());
    for (n, k) in keys.iter().enumerate() {
        assert_eq!(store.get(k), Some(format!("{}", n)));
    }
    assert_eq!(store.get("absent"), None);
}
