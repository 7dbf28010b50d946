use kvstore::naming::{
    contains_bytes, has_snapshot_extension, hashed_name, name_contains, snapshot_name,
};

#[test]
fn snapshot_name_joins_its_parts() {
    assert_eq!(
        snapshot_name("20240131T235959", "set", "x", "19190ce0"),
        "20240131T235959_set-x_19190ce0.db"
    );
    assert_eq!(snapshot_name("", "", "", ""), "_-_.db");
}

#[test]
fn hashed_name_is_the_hash_with_the_extension() {
    assert_eq!(hashed_name("abc123"), "abc123.db");
}

#[test]
fn snapshot_extension_is_recognised() {
    assert!(has_snapshot_extension("a.db"));
    assert!(has_snapshot_extension("20240131T235959_set-x_19190ce0.db"));
    assert!(has_snapshot_extension("..db"));
    assert!(has_snapshot_extension("a.b.db"));
    assert!(!has_snapshot_extension(".db"));
    assert!(!has_snapshot_extension("db"));
    assert!(!has_snapshot_extension(""));
    assert!(!has_snapshot_extension("a.txt"));
    assert!(!has_snapshot_extension("a.db.bak"));
    assert!(!has_snapshot_extension("a.DB"));
    assert!(!has_snapshot_extension("adb"));
}

#[test]
fn snapshot_extension_agrees_with_the_path_extension() {
    let names = ["a.db", ".db", "..db", "db", "x.y.db", "a.db.", "a.dbx", "é.db", "a.txt"];
    for name in names {
        let expected = std::path::Path::new(name).extension().and_then(|s| s.to_str())
            == Some("db");
        assert_eq!(has_snapshot_extension(name), expected);
    }
}

#[test]
fn names_contain_identifiers_as_substrings() {
    let name = "20240131T235959_set-x_19190ce0.db";
    assert!(name_contains(name, "19190ce0"));
    assert!(name_contains(name, "1919"));
    assert!(name_contains(name, "set-x"));
    assert!(name_contains(name, name));
    assert!(name_contains(name, ""));
    assert!(name_contains("", ""));
    assert!(!name_contains(name, "19190ce1"));
    assert!(!name_contains(name, "x20240131"));
    assert!(!name_contains("", "a"));
    assert!(!name_contains("ab", "abc"));
    assert!(name_contains("päckchen.db", "äck"));
}

#[test]
fn bytes_are_searched_at_every_position() {
    assert!(contains_bytes(b"aaab", b"aab"));
    assert!(contains_bytes(b"abcabd", b"abd"));
    assert!(contains_bytes(b"abc", b"c"));
    assert!(contains_bytes(b"abc", b"a"));
    assert!(!contains_bytes(b"abcabc", b"abd"));
    assert!(!contains_bytes(b"ab", b"ba"));
}
