use kvstore::directory::{list_snapshots, resolve_by_identifier, resolve_latest, SnapshotFile};
use kvstore::error::SnapshotError;

fn file(name: &str, modified: Option<u128>) -> SnapshotFile {
    SnapshotFile { name: name.to_string(), modified, payload: vec![0u8; 8] }
}

#[test]
fn listing_keeps_snapshots_in_directory_order() {
    let files = vec![
        file("b_set-k_22222222.db", Some(2)),
        file("notes.txt", Some(9)),
        file("a_set-k_11111111.db", Some(1)),
        file(".db", Some(3)),
        file("c.db", None),
    ];
    assert_eq!(
        list_snapshots(&files),
        vec!["b_set-k_22222222.db".to_string(), "a_set-k_11111111.db".to_string(), "c.db".to_string()]
    );
    assert_eq!(list_snapshots(&Vec::new()), Vec::<String>::new());
}

#[test]
fn identifier_resolves_to_the_one_matching_file() {
    let files = vec![
        file("20240101T000000_set-a_aaaaaaaa.db", Some(1)),
        file("20240101T000001_set-b_bbbbbbbb.db", Some(2)),
        file("20240101T000002_delete-a_cccccccc.db", Some(3)),
    ];
    assert_eq!(resolve_by_identifier(&files, "bbbbbbbb"), Ok(1));
    assert_eq!(resolve_by_identifier(&files, "cccc"), Ok(2));
    assert_eq!(resolve_by_identifier(&files, "set-a"), Ok(0));
}

#[test]
fn identifier_without_a_match_is_not_found() {
    let files = vec![file("20240101T000000_set-a_aaaaaaaa.db", Some(1))];
    assert_eq!(resolve_by_identifier(&files, "dddddddd"), Err(SnapshotError::NotFound));
    assert_eq!(resolve_by_identifier(&Vec::new(), "aaaaaaaa"), Err(SnapshotError::NotFound));
    assert_eq!(resolve_by_identifier(&Vec::new(), ""), Err(SnapshotError::NotFound));
}

#[test]
fn identifier_with_two_matches_is_ambiguous() {
    let files = vec![
        file("20240101T000000_set-a_ab12cd34.db", Some(1)),
        file("20240101T000001_set-b_ab12ffff.db", Some(2)),
        file("20240101T000002_set-c_99999999.db", Some(3)),
    ];
    assert_eq!(resolve_by_identifier(&files, "ab12"), Err(SnapshotError::AmbiguousMatch));
    assert_eq!(resolve_by_identifier(&files, "ab12cd34"), Ok(0));
    assert_eq!(resolve_by_identifier(&files, ""), Err(SnapshotError::AmbiguousMatch));
    assert_eq!(resolve_by_identifier(&files, ".db"), Err(SnapshotError::AmbiguousMatch));
}

#[test]
fn latest_is_the_snapshot_modified_last() {
    let files = vec![
        file("a.db", Some(10)),
        file("b.db", Some(30)),
        file("c.db", Some(20)),
        file("later.txt", Some(99)),
    ];
    assert_eq!(resolve_latest(&files), Some(1));
}

#[test]
fn latest_of_equal_times_is_the_one_listed_last() {
    let files = vec![file("a.db", Some(5)), file("b.db", Some(5)), file("c.db", Some(1))];
    assert_eq!(resolve_latest(&files), Some(1));
}

#[test]
fn file_without_a_time_is_older_than_any_other() {
    let files = vec![file("a.db", Some(0)), file("b.db", None)];
    assert_eq!(resolve_latest(&files), Some(0));
    let timeless = vec![file("a.db", None), file("b.db", None)];
    assert_eq!(resolve_latest(&timeless), Some(1));
}

#[test]
fn directory_without_snapshots_has_no_latest() {
    assert_eq!(resolve_latest(&Vec::new()), None);
    assert_eq!(resolve_latest(&vec![file("readme.md", Some(1)), file(".db", Some(2))]), None);
}
