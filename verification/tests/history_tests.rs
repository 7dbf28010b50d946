use kvstore::diff::DiffEntry;
use kvstore::directory::SnapshotFile;
use kvstore::error::SnapshotError;
use kvstore::history::SnapshotRecord;
use kvstore::snapshot::load_snapshot;
use kvstore::store::KVStore;

fn filed(record: &SnapshotRecord, modified: u128) -> SnapshotFile {
    SnapshotFile {
        name: record.name.clone(),
        modified: Some(modified),
        payload: record.payload.clone(),
    }
}

#[test]
fn first_set_is_captured_by_its_snapshot() {
    let mut store = KVStore::new();
    store.set("x".to_string(), "1".to_string());
    let record = store.snapshot_at("20240131T235959", "set", "x").unwrap();
    assert_eq!(record.name, "20240131T235959_set-x_19190ce0.db");
    assert_eq!(record.hash, "19190ce0bdd773662eb8421ccb0e8acf94677d8e11e4cda7a4202e55331a90ce");
    let snapshot = load_snapshot(&record.payload).unwrap();
    assert_eq!(snapshot.len(), 1);
    assert_eq!(snapshot.get("x"), Some("1".to_string()));
    assert_eq!(store.get("x"), Some("1".to_string()));
}

#[test]
fn delete_shows_up_as_removed_between_snapshots() {
    let mut store = KVStore::new();
    store.set("x".to_string(), "1".to_string());
    let s1 = store.snapshot_at("20240101T000000", "set", "x").unwrap();
    store.delete("x");
    let s2 = store.snapshot_at("20240101T000001", "delete", "x").unwrap();
    let files = vec![filed(&s1, 1), filed(&s2, 2)];
    let report = KVStore::compare_snapshots(&files, &s1.hash[..8], &s2.hash[..8]).unwrap();
    assert_eq!(
        report,
        vec![DiffEntry::Removed { key: "x".to_string(), old_value: "1".to_string() }]
    );
}

#[test]
fn overwrite_shows_up_as_changed_between_snapshots() {
    let mut store = KVStore::new();
    store.set("a".to_string(), "1".to_string());
    let s1 = store.snapshot_at("20240101T000000", "set", "a").unwrap();
    store.set("a".to_string(), "2".to_string());
    let s2 = store.snapshot_at("20240101T000001", "set", "a").unwrap();
    assert_eq!(s1.name, "20240101T000000_set-a_a4f3cad0.db");
    assert_eq!(s2.name, "20240101T000001_set-a_dc673a4a.db");
    let files = vec![filed(&s1, 1), filed(&s2, 2)];
    let report = KVStore::compare_snapshots(&files, "a4f3cad0", "dc673a4a").unwrap();
    assert_eq!(
        report,
        vec![DiffEntry::Changed {
            key: "a".to_string(),
            old_value: "1".to_string(),
            new_value: "2".to_string(),
        }]
    );
}

#[test]
fn empty_directory_restores_nothing_without_error() {
    let mut store = KVStore::new();
    assert_eq!(store.restore_latest(&Vec::new()), Ok(()));
    assert_eq!(store.get("anything"), None);
    assert_eq!(store.len(), 0);
}

#[test]
fn short_identifier_shared_by_two_files_is_ambiguous() {
    let mut store = KVStore::new();
    store.set("keep".to_string(), "me".to_string());
    let files = vec![
        SnapshotFile { name: "t1_set-a_ab12cd34.db".to_string(), modified: Some(1), payload: vec![0u8; 8] },
        SnapshotFile { name: "t2_set-b_ab12ef56.db".to_string(), modified: Some(2), payload: vec![0u8; 8] },
    ];
    assert_eq!(store.restore_by_hash(&files, "ab12"), Err(SnapshotError::AmbiguousMatch));
    assert_eq!(store.get("keep"), Some("me".to_string()));
    assert_eq!(
        KVStore::compare_snapshots(&files, "ab12", "ab12ef56").err(),
        Some(SnapshotError::AmbiguousMatch)
    );
}

#[test]
fn restore_after_write_reproduces_the_map() {
    let mut store = KVStore::new();
    store.set("k1".to_string(), "v1".to_string());
    store.set("k2".to_string(), "v2".to_string());
    let record = store.snapshot_at("20240101T000000", "set", "k2").unwrap();
    let mut files = vec![SnapshotFile {
        name: "20231231T000000_set-z_00000000.db".to_string(),
        modified: Some(0),
        payload: vec![0u8; 8],
    }];
    files.push(filed(&record, 5));
    store.set("k3".to_string(), "v3".to_string());
    store.delete("k1");
    assert_eq!(store.restore_by_hash(&files, &record.hash[..8]), Ok(()));
    assert_eq!(store.len(), 2);
    assert_eq!(store.get("k1"), Some("v1".to_string()));
    assert_eq!(store.get("k2"), Some("v2".to_string()));
    assert_eq!(store.get("k3"), None);
    assert_eq!(store.serialize().unwrap(), record.payload);
}

#[test]
fn restore_by_hash_reports_what_went_wrong_and_keeps_the_map() {
    let mut store = KVStore::new();
    store.set("keep".to_string(), "me".to_string());
    let files = vec![SnapshotFile {
        name: "t_set-a_deadbeef.db".to_string(),
        modified: Some(1),
        payload: vec![9u8; 3],
    }];
    assert_eq!(store.restore_by_hash(&files, "cafe"), Err(SnapshotError::NotFound));
    assert_eq!(store.restore_by_hash(&files, "deadbeef"), Err(SnapshotError::Decode));
    assert_eq!(store.restore_by_hash(&Vec::new(), "deadbeef"), Err(SnapshotError::NotFound));
    assert_eq!(store.get("keep"), Some("me".to_string()));
    assert_eq!(store.len(), 1);
}

#[test]
fn restore_latest_takes_the_snapshot_modified_last() {
    let mut a = KVStore::new();
    a.set("v".to_string(), "old".to_string());
    let first = a.snapshot_at("20240101T000000", "set", "v").unwrap();
    a.set("v".to_string(), "new".to_string());
    let second = a.snapshot_at("20240101T000001", "set", "v").unwrap();
    let files = vec![filed(&second, 200), filed(&first, 100)];
    let mut store = KVStore::new();
    assert_eq!(store.restore_latest(&files), Ok(()));
    assert_eq!(store.get("v"), Some("new".to_string()));
    let files = vec![filed(&second, 100), filed(&first, 200)];
    assert_eq!(store.restore_latest(&files), Ok(()));
    assert_eq!(store.get("v"), Some("old".to_string()));
}

#[test]
fn restore_latest_surfaces_a_broken_latest_snapshot() {
    let mut store = KVStore::new();
    store.set("keep".to_string(), "me".to_string());
    let good = store.snapshot_at("20240101T000000", "set", "keep").unwrap();
    let files = vec![
        filed(&good, 1),
        SnapshotFile { name: "broken.db".to_string(), modified: Some(2), payload: vec![1, 2] },
    ];
    store.set("other".to_string(), "x".to_string());
    assert_eq!(store.restore_latest(&files), Err(SnapshotError::Decode));
    assert_eq!(store.len(), 2);
    assert_eq!(store.get("other"), Some("x".to_string()));
}

#[test]
fn snapshot_named_carries_a_sortable_timestamp() {
    let mut store = KVStore::new();
    store.set("x".to_string(), "1".to_string());
    let record = store.snapshot_named("set", "x").unwrap();
    assert!(record.name.ends_with("_set-x_19190ce0.db"));
    let stamp = &record.name[..record.name.len() - "_set-x_19190ce0.db".len()];
    assert_eq!(stamp.len(), 15);
    for (i, c) in stamp.chars().enumerate() {
        if i == 8 {
            assert_eq!(c, 'T');
        } else {
            assert!(c.is_ascii_digit());
        }
    }
    assert!(stamp > "20200101T000000");
    assert_eq!(record.payload, store.serialize().unwrap());
    assert_eq!(record.hash.len(), 64);
    assert_eq!(&record.hash[..8], "19190ce0");
}

#[test]
fn snapshot_hashed_is_filed_under_its_full_hash() {
    let store = KVStore::new();
    let record = store.snapshot_hashed().unwrap();
    assert_eq!(record.hash, "af5570f5a1810b7af78caf4bc70a660f0df51e42baf91d4de5b2328de0e83dfc");
    assert_eq!(
        record.name,
        "af5570f5a1810b7af78caf4bc70a660f0df51e42baf91d4de5b2328de0e83dfc.db"
    );
    assert_eq!(record.payload, vec![0u8; 8]);
    let files = vec![filed(&record, 1)];
    let mut other = KVStore::new();
    other.set("gone".to_string(), "soon".to_string());
    assert_eq!(other.restore_by_hash(&files, &record.hash), Ok(()));
    assert_eq!(other.len(), 0);
}

#[test]
fn same_content_has_the_same_hash_whatever_its_history() {
    let mut a = KVStore::new();
    a.set("p".to_string(), "1".to_string());
    a.set("q".to_string(), "2".to_string());
    let mut b = KVStore::new();
    b.set("q".to_string(), "0".to_string());
    b.set("r".to_string(), "9".to_string());
    b.set("p".to_string(), "1".to_string());
    b.delete("r");
    b.set("q".to_string(), "2".to_string());
    let ra = a.snapshot_at("t1", "set", "q").unwrap();
    let rb = b.snapshot_at("t2", "set", "q").unwrap();
    assert_eq!(ra.hash, rb.hash);
    assert_eq!(ra.payload, rb.payload);
    b.set("q".to_string(), "3".to_string());
    assert_ne!(b.snapshot_at("t3", "set", "q").unwrap().hash, ra.hash);
}

#[test]
fn compare_snapshots_resolves_before_it_decodes() {
    let store = KVStore::new();
    let good = store.snapshot_at("t", "set", "k").unwrap();
    let files = vec![
        filed(&good, 1),
        SnapshotFile { name: "broken_11111111.db".to_string(), modified: Some(2), payload: vec![7] },
    ];
    assert_eq!(
        KVStore::compare_snapshots(&files, "11111111", "missing").err(),
        Some(SnapshotError::NotFound)
    );
    assert_eq!(
        KVStore::compare_snapshots(&files, "missing", "11111111").err(),
        Some(SnapshotError::NotFound)
    );
    assert_eq!(
        KVStore::compare_snapshots(&files, "11111111", &good.hash[..8]).err(),
        Some(SnapshotError::Decode)
    );
    assert_eq!(
        KVStore::compare_snapshots(&files, &good.hash[..8], "11111111").err(),
        Some(SnapshotError::Decode)
    );
    assert_eq!(
        KVStore::compare_snapshots(&files, &good.hash[..8], &good.hash[..8]),
        Ok(Vec::new())
    );
}

#[test]
fn list_snapshots_names_the_snapshots_of_the_directory() {
    let store = KVStore::new();
    let files = vec![
        SnapshotFile { name: "b.db".to_string(), modified: None, payload: Vec::new() },
        SnapshotFile { name: "a.tmp".to_string(), modified: None, payload: Vec::new() },
        SnapshotFile { name: "a.db".to_string(), modified: None, payload: Vec::new() },
    ];
    assert_eq!(store.list_snapshots(&files), vec!["b.db".to_string(), "a.db".to_string()]);
}
