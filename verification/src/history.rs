//! Taking snapshots of the map and going back to them.

use vstd::prelude::*;
use crate::content_hash::{content_hash, hash_payload, short_hash};
use crate::diff::{changes_of, compare, is_diff, DiffEntry};
use crate::directory::{
    file_matches, latest, lemma_resolved_is, resolve_by_identifier, resolve_latest, resolved,
    names_of, snapshots_only, texts_of, SnapshotFile,
};
use crate::error::SnapshotError;
use crate::clock::{timestamp, timestamp_text, utc_now, ClockReading};
use crate::naming::{
    hashed_file_name, hashed_name, lemma_hashed_name, lemma_snapshot_name, name_matches,
    snapshot_file_name, snapshot_name,
};
use crate::payload::{decoded_map, lemma_round_trip, snapshot_payload};
use crate::snapshot::{load_snapshot, save_snapshot};
use crate::store::KVStore;

verus! {

/// A snapshot that has been taken and waits to be written: the name to file it under,
/// the content hash of its payload, and the payload.
#[derive(Clone, Debug, PartialEq, Eq)]
pub struct SnapshotRecord {
    pub name: String,
    pub hash: String,
    pub payload: Vec<u8>,
}

impl SnapshotRecord {
    /// The record holds a snapshot of the map `content`: the map's payload and the
    /// payload's content hash, 64 digits of which the first eight are the short hash.
    pub open spec fn captures(&self, content: Map<Seq<char>, Seq<char>>) -> bool {
        &&& self.payload@ == snapshot_payload(content)
        &&& self.hash@ == content_hash(self.payload@)
        &&& self.hash@.len() == 64
        &&& self.hash@.take(8) == short_hash(self.payload@)
    }
}

impl KVStore {
    /// Takes a snapshot of the map as of the moment `timestamp`, caused by `operation`
    /// on `key`. This always succeeds.
    pub fn snapshot_at(&self, timestamp: &str, operation: &str, key: &str) -> (r: Result<
        SnapshotRecord,
        SnapshotError,
    >)
        ensures
            r matches Ok(record) && record.captures(self@) && record.name@ == snapshot_file_name(
                timestamp@,
                operation@,
                key@,
                short_hash(record.payload@),
            ),
    {
        match save_snapshot(self) {
            Ok(payload) => {
                let (hash, short) = hash_payload(payload.as_slice());
                let name = snapshot_name(timestamp, operation, key, short.as_str());
                Ok(SnapshotRecord { name, hash, payload })
            },
            Err(e) => Err(e),
        }
    }

    /// Takes a snapshot of the map as of now, caused by `operation` on `key`. This always
    /// succeeds. The name carries the timestamp of the moment at which this was called:
    /// that of some date and time of day, whichever the clock gave.
    pub fn snapshot_named(&self, operation: &str, key: &str) -> (r: Result<
        SnapshotRecord,
        SnapshotError,
    >)
        ensures
            r matches Ok(record) && record.captures(self@) && exists|now: ClockReading|
                now.is_valid() && record.name@ == snapshot_file_name(
                    #[trigger] timestamp_text(now),
                    operation@,
                    key@,
                    short_hash(record.payload@),
                ),
    {
        let now = utc_now();
        let text = timestamp(&now);
        self.snapshot_at(text.as_str(), operation, key)
    }

    /// Takes a snapshot of the map that is filed under its content hash alone. This
    /// always succeeds.
    pub fn snapshot_hashed(&self) -> (r: Result<SnapshotRecord, SnapshotError>)
        ensures
            r matches Ok(record) && record.captures(self@) && record.name@ == hashed_file_name(
                record.hash@,
            ),
    {
        match save_snapshot(self) {
            Ok(payload) => {
                let (hash, _short) = hash_payload(payload.as_slice());
                let name = hashed_name(hash.as_str());
                Ok(SnapshotRecord { name, hash, payload })
            },
            Err(e) => Err(e),
        }
    }

    /// Goes back to the snapshot that `hash` identifies: the one file of the directory
    /// whose name contains it. The map takes on the snapshot's content only when the
    /// file has been found and decoded; in every other case it is left as it was.
    pub fn restore_by_hash(&mut self, files: &Vec<SnapshotFile>, hash: &str) -> (r: Result<
        (),
        SnapshotError,
    >)
        ensures
            match resolved(files@, hash@) {
                Ok(at) => match decoded_map(files@[at].payload@) {
                    Some(content) => r is Ok && final(self)@ == content,
                    None => r == Err::<(), SnapshotError>(SnapshotError::Decode) && final(self)@
                        == old(self)@,
                },
                Err(e) => r == Err::<(), SnapshotError>(e) && final(self)@ == old(self)@,
            },
    {
        match resolve_by_identifier(files, hash) {
            Ok(at) => self.deserialize(files[at].payload.as_slice()),
            Err(e) => Err(e),
        }
    }

    /// Goes back to the latest snapshot of the directory. A directory without snapshots
    /// leaves the map as it is, which is no error; a latest snapshot that cannot be
    /// decoded is one.
    pub fn restore_latest(&mut self, files: &Vec<SnapshotFile>) -> (r: Result<(), SnapshotError>)
        ensures
            match latest(files@) {
                Some(at) => match decoded_map(files@[at].payload@) {
                    Some(content) => r is Ok && final(self)@ == content,
                    None => r == Err::<(), SnapshotError>(SnapshotError::Decode) && final(self)@
                        == old(self)@,
                },
                None => r is Ok && final(self)@ == old(self)@,
            },
    {
        match resolve_latest(files) {
            Some(at) => self.deserialize(files[at].payload.as_slice()),
            None => Ok(()),
        }
    }

    /// The names of the snapshots in the directory, in listing order.
    pub fn list_snapshots(&self, files: &Vec<SnapshotFile>) -> (r: Vec<String>)
        ensures
            texts_of(r@) == names_of(files@).filter(snapshots_only()),
    {
        crate::directory::list_snapshots(files)
    }

    /// The difference from the snapshot that `hash1` identifies to the one that `hash2`
    /// identifies. The first identifier is resolved first, then the second; then the
    /// first snapshot is decoded, then the second.
    pub fn compare_snapshots(files: &Vec<SnapshotFile>, hash1: &str, hash2: &str) -> (r: Result<
        Vec<DiffEntry>,
        SnapshotError,
    >)
        ensures
            match resolved(files@, hash1@) {
                Ok(first) => match resolved(files@, hash2@) {
                    Ok(second) => match (
                        decoded_map(files@[first].payload@),
                        decoded_map(files@[second].payload@),
                    ) {
                        (Some(a), Some(b)) => r matches Ok(report) && is_diff(
                            changes_of(report@),
                            a,
                            b,
                        ),
                        _ => r matches Err(e) && e == SnapshotError::Decode,
                    },
                    Err(e2) => r matches Err(e) && e == e2,
                },
                Err(e1) => r matches Err(e) && e == e1,
            },
    {
        let first = match resolve_by_identifier(files, hash1) {
            Ok(at) => at,
            Err(e) => {
                return Err(e);
            },
        };
        let second = match resolve_by_identifier(files, hash2) {
            Ok(at) => at,
            Err(e) => {
                return Err(e);
            },
        };
        let a = match load_snapshot(files[first].payload.as_slice()) {
            Ok(store) => store,
            Err(e) => {
                return Err(e);
            },
        };
        let b = match load_snapshot(files[second].payload.as_slice()) {
            Ok(store) => store,
            Err(e) => {
                return Err(e);
            },
        };
        Ok(compare(&a, &b))
    }
}

/// Restore after write: once a snapshot of the map `content` has been filed under its
/// name, its short hash resolves to that file and the file decodes to `content`,
/// provided that no other file of the directory has a name that contains the short
/// hash too.
pub proof fn lemma_restore_after_write(
    files: Seq<SnapshotFile>,
    at: int,
    content: Map<Seq<char>, Seq<char>>,
    timestamp: Seq<char>,
    operation: Seq<char>,
    key: Seq<char>,
)
    requires
        content.dom().finite(),
        0 <= at < files.len(),
        files[at].payload@ == snapshot_payload(content),
        files[at].name@ == snapshot_file_name(
            timestamp,
            operation,
            key,
            short_hash(snapshot_payload(content)),
        ),
        forall|j: int|
            0 <= j < files.len() && j != at ==> !name_matches(
                (#[trigger] files[j]).name@,
                short_hash(snapshot_payload(content)),
            ),
    ensures
        resolved(files, short_hash(snapshot_payload(content))) == Ok::<int, SnapshotError>(at),
        decoded_map(files[at].payload@) == Some(content),
{
    let id = short_hash(snapshot_payload(content));
    lemma_snapshot_name(timestamp, operation, key, id);
    assert(file_matches(files, at, id));
    lemma_resolved_is(files, id, at);
    vstd::std_specs::vec::axiom_spec_len(&files[at].payload);
    lemma_round_trip(content);
}

/// Restore after write, for a snapshot filed under its content hash alone: the hash
/// resolves to the file and the file decodes to `content`, provided that no other file
/// of the directory has a name that contains the hash too.
pub proof fn lemma_restore_after_hashed_write(
    files: Seq<SnapshotFile>,
    at: int,
    content: Map<Seq<char>, Seq<char>>,
)
    requires
        content.dom().finite(),
        0 <= at < files.len(),
        files[at].payload@ == snapshot_payload(content),
        files[at].name@ == hashed_file_name(content_hash(snapshot_payload(content))),
        forall|j: int|
            0 <= j < files.len() && j != at ==> !name_matches(
                (#[trigger] files[j]).name@,
                content_hash(snapshot_payload(content)),
            ),
    ensures
        resolved(files, content_hash(snapshot_payload(content))) == Ok::<int, SnapshotError>(at),
        decoded_map(files[at].payload@) == Some(content),
{
    let id = content_hash(snapshot_payload(content));
    lemma_hashed_name(id);
    assert(file_matches(files, at, id));
    lemma_resolved_is(files, id, at);
    vstd::std_specs::vec::axiom_spec_len(&files[at].payload);
    lemma_round_trip(content);
}

/// Hash determinism: two maps with the same content have the same payload, and so the
/// same content hash and the same short hash, whatever the operations that built them.
pub proof fn lemma_hash_determinism(a: KVStore, b: KVStore)
    requires
        a@ =~= b@,
    ensures
        snapshot_payload(a@) == snapshot_payload(b@),
        content_hash(snapshot_payload(a@)) == content_hash(snapshot_payload(b@)),
        short_hash(snapshot_payload(a@)) == short_hash(snapshot_payload(b@)),
{
}

} // verus!
