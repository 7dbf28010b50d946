//! Turning a map into its payload and a payload back into a map.

use vstd::prelude::*;
use crate::entries::pairs_of;
use crate::error::SnapshotError;
use crate::payload::{
    decodable, decoded_map, lemma_decoded_is, payload_bytes, snapshot_payload,
};
use crate::store::KVStore;

verus! {

#[verifier::external_type_specification]
#[verifier::external_body]
pub struct ExBincodeErrorKind(bincode::ErrorKind);

/// `bincode::serialize`, applied to a vector of string pairs.
///
/// Trusted: the call succeeds, and its bytes are the payload of the pairs as
/// `payload_bytes` lays it out, which is the layout that bincode documents for its plain
/// functions (fixed eight-byte little-endian lengths, a sequence as its length and its
/// items, a tuple as its fields, a string as its byte length and its UTF-8 bytes). It
/// succeeds because none of bincode's reasons to refuse can arise here: these functions
/// set no size limit, a vector always knows its length, and the bytes go into a vector
/// in memory, which takes every write.
#[verifier::external_body]
fn bincode_serialize(pairs: &Vec<(String, String)>) -> (r: Result<Vec<u8>, bincode::Error>)
    ensures
        r is Ok,
        r matches Ok(bytes) ==> bytes@ == payload_bytes(pairs_of(pairs@)),
{
    bincode::serialize(pairs)
}

/// `bincode::deserialize`, asked for a vector of string pairs.
///
/// Trusted: the pairs that come back are pairs whose payload the bytes begin with (what
/// follows the payload is ignored), and the call fails only on bytes that begin with no
/// payload at all: too short for the lengths they announce, or not UTF-8 where a string
/// is announced.
#[verifier::external_body]
fn bincode_deserialize(data: &[u8]) -> (r: Result<Vec<(String, String)>, bincode::Error>)
    ensures
        r matches Ok(pairs) ==> payload_bytes(pairs_of(pairs@)).is_prefix_of(data@),
        r is Err ==> !decodable(data@),
{
    bincode::deserialize(data)
}

/// Encodes the map as its payload. This always succeeds, and the bytes depend on nothing
/// but the content of the map.
pub fn save_snapshot(store: &KVStore) -> (r: Result<Vec<u8>, SnapshotError>)
    ensures
        r matches Ok(bytes) && bytes@ == snapshot_payload(store@),
{
    match bincode_serialize(store.entries()) {
        Ok(bytes) => Ok(bytes),
        Err(_) => vstd::pervasive::unreached(),
    }
}

/// Decodes a payload. The result is the map of the pairs that the bytes begin with;
/// bytes that begin with no payload are refused.
pub fn load_snapshot(data: &[u8]) -> (r: Result<KVStore, SnapshotError>)
    ensures
        match r {
            Ok(store) => decoded_map(data@) == Some(store@),
            Err(e) => e == SnapshotError::Decode && decoded_map(data@) is None,
        },
{
    match bincode_deserialize(data) {
        Ok(pairs) => {
            proof {
                assert(data@.len() <= usize::MAX) by {
                    vstd::slice::axiom_spec_len(data);
                    assert(data.len() == data@.len());
                }
                lemma_decoded_is(pairs_of(pairs@), data@);
            }
            Ok(KVStore::from_pairs(&pairs))
        },
        Err(_) => Err(SnapshotError::Decode),
    }
}

impl KVStore {
    /// The payload of the map as it stands. This always succeeds.
    pub fn serialize(&self) -> (r: Result<Vec<u8>, SnapshotError>)
        ensures
            r matches Ok(bytes) && bytes@ == snapshot_payload(self@),
    {
        save_snapshot(self)
    }

    /// Puts the map that `data` holds in place of the map's own content. This happens
    /// all at once or not at all: where `data` is refused the map is left as it was.
    pub fn deserialize(&mut self, data: &[u8]) -> (r: Result<(), SnapshotError>)
        ensures
            match r {
                Ok(_) => decoded_map(data@) == Some(final(self)@),
                Err(e) => {
                    &&& e == SnapshotError::Decode
                    &&& decoded_map(data@) is None
                    &&& final(self)@ == old(self)@
                },
            },
    {
        match load_snapshot(data) {
            Ok(restored) => {
                self.replace(restored);
                Ok(())
            },
            Err(e) => Err(e),
        }
    }
}

} // verus!
