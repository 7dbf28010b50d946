//! How snapshot files are named, recognised and matched against an identifier.

use vstd::prelude::*;
use vstd::slice::slice_subrange;
use vstd::utf8::encode_utf8;
use crate::key_order::{compare_bytes, KeyOrder};

verus! {

/// `needle` stands in `hay` at position `at`.
pub open spec fn occurs_at(needle: Seq<u8>, hay: Seq<u8>, at: int) -> bool {
    0 <= at && at + needle.len() <= hay.len() && hay.subrange(at, at + needle.len()) == needle
}

/// `needle` stands somewhere in `hay`, as one contiguous run.
pub open spec fn occurs_in(needle: Seq<u8>, hay: Seq<u8>) -> bool {
    exists|at: int| occurs_at(needle, hay, at)
}

/// The file name contains the identifier: the UTF-8 bytes of the identifier occur in
/// those of the name. The empty identifier is contained in every name.
pub open spec fn name_matches(name: Seq<char>, identifier: Seq<char>) -> bool {
    occurs_in(encode_utf8(identifier), encode_utf8(name))
}

/// The extension that marks a file as a snapshot.
pub open spec fn snapshot_extension() -> Seq<char> {
    ".db"@
}

/// The name is that of a snapshot: it ends with the snapshot extension and has
/// something in front of it.
pub open spec fn is_snapshot_name(name: Seq<char>) -> bool {
    let bytes = encode_utf8(name);
    let ext = encode_utf8(snapshot_extension());
    bytes.len() > ext.len() && bytes.skip(bytes.len() - ext.len()) == ext
}

/// The name under which a snapshot is filed: when it was taken, which operation on which
/// key caused it, and the short hash of its payload.
pub open spec fn snapshot_file_name(
    timestamp: Seq<char>,
    operation: Seq<char>,
    key: Seq<char>,
    short_hash: Seq<char>,
) -> Seq<char> {
    timestamp + "_"@ + operation + "-"@ + key + "_"@ + short_hash + snapshot_extension()
}

/// The name of a snapshot that is filed under its content hash alone.
pub open spec fn hashed_file_name(hash: Seq<char>) -> Seq<char> {
    hash + snapshot_extension()
}

/// Tells whether `needle` occurs in `hay`.
pub fn contains_bytes(hay: &[u8], needle: &[u8]) -> (r: bool)
    ensures
        r == occurs_in(needle@, hay@),
{
    if needle.len() > hay.len() {
        return false;
    }
    if needle.len() == 0 {
        assert(occurs_at(needle@, hay@, 0)) by {
            assert(hay@.subrange(0, 0) =~= needle@);
        }
        return true;
    }
    let last: usize = hay.len() - needle.len();
    let mut start: usize = 0;
    while start <= last
        invariant
            0 < needle@.len() <= hay@.len() <= usize::MAX,
            last == hay@.len() - needle@.len(),
            start <= last + 1,
            forall|at: int| 0 <= at < start ==> !occurs_at(needle@, hay@, at),
        decreases last + 1 - start,
    {
        let window = slice_subrange(hay, start, start + needle.len());
        if compare_bytes(window, needle) == KeyOrder::Same {
            assert(occurs_at(needle@, hay@, start as int));
            return true;
        }
        start += 1;
    }
    false
}

/// Tells whether the file name contains the identifier.
pub fn name_contains(name: &str, identifier: &str) -> (r: bool)
    ensures
        r == name_matches(name@, identifier@),
{
    contains_bytes(name.as_bytes(), identifier.as_bytes())
}

/// Tells whether the file name is that of a snapshot.
pub fn has_snapshot_extension(name: &str) -> (r: bool)
    ensures
        r == is_snapshot_name(name@),
{
    let bytes = name.as_bytes();
    let ext = ".db".as_bytes();
    if bytes.len() <= ext.len() {
        return false;
    }
    let tail = slice_subrange(bytes, bytes.len() - ext.len(), bytes.len());
    assert(tail@ =~= bytes@.skip(bytes@.len() - ext@.len()));
    compare_bytes(tail, ext) == KeyOrder::Same
}

/// Builds the name under which a snapshot is filed.
pub fn snapshot_name(timestamp: &str, operation: &str, key: &str, short_hash: &str) -> (r: String)
    ensures
        r@ == snapshot_file_name(timestamp@, operation@, key@, short_hash@),
{
    let mut name = String::new();
    name.append(timestamp);
    name.append("_");
    name.append(operation);
    name.append("-");
    name.append(key);
    name.append("_");
    name.append(short_hash);
    name.append(".db");
    assert(name@ =~= snapshot_file_name(timestamp@, operation@, key@, short_hash@));
    name
}

/// Builds the name of a snapshot that is filed under its content hash alone.
pub fn hashed_name(hash: &str) -> (r: String)
    ensures
        r@ == hashed_file_name(hash@),
{
    let mut name = String::new();
    name.append(hash);
    name.append(".db");
    assert(name@ =~= hashed_file_name(hash@));
    name
}

/// The UTF-8 form of two strings joined is their UTF-8 forms joined.
pub proof fn lemma_encode_joined(a: Seq<char>, b: Seq<char>)
    ensures
        encode_utf8(a + b) == encode_utf8(a) + encode_utf8(b),
    decreases a.len(),
{
    if a.len() == 0 {
        assert(a + b =~= b);
        assert(encode_utf8(a) + encode_utf8(b) =~= encode_utf8(b));
    } else {
        lemma_encode_joined(a.drop_first(), b);
        assert((a + b).drop_first() =~= a.drop_first() + b);
        assert((a + b)[0] == a[0]);
        assert(encode_utf8(a + b) =~= encode_utf8(a) + encode_utf8(b));
    }
}

/// A name contains every piece that it was put together from.
pub proof fn lemma_piece_matches(before: Seq<char>, piece: Seq<char>, after: Seq<char>)
    ensures
        name_matches(before + piece + after, piece),
{
    lemma_encode_joined(before + piece, after);
    lemma_encode_joined(before, piece);
    let hay = encode_utf8(before + piece + after);
    let needle = encode_utf8(piece);
    let at = encode_utf8(before).len() as int;
    assert(hay.subrange(at, at + needle.len()) =~= needle);
    assert(occurs_at(needle, hay, at));
}

/// The name of a snapshot contains the short hash of its payload, and is recognised as
/// the name of a snapshot.
pub proof fn lemma_snapshot_name(
    timestamp: Seq<char>,
    operation: Seq<char>,
    key: Seq<char>,
    short_hash: Seq<char>,
)
    ensures
        name_matches(snapshot_file_name(timestamp, operation, key, short_hash), short_hash),
        is_snapshot_name(snapshot_file_name(timestamp, operation, key, short_hash)),
{
    let front = timestamp + "_"@ + operation + "-"@ + key + "_"@;
    let name = snapshot_file_name(timestamp, operation, key, short_hash);
    assert(name =~= front + short_hash + snapshot_extension());
    lemma_piece_matches(front, short_hash, snapshot_extension());
    reveal_strlit("_");
    assert((front + short_hash).len() > 0);
    lemma_ends_with_extension(front + short_hash);
}

/// The name of a snapshot filed under its hash contains that hash, and is recognised as
/// the name of a snapshot if the hash is not empty.
pub proof fn lemma_hashed_name(hash: Seq<char>)
    ensures
        name_matches(hashed_file_name(hash), hash),
        hash.len() > 0 ==> is_snapshot_name(hashed_file_name(hash)),
{
    lemma_piece_matches(Seq::empty(), hash, snapshot_extension());
    assert(Seq::<char>::empty() + hash =~= hash);
    if hash.len() > 0 {
        lemma_ends_with_extension(hash);
    }
}

proof fn lemma_ends_with_extension(stem: Seq<char>)
    ensures
        encode_utf8(stem + snapshot_extension()) == encode_utf8(stem) + encode_utf8(
            snapshot_extension(),
        ),
        stem.len() > 0 ==> is_snapshot_name(stem + snapshot_extension()),
        stem.len() == 0 ==> !is_snapshot_name(stem + snapshot_extension()),
{
    lemma_encode_joined(stem, snapshot_extension());
    let bytes = encode_utf8(stem + snapshot_extension());
    let ext = encode_utf8(snapshot_extension());
    assert(bytes.skip(bytes.len() - ext.len()) =~= ext);
    if stem.len() > 0 {
        assert(encode_utf8(stem).len() > 0) by {
            vstd::utf8::encode_utf8_decode_utf8(stem);
            if encode_utf8(stem).len() == 0 {
                assert(encode_utf8(stem) =~= encode_utf8(Seq::empty()));
                vstd::utf8::encode_utf8_decode_utf8(Seq::empty());
            }
        }
    } else {
        assert(encode_utf8(stem).len() == 0);
    }
}

} // verus!
