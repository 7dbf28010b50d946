//! The layout of a snapshot payload, and why it can be read back in only one way.
//!
//! A payload is the number of pairs, then every pair as its key followed by its value.
//! A number takes eight bytes, least significant first; a string is the number of its
//! UTF-8 bytes followed by those bytes. Nothing else is written: no header, no padding.

use vstd::prelude::*;
use vstd::bytes::{lemma_auto_spec_u64_to_from_le_bytes, spec_u64_from_le_bytes, spec_u64_to_le_bytes};
use vstd::utf8::encode_utf8;
use crate::entries::{canonical_entries, lemma_canonical_exists, map_of, Entry};
use crate::key_order::lemma_utf8_injective;

verus! {

/// A length as it stands in a payload: eight bytes, least significant first.
pub open spec fn length_prefix(n: nat) -> Seq<u8> {
    spec_u64_to_le_bytes(n as u64)
}

/// A string as it stands in a payload: the length of its UTF-8 form, then that form.
pub open spec fn text_bytes(s: Seq<char>) -> Seq<u8> {
    length_prefix(encode_utf8(s).len()) + encode_utf8(s)
}

/// A pair as it stands in a payload: the key, then the value.
pub open spec fn entry_bytes(p: Entry) -> Seq<u8> {
    text_bytes(p.0) + text_bytes(p.1)
}

/// The pairs of a list one after another.
pub open spec fn entries_bytes(e: Seq<Entry>) -> Seq<u8>
    decreases e.len(),
{
    if e.len() == 0 {
        Seq::empty()
    } else {
        entries_bytes(e.drop_last()) + entry_bytes(e.last())
    }
}

/// The payload that holds the pairs of `e` in their order.
pub open spec fn payload_bytes(e: Seq<Entry>) -> Seq<u8> {
    length_prefix(e.len()) + entries_bytes(e)
}

/// The payload of a map: that of its canonical form. Equal maps have equal payloads.
pub open spec fn snapshot_payload(m: Map<Seq<char>, Seq<char>>) -> Seq<u8> {
    payload_bytes(canonical_entries(m))
}

/// Some list of pairs has a payload with which `data` begins.
pub open spec fn decodable(data: Seq<u8>) -> bool {
    exists|e: Seq<Entry>| (#[trigger] payload_bytes(e)).is_prefix_of(data)
}

/// The pairs whose payload `data` begins with, where there are such. Bytes that follow
/// the payload are not looked at.
pub open spec fn decoded_entries(data: Seq<u8>) -> Option<Seq<Entry>> {
    if decodable(data) {
        Some(choose|e: Seq<Entry>| (#[trigger] payload_bytes(e)).is_prefix_of(data))
    } else {
        None
    }
}

/// The map that `data` holds: its pairs inserted in their order, so that of two pairs
/// with the same key the later one counts.
pub open spec fn decoded_map(data: Seq<u8>) -> Option<Map<Seq<char>, Seq<char>>> {
    match decoded_entries(data) {
        Some(e) => Some(map_of(e)),
        None => None,
    }
}

/// The largest length that eight bytes can hold.
pub open spec fn max_length() -> nat {
    0xffff_ffff_ffff_ffff
}

proof fn lemma_length_prefix(n: nat)
    ensures
        length_prefix(n).len() == 8,
        n <= max_length() ==> spec_u64_from_le_bytes(length_prefix(n)) == n,
{
    lemma_auto_spec_u64_to_from_le_bytes();
}

/// A string takes its eight bytes of length and its UTF-8 bytes.
pub proof fn lemma_text_bytes_len(s: Seq<char>)
    ensures
        text_bytes(s).len() == 8 + encode_utf8(s).len(),
{
    lemma_length_prefix(encode_utf8(s).len());
}

/// Every pair takes at least sixteen bytes, and a list as much as its pairs together.
pub proof fn lemma_entries_bytes_len(e: Seq<Entry>)
    ensures
        entries_bytes(e).len() >= 16 * e.len(),
        e.len() > 0 ==> entries_bytes(e).len() == entries_bytes(e.drop_last()).len() + 16
            + encode_utf8(e.last().0).len() + encode_utf8(e.last().1).len(),
    decreases e.len(),
{
    if e.len() > 0 {
        lemma_entries_bytes_len(e.drop_last());
        lemma_text_bytes_len(e.last().0);
        lemma_text_bytes_len(e.last().1);
    }
}

/// Two strings that both stand at the start of the same bytes are the same string.
proof fn lemma_text_unique(s1: Seq<char>, s2: Seq<char>, data: Seq<u8>)
    requires
        text_bytes(s1).is_prefix_of(data),
        text_bytes(s2).is_prefix_of(data),
        data.len() <= max_length(),
    ensures
        s1 == s2,
{
    let b1 = encode_utf8(s1);
    let b2 = encode_utf8(s2);
    lemma_text_bytes_len(s1);
    lemma_text_bytes_len(s2);
    lemma_length_prefix(b1.len());
    lemma_length_prefix(b2.len());
    let t1 = text_bytes(s1);
    let t2 = text_bytes(s2);
    assert(length_prefix(b1.len()) =~= t1.subrange(0, 8));
    assert(length_prefix(b2.len()) =~= t2.subrange(0, 8));
    assert(t1.subrange(0, 8) =~= data.subrange(0, 8));
    assert(t2.subrange(0, 8) =~= data.subrange(0, 8));
    assert(b1.len() == b2.len());
    assert(b1 =~= t1.subrange(8, t1.len() as int));
    assert(b2 =~= t2.subrange(8, t2.len() as int));
    assert(t1 =~= t2);
    lemma_utf8_injective(s1, s2);
}

/// Two pairs that both stand at the start of the same bytes are the same pair.
proof fn lemma_entry_unique(left: Entry, right: Entry, data: Seq<u8>)
    requires
        entry_bytes(left).is_prefix_of(data),
        entry_bytes(right).is_prefix_of(data),
        data.len() <= max_length(),
    ensures
        left == right,
{
    let k1 = text_bytes(left.0);
    let k2 = text_bytes(right.0);
    assert(k1.is_prefix_of(data)) by {
        assert(k1 =~= entry_bytes(left).subrange(0, k1.len() as int));
    }
    assert(k2.is_prefix_of(data)) by {
        assert(k2 =~= entry_bytes(right).subrange(0, k2.len() as int));
    }
    lemma_text_unique(left.0, right.0, data);
    let rest = data.skip(k1.len() as int);
    let v1 = text_bytes(left.1);
    let v2 = text_bytes(right.1);
    assert(v1.is_prefix_of(rest)) by {
        assert(v1 =~= entry_bytes(left).skip(k1.len() as int));
    }
    assert(v2.is_prefix_of(rest)) by {
        assert(v2 =~= entry_bytes(right).skip(k1.len() as int));
    }
    lemma_text_unique(left.1, right.1, rest);
}

/// Two lists of the same length whose pairs both stand at the start of the same bytes
/// are the same list.
proof fn lemma_entries_unique(e1: Seq<Entry>, e2: Seq<Entry>, data: Seq<u8>)
    requires
        e1.len() == e2.len(),
        entries_bytes(e1).is_prefix_of(data),
        entries_bytes(e2).is_prefix_of(data),
        data.len() <= max_length(),
    ensures
        e1 == e2,
    decreases e1.len(),
{
    if e1.len() == 0 {
        assert(e1 =~= e2);
    } else {
        let i1 = e1.drop_last();
        let i2 = e2.drop_last();
        let h1 = entries_bytes(i1);
        let h2 = entries_bytes(i2);
        assert(h1.is_prefix_of(data)) by {
            assert(h1 =~= entries_bytes(e1).subrange(0, h1.len() as int));
        }
        assert(h2.is_prefix_of(data)) by {
            assert(h2 =~= entries_bytes(e2).subrange(0, h2.len() as int));
        }
        lemma_entries_unique(i1, i2, data);
        let rest = data.skip(h1.len() as int);
        assert(entry_bytes(e1.last()).is_prefix_of(rest)) by {
            assert(entry_bytes(e1.last()) =~= entries_bytes(e1).skip(h1.len() as int));
        }
        assert(entry_bytes(e2.last()).is_prefix_of(rest)) by {
            assert(entry_bytes(e2.last()) =~= entries_bytes(e2).skip(h1.len() as int));
        }
        lemma_entry_unique(e1.last(), e2.last(), rest);
        assert(e1 =~= i1.push(e1.last()));
        assert(e2 =~= i2.push(e2.last()));
    }
}

/// Two lists whose payloads both stand at the start of the same bytes are the same list.
pub proof fn lemma_payload_unique(e1: Seq<Entry>, e2: Seq<Entry>, data: Seq<u8>)
    requires
        payload_bytes(e1).is_prefix_of(data),
        payload_bytes(e2).is_prefix_of(data),
        data.len() <= max_length(),
    ensures
        e1 == e2,
{
    let first = payload_bytes(e1);
    let second = payload_bytes(e2);
    lemma_length_prefix(e1.len());
    lemma_length_prefix(e2.len());
    lemma_entries_bytes_len(e1);
    lemma_entries_bytes_len(e2);
    assert(length_prefix(e1.len()) =~= first.subrange(0, 8));
    assert(length_prefix(e2.len()) =~= second.subrange(0, 8));
    assert(first.subrange(0, 8) =~= data.subrange(0, 8));
    assert(second.subrange(0, 8) =~= data.subrange(0, 8));
    assert(e1.len() == e2.len());
    let rest = data.skip(8);
    assert(entries_bytes(e1).is_prefix_of(rest)) by {
        assert(entries_bytes(e1) =~= first.skip(8));
    }
    assert(entries_bytes(e2).is_prefix_of(rest)) by {
        assert(entries_bytes(e2) =~= second.skip(8));
    }
    lemma_entries_unique(e1, e2, rest);
}

/// Bytes that begin with the payload of `e` decode to `e` and to nothing else.
pub proof fn lemma_decoded_is(e: Seq<Entry>, data: Seq<u8>)
    requires
        payload_bytes(e).is_prefix_of(data),
        data.len() <= max_length(),
    ensures
        decoded_entries(data) == Some(e),
        decoded_map(data) == Some(map_of(e)),
{
    assert(decodable(data));
    let c = choose|c: Seq<Entry>| (#[trigger] payload_bytes(c)).is_prefix_of(data);
    lemma_payload_unique(c, e, data);
}

/// Reading back what was written gives the written pairs.
pub proof fn lemma_entries_round_trip(e: Seq<Entry>)
    requires
        payload_bytes(e).len() <= max_length(),
    ensures
        decoded_entries(payload_bytes(e)) == Some(e),
{
    let data = payload_bytes(e);
    assert(data.is_prefix_of(data)) by {
        assert(data =~= data.subrange(0, data.len() as int));
    }
    lemma_decoded_is(e, data);
}

/// Round trip: the payload of a map decodes to that map.
pub proof fn lemma_round_trip(m: Map<Seq<char>, Seq<char>>)
    requires
        m.dom().finite(),
        snapshot_payload(m).len() <= max_length(),
    ensures
        decoded_map(snapshot_payload(m)) == Some(m),
{
    lemma_canonical_exists(m);
    lemma_entries_round_trip(canonical_entries(m));
}

/// Two payloads are the same bytes exactly if they are payloads of the same map.
pub proof fn lemma_payload_identifies_map(
    a: Map<Seq<char>, Seq<char>>,
    b: Map<Seq<char>, Seq<char>>,
)
    requires
        a.dom().finite(),
        b.dom().finite(),
        snapshot_payload(a).len() <= max_length(),
    ensures
        snapshot_payload(a) == snapshot_payload(b) <==> a == b,
{
    if snapshot_payload(a) == snapshot_payload(b) {
        lemma_round_trip(a);
        lemma_round_trip(b);
    }
}

} // verus!
