//! The content hash of a payload: its SHA-256 digest in lowercase hexadecimal.

use vstd::prelude::*;
use vstd::slice::slice_subrange;
use sha2::Digest;

verus! {

/// The SHA-256 digest of `data`.
pub uninterp spec fn sha256(data: Seq<u8>) -> Seq<u8>;

/// `sha2::Sha256::digest`, its output copied into a vector.
///
/// Trusted: the call computes a function of the bytes alone, named `sha256` here, and
/// its output is 32 bytes long, as SHA-256 is defined.
#[verifier::external_body]
fn sha256_digest(data: &[u8]) -> (r: Vec<u8>)
    ensures
        r@ == sha256(data@),
        r@.len() == 32,
{
    sha2::Sha256::digest(data).to_vec()
}

/// The hexadecimal digit for a value below sixteen, lowercase.
pub open spec fn hex_digit(n: u8) -> char {
    if n == 0 {
        '0'
    } else if n == 1 {
        '1'
    } else if n == 2 {
        '2'
    } else if n == 3 {
        '3'
    } else if n == 4 {
        '4'
    } else if n == 5 {
        '5'
    } else if n == 6 {
        '6'
    } else if n == 7 {
        '7'
    } else if n == 8 {
        '8'
    } else if n == 9 {
        '9'
    } else if n == 10 {
        'a'
    } else if n == 11 {
        'b'
    } else if n == 12 {
        'c'
    } else if n == 13 {
        'd'
    } else if n == 14 {
        'e'
    } else {
        'f'
    }
}

/// Two hexadecimal digits for every byte, the high half first.
pub open spec fn hex_string(bytes: Seq<u8>) -> Seq<char> {
    Seq::new(
        2 * bytes.len(),
        |i: int| hex_digit(if i % 2 == 0 { bytes[i / 2] / 16 } else { bytes[i / 2] % 16 }),
    )
}

/// The content hash of a payload: 64 hexadecimal digits.
pub open spec fn content_hash(payload: Seq<u8>) -> Seq<char> {
    hex_string(sha256(payload))
}

/// The short form of the content hash under which a snapshot is filed: its first eight
/// digits.
pub open spec fn short_hash(payload: Seq<u8>) -> Seq<char> {
    hex_string(sha256(payload).take(4))
}

/// The digits of the first bytes are the first digits.
pub proof fn lemma_hex_of_prefix(bytes: Seq<u8>, n: int)
    requires
        0 <= n <= bytes.len(),
    ensures
        hex_string(bytes.take(n)) == hex_string(bytes).take(2 * n),
{
    assert(hex_string(bytes.take(n)) =~= hex_string(bytes).take(2 * n));
}

/// The digit for a value below sixteen, as text.
pub(crate) fn hex_digit_text(n: u8) -> (r: &'static str)
    requires
        n < 16,
    ensures
        r@ == seq![hex_digit(n)],
{
    proof {
        reveal_strlit("0");
        reveal_strlit("1");
        reveal_strlit("2");
        reveal_strlit("3");
        reveal_strlit("4");
        reveal_strlit("5");
        reveal_strlit("6");
        reveal_strlit("7");
        reveal_strlit("8");
        reveal_strlit("9");
        reveal_strlit("a");
        reveal_strlit("b");
        reveal_strlit("c");
        reveal_strlit("d");
        reveal_strlit("e");
        reveal_strlit("f");
    }
    let r = match n {
        0 => "0",
        1 => "1",
        2 => "2",
        3 => "3",
        4 => "4",
        5 => "5",
        6 => "6",
        7 => "7",
        8 => "8",
        9 => "9",
        10 => "a",
        11 => "b",
        12 => "c",
        13 => "d",
        14 => "e",
        _ => "f",
    };
    assert(r@ =~= seq![hex_digit(n)]);
    r
}

/// Writes bytes out in lowercase hexadecimal.
pub fn to_hex(bytes: &[u8]) -> (r: String)
    ensures
        r@ == hex_string(bytes@),
{
    let mut out = String::new();
    let mut i: usize = 0;
    assert(out@ =~= hex_string(bytes@.take(0)));
    while i < bytes.len()
        invariant
            i <= bytes@.len(),
            out@ == hex_string(bytes@.take(i as int)),
        decreases bytes@.len() - i,
    {
        let b: u8 = bytes[i];
        let ghost before = out@;
        out.append(hex_digit_text(b / 16));
        out.append(hex_digit_text(b % 16));
        assert(out@ =~= hex_string(bytes@.take(i + 1))) by {
            let next = hex_string(bytes@.take(i + 1));
            assert(out@ == before + seq![hex_digit(b / 16)] + seq![
                hex_digit(b % 16),
            ]);
            assert(out@.len() == next.len());
            assert forall|j: int| 0 <= j < next.len() implies out@[j] == next[j] by {
                if j < 2 * i {
                    assert(bytes@.take(i + 1)[j / 2] == bytes@.take(i as int)[j / 2]);
                    assert(before[j] == next[j]);
                } else {
                    assert(j / 2 == i);
                    assert(bytes@.take(i + 1)[j / 2] == b);
                }
            }
        }
        i += 1;
    }
    assert(bytes@.take(i as int) =~= bytes@);
    out
}

/// The content hash of a payload and its short form.
pub fn hash_payload(payload: &[u8]) -> (r: (String, String))
    ensures
        r.0@ == content_hash(payload@),
        r.1@ == short_hash(payload@),
        r.0@.len() == 64,
        r.1@ == r.0@.take(8),
{
    let digest = sha256_digest(payload);
    let full = to_hex(digest.as_slice());
    let short = to_hex(slice_subrange(digest.as_slice(), 0, 4));
    proof {
        assert(digest@.subrange(0, 4) =~= digest@.take(4));
        lemma_hex_of_prefix(digest@, 4);
    }
    (full, short)
}

} // verus!
