use kvstore::content_hash::{hash_payload, to_hex};

#[test]
fn hex_has_two_lowercase_digits_per_byte() {
    assert_eq!(to_hex(&[0x00, 0x0f, 0xa5, 0xff, 0x10]), "000fa5ff10");
    assert_eq!(to_hex(&[]), "");
    assert_eq!(to_hex(&[0xbe, 0xef]), "beef");
}

#[test]
fn content_hash_is_the_sha256_of_the_payload() {
    let (full, short) = hash_payload(b"hello world");
    assert_eq!(full, "b94d27b9934d3e08a52e52d7da7dabfac484efe37a5380ee9088f7ace2efcde9");
    assert_eq!(short, "b94d27b9");
}

#[test]
fn content_hash_of_no_bytes() {
    let (full, short) = hash_payload(&[]);
    assert_eq!(full, "e3b0c44298fc1c149afbf4c8996fb92427ae41e4649b934ca495991b7852b855");
    assert_eq!(short, "e3b0c442");
    assert_eq!(full.len(), 64);
}
