//! Git-style content fingerprints.

use cache_archive::hash::{git_like_hash_bytes, u64_decimal};

#[test]
fn decimal_rendering() {
    assert_eq!(u64_decimal(0), b"0".to_vec());
    assert_eq!(u64_decimal(7), b"7".to_vec());
    assert_eq!(u64_decimal(10), b"10".to_vec());
    assert_eq!(u64_decimal(1234), b"1234".to_vec());
    assert_eq!(u64_decimal(18446744073709551615), b"18446744073709551615".to_vec());
}

#[test]
fn blob_hash_matches_git() {
    // the same value git computes for a blob with these contents
    let body = b"some-file-contents".to_vec();
    let hash = git_like_hash_bytes(body.len() as u64, &body);
    assert_eq!(hash, "7e59c6a6ea9098c6d3beb00e753e2c54ea502311");
}

#[test]
fn empty_blob_hash_matches_git() {
    // git hash-object on an empty file
    let body: Vec<u8> = Vec::new();
    let hash = git_like_hash_bytes(0, &body);
    assert_eq!(hash, "e69de29bb2d1d6434b8b29ae775ad8c2e48c5391");
}

#[test]
fn declared_length_is_hashed_as_given() {
    // a stale length changes the fingerprint
    let body = b"abc".to_vec();
    let a = git_like_hash_bytes(3, &body);
    let b = git_like_hash_bytes(4, &body);
    assert_ne!(a, b);
}
