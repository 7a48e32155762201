//! Stability of the content hash: fixed reference values, determinism
//! across calls, and the shape of every produced hash string.

use oxen::hash::hash_bytes;
use oxen::hash::hash_str;

#[test]
fn test_hash_reference_values_are_stable() {
    // Known SHA-256 vectors, truncated to the first sixteen digest
    // bytes: the whole store is addressed by these, so they must never
    // change across releases.
    assert_eq!(hash_bytes(b"Hello"), "185f8db32271fe25f561a6fc938b2e26");
    assert_eq!(hash_bytes(b""), "e3b0c44298fc1c149afbf4c8996fb924");
    assert_eq!(hash_bytes(b"Hello World"), "a591a6d40bf420404a011733cfb7b190");
    assert_eq!(hash_str("hello.txt"), "a27d9fe7a206852847ce7499ab11a510");
}

#[test]
fn test_hash_same_bytes_same_hash() {
    let a = hash_bytes(b"some training data");
    let b = hash_bytes(b"some training data");
    assert_eq!(a, b);
    let c = hash_bytes(b"some other data");
    assert_ne!(a, c);
}

#[test]
fn test_hash_shape() {
    let h = hash_bytes(b"anything at all");
    assert_eq!(h.len(), 32);
    assert!(h.chars().all(|c| c.is_ascii_hexdigit() && !c.is_ascii_uppercase()));
}

#[test]
fn test_committed_version_path_components() {
    // A commit stores bytes under the content hash; the on-disk layout
    // derives `versions/<hash[0:2]>/<hash[2:]>/data` from that hash.
    let mut repo = oxen::repository::Repository::init(
        String::from("ox"),
        String::from("ox@example.com"),
        String::from("s"),
    )
    .unwrap();
    repo.write_file("hello.txt", b"Hello".to_vec());
    repo.add("hello.txt").unwrap();
    repo.commit("c1").unwrap();

    let entries = repo.head_entries();
    assert_eq!(entries.len(), 1);
    assert_eq!(entries[0].hash, "185f8db32271fe25f561a6fc938b2e26");
    // And the version store holds exactly those bytes under that hash.
    let stored = oxen::objects::get_version(&repo.versions, entries[0].hash.as_str());
    assert_eq!(stored.unwrap().as_slice(), b"Hello");
}
