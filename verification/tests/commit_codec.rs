//! The commit record wire codec: what one side posts, the other decodes
//! back bit-exactly.

use oxen::model::push_commit;
use oxen::model::read_commit;
use oxen::model::Commit;

#[test]
fn test_commit_record_round_trip() {
    let c = Commit {
        id: String::from("185f8db32271fe25f561a6fc938b2e26"),
        parent_ids: vec![String::from("e3b0c44298fc1c149afbf4c8996fb924")],
        message: String::from("Adding annotations data dir, which has two levels"),
        author: String::from("ox"),
        email: String::from("ox@example.com"),
        timestamp: 42,
        root_tree_hash: String::from("a591a6d40bf420404a011733cfb7b190"),
    };
    let mut wire: Vec<u8> = Vec::new();
    push_commit(&mut wire, &c);

    let (back, used) = read_commit(&wire, 0).expect("decode");
    assert_eq!(used, wire.len());
    assert_eq!(back.id, c.id);
    assert_eq!(back.parent_ids, c.parent_ids);
    assert_eq!(back.message, c.message);
    assert_eq!(back.author, c.author);
    assert_eq!(back.email, c.email);
    assert_eq!(back.timestamp, c.timestamp);
    assert_eq!(back.root_tree_hash, c.root_tree_hash);
}

#[test]
fn test_commit_record_decode_rejects_truncation() {
    let c = Commit {
        id: String::from("abc"),
        parent_ids: vec![],
        message: String::from("m"),
        author: String::from("a"),
        email: String::from("e"),
        timestamp: 7,
        root_tree_hash: String::from("r"),
    };
    let mut wire: Vec<u8> = Vec::new();
    push_commit(&mut wire, &c);
    wire.truncate(wire.len() - 1);
    assert!(read_commit(&wire, 0).is_none());
}
