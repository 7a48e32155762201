//! Chunked transfer and push/pull between repositories.

use oxen::repository::Repository;
use oxen::transfer::assemble_chunks;
use oxen::transfer::branch_lock_uri;
use oxen::transfer::branch_uri;
use oxen::transfer::pull_branch;
use oxen::transfer::push_branch;
use oxen::transfer::split_chunks;
use oxen::transfer::ChunkReceiver;

fn repo(session: &str) -> Repository {
    Repository::init(
        String::from("ox"),
        String::from("ox@example.com"),
        String::from(session),
    )
    .expect("init")
}

#[test]
fn test_chunks_round_trip() {
    let data: Vec<u8> = (0..100u8).collect();
    let chunks = split_chunks(&data, 8);
    assert_eq!(chunks.len(), 13);
    assert_eq!(chunks[0].len(), 8);
    assert_eq!(chunks[12].len(), 4);
    let back = assemble_chunks(&chunks);
    assert_eq!(back, data);
}

#[test]
fn test_resumable_chunk_upload() {
    // A 100-byte payload in 25 four-byte chunks; the transfer breaks
    // after chunk 12 and resumes from the start, re-sending chunks
    // idempotently by index.
    let data: Vec<u8> = (0..100u8).collect();
    let before = oxen::hash::hash_bytes(&data);
    let chunks = split_chunks(&data, 4);
    assert_eq!(chunks.len(), 25);

    let mut rx = ChunkReceiver::new(chunks.len());
    for (i, c) in chunks.iter().enumerate().take(12) {
        rx.receive(i, c.clone()).unwrap();
    }
    assert!(rx.assemble().is_err());

    // Resume: all chunks again, including the ones already received.
    for (i, c) in chunks.iter().enumerate() {
        rx.receive(i, c.clone()).unwrap();
    }
    let rebuilt = rx.assemble().unwrap();
    assert_eq!(rebuilt, data);
    assert_eq!(oxen::hash::hash_bytes(&rebuilt), before);
}

#[test]
fn test_push_then_pull_reproduces_head_tree() {
    // Build a local repository with two committed files.
    let mut local = repo("writer");
    local.write_file("hello.txt", b"Hello".to_vec());
    local.write_file("train/cat_1.jpg", b"cat".to_vec());
    local.add("hello.txt").unwrap();
    local.add("train").unwrap();
    local.commit("first").unwrap();

    // Push to an empty remote, then pull into an empty clone.
    let mut remote = Repository::empty(
        String::from("server"),
        String::from("server@example.com"),
        String::from("server"),
    );
    let pushed = push_branch(&local, &mut remote, "main").unwrap();
    assert_eq!(pushed.commit_id, local.current_branch().unwrap().commit_id);

    let mut clone = Repository::empty(
        String::from("reader"),
        String::from("reader@example.com"),
        String::from("reader"),
    );
    let pulled = pull_branch(&mut clone, &remote, "main").unwrap();
    assert_eq!(pulled.commit_id, pushed.commit_id);

    // The clone's HEAD tree lists exactly what the writer committed.
    let mut local_entries: Vec<(String, String)> = local
        .head_entries()
        .iter()
        .map(|e| (e.path.clone(), e.hash.clone()))
        .collect();
    let mut clone_entries: Vec<(String, String)> = clone
        .head_entries()
        .iter()
        .map(|e| (e.path.clone(), e.hash.clone()))
        .collect();
    local_entries.sort();
    clone_entries.sort();
    assert_eq!(local_entries, clone_entries);
    assert_eq!(clone_entries.len(), 2);
}

#[test]
fn test_push_to_branch_locked_by_other_session() {
    let local = {
        let mut r = repo("writer");
        r.write_file("hello.txt", b"Hello".to_vec());
        r.add("hello.txt").unwrap();
        r.commit("first").unwrap();
        r
    };
    let mut remote = Repository::empty(
        String::from("server"),
        String::from("server@example.com"),
        String::from("server"),
    );
    remote.locks.push(oxen::repository::BranchLock {
        branch: String::from("main"),
        holder: String::from("someone-else"),
    });
    let commits_before = remote.commits.len();
    let r = push_branch(&local, &mut remote, "main");
    assert_eq!(r.unwrap_err(), oxen::error::OxenError::Conflict);
    assert_eq!(remote.commits.len(), commits_before);
}

#[test]
fn test_branch_uris() {
    assert_eq!(branch_uri("main"), "/branches/main");
    assert_eq!(branch_uri("feature/one"), "/branches/feature%2Fone");
    assert_eq!(branch_lock_uri("main"), "/branches/main/lock");
}

#[test]
fn test_version_bytes_validation_detects_truncation() {
    let full = b"Hello World".to_vec();
    let h = oxen::hash::hash_bytes(&full);
    assert!(oxen::versioner::verify_version_bytes(&h, &full));
    // A truncated payload no longer hashes to its key.
    let truncated = b"Hello Wor".to_vec();
    assert!(!oxen::versioner::verify_version_bytes(&h, &truncated));
}

#[test]
fn test_push_to_unrelated_repository_is_refused() {
    let mut local = repo("writer");
    local.write_file("hello.txt", b"Hello".to_vec());
    local.add("hello.txt").unwrap();
    local.commit("first").unwrap();

    // The remote carries its own unrelated history.
    let mut remote = repo("server");
    remote.write_file("other.txt", b"Other".to_vec());
    remote.add("other.txt").unwrap();
    remote.commit("unrelated").unwrap();

    let before = remote.log().len();
    let r = push_branch(&local, &mut remote, "main");
    assert_eq!(r.unwrap_err(), oxen::error::OxenError::Invalid);
    assert_eq!(remote.log().len(), before);
}
