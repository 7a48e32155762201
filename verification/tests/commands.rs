//! Repository command behaviour: status, add, commit, log, branches and
//! checkout over an in-memory repository.

use oxen::error::OxenError;
use oxen::model::Head;
use oxen::repository::Repository;

fn test_repo() -> Repository {
    Repository::init(
        String::from("ox"),
        String::from("ox@example.com"),
        String::from("session-one"),
    )
    .expect("init")
}

fn write_str(repo: &mut Repository, path: &str, contents: &str) {
    repo.write_file(path, contents.as_bytes().to_vec());
}

fn read_str(repo: &Repository, path: &str) -> Option<String> {
    repo.read_file(path).map(|b| String::from_utf8(b.clone()).unwrap())
}

#[test]
fn test_command_init() {
    // A fresh repository has no history: the log stays empty until the
    // first commit, and no branch is born yet.
    let mut repo = test_repo();
    assert!(repo.log().is_empty());
    assert!(repo.current_branch().is_none());
    assert!(repo.status().is_clean());

    // The first commit bears the default branch.
    write_str(&mut repo, "hello.txt", "Hello");
    repo.add("hello.txt").unwrap();
    repo.commit("first").unwrap().unwrap();
    let orig_branch = repo.current_branch().unwrap();
    assert_eq!(orig_branch.name, "main");
    assert!(!orig_branch.commit_id.is_empty());
    assert_eq!(repo.log().len(), 1);
}

#[test]
fn test_command_status_empty() {
    let repo = test_repo();
    let repo_status = repo.status();

    assert_eq!(repo_status.added_dirs.len(), 0);
    assert_eq!(repo_status.added_files.len(), 0);
    assert_eq!(repo_status.untracked_files.len(), 0);
    assert_eq!(repo_status.untracked_dirs.len(), 0);
}

#[test]
fn test_command_commit_nothing_staged() {
    let mut repo = test_repo();
    let commits = repo.log();
    let initial_len = commits.len();
    let r = repo.commit("Should not work").unwrap();
    assert!(r.is_none());
    // We should not have added any commits
    assert_eq!(commits.len(), initial_len);
    assert_eq!(repo.log().len(), initial_len);
}

#[test]
fn test_command_status_has_txt_file() {
    let mut repo = test_repo();
    // Write to file
    write_str(&mut repo, "hello.txt", "Hello World");

    // Get status
    let repo_status = repo.status();
    assert_eq!(repo_status.added_dirs.len(), 0);
    assert_eq!(repo_status.added_files.len(), 0);
    assert_eq!(repo_status.untracked_files.len(), 1);
    assert_eq!(repo_status.untracked_dirs.len(), 0);
}

#[test]
fn test_command_add_file() {
    let mut repo = test_repo();
    // Write to file
    write_str(&mut repo, "hello.txt", "Hello World");

    // Track the file
    repo.add("hello.txt").unwrap();
    // Make sure it is removed from the untracked, and added to the tracked
    let repo_status = repo.status();
    assert_eq!(repo_status.added_dirs.len(), 0);
    assert_eq!(repo_status.added_files.len(), 1);
    assert_eq!(repo_status.untracked_files.len(), 0);
    assert_eq!(repo_status.untracked_dirs.len(), 0);
}

#[test]
fn test_command_commit_file() {
    let mut repo = test_repo();
    // Write to file
    write_str(&mut repo, "hello.txt", "Hello World");

    // Track the file
    repo.add("hello.txt").unwrap();
    // Commit the file
    repo.commit("My message").unwrap();

    // Make sure it is removed from the untracked and added
    let repo_status = repo.status();
    assert_eq!(repo_status.added_dirs.len(), 0);
    assert_eq!(repo_status.added_files.len(), 0);
    assert_eq!(repo_status.untracked_files.len(), 0);
    assert_eq!(repo_status.untracked_dirs.len(), 0);

    let commits = repo.log();
    assert_eq!(commits.len(), 1);
}

#[test]
fn test_cannot_force_delete_branch_you_are_on() {
    let mut repo = test_repo();
    write_str(&mut repo, "hello.txt", "Hello");
    repo.add("hello.txt").unwrap();
    repo.commit("first").unwrap();
    let branch_name = "my-branch";
    repo.create_checkout(branch_name).unwrap();

    if repo.force_delete_branch(branch_name).is_ok() {
        panic!("Should not be able to force delete the branch you are on");
    }
}

#[test]
fn test_command_checkout_current_branch_name_does_nothing() {
    let mut repo = test_repo();
    // Write the first file
    write_str(&mut repo, "hello.txt", "Hello");

    // Track & commit the file
    repo.add("hello.txt").unwrap();
    repo.commit("Added hello.txt").unwrap();

    // Create and checkout branch
    let branch_name = "feature/world-explorer";
    repo.create_checkout_branch(branch_name).unwrap();
    repo.checkout_branch(branch_name).unwrap();
}

#[test]
fn test_command_checkout_added_file() {
    let mut repo = test_repo();
    // Write the first file
    write_str(&mut repo, "hello.txt", "Hello");

    // Track & commit the file
    repo.add("hello.txt").unwrap();
    repo.commit("Added hello.txt").unwrap();

    // Get the original branch name
    let orig_branch = repo.current_branch().unwrap();

    // Create and checkout branch
    let branch_name = "feature/world-explorer";
    repo.create_checkout_branch(branch_name).unwrap();

    // Write a second file
    write_str(&mut repo, "world.txt", "World");

    // Track & commit the second file in the branch
    repo.add("world.txt").unwrap();
    repo.commit("Added world.txt").unwrap();

    // Make sure we have both commits
    assert_eq!(repo.log().len(), 2);
    assert_eq!(repo.list_branches().len(), 2);

    // Make sure we have both files in our working tree
    assert!(repo.read_file("hello.txt").is_some());
    assert!(repo.read_file("world.txt").is_some());

    // Go back to the main branch
    repo.checkout_branch(&orig_branch.name).unwrap();

    // The world file should no longer be there
    assert!(repo.read_file("hello.txt").is_some());
    assert!(repo.read_file("world.txt").is_none());

    // Go back to the world branch
    repo.checkout_branch(branch_name).unwrap();
    assert!(repo.read_file("hello.txt").is_some());
    assert!(repo.read_file("world.txt").is_some());
}

#[test]
fn test_command_checkout_added_file_keep_untracked() {
    let mut repo = test_repo();
    // Write the first file
    write_str(&mut repo, "hello.txt", "Hello");

    // Have another file lying around we will not remove
    write_str(&mut repo, "keep_me.txt", "I am untracked, don't remove me");

    // Track & commit the file
    repo.add("hello.txt").unwrap();
    repo.commit("Added hello.txt").unwrap();

    // Get the original branch name
    let orig_branch = repo.current_branch().unwrap();

    // Create and checkout branch
    let branch_name = "feature/world-explorer";
    repo.create_checkout_branch(branch_name).unwrap();

    // Write a second file
    write_str(&mut repo, "world.txt", "World");

    // Track & commit the second file in the branch
    repo.add("world.txt").unwrap();
    repo.commit("Added world.txt").unwrap();

    // Make sure we have both commits
    assert_eq!(repo.log().len(), 2);
    assert_eq!(repo.list_branches().len(), 2);

    // Make sure we have all files in our working tree
    assert!(repo.read_file("hello.txt").is_some());
    assert!(repo.read_file("world.txt").is_some());
    assert!(repo.read_file("keep_me.txt").is_some());

    // Go back to the main branch
    repo.checkout_branch(&orig_branch.name).unwrap();

    // The world file should no longer be there
    assert!(repo.read_file("hello.txt").is_some());
    assert!(repo.read_file("world.txt").is_none());
    assert!(repo.read_file("keep_me.txt").is_some());

    // Go back to the world branch
    repo.checkout_branch(branch_name).unwrap();
    assert!(repo.read_file("hello.txt").is_some());
    assert!(repo.read_file("world.txt").is_some());
    assert!(repo.read_file("keep_me.txt").is_some());
}

#[test]
fn test_command_checkout_modified_file() {
    let mut repo = test_repo();
    // Write the first file
    write_str(&mut repo, "hello.txt", "Hello");

    // Track & commit the file
    repo.add("hello.txt").unwrap();
    repo.commit("Added hello.txt").unwrap();

    // Get the original branch name
    let orig_branch = repo.current_branch().unwrap();

    // Create and checkout branch
    let branch_name = "feature/world-explorer";
    repo.create_checkout_branch(branch_name).unwrap();

    // Modify the file
    write_str(&mut repo, "hello.txt", "World");

    // Track & commit the change in the branch
    repo.add("hello.txt").unwrap();
    repo.commit("Changed file to world").unwrap();

    // It should say World at this point
    assert_eq!(read_str(&repo, "hello.txt").unwrap(), "World");

    // Go back to the main branch
    repo.checkout_branch(&orig_branch.name).unwrap();

    // It should be reverted back to Hello
    assert_eq!(read_str(&repo, "hello.txt").unwrap(), "Hello");
}

#[test]
fn test_command_checkout_modified_file_in_subdirectory() {
    let mut repo = test_repo();
    write_str(&mut repo, "annotations/train/one_shot.txt", "train/dog_1.jpg 0");

    // Track & commit the file
    repo.add("annotations/train/one_shot.txt").unwrap();
    repo.commit("Adding one shot").unwrap();

    // Get the original branch name
    let orig_branch = repo.current_branch().unwrap();

    // Get OG file contents
    let og_content = read_str(&repo, "annotations/train/one_shot.txt").unwrap();

    let branch_name = "feature/change-the-shot";
    repo.create_checkout_branch(branch_name).unwrap();

    let new_contents = "train/cat_1.jpg 0";
    write_str(&mut repo, "annotations/train/one_shot.txt", new_contents);
    repo.add("annotations/train/one_shot.txt").unwrap();
    repo.commit("Changing one shot").unwrap();

    // checkout OG and make sure it reverts
    repo.checkout_branch(&orig_branch.name).unwrap();
    let updated_content = read_str(&repo, "annotations/train/one_shot.txt").unwrap();
    assert_eq!(og_content, updated_content);

    // checkout branch again and make sure it reverts
    repo.checkout_branch(branch_name).unwrap();
    let updated_content = read_str(&repo, "annotations/train/one_shot.txt").unwrap();
    assert_eq!(new_contents, updated_content);
}

#[test]
fn test_command_add_top_level_dir_then_revert() {
    let mut repo = test_repo();
    write_str(&mut repo, "README.md", "readme");
    repo.add("README.md").unwrap();
    repo.commit("baseline").unwrap();
    write_str(&mut repo, "train/dog_1.jpg", "dog one");
    write_str(&mut repo, "train/dog_2.jpg", "dog two");
    write_str(&mut repo, "train/cat_1.jpg", "cat one");

    // Get the original branch name
    let orig_branch = repo.current_branch().unwrap();

    // Create a branch to make the changes
    let branch_name = "feature/adding-train";
    repo.create_checkout_branch(branch_name).unwrap();

    // Track & commit the directory
    repo.add("train").unwrap();
    repo.commit("Adding train dir").unwrap();

    // checkout OG and make sure it removes the train dir
    repo.checkout_branch(&orig_branch.name).unwrap();
    assert!(repo.read_file("train/dog_1.jpg").is_none());
    assert!(repo.read_file("train/dog_2.jpg").is_none());
    assert!(repo.read_file("train/cat_1.jpg").is_none());

    // checkout branch again and make sure it reverts
    repo.checkout_branch(branch_name).unwrap();
    assert!(repo.read_file("train/dog_1.jpg").is_some());
    assert!(repo.read_file("train/dog_2.jpg").is_some());
    assert!(repo.read_file("train/cat_1.jpg").is_some());
}

#[test]
fn test_rename_current_branch() {
    let mut repo = test_repo();
    write_str(&mut repo, "hello.txt", "Hello");
    repo.add("hello.txt").unwrap();
    repo.commit("first").unwrap();
    // Create and checkout branch
    let og_branch_name = "feature/world-explorer";
    repo.create_checkout(og_branch_name).unwrap();

    // Rename branch
    let new_branch_name = "feature/brave-new-world";
    repo.rename_current_branch(new_branch_name).unwrap();

    // Check that the branch name has changed
    let current_branch = repo.current_branch().unwrap();
    assert_eq!(current_branch.name, new_branch_name);

    // Check that old branch no longer exists
    for branch in repo.list_branches().iter() {
        assert_ne!(branch.name, og_branch_name);
    }
}

#[test]
fn test_commit_on_branch_locked_by_other_session_conflicts() {
    let mut repo = test_repo();
    write_str(&mut repo, "hello.txt", "Hello");
    repo.add("hello.txt").unwrap();
    repo.commit("first").unwrap();
    write_str(&mut repo, "hello.txt", "Hello again");
    repo.add("hello.txt").unwrap();

    // Another session holds the lock on the current branch.
    repo.locks.push(oxen::repository::BranchLock {
        branch: String::from("main"),
        holder: String::from("someone-else"),
    });

    let commits_before = repo.log().len();
    let r = repo.commit("Should conflict");
    assert_eq!(r.unwrap_err(), OxenError::Conflict);
    // No state change.
    assert_eq!(repo.log().len(), commits_before);
    assert_eq!(repo.status().added_files.len(), 1);
}

#[test]
fn test_branch_lock_cycle() {
    let mut repo = test_repo();
    assert!(!repo.is_branch_locked("main"));
    repo.lock_branch("main").unwrap();
    assert!(repo.is_branch_locked("main"));
    // Re-locking one's own lock is fine; releasing clears it.
    repo.lock_branch("main").unwrap();
    repo.unlock_branch("main").unwrap();
    assert!(!repo.is_branch_locked("main"));
}

#[test]
fn test_rm_then_commit_leaves_tree_without_it() {
    let mut repo = test_repo();
    write_str(&mut repo, "a.txt", "alpha");
    write_str(&mut repo, "b.txt", "beta");
    repo.add("a.txt").unwrap();
    repo.add("b.txt").unwrap();
    repo.commit("two files").unwrap();

    repo.rm("a.txt").unwrap();
    repo.commit("drop a").unwrap();

    let entries = repo.head_entries();
    assert_eq!(entries.len(), 1);
    assert_eq!(entries[0].path, "b.txt");
}

#[test]
fn test_detached_head_resolves() {
    let mut repo = test_repo();
    write_str(&mut repo, "hello.txt", "Hello");
    repo.add("hello.txt").unwrap();
    let c = repo.commit("first").unwrap().unwrap();

    repo.head = Head::Detached(c.id.clone());
    let head = repo.head_commit().unwrap();
    assert_eq!(head.id, c.id);
    assert!(repo.current_branch().is_none());
}

#[test]
fn test_bare_repository_is_empty() {
    // Before any commit: status reports nothing and the log is empty.
    let repo = Repository::empty(
        String::from("ox"),
        String::from("ox@example.com"),
        String::from("s"),
    );
    assert!(repo.status().is_clean());
    assert!(repo.log().is_empty());
    assert!(repo.head_commit().is_none());
}

#[test]
fn test_command_add_unknown_path_is_not_found() {
    let mut repo = test_repo();
    write_str(&mut repo, "hello.txt", "Hello");
    let before = repo.status();
    assert_eq!(repo.add("no-such-file.txt"), Err(OxenError::NotFound));
    // Nothing changed: the file is still merely untracked.
    let after = repo.status();
    assert_eq!(before.untracked_files, after.untracked_files);
    assert_eq!(after.added_files.len(), 0);
}

#[test]
fn test_command_add_directory_stages_every_file_under_it() {
    let mut repo = test_repo();
    write_str(&mut repo, "train/one.txt", "1");
    write_str(&mut repo, "train/two.txt", "2");
    write_str(&mut repo, "readme.md", "hi");
    repo.add("train").unwrap();
    let status = repo.status();
    assert_eq!(status.added_files.len(), 2);
    assert_eq!(status.added_dirs, vec![String::from("train")]);
    assert_eq!(status.untracked_files, vec![String::from("readme.md")]);
}

#[test]
fn test_commit_ids_are_deterministic_across_repositories() {
    // Two repositories built by the same steps agree on every id: the ids
    // are content hashes of the commit fields alone.
    let build = || {
        let mut repo = test_repo();
        write_str(&mut repo, "hello.txt", "Hello");
        repo.add("hello.txt").unwrap();
        repo.commit("first").unwrap().unwrap()
    };
    let a = build();
    let b = build();
    assert_eq!(a.id, b.id);
    assert!(!a.id.is_empty());
}

#[test]
fn test_commit_preserves_other_branches() {
    let mut repo = test_repo();
    write_str(&mut repo, "hello.txt", "Hello");
    repo.add("hello.txt").unwrap();
    repo.commit("first").unwrap().unwrap();
    repo.create_branch("keeper").unwrap();
    write_str(&mut repo, "hello.txt", "Hello again");
    repo.add("hello.txt").unwrap();
    repo.commit("on main").unwrap().unwrap();
    let branches = repo.list_branches();
    let names: Vec<&str> = branches.iter().map(|b| b.name.as_str()).collect();
    assert_eq!(branches.len(), 2);
    assert!(names.contains(&"main"));
    assert!(names.contains(&"keeper"));
}

#[test]
fn test_checkout_unknown_branch_is_not_found_and_changes_nothing() {
    let mut repo = test_repo();
    write_str(&mut repo, "hello.txt", "Hello");
    repo.add("hello.txt").unwrap();
    repo.commit("first").unwrap();
    assert_eq!(repo.checkout_branch("no-such-branch"), Err(OxenError::NotFound));
    assert_eq!(read_str(&repo, "hello.txt").as_deref(), Some("Hello"));
    assert_eq!(repo.current_branch().unwrap().name, "main");
}

#[test]
fn test_unlock_absent_and_foreign_locks() {
    let mut repo = test_repo();
    assert_eq!(repo.unlock_branch("main"), Err(OxenError::NotFound));
    repo.lock_branch("main").unwrap();
    // Re-locking one's own lock is idempotent.
    repo.lock_branch("main").unwrap();
    let mut other = repo;
    other.session = String::from("session-two");
    assert_eq!(other.unlock_branch("main"), Err(OxenError::Conflict));
    assert_eq!(other.lock_branch("main"), Err(OxenError::Conflict));
}

#[test]
fn test_checkout_commit_detaches_head_and_restores_tree() {
    let mut repo = test_repo();
    write_str(&mut repo, "hello.txt", "Hello");
    repo.add("hello.txt").unwrap();
    let first = repo.commit("first").unwrap().unwrap();

    write_str(&mut repo, "hello.txt", "World");
    repo.add("hello.txt").unwrap();
    repo.commit("second").unwrap();

    // Checking out the first commit's id detaches HEAD and restores bytes.
    repo.checkout_commit(&first.id).unwrap();
    assert!(repo.current_branch().is_none());
    assert_eq!(read_str(&repo, "hello.txt").unwrap(), "Hello");
    assert_eq!(repo.head_commit().unwrap().id, first.id);

    // The combined form prefers a branch name, else takes a commit id.
    repo.checkout("main").unwrap();
    assert_eq!(read_str(&repo, "hello.txt").unwrap(), "World");
    repo.checkout(&first.id).unwrap();
    assert_eq!(read_str(&repo, "hello.txt").unwrap(), "Hello");
    assert_eq!(repo.checkout("nowhere"), Err(OxenError::NotFound));
}

#[test]
fn test_list_missing_entries_validates_content() {
    let mut repo = test_repo();
    write_str(&mut repo, "hello.txt", "Hello");
    repo.add("hello.txt").unwrap();
    let c = repo.commit("first").unwrap().unwrap();

    // A materialized repository validates clean.
    assert!(repo.list_missing_entries(&c.id).unwrap().is_empty());
    assert_eq!(
        repo.list_missing_entries("no-such-commit").unwrap_err(),
        OxenError::NotFound
    );

    // A shallow clone without the payloads lists exactly what is missing.
    repo.shallow = true;
    repo.versions = Vec::new();
    let missing = repo.list_missing_entries(&c.id).unwrap();
    assert_eq!(missing.len(), 1);
    assert_eq!(missing[0].path, "hello.txt");
}

#[test]
fn test_is_synced_tracks_payload_completeness() {
    let mut repo = test_repo();
    assert!(repo.is_synced());
    write_str(&mut repo, "hello.txt", "Hello");
    repo.add("hello.txt").unwrap();
    repo.commit("first").unwrap();
    assert!(repo.is_synced());

    // A shallow clone without its payloads is incomplete until fetched.
    repo.shallow = true;
    let payloads = std::mem::take(&mut repo.versions);
    assert!(!repo.is_synced());
    repo.versions = payloads;
    assert!(repo.is_synced());
}
