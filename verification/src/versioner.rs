//! Decisions about materializing version files into the working tree.
//!
//! The I/O around these decisions — stat, copy, rename — happens outside
//! the library; these functions take what was read (whether the target
//! exists, and its bytes) and decide.

use vstd::prelude::*;

use crate::hash;
use crate::model::CommitEntry;

verus! {

/// Whether an on-disk file's bytes disagree with a committed entry.
/// Unreadable content (`None`) is treated as agreement, as the copy
/// machinery will surface the real error.
pub fn path_hash_is_different(entry: &CommitEntry, on_disk: Option<&Vec<u8>>) -> (r: bool)
    ensures
        r == match on_disk {
            Some(b) => hash::hash_of_bytes(b@) != entry.hash@,
            None => false,
        },
{
    match on_disk {
        Some(bytes) => {
            let h = hash::hash_bytes(bytes.as_slice());
            !crate::data_type::str_eq(h.as_str(), entry.hash.as_str())
        },
        None => false,
    }
}

/// Whether an entry's bytes must be copied to a target location: the
/// target is absent, or holds different content.
pub fn should_copy_entry(entry: &CommitEntry, target: Option<&Vec<u8>>) -> (r: bool)
    ensures
        r == match target {
            Some(b) => hash::hash_of_bytes(b@) != entry.hash@,
            None => true,
        },
{
    match target {
        Some(_) => path_hash_is_different(entry, target),
        None => true,
    }
}

/// Whether stored bytes still hash to the version key they sit under:
/// the per-file check that content validation runs over a version store,
/// so a truncated or altered payload is reported by its own hash.
pub fn verify_version_bytes(expected_hash: &str, data: &[u8]) -> (r: bool)
    ensures
        r == (expected_hash@ == hash::hash_of_bytes(data@)),
{
    let h = hash::hash_bytes(data);
    crate::data_type::str_eq(expected_hash, h.as_str())
}

/// Whether a schema must be written to a target location: only when the
/// target is absent, since schema files are immutable once written.
pub fn should_copy_schema(_schema: &crate::schema::Schema, target_exists: bool) -> (r: bool)
    ensures
        r == !target_exists,
{
    !target_exists
}

} // verus!
