//! Typed errors surfaced by the engine.
//!
//! Low-level operations return one of these kinds; callers translate them
//! into exit codes or HTTP statuses outside the library.

use vstd::prelude::*;

verus! {

/// The kind of failure an engine operation surfaces.
#[derive(Clone, Copy, Debug, PartialEq, Eq, Structural)]
pub enum OxenError {
    /// A path, commit, branch, remote or object is not present.
    NotFound,
    /// A stored object disagrees with its hash or a reference chain is broken.
    Corruption,
    /// The operation would clobber concurrent or uncommitted work.
    Conflict,
    /// A remote answered with something unusable.
    Protocol,
    /// The caller supplied a bad path, dtype or empty required field.
    Invalid,
    /// An I/O step that may succeed on retry.
    Transient,
}

impl OxenError {
    /// A one-word description of the error kind.
    pub fn as_str(&self) -> (r: &'static str)
        ensures
            r@ == self.spec_str(),
    {
        match self {
            OxenError::NotFound => "not found",
            OxenError::Corruption => "corruption",
            OxenError::Conflict => "conflict",
            OxenError::Protocol => "protocol",
            OxenError::Invalid => "invalid",
            OxenError::Transient => "transient",
        }
    }

    pub open spec fn spec_str(self) -> Seq<char> {
        match self {
            OxenError::NotFound => "not found"@,
            OxenError::Corruption => "corruption"@,
            OxenError::Conflict => "conflict"@,
            OxenError::Protocol => "protocol"@,
            OxenError::Invalid => "invalid"@,
            OxenError::Transient => "transient"@,
        }
    }
}

} // verus!
