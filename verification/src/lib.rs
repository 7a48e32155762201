//! A content-addressed version-control engine for large datasets.
//!
//! The library models the repository state — the commit graph, the
//! content-addressed object store, the merkle directory index, the staging
//! area, checkout, the tabular diff engine and the transfer protocol — as
//! plain in-memory values, and every operation on that state is verified
//! against its contract. File and network I/O stay outside the library.

pub mod assoc;
pub mod codec;
pub mod data_type;
pub mod diff;
pub mod error;
pub mod hash;
pub mod laws;
pub mod model;
pub mod objects;
pub mod remote_staged;
pub mod repository;
pub mod schema;
pub mod tabular;
pub mod transfer;
pub mod tree;
pub mod versioner;

pub use data_type::DataType;
pub use error::OxenError;
pub use hash::hash_bytes;
