//! A minimal content-addressed version-control engine.
//!
//! The library models a repository as a value: an object store holding
//! blob, tree and commit objects keyed by their content digest, a HEAD
//! pointer and a staging index.  All rules of the engine (object encoding,
//! directory-tree assembly, change detection, checkout planning) are
//! verified; file-system traffic is left to the surrounding program, which
//! hands the library plain bytes and paths.

use vstd::prelude::*;

pub mod bytemap;
pub mod canon;
pub mod bytes;
pub mod dirtree;
pub mod fs;
pub mod hash;
pub mod objects;
pub mod ops;
pub mod root;
pub mod store;
pub mod utils;

verus! {

/// The error kinds this engine can report.
#[derive(Debug, Clone, Copy, PartialEq, Eq, Structural)]
pub enum GyatError {
    /// No repository root was found upward from the starting location.
    NotARepository,
    /// A requested object, blob or commit is missing for a given hash.
    NotFound,
    /// A stored tree, commit or index record is malformed.
    FormatError,
    /// A string is not a valid hash encoding.
    HashDecodeError,
    /// A file-system failure reported by the surrounding program.
    IoError,
    /// A caller-supplied argument is unusable.
    InvalidArgument,
}

} // verus!
