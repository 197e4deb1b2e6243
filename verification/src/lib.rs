//! Cache archive restore engine.
//!
//! Reads the logical entries of a tape archive (directories, regular files,
//! symbolic links) and decides, entry by entry, how to materialize them under
//! an anchor directory without ever escaping it.  Symbolic links whose targets
//! do not exist yet are set aside and later restored in dependency order by a
//! topological sort that detects cycles.
//!
//! The crate holds the decision logic only: name validation, lexical path
//! canonicalization, entry dispatch, the deferred-link graph and its ordering,
//! and the content-hash helpers.  Callers perform the actual filesystem work
//! and feed the outcomes back in.

pub mod canon;
pub mod chars;
pub mod containment;
pub mod error;
pub mod globs;
pub mod hash;
pub mod linkname;
pub mod name_check;
pub mod parts;
pub mod resolver;
pub mod restore;
pub mod toposort;

pub use error::RestoreError;
