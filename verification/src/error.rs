//! The error taxonomy of the restore engine.
//!
//! Each variant stands for one violated invariant, and `message` renders the
//! stable surface string that callers and tests compare against.

use vstd::prelude::*;
use vstd::string::StringExecFns;

verus! {

/// Why a restore was refused or aborted.
#[derive(Debug, PartialEq, Eq)]
pub enum RestoreError {
    /// The logical entry name failed the well-formedness rules.
    MalformedName(String),
    /// The logical entry name contains a backslash and the engine was asked
    /// to enforce Windows-safe names.
    WindowsUnsafeName(String),
    /// The entry kind is not a directory, regular file or symbolic link; the
    /// payload is the kind's display name.
    UnsupportedFileType(String),
    /// A symbolic link's canonicalized target escapes the anchor; the payload
    /// is the raw link target.
    WriteOutsideDirectory(String),
    /// The deferred symbolic links form a cycle.
    CycleDetected,
    /// A lower-level I/O failure, reported by the caller that performed the
    /// filesystem work; the payload is the OS message.
    Io(String),
}

impl RestoreError {
    /// The stable surface string of this error.
    pub fn message(&self) -> (r: String)
        ensures
            r@ == self.spec_message(),
    {
        match self {
            RestoreError::MalformedName(name) => {
                let mut s = String::from_str("file name is malformed: ");
                s.append(name.as_str());
                s
            },
            RestoreError::WindowsUnsafeName(_) => String::from_str(
                "file name is not Windows-safe",
            ),
            RestoreError::UnsupportedFileType(kind) => {
                let mut s = String::from_str("attempted to restore unsupported file type: ");
                s.append(kind.as_str());
                s
            },
            RestoreError::WriteOutsideDirectory(target) => {
                let mut s = String::from_str("tar attempts to write outside of directory: ");
                s.append(target.as_str());
                s
            },
            RestoreError::CycleDetected => String::from_str("links in the cache are cyclic"),
            RestoreError::Io(os_message) => {
                let mut s = String::from_str("IO error: ");
                s.append(os_message.as_str());
                s
            },
        }
    }

    /// What `message` returns, as a sequence of characters.
    pub open spec fn spec_message(&self) -> Seq<char> {
        match self {
            RestoreError::MalformedName(name) => "file name is malformed: "@ + name@,
            RestoreError::WindowsUnsafeName(_) => "file name is not Windows-safe"@,
            RestoreError::UnsupportedFileType(kind) => {
                "attempted to restore unsupported file type: "@ + kind@
            },
            RestoreError::WriteOutsideDirectory(target) => {
                "tar attempts to write outside of directory: "@ + target@
            },
            RestoreError::CycleDetected => "links in the cache are cyclic"@,
            RestoreError::Io(os_message) => "IO error: "@ + os_message@,
        }
    }
}

} // verus!
