//! Errors surfaced by the library.
//!
//! Each error carries a kind the callers match on and a human message.
//! The retriever and the cache never recover internally: they surface
//! errors to the executor, which finishes the running layer and then
//! aborts the build with the first underlying error.

use vstd::prelude::*;

verus! {

/// The kinds of failure the library distinguishes.
#[derive(Debug, Clone, Copy, PartialEq, Eq, Structural)]
pub enum ErrorKind {
    /// A manifest did not parse or broke a manifest invariant.
    InvalidManifest,
    /// A lockfile did not parse or broke a lockfile invariant.
    InvalidLockfile,
    /// A resolution URL did not follow the `<kind>+<body>` grammar.
    InvalidSourceUrl,
    /// A network or extraction failure while fetching a source.
    CannotDownload,
    /// A fetched tarball did not match its declared checksum.
    ChecksumMismatch,
    /// No version of a package satisfies the constraint.
    PackageNotFound,
    /// A cache directory lock could not be acquired.
    LockContention,
    /// The compiler exited nonzero.
    CompileFailed,
    /// An underlying I/O failure.
    Io,
}

/// An error: a kind and a human message.
#[derive(Debug, Clone, PartialEq, Eq)]
pub struct Error {
    pub kind: ErrorKind,
    pub msg: String,
}

impl Error {
    pub fn new(kind: ErrorKind, msg: String) -> (r: Error)
        ensures
            r.kind == kind,
            r.msg@ == msg@,
    {
        Error { kind, msg }
    }

    /// An error carrying only its kind.
    pub fn of_kind(kind: ErrorKind) -> (r: Error)
        ensures
            r.kind == kind,
            r.msg@.len() == 0,
    {
        Error { kind, msg: String::new() }
    }

    pub fn kind(&self) -> (r: ErrorKind)
        ensures
            r == self.kind,
    {
        self.kind
    }

    /// The human message, for the embedding program to show.
    pub fn describe(&self) -> (r: String)
        ensures
            r@ == self.msg@,
    {
        self.msg.clone()
    }
}

} // verus!
