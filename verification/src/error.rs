//! Error kinds distinguished by the embedding store.

use vstd::prelude::*;

verus! {

/// The failure classes of store, cache, index and codec operations.
///
/// `NotFound` marks an absent block or index and is recoverable (several
/// callers treat it as "empty").  `Corrupt` marks a codec or directory
/// parsing failure.  `Missing` marks an id known to a caller but absent from
/// the directory or cache.  `InvalidArgument` marks a malformed filter, a
/// mismatched vector dimension or `ef < k`.  `Io` and `Embedder` are
/// propagated from the filesystem and the embedding service by the callers
/// that own those edges.
#[derive(Clone, Copy, Debug, PartialEq, Eq, Structural)]
pub enum StoreError {
    NotFound,
    Corrupt,
    Missing,
    InvalidArgument,
    Io,
    Embedder,
}

impl StoreError {
    /// A short human-readable label for the error kind.
    pub fn label(&self) -> (r: &'static str)
        ensures
            r@ == self.label_spec(),
    {
        proof {
            reveal_strlit("not found");
            reveal_strlit("corrupt");
            reveal_strlit("missing");
            reveal_strlit("invalid argument");
            reveal_strlit("io");
            reveal_strlit("embedder");
        }
        match self {
            StoreError::NotFound => "not found",
            StoreError::Corrupt => "corrupt",
            StoreError::Missing => "missing",
            StoreError::InvalidArgument => "invalid argument",
            StoreError::Io => "io",
            StoreError::Embedder => "embedder",
        }
    }

    pub open spec fn label_spec(&self) -> Seq<char> {
        match self {
            StoreError::NotFound => "not found"@,
            StoreError::Corrupt => "corrupt"@,
            StoreError::Missing => "missing"@,
            StoreError::InvalidArgument => "invalid argument"@,
            StoreError::Io => "io"@,
            StoreError::Embedder => "embedder"@,
        }
    }
}

} // verus!
