//! The failure taxonomy of the catalog, as surfaced to callers.

use vstd::prelude::*;
use crate::store::StoreError;

verus! {

/// What kind of failure occurred. Callers map each kind to their own
/// transport or presentation; the catalog itself only classifies.
#[derive(Clone, Copy, Debug, PartialEq, Eq, Structural)]
pub enum ErrorKind {
    /// A requested image identifier has no matching row. Reported
    /// distinctly from store failures so a caller can render a missing
    /// resource rather than an internal fault.
    NotFound,
    /// The underlying store failed; the enclosing write was rolled back in
    /// full and the error is surfaced verbatim, never retried.
    StoreFailure,
    /// The caller-supplied input is self-contradictory.
    InvalidInput,
    /// An external collaborator (object detection or upload) failed.
    ExternalFailure,
}

/// An error carrying its kind and a human-readable message.
#[derive(Debug)]
pub struct ServerError {
    pub kind: ErrorKind,
    pub msg: String,
}

/// The message text attached to each store-layer error.
pub open spec fn store_error_text(e: StoreError) -> Seq<char> {
    "store failure: identifier space exhausted"@
}

impl ServerError {
    /// Builds an error of the given kind carrying the given message.
    pub fn new(kind: ErrorKind, msg: String) -> (e: ServerError)
        ensures
            e.kind == kind,
            e.msg == msg,
    {
        ServerError { kind, msg }
    }

    /// Maps a store-layer error to the store-failure kind; the store's
    /// failure is surfaced, never swallowed.
    pub fn from(e: StoreError) -> (r: ServerError)
        ensures
            r.kind == ErrorKind::StoreFailure,
            r.msg@ == store_error_text(e),
    {
        match e {
            StoreError::IdSpaceExhausted => ServerError {
                kind: ErrorKind::StoreFailure,
                msg: String::from_str("store failure: identifier space exhausted"),
            },
        }
    }
}

} // verus!
