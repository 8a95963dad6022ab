//! Crate-level error type: one [`Error`] wrapping each seam's specific error.
//!
//! Fallible functions return their own seam's error so matches stay narrow:
//! [`ScanError`] from scans, [`StorageError`] from block and view
//! constructors. [`Error`] and its `From` impls are for callers that compose
//! several seams behind one `?`.

use vstd::prelude::*;
use crate::scan::error::ScanError;
use crate::storage::error::StorageError;

verus! {

/// Any error of this crate; each variant wraps one seam's specific error. The
/// wrapper is transparent: its message is the wrapped error's own.
#[derive(Clone, Copy, Debug, PartialEq, Eq, Structural)]
pub enum Error {
    /// A scan precondition violation.
    Scan(ScanError),
    /// Rejected block or view geometry.
    Storage(StorageError),
}

impl Error {
    /// The text shown to a user.
    pub open spec fn message(self) -> Seq<char> {
        match self {
            Error::Scan(e) => e.message(),
            Error::Storage(e) => e.message(),
        }
    }

    /// Renders the message.
    pub fn to_string(&self) -> (r: String)
        ensures
            r@ == self.message(),
    {
        match self {
            Error::Scan(e) => e.to_string(),
            Error::Storage(e) => e.to_string(),
        }
    }
}

impl From<ScanError> for Error {
    fn from(e: ScanError) -> (r: Self) {
        Error::Scan(e)
    }
}

impl vstd::std_specs::convert::FromSpecImpl<ScanError> for Error {
    open spec fn obeys_from_spec() -> bool {
        true
    }

    open spec fn from_spec(e: ScanError) -> Self {
        Error::Scan(e)
    }
}

impl From<StorageError> for Error {
    fn from(e: StorageError) -> (r: Self) {
        Error::Storage(e)
    }
}

impl vstd::std_specs::convert::FromSpecImpl<StorageError> for Error {
    open spec fn obeys_from_spec() -> bool {
        true
    }

    open spec fn from_spec(e: StorageError) -> Self {
        Error::Storage(e)
    }
}

} // verus!
