//! Failures a run can meet, by origin: the version-control cache, the
//! filesystem, or the configuration itself.

use vstd::prelude::*;

verus! {

/// Why a dependency job or a run setup failed. Each variant carries a
/// human-readable cause.
#[derive(Debug)]
pub enum VendorError {
    /// Remote unreachable, reference not found, or a corrupted local cache.
    Cache(String),
    /// A copy or directory-creation failure.
    Filesystem(String),
    /// The destination path exists and is not a directory.
    Config(String),
}

impl VendorError {
    /// The human-readable cause carried by this error.
    pub fn message(&self) -> (r: String)
        ensures
            (self matches VendorError::Cache(m) ==> r@ == m@),
            (self matches VendorError::Filesystem(m) ==> r@ == m@),
            (self matches VendorError::Config(m) ==> r@ == m@),
    {
        match self {
            VendorError::Cache(m) => m.clone(),
            VendorError::Filesystem(m) => m.clone(),
            VendorError::Config(m) => m.clone(),
        }
    }
}

} // verus!
