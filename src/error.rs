//! The failures that the library reports.

use vstd::prelude::*;

verus! {

/// A structured failure, one variant per kind of error.
#[derive(Debug)]
pub enum PkgError {
    /// A requested package name is absent from the universe.
    PackageNotFound(String),
    /// A package exists but no version meets the requested architecture and
    /// version constraint.
    NoMatchingVersion(String),
    /// A dependency that nothing installed, available or on the host satisfies,
    /// with the providers found for it.
    MissingDependency {
        name: String,
        installed_providers: Vec<String>,
        available_providers: Vec<String>,
    },
    /// Two selected packages conflict.
    Conflict(String, String),
    /// A malformed or damaged archive.
    Corruption(String),
    /// A signature that is absent, malformed, or matches no trusted key.
    Signature(String),
    /// A filesystem object stands where the install would place another kind.
    FileConflict(String),
}

} // verus!
