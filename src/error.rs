//! Errors of the library.
use vstd::prelude::*;

verus! {

/// What can go wrong while elaborating a workspace or walking its graph.
#[derive(Clone, Copy, Debug, PartialEq, Eq, Structural)]
pub enum OutdatedError {
    CannotElaborateWorkspace,
    EmptyPath,
    NoWorkspace,
    NoMatchingDependency,
    /// The requested root is neither the current package nor one of its direct
    /// dependencies.
    RootNotFound,
    /// A root was requested against a workspace without a current package.
    RootInVirtualWorkspace,
    /// No workspace member carries the requested name.
    MemberNotFound,
    /// No package under the workspace root carries the requested name.
    PackageNotFound,
    /// No package of the graph carries the requested dependency name.
    DepNotFound,
    /// The depth bound is negative.
    InvalidDepth,
    /// semver cannot read a dependency's requirement.
    InvalidRequirement,
    /// The registry publishes no version of a dependency.
    NoVersions,
}

/// The sentence that describes an error.
pub open spec fn message_of(e: OutdatedError) -> &'static str {
    match e {
        OutdatedError::CannotElaborateWorkspace => "Cannot elaborate the workspace",
        OutdatedError::EmptyPath => "Empty path cannot get last",
        OutdatedError::NoWorkspace => "No workspace",
        OutdatedError::NoMatchingDependency => "No matching dependency",
        OutdatedError::RootNotFound => "Root is neither the workspace root nor a direct dependency",
        OutdatedError::RootInVirtualWorkspace => "--root is not allowed when running against a virtual manifest",
        OutdatedError::MemberNotFound => "Workspace member not found",
        OutdatedError::PackageNotFound => "Cannot find package in workspace",
        OutdatedError::DepNotFound => "Direct dependency not found",
        OutdatedError::InvalidDepth => "The depth must not be negative",
        OutdatedError::InvalidRequirement => "Cannot read the version requirement",
        OutdatedError::NoVersions => "No published versions found",
    }
}

impl OutdatedError {
    /// A sentence that describes the error.
    pub fn message(&self) -> (r: &'static str)
        ensures
            r == message_of(*self),
    {
        match self {
            OutdatedError::CannotElaborateWorkspace => "Cannot elaborate the workspace",
            OutdatedError::EmptyPath => "Empty path cannot get last",
            OutdatedError::NoWorkspace => "No workspace",
            OutdatedError::NoMatchingDependency => "No matching dependency",
            OutdatedError::RootNotFound => "Root is neither the workspace root nor a direct dependency",
            OutdatedError::RootInVirtualWorkspace => "--root is not allowed when running against a virtual manifest",
            OutdatedError::MemberNotFound => "Workspace member not found",
            OutdatedError::PackageNotFound => "Cannot find package in workspace",
            OutdatedError::DepNotFound => "Direct dependency not found",
            OutdatedError::InvalidDepth => "The depth must not be negative",
            OutdatedError::InvalidRequirement => "Cannot read the version requirement",
            OutdatedError::NoVersions => "No published versions found",
        }
    }
}

} // verus!
