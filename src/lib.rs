//! Finds out which dependencies of a package have newer releases: compares
//! the current resolution of a dependency graph with a compatible and a latest
//! resolution, path by path, and reports what changed.
pub mod channel;
pub mod error;
pub mod features;
pub mod fmt;
pub mod manifest;
pub mod options;
pub mod pkg_status;
pub mod registry;
pub mod report;
pub mod text;
pub mod version;
pub mod workspace;

pub use crate::channel::valid_latest_version;
pub use crate::error::OutdatedError;
pub use crate::options::{Color, Format, Options};
pub use crate::pkg_status::{PkgStatus, Status};
pub use crate::report::{CrateMetadata, Metadata};
pub use crate::version::Version;
pub use crate::workspace::{DepKind, DependencyEdge, ElaborateWorkspace, PackageRecord};
