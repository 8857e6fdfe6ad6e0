//! Polkadot SDK version manager.
//!
//! Resolves the crate versions of a Polkadot SDK release and rewrites the
//! dependency tables of a `Cargo.toml` document to match them, leaving every
//! other byte of the document as it was.
use vstd::prelude::*;

pub mod check;
pub mod mapping;
pub mod rewrite;
pub mod sources;
pub mod versions;

pub use mapping::VersionMapping;
pub use sources::include_orml_crates_in_version_mapping;
pub use versions::Repository;

verus! {

/// The server the release manifests are read from.
pub const DEFAULT_GIT_SERVER: &'static str = "https://raw.githubusercontent.com";

} // verus!
