//! A store of package releases on disk, addressed by package name and version,
//! and the index of what the store holds.
//!
//! The library decides and computes; it never touches the file system or the
//! network. Locations are a root and a sequence of path components, directory
//! listings and the outcomes of outside work are handed in as plain values.

pub mod address;
pub mod corpus;
pub mod error;
pub mod index;
pub mod location;
pub mod manifest;
pub mod order;
pub mod progress;
pub mod scan;
pub mod tree;
pub mod vault;
pub mod walk;

pub use error::Error;
pub use location::Location;
pub use vault::{CrateVersion, Vault};
