//! What can go wrong in the store.

use vstd::prelude::*;

use crate::location::Location;
use crate::manifest::ManifestFault;

verus! {

/// The failures that the store reports.
#[derive(Debug)]
pub enum Error {
    /// The package name is empty; the name is carried along.
    InvalidCrateName(String),
    /// The version is empty; the version is carried along.
    InvalidCrateVersion(String),
    /// The manifest at this location has no directory above it.
    ManifestAncestry(Location),
    /// The manifest at this location could not be opened, and why.
    ManifestOpen(Location, String),
    /// The manifest at this location is no manifest, and why.
    ManifestParse(Location, ManifestFault),
    /// The manifest at this location could not be read, and why.
    ManifestRead(Location, String),
    /// An entry could not be visited while walking the store, and why.
    WalkDir(String),
}

} // verus!
