//! The store: a root directory under which every release has its place.

use vstd::prelude::*;

use crate::address::{spec_target, target};
use crate::error::Error;
use crate::location::Location;
use crate::manifest::{declared, lacking, parsed_document, Manifest, ManifestFault};
use crate::progress::{accounted, dir_at, progress_at_start, sound};
use crate::scan::Scanner;
use crate::walk::EntryKind;

verus! {

/// A store of package releases, by its root directory.
#[derive(Debug)]
pub struct Vault(pub Location);

/// One release found in a store: the name and the version that its manifest
/// declares, and where the manifest lies.
#[derive(Debug)]
pub struct CrateVersion {
    pub crate_name: String,
    pub version: String,
    pub path: Location,
}

/// What came of loading a manifest's file.
#[derive(Debug)]
pub enum Loaded {
    /// The file's text.
    Text(String),
    /// The file could not be opened, and why.
    Unopened(String),
    /// The file was opened and could not be read, and why.
    Unread(String),
}

impl Vault {
    /// The store rooted at `path`.
    pub fn new(path: Location) -> (res: Vault)
        ensures
            res.0 == path,
    {
        Vault(path)
    }

    /// The store's root directory.
    pub fn root(&self) -> (res: &Location)
        ensures
            *res == self.0,
    {
        &self.0
    }

    /// A scan for the releases in the store, about to visit the root
    /// directory, with no failure to report. Each call starts afresh.
    pub fn iter_crate_versions(&self) -> (res: Scanner)
        ensures
            res.progress() == progress_at_start(dir_at(self.0@)),
            res.failures().len() == 0,
            sound(res.progress()),
            accounted(res.progress()),
    {
        Scanner::new(self.0.duplicate(), EntryKind::Dir)
    }

    /// Where the release `version` of the package `crate_name` lies: the
    /// store's root, then the release's place beneath it.
    ///
    /// An empty name is refused with `InvalidCrateName`; with a name, an empty
    /// version is refused with `InvalidCrateVersion`.
    pub fn crate_version_path(&self, crate_name: &str, version: &str) -> (res: Result<
        Location,
        Error,
    >)
        ensures
            match res {
                Ok(path) => crate_name@.len() > 0 && version@.len() > 0 && path@ == self.0@
                    + spec_target(crate_name@, version@),
                Err(Error::InvalidCrateName(name)) => crate_name@.len() == 0 && name@
                    == crate_name@,
                Err(Error::InvalidCrateVersion(v)) => crate_name@.len() > 0 && version@.len() == 0
                    && v@ == version@,
                Err(_) => false,
            },
    {
        match target(crate_name, version) {
            Err(e) => Err(e),
            Ok(place) => {
                let mut path = self.0.duplicate();
                path.append(&place);
                Ok(path)
            },
        }
    }
}

impl CrateVersion {
    /// The release whose manifest lies at `path`, from what came of loading
    /// that manifest.
    ///
    /// A file that could not be opened or read gives `ManifestOpen` or
    /// `ManifestRead`, a text that is no manifest `ManifestParse`; each carries
    /// `path`.
    pub fn from_manifest(path: Location, loaded: Loaded) -> (res: Result<CrateVersion, Error>)
        ensures
            match res {
                Ok(found) => {
                    &&& loaded matches Loaded::Text(text)
                    &&& parsed_document(text@) matches Some(document)
                    &&& declared(document) == Some((found.crate_name@, found.version@))
                    &&& found.path == path
                },
                Err(Error::ManifestOpen(at, why)) => at == path && loaded == Loaded::Unopened(why),
                Err(Error::ManifestRead(at, why)) => at == path && loaded == Loaded::Unread(why),
                Err(Error::ManifestParse(at, ManifestFault::Syntax(_))) => {
                    &&& at == path
                    &&& loaded matches Loaded::Text(text)
                    &&& parsed_document(text@) is None
                },
                Err(Error::ManifestParse(at, fault)) => {
                    &&& at == path
                    &&& loaded matches Loaded::Text(text)
                    &&& parsed_document(text@) matches Some(document)
                    &&& lacking(document) == Some(fault)
                },
                Err(_) => false,
            },
    {
        match loaded {
            Loaded::Unopened(why) => Err(Error::ManifestOpen(path, why)),
            Loaded::Unread(why) => Err(Error::ManifestRead(path, why)),
            Loaded::Text(text) => match Manifest::parse(text.as_str()) {
                Err(fault) => Err(Error::ManifestParse(path, fault)),
                Ok(manifest) => Ok(
                    CrateVersion {
                        crate_name: manifest.crate_name().to_owned(),
                        version: manifest.crate_version().to_owned(),
                        path,
                    },
                ),
            },
        }
    }
}

} // verus!
