//! The registry's index: one file for each package, at the place that the
//! package's name gives it.

use vstd::prelude::*;
use vstd::string::StringSliceAdditionalSpecFns;

use crate::address::{shard, spec_shard};
use crate::location::Location;
use crate::walk::EntryKind;

verus! {

/// Whether a failure of reading or writing says that nothing is there.
#[derive(Debug, Clone, Copy, PartialEq, Eq, Structural)]
pub enum IoKind {
    /// Nothing is at the place that was asked for.
    NotFound,
    /// Anything else.
    Other,
}

/// The failures of the index.
#[derive(Debug)]
pub enum Error {
    /// The package name is empty.
    EmptyCrateName,
    /// The repository that holds the index failed, and why.
    Git2(String),
    /// The name of a file in the index is no text; its bytes are carried along.
    InvalidCrateName(Vec<u8>),
    /// Reading or writing failed, of which kind and why.
    Io(IoKind, String),
    /// A package's file is not what the index holds, and why.
    Json(String),
    /// Something is at the index's place, and it is no directory.
    NotADirectory(Location),
    /// The index has no package of this name.
    NotFound(String),
    /// An entry could not be visited while walking the index, and why.
    WalkDir(String),
}

/// What is at a place.
#[derive(Debug)]
pub enum Probe {
    /// A directory.
    Directory,
    /// Something other than a directory.
    NotDirectory,
    /// Nothing.
    Missing,
    /// Looking failed, and why.
    Failed(String),
}

/// What has to be done to open an index.
#[derive(Debug)]
pub enum Opening {
    /// The repository is there: open the index.
    Open,
    /// Make the repository first, then open the index.
    Initialise,
    /// The index cannot be opened.
    Refuse(Error),
}

/// What has to be done to open the index at `path`, from what is at `path` and
/// what is at the repository's own directory beneath it.
///
/// A directory with the repository's directory in it is opened as it is.
/// A directory without one, and a place where nothing is, get a repository
/// first. Anything else at `path` is refused with `NotADirectory`, and a
/// failure to look at `path` with `Io`.
pub fn opening(path: &Location, root: Probe, repository: Probe) -> (res: Opening)
    ensures
        match root {
            Probe::Directory => if repository is Directory {
                res is Open
            } else {
                res is Initialise
            },
            Probe::Missing => res is Initialise,
            Probe::NotDirectory => res matches Opening::Refuse(Error::NotADirectory(at)) && at@
                == path@,
            Probe::Failed(why) => res == Opening::Refuse(Error::Io(IoKind::Other, why)),
        },
{
    match root {
        Probe::Directory => match repository {
            Probe::Directory => Opening::Open,
            _ => Opening::Initialise,
        },
        Probe::Missing => Opening::Initialise,
        Probe::NotDirectory => Opening::Refuse(Error::NotADirectory(path.duplicate())),
        Probe::Failed(why) => Opening::Refuse(Error::Io(IoKind::Other, why)),
    }
}

/// The bytes that the name of a package's file is made of: the ASCII letters
/// and digits, the hyphen and the underscore.
pub open spec fn is_name_byte(byte: u8) -> bool {
    (0x30 <= byte <= 0x39) || (0x41 <= byte <= 0x5a) || (0x61 <= byte <= 0x7a) || byte == 0x2d
        || byte == 0x5f
}

/// Whether a walk of the index takes up the entry of this name: every byte of
/// the name is a letter or a digit of ASCII, a hyphen or an underscore.
pub fn admits(name: &str) -> (res: bool)
    ensures
        res == forall|i: int|
            0 <= i < name.spec_bytes().len() ==> is_name_byte(#[trigger] name.spec_bytes()[i]),
{
    let bytes = name.as_bytes();
    let mut i: usize = 0;
    while i < bytes.len()
        invariant
            i <= bytes@.len(),
            bytes@ == name.spec_bytes(),
            forall|k: int| 0 <= k < i ==> is_name_byte(#[trigger] bytes@[k]),
        decreases bytes@.len() - i,
    {
        let byte = bytes[i];
        let letter_or_digit = (0x30 <= byte && byte <= 0x39) || (0x41 <= byte && byte <= 0x5a) || (
        0x61 <= byte && byte <= 0x7a);
        if !(letter_or_digit || byte == 0x2d || byte == 0x5f) {
            assert(!is_name_byte(name.spec_bytes()[i as int]));
            return false;
        }
        i += 1;
    }
    true
}

/// The package that an admitted entry of the index stands for: none for a
/// directory, and for anything else the package of the entry's name.
pub fn listed_crate(kind: EntryKind, name: &str) -> (res: Option<String>)
    ensures
        match res {
            Some(package) => kind != EntryKind::Dir && package@ == name@,
            None => kind == EntryKind::Dir,
        },
{
    match kind {
        EntryKind::Dir => None,
        _ => Some(name.to_owned()),
    }
}

/// The index of a registry, by its root directory.
#[derive(Debug)]
pub struct Index(pub Location);

impl Index {
    /// The index rooted at `path`.
    pub fn new(path: Location) -> (res: Index)
        ensures
            res.0 == path,
    {
        Index(path)
    }

    /// Where the file of the package `name` lies: the index's root, then the
    /// package's place beneath it.
    ///
    /// An empty name is refused with `EmptyCrateName`.
    pub fn get(&self, name: &str) -> (res: Result<Location, Error>)
        ensures
            match res {
                Ok(path) => name@.len() > 0 && path@ == self.0@ + spec_shard(name@),
                Err(Error::EmptyCrateName) => name@.len() == 0,
                Err(_) => false,
            },
    {
        match shard(name) {
            Err(_) => Err(Error::EmptyCrateName),
            Ok(place) => {
                let mut path = self.0.duplicate();
                path.append(&place);
                Ok(path)
            },
        }
    }

    /// What a lookup of the package `name` gives, from what came of opening
    /// the package's file.
    ///
    /// That nothing is at the file's place says that the index has no such
    /// package: `NotFound` with the name. Everything else is handed on.
    pub fn found<T>(name: &str, opened: Result<T, Error>) -> (res: Result<T, Error>)
        ensures
            match opened {
                Err(Error::Io(IoKind::NotFound, _)) => res matches Err(Error::NotFound(missing))
                    && missing@ == name@,
                _ => res == opened,
            },
    {
        match opened {
            Err(Error::Io(IoKind::NotFound, _)) => Err(Error::NotFound(name.to_owned())),
            other => other,
        }
    }
}

} // verus!
