//! What a directory holds, which of its entries is a manifest, and the set of
//! directories that a scan has already claimed.

use vstd::prelude::*;

use crate::error::Error;
use crate::location::{is_prefix, Location};

verus! {

/// What kind of thing a directory entry is.
#[derive(Debug, Clone, Copy, PartialEq, Eq, Structural)]
pub enum EntryKind {
    /// A regular file.
    File,
    /// A directory.
    Dir,
    /// Anything else: a link, a socket, a device.
    Other,
}

/// One line of a directory listing: the entry's name and its kind.
#[derive(Debug)]
pub struct Entry {
    pub name: String,
    pub kind: EntryKind,
}

/// The two spellings of a manifest's file name.
pub open spec fn spec_is_manifest_name(name: Seq<char>) -> bool {
    name == "Cargo.toml"@ || name == "cargo.toml"@
}

/// An entry is a manifest when it is a regular file whose last component is
/// one of the two names. A location without components, a bare root, is none.
pub open spec fn spec_is_manifest(kind: EntryKind, path: Seq<Seq<char>>) -> bool {
    kind == EntryKind::File && path.len() > 1 && spec_is_manifest_name(path.last())
}

/// Whether `name` is exactly `Cargo.toml` or `cargo.toml`.
pub fn is_manifest_name(name: &str) -> (res: bool)
    ensures
        res == spec_is_manifest_name(name@),
{
    let name = name.to_owned();
    name == "Cargo.toml".to_owned() || name == "cargo.toml".to_owned()
}

/// Whether the entry of kind `kind` at `path` is a manifest: a regular file
/// whose last component is one of the two manifest names.
pub fn is_manifest(kind: EntryKind, path: &Location) -> (res: bool)
    ensures
        res == spec_is_manifest(kind, path@),
{
    if kind != EntryKind::File {
        return false;
    }
    match path.file_name() {
        Some(name) => is_manifest_name(name),
        None => false,
    }
}

/// The directory that holds the manifest at `path`.
///
/// A location without components, a bare root or the empty relative location,
/// has no directory above it; it is refused with `ManifestAncestry`, which
/// carries the location.
pub fn manifest_parent(path: &Location) -> (res: Result<Location, Error>)
    ensures
        match res {
            Ok(dir) => path@.len() > 1 && dir@ == path@.drop_last(),
            Err(Error::ManifestAncestry(p)) => path@.len() == 1 && p@ == path@,
            Err(_) => false,
        },
{
    match path.parent() {
        Some(dir) => Ok(dir),
        None => Err(Error::ManifestAncestry(path.duplicate())),
    }
}

/// Whether `path` is one of the directories in `claimed` or lies beneath one.
pub open spec fn covers(claimed: Set<Seq<Seq<char>>>, path: Seq<Seq<char>>) -> bool {
    exists|dir: Seq<Seq<char>>| #[trigger] claimed.contains(dir) && is_prefix(dir, path)
}

/// The directories in which a scan has found a manifest.
///
/// A location is contained when it is one of these directories or lies beneath
/// one of them.
#[derive(Debug)]
pub struct PrefixSet {
    dirs: Vec<Location>,
}

impl View for PrefixSet {
    type V = Set<Seq<Seq<char>>>;

    closed spec fn view(&self) -> Set<Seq<Seq<char>>> {
        Set::new(|p: Seq<Seq<char>>| exists|i: int| 0 <= i < self.dirs@.len() && self.dirs@[i]@ == p)
    }
}

impl PrefixSet {
    /// The set without directories.
    pub fn new() -> (res: PrefixSet)
        ensures
            res@ == Set::<Seq<Seq<char>>>::empty(),
    {
        let res = PrefixSet { dirs: Vec::new() };
        assert(res@ =~= Set::<Seq<Seq<char>>>::empty());
        res
    }

    /// Whether `path` is a recorded directory or lies beneath one.
    pub fn contains(&self, path: &Location) -> (res: bool)
        ensures
            res == covers(self@, path@),
    {
        let mut i: usize = 0;
        while i < self.dirs.len()
            invariant
                i <= self.dirs@.len(),
                forall|k: int| 0 <= k < i ==> !is_prefix(#[trigger] self.dirs@[k]@, path@),
            decreases self.dirs@.len() - i,
        {
            if path.starts_with(&self.dirs[i]) {
                assert(self@.contains(self.dirs@[i as int]@));
                return true;
            }
            i += 1;
        }
        false
    }

    /// Records the directory `manifest_parent`.
    pub fn insert(&mut self, manifest_parent: &Location)
        ensures
            final(self)@ == old(self)@.insert(manifest_parent@),
    {
        self.dirs.push(manifest_parent.duplicate());
        assert(self@ =~= old(self)@.insert(manifest_parent@)) by {
            assert forall|p: Seq<Seq<char>>| self@.contains(p) implies old(self)@.insert(
                manifest_parent@,
            ).contains(p) by {
                let i = choose|i: int| 0 <= i < self.dirs@.len() && self.dirs@[i]@ == p;
                if i < old(self).dirs@.len() {
                    assert(old(self).dirs@[i]@ == p);
                }
            }
            assert forall|p: Seq<Seq<char>>|
                old(self)@.insert(manifest_parent@).contains(p) implies self@.contains(p) by {
                if p == manifest_parent@ {
                    assert(self.dirs@[old(self).dirs@.len() as int]@ == p);
                } else {
                    let i = choose|i: int| 0 <= i < old(self).dirs@.len() && old(self).dirs@[i]@ == p;
                    assert(self.dirs@[i]@ == p);
                }
            }
        }
    }
}

} // verus!
