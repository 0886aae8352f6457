//! Where a package lives in a store: a pure function of its name and version.

use vstd::prelude::*;

use crate::error::Error;
use crate::location::{relative, Location};

verus! {

/// The directory of a package, relative to the store's root.
///
/// Names of one, two and three characters go to the buckets `1`, `2` and `3`,
/// the last with a sub-bucket of the first character. A longer name goes to the
/// bucket of its first two characters and the sub-bucket of the next two. The
/// last component is the name itself.
pub open spec fn spec_shard(name: Seq<char>) -> Seq<Seq<char>>
    recommends
        name.len() > 0,
{
    if name.len() == 1 {
        seq![seq!['1'], name]
    } else if name.len() == 2 {
        seq![seq!['2'], name]
    } else if name.len() == 3 {
        seq![seq!['3'], name.subrange(0, 1), name]
    } else {
        seq![name.subrange(0, 2), name.subrange(2, 4), name]
    }
}

/// The directory of one release of a package, relative to the store's root:
/// the package's directory, then the version.
pub open spec fn spec_target(name: Seq<char>, version: Seq<char>) -> Seq<Seq<char>>
    recommends
        name.len() > 0,
        version.len() > 0,
{
    spec_shard(name).push(version)
}

/// The layout of a store, bucket by bucket: `1/n`, `2/n`, `3/c/n` with `c` the
/// first character of `n`, and `ab/cd/n` with `ab` the first two characters of
/// `n` and `cd` the next two; and a release lies in the directory of its
/// package, under its version.
pub proof fn lemma_layout(name: Seq<char>, version: Seq<char>)
    requires
        name.len() > 0,
    ensures
        name.len() == 1 ==> spec_shard(name) == seq!["1"@, name],
        name.len() == 2 ==> spec_shard(name) == seq!["2"@, name],
        name.len() == 3 ==> spec_shard(name) == seq!["3"@, seq![name[0]], name],
        name.len() >= 4 ==> spec_shard(name) == seq![
            seq![name[0], name[1]],
            seq![name[2], name[3]],
            name,
        ],
        spec_shard(name).last() == name,
        spec_target(name, version).drop_last() == spec_shard(name),
        spec_target(name, version).last() == version,
{
    reveal_strlit("1");
    reveal_strlit("2");
    reveal_strlit("3");
    assert("1"@ =~= seq!['1']);
    assert("2"@ =~= seq!['2']);
    assert("3"@ =~= seq!['3']);
    if name.len() == 3 {
        assert(name.subrange(0, 1) =~= seq![name[0]]);
    }
    if name.len() >= 4 {
        assert(name.subrange(0, 2) =~= seq![name[0], name[1]]);
        assert(name.subrange(2, 4) =~= seq![name[2], name[3]]);
    }
    assert(spec_target(name, version).drop_last() =~= spec_shard(name));
}

/// The directory of the package `name`, as a location relative to the store's
/// root.
///
/// An empty name is refused with `InvalidCrateName`.
pub fn shard(name: &str) -> (res: Result<Location, Error>)
    ensures
        match res {
            Ok(p) => name@.len() > 0 && p@ == relative(spec_shard(name@)),
            Err(Error::InvalidCrateName(n)) => name@.len() == 0 && n@ == name@,
            Err(_) => false,
        },
{
    let n = name.unicode_len();
    let mut path = Location::new();
    if n == 0 {
        return Err(Error::InvalidCrateName(name.to_owned()));
    } else if n == 1 {
        proof {
            reveal_strlit("1");
        }
        path.push("1");
        assert(path@[1] =~= seq!['1']);
    } else if n == 2 {
        proof {
            reveal_strlit("2");
        }
        path.push("2");
        assert(path@[1] =~= seq!['2']);
    } else if n == 3 {
        proof {
            reveal_strlit("3");
        }
        path.push("3");
        assert(path@[1] =~= seq!['3']);
        path.push(name.substring_char(0, 1));
    } else {
        path.push(name.substring_char(0, 2));
        path.push(name.substring_char(2, 4));
    }
    path.push(name);
    assert(path@ =~= relative(spec_shard(name@)));
    Ok(path)
}

/// The directory of the release `version` of the package `name`, relative to
/// the store's root.
///
/// An empty name is refused with `InvalidCrateName`; with a name, an empty
/// version is refused with `InvalidCrateVersion`.
pub fn target(name: &str, version: &str) -> (res: Result<Location, Error>)
    ensures
        match res {
            Ok(p) => name@.len() > 0 && version@.len() > 0 && p@ == relative(
                spec_target(name@, version@),
            ),
            Err(Error::InvalidCrateName(n)) => name@.len() == 0 && n@ == name@,
            Err(Error::InvalidCrateVersion(v)) => name@.len() > 0 && version@.len() == 0 && v@
                == version@,
            Err(_) => false,
        },
{
    match shard(name) {
        Err(e) => Err(e),
        Ok(mut path) => {
            if version.unicode_len() == 0 {
                Err(Error::InvalidCrateVersion(version.to_owned()))
            } else {
                path.push(version);
                Ok(path)
            }
        },
    }
}

} // verus!
