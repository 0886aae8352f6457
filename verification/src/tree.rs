//! Trees in memory: a tree given by the paths of its files, and the scan for
//! top-level manifests run beneath one of its directories from beginning to
//! end.

use vstd::prelude::*;
use vstd::seq_lib::*;
use vstd::set_lib::*;

use crate::location::{
    is_prefix, lemma_prefix_of_child, lemma_prefix_reflexive, lemma_prefix_transitive,
    strictly_beneath, Location,
};
use crate::progress::{
    accounted, dir_at, distinct_names, file_at, lemma_nothing_is_missed,
    lemma_one_manifest_per_tree, lemma_reported_in_order, listed, path_before, progress_at_start,
    settled, sound, Progress, Visit,
};
use crate::scan::{Scanner, Step};
use crate::walk::{spec_is_manifest_name, Entry, EntryKind};

verus! {

/// The paths of the files, each as its root and its components.
pub open spec fn paths(files: Seq<Location>) -> Seq<Seq<Seq<char>>> {
    Seq::new(files.len(), |i: int| files[i]@)
}

/// Whether the tree has something at `path`: a file there or beneath.
pub open spec fn present(files: Seq<Seq<Seq<char>>>, path: Seq<Seq<char>>) -> bool {
    exists|i: int| 0 <= i < files.len() && is_prefix(path, #[trigger] files[i])
}

/// Whether `path` is a directory of the tree: a file lies strictly beneath.
pub open spec fn is_dir(files: Seq<Seq<Seq<char>>>, path: Seq<Seq<char>>) -> bool {
    exists|i: int| 0 <= i < files.len() && strictly_beneath(path, #[trigger] files[i])
}

/// The kind of what the tree has at `path`: a directory where files lie
/// beneath, else a file.
pub open spec fn kind_at(files: Seq<Seq<Seq<char>>>, path: Seq<Seq<char>>) -> EntryKind {
    if is_dir(files, path) {
        EntryKind::Dir
    } else {
        EntryKind::File
    }
}

/// Whether `path` is a file of the tree, with nothing beneath.
pub open spec fn is_file(files: Seq<Seq<Seq<char>>>, path: Seq<Seq<char>>) -> bool {
    present(files, path) && !is_dir(files, path)
}

/// Whether the directory `dir` of the tree holds a manifest.
pub open spec fn manifest_in(files: Seq<Seq<Seq<char>>>, dir: Seq<Seq<char>>) -> bool {
    exists|name: Seq<char>|
        spec_is_manifest_name(name) && #[trigger] is_file(files, dir.push(name))
}

/// Whether `path` is a top-level manifest beneath `root`: a manifest beneath
/// `root`, with no manifest in any directory from `root` down to the one
/// above its own.
pub open spec fn top_level(
    files: Seq<Seq<Seq<char>>>,
    root: Seq<Seq<char>>,
    path: Seq<Seq<char>>,
) -> bool {
    &&& is_prefix(root, path)
    &&& path.len() > root.len()
    &&& spec_is_manifest_name(path.last())
    &&& is_file(files, path)
    &&& forall|k: int|
        root.len() <= k < path.len() - 1 ==> !manifest_in(files, #[trigger] path.take(k))
}

/// A location lies beneath a child of `dir` exactly when it lies strictly
/// beneath `dir` and goes on with the child's name.
pub proof fn lemma_prefix_of_push(dir: Seq<Seq<char>>, name: Seq<char>, path: Seq<Seq<char>>)
    ensures
        is_prefix(dir.push(name), path) <==> is_prefix(dir, path) && dir.len() < path.len()
            && path[dir.len() as int] == name,
{
    let child = dir.push(name);
    if is_prefix(child, path) {
        assert(path.subrange(0, dir.len() as int) =~= child.subrange(0, dir.len() as int));
        assert(child.subrange(0, dir.len() as int) =~= dir);
        assert(path.subrange(0, child.len() as int)[dir.len() as int] == child[dir.len() as int]);
    }
    if is_prefix(dir, path) && dir.len() < path.len() && path[dir.len() as int] == name {
        assert forall|k: int| 0 <= k < child.len() implies path.subrange(0, child.len() as int)[k]
            == child[k] by {
            if k < dir.len() {
                assert(path.subrange(0, dir.len() as int)[k] == dir[k]);
            }
        }
        assert(path.subrange(0, child.len() as int) =~= child);
    }
}

/// Whether a file of the tree lies strictly beneath `path`.
pub fn holds_beneath(files: &Vec<Location>, path: &Location) -> (res: bool)
    ensures
        res == is_dir(paths(files@), path@),
{
    let mut i: usize = 0;
    while i < files.len()
        invariant
            i <= files@.len(),
            forall|k: int| 0 <= k < i ==> !strictly_beneath(path@, #[trigger] paths(files@)[k]),
        decreases files@.len() - i,
    {
        if files[i].len() > path.len() && files[i].starts_with(path) {
            assert(strictly_beneath(path@, paths(files@)[i as int]));
            return true;
        }
        proof {
            if is_prefix(path@, files@[i as int]@) && files@[i as int]@.len() == path@.len() {
                lemma_prefix_reflexive(files@[i as int]@);
                assert(files@[i as int]@.subrange(0, path@.len() as int) =~= files@[i as int]@);
            }
        }
        i += 1;
    }
    false
}

/// Whether the listing names `name`.
pub open spec fn names(entries: Seq<Entry>, name: Seq<char>) -> bool {
    exists|a: int| 0 <= a < entries.len() && (#[trigger] entries[a]).name@ == name
}

fn has_name(entries: &Vec<Entry>, name: &String) -> (res: bool)
    ensures
        res == names(entries@, name@),
{
    let mut a: usize = 0;
    while a < entries.len()
        invariant
            a <= entries@.len(),
            forall|k: int| 0 <= k < a ==> (#[trigger] entries@[k]).name@ != name@,
        decreases entries@.len() - a,
    {
        if entries[a].name == *name {
            return true;
        }
        a += 1;
    }
    false
}

/// The listing of the directory `dir` of the tree with the files `files`: one
/// entry for each name that the tree has in `dir`, of the kind that the tree
/// has there.
pub fn listing(files: &Vec<Location>, dir: &Location) -> (res: Vec<Entry>)
    ensures
        distinct_names(res@),
        forall|a: int|
            0 <= a < res@.len() ==> present(paths(files@), dir@.push((#[trigger] res@[a]).name@))
                && res@[a].kind == kind_at(paths(files@), dir@.push(res@[a].name@)),
        forall|name: Seq<char>| #[trigger]
            present(paths(files@), dir@.push(name)) ==> names(res@, name),
{
    let ghost fs = paths(files@);
    let mut entries: Vec<Entry> = Vec::new();
    let mut i: usize = 0;
    while i < files.len()
        invariant
            i <= files@.len(),
            fs == paths(files@),
            distinct_names(entries@),
            forall|a: int|
                0 <= a < entries@.len() ==> present(fs, dir@.push((#[trigger] entries@[a]).name@))
                    && entries@[a].kind == kind_at(fs, dir@.push(entries@[a].name@)),
            forall|k: int, name: Seq<char>|
                0 <= k < i && is_prefix(dir@.push(name), #[trigger] fs[k]) ==> #[trigger] names(
                    entries@,
                    name,
                ),
        decreases files@.len() - i,
    {
        let file = &files[i];
        let ghost before = entries@;
        if file.len() > dir.len() && file.starts_with(dir) {
            let name = &file.parts[dir.len()];
            proof {
                lemma_prefix_of_push(dir@, name@, file@);
                assert(is_prefix(dir@.push(name@), fs[i as int]));
            }
            if !has_name(&entries, name) {
                let path = dir.join(name.as_str());
                let kind = if holds_beneath(files, &path) {
                    EntryKind::Dir
                } else {
                    EntryKind::File
                };
                entries.push(Entry { name: name.clone(), kind });
                assert(entries@[before.len() as int].name@ == name@);
            }
            assert(names(entries@, name@));
        }
        proof {
            assert forall|a: int| 0 <= a < before.len() implies #[trigger] entries@[a]
                == before[a] by {}
            assert forall|k: int, name: Seq<char>|
                0 <= k < i + 1 && is_prefix(dir@.push(name), #[trigger] fs[k]) implies #[trigger] names(
                entries@,
                name,
            ) by {
                if k < i {
                    assert(names(before, name));
                    let a = choose|a: int| 0 <= a < before.len() && (#[trigger] before[a]).name@ == name;
                    assert(entries@[a].name@ == name);
                } else {
                    lemma_prefix_of_push(dir@, name, file@);
                }
            }
        }
        i += 1;
    }
    entries
}

/// The lengths of the paths of the first `count` files, root and components
/// counted, and one more for each of them.
pub open spec fn span(files: Seq<Seq<Seq<char>>>, count: int) -> int
    decreases count,
{
    if count <= 0 {
        0
    } else {
        span(files, count - 1) + files[count - 1].len() + 1
    }
}

proof fn lemma_span_grows(files: Seq<Seq<Seq<char>>>, a: int, b: int)
    requires
        0 <= a <= b,
    ensures
        0 <= span(files, a) <= span(files, b),
    decreases b,
{
    if a < b {
        lemma_span_grows(files, a, b - 1);
    } else if a > 0 {
        lemma_span_grows(files, a - 1, a - 1);
    }
}

spec fn witness(files: Seq<Seq<Seq<char>>>, path: Seq<Seq<char>>) -> int {
    choose|i: int| 0 <= i < files.len() && is_prefix(path, #[trigger] files[i])
}

spec fn code(files: Seq<Seq<Seq<char>>>, root: Seq<Seq<char>>, path: Seq<Seq<char>>) -> int {
    if path == root {
        0
    } else {
        1 + span(files, witness(files, path)) + path.len()
    }
}

proof fn lemma_distinct_in_range(codes: Seq<int>, bound: int)
    requires
        codes.no_duplicates(),
        0 <= bound,
        forall|j: int| 0 <= j < codes.len() ==> 0 <= #[trigger] codes[j] < bound,
    ensures
        codes.len() <= bound,
{
    codes.unique_seq_to_set();
    lemma_int_range(0, bound);
    assert(codes.to_set().subset_of(set_int_range(0, bound))) by {
        assert forall|c: int| codes.to_set().contains(c) implies set_int_range(0, bound).contains(
            c,
        ) by {
            let j = choose|j: int| 0 <= j < codes.len() && codes[j] == c;
            assert(0 <= codes[j] < bound);
        }
    }
    lemma_len_subset(codes.to_set(), set_int_range(0, bound));
}

/// A tree has only so many directories: of locations without repetition, each
/// of them `root` or a location at which the tree has something, there are no
/// more than the paths of the files are long, and one for each file and for
/// `root`.
pub proof fn lemma_directories_are_few(
    files: Seq<Seq<Seq<char>>>,
    root: Seq<Seq<char>>,
    dirs: Seq<Seq<Seq<char>>>,
)
    requires
        dirs.no_duplicates(),
        forall|j: int| 0 <= j < dirs.len() ==> #[trigger] dirs[j] == root || present(files, dirs[j]),
    ensures
        dirs.len() <= span(files, files.len() as int) + 1,
{
    let total = files.len() as int;
    let codes = Seq::new(dirs.len(), |j: int| code(files, root, dirs[j]));
    lemma_span_grows(files, 0, total);
    assert forall|j: int| 0 <= j < codes.len() implies 0 <= #[trigger] codes[j] < span(files, total)
        + 1 by {
        let d = dirs[j];
        if d != root {
            let i = witness(files, d);
            lemma_span_grows(files, i, i);
            lemma_span_grows(files, i + 1, total);
            assert(span(files, i + 1) == span(files, i) + files[i].len() + 1);
        }
    }
    assert forall|a: int, b: int|
        0 <= a < codes.len() && 0 <= b < codes.len() && a != b implies codes[a] != codes[b] by {
        let x = dirs[a];
        let y = dirs[b];
        if x == root {
            lemma_span_grows(files, witness(files, y), witness(files, y));
        } else if y == root {
            lemma_span_grows(files, witness(files, x), witness(files, x));
        } else {
            let i = witness(files, x);
            let k = witness(files, y);
            if i < k {
                lemma_span_grows(files, i + 1, k);
                assert(span(files, i + 1) == span(files, i) + files[i].len() + 1);
            } else if k < i {
                lemma_span_grows(files, k + 1, i);
                assert(span(files, k + 1) == span(files, k) + files[k].len() + 1);
            } else if x.len() == y.len() {
                assert(x =~= y);
            }
        }
    }
    lemma_distinct_in_range(codes, span(files, total) + 1);
}

/// What a scan has seen of a tree besides the root of the scan: something
/// that the tree has, of the kind that the tree has there, in a directory
/// beneath `root` that the scan has listed.
pub open spec fn seen_in_tree(
    files: Seq<Seq<Seq<char>>>,
    root: Seq<Seq<char>>,
    p: Progress,
    entry: Visit,
) -> bool {
    &&& entry.path.len() > 0
    &&& is_prefix(root, entry.dir())
    &&& p.listed.contains(entry.dir())
    &&& present(files, entry.path)
    &&& entry.kind == kind_at(files, entry.path)
}

/// What the tree has under the name `name` in the directory `dir`.
pub open spec fn held(files: Seq<Seq<Seq<char>>>, dir: Seq<Seq<char>>, name: Seq<char>) -> Visit {
    Visit { path: dir.push(name), kind: kind_at(files, dir.push(name)) }
}

/// What holds of a scan from `root` that was told of a tree faithfully: it has
/// seen `root`, whatever else it has seen is what the tree has in a directory
/// that the scan has listed, and it has seen all that the tree has in those.
pub open spec fn told_of(files: Seq<Seq<Seq<char>>>, root: Seq<Seq<char>>, p: Progress) -> bool {
    &&& p.seen.contains(dir_at(root))
    &&& forall|entry: Visit| #[trigger]
        p.seen.contains(entry) ==> entry == dir_at(root) || seen_in_tree(files, root, p, entry)
    &&& forall|j: int, name: Seq<char>|
        0 <= j < p.listed.len() && #[trigger] present(files, (#[trigger] p.listed[j]).push(name))
            ==> p.seen.contains(held(files, p.listed[j], name))
}

proof fn lemma_manifest_of_tree(
    files: Seq<Seq<Seq<char>>>,
    root: Seq<Seq<char>>,
    p: Progress,
    k: int,
)
    requires
        sound(p),
        accounted(p),
        told_of(files, root, p),
        0 <= k < p.reported.len(),
    ensures
        p.reported[k].len() > 1,
        spec_is_manifest_name(p.reported[k].last()),
        is_file(files, p.reported[k]),
        is_prefix(root, p.reported[k].drop_last()),
        p.listed.contains(p.reported[k].drop_last()),
        manifest_in(files, p.reported[k].drop_last()),
        p.claimed.contains(p.reported[k].drop_last()),
{
    lemma_nothing_is_missed(p);
    lemma_one_manifest_per_tree(p);
    let r = p.reported[k];
    assert(p.seen.contains(file_at(r)));
    assert(file_at(r) != dir_at(root));
    assert(seen_in_tree(files, root, p, file_at(r)));
    assert(r =~= r.drop_last().push(r.last()));
    assert(is_file(files, r.drop_last().push(r.last())));
}

proof fn lemma_listed_above(
    files: Seq<Seq<Seq<char>>>,
    root: Seq<Seq<char>>,
    p: Progress,
    dir: Seq<Seq<char>>,
    k: int,
)
    requires
        accounted(p),
        told_of(files, root, p),
        p.listed.contains(dir),
        root.len() <= k <= dir.len(),
    ensures
        p.listed.contains(dir.take(k)),
    decreases dir.len() - k,
{
    if k == dir.len() {
        assert(dir.take(k) =~= dir);
    } else {
        lemma_nothing_is_missed(p);
        let j = choose|j: int| 0 <= j < p.listed.len() && p.listed[j] == dir;
        assert(p.seen.contains(dir_at(p.listed[j])));
        assert(dir_at(dir) != dir_at(root)) by {
            assert(dir_at(dir).path.len() > root.len());
        }
        assert(seen_in_tree(files, root, p, dir_at(dir)));
        lemma_listed_above(files, root, p, dir.drop_last(), k);
        assert(dir.drop_last().take(k) =~= dir.take(k));
    }
}

proof fn lemma_reported_is_top_level(
    files: Seq<Seq<Seq<char>>>,
    root: Seq<Seq<char>>,
    p: Progress,
    k: int,
)
    requires
        root.len() > 0,
        sound(p),
        accounted(p),
        told_of(files, root, p),
        p.pending.len() == 0,
        0 <= k < p.reported.len(),
    ensures
        top_level(files, root, p.reported[k]),
{
    lemma_manifest_of_tree(files, root, p, k);
    lemma_nothing_is_missed(p);
    lemma_one_manifest_per_tree(p);
    let r = p.reported[k];
    let dir = r.drop_last();
    lemma_prefix_of_child(root, r);
    lemma_prefix_transitive(root, dir, r);
    assert forall|n: int| root.len() <= n < r.len() - 1 implies !manifest_in(
        files,
        #[trigger] r.take(n),
    ) by {
        let above = r.take(n);
        if manifest_in(files, above) {
            let name = choose|name: Seq<char>|
                spec_is_manifest_name(name) && #[trigger] is_file(files, above.push(name));
            lemma_listed_above(files, root, p, dir, n);
            assert(dir.take(n) =~= above);
            let j = choose|j: int| 0 <= j < p.listed.len() && p.listed[j] == above;
            assert(present(files, p.listed[j].push(name)));
            let other = file_at(above.push(name));
            assert(kind_at(files, above.push(name)) == EntryKind::File);
            assert(held(files, p.listed[j], name) == other);
            assert(p.seen.contains(other));
            assert(other.path.last() == name);
            assert(other.path.len() > 1);
            assert(other.is_manifest());
            assert(settled(p, other));
            let m = choose|m: int| 0 <= m < p.reported.len() && p.reported[m] == other.path;
            assert(p.reported[m].drop_last() =~= above);
            assert(p.claimed.contains(p.reported[m].drop_last()));
            assert(is_prefix(above, dir)) by {
                assert(dir.subrange(0, above.len() as int) =~= above);
            }
        }
    }
}

proof fn lemma_path_is_listed(
    files: Seq<Seq<Seq<char>>>,
    root: Seq<Seq<char>>,
    p: Progress,
    path: Seq<Seq<char>>,
    k: int,
)
    requires
        root.len() > 0,
        sound(p),
        accounted(p),
        told_of(files, root, p),
        p.pending.len() == 0,
        top_level(files, root, path),
        root.len() <= k <= path.len() - 1,
    ensures
        p.listed.contains(path.take(k)),
    decreases k,
{
    lemma_nothing_is_missed(p);
    lemma_one_manifest_per_tree(p);
    let here = path.take(k);
    let entry = dir_at(here);
    if k == root.len() {
        assert(here =~= root);
    } else {
        lemma_path_is_listed(files, root, p, path, k - 1);
        let above = path.take(k - 1);
        let j = choose|j: int| 0 <= j < p.listed.len() && p.listed[j] == above;
        assert(here =~= above.push(path[k - 1]));
        let i = choose|i: int| 0 <= i < files.len() && is_prefix(path, #[trigger] files[i]);
        assert(is_prefix(here, path)) by {
            assert(path.subrange(0, here.len() as int) =~= here);
        }
        lemma_prefix_transitive(here, path, files[i]);
        assert(strictly_beneath(here, files[i]));
        assert(present(files, p.listed[j].push(path[k - 1])));
        assert(kind_at(files, here) == EntryKind::Dir);
        assert(held(files, p.listed[j], path[k - 1]) == entry);
    }
    assert(p.seen.contains(entry));
    assert(!entry.is_manifest());
    assert(settled(p, entry));
    if !p.listed.contains(here) {
        let claim = choose|claim: Seq<Seq<char>>| #[trigger]
            p.claimed.contains(claim) && is_prefix(claim, here);
        let m = choose|m: int|
            0 <= m < p.reported.len() && (#[trigger] p.reported[m]).drop_last() == claim;
        lemma_manifest_of_tree(files, root, p, m);
        assert(path.take(claim.len() as int) =~= claim) by {
            assert(here.subrange(0, claim.len() as int) =~= claim);
        }
        if claim.len() < path.len() - 1 {
            assert(!manifest_in(files, path.take(claim.len() as int)));
        } else {
            assert(claim =~= here);
        }
    }
}

/// A scan from `root` that was told of a tree faithfully and has nothing left
/// to visit has reported exactly the top-level manifests beneath `root`, each
/// of them once, in the order of their paths.
pub proof fn lemma_scan_is_exact(files: Seq<Seq<Seq<char>>>, root: Seq<Seq<char>>, p: Progress)
    requires
        root.len() > 0,
        sound(p),
        accounted(p),
        told_of(files, root, p),
        p.pending.len() == 0,
    ensures
        forall|path: Seq<Seq<char>>| #[trigger]
            p.reported.contains(path) <==> top_level(files, root, path),
        p.reported.no_duplicates(),
        forall|a: int, b: int|
            0 <= a < b < p.reported.len() ==> path_before(
                #[trigger] p.reported[a],
                #[trigger] p.reported[b],
            ),
{
    lemma_nothing_is_missed(p);
    lemma_one_manifest_per_tree(p);
    lemma_reported_in_order(p);
    assert forall|path: Seq<Seq<char>>| #[trigger] p.reported.contains(path) implies top_level(
        files,
        root,
        path,
    ) by {
        let k = choose|k: int| 0 <= k < p.reported.len() && p.reported[k] == path;
        lemma_reported_is_top_level(files, root, p, k);
    }
    assert forall|path: Seq<Seq<char>>| top_level(files, root, path) implies #[trigger] p.reported.contains(
        path,
    ) by {
        let dir = path.drop_last();
        lemma_path_is_listed(files, root, p, path, path.len() - 1);
        assert(path.take(path.len() - 1) =~= dir);
        let j = choose|j: int| 0 <= j < p.listed.len() && p.listed[j] == dir;
        assert(path =~= dir.push(path.last()));
        assert(present(files, p.listed[j].push(path.last())));
        assert(kind_at(files, path) == EntryKind::File);
        assert(held(files, p.listed[j], path.last()) == file_at(path));
        assert(p.seen.contains(file_at(path)));
        assert(file_at(path).is_manifest());
        assert(settled(p, file_at(path)));
    }
}

proof fn lemma_listed_beneath(
    files: Seq<Seq<Seq<char>>>,
    root: Seq<Seq<char>>,
    p: Progress,
    j: int,
)
    requires
        accounted(p),
        p.seen.contains(dir_at(root)),
        forall|entry: Visit| #[trigger]
            p.seen.contains(entry) ==> entry == dir_at(root) || (entry.path.len() > 0 && is_prefix(
                root,
                entry.dir(),
            ) && present(files, entry.path)),
        0 <= j < p.listed.len(),
    ensures
        is_prefix(root, p.listed[j]),
        p.listed[j] == root || present(files, p.listed[j]),
{
    lemma_nothing_is_missed(p);
    let entry = dir_at(p.listed[j]);
    assert(p.seen.contains(entry));
    if entry == dir_at(root) {
        assert(entry.path == root);
        lemma_prefix_reflexive(root);
    } else {
        lemma_prefix_of_child(root, entry.path);
        lemma_prefix_transitive(root, entry.dir(), entry.path);
    }
}

proof fn lemma_told_after_listing(
    files: Seq<Seq<Seq<char>>>,
    root: Seq<Seq<char>>,
    p: Progress,
    dir: Seq<Seq<char>>,
    entries: Seq<Entry>,
    kids: Seq<Visit>,
    q: Progress,
)
    requires
        p.seen.contains(dir_at(root)),
        forall|entry: Visit| #[trigger]
            p.seen.contains(entry) ==> entry == dir_at(root) || seen_in_tree(files, root, p, entry),
        forall|j: int, name: Seq<char>|
            0 <= j < p.listed.len() - 1 && #[trigger] present(
                files,
                (#[trigger] p.listed[j]).push(name),
            ) ==> p.seen.contains(held(files, p.listed[j], name)),
        p.listed.len() > 0,
        p.listed.last() == dir,
        is_prefix(root, dir),
        kids.to_multiset() == listed(dir, entries).to_multiset(),
        forall|a: int|
            0 <= a < entries.len() ==> present(files, dir.push((#[trigger] entries[a]).name@))
                && entries[a].kind == kind_at(files, dir.push(entries[a].name@)),
        forall|name: Seq<char>| #[trigger] present(files, dir.push(name)) ==> names(entries, name),
        q.seen == p.seen.union(kids.to_set()),
        q.listed == p.listed,
    ensures
        told_of(files, root, q),
{
    broadcast use group_to_multiset_ensures;

    let all = listed(dir, entries);
    assert forall|entry: Visit| #[trigger] q.seen.contains(entry) implies entry == dir_at(root)
        || seen_in_tree(files, root, q, entry) by {
        if !p.seen.contains(entry) {
            assert(kids.contains(entry));
            to_multiset_contains(kids, entry);
            to_multiset_contains(all, entry);
            let a = choose|a: int| 0 <= a < all.len() && all[a] == entry;
            assert(entry.path == dir.push(entries[a].name@));
            assert(entry.dir() =~= dir);
        } else if entry != dir_at(root) {
            assert(seen_in_tree(files, root, p, entry));
        }
    }
    assert forall|j: int, name: Seq<char>|
        0 <= j < q.listed.len() && #[trigger] present(
            files,
            (#[trigger] q.listed[j]).push(name),
        ) implies q.seen.contains(held(files, q.listed[j], name)) by {
        if j == p.listed.len() - 1 {
            assert(names(entries, name));
            let a = choose|a: int| 0 <= a < entries.len() && (#[trigger] entries[a]).name@ == name;
            let entry = held(files, dir, name);
            assert(all[a] == entry);
            assert(all.contains(entry));
            to_multiset_contains(kids, entry);
            to_multiset_contains(all, entry);
            assert(kids.to_set().contains(entry));
        } else {
            assert(p.seen.contains(held(files, p.listed[j], name)));
        }
    }
}

proof fn lemma_listed_are_few(files: Seq<Seq<Seq<char>>>, root: Seq<Seq<char>>, p: Progress)
    requires
        sound(p),
        accounted(p),
        told_of(files, root, p),
    ensures
        p.listed.len() <= span(files, files.len() as int) + 1,
{
    lemma_one_manifest_per_tree(p);
    assert forall|j: int| 0 <= j < p.listed.len() implies #[trigger] p.listed[j] == root
        || present(files, p.listed[j]) by {
        lemma_listed_beneath(files, root, p, j);
    }
    lemma_directories_are_few(files, root, p.listed);
}

/// The top-level manifests beneath `root` in the tree with the files `files`:
/// the manifests beneath `root` that have no manifest in any directory from
/// `root` down to the one above their own, each of them once, in the order of
/// their paths. The scan is run from `root` until nothing is left to visit.
pub fn top_level_manifests(root: &Location, files: &Vec<Location>) -> (res: Vec<Location>)
    ensures
        forall|path: Seq<Seq<char>>| #[trigger]
            paths(res@).contains(path) <==> top_level(paths(files@), root@, path),
        paths(res@).no_duplicates(),
        forall|a: int, b: int|
            0 <= a < b < res@.len() ==> path_before(
                #[trigger] paths(res@)[a],
                #[trigger] paths(res@)[b],
            ),
{
    let ghost fs = paths(files@);
    let ghost start = progress_at_start(dir_at(root@));
    let mut scanner = Scanner::new(root.duplicate(), EntryKind::Dir);
    let mut found: Vec<Location> = Vec::new();
    proof {
        assert(paths(found@) =~= scanner.progress().reported);
        assert(scanner.progress() == start);
        assert(start.seen.contains(dir_at(root@)));
        lemma_listed_are_few(fs, root@, scanner.progress());
    }
    loop
        invariant
            fs == paths(files@),
            root@.len() > 0,
            sound(scanner.progress()),
            accounted(scanner.progress()),
            scanner.progress().awaiting is None,
            paths(found@) == scanner.progress().reported,
            told_of(fs, root@, scanner.progress()),
            scanner.progress().listed.len() <= span(fs, fs.len() as int) + 1,
            scanner.failures().len() == 0,
        ensures
            forall|path: Seq<Seq<char>>| #[trigger]
                paths(found@).contains(path) <==> top_level(fs, root@, path),
            paths(found@).no_duplicates(),
            forall|a: int, b: int|
                0 <= a < b < found@.len() ==> path_before(
                    #[trigger] paths(found@)[a],
                    #[trigger] paths(found@)[b],
                ),
        decreases
                span(fs, fs.len() as int) + 1 - scanner.progress().listed.len(),
                scanner.progress().pending.len(),
    {
        let ghost before = scanner.progress();
        let ghost found_before = paths(found@);
        match scanner.next() {
            Step::Done => {
                proof {
                    lemma_scan_is_exact(fs, root@, scanner.progress());
                }
                break ;
            },
            Step::Manifest(path) => {
                found.push(path);
                assert(paths(found@) =~= found_before.push(path@));
                proof {
                    let after = scanner.progress();
                    assert forall|entry: Visit| #[trigger] after.seen.contains(entry) implies entry
                        == dir_at(root@) || seen_in_tree(fs, root@, after, entry) by {
                        if entry != dir_at(root@) {
                            assert(seen_in_tree(fs, root@, before, entry));
                        }
                    }
                }
            },
            Step::Failed(_) => {
                assert(false);
            },
            Step::List(dir) => {
                let ghost asked = scanner.progress();
                let entries = listing(files, &dir);
                scanner.supply(entries, Vec::new());
                proof {
                    let after = scanner.progress();
                    let from = asked.pending.len() as int;
                    let kids = after.pending.subrange(from, after.pending.len() as int).reverse();
                    assert(asked.listed.last() == dir@);
                    assert forall|j: int, name: Seq<char>|
                        0 <= j < asked.listed.len() - 1 && #[trigger] present(
                            fs,
                            (#[trigger] asked.listed[j]).push(name),
                        ) implies asked.seen.contains(held(fs, asked.listed[j], name)) by {
                        assert(asked.listed[j] == before.listed[j]);
                        assert(before.seen.contains(held(fs, before.listed[j], name)));
                    }
                    assert forall|entry: Visit| #[trigger] asked.seen.contains(entry) implies entry
                        == dir_at(root@) || seen_in_tree(fs, root@, asked, entry) by {
                        if entry != dir_at(root@) {
                            assert(seen_in_tree(fs, root@, before, entry));
                            let j = choose|j: int|
                                0 <= j < before.listed.len() && before.listed[j] == entry.dir();
                            assert(asked.listed[j] == entry.dir());
                        }
                    }
                    lemma_listed_beneath(fs, root@, asked, asked.listed.len() - 1);
                    lemma_told_after_listing(fs, root@, asked, dir@, entries@, kids, after);
                    lemma_listed_are_few(fs, root@, after);
                }
            },
        }
    }
    found
}

} // verus!
