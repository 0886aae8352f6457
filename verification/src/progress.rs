//! What a scan for top-level manifests has done and has yet to do, and what
//! holds of it at every step.
//!
//! The scan itself keeps a worklist and a set of claimed directories. Here
//! stands its state as the contracts see it, each of its steps as a function
//! on that state, and the two invariants from which the laws of the scan
//! follow: `sound`, of a scan whose listings never named an entry twice, and
//! `accounted`, of every scan.

use vstd::prelude::*;
use vstd::seq_lib::*;

use crate::location::{
    is_prefix, lemma_prefix_of_child, lemma_prefix_reflexive, lemma_prefix_transitive,
    strictly_beneath,
};
use crate::order::{lemma_lex_total, lemma_lex_transitive, lex_lt};
use crate::walk::{covers, spec_is_manifest, spec_is_manifest_name, Entry, EntryKind};

verus! {

/// An entry to visit, as the contracts see it.
pub ghost struct Visit {
    pub path: Seq<Seq<char>>,
    pub kind: EntryKind,
}

impl Visit {
    /// Whether the entry is a manifest.
    pub open spec fn is_manifest(self) -> bool {
        spec_is_manifest(self.kind, self.path)
    }

    /// The entry's own name: its last component.
    pub open spec fn name(self) -> Seq<char> {
        if self.path.len() > 0 {
            self.path.last()
        } else {
            Seq::empty()
        }
    }

    /// The directory that holds the entry.
    pub open spec fn dir(self) -> Seq<Seq<char>> {
        self.path.drop_last()
    }
}

/// Whether `a` is visited strictly before `b` among the entries of one
/// directory: manifests come before everything else, and within each of the
/// two groups the names decide.
pub open spec fn visit_before(a: Visit, b: Visit) -> bool {
    if a.is_manifest() != b.is_manifest() {
        a.is_manifest()
    } else {
        lex_lt(a.name(), b.name())
    }
}

/// Whether the entries stand in the order in which they are visited.
pub open spec fn in_visit_order(items: Seq<Visit>) -> bool {
    forall|i: int, j: int| 0 <= i < j < items.len() ==> !visit_before(items[j], items[i])
}

pub(crate) proof fn lemma_visit_before_transitive(a: Visit, b: Visit, c: Visit)
    requires
        visit_before(a, b),
        visit_before(b, c),
    ensures
        visit_before(a, c),
{
    if a.is_manifest() == b.is_manifest() && b.is_manifest() == c.is_manifest() {
        lemma_lex_transitive(a.name(), b.name(), c.name());
    }
}

/// What a scan has done so far and what it has yet to do.
pub ghost struct Progress {
    /// The entries still to visit; the last one is visited next.
    pub pending: Seq<Visit>,
    /// The directories in which a manifest was found.
    pub claimed: Set<Seq<Seq<char>>>,
    /// The directory whose listing the scan is waiting for, if any.
    pub awaiting: Option<Seq<Seq<char>>>,
    /// The manifests reported, in the order of their reporting.
    pub reported: Seq<Seq<Seq<char>>>,
    /// The directories handed out to be listed, in that order.
    pub listed: Seq<Seq<Seq<char>>>,
    /// Every entry that the scan was told of: the root, and what the listings
    /// named.
    pub seen: Set<Visit>,
}

/// No reported manifest lies in a directory strictly beneath the directory of
/// another reported manifest.
pub open spec fn not_nested(reported: Seq<Seq<Seq<char>>>) -> bool {
    forall|a: int, b: int|
        0 <= a < reported.len() && 0 <= b < reported.len() ==> !strictly_beneath(
            (#[trigger] reported[a]).drop_last(),
            (#[trigger] reported[b]).drop_last(),
        )
}

/// Every reported manifest lies directly in a claimed directory, and no
/// directory above that one is claimed.
pub open spec fn claimed_before_descent(p: Progress) -> bool {
    forall|k: int, dir: Seq<Seq<char>>|
        0 <= k < p.reported.len() && #[trigger] p.claimed.contains(dir) && is_prefix(
            dir,
            (#[trigger] p.reported[k]).drop_last(),
        ) ==> dir == p.reported[k].drop_last()
}

/// What the walk meets at the component `k` of the entry's path on its way to
/// the entry: the entry itself at its last component, a directory before.
pub open spec fn on_the_way(entry: Visit, k: int) -> Visit {
    if k + 1 == entry.path.len() {
        entry
    } else {
        dir_at(entry.path.take(k + 1))
    }
}

/// Whether the walk comes to `a` before it comes to `b`: where their paths
/// part, what lies on the way to `a` is visited before what lies on the way to
/// `b`.
pub open spec fn walk_before(a: Visit, b: Visit) -> bool {
    exists|k: int|
        0 <= k < a.path.len() && k < b.path.len() && a.path.take(k) == b.path.take(k)
            && #[trigger] visit_before(on_the_way(a, k), on_the_way(b, k))
}

/// Whether `a` comes before `b` when paths are compared component by
/// component: where they part, the name in `a` comes before the name in `b`.
pub open spec fn path_before(a: Seq<Seq<char>>, b: Seq<Seq<char>>) -> bool {
    exists|k: int|
        0 <= k < a.len() && k < b.len() && a.take(k) == b.take(k) && lex_lt(
            #[trigger] a[k],
            b[k],
        )
}

// What was reported came before what is pending, what is nearer the end of
// the worklist comes before what is farther from it, and what was reported
// earlier came before what was reported later.
spec fn in_walk_order(p: Progress) -> bool {
    &&& forall|k: int, i: int|
        0 <= k < p.reported.len() && 0 <= i < p.pending.len() ==> walk_before(
            file_at(#[trigger] p.reported[k]),
            #[trigger] p.pending[i],
        )
    &&& forall|i: int, j: int|
        0 <= i < j < p.pending.len() ==> walk_before(#[trigger] p.pending[j], #[trigger] p.pending[i])
    &&& forall|a: int, b: int|
        0 <= a < b < p.reported.len() ==> walk_before(
            file_at(#[trigger] p.reported[a]),
            file_at(#[trigger] p.reported[b]),
        )
    &&& p.awaiting matches Some(dir) ==> {
        &&& forall|k: int|
            0 <= k < p.reported.len() ==> walk_before(
                file_at(#[trigger] p.reported[k]),
                dir_at(dir),
            )
        &&& forall|i: int|
            0 <= i < p.pending.len() ==> walk_before(dir_at(dir), #[trigger] p.pending[i])
    }
}

// The pending manifests are the last entries of the worklist, all of them in
// one directory.
spec fn manifests_on_top(pending: Seq<Visit>) -> bool {
    forall|i: int, j: int|
        0 <= i < j < pending.len() && (#[trigger] pending[i]).is_manifest() ==> (
        #[trigger] pending[j]).is_manifest() && pending[j].dir() == pending[i].dir()
}

// No pending entry lies at or beneath another.
spec fn apart(pending: Seq<Visit>) -> bool {
    forall|i: int, j: int|
        0 <= i < pending.len() && 0 <= j < pending.len() && i != j ==> !is_prefix(
            (#[trigger] pending[i]).path,
            (#[trigger] pending[j]).path,
        )
}

// Nothing was reported at or beneath a pending entry.
spec fn untouched(p: Progress) -> bool {
    forall|i: int, k: int|
        0 <= i < p.pending.len() && 0 <= k < p.reported.len() ==> !is_prefix(
            (#[trigger] p.pending[i]).path,
            #[trigger] p.reported[k],
        )
}

// Beneath the directory of a pending manifest, nothing was reported but from
// that directory itself.
spec fn fresh_below(p: Progress) -> bool {
    forall|i: int, k: int|
        0 <= i < p.pending.len() && 0 <= k < p.reported.len() && (
        #[trigger] p.pending[i]).is_manifest() && is_prefix(
            p.pending[i].dir(),
            #[trigger] p.reported[k],
        ) ==> p.reported[k].drop_last() == p.pending[i].dir()
}

// Above the directory of a pending manifest, nothing is claimed.
spec fn fresh_above(p: Progress) -> bool {
    forall|i: int, dir: Seq<Seq<char>>|
        0 <= i < p.pending.len() && (#[trigger] p.pending[i]).is_manifest()
            && #[trigger] p.claimed.contains(dir) && is_prefix(dir, p.pending[i].dir()) ==> dir
            == p.pending[i].dir()
}

// The claimed directories are the directories of the reported manifests.
spec fn claims_match(p: Progress) -> bool {
    &&& forall|k: int|
        0 <= k < p.reported.len() ==> (#[trigger] p.reported[k]).len() > 1
            && spec_is_manifest_name(p.reported[k].last()) && p.claimed.contains(
            p.reported[k].drop_last(),
        )
    &&& forall|dir: Seq<Seq<char>>| #[trigger]
        p.claimed.contains(dir) ==> exists|k: int|
            0 <= k < p.reported.len() && (#[trigger] p.reported[k]).drop_last() == dir
}

// Nothing was listed at or beneath a pending entry.
spec fn unlisted(p: Progress) -> bool {
    forall|i: int, j: int|
        0 <= i < p.pending.len() && 0 <= j < p.listed.len() ==> !is_prefix(
            (#[trigger] p.pending[i]).path,
            #[trigger] p.listed[j],
        )
}

// The directory whose listing is awaited is not claimed, nothing was
// reported or listed beneath it, it is apart from every pending entry, and
// no manifest is pending.
spec fn awaited_is_fresh(p: Progress) -> bool {
    p.awaiting matches Some(dir) ==> {
        &&& !covers(p.claimed, dir)
        &&& forall|k: int| 0 <= k < p.reported.len() ==> !is_prefix(dir, #[trigger] p.reported[k])
        &&& forall|j: int|
            0 <= j < p.listed.len() && is_prefix(dir, #[trigger] p.listed[j]) ==> p.listed[j] == dir
        &&& forall|i: int|
            0 <= i < p.pending.len() ==> !is_prefix((#[trigger] p.pending[i]).path, dir)
                && !is_prefix(dir, p.pending[i].path) && !p.pending[i].is_manifest()
    }
}

/// What holds of a scan whose listings never named an entry twice.
pub closed spec fn sound(p: Progress) -> bool {
    &&& manifests_on_top(p.pending)
    &&& apart(p.pending)
    &&& untouched(p)
    &&& fresh_below(p)
    &&& fresh_above(p)
    &&& claims_match(p)
    &&& not_nested(p.reported)
    &&& awaited_is_fresh(p)
    &&& unlisted(p)
    &&& p.reported.no_duplicates()
    &&& p.listed.no_duplicates()
    &&& in_walk_order(p)
}

/// The children of `dir` that a listing names, each with its full path.
pub open spec fn children(dir: Seq<Seq<char>>, kids: Seq<Visit>) -> bool {
    forall|i: int| 0 <= i < kids.len() ==> (#[trigger] kids[i]).path.len() > 0 && kids[i].dir() == dir
}

/// No two of the entries have the same path.
pub open spec fn distinct_paths(kids: Seq<Visit>) -> bool {
    forall|i: int, j: int|
        0 <= i < kids.len() && 0 <= j < kids.len() && i != j ==> (#[trigger] kids[i]).path != (
        #[trigger] kids[j]).path
}

/// The scan at its start: the root is the one entry to visit.
pub open spec fn progress_at_start(root: Visit) -> Progress {
    Progress {
        pending: seq![root],
        claimed: Set::empty(),
        awaiting: None,
        reported: Seq::empty(),
        listed: Seq::empty(),
        seen: set![root],
    }
}

/// The scan after it has dropped the next entry.
pub open spec fn progress_after_skip(p: Progress) -> Progress {
    Progress { pending: p.pending.drop_last(), awaiting: None, ..p }
}

/// The scan after it has reported the next entry, a manifest.
pub open spec fn progress_after_report(p: Progress) -> Progress {
    Progress {
        pending: p.pending.drop_last(),
        claimed: p.claimed.insert(p.pending.last().dir()),
        awaiting: None,
        reported: p.reported.push(p.pending.last().path),
        ..p
    }
}

/// The scan after it has asked for the listing of the next entry, a directory.
pub open spec fn progress_after_ask(p: Progress) -> Progress {
    Progress {
        pending: p.pending.drop_last(),
        awaiting: Some(p.pending.last().path),
        listed: p.listed.push(p.pending.last().path),
        ..p
    }
}

/// The scan after it was given the awaited listing, in visiting order.
pub open spec fn progress_after_listing(p: Progress, kids: Seq<Visit>) -> Progress {
    Progress {
        pending: p.pending + kids.reverse(),
        awaiting: None,
        seen: p.seen.union(kids.to_set()),
        ..p
    }
}

/// The regular file at `path`.
pub open spec fn file_at(path: Seq<Seq<char>>) -> Visit {
    Visit { path, kind: EntryKind::File }
}

/// The directory at `path`.
pub open spec fn dir_at(path: Seq<Seq<char>>) -> Visit {
    Visit { path, kind: EntryKind::Dir }
}

/// Whether the scan is through with the entry: it reported the entry, a
/// manifest; or it handed the entry, a directory, out to be listed, or left it
/// alone beneath a claimed directory; or the entry is neither.
pub open spec fn settled(p: Progress, entry: Visit) -> bool {
    if entry.is_manifest() {
        p.reported.contains(entry.path)
    } else {
        entry.kind == EntryKind::Dir ==> p.listed.contains(entry.path) || covers(
            p.claimed,
            entry.path,
        )
    }
}

/// What holds of every scan: each entry that it was told of is still to be
/// visited or settled, and it reported and listed only what it was told of.
pub closed spec fn accounted(p: Progress) -> bool {
    &&& forall|i: int| 0 <= i < p.pending.len() ==> p.seen.contains(#[trigger] p.pending[i])
    &&& forall|entry: Visit| #[trigger]
        p.seen.contains(entry) ==> p.pending.contains(entry) || settled(p, entry)
    &&& forall|k: int|
        0 <= k < p.reported.len() ==> p.seen.contains(
            #[trigger] file_at(p.reported[k]),
        ) && file_at(p.reported[k]).is_manifest()
    &&& forall|j: int|
        0 <= j < p.listed.len() ==> p.seen.contains(
            #[trigger] dir_at(p.listed[j]),
        )
}

pub(crate) proof fn lemma_accounted_at_start(root: Visit)
    ensures
        accounted(progress_at_start(root)),
{
    let p = progress_at_start(root);
    assert(p.pending[0] == root);
}

pub(crate) proof fn lemma_accounted_resumed(p: Progress)
    requires
        accounted(p),
    ensures
        accounted(resumed(p, p.pending.len() as int)),
{
    let q = resumed(p, p.pending.len() as int);
    assert(q.pending =~= p.pending);
    assert forall|entry: Visit| #[trigger] q.seen.contains(entry) implies q.pending.contains(entry)
        || settled(q, entry) by {
        assert(p.pending.contains(entry) || settled(p, entry));
    }
}

pub(crate) proof fn lemma_accounted_after_skip(p: Progress)
    requires
        accounted(p),
        p.pending.len() > 0,
        passed_over(p.pending.last(), p.claimed),
    ensures
        accounted(progress_after_skip(p)),
{
    let q = progress_after_skip(p);
    let top = p.pending.len() - 1;
    assert forall|i: int| 0 <= i < q.pending.len() implies q.seen.contains(
        #[trigger] q.pending[i],
    ) by {
        assert(q.pending[i] == p.pending[i]);
    }
    assert forall|entry: Visit| #[trigger] q.seen.contains(entry) implies q.pending.contains(entry)
        || settled(q, entry) by {
        if p.pending.contains(entry) {
            let i = choose|i: int| 0 <= i < p.pending.len() && p.pending[i] == entry;
            if i < top {
                assert(q.pending[i] == entry);
            }
        } else {
            assert(settled(p, entry));
        }
    }
}

pub(crate) proof fn lemma_accounted_after_report(p: Progress)
    requires
        accounted(p),
        p.pending.len() > 0,
        p.pending.last().is_manifest(),
    ensures
        accounted(progress_after_report(p)),
{
    let q = progress_after_report(p);
    let top = p.pending.len() - 1;
    let m = p.pending[top];
    assert(q.reported[p.reported.len() as int] == m.path);
    assert forall|i: int| 0 <= i < q.pending.len() implies q.seen.contains(
        #[trigger] q.pending[i],
    ) by {
        assert(q.pending[i] == p.pending[i]);
    }
    assert forall|k: int| 0 <= k < p.reported.len() implies #[trigger] q.reported[k]
        == p.reported[k] by {}
    assert forall|entry: Visit| #[trigger] q.seen.contains(entry) implies q.pending.contains(entry)
        || settled(q, entry) by {
        if p.pending.contains(entry) {
            let i = choose|i: int| 0 <= i < p.pending.len() && p.pending[i] == entry;
            if i < top {
                assert(q.pending[i] == entry);
            }
        } else {
            assert(settled(p, entry));
            if entry.is_manifest() {
                let k = choose|k: int| 0 <= k < p.reported.len() && p.reported[k] == entry.path;
                assert(q.reported[k] == entry.path);
            } else if entry.kind == EntryKind::Dir && !p.listed.contains(entry.path) {
                let dir = choose|dir: Seq<Seq<char>>| #[trigger]
                    p.claimed.contains(dir) && is_prefix(dir, entry.path);
                assert(q.claimed.contains(dir));
            }
        }
    }
    assert forall|k: int| 0 <= k < q.reported.len() implies q.seen.contains(
        #[trigger] file_at(q.reported[k]),
    ) && file_at(q.reported[k]).is_manifest() by {
        if k < p.reported.len() {
            assert(q.reported[k] == p.reported[k]);
        } else {
            assert(file_at(q.reported[k]) == m);
        }
    }
}

pub(crate) proof fn lemma_accounted_after_ask(p: Progress)
    requires
        accounted(p),
        p.pending.len() > 0,
        p.pending.last().kind == EntryKind::Dir,
    ensures
        accounted(progress_after_ask(p)),
{
    let q = progress_after_ask(p);
    let top = p.pending.len() - 1;
    let d = p.pending[top];
    assert(q.listed[p.listed.len() as int] == d.path);
    assert forall|i: int| 0 <= i < q.pending.len() implies q.seen.contains(
        #[trigger] q.pending[i],
    ) by {
        assert(q.pending[i] == p.pending[i]);
    }
    assert forall|j: int| 0 <= j < p.listed.len() implies #[trigger] q.listed[j]
        == p.listed[j] by {}
    assert forall|entry: Visit| #[trigger] q.seen.contains(entry) implies q.pending.contains(entry)
        || settled(q, entry) by {
        if p.pending.contains(entry) {
            let i = choose|i: int| 0 <= i < p.pending.len() && p.pending[i] == entry;
            if i < top {
                assert(q.pending[i] == entry);
            }
        } else {
            assert(settled(p, entry));
            if !entry.is_manifest() && entry.kind == EntryKind::Dir && p.listed.contains(
                entry.path,
            ) {
                let j = choose|j: int| 0 <= j < p.listed.len() && p.listed[j] == entry.path;
                assert(q.listed[j] == entry.path);
            }
        }
    }
    assert forall|j: int| 0 <= j < q.listed.len() implies q.seen.contains(
        #[trigger] dir_at(q.listed[j]),
    ) by {
        if j < p.listed.len() {
            assert(q.listed[j] == p.listed[j]);
        } else {
            assert(dir_at(q.listed[j]) == d);
        }
    }
}

pub(crate) proof fn lemma_accounted_after_listing(p: Progress, kids: Seq<Visit>)
    requires
        accounted(p),
    ensures
        accounted(progress_after_listing(p, kids)),
{
    let q = progress_after_listing(p, kids);
    let n = p.pending.len() as int;
    assert forall|i: int| 0 <= i < q.pending.len() implies q.seen.contains(
        #[trigger] q.pending[i],
    ) by {
        if i < n {
            assert(q.pending[i] == p.pending[i]);
        } else {
            let kid = kids[kids.len() - 1 - (i - n)];
            assert(q.pending[i] == kid);
            assert(kids.contains(kid));
        }
    }
    assert forall|entry: Visit| #[trigger] q.seen.contains(entry) implies q.pending.contains(entry)
        || settled(q, entry) by {
        if p.seen.contains(entry) {
            if p.pending.contains(entry) {
                let i = choose|i: int| 0 <= i < p.pending.len() && p.pending[i] == entry;
                assert(q.pending[i] == entry);
            } else {
                assert(settled(p, entry));
            }
        } else {
            assert(kids.contains(entry));
            let a = choose|a: int| 0 <= a < kids.len() && kids[a] == entry;
            assert(q.pending[n + (kids.len() - 1 - a)] == entry);
        }
    }
}

/// When nothing is left to visit, nothing was missed: every manifest that the
/// scan was told of is reported, and every directory that it was told of was
/// handed out to be listed, unless it lies in or beneath a claimed directory.
/// And at any time the scan has reported only manifests, and listed only
/// directories, that it was told of.
pub proof fn lemma_nothing_is_missed(p: Progress)
    requires
        accounted(p),
    ensures
        p.pending.len() == 0 ==> forall|entry: Visit| #[trigger]
            p.seen.contains(entry) ==> settled(p, entry),
        forall|k: int|
            0 <= k < p.reported.len() ==> p.seen.contains(
                #[trigger] file_at(p.reported[k]),
            ) && file_at(p.reported[k]).is_manifest(),
        forall|j: int|
            0 <= j < p.listed.len() ==> p.seen.contains(
                #[trigger] dir_at(p.listed[j]),
            ),
{
}

pub(crate) proof fn lemma_sound_at_start(root: Visit)
    ensures
        sound(progress_at_start(root)),
{
}

pub(crate) proof fn lemma_sound_after_skip(p: Progress)
    requires
        sound(p),
        p.pending.len() > 0,
    ensures
        sound(progress_after_skip(p)),
{
    let q = progress_after_skip(p);
    assert forall|i: int| 0 <= i < q.pending.len() implies #[trigger] q.pending[i]
        == p.pending[i] by {}
    assert(manifests_on_top(q.pending)) by {
        assert forall|i: int, j: int|
            0 <= i < j < q.pending.len() && (#[trigger] q.pending[i]).is_manifest() implies (
            #[trigger] q.pending[j]).is_manifest() && q.pending[j].dir() == q.pending[i].dir() by {
            assert(q.pending[i] == p.pending[i] && q.pending[j] == p.pending[j]);
        }
    }
    assert(apart(q.pending)) by {
        assert forall|i: int, j: int|
            0 <= i < q.pending.len() && 0 <= j < q.pending.len() && i != j implies !is_prefix(
            (#[trigger] q.pending[i]).path,
            (#[trigger] q.pending[j]).path,
        ) by {
            assert(q.pending[i] == p.pending[i] && q.pending[j] == p.pending[j]);
        }
    }
    assert(untouched(q)) by {
        assert forall|i: int, k: int|
            0 <= i < q.pending.len() && 0 <= k < q.reported.len() implies !is_prefix(
            (#[trigger] q.pending[i]).path,
            #[trigger] q.reported[k],
        ) by {
            assert(q.pending[i] == p.pending[i]);
        }
    }
    assert(fresh_below(q)) by {
        assert forall|i: int, k: int|
            0 <= i < q.pending.len() && 0 <= k < q.reported.len() && (
            #[trigger] q.pending[i]).is_manifest() && is_prefix(
                q.pending[i].dir(),
                #[trigger] q.reported[k],
            ) implies q.reported[k].drop_last() == q.pending[i].dir() by {
            assert(q.pending[i] == p.pending[i]);
        }
    }
    assert(fresh_above(q)) by {
        assert forall|i: int, dir: Seq<Seq<char>>|
            0 <= i < q.pending.len() && (#[trigger] q.pending[i]).is_manifest()
                && #[trigger] q.claimed.contains(dir) && is_prefix(
                dir,
                q.pending[i].dir(),
            ) implies dir == q.pending[i].dir() by {
            assert(q.pending[i] == p.pending[i]);
        }
    }
}

pub(crate) proof fn lemma_sound_after_ask(p: Progress)
    requires
        sound(p),
        p.awaiting is None,
        p.pending.len() > 0,
        p.pending.last().kind == EntryKind::Dir,
        !covers(p.claimed, p.pending.last().path),
    ensures
        sound(progress_after_ask(p)),
{
    let q = progress_after_ask(p);
    let rest = progress_after_skip(p);
    lemma_sound_after_skip(p);
    assert(q.pending == rest.pending && q.claimed == rest.claimed && q.reported == rest.reported);
    let top = p.pending.len() - 1;
    let dir = p.pending[top].path;
    assert(!p.pending[top].is_manifest());
    assert(awaited_is_fresh(q)) by {
        assert forall|k: int| 0 <= k < q.reported.len() implies !is_prefix(
            dir,
            #[trigger] q.reported[k],
        ) by {
            assert(!is_prefix(p.pending[top].path, p.reported[k]));
        }
        assert forall|i: int| 0 <= i < q.pending.len() implies !is_prefix(
            (#[trigger] q.pending[i]).path,
            dir,
        ) && !is_prefix(dir, q.pending[i].path) && !q.pending[i].is_manifest() by {
            assert(q.pending[i] == p.pending[i]);
            assert(!is_prefix(p.pending[i].path, p.pending[top].path));
            assert(!is_prefix(p.pending[top].path, p.pending[i].path));
            if p.pending[i].is_manifest() {
                assert(p.pending[top].is_manifest());
            }
        }
    }
    assert(manifests_on_top(q.pending));
    assert(apart(q.pending));
    assert(untouched(q));
    assert(fresh_below(q));
    assert(fresh_above(q));
    assert(claims_match(q));
    let n = p.listed.len() as int;
    lemma_prefix_reflexive(dir);
    assert forall|j: int| 0 <= j < q.listed.len() implies #[trigger] q.listed[j] == (if j < n {
        p.listed[j]
    } else {
        dir
    }) by {}
    assert forall|j: int| 0 <= j < n implies !is_prefix(dir, #[trigger] p.listed[j]) by {
        assert(!is_prefix(p.pending[top].path, p.listed[j]));
    }
    assert(unlisted(q)) by {
        assert forall|i: int, j: int|
            0 <= i < q.pending.len() && 0 <= j < q.listed.len() implies !is_prefix(
            (#[trigger] q.pending[i]).path,
            #[trigger] q.listed[j],
        ) by {
            assert(q.pending[i] == p.pending[i]);
            if j < n {
                assert(!is_prefix(p.pending[i].path, p.listed[j]));
            } else {
                assert(!is_prefix(p.pending[i].path, p.pending[top].path));
            }
        }
    }
    assert(q.listed.no_duplicates()) by {
        assert forall|a: int, b: int|
            0 <= a < q.listed.len() && 0 <= b < q.listed.len() && a != b implies q.listed[a]
            != q.listed[b] by {
            if a < n && b < n {
                assert(p.listed[a] != p.listed[b]);
            } else if a < n {
                assert(!is_prefix(dir, p.listed[a]));
            } else {
                assert(!is_prefix(dir, p.listed[b]));
            }
        }
    }
    assert(awaited_is_fresh(q)) by {
        assert forall|j: int|
            0 <= j < q.listed.len() && is_prefix(dir, #[trigger] q.listed[j]) implies q.listed[j]
            == dir by {
            if j < n {
                assert(!is_prefix(dir, p.listed[j]));
            }
        }
    }
}

pub(crate) proof fn lemma_sound_after_report(p: Progress)
    requires
        sound(p),
        p.awaiting is None,
        p.pending.len() > 0,
        p.pending.last().is_manifest(),
    ensures
        sound(progress_after_report(p)),
{
    let q = progress_after_report(p);
    let top = p.pending.len() - 1;
    let m = p.pending[top];
    let n = p.reported.len() as int;
    lemma_prefix_of_child(m.dir(), m.path);
    assert forall|i: int| 0 <= i < q.pending.len() implies q.pending[i] == p.pending[i] by {}
    assert forall|k: int| 0 <= k < q.reported.len() implies q.reported[k] == (if k < n {
        p.reported[k]
    } else {
        m.path
    }) by {}
    assert(untouched(q)) by {
        assert forall|i: int, k: int|
            0 <= i < q.pending.len() && 0 <= k < q.reported.len() implies !is_prefix(
            (#[trigger] q.pending[i]).path,
            #[trigger] q.reported[k],
        ) by {
            assert(q.pending[i] == p.pending[i]);
            if k < n {
                assert(q.reported[k] == p.reported[k]);
            }
        }
    }
    assert(fresh_below(q)) by {
        assert forall|i: int, k: int|
            0 <= i < q.pending.len() && 0 <= k < q.reported.len() && (
            #[trigger] q.pending[i]).is_manifest() && is_prefix(
                q.pending[i].dir(),
                #[trigger] q.reported[k],
            ) implies q.reported[k].drop_last() == q.pending[i].dir() by {
            assert(q.pending[i] == p.pending[i]);
            if k < n {
                assert(q.reported[k] == p.reported[k]);
            } else {
                assert(p.pending[top].dir() == p.pending[i].dir());
            }
        }
    }
    assert(fresh_above(q)) by {
        assert forall|i: int, dir: Seq<Seq<char>>|
            0 <= i < q.pending.len() && (#[trigger] q.pending[i]).is_manifest()
                && #[trigger] q.claimed.contains(dir) && is_prefix(
                dir,
                q.pending[i].dir(),
            ) implies dir == q.pending[i].dir() by {
            assert(q.pending[i] == p.pending[i]);
            assert(p.pending[top].dir() == p.pending[i].dir());
            if dir != m.dir() {
                assert(p.claimed.contains(dir));
            }
        }
    }
    assert(claims_match(q)) by {
        assert forall|k: int| 0 <= k < q.reported.len() implies (#[trigger] q.reported[k]).len() > 1
            && spec_is_manifest_name(q.reported[k].last()) && q.claimed.contains(
            q.reported[k].drop_last(),
        ) by {
            if k < n {
                assert(q.reported[k] == p.reported[k]);
            }
        }
        assert forall|dir: Seq<Seq<char>>| #[trigger] q.claimed.contains(dir) implies exists|k: int|
            0 <= k < q.reported.len() && (#[trigger] q.reported[k]).drop_last() == dir by {
            if dir == m.dir() {
                assert(q.reported[n].drop_last() == dir);
            } else {
                assert(p.claimed.contains(dir));
                let k = choose|k: int|
                    0 <= k < p.reported.len() && (#[trigger] p.reported[k]).drop_last() == dir;
                assert(q.reported[k].drop_last() == dir);
            }
        }
    }
    assert(unlisted(q)) by {
        assert forall|i: int, j: int|
            0 <= i < q.pending.len() && 0 <= j < q.listed.len() implies !is_prefix(
            (#[trigger] q.pending[i]).path,
            #[trigger] q.listed[j],
        ) by {
            assert(q.pending[i] == p.pending[i]);
        }
    }
    assert(q.reported.no_duplicates()) by {
        lemma_prefix_reflexive(m.path);
        assert forall|a: int, b: int|
            0 <= a < q.reported.len() && 0 <= b < q.reported.len() && a != b implies q.reported[a]
            != q.reported[b] by {
            if a < n && b < n {
                assert(p.reported[a] != p.reported[b]);
            } else if a < n {
                assert(!is_prefix(p.pending[top].path, p.reported[a]));
            } else {
                assert(!is_prefix(p.pending[top].path, p.reported[b]));
            }
        }
    }
    assert(not_nested(q.reported)) by {
        assert forall|a: int, b: int|
            0 <= a < q.reported.len() && 0 <= b < q.reported.len() implies !strictly_beneath(
            (#[trigger] q.reported[a]).drop_last(),
            (#[trigger] q.reported[b]).drop_last(),
        ) by {
            if a < n && b < n {
                assert(q.reported[a] == p.reported[a] && q.reported[b] == p.reported[b]);
            } else if a < n {
                assert(q.reported[a] == p.reported[a]);
                assert(p.claimed.contains(p.reported[a].drop_last()));
            } else if b < n {
                assert(q.reported[b] == p.reported[b]);
                let r = p.reported[b];
                lemma_prefix_of_child(m.dir(), r);
                if is_prefix(m.dir(), r.drop_last()) {
                    lemma_prefix_transitive(m.dir(), r.drop_last(), r);
                }
            }
        }
    }
}

proof fn lemma_walk_to_child(dir: Seq<Seq<char>>, kid: Visit, k: int)
    requires
        kid.path.len() > 0,
        kid.dir() == dir,
        0 <= k < dir.len(),
    ensures
        kid.path.take(k) == dir.take(k),
        on_the_way(kid, k) == on_the_way(dir_at(dir), k),
{
    assert(kid.path.take(k) =~= dir.take(k));
    assert(kid.path.take(k + 1) =~= dir.take(k + 1));
    if k + 1 == dir.len() {
        assert(dir.take(k + 1) =~= dir);
    }
}

proof fn lemma_child_after(dir: Seq<Seq<char>>, kid: Visit, other: Visit)
    requires
        kid.path.len() > 0,
        kid.dir() == dir,
        walk_before(other, dir_at(dir)),
    ensures
        walk_before(other, kid),
{
    let k = choose|k: int|
        0 <= k < other.path.len() && k < dir.len() && other.path.take(k) == dir.take(k)
            && #[trigger] visit_before(on_the_way(other, k), on_the_way(dir_at(dir), k));
    lemma_walk_to_child(dir, kid, k);
    assert(visit_before(on_the_way(other, k), on_the_way(kid, k)));
}

proof fn lemma_child_before(dir: Seq<Seq<char>>, kid: Visit, other: Visit)
    requires
        kid.path.len() > 0,
        kid.dir() == dir,
        walk_before(dir_at(dir), other),
    ensures
        walk_before(kid, other),
{
    let k = choose|k: int|
        0 <= k < dir.len() && k < other.path.len() && dir.take(k) == other.path.take(k)
            && #[trigger] visit_before(on_the_way(dir_at(dir), k), on_the_way(other, k));
    lemma_walk_to_child(dir, kid, k);
    assert(visit_before(on_the_way(kid, k), on_the_way(other, k)));
}

proof fn lemma_siblings_in_order(first: Visit, second: Visit)
    requires
        first.path.len() > 0,
        second.path.len() > 0,
        first.dir() == second.dir(),
        first.path != second.path,
        !visit_before(second, first),
    ensures
        walk_before(first, second),
{
    let k = first.path.len() - 1;
    assert(first.path.take(k) =~= first.dir());
    assert(second.path.take(k) =~= second.dir());
    lemma_lex_total(first.name(), second.name());
    if first.name() == second.name() {
        assert(first.path =~= first.dir().push(first.name()));
        assert(second.path =~= second.dir().push(second.name()));
    }
    assert(visit_before(on_the_way(first, k), on_the_way(second, k)));
}

proof fn lemma_sound_after_listing(p: Progress, kids: Seq<Visit>)
    requires
        sound(p),
        p.awaiting is Some,
        children(p.awaiting->0, kids),
        distinct_paths(kids),
        in_visit_order(kids),
    ensures
        sound(progress_after_listing(p, kids)),
{
    let q = progress_after_listing(p, kids);
    let dir = p.awaiting->0;
    let n = p.pending.len() as int;
    assert forall|i: int| 0 <= i < q.pending.len() implies q.pending[i] == (if i < n {
        p.pending[i]
    } else {
        kids[kids.len() - 1 - (i - n)]
    }) by {}
    assert forall|i: int| n <= i < q.pending.len() implies (#[trigger] q.pending[i]).dir() == dir
        && is_prefix(dir, q.pending[i].path) && q.pending[i].path.len() > 0 by {
        let c = kids[kids.len() - 1 - (i - n)];
        assert(q.pending[i] == c);
        lemma_prefix_of_child(dir, c.path);
    }
    assert(manifests_on_top(q.pending)) by {
        assert forall|i: int, j: int|
            0 <= i < j < q.pending.len() && (#[trigger] q.pending[i]).is_manifest() implies (
            #[trigger] q.pending[j]).is_manifest() && q.pending[j].dir() == q.pending[i].dir() by {
            if i < n {
                assert(q.pending[i] == p.pending[i]);
            } else {
                let a = kids.len() - 1 - (i - n);
                let b = kids.len() - 1 - (j - n);
                assert(q.pending[i] == kids[a] && q.pending[j] == kids[b]);
                assert(!visit_before(kids[a], kids[b]));
            }
        }
    }
    assert(apart(q.pending)) by {
        assert forall|i: int, j: int|
            0 <= i < q.pending.len() && 0 <= j < q.pending.len() && i != j implies !is_prefix(
            (#[trigger] q.pending[i]).path,
            (#[trigger] q.pending[j]).path,
        ) by {
            if i < n && j < n {
                assert(q.pending[i] == p.pending[i] && q.pending[j] == p.pending[j]);
            } else if i < n {
                assert(q.pending[i] == p.pending[i]);
                lemma_prefix_of_child(q.pending[i].path, q.pending[j].path);
                if q.pending[i].path == q.pending[j].path {
                    assert(is_prefix(dir, p.pending[i].path));
                }
            } else if j < n {
                assert(q.pending[j] == p.pending[j]);
                if is_prefix(q.pending[i].path, q.pending[j].path) {
                    lemma_prefix_transitive(dir, q.pending[i].path, q.pending[j].path);
                }
            } else {
                let a = kids.len() - 1 - (i - n);
                let b = kids.len() - 1 - (j - n);
                assert(q.pending[i] == kids[a] && q.pending[j] == kids[b]);
                assert(kids[a].path != kids[b].path);
                lemma_prefix_of_child(kids[a].path, kids[b].path);
                if is_prefix(kids[a].path, dir) {
                    assert(kids[a].path.len() == dir.len() + 1);
                }
            }
        }
    }
    assert(untouched(q)) by {
        assert forall|i: int, k: int|
            0 <= i < q.pending.len() && 0 <= k < q.reported.len() implies !is_prefix(
            (#[trigger] q.pending[i]).path,
            #[trigger] q.reported[k],
        ) by {
            if i < n {
                assert(q.pending[i] == p.pending[i]);
            } else if is_prefix(q.pending[i].path, q.reported[k]) {
                lemma_prefix_transitive(dir, q.pending[i].path, q.reported[k]);
            }
        }
    }
    assert(fresh_below(q)) by {
        assert forall|i: int, k: int|
            0 <= i < q.pending.len() && 0 <= k < q.reported.len() && (
            #[trigger] q.pending[i]).is_manifest() && is_prefix(
                q.pending[i].dir(),
                #[trigger] q.reported[k],
            ) implies q.reported[k].drop_last() == q.pending[i].dir() by {
            if i < n {
                assert(q.pending[i] == p.pending[i]);
            }
        }
    }
    assert(unlisted(q)) by {
        assert forall|i: int, j: int|
            0 <= i < q.pending.len() && 0 <= j < q.listed.len() implies !is_prefix(
            (#[trigger] q.pending[i]).path,
            #[trigger] q.listed[j],
        ) by {
            if i < n {
                assert(q.pending[i] == p.pending[i]);
            } else if is_prefix(q.pending[i].path, q.listed[j]) {
                lemma_prefix_transitive(dir, q.pending[i].path, q.listed[j]);
                assert(p.listed[j] == dir);
            }
        }
    }
    assert(fresh_above(q)) by {
        assert forall|i: int, c: Seq<Seq<char>>|
            0 <= i < q.pending.len() && (#[trigger] q.pending[i]).is_manifest()
                && #[trigger] q.claimed.contains(c) && is_prefix(
                c,
                q.pending[i].dir(),
            ) implies c == q.pending[i].dir() by {
            if i < n {
                assert(q.pending[i] == p.pending[i]);
            }
        }
    }
    assert(in_walk_order(q)) by {
        assert forall|k: int, i: int|
            0 <= k < q.reported.len() && 0 <= i < q.pending.len() implies walk_before(
            file_at(#[trigger] q.reported[k]),
            #[trigger] q.pending[i],
        ) by {
            if i < n {
                assert(q.pending[i] == p.pending[i]);
            } else {
                lemma_child_after(dir, q.pending[i], file_at(p.reported[k]));
            }
        }
        assert forall|i: int, j: int| 0 <= i < j < q.pending.len() implies walk_before(
            #[trigger] q.pending[j],
            #[trigger] q.pending[i],
        ) by {
            if j < n {
                assert(q.pending[i] == p.pending[i] && q.pending[j] == p.pending[j]);
            } else if i < n {
                assert(q.pending[i] == p.pending[i]);
                lemma_child_before(dir, q.pending[j], p.pending[i]);
            } else {
                let a = kids.len() - 1 - (i - n);
                let b = kids.len() - 1 - (j - n);
                assert(q.pending[i] == kids[a] && q.pending[j] == kids[b]);
                assert(!visit_before(kids[a], kids[b]));
                assert(kids[a].path != kids[b].path);
                lemma_siblings_in_order(kids[b], kids[a]);
            }
        }
    }
}

/// Of a scan whose listings never named an entry twice: what it has reported
/// are manifests, none of them in a directory strictly beneath the directory
/// of another, and the claimed directories are exactly the directories of the
/// reported manifests, so that no manifest was reported from beneath a
/// directory that was claimed. Nothing was reported twice, and no directory
/// was handed out twice to be listed.
pub proof fn lemma_one_manifest_per_tree(p: Progress)
    requires
        sound(p),
    ensures
        not_nested(p.reported),
        claimed_before_descent(p),
        forall|k: int|
            0 <= k < p.reported.len() ==> (#[trigger] p.reported[k]).len() > 1
                && spec_is_manifest_name(p.reported[k].last()) && p.claimed.contains(
                p.reported[k].drop_last(),
            ),
        forall|dir: Seq<Seq<char>>| #[trigger]
            p.claimed.contains(dir) ==> exists|k: int|
                0 <= k < p.reported.len() && (#[trigger] p.reported[k]).drop_last() == dir,
        p.reported.no_duplicates(),
        p.listed.no_duplicates(),
{
    assert forall|k: int, dir: Seq<Seq<char>>|
        0 <= k < p.reported.len() && #[trigger] p.claimed.contains(dir) && is_prefix(
            dir,
            (#[trigger] p.reported[k]).drop_last(),
        ) implies dir == p.reported[k].drop_last() by {
        let other = choose|j: int|
            0 <= j < p.reported.len() && (#[trigger] p.reported[j]).drop_last() == dir;
        assert(!strictly_beneath(p.reported[other].drop_last(), p.reported[k].drop_last()));
    }
}

/// Of a scan whose listings never named an entry twice: the manifests are
/// reported in the order of their paths, compared component by component.
pub proof fn lemma_reported_in_order(p: Progress)
    requires
        sound(p),
    ensures
        forall|a: int, b: int|
            0 <= a < b < p.reported.len() ==> path_before(
                #[trigger] p.reported[a],
                #[trigger] p.reported[b],
            ),
{
    assert forall|a: int, b: int| 0 <= a < b < p.reported.len() implies path_before(
        #[trigger] p.reported[a],
        #[trigger] p.reported[b],
    ) by {
        let x = p.reported[a];
        let y = p.reported[b];
        assert(walk_before(file_at(x), file_at(y)));
        let k = choose|k: int|
            0 <= k < x.len() && k < y.len() && file_at(x).path.take(k) == file_at(y).path.take(k)
                && #[trigger] visit_before(on_the_way(file_at(x), k), on_the_way(file_at(y), k));
        assert(file_at(x).is_manifest() && file_at(y).is_manifest());
        if k + 1 == x.len() && k + 1 < y.len() {
            assert(x.drop_last() =~= x.take(k));
            assert(is_prefix(x.drop_last(), y.drop_last())) by {
                assert(y.drop_last().subrange(0, k) =~= y.take(k));
            }
            assert(!strictly_beneath(x.drop_last(), y.drop_last()));
        }
        assert(on_the_way(file_at(x), k).name() == x[k]) by {
            assert(x.take(k + 1).last() == x[k]);
        }
        assert(on_the_way(file_at(y), k).name() == y[k]) by {
            assert(y.take(k + 1).last() == y[k]);
        }
        assert(lex_lt(x[k], y[k]));
    }
}

/// A directory that holds a manifest is never listed again beneath: once the
/// manifests of a directory were visited, the scan passes over every entry
/// beneath that directory.
pub proof fn lemma_claimed_is_pruned(entry: Visit, claimed: Set<Seq<Seq<char>>>, dir: Seq<Seq<char>>)
    requires
        claimed.contains(dir),
        is_prefix(dir, entry.path),
        !entry.is_manifest(),
    ensures
        passed_over(entry, claimed),
{
}

/// Whether the scan passes over the entry without reporting or listing it:
/// anything but a manifest and a directory outside the claimed ones.
pub open spec fn passed_over(entry: Visit, claimed: Set<Seq<Seq<char>>>) -> bool {
    !entry.is_manifest() && !(entry.kind == EntryKind::Dir && !covers(claimed, entry.path))
}

/// The scan with only its first `keep` pending entries left and no listing
/// awaited.
pub open spec fn resumed(p: Progress, keep: int) -> Progress {
    Progress { pending: p.pending.take(keep), awaiting: None, ..p }
}

/// The entries that a listing of `dir` names, each with its full path.
pub open spec fn listed(dir: Seq<Seq<char>>, entries: Seq<Entry>) -> Seq<Visit> {
    Seq::new(entries.len(), |i: int| Visit { path: dir.push(entries[i].name@), kind: entries[i].kind })
}

/// No two entries of the listing have the same name.
pub open spec fn distinct_names(entries: Seq<Entry>) -> bool {
    forall|i: int, j: int|
        0 <= i < entries.len() && 0 <= j < entries.len() && i != j ==> (
        #[trigger] entries[i]).name@ != (#[trigger] entries[j]).name@
}

pub(crate) proof fn lemma_sound_resumed(p: Progress, keep: int)
    requires
        sound(p),
        0 <= keep <= p.pending.len(),
    ensures
        sound(resumed(p, keep)),
    decreases p.pending.len() - keep,
{
    if keep == p.pending.len() {
        assert(p.pending.take(keep) =~= p.pending);
        let q = resumed(p, keep);
        assert(q.pending == p.pending && q.claimed == p.claimed && q.reported == p.reported);
        assert(manifests_on_top(q.pending));
        assert(apart(q.pending));
        assert(untouched(q));
        assert(fresh_below(q));
        assert(fresh_above(q));
        assert(claims_match(q));
    } else {
        lemma_sound_resumed(p, keep + 1);
        lemma_sound_after_skip(resumed(p, keep + 1));
        assert(p.pending.take(keep + 1).drop_last() =~= p.pending.take(keep));
    }
}

pub(crate) proof fn lemma_listing_is_sound(p: Progress, entries: Seq<Entry>, kids: Seq<Visit>)
    requires
        sound(p),
        p.awaiting is Some,
        distinct_names(entries),
        in_visit_order(kids),
        kids.to_multiset() == listed(p.awaiting->0, entries).to_multiset(),
    ensures
        sound(progress_after_listing(p, kids)),
{
    broadcast use group_to_multiset_ensures;

    let dir = p.awaiting->0;
    let all = listed(dir, entries);
    assert forall|i: int| 0 <= i < kids.len() implies (#[trigger] kids[i]).path.len() > 0
        && kids[i].dir() == dir by {
        assert(kids.contains(kids[i]));
        to_multiset_contains(kids, kids[i]);
        to_multiset_contains(all, kids[i]);
        assert(all.contains(kids[i]));
        let a = choose|a: int| 0 <= a < all.len() && all[a] == kids[i];
        assert(dir.push(entries[a].name@).drop_last() =~= dir);
    }
    assert(all.no_duplicates()) by {
        assert forall|a: int, b: int| 0 <= a < all.len() && 0 <= b < all.len() && a != b implies all[a]
            != all[b] by {
            assert(all[a].path.last() == entries[a].name@);
            assert(all[b].path.last() == entries[b].name@);
        }
    }
    all.lemma_multiset_has_no_duplicates();
    kids.lemma_multiset_has_no_duplicates_conv();
    assert forall|i: int, j: int|
        0 <= i < kids.len() && 0 <= j < kids.len() && i != j implies (#[trigger] kids[i]).path != (
    #[trigger] kids[j]).path by {
        assert(kids.contains(kids[i]) && kids.contains(kids[j]));
        to_multiset_contains(kids, kids[i]);
        to_multiset_contains(all, kids[i]);
        to_multiset_contains(kids, kids[j]);
        to_multiset_contains(all, kids[j]);
        assert(all.contains(kids[i]) && all.contains(kids[j]));
        let a = choose|a: int| 0 <= a < all.len() && all[a] == kids[i];
        let b = choose|b: int| 0 <= b < all.len() && all[b] == kids[j];
        assert(all[a].path.last() == entries[a].name@);
        assert(all[b].path.last() == entries[b].name@);
    }
    lemma_sound_after_listing(p, kids);
}

} // verus!
