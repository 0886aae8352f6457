//! The scan for top-level manifests: a depth-first walk with an explicit
//! worklist, which visits the manifests of a directory before its
//! subdirectories and never descends beneath a directory that holds one.

use vstd::prelude::*;
use vstd::multiset::Multiset;
use vstd::seq_lib::*;

use crate::error::Error;
use crate::location::{parts_view, Location};
use crate::order::{lemma_lex_irreflexive, name_before};
use crate::progress::{
    accounted, distinct_names, in_visit_order, lemma_accounted_after_ask,
    lemma_accounted_after_listing, lemma_accounted_after_report, lemma_accounted_after_skip,
    lemma_accounted_at_start, lemma_accounted_resumed, lemma_listing_is_sound,
    lemma_sound_after_ask, lemma_sound_after_report, lemma_sound_after_skip, lemma_sound_at_start,
    lemma_sound_resumed, lemma_visit_before_transitive, listed, passed_over, progress_after_ask,
    progress_after_listing, progress_after_report, progress_after_skip, progress_at_start, resumed,
    sound, visit_before, Progress, Visit,
};
use crate::walk::{covers, is_manifest, manifest_parent, Entry, EntryKind, PrefixSet};

verus! {

/// An entry that the scan has still to visit.
#[derive(Debug)]
pub struct Pending {
    pub path: Location,
    pub kind: EntryKind,
}

impl View for Pending {
    type V = Visit;

    open spec fn view(&self) -> Visit {
        Visit { path: self.path@, kind: self.kind }
    }
}

/// The entries of a sequence, each as the contracts see it.
pub open spec fn visits(items: Seq<Pending>) -> Seq<Visit> {
    Seq::new(items.len(), |i: int| items[i]@)
}

/// Whether `a` is visited strictly before `b`.
pub fn comes_before(a: &Pending, b: &Pending) -> (res: bool)
    ensures
        res == visit_before(a@, b@),
{
    let a_manifest = is_manifest(a.kind, &a.path);
    let b_manifest = is_manifest(b.kind, &b.path);
    if a_manifest != b_manifest {
        a_manifest
    } else {
        name_before(a.path.tail(), b.path.tail())
    }
}

/// Puts the entries of one directory into the order in which they are visited.
pub fn sort_for_visit(items: Vec<Pending>) -> (res: Vec<Pending>)
    ensures
        in_visit_order(visits(res@)),
        visits(res@).to_multiset() == visits(items@).to_multiset(),
{
    let ghost all = visits(items@);
    let mut rest = items;
    let mut out: Vec<Pending> = Vec::new();
    assert(visits(out@) =~= Seq::<Visit>::empty());
    proof {
        broadcast use group_to_multiset_ensures;
        broadcast use vstd::multiset::group_multiset_axioms;

        assert(visits(out@).to_multiset().add(all.to_multiset()) =~= all.to_multiset());
    }
    while rest.len() > 0
        invariant
            in_visit_order(visits(out@)),
            visits(out@).to_multiset().add(visits(rest@).to_multiset()) == all.to_multiset(),
        decreases rest@.len(),
    {
        let ghost rest_before = visits(rest@);
        let ghost out_before = visits(out@);
        let item = rest.pop().unwrap();
        let mut at: usize = 0;
        while at < out.len() && !comes_before(&item, &out[at])
            invariant
                at <= out@.len(),
                forall|k: int| 0 <= k < at ==> !visit_before(item@, #[trigger] visits(out@)[k]),
            decreases out@.len() - at,
        {
            at += 1;
        }
        assert(forall|k: int| 0 <= k < at ==> !visit_before(item@, out_before[k]));
        assert(at < out_before.len() ==> visit_before(item@, out_before[at as int]));
        out.insert(at, item);
        proof {
            broadcast use vstd::multiset::group_multiset_axioms;

            let sorted = visits(out@);
            assert(sorted =~= out_before.insert(at as int, item@));
            assert(rest_before =~= visits(rest@).push(item@));
            to_multiset_insert(out_before, at as int, item@);
            to_multiset_build(visits(rest@), item@);
            assert(sorted.to_multiset().add(visits(rest@).to_multiset()) =~= out_before.to_multiset().add(
                rest_before.to_multiset(),
            ));
            assert forall|i: int, j: int| 0 <= i < j < sorted.len() implies !visit_before(
                sorted[j],
                sorted[i],
            ) by {
                if j == at {
                    assert(sorted[i] == out_before[i]);
                } else if i == at {
                    assert(sorted[j] == out_before[j - 1]);
                    if visit_before(sorted[j], item@) {
                        lemma_visit_before_transitive(sorted[j], item@, out_before[at as int]);
                        lemma_lex_irreflexive(sorted[j].name());
                    }
                } else {
                    let a = if i < at { i } else { i - 1 };
                    let b = if j < at { j } else { j - 1 };
                    assert(sorted[i] == out_before[a] && sorted[j] == out_before[b]);
                }
            }
        }
    }
    proof {
        broadcast use vstd::multiset::group_multiset_axioms;

        assert(visits(rest@) =~= Seq::<Visit>::empty());
        assert(visits(rest@).to_multiset() =~= Multiset::<Visit>::empty());
        assert(visits(out@).to_multiset().add(visits(rest@).to_multiset()) =~= visits(
            out@,
        ).to_multiset());
    }
    out
}

/// What the scan does next.
#[derive(Debug)]
pub enum Step {
    /// The directory at this location is to be listed, and the listing handed
    /// to `supply`.
    List(Location),
    /// The file at this location is a top-level manifest.
    Manifest(Location),
    /// An entry could not be listed: `WalkDir`, with what `supply` was told.
    Failed(Error),
    /// Nothing is left to visit.
    Done,
}

/// A scan for top-level manifests, in its current state.
///
/// The scan keeps a worklist of entries still to visit. Its caller runs the
/// loop: `next` says what to do, and after a `Step::List` the caller lists that
/// directory and hands the entries to `supply`.
pub struct Scanner {
    stack: Vec<Pending>,
    claimed: PrefixSet,
    awaiting: Option<Location>,
    reported: Ghost<Seq<Seq<Seq<char>>>>,
    listed: Ghost<Seq<Seq<Seq<char>>>>,
    seen: Ghost<Set<Visit>>,
    failures: Vec<String>,
}

impl Scanner {
    /// What the scan has done and has yet to do.
    pub closed spec fn progress(&self) -> Progress {
        Progress {
            pending: visits(self.stack@),
            claimed: self.claimed@,
            awaiting: match self.awaiting {
                Some(dir) => Some(dir@),
                None => None,
            },
            reported: self.reported@,
            listed: self.listed@,
            seen: self.seen@,
        }
    }

    /// Why entries could not be listed, as far as the scan has still to say
    /// so; the first is said next.
    pub closed spec fn failures(&self) -> Seq<Seq<char>> {
        parts_view(self.failures@)
    }

    /// A scan that starts at `root`, an entry of kind `kind`.
    pub fn new(root: Location, kind: EntryKind) -> (res: Scanner)
        ensures
            res.progress() == progress_at_start(Visit { path: root@, kind }),
            res.failures().len() == 0,
            sound(res.progress()),
            accounted(res.progress()),
    {
        let ghost start = progress_at_start(Visit { path: root@, kind });
        let mut stack: Vec<Pending> = Vec::new();
        stack.push(Pending { path: root, kind });
        let res = Scanner {
            stack,
            claimed: PrefixSet::new(),
            awaiting: None,
            reported: Ghost(Seq::empty()),
            listed: Ghost(Seq::empty()),
            seen: Ghost(start.seen),
            failures: Vec::new(),
        };
        proof {
            assert(res.progress().pending =~= start.pending);
            lemma_sound_at_start(Visit { path: root@, kind });
            lemma_accounted_at_start(Visit { path: root@, kind });
        }
        res
    }

    /// Visits pending entries until one calls for work, and says which.
    ///
    /// Failures of listing that are still to be said come first, one at a
    /// time. Then entries are taken from the end of the worklist. A manifest is reported
    /// and its directory claimed. A directory that is neither claimed nor
    /// beneath a claimed one is handed out to be listed. Everything else is
    /// passed over. A listing that was asked for and not supplied is taken as
    /// empty.
    pub fn next(&mut self) -> (step: Step)
        ensures
            final(self).progress().pending.len() <= old(self).progress().pending.len(),
            forall|i: int|
                final(self).progress().pending.len() < i < old(self).progress().pending.len()
                    ==> passed_over(
                    #[trigger] old(self).progress().pending[i],
                    old(self).progress().claimed,
                ),
            match step {
                Step::Failed(failure) => {
                    &&& old(self).failures().len() > 0
                    &&& failure matches Error::WalkDir(why)
                    &&& why@ == old(self).failures()[0]
                    &&& final(self).failures() == old(self).failures().drop_first()
                    &&& final(self).progress() == old(self).progress()
                },
                _ => old(self).failures().len() == 0 && final(self).failures().len() == 0,
            },
            match step {
                Step::Failed(_) => true,
                Step::Done => {
                    &&& final(self).progress() == resumed(old(self).progress(), 0)
                    &&& forall|i: int|
                        0 <= i < old(self).progress().pending.len() ==> passed_over(
                            #[trigger] old(self).progress().pending[i],
                            old(self).progress().claimed,
                        )
                },
                Step::Manifest(path) => {
                    let keep = final(self).progress().pending.len() as int;
                    &&& keep < old(self).progress().pending.len()
                    &&& old(self).progress().pending[keep].is_manifest()
                    &&& path@ == old(self).progress().pending[keep].path
                    &&& final(self).progress() == progress_after_report(
                        resumed(old(self).progress(), keep + 1),
                    )
                },
                Step::List(dir) => {
                    let keep = final(self).progress().pending.len() as int;
                    &&& keep < old(self).progress().pending.len()
                    &&& !old(self).progress().pending[keep].is_manifest()
                    &&& old(self).progress().pending[keep].kind == EntryKind::Dir
                    &&& !covers(old(self).progress().claimed, dir@)
                    &&& dir@ == old(self).progress().pending[keep].path
                    &&& final(self).progress() == progress_after_ask(
                        resumed(old(self).progress(), keep + 1),
                    )
                },
            },
            sound(old(self).progress()) ==> sound(final(self).progress()),
            accounted(old(self).progress()) ==> accounted(final(self).progress()),
    {
        let ghost before = self.progress();
        if self.failures.len() > 0 {
            let why = self.failures.remove(0);
            assert(self.failures() =~= old(self).failures().drop_first());
            return Step::Failed(Error::WalkDir(why));
        }
        self.awaiting = None;
        proof {
            assert(self.progress().pending =~= before.pending.take(before.pending.len() as int));
            if sound(before) {
                lemma_sound_resumed(before, before.pending.len() as int);
            }
            if accounted(before) {
                lemma_accounted_resumed(before);
            }
        }
        loop
            invariant
                before == old(self).progress(),
                old(self).failures().len() == 0,
                self.failures().len() == 0,
                self.progress() == resumed(before, self.stack@.len() as int),
                self.stack@.len() <= before.pending.len(),
                forall|i: int|
                    self.stack@.len() <= i < before.pending.len() ==> passed_over(
                        #[trigger] before.pending[i],
                        before.claimed,
                    ),
                sound(before) ==> sound(self.progress()),
                accounted(before) ==> accounted(self.progress()),
            decreases self.stack@.len(),
        {
            let ghost current = self.progress();
            match self.stack.pop() {
                None => {
                    assert(self.progress().pending =~= before.pending.take(0));
                    return Step::Done;
                },
                Some(entry) => {
                    let ghost keep = self.stack@.len() as int;
                    assert(entry@ == before.pending[keep]);
                    assert(visits(self.stack@) =~= before.pending.take(keep));
                    assert(current.pending.drop_last() =~= before.pending.take(keep));
                    assert(current.pending.last() == entry@);
                    if is_manifest(entry.kind, &entry.path) {
                        match manifest_parent(&entry.path) {
                            Ok(dir) => {
                                self.claimed.insert(&dir);
                            },
                            Err(_) => {},
                        }
                        self.reported = Ghost(self.reported@.push(entry.path@));
                        proof {
                            assert(self.progress() == progress_after_report(current));
                            if sound(before) {
                                lemma_sound_after_report(current);
                            }
                            if accounted(before) {
                                lemma_accounted_after_report(current);
                            }
                        }
                        return Step::Manifest(entry.path);
                    } else if entry.kind == EntryKind::Dir && !self.claimed.contains(&entry.path) {
                        self.awaiting = Some(entry.path.duplicate());
                        self.listed = Ghost(self.listed@.push(entry.path@));
                        proof {
                            assert(self.progress() == progress_after_ask(current));
                            if sound(before) {
                                lemma_sound_after_ask(current);
                            }
                            if accounted(before) {
                                lemma_accounted_after_ask(current);
                            }
                        }
                        return Step::List(entry.path);
                    } else {
                        proof {
                            assert(self.progress() == progress_after_skip(current));
                            if sound(before) {
                                lemma_sound_after_skip(current);
                            }
                            if accounted(before) {
                                lemma_accounted_after_skip(current);
                            }
                        }
                    }
                },
            }
        }
    }

    /// Hands the scan the listing of the directory it asked for: the entries
    /// that could be listed, and for those that could not, why.
    ///
    /// The entries are put into visiting order and go onto the worklist, the
    /// first to visit last. The failures are kept, to be said by `next` in
    /// their order before anything else. Without a listing asked for, nothing
    /// changes.
    pub fn supply(&mut self, entries: Vec<Entry>, failures: Vec<String>)
        ensures
            match old(self).progress().awaiting {
                None => final(self).progress() == old(self).progress() && final(self).failures()
                    == old(self).failures(),
                Some(dir) => {
                    let from = old(self).progress().pending.len() as int;
                    let to = final(self).progress().pending.len() as int;
                    let kids = final(self).progress().pending.subrange(from, to).reverse();
                    &&& from <= to
                    &&& final(self).progress() == progress_after_listing(old(self).progress(), kids)
                    &&& final(self).failures() == old(self).failures() + parts_view(failures@)
                    &&& in_visit_order(kids)
                    &&& kids.to_multiset() == listed(dir, entries@).to_multiset()
                },
            },
            sound(old(self).progress()) && distinct_names(entries@) ==> sound(
                final(self).progress(),
            ),
            accounted(old(self).progress()) ==> accounted(final(self).progress()),
    {
        let ghost before = self.progress();
        let dir = match self.awaiting.take() {
            None => {
                return ;
            },
            Some(dir) => dir,
        };
        let mut kids: Vec<Pending> = Vec::new();
        let mut i: usize = 0;
        while i < entries.len()
            invariant
                i <= entries@.len(),
                visits(kids@) =~= listed(dir@, entries@).take(i as int),
            decreases entries@.len() - i,
        {
            let ghost done = visits(kids@);
            kids.push(Pending { path: dir.join(entries[i].name.as_str()), kind: entries[i].kind });
            assert(visits(kids@) =~= done.push(listed(dir@, entries@)[i as int]));
            i += 1;
        }
        assert(visits(kids@) =~= listed(dir@, entries@));
        let mut sorted = sort_for_visit(kids);
        let ghost order = visits(sorted@);
        let ghost count = order.len() as int;
        let ghost from = before.pending.len() as int;
        while sorted.len() > 0
            invariant
                sorted@.len() <= count,
                visits(sorted@) =~= order.take(sorted@.len() as int),
                visits(self.stack@) =~= before.pending + order.subrange(
                    sorted@.len() as int,
                    count,
                ).reverse(),
                self.claimed@ == before.claimed,
                self.reported@ == before.reported,
                self.listed@ == before.listed,
                self.seen@ == before.seen,
                self.failures == old(self).failures,
                self.awaiting is None,
                count == order.len(),
            decreases sorted@.len(),
        {
            let ghost left = sorted@.len() as int;
            let ghost stacked = visits(self.stack@);
            assert(visits(sorted@)[left - 1] == order[left - 1]);
            let kid = sorted.pop().unwrap();
            assert(kid@ == order[left - 1]);
            self.stack.push(kid);
            assert(visits(self.stack@) =~= stacked.push(order[left - 1]));
            assert(order.subrange(left - 1, count).reverse() =~= order.subrange(left, count).reverse().push(
                order[left - 1],
            ));
        }
        self.seen = Ghost(self.seen@.union(order.to_set()));
        let ghost told = parts_view(failures@);
        let mut failures = failures;
        self.failures.append(&mut failures);
        proof {
            assert(order.subrange(0, count) =~= order);
            let after = self.progress();
            let added = after.pending.subrange(from, after.pending.len() as int);
            assert(added =~= order.reverse());
            assert(added.reverse() =~= order);
            assert(self.failures() =~= old(self).failures() + told);
            assert(after == progress_after_listing(before, order));
            if sound(before) && distinct_names(entries@) {
                lemma_listing_is_sound(before, entries@, order);
            }
            if accounted(before) {
                lemma_accounted_after_listing(before, order);
            }
        }
    }
}

} // verus!
