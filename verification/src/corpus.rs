//! Populating the store: what has to be done, step by step, to have a release
//! at its place, and what each outcome of a step leads to.
//!
//! The target directory comes into being by one rename, the last step. Until
//! then nothing is created at the target, so a directory found there is always
//! complete.

use vstd::prelude::*;

use crate::address::spec_target;
use crate::location::Location;
use crate::vault::Vault;

verus! {

/// The failures of populating.
#[derive(Debug)]
pub enum Error {
    /// Reading or writing the store failed, and why.
    Io(String),
    /// Something is at the release's place, and it is no directory.
    NotADirectory(Location),
    /// Fetching the release failed, and why.
    Reqwest(String),
    /// The store refused the name or the version.
    Vault(crate::error::Error),
}

/// Where a population stands: the step that is to be taken next, or how it
/// ended.
#[derive(Debug, Clone, Copy, PartialEq, Eq, Structural)]
pub enum Stage {
    /// Look at the target: is anything there, and is it a directory?
    Inspect,
    /// Create the directories above the target and resolve them to an
    /// absolute location.
    Prepare,
    /// Fetch the release's archive.
    Fetch,
    /// Unpack the archive into a fresh temporary directory under the store's
    /// root.
    Extract,
    /// Rename the unpacked tree to the target.
    Rename,
    /// The release is at its place.
    Present,
    /// The population failed; the target was not created.
    Failed,
}

/// What came of a step.
#[derive(Debug)]
pub enum Outcome {
    /// Inspected: a directory is at the target.
    IsDirectory,
    /// Inspected: something other than a directory is at the target.
    IsNotDirectory,
    /// Inspected: nothing is at the target.
    IsMissing,
    /// Prepared: the directories above the target exist, at this absolute
    /// location.
    Resolved(Location),
    /// Fetched, unpacked or renamed.
    Done,
    /// The step failed, and why.
    Failed(String),
}

impl Outcome {
    /// Whether the outcome is one that a step at `stage` can have.
    pub open spec fn answers(self, stage: Stage) -> bool {
        match stage {
            Stage::Inspect => self is IsDirectory || self is IsNotDirectory || self is IsMissing
                || self is Failed,
            Stage::Prepare => self is Resolved || self is Failed,
            Stage::Fetch | Stage::Extract | Stage::Rename => self is Done || self is Failed,
            Stage::Present | Stage::Failed => false,
        }
    }
}

/// The stage that follows `stage` on `outcome`.
///
/// A failure ends the population. Of the other outcomes, a directory found at
/// the start ends it well, and each step done leads to the next, the rename to
/// the end. An outcome that does not answer the stage changes nothing.
pub open spec fn next_stage(stage: Stage, outcome: Outcome) -> Stage {
    if !outcome.answers(stage) {
        stage
    } else if outcome is Failed || outcome is IsNotDirectory {
        Stage::Failed
    } else {
        match stage {
            Stage::Inspect => if outcome is IsDirectory {
                Stage::Present
            } else {
                Stage::Prepare
            },
            Stage::Prepare => Stage::Fetch,
            Stage::Fetch => Stage::Extract,
            Stage::Extract => Stage::Rename,
            Stage::Rename => Stage::Present,
            Stage::Present | Stage::Failed => stage,
        }
    }
}

/// The stages that a population passes through from `stage` on, one for each
/// of the outcomes.
pub open spec fn stages(stage: Stage, outcomes: Seq<Outcome>) -> Seq<Stage>
    decreases outcomes.len(),
{
    if outcomes.len() == 0 {
        Seq::empty()
    } else {
        let next = next_stage(stage, outcomes[0]);
        seq![next] + stages(next, outcomes.drop_first())
    }
}

/// How far a stage is along the way: the steps in their order, then the two
/// ends.
pub open spec fn rank(stage: Stage) -> int {
    match stage {
        Stage::Inspect => 0,
        Stage::Prepare => 1,
        Stage::Fetch => 2,
        Stage::Extract => 3,
        Stage::Rename => 4,
        Stage::Present | Stage::Failed => 5,
    }
}

/// A run has one stage for each outcome, the first of them the stage that
/// follows the start, and the rest the run from there.
pub proof fn lemma_stages_unfold(stage: Stage, outcomes: Seq<Outcome>)
    ensures
        stages(stage, outcomes).len() == outcomes.len(),
        outcomes.len() > 0 ==> stages(stage, outcomes)[0] == next_stage(stage, outcomes[0]),
        forall|i: int|
            1 <= i < outcomes.len() ==> #[trigger] stages(stage, outcomes)[i] == stages(
                next_stage(stage, outcomes[0]),
                outcomes.drop_first(),
            )[i - 1],
    decreases outcomes.len(),
{
    if outcomes.len() > 0 {
        lemma_stages_unfold(next_stage(stage, outcomes[0]), outcomes.drop_first());
    }
}

/// A population that has ended stays as it ended: once the release is present
/// or the population has failed, no outcome leads to another step.
pub proof fn lemma_settled_stays(stage: Stage, outcomes: Seq<Outcome>)
    requires
        stage == Stage::Present || stage == Stage::Failed,
    ensures
        forall|i: int| 0 <= i < outcomes.len() ==> #[trigger] stages(stage, outcomes)[i] == stage,
    decreases outcomes.len(),
{
    lemma_stages_unfold(stage, outcomes);
    if outcomes.len() > 0 {
        lemma_settled_stays(stage, outcomes.drop_first());
    }
}

/// Where something is at the target already, nothing is fetched, unpacked or
/// renamed: a directory there ends the population well at once, anything else
/// there fails it at once, and so it stays.
pub proof fn lemma_existing_target_is_left_alone(outcomes: Seq<Outcome>)
    requires
        outcomes.len() > 0,
        outcomes[0] is IsDirectory || outcomes[0] is IsNotDirectory,
    ensures
        forall|i: int|
            0 <= i < outcomes.len() ==> #[trigger] stages(Stage::Inspect, outcomes)[i] == (
            if outcomes[0] is IsDirectory {
                Stage::Present
            } else {
                Stage::Failed
            }),
{
    let first = next_stage(Stage::Inspect, outcomes[0]);
    lemma_stages_unfold(Stage::Inspect, outcomes);
    lemma_settled_stays(first, outcomes.drop_first());
}

/// The steps are taken in their order and none is gone back to: along a run
/// the rank of the stage never falls. So the archive is fetched, unpacked and
/// renamed at most once each.
pub proof fn lemma_steps_in_order(stage: Stage, outcomes: Seq<Outcome>)
    ensures
        forall|i: int|
            0 <= i < outcomes.len() ==> rank(stage) <= rank(#[trigger] stages(stage, outcomes)[i]),
        forall|i: int, j: int|
            0 <= i <= j < outcomes.len() ==> rank(#[trigger] stages(stage, outcomes)[i]) <= rank(
                #[trigger] stages(stage, outcomes)[j],
            ),
    decreases outcomes.len(),
{
    lemma_stages_unfold(stage, outcomes);
    if outcomes.len() > 0 {
        let next = next_stage(stage, outcomes[0]);
        let rest = outcomes.drop_first();
        lemma_steps_in_order(next, rest);
        lemma_stages_unfold(next, rest);
        assert forall|i: int, j: int| 0 <= i <= j < outcomes.len() implies rank(
            #[trigger] stages(stage, outcomes)[i],
        ) <= rank(#[trigger] stages(stage, outcomes)[j]) by {
            if i > 0 {
                assert(stages(stage, outcomes)[i] == stages(next, rest)[i - 1]);
                assert(stages(stage, outcomes)[j] == stages(next, rest)[j - 1]);
            } else if j > 0 {
                assert(stages(stage, outcomes)[j] == stages(next, rest)[j - 1]);
            }
        }
    }
}

/// The target comes into being by the rename alone, and the rename follows a
/// fetch and an unpacking that were done. Of a run in which no inspection
/// found a directory at the target: where it reaches a step, it has passed
/// through every step before that one, and where it has the release present,
/// it has passed through the rename.
pub proof fn lemma_present_by_rename(stage: Stage, outcomes: Seq<Outcome>, at: int)
    requires
        0 <= at < stages(stage, outcomes).len(),
        rank(stage) <= 4,
        stages(stage, outcomes)[at] != Stage::Failed,
        forall|i: int| 0 <= i < outcomes.len() ==> !(#[trigger] outcomes[i] is IsDirectory),
    ensures
        forall|step: Stage|
            rank(stage) < rank(step) <= rank(stages(stage, outcomes)[at]) && rank(step) <= 4
                ==> exists|i: int| 0 <= i <= at && #[trigger] stages(stage, outcomes)[i] == step,
        stages(stage, outcomes)[at] == Stage::Present ==> rank(stage) == 4 || exists|i: int|
            0 <= i < at && #[trigger] stages(stage, outcomes)[i] == Stage::Rename,
    decreases outcomes.len(),
{
    lemma_stages_unfold(stage, outcomes);
    let run = stages(stage, outcomes);
    let next = next_stage(stage, outcomes[0]);
    let rest = outcomes.drop_first();
    lemma_stages_unfold(next, rest);
    assert forall|i: int| 0 <= i < rest.len() implies !(#[trigger] rest[i] is IsDirectory) by {
        assert(rest[i] == outcomes[i + 1]);
    }
    if at > 0 {
        assert(run[at] == stages(next, rest)[at - 1]);
        if rank(next) <= 4 {
            lemma_present_by_rename(next, rest, at - 1);
            assert forall|step: Stage|
                rank(stage) < rank(step) <= rank(run[at]) && rank(step) <= 4 implies exists|i: int|
                0 <= i <= at && #[trigger] stages(stage, outcomes)[i] == step by {
                if rank(step) <= rank(next) {
                    assert(rank(step) == rank(next));
                    assert(run[0] == step);
                } else {
                    let i = choose|i: int| 0 <= i <= at - 1 && #[trigger] stages(next, rest)[i] == step;
                    assert(run[i + 1] == stages(next, rest)[i]);
                }
            }
            if run[at] == Stage::Present && rank(stage) != 4 {
                if rank(next) == 4 {
                    assert(run[0] == Stage::Rename);
                } else {
                    let i = choose|i: int|
                        0 <= i < at - 1 && #[trigger] stages(next, rest)[i] == Stage::Rename;
                    assert(run[i + 1] == stages(next, rest)[i]);
                }
            }
        } else {
            lemma_settled_stays(next, rest);
        }
    } else {
        assert forall|step: Stage|
            rank(stage) < rank(step) <= rank(run[at]) && rank(step) <= 4 implies exists|i: int|
            0 <= i <= at && #[trigger] stages(stage, outcomes)[i] == step by {
            assert(rank(step) == rank(next));
            assert(run[0] == step);
        }
    }
}

/// The name of the tree that a release's archive unpacks to: the name, a
/// hyphen, the version.
pub open spec fn spec_unpacked_name(name: Seq<char>, version: Seq<char>) -> Seq<char> {
    name + seq!['-'] + version
}

/// The name of the tree that the archive of the release `version` of `name`
/// unpacks to.
pub fn unpacked_name(name: &str, version: &str) -> (res: String)
    ensures
        res@ == spec_unpacked_name(name@, version@),
{
    proof {
        reveal_strlit("-");
    }
    let mut res = name.to_owned();
    res.append("-");
    assert("-"@ =~= seq!['-']);
    res.append(version);
    res
}

/// One release on its way into the store.
#[derive(Debug)]
pub struct Population {
    name: String,
    version: String,
    target: Location,
    stage: Stage,
    failure: Option<Error>,
}

impl Population {
    /// The package's name.
    pub closed spec fn spec_name(&self) -> Seq<char> {
        self.name@
    }

    /// The release's version.
    pub closed spec fn spec_version(&self) -> Seq<char> {
        self.version@
    }

    /// Where the release is to lie.
    pub closed spec fn spec_target(&self) -> Seq<Seq<char>> {
        self.target@
    }

    /// Where the population stands.
    pub closed spec fn spec_stage(&self) -> Stage {
        self.stage
    }

    /// Why the population failed, if it did.
    pub closed spec fn spec_failure(&self) -> Option<Error> {
        self.failure
    }

    /// A failed population has its failure, and no other has one.
    pub closed spec fn wf(&self) -> bool {
        (self.stage == Stage::Failed) == (self.failure is Some)
    }

    /// The package's name.
    pub fn name(&self) -> (res: &str)
        ensures
            res@ == self.spec_name(),
    {
        self.name.as_str()
    }

    /// The release's version.
    pub fn version(&self) -> (res: &str)
        ensures
            res@ == self.spec_version(),
    {
        self.version.as_str()
    }

    /// Where the release is to lie. Once the directories above it are
    /// resolved, this is an absolute location.
    pub fn target(&self) -> (res: &Location)
        ensures
            res@ == self.spec_target(),
    {
        &self.target
    }

    /// The step to take next, or how the population ended.
    pub fn stage(&self) -> (res: Stage)
        ensures
            res == self.spec_stage(),
    {
        self.stage
    }

    /// The name of the tree that the archive unpacks to inside the temporary
    /// directory, which the rename moves to the target.
    pub fn unpacked_name(&self) -> (res: String)
        ensures
            res@ == spec_unpacked_name(self.spec_name(), self.spec_version()),
    {
        unpacked_name(self.name.as_str(), self.version.as_str())
    }

    /// Takes the outcome of the step that was asked for, and says what follows.
    ///
    /// The stage moves on as `next_stage` says. A population that resolved the
    /// directories above its target has its target beneath them from then on.
    /// A failure is kept: `NotADirectory` with the target where something else
    /// is at the target, `Reqwest` where the fetch failed, `Io` otherwise.
    pub fn resume(&mut self, outcome: Outcome) -> (res: Stage)
        requires
            old(self).wf(),
        ensures
            final(self).wf(),
            res == final(self).spec_stage(),
            res == next_stage(old(self).spec_stage(), outcome),
            final(self).spec_name() == old(self).spec_name(),
            final(self).spec_version() == old(self).spec_version(),
            final(self).spec_target() == (if old(self).spec_stage() == Stage::Prepare
                && old(self).spec_target().len() > 1 {
                match outcome {
                    Outcome::Resolved(above) => above@.push(old(self).spec_target().last()),
                    _ => old(self).spec_target(),
                }
            } else {
                old(self).spec_target()
            }),
            old(self).spec_stage() == Stage::Failed ==> final(self).spec_failure() == old(
                self,
            ).spec_failure(),
            old(self).spec_stage() != Stage::Failed && res == Stage::Failed ==> match outcome {
                Outcome::IsNotDirectory => final(self).spec_failure() matches Some(
                    Error::NotADirectory(at),
                ) && at@ == old(self).spec_target(),
                Outcome::Failed(why) => if old(self).spec_stage() == Stage::Fetch {
                    final(self).spec_failure() == Some(Error::Reqwest(why))
                } else {
                    final(self).spec_failure() == Some(Error::Io(why))
                },
                _ => false,
            },
    {
        match self.stage {
            Stage::Inspect => match outcome {
                Outcome::IsDirectory => {
                    self.stage = Stage::Present;
                },
                Outcome::IsNotDirectory => {
                    self.failure = Some(Error::NotADirectory(self.target.duplicate()));
                    self.stage = Stage::Failed;
                },
                Outcome::IsMissing => {
                    self.stage = Stage::Prepare;
                },
                Outcome::Failed(why) => {
                    self.failure = Some(Error::Io(why));
                    self.stage = Stage::Failed;
                },
                _ => {},
            },
            Stage::Prepare => match outcome {
                Outcome::Resolved(above) => {
                    let mut target = above;
                    match self.target.file_name() {
                        Some(last) => {
                            target.push(last);
                            self.target = target;
                        },
                        None => {},
                    }
                    self.stage = Stage::Fetch;
                },
                Outcome::Failed(why) => {
                    self.failure = Some(Error::Io(why));
                    self.stage = Stage::Failed;
                },
                _ => {},
            },
            Stage::Fetch => match outcome {
                Outcome::Done => {
                    self.stage = Stage::Extract;
                },
                Outcome::Failed(why) => {
                    self.failure = Some(Error::Reqwest(why));
                    self.stage = Stage::Failed;
                },
                _ => {},
            },
            Stage::Extract => match outcome {
                Outcome::Done => {
                    self.stage = Stage::Rename;
                },
                Outcome::Failed(why) => {
                    self.failure = Some(Error::Io(why));
                    self.stage = Stage::Failed;
                },
                _ => {},
            },
            Stage::Rename => match outcome {
                Outcome::Done => {
                    self.stage = Stage::Present;
                },
                Outcome::Failed(why) => {
                    self.failure = Some(Error::Io(why));
                    self.stage = Stage::Failed;
                },
                _ => {},
            },
            Stage::Present | Stage::Failed => {},
        }
        self.stage
    }

    /// How the population ended: the release's place, or the failure. `None`
    /// while steps are still to be taken.
    pub fn finish(self) -> (res: Option<Result<Location, Error>>)
        requires
            self.wf(),
        ensures
            match res {
                Some(Ok(place)) => self.spec_stage() == Stage::Present && place@
                    == self.spec_target(),
                Some(Err(failure)) => self.spec_stage() == Stage::Failed && self.spec_failure()
                    == Some(failure),
                None => self.spec_stage() != Stage::Present && self.spec_stage() != Stage::Failed,
            },
    {
        match self.stage {
            Stage::Present => Some(Ok(self.target)),
            Stage::Failed => match self.failure {
                Some(failure) => Some(Err(failure)),
                None => None,
            },
            _ => None,
        }
    }
}

/// The releases of a store, to be populated.
#[derive(Debug)]
pub struct Corpus {
    vault: Vault,
}

impl Corpus {
    /// The corpus in the store rooted at `path`.
    pub fn new(path: Location) -> (res: Corpus)
        ensures
            res.spec_root() == path@,
    {
        Corpus { vault: Vault::new(path) }
    }

    /// The store's root directory.
    pub closed spec fn spec_root(&self) -> Seq<Seq<char>> {
        self.vault.0@
    }

    /// The store's root directory, under which the temporary directories are
    /// made.
    pub fn root(&self) -> (res: &Location)
        ensures
            res@ == self.spec_root(),
    {
        self.vault.root()
    }

    /// Where the release `num` of the package `krate` lies.
    ///
    /// An empty name or version is refused with what the store says of it.
    pub fn path(&self, krate: &str, num: &str) -> (res: Result<Location, Error>)
        ensures
            match res {
                Ok(path) => krate@.len() > 0 && num@.len() > 0 && path@ == self.spec_root()
                    + spec_target(krate@, num@),
                Err(Error::Vault(crate::error::Error::InvalidCrateName(name))) => krate@.len() == 0
                    && name@ == krate@,
                Err(Error::Vault(crate::error::Error::InvalidCrateVersion(version))) => krate@.len()
                    > 0 && num@.len() == 0 && version@ == num@,
                Err(_) => false,
            },
    {
        match self.vault.crate_version_path(krate, num) {
            Ok(path) => Ok(path),
            Err(e) => Err(Error::Vault(e)),
        }
    }

    /// Starts to populate the release `num` of the package `name`: the
    /// population, about to inspect the release's place.
    ///
    /// An empty name or version is refused as in `path`.
    pub fn populate(&self, name: &str, num: &str) -> (res: Result<Population, Error>)
        ensures
            match res {
                Ok(population) => {
                    &&& name@.len() > 0 && num@.len() > 0
                    &&& population.wf()
                    &&& population.spec_stage() == Stage::Inspect
                    &&& population.spec_name() == name@
                    &&& population.spec_version() == num@
                    &&& population.spec_target() == self.spec_root() + spec_target(name@, num@)
                },
                Err(Error::Vault(crate::error::Error::InvalidCrateName(n))) => name@.len() == 0
                    && n@ == name@,
                Err(Error::Vault(crate::error::Error::InvalidCrateVersion(v))) => name@.len() > 0
                    && num@.len() == 0 && v@ == num@,
                Err(_) => false,
            },
    {
        match self.path(name, num) {
            Err(e) => Err(e),
            Ok(target) => Ok(
                Population {
                    name: name.to_owned(),
                    version: num.to_owned(),
                    target,
                    stage: Stage::Inspect,
                    failure: None,
                },
            ),
        }
    }
}

} // verus!
