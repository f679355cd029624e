//! Populating the thumbnail cache. A cached file is looked up by its key; on
//! a miss the thumbnail is made, written under a temporary name and moved
//! into place, so that a reader sees the file either absent or complete. The
//! store decides the steps; whoever drives it does the work on disk.

use crate::cache::{
    artifact_name, artifact_name_of, cache_key, length_of, mtime_of, temp_name, temp_name_of,
    SourceMeta,
};
use crate::config::{join_path, joined};
use crate::digest::Digest;
use vstd::prelude::*;

verus! {

/// Why a thumbnail could not be cached.
#[derive(Clone, Copy, Debug, PartialEq, Eq, Structural)]
pub enum Failure {
    /// The source image could not be decoded.
    Decode,
    /// The cache directory could not be made.
    MakeDir,
    /// The thumbnail could not be encoded or written.
    Write,
    /// The written file could not be moved into place.
    Rename,
}

/// How a population ended.
#[derive(Clone, Copy, Debug, PartialEq, Eq, Structural)]
pub enum Outcome {
    /// The thumbnail was cached already; nothing was written.
    Hit,
    /// The thumbnail was made and is in place.
    Created,
    Failed(Failure),
}

/// Where a population stands, which is also what it waits for.
#[derive(Clone, Copy, Debug, PartialEq, Eq, Structural)]
pub enum Stage {
    Probing,
    Decoding,
    MakingDir,
    ReadingClock,
    Writing,
    Renaming,
    Done(Outcome),
}

/// What comes back from the disk, the codec and the clock.
#[derive(Clone, Copy, Debug, PartialEq, Eq, Structural)]
pub enum StoreEvent {
    /// Whether the cached file exists.
    Present(bool),
    /// Whether the source was decoded and scaled down.
    Decoded(bool),
    /// Whether the cache directory is there.
    DirMade(bool),
    /// The clock in nanoseconds since the epoch, if it could be read.
    Clock(Option<u128>),
    /// Whether the thumbnail was written under its temporary name.
    Written(bool),
    /// Whether the temporary file was moved into place.
    Renamed(bool),
}

/// What the store asks for.
pub enum StoreActionView {
    Probe(Seq<char>),
    Decode(Seq<char>),
    MakeDir(Seq<char>),
    ReadClock,
    WriteTemp(Seq<char>),
    Rename { from: Seq<char>, to: Seq<char> },
    Finish(Outcome),
}

/// The state of a population.
pub struct PopulationView {
    pub root: Seq<char>,
    pub source: Seq<char>,
    pub key: Seq<u8>,
    pub nanos: nat,
    pub stage: Stage,
}

impl PopulationView {
    /// Where the cached file belongs.
    pub open spec fn candidate(self) -> Seq<char> {
        joined(self.root, artifact_name_of(self.key))
    }

    /// Where the thumbnail is written first.
    pub open spec fn temporary(self) -> Seq<char> {
        joined(self.root, temp_name_of(self.key, self.nanos))
    }

    /// What the store waits for.
    pub open spec fn pending(self) -> StoreActionView {
        match self.stage {
            Stage::Probing => StoreActionView::Probe(self.candidate()),
            Stage::Decoding => StoreActionView::Decode(self.source),
            Stage::MakingDir => StoreActionView::MakeDir(self.root),
            Stage::ReadingClock => StoreActionView::ReadClock,
            Stage::Writing => StoreActionView::WriteTemp(self.temporary()),
            Stage::Renaming => StoreActionView::Rename {
                from: self.temporary(),
                to: self.candidate(),
            },
            Stage::Done(outcome) => StoreActionView::Finish(outcome),
        }
    }

    /// The state after an event. One that does not answer what the store
    /// waits for changes nothing.
    pub open spec fn next(self, event: StoreEvent) -> PopulationView {
        match (self.stage, event) {
            (Stage::Probing, StoreEvent::Present(found)) => PopulationView {
                stage: if found {
                    Stage::Done(Outcome::Hit)
                } else {
                    Stage::Decoding
                },
                ..self
            },
            (Stage::Decoding, StoreEvent::Decoded(ok)) => PopulationView {
                stage: if ok {
                    Stage::MakingDir
                } else {
                    Stage::Done(Outcome::Failed(Failure::Decode))
                },
                ..self
            },
            (Stage::MakingDir, StoreEvent::DirMade(ok)) => PopulationView {
                stage: if ok {
                    Stage::ReadingClock
                } else {
                    Stage::Done(Outcome::Failed(Failure::MakeDir))
                },
                ..self
            },
            (Stage::ReadingClock, StoreEvent::Clock(reading)) => PopulationView {
                stage: Stage::Writing,
                nanos: match reading {
                    Some(n) => n as nat,
                    None => 0,
                },
                ..self
            },
            (Stage::Writing, StoreEvent::Written(ok)) => PopulationView {
                stage: if ok {
                    Stage::Renaming
                } else {
                    Stage::Done(Outcome::Failed(Failure::Write))
                },
                ..self
            },
            (Stage::Renaming, StoreEvent::Renamed(ok)) => PopulationView {
                stage: if ok {
                    Stage::Done(Outcome::Created)
                } else {
                    Stage::Done(Outcome::Failed(Failure::Rename))
                },
                ..self
            },
            _ => self,
        }
    }

    /// The state after a run of events.
    pub open spec fn run(self, events: Seq<StoreEvent>) -> PopulationView
        decreases events.len(),
    {
        if events.len() == 0 {
            self
        } else {
            self.run(events.drop_last()).next(events.last())
        }
    }

    /// How often a run asks for the thumbnail to be encoded and written: once
    /// for each time it comes to wait for the write.
    pub open spec fn writes(self, events: Seq<StoreEvent>) -> nat
        decreases events.len(),
    {
        if events.len() == 0 {
            0
        } else {
            let before = self.run(events.drop_last());
            let after = before.next(events.last());
            self.writes(events.drop_last()) + if after.stage is Writing && !(before.stage
                is Writing) {
                1nat
            } else {
                0nat
            }
        }
    }

    /// The population of `source` at its start.
    pub open spec fn begin(
        root: Seq<char>,
        source: Seq<char>,
        meta: Option<SourceMeta>,
        dimension: nat,
    ) -> PopulationView {
        PopulationView {
            root,
            source,
            key: cache_key(source, mtime_of(meta), length_of(meta), dimension),
            nanos: 0,
            stage: Stage::Probing,
        }
    }
}

/// The answers of a disk on which the source decodes and everything
/// succeeds, to a population that finds nothing cached.
pub open spec fn smooth_miss(clock: Option<u128>) -> Seq<StoreEvent> {
    seq![
        StoreEvent::Present(false),
        StoreEvent::Decoded(true),
        StoreEvent::DirMade(true),
        StoreEvent::Clock(clock),
        StoreEvent::Written(true),
        StoreEvent::Renamed(true),
    ]
}

/// Idempotent population: on a source that has not changed, the first
/// population writes once and moves the file to where it was looked for; the
/// second looks in the same place, and finding the file there it ends as a hit
/// without a write.
pub proof fn lemma_population_is_idempotent(
    root: Seq<char>,
    source: Seq<char>,
    meta: Option<SourceMeta>,
    dimension: nat,
    clock: Option<u128>,
)
    ensures
        ({
            let start = PopulationView::begin(root, source, meta, dimension);
            let first = start.run(smooth_miss(clock));
            let second = start.run(seq![StoreEvent::Present(true)]);
            &&& first.stage == Stage::Done(Outcome::Created)
            &&& start.writes(smooth_miss(clock)) == 1
            &&& start.run(smooth_miss(clock).take(5)).pending() matches StoreActionView::Rename {
                to,
                ..
            } && StoreActionView::Probe(to) == start.pending()
            &&& second.stage == Stage::Done(Outcome::Hit)
            &&& start.writes(seq![StoreEvent::Present(true)]) == 0
        }),
{
    let start = PopulationView::begin(root, source, meta, dimension);
    let e = smooth_miss(clock);
    let e0 = e.take(0);
    let e1 = e.take(1);
    let e2 = e.take(2);
    let e3 = e.take(3);
    let e4 = e.take(4);
    let e5 = e.take(5);
    assert(e.take(6) == e);
    assert(e1.drop_last() == e0);
    assert(e2.drop_last() == e1);
    assert(e3.drop_last() == e2);
    assert(e4.drop_last() == e3);
    assert(e5.drop_last() == e4);
    assert(e.drop_last() == e5);
    assert(start.run(e0) == start);
    assert(start.run(e1).stage == Stage::Decoding);
    assert(start.run(e2).stage == Stage::MakingDir);
    assert(start.run(e3).stage == Stage::ReadingClock);
    assert(start.run(e4).stage == Stage::Writing);
    assert(start.run(e5).stage == Stage::Renaming);
    assert(start.run(e).stage == Stage::Done(Outcome::Created));
    assert(start.writes(e0) == 0);
    assert(start.writes(e1) == 0);
    assert(start.writes(e2) == 0);
    assert(start.writes(e3) == 0);
    assert(start.writes(e4) == 1);
    assert(start.writes(e5) == 1);
    assert(start.writes(e) == 1);
    assert(start.run(e5).key == start.key && start.run(e5).root == start.root);
    let h = seq![StoreEvent::Present(true)];
    assert(h.drop_last() == Seq::<StoreEvent>::empty());
    assert(start.run(h.drop_last()) == start);
    assert(start.writes(h.drop_last()) == 0);
}

/// What the store asks for.
#[derive(Debug)]
pub enum StoreAction {
    /// Find out whether this file exists.
    Probe(String),
    /// Decode this image and scale it down to the thumbnail's dimension.
    Decode(String),
    /// Make this directory, with the directories above it.
    MakeDir(String),
    /// Read the clock.
    ReadClock,
    /// Encode the thumbnail and write it to this file.
    WriteTemp(String),
    /// Move the first file to the second, in one step.
    Rename { from: String, to: String },
    /// The population is over.
    Finish(Outcome),
}

impl View for StoreAction {
    type V = StoreActionView;

    open spec fn view(&self) -> StoreActionView {
        match self {
            StoreAction::Probe(p) => StoreActionView::Probe(p@),
            StoreAction::Decode(p) => StoreActionView::Decode(p@),
            StoreAction::MakeDir(p) => StoreActionView::MakeDir(p@),
            StoreAction::ReadClock => StoreActionView::ReadClock,
            StoreAction::WriteTemp(p) => StoreActionView::WriteTemp(p@),
            StoreAction::Rename { from, to } => StoreActionView::Rename { from: from@, to: to@ },
            StoreAction::Finish(outcome) => StoreActionView::Finish(*outcome),
        }
    }
}

/// The population of the cache with one thumbnail.
pub struct Population {
    pub root: String,
    pub source: String,
    pub key: Digest,
    pub nanos: u128,
    pub stage: Stage,
}

impl View for Population {
    type V = PopulationView;

    open spec fn view(&self) -> PopulationView {
        PopulationView {
            root: self.root@,
            source: self.source@,
            key: self.key@,
            nanos: self.nanos as nat,
            stage: self.stage,
        }
    }
}

impl Population {
    /// Starts to cache the thumbnail of `source` below `cache_root`.
    pub fn begin(cache_root: &str, source: &str, meta: Option<SourceMeta>, dimension: u32) -> (p:
        Population)
        ensures
            p@ == PopulationView::begin(cache_root@, source@, meta, dimension as nat),
    {
        Population {
            root: cache_root.to_owned(),
            source: source.to_owned(),
            key: crate::cache::derive(source, meta, dimension),
            nanos: 0,
            stage: Stage::Probing,
        }
    }

    /// What the store waits for.
    pub fn pending(&self) -> (a: StoreAction)
        ensures
            a@ == self@.pending(),
    {
        match self.stage {
            Stage::Probing => StoreAction::Probe(self.candidate()),
            Stage::Decoding => StoreAction::Decode(self.source.clone()),
            Stage::MakingDir => StoreAction::MakeDir(self.root.clone()),
            Stage::ReadingClock => StoreAction::ReadClock,
            Stage::Writing => StoreAction::WriteTemp(self.temporary()),
            Stage::Renaming => StoreAction::Rename {
                from: self.temporary(),
                to: self.candidate(),
            },
            Stage::Done(outcome) => StoreAction::Finish(outcome),
        }
    }

    /// Where the cached file belongs.
    pub fn candidate(&self) -> (p: String)
        ensures
            p@ == self@.candidate(),
    {
        let name = artifact_name(&self.key);
        join_path(self.root.as_str(), name.as_str())
    }

    /// Where the thumbnail is written first.
    pub fn temporary(&self) -> (p: String)
        ensures
            p@ == self@.temporary(),
    {
        let name = temp_name(&self.key, self.nanos);
        join_path(self.root.as_str(), name.as_str())
    }

    /// How the population ended, once it has.
    pub fn outcome(&self) -> (o: Option<Outcome>)
        ensures
            o == match self@.stage {
                Stage::Done(outcome) => Some(outcome),
                _ => None,
            },
    {
        match self.stage {
            Stage::Done(outcome) => Some(outcome),
            _ => None,
        }
    }

    /// Takes an event and moves on.
    pub fn advance(self, event: StoreEvent) -> (p: Population)
        ensures
            p@ == self@.next(event),
    {
        let mut nanos = self.nanos;
        let stage = match (self.stage, event) {
            (Stage::Probing, StoreEvent::Present(found)) => if found {
                Stage::Done(Outcome::Hit)
            } else {
                Stage::Decoding
            },
            (Stage::Decoding, StoreEvent::Decoded(ok)) => if ok {
                Stage::MakingDir
            } else {
                Stage::Done(Outcome::Failed(Failure::Decode))
            },
            (Stage::MakingDir, StoreEvent::DirMade(ok)) => if ok {
                Stage::ReadingClock
            } else {
                Stage::Done(Outcome::Failed(Failure::MakeDir))
            },
            (Stage::ReadingClock, StoreEvent::Clock(reading)) => {
                nanos = match reading {
                    Some(n) => n,
                    None => 0,
                };
                Stage::Writing
            },
            (Stage::Writing, StoreEvent::Written(ok)) => if ok {
                Stage::Renaming
            } else {
                Stage::Done(Outcome::Failed(Failure::Write))
            },
            (Stage::Renaming, StoreEvent::Renamed(ok)) => if ok {
                Stage::Done(Outcome::Created)
            } else {
                Stage::Done(Outcome::Failed(Failure::Rename))
            },
            (stage, _) => stage,
        };
        Population { root: self.root, source: self.source, key: self.key, nanos, stage }
    }
}

/// How a batch of populations went.
#[derive(Clone, Copy, Debug, PartialEq, Eq, Structural)]
pub struct Tally {
    /// Thumbnails that were made.
    pub generated: usize,
    /// Thumbnails that were cached already.
    pub skipped: usize,
    /// Sources for which no thumbnail could be cached.
    pub failed: usize,
}

/// The tally of the outcomes, of which there are few enough to count.
pub open spec fn tally_of(outcomes: Seq<Outcome>) -> Tally
    decreases outcomes.len(),
{
    if outcomes.len() == 0 {
        Tally { generated: 0, skipped: 0, failed: 0 }
    } else {
        let t = tally_of(outcomes.drop_last());
        match outcomes.last() {
            Outcome::Created => Tally { generated: (t.generated + 1) as usize, ..t },
            Outcome::Hit => Tally { skipped: (t.skipped + 1) as usize, ..t },
            Outcome::Failed(_) => Tally { failed: (t.failed + 1) as usize, ..t },
        }
    }
}

/// Counts how a batch went. A failure is counted and the batch goes on.
pub fn tally(outcomes: &Vec<Outcome>) -> (t: Tally)
    ensures
        t == tally_of(outcomes@),
        t.generated + t.skipped + t.failed == outcomes@.len(),
{
    let mut t = Tally { generated: 0, skipped: 0, failed: 0 };
    let mut i: usize = 0;
    while i < outcomes.len()
        invariant
            i <= outcomes.len(),
            t == tally_of(outcomes@.take(i as int)),
            t.generated + t.skipped + t.failed == i,
        decreases outcomes.len() - i,
    {
        proof {
            assert(outcomes@.take(i + 1).drop_last() == outcomes@.take(i as int));
        }
        match outcomes[i] {
            Outcome::Created => {
                t = Tally { generated: t.generated + 1, skipped: t.skipped, failed: t.failed };
            },
            Outcome::Hit => {
                t = Tally { generated: t.generated, skipped: t.skipped + 1, failed: t.failed };
            },
            Outcome::Failed(_) => {
                t = Tally { generated: t.generated, skipped: t.skipped, failed: t.failed + 1 };
            },
        }
        i += 1;
    }
    assert(outcomes@.take(i as int) == outcomes@);
    t
}

} // verus!
