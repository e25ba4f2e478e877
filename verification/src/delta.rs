//! The work of one tree-diff worker, as a state machine.
//!
//! A worker takes commits from a shared queue. For each it compares the tree
//! of the commit with the tree of its parent and counts the files, and on
//! request the lines, that were added, removed and modified. Everything the
//! worker decides is decided by [`Worker::step`]: the caller performs the
//! [`Action`] it is given (taking an item from the queue, reading an object,
//! asking the diff engine for the next change) and reports what came of it as
//! the next [`Event`].

use vstd::prelude::*;

use crate::stats::{capped, FileStats, LineStats};

verus! {

/// The memory, in bytes, that the object caches of all workers of one run may
/// take together.
pub const OBJECT_CACHE_BUDGET: usize = 891289600;

/// The share of [`OBJECT_CACHE_BUDGET`] that each of `workers` workers gets.
pub fn object_cache_share(workers: usize) -> (share: usize)
    requires
        workers > 0,
    ensures
        share == OBJECT_CACHE_BUDGET / workers,
{
    OBJECT_CACHE_BUDGET / workers
}

/// What an entry of a tree is.
#[derive(Debug, Copy, Clone, PartialEq, Eq, Structural)]
pub enum EntryKind {
    /// A directory.
    Tree,
    /// A file.
    Blob,
    /// A file that can be run.
    BlobExecutable,
    /// A symbolic link.
    Link,
    /// The commit of a submodule.
    Commit,
}

impl EntryKind {
    /// Whether the entry is a file, one that can be run or not.
    pub open spec fn blob(self) -> bool {
        self == EntryKind::Blob || self == EntryKind::BlobExecutable
    }

    /// Whether the entry is a file, one that can be run or not.
    pub fn is_blob(self) -> (yes: bool)
        ensures
            yes == self.blob(),
    {
        match self {
            EntryKind::Blob | EntryKind::BlobExecutable => true,
            _ => false,
        }
    }
}

/// One difference between the tree of a commit and the tree of its parent.
#[derive(Debug, Copy, Clone, PartialEq, Eq, Structural)]
pub enum Change {
    /// An entry that only the commit has.
    Addition {
        /// What the entry is.
        entry: EntryKind,
    },
    /// An entry that only the parent has.
    Deletion {
        /// What the entry was.
        entry: EntryKind,
    },
    /// An entry that both have, with different content or of different kinds.
    Modification {
        /// What the entry was in the parent.
        previous: EntryKind,
        /// What the entry is in the commit.
        entry: EntryKind,
    },
}

/// How a change counts among the files of a commit.
#[derive(Debug, Copy, Clone, PartialEq, Eq, Structural)]
pub enum FileChange {
    /// Not at all: only directories are involved.
    Ignored,
    /// A file was added.
    Added,
    /// A file was removed.
    Removed,
    /// A file was modified.
    Modified,
}

/// How `change` counts among the files of a commit.
///
/// A change counts by whether the entry was a file before and whether it is
/// one after; an entry that is not there is no file. A file that takes the
/// place of something else is added, a file that gives way to something else
/// is removed, a file that stays a file is modified. A change without a file
/// on either side, such as one between directories, links or submodules, does
/// not count.
pub open spec fn classify(change: Change) -> FileChange {
    match change {
        Change::Addition { entry } => if entry.blob() {
            FileChange::Added
        } else {
            FileChange::Ignored
        },
        Change::Deletion { entry } => if entry.blob() {
            FileChange::Removed
        } else {
            FileChange::Ignored
        },
        Change::Modification { previous, entry } => if previous.blob() && entry.blob() {
            FileChange::Modified
        } else if entry.blob() {
            FileChange::Added
        } else if previous.blob() {
            FileChange::Removed
        } else {
            FileChange::Ignored
        },
    }
}

/// How `change` counts among the files of a commit.
pub fn file_change(change: Change) -> (kind: FileChange)
    ensures
        kind == classify(change),
{
    match change {
        Change::Addition { entry } => {
            if entry.is_blob() {
                FileChange::Added
            } else {
                FileChange::Ignored
            }
        },
        Change::Deletion { entry } => {
            if entry.is_blob() {
                FileChange::Removed
            } else {
                FileChange::Ignored
            }
        },
        Change::Modification { previous, entry } => {
            let was: bool = previous.is_blob();
            let is: bool = entry.is_blob();
            if was && is {
                FileChange::Modified
            } else if is {
                FileChange::Added
            } else if was {
                FileChange::Removed
            } else {
                FileChange::Ignored
            }
        },
    }
}

/// The number of bytes of `data` that end a line.
pub open spec fn newlines(data: Seq<u8>) -> nat
    decreases data.len(),
{
    if data.len() == 0 {
        0
    } else {
        newlines(data.drop_last()) + if data.last() == 0x0a {
            1nat
        } else {
            0nat
        }
    }
}

/// The number of lines of `data`: one for each byte that ends a line, and one
/// more for what follows the last of them, if anything does.
pub open spec fn line_count(data: Seq<u8>) -> nat {
    if data.len() > 0 && data.last() != 0x0a {
        newlines(data) + 1
    } else {
        newlines(data)
    }
}

/// Counts the lines of `data` with `ByteSlice::lines_with_terminator` of the
/// `bstr` crate, as `gix` hands it on.
///
/// Trusted: that iterator yields one item for every line feed and a last item
/// for the bytes that follow the last line feed, if there are any; their
/// number is therefore [`line_count`].
#[verifier::external_body]
fn count_lines(data: &[u8]) -> (lines: usize)
    ensures
        lines == line_count(data@),
{
    gix::bstr::ByteSlice::lines_with_terminator(data).count()
}

/// Reads the interrupt flag of the process with `gix::interrupt::is_triggered`.
///
/// Trusted, and nothing is claimed: the flag is set from outside at any time.
#[verifier::external_body]
fn interrupt_requested() -> bool {
    gix::interrupt::is_triggered()
}

/// What the caller reports to the worker.
#[derive(Debug, PartialEq, Eq)]
pub enum Event {
    /// The queue gave the commit with the ordinal number `index`.
    Item {
        /// The position of the commit in the caller's list of commits.
        index: u32,
        /// Whether the commit has a parent to compare with.
        has_parent: bool,
        /// Whether an interrupt had been requested when the item arrived.
        interrupted: bool,
    },
    /// The queue is drained and closed.
    Closed,
    /// Both trees were found.
    TreesFound,
    /// The tree of the parent or of the commit could not be found.
    TreeMissing,
    /// The diff engine reports a change.
    Change(Change),
    /// The blob that was asked for, or nothing if it could not be read.
    Blob(Option<Vec<u8>>),
    /// The lines that the content diff inserted and removed, or nothing if
    /// it does not count lines for this pair of blobs.
    LineCounts(Option<(u32, u32)>),
    /// The diff engine has reported all changes.
    DiffDone,
    /// The diff engine failed.
    DiffFailed,
}

/// What the caller has to do next.
#[derive(Debug, Copy, Clone, PartialEq, Eq, Structural)]
pub enum Action {
    /// Take the next item from the queue and read the interrupt flag.
    Receive,
    /// Find the tree of the commit and the tree to compare it with.
    Resolve {
        /// Compare with the tree of the parent; else with the empty tree.
        with_parent: bool,
    },
    /// Ask the diff engine for the next change.
    Diff,
    /// Read the blob that the last change added.
    ReadAdded,
    /// Read the blob that the last change removed.
    ReadRemoved,
    /// Compare the contents of the two blobs of the last change.
    DiffContent,
    /// Stop: the statistics gathered so far are the result.
    Finish,
    /// Stop: the run of this worker has failed.
    Fail,
}

/// Where a worker stands.
#[derive(Debug, Copy, Clone, PartialEq, Eq, Structural)]
pub enum Phase {
    /// Between two commits.
    Idle,
    /// The trees of a commit are being looked up.
    Resolving {
        /// The ordinal number of the commit.
        index: u32,
        /// Whether the commit is compared with the tree of its parent.
        with_parent: bool,
    },
    /// The changes of a commit are coming in.
    Diffing {
        /// The ordinal number of the commit.
        index: u32,
        /// The files counted so far.
        files: FileStats,
        /// The lines counted so far.
        lines: LineStats,
    },
    /// The lines of one change are being counted.
    Counting {
        /// The ordinal number of the commit.
        index: u32,
        /// The files counted so far, the change included.
        files: FileStats,
        /// The lines counted so far.
        lines: LineStats,
        /// What the caller was asked to do: one of [`Action::ReadAdded`],
        /// [`Action::ReadRemoved`] and [`Action::DiffContent`].
        work: Action,
    },
    /// Stopped with a result.
    Done,
    /// Stopped by a failure of the diff engine.
    Failed,
}

/// What a step adds to the counters that all workers share.
#[derive(Debug, Copy, Clone, PartialEq, Eq, Structural)]
pub struct Progress {
    /// Commits processed: items taken from the queue while no interrupt was
    /// requested.
    pub commits: usize,
    /// Changes reported by the diff engine.
    pub changes: usize,
    /// Lines counted.
    pub lines: usize,
}

/// What a step tells the caller.
#[derive(Debug, Copy, Clone, PartialEq, Eq, Structural)]
pub struct Outcome {
    /// What to do next.
    pub action: Action,
    /// What to add to the shared counters.
    pub progress: Progress,
}

/// The diff engine failed while a worker was comparing two trees.
#[derive(Debug, Copy, Clone, PartialEq, Eq, Structural)]
pub struct DiffFailed;

/// One worker: the statistics it has gathered and where it stands.
#[derive(Debug)]
pub struct Worker {
    line_stats: bool,
    stats: Vec<(u32, FileStats, LineStats)>,
    phase: Phase,
}

/// The state of a worker.
pub ghost struct WorkerView {
    /// Whether lines are counted.
    pub line_stats: bool,
    /// The statistics of the commits that were compared, in the order in which
    /// they were finished.
    pub stats: Seq<(u32, FileStats, LineStats)>,
    /// Where the worker stands.
    pub phase: Phase,
}

/// No progress.
pub open spec fn nothing() -> Progress {
    Progress { commits: 0, changes: 0, lines: 0 }
}

/// The action that a worker in `phase` is waiting for.
pub open spec fn pending(phase: Phase) -> Action {
    match phase {
        Phase::Idle => Action::Receive,
        Phase::Resolving { with_parent, .. } => Action::Resolve { with_parent },
        Phase::Diffing { .. } => Action::Diff,
        Phase::Counting { work, .. } => work,
        Phase::Done => Action::Finish,
        Phase::Failed => Action::Fail,
    }
}

/// The state in which `w` goes on with `phase`, and what the caller is told.
pub open spec fn go(w: WorkerView, phase: Phase, action: Action, progress: Progress) -> (
    WorkerView,
    Outcome,
) {
    (WorkerView { phase, ..w }, Outcome { action, progress })
}

/// The step that a worker which is comparing the trees of the commit `index`
/// takes when the diff engine reports `change`.
pub open spec fn change_step(
    w: WorkerView,
    index: u32,
    files: FileStats,
    lines: LineStats,
    change: Change,
) -> (WorkerView, Outcome) {
    let seen = Progress { commits: 0, changes: 1, lines: 0 };
    let (counted, work) = match classify(change) {
        FileChange::Ignored => (files, Action::Diff),
        FileChange::Added => (
            FileStats { added: capped(files.added + 1), ..files },
            Action::ReadAdded,
        ),
        FileChange::Removed => (
            FileStats { removed: capped(files.removed + 1), ..files },
            Action::ReadRemoved,
        ),
        FileChange::Modified => (
            FileStats { modified: capped(files.modified + 1), ..files },
            Action::DiffContent,
        ),
    };
    if w.line_stats && work != Action::Diff {
        go(w, Phase::Counting { index, files: counted, lines, work }, work, seen)
    } else {
        go(w, Phase::Diffing { index, files: counted, lines }, Action::Diff, seen)
    }
}

/// The step that a worker which is counting the lines of a change takes when
/// the caller reports `event`.
pub open spec fn count_step(
    w: WorkerView,
    index: u32,
    files: FileStats,
    lines: LineStats,
    work: Action,
    event: Event,
) -> (WorkerView, Outcome) {
    match (work, event) {
        (Action::ReadAdded, Event::Blob(Some(data))) => {
            let n = capped(line_count(data@) as int);
            let lines = LineStats { added: capped(lines.added + n), ..lines };
            go(
                w,
                Phase::Diffing { index, files, lines },
                Action::Diff,
                Progress { commits: 0, changes: 0, lines: n },
            )
        },
        (Action::ReadRemoved, Event::Blob(Some(data))) => {
            let n = capped(line_count(data@) as int);
            let lines = LineStats { removed: capped(lines.removed + n), ..lines };
            go(
                w,
                Phase::Diffing { index, files, lines },
                Action::Diff,
                Progress { commits: 0, changes: 0, lines: n },
            )
        },
        (Action::ReadAdded, Event::Blob(None)) | (Action::ReadRemoved, Event::Blob(None)) => go(
            w,
            Phase::Diffing { index, files, lines },
            Action::Diff,
            nothing(),
        ),
        (Action::DiffContent, Event::LineCounts(Some(counts))) => {
            let lines = LineStats {
                added: capped(lines.added + counts.0),
                removed: capped(lines.removed + counts.1),
            };
            go(
                w,
                Phase::Diffing { index, files, lines },
                Action::Diff,
                Progress { commits: 0, changes: 0, lines: capped(counts.0 + counts.1) },
            )
        },
        (Action::DiffContent, Event::LineCounts(None)) => go(
            w,
            Phase::Diffing { index, files, lines },
            Action::Diff,
            nothing(),
        ),
        (_, Event::DiffFailed) => go(w, Phase::Failed, Action::Fail, nothing()),
        _ => go(w, w.phase, pending(w.phase), nothing()),
    }
}

/// The step that a worker in state `w` takes on `event`: its next state and
/// what it tells the caller.
///
/// An event that the worker is not waiting for changes nothing, and the
/// caller is told once more what the worker is waiting for.
pub open spec fn step_spec(w: WorkerView, event: Event) -> (WorkerView, Outcome) {
    match w.phase {
        Phase::Idle => match event {
            Event::Item { index, has_parent, interrupted } => {
                if interrupted {
                    go(w, Phase::Done, Action::Finish, nothing())
                } else {
                    go(
                        w,
                        Phase::Resolving { index, with_parent: has_parent },
                        Action::Resolve { with_parent: has_parent },
                        Progress { commits: 1, changes: 0, lines: 0 },
                    )
                }
            },
            Event::Closed => go(w, Phase::Done, Action::Finish, nothing()),
            _ => go(w, w.phase, pending(w.phase), nothing()),
        },
        Phase::Resolving { index, .. } => match event {
            Event::TreesFound => go(
                w,
                Phase::Diffing { index, files: FileStats::zero(), lines: LineStats::zero() },
                Action::Diff,
                nothing(),
            ),
            Event::TreeMissing => go(w, Phase::Idle, Action::Receive, nothing()),
            Event::DiffFailed => go(w, Phase::Failed, Action::Fail, nothing()),
            _ => go(w, w.phase, pending(w.phase), nothing()),
        },
        Phase::Diffing { index, files, lines } => match event {
            Event::Change(change) => change_step(w, index, files, lines, change),
            Event::DiffDone => (
                WorkerView { phase: Phase::Idle, stats: w.stats.push((index, files, lines)), ..w },
                Outcome { action: Action::Receive, progress: nothing() },
            ),
            Event::DiffFailed => go(w, Phase::Failed, Action::Fail, nothing()),
            _ => go(w, w.phase, pending(w.phase), nothing()),
        },
        Phase::Counting { index, files, lines, work } => count_step(
            w,
            index,
            files,
            lines,
            work,
            event,
        ),
        Phase::Done | Phase::Failed => go(w, w.phase, pending(w.phase), nothing()),
    }
}

impl View for Worker {
    type V = WorkerView;

    closed spec fn view(&self) -> WorkerView {
        WorkerView { line_stats: self.line_stats, stats: self.stats@, phase: self.phase }
    }
}

impl Worker {
    /// A worker that has done nothing yet. It counts lines if `line_stats` is set.
    pub fn new(line_stats: bool) -> (worker: Worker)
        ensures
            worker@ == (WorkerView { line_stats, stats: Seq::empty(), phase: Phase::Idle }),
    {
        Worker { line_stats, stats: Vec::new(), phase: Phase::Idle }
    }

    /// Where the worker stands.
    pub fn phase(&self) -> (phase: Phase)
        ensures
            phase == self@.phase,
    {
        self.phase
    }

    /// Takes the step that `event` asks for.
    pub fn step(&mut self, event: Event) -> (outcome: Outcome)
        ensures
            (final(self)@, outcome) == step_spec(old(self)@, event),
    {
        let none = Progress { commits: 0, changes: 0, lines: 0 };
        match self.phase {
            Phase::Idle => match event {
                Event::Item { index, has_parent, interrupted } => {
                    if interrupted {
                        self.phase = Phase::Done;
                        Outcome { action: Action::Finish, progress: none }
                    } else {
                        self.phase = Phase::Resolving { index, with_parent: has_parent };
                        Outcome {
                            action: Action::Resolve { with_parent: has_parent },
                            progress: Progress { commits: 1, changes: 0, lines: 0 },
                        }
                    }
                },
                Event::Closed => {
                    self.phase = Phase::Done;
                    Outcome { action: Action::Finish, progress: none }
                },
                _ => Outcome { action: Action::Receive, progress: none },
            },
            Phase::Resolving { index, with_parent } => match event {
                Event::TreesFound => {
                    self.phase = Phase::Diffing {
                        index,
                        files: FileStats::default(),
                        lines: LineStats::default(),
                    };
                    Outcome { action: Action::Diff, progress: none }
                },
                Event::TreeMissing => {
                    self.phase = Phase::Idle;
                    Outcome { action: Action::Receive, progress: none }
                },
                Event::DiffFailed => {
                    self.phase = Phase::Failed;
                    Outcome { action: Action::Fail, progress: none }
                },
                _ => Outcome { action: Action::Resolve { with_parent }, progress: none },
            },
            Phase::Diffing { index, files, lines } => match event {
                Event::Change(change) => self.change(index, files, lines, change),
                Event::DiffDone => {
                    self.stats.push((index, files, lines));
                    self.phase = Phase::Idle;
                    Outcome { action: Action::Receive, progress: none }
                },
                Event::DiffFailed => {
                    self.phase = Phase::Failed;
                    Outcome { action: Action::Fail, progress: none }
                },
                _ => Outcome { action: Action::Diff, progress: none },
            },
            Phase::Counting { index, files, lines, work } => self.count(
                index,
                files,
                lines,
                work,
                event,
            ),
            Phase::Done => Outcome { action: Action::Finish, progress: none },
            Phase::Failed => Outcome { action: Action::Fail, progress: none },
        }
    }

    /// Takes the step for the commit that the queue has just given: reads the
    /// interrupt flag of the process and steps on [`Event::Item`] with it.
    pub fn receive(&mut self, index: u32, has_parent: bool) -> (outcome: Outcome)
        ensures
            (final(self)@, outcome) == step_spec(
                old(self)@,
                Event::Item { index, has_parent, interrupted: true },
            ) || (final(self)@, outcome) == step_spec(
                old(self)@,
                Event::Item { index, has_parent, interrupted: false },
            ),
    {
        let interrupted: bool = interrupt_requested();
        self.step(Event::Item { index, has_parent, interrupted })
    }

    /// What the worker has to return once it has stopped: the statistics of
    /// the commits it has compared, or the failure of the diff engine.
    pub fn finish(self) -> (result: Result<Vec<(u32, FileStats, LineStats)>, DiffFailed>)
        ensures
            self@.phase == Phase::Failed ==> result == Err::<Vec<(u32, FileStats, LineStats)>, DiffFailed>(
                DiffFailed,
            ),
            self@.phase != Phase::Failed ==> result.is_ok() && result.unwrap()@ == self@.stats,
    {
        match self.phase {
            Phase::Failed => Err(DiffFailed),
            _ => Ok(self.stats),
        }
    }

    fn change(&mut self, index: u32, files: FileStats, lines: LineStats, change: Change) -> (outcome:
        Outcome)
        requires
            old(self)@.phase == (Phase::Diffing { index, files, lines }),
        ensures
            (final(self)@, outcome) == change_step(old(self)@, index, files, lines, change),
    {
        let seen = Progress { commits: 0, changes: 1, lines: 0 };
        let mut counted = files;
        let work = match file_change(change) {
            FileChange::Ignored => Action::Diff,
            FileChange::Added => {
                counted.added = files.added.saturating_add(1);
                Action::ReadAdded
            },
            FileChange::Removed => {
                counted.removed = files.removed.saturating_add(1);
                Action::ReadRemoved
            },
            FileChange::Modified => {
                counted.modified = files.modified.saturating_add(1);
                Action::DiffContent
            },
        };
        let counting: bool = match work {
            Action::Diff => false,
            _ => self.line_stats,
        };
        if counting {
            self.phase = Phase::Counting { index, files: counted, lines, work };
            Outcome { action: work, progress: seen }
        } else {
            self.phase = Phase::Diffing { index, files: counted, lines };
            Outcome { action: Action::Diff, progress: seen }
        }
    }

    fn count(
        &mut self,
        index: u32,
        files: FileStats,
        lines: LineStats,
        work: Action,
        event: Event,
    ) -> (outcome: Outcome)
        requires
            old(self)@.phase == (Phase::Counting { index, files, lines, work }),
        ensures
            (final(self)@, outcome) == count_step(old(self)@, index, files, lines, work, event),
    {
        let none = Progress { commits: 0, changes: 0, lines: 0 };
        let mut counted = lines;
        let mut more: usize = 0;
        match (work, event) {
            (Action::ReadAdded, Event::Blob(Some(data))) => {
                more = count_lines(data.as_slice());
                counted.added = lines.added.saturating_add(more);
            },
            (Action::ReadRemoved, Event::Blob(Some(data))) => {
                more = count_lines(data.as_slice());
                counted.removed = lines.removed.saturating_add(more);
            },
            (Action::ReadAdded, Event::Blob(None)) | (Action::ReadRemoved, Event::Blob(None)) => {},
            (Action::DiffContent, Event::LineCounts(Some(counts))) => {
                let inserted: usize = counts.0 as usize;
                let removed: usize = counts.1 as usize;
                more = inserted.saturating_add(removed);
                counted.added = lines.added.saturating_add(inserted);
                counted.removed = lines.removed.saturating_add(removed);
            },
            (Action::DiffContent, Event::LineCounts(None)) => {},
            (_, Event::DiffFailed) => {
                self.phase = Phase::Failed;
                return Outcome { action: Action::Fail, progress: none };
            },
            _ => {
                return Outcome { action: work, progress: none };
            },
        }
        self.phase = Phase::Diffing { index, files, lines: counted };
        Outcome { action: Action::Diff, progress: Progress { commits: 0, changes: 0, lines: more } }
    }
}

/// The state of a worker in state `w` after the steps on all of `events`,
/// in their order.
pub open spec fn run(w: WorkerView, events: Seq<Event>) -> WorkerView
    decreases events.len(),
{
    if events.len() == 0 {
        w
    } else {
        step_spec(run(w, events.drop_last()), events.last()).0
    }
}

/// A step leaves the statistics as they are or adds those of one commit at
/// the end, and this only when the diff of that commit is done. Whether
/// lines are counted never changes.
pub proof fn lemma_step_adds_at_most_one(w: WorkerView, event: Event)
    ensures
        step_spec(w, event).0.line_stats == w.line_stats,
        step_spec(w, event).0.stats == w.stats || (exists|files: FileStats, lines: LineStats, index: u32|
            {
                &&& w.phase == (Phase::Diffing { index, files, lines })
                &&& event == Event::DiffDone
                &&& step_spec(w, event).0.stats == w.stats.push((index, files, lines))
            }),
{
    match w.phase {
        Phase::Diffing { index, files, lines } => {
            if event == Event::DiffDone {
                assert(step_spec(w, event).0.stats == w.stats.push((index, files, lines)));
            }
        },
        _ => {},
    }
}

/// A worker that has stopped stays as it is, whatever it is told.
pub proof fn lemma_stopped_stays(w: WorkerView, events: Seq<Event>)
    requires
        w.phase == Phase::Done || w.phase == Phase::Failed,
    ensures
        run(w, events) == w,
    decreases events.len(),
{
    if events.len() > 0 {
        lemma_stopped_stays(w, events.drop_last());
    }
}

/// An interrupt is honoured before the commit is processed: a worker
/// between two commits that gets an item while an interrupt is requested
/// stops without counting the item, and keeps exactly the statistics it
/// had, whatever it is told afterwards.
pub proof fn lemma_interrupt_stops(w: WorkerView, index: u32, has_parent: bool, later: Seq<Event>)
    requires
        w.phase == Phase::Idle,
    ensures
        step_spec(w, Event::Item { index, has_parent, interrupted: true }).1 == (Outcome {
            action: Action::Finish,
            progress: nothing(),
        }),
        run(step_spec(w, Event::Item { index, has_parent, interrupted: true }).0, later) == (
        WorkerView { phase: Phase::Done, ..w }),
{
    lemma_stopped_stays(WorkerView { phase: Phase::Done, ..w }, later);
}

/// A commit whose tree, or whose parent's tree, is missing is passed over:
/// the worker is ready for the next item and its statistics are unchanged.
pub proof fn lemma_missing_tree_is_skipped(w: WorkerView, index: u32, has_parent: bool)
    requires
        w.phase == Phase::Idle,
    ensures
        run(
            w,
            seq![Event::Item { index, has_parent, interrupted: false }, Event::TreeMissing],
        ) == w,
{
    let events = seq![Event::Item { index, has_parent, interrupted: false }, Event::TreeMissing];
    assert(events.drop_last() =~= seq![Event::Item { index, has_parent, interrupted: false }]);
    assert(events.drop_last().drop_last() =~= Seq::<Event>::empty());
    reveal_with_fuel(run, 3);
}

/// The number of `changes` that count as `kind` among the files of a commit.
pub open spec fn count_of(changes: Seq<Change>, kind: FileChange) -> int
    decreases changes.len(),
{
    if changes.len() == 0 {
        0
    } else {
        count_of(changes.drop_last(), kind) + if classify(changes.last()) == kind {
            1int
        } else {
            0int
        }
    }
}

/// The files that `changes` add, remove and modify, on top of `files`.
pub open spec fn tally(files: FileStats, changes: Seq<Change>) -> FileStats {
    FileStats {
        added: capped(files.added + count_of(changes, FileChange::Added)),
        removed: capped(files.removed + count_of(changes, FileChange::Removed)),
        modified: capped(files.modified + count_of(changes, FileChange::Modified)),
    }
}

/// The reports of `changes`, one event for each.
pub open spec fn reports(changes: Seq<Change>) -> Seq<Event> {
    changes.map_values(|c: Change| Event::Change(c))
}

/// A worker that counts no lines counts the files of the changes it is
/// told of, and nothing else.
pub proof fn lemma_changes_are_tallied(
    w: WorkerView,
    index: u32,
    files: FileStats,
    lines: LineStats,
    changes: Seq<Change>,
)
    requires
        !w.line_stats,
        w.phase == (Phase::Diffing { index, files, lines }),
    ensures
        count_of(changes, FileChange::Added) >= 0,
        count_of(changes, FileChange::Removed) >= 0,
        count_of(changes, FileChange::Modified) >= 0,
        run(w, reports(changes)) == (WorkerView {
            phase: Phase::Diffing { index, files: tally(files, changes), lines },
            ..w
        }),
    decreases changes.len(),
{
    if changes.len() > 0 {
        let before = changes.drop_last();
        lemma_changes_are_tallied(w, index, files, lines, before);
        assert(reports(changes).drop_last() =~= reports(before));
        assert(reports(changes).last() == Event::Change(changes.last()));
    } else {
        assert(reports(changes) =~= Seq::<Event>::empty());
    }
}

/// The statistics of one commit, where no lines are counted: a worker
/// between two commits that takes a commit, finds its trees and is told of
/// `changes` records for the commit the files that the changes add, remove
/// and modify, and is ready for the next commit.
pub proof fn lemma_commit_is_recorded(
    w: WorkerView,
    index: u32,
    has_parent: bool,
    changes: Seq<Change>,
)
    requires
        !w.line_stats,
        w.phase == Phase::Idle,
    ensures
        run(
            w,
            seq![Event::Item { index, has_parent, interrupted: false }, Event::TreesFound]
                + reports(changes) + seq![Event::DiffDone],
        ) == (WorkerView {
            phase: Phase::Idle,
            stats: w.stats.push((index, tally(FileStats::zero(), changes), LineStats::zero())),
            ..w
        }),
{
    let start = seq![Event::Item { index, has_parent, interrupted: false }, Event::TreesFound];
    let began = WorkerView {
        phase: Phase::Diffing { index, files: FileStats::zero(), lines: LineStats::zero() },
        ..w
    };
    assert(run(w, start) == began) by {
        assert(start.drop_last() =~= seq![Event::Item { index, has_parent, interrupted: false }]);
        assert(start.drop_last().drop_last() =~= Seq::<Event>::empty());
        reveal_with_fuel(run, 3);
    }
    lemma_run_in_parts(w, start, reports(changes));
    lemma_changes_are_tallied(began, index, FileStats::zero(), LineStats::zero(), changes);
    let all = start + reports(changes) + seq![Event::DiffDone];
    assert(all.drop_last() =~= start + reports(changes));
    assert(all.last() == Event::DiffDone);
}

/// A worker that is told of events in two parts ends where it ends when it
/// is told of all of them at once.
pub proof fn lemma_run_in_parts(w: WorkerView, first: Seq<Event>, then: Seq<Event>)
    ensures
        run(w, first + then) == run(run(w, first), then),
    decreases then.len(),
{
    if then.len() == 0 {
        assert(first + then =~= first);
    } else {
        lemma_run_in_parts(w, first, then.drop_last());
        assert((first + then).drop_last() =~= first + then.drop_last());
        assert((first + then).last() == then.last());
    }
}

/// The lines of an added file: a worker that counts lines and is told of a
/// change that adds a file, and then of the content of the file, counts
/// one added file more and as many added lines more as the content has.
pub proof fn lemma_added_file_counts_its_lines(
    w: WorkerView,
    index: u32,
    files: FileStats,
    lines: LineStats,
    change: Change,
    content: Vec<u8>,
)
    requires
        w.line_stats,
        w.phase == (Phase::Diffing { index, files, lines }),
        classify(change) == FileChange::Added,
    ensures
        run(w, seq![Event::Change(change), Event::Blob(Some(content))]) == (WorkerView {
            phase: Phase::Diffing {
                index,
                files: FileStats { added: capped(files.added + 1), ..files },
                lines: LineStats {
                    added: capped(lines.added + capped(line_count(content@) as int)),
                    ..lines
                },
            },
            ..w
        }),
{
    let events = seq![Event::Change(change), Event::Blob(Some(content))];
    assert(events.drop_last() =~= seq![Event::Change(change)]);
    assert(events.drop_last().drop_last() =~= Seq::<Event>::empty());
    reveal_with_fuel(run, 3);
}

/// The lines of a removed file: a worker that counts lines and is told of
/// a change that removes a file, and then of the content of the file,
/// counts one removed file more and as many removed lines more as the
/// content has.
pub proof fn lemma_removed_file_counts_its_lines(
    w: WorkerView,
    index: u32,
    files: FileStats,
    lines: LineStats,
    change: Change,
    content: Vec<u8>,
)
    requires
        w.line_stats,
        w.phase == (Phase::Diffing { index, files, lines }),
        classify(change) == FileChange::Removed,
    ensures
        run(w, seq![Event::Change(change), Event::Blob(Some(content))]) == (WorkerView {
            phase: Phase::Diffing {
                index,
                files: FileStats { removed: capped(files.removed + 1), ..files },
                lines: LineStats {
                    removed: capped(lines.removed + capped(line_count(content@) as int)),
                    ..lines
                },
            },
            ..w
        }),
{
    let events = seq![Event::Change(change), Event::Blob(Some(content))];
    assert(events.drop_last() =~= seq![Event::Change(change)]);
    assert(events.drop_last().drop_last() =~= Seq::<Event>::empty());
    reveal_with_fuel(run, 3);
}

/// The lines of a modified file: a worker that counts lines and is told of
/// a change that modifies a file, and then of the lines that the content
/// diff inserts and removes, counts one modified file more and these lines.
pub proof fn lemma_modified_file_counts_its_lines(
    w: WorkerView,
    index: u32,
    files: FileStats,
    lines: LineStats,
    change: Change,
    inserted: u32,
    removed: u32,
)
    requires
        w.line_stats,
        w.phase == (Phase::Diffing { index, files, lines }),
        classify(change) == FileChange::Modified,
    ensures
        run(w, seq![Event::Change(change), Event::LineCounts(Some((inserted, removed)))]) == (
        WorkerView {
            phase: Phase::Diffing {
                index,
                files: FileStats { modified: capped(files.modified + 1), ..files },
                lines: LineStats {
                    added: capped(lines.added + inserted),
                    removed: capped(lines.removed + removed),
                },
            },
            ..w
        }),
{
    let events = seq![Event::Change(change), Event::LineCounts(Some((inserted, removed)))];
    assert(events.drop_last() =~= seq![Event::Change(change)]);
    assert(events.drop_last().drop_last() =~= Seq::<Event>::empty());
    reveal_with_fuel(run, 3);
}

} // verus!
