//! The estimate of the time that one author has worked.
//!
//! The estimate goes by the times of the author's commits alone. Two commits
//! less than two hours apart count as work without a break, so the time
//! between them is added. A longer gap counts as a break followed by a new
//! session, for which two hours are added whatever the length of the break.
//! Two hours more stand for the work that led to the first commit.
//!
//! Time is kept in whole seconds, so that every estimate is exact.

use vstd::prelude::*;

use crate::signature::Signature;
use crate::stats::{FileStats, LineStats};
use crate::text::copy_text;

verus! {

/// The seconds in an hour.
pub const SECONDS_PER_HOUR: i128 = 3600;

/// Two commits at least this many seconds apart belong to different sessions.
pub const MAX_COMMIT_DIFFERENCE_IN_SECONDS: i128 = 7200;

/// The seconds added for the first commit of an author, and for every
/// session that follows a break.
pub const FIRST_COMMIT_ADDITION_IN_SECONDS: i128 = 7200;

/// What one author, known by one email address, has contributed.
#[derive(Debug, Clone, PartialEq, Eq)]
pub struct WorkByEmail {
    /// The name of the author.
    pub name: Vec<u8>,
    /// The email address of the author.
    pub email: Vec<u8>,
    /// The estimated time of work, in seconds.
    pub seconds: i128,
    /// The number of commits.
    pub num_commits: u32,
    /// The files changed by these commits.
    pub files: FileStats,
    /// The lines changed by these commits.
    pub lines: LineStats,
}

/// The contribution of one author or person as a mathematical value.
pub ghost struct WorkView {
    /// The name under which the contribution is listed.
    pub name: Seq<u8>,
    /// The email address under which the contribution is listed.
    pub email: Seq<u8>,
    /// The estimated time of work, in seconds.
    pub seconds: i128,
    /// The number of commits.
    pub num_commits: u32,
    /// The files changed by these commits.
    pub files: FileStats,
    /// The lines changed by these commits.
    pub lines: LineStats,
}

impl View for WorkByEmail {
    type V = WorkView;

    open spec fn view(&self) -> WorkView {
        WorkView {
            name: self.name@,
            email: self.email@,
            seconds: self.seconds,
            num_commits: self.num_commits,
            files: self.files,
            lines: self.lines,
        }
    }
}

/// The seconds from the commit made at `older` to the commit made at `newer`,
/// kept within the range of a time stamp.
pub open spec fn gap(older: i64, newer: i64) -> int {
    let apart = newer - older;
    if apart < i64::MIN {
        i64::MIN as int
    } else if apart > i64::MAX {
        i64::MAX as int
    } else {
        apart
    }
}

/// The seconds of work that the step from the commit made at `older` to the
/// commit made at `newer` stands for.
pub open spec fn gap_work(older: i64, newer: i64) -> int {
    if gap(older, newer) < MAX_COMMIT_DIFFERENCE_IN_SECONDS {
        gap(older, newer)
    } else {
        FIRST_COMMIT_ADDITION_IN_SECONDS as int
    }
}

/// The seconds of work that the steps between the commits made at `times`
/// stand for. The times come newest first.
pub open spec fn work_between(times: Seq<i64>) -> int
    decreases times.len(),
{
    if times.len() < 2 {
        0
    } else {
        work_between(times.drop_last()) + gap_work(times.last(), times[times.len() - 2])
    }
}

/// The times at which `commits` were made, in their order.
pub open spec fn times_of(commits: Seq<(u32, Signature)>) -> Seq<i64> {
    commits.map_values(|c: (u32, Signature)| c.1.time.seconds)
}

/// The seconds of work that the commits made at `times` stand for.
pub open spec fn estimated_seconds(times: Seq<i64>) -> int {
    FIRST_COMMIT_ADDITION_IN_SECONDS + work_between(times)
}

/// `stats` is in the order of its commit numbers.
pub open spec fn sorted_by_index(stats: Seq<(u32, FileStats, LineStats)>) -> bool {
    forall|i: int, j: int| 0 <= i < j < stats.len() ==> stats[i].0 <= stats[j].0
}

/// The files and lines that `stats` records for the commit `index`: those of
/// the first entry with that number, and none if there is no such entry.
pub open spec fn stat_for(stats: Seq<(u32, FileStats, LineStats)>, index: u32) -> (
    FileStats,
    LineStats,
)
    decreases stats.len(),
{
    if stats.len() == 0 {
        (FileStats::zero(), LineStats::zero())
    } else if stats[0].0 == index {
        (stats[0].1, stats[0].2)
    } else {
        stat_for(stats.drop_first(), index)
    }
}

/// The files that `stats` records for each of `commits`.
pub open spec fn files_of(
    commits: Seq<(u32, Signature)>,
    stats: Seq<(u32, FileStats, LineStats)>,
) -> Seq<FileStats> {
    commits.map_values(|c: (u32, Signature)| stat_for(stats, c.0).0)
}

/// The lines that `stats` records for each of `commits`.
pub open spec fn lines_of(
    commits: Seq<(u32, Signature)>,
    stats: Seq<(u32, FileStats, LineStats)>,
) -> Seq<LineStats> {
    commits.map_values(|c: (u32, Signature)| stat_for(stats, c.0).1)
}

/// The number of commits that stands for `total`: `total` itself while it
/// fits, the largest number that does beyond that.
pub open spec fn capped_commits(total: int) -> u32 {
    if total > u32::MAX {
        u32::MAX
    } else if total < 0 {
        0
    } else {
        total as u32
    }
}

/// The contribution that [`estimate_hours`] reports for `commits`.
pub open spec fn estimate(
    commits: Seq<(u32, Signature)>,
    stats: Seq<(u32, FileStats, LineStats)>,
) -> WorkView
    recommends
        commits.len() > 0,
{
    WorkView {
        name: commits[0].1.name@,
        email: commits[0].1.email@,
        seconds: estimated_seconds(times_of(commits)) as i128,
        num_commits: capped_commits(commits.len() as int),
        files: FileStats::total(files_of(commits, stats)),
        lines: LineStats::total(lines_of(commits, stats)),
    }
}

/// The work between at most `usize::MAX` commits fits into 128 bits with room
/// to spare.
pub proof fn lemma_work_between_bounds(times: Seq<i64>)
    ensures
        times.len() >= 1 ==> -(times.len() - 1) * 0x8000_0000_0000_0000 <= work_between(times) <= (
        times.len() - 1) * 7200,
        times.len() == 0 ==> work_between(times) == 0,
    decreases times.len(),
{
    if times.len() >= 2 {
        lemma_work_between_bounds(times.drop_last());
    }
}

/// An entry that no entry with the number `index` precedes is the one that
/// [`stat_for`] picks.
pub proof fn lemma_stat_for_first(stats: Seq<(u32, FileStats, LineStats)>, index: u32, at: int)
    requires
        0 <= at < stats.len(),
        stats[at].0 == index,
        forall|j: int| 0 <= j < at ==> stats[j].0 != index,
    ensures
        stat_for(stats, index) == (stats[at].1, stats[at].2),
    decreases stats.len(),
{
    if at > 0 {
        assert(stats[0].0 != index);
        lemma_stat_for_first(stats.drop_first(), index, at - 1);
    }
}

/// Where no entry has the number `index`, [`stat_for`] finds nothing.
pub proof fn lemma_stat_for_none(stats: Seq<(u32, FileStats, LineStats)>, index: u32)
    requires
        forall|j: int| 0 <= j < stats.len() ==> stats[j].0 != index,
    ensures
        stat_for(stats, index) == (FileStats::zero(), LineStats::zero()),
    decreases stats.len(),
{
    if stats.len() > 0 {
        assert(stats[0].0 != index);
        assert forall|j: int| 0 <= j < stats.drop_first().len() implies stats.drop_first()[j].0
            != index by {
            assert(stats.drop_first()[j] == stats[j + 1]);
        }
        lemma_stat_for_none(stats.drop_first(), index);
    }
}

/// Looks up the files and lines that `stats` records for the commit `index`.
pub fn find_stat(stats: &[(u32, FileStats, LineStats)], index: u32) -> (found: (
    FileStats,
    LineStats,
))
    requires
        sorted_by_index(stats@),
    ensures
        found == stat_for(stats@, index),
{
    let mut lo: usize = 0;
    let mut hi: usize = stats.len();
    while lo < hi
        invariant
            lo <= hi <= stats.len(),
            sorted_by_index(stats@),
            forall|j: int| 0 <= j < lo ==> stats@[j].0 < index,
            forall|j: int| hi <= j < stats.len() ==> stats@[j].0 >= index,
        decreases hi - lo,
    {
        let mid: usize = lo + (hi - lo) / 2;
        if stats[mid].0 < index {
            lo = mid + 1;
        } else {
            hi = mid;
        }
    }
    if lo < stats.len() && stats[lo].0 == index {
        proof {
            lemma_stat_for_first(stats@, index, lo as int);
        }
        (stats[lo].1, stats[lo].2)
    } else {
        proof {
            assert forall|j: int| 0 <= j < stats.len() implies stats@[j].0 != index by {
                if j >= lo {
                    assert(stats@[lo as int].0 <= stats@[j].0);
                }
            }
            lemma_stat_for_none(stats@, index);
        }
        (FileStats::default(), LineStats::default())
    }
}

/// The seconds of work that the step between two commits stands for.
fn step_work(older: i64, newer: i64) -> (work: i128)
    ensures
        work == gap_work(older, newer),
{
    let apart: i128 = newer as i128 - older as i128;
    if apart < MAX_COMMIT_DIFFERENCE_IN_SECONDS {
        if apart < i64::MIN as i128 {
            i64::MIN as i128
        } else {
            apart
        }
    } else {
        FIRST_COMMIT_ADDITION_IN_SECONDS
    }
}

/// Estimates the time that the author of `commits` has worked, and sums up
/// the files and lines that `stats` records for these commits.
///
/// `commits` holds the author's commits, newest first, each with its ordinal
/// number. `stats` holds what is known of the commits of all authors, in the
/// order of their numbers; a commit without an entry counts as no change.
/// The author is listed under the name and email of the newest commit.
pub fn estimate_hours(commits: &[(u32, Signature)], stats: &[(u32, FileStats, LineStats)]) -> (work:
    WorkByEmail)
    requires
        commits.len() > 0,
        sorted_by_index(stats@),
    ensures
        work@ == estimate(commits@, stats@),
        work.seconds == estimated_seconds(times_of(commits@)),
{
    let ghost times = times_of(commits@);
    let mut between: i128 = 0;
    let mut i: usize = 1;
    proof {
        assert(times.subrange(0, 1).len() == 1);
    }
    while i < commits.len()
        invariant
            1 <= i <= commits.len(),
            times == times_of(commits@),
            between == work_between(times.subrange(0, i as int)),
        decreases commits.len() - i,
    {
        let work: i128 = step_work(commits[i].1.seconds(), commits[i - 1].1.seconds());
        proof {
            let shorter = times.subrange(0, i as int);
            let longer = times.subrange(0, i + 1);
            assert(longer.drop_last() =~= shorter);
            assert(longer.last() == commits@[i as int].1.time.seconds);
            assert(longer[longer.len() - 2] == commits@[i - 1].1.time.seconds);
            lemma_work_between_bounds(shorter);
            lemma_work_between_bounds(longer);
        }
        between = between + work;
        i += 1;
    }
    proof {
        assert(times.subrange(0, i as int) =~= times);
        lemma_work_between_bounds(times);
    }
    let mut files = FileStats::default();
    let mut lines = LineStats::default();
    let mut k: usize = 0;
    proof {
        FileStats::lemma_total_push(Seq::empty(), FileStats::zero());
        LineStats::lemma_total_push(Seq::empty(), LineStats::zero());
        assert(files_of(commits@.subrange(0, 0), stats@) =~= Seq::empty());
        assert(lines_of(commits@.subrange(0, 0), stats@) =~= Seq::empty());
    }
    while k < commits.len()
        invariant
            k <= commits.len(),
            sorted_by_index(stats@),
            files == FileStats::total(files_of(commits@.subrange(0, k as int), stats@)),
            lines == LineStats::total(lines_of(commits@.subrange(0, k as int), stats@)),
        decreases commits.len() - k,
    {
        let found = find_stat(stats, commits[k].0);
        proof {
            let done = commits@.subrange(0, k as int);
            let next = commits@.subrange(0, k + 1);
            assert(files_of(next, stats@) =~= files_of(done, stats@).push(found.0));
            assert(lines_of(next, stats@) =~= lines_of(done, stats@).push(found.1));
            FileStats::lemma_total_push(files_of(done, stats@), found.0);
            LineStats::lemma_total_push(lines_of(done, stats@), found.1);
        }
        files.add(&found.0);
        lines.add(&found.1);
        k += 1;
    }
    proof {
        assert(commits@.subrange(0, k as int) =~= commits@);
    }
    let num_commits: u32 = if commits.len() > u32::MAX as usize {
        u32::MAX
    } else {
        commits.len() as u32
    };
    WorkByEmail {
        name: copy_text(commits[0].1.name.as_slice()),
        email: copy_text(commits[0].1.email.as_slice()),
        seconds: FIRST_COMMIT_ADDITION_IN_SECONDS + between,
        num_commits,
        files,
        lines,
    }
}

/// An author with a single commit is credited with the time that stands for
/// a first commit and no more, and with the files and lines that are
/// recorded for that commit.
pub proof fn lemma_single_commit(
    commits: Seq<(u32, Signature)>,
    stats: Seq<(u32, FileStats, LineStats)>,
)
    requires
        commits.len() == 1,
    ensures
        estimate(commits, stats).seconds == FIRST_COMMIT_ADDITION_IN_SECONDS,
        estimate(commits, stats).num_commits == 1,
        estimate(commits, stats).files == stat_for(stats, commits[0].0).0,
        estimate(commits, stats).lines == stat_for(stats, commits[0].0).1,
{
    let found = stat_for(stats, commits[0].0);
    assert(files_of(commits, stats) =~= Seq::<FileStats>::empty().push(found.0));
    assert(lines_of(commits, stats) =~= Seq::<LineStats>::empty().push(found.1));
    FileStats::lemma_total_push(Seq::empty(), found.0);
    LineStats::lemma_total_push(Seq::empty(), found.1);
}

/// A gap of two hours or more stands for two hours of work, however long
/// it is.
pub proof fn lemma_long_gap(older: i64, newer: i64)
    requires
        newer - older >= MAX_COMMIT_DIFFERENCE_IN_SECONDS,
    ensures
        gap_work(older, newer) == FIRST_COMMIT_ADDITION_IN_SECONDS,
{
}

/// A gap of less than two hours stands for its own length.
pub proof fn lemma_short_gap(older: i64, newer: i64)
    requires
        0 <= newer - older < MAX_COMMIT_DIFFERENCE_IN_SECONDS,
    ensures
        gap_work(older, newer) == newer - older,
{
}

/// An earlier commit that lies two hours or more before the earliest one
/// adds two hours to the estimate, however long before it lies.
pub proof fn lemma_long_gap_adds_a_session(times: Seq<i64>, earlier: i64)
    requires
        times.len() > 0,
        times.last() - earlier >= MAX_COMMIT_DIFFERENCE_IN_SECONDS,
    ensures
        estimated_seconds(times.push(earlier)) == estimated_seconds(times)
            + FIRST_COMMIT_ADDITION_IN_SECONDS,
{
    let longer = times.push(earlier);
    assert(longer.drop_last() =~= times);
    assert(longer[longer.len() - 2] == times.last());
}

} // verus!
