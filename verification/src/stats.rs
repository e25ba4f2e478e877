//! Counters of changed files and lines.
//!
//! A counter never wraps around: a total that would not fit stays at the
//! largest value the counter can hold.

use vstd::prelude::*;

verus! {

/// The counter that stands for `total`: `total` itself while it fits, the
/// largest counter value beyond that.
pub open spec fn capped(total: int) -> usize {
    if total > usize::MAX {
        usize::MAX
    } else if total < 0 {
        0
    } else {
        total as usize
    }
}

/// The sum of all counters in `s`, as a mathematical integer.
pub open spec fn sum(s: Seq<usize>) -> int
    decreases s.len(),
{
    if s.len() == 0 {
        0
    } else {
        sum(s.drop_last()) + s.last()
    }
}

/// Adding to a capped total gives the capped total of the sum.
pub proof fn lemma_capped_add(total: int, more: usize)
    requires
        total >= 0,
    ensures
        capped(capped(total) + more) == capped(total + more),
{
}

/// The sum of a sequence is the sum of all but its last counter, plus the last.
pub proof fn lemma_sum_push(s: Seq<usize>, x: usize)
    ensures
        sum(s.push(x)) == sum(s) + x,
        sum(s) >= 0,
    decreases s.len(),
{
    assert(s.push(x).drop_last() =~= s);
    if s.len() > 0 {
        lemma_sum_push(s.drop_last(), s.last());
        assert(s.drop_last().push(s.last()) =~= s);
    }
}

/// How many files one commit, or a group of commits, added, removed and modified.
#[derive(Debug, Copy, Clone, PartialEq, Eq, Structural)]
pub struct FileStats {
    /// Files that came into being.
    pub added: usize,
    /// Files that went away.
    pub removed: usize,
    /// Files whose content changed.
    pub modified: usize,
}

/// How many lines one commit, or a group of commits, added and removed.
#[derive(Debug, Copy, Clone, PartialEq, Eq, Structural)]
pub struct LineStats {
    /// Lines that came into being.
    pub added: usize,
    /// Lines that went away.
    pub removed: usize,
}

impl FileStats {
    /// The counters of no change at all.
    pub open spec fn zero() -> FileStats {
        FileStats { added: 0, removed: 0, modified: 0 }
    }

    /// The counter-wise capped sum of `self` and `other`.
    pub open spec fn plus(self, other: FileStats) -> FileStats {
        FileStats {
            added: capped(self.added + other.added),
            removed: capped(self.removed + other.removed),
            modified: capped(self.modified + other.modified),
        }
    }

    /// The counter-wise capped sum of all of `s`.
    pub open spec fn total(s: Seq<FileStats>) -> FileStats {
        FileStats {
            added: capped(sum(s.map_values(|f: FileStats| f.added))),
            removed: capped(sum(s.map_values(|f: FileStats| f.removed))),
            modified: capped(sum(s.map_values(|f: FileStats| f.modified))),
        }
    }

    /// The total of a sequence is the total of all but its last element, plus the last.
    pub proof fn lemma_total_push(s: Seq<FileStats>, x: FileStats)
        ensures
            Self::total(s.push(x)) == Self::total(s).plus(x),
            Self::total(Seq::empty()) == Self::zero(),
    {
        let a = |f: FileStats| f.added;
        let r = |f: FileStats| f.removed;
        let m = |f: FileStats| f.modified;
        assert(s.push(x).map_values(a) =~= s.map_values(a).push(x.added));
        assert(s.push(x).map_values(r) =~= s.map_values(r).push(x.removed));
        assert(s.push(x).map_values(m) =~= s.map_values(m).push(x.modified));
        lemma_sum_push(s.map_values(a), x.added);
        lemma_sum_push(s.map_values(r), x.removed);
        lemma_sum_push(s.map_values(m), x.modified);
        lemma_capped_add(sum(s.map_values(a)), x.added);
        lemma_capped_add(sum(s.map_values(r)), x.removed);
        lemma_capped_add(sum(s.map_values(m)), x.modified);
        assert(Seq::<FileStats>::empty().map_values(a) =~= Seq::<usize>::empty());
        assert(Seq::<FileStats>::empty().map_values(r) =~= Seq::<usize>::empty());
        assert(Seq::<FileStats>::empty().map_values(m) =~= Seq::<usize>::empty());
    }

    /// Adds the counters of `other` to those of `self`.
    pub fn add(&mut self, other: &FileStats)
        ensures
            *final(self) == old(self).plus(*other),
    {
        self.added = self.added.saturating_add(other.added);
        self.removed = self.removed.saturating_add(other.removed);
        self.modified = self.modified.saturating_add(other.modified);
    }

    /// The counters of `self` and `other` together.
    pub fn added(&self, other: &FileStats) -> (both: FileStats)
        ensures
            both == self.plus(*other),
    {
        let mut both = *self;
        both.add(other);
        both
    }
}

impl Default for FileStats {
    fn default() -> (none: FileStats)
        ensures
            none == FileStats::zero(),
    {
        FileStats { added: 0, removed: 0, modified: 0 }
    }
}

impl LineStats {
    /// The counters of no change at all.
    pub open spec fn zero() -> LineStats {
        LineStats { added: 0, removed: 0 }
    }

    /// The counter-wise capped sum of `self` and `other`.
    pub open spec fn plus(self, other: LineStats) -> LineStats {
        LineStats {
            added: capped(self.added + other.added),
            removed: capped(self.removed + other.removed),
        }
    }

    /// The counter-wise capped sum of all of `s`.
    pub open spec fn total(s: Seq<LineStats>) -> LineStats {
        LineStats {
            added: capped(sum(s.map_values(|l: LineStats| l.added))),
            removed: capped(sum(s.map_values(|l: LineStats| l.removed))),
        }
    }

    /// The total of a sequence is the total of all but its last element, plus the last.
    pub proof fn lemma_total_push(s: Seq<LineStats>, x: LineStats)
        ensures
            Self::total(s.push(x)) == Self::total(s).plus(x),
            Self::total(Seq::empty()) == Self::zero(),
    {
        let a = |l: LineStats| l.added;
        let r = |l: LineStats| l.removed;
        assert(s.push(x).map_values(a) =~= s.map_values(a).push(x.added));
        assert(s.push(x).map_values(r) =~= s.map_values(r).push(x.removed));
        lemma_sum_push(s.map_values(a), x.added);
        lemma_sum_push(s.map_values(r), x.removed);
        lemma_capped_add(sum(s.map_values(a)), x.added);
        lemma_capped_add(sum(s.map_values(r)), x.removed);
        assert(Seq::<LineStats>::empty().map_values(a) =~= Seq::<usize>::empty());
        assert(Seq::<LineStats>::empty().map_values(r) =~= Seq::<usize>::empty());
    }

    /// Adds the counters of `other` to those of `self`.
    pub fn add(&mut self, other: &LineStats)
        ensures
            *final(self) == old(self).plus(*other),
    {
        self.added = self.added.saturating_add(other.added);
        self.removed = self.removed.saturating_add(other.removed);
    }

    /// The counters of `self` and `other` together.
    pub fn added(&self, other: &LineStats) -> (both: LineStats)
        ensures
            both == self.plus(*other),
    {
        let mut both = *self;
        both.add(other);
        both
    }
}

impl Default for LineStats {
    fn default() -> (none: LineStats)
        ensures
            none == LineStats::zero(),
    {
        LineStats { added: 0, removed: 0 }
    }
}

} // verus!
