//! Merging the contributions of one person that are listed under several
//! email addresses or names.
//!
//! The records are taken one by one, in their order. A record whose email
//! has been seen joins the person that the email belongs to, and its name
//! belongs to that person from then on. A record whose email is new but
//! whose name has been seen joins the person that the name belongs to, and
//! its email belongs to that person from then on. Any other record starts a
//! new person. Two persons, once started, are never joined.

use vstd::prelude::*;

use crate::estimate::{capped_commits, WorkByEmail, WorkView};
use crate::stats::{FileStats, LineStats};
use crate::text::{copy_text, same_bytes};

verus! {

/// What one person has contributed, under whatever email address or name.
#[derive(Debug, Clone, PartialEq, Eq)]
pub struct WorkByPerson {
    /// The name of the person: that of the first record found of them.
    pub name: Vec<u8>,
    /// The email address of the person: that of the first record found of them.
    pub email: Vec<u8>,
    /// The estimated time of work, in seconds.
    pub seconds: i128,
    /// The number of commits.
    pub num_commits: u32,
    /// The files changed by these commits.
    pub files: FileStats,
    /// The lines changed by these commits.
    pub lines: LineStats,
}

impl View for WorkByPerson {
    type V = WorkView;

    open spec fn view(&self) -> WorkView {
        WorkView {
            name: self.name@,
            email: self.email@,
            seconds: self.seconds,
            num_commits: self.num_commits,
            files: self.files,
            lines: self.lines,
        }
    }
}

/// The time that stands for `total` seconds: `total` itself while it fits,
/// the nearest time that does beyond that.
pub open spec fn clamped_seconds(total: int) -> i128 {
    if total > i128::MAX {
        i128::MAX
    } else if total < i128::MIN {
        i128::MIN
    } else {
        total as i128
    }
}

/// The person `person` after the contribution `record` has been added: time
/// and counters are summed up, name and email stay.
pub open spec fn merged(person: WorkView, record: WorkView) -> WorkView {
    WorkView {
        name: person.name,
        email: person.email,
        seconds: clamped_seconds(person.seconds + record.seconds),
        num_commits: capped_commits(person.num_commits + record.num_commits),
        files: person.files.plus(record.files),
        lines: person.lines.plus(record.lines),
    }
}

/// The persons found so far, and whom each email and name belongs to.
pub ghost struct Groups {
    /// The persons, in the order in which they were first found.
    pub people: Seq<WorkView>,
    /// The position in `people` of the person that an email belongs to.
    pub by_email: Map<Seq<u8>, int>,
    /// The position in `people` of the person that a name belongs to.
    pub by_name: Map<Seq<u8>, int>,
}

impl Groups {
    /// No person, email or name is known.
    pub open spec fn start() -> Groups {
        Groups { people: Seq::empty(), by_email: Map::empty(), by_name: Map::empty() }
    }

    /// Every email and name belongs to a person that is there.
    pub open spec fn wf(self) -> bool {
        &&& forall|e: Seq<u8>| #[trigger]
            self.by_email.contains_key(e) ==> 0 <= self.by_email[e] < self.people.len()
        &&& forall|n: Seq<u8>| #[trigger]
            self.by_name.contains_key(n) ==> 0 <= self.by_name[n] < self.people.len()
    }

    /// The groups after `record` has been taken in.
    pub open spec fn absorb(self, record: WorkView) -> Groups {
        if self.by_email.contains_key(record.email) {
            let at = self.by_email[record.email];
            Groups {
                people: self.people.update(at, merged(self.people[at], record)),
                by_email: self.by_email,
                by_name: self.by_name.insert(record.name, at),
            }
        } else if self.by_name.contains_key(record.name) {
            let at = self.by_name[record.name];
            Groups {
                people: self.people.update(at, merged(self.people[at], record)),
                by_email: self.by_email.insert(record.email, at),
                by_name: self.by_name,
            }
        } else {
            let at = self.people.len() as int;
            Groups {
                people: self.people.push(record),
                by_email: self.by_email.insert(record.email, at),
                by_name: self.by_name.insert(record.name, at),
            }
        }
    }

    /// The groups after all of `records` have been taken in, in their order.
    pub open spec fn of(records: Seq<WorkView>) -> Groups
        decreases records.len(),
    {
        if records.len() == 0 {
            Groups::start()
        } else {
            Groups::of(records.drop_last()).absorb(records.last())
        }
    }

    /// Taking a record in keeps the groups well formed.
    pub proof fn lemma_absorb_wf(self, record: WorkView)
        requires
            self.wf(),
        ensures
            self.absorb(record).wf(),
    {
    }

    /// The groups of any records are well formed.
    pub proof fn lemma_of_wf(records: Seq<WorkView>)
        ensures
            Groups::of(records).wf(),
        decreases records.len(),
    {
        if records.len() > 0 {
            Groups::lemma_of_wf(records.drop_last());
            Groups::of(records.drop_last()).lemma_absorb_wf(records.last());
        }
    }
}

/// The contributions `records` as mathematical values.
pub open spec fn views(records: Seq<WorkByEmail>) -> Seq<WorkView> {
    records.map_values(|w: WorkByEmail| w@)
}

/// The persons `people` as mathematical values.
pub open spec fn person_views(people: Seq<WorkByPerson>) -> Seq<WorkView> {
    people.map_values(|p: WorkByPerson| p@)
}

/// The persons that `records` are the contributions of.
pub open spec fn deduplicated(records: Seq<WorkView>) -> Seq<WorkView> {
    Groups::of(records).people
}

/// The map that holds, for each of `keys`, the slot at the same position of
/// `slots`; of two equal keys the later one counts.
spec fn built(keys: Seq<Seq<u8>>, slots: Seq<usize>) -> Map<Seq<u8>, int>
    decreases keys.len(),
{
    if keys.len() == 0 || slots.len() == 0 {
        Map::empty()
    } else {
        built(keys.drop_last(), slots.drop_last()).insert(keys.last(), slots.last() as int)
    }
}

/// A map from texts to positions, kept as a list of pairs.
struct TextIndex {
    keys: Vec<Vec<u8>>,
    slots: Vec<usize>,
}

impl TextIndex {
    spec fn key_views(self) -> Seq<Seq<u8>> {
        self.keys@.map_values(|k: Vec<u8>| k@)
    }

    spec fn wf(self) -> bool {
        self.keys.len() == self.slots.len()
    }

    spec fn map(self) -> Map<Seq<u8>, int> {
        built(self.key_views(), self.slots@)
    }

    fn new() -> (index: TextIndex)
        ensures
            index.wf(),
            index.map() == Map::<Seq<u8>, int>::empty(),
    {
        TextIndex { keys: Vec::new(), slots: Vec::new() }
    }

    fn get(&self, key: &[u8]) -> (slot: Option<usize>)
        requires
            self.wf(),
        ensures
            match slot {
                Some(s) => self.map().contains_key(key@) && self.map()[key@] == s,
                None => !self.map().contains_key(key@),
            },
    {
        let ghost keys = self.key_views();
        let ghost slots = self.slots@;
        let mut i: usize = self.keys.len();
        proof {
            assert(keys.subrange(0, i as int) =~= keys);
            assert(slots.subrange(0, i as int) =~= slots);
        }
        while i > 0
            invariant
                i <= self.keys.len(),
                self.wf(),
                keys == self.key_views(),
                slots == self.slots@,
                self.map().contains_key(key@) == built(
                    keys.subrange(0, i as int),
                    slots.subrange(0, i as int),
                ).contains_key(key@),
                self.map().contains_key(key@) ==> self.map()[key@] == built(
                    keys.subrange(0, i as int),
                    slots.subrange(0, i as int),
                )[key@],
            decreases i,
        {
            proof {
                assert(keys.subrange(0, i as int).drop_last() =~= keys.subrange(0, i - 1));
                assert(slots.subrange(0, i as int).drop_last() =~= slots.subrange(0, i - 1));
                assert(keys.subrange(0, i as int).last() == self.keys@[i - 1]@);
            }
            i -= 1;
            if same_bytes(self.keys[i].as_slice(), key) {
                return Some(self.slots[i]);
            }
        }
        None
    }

    fn insert(&mut self, key: &[u8], slot: usize)
        requires
            old(self).wf(),
        ensures
            final(self).wf(),
            final(self).map() == old(self).map().insert(key@, slot as int),
    {
        let text = copy_text(key);
        self.keys.push(text);
        self.slots.push(slot);
        proof {
            assert(self.key_views().drop_last() =~= old(self).key_views());
            assert(self.slots@.drop_last() =~= old(self).slots@);
        }
    }
}

/// Adds `more` seconds to `seconds`, stopping at the ends of the range.
fn add_seconds(seconds: i128, more: i128) -> (total: i128)
    ensures
        total == clamped_seconds(seconds + more),
{
    match seconds.checked_add(more) {
        Some(total) => total,
        None => if more > 0 {
            i128::MAX
        } else {
            i128::MIN
        },
    }
}

impl WorkByPerson {
    /// The person of whom `record` is the first record found.
    pub fn new(record: &WorkByEmail) -> (person: WorkByPerson)
        ensures
            person@ == record@,
    {
        WorkByPerson {
            name: copy_text(record.name.as_slice()),
            email: copy_text(record.email.as_slice()),
            seconds: record.seconds,
            num_commits: record.num_commits,
            files: record.files,
            lines: record.lines,
        }
    }

    /// Adds the contribution `record` to those of this person. Time and
    /// counters are summed up; the name and the email of the person stay.
    pub fn merge(&mut self, record: &WorkByEmail)
        ensures
            final(self)@ == merged(old(self)@, record@),
    {
        self.seconds = add_seconds(self.seconds, record.seconds);
        self.num_commits = self.num_commits.saturating_add(record.num_commits);
        self.files.add(&record.files);
        self.lines.add(&record.lines);
    }
}

/// Merges the contributions `persons`, one for each email address, into one
/// for each person, in the order in which the persons are first found.
pub fn deduplicate_identities(persons: &[WorkByEmail]) -> (out: Vec<WorkByPerson>)
    ensures
        person_views(out@) == deduplicated(views(persons@)),
{
    let mut email_to_index = TextIndex::new();
    let mut name_to_index = TextIndex::new();
    let mut out: Vec<WorkByPerson> = Vec::with_capacity(persons.len());
    let ghost records = views(persons@);
    let mut i: usize = 0;
    proof {
        assert(person_views(out@) =~= Seq::empty());
    }
    while i < persons.len()
        invariant
            i <= persons.len(),
            records == views(persons@),
            email_to_index.wf(),
            name_to_index.wf(),
            Groups::of(records.subrange(0, i as int)) == (Groups {
                people: person_views(out@),
                by_email: email_to_index.map(),
                by_name: name_to_index.map(),
            }),
        decreases persons.len() - i,
    {
        let record = &persons[i];
        proof {
            Groups::lemma_of_wf(records.subrange(0, i as int));
            assert(records.subrange(0, i + 1).drop_last() =~= records.subrange(0, i as int));
            assert(records.subrange(0, i + 1).last() == record@);
        }
        let ghost before = person_views(out@);
        let ghost groups = Groups::of(records.subrange(0, i as int));
        match email_to_index.get(record.email.as_slice()) {
            Some(at) => {
                assert(groups.by_email.contains_key(record.email@));
                assert(groups.by_email[record.email@] == at);
                assert(0 <= at < before.len());
                out[at].merge(record);
                name_to_index.insert(record.name.as_slice(), at);
                proof {
                    assert(person_views(out@) =~= before.update(
                        at as int,
                        merged(before[at as int], record@),
                    ));
                }
            },
            None => match name_to_index.get(record.name.as_slice()) {
                Some(at) => {
                    assert(groups.by_name.contains_key(record.name@));
                    assert(groups.by_name[record.name@] == at);
                    assert(0 <= at < before.len());
                    out[at].merge(record);
                    email_to_index.insert(record.email.as_slice(), at);
                    proof {
                        assert(person_views(out@) =~= before.update(
                            at as int,
                            merged(before[at as int], record@),
                        ));
                    }
                },
                None => {
                    let at: usize = out.len();
                    name_to_index.insert(record.name.as_slice(), at);
                    email_to_index.insert(record.email.as_slice(), at);
                    out.push(WorkByPerson::new(record));
                    proof {
                        assert(person_views(out@) =~= before.push(record@));
                    }
                },
            },
        }
        i += 1;
    }
    proof {
        assert(records.subrange(0, i as int) =~= records);
    }
    out
}

/// The sum of `counter` over `people`.
pub open spec fn total(people: Seq<WorkView>, counter: spec_fn(WorkView) -> int) -> int {
    people.fold_left(0int, adding(counter))
}

/// The step that adds `counter` of one more contribution to a sum.
pub open spec fn adding(counter: spec_fn(WorkView) -> int) -> spec_fn(int, WorkView) -> int {
    |sum: int, w: WorkView| sum + counter(w)
}

/// `counter` is never negative, and merging adds it up exactly as long as
/// the sum is at most `limit`.
pub open spec fn adds_up(counter: spec_fn(WorkView) -> int, limit: int) -> bool {
    &&& forall|w: WorkView| 0 <= #[trigger] counter(w)
    &&& forall|p: WorkView, r: WorkView|
        counter(p) + counter(r) <= limit ==> #[trigger] counter(merged(p, r)) == counter(p)
            + counter(r)
}

/// The seconds of a contribution.
pub open spec fn seconds_of() -> spec_fn(WorkView) -> int {
    |w: WorkView| w.seconds as int
}

/// The seconds of a contribution without their sign.
pub open spec fn seconds_apart() -> spec_fn(WorkView) -> int {
    |w: WorkView|
        if w.seconds < 0 {
            -w.seconds
        } else {
            w.seconds as int
        }
}

/// The number of commits and the counters of files and lines add up exactly
/// as long as their sums fit.
pub proof fn lemma_counters_add_up()
    ensures
        adds_up(|w: WorkView| w.num_commits as int, u32::MAX as int),
        adds_up(|w: WorkView| w.files.added as int, usize::MAX as int),
        adds_up(|w: WorkView| w.files.removed as int, usize::MAX as int),
        adds_up(|w: WorkView| w.files.modified as int, usize::MAX as int),
        adds_up(|w: WorkView| w.lines.added as int, usize::MAX as int),
        adds_up(|w: WorkView| w.lines.removed as int, usize::MAX as int),
{
}

proof fn lemma_total_push(people: Seq<WorkView>, one: WorkView, counter: spec_fn(WorkView) -> int)
    ensures
        total(people.push(one), counter) == total(people, counter) + counter(one),
{
    assert(people.push(one).drop_last() =~= people);
}

proof fn lemma_total_update(
    people: Seq<WorkView>,
    at: int,
    one: WorkView,
    counter: spec_fn(WorkView) -> int,
)
    requires
        0 <= at < people.len(),
    ensures
        total(people.update(at, one), counter) == total(people, counter) - counter(people[at])
            + counter(one),
    decreases people.len(),
{
    let changed = people.update(at, one);
    if at == people.len() - 1 {
        assert(changed.drop_last() =~= people.drop_last());
    } else {
        lemma_total_update(people.drop_last(), at, one, counter);
        assert(changed.drop_last() =~= people.drop_last().update(at, one));
    }
}

proof fn lemma_total_bounds(people: Seq<WorkView>, at: int, counter: spec_fn(WorkView) -> int)
    requires
        forall|w: WorkView| 0 <= #[trigger] counter(w),
    ensures
        0 <= total(people, counter),
        0 <= at < people.len() ==> counter(people[at]) <= total(people, counter),
    decreases people.len(),
{
    if people.len() > 0 {
        lemma_total_bounds(people.drop_last(), at, counter);
    }
}

/// Taking a record in adds its counter to the sum over all persons.
pub proof fn lemma_absorb_total(
    groups: Groups,
    record: WorkView,
    counter: spec_fn(WorkView) -> int,
    limit: int,
)
    requires
        groups.wf(),
        adds_up(counter, limit),
        total(groups.people, counter) + counter(record) <= limit,
    ensures
        total(groups.absorb(record).people, counter) == total(groups.people, counter) + counter(
            record,
        ),
{
    if groups.by_email.contains_key(record.email) {
        let at = groups.by_email[record.email];
        lemma_total_bounds(groups.people, at, counter);
        lemma_total_update(groups.people, at, merged(groups.people[at], record), counter);
    } else if groups.by_name.contains_key(record.name) {
        let at = groups.by_name[record.name];
        lemma_total_bounds(groups.people, at, counter);
        lemma_total_update(groups.people, at, merged(groups.people[at], record), counter);
    } else {
        lemma_total_push(groups.people, record, counter);
    }
}

/// Nothing is lost and nothing is counted twice: the sum of a counter over
/// the persons is its sum over the records, as long as that sum fits.
pub proof fn lemma_total_is_kept(
    records: Seq<WorkView>,
    counter: spec_fn(WorkView) -> int,
    limit: int,
)
    requires
        adds_up(counter, limit),
        total(records, counter) <= limit,
    ensures
        total(deduplicated(records), counter) == total(records, counter),
    decreases records.len(),
{
    if records.len() > 0 {
        lemma_total_bounds(records.drop_last(), 0, counter);
        lemma_total_is_kept(records.drop_last(), counter, limit);
        Groups::lemma_of_wf(records.drop_last());
        lemma_absorb_total(Groups::of(records.drop_last()), records.last(), counter, limit);
    }
}

/// The order of the records plays no part in the sums: the same records in
/// two orders give persons with the same sum of a counter, as long as that
/// sum fits. (Which records end up as one person does depend on the order.)
pub proof fn lemma_total_ignores_order(
    one: Seq<WorkView>,
    other: Seq<WorkView>,
    counter: spec_fn(WorkView) -> int,
    limit: int,
)
    requires
        one.to_multiset() == other.to_multiset(),
        adds_up(counter, limit),
        total(one, counter) <= limit,
    ensures
        total(deduplicated(one), counter) == total(deduplicated(other), counter),
{
    let step = adding(counter);
    assert(vstd::seq_lib::commutative_foldl(step));
    vstd::seq_lib::lemma_fold_left_permutation(one, other, step, 0int);
    lemma_total_is_kept(one, counter, limit);
    lemma_total_is_kept(other, counter, limit);
}

/// Taking a record in adds its seconds to the sum over all persons, as long
/// as the seconds of all, taken without their signs, fit together.
pub proof fn lemma_absorb_seconds(groups: Groups, record: WorkView)
    requires
        groups.wf(),
        total(groups.people, seconds_apart()) + seconds_apart()(record) <= i128::MAX,
    ensures
        total(groups.absorb(record).people, seconds_of()) == total(groups.people, seconds_of())
            + record.seconds,
        total(groups.absorb(record).people, seconds_apart()) <= total(
            groups.people,
            seconds_apart(),
        ) + seconds_apart()(record),
{
    let people = groups.people;
    if groups.by_email.contains_key(record.email) || groups.by_name.contains_key(record.name) {
        let at = if groups.by_email.contains_key(record.email) {
            groups.by_email[record.email]
        } else {
            groups.by_name[record.name]
        };
        let sum = merged(people[at], record);
        lemma_total_bounds(people, at, seconds_apart());
        lemma_total_update(people, at, sum, seconds_of());
        lemma_total_update(people, at, sum, seconds_apart());
    } else {
        lemma_total_push(people, record, seconds_of());
        lemma_total_push(people, record, seconds_apart());
    }
}

/// No time is lost and none is counted twice: the seconds of the persons
/// sum up to the seconds of the records, as long as the seconds of all
/// records, taken without their signs, fit together.
pub proof fn lemma_seconds_are_kept(records: Seq<WorkView>)
    requires
        total(records, seconds_apart()) <= i128::MAX,
    ensures
        total(deduplicated(records), seconds_of()) == total(records, seconds_of()),
        total(deduplicated(records), seconds_apart()) <= total(records, seconds_apart()),
    decreases records.len(),
{
    if records.len() > 0 {
        lemma_total_bounds(records.drop_last(), 0, seconds_apart());
        lemma_seconds_are_kept(records.drop_last());
        Groups::lemma_of_wf(records.drop_last());
        lemma_absorb_seconds(Groups::of(records.drop_last()), records.last());
    }
}

/// The order of the records plays no part in the time: the same records in
/// two orders give persons with the same sum of seconds, as long as the
/// seconds of all records, taken without their signs, fit together.
pub proof fn lemma_seconds_ignore_order(one: Seq<WorkView>, other: Seq<WorkView>)
    requires
        one.to_multiset() == other.to_multiset(),
        total(one, seconds_apart()) <= i128::MAX,
    ensures
        total(deduplicated(one), seconds_of()) == total(deduplicated(other), seconds_of()),
{
    let plain = adding(seconds_of());
    let apart = adding(seconds_apart());
    assert(vstd::seq_lib::commutative_foldl(plain));
    assert(vstd::seq_lib::commutative_foldl(apart));
    vstd::seq_lib::lemma_fold_left_permutation(one, other, plain, 0int);
    vstd::seq_lib::lemma_fold_left_permutation(one, other, apart, 0int);
    lemma_seconds_are_kept(one);
    lemma_seconds_are_kept(other);
}

/// Taking a record in leaves the persons found so far in their places, with
/// their names and emails.
pub proof fn lemma_absorb_keeps_identity(groups: Groups, record: WorkView)
    requires
        groups.wf(),
    ensures
        groups.absorb(record).people.len() == groups.people.len() || groups.absorb(record).people
            == groups.people.push(record),
        forall|i: int|
            0 <= i < groups.people.len() ==> {
                &&& (#[trigger] groups.absorb(record).people[i]).name == groups.people[i].name
                &&& groups.absorb(record).people[i].email == groups.people[i].email
            },
{
}

/// The persons come in the order in which they are first found: those found
/// among the first `upto` records keep their places, names and emails
/// whatever records follow.
pub proof fn lemma_first_found_stay(records: Seq<WorkView>, upto: int)
    requires
        0 <= upto <= records.len(),
    ensures
        deduplicated(records.subrange(0, upto)).len() <= deduplicated(records).len(),
        deduplicated(records).len() <= records.len(),
        forall|i: int|
            0 <= i < deduplicated(records.subrange(0, upto)).len() ==> {
                &&& (#[trigger] deduplicated(records)[i]).name == deduplicated(
                    records.subrange(0, upto),
                )[i].name
                &&& deduplicated(records)[i].email == deduplicated(records.subrange(0, upto))[i].email
            },
    decreases records.len(),
{
    if records.len() > 0 {
        let shorter = records.drop_last();
        Groups::lemma_of_wf(shorter);
        lemma_absorb_keeps_identity(Groups::of(shorter), records.last());
        if upto == records.len() {
            assert(records.subrange(0, upto) =~= records);
            lemma_first_found_stay(shorter, shorter.len() as int);
        } else {
            assert(records.subrange(0, upto) =~= shorter.subrange(0, upto));
            lemma_first_found_stay(shorter, upto);
        }
    } else {
        assert(records.subrange(0, upto) =~= records);
    }
}

/// The first record always starts the first person.
pub proof fn lemma_first_record_leads(records: Seq<WorkView>)
    requires
        records.len() > 0,
    ensures
        deduplicated(records).len() > 0,
        deduplicated(records)[0].name == records[0].name,
        deduplicated(records)[0].email == records[0].email,
{
    lemma_first_found_stay(records, 1);
    let first = records.subrange(0, 1);
    assert(first.drop_last() =~= Seq::<WorkView>::empty());
    assert(Groups::of(first.drop_last()) == Groups::start());
    assert(first.last() == records[0]);
}

} // verus!
