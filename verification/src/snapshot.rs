//! The rule table as it is kept in memory.
//!
//! The emails that have rules are kept in the order of their keys, and so
//! are the names that have rules under one email, so that a rule is found
//! by two binary searches. What a table holds and what it makes of a
//! signature is said in terms of [`crate::table`].

use vstd::prelude::*;

use crate::keys::{lemma_insert_sorted, lemma_position_found, position, search, sorted, texts};
use crate::mailmap::{
    entry_views, Entry, EntryView, MatchKey, MatchKeyView, Replacement, ReplacementView,
};
use crate::signature::{Signature, SignatureView};
use crate::table::{
    applied, emails_of, inserted, listed, listed_bucket, listed_default, listed_names,
    merged_table, names_of, resolved, resolved_or_same, table_wf, BucketView, NameRuleView,
};
use crate::text::copy_text;

verus! {

/// The rules, email by email.
#[derive(Debug)]
struct Rules {
    /// The emails that have rules, in the order of their keys.
    emails: Vec<Vec<u8>>,
    /// For each email, the rule for the email alone.
    defaults: Vec<Option<Replacement>>,
    /// For each email, the names that have rules, in the order of their keys.
    names: Vec<Vec<Vec<u8>>>,
    /// For each email and each of its names, the rule.
    rules: Vec<Vec<Replacement>>,
}

/// The rule for an email alone as a mathematical value.
spec fn default_view(default: Option<Replacement>) -> Option<ReplacementView> {
    match default {
        Some(replacement) => Some(replacement@),
        None => None,
    }
}

/// The rules for the names of one email as mathematical values.
spec fn rules_view(names: Seq<Vec<u8>>, rules: Seq<Replacement>) -> Seq<NameRuleView> {
    Seq::new(names.len(), |j: int| NameRuleView { name: names[j]@, replacement: rules[j]@ })
}

impl View for Rules {
    type V = Seq<BucketView>;

    closed spec fn view(&self) -> Seq<BucketView> {
        Seq::new(
            self.emails@.len(),
            |i: int|
                BucketView {
                    email: self.emails@[i]@,
                    default: default_view(self.defaults@[i]),
                    by_name: rules_view(self.names@[i]@, self.rules@[i]@),
                },
        )
    }
}

impl Rules {
    /// The lists are of one length and in the order of their keys.
    spec fn wf(&self) -> bool {
        &&& self.defaults@.len() == self.emails@.len()
        &&& self.names@.len() == self.emails@.len()
        &&& self.rules@.len() == self.emails@.len()
        &&& forall|i: int|
            0 <= i < self.emails@.len() ==> (#[trigger] self.names@[i])@.len()
                == self.rules@[i]@.len()
        &&& table_wf(self@)
    }

    /// The keys of the model are the texts of the lists.
    proof fn lemma_keys(&self)
        requires
            self.names@.len() == self.emails@.len(),
        ensures
            emails_of(self@) == texts(self.emails@),
            forall|i: int|
                0 <= i < self.emails@.len() ==> #[trigger] names_of(self@[i]) == texts(
                    self.names@[i]@,
                ),
    {
        assert(emails_of(self@) =~= texts(self.emails@));
        assert forall|i: int| 0 <= i < self.emails@.len() implies #[trigger] names_of(self@[i])
            == texts(self.names@[i]@) by {
            assert(names_of(self@[i]) =~= texts(self.names@[i]@));
        }
    }

    /// No rules.
    fn empty() -> (table: Rules)
        ensures
            table.wf(),
            table@ == Seq::<BucketView>::empty(),
    {
        let table = Rules {
            emails: Vec::new(),
            defaults: Vec::new(),
            names: Vec::new(),
            rules: Vec::new(),
        };
        proof {
            assert(table@ =~= Seq::<BucketView>::empty());
            assert(emails_of(table@) =~= Seq::<Seq<u8>>::empty());
        }
        table
    }

    /// Takes the rule `entry` in, at the place that its key gives it.
    fn insert(&mut self, entry: &Entry)
        requires
            old(self).wf(),
        ensures
            final(self).wf(),
            final(self)@ == inserted(old(self)@, entry@),
    {
        proof {
            self.lemma_keys();
        }
        match &entry.key {
            MatchKey::ByEmail(email) => {
                let found = search(&self.emails, email.as_slice());
                if found.0 {
                    self.set_default(found.1, entry);
                } else {
                    self.put_bucket(found.1, entry);
                }
            },
            MatchKey::ByNameAndEmail(name, email) => {
                let found = search(&self.emails, email.as_slice());
                if found.0 {
                    self.put_name(found.1, entry);
                } else {
                    self.put_bucket(found.1, entry);
                }
            },
        }
    }

    /// Makes `entry` the rule for the email alone of the bucket at `at`.
    fn set_default(&mut self, at: usize, entry: &Entry)
        requires
            old(self).wf(),
            entry@.key is ByEmail,
            position(emails_of(old(self)@), entry@.key.email()) == Some(at as int),
        ensures
            final(self).wf(),
            final(self)@ == inserted(old(self)@, entry@),
    {
        proof {
            self.lemma_keys();
            lemma_position_found(emails_of(self@), entry@.key.email());
        }
        let replacement = entry.replacement.copy();
        self.defaults[at] = Some(replacement);
        proof {
            let before = old(self)@;
            let after = inserted(before, entry@);
            assert(self@ =~= after);
            assert(emails_of(self@) =~= emails_of(before));
            assert forall|i: int| 0 <= i < self@.len() implies sorted(
                #[trigger] names_of(self@[i]),
            ) by {
                assert(names_of(self@[i]) =~= names_of(before[i]));
            }
        }
    }

    /// Makes `entry` the rule for its name in the bucket at `at`.
    fn put_name(&mut self, at: usize, entry: &Entry)
        requires
            old(self).wf(),
            entry@.key is ByNameAndEmail,
            position(emails_of(old(self)@), entry@.key.email()) == Some(at as int),
        ensures
            final(self).wf(),
            final(self)@ == inserted(old(self)@, entry@),
    {
        proof {
            self.lemma_keys();
            lemma_position_found(emails_of(self@), entry@.key.email());
        }
        let ghost before = old(self)@;
        let ghost bucket = before[at as int];
        let ghost old_names = texts(old(self).names@[at as int]@);
        match &entry.key {
            MatchKey::ByEmail(_) => {},
            MatchKey::ByNameAndEmail(name, _) => {
                assert(names_of(bucket) == old_names);
                let found = search(&self.names[at], name.as_slice());
                let replacement = entry.replacement.copy();
                if found.0 {
                    self.rules[at][found.1] = replacement;
                    proof {
                        lemma_position_found(old_names, name@);
                        let rule = NameRuleView {
                            name: bucket.by_name[found.1 as int].name,
                            replacement: entry@.replacement,
                        };
                        assert(self@[at as int].by_name =~= bucket.by_name.update(
                            found.1 as int,
                            rule,
                        ));
                        assert(self@ =~= inserted(before, entry@));
                        assert(emails_of(self@) =~= emails_of(before));
                        assert forall|i: int| 0 <= i < self@.len() implies sorted(
                            #[trigger] names_of(self@[i]),
                        ) by {
                            assert(names_of(self@[i]) =~= names_of(before[i]));
                        }
                    }
                } else {
                    let text = copy_text(name.as_slice());
                    self.names[at].insert(found.1, text);
                    self.rules[at].insert(found.1, replacement);
                    proof {
                        let rule = NameRuleView { name: name@, replacement: entry@.replacement };
                        assert(self@[at as int].by_name =~= bucket.by_name.insert(
                            found.1 as int,
                            rule,
                        ));
                        assert(self@ =~= inserted(before, entry@));
                        assert(emails_of(self@) =~= emails_of(before));
                        lemma_insert_sorted(old_names, name@, found.1 as int);
                        assert forall|i: int| 0 <= i < self@.len() implies sorted(
                            #[trigger] names_of(self@[i]),
                        ) by {
                            if i == at {
                                assert(names_of(self@[i]) =~= old_names.insert(
                                    found.1 as int,
                                    name@,
                                ));
                            } else {
                                assert(names_of(self@[i]) =~= names_of(before[i]));
                            }
                        }
                    }
                }
            },
        }
    }

    /// Puts a bucket that holds `entry` alone in at `at`.
    fn put_bucket(&mut self, at: usize, entry: &Entry)
        requires
            old(self).wf(),
            position(emails_of(old(self)@), entry@.key.email()) == None::<int>,
            at == crate::keys::slot(emails_of(old(self)@), entry@.key.email()),
            crate::keys::splits(emails_of(old(self)@), entry@.key.email(), at as int),
        ensures
            final(self).wf(),
            final(self)@ == inserted(old(self)@, entry@),
    {
        let ghost before = old(self)@;
        let replacement = entry.replacement.copy();
        match &entry.key {
            MatchKey::ByEmail(email) => {
                self.emails.insert(at, copy_text(email.as_slice()));
                self.defaults.insert(at, Some(replacement));
                self.names.insert(at, Vec::new());
                self.rules.insert(at, Vec::new());
                proof {
                    assert(self@[at as int].by_name =~= Seq::<NameRuleView>::empty());
                }
            },
            MatchKey::ByNameAndEmail(name, email) => {
                self.emails.insert(at, copy_text(email.as_slice()));
                self.defaults.insert(at, None);
                let mut names: Vec<Vec<u8>> = Vec::new();
                names.push(copy_text(name.as_slice()));
                let mut rules: Vec<Replacement> = Vec::new();
                rules.push(replacement);
                self.names.insert(at, names);
                self.rules.insert(at, rules);
                proof {
                    let rule = NameRuleView { name: name@, replacement: entry@.replacement };
                    assert(self@[at as int].by_name =~= seq![rule]);
                }
            },
        }
        proof {
            assert(self@ =~= inserted(before, entry@));
            assert(emails_of(self@) =~= emails_of(before).insert(at as int, entry@.key.email()));
            lemma_insert_sorted(emails_of(before), entry@.key.email(), at as int);
            assert forall|i: int| 0 <= i < self@.len() implies sorted(
                #[trigger] names_of(self@[i]),
            ) by {
                if i < at {
                    assert(names_of(self@[i]) =~= names_of(before[i]));
                } else if i > at {
                    assert(names_of(self@[i]) =~= names_of(before[i - 1]));
                }
            }
        }
    }

    /// Finds the rule for `signature` by two searches and applies it.
    fn try_resolve(&self, signature: &Signature) -> (canonical: Option<Signature>)
        requires
            self.wf(),
        ensures
            match canonical {
                Some(found) => resolved(self@, signature@) == Some(found@),
                None => resolved(self@, signature@) == None::<SignatureView>,
            },
    {
        proof {
            self.lemma_keys();
        }
        let bucket = search(&self.emails, signature.email.as_slice());
        if !bucket.0 {
            return None;
        }
        let at: usize = bucket.1;
        proof {
            lemma_position_found(emails_of(self@), signature@.email);
        }
        let rule = search(&self.names[at], signature.name.as_slice());
        if rule.0 {
            proof {
                lemma_position_found(names_of(self@[at as int]), signature@.name);
            }
            Some(apply(&self.rules[at][rule.1], self.emails[at].as_slice(), signature))
        } else {
            match &self.defaults[at] {
                Some(replacement) => Some(apply(replacement, self.emails[at].as_slice(), signature)),
                None => None,
            }
        }
    }

    /// Lists the rules, bucket after bucket.
    fn entries(&self) -> (all: Vec<Entry>)
        requires
            self.wf(),
        ensures
            entry_views(all@) == listed(self@),
    {
        let mut all: Vec<Entry> = Vec::new();
        let mut i: usize = 0;
        proof {
            assert(entry_views(all@) =~= Seq::<EntryView>::empty());
            assert(self@.subrange(0, 0) =~= Seq::<BucketView>::empty());
        }
        while i < self.emails.len()
            invariant
                i <= self.emails.len(),
                self.wf(),
                entry_views(all@) == listed(self@.subrange(0, i as int)),
            decreases self.emails.len() - i,
        {
            let ghost bucket = self@[i as int];
            let ghost done = entry_views(all@);
            proof {
                assert(self@.subrange(0, i + 1).drop_last() =~= self@.subrange(0, i as int));
                assert(self@.subrange(0, i + 1).last() == bucket);
            }
            match &self.defaults[i] {
                Some(replacement) => {
                    all.push(
                        Entry {
                            key: MatchKey::ByEmail(copy_text(self.emails[i].as_slice())),
                            replacement: replacement.copy(),
                        },
                    );
                },
                None => {},
            }
            proof {
                assert(entry_views(all@) =~= done + listed_default(bucket));
                assert(listed_names(bucket, 0) =~= Seq::<EntryView>::empty());
            }
            let mut j: usize = 0;
            while j < self.names[i as usize].len()
                invariant
                    i < self.emails.len(),
                    j <= self.names@[i as int]@.len(),
                    self.wf(),
                    bucket == self@[i as int],
                    entry_views(all@) == done + listed_default(bucket) + listed_names(
                        bucket,
                        j as int,
                    ),
                decreases self.names@[i as int]@.len() - j,
            {
                let ghost so_far = entry_views(all@);
                all.push(
                    Entry {
                        key: MatchKey::ByNameAndEmail(
                            copy_text(self.names[i][j].as_slice()),
                            copy_text(self.emails[i].as_slice()),
                        ),
                        replacement: self.rules[i][j].copy(),
                    },
                );
                proof {
                    assert(listed_names(bucket, j + 1) =~= listed_names(bucket, j as int).push(
                        EntryView {
                            key: MatchKeyView::ByNameAndEmail(
                                bucket.by_name[j as int].name,
                                bucket.email,
                            ),
                            replacement: bucket.by_name[j as int].replacement,
                        },
                    ));
                    assert(entry_views(all@) =~= so_far.push(all@[all@.len() - 1]@));
                    assert(entry_views(all@) =~= done + listed_default(bucket) + listed_names(
                        bucket,
                        j + 1,
                    ));
                }
                j += 1;
            }
            proof {
                assert(done + listed_default(bucket) + listed_names(bucket, j as int) =~= done
                    + listed_bucket(bucket));
            }
            i += 1;
        }
        proof {
            assert(self@.subrange(0, i as int) =~= self@);
        }
        all
    }
}

/// The signature `signature` with `replacement` applied.
fn apply(replacement: &Replacement, canonical: &[u8], signature: &Signature) -> (out: Signature)
    ensures
        out@ == applied(replacement@, canonical@, signature@),
{
    match replacement {
        Replacement::Name(name) => Signature {
            name: copy_text(name.as_slice()),
            email: copy_text(canonical),
            time: signature.time,
        },
        Replacement::Email(email) => Signature {
            name: copy_text(signature.name.as_slice()),
            email: copy_text(email.as_slice()),
            time: signature.time,
        },
        Replacement::NameAndEmail(name, email) => Signature {
            name: copy_text(name.as_slice()),
            email: copy_text(email.as_slice()),
            time: signature.time,
        },
    }
}

/// A table of rules, ready for looking signatures up.
#[derive(Debug)]
pub struct Snapshot {
    table: Rules,
}

impl View for Snapshot {
    type V = Seq<BucketView>;

    closed spec fn view(&self) -> Seq<BucketView> {
        self.table@
    }
}

impl Snapshot {
    #[verifier::type_invariant]
    spec fn in_order(self) -> bool {
        self.table.wf()
    }

    /// A table without rules.
    pub fn empty() -> (table: Snapshot)
        ensures
            table@ == Seq::<BucketView>::empty(),
            table_wf(table@),
    {
        Snapshot { table: Rules::empty() }
    }

    /// The table of the rules `entries`, taken in one after the other.
    pub fn new(entries: Vec<Entry>) -> (table: Snapshot)
        ensures
            table@ == merged_table(Seq::empty(), entry_views(entries@)),
            table_wf(table@),
    {
        let mut table = Snapshot::empty();
        table.merge(entries);
        table
    }

    /// Takes the rules `entries` in, one after the other. A rule takes the
    /// place of the rule that the table has for the same key.
    pub fn merge(&mut self, entries: Vec<Entry>)
        ensures
            final(self)@ == merged_table(old(self)@, entry_views(entries@)),
            table_wf(final(self)@),
    {
        proof {
            use_type_invariant(&*self);
        }
        let ghost all = entry_views(entries@);
        let mut i: usize = 0;
        while i < entries.len()
            invariant
                i <= entries.len(),
                all == entry_views(entries@),
                table_wf(self@),
                self@ == merged_table(old(self)@, all.subrange(0, i as int)),
            decreases entries.len() - i,
        {
            proof {
                assert(all.subrange(0, i + 1).drop_last() =~= all.subrange(0, i as int));
                assert(all.subrange(0, i + 1).last() == entries@[i as int]@);
            }
            self.insert(&entries[i]);
            i += 1;
        }
        proof {
            assert(all.subrange(0, i as int) =~= all);
        }
    }

    /// Takes the rule `entry` in. It takes the place of the rule that the
    /// table has for the same key; the key keeps the spelling it has.
    pub fn insert(&mut self, entry: &Entry)
        ensures
            final(self)@ == inserted(old(self)@, entry@),
            table_wf(final(self)@),
    {
        proof {
            use_type_invariant(&*self);
        }
        let mut table = Rules::empty();
        std::mem::swap(&mut table, &mut self.table);
        table.insert(entry);
        self.table = table;
    }

    /// Applies the rule that the table has for `signature`, if it has one.
    ///
    /// The rule is found by the email and the name of the signature without
    /// regard to the case of ASCII letters. A name that the rule does not
    /// replace stays as the signature spells it. An email that the rule does
    /// not replace becomes the email as the table spells it.
    pub fn try_resolve(&self, signature: &Signature) -> (canonical: Option<Signature>)
        ensures
            match canonical {
                Some(found) => resolved(self@, signature@) == Some(found@),
                None => resolved(self@, signature@) == None::<SignatureView>,
            },
            table_wf(self@),
    {
        proof {
            use_type_invariant(self);
        }
        self.table.try_resolve(signature)
    }

    /// Applies the rule that the table has for `signature`; where it has
    /// none, the result is a copy of `signature`.
    pub fn resolve(&self, signature: &Signature) -> (canonical: Signature)
        ensures
            canonical@ == resolved_or_same(self@, signature@),
            table_wf(self@),
    {
        match self.try_resolve(signature) {
            Some(found) => found,
            None => Signature {
                name: copy_text(signature.name.as_slice()),
                email: copy_text(signature.email.as_slice()),
                time: signature.time,
            },
        }
    }

    /// The rules of the table: email after email in the order of their keys,
    /// and for each email the rule for the email alone first, then the rules
    /// for a name in the order of the names' keys.
    pub fn entries(&self) -> (all: Vec<Entry>)
        ensures
            entry_views(all@) == listed(self@),
            table_wf(self@),
    {
        proof {
            use_type_invariant(self);
        }
        self.table.entries()
    }
}

impl Default for Snapshot {
    fn default() -> (table: Snapshot)
        ensures
            table@ == Seq::<BucketView>::empty(),
            table_wf(table@),
    {
        Snapshot::empty()
    }
}

} // verus!
