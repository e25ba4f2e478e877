//! The rules that give authors their canonical names and emails.
//!
//! A rule is found by the email of a signature, or by its email and its
//! name. It replaces the name, the email, or both.

use vstd::prelude::*;

use crate::text::{copy_text, folded};

verus! {


/// What a rule puts in place of the name and email of a signature.
#[derive(Debug, Clone, PartialEq, Eq)]
pub enum Replacement {
    /// A new name. The email becomes the one the rule is kept under.
    Name(Vec<u8>),
    /// A new email. The name stays.
    Email(Vec<u8>),
    /// A new name and a new email, in this order.
    NameAndEmail(Vec<u8>, Vec<u8>),
}

/// By what a rule is found.
#[derive(Debug, Clone, PartialEq, Eq)]
pub enum MatchKey {
    /// By the email of a signature.
    ByEmail(Vec<u8>),
    /// By the name and the email of a signature, in this order.
    ByNameAndEmail(Vec<u8>, Vec<u8>),
}

/// A rule: the signatures it is for, and what it replaces in them.
#[derive(Debug, Clone, PartialEq, Eq)]
pub struct Entry {
    /// The signatures that the rule is for.
    pub key: MatchKey,
    /// What the rule puts in place of their name and email.
    pub replacement: Replacement,
}

/// A replacement as a mathematical value.
pub ghost enum ReplacementView {
    /// A new name.
    Name(Seq<u8>),
    /// A new email.
    Email(Seq<u8>),
    /// A new name and a new email, in this order.
    NameAndEmail(Seq<u8>, Seq<u8>),
}

/// A match key as a mathematical value.
pub ghost enum MatchKeyView {
    /// The email of a signature.
    ByEmail(Seq<u8>),
    /// The name and the email of a signature, in this order.
    ByNameAndEmail(Seq<u8>, Seq<u8>),
}

/// A rule as a mathematical value.
pub ghost struct EntryView {
    /// The signatures that the rule is for.
    pub key: MatchKeyView,
    /// What the rule puts in place of their name and email.
    pub replacement: ReplacementView,
}

impl ReplacementView {
    /// The name that the rule gives, if it gives one.
    pub open spec fn name(self) -> Option<Seq<u8>> {
        match self {
            ReplacementView::Name(name) => Some(name),
            ReplacementView::Email(_) => None,
            ReplacementView::NameAndEmail(name, _) => Some(name),
        }
    }

    /// The email that the rule gives, if it gives one.
    pub open spec fn email(self) -> Option<Seq<u8>> {
        match self {
            ReplacementView::Name(_) => None,
            ReplacementView::Email(email) => Some(email),
            ReplacementView::NameAndEmail(_, email) => Some(email),
        }
    }
}

impl MatchKeyView {
    /// The email by which the rule is found.
    pub open spec fn email(self) -> Seq<u8> {
        match self {
            MatchKeyView::ByEmail(email) => email,
            MatchKeyView::ByNameAndEmail(_, email) => email,
        }
    }

    /// The name by which the rule is found, if it is found by a name.
    pub open spec fn name(self) -> Option<Seq<u8>> {
        match self {
            MatchKeyView::ByEmail(_) => None,
            MatchKeyView::ByNameAndEmail(name, _) => Some(name),
        }
    }

    /// Whether the rule is found by a name, and `name` matches it.
    pub open spec fn names(self, name: Seq<u8>) -> bool {
        match self {
            MatchKeyView::ByEmail(_) => false,
            MatchKeyView::ByNameAndEmail(n, _) => folded(name) == folded(n),
        }
    }
}

impl View for Replacement {
    type V = ReplacementView;

    open spec fn view(&self) -> ReplacementView {
        match self {
            Replacement::Name(name) => ReplacementView::Name(name@),
            Replacement::Email(email) => ReplacementView::Email(email@),
            Replacement::NameAndEmail(name, email) => ReplacementView::NameAndEmail(name@, email@),
        }
    }
}

impl View for MatchKey {
    type V = MatchKeyView;

    open spec fn view(&self) -> MatchKeyView {
        match self {
            MatchKey::ByEmail(email) => MatchKeyView::ByEmail(email@),
            MatchKey::ByNameAndEmail(name, email) => MatchKeyView::ByNameAndEmail(name@, email@),
        }
    }
}

impl View for Entry {
    type V = EntryView;

    open spec fn view(&self) -> EntryView {
        EntryView { key: self.key@, replacement: self.replacement@ }
    }
}

/// The rules `entries` as mathematical values.
pub open spec fn entry_views(entries: Seq<Entry>) -> Seq<EntryView> {
    entries.map_values(|e: Entry| e@)
}

impl Replacement {
    /// A replacement with the same texts.
    pub fn copy(&self) -> (same: Replacement)
        ensures
            same@ == self@,
    {
        match self {
            Replacement::Name(name) => Replacement::Name(copy_text(name.as_slice())),
            Replacement::Email(email) => Replacement::Email(copy_text(email.as_slice())),
            Replacement::NameAndEmail(name, email) => Replacement::NameAndEmail(
                copy_text(name.as_slice()),
                copy_text(email.as_slice()),
            ),
        }
    }
}

impl Entry {
    /// The name that the rule gives, if it gives one.
    pub fn new_name(&self) -> (name: Option<&[u8]>)
        ensures
            match name {
                Some(text) => self@.replacement.name() == Some(text@),
                None => self@.replacement.name() is None,
            },
    {
        match &self.replacement {
            Replacement::Name(name) => Some(name.as_slice()),
            Replacement::Email(_) => None,
            Replacement::NameAndEmail(name, _) => Some(name.as_slice()),
        }
    }

    /// The email that the rule gives, if it gives one.
    pub fn new_email(&self) -> (email: Option<&[u8]>)
        ensures
            match email {
                Some(text) => self@.replacement.email() == Some(text@),
                None => self@.replacement.email() is None,
            },
    {
        match &self.replacement {
            Replacement::Name(_) => None,
            Replacement::Email(email) => Some(email.as_slice()),
            Replacement::NameAndEmail(_, email) => Some(email.as_slice()),
        }
    }

    /// The name by which the rule is found, if it is found by a name.
    pub fn old_name(&self) -> (name: Option<&[u8]>)
        ensures
            match name {
                Some(text) => self@.key.name() == Some(text@),
                None => self@.key.name() is None,
            },
    {
        match &self.key {
            MatchKey::ByEmail(_) => None,
            MatchKey::ByNameAndEmail(name, _) => Some(name.as_slice()),
        }
    }

    /// The email by which the rule is found.
    pub fn old_email(&self) -> (email: &[u8])
        ensures
            email@ == self@.key.email(),
    {
        match &self.key {
            MatchKey::ByEmail(email) => email.as_slice(),
            MatchKey::ByNameAndEmail(_, email) => email.as_slice(),
        }
    }

    /// The rule that gives the name `proper_name` to the signatures with the
    /// email `commit_email`.
    pub fn change_name_by_email(proper_name: &[u8], commit_email: &[u8]) -> (entry: Entry)
        ensures
            entry@ == (EntryView {
                key: MatchKeyView::ByEmail(commit_email@),
                replacement: ReplacementView::Name(proper_name@),
            }),
    {
        Entry {
            key: MatchKey::ByEmail(copy_text(commit_email)),
            replacement: Replacement::Name(copy_text(proper_name)),
        }
    }

    /// The rule that gives the email `proper_email` to the signatures with
    /// the email `commit_email`.
    pub fn change_email_by_email(proper_email: &[u8], commit_email: &[u8]) -> (entry: Entry)
        ensures
            entry@ == (EntryView {
                key: MatchKeyView::ByEmail(commit_email@),
                replacement: ReplacementView::Email(proper_email@),
            }),
    {
        Entry {
            key: MatchKey::ByEmail(copy_text(commit_email)),
            replacement: Replacement::Email(copy_text(proper_email)),
        }
    }

    /// The rule that gives the name `proper_name` and the email
    /// `proper_email` to the signatures with the email `commit_email`.
    pub fn change_name_and_email_by_email(
        proper_name: &[u8],
        proper_email: &[u8],
        commit_email: &[u8],
    ) -> (entry: Entry)
        ensures
            entry@ == (EntryView {
                key: MatchKeyView::ByEmail(commit_email@),
                replacement: ReplacementView::NameAndEmail(proper_name@, proper_email@),
            }),
    {
        Entry {
            key: MatchKey::ByEmail(copy_text(commit_email)),
            replacement: Replacement::NameAndEmail(
                copy_text(proper_name),
                copy_text(proper_email),
            ),
        }
    }

    /// The rule that gives the name `proper_name` to the signatures with the
    /// name `commit_name` and the email `commit_email`.
    pub fn change_name_by_name_and_email(
        proper_name: &[u8],
        commit_name: &[u8],
        commit_email: &[u8],
    ) -> (entry: Entry)
        ensures
            entry@ == (EntryView {
                key: MatchKeyView::ByNameAndEmail(commit_name@, commit_email@),
                replacement: ReplacementView::Name(proper_name@),
            }),
    {
        Entry {
            key: MatchKey::ByNameAndEmail(copy_text(commit_name), copy_text(commit_email)),
            replacement: Replacement::Name(copy_text(proper_name)),
        }
    }

    /// The rule that gives the email `proper_email` to the signatures with
    /// the name `commit_name` and the email `commit_email`.
    pub fn change_email_by_name_and_email(
        proper_email: &[u8],
        commit_name: &[u8],
        commit_email: &[u8],
    ) -> (entry: Entry)
        ensures
            entry@ == (EntryView {
                key: MatchKeyView::ByNameAndEmail(commit_name@, commit_email@),
                replacement: ReplacementView::Email(proper_email@),
            }),
    {
        Entry {
            key: MatchKey::ByNameAndEmail(copy_text(commit_name), copy_text(commit_email)),
            replacement: Replacement::Email(copy_text(proper_email)),
        }
    }

    /// The rule that gives the name `proper_name` and the email
    /// `proper_email` to the signatures with the name `commit_name` and the
    /// email `commit_email`.
    pub fn change_name_and_email_by_name_and_email(
        proper_name: &[u8],
        proper_email: &[u8],
        commit_name: &[u8],
        commit_email: &[u8],
    ) -> (entry: Entry)
        ensures
            entry@ == (EntryView {
                key: MatchKeyView::ByNameAndEmail(commit_name@, commit_email@),
                replacement: ReplacementView::NameAndEmail(proper_name@, proper_email@),
            }),
    {
        Entry {
            key: MatchKey::ByNameAndEmail(copy_text(commit_name), copy_text(commit_email)),
            replacement: Replacement::NameAndEmail(
                copy_text(proper_name),
                copy_text(proper_email),
            ),
        }
    }
}

} // verus!
