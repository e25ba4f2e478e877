//! The rule table as a mathematical value, and what holds of it.
//!
//! A table is a list of buckets, one for each email that has rules, in the
//! order of the emails. A bucket holds the rule for its email alone, if
//! there is one, and the rules for its email and a name, in the order of
//! the names. Texts match without regard to the case of ASCII letters.
//! Where a rule for the email and the name and a rule for the email alone
//! both match a signature, the first one is applied. A later rule for a key
//! takes the place of an earlier rule for the same key.

use vstd::prelude::*;

use crate::keys::{
    lemma_position_after_insert, lemma_position_by_key, lemma_position_found,
    lemma_slot_after_insert, lemma_slot_splits, position, slot, sorted,
};
use crate::mailmap::{EntryView, MatchKeyView, ReplacementView};
use crate::signature::SignatureView;
use crate::text::{folded, lemma_precedes_asymmetric, lemma_precedes_total, precedes};

verus! {

/// The rule for one name among the rules of one email.
pub ghost struct NameRuleView {
    /// The name, as the first rule for it spelled it.
    pub name: Seq<u8>,
    /// What the rule puts in place of name and email.
    pub replacement: ReplacementView,
}

/// The rules of one email.
pub ghost struct BucketView {
    /// The email, as the first rule for it spelled it.
    pub email: Seq<u8>,
    /// The rule for signatures with this email whatever their name, if there
    /// is one.
    pub default: Option<ReplacementView>,
    /// The rules for signatures with this email and a certain name, in the
    /// order of the names.
    pub by_name: Seq<NameRuleView>,
}

/// The emails of the buckets of `table`.
pub open spec fn emails_of(table: Seq<BucketView>) -> Seq<Seq<u8>> {
    table.map_values(|b: BucketView| b.email)
}

/// The names that `bucket` has rules for.
pub open spec fn names_of(bucket: BucketView) -> Seq<Seq<u8>> {
    bucket.by_name.map_values(|r: NameRuleView| r.name)
}

/// The buckets of `table` are in the order of their emails, and the rules of
/// each bucket in the order of their names.
pub open spec fn table_wf(table: Seq<BucketView>) -> bool {
    &&& sorted(emails_of(table))
    &&& forall|i: int| 0 <= i < table.len() ==> sorted(#[trigger] names_of(table[i]))
}

/// The signature `signature` with `replacement` applied. `canonical` is the
/// email that the rule is kept under.
pub open spec fn applied(
    replacement: ReplacementView,
    canonical: Seq<u8>,
    signature: SignatureView,
) -> SignatureView {
    SignatureView {
        name: match replacement.name() {
            Some(name) => name,
            None => signature.name,
        },
        email: match replacement.email() {
            Some(email) => email,
            None => canonical,
        },
        time: signature.time,
    }
}

/// The rule of `bucket` that is for a signature with `name`, with the email
/// of the bucket: the rule for the name if there is one, else the rule for
/// the email alone.
pub open spec fn rule_for(bucket: BucketView, name: Seq<u8>) -> Option<(ReplacementView, Seq<u8>)> {
    match position(names_of(bucket), name) {
        Some(j) => Some((bucket.by_name[j].replacement, bucket.email)),
        None => match bucket.default {
            Some(replacement) => Some((replacement, bucket.email)),
            None => None,
        },
    }
}

/// The rule of `table` that is for a signature with `name` and `email`, with
/// the email that the rule is kept under: the rule for the email and the
/// name if there is one, else the rule for the email alone.
pub open spec fn matching(table: Seq<BucketView>, name: Seq<u8>, email: Seq<u8>) -> Option<
    (ReplacementView, Seq<u8>),
> {
    match position(emails_of(table), email) {
        None => None,
        Some(i) => rule_for(table[i], name),
    }
}

/// What `table` makes of `signature`, if it has a rule for it.
pub open spec fn resolved(table: Seq<BucketView>, signature: SignatureView) -> Option<
    SignatureView,
> {
    match matching(table, signature.name, signature.email) {
        Some(rule) => Some(applied(rule.0, rule.1, signature)),
        None => None,
    }
}

/// What `table` makes of `signature`: the signature itself where the table
/// has no rule for it.
pub open spec fn resolved_or_same(table: Seq<BucketView>, signature: SignatureView) -> SignatureView {
    match resolved(table, signature) {
        Some(canonical) => canonical,
        None => signature,
    }
}

/// The bucket `bucket` with `entry` taken in.
pub open spec fn with_rule(bucket: BucketView, entry: EntryView) -> BucketView {
    match entry.key {
        MatchKeyView::ByEmail(_) => BucketView { default: Some(entry.replacement), ..bucket },
        MatchKeyView::ByNameAndEmail(name, _) => match position(names_of(bucket), name) {
            Some(j) => BucketView {
                by_name: bucket.by_name.update(
                    j,
                    NameRuleView { name: bucket.by_name[j].name, replacement: entry.replacement },
                ),
                ..bucket
            },
            None => BucketView {
                by_name: bucket.by_name.insert(
                    slot(names_of(bucket), name),
                    NameRuleView { name, replacement: entry.replacement },
                ),
                ..bucket
            },
        },
    }
}

/// The bucket that holds `entry` and nothing else.
pub open spec fn fresh(entry: EntryView) -> BucketView {
    match entry.key {
        MatchKeyView::ByEmail(email) => BucketView {
            email,
            default: Some(entry.replacement),
            by_name: Seq::empty(),
        },
        MatchKeyView::ByNameAndEmail(name, email) => BucketView {
            email,
            default: None,
            by_name: seq![NameRuleView { name, replacement: entry.replacement }],
        },
    }
}

/// The table `table` with `entry` taken in: in place of the rule with the
/// same key if there is one, at its place in the order if there is none.
pub open spec fn inserted(table: Seq<BucketView>, entry: EntryView) -> Seq<BucketView> {
    match position(emails_of(table), entry.key.email()) {
        Some(i) => table.update(i, with_rule(table[i], entry)),
        None => table.insert(slot(emails_of(table), entry.key.email()), fresh(entry)),
    }
}

/// The table `table` with all of `entries` taken in, in their order.
pub open spec fn merged_table(table: Seq<BucketView>, entries: Seq<EntryView>) -> Seq<BucketView>
    decreases entries.len(),
{
    if entries.len() == 0 {
        table
    } else {
        inserted(merged_table(table, entries.drop_last()), entries.last())
    }
}

/// The rules of `bucket` for a name, up to the one at position `upto`.
pub open spec fn listed_names(bucket: BucketView, upto: int) -> Seq<EntryView> {
    Seq::new(
        upto as nat,
        |j: int|
            EntryView {
                key: MatchKeyView::ByNameAndEmail(bucket.by_name[j].name, bucket.email),
                replacement: bucket.by_name[j].replacement,
            },
    )
}

/// The rule of `bucket` for the email alone, if there is one.
pub open spec fn listed_default(bucket: BucketView) -> Seq<EntryView> {
    match bucket.default {
        Some(replacement) => seq![
            EntryView { key: MatchKeyView::ByEmail(bucket.email), replacement },
        ],
        None => Seq::empty(),
    }
}

/// The rules of `bucket`: the one for the email alone first, then those for
/// a name in the order of the names.
pub open spec fn listed_bucket(bucket: BucketView) -> Seq<EntryView> {
    listed_default(bucket) + listed_names(bucket, bucket.by_name.len() as int)
}

/// The rules of `table`, bucket after bucket.
pub open spec fn listed(table: Seq<BucketView>) -> Seq<EntryView>
    decreases table.len(),
{
    if table.len() == 0 {
        Seq::empty()
    } else {
        listed(table.drop_last()) + listed_bucket(table.last())
    }
}

/// The email under which `table` keeps the rules for `email`, once it has
/// some: the email of the bucket that is there, or `email` itself.
pub open spec fn kept_under(table: Seq<BucketView>, email: Seq<u8>) -> Seq<u8> {
    match position(emails_of(table), email) {
        Some(i) => table[i].email,
        None => email,
    }
}

/// Whether `table` has a rule for signatures with `name` and `email` that
/// is found by both.
pub open spec fn has_name_rule(table: Seq<BucketView>, name: Seq<u8>, email: Seq<u8>) -> bool {
    match position(emails_of(table), email) {
        Some(i) => position(names_of(table[i]), name) is Some,
        None => false,
    }
}

/// Whether `entry` is for signatures with `name` and `email`.
pub open spec fn entry_matches(entry: EntryView, name: Seq<u8>, email: Seq<u8>) -> bool {
    &&& folded(email) == folded(entry.key.email())
    &&& match entry.key.name() {
        Some(n) => folded(name) == folded(n),
        None => true,
    }
}

/// What a bucket makes of a name once it has taken a rule in.
///
/// A rule for a name is then found for every spelling of that name, and
/// changes nothing for other names. A rule for the email alone is found
/// for the names that have no rule of their own.
pub proof fn lemma_with_rule(bucket: BucketView, entry: EntryView, name: Seq<u8>)
    requires
        sorted(names_of(bucket)),
    ensures
        with_rule(bucket, entry).email == bucket.email,
        sorted(names_of(with_rule(bucket, entry))),
        position(names_of(with_rule(bucket, entry)), name) is Some <==> (position(
            names_of(bucket),
            name,
        ) is Some || entry.key.names(name)),
        rule_for(with_rule(bucket, entry), name) == match entry.key {
            MatchKeyView::ByEmail(_) => if position(names_of(bucket), name) is Some {
                rule_for(bucket, name)
            } else {
                Some((entry.replacement, bucket.email))
            },
            MatchKeyView::ByNameAndEmail(n, _) => if folded(name) == folded(n) {
                Some((entry.replacement, bucket.email))
            } else {
                rule_for(bucket, name)
            },
        },
{
    let names = names_of(bucket);
    let after = with_rule(bucket, entry);
    match entry.key {
        MatchKeyView::ByEmail(_) => {
            assert(names_of(after) =~= names);
        },
        MatchKeyView::ByNameAndEmail(n, _) => {
            lemma_position_found(names, n);
            lemma_position_found(names, name);
            match position(names, n) {
                Some(j) => {
                    assert(names_of(after) =~= names);
                    if folded(name) == folded(n) {
                        lemma_position_by_key(names, name, n);
                    }
                },
                None => {
                    let at = slot(names, n);
                    lemma_slot_splits(names, n);
                    assert(names_of(after) =~= names.insert(at, n));
                    lemma_position_after_insert(names, n, at, name);
                },
            }
        },
    }
}

/// What a bucket with a single rule makes of a name.
pub proof fn lemma_fresh(entry: EntryView, name: Seq<u8>)
    ensures
        fresh(entry).email == entry.key.email(),
        sorted(names_of(fresh(entry))),
        position(names_of(fresh(entry)), name) is Some <==> entry.key.names(name),
        rule_for(fresh(entry), name) == match entry.key {
            MatchKeyView::ByEmail(email) => Some((entry.replacement, email)),
            MatchKeyView::ByNameAndEmail(n, email) => if folded(name) == folded(n) {
                Some((entry.replacement, email))
            } else {
                None
            },
        },
{
    match entry.key {
        MatchKeyView::ByEmail(_) => {
            assert(names_of(fresh(entry)) =~= Seq::<Seq<u8>>::empty());
        },
        MatchKeyView::ByNameAndEmail(n, _) => {
            let names = names_of(fresh(entry));
            assert(names =~= seq![n]);
            assert(names.drop_first() =~= Seq::<Seq<u8>>::empty());
            assert(position(names.drop_first(), name) == None::<int>);
        },
    }
}

/// What a table makes of a name and an email once it has taken a rule in.
///
/// The table stays in order. A rule for a name and an email is found for
/// every spelling of the two, whatever the table held before. A rule for
/// an email alone is found for every spelling of the email, unless the
/// table has a rule for the name under that email. For all other names and
/// emails the table finds what it found before.
pub proof fn lemma_inserted(table: Seq<BucketView>, entry: EntryView, name: Seq<u8>, email: Seq<u8>)
    requires
        table_wf(table),
    ensures
        table_wf(inserted(table, entry)),
        has_name_rule(inserted(table, entry), name, email) <==> (has_name_rule(table, name, email)
            || (entry.key is ByNameAndEmail && entry_matches(entry, name, email))),
        matching(inserted(table, entry), name, email) == if entry.key is ByNameAndEmail
            && entry_matches(entry, name, email) {
            Some((entry.replacement, kept_under(table, entry.key.email())))
        } else if entry.key is ByEmail && entry_matches(entry, name, email) && !has_name_rule(
            table,
            name,
            email,
        ) {
            Some((entry.replacement, kept_under(table, entry.key.email())))
        } else {
            matching(table, name, email)
        },
{
    let emails = emails_of(table);
    let key = entry.key.email();
    let after = inserted(table, entry);
    lemma_position_found(emails, key);
    lemma_position_found(emails, email);
    match position(emails, key) {
        Some(i) => {
            lemma_with_rule(table[i], entry, name);
            assert(emails_of(after) =~= emails);
            assert forall|k: int| 0 <= k < after.len() implies sorted(
                #[trigger] names_of(after[k]),
            ) by {
                if k != i {
                    assert(after[k] == table[k]);
                }
            }
            if folded(email) == folded(key) {
                lemma_position_by_key(emails, email, key);
            }
        },
        None => {
            let at = slot(emails, key);
            lemma_slot_splits(emails, key);
            lemma_fresh(entry, name);
            assert(emails_of(after) =~= emails.insert(at, key));
            lemma_position_after_insert(emails, key, at, email);
            assert forall|k: int| 0 <= k < after.len() implies sorted(
                #[trigger] names_of(after[k]),
            ) by {
                if k < at {
                    assert(after[k] == table[k]);
                } else if k > at {
                    assert(after[k] == table[k - 1]);
                }
            }
            if folded(email) == folded(key) {
                lemma_position_by_key(emails, email, key);
            }
        },
    }
}

/// Taking rules in keeps a table in order.
pub proof fn lemma_merged_table_wf(table: Seq<BucketView>, entries: Seq<EntryView>)
    requires
        table_wf(table),
    ensures
        table_wf(merged_table(table, entries)),
    decreases entries.len(),
{
    if entries.len() > 0 {
        lemma_merged_table_wf(table, entries.drop_last());
        lemma_inserted(
            merged_table(table, entries.drop_last()),
            entries.last(),
            Seq::empty(),
            Seq::empty(),
        );
    }
}

/// A signature always resolves: to what the table makes of it where the
/// table has a rule for it, and to itself where the table has none.
pub proof fn lemma_resolve_falls_back(table: Seq<BucketView>, signature: SignatureView)
    ensures
        match resolved(table, signature) {
            Some(canonical) => resolved_or_same(table, signature) == canonical,
            None => resolved_or_same(table, signature) == signature,
        },
{
}

/// The rule taken in last is the one applied: once a table has taken
/// `entry` in, it applies `entry` to every signature that `entry` is for,
/// whatever rule it held for that key before. Only a rule for a name and an
/// email stands in the way of a rule for the email alone.
pub proof fn lemma_last_rule_wins(
    table: Seq<BucketView>,
    entry: EntryView,
    signature: SignatureView,
)
    requires
        table_wf(table),
        entry_matches(entry, signature.name, signature.email),
        entry.key is ByEmail ==> !has_name_rule(table, signature.name, signature.email),
    ensures
        resolved(inserted(table, entry), signature) == Some(
            applied(entry.replacement, kept_under(table, entry.key.email()), signature),
        ),
{
    lemma_inserted(table, entry, signature.name, signature.email);
}

/// A rule for a name and an email goes before a rule for the email alone:
/// where a table has taken in one of each for the same email, in either
/// order, a signature that both are for is resolved by the first.
pub proof fn lemma_name_rule_goes_first(
    table: Seq<BucketView>,
    by_email: EntryView,
    by_name: EntryView,
    signature: SignatureView,
)
    requires
        table_wf(table),
        by_email.key is ByEmail,
        by_name.key is ByNameAndEmail,
        entry_matches(by_email, signature.name, signature.email),
        entry_matches(by_name, signature.name, signature.email),
    ensures
        resolved(inserted(inserted(table, by_email), by_name), signature) == Some(
            applied(
                by_name.replacement,
                kept_under(table, by_email.key.email()),
                signature,
            ),
        ),
        resolved(inserted(inserted(table, by_name), by_email), signature) == Some(
            applied(by_name.replacement, kept_under(table, by_name.key.email()), signature),
        ),
{
    let name = signature.name;
    let email = signature.email;
    let first = inserted(table, by_email);
    lemma_inserted(table, by_email, name, email);
    lemma_inserted(first, by_name, name, email);
    lemma_kept_under_stays(table, by_email, by_name.key.email());
    lemma_position_by_key(emails_of(table), by_email.key.email(), by_name.key.email());
    assert(kept_under(first, by_name.key.email()) == kept_under(table, by_email.key.email())) by {
        lemma_position_found(emails_of(table), by_email.key.email());
        lemma_position_found(emails_of(table), by_name.key.email());
    }
    let second = inserted(table, by_name);
    lemma_inserted(table, by_name, name, email);
    lemma_inserted(second, by_email, name, email);
}

/// The spelling under which a table keeps an email does not change when
/// the table takes a rule in; the email of the rule is kept as the rule
/// spells it if the table had no rule for it.
pub proof fn lemma_kept_under_stays(table: Seq<BucketView>, entry: EntryView, email: Seq<u8>)
    requires
        table_wf(table),
    ensures
        kept_under(inserted(table, entry), email) == if folded(email) == folded(entry.key.email()) {
            kept_under(table, entry.key.email())
        } else {
            kept_under(table, email)
        },
{
    let emails = emails_of(table);
    let key = entry.key.email();
    let after = inserted(table, entry);
    lemma_position_found(emails, key);
    lemma_position_found(emails, email);
    match position(emails, key) {
        Some(i) => {
            lemma_with_rule(table[i], entry, Seq::empty());
            assert(emails_of(after) =~= emails);
            if folded(email) == folded(key) {
                lemma_position_by_key(emails, email, key);
            }
        },
        None => {
            let at = slot(emails, key);
            lemma_slot_splits(emails, key);
            lemma_fresh(entry, Seq::empty());
            assert(emails_of(after) =~= emails.insert(at, key));
            lemma_position_after_insert(emails, key, at, email);
            if folded(email) == folded(key) {
                lemma_position_by_key(emails, email, key);
            }
        },
    }
}

/// The case of ASCII letters plays no part in finding a rule: two
/// signatures whose names match and whose emails match get the same rule.
/// What the rule does not replace stays as each signature spells it: the
/// name of the result is the name that the rule gives or, where it gives
/// none, the name of the signature itself.
pub proof fn lemma_case_is_ignored(table: Seq<BucketView>, a: SignatureView, b: SignatureView)
    requires
        folded(a.name) == folded(b.name),
        folded(a.email) == folded(b.email),
    ensures
        matching(table, a.name, a.email) == matching(table, b.name, b.email),
        match matching(table, a.name, a.email) {
            Some(rule) => {
                &&& resolved(table, a) == Some(applied(rule.0, rule.1, a))
                &&& resolved(table, b) == Some(applied(rule.0, rule.1, b))
                &&& applied(rule.0, rule.1, a).email == applied(rule.0, rule.1, b).email
                &&& rule.0.name() is None ==> applied(rule.0, rule.1, a).name == a.name && applied(
                    rule.0,
                    rule.1,
                    b,
                ).name == b.name
                &&& rule.0.name() is Some ==> applied(rule.0, rule.1, a).name == applied(
                    rule.0,
                    rule.1,
                    b,
                ).name
            },
            None => resolved(table, a) == None::<SignatureView> && resolved(table, b) == None::<
                SignatureView,
            >,
        },
{
    lemma_position_by_key(emails_of(table), a.email, b.email);
    match position(emails_of(table), a.email) {
        Some(i) => {
            lemma_position_by_key(names_of(table[i]), a.name, b.name);
        },
        None => {},
    }
}

/// Whether the rule `first` stands before the rule `second` in the order of
/// a table: its email comes first, or the emails match and it is the rule
/// for the email alone, or the emails match and its name comes first.
pub open spec fn stands_before(first: EntryView, second: EntryView) -> bool {
    ||| precedes(folded(first.key.email()), folded(second.key.email()))
    ||| {
        &&& folded(first.key.email()) == folded(second.key.email())
        &&& match (first.key.name(), second.key.name()) {
            (None, Some(_)) => true,
            (Some(a), Some(b)) => precedes(folded(a), folded(b)),
            _ => false,
        }
    }
}

/// Every rule that a table lists is kept under the email of one of its buckets.
pub proof fn lemma_listed_emails(table: Seq<BucketView>, at: int)
    requires
        0 <= at < listed(table).len(),
    ensures
        exists|i: int| 0 <= i < table.len() && listed(table)[at].key.email() == (#[trigger] table[i]).email,
    decreases table.len(),
{
    if table.len() > 0 {
        let front = listed(table.drop_last());
        if at < front.len() {
            lemma_listed_emails(table.drop_last(), at);
            let i = choose|i: int|
                0 <= i < table.drop_last().len() && front[at].key.email() == (
                #[trigger] table.drop_last()[i]).email;
            assert(table[i] == table.drop_last()[i]);
        } else {
            assert(table[table.len() - 1] == table.last());
        }
    }
}

/// The rules of a table are listed in order: of any two, the one listed
/// first stands before the other.
pub proof fn lemma_listed_in_order(table: Seq<BucketView>, first: int, second: int)
    requires
        table_wf(table),
        0 <= first < second < listed(table).len(),
    ensures
        stands_before(listed(table)[first], listed(table)[second]),
    decreases table.len(),
{
    if table.len() > 0 {
        let shorter = table.drop_last();
        let front = listed(shorter);
        let bucket = table.last();
        assert(emails_of(shorter) =~= emails_of(table).drop_last());
        assert forall|i: int| 0 <= i < shorter.len() implies sorted(
            #[trigger] names_of(shorter[i]),
        ) by {
            assert(shorter[i] == table[i]);
        }
        if second < front.len() {
            lemma_listed_in_order(shorter, first, second);
        } else if first < front.len() {
            lemma_listed_emails(shorter, first);
            let i = choose|i: int|
                0 <= i < shorter.len() && front[first].key.email() == (#[trigger] shorter[i]).email;
            assert(emails_of(table)[i] == shorter[i].email);
            assert(emails_of(table)[table.len() - 1] == bucket.email);
            assert(precedes(
                folded(emails_of(table)[i]),
                folded(emails_of(table)[table.len() - 1]),
            ));
        } else {
            let a = first - front.len();
            let b = second - front.len();
            let own = listed_default(bucket).len();
            assert(sorted(names_of(table[table.len() - 1])));
            if a >= own {
                assert(names_of(bucket)[a - own] == bucket.by_name[a - own].name);
                assert(names_of(bucket)[b - own] == bucket.by_name[b - own].name);
                assert(precedes(
                    folded(names_of(bucket)[a - own]),
                    folded(names_of(bucket)[b - own]),
                ));
            }
        }
    }
}

/// Whether `a` and `b` are rules for the same key.
pub open spec fn same_key(a: EntryView, b: EntryView) -> bool {
    &&& folded(a.key.email()) == folded(b.key.email())
    &&& match (a.key.name(), b.key.name()) {
        (None, None) => true,
        (Some(x), Some(y)) => folded(x) == folded(y),
        _ => false,
    }
}

/// Whether `a` and `b` are both found by a name, or both by the email
/// alone, and their names match.
pub open spec fn same_name_key(a: EntryView, b: EntryView) -> bool {
    match (a.key.name(), b.key.name()) {
        (None, None) => true,
        (Some(x), Some(y)) => folded(x) == folded(y),
        _ => false,
    }
}

/// A bucket takes two rules for different keys in, in either order, with
/// the same result.
pub proof fn lemma_with_rule_commutes(bucket: BucketView, a: EntryView, b: EntryView)
    requires
        sorted(names_of(bucket)),
        !same_name_key(a, b),
    ensures
        with_rule(with_rule(bucket, a), b) == with_rule(with_rule(bucket, b), a),
{
    let names = names_of(bucket);
    let one = with_rule(bucket, a);
    let other = with_rule(bucket, b);
    match (a.key, b.key) {
        (MatchKeyView::ByEmail(_), MatchKeyView::ByNameAndEmail(_, _)) => {
            assert(names_of(one) =~= names);
        },
        (MatchKeyView::ByNameAndEmail(_, _), MatchKeyView::ByEmail(_)) => {
            assert(names_of(other) =~= names);
        },
        (MatchKeyView::ByNameAndEmail(x, _), MatchKeyView::ByNameAndEmail(y, _)) => {
            lemma_position_found(names, x);
            lemma_position_found(names, y);
            lemma_with_rule(bucket, a, y);
            lemma_with_rule(bucket, b, x);
            match (position(names, x), position(names, y)) {
                (Some(i), Some(j)) => {
                    assert(names_of(one) =~= names);
                    assert(names_of(other) =~= names);
                    assert(with_rule(one, b).by_name =~= with_rule(other, a).by_name);
                },
                (Some(i), None) => {
                    let at = slot(names, y);
                    lemma_slot_splits(names, y);
                    assert(names_of(one) =~= names);
                    assert(names_of(other) =~= names.insert(at, y));
                    lemma_position_after_insert(names, y, at, x);
                    assert(with_rule(one, b).by_name =~= with_rule(other, a).by_name);
                },
                (None, Some(j)) => {
                    let at = slot(names, x);
                    lemma_slot_splits(names, x);
                    assert(names_of(other) =~= names);
                    assert(names_of(one) =~= names.insert(at, x));
                    lemma_position_after_insert(names, x, at, y);
                    assert(with_rule(one, b).by_name =~= with_rule(other, a).by_name);
                },
                (None, None) => {
                    let at_x = slot(names, x);
                    let at_y = slot(names, y);
                    lemma_slot_splits(names, x);
                    lemma_slot_splits(names, y);
                    assert(names_of(one) =~= names.insert(at_x, x));
                    assert(names_of(other) =~= names.insert(at_y, y));
                    lemma_position_after_insert(names, x, at_x, y);
                    lemma_position_after_insert(names, y, at_y, x);
                    lemma_slot_after_insert(names, x, at_x, y);
                    lemma_slot_after_insert(names, y, at_y, x);
                    lemma_precedes_total(folded(x), folded(y));
                    if precedes(folded(x), folded(y)) {
                        lemma_precedes_asymmetric(folded(x), folded(y));
                    }
                    assert(with_rule(one, b).by_name =~= with_rule(other, a).by_name);
                },
            }
        },
        _ => {},
    }
}

/// Two rules for different keys under one email make the same bucket, in
/// either order.
pub proof fn lemma_fresh_commutes(a: EntryView, b: EntryView)
    requires
        a.key.email() == b.key.email(),
        !same_name_key(a, b),
    ensures
        with_rule(fresh(a), b) == with_rule(fresh(b), a),
{
    lemma_fresh(a, Seq::empty());
    lemma_fresh(b, Seq::empty());
    match (a.key, b.key) {
        (MatchKeyView::ByEmail(_), MatchKeyView::ByNameAndEmail(y, _)) => {
            assert(names_of(fresh(a)) =~= Seq::<Seq<u8>>::empty());
            assert(with_rule(fresh(a), b).by_name =~= with_rule(fresh(b), a).by_name);
        },
        (MatchKeyView::ByNameAndEmail(x, _), MatchKeyView::ByEmail(_)) => {
            assert(names_of(fresh(b)) =~= Seq::<Seq<u8>>::empty());
            assert(with_rule(fresh(a), b).by_name =~= with_rule(fresh(b), a).by_name);
        },
        (MatchKeyView::ByNameAndEmail(x, _), MatchKeyView::ByNameAndEmail(y, _)) => {
            let only_x = names_of(fresh(a));
            let only_y = names_of(fresh(b));
            assert(only_x =~= seq![x]);
            assert(only_y =~= seq![y]);
            assert(only_x.drop_first() =~= Seq::<Seq<u8>>::empty());
            assert(only_y.drop_first() =~= Seq::<Seq<u8>>::empty());
            lemma_fresh(a, y);
            lemma_fresh(b, x);
            lemma_precedes_total(folded(x), folded(y));
            if precedes(folded(x), folded(y)) {
                lemma_precedes_asymmetric(folded(x), folded(y));
            }
            assert(slot(only_x.drop_first(), y) == 0);
            assert(slot(only_y.drop_first(), x) == 0);
            assert(with_rule(fresh(a), b).by_name =~= with_rule(fresh(b), a).by_name);
        },
        _ => {},
    }
}

/// The order in which a table takes two rules in plays no part, as long as
/// the rules are for different keys. (For an email that the table does not
/// have yet, the two rules must spell it alike, as the table keeps the
/// spelling that it sees first.)
pub proof fn lemma_inserted_commutes(table: Seq<BucketView>, a: EntryView, b: EntryView)
    requires
        table_wf(table),
        !same_key(a, b),
        folded(a.key.email()) == folded(b.key.email()) && position(
            emails_of(table),
            a.key.email(),
        ) is None ==> a.key.email() == b.key.email(),
    ensures
        inserted(inserted(table, a), b) == inserted(inserted(table, b), a),
{
    let emails = emails_of(table);
    let x = a.key.email();
    let y = b.key.email();
    let one = inserted(table, a);
    let other = inserted(table, b);
    lemma_position_found(emails, x);
    lemma_position_found(emails, y);
    lemma_inserted(table, a, Seq::empty(), Seq::empty());
    lemma_inserted(table, b, Seq::empty(), Seq::empty());
    if folded(x) == folded(y) {
        lemma_position_by_key(emails, x, y);
        match position(emails, x) {
            Some(i) => {
                lemma_with_rule(table[i], a, Seq::empty());
                lemma_with_rule(table[i], b, Seq::empty());
                assert(emails_of(one) =~= emails);
                assert(emails_of(other) =~= emails);
                lemma_with_rule_commutes(table[i], a, b);
                assert(inserted(one, b) =~= inserted(other, a));
            },
            None => {
                let at = slot(emails, x);
                lemma_slot_splits(emails, x);
                lemma_fresh(a, Seq::empty());
                lemma_fresh(b, Seq::empty());
                assert(emails_of(one) =~= emails.insert(at, x));
                assert(emails_of(other) =~= emails.insert(at, y));
                lemma_position_after_insert(emails, x, at, y);
                lemma_position_after_insert(emails, y, at, x);
                lemma_fresh_commutes(a, b);
                assert(inserted(one, b) =~= inserted(other, a));
            },
        }
    } else {
        match (position(emails, x), position(emails, y)) {
            (Some(i), Some(j)) => {
                lemma_with_rule(table[i], a, Seq::empty());
                lemma_with_rule(table[j], b, Seq::empty());
                assert(emails_of(one) =~= emails);
                assert(emails_of(other) =~= emails);
                assert(inserted(one, b) =~= inserted(other, a));
            },
            (Some(i), None) => {
                let at = slot(emails, y);
                lemma_slot_splits(emails, y);
                lemma_with_rule(table[i], a, Seq::empty());
                lemma_fresh(b, Seq::empty());
                assert(emails_of(one) =~= emails);
                assert(emails_of(other) =~= emails.insert(at, y));
                lemma_position_after_insert(emails, y, at, x);
                assert(inserted(one, b) =~= inserted(other, a));
            },
            (None, Some(j)) => {
                let at = slot(emails, x);
                lemma_slot_splits(emails, x);
                lemma_with_rule(table[j], b, Seq::empty());
                lemma_fresh(a, Seq::empty());
                assert(emails_of(other) =~= emails);
                assert(emails_of(one) =~= emails.insert(at, x));
                lemma_position_after_insert(emails, x, at, y);
                assert(inserted(one, b) =~= inserted(other, a));
            },
            (None, None) => {
                let at_x = slot(emails, x);
                let at_y = slot(emails, y);
                lemma_slot_splits(emails, x);
                lemma_slot_splits(emails, y);
                lemma_fresh(a, Seq::empty());
                lemma_fresh(b, Seq::empty());
                assert(emails_of(one) =~= emails.insert(at_x, x));
                assert(emails_of(other) =~= emails.insert(at_y, y));
                lemma_position_after_insert(emails, x, at_x, y);
                lemma_position_after_insert(emails, y, at_y, x);
                lemma_slot_after_insert(emails, x, at_x, y);
                lemma_slot_after_insert(emails, y, at_y, x);
                lemma_precedes_total(folded(x), folded(y));
                if precedes(folded(x), folded(y)) {
                    lemma_precedes_asymmetric(folded(x), folded(y));
                }
                assert(inserted(one, b) =~= inserted(other, a));
            },
        }
    }
}

} // verus!
