use commit_hours::{Entry, Signature, Snapshot, Time};

fn signature(name: &str, email: &str) -> Signature {
    Signature {
        name: name.as_bytes().to_vec(),
        email: email.as_bytes().to_vec(),
        time: Time { seconds: 42, offset: 28800 },
    }
}

fn name_by_email(name: &str, email: &str) -> Entry {
    Entry::change_name_by_email(name.as_bytes(), email.as_bytes())
}

fn email_by_email(new_email: &str, email: &str) -> Entry {
    Entry::change_email_by_email(new_email.as_bytes(), email.as_bytes())
}

fn name_and_email_by_email(name: &str, new_email: &str, email: &str) -> Entry {
    Entry::change_name_and_email_by_email(name.as_bytes(), new_email.as_bytes(), email.as_bytes())
}

fn email_by_name_and_email(new_email: &str, name: &str, email: &str) -> Entry {
    Entry::change_email_by_name_and_email(new_email.as_bytes(), name.as_bytes(), email.as_bytes())
}

fn name_and_email_by_name_and_email(new_name: &str, new_email: &str, name: &str, email: &str) -> Entry {
    Entry::change_name_and_email_by_name_and_email(
        new_name.as_bytes(),
        new_email.as_bytes(),
        name.as_bytes(),
        email.as_bytes(),
    )
}

fn typical() -> Vec<Entry> {
    vec![
        name_by_email("Joe R. Developer", "joe@example.com"),
        name_and_email_by_email("Jane Doe", "jane@example.com", "jane@laptop.(none)"),
        name_and_email_by_email("Jane Doe", "jane@example.com", "jane@desktop.(none)"),
        name_and_email_by_name_and_email("Jane Doe", "jane@example.com", "Jane", "bugs@example.com"),
        name_and_email_by_name_and_email("Joe R. Developer", "joe@example.com", "Joe", "bugs@example.com"),
        email_by_name_and_email("jane@example.com", "Jane", "Jane@ipad.(none)"),
    ]
}

fn overwrite() -> Vec<Entry> {
    vec![
        name_by_email("A", "old-a-email"),
        name_and_email_by_email("B", "new-b-email", "old-b-email"),
        name_and_email_by_name_and_email("C", "new-c-email", "old-C", "old-c-email"),
        email_by_email("new-d-email", "old-d-email"),
        name_by_email("A-overwritten", "old-a-email"),
        name_and_email_by_email("B-overwritten", "new-b-email-overwritten", "old-B-email"),
        name_and_email_by_name_and_email("C-overwritten", "new-c-email-overwritten", "old-c", "old-C-email"),
        email_by_email("new-d-email-overwritten", "old-D-email"),
    ]
}

#[test]
fn try_resolve() {
    let snapshot = Snapshot::new(typical());
    assert_eq!(
        snapshot.try_resolve(&signature("Foo", "Joe@example.com")),
        Some(signature("Joe R. Developer", "joe@example.com")),
        "resolved signatures contain all original fields, and normalize the email as well to match the one that it was looked up with"
    );
    assert_eq!(
        snapshot.try_resolve(&signature("Joe", "bugs@example.com")),
        Some(signature("Joe R. Developer", "joe@example.com")),
        "name and email can be mapped specifically"
    );

    assert_eq!(
        snapshot.try_resolve(&signature("Jane", "jane@laptop.(none)")),
        Some(signature("Jane Doe", "jane@example.com")),
        "fix name and email by email"
    );
    assert_eq!(
        snapshot.try_resolve(&signature("Jane", "jane@desktop.(none)")),
        Some(signature("Jane Doe", "jane@example.com")),
        "fix name and email by other email"
    );

    assert_eq!(
        snapshot.try_resolve(&signature("janE", "Bugs@example.com")),
        Some(signature("Jane Doe", "jane@example.com")),
        "name and email can be mapped specifically, case insensitive matching of name"
    );
    assert_eq!(
        snapshot.resolve(&signature("janE", "jane@ipad.(none)")),
        signature("janE", "jane@example.com"),
        "an email can be mapped by name and email specifically, both match case-insensitively"
    );

    let sig = signature("Jane", "other@example.com");
    assert_eq!(snapshot.try_resolve(&sig), None, "unmatched email");

    assert_eq!(
        snapshot.resolve(&sig),
        sig,
        "resolution always works here, returning a copy of the original"
    );

    let sig = signature("Jean", "bugs@example.com");
    assert_eq!(snapshot.try_resolve(&sig), None, "matched email, unmatched name");
    assert_eq!(snapshot.resolve(&sig), sig);

    assert_eq!(
        snapshot.entries(),
        &[
            name_and_email_by_name_and_email("Jane Doe", "jane@example.com", "Jane", "bugs@example.com"),
            name_and_email_by_name_and_email("Joe R. Developer", "joe@example.com", "Joe", "bugs@example.com"),
            name_and_email_by_email("Jane Doe", "jane@example.com", "jane@desktop.(none)"),
            email_by_name_and_email("jane@example.com", "Jane", "Jane@ipad.(none)"),
            name_and_email_by_email("Jane Doe", "jane@example.com", "jane@laptop.(none)"),
            name_by_email("Joe R. Developer", "joe@example.com"),
        ]
    );
}

#[test]
fn non_name_and_name_mappings_will_not_clash() {
    let entries = vec![
        // add mapping from email
        name_by_email("new-name", "old-email"),
        // add mapping from name and email
        name_and_email_by_name_and_email("other-new-name", "other-new-email", "old-name", "old-email"),
    ];
    for entries in [entries.clone().into_iter().rev().collect::<Vec<_>>(), entries] {
        let snapshot = Snapshot::new(entries);

        assert_eq!(
            snapshot.try_resolve(&signature("replace-by-email", "Old-Email")),
            Some(signature("new-name", "old-email")),
            "it can match by email only, and the email is normalized"
        );
        assert_eq!(
            snapshot.try_resolve(&signature("old-name", "Old-Email")),
            Some(signature("other-new-name", "other-new-email")),
            "it can match by email and name as well"
        );

        assert_eq!(
            snapshot.entries(),
            &[
                name_by_email("new-name", "old-email"),
                name_and_email_by_name_and_email("other-new-name", "other-new-email", "old-name", "old-email"),
            ]
        );
    }
}

#[test]
fn overwrite_entries() {
    let snapshot = Snapshot::new(overwrite());
    assert_eq!(
        snapshot.try_resolve(&signature("does not matter", "old-a-email")),
        Some(signature("A-overwritten", "old-a-email")),
        "email only by email"
    );

    assert_eq!(
        snapshot.try_resolve(&signature("to be replaced", "old-b-EMAIL")),
        Some(signature("B-overwritten", "new-b-email-overwritten")),
        "name and email by email"
    );

    assert_eq!(
        snapshot.try_resolve(&signature("old-c", "old-C-email")),
        Some(signature("C-overwritten", "new-c-email-overwritten")),
        "name and email by name and email"
    );

    assert_eq!(
        snapshot.try_resolve(&signature("unchanged", "old-d-email")),
        Some(signature("unchanged", "new-d-email-overwritten")),
        "email by email"
    );

    assert_eq!(
        snapshot.entries(),
        &[
            name_by_email("A-overwritten", "old-a-email"),
            name_and_email_by_email("B-overwritten", "new-b-email-overwritten", "old-b-email"),
            name_and_email_by_name_and_email("C-overwritten", "new-c-email-overwritten", "old-C", "old-c-email"),
            email_by_email("new-d-email-overwritten", "old-d-email"),
        ]
    );
}

#[test]
fn email_rule_resolves_any_name_and_normalizes_the_email() {
    let snapshot = Snapshot::new(vec![name_by_email("new-name", "old-email")]);
    assert_eq!(
        snapshot.resolve(&signature("replace-by-email", "Old-Email")),
        signature("new-name", "old-email")
    );
}

#[test]
fn name_rule_goes_before_email_rule() {
    let by_email = name_and_email_by_email("Everyone", "all@example.com", "shared@example.com");
    let by_name = name_by_name_and_email("The One", "one", "SHARED@example.com");
    for entries in [vec![by_email.clone(), by_name.clone()], vec![by_name, by_email]] {
        let canonical = String::from_utf8(match &entries[0].key {
            commit_hours::MatchKey::ByEmail(e) => e.clone(),
            commit_hours::MatchKey::ByNameAndEmail(_, e) => e.clone(),
        })
        .unwrap();
        let snapshot = Snapshot::new(entries);
        assert_eq!(
            snapshot.try_resolve(&signature("ONE", "Shared@Example.com")),
            Some(signature("The One", &canonical))
        );
        assert_eq!(
            snapshot.try_resolve(&signature("two", "Shared@Example.com")),
            Some(signature("Everyone", "all@example.com"))
        );
    }
}

fn name_by_name_and_email(new_name: &str, name: &str, email: &str) -> Entry {
    Entry::change_name_by_name_and_email(new_name.as_bytes(), name.as_bytes(), email.as_bytes())
}

#[test]
fn matching_ignores_case_and_unreplaced_fields_keep_the_input() {
    let snapshot = Snapshot::new(vec![email_by_name_and_email("proper@example.com", "Jane Doe", "Jane@Laptop")]);
    for (name, email) in [("jane doe", "jane@laptop"), ("JANE DOE", "JANE@LAPTOP"), ("Jane Doe", "Jane@Laptop")] {
        assert_eq!(
            snapshot.try_resolve(&signature(name, email)),
            Some(signature(name, "proper@example.com"))
        );
    }
    let snapshot = Snapshot::new(vec![name_by_email("Proper", "Jane@Laptop")]);
    assert_eq!(
        snapshot.try_resolve(&signature("x", "jane@laptop")),
        Some(signature("Proper", "Jane@Laptop")),
        "the email takes the spelling of the table"
    );
}

#[test]
fn only_ascii_letters_are_folded() {
    let snapshot = Snapshot::new(vec![name_by_email("Proper", "stra\u{df}e@example.com")]);
    assert!(snapshot.try_resolve(&signature("x", "STRA\u{df}E@example.com")).is_some());
    assert_eq!(snapshot.try_resolve(&signature("x", "STRASSE@example.com")), None);
    let snapshot = Snapshot::new(vec![name_by_email("Proper", "[a]@example.com")]);
    assert_eq!(snapshot.try_resolve(&signature("x", "{a}@example.com")), None);
}

#[test]
fn bucket_of_name_rules_alone_does_not_resolve_other_names() {
    let snapshot = Snapshot::new(vec![name_by_name_and_email("Proper", "jane", "bugs@example.com")]);
    assert_eq!(snapshot.try_resolve(&signature("Jean", "bugs@example.com")), None);
    assert_eq!(snapshot.try_resolve(&signature("Jean", "BUGS@example.com")), None);
    assert_eq!(
        snapshot.resolve(&signature("Jean", "BUGS@example.com")),
        signature("Jean", "BUGS@example.com")
    );
}

#[test]
fn later_rule_for_the_same_key_takes_the_place_of_the_earlier() {
    let mut snapshot = Snapshot::empty();
    snapshot.insert(&name_and_email_by_email("First", "first@example.com", "Key@example.com"));
    snapshot.insert(&name_by_email("Second", "KEY@example.com"));
    assert_eq!(snapshot.entries(), vec![name_by_email("Second", "Key@example.com")]);
    assert_eq!(
        snapshot.try_resolve(&signature("x", "key@example.com")),
        Some(signature("Second", "Key@example.com"))
    );
    snapshot.merge(vec![
        name_by_name_and_email("Third", "Nick", "key@EXAMPLE.com"),
        email_by_name_and_email("fourth@example.com", "NICK", "key@example.com"),
    ]);
    assert_eq!(
        snapshot.entries(),
        vec![
            name_by_email("Second", "Key@example.com"),
            email_by_name_and_email("fourth@example.com", "Nick", "Key@example.com"),
        ]
    );
    assert_eq!(
        snapshot.try_resolve(&signature("nick", "key@example.com")),
        Some(signature("nick", "fourth@example.com"))
    );
}

#[test]
fn empty_table_resolves_nothing() {
    for snapshot in [Snapshot::empty(), Snapshot::default(), Snapshot::new(vec![])] {
        assert_eq!(snapshot.entries(), vec![]);
        let sig = signature("a", "b");
        assert_eq!(snapshot.try_resolve(&sig), None);
        assert_eq!(snapshot.resolve(&sig), sig);
    }
}

#[test]
fn entries_come_in_the_order_of_their_keys_whatever_the_order_of_insertion() {
    let rules = vec![
        name_by_email("n1", "delta@x"),
        name_by_name_and_email("n2", "zoe", "alpha@x"),
        name_by_name_and_email("n3", "Adam", "alpha@x"),
        email_by_email("e4", "Charlie@x"),
        name_by_email("n5", "alpha@x"),
        name_by_name_and_email("n6", "bob", "Bravo@x"),
    ];
    let expected = vec![
        name_by_email("n5", "alpha@x"),
        name_by_name_and_email("n3", "Adam", "alpha@x"),
        name_by_name_and_email("n2", "zoe", "alpha@x"),
        name_by_name_and_email("n6", "bob", "Bravo@x"),
        email_by_email("e4", "Charlie@x"),
        name_by_email("n1", "delta@x"),
    ];
    let mut reversed = rules.clone();
    reversed.reverse();
    let mut rotated = rules.clone();
    rotated.rotate_left(3);
    for order in [rules, reversed, rotated] {
        assert_eq!(Snapshot::new(order).entries(), expected);
    }
}

#[test]
fn the_time_of_the_signature_is_kept() {
    let snapshot = Snapshot::new(vec![name_by_email("Proper", "a@x")]);
    let sig = Signature {
        name: b"n".to_vec(),
        email: b"a@x".to_vec(),
        time: Time { seconds: -5, offset: -3600 },
    };
    assert_eq!(snapshot.resolve(&sig).time, Time { seconds: -5, offset: -3600 });
}

#[test]
fn entries_tell_what_they_match_and_what_they_give() {
    let entry = name_and_email_by_name_and_email("New", "new@x", "Old", "old@x");
    assert_eq!(entry.new_name(), Some(&b"New"[..]));
    assert_eq!(entry.new_email(), Some(&b"new@x"[..]));
    assert_eq!(entry.old_name(), Some(&b"Old"[..]));
    assert_eq!(entry.old_email(), &b"old@x"[..]);
    let entry = name_by_email("New", "old@x");
    assert_eq!(entry.new_name(), Some(&b"New"[..]));
    assert_eq!(entry.new_email(), None);
    assert_eq!(entry.old_name(), None);
    assert_eq!(entry.old_email(), &b"old@x"[..]);
    let entry = email_by_email("new@x", "old@x");
    assert_eq!(entry.new_name(), None);
    assert_eq!(entry.new_email(), Some(&b"new@x"[..]));
    assert_eq!(entry.replacement.copy(), entry.replacement);
    assert_eq!(
        entry,
        Entry {
            key: commit_hours::MatchKey::ByEmail(b"old@x".to_vec()),
            replacement: commit_hours::Replacement::Email(b"new@x".to_vec()),
        }
    );
    let entry = name_by_name_and_email("New", "Old", "old@x");
    assert_eq!(
        entry,
        Entry {
            key: commit_hours::MatchKey::ByNameAndEmail(b"Old".to_vec(), b"old@x".to_vec()),
            replacement: commit_hours::Replacement::Name(b"New".to_vec()),
        }
    );
}

#[test]
fn texts_need_not_be_utf8() {
    let rule = Entry::change_name_by_email(b"Proper \xff", b"WEIRD\xfe@x");
    let snapshot = Snapshot::new(vec![rule]);
    let sig = Signature {
        name: b"\xf0".to_vec(),
        email: b"weird\xfe@X".to_vec(),
        time: Time { seconds: 0, offset: 0 },
    };
    let out = snapshot.resolve(&sig);
    assert_eq!(out.name, b"Proper \xff".to_vec());
    assert_eq!(out.email, b"WEIRD\xfe@x".to_vec());
}
