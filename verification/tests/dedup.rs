use commit_hours::{deduplicate_identities, FileStats, LineStats, WorkByEmail, WorkByPerson};

fn record(name: &str, email: &str, n: u32) -> WorkByEmail {
    WorkByEmail {
        name: name.as_bytes().to_vec(),
        email: email.as_bytes().to_vec(),
        seconds: 7200 + n as i128,
        num_commits: n,
        files: FileStats { added: n as usize, removed: 2 * n as usize, modified: 3 * n as usize },
        lines: LineStats { added: 10 * n as usize, removed: 20 * n as usize },
    }
}

fn person(name: &str, email: &str, seconds: i128, n: u32) -> WorkByPerson {
    WorkByPerson {
        name: name.as_bytes().to_vec(),
        email: email.as_bytes().to_vec(),
        seconds,
        num_commits: n,
        files: FileStats { added: n as usize, removed: 2 * n as usize, modified: 3 * n as usize },
        lines: LineStats { added: 10 * n as usize, removed: 20 * n as usize },
    }
}

fn commits(people: &[WorkByPerson]) -> u64 {
    people.iter().map(|p| p.num_commits as u64).sum()
}

fn lines_added(people: &[WorkByPerson]) -> u64 {
    people.iter().map(|p| p.lines.added as u64).sum()
}

#[test]
fn no_records_no_persons() {
    assert_eq!(deduplicate_identities(&[]), Vec::<WorkByPerson>::new());
}

#[test]
fn distinct_identities_stay_apart_in_their_order() {
    let out = deduplicate_identities(&[record("b", "b@x", 1), record("a", "a@x", 2), record("c", "c@x", 3)]);
    assert_eq!(
        out,
        vec![person("b", "b@x", 7201, 1), person("a", "a@x", 7202, 2), person("c", "c@x", 7203, 3)]
    );
}

#[test]
fn same_email_merges_and_keeps_the_first_name() {
    let out = deduplicate_identities(&[record("Ann", "ann@x", 1), record("Bob", "bob@x", 2), record("A. N.", "ann@x", 4)]);
    assert_eq!(out, vec![person("Ann", "ann@x", 14405, 5), person("Bob", "bob@x", 7202, 2)]);
}

#[test]
fn same_name_merges_and_keeps_the_first_email() {
    let out = deduplicate_identities(&[record("Ann", "ann@x", 1), record("Ann", "ann@y", 2)]);
    assert_eq!(out, vec![person("Ann", "ann@x", 14403, 3)]);
}

#[test]
fn a_name_learned_through_an_email_merges_later_records() {
    // the second record brings the name "A" to the first person; the third is found by it
    let out = deduplicate_identities(&[record("Ann", "ann@x", 1), record("A", "ann@x", 2), record("A", "other@y", 4)]);
    assert_eq!(out, vec![person("Ann", "ann@x", 21607, 7)]);
}

#[test]
fn an_email_learned_through_a_name_merges_later_records() {
    let out = deduplicate_identities(&[record("Ann", "ann@x", 1), record("Ann", "ann@y", 2), record("Zed", "ann@y", 4)]);
    assert_eq!(out, vec![person("Ann", "ann@x", 21607, 7)]);
}

#[test]
fn matching_is_exact_to_the_byte() {
    let out = deduplicate_identities(&[record("Ann", "ann@x", 1), record("ann", "Ann@x", 2)]);
    assert_eq!(out.len(), 2);
}

#[test]
fn two_persons_once_started_are_never_joined() {
    // the third record shares its name with the first person and its email with the second
    let out = deduplicate_identities(&[record("X", "one@x", 1), record("Y", "two@x", 2), record("X", "two@x", 4)]);
    assert_eq!(out, vec![person("X", "one@x", 7201, 1), person("Y", "two@x", 14406, 6)]);
    // it has brought the name "X" to the second person
    let out = deduplicate_identities(&[
        record("X", "one@x", 1),
        record("Y", "two@x", 2),
        record("X", "two@x", 4),
        record("X", "three@x", 8),
    ]);
    assert_eq!(out, vec![person("X", "one@x", 7201, 1), person("Y", "two@x", 21614, 14)]);
}

#[test]
fn the_order_changes_the_groups_but_not_the_totals() {
    let a = record("X", "one@x", 1);
    let b = record("Y", "two@x", 2);
    let c = record("X", "two@x", 4);
    let first = deduplicate_identities(&[a.clone(), b.clone(), c.clone()]);
    let second = deduplicate_identities(&[c.clone(), a.clone(), b.clone()]);
    let third = deduplicate_identities(&[b, c, a]);
    assert_eq!(first.len(), 2);
    assert_eq!(second, vec![person("X", "two@x", 21607, 7)]);
    assert_eq!(third, vec![person("Y", "two@x", 21607, 7)]);
    for out in [&first, &second, &third] {
        assert_eq!(commits(out), 7);
        assert_eq!(lines_added(out), 70);
    }
}

#[test]
fn same_records_in_two_orders_give_the_same_counters() {
    let a = record("Ann", "ann@x", 1);
    let b = record("Ann", "ann@y", 2);
    let c = record("Bob", "bob@x", 4);
    let first = deduplicate_identities(&[a.clone(), c.clone(), b.clone()]);
    let second = deduplicate_identities(&[c, b, a]);
    assert_eq!(first, vec![person("Ann", "ann@x", 14403, 3), person("Bob", "bob@x", 7204, 4)]);
    assert_eq!(second, vec![person("Bob", "bob@x", 7204, 4), person("Ann", "ann@y", 14403, 3)]);
}

#[test]
fn merge_adds_counters_and_keeps_the_identity() {
    let mut p = WorkByPerson::new(&record("Ann", "ann@x", 1));
    assert_eq!(p, person("Ann", "ann@x", 7201, 1));
    p.merge(&record("Bob", "bob@x", 2));
    assert_eq!(p, person("Ann", "ann@x", 14403, 3));
}

#[test]
fn merged_totals_stop_at_the_ends_of_their_ranges() {
    let mut big = record("Ann", "ann@x", u32::MAX);
    big.seconds = i128::MAX - 1;
    big.files.added = usize::MAX;
    let mut p = WorkByPerson::new(&big);
    p.merge(&record("Ann", "ann@x", 5));
    assert_eq!(p.seconds, i128::MAX);
    assert_eq!(p.num_commits, u32::MAX);
    assert_eq!(p.files.added, usize::MAX);
    let mut low = record("Ann", "ann@x", 0);
    low.seconds = i128::MIN + 1;
    let mut q = WorkByPerson::new(&low);
    let mut minus = record("Ann", "ann@x", 0);
    minus.seconds = -5;
    q.merge(&minus);
    assert_eq!(q.seconds, i128::MIN);
}
