use commit_hours::estimate::{
    find_stat, FIRST_COMMIT_ADDITION_IN_SECONDS, MAX_COMMIT_DIFFERENCE_IN_SECONDS, SECONDS_PER_HOUR,
};
use commit_hours::{estimate_hours, FileStats, LineStats, Signature, Time};

fn commit(index: u32, name: &str, email: &str, seconds: i64) -> (u32, Signature) {
    (
        index,
        Signature {
            name: name.as_bytes().to_vec(),
            email: email.as_bytes().to_vec(),
            time: Time { seconds, offset: 0 },
        },
    )
}

fn files(added: usize, removed: usize, modified: usize) -> FileStats {
    FileStats { added, removed, modified }
}

fn lines(added: usize, removed: usize) -> LineStats {
    LineStats { added, removed }
}

fn hours(seconds: i128) -> f64 {
    seconds as f64 / SECONDS_PER_HOUR as f64
}

#[test]
fn constants_are_two_hours() {
    assert_eq!(SECONDS_PER_HOUR, 3600);
    assert_eq!(MAX_COMMIT_DIFFERENCE_IN_SECONDS, 2 * 3600);
    assert_eq!(FIRST_COMMIT_ADDITION_IN_SECONDS, 2 * 3600);
}

#[test]
fn single_commit_gets_the_first_commit_allowance() {
    let commits = vec![commit(7, "Ann", "ann@example.com", 1_000_000)];
    let stats = vec![(3, files(9, 9, 9), lines(9, 9)), (7, files(1, 2, 3), lines(4, 5))];
    let work = estimate_hours(&commits, &stats);
    assert_eq!(work.seconds, 7200);
    assert_eq!(hours(work.seconds), 2.0);
    assert_eq!(work.num_commits, 1);
    assert_eq!(work.files, files(1, 2, 3));
    assert_eq!(work.lines, lines(4, 5));
    assert_eq!(work.name, b"Ann".to_vec());
    assert_eq!(work.email, b"ann@example.com".to_vec());
}

#[test]
fn single_commit_without_stats_counts_no_change() {
    let commits = vec![commit(7, "Ann", "ann@example.com", 5)];
    let work = estimate_hours(&commits, &[]);
    assert_eq!(work.seconds, 7200);
    assert_eq!(work.files, files(0, 0, 0));
    assert_eq!(work.lines, lines(0, 0));
}

#[test]
fn ten_minutes_apart_add_ten_minutes() {
    // newest first
    let commits = vec![commit(1, "Ann", "a", 600), commit(0, "Ann", "a", 0)];
    let work = estimate_hours(&commits, &[]);
    assert_eq!(work.seconds, 7200 + 600);
    assert!((hours(work.seconds) - (2.0 + 10.0 / 60.0)).abs() < 1e-9);
    assert!((hours(work.seconds - FIRST_COMMIT_ADDITION_IN_SECONDS) - 0.1667).abs() < 1e-4);
    assert_eq!(work.num_commits, 2);
}

#[test]
fn long_gaps_count_two_hours_whatever_their_length() {
    for gap in [7200i64, 7201, 86_400, 10 * 365 * 86_400, i64::MAX] {
        let commits = vec![commit(1, "Ann", "a", gap), commit(0, "Ann", "a", 0)];
        let work = estimate_hours(&commits, &[]);
        assert_eq!(work.seconds, 7200 + 7200, "gap of {gap} seconds");
    }
    let commits = vec![commit(1, "Ann", "a", i64::MAX), commit(0, "Ann", "a", i64::MIN)];
    assert_eq!(estimate_hours(&commits, &[]).seconds, 7200 + 7200);
}

#[test]
fn just_under_two_hours_counts_in_full() {
    let commits = vec![commit(1, "Ann", "a", 7199), commit(0, "Ann", "a", 0)];
    assert_eq!(estimate_hours(&commits, &[]).seconds, 7200 + 7199);
}

#[test]
fn gaps_add_up_over_a_group() {
    // newest first: gaps of 30 minutes, 3 days, 1 hour, 0 seconds
    let commits = vec![
        commit(4, "Ann", "a", 264_600),
        commit(3, "Ann", "a", 262_800),
        commit(2, "Ann", "a", 3600),
        commit(1, "Ann", "a", 0),
        commit(0, "Ann", "a", 0),
    ];
    let work = estimate_hours(&commits, &[]);
    assert_eq!(work.seconds, 7200 + 1800 + 7200 + 3600);
    assert_eq!(work.num_commits, 5);
}

#[test]
fn a_commit_older_than_its_successor_takes_time_away() {
    // the list says the second commit is the older one, its time stamp says otherwise
    let commits = vec![commit(1, "Ann", "a", 0), commit(0, "Ann", "a", 100)];
    assert_eq!(estimate_hours(&commits, &[]).seconds, 7200 - 100);
    let commits = vec![commit(1, "Ann", "a", i64::MIN), commit(0, "Ann", "a", i64::MAX)];
    assert_eq!(estimate_hours(&commits, &[]).seconds, 7200 + i64::MIN as i128);
}

#[test]
fn author_is_taken_from_the_newest_commit() {
    let commits = vec![commit(1, "Ann B.", "ann@new", 600), commit(0, "ann", "ann@old", 0)];
    let work = estimate_hours(&commits, &[]);
    assert_eq!(work.name, b"Ann B.".to_vec());
    assert_eq!(work.email, b"ann@new".to_vec());
}

#[test]
fn stats_are_summed_over_the_commits_that_have_some() {
    let commits = vec![
        commit(9, "Ann", "a", 300),
        commit(5, "Ann", "a", 200),
        commit(4, "Ann", "a", 100),
        commit(0, "Ann", "a", 0),
    ];
    let stats = vec![
        (0, files(1, 0, 0), lines(10, 0)),
        (1, files(100, 100, 100), lines(100, 100)),
        (5, files(0, 2, 3), lines(5, 7)),
        (9, files(4, 0, 1), lines(0, 1)),
    ];
    let work = estimate_hours(&commits, &stats);
    assert_eq!(work.files, files(5, 2, 4));
    assert_eq!(work.lines, lines(15, 8));
    assert_eq!(work.seconds, 7200 + 300);
}

#[test]
fn counters_stop_at_the_largest_value() {
    let commits = vec![commit(1, "Ann", "a", 0), commit(0, "Ann", "a", 0)];
    let stats = vec![
        (0, files(usize::MAX, 1, 0), lines(usize::MAX - 1, 0)),
        (1, files(1, 2, 0), lines(1, 0)),
    ];
    let work = estimate_hours(&commits, &stats);
    assert_eq!(work.files, files(usize::MAX, 3, 0));
    assert_eq!(work.lines, lines(usize::MAX, 0));
}

#[test]
fn find_stat_takes_the_first_entry_of_a_commit() {
    let stats = vec![
        (1, files(1, 0, 0), lines(1, 0)),
        (2, files(2, 0, 0), lines(2, 0)),
        (2, files(3, 0, 0), lines(3, 0)),
        (4, files(4, 0, 0), lines(4, 0)),
    ];
    assert_eq!(find_stat(&stats, 1), (files(1, 0, 0), lines(1, 0)));
    assert_eq!(find_stat(&stats, 2), (files(2, 0, 0), lines(2, 0)));
    assert_eq!(find_stat(&stats, 4), (files(4, 0, 0), lines(4, 0)));
    assert_eq!(find_stat(&stats, 0), (files(0, 0, 0), lines(0, 0)));
    assert_eq!(find_stat(&stats, 3), (files(0, 0, 0), lines(0, 0)));
    assert_eq!(find_stat(&stats, 5), (files(0, 0, 0), lines(0, 0)));
    assert_eq!(find_stat(&[], 5), (files(0, 0, 0), lines(0, 0)));
}

#[test]
fn stats_add_counter_by_counter() {
    let mut f = files(1, 2, 3);
    f.add(&files(10, 20, 30));
    assert_eq!(f, files(11, 22, 33));
    assert_eq!(f.added(&files(1, 1, 1)), files(12, 23, 34));
    assert_eq!(f, files(11, 22, 33));
    let mut l = lines(1, 2);
    l.add(&lines(10, 20));
    assert_eq!(l, lines(11, 22));
    assert_eq!(l.added(&lines(usize::MAX, 0)), lines(usize::MAX, 22));
    assert_eq!(FileStats::default(), files(0, 0, 0));
    assert_eq!(LineStats::default(), lines(0, 0));
}

#[test]
fn a_signature_tells_its_seconds() {
    let (_, signature) = commit(0, "Ann", "a", -42);
    assert_eq!(signature.seconds(), -42);
    assert_eq!(signature.time, Time { seconds: -42, offset: 0 });
}

#[test]
fn the_number_of_commits_is_the_length_of_the_group() {
    let commits: Vec<_> = (0..300u32).rev().map(|i| commit(i, "Ann", "a", 0)).collect();
    assert_eq!(estimate_hours(&commits, &[]).num_commits, 300);
}
