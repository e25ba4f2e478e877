use commit_hours::delta::{
    file_change, object_cache_share, Action, Change, DiffFailed, EntryKind, Event, FileChange, Outcome,
    Phase, Progress, Worker, OBJECT_CACHE_BUDGET,
};
use commit_hours::{FileStats, LineStats};

const NONE: Progress = Progress { commits: 0, changes: 0, lines: 0 };
const CHANGE: Progress = Progress { commits: 0, changes: 1, lines: 0 };
const COMMIT: Progress = Progress { commits: 1, changes: 0, lines: 0 };

fn told(action: Action, progress: Progress) -> Outcome {
    Outcome { action, progress }
}

fn lines(n: usize) -> Progress {
    Progress { commits: 0, changes: 0, lines: n }
}

fn item(index: u32) -> Event {
    Event::Item { index, has_parent: true, interrupted: false }
}

fn added(entry: EntryKind) -> Event {
    Event::Change(Change::Addition { entry })
}

fn blob(text: &str) -> Event {
    Event::Blob(Some(text.as_bytes().to_vec()))
}

/// Takes a worker that is between two commits through a commit that adds one file.
fn one_commit(worker: &mut Worker, index: u32) {
    assert_eq!(worker.step(item(index)), told(Action::Resolve { with_parent: true }, COMMIT));
    assert_eq!(worker.step(Event::TreesFound), told(Action::Diff, NONE));
    assert_eq!(worker.step(added(EntryKind::Blob)).progress, CHANGE);
    if worker.phase() != (Phase::Diffing { index, files: FileStats { added: 1, removed: 0, modified: 0 }, lines: LineStats { added: 0, removed: 0 } }) {
        assert_eq!(worker.step(blob("one\ntwo\n")), told(Action::Diff, lines(2)));
    }
    assert_eq!(worker.step(Event::DiffDone), told(Action::Receive, NONE));
}

#[test]
fn root_commit_with_one_added_blob_of_five_lines() {
    let mut worker = Worker::new(true);
    assert_eq!(
        worker.step(Event::Item { index: 0, has_parent: false, interrupted: false }),
        told(Action::Resolve { with_parent: false }, COMMIT)
    );
    assert_eq!(worker.step(Event::TreesFound), told(Action::Diff, NONE));
    assert_eq!(worker.step(added(EntryKind::Blob)), told(Action::ReadAdded, CHANGE));
    assert_eq!(worker.step(blob("a\nb\nc\nd\ne\n")), told(Action::Diff, lines(5)));
    assert_eq!(worker.step(Event::DiffDone), told(Action::Receive, NONE));
    assert_eq!(worker.step(Event::Closed), told(Action::Finish, NONE));
    let stats = worker.finish().unwrap();
    assert_eq!(stats.len(), 1);
    let (index, files, lines) = stats[0];
    assert_eq!(index, 0);
    assert_eq!(files.added, 1);
    assert_eq!(files.removed, 0);
    assert_eq!(files.modified, 0);
    assert_eq!(lines.added, 5);
    assert_eq!(lines.removed, 0);
}

#[test]
fn interrupt_after_three_of_ten_items() {
    let mut worker = Worker::new(false);
    let mut taken = 0;
    let mut processed = 0;
    for index in 0..10u32 {
        taken += 1;
        if index == 3 {
            let outcome = worker.step(Event::Item { index, has_parent: true, interrupted: true });
            assert_eq!(outcome, told(Action::Finish, NONE));
            processed += outcome.progress.commits;
            break;
        }
        one_commit(&mut worker, index);
        processed += 1;
    }
    assert_eq!(taken, 4);
    assert_eq!(processed, 3, "the item on which the interrupt is seen is not processed");
    assert_eq!(worker.phase(), Phase::Done);
    // nothing that is reported later changes the outcome
    assert_eq!(worker.step(item(4)), told(Action::Finish, NONE));
    assert_eq!(worker.step(Event::DiffFailed), told(Action::Finish, NONE));
    let result = worker.finish();
    let stats = result.expect("an interrupt is no error");
    assert_eq!(stats.len(), 3);
    assert_eq!(stats.iter().map(|s| s.0).collect::<Vec<_>>(), vec![0, 1, 2]);
}

#[test]
fn lines_are_counted_as_the_line_iterator_counts_them() {
    for (text, expected) in [
        ("", 0usize),
        ("\n", 1),
        ("a", 1),
        ("a\n", 1),
        ("a\nb", 2),
        ("a\r\nb\r\n", 2),
        ("\n\n\n", 3),
        ("foo\n\nbar\r\nbaz\n\n\nquux", 7),
    ] {
        let mut worker = Worker::new(true);
        worker.step(item(0));
        worker.step(Event::TreesFound);
        assert_eq!(worker.step(added(EntryKind::Blob)).action, Action::ReadAdded);
        assert_eq!(worker.step(blob(text)), told(Action::Diff, lines(expected)), "{text:?}");
        worker.step(Event::DiffDone);
        let stats = worker.finish().unwrap();
        assert_eq!(stats[0].2, LineStats { added: expected, removed: 0 });
    }
}

#[test]
fn without_line_stats_no_blob_is_read() {
    let mut worker = Worker::new(false);
    worker.step(item(5));
    worker.step(Event::TreesFound);
    assert_eq!(worker.step(added(EntryKind::Blob)), told(Action::Diff, CHANGE));
    assert_eq!(
        worker.step(Event::Change(Change::Deletion { entry: EntryKind::BlobExecutable })),
        told(Action::Diff, CHANGE)
    );
    assert_eq!(
        worker.step(Event::Change(Change::Deletion { entry: EntryKind::Link })),
        told(Action::Diff, CHANGE)
    );
    assert_eq!(
        worker.step(Event::Change(Change::Modification { previous: EntryKind::Blob, entry: EntryKind::BlobExecutable })),
        told(Action::Diff, CHANGE)
    );
    worker.step(Event::DiffDone);
    assert_eq!(
        worker.finish(),
        Ok(vec![(5, FileStats { added: 1, removed: 1, modified: 1 }, LineStats { added: 0, removed: 0 })])
    );
}

#[test]
fn removed_and_modified_files_count_their_lines() {
    let mut worker = Worker::new(true);
    worker.step(item(2));
    worker.step(Event::TreesFound);
    assert_eq!(
        worker.step(Event::Change(Change::Deletion { entry: EntryKind::Blob })),
        told(Action::ReadRemoved, CHANGE)
    );
    assert_eq!(worker.step(blob("x\ny\nz")), told(Action::Diff, lines(3)));
    assert_eq!(
        worker.step(Event::Change(Change::Modification { previous: EntryKind::Blob, entry: EntryKind::Blob })),
        told(Action::DiffContent, CHANGE)
    );
    assert_eq!(worker.step(Event::LineCounts(Some((4, 6)))), told(Action::Diff, lines(10)));
    assert_eq!(
        worker.step(Event::Change(Change::Modification { previous: EntryKind::Blob, entry: EntryKind::Blob })),
        told(Action::DiffContent, CHANGE)
    );
    assert_eq!(worker.step(Event::LineCounts(None)), told(Action::Diff, NONE));
    assert_eq!(
        worker.step(Event::Change(Change::Modification { previous: EntryKind::Tree, entry: EntryKind::Blob })),
        told(Action::ReadAdded, CHANGE)
    );
    assert_eq!(worker.step(Event::Blob(None)), told(Action::Diff, NONE));
    assert_eq!(
        worker.step(Event::Change(Change::Modification { previous: EntryKind::Blob, entry: EntryKind::Link })),
        told(Action::ReadRemoved, CHANGE)
    );
    assert_eq!(worker.step(blob("gone\n")), told(Action::Diff, lines(1)));
    assert_eq!(
        worker.step(Event::Change(Change::Modification { previous: EntryKind::Tree, entry: EntryKind::Commit })),
        told(Action::Diff, CHANGE)
    );
    worker.step(Event::DiffDone);
    assert_eq!(
        worker.finish(),
        Ok(vec![(2, FileStats { added: 1, removed: 2, modified: 2 }, LineStats { added: 4, removed: 10 })])
    );
}

#[test]
fn a_missing_tree_skips_the_commit() {
    let mut worker = Worker::new(true);
    one_commit(&mut worker, 0);
    assert_eq!(worker.step(item(1)), told(Action::Resolve { with_parent: true }, COMMIT));
    assert_eq!(worker.step(Event::TreeMissing), told(Action::Receive, NONE));
    assert_eq!(worker.phase(), Phase::Idle);
    one_commit(&mut worker, 2);
    assert_eq!(worker.step(Event::Closed), told(Action::Finish, NONE));
    let stats = worker.finish().unwrap();
    assert_eq!(stats.iter().map(|s| s.0).collect::<Vec<_>>(), vec![0, 2]);
}

#[test]
fn a_failure_of_the_diff_engine_fails_the_worker() {
    let mut worker = Worker::new(true);
    one_commit(&mut worker, 0);
    worker.step(item(1));
    worker.step(Event::TreesFound);
    assert_eq!(worker.step(Event::DiffFailed), told(Action::Fail, NONE));
    assert_eq!(worker.phase(), Phase::Failed);
    assert_eq!(worker.step(item(2)), told(Action::Fail, NONE));
    assert_eq!(worker.finish(), Err(DiffFailed));

    let mut worker = Worker::new(true);
    worker.step(item(1));
    worker.step(Event::TreesFound);
    worker.step(Event::Change(Change::Modification { previous: EntryKind::Blob, entry: EntryKind::Blob }));
    assert_eq!(worker.step(Event::DiffFailed), told(Action::Fail, NONE));
    assert_eq!(worker.finish(), Err(DiffFailed));

    let mut worker = Worker::new(true);
    worker.step(item(1));
    assert_eq!(worker.step(Event::DiffFailed), told(Action::Fail, NONE));
    assert_eq!(worker.finish(), Err(DiffFailed));
}

#[test]
fn an_event_out_of_turn_changes_nothing() {
    let mut worker = Worker::new(true);
    assert_eq!(worker.step(Event::TreesFound), told(Action::Receive, NONE));
    assert_eq!(worker.step(Event::DiffDone), told(Action::Receive, NONE));
    assert_eq!(worker.phase(), Phase::Idle);
    worker.step(Event::Item { index: 3, has_parent: false, interrupted: false });
    assert_eq!(worker.step(Event::Closed), told(Action::Resolve { with_parent: false }, NONE));
    assert_eq!(worker.step(item(9)), told(Action::Resolve { with_parent: false }, NONE));
    worker.step(Event::TreesFound);
    assert_eq!(worker.step(Event::TreeMissing), told(Action::Diff, NONE));
    assert_eq!(worker.step(added(EntryKind::Blob)), told(Action::ReadAdded, CHANGE));
    assert_eq!(worker.step(Event::LineCounts(Some((1, 1)))), told(Action::ReadAdded, NONE));
    assert_eq!(worker.step(Event::DiffDone), told(Action::ReadAdded, NONE));
    assert_eq!(worker.step(blob("x")), told(Action::Diff, lines(1)));
    worker.step(Event::DiffDone);
    assert_eq!(
        worker.finish(),
        Ok(vec![(3, FileStats { added: 1, removed: 0, modified: 0 }, LineStats { added: 1, removed: 0 })])
    );
}

#[test]
fn a_closed_queue_ends_the_worker_with_what_it_has() {
    let mut worker = Worker::new(false);
    assert_eq!(worker.step(Event::Closed), told(Action::Finish, NONE));
    assert_eq!(worker.finish(), Ok(vec![]));
}

#[test]
fn changes_are_classified_by_what_the_entries_are() {
    let tree = EntryKind::Tree;
    let file = EntryKind::Blob;
    let program = EntryKind::BlobExecutable;
    let link = EntryKind::Link;
    let submodule = EntryKind::Commit;
    for entry in [file, program] {
        assert_eq!(file_change(Change::Addition { entry }), FileChange::Added);
        assert_eq!(file_change(Change::Deletion { entry }), FileChange::Removed);
    }
    for entry in [tree, link, submodule] {
        assert_eq!(file_change(Change::Addition { entry }), FileChange::Ignored);
        assert_eq!(file_change(Change::Deletion { entry }), FileChange::Ignored);
    }
    for previous in [tree, file, program, link, submodule] {
        for entry in [tree, file, program, link, submodule] {
            let expected = match (previous.is_blob(), entry.is_blob()) {
                (false, false) => FileChange::Ignored,
                (false, true) => FileChange::Added,
                (true, false) => FileChange::Removed,
                (true, true) => FileChange::Modified,
            };
            assert_eq!(file_change(Change::Modification { previous, entry }), expected);
        }
    }
    assert!(file.is_blob() && program.is_blob());
    assert!(!tree.is_blob() && !link.is_blob() && !submodule.is_blob());
}

#[test]
fn the_cache_budget_is_shared_evenly() {
    assert_eq!(OBJECT_CACHE_BUDGET, 850 * 1024 * 1024);
    assert_eq!(object_cache_share(1), 850 * 1024 * 1024);
    assert_eq!(object_cache_share(4), 850 * 1024 * 1024 / 4);
    assert_eq!(object_cache_share(3), 297_096_533);
}

#[test]
fn a_change_without_a_file_on_either_side_counts_nowhere() {
    for line_stats in [false, true] {
        let mut worker = Worker::new(line_stats);
        worker.step(item(0));
        worker.step(Event::TreesFound);
        for change in [
            Change::Addition { entry: EntryKind::Commit },
            Change::Addition { entry: EntryKind::Link },
            Change::Addition { entry: EntryKind::Tree },
            Change::Deletion { entry: EntryKind::Commit },
            Change::Deletion { entry: EntryKind::Link },
            Change::Deletion { entry: EntryKind::Tree },
            Change::Modification { previous: EntryKind::Link, entry: EntryKind::Commit },
            Change::Modification { previous: EntryKind::Tree, entry: EntryKind::Tree },
        ] {
            assert_eq!(worker.step(Event::Change(change)), told(Action::Diff, CHANGE));
        }
        worker.step(Event::DiffDone);
        assert_eq!(
            worker.finish(),
            Ok(vec![(0, FileStats { added: 0, removed: 0, modified: 0 }, LineStats { added: 0, removed: 0 })])
        );
    }
}

#[test]
fn only_processed_commits_are_counted() {
    let mut worker = Worker::new(false);
    let mut processed = 0;
    processed += worker.step(item(0)).progress.commits;
    processed += worker.step(Event::TreeMissing).progress.commits;
    processed += worker.step(item(1)).progress.commits;
    processed += worker.step(Event::TreesFound).progress.commits;
    processed += worker.step(Event::DiffDone).progress.commits;
    processed += worker.step(Event::Item { index: 2, has_parent: false, interrupted: true }).progress.commits;
    processed += worker.step(item(3)).progress.commits;
    assert_eq!(processed, 2);
}
