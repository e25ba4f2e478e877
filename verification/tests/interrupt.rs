use commit_hours::delta::{Action, Phase, Worker};

#[test]
fn receive_reads_the_interrupt_flag_of_the_process() {
    gix::interrupt::reset();
    let mut worker = Worker::new(false);
    let outcome = worker.receive(0, true);
    assert_eq!(outcome.action, Action::Resolve { with_parent: true });
    assert_eq!(outcome.progress.commits, 1);
    assert_eq!(worker.phase(), Phase::Resolving { index: 0, with_parent: true });

    let mut worker = Worker::new(false);
    gix::interrupt::trigger();
    let outcome = worker.receive(0, true);
    gix::interrupt::reset();
    assert_eq!(outcome.action, Action::Finish);
    assert_eq!(outcome.progress.commits, 0);
    assert_eq!(worker.phase(), Phase::Done);
    assert_eq!(worker.finish(), Ok(vec![]));
}
