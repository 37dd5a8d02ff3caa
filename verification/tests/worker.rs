use ddp_sync::worker::{
    DdpWorker, LearnerEvent, Progress, WorkerAction, WorkerConfig, WorkerPhase, WorkerSignal,
};

fn config(device_index: usize) -> WorkerConfig {
    WorkerConfig {
        device_index,
        peer_count: 4,
        starting_epoch: 1,
        num_epochs: 3,
        train_total_items: 100,
        valid_total_items: 20,
        has_validation: device_index == 0,
        has_checkpointer: false,
        has_early_stopping: false,
    }
}

fn progress(epoch: usize) -> Progress {
    Progress { items_processed: epoch, items_total: 3 }
}

/// A worker that has just been told to train the epoch.
fn trained(config: WorkerConfig, epoch: usize) -> DdpWorker {
    let mut worker = DdpWorker::start(config);
    worker.fit(WorkerSignal::Begin);
    worker.fit(WorkerSignal::Epoch(Some(progress(epoch))));
    worker
}

const TRAIN: WorkerAction = WorkerAction::Train {
    progress: Progress { items_processed: 2, items_total: 3 },
    peer_count: 4,
};

const VALIDATE: WorkerAction = WorkerAction::Validate {
    progress: Progress { items_processed: 2, items_total: 3 },
    split_end: LearnerEvent::EndSplit(2),
    epoch_end: LearnerEvent::EndEpoch(2),
};

const VALIDATION_STARTS: WorkerAction =
    WorkerAction::ProcessValid(LearnerEvent::StartSplit { epoch_number: 2, total_items: 20 });

#[test]
fn the_worker_prepares_before_the_first_epoch() {
    let mut worker = DdpWorker::start(config(0));
    assert_eq!(worker.phase, WorkerPhase::Created);
    assert_eq!(
        worker.fit(WorkerSignal::Begin),
        vec![
            WorkerAction::PrepareTraining,
            WorkerAction::PrepareValidation,
            WorkerAction::Fork,
            WorkerAction::ShardGradients,
            WorkerAction::PrepareEpochs { starting_epoch: 1, num_epochs: 3 },
            WorkerAction::NextEpoch,
        ]
    );
    let mut worker = DdpWorker::start(config(1));
    assert_eq!(
        worker.fit(WorkerSignal::Begin),
        vec![
            WorkerAction::PrepareTraining,
            WorkerAction::Fork,
            WorkerAction::ShardGradients,
            WorkerAction::PrepareEpochs { starting_epoch: 1, num_epochs: 3 },
            WorkerAction::NextEpoch,
        ]
    );
}

#[test]
fn only_the_main_worker_reports_its_training() {
    let mut main = DdpWorker::start(config(0));
    main.fit(WorkerSignal::Begin);
    assert_eq!(
        main.fit(WorkerSignal::Epoch(Some(progress(2)))),
        vec![
            WorkerAction::ProcessTrain(LearnerEvent::StartSplit {
                epoch_number: 2,
                total_items: 100,
            }),
            TRAIN,
            WorkerAction::ProcessTrain(LearnerEvent::EndSplit(2)),
            WorkerAction::PollInterrupter,
        ]
    );
    let mut other = DdpWorker::start(config(3));
    other.fit(WorkerSignal::Begin);
    assert_eq!(
        other.fit(WorkerSignal::Epoch(Some(progress(2)))),
        vec![TRAIN, WorkerAction::PollInterrupter]
    );
}

#[test]
fn the_worker_finishes_when_no_epoch_is_left() {
    let mut worker = DdpWorker::start(config(0));
    worker.fit(WorkerSignal::Begin);
    assert_eq!(worker.fit(WorkerSignal::Epoch(None)), vec![WorkerAction::Finish]);
    assert_eq!(worker.phase, WorkerPhase::Finished);
}

#[test]
fn an_interruption_ends_a_training_without_early_stopping() {
    let mut worker = trained(config(0), 2);
    assert_eq!(worker.fit(WorkerSignal::Interrupted(true)), vec![WorkerAction::Finish]);
    assert_eq!(worker.phase, WorkerPhase::Finished);
}

#[test]
fn every_worker_with_early_stopping_reaches_the_barrier() {
    for interrupted in [false, true] {
        let mut main = trained(WorkerConfig { has_early_stopping: true, ..config(0) }, 2);
        assert_eq!(
            main.fit(WorkerSignal::Interrupted(interrupted)),
            vec![
                VALIDATION_STARTS,
                VALIDATE,
                WorkerAction::WaitAtBarrier,
                WorkerAction::FlushEvents,
                WorkerAction::PollInterrupter,
            ]
        );
        let mut other = trained(WorkerConfig { has_early_stopping: true, ..config(1) }, 2);
        assert_eq!(
            other.fit(WorkerSignal::Interrupted(interrupted)),
            vec![
                WorkerAction::WaitAtBarrier,
                WorkerAction::FlushEvents,
                WorkerAction::PollInterrupter,
            ]
        );
    }
}

#[test]
fn events_are_worked_off_before_a_checkpoint() {
    let mut worker = trained(WorkerConfig { has_checkpointer: true, ..config(0) }, 2);
    assert_eq!(
        worker.fit(WorkerSignal::Interrupted(false)),
        vec![
            VALIDATION_STARTS,
            VALIDATE,
            WorkerAction::FlushEvents,
            WorkerAction::PollInterrupter,
        ]
    );
    assert_eq!(
        worker.fit(WorkerSignal::Interrupted(false)),
        vec![WorkerAction::Checkpoint(2), WorkerAction::NextEpoch]
    );
    assert_eq!(worker.phase, WorkerPhase::Drawing);
}

#[test]
fn an_interruption_behind_the_validation_prevents_the_checkpoint() {
    let mut worker = trained(WorkerConfig { has_checkpointer: true, ..config(0) }, 2);
    worker.fit(WorkerSignal::Interrupted(false));
    assert_eq!(worker.fit(WorkerSignal::Interrupted(true)), vec![WorkerAction::Finish]);
}

#[test]
fn early_stopping_is_asked_behind_the_checkpoint() {
    let both = WorkerConfig { has_checkpointer: true, has_early_stopping: true, ..config(0) };
    for stop in [false, true] {
        let mut worker = trained(both, 2);
        worker.fit(WorkerSignal::Interrupted(false));
        assert_eq!(
            worker.fit(WorkerSignal::Interrupted(false)),
            vec![WorkerAction::Checkpoint(2), WorkerAction::PollEarlyStopping(2)]
        );
        assert_eq!(
            worker.fit(WorkerSignal::StopEarly(stop)),
            vec![if stop { WorkerAction::Finish } else { WorkerAction::NextEpoch }]
        );
    }
}

#[test]
fn a_plain_worker_goes_from_epoch_to_epoch() {
    let mut worker = trained(config(2), 1);
    assert_eq!(
        worker.fit(WorkerSignal::Interrupted(false)),
        vec![WorkerAction::PollInterrupter]
    );
    assert_eq!(worker.fit(WorkerSignal::Interrupted(false)), vec![WorkerAction::NextEpoch]);
    assert_eq!(
        worker.fit(WorkerSignal::Epoch(Some(progress(2)))),
        vec![TRAIN, WorkerAction::PollInterrupter]
    );
}

#[test]
fn barriers_match_trainings_in_a_whole_run() {
    for device_index in 0..4 {
        let mut worker =
            DdpWorker::start(WorkerConfig { has_early_stopping: true, ..config(device_index) });
        let mut trace = worker.fit(WorkerSignal::Begin);
        for epoch in 1..=3 {
            trace.extend(worker.fit(WorkerSignal::Epoch(Some(progress(epoch)))));
            trace.extend(worker.fit(WorkerSignal::Interrupted(epoch == 2)));
            trace.extend(worker.fit(WorkerSignal::Interrupted(false)));
            trace.extend(worker.fit(WorkerSignal::StopEarly(false)));
        }
        trace.extend(worker.fit(WorkerSignal::Epoch(None)));
        let count = |wanted: fn(&WorkerAction) -> bool| trace.iter().filter(|a| wanted(a)).count();
        assert_eq!(count(|a| matches!(a, WorkerAction::Train { .. })), 3);
        assert_eq!(count(|a| matches!(a, WorkerAction::WaitAtBarrier)), 3);
        assert_eq!(count(|a| matches!(a, WorkerAction::Finish)), 1);
        assert_eq!(trace.last(), Some(&WorkerAction::Finish));
    }
}

#[test]
fn threads_are_named_after_their_devices() {
    for (device_index, name) in [
        (0, "ddp-worker-0"),
        (7, "ddp-worker-7"),
        (10, "ddp-worker-10"),
        (905, "ddp-worker-905"),
        (9999, "ddp-worker-9999"),
        (18446744073709551615, "ddp-worker-18446744073709551615"),
    ] {
        assert_eq!(DdpWorker::start(config(device_index)).thread_name(), name);
    }
    assert_eq!(DdpWorker::start(config(9999)).thread_name().len(), 15);
}
