use ddp_sync::worker::{
    DdpWorker, LearnerEvent, Progress, WorkerAction, WorkerConfig, WorkerPhase, WorkerSignal,
};

const WORKERS: usize = 3;
const EPOCHS: usize = 3;

fn config(device_index: usize) -> WorkerConfig {
    WorkerConfig {
        device_index,
        peer_count: WORKERS,
        starting_epoch: 1,
        num_epochs: EPOCHS,
        train_total_items: 100,
        valid_total_items: 20,
        has_validation: device_index == 0,
        has_checkpointer: device_index == 0,
        has_early_stopping: true,
    }
}

fn progress(epoch: usize) -> Progress {
    Progress { items_processed: epoch, items_total: EPOCHS }
}

fn validation(epoch: usize) -> WorkerAction {
    WorkerAction::Validate {
        progress: progress(epoch),
        split_end: LearnerEvent::EndSplit(epoch),
        epoch_end: LearnerEvent::EndEpoch(epoch),
    }
}

/// A worker, what it has performed, and what it was told to perform since.
struct Member {
    worker: DdpWorker,
    performed: Vec<WorkerAction>,
    pending: Vec<WorkerAction>,
    epochs: usize,
}

impl Member {
    fn start(device_index: usize) -> Self {
        Member {
            worker: DdpWorker::start(config(device_index)),
            performed: Vec::new(),
            pending: Vec::new(),
            epochs: 0,
        }
    }

    fn passed(&self) -> usize {
        self.performed.iter().filter(|a| matches!(a, WorkerAction::WaitAtBarrier)).count()
    }

    fn at_barrier(&self) -> bool {
        self.pending.first() == Some(&WorkerAction::WaitAtBarrier)
    }

    fn reached(&self, count: usize) -> bool {
        self.passed() >= count || (self.passed() + 1 == count && self.at_barrier())
    }

    /// Tells the worker what it waits for. The training stops early after `stop`.
    fn tell(&mut self, stop: usize) {
        let signal = match self.worker.phase {
            WorkerPhase::Created => WorkerSignal::Begin,
            WorkerPhase::Drawing => {
                self.epochs += 1;
                let next = if self.epochs <= EPOCHS { Some(progress(self.epochs)) } else { None };
                WorkerSignal::Epoch(next)
            }
            WorkerPhase::Trained(_) | WorkerPhase::Validated(_) => WorkerSignal::Interrupted(false),
            WorkerPhase::Measured(p) => WorkerSignal::StopEarly(p.items_processed == stop),
            WorkerPhase::Finished => unreachable!(),
        };
        self.pending = self.worker.fit(signal);
    }
}

/// Runs the workers to the end. `pick` chooses who goes on among those who can.
fn run(stop: usize, mut pick: impl FnMut(&[usize]) -> usize) -> Vec<Member> {
    let mut team: Vec<Member> = (0..WORKERS).map(Member::start).collect();
    loop {
        let mut able: Vec<usize> = Vec::new();
        for (place, member) in team.iter().enumerate() {
            let count = member.passed() + 1;
            let held = member.at_barrier() && !team.iter().all(|peer| peer.reached(count));
            let over = member.pending.is_empty() && member.worker.phase == WorkerPhase::Finished;
            if !held && !over {
                able.push(place);
            }
        }
        if able.is_empty() {
            return team;
        }
        let place = pick(&able);
        if team[place].pending.is_empty() {
            team[place].tell(stop);
            continue;
        }
        let trained = team[place].epochs;
        match team[place].pending[0] {
            WorkerAction::PollEarlyStopping(epoch) => {
                assert_eq!(epoch, trained);
                assert!(team[0].performed.contains(&validation(epoch)));
            }
            WorkerAction::FlushEvents => {
                assert!(team[0].performed.contains(&validation(trained)));
            }
            WorkerAction::WaitAtBarrier => {
                assert!(team.iter().all(|peer| peer.epochs >= trained));
            }
            _ => {}
        }
        let action = team[place].pending.remove(0);
        team[place].performed.push(action);
    }
}

fn assert_all_finished(team: &[Member], epochs: usize) {
    for member in team {
        assert_eq!(member.performed.last(), Some(&WorkerAction::Finish));
        assert_eq!(member.passed(), epochs);
    }
}

#[test]
fn metrics_are_read_behind_the_validation_when_the_main_worker_lags() {
    let team = run(0, |able| able[able.len() - 1]);
    assert_all_finished(&team, EPOCHS);
}

#[test]
fn metrics_are_read_behind_the_validation_when_the_main_worker_leads() {
    let team = run(0, |able| able[0]);
    assert_all_finished(&team, EPOCHS);
}

#[test]
fn metrics_are_read_behind_the_validation_in_mixed_interleavings() {
    for seed in 1..200usize {
        let mut state = seed;
        let team = run(0, |able| {
            state = (state * 1103 + 12345) % 65536;
            able[(state / 16) % able.len()]
        });
        assert_all_finished(&team, EPOCHS);
    }
}

#[test]
fn workers_that_stop_early_stop_together() {
    let team = run(2, |able| able[able.len() - 1]);
    assert_all_finished(&team, 2);
    assert!(!team[0].performed.contains(&validation(3)));
}
