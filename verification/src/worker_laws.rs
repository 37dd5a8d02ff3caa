//! What holds of a worker over the whole of a training.

use crate::worker::{
    decimal, digit, only_if, worker_name, DdpWorker, LearnerEvent, Progress, WorkerAction,
    WorkerPhase, WorkerSignal,
};
use vstd::prelude::*;

verus! {

impl DdpWorker {
    /// The worker waits for each of the signals in turn.
    pub open spec fn expects_all(self, signals: Seq<WorkerSignal>) -> bool
        decreases signals.len(),
    {
        signals.len() == 0 || (self.expects_all(signals.drop_last()) && self.after_all(
            signals.drop_last(),
        ).expects(signals.last()))
    }

    /// The worker after the signals.
    pub open spec fn after_all(self, signals: Seq<WorkerSignal>) -> Self
        decreases signals.len(),
    {
        if signals.len() == 0 {
            self
        } else {
            self.after_all(signals.drop_last()).after(signals.last())
        }
    }

    /// Everything that the worker does on the signals.
    pub open spec fn trace(self, signals: Seq<WorkerSignal>) -> Seq<WorkerAction>
        decreases signals.len(),
    {
        if signals.len() == 0 {
            Seq::empty()
        } else {
            self.trace(signals.drop_last()) + self.after_all(signals.drop_last()).actions(
                signals.last(),
            )
        }
    }
}

/// How many of the actions are of a kind.
pub open spec fn tally(actions: Seq<WorkerAction>, kind: spec_fn(WorkerAction) -> bool) -> nat
    decreases actions.len(),
{
    if actions.len() == 0 {
        0
    } else {
        tally(actions.drop_last(), kind) + if kind(actions.last()) {
            1nat
        } else {
            0nat
        }
    }
}

/// How many epochs are trained.
pub open spec fn trainings(actions: Seq<WorkerAction>) -> nat {
    tally(actions, |action: WorkerAction| action is Train)
}

/// How often the worker waits for its peers.
pub open spec fn barriers(actions: Seq<WorkerAction>) -> nat {
    tally(actions, |action: WorkerAction| action is WaitAtBarrier)
}

/// How often the model is handed back.
pub open spec fn finishes(actions: Seq<WorkerAction>) -> nat {
    tally(actions, |action: WorkerAction| action is Finish)
}

pub(crate) proof fn lemma_tally_concat(
    first: Seq<WorkerAction>,
    second: Seq<WorkerAction>,
    kind: spec_fn(WorkerAction) -> bool,
)
    ensures
        tally(first + second, kind) == tally(first, kind) + tally(second, kind),
    decreases second.len(),
{
    if second.len() == 0 {
        assert(first + second =~= first);
    } else {
        assert((first + second).drop_last() =~= first + second.drop_last());
        lemma_tally_concat(first, second.drop_last(), kind);
    }
}

proof fn lemma_tally_few(
    a: WorkerAction,
    b: WorkerAction,
    c: WorkerAction,
    kind: spec_fn(WorkerAction) -> bool,
)
    ensures
        tally(Seq::empty(), kind) == 0,
        tally(seq![a], kind) == if kind(a) {
            1nat
        } else {
            0nat
        },
        tally(seq![a, b, c], kind) == tally(seq![a], kind) + tally(seq![b], kind) + tally(
            seq![c],
            kind,
        ),
{
    reveal_with_fuel(tally, 4);
    assert(seq![a].drop_last() =~= Seq::empty());
    assert(seq![a, b, c].drop_last() =~= seq![a, b]);
    assert(seq![a, b].drop_last() =~= seq![a]);
    assert(seq![b].drop_last() =~= Seq::empty());
    assert(seq![c].drop_last() =~= Seq::empty());
}

proof fn lemma_tally_only_if(
    condition: bool,
    action: WorkerAction,
    kind: spec_fn(WorkerAction) -> bool,
)
    ensures
        tally(only_if(condition, action), kind) == if condition && kind(action) {
            1nat
        } else {
            0nat
        },
{
    lemma_tally_few(action, action, action, kind);
}

pub(crate) proof fn lemma_tally_push(
    actions: Seq<WorkerAction>,
    action: WorkerAction,
    kind: spec_fn(WorkerAction) -> bool,
)
    ensures
        tally(actions.push(action), kind) == tally(actions, kind) + if kind(action) {
            1nat
        } else {
            0nat
        },
{
    assert(actions.push(action).drop_last() =~= actions);
}

/// How many actions of a kind the worker takes on one signal.
pub(crate) proof fn lemma_tally_step(
    worker: DdpWorker,
    signal: WorkerSignal,
    kind: spec_fn(WorkerAction) -> bool,
)
    requires
        worker.expects(signal),
        forall|action: WorkerAction| #[trigger]
            kind(action) ==> action is Train || action is WaitAtBarrier || action is Finish,
    ensures
        tally(worker.actions(signal), kind) == if worker.ends(signal) {
            if kind(WorkerAction::Finish) {
                1nat
            } else {
                0nat
            }
        } else if worker.phase is Drawing {
            if kind(
                WorkerAction::Train {
                    progress: signal->Epoch_0.unwrap(),
                    peer_count: worker.config.peer_count,
                },
            ) {
                1nat
            } else {
                0nat
            }
        } else if worker.phase is Trained && worker.config.has_early_stopping {
            if kind(WorkerAction::WaitAtBarrier) {
                1nat
            } else {
                0nat
            }
        } else {
            0nat
        },
{
    let config = worker.config;
    let finish = WorkerAction::Finish;
    lemma_tally_few(finish, finish, finish, kind);
    if !worker.ends(signal) {
        match worker.phase {
            WorkerPhase::Created => {
                let setup = WorkerAction::PrepareEpochs {
                    starting_epoch: config.starting_epoch,
                    num_epochs: config.num_epochs,
                };
                let tail = seq![WorkerAction::Fork, WorkerAction::ShardGradients, setup];
                let optional = only_if(config.has_validation, WorkerAction::PrepareValidation);
                let head = seq![WorkerAction::PrepareTraining];
                lemma_tally_few(WorkerAction::Fork, WorkerAction::ShardGradients, setup, kind);
                lemma_tally_few(WorkerAction::ShardGradients, setup, setup, kind);
                lemma_tally_few(setup, setup, setup, kind);
                lemma_tally_few(
                    WorkerAction::PrepareTraining,
                    WorkerAction::PrepareTraining,
                    WorkerAction::PrepareTraining,
                    kind,
                );
                lemma_tally_only_if(config.has_validation, WorkerAction::PrepareValidation, kind);
                lemma_tally_concat(head, optional, kind);
                lemma_tally_concat(head + optional, tail, kind);
                lemma_tally_push(config.preparation(), WorkerAction::NextEpoch, kind);
            },
            WorkerPhase::Drawing => {
                let progress = signal->Epoch_0.unwrap();
                let epoch = progress.items_processed;
                let first = WorkerAction::ProcessTrain(
                    LearnerEvent::StartSplit {
                        epoch_number: epoch,
                        total_items: config.train_total_items,
                    },
                );
                let train = WorkerAction::Train { progress, peer_count: config.peer_count };
                let last = WorkerAction::ProcessTrain(LearnerEvent::EndSplit(epoch));
                lemma_tally_only_if(config.is_main(), first, kind);
                lemma_tally_only_if(config.is_main(), last, kind);
                lemma_tally_few(train, train, train, kind);
                lemma_tally_concat(only_if(config.is_main(), first), seq![train], kind);
                lemma_tally_concat(
                    only_if(config.is_main(), first) + seq![train],
                    only_if(config.is_main(), last),
                    kind,
                );
                lemma_tally_push(config.training(progress), WorkerAction::PollInterrupter, kind);
            },
            WorkerPhase::Trained(progress) => {
                let epoch = progress.items_processed;
                let first = WorkerAction::ProcessValid(
                    LearnerEvent::StartSplit {
                        epoch_number: epoch,
                        total_items: config.valid_total_items,
                    },
                );
                let validate = WorkerAction::Validate {
                    progress,
                    split_end: LearnerEvent::EndSplit(epoch),
                    epoch_end: LearnerEvent::EndEpoch(epoch),
                };
                let a = only_if(config.has_validation, first);
                let b = only_if(config.has_validation, validate);
                let c = only_if(config.has_early_stopping, WorkerAction::WaitAtBarrier);
                let flushes = config.has_checkpointer || config.has_early_stopping;
                let d = only_if(flushes, WorkerAction::FlushEvents);
                lemma_tally_only_if(config.has_validation, first, kind);
                lemma_tally_only_if(config.has_validation, validate, kind);
                lemma_tally_only_if(
                    config.has_early_stopping,
                    WorkerAction::WaitAtBarrier,
                    kind,
                );
                lemma_tally_only_if(flushes, WorkerAction::FlushEvents, kind);
                lemma_tally_concat(a, b, kind);
                lemma_tally_concat(a + b, c, kind);
                lemma_tally_concat(a + b + c, d, kind);
                lemma_tally_push(config.validation(progress), WorkerAction::PollInterrupter, kind);
            },
            WorkerPhase::Validated(progress) => {
                let epoch = progress.items_processed;
                lemma_tally_only_if(
                    config.has_checkpointer,
                    WorkerAction::Checkpoint(epoch),
                    kind,
                );
                lemma_tally_push(
                    config.checkpoint(progress),
                    if config.has_early_stopping {
                        WorkerAction::PollEarlyStopping(epoch)
                    } else {
                        WorkerAction::NextEpoch
                    },
                    kind,
                );
            },
            WorkerPhase::Measured(_) => {
                let next = WorkerAction::NextEpoch;
                lemma_tally_few(next, next, next, kind);
            },
            WorkerPhase::Finished => {},
        }
    }
}

/// A worker never changes its settings.
pub proof fn law_settings_kept(worker: DdpWorker, signals: Seq<WorkerSignal>)
    ensures
        worker.after_all(signals).config == worker.config,
    decreases signals.len(),
{
    if signals.len() > 0 {
        law_settings_kept(worker, signals.drop_last());
    }
}

/// With early stopping, a worker passes the barrier once in every epoch that it trains, whatever
/// it is told: whether or not it is the main worker, and interrupted or not. Without early
/// stopping it never waits there.
pub proof fn law_barrier_once_per_epoch(worker: DdpWorker, signals: Seq<WorkerSignal>)
    requires
        worker.phase is Created,
        worker.expects_all(signals),
    ensures
        worker.config.has_early_stopping ==> trainings(worker.trace(signals)) == barriers(
            worker.trace(signals),
        ) + if worker.after_all(signals).phase is Trained {
            1nat
        } else {
            0nat
        },
        !worker.config.has_early_stopping ==> barriers(worker.trace(signals)) == 0,
    decreases signals.len(),
{
    let is_train = |action: WorkerAction| action is Train;
    let is_barrier = |action: WorkerAction| action is WaitAtBarrier;
    if signals.len() == 0 {
        let finish = WorkerAction::Finish;
        lemma_tally_few(finish, finish, finish, is_train);
        lemma_tally_few(finish, finish, finish, is_barrier);
    } else {
        let earlier = signals.drop_last();
        let reached = worker.after_all(earlier);
        law_barrier_once_per_epoch(worker, earlier);
        law_settings_kept(worker, earlier);
        lemma_tally_step(reached, signals.last(), is_train);
        lemma_tally_step(reached, signals.last(), is_barrier);
        lemma_tally_concat(worker.trace(earlier), reached.actions(signals.last()), is_train);
        lemma_tally_concat(worker.trace(earlier), reached.actions(signals.last()), is_barrier);
    }
}

/// Workers that are told the same train the same epochs and meet at the same barriers: which
/// device they are on, and whether they validate or checkpoint, makes no difference to when they
/// wait for each other and when they end.
pub proof fn law_peers_stay_in_step(
    first: DdpWorker,
    second: DdpWorker,
    signals: Seq<WorkerSignal>,
    action: WorkerAction,
)
    requires
        first.phase is Created,
        second.phase is Created,
        first.config.has_early_stopping == second.config.has_early_stopping,
        first.config.peer_count == second.config.peer_count,
        first.expects_all(signals),
        action is Train || action is WaitAtBarrier || action is Finish,
    ensures
        second.expects_all(signals),
        first.after_all(signals).phase == second.after_all(signals).phase,
        tally(first.trace(signals), |other: WorkerAction| other == action) == tally(
            second.trace(signals),
            |other: WorkerAction| other == action,
        ),
    decreases signals.len(),
{
    let same = |other: WorkerAction| other == action;
    if signals.len() > 0 {
        let earlier = signals.drop_last();
        let signal = signals.last();
        law_peers_stay_in_step(first, second, earlier, action);
        law_settings_kept(first, earlier);
        law_settings_kept(second, earlier);
        lemma_tally_step(first.after_all(earlier), signal, same);
        lemma_tally_step(second.after_all(earlier), signal, same);
        lemma_tally_concat(
            first.trace(earlier),
            first.after_all(earlier).actions(signal),
            same,
        );
        lemma_tally_concat(
            second.trace(earlier),
            second.after_all(earlier).actions(signal),
            same,
        );
    }
}

/// The model is handed back once, when the training ends, and nothing comes after it.
pub proof fn law_finishes_once(worker: DdpWorker, signals: Seq<WorkerSignal>)
    requires
        worker.phase is Created,
        worker.expects_all(signals),
    ensures
        finishes(worker.trace(signals)) == if worker.after_all(signals).phase is Finished {
            1nat
        } else {
            0nat
        },
        worker.after_all(signals).phase is Finished ==> {
            &&& worker.trace(signals).len() > 0
            &&& worker.trace(signals).last() is Finish
            &&& forall|signal: WorkerSignal| !worker.after_all(signals).expects(signal)
        },
    decreases signals.len(),
{
    let is_finish = |action: WorkerAction| action is Finish;
    if signals.len() > 0 {
        let earlier = signals.drop_last();
        let reached = worker.after_all(earlier);
        law_finishes_once(worker, earlier);
        lemma_tally_step(reached, signals.last(), is_finish);
        lemma_tally_concat(worker.trace(earlier), reached.actions(signals.last()), is_finish);
    }
}

/// A worker that is not the main one reports nothing of its training.
pub proof fn law_only_main_reports_training(worker: DdpWorker, signal: WorkerSignal)
    requires
        worker.expects(signal),
        !worker.config.is_main(),
    ensures
        forall|i: int|
            0 <= i < worker.actions(signal).len() ==> !((
            #[trigger] worker.actions(signal)[i]) is ProcessTrain),
{
}

/// A worker without validation data neither validates nor reports a validation. So where only
/// the main worker is given validation data, only the main worker validates.
pub proof fn law_validates_only_with_data(worker: DdpWorker, signal: WorkerSignal)
    requires
        worker.expects(signal),
        !worker.config.has_validation,
    ensures
        forall|i: int|
            0 <= i < worker.actions(signal).len() ==> {
                let action = #[trigger] worker.actions(signal)[i];
                !(action is Validate) && !(action is ProcessValid)
                    && !(action is PrepareValidation)
            },
{
}

/// With early stopping, a worker waits at the barrier behind its own validation, and lets the
/// event processor work off the events right behind the barrier. So its own validation events
/// are handed over before it reaches the barrier.
pub proof fn law_events_worked_off_behind_barrier(worker: DdpWorker, signal: WorkerSignal, i: int)
    requires
        worker.expects(signal),
        worker.config.has_early_stopping,
        0 <= i < worker.actions(signal).len(),
        worker.actions(signal)[i] is WaitAtBarrier,
    ensures
        forall|j: int|
            0 <= j < worker.actions(signal).len() && ((
            #[trigger] worker.actions(signal)[j]) is Validate || worker.actions(
                signal,
            )[j] is ProcessValid) ==> j < i,
        i + 1 < worker.actions(signal).len(),
        worker.actions(signal)[i + 1] is FlushEvents,
{
}

/// With early stopping, the metrics of an epoch are read only once the worker has passed the
/// barrier of the epoch and the events are worked off: the worker comes to ask for an early stop
/// only from [`WorkerPhase::Validated`], which it enters with both behind it.
pub proof fn law_metrics_read_behind_barrier(
    worker: DdpWorker,
    first: WorkerSignal,
    second: WorkerSignal,
    i: int,
)
    requires
        worker.phase is Trained,
        worker.expects(first),
        !worker.ends(first),
        worker.after(first).expects(second),
        0 <= i < worker.after(first).actions(second).len(),
        worker.after(first).actions(second)[i] is PollEarlyStopping,
    ensures
        exists|j: int|
            0 <= j < worker.actions(first).len() && (
            #[trigger] worker.actions(first)[j]) is WaitAtBarrier,
        exists|j: int|
            0 <= j < worker.actions(first).len() && (
            #[trigger] worker.actions(first)[j]) is FlushEvents,
        worker.after(first).actions(second)[i] == WorkerAction::PollEarlyStopping(
            worker.phase->Trained_0.items_processed,
        ),
{
    let config = worker.config;
    let actions = worker.actions(first);
    assert(config.has_early_stopping);
    let at = if config.has_validation {
        2int
    } else {
        0int
    };
    assert(actions[at] is WaitAtBarrier);
    assert(actions[at + 1] is FlushEvents);
}

/// A checkpoint is made of an epoch only once its events are worked off.
pub proof fn law_checkpoint_behind_events(
    worker: DdpWorker,
    first: WorkerSignal,
    second: WorkerSignal,
    i: int,
)
    requires
        worker.phase is Trained,
        worker.expects(first),
        !worker.ends(first),
        worker.after(first).expects(second),
        0 <= i < worker.after(first).actions(second).len(),
        worker.after(first).actions(second)[i] is Checkpoint,
    ensures
        exists|j: int|
            0 <= j < worker.actions(first).len() && (
            #[trigger] worker.actions(first)[j]) is FlushEvents,
{
    let actions = worker.actions(first);
    assert(worker.config.has_checkpointer);
    assert(actions[actions.len() - 2] is FlushEvents);
}

/// Only an epoch that was not interrupted is checkpointed.
pub proof fn law_interrupted_epoch_not_checkpointed(worker: DdpWorker, signal: WorkerSignal, i: int)
    requires
        worker.expects(signal),
        0 <= i < worker.actions(signal).len(),
        worker.actions(signal)[i] is Checkpoint,
    ensures
        worker.phase is Validated,
        signal == WorkerSignal::Interrupted(false),
        worker.config.has_checkpointer,
        worker.actions(signal)[i] == WorkerAction::Checkpoint(
            worker.phase->Validated_0.items_processed,
        ),
{
}

/// The last thing that a worker does on a signal is to ask for what it then waits for, and it
/// asks for nothing before that.
pub proof fn law_one_question_at_a_time(worker: DdpWorker, signal: WorkerSignal)
    requires
        worker.expects(signal),
    ensures
        ({
            let actions = worker.actions(signal);
            let phase = worker.after(signal).phase;
            &&& actions.len() > 0
            &&& actions.last() is NextEpoch <==> phase is Drawing
            &&& actions.last() is PollInterrupter <==> phase is Trained || phase is Validated
            &&& actions.last() is PollEarlyStopping <==> phase is Measured
            &&& actions.last() is Finish <==> phase is Finished
            &&& forall|i: int|
                0 <= i < actions.len() - 1 ==> {
                    let action = #[trigger] actions[i];
                    &&& !(action is NextEpoch)
                    &&& !(action is PollInterrupter)
                    &&& !(action is PollEarlyStopping)
                    &&& !(action is Finish)
                }
        }),
{
    let actions = worker.actions(signal);
    let config = worker.config;
    if !worker.ends(signal) {
        match worker.phase {
            WorkerPhase::Created => {
                assert(actions.drop_last() =~= config.preparation());
            },
            WorkerPhase::Drawing => {
                assert(actions.drop_last() =~= config.training(signal->Epoch_0.unwrap()));
            },
            WorkerPhase::Trained(progress) => {
                assert(actions.drop_last() =~= config.validation(progress));
            },
            WorkerPhase::Validated(progress) => {
                assert(actions.drop_last() =~= config.checkpoint(progress));
            },
            _ => {},
        }
    }
}

/// To begin, a worker forks the learner, then shares its gradients, then sets up the epochs, each
/// once: from the starting epoch to the last one that its settings name, whatever they are.
/// Before that it sets up its training and, with validation data, its validation; after that it
/// draws the first epoch. It does nothing else.
pub proof fn law_sets_up_once(worker: DdpWorker) -> (places: (int, int, int))
    requires
        worker.phase is Created,
    ensures
        ({
            let actions = worker.actions(WorkerSignal::Begin);
            let (fork, share, epochs) = places;
            &&& 0 < fork < share < epochs < actions.len() - 1
            &&& forall|i: int|
                0 <= i < actions.len() ==> {
                    &&& (#[trigger] actions[i]) is Fork <==> i == fork
                    &&& actions[i] is ShardGradients <==> i == share
                    &&& actions[i] is PrepareEpochs <==> i == epochs
                    &&& actions[i] is PrepareTraining <==> i == 0
                    &&& actions[i] is PrepareValidation <==> i == 1 && worker.config.has_validation
                }
            &&& actions[epochs] matches WorkerAction::PrepareEpochs { starting_epoch, num_epochs }
                && starting_epoch == worker.config.starting_epoch && num_epochs
                == worker.config.num_epochs
            &&& actions.last() is NextEpoch
            &&& actions.len() == if worker.config.has_validation {
                6int
            } else {
                5int
            }
            &&& worker.after(WorkerSignal::Begin).phase is Drawing
            &&& worker.after(WorkerSignal::Begin).config == worker.config
        }),
{
    let actions = worker.actions(WorkerSignal::Begin);
    let skipped = if worker.config.has_validation {
        1int
    } else {
        0int
    };
    assert(actions.len() == 5 + skipped);
    assert(actions[0] is PrepareTraining);
    assert(worker.config.has_validation ==> actions[1] is PrepareValidation);
    assert(actions[1 + skipped] is Fork);
    assert(actions[2 + skipped] is ShardGradients);
    assert(actions[3 + skipped] is PrepareEpochs);
    assert(actions[4 + skipped] is NextEpoch);
    (1 + skipped, 2 + skipped, 3 + skipped)
}

/// A worker that draws an epoch trains it, once, with all its peers, and then asks whether it is
/// interrupted. The worker on the first device says right before that the epoch begins, with its
/// number and the number of training items, and right behind that it ends; no other worker says
/// anything. It does nothing else.
pub proof fn law_trains_the_drawn_epoch(worker: DdpWorker, progress: Progress) -> (place: int)
    requires
        worker.phase is Drawing,
    ensures
        ({
            let signal = WorkerSignal::Epoch(Some(progress));
            let actions = worker.actions(signal);
            &&& 0 <= place < actions.len() - 1
            &&& actions[place] matches WorkerAction::Train { progress: trained, peer_count }
                && trained == progress && peer_count == worker.config.peer_count
            &&& forall|i: int|
                0 <= i < actions.len() && (#[trigger] actions[i]) is Train ==> i == place
            &&& worker.config.device_index == 0 ==> {
                &&& place == 1
                &&& actions[place - 1] == WorkerAction::ProcessTrain(
                    LearnerEvent::StartSplit {
                        epoch_number: progress.items_processed,
                        total_items: worker.config.train_total_items,
                    },
                )
                &&& actions[place + 1] == WorkerAction::ProcessTrain(
                    LearnerEvent::EndSplit(progress.items_processed),
                )
                &&& actions.len() == 4
            }
            &&& worker.config.device_index != 0 ==> actions.len() == 2
            &&& actions.last() is PollInterrupter
            &&& worker.after(signal).phase == WorkerPhase::Trained(progress)
            &&& worker.after(signal).config == worker.config
        }),
{
    let actions = worker.actions(WorkerSignal::Epoch(Some(progress)));
    let place = if worker.config.device_index == 0 {
        1int
    } else {
        0int
    };
    assert(actions[place] is Train);
    assert(actions.last() is PollInterrupter);
    place
}

/// Whatever its other settings are, a worker with validation data that goes on behind the training
/// of an epoch validates that epoch, once: it says that the validation begins, with the number of
/// the epoch and the number of validation items, and right behind that validates the epoch and
/// ends the split and the epoch of the same number. It says nothing else of a validation.
pub proof fn law_validates_the_trained_epoch(
    worker: DdpWorker,
    progress: Progress,
    interrupted: bool,
) -> (place: int)
    requires
        worker.phase == WorkerPhase::Trained(progress),
        worker.config.has_validation,
        interrupted ==> worker.config.has_early_stopping,
    ensures
        ({
            let actions = worker.actions(WorkerSignal::Interrupted(interrupted));
            &&& 0 < place < actions.len()
            &&& actions[place - 1] == WorkerAction::ProcessValid(
                LearnerEvent::StartSplit {
                    epoch_number: progress.items_processed,
                    total_items: worker.config.valid_total_items,
                },
            )
            &&& actions[place] matches WorkerAction::Validate {
                progress: validated,
                split_end,
                epoch_end,
            } && validated == progress && split_end == LearnerEvent::EndSplit(
                progress.items_processed,
            ) && epoch_end == LearnerEvent::EndEpoch(progress.items_processed)
            &&& forall|i: int|
                0 <= i < actions.len() ==> {
                    &&& (#[trigger] actions[i]) is Validate ==> i == place
                    &&& actions[i] is ProcessValid ==> i == place - 1
                }
        }),
{
    let actions = worker.actions(WorkerSignal::Interrupted(interrupted));
    assert(actions[0] is ProcessValid);
    assert(actions[1] is Validate);
    1
}

/// A worker that goes on behind the training of an epoch waits at the barrier, once, exactly with
/// early stopping, and lets the events be worked off, once, exactly with early stopping or a
/// checkpointer. The barrier comes behind the validation and the events behind the barrier. Last
/// of all it asks again whether it is interrupted. Besides the validation it does nothing else.
pub proof fn law_meets_behind_the_validation(
    worker: DdpWorker,
    progress: Progress,
    interrupted: bool,
)
    requires
        worker.phase == WorkerPhase::Trained(progress),
        interrupted ==> worker.config.has_early_stopping,
    ensures
        ({
            let config = worker.config;
            let signal = WorkerSignal::Interrupted(interrupted);
            let actions = worker.actions(signal);
            let validated = if config.has_validation {
                2int
            } else {
                0int
            };
            let met = if config.has_early_stopping {
                1int
            } else {
                0int
            };
            let flushed = if config.has_early_stopping || config.has_checkpointer {
                1int
            } else {
                0int
            };
            &&& actions.len() == validated + met + flushed + 1
            &&& forall|i: int|
                0 <= i < actions.len() ==> {
                    &&& (#[trigger] actions[i]) is ProcessValid || actions[i] is Validate <==> i
                        < validated
                    &&& actions[i] is WaitAtBarrier <==> validated <= i < validated + met
                    &&& actions[i] is FlushEvents <==> validated + met <= i < actions.len() - 1
                    &&& actions[i] is PollInterrupter <==> i == actions.len() - 1
                }
            &&& worker.after(signal).phase == WorkerPhase::Validated(progress)
            &&& worker.after(signal).config == config
        }),
{
    let config = worker.config;
    let actions = worker.actions(WorkerSignal::Interrupted(interrupted));
    let validated = if config.has_validation {
        2int
    } else {
        0int
    };
    if config.has_validation {
        assert(actions[0] is ProcessValid);
        assert(actions[1] is Validate);
    }
    if config.has_early_stopping {
        assert(actions[validated] is WaitAtBarrier);
        assert(actions[validated + 1] is FlushEvents);
    } else if config.has_checkpointer {
        assert(actions[validated] is FlushEvents);
    }
    assert(actions.last() is PollInterrupter);
}

/// With early stopping, an interruption behind the training of an epoch changes nothing yet: the
/// worker does what it does without one. Without early stopping it ends the training at once.
pub proof fn law_interruption_waits_for_the_barrier(worker: DdpWorker, progress: Progress)
    requires
        worker.phase == WorkerPhase::Trained(progress),
    ensures
        ({
            let told = WorkerSignal::Interrupted(true);
            let not_told = WorkerSignal::Interrupted(false);
            &&& worker.config.has_early_stopping ==> {
                &&& worker.actions(told) == worker.actions(not_told)
                &&& worker.after(told) == worker.after(not_told)
            }
            &&& !worker.config.has_early_stopping ==> {
                &&& worker.actions(told).len() == 1
                &&& worker.actions(told)[0] is Finish
                &&& worker.after(told).phase is Finished
                &&& forall|next: WorkerSignal| !worker.after(told).expects(next)
            }
        }),
{
}

/// With or without early stopping, an interruption behind the validation of an epoch ends the
/// training: the worker hands the model back, does nothing else and waits for nothing more.
pub proof fn law_interruption_behind_the_validation_ends_the_training(
    worker: DdpWorker,
    progress: Progress,
)
    requires
        worker.phase == WorkerPhase::Validated(progress),
    ensures
        ({
            let told = WorkerSignal::Interrupted(true);
            &&& worker.actions(told).len() == 1
            &&& worker.actions(told)[0] is Finish
            &&& worker.after(told).phase is Finished
            &&& forall|next: WorkerSignal| !worker.after(told).expects(next)
        }),
{
}

/// A worker that waits for signals waits for the first of them, and behind them for the next.
proof fn lemma_expects_prefix(worker: DdpWorker, signals: Seq<WorkerSignal>, k: int)
    requires
        worker.expects_all(signals),
        0 <= k < signals.len(),
    ensures
        worker.expects_all(signals.take(k)),
        worker.after_all(signals.take(k)).expects(signals[k]),
        worker.after_all(signals.take(k + 1)) == worker.after_all(signals.take(k)).after(
            signals[k],
        ),
        worker.trace(signals.take(k + 1)) == worker.trace(signals.take(k)) + worker.after_all(
            signals.take(k),
        ).actions(signals[k]),
    decreases signals.len(),
{
    assert(signals.take(k + 1).drop_last() =~= signals.take(k));
    if k == signals.len() - 1 {
        assert(signals.drop_last() =~= signals.take(k));
    } else {
        lemma_expects_prefix(worker, signals.drop_last(), k);
        assert(signals.drop_last().take(k) =~= signals.take(k));
    }
}

/// A worker asks twice in an epoch whether it is interrupted. Once it reads an interruption the
/// second time, the training is over: all that it does then is to hand the model back, so it
/// reads no metrics, makes no checkpoint and neither draws nor trains another epoch.
pub proof fn law_nothing_follows_an_interruption_read_twice(
    worker: DdpWorker,
    signals: Seq<WorkerSignal>,
    k: int,
)
    requires
        worker.phase is Created,
        worker.expects_all(signals),
        1 <= k < signals.len(),
        signals[k - 1] is Interrupted,
        signals[k] == WorkerSignal::Interrupted(true),
    ensures
        k == signals.len() - 1,
        worker.trace(signals) == worker.trace(signals.take(k)).push(WorkerAction::Finish),
        forall|next: WorkerSignal| !worker.after_all(signals).expects(next),
{
    lemma_expects_prefix(worker, signals, k - 1);
    lemma_expects_prefix(worker, signals, k);
    if k < signals.len() - 1 {
        lemma_expects_prefix(worker, signals, k + 1);
    }
    assert(signals.take(k + 1) =~= signals);
    assert(worker.trace(signals) =~= worker.trace(signals.take(k)).push(WorkerAction::Finish));
}

/// A worker that is not interrupted behind the validation of an epoch makes a checkpoint of the
/// epoch exactly with a checkpointer, and once. Then it reads the metrics of the epoch with early
/// stopping, and draws the next epoch without. It does nothing else.
pub proof fn law_checkpoints_the_epoch(worker: DdpWorker, progress: Progress)
    requires
        worker.phase == WorkerPhase::Validated(progress),
    ensures
        ({
            let config = worker.config;
            let signal = WorkerSignal::Interrupted(false);
            let actions = worker.actions(signal);
            &&& actions.len() == if config.has_checkpointer {
                2int
            } else {
                1int
            }
            &&& config.has_checkpointer ==> actions[0] == WorkerAction::Checkpoint(
                progress.items_processed,
            )
            &&& config.has_early_stopping ==> actions.last() == WorkerAction::PollEarlyStopping(
                progress.items_processed,
            ) && worker.after(signal).phase == WorkerPhase::Measured(progress)
            &&& !config.has_early_stopping ==> actions.last() is NextEpoch && worker.after(
                signal,
            ).phase is Drawing
            &&& worker.after(signal).config == config
        }),
{
}

/// A worker whose metrics call for an early stop hands the model back and does nothing else; one
/// whose metrics do not draws the next epoch. A worker with no epoch left hands the model back.
pub proof fn law_metrics_and_epochs_decide_the_end(worker: DdpWorker, progress: Progress)
    ensures
        worker.phase == WorkerPhase::Measured(progress) ==> {
            let stop = WorkerSignal::StopEarly(true);
            let go_on = WorkerSignal::StopEarly(false);
            &&& worker.actions(stop).len() == 1
            &&& worker.actions(stop)[0] is Finish
            &&& worker.after(stop).phase is Finished
            &&& worker.actions(go_on).len() == 1
            &&& worker.actions(go_on)[0] is NextEpoch
            &&& worker.after(go_on).phase is Drawing
            &&& worker.after(go_on).config == worker.config
        },
        worker.phase is Drawing ==> {
            let none_left = WorkerSignal::Epoch(None);
            &&& worker.actions(none_left).len() == 1
            &&& worker.actions(none_left)[0] is Finish
            &&& worker.after(none_left).phase is Finished
        },
{
}

/// A worker waits for the answer to what it asked for last, whatever the answer is, and for
/// nothing else. One that has not begun waits to begin, and one that has handed the model back
/// waits for nothing.
pub proof fn law_waits_for_what_it_asked(
    worker: DdpWorker,
    signal: WorkerSignal,
    next: WorkerSignal,
)
    ensures
        worker.phase is Created ==> (worker.expects(next) <==> next is Begin),
        worker.expects(signal) ==> (worker.after(signal).expects(next) <==> match worker.actions(
            signal,
        ).last() {
            WorkerAction::NextEpoch => next is Epoch,
            WorkerAction::PollInterrupter => next is Interrupted,
            WorkerAction::PollEarlyStopping(_) => next is StopEarly,
            _ => false,
        }),
        worker.phase is Finished ==> !worker.expects(next),
{
    if worker.expects(signal) {
        law_one_question_at_a_time(worker, signal);
    }
}

/// The number that the digits stand for.
pub open spec fn number_of(digits: Seq<char>) -> nat
    decreases digits.len(),
{
    if digits.len() == 0 {
        0
    } else {
        number_of(digits.drop_last()) * 10 + (digits.last() as nat - '0' as nat) as nat
    }
}

/// The name of a worker's thread is `ddp-worker-` followed by the device index in decimal digits,
/// the first of which is not a zero unless it is the only one.
pub proof fn law_thread_name_ends_in_the_device_index(device_index: nat)
    ensures
        worker_name(device_index).len() > 11,
        worker_name(device_index).take(11) == "ddp-worker-"@,
        forall|i: int|
            11 <= i < worker_name(device_index).len() ==> '0' <= (#[trigger] worker_name(
                device_index,
            )[i]) <= '9',
        worker_name(device_index)[11] == '0' ==> worker_name(device_index).len() == 12,
        number_of(worker_name(device_index).skip(11)) == device_index,
{
    reveal_strlit("ddp-worker-");
    let name = worker_name(device_index);
    lemma_decimal_reads_back(device_index);
    assert(name.take(11) =~= "ddp-worker-"@);
    assert(name.skip(11) =~= decimal(device_index));
    assert forall|i: int| 11 <= i < name.len() implies '0' <= (#[trigger] name[i]) <= '9' by {
        assert(name[i] == decimal(device_index)[i - 11]);
    }
    assert(name[11] == decimal(device_index)[0]);
}

proof fn lemma_decimal_reads_back(value: nat)
    ensures
        decimal(value).len() > 0,
        forall|i: int|
            0 <= i < decimal(value).len() ==> '0' <= (#[trigger] decimal(value)[i]) <= '9',
        decimal(value)[0] == '0' ==> value == 0 && decimal(value).len() == 1,
        number_of(decimal(value)) == value,
    decreases value,
{
    if value < 10 {
        assert(decimal(value).drop_last() =~= Seq::empty());
        assert(number_of(Seq::empty()) == 0);
    } else {
        lemma_decimal_reads_back(value / 10);
        assert(decimal(value).drop_last() =~= decimal(value / 10));
    }
}

/// Up to 10000 devices, the name of a worker's thread fits into the 15 bytes that Linux keeps.
pub proof fn law_thread_name_fits(device_index: nat)
    requires
        device_index < 10000,
    ensures
        worker_name(device_index).len() <= 15,
        vstd::utf8::is_ascii_chars(worker_name(device_index)),
{
    reveal_strlit("ddp-worker-");
    reveal_with_fuel(decimal, 5);
}

/// Workers on different devices have threads with different names.
pub proof fn law_thread_names_differ(first: nat, second: nat)
    requires
        worker_name(first) == worker_name(second),
    ensures
        first == second,
{
    let prefix = "ddp-worker-"@;
    assert(decimal(first) =~= worker_name(first).skip(prefix.len() as int));
    assert(decimal(second) =~= worker_name(second).skip(prefix.len() as int));
    lemma_decimal_injective(first, second);
}

proof fn lemma_decimal_injective(first: nat, second: nat)
    requires
        decimal(first) == decimal(second),
    ensures
        first == second,
    decreases first,
{
    lemma_decimal_nonempty(first / 10);
    lemma_decimal_nonempty(second / 10);
    assert(decimal(first).last() == digit(first % 10));
    assert(decimal(second).last() == digit(second % 10));
    assert(first < 10 <==> decimal(first).len() == 1);
    assert(second < 10 <==> decimal(second).len() == 1);
    if first >= 10 && second >= 10 {
        assert(decimal(first).drop_last() =~= decimal(first / 10));
        assert(decimal(second).drop_last() =~= decimal(second / 10));
        lemma_decimal_injective(first / 10, second / 10);
    }
}

proof fn lemma_decimal_nonempty(value: nat)
    ensures
        decimal(value).len() > 0,
{
}

} // verus!
