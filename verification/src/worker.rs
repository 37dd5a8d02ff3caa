//! A worker of a distributed data parallel training: what it does, epoch by epoch.

use vstd::prelude::*;

verus! {

/// How far a training is: the epoch it is in, and the last epoch.
#[derive(Clone, Copy, Debug, PartialEq, Eq, Structural)]
pub struct Progress {
    pub items_processed: usize,
    pub items_total: usize,
}

/// What a worker tells the event processor.
#[derive(Clone, Copy, Debug, PartialEq, Eq, Structural)]
pub enum LearnerEvent {
    StartSplit { epoch_number: usize, total_items: usize },
    EndSplit(usize),
    EndEpoch(usize),
}

/// The settings of a worker.
#[derive(Clone, Copy, Debug, PartialEq, Eq, Structural)]
pub struct WorkerConfig {
    /// The place of the worker's device among the devices of the training.
    pub device_index: usize,
    /// How many workers train together.
    pub peer_count: usize,
    pub starting_epoch: usize,
    pub num_epochs: usize,
    pub train_total_items: usize,
    pub valid_total_items: usize,
    /// The worker was given validation data.
    pub has_validation: bool,
    /// The worker was given a checkpointer.
    pub has_checkpointer: bool,
    /// The training stops early when its metrics say so.
    pub has_early_stopping: bool,
}

/// Something for the worker to do.
#[derive(Clone, Copy, Debug, PartialEq, Eq, Structural)]
pub enum WorkerAction {
    /// Set up the training epochs.
    PrepareTraining,
    /// Set up the validation epochs.
    PrepareValidation,
    /// Move the learner to the worker's device.
    Fork,
    /// Share the gradients of the learner with its peers.
    ShardGradients,
    /// Set up the sequence of epochs.
    PrepareEpochs { starting_epoch: usize, num_epochs: usize },
    /// Draw the next epoch. Answered by [`WorkerSignal::Epoch`].
    NextEpoch,
    /// Hand a training event to the event processor.
    ProcessTrain(LearnerEvent),
    /// Hand a validation event to the event processor.
    ProcessValid(LearnerEvent),
    /// Train for an epoch.
    Train { progress: Progress, peer_count: usize },
    /// Ask whether the training is interrupted. Answered by [`WorkerSignal::Interrupted`].
    PollInterrupter,
    /// Holding the event processor throughout: validate the model, then hand over the
    /// validation event `split_end`, then the training event `epoch_end`.
    Validate { progress: Progress, split_end: LearnerEvent, epoch_end: LearnerEvent },
    /// Wait until every worker has come this far in the epoch.
    WaitAtBarrier,
    /// Let the event processor work off the events it was handed.
    FlushEvents,
    /// Save the state of the training.
    Checkpoint(usize),
    /// Ask whether the metrics of the epoch call for an early stop. Answered by
    /// [`WorkerSignal::StopEarly`].
    PollEarlyStopping(usize),
    /// Hand the model back.
    Finish,
}

/// What a worker is told.
#[derive(Clone, Copy, Debug, PartialEq, Eq, Structural)]
pub enum WorkerSignal {
    /// Begin to fit the model.
    Begin,
    /// The next epoch, if there is one.
    Epoch(Option<Progress>),
    /// Whether the training is interrupted.
    Interrupted(bool),
    /// Whether to stop early.
    StopEarly(bool),
}

/// What a worker waits for.
#[derive(Clone, Copy, Debug, PartialEq, Eq, Structural)]
pub enum WorkerPhase {
    /// To begin.
    Created,
    /// To be told the next epoch.
    Drawing,
    /// To be told, after the training of an epoch, whether it is interrupted.
    Trained(Progress),
    /// To be told, after the validation of an epoch, whether it is interrupted.
    Validated(Progress),
    /// To be told, at the end of an epoch, whether to stop early.
    Measured(Progress),
    /// For nothing: the model is handed back.
    Finished,
}

/// A worker runs the model, syncing gradients using collective operations. Event processing and
/// validation are optional.
#[derive(Clone, Copy, Debug, PartialEq, Eq, Structural)]
pub struct DdpWorker {
    pub config: WorkerConfig,
    pub phase: WorkerPhase,
}

/// The decimal digit.
pub open spec fn digit(value: nat) -> char {
    (48 + value) as char
}

/// The number in decimal digits.
pub open spec fn decimal(value: nat) -> Seq<char>
    decreases value,
{
    if value < 10 {
        seq![digit(value)]
    } else {
        decimal(value / 10).push(digit(value % 10))
    }
}

/// The name of the thread of the worker on this device.
pub open spec fn worker_name(device_index: nat) -> Seq<char> {
    "ddp-worker-"@ + decimal(device_index)
}

/// The decimal digit, as a string.
fn digit_str(value: usize) -> (text: &'static str)
    requires
        value < 10,
    ensures
        text@ == seq![digit(value as nat)],
{
    proof {
        reveal_strlit("0");
        reveal_strlit("1");
        reveal_strlit("2");
        reveal_strlit("3");
        reveal_strlit("4");
        reveal_strlit("5");
        reveal_strlit("6");
        reveal_strlit("7");
        reveal_strlit("8");
        reveal_strlit("9");
    }
    let text = match value {
        0 => "0",
        1 => "1",
        2 => "2",
        3 => "3",
        4 => "4",
        5 => "5",
        6 => "6",
        7 => "7",
        8 => "8",
        _ => "9",
    };
    assert(text@ =~= seq![digit(value as nat)]);
    text
}

/// Appends the number in decimal digits.
fn append_decimal(text: &mut String, value: usize)
    ensures
        final(text)@ == old(text)@ + decimal(value as nat),
    decreases value,
{
    let ghost before = text@;
    if value < 10 {
        text.append(digit_str(value));
    } else {
        append_decimal(text, value / 10);
        text.append(digit_str(value % 10));
    }
    assert(text@ =~= before + decimal(value as nat));
}

/// `action` if `condition` holds, nothing otherwise.
pub open spec fn only_if(condition: bool, action: WorkerAction) -> Seq<WorkerAction> {
    if condition {
        seq![action]
    } else {
        Seq::empty()
    }
}

impl WorkerConfig {
    /// The worker on the first device is the main one.
    pub open spec fn is_main(self) -> bool {
        self.device_index == 0
    }

    /// What the worker does before the first epoch.
    pub open spec fn preparation(self) -> Seq<WorkerAction> {
        seq![WorkerAction::PrepareTraining] + only_if(
            self.has_validation,
            WorkerAction::PrepareValidation,
        ) + seq![
            WorkerAction::Fork,
            WorkerAction::ShardGradients,
            WorkerAction::PrepareEpochs {
                starting_epoch: self.starting_epoch,
                num_epochs: self.num_epochs,
            },
        ]
    }

    /// The training of an epoch. Only the main worker reports it.
    pub open spec fn training(self, progress: Progress) -> Seq<WorkerAction> {
        let epoch = progress.items_processed;
        only_if(
            self.is_main(),
            WorkerAction::ProcessTrain(
                LearnerEvent::StartSplit {
                    epoch_number: epoch,
                    total_items: self.train_total_items,
                },
            ),
        ) + seq![WorkerAction::Train { progress, peer_count: self.peer_count }] + only_if(
            self.is_main(),
            WorkerAction::ProcessTrain(LearnerEvent::EndSplit(epoch)),
        )
    }

    /// The validation of an epoch, and the meeting of the workers behind it.
    pub open spec fn validation(self, progress: Progress) -> Seq<WorkerAction> {
        let epoch = progress.items_processed;
        only_if(
            self.has_validation,
            WorkerAction::ProcessValid(
                LearnerEvent::StartSplit {
                    epoch_number: epoch,
                    total_items: self.valid_total_items,
                },
            ),
        ) + only_if(
            self.has_validation,
            WorkerAction::Validate {
                progress,
                split_end: LearnerEvent::EndSplit(epoch),
                epoch_end: LearnerEvent::EndEpoch(epoch),
            },
        ) + only_if(self.has_early_stopping, WorkerAction::WaitAtBarrier) + only_if(
            self.has_checkpointer || self.has_early_stopping,
            WorkerAction::FlushEvents,
        )
    }

    /// The checkpoint of an epoch.
    pub open spec fn checkpoint(self, progress: Progress) -> Seq<WorkerAction> {
        only_if(self.has_checkpointer, WorkerAction::Checkpoint(progress.items_processed))
    }
}

impl DdpWorker {
    /// The worker waits for this signal.
    pub open spec fn expects(self, signal: WorkerSignal) -> bool {
        match self.phase {
            WorkerPhase::Created => signal is Begin,
            WorkerPhase::Drawing => signal is Epoch,
            WorkerPhase::Trained(_) => signal is Interrupted,
            WorkerPhase::Validated(_) => signal is Interrupted,
            WorkerPhase::Measured(_) => signal is StopEarly,
            WorkerPhase::Finished => false,
        }
    }

    /// The signal ends the training.
    ///
    /// An interruption after the training of an epoch does so only without early stopping:
    /// workers with early stopping must all reach the barrier of the epoch.
    pub open spec fn ends(self, signal: WorkerSignal) -> bool {
        match self.phase {
            WorkerPhase::Created => false,
            WorkerPhase::Drawing => signal == WorkerSignal::Epoch(None),
            WorkerPhase::Trained(_) => signal == WorkerSignal::Interrupted(true)
                && !self.config.has_early_stopping,
            WorkerPhase::Validated(_) => signal == WorkerSignal::Interrupted(true),
            WorkerPhase::Measured(_) => signal == WorkerSignal::StopEarly(true),
            WorkerPhase::Finished => true,
        }
    }

    /// What the worker does on the signal, up to the next thing it has to be told.
    pub open spec fn actions(self, signal: WorkerSignal) -> Seq<WorkerAction> {
        if self.ends(signal) {
            seq![WorkerAction::Finish]
        } else {
            match self.phase {
                WorkerPhase::Created => self.config.preparation().push(WorkerAction::NextEpoch),
                WorkerPhase::Drawing => self.config.training(signal->Epoch_0.unwrap()).push(
                    WorkerAction::PollInterrupter,
                ),
                WorkerPhase::Trained(progress) => self.config.validation(progress).push(
                    WorkerAction::PollInterrupter,
                ),
                WorkerPhase::Validated(progress) => self.config.checkpoint(progress).push(
                    if self.config.has_early_stopping {
                        WorkerAction::PollEarlyStopping(progress.items_processed)
                    } else {
                        WorkerAction::NextEpoch
                    },
                ),
                WorkerPhase::Measured(progress) => seq![WorkerAction::NextEpoch],
                WorkerPhase::Finished => seq![WorkerAction::Finish],
            }
        }
    }

    /// The worker after the signal.
    pub open spec fn after(self, signal: WorkerSignal) -> Self {
        DdpWorker {
            phase: if self.ends(signal) {
                WorkerPhase::Finished
            } else {
                match self.phase {
                    WorkerPhase::Created => WorkerPhase::Drawing,
                    WorkerPhase::Drawing => WorkerPhase::Trained(signal->Epoch_0.unwrap()),
                    WorkerPhase::Trained(progress) => WorkerPhase::Validated(progress),
                    WorkerPhase::Validated(progress) => if self.config.has_early_stopping {
                        WorkerPhase::Measured(progress)
                    } else {
                        WorkerPhase::Drawing
                    },
                    WorkerPhase::Measured(_) => WorkerPhase::Drawing,
                    WorkerPhase::Finished => WorkerPhase::Finished,
                }
            },
            ..self
        }
    }

    /// A worker that has not begun to fit the model.
    pub fn start(config: WorkerConfig) -> (worker: DdpWorker)
        ensures
            worker == (DdpWorker { config, phase: WorkerPhase::Created }),
    {
        DdpWorker { config, phase: WorkerPhase::Created }
    }

    /// The name of the thread that the worker runs on: `ddp-worker-` and the device index.
    pub fn thread_name(&self) -> (name: String)
        ensures
            name@ == worker_name(self.config.device_index as nat),
    {
        let mut name = String::new();
        name.append("ddp-worker-");
        append_decimal(&mut name, self.config.device_index);
        assert(name@ =~= worker_name(self.config.device_index as nat));
        name
    }

    /// Goes on fitting the model: takes what the worker was told, and says what it does up to
    /// the next thing that it has to be told.
    pub fn fit(&mut self, signal: WorkerSignal) -> (actions: Vec<WorkerAction>)
        requires
            old(self).expects(signal),
        ensures
            actions@ == old(self).actions(signal),
            *final(self) == old(self).after(signal),
    {
        let config = self.config;
        let is_main = config.device_index == 0;
        let mut actions: Vec<WorkerAction> = Vec::new();
        let ghost before = *self;
        match (self.phase, signal) {
            (WorkerPhase::Created, _) => {
                actions.push(WorkerAction::PrepareTraining);
                if config.has_validation {
                    actions.push(WorkerAction::PrepareValidation);
                }
                actions.push(WorkerAction::Fork);
                actions.push(WorkerAction::ShardGradients);
                actions.push(
                    WorkerAction::PrepareEpochs {
                        starting_epoch: config.starting_epoch,
                        num_epochs: config.num_epochs,
                    },
                );
                actions.push(WorkerAction::NextEpoch);
                self.phase = WorkerPhase::Drawing;
            },
            (WorkerPhase::Drawing, WorkerSignal::Epoch(Some(progress))) => {
                let epoch = progress.items_processed;
                if is_main {
                    actions.push(
                        WorkerAction::ProcessTrain(
                            LearnerEvent::StartSplit {
                                epoch_number: epoch,
                                total_items: config.train_total_items,
                            },
                        ),
                    );
                }
                actions.push(WorkerAction::Train { progress, peer_count: config.peer_count });
                if is_main {
                    actions.push(WorkerAction::ProcessTrain(LearnerEvent::EndSplit(epoch)));
                }
                actions.push(WorkerAction::PollInterrupter);
                self.phase = WorkerPhase::Trained(progress);
            },
            (WorkerPhase::Trained(progress), WorkerSignal::Interrupted(interrupted)) => {
                if interrupted && !config.has_early_stopping {
                    actions.push(WorkerAction::Finish);
                    self.phase = WorkerPhase::Finished;
                } else {
                    let epoch = progress.items_processed;
                    if config.has_validation {
                        actions.push(
                            WorkerAction::ProcessValid(
                                LearnerEvent::StartSplit {
                                    epoch_number: epoch,
                                    total_items: config.valid_total_items,
                                },
                            ),
                        );
                        actions.push(
                            WorkerAction::Validate {
                                progress,
                                split_end: LearnerEvent::EndSplit(epoch),
                                epoch_end: LearnerEvent::EndEpoch(epoch),
                            },
                        );
                    }
                    if config.has_early_stopping {
                        actions.push(WorkerAction::WaitAtBarrier);
                    }
                    if config.has_checkpointer || config.has_early_stopping {
                        actions.push(WorkerAction::FlushEvents);
                    }
                    actions.push(WorkerAction::PollInterrupter);
                    self.phase = WorkerPhase::Validated(progress);
                }
            },
            (WorkerPhase::Validated(progress), WorkerSignal::Interrupted(false)) => {
                let epoch = progress.items_processed;
                if config.has_checkpointer {
                    actions.push(WorkerAction::Checkpoint(epoch));
                }
                if config.has_early_stopping {
                    actions.push(WorkerAction::PollEarlyStopping(epoch));
                    self.phase = WorkerPhase::Measured(progress);
                } else {
                    actions.push(WorkerAction::NextEpoch);
                    self.phase = WorkerPhase::Drawing;
                }
            },
            (WorkerPhase::Measured(_), WorkerSignal::StopEarly(false)) => {
                actions.push(WorkerAction::NextEpoch);
                self.phase = WorkerPhase::Drawing;
            },
            _ => {
                actions.push(WorkerAction::Finish);
                self.phase = WorkerPhase::Finished;
            },
        }
        assert(actions@ =~= before.actions(signal));
        actions
    }
}

} // verus!
