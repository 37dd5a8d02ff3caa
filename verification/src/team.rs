//! The workers of a training together, and the barrier at which they meet.
//!
//! A [`Team`] takes one [`TeamStep`] at a time: a worker is told something, or performs the next
//! of its actions. The steps of the workers interleave in any way, but for the barrier: a worker
//! gets past it only when all of them have reached it.

use crate::worker::{
    DdpWorker, LearnerEvent, Progress, WorkerAction, WorkerConfig, WorkerPhase, WorkerSignal,
};
use crate::worker_laws::{
    barriers, law_barrier_once_per_epoch, law_settings_kept, lemma_tally_concat, lemma_tally_push,
    lemma_tally_step, tally, trainings,
};
use vstd::prelude::*;

verus! {

/// The epochs that the signals tell of, in order.
pub open spec fn drawn(signals: Seq<WorkerSignal>) -> Seq<Progress>
    decreases signals.len(),
{
    if signals.len() == 0 {
        Seq::empty()
    } else {
        match signals.last() {
            WorkerSignal::Epoch(Some(progress)) => drawn(signals.drop_last()).push(progress),
            _ => drawn(signals.drop_last()),
        }
    }
}

/// The validation of an epoch, with the events that end its split and the epoch.
pub open spec fn validation_of(progress: Progress) -> WorkerAction {
    WorkerAction::Validate {
        progress,
        split_end: LearnerEvent::EndSplit(progress.items_processed),
        epoch_end: LearnerEvent::EndEpoch(progress.items_processed),
    }
}

/// A worker, what it was told, and how many of the actions that follow from it are performed.
pub struct Member {
    pub config: WorkerConfig,
    pub signals: Seq<WorkerSignal>,
    pub done: nat,
}

impl Member {
    /// The worker before it was told anything.
    pub open spec fn start(self) -> DdpWorker {
        DdpWorker { config: self.config, phase: WorkerPhase::Created }
    }

    /// Everything that the worker does on what it was told, performed or not.
    pub open spec fn trace(self) -> Seq<WorkerAction> {
        self.start().trace(self.signals)
    }

    /// What the worker has performed.
    pub open spec fn performed(self) -> Seq<WorkerAction> {
        self.trace().take(self.done as int)
    }

    /// The action that the worker performs next, unless it first has to be told something.
    pub open spec fn next_action(self) -> Option<WorkerAction> {
        if self.done < self.trace().len() {
            Some(self.trace()[self.done as int])
        } else {
            None
        }
    }

    /// How often the worker has got past the barrier.
    pub open spec fn passed(self) -> nat {
        barriers(self.performed())
    }

    /// The worker has reached the barrier for the `count`-th time: it waits there, or is past it.
    pub open spec fn reached(self, count: nat) -> bool {
        self.passed() >= count || (self.passed() + 1 == count && self.next_action() == Some(
            WorkerAction::WaitAtBarrier,
        ))
    }
}

/// A step of the worker at a place in the team.
pub enum TeamStep {
    /// The worker is told something.
    Tell(int, WorkerSignal),
    /// The worker performs its next action.
    Perform(int),
}

/// Workers that train together, and the epochs that each of them draws.
pub struct Team {
    pub members: Seq<Member>,
    pub epochs: Seq<Progress>,
}

impl Team {
    /// Workers that have not begun to fit the model.
    pub open spec fn initial(configs: Seq<WorkerConfig>, epochs: Seq<Progress>) -> Self {
        Team {
            members: configs.map_values(
                |config: WorkerConfig| Member { config, signals: Seq::empty(), done: 0 },
            ),
            epochs,
        }
    }

    /// What a worker that has drawn `count` epochs draws next.
    pub open spec fn next_epoch(self, count: nat) -> Option<Progress> {
        if count < self.epochs.len() {
            Some(self.epochs[count as int])
        } else {
            None
        }
    }

    /// Every worker has reached the barrier for the `count`-th time.
    pub open spec fn all_reached(self, count: nat) -> bool {
        forall|j: int| 0 <= j < self.members.len() ==> (#[trigger] self.members[j]).reached(count)
    }

    /// The worker has performed all that it was told to, and waits for this signal. Every worker
    /// draws the same epochs.
    pub open spec fn may_tell(self, member: Member, signal: WorkerSignal) -> bool {
        &&& member.next_action() is None
        &&& member.start().after_all(member.signals).expects(signal)
        &&& signal is Epoch ==> signal == WorkerSignal::Epoch(
            self.next_epoch(drawn(member.signals).len()),
        )
    }

    /// The worker has something to perform. It gets past the barrier only when every worker has
    /// reached it as often.
    pub open spec fn may_perform(self, member: Member) -> bool {
        &&& member.next_action() is Some
        &&& member.next_action() == Some(WorkerAction::WaitAtBarrier) ==> self.all_reached(
            member.passed() + 1,
        )
    }

    /// The step can be taken.
    pub open spec fn enabled(self, step: TeamStep) -> bool {
        match step {
            TeamStep::Tell(i, signal) => 0 <= i < self.members.len() && self.may_tell(
                self.members[i],
                signal,
            ),
            TeamStep::Perform(i) => 0 <= i < self.members.len() && self.may_perform(
                self.members[i],
            ),
        }
    }

    /// The team after the step.
    pub open spec fn stepped(self, step: TeamStep) -> Self {
        match step {
            TeamStep::Tell(i, signal) => Team {
                members: self.members.update(
                    i,
                    Member {
                        signals: self.members[i].signals.push(signal),
                        ..self.members[i]
                    },
                ),
                ..self
            },
            TeamStep::Perform(i) => Team {
                members: self.members.update(
                    i,
                    Member { done: self.members[i].done + 1, ..self.members[i] },
                ),
                ..self
            },
        }
    }

    /// A worker with early stopping was told what it waited for, and draws the team's epochs.
    pub open spec fn in_order(self, member: Member) -> bool {
        &&& member.config.has_early_stopping
        &&& member.start().expects_all(member.signals)
        &&& member.done <= member.trace().len()
        &&& drawn(member.signals).is_prefix_of(self.epochs)
    }

    /// Every worker is in order, and none is past a barrier that another has not reached.
    pub open spec fn together(self) -> bool {
        &&& forall|j: int|
            0 <= j < self.members.len() ==> self.in_order(#[trigger] self.members[j])
        &&& forall|j: int|
            0 <= j < self.members.len() ==> self.all_reached((#[trigger] self.members[j]).passed())
    }
}

/// Where an action stands in a trace: the barrier of an epoch behind the validation of the
/// epoch, and the events are worked off and the metrics read behind the barrier of the epoch
/// that was trained last.
spec fn placed(
    actions: Seq<WorkerAction>,
    epochs: Seq<Progress>,
    validates: bool,
    x: int,
) -> bool {
    let before = actions.take(x);
    let count = barriers(before);
    match actions[x] {
        WorkerAction::WaitAtBarrier => {
            &&& count < epochs.len()
            &&& count + 1 == trainings(before)
            &&& validates ==> before.contains(validation_of(epochs[count as int]))
        },
        WorkerAction::FlushEvents => 1 <= count <= epochs.len() && count == trainings(before),
        WorkerAction::PollEarlyStopping(epoch) => {
            &&& 1 <= count <= epochs.len()
            &&& count == trainings(before)
            &&& epoch == epochs[count - 1].items_processed
        },
        _ => true,
    }
}

proof fn lemma_tally_none(actions: Seq<WorkerAction>, kind: spec_fn(WorkerAction) -> bool)
    requires
        forall|i: int| 0 <= i < actions.len() ==> !kind(#[trigger] actions[i]),
    ensures
        tally(actions, kind) == 0,
    decreases actions.len(),
{
    if actions.len() > 0 {
        assert(forall|i: int|
            0 <= i < actions.len() - 1 ==> actions.drop_last()[i] == #[trigger] actions[i]);
        lemma_tally_none(actions.drop_last(), kind);
    }
}

/// What a worker has done of its answer to one signal when it comes to the barrier, works off
/// the events or reads the metrics.
proof fn lemma_placed_in_answer(worker: DdpWorker, signal: WorkerSignal, y: int)
    requires
        worker.expects(signal),
        worker.config.has_early_stopping,
        0 <= y < worker.actions(signal).len(),
    ensures
        ({
            let before = worker.actions(signal).take(y);
            match worker.actions(signal)[y] {
                WorkerAction::WaitAtBarrier => {
                    &&& worker.phase is Trained
                    &&& barriers(before) == 0
                    &&& trainings(before) == 0
                    &&& worker.config.has_validation ==> before.contains(
                        validation_of(worker.phase->Trained_0),
                    )
                },
                WorkerAction::FlushEvents => {
                    &&& worker.phase is Trained
                    &&& barriers(before) == 1
                    &&& trainings(before) == 0
                },
                WorkerAction::PollEarlyStopping(epoch) => {
                    &&& worker.phase is Validated
                    &&& barriers(before) == 0
                    &&& trainings(before) == 0
                    &&& epoch == worker.phase->Validated_0.items_processed
                },
                _ => true,
            }
        }),
{
    let actions = worker.actions(signal);
    let before = actions.take(y);
    let is_train = |action: WorkerAction| action is Train;
    let is_barrier = |action: WorkerAction| action is WaitAtBarrier;
    match actions[y] {
        WorkerAction::WaitAtBarrier => {
            lemma_tally_none(before, is_barrier);
            lemma_tally_none(before, is_train);
            if worker.config.has_validation {
                assert(before[1] == validation_of(worker.phase->Trained_0));
            }
        },
        WorkerAction::FlushEvents => {
            assert(actions[y - 1] is WaitAtBarrier);
            assert(before =~= actions.take(y - 1).push(actions[y - 1]));
            lemma_tally_none(actions.take(y - 1), is_barrier);
            lemma_tally_push(actions.take(y - 1), actions[y - 1], is_barrier);
            lemma_tally_none(before, is_train);
        },
        WorkerAction::PollEarlyStopping(_) => {
            lemma_tally_none(before, is_barrier);
            lemma_tally_none(before, is_train);
        },
        _ => {},
    }
}

/// The epochs that a worker has drawn are those that it trains, and it is in the last of them.
proof fn lemma_drawn(worker: DdpWorker, signals: Seq<WorkerSignal>)
    requires
        worker.phase is Created,
        worker.expects_all(signals),
    ensures
        trainings(worker.trace(signals)) == drawn(signals).len(),
        match worker.after_all(signals).phase {
            WorkerPhase::Trained(progress)
            | WorkerPhase::Validated(progress)
            | WorkerPhase::Measured(progress) => {
                &&& drawn(signals).len() > 0
                &&& drawn(signals).last() == progress
            },
            _ => true,
        },
    decreases signals.len(),
{
    let is_train = |action: WorkerAction| action is Train;
    if signals.len() > 0 {
        let earlier = signals.drop_last();
        let reached = worker.after_all(earlier);
        lemma_drawn(worker, earlier);
        lemma_tally_step(reached, signals.last(), is_train);
        lemma_tally_concat(worker.trace(earlier), reached.actions(signals.last()), is_train);
    }
}

/// Every action of a worker with early stopping stands where it belongs.
proof fn lemma_placed(
    worker: DdpWorker,
    signals: Seq<WorkerSignal>,
    epochs: Seq<Progress>,
    x: int,
)
    requires
        worker.phase is Created,
        worker.config.has_early_stopping,
        worker.expects_all(signals),
        drawn(signals).is_prefix_of(epochs),
        0 <= x < worker.trace(signals).len(),
    ensures
        placed(worker.trace(signals), epochs, worker.config.has_validation, x),
    decreases signals.len(),
{
    let earlier = signals.drop_last();
    let reached = worker.after_all(earlier);
    let answer = reached.actions(signals.last());
    let old_trace = worker.trace(earlier);
    let trace = worker.trace(signals);
    assert(drawn(earlier).is_prefix_of(epochs));
    if x < old_trace.len() {
        lemma_placed(worker, earlier, epochs, x);
        assert(trace.take(x) =~= old_trace.take(x));
    } else {
        let y = x - old_trace.len();
        let before = answer.take(y);
        assert(trace.take(x) =~= old_trace + before);
        law_settings_kept(worker, earlier);
        law_barrier_once_per_epoch(worker, earlier);
        lemma_drawn(worker, earlier);
        lemma_placed_in_answer(reached, signals.last(), y);
        lemma_tally_concat(old_trace, before, |action: WorkerAction| action is Train);
        lemma_tally_concat(old_trace, before, |action: WorkerAction| action is WaitAtBarrier);
        if trace[x] is WaitAtBarrier && worker.config.has_validation {
            let validation = validation_of(reached.phase->Trained_0);
            let k = choose|k: int| 0 <= k < before.len() && before[k] == validation;
            assert(trace.take(x)[old_trace.len() + k] == validation);
        }
    }
}

/// Who has passed the barrier more than `count` times has passed it after `count` times.
proof fn lemma_barrier_passed(actions: Seq<WorkerAction>, count: nat) -> (x: int)
    requires
        count < barriers(actions),
    ensures
        0 <= x < actions.len(),
        actions[x] is WaitAtBarrier,
        barriers(actions.take(x)) == count,
    decreases actions.len(),
{
    let rest = actions.drop_last();
    assert(actions.take(actions.len() - 1) =~= rest);
    if barriers(rest) <= count {
        actions.len() - 1
    } else {
        let x = lemma_barrier_passed(rest, count);
        assert(rest.take(x) =~= actions.take(x));
        x
    }
}

/// Where a worker reached the barrier for the `count`-th time.
proof fn lemma_barrier_reached(team: Team, member: Member, count: nat) -> (x: int)
    requires
        team.in_order(member),
        member.reached(count),
        count >= 1,
    ensures
        0 <= x < member.trace().len(),
        x <= member.done,
        member.trace()[x] is WaitAtBarrier,
        barriers(member.trace().take(x)) == count - 1,
        placed(member.trace(), team.epochs, member.config.has_validation, x),
{
    let trace = member.trace();
    let performed = member.performed();
    let x = if member.passed() >= count {
        let x = lemma_barrier_passed(performed, (count - 1) as nat);
        assert(performed.take(x) =~= trace.take(x));
        x
    } else {
        member.done as int
    };
    lemma_placed(member.start(), member.signals, team.epochs, x);
    x
}

/// A worker that has reached the barrier of an epoch has trained the epoch.
proof fn lemma_trained(team: Team, member: Member, count: nat)
    requires
        team.in_order(member),
        member.reached(count),
        count >= 1,
    ensures
        trainings(member.performed()) >= count,
{
    let trace = member.trace();
    let x = lemma_barrier_reached(team, member, count);
    let rest = trace.subrange(x, member.done as int);
    assert(member.performed() =~= trace.take(x) + rest);
    lemma_tally_concat(trace.take(x), rest, |action: WorkerAction| action is Train);
}

/// A worker with validation data that has reached the barrier of an epoch has validated it.
proof fn lemma_validated(team: Team, member: Member, count: nat)
    requires
        team.in_order(member),
        member.config.has_validation,
        member.reached(count),
        count >= 1,
    ensures
        count <= team.epochs.len(),
        member.performed().contains(validation_of(team.epochs[count - 1])),
{
    let trace = member.trace();
    let performed = member.performed();
    let x = lemma_barrier_reached(team, member, count);
    let validation = validation_of(team.epochs[count - 1]);
    let k = choose|k: int| 0 <= k < trace.take(x).len() && trace.take(x)[k] == validation;
    assert(performed[k] == validation);
}

/// Being told something changes nothing of what a worker has performed.
proof fn lemma_told(member: Member, signal: WorkerSignal)
    requires
        member.next_action() is None,
        member.done <= member.trace().len(),
    ensures
        ({
            let next = Member { signals: member.signals.push(signal), ..member };
            &&& next.performed() == member.performed()
            &&& next.done <= next.trace().len()
            &&& next.start().expects_all(next.signals) <==> member.start().expects_all(
                member.signals,
            ) && member.start().after_all(member.signals).expects(signal)
            &&& drawn(next.signals) == match signal {
                WorkerSignal::Epoch(Some(progress)) => drawn(member.signals).push(progress),
                _ => drawn(member.signals),
            }
        }),
{
    let next = Member { signals: member.signals.push(signal), ..member };
    assert(next.signals.drop_last() =~= member.signals);
    assert(next.performed() =~= member.performed());
}

/// A team that has not begun is together.
pub proof fn law_team_starts_together(configs: Seq<WorkerConfig>, epochs: Seq<Progress>)
    requires
        forall|i: int| 0 <= i < configs.len() ==> (#[trigger] configs[i]).has_early_stopping,
    ensures
        Team::initial(configs, epochs).together(),
{
    let team = Team::initial(configs, epochs);
    assert forall|j: int| 0 <= j < team.members.len() implies team.in_order(
        #[trigger] team.members[j],
    ) && team.members[j].passed() == 0 by {
        assert(configs[j].has_early_stopping);
        assert(team.members[j].performed().len() == 0);
    }
}

/// Whatever a worker is told or performs, the team stays together.
pub proof fn law_step_keeps_team_together(team: Team, step: TeamStep)
    requires
        team.together(),
        team.enabled(step),
    ensures
        team.stepped(step).together(),
{
    let next = team.stepped(step);
    let i = match step {
        TeamStep::Tell(i, _) => i,
        TeamStep::Perform(i) => i,
    };
    let member = team.members[i];
    let moved = next.members[i];
    assert(team.in_order(member));
    match step {
        TeamStep::Tell(_, signal) => {
            lemma_told(member, signal);
            assert(next.in_order(moved));
        },
        TeamStep::Perform(_) => {
            let action = member.trace()[member.done as int];
            assert(moved.performed() =~= member.performed().push(action));
            lemma_tally_push(
                member.performed(),
                action,
                |action: WorkerAction| action is WaitAtBarrier,
            );
        },
    }
    assert forall|j: int| 0 <= j < next.members.len() implies next.in_order(
        #[trigger] next.members[j],
    ) by {
        if j != i {
            assert(team.in_order(team.members[j]));
        }
    }
    assert forall|j: int| 0 <= j < next.members.len() implies next.all_reached(
        (#[trigger] next.members[j]).passed(),
    ) by {
        assert(team.all_reached(team.members[j].passed()));
        assert forall|k: int| 0 <= k < next.members.len() implies (
        #[trigger] next.members[k]).reached(next.members[j].passed()) by {
            assert(team.members[k].reached(team.members[j].passed()));
            assert(team.members[k].reached(member.passed()));
        }
    }
}

/// Each state of the team follows from the one before by a step that can be taken.
pub open spec fn is_team_run(states: Seq<Team>, steps: Seq<TeamStep>) -> bool {
    &&& states.len() == steps.len() + 1
    &&& forall|k: int|
        0 <= k < steps.len() ==> {
            &&& (#[trigger] states[k]).enabled(steps[k])
            &&& states[k + 1] == states[k].stepped(steps[k])
        }
}

/// However the steps of the workers interleave, the team stays together throughout a training
/// with early stopping: no worker is past a barrier that another has not reached.
pub proof fn law_team_runs_together(
    configs: Seq<WorkerConfig>,
    epochs: Seq<Progress>,
    states: Seq<Team>,
    steps: Seq<TeamStep>,
    k: int,
)
    requires
        forall|i: int| 0 <= i < configs.len() ==> (#[trigger] configs[i]).has_early_stopping,
        is_team_run(states, steps),
        states[0] == Team::initial(configs, epochs),
        0 <= k < states.len(),
    ensures
        states[k].together(),
        states[k].epochs == epochs,
        states[k].members.len() == configs.len(),
        forall|i: int|
            0 <= i < configs.len() ==> (#[trigger] states[k].members[i]).config == configs[i],
    decreases k,
{
    if k == 0 {
        law_team_starts_together(configs, epochs);
    } else {
        law_team_runs_together(configs, epochs, states, steps, k - 1);
        assert(states[k - 1].enabled(steps[k - 1]));
        assert(states[k - 1 + 1] == states[k - 1].stepped(steps[k - 1]));
        law_step_keeps_team_together(states[k - 1], steps[k - 1]);
    }
}

/// A worker gets past the barrier of the epoch that it trained last only when every worker has
/// trained that epoch and reached its barrier.
pub proof fn law_barrier_holds_epoch_together(
    configs: Seq<WorkerConfig>,
    epochs: Seq<Progress>,
    states: Seq<Team>,
    steps: Seq<TeamStep>,
    k: int,
    i: int,
)
    requires
        forall|j: int| 0 <= j < configs.len() ==> (#[trigger] configs[j]).has_early_stopping,
        is_team_run(states, steps),
        states[0] == Team::initial(configs, epochs),
        0 <= k < steps.len(),
        steps[k] == TeamStep::Perform(i),
        states[k].members[i].next_action() == Some(WorkerAction::WaitAtBarrier),
    ensures
        ({
            let count = trainings(states[k].members[i].performed());
            &&& count == states[k].members[i].passed() + 1
            &&& count <= epochs.len()
            &&& states[k].all_reached(count)
            &&& forall|j: int|
                0 <= j < states[k].members.len() ==> trainings(
                    (#[trigger] states[k].members[j]).performed(),
                ) >= count
        }),
{
    law_team_runs_together(configs, epochs, states, steps, k);
    let team = states[k];
    let member = team.members[i];
    assert(team.enabled(steps[k]));
    assert(team.in_order(member));
    lemma_placed(member.start(), member.signals, epochs, member.done as int);
    let count = member.passed() + 1;
    assert forall|j: int| 0 <= j < team.members.len() implies trainings(
        (#[trigger] team.members[j]).performed(),
    ) >= count by {
        assert(team.in_order(team.members[j]));
        lemma_trained(team, team.members[j], count);
    }
}

/// Whenever a worker performs the reading of the metrics of an epoch, each worker that is given
/// validation data, as the main worker is, has already validated that epoch and handed over the
/// events that end its split and the epoch.
pub proof fn law_metrics_read_behind_validation(
    configs: Seq<WorkerConfig>,
    epochs: Seq<Progress>,
    states: Seq<Team>,
    steps: Seq<TeamStep>,
    k: int,
    i: int,
    main: int,
    epoch: usize,
)
    requires
        forall|j: int| 0 <= j < configs.len() ==> (#[trigger] configs[j]).has_early_stopping,
        is_team_run(states, steps),
        states[0] == Team::initial(configs, epochs),
        0 <= k < steps.len(),
        steps[k] == TeamStep::Perform(i),
        states[k].members[i].next_action() == Some(WorkerAction::PollEarlyStopping(epoch)),
        0 <= main < configs.len(),
        configs[main].has_validation,
    ensures
        ({
            let count = trainings(states[k].members[i].performed());
            &&& 1 <= count <= epochs.len()
            &&& epochs[count - 1].items_processed == epoch
            &&& states[k].members[main].performed().contains(
                WorkerAction::Validate {
                    progress: epochs[count - 1],
                    split_end: LearnerEvent::EndSplit(epoch),
                    epoch_end: LearnerEvent::EndEpoch(epoch),
                },
            )
        }),
{
    law_team_runs_together(configs, epochs, states, steps, k);
    let team = states[k];
    assert(team.enabled(steps[k]));
    lemma_validated_elsewhere(team, i, main);
}

/// Whenever a worker lets the events be worked off, each worker that is given validation data, as
/// the main worker is, has already validated the epoch that the worker trained last, and handed
/// over the events that end its split and the epoch.
pub proof fn law_events_worked_off_behind_validation(
    configs: Seq<WorkerConfig>,
    epochs: Seq<Progress>,
    states: Seq<Team>,
    steps: Seq<TeamStep>,
    k: int,
    i: int,
    main: int,
)
    requires
        forall|j: int| 0 <= j < configs.len() ==> (#[trigger] configs[j]).has_early_stopping,
        is_team_run(states, steps),
        states[0] == Team::initial(configs, epochs),
        0 <= k < steps.len(),
        steps[k] == TeamStep::Perform(i),
        states[k].members[i].next_action() == Some(WorkerAction::FlushEvents),
        0 <= main < configs.len(),
        configs[main].has_validation,
    ensures
        ({
            let count = trainings(states[k].members[i].performed());
            &&& 1 <= count <= epochs.len()
            &&& states[k].members[main].performed().contains(validation_of(epochs[count - 1]))
        }),
{
    law_team_runs_together(configs, epochs, states, steps, k);
    let team = states[k];
    assert(team.enabled(steps[k]));
    lemma_validated_elsewhere(team, i, main);
}

/// Behind the barrier of an epoch, a worker with validation data has validated the epoch.
proof fn lemma_validated_elsewhere(team: Team, i: int, main: int)
    requires
        team.together(),
        0 <= i < team.members.len(),
        0 <= main < team.members.len(),
        team.members[main].config.has_validation,
        team.members[i].next_action() == Some(WorkerAction::FlushEvents)
            || team.members[i].next_action() matches Some(WorkerAction::PollEarlyStopping(_)),
    ensures
        ({
            let count = trainings(team.members[i].performed());
            &&& 1 <= count <= team.epochs.len()
            &&& team.members[main].performed().contains(validation_of(team.epochs[count - 1]))
            &&& team.members[i].next_action() matches Some(WorkerAction::PollEarlyStopping(epoch))
                ==> epoch == team.epochs[count - 1].items_processed
        }),
{
    let member = team.members[i];
    assert(team.in_order(member));
    assert(team.in_order(team.members[main]));
    lemma_placed(member.start(), member.signals, team.epochs, member.done as int);
    assert(team.all_reached(member.passed()));
    lemma_validated(team, team.members[main], member.passed());
}

} // verus!
