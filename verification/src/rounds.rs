//! Rounds of gradient synchronisation: the server together with the devices it serves.
//!
//! In a round, each device registers the gradients it will submit, submits them in any order,
//! and then waits at the sync point until it is released. The steps of the devices interleave
//! freely. What must never happen is excluded of every interleaving: a release before all the
//! devices have arrived, or before every gradient is reduced. That the round ends is shown of
//! every interleaving but those in which the last device to register announces nothing when all
//! the gradients are in already: then nothing launches their reduction, see
//! [`Cluster::may_announce_nothing`].

use crate::channel::{CollectiveWait, Release};
use crate::model::{
    lemma_occurrences, occurrences, OutcomeView, ReductionView, SyncEvent, SyncState,
};
use crate::types::{DeviceId, DistributedConfig, SyncDevice};
use vstd::multiset::Multiset;
use vstd::prelude::*;

verus! {

/// Where a device is in the round.
pub enum Stage {
    /// Between two rounds.
    Idle,
    /// Registered, with these gradients still to submit: parameters, as often as they are owed.
    Active(Multiset<u64>),
    /// At the sync point.
    Waiting,
}

/// What a device does next. Devices are numbered from 0.
#[verifier::reject_recursive_types(D)]
pub enum Step<D, T> {
    Register(int, Seq<u64>),
    Submit(int, u64, T),
    Arrive(int, D, oneshot::Sender<CollectiveWait<D>>),
}

/// The server, the devices it serves, and the record of the round.
#[verifier::ext_equal]
#[verifier::reject_recursive_types(D)]
pub struct Cluster<D, T> {
    pub server: SyncState<D, T>,
    pub ids: Seq<DeviceId>,
    pub stages: Seq<Stage>,
    /// The gradients that each device has announced in this round.
    pub announced: Seq<Multiset<u64>>,
    /// The gradients submitted in this round, by parameter, each with its device.
    pub submitted: Map<u64, Seq<(int, T)>>,
    /// The gradients reduced in this round, by parameter.
    pub reduced: Map<u64, Seq<T>>,
}

impl Stage {
    /// How many gradients of `param` are owed.
    pub open spec fn owes(self, param: u64) -> nat {
        match self {
            Stage::Active(pending) => pending.count(param),
            _ => 0,
        }
    }

    /// 1 for a device that has registered in this round, 0 for another.
    pub open spec fn registered(self) -> nat {
        if self is Idle {
            0
        } else {
            1
        }
    }

    /// 1 for a device at the sync point, 0 for another.
    pub open spec fn waiting(self) -> nat {
        if self is Waiting {
            1
        } else {
            0
        }
    }

    /// How many steps a registered device has to take to the sync point.
    pub open spec fn steps_left(self) -> nat {
        match self {
            Stage::Active(pending) => pending.len() + 1,
            _ => 0,
        }
    }
}

/// The sum of the weights of the stages.
pub open spec fn total(stages: Seq<Stage>, weight: spec_fn(Stage) -> nat) -> nat
    decreases stages.len(),
{
    if stages.len() == 0 {
        0
    } else {
        total(stages.drop_last(), weight) + weight(stages.last())
    }
}

/// How many gradients of `param` are owed by all the devices.
pub open spec fn owed(stages: Seq<Stage>, param: u64) -> nat {
    total(stages, |stage: Stage| stage.owes(param))
}

/// How many devices have registered in this round.
pub open spec fn registered(stages: Seq<Stage>) -> nat {
    total(stages, |stage: Stage| stage.registered())
}

/// How many devices are at the sync point.
pub open spec fn waiting(stages: Seq<Stage>) -> nat {
    total(stages, |stage: Stage| stage.waiting())
}

/// How many steps the registered devices have to take to the sync point.
pub open spec fn steps_left(stages: Seq<Stage>) -> nat {
    total(stages, |stage: Stage| stage.steps_left())
}

/// The gradients alone.
pub open spec fn tensors_of<T>(gradients: Seq<(int, T)>) -> Seq<T> {
    gradients.map_values(|gradient: (int, T)| gradient.1)
}

/// How many of the gradients are from `device`.
pub open spec fn count_from<T>(gradients: Seq<(int, T)>, device: int) -> nat {
    gradients.map_values(|gradient: (int, T)| gradient.0).to_multiset().count(device)
}

/// Device `id` is among the released ones.
pub open spec fn is_released<D>(releases: Seq<Release<D>>, id: DeviceId) -> bool {
    exists|i: int| 0 <= i < releases.len() && (#[trigger] releases[i]).wait.device.id == id
}

/// The reductions add these parameters to the record.
pub open spec fn record<T>(
    reduced: Map<u64, Seq<T>>,
    reductions: Seq<ReductionView<T>>,
) -> Map<u64, Seq<T>>
    decreases reductions.len(),
{
    if reductions.len() == 0 {
        reduced
    } else {
        record(reduced, reductions.drop_last()).insert(
            reductions.last().param,
            reductions.last().tensors,
        )
    }
}

impl<D, T> Cluster<D, T> {
    /// Every device idle, before the first round.
    pub open spec fn initial(ids: Seq<DeviceId>, config: DistributedConfig) -> Self {
        Cluster {
            server: SyncState::initial(ids.len(), config),
            ids,
            stages: Seq::new(ids.len(), |i: int| Stage::Idle),
            announced: Seq::new(ids.len(), |i: int| Multiset::empty()),
            submitted: Map::empty(),
            reduced: Map::empty(),
        }
    }

    /// The gradients of `param` that were submitted in this round.
    pub open spec fn submitted_of(self, param: u64) -> Seq<(int, T)> {
        if self.submitted.contains_key(param) {
            self.submitted[param]
        } else {
            Seq::empty()
        }
    }

    /// The message that the step sends to the server.
    pub open spec fn message(self, step: Step<D, T>) -> SyncEvent<D, T> {
        match step {
            Step::Register(device, params) => SyncEvent::Register(params),
            Step::Submit(device, param, tensor) => SyncEvent::Gradient(param, tensor),
            Step::Arrive(device, handle, callback) => SyncEvent::Arrival(
                SyncDevice { id: self.ids[device], handle },
                callback,
            ),
        }
    }

    /// A registration that announces nothing does not keep the round from ending: others are
    /// still to register, a gradient is still to come, or no gradient is required. If none of
    /// this holds, nothing launches the reductions that wait: gradients do, and registrations
    /// do not.
    pub open spec fn may_announce_nothing(self) -> bool {
        ||| registered(self.stages) + 1 < self.stages.len()
        ||| self.gradient_owed()
        ||| self.server.required.dom() == Set::<u64>::empty()
    }

    /// The step does not keep the round from ending: a device announces a gradient, or may
    /// announce nothing.
    pub open spec fn timely(self, step: Step<D, T>) -> bool {
        step matches Step::Register(device, params) ==> params.len() > 0
            || self.may_announce_nothing()
    }

    /// The device is in the stage for this step. A device submits what it has announced, and
    /// goes to the sync point when nothing is owed.
    pub open spec fn enabled(self, step: Step<D, T>) -> bool {
        match step {
            Step::Register(device, params) => {
                &&& 0 <= device < self.stages.len()
                &&& self.stages[device] is Idle
            },
            Step::Submit(device, param, tensor) => {
                &&& 0 <= device < self.stages.len()
                &&& self.stages[device] is Active
                &&& self.stages[device].owes(param) > 0
            },
            Step::Arrive(device, handle, callback) => {
                &&& 0 <= device < self.stages.len()
                &&& self.stages[device] is Active
                &&& self.stages[device]->Active_0.len() == 0
            },
        }
    }

    /// The stages and the record once the step is taken, before the server has answered.
    pub open spec fn stepped(self, step: Step<D, T>) -> Self {
        match step {
            Step::Register(device, params) => Cluster {
                stages: self.stages.update(device, Stage::Active(params.to_multiset())),
                announced: self.announced.update(device, params.to_multiset()),
                ..self
            },
            Step::Submit(device, param, tensor) => Cluster {
                stages: self.stages.update(
                    device,
                    Stage::Active(self.stages[device]->Active_0.remove(param)),
                ),
                submitted: self.submitted.insert(
                    param,
                    self.submitted_of(param).push((device, tensor)),
                ),
                ..self
            },
            Step::Arrive(device, handle, callback) => Cluster {
                stages: self.stages.update(device, Stage::Waiting),
                ..self
            },
        }
    }

    /// The stages and the record once the server's work is done, and the server's state is
    /// `server`. A released device is idle; the record starts anew when devices are released.
    pub open spec fn answered(self, server: SyncState<D, T>, outcome: OutcomeView<D, T>) -> Self {
        if outcome.releases.len() == 0 {
            Cluster { server, reduced: record(self.reduced, outcome.reductions), ..self }
        } else {
            Cluster {
                server,
                stages: Seq::new(
                    self.stages.len(),
                    |i: int|
                        if is_released(outcome.releases, self.ids[i]) {
                            Stage::Idle
                        } else {
                            self.stages[i]
                        },
                ),
                announced: Seq::new(
                    self.stages.len(),
                    |i: int|
                        if is_released(outcome.releases, self.ids[i]) {
                            Multiset::empty()
                        } else {
                            self.announced[i]
                        },
                ),
                submitted: Map::empty(),
                reduced: Map::empty(),
                ..self
            }
        }
    }

    /// `next` follows when a device takes the step and the server answers with `outcome`.
    pub open spec fn takes(
        self,
        step: Step<D, T>,
        outcome: OutcomeView<D, T>,
        next: Self,
    ) -> bool {
        &&& self.enabled(step)
        &&& self.server.handles(self.message(step), next.server, outcome)
        &&& next == self.stepped(step).answered(next.server, outcome)
    }

    /// The devices and the record fit together.
    pub open spec fn shaped(self) -> bool {
        &&& self.server.well_formed()
        &&& self.server.num_devices == self.stages.len()
        &&& self.ids.len() == self.stages.len()
        &&& self.announced.len() == self.stages.len()
        &&& self.ids.no_duplicates()
    }

    /// As many gradients are required of each parameter as wait or are owed, and nothing waits
    /// that is not required.
    pub open spec fn balanced(self) -> bool {
        &&& forall|param: u64|
            (#[trigger] self.server.queued_of(param)).len() + owed(self.stages, param)
                == self.server.required_of(param)
        &&& forall|param: u64| #[trigger]
            self.server.queue.contains_key(param) ==> self.server.required.contains_key(param)
    }

    /// The device `id` waits at the sync point.
    pub open spec fn waits(self, id: DeviceId) -> bool {
        exists|device: int|
            0 <= device < self.stages.len() && (#[trigger] self.stages[device]) is Waiting
                && self.ids[device] == id
    }

    /// The server holds the device `id` at the sync point.
    pub open spec fn holds(self, id: DeviceId) -> bool {
        exists|i: int|
            0 <= i < self.server.syncing.len() && (#[trigger] self.server.syncing[i]).id == id
    }

    /// The server holds the devices that wait, each once.
    pub open spec fn held(self) -> bool {
        &&& self.server.syncing.len() == waiting(self.stages)
        &&& self.server.distinct()
        &&& forall|i: int|
            0 <= i < self.server.syncing.len() ==> self.waits(
                (#[trigger] self.server.syncing[i]).id,
            )
        &&& forall|device: int|
            0 <= device < self.stages.len() && (#[trigger] self.stages[device]) is Waiting
                ==> self.holds(self.ids[device])
    }

    /// Reductions have been launched since the last registration: of each required parameter,
    /// an entry waits in the queue for gradients to come.
    pub open spec fn settled(self) -> bool {
        forall|param: u64| #[trigger]
            self.server.required.contains_key(param) ==> self.server.queue.contains_key(param)
                && !self.server.full(param)
    }

    /// Some device owes a gradient.
    pub open spec fn gradient_owed(self) -> bool {
        exists|device: int|
            0 <= device < self.stages.len() && (#[trigger] self.stages[device]) is Active
                && self.stages[device]->Active_0.len() > 0
    }

    /// The record agrees with the queue: the gradients of a parameter wait until they are
    /// reduced all together, which happens only when every device has registered.
    pub open spec fn recorded(self) -> bool {
        &&& forall|param: u64| #[trigger]
            self.reduced.contains_key(param) ==> {
                &&& self.reduced[param] == tensors_of(self.submitted_of(param))
                &&& self.submitted.contains_key(param)
                &&& !self.server.required.contains_key(param)
                &&& self.server.devices_registered == self.server.num_devices
            }
        &&& forall|param: u64|
            !self.reduced.contains_key(param) ==> #[trigger] self.server.queued_of(param)
                == tensors_of(self.submitted_of(param))
        &&& forall|param: u64| #[trigger]
            self.submitted.contains_key(param) ==> self.submitted[param].len() > 0
    }

    /// Each device has submitted or still owes what it has announced.
    pub open spec fn accounted(self) -> bool {
        &&& forall|device: int, param: u64|
            0 <= device < self.stages.len() ==> count_from(self.submitted_of(param), device)
                + #[trigger] self.stages[device].owes(param) == self.announced[device].count(param)
        &&& forall|device: int|
            0 <= device < self.stages.len() && (#[trigger] self.stages[device]) is Idle
                ==> self.announced[device] == Multiset::<u64>::empty()
    }

    /// Every device but `device` is at the sync point.
    pub open spec fn others_wait(self, device: int) -> bool {
        forall|other: int|
            0 <= other < self.stages.len() && other != device ==> (
            #[trigger] self.stages[other]) is Waiting
    }

    /// Every gradient that was submitted in this round has been reduced, together with all the
    /// gradients submitted for the same parameter.
    pub open spec fn all_reduced(self) -> bool {
        &&& self.reduced.dom() == self.submitted.dom()
        &&& forall|param: u64| #[trigger]
            self.submitted.contains_key(param) ==> self.reduced[param] == tensors_of(
                self.submitted[param],
            )
    }

    /// What holds between any two steps.
    pub open spec fn consistent(self) -> bool {
        &&& self.shaped()
        &&& self.server.devices_registered == registered(self.stages)
        &&& self.balanced()
        &&& self.held()
        &&& self.recorded()
        &&& self.accounted()
    }

    /// What holds besides between any two steps, as long as every step is timely: the reductions
    /// are launched or a gradient is still to come, and some device is not at the sync point.
    pub open spec fn coherent(self) -> bool {
        &&& self.consistent()
        &&& self.server.devices_registered == self.server.num_devices ==> self.settled()
            || self.gradient_owed()
        &&& self.stages.len() > 0 ==> waiting(self.stages) < self.stages.len()
    }
}

proof fn lemma_total_update(
    stages: Seq<Stage>,
    device: int,
    stage: Stage,
    weight: spec_fn(Stage) -> nat,
)
    requires
        0 <= device < stages.len(),
    ensures
        total(stages.update(device, stage), weight) + weight(stages[device]) == total(
            stages,
            weight,
        ) + weight(stage),
    decreases stages.len(),
{
    let updated = stages.update(device, stage);
    if device == stages.len() - 1 {
        assert(updated.drop_last() =~= stages.drop_last());
    } else {
        assert(updated.drop_last() =~= stages.drop_last().update(device, stage));
        lemma_total_update(stages.drop_last(), device, stage, weight);
    }
}

proof fn lemma_total_at_least(stages: Seq<Stage>, device: int, weight: spec_fn(Stage) -> nat)
    requires
        0 <= device < stages.len(),
    ensures
        weight(stages[device]) <= total(stages, weight),
    decreases stages.len(),
{
    if device < stages.len() - 1 {
        lemma_total_at_least(stages.drop_last(), device, weight);
    }
}

proof fn lemma_total_zero(stages: Seq<Stage>, weight: spec_fn(Stage) -> nat)
    requires
        forall|device: int| 0 <= device < stages.len() ==> weight(#[trigger] stages[device]) == 0,
    ensures
        total(stages, weight) == 0,
    decreases stages.len(),
{
    if stages.len() > 0 {
        let rest = stages.drop_last();
        assert forall|device: int| 0 <= device < rest.len() implies weight(
            #[trigger] rest[device],
        ) == 0 by {
            assert(rest[device] == stages[device]);
        }
        lemma_total_zero(rest, weight);
        assert(weight(stages[stages.len() - 1]) == 0);
    }
}

/// Where no weight is over 1, the sum is the length only if every weight is 1.
proof fn lemma_total_bounded(stages: Seq<Stage>, weight: spec_fn(Stage) -> nat)
    requires
        forall|stage: Stage| #[trigger] weight(stage) <= 1,
    ensures
        total(stages, weight) <= stages.len(),
        total(stages, weight) == stages.len() ==> forall|device: int|
            0 <= device < stages.len() ==> weight(#[trigger] stages[device]) == 1,
    decreases stages.len(),
{
    if stages.len() > 0 {
        let rest = stages.drop_last();
        lemma_total_bounded(rest, weight);
        assert(weight(stages.last()) <= 1);
        if total(stages, weight) == stages.len() {
            assert forall|device: int| 0 <= device < stages.len() implies weight(
                #[trigger] stages[device],
            ) == 1 by {
                if device < stages.len() - 1 {
                    assert(rest[device] == stages[device]);
                }
            }
        }
    }
}

/// How the sums change when `device` moves to `stage`.
proof fn lemma_move(stages: Seq<Stage>, device: int, stage: Stage)
    requires
        0 <= device < stages.len(),
    ensures
        forall|param: u64|
            (#[trigger] owed(stages.update(device, stage), param)) + stages[device].owes(param)
                == owed(stages, param) + stage.owes(param),
        registered(stages.update(device, stage)) + stages[device].registered() == registered(
            stages,
        ) + stage.registered(),
        waiting(stages.update(device, stage)) + stages[device].waiting() == waiting(stages)
            + stage.waiting(),
        steps_left(stages.update(device, stage)) + stages[device].steps_left() == steps_left(stages)
            + stage.steps_left(),
{
    assert forall|param: u64|
        (#[trigger] owed(stages.update(device, stage), param)) + stages[device].owes(param)
            == owed(stages, param) + stage.owes(param) by {
        lemma_total_update(stages, device, stage, |stage: Stage| stage.owes(param));
    }
    lemma_total_update(stages, device, stage, |stage: Stage| stage.registered());
    lemma_total_update(stages, device, stage, |stage: Stage| stage.waiting());
    lemma_total_update(stages, device, stage, |stage: Stage| stage.steps_left());
}

/// What the sums say of each device.
proof fn lemma_counts(stages: Seq<Stage>)
    ensures
        forall|device: int, param: u64|
            0 <= device < stages.len() ==> #[trigger] stages[device].owes(param) <= owed(
                stages,
                param,
            ),
        registered(stages) <= stages.len(),
        registered(stages) == stages.len() ==> forall|device: int|
            0 <= device < stages.len() ==> !((#[trigger] stages[device]) is Idle),
        waiting(stages) <= stages.len(),
        waiting(stages) == stages.len() ==> forall|device: int|
            0 <= device < stages.len() ==> (#[trigger] stages[device]) is Waiting,
{
    assert forall|device: int, param: u64|
        0 <= device < stages.len() implies #[trigger] stages[device].owes(param) <= owed(
        stages,
        param,
    ) by {
        lemma_total_at_least(stages, device, |stage: Stage| stage.owes(param));
    }
    lemma_total_bounded(stages, |stage: Stage| stage.registered());
    lemma_total_bounded(stages, |stage: Stage| stage.waiting());
}

/// Where no device owes anything, nothing is owed.
proof fn lemma_nothing_owed(stages: Seq<Stage>, param: u64)
    requires
        forall|device: int|
            0 <= device < stages.len() ==> (#[trigger] stages[device]).owes(param) == 0,
    ensures
        owed(stages, param) == 0,
{
    lemma_total_zero(stages, |stage: Stage| stage.owes(param));
}

/// Between two rounds, no device counts for anything.
proof fn lemma_all_idle(stages: Seq<Stage>)
    requires
        forall|device: int| 0 <= device < stages.len() ==> (#[trigger] stages[device]) is Idle,
    ensures
        registered(stages) == 0,
        waiting(stages) == 0,
        forall|param: u64| #[trigger] owed(stages, param) == 0,
{
    lemma_total_zero(stages, |stage: Stage| stage.registered());
    lemma_total_zero(stages, |stage: Stage| stage.waiting());
    assert forall|param: u64| #[trigger] owed(stages, param) == 0 by {
        lemma_nothing_owed(stages, param);
    }
}

/// What one more gradient of `device` adds.
proof fn lemma_gradient_added<T>(gradients: Seq<(int, T)>, device: int, tensor: T)
    ensures
        tensors_of(gradients.push((device, tensor))) == tensors_of(gradients).push(tensor),
        forall|other: int|
            (#[trigger] count_from(gradients.push((device, tensor)), other)) == count_from(
                gradients,
                other,
            ) + if other == device {
                1nat
            } else {
                0nat
            },
{
    broadcast use vstd::seq_lib::group_to_multiset_ensures;

    let devices = gradients.map_values(|gradient: (int, T)| gradient.0);
    let pushed = gradients.push((device, tensor));
    assert(pushed.map_values(|gradient: (int, T)| gradient.0) =~= devices.push(device));
    assert(tensors_of(pushed) =~= tensors_of(gradients).push(tensor));
}

proof fn lemma_no_gradients<T>()
    ensures
        tensors_of(Seq::<(int, T)>::empty()) == Seq::<T>::empty(),
        forall|device: int| #[trigger] count_from(Seq::<(int, T)>::empty(), device) == 0,
{
    broadcast use vstd::seq_lib::group_to_multiset_ensures;

    let none = Seq::<(int, T)>::empty();
    let devices = none.map_values(|gradient: (int, T)| gradient.0);
    assert(tensors_of(none) =~= Seq::<T>::empty());
    assert forall|device: int| #[trigger] count_from(none, device) == 0 by {
        assert(!devices.contains(device));
    }
}

/// What the record holds once the reductions of distinct parameters are added.
proof fn lemma_record<T>(reduced: Map<u64, Seq<T>>, reductions: Seq<ReductionView<T>>)
    requires
        forall|i: int, j: int|
            0 <= i < j < reductions.len() ==> (#[trigger] reductions[i]).param != (
            #[trigger] reductions[j]).param,
    ensures
        forall|i: int|
            0 <= i < reductions.len() ==> record(reduced, reductions).contains_key(
                (#[trigger] reductions[i]).param,
            ) && record(reduced, reductions)[reductions[i].param] == reductions[i].tensors,
        forall|param: u64| #[trigger]
            record(reduced, reductions).contains_key(param) ==> reduced.contains_key(param)
                || exists|i: int|
                0 <= i < reductions.len() && (#[trigger] reductions[i]).param == param,
        forall|param: u64|
            (forall|i: int| 0 <= i < reductions.len() ==> (#[trigger] reductions[i]).param != param)
                ==> (#[trigger] record(reduced, reductions).contains_key(param)
                == reduced.contains_key(param)) && (reduced.contains_key(param) ==> record(
                reduced,
                reductions,
            )[param] == reduced[param]),
    decreases reductions.len(),
{
    if reductions.len() > 0 {
        let rest = reductions.drop_last();
        let last = reductions.last();
        assert forall|i: int, j: int| 0 <= i < j < rest.len() implies (#[trigger] rest[i]).param
            != (#[trigger] rest[j]).param by {
            assert(reductions[i].param != reductions[j].param);
        }
        lemma_record(reduced, rest);
        let before = record(reduced, rest);
        let after = record(reduced, reductions);
        assert(after == before.insert(last.param, last.tensors));
        assert forall|i: int| 0 <= i < reductions.len() implies after.contains_key(
            (#[trigger] reductions[i]).param,
        ) && after[reductions[i].param] == reductions[i].tensors by {
            if i < rest.len() {
                assert(rest[i] == reductions[i]);
                assert(reductions[i].param != reductions[reductions.len() - 1].param);
            }
        }
        assert forall|param: u64| #[trigger] after.contains_key(param) implies reduced.contains_key(
            param,
        ) || exists|i: int|
            0 <= i < reductions.len() && (#[trigger] reductions[i]).param == param by {
            if param == last.param {
                assert(reductions[reductions.len() - 1].param == param);
            } else {
                assert(before.contains_key(param));
                if !reduced.contains_key(param) {
                    let i = choose|i: int|
                        0 <= i < rest.len() && (#[trigger] rest[i]).param == param;
                    assert(reductions[i].param == param);
                }
            }
        }
        assert forall|param: u64|
            (forall|i: int| 0 <= i < reductions.len() ==> (#[trigger] reductions[i]).param
                != param) implies (#[trigger] after.contains_key(param) == reduced.contains_key(
            param,
        )) && (reduced.contains_key(param) ==> after[param] == reduced[param]) by {
            assert(reductions[reductions.len() - 1].param != param);
            assert forall|i: int| 0 <= i < rest.len() implies (#[trigger] rest[i]).param
                != param by {
                assert(reductions[i].param != param);
            }
            assert(before.contains_key(param) == reduced.contains_key(param));
        }
    }
}

/// The server goes on holding the devices that wait when another device moves on, short of the
/// sync point.
proof fn lemma_held_kept<D, T>(
    cluster: Cluster<D, T>,
    device: int,
    stage: Stage,
    next: Cluster<D, T>,
)
    requires
        cluster.held(),
        0 <= device < cluster.stages.len(),
        !(cluster.stages[device] is Waiting),
        !(stage is Waiting),
        next.stages == cluster.stages.update(device, stage),
        next.ids == cluster.ids,
        next.server.syncing == cluster.server.syncing,
    ensures
        next.held(),
{
    let server = cluster.server;
    lemma_move(cluster.stages, device, stage);
    assert forall|i: int| 0 <= i < next.server.syncing.len() implies next.waits(
        (#[trigger] next.server.syncing[i]).id,
    ) by {
        let id = server.syncing[i].id;
        assert(cluster.waits(id));
        let other = choose|other: int|
            0 <= other < cluster.stages.len() && (#[trigger] cluster.stages[other]) is Waiting
                && cluster.ids[other] == id;
        assert(next.stages[other] is Waiting);
    }
    assert forall|other: int|
        0 <= other < next.stages.len() && (
        #[trigger] next.stages[other]) is Waiting implies next.holds(next.ids[other]) by {
        assert(cluster.stages[other] is Waiting);
        let i = choose|i: int|
            0 <= i < server.syncing.len() && (#[trigger] server.syncing[i]).id
                == cluster.ids[other];
        assert(next.server.syncing[i].id == next.ids[other]);
    }
}

proof fn lemma_register<D, T>(
    cluster: Cluster<D, T>,
    device: int,
    params: Seq<u64>,
    outcome: OutcomeView<D, T>,
    next: Cluster<D, T>,
)
    requires
        cluster.consistent(),
        cluster.takes(Step::Register(device, params), outcome, next),
    ensures
        next.consistent(),
        cluster.timely(Step::<D, T>::Register(device, params)) ==> next.coherent(),
        outcome.reductions.len() == 0,
        outcome.releases.len() == 0,
{
    let stage = Stage::Active(params.to_multiset());
    let server = cluster.server;
    lemma_move(cluster.stages, device, stage);
    lemma_counts(cluster.stages);
    lemma_counts(next.stages);
    assert(next.server == server.after_register(params));
    assert(next.stages == cluster.stages.update(device, stage));
    assert(cluster.stages[device].owes(0) == 0);
    params.to_multiset_ensures();
    assert(server.devices_registered < server.num_devices) by {
        if registered(cluster.stages) == cluster.stages.len() {
            assert(!(cluster.stages[device] is Idle));
        }
    }
    assert forall|param: u64| occurrences(params, param) > 0 <==> params.contains(param) by {
        lemma_occurrences(params, param, param);
    }
    assert(next.balanced()) by {
        assert forall|param: u64|
            (#[trigger] next.server.queued_of(param)).len() + owed(next.stages, param)
                == next.server.required_of(param) by {
            assert(server.queued_of(param) == next.server.queued_of(param));
            assert(owed(cluster.stages.update(device, stage), param) == owed(cluster.stages, param)
                + occurrences(params, param));
            lemma_occurrences(params, param, param);
        }
    }
    assert(next.server.well_formed());
    lemma_held_kept(cluster, device, stage, next);
    assert(cluster.gradient_owed() ==> next.gradient_owed()) by {
        if cluster.gradient_owed() {
            let other = choose|other: int|
                0 <= other < cluster.stages.len() && (#[trigger] cluster.stages[other]) is Active
                    && cluster.stages[other]->Active_0.len() > 0;
            assert(next.stages[other] is Active);
        }
    }
    assert(next.stages[device] is Active);
    assert(cluster.timely(Step::<D, T>::Register(device, params))
        && next.server.devices_registered == next.server.num_devices ==> next.settled()
        || next.gradient_owed()) by {
        if params.len() == 0 {
            assert forall|param: u64| #[trigger]
                next.server.required.contains_key(param) implies server.required.contains_key(
                param,
            ) by {}
        }
    }
    assert(next.recorded()) by {
        assert forall|param: u64| !next.reduced.contains_key(param) implies #[trigger]
        next.server.queued_of(param) == tensors_of(next.submitted_of(param)) by {
            assert(server.queued_of(param) == next.server.queued_of(param));
        }
    }
    assert(next.accounted()) by {
        assert forall|other: int, param: u64| 0 <= other < next.stages.len() implies count_from(
            next.submitted_of(param),
            other,
        ) + #[trigger] next.stages[other].owes(param) == next.announced[other].count(param) by {
            assert(count_from(cluster.submitted_of(param), other)
                + cluster.stages[other].owes(param) == cluster.announced[other].count(param));
        }
    }
}

proof fn lemma_submit<D, T>(
    cluster: Cluster<D, T>,
    device: int,
    param: u64,
    tensor: T,
    outcome: OutcomeView<D, T>,
    next: Cluster<D, T>,
)
    requires
        cluster.consistent(),
        cluster.takes(Step::Submit(device, param, tensor), outcome, next),
    ensures
        next.consistent(),
        next.coherent(),
        outcome.releases.len() == 0,
        !cluster.server.after_submit(param, tensor).may_close(),
        forall|i: int|
            0 <= i < outcome.reductions.len() ==> {
                let reduction = #[trigger] outcome.reductions[i];
                &&& !cluster.reduced.contains_key(reduction.param)
                &&& reduction.tensors == tensors_of(next.submitted_of(reduction.param))
                &&& owed(next.stages, reduction.param) == 0
                &&& reduction.op == cluster.server.config.all_reduce_op
            },
        outcome.reductions.len() > 0 ==> cluster.server.devices_registered
            == cluster.server.num_devices,
        forall|i: int, j: int|
            0 <= i < j < outcome.reductions.len() ==> (#[trigger] outcome.reductions[i]).param != (
            #[trigger] outcome.reductions[j]).param,
{
    let server = cluster.server;
    let queued = server.after_submit(param, tensor);
    let pending = cluster.stages[device]->Active_0;
    let stage = Stage::Active(pending.remove(param));
    let stepped = cluster.stepped(Step::Submit(device, param, tensor));
    lemma_move(cluster.stages, device, stage);
    lemma_counts(cluster.stages);
    lemma_no_gradients::<T>();
    lemma_gradient_added(cluster.submitted_of(param), device, tensor);
    assert(stepped.stages == cluster.stages.update(device, stage));
    assert(server.required_of(param) > 0) by {
        assert(cluster.stages[device].owes(param) <= owed(cluster.stages, param));
        assert(server.queued_of(param).len() + owed(cluster.stages, param) == server.required_of(
            param,
        ));
    }
    assert(!queued.may_close()) by {
        if waiting(cluster.stages) == cluster.stages.len() {
            assert(cluster.stages[device] is Waiting);
        }
    }
    assert(outcome.releases.len() == 0);
    // Before anything is reduced, the gradient only moves from owed to queued.
    assert forall|other: u64|
        (#[trigger] queued.queued_of(other)).len() + owed(stepped.stages, other)
            == queued.required_of(other) by {
        assert(server.queued_of(other).len() + owed(cluster.stages, other) == server.required_of(
            other,
        ));
        assert(owed(stepped.stages, other) + cluster.stages[device].owes(other) == owed(
            cluster.stages,
            other,
        ) + stage.owes(other));
    }
    assert forall|other: u64| !cluster.reduced.contains_key(other) implies #[trigger]
    queued.queued_of(other) == tensors_of(stepped.submitted_of(other)) by {
        assert(server.queued_of(other) == tensors_of(cluster.submitted_of(other)));
    }
    assert(!cluster.reduced.contains_key(param));
    lemma_held_kept(cluster, device, stage, next);
    assert(next.accounted()) by {
        assert forall|other: int, p: u64| 0 <= other < next.stages.len() implies count_from(
            next.submitted_of(p),
            other,
        ) + #[trigger] next.stages[other].owes(p) == next.announced[other].count(p) by {
            assert(count_from(cluster.submitted_of(p), other) + cluster.stages[other].owes(p)
                == cluster.announced[other].count(p));
            if p == param {
                assert(next.submitted_of(p) == cluster.submitted_of(param).push((device, tensor)));
            }
        }
    }
    lemma_record(cluster.reduced, outcome.reductions);
    if server.devices_registered == server.num_devices {
        assert(next.server == queued.reduced());
        assert(next.balanced()) by {
            assert forall|other: u64|
                (#[trigger] next.server.queued_of(other)).len() + owed(next.stages, other)
                    == next.server.required_of(other) by {
                assert(queued.queued_of(other).len() + owed(stepped.stages, other)
                    == queued.required_of(other));
            }
        }
        assert(next.settled()) by {
            assert forall|other: u64| #[trigger]
                next.server.required.contains_key(other) implies next.server.queue.contains_key(
                other,
            ) && !next.server.full(other) by {
                assert(next.server.queued_of(other) == queued.queued_of(other));
            }
        }
        assert(next.recorded()) by {
            assert forall|other: u64| #[trigger] next.reduced.contains_key(other) implies {
                &&& next.reduced[other] == tensors_of(next.submitted_of(other))
                &&& next.submitted.contains_key(other)
                &&& !next.server.required.contains_key(other)
                &&& next.server.devices_registered == next.server.num_devices
            } by {
                if cluster.reduced.contains_key(other) {
                    assert forall|i: int| 0 <= i < outcome.reductions.len() implies (
                    #[trigger] outcome.reductions[i]).param != other by {
                        assert(queued.full(outcome.reductions[i].param));
                    }
                } else {
                    let i = choose|i: int|
                        0 <= i < outcome.reductions.len() && (
                        #[trigger] outcome.reductions[i]).param == other;
                    assert(queued.full(outcome.reductions[i].param));
                    assert(queued.queued_of(other) == tensors_of(stepped.submitted_of(other)));
                    assert(queued.required[other] >= 1);
                }
            }
            assert forall|other: u64| !next.reduced.contains_key(other) implies #[trigger]
            next.server.queued_of(other) == tensors_of(next.submitted_of(other)) by {
                if queued.full(other) {
                    let i = choose|i: int|
                        0 <= i < outcome.reductions.len() && (
                        #[trigger] outcome.reductions[i]).param == other;
                    assert(next.reduced.contains_key(outcome.reductions[i].param));
                }
                assert forall|i: int| 0 <= i < outcome.reductions.len() implies (
                #[trigger] outcome.reductions[i]).param != other by {
                    assert(queued.full(outcome.reductions[i].param));
                }
                assert(!cluster.reduced.contains_key(other));
                assert(next.server.queued_of(other) == queued.queued_of(other));
            }
        }
    } else {
        assert(next.server == queued);
        assert(outcome.reductions.len() == 0);
        assert(next.reduced == cluster.reduced);
    }
}

/// A device that comes to the sync point is not there yet.
proof fn lemma_newcomer_distinct<D, T>(
    cluster: Cluster<D, T>,
    device: int,
    handle: D,
    callback: oneshot::Sender<CollectiveWait<D>>,
)
    requires
        cluster.consistent(),
        0 <= device < cluster.stages.len(),
        !(cluster.stages[device] is Waiting),
    ensures
        cluster.server.after_arrival(
            SyncDevice { id: cluster.ids[device], handle },
            callback,
        ).distinct(),
{
    let server = cluster.server;
    let id = cluster.ids[device];
    let arrived = server.after_arrival(SyncDevice { id, handle }, callback);
    assert forall|i: int| 0 <= i < server.syncing.len() implies (#[trigger] server.syncing[i]).id
        != id by {
        assert(cluster.waits(server.syncing[i].id));
        let other = choose|other: int|
            0 <= other < cluster.stages.len() && (#[trigger] cluster.stages[other]) is Waiting
                && cluster.ids[other] == server.syncing[i].id;
        assert(other != device);
    }
    assert(arrived.distinct()) by {
        assert forall|i: int, j: int| 0 <= i < j < arrived.syncing.len() implies (
        #[trigger] arrived.syncing[i]).id != (#[trigger] arrived.syncing[j]).id by {
            assert(arrived.syncing[i] == server.syncing[i]);
            if j < server.syncing.len() {
                assert(arrived.syncing[j] == server.syncing[j]);
            }
        }
    }
}

proof fn lemma_arrive<D, T>(
    cluster: Cluster<D, T>,
    device: int,
    handle: D,
    callback: oneshot::Sender<CollectiveWait<D>>,
    outcome: OutcomeView<D, T>,
    next: Cluster<D, T>,
)
    requires
        cluster.consistent(),
        cluster.takes(Step::Arrive(device, handle, callback), outcome, next),
    ensures
        next.consistent(),
        cluster.coherent() ==> next.coherent(),
        outcome.reductions.len() == 0,
        cluster.server.after_arrival(
            SyncDevice { id: cluster.ids[device], handle },
            callback,
        ).distinct(),
        cluster.coherent() && cluster.others_wait(device) ==> outcome.releases.len() > 0,
        outcome.releases.len() > 0 ==> {
            &&& cluster.others_wait(device)
            &&& outcome.releases.len() == cluster.stages.len()
            &&& forall|other: int|
                0 <= other < cluster.stages.len() ==> is_released(
                    outcome.releases,
                    #[trigger] cluster.ids[other],
                )
            &&& cluster.all_reduced()
            &&& next == Cluster::<D, T>::initial(cluster.ids, cluster.server.config)
        },
{
    let server = cluster.server;
    let id = cluster.ids[device];
    let arrived = server.after_arrival(SyncDevice { id, handle }, callback);
    let stages = cluster.stages.update(device, Stage::Waiting);
    lemma_move(cluster.stages, device, Stage::Waiting);
    lemma_counts(cluster.stages);
    lemma_counts(stages);
    lemma_no_gradients::<T>();
    lemma_newcomer_distinct(cluster, device, handle, callback);
    assert forall|param: u64| #[trigger] owed(stages, param) == owed(cluster.stages, param) by {
        assert(cluster.stages[device]->Active_0.count(param) == 0);
    }
    // Every device that waits is held once the newcomer is.
    assert forall|other: int|
        0 <= other < stages.len() && (#[trigger] stages[other]) is Waiting implies exists|i: int|
        0 <= i < arrived.syncing.len() && (#[trigger] arrived.syncing[i]).id
            == cluster.ids[other] by {
        if other == device {
            assert(arrived.syncing[server.syncing.len() as int].id == id);
        } else {
            assert(cluster.stages[other] is Waiting);
            let i = choose|i: int|
                0 <= i < server.syncing.len() && (#[trigger] server.syncing[i]).id
                    == cluster.ids[other];
            assert(arrived.syncing[i].id == cluster.ids[other]);
        }
    }
    if cluster.others_wait(device) {
        lemma_all_waiting(stages);
        if cluster.coherent() {
            lemma_last_arrival(cluster, device);
        }
    }
    if arrived.sync_ready() {
        lemma_empty_queue(cluster);
        assert(cluster.others_wait(device)) by {
            assert forall|other: int| 0 <= other < cluster.stages.len() && other != device implies (
            #[trigger] cluster.stages[other]) is Waiting by {
                assert(stages[other] is Waiting);
            }
        }
        assert(next.server == arrived.closed());
        assert(outcome.releases == arrived.releases());
        assert forall|other: int| 0 <= other < cluster.stages.len() implies is_released(
            outcome.releases,
            #[trigger] cluster.ids[other],
        ) by {
            assert(stages[other] is Waiting);
            let i = choose|i: int|
                0 <= i < arrived.syncing.len() && (#[trigger] arrived.syncing[i]).id
                    == cluster.ids[other];
            assert(outcome.releases[i].wait.device.id == cluster.ids[other]);
        }
        let initial = Cluster::<D, T>::initial(cluster.ids, server.config);
        assert(next.server.queue =~= initial.server.queue);
        assert(next.server =~= initial.server);
        assert(next.stages =~= initial.stages);
        assert(next.announced =~= initial.announced);
        assert(next =~= initial);
        lemma_initial::<D, T>(cluster.ids, server.config);
    } else {
        assert(cluster.coherent() ==> waiting(stages) < stages.len()) by {
            if cluster.coherent() && waiting(stages) == stages.len() {
                lemma_last_arrival(cluster, device);
            }
        }
        assert(next.server == arrived);
        assert(next.stages == stages);
        assert(next.held()) by {
            assert forall|i: int| 0 <= i < arrived.syncing.len() implies next.waits(
                (#[trigger] arrived.syncing[i]).id,
            ) by {
                if i < server.syncing.len() {
                    assert(arrived.syncing[i] == server.syncing[i]);
                    assert(cluster.waits(server.syncing[i].id));
                    let other = choose|other: int|
                        0 <= other < cluster.stages.len() && (
                        #[trigger] cluster.stages[other]) is Waiting && cluster.ids[other]
                            == server.syncing[i].id;
                    assert(next.stages[other] is Waiting);
                } else {
                    assert(next.stages[device] is Waiting);
                }
            }
        }
        assert(next.balanced()) by {
            assert forall|param: u64|
                (#[trigger] next.server.queued_of(param)).len() + owed(next.stages, param)
                    == next.server.required_of(param) by {
                assert(server.queued_of(param) == next.server.queued_of(param));
                assert(owed(stages, param) == owed(cluster.stages, param));
            }
        }
        assert(cluster.gradient_owed() ==> next.gradient_owed()) by {
            if cluster.gradient_owed() {
                let other = choose|other: int|
                    0 <= other < cluster.stages.len() && (
                    #[trigger] cluster.stages[other]) is Active
                        && cluster.stages[other]->Active_0.len() > 0;
                assert(next.stages[other] is Active);
            }
        }
        assert(cluster.settled() ==> next.settled()) by {
            if cluster.settled() {
                assert forall|param: u64| #[trigger]
                    next.server.required.contains_key(param) implies next.server.queue.contains_key(
                    param,
                ) && !next.server.full(param) by {
                    assert(server.required.contains_key(param));
                    assert(!server.full(param));
                }
            }
        }
        assert(next.recorded()) by {
            assert forall|param: u64| !next.reduced.contains_key(param) implies #[trigger]
            next.server.queued_of(param) == tensors_of(next.submitted_of(param)) by {
                assert(server.queued_of(param) == next.server.queued_of(param));
            }
        }
        assert(next.accounted()) by {
            assert forall|other: int, param: u64| 0 <= other < next.stages.len() implies count_from(
                next.submitted_of(param),
                other,
            ) + #[trigger] next.stages[other].owes(param) == next.announced[other].count(param) by {
                assert(count_from(cluster.submitted_of(param), other)
                    + cluster.stages[other].owes(param) == cluster.announced[other].count(param));
            }
        }
    }
}

/// When the last device comes to the sync point, nothing waits for a reduction.
proof fn lemma_last_arrival<D, T>(cluster: Cluster<D, T>, device: int)
    requires
        cluster.coherent(),
        0 <= device < cluster.stages.len(),
        cluster.stages[device] is Active,
        cluster.stages[device]->Active_0.len() == 0,
        waiting(cluster.stages.update(device, Stage::Waiting)) == cluster.stages.len(),
    ensures
        cluster.server.queue.dom() == Set::<u64>::empty(),
{
    let server = cluster.server;
    let stages = cluster.stages.update(device, Stage::Waiting);
    lemma_move(cluster.stages, device, Stage::Waiting);
    lemma_counts(stages);
    assert forall|other: int| 0 <= other < cluster.stages.len() implies other == device || (
    #[trigger] cluster.stages[other]) is Waiting by {
        assert(stages[other] is Waiting);
    }
    assert(registered(stages) == stages.len()) by {
        lemma_all_waiting(stages);
    }
    assert(!cluster.gradient_owed());
    assert(cluster.settled());
    assert forall|param: u64| !server.required.contains_key(param) by {
        assert forall|other: int| 0 <= other < cluster.stages.len() implies (
        #[trigger] cluster.stages[other]).owes(param) == 0 by {
            if other == device {
                assert(cluster.stages[device]->Active_0.count(param) == 0);
            }
        }
        lemma_nothing_owed(cluster.stages, param);
        assert(server.queued_of(param).len() + owed(cluster.stages, param) == server.required_of(
            param,
        ));
        if server.required.contains_key(param) {
            assert(server.full(param));
        }
    }
    assert(server.required.dom() =~= Set::<u64>::empty());
    assert(server.queue.dom() =~= Set::<u64>::empty());
}

/// When nothing waits for a reduction, every gradient has been reduced.
proof fn lemma_empty_queue<D, T>(cluster: Cluster<D, T>)
    requires
        cluster.consistent(),
        cluster.server.queue.dom() == Set::<u64>::empty(),
    ensures
        cluster.all_reduced(),
{
    let server = cluster.server;
    assert forall|param: u64| #[trigger] cluster.submitted.contains_key(param) implies
        cluster.reduced.contains_key(param) by {
        if !cluster.reduced.contains_key(param) {
            assert(server.queued_of(param) == tensors_of(cluster.submitted_of(param)));
            assert(!server.queue.dom().contains(param));
        }
    }
    assert(cluster.reduced.dom() =~= cluster.submitted.dom());
}

/// Where every device is at the sync point, every device is counted.
proof fn lemma_all_waiting(stages: Seq<Stage>)
    requires
        forall|device: int| 0 <= device < stages.len() ==> (#[trigger] stages[device]) is Waiting,
    ensures
        waiting(stages) == stages.len(),
        registered(stages) == stages.len(),
    decreases stages.len(),
{
    if stages.len() > 0 {
        let rest = stages.drop_last();
        assert forall|device: int| 0 <= device < rest.len() implies (
        #[trigger] rest[device]) is Waiting by {
            assert(rest[device] == stages[device]);
        }
        lemma_all_waiting(rest);
        assert(stages[stages.len() - 1] is Waiting);
    }
}

proof fn lemma_initial<D, T>(ids: Seq<DeviceId>, config: DistributedConfig)
    requires
        ids.no_duplicates(),
    ensures
        Cluster::<D, T>::initial(ids, config).coherent(),
{
    let initial = Cluster::<D, T>::initial(ids, config);
    lemma_all_idle(initial.stages);
    lemma_no_gradients::<T>();
    assert(initial.balanced()) by {
        assert forall|param: u64|
            (#[trigger] initial.server.queued_of(param)).len() + owed(initial.stages, param)
                == initial.server.required_of(param) by {
            assert(owed(initial.stages, param) == 0);
        }
    }
    assert(initial.accounted()) by {
        assert forall|device: int, param: u64|
            0 <= device < initial.stages.len() implies count_from(
            initial.submitted_of(param),
            device,
        ) + #[trigger] initial.stages[device].owes(param) == initial.announced[device].count(
            param,
        ) by {}
    }
}

/// Before the first round, with every device idle, the cluster is coherent.
pub proof fn law_first_round<D, T>(ids: Seq<DeviceId>, config: DistributedConfig)
    requires
        ids.no_duplicates(),
    ensures
        Cluster::<D, T>::initial(ids, config).coherent(),
{
    lemma_initial::<D, T>(ids, config);
}

/// Whatever step a device takes, the cluster stays consistent.
pub proof fn law_step_keeps_consistency<D, T>(
    cluster: Cluster<D, T>,
    step: Step<D, T>,
    outcome: OutcomeView<D, T>,
    next: Cluster<D, T>,
)
    requires
        cluster.consistent(),
        cluster.takes(step, outcome, next),
    ensures
        next.consistent(),
{
    lemma_step(cluster, step, outcome, next);
}

/// Whatever timely step a device takes, the cluster stays coherent.
pub proof fn law_step_keeps_coherence<D, T>(
    cluster: Cluster<D, T>,
    step: Step<D, T>,
    outcome: OutcomeView<D, T>,
    next: Cluster<D, T>,
)
    requires
        cluster.coherent(),
        cluster.takes(step, outcome, next),
        cluster.timely(step),
    ensures
        next.coherent(),
{
    lemma_step(cluster, step, outcome, next);
}

/// What each step does, by its kind.
proof fn lemma_step<D, T>(
    cluster: Cluster<D, T>,
    step: Step<D, T>,
    outcome: OutcomeView<D, T>,
    next: Cluster<D, T>,
)
    requires
        cluster.consistent(),
        cluster.takes(step, outcome, next),
    ensures
        next.consistent(),
        cluster.coherent() && cluster.timely(step) ==> next.coherent(),
        cluster.coherent() && step is Arrive && cluster.others_wait(step->Arrive_0)
            ==> outcome.releases.len() > 0,
        outcome.releases.len() > 0 ==> {
            &&& step is Arrive
            &&& cluster.others_wait(step->Arrive_0)
            &&& outcome.releases.len() == cluster.stages.len()
            &&& forall|device: int|
                0 <= device < cluster.stages.len() ==> is_released(
                    outcome.releases,
                    #[trigger] cluster.ids[device],
                )
        },
{
    match step {
        Step::Register(device, params) => lemma_register(cluster, device, params, outcome, next),
        Step::Submit(device, param, tensor) => lemma_submit(
            cluster,
            device,
            param,
            tensor,
            outcome,
            next,
        ),
        Step::Arrive(device, handle, callback) => lemma_arrive(
            cluster,
            device,
            handle,
            callback,
            outcome,
            next,
        ),
    }
}

/// The states of a run: each follows from the one before it by the step of some device.
pub open spec fn is_run<D, T>(
    states: Seq<Cluster<D, T>>,
    steps: Seq<Step<D, T>>,
    outcomes: Seq<OutcomeView<D, T>>,
) -> bool {
    &&& states.len() == steps.len() + 1
    &&& outcomes.len() == steps.len()
    &&& forall|i: int|
        0 <= i < steps.len() ==> (#[trigger] states[i]).takes(steps[i], outcomes[i], states[i + 1])
}

/// In every run from the first round on, over any number of rounds and however the steps of the
/// devices interleave, every state is consistent.
pub proof fn law_run_is_consistent<D, T>(
    ids: Seq<DeviceId>,
    config: DistributedConfig,
    states: Seq<Cluster<D, T>>,
    steps: Seq<Step<D, T>>,
    outcomes: Seq<OutcomeView<D, T>>,
    i: int,
)
    requires
        ids.no_duplicates(),
        is_run(states, steps, outcomes),
        states[0] == Cluster::<D, T>::initial(ids, config),
        0 <= i < states.len(),
    ensures
        states[i].consistent(),
    decreases i,
{
    if i == 0 {
        law_first_round::<D, T>(ids, config);
    } else {
        law_run_is_consistent(ids, config, states, steps, outcomes, i - 1);
        assert(states[i - 1].takes(steps[i - 1], outcomes[i - 1], states[i - 1 + 1]));
        law_step_keeps_consistency(states[i - 1], steps[i - 1], outcomes[i - 1], states[i]);
    }
}

/// In every such run of timely steps, every state is coherent.
pub proof fn law_timely_run_is_coherent<D, T>(
    ids: Seq<DeviceId>,
    config: DistributedConfig,
    states: Seq<Cluster<D, T>>,
    steps: Seq<Step<D, T>>,
    outcomes: Seq<OutcomeView<D, T>>,
    i: int,
)
    requires
        ids.no_duplicates(),
        is_run(states, steps, outcomes),
        states[0] == Cluster::<D, T>::initial(ids, config),
        forall|j: int| 0 <= j < steps.len() ==> (#[trigger] states[j]).timely(steps[j]),
        0 <= i < states.len(),
    ensures
        states[i].coherent(),
    decreases i,
{
    if i == 0 {
        law_first_round::<D, T>(ids, config);
    } else {
        law_timely_run_is_coherent(ids, config, states, steps, outcomes, i - 1);
        assert(states[i - 1].takes(steps[i - 1], outcomes[i - 1], states[i - 1 + 1]));
        law_step_keeps_coherence(states[i - 1], steps[i - 1], outcomes[i - 1], states[i]);
    }
}

/// No round counts more registrations than there are devices.
pub proof fn law_registrations_bounded<D, T>(cluster: Cluster<D, T>)
    requires
        cluster.consistent(),
    ensures
        cluster.server.devices_registered <= cluster.server.num_devices,
{
    lemma_counts(cluster.stages);
}

/// The sync point holds every device until all of them have reached it. Devices are released
/// only when the last one arrives, and then all of them are, each once.
pub proof fn law_sync_point_holds_every_device<D, T>(
    cluster: Cluster<D, T>,
    step: Step<D, T>,
    outcome: OutcomeView<D, T>,
    next: Cluster<D, T>,
)
    requires
        cluster.consistent(),
        cluster.takes(step, outcome, next),
        outcome.releases.len() > 0,
    ensures
        step is Arrive && cluster.others_wait(step->Arrive_0),
        outcome.releases.len() == cluster.stages.len(),
        forall|device: int|
            0 <= device < cluster.stages.len() ==> is_released(
                outcome.releases,
                #[trigger] cluster.ids[device],
            ),
{
    lemma_step(cluster, step, outcome, next);
}

/// As long as every step is timely, the arrival of the last device releases them all.
pub proof fn law_last_arrival_releases<D, T>(
    cluster: Cluster<D, T>,
    step: Step<D, T>,
    outcome: OutcomeView<D, T>,
    next: Cluster<D, T>,
)
    requires
        cluster.coherent(),
        cluster.takes(step, outcome, next),
        step is Arrive,
        cluster.others_wait(step->Arrive_0),
    ensures
        outcome.releases.len() == cluster.stages.len(),
        forall|device: int|
            0 <= device < cluster.stages.len() ==> is_released(
                outcome.releases,
                #[trigger] cluster.ids[device],
            ),
{
    lemma_step(cluster, step, outcome, next);
}

/// When the devices are released, every device has submitted what it announced, every gradient
/// submitted in the round has been reduced together with all the gradients of the same
/// parameter, and the next round starts from the same state as the first.
pub proof fn law_release_follows_every_reduction<D, T>(
    cluster: Cluster<D, T>,
    step: Step<D, T>,
    outcome: OutcomeView<D, T>,
    next: Cluster<D, T>,
)
    requires
        cluster.consistent(),
        cluster.takes(step, outcome, next),
        outcome.releases.len() > 0,
    ensures
        cluster.all_reduced(),
        forall|device: int, param: u64|
            0 <= device < cluster.stages.len() ==> count_from(cluster.submitted_of(param), device)
                == #[trigger] cluster.announced[device].count(param),
        next == Cluster::<D, T>::initial(cluster.ids, cluster.server.config),
{
    law_sync_point_holds_every_device(cluster, step, outcome, next);
    if let Step::Arrive(device, handle, callback) = step {
        lemma_arrive(cluster, device, handle, callback, outcome, next);
        assert forall|other: int, param: u64|
            0 <= other < cluster.stages.len() implies count_from(
            cluster.submitted_of(param),
            other,
        ) == #[trigger] cluster.announced[other].count(param) by {
            assert(count_from(cluster.submitted_of(param), other)
                + cluster.stages[other].owes(param) == cluster.announced[other].count(param));
            if other == device {
                assert(cluster.stages[device]->Active_0.count(param) == 0);
            } else {
                assert(cluster.stages[other] is Waiting);
            }
        }
    }
}

/// A parameter is reduced once in a round, when every device has registered, with the
/// configured operation, over all the gradients submitted for it, of which there are as many
/// from each device as the device announced.
pub proof fn law_reduction_covers_every_device<D, T>(
    cluster: Cluster<D, T>,
    step: Step<D, T>,
    outcome: OutcomeView<D, T>,
    next: Cluster<D, T>,
    i: int,
)
    requires
        cluster.consistent(),
        cluster.takes(step, outcome, next),
        0 <= i < outcome.reductions.len(),
    ensures
        cluster.server.devices_registered == cluster.server.num_devices,
        !cluster.reduced.contains_key(outcome.reductions[i].param),
        forall|j: int|
            0 <= j < outcome.reductions.len() && j != i ==> (#[trigger] outcome.reductions[j]).param
                != outcome.reductions[i].param,
        outcome.reductions[i].op == cluster.server.config.all_reduce_op,
        outcome.reductions[i].tensors == tensors_of(
            next.submitted_of(outcome.reductions[i].param),
        ),
        forall|device: int|
            0 <= device < cluster.stages.len() ==> count_from(
                next.submitted_of(outcome.reductions[i].param),
                device,
            ) == #[trigger] next.announced[device].count(outcome.reductions[i].param),
{
    match step {
        Step::Register(device, params) => lemma_register(cluster, device, params, outcome, next),
        Step::Submit(device, param, tensor) => {
            lemma_submit(cluster, device, param, tensor, outcome, next);
            let reduced = outcome.reductions[i].param;
            assert(owed(next.stages, reduced) == 0);
            lemma_counts(next.stages);
            assert forall|other: int| 0 <= other < cluster.stages.len() implies count_from(
                next.submitted_of(reduced),
                other,
            ) == #[trigger] next.announced[other].count(reduced) by {
                assert(next.stages[other].owes(reduced) <= owed(next.stages, reduced));
            }
        },
        Step::Arrive(device, handle, callback) => lemma_arrive(
            cluster,
            device,
            handle,
            callback,
            outcome,
            next,
        ),
    }
}

/// As long as every step is timely, the cluster never comes to a standstill: some device is not
/// at the sync point, and it can take the step of its stage.
pub proof fn law_never_stuck<D, T>(cluster: Cluster<D, T>) -> (device: int)
    requires
        cluster.coherent(),
        cluster.stages.len() > 0,
    ensures
        0 <= device < cluster.stages.len(),
        cluster.stages[device] is Idle ==> forall|params: Seq<u64>|
            params.len() > 0 ==> #[trigger] cluster.enabled(Step::Register(device, params))
                && cluster.timely(Step::Register(device, params)),
        cluster.stages[device] is Active ==> {
            ||| exists|param: u64| #[trigger]
                cluster.stages[device].owes(param) > 0 && forall|tensor: T| #[trigger]
                    cluster.enabled(Step::Submit(device, param, tensor))
            ||| forall|handle: D, callback: oneshot::Sender<CollectiveWait<D>>| #[trigger]
                cluster.enabled(Step::Arrive(device, handle, callback))
        },
        !(cluster.stages[device] is Waiting),
{
    if forall|device: int|
        0 <= device < cluster.stages.len() ==> (#[trigger] cluster.stages[device]) is Waiting {
        lemma_all_waiting(cluster.stages);
    }
    let device = choose|device: int|
        0 <= device < cluster.stages.len() && !((#[trigger] cluster.stages[device]) is Waiting);
    if let Stage::Active(pending) = cluster.stages[device] {
        if pending.len() > 0 {
            let param = pending.choose();
            assert(cluster.stages[device].owes(param) > 0);
            assert forall|tensor: T| #[trigger]
                cluster.enabled(Step::Submit(device, param, tensor)) by {}
        }
    }
    device
}

/// Every step brings the round closer to its end: unless it releases the devices, there are
/// fewer devices left to register, or as many of them and fewer steps left to the registered
/// ones.
pub proof fn law_step_makes_progress<D, T>(
    cluster: Cluster<D, T>,
    step: Step<D, T>,
    outcome: OutcomeView<D, T>,
    next: Cluster<D, T>,
)
    requires
        cluster.consistent(),
        cluster.takes(step, outcome, next),
        outcome.releases.len() == 0,
    ensures
        registered(next.stages) <= next.stages.len(),
        next.stages.len() == cluster.stages.len(),
        registered(next.stages) > registered(cluster.stages) || (registered(next.stages)
            == registered(cluster.stages) && steps_left(next.stages) < steps_left(cluster.stages)),
{
    lemma_counts(next.stages);
    match step {
        Step::Register(device, params) => {
            lemma_move(cluster.stages, device, Stage::Active(params.to_multiset()));
        },
        Step::Submit(device, param, tensor) => {
            lemma_move(
                cluster.stages,
                device,
                Stage::Active(cluster.stages[device]->Active_0.remove(param)),
            );
        },
        Step::Arrive(device, handle, callback) => {
            lemma_move(cluster.stages, device, Stage::Waiting);
        },
    }
}

/// The server can handle the message of every step that a device takes, as long as the counts
/// of the gradients required fit a machine word.
pub proof fn law_server_accepts_every_step<D, T>(cluster: Cluster<D, T>, step: Step<D, T>)
    requires
        cluster.consistent(),
        cluster.enabled(step),
        cluster.server.num_devices <= usize::MAX,
        step matches Step::Register(device, params) ==> forall|param: u64|
            cluster.server.required_of(param) + (#[trigger] occurrences(params, param))
                <= usize::MAX,
    ensures
        cluster.server.accepts(cluster.message(step)),
{
    lemma_counts(cluster.stages);
    match step {
        Step::Register(device, params) => {
            if registered(cluster.stages) == cluster.stages.len() {
                assert(!(cluster.stages[device] is Idle));
            }
            assert(cluster.server.can_count(params));
        },
        Step::Submit(device, param, tensor) => {},
        Step::Arrive(device, handle, callback) => {
            lemma_newcomer_distinct(cluster, device, handle, callback);
        },
    }
}

} // verus!
