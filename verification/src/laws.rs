//! What holds of the server whatever its devices send.

use crate::channel::{CollectiveWait, Release};
use crate::model::{
    lemma_occurrences, occurrences, param_values, DistributedSyncMessage, OutcomeView,
    ReductionView, SyncEvent, SyncOutcome, SyncState,
};
use crate::types::{DeviceId, DistributedConfig, DistributedParams, SyncDevice};
use vstd::prelude::*;

verus! {

/// No message changes the settings or the number of devices.
pub proof fn law_settings_kept<D, T>(
    before: SyncState<D, T>,
    event: SyncEvent<D, T>,
    next: SyncState<D, T>,
    outcome: OutcomeView<D, T>,
)
    requires
        before.handles(event, next, outcome),
    ensures
        next.config == before.config,
        next.num_devices == before.num_devices,
{
}

/// Each kind of message has the effect of its own kind, and no other: a registration is counted,
/// a gradient waits and launches the reductions that are due, an arrival waits and closes the
/// round if it can.
pub proof fn law_each_message_has_its_own_effect<D, T>(
    before: SyncState<D, T>,
    event: SyncEvent<D, T>,
    next: SyncState<D, T>,
    outcome: OutcomeView<D, T>,
)
    requires
        before.handles(event, next, outcome),
    ensures
        event matches SyncEvent::Register(params) ==> {
            &&& next == before.after_register(params)
            &&& outcome.reductions.len() == 0
            &&& outcome.releases.len() == 0
        },
        event matches SyncEvent::Gradient(param, tensor) ==> before.after_submit(
            param,
            tensor,
        ).launches(next, outcome),
        event matches SyncEvent::Arrival(device, callback) ==> {
            &&& before.after_arrival(device, callback).syncs(next, outcome.releases)
            &&& outcome.reductions.len() == 0
        },
{
}

/// A second attempt to close the round, right after the first, releases nobody and changes
/// nothing.
pub proof fn law_second_sync_does_nothing<D, T>(
    before: SyncState<D, T>,
    next: SyncState<D, T>,
    first: Seq<Release<D>>,
    again: SyncState<D, T>,
    second: Seq<Release<D>>,
)
    requires
        before.syncs(next, first),
        next.syncs(again, second),
    ensures
        second.len() == 0,
        again == next,
{
    if before.sync_ready() {
        assert(next.closed() =~= next);
    }
}

/// Once every device has registered, no gradient that comes in leaves a full parameter waiting:
/// of each parameter whose reduction is still due, an entry waits in the queue, with fewer or
/// more gradients than are required.
pub proof fn law_no_full_parameter_waits<D, T>(
    before: SyncState<D, T>,
    param: u64,
    tensor: T,
    next: SyncState<D, T>,
    outcome: OutcomeView<D, T>,
)
    requires
        before.devices_registered == before.num_devices,
        before.handles(SyncEvent::Gradient(param, tensor), next, outcome),
    ensures
        forall|other: u64| #[trigger]
            next.required.contains_key(other) ==> next.queue.contains_key(other)
                && next.queue[other].len() != next.required[other],
{
    let queued = before.after_submit(param, tensor);
    assert forall|other: u64| #[trigger]
        next.required.contains_key(other) implies next.queue.contains_key(other)
        && next.queue[other].len() != next.required[other] by {
        assert(!queued.full(other));
    }
}

/// A message releases nobody, or everybody at the sync point. It releases only where at least
/// as many devices are there as take part, and a new round starts: nobody has registered,
/// nothing is required, nobody is at the sync point and no gradient waits.
pub proof fn law_release_is_all_or_nobody<D, T>(
    before: SyncState<D, T>,
    event: SyncEvent<D, T>,
    next: SyncState<D, T>,
    outcome: OutcomeView<D, T>,
)
    requires
        before.handles(event, next, outcome),
        outcome.releases.len() > 0,
    ensures
        outcome.releases.len() >= before.num_devices,
        event matches SyncEvent::Arrival(device, callback) ==> outcome.releases
            == before.after_arrival(device, callback).releases(),
        !(event is Arrival) ==> outcome.releases == before.releases(),
        next.devices_registered == 0,
        next.required == Map::<u64, nat>::empty(),
        next.syncing == Seq::<SyncDevice<D>>::empty(),
        next.callbacks == Map::<u32, oneshot::Sender<CollectiveWait<D>>>::empty(),
        forall|param: u64| #[trigger] next.queued_of(param) == Seq::<T>::empty(),
{
    if let SyncEvent::Gradient(param, tensor) = event {
        let queued = before.after_submit(param, tensor);
        assert(outcome.releases =~= before.releases());
        assert forall|other: u64| #[trigger] next.queued_of(other) == Seq::<T>::empty() by {
            if next.queue.contains_key(other) {
                assert(!queued.full(other));
                assert(!queued.queue.contains_key(other));
            }
        }
    }
}

/// No device is released twice.
pub proof fn law_no_device_released_twice<D, T>(
    before: SyncState<D, T>,
    event: SyncEvent<D, T>,
    next: SyncState<D, T>,
    outcome: OutcomeView<D, T>,
)
    requires
        before.accepts(event),
        before.handles(event, next, outcome),
    ensures
        forall|i: int, j: int|
            0 <= i < j < outcome.releases.len() ==> (
            #[trigger] outcome.releases[i]).wait.device.id != (
            #[trigger] outcome.releases[j]).wait.device.id,
{
    let held = match event {
        SyncEvent::Arrival(device, callback) => before.after_arrival(device, callback),
        _ => before,
    };
    if outcome.releases.len() > 0 {
        law_release_is_all_or_nobody(before, event, next, outcome);
        assert(outcome.releases == held.releases());
        assert forall|i: int, j: int| 0 <= i < j < outcome.releases.len() implies (
        #[trigger] outcome.releases[i]).wait.device.id != (
        #[trigger] outcome.releases[j]).wait.device.id by {
            assert(held.syncing[i].id != held.syncing[j].id);
        }
    }
}

/// Whoever is at the sync point stays there, in order of arrival, until a release.
pub proof fn law_nobody_leaves_unreleased<D, T>(
    before: SyncState<D, T>,
    event: SyncEvent<D, T>,
    next: SyncState<D, T>,
    outcome: OutcomeView<D, T>,
)
    requires
        before.handles(event, next, outcome),
        outcome.releases.len() == 0,
    ensures
        event matches SyncEvent::Arrival(device, callback) ==> next.syncing == before.syncing.push(
            device,
        ),
        !(event is Arrival) ==> next.syncing == before.syncing,
{
    if let SyncEvent::Gradient(param, tensor) = event {
        let queued = before.after_submit(param, tensor);
        assert(queued.releases().len() == before.syncing.len());
        assert(next.syncing =~= before.syncing);
    }
}

/// A device is released on the channel that it came with. Its arrival adds that release behind
/// those of the devices that are at the sync point already, and changes none of them.
pub proof fn law_released_on_own_channel<D, T>(
    before: SyncState<D, T>,
    device: SyncDevice<D>,
    callback: oneshot::Sender<CollectiveWait<D>>,
)
    requires
        before.after_arrival(device, callback).distinct(),
    ensures
        before.after_arrival(device, callback).releases() == before.releases().push(
            Release { wait: CollectiveWait { device }, callback },
        ),
{
    let arrived = before.after_arrival(device, callback);
    let count = before.syncing.len() as int;
    assert forall|i: int| 0 <= i < count implies arrived.releases()[i] == before.releases()[i] by {
        assert(arrived.syncing[i].id != arrived.syncing[count].id);
        DeviceId::lemma_key_injective(arrived.syncing[i].id, device.id);
    }
    assert(arrived.releases() =~= before.releases().push(
        Release { wait: CollectiveWait { device }, callback },
    ));
}

/// No gradient is lost, reduced twice or reduced without the others of its parameter: after a
/// gradient comes in, the gradients of each parameter wait as before, in order, or are all
/// handed over in one reduction and wait no longer.
pub proof fn law_no_gradient_lost<D, T>(
    before: SyncState<D, T>,
    param: u64,
    tensor: T,
    next: SyncState<D, T>,
    outcome: OutcomeView<D, T>,
    other: u64,
)
    requires
        before.handles(SyncEvent::Gradient(param, tensor), next, outcome),
    ensures
        ({
            let queued = before.after_submit(param, tensor);
            ||| {
                &&& next.queued_of(other) == queued.queued_of(other)
                &&& forall|i: int|
                    0 <= i < outcome.reductions.len() ==> (#[trigger] outcome.reductions[i]).param
                        != other
            }
            ||| {
                &&& next.queued_of(other) == Seq::<T>::empty()
                &&& exists|i: int|
                    0 <= i < outcome.reductions.len() && #[trigger] outcome.reductions[i]
                        == queued.reduction_of(other)
                &&& forall|i: int, j: int|
                    0 <= i < j < outcome.reductions.len() ==> (
                    #[trigger] outcome.reductions[i]).param != (
                    #[trigger] outcome.reductions[j]).param
            }
        }),
{
    let queued = before.after_submit(param, tensor);
    if queued.devices_registered == queued.num_devices {
        if queued.full(other) {
            let i = choose|i: int|
                0 <= i < outcome.reductions.len() && (#[trigger] outcome.reductions[i]).param
                    == other;
            assert(outcome.reductions[i] == queued.reduction_of(other));
        } else {
            assert forall|i: int| 0 <= i < outcome.reductions.len() implies (
            #[trigger] outcome.reductions[i]).param != other by {
                assert(queued.full(outcome.reductions[i].param));
            }
        }
    }
}

/// A parameter is reduced exactly when as many devices have registered as take part and as many
/// of its gradients are in as were registered.
pub proof fn law_reduced_when_full<D, T>(
    before: SyncState<D, T>,
    param: u64,
    tensor: T,
    next: SyncState<D, T>,
    outcome: OutcomeView<D, T>,
    other: u64,
)
    requires
        before.handles(SyncEvent::Gradient(param, tensor), next, outcome),
    ensures
        (exists|i: int|
            0 <= i < outcome.reductions.len() && (#[trigger] outcome.reductions[i]).param == other)
            <==> (before.devices_registered == before.num_devices && before.after_submit(
            param,
            tensor,
        ).full(other)),
{
    let queued = before.after_submit(param, tensor);
    if queued.devices_registered == queued.num_devices {
        if exists|i: int|
            0 <= i < outcome.reductions.len() && (#[trigger] outcome.reductions[i]).param == other {
            let i = choose|i: int|
                0 <= i < outcome.reductions.len() && (#[trigger] outcome.reductions[i]).param
                    == other;
            assert(queued.full(outcome.reductions[i].param));
        }
    }
}

/// The order in which the parameters are visited changes only the order of the reductions, if
/// the registered parameters are all full or the round cannot close.
pub proof fn law_order_changes_no_state<D, T>(
    before: SyncState<D, T>,
    first: SyncState<D, T>,
    first_outcome: OutcomeView<D, T>,
    second: SyncState<D, T>,
    second_outcome: OutcomeView<D, T>,
)
    requires
        before.launches(first, first_outcome),
        before.launches(second, second_outcome),
        before.complete() || !before.may_close(),
    ensures
        first == second,
        first_outcome.releases == second_outcome.releases,
        forall|reduction: ReductionView<T>| #[trigger]
            first_outcome.reductions.contains(reduction)
                <==> second_outcome.reductions.contains(reduction),
{
    if before.devices_registered == before.num_devices {
        lemma_same_reductions(before, first_outcome.reductions, second_outcome.reductions);
        lemma_same_reductions(before, second_outcome.reductions, first_outcome.reductions);
    }
}

proof fn lemma_same_reductions<D, T>(
    before: SyncState<D, T>,
    first: Seq<ReductionView<T>>,
    second: Seq<ReductionView<T>>,
)
    requires
        before.reduces_full(first),
        before.reduces_full(second),
    ensures
        forall|reduction: ReductionView<T>| #[trigger]
            first.contains(reduction) ==> second.contains(reduction),
{
    assert forall|reduction: ReductionView<T>| #[trigger]
        first.contains(reduction) implies second.contains(reduction) by {
        let i = choose|i: int| 0 <= i < first.len() && first[i] == reduction;
        assert(before.full(first[i].param));
        let j = choose|j: int|
            0 <= j < second.len() && (#[trigger] second[j]).param == reduction.param;
        assert(second[j] == before.reduction_of(second[j].param));
        assert(second[j] == reduction);
    }
}

/// Once more registrations are counted than devices take part, no gradient launches anything,
/// and the count never falls back short of a release.
pub proof fn law_excess_registration_blocks<D, T>(
    before: SyncState<D, T>,
    event: SyncEvent<D, T>,
    next: SyncState<D, T>,
    outcome: OutcomeView<D, T>,
)
    requires
        before.devices_registered > before.num_devices,
        before.handles(event, next, outcome),
    ensures
        outcome.reductions.len() == 0,
        event is Gradient ==> outcome.releases.len() == 0,
        outcome.releases.len() == 0 ==> next.devices_registered >= before.devices_registered,
{
    if let SyncEvent::Arrival(device, callback) = event {
        let arrived = before.after_arrival(device, callback);
        assert(arrived.releases().len() == before.syncing.len() + 1);
    }
}

/// A new server knows its settings and how many devices take part. Nobody has registered or is at
/// the sync point, and nothing waits or is due.
pub proof fn law_starts_empty<D, T>(num_devices: nat, config: DistributedConfig)
    ensures
        ({
            let state = SyncState::<D, T>::initial(num_devices, config);
            &&& state.num_devices == num_devices
            &&& state.config == config
            &&& state.devices_registered == 0
            &&& state.syncing.len() == 0
            &&& forall|param: u64| !(#[trigger] state.queue.contains_key(param))
            &&& forall|param: u64| !(#[trigger] state.required.contains_key(param))
        }),
{
}

/// How many of the entries name `param`.
pub open spec fn entries_of(params: Seq<DistributedParams>, param: u64) -> nat {
    params.filter(|entry: DistributedParams| entry.param_id.value == param).len()
}

proof fn lemma_entries(params: Seq<DistributedParams>, param: u64)
    ensures
        occurrences(param_values(params), param) == entries_of(params, param),
        entries_of(params, param) > 0 <==> exists|i: int|
            0 <= i < params.len() && (#[trigger] params[i]).param_id.value == param,
    decreases params.len(),
{
    reveal(Seq::filter);
    let names = param_values(params);
    lemma_occurrences(names, param, param);
    if params.len() == 0 {
        assert(names =~= Seq::empty());
    } else {
        let rest = params.drop_last();
        let last = params.last().param_id.value;
        lemma_entries(rest, param);
        assert(names =~= param_values(rest).push(last));
        lemma_occurrences(param_values(rest), param, last);
        assert(entries_of(params, param) == entries_of(rest, param) + if last == param {
            1nat
        } else {
            0nat
        });
        if entries_of(rest, param) > 0 {
            let i = choose|i: int|
                0 <= i < rest.len() && (#[trigger] rest[i]).param_id.value == param;
            assert(params[i].param_id.value == param);
        }
        if exists|i: int| 0 <= i < params.len() && (#[trigger] params[i]).param_id.value == param {
            let i = choose|i: int|
                0 <= i < params.len() && (#[trigger] params[i]).param_id.value == param;
            if i < rest.len() {
                assert(rest[i].param_id.value == param);
            }
        }
        assert(params[params.len() - 1].param_id.value == last);
    }
}

/// A registration is counted once, however many parameters it announces, and each entry of it adds
/// one to the gradients that are due of the parameter that it names. It changes nothing else, and
/// calls for no work.
pub proof fn law_registration_counts_every_entry<D, T>(
    before: SyncState<D, T>,
    params: Vec<DistributedParams>,
    next: SyncState<D, T>,
    outcome: SyncOutcome<D, T>,
    param: u64,
)
    requires
        before.handles(
            DistributedSyncMessage::<D, T>::RegisterSyncParameters(params)@,
            next,
            outcome@,
        ),
    ensures
        outcome.reductions@.len() == 0,
        outcome.releases@.len() == 0,
        next.devices_registered == before.devices_registered + 1,
        next.required.contains_key(param) <==> before.required.contains_key(param) || exists|i: int|
            0 <= i < params@.len() && (#[trigger] params@[i]).param_id.value == param,
        next.required.contains_key(param) ==> next.required[param] == entries_of(params@, param)
            + if before.required.contains_key(param) {
            before.required[param]
        } else {
            0
        },
        next.queue == before.queue,
        next.syncing == before.syncing,
        next.callbacks == before.callbacks,
        next.config == before.config,
        next.num_devices == before.num_devices,
{
    lemma_entries(params@, param);
    let names = param_values(params@);
    lemma_occurrences(names, param, param);
    assert(outcome.reductions@.len() == outcome@.reductions.len());
    assert(names.contains(param) <==> entries_of(params@, param) > 0);
}

/// The gradients of `other` that wait once `tensor` has come in for `param`: those that waited
/// before, and behind them the newcomer if it is one of them.
pub open spec fn gradients_with<T>(
    queue: Map<u64, Seq<T>>,
    param: u64,
    tensor: T,
    other: u64,
) -> Seq<T> {
    let earlier = if queue.contains_key(other) {
        queue[other]
    } else {
        Seq::empty()
    };
    if other == param {
        earlier.push(tensor)
    } else {
        earlier
    }
}

/// As many gradients of `other` wait, once `tensor` has come in for `param`, as are due.
pub open spec fn all_in_with<D, T>(
    before: SyncState<D, T>,
    param: u64,
    tensor: T,
    other: u64,
) -> bool {
    before.required.contains_key(other) && gradients_with(before.queue, param, tensor, other).len()
        == before.required[other]
}

/// Of every parameter that has an entry in the queue, once `tensor` has come in for `param`, all
/// the gradients are in.
pub open spec fn all_queued_in_with<D, T>(before: SyncState<D, T>, param: u64, tensor: T) -> bool {
    forall|other: u64|
        before.queue.contains_key(other) || other == param ==> #[trigger] all_in_with(
            before,
            param,
            tensor,
            other,
        )
}

/// Of every parameter that is due, once `tensor` has come in for `param`, all the gradients are in.
pub open spec fn all_due_in_with<D, T>(before: SyncState<D, T>, param: u64, tensor: T) -> bool {
    forall|other: u64| #[trigger]
        before.required.contains_key(other) ==> all_in_with(before, param, tensor, other)
}

/// What the state after a gradient says of the gradients, in the words above.
proof fn lemma_submitted<D, T>(before: SyncState<D, T>, param: u64, tensor: T)
    ensures
        ({
            let queued = before.after_submit(param, tensor);
            &&& forall|other: u64| #[trigger]
                queued.queued_of(other) == gradients_with(before.queue, param, tensor, other)
            &&& forall|other: u64| #[trigger]
                queued.full(other) == all_in_with(before, param, tensor, other)
            &&& forall|other: u64| #[trigger]
                queued.queue.contains_key(other) <==> before.queue.contains_key(other) || other
                    == param
        }),
{
    let queued = before.after_submit(param, tensor);
    assert forall|other: u64| #[trigger]
        queued.queued_of(other) == gradients_with(before.queue, param, tensor, other) by {}
    assert forall|other: u64| #[trigger]
        queued.full(other) == all_in_with(before, param, tensor, other) by {
        assert(queued.queued_of(other) == gradients_with(before.queue, param, tensor, other));
    }
}

/// Until as many devices have registered as take part, a gradient waits behind the others of its
/// parameter, and nothing else happens.
pub proof fn law_gradient_waits_for_every_registration<D, T>(
    before: SyncState<D, T>,
    tensor: T,
    params: DistributedParams,
    next: SyncState<D, T>,
    outcome: SyncOutcome<D, T>,
    other: u64,
)
    requires
        before.handles(
            DistributedSyncMessage::<D, T>::TensorSync((tensor, params))@,
            next,
            outcome@,
        ),
        before.devices_registered != before.num_devices,
    ensures
        outcome.reductions@.len() == 0,
        outcome.releases@.len() == 0,
        next.queue.contains_key(other) <==> before.queue.contains_key(other) || other
            == params.param_id.value,
        next.queue.contains_key(other) ==> next.queue[other] == gradients_with(
            before.queue,
            params.param_id.value,
            tensor,
            other,
        ),
        next.required == before.required,
        next.devices_registered == before.devices_registered,
        next.syncing == before.syncing,
        next.callbacks == before.callbacks,
{
    assert(outcome.reductions@.len() == outcome@.reductions.len());
    lemma_submitted(before, params.param_id.value, tensor);
    assert(next.queued_of(other) == gradients_with(
        before.queue,
        params.param_id.value,
        tensor,
        other,
    ));
}

/// Once as many devices have registered as take part, a gradient that comes in calls for the
/// reduction of each parameter whose gradients are all in: one reduction, of all its gradients in
/// order, with the operation of the settings. Those gradients wait and are due no longer. Of any
/// other parameter nothing is reduced, and its gradients wait on.
pub proof fn law_reduces_what_is_all_in<D, T>(
    before: SyncState<D, T>,
    tensor: T,
    params: DistributedParams,
    next: SyncState<D, T>,
    outcome: SyncOutcome<D, T>,
    other: u64,
)
    requires
        before.handles(
            DistributedSyncMessage::<D, T>::TensorSync((tensor, params))@,
            next,
            outcome@,
        ),
        before.devices_registered == before.num_devices,
    ensures
        ({
            let param = params.param_id.value;
            let gradients = gradients_with(before.queue, param, tensor, other);
            let reductions = outcome.reductions@;
            &&& forall|i: int, j: int|
                0 <= i < j < reductions.len() ==> (#[trigger] reductions[i]).param_id.value != (
                #[trigger] reductions[j]).param_id.value
            &&& all_in_with(before, param, tensor, other) ==> {
                &&& exists|i: int|
                    0 <= i < reductions.len() && (#[trigger] reductions[i]).param_id.value == other
                        && reductions[i].tensors@ == gradients && reductions[i].op
                        == before.config.all_reduce_op
                &&& !next.queue.contains_key(other)
                &&& !next.required.contains_key(other)
            }
            &&& !all_in_with(before, param, tensor, other) ==> {
                &&& forall|i: int|
                    0 <= i < reductions.len() ==> (#[trigger] reductions[i]).param_id.value
                        != other
                &&& next.queue.contains_key(other) <==> before.queue.contains_key(other) || other
                    == param || before.required.contains_key(other)
                &&& next.queue.contains_key(other) ==> next.queue[other] == gradients
                &&& outcome.releases@.len() == 0 && before.num_devices > 0 ==> {
                    &&& next.required.contains_key(other) <==> before.required.contains_key(other)
                    &&& next.required.contains_key(other) ==> next.required[other]
                        == before.required[other]
                }
            }
        }),
{
    let param = params.param_id.value;
    let queued = before.after_submit(param, tensor);
    let reductions = outcome.reductions@;
    let said = outcome@.reductions;
    lemma_submitted(before, param, tensor);
    assert(forall|i: int| 0 <= i < reductions.len() ==> said[i] == (#[trigger] reductions[i])@);
    assert(queued.full(other) == all_in_with(before, param, tensor, other));
    assert(queued.queued_of(other) == gradients_with(before.queue, param, tensor, other));
    assert(queued.queue.contains_key(other) <==> before.queue.contains_key(other) || other
        == param);
    assert forall|i: int, j: int| 0 <= i < j < reductions.len() implies (
    #[trigger] reductions[i]).param_id.value != (#[trigger] reductions[j]).param_id.value by {
        assert(said[i].param != said[j].param);
    }
    if queued.full(other) {
        let i = choose|i: int| 0 <= i < said.len() && (#[trigger] said[i]).param == other;
        assert(said[i] == queued.reduction_of(said[i].param));
        assert(reductions[i].param_id.value == other);
    } else {
        assert forall|i: int| 0 <= i < reductions.len() implies (
        #[trigger] reductions[i]).param_id.value != other by {
            assert(queued.full(said[i].param));
        }
        if outcome.releases@.len() == 0 && before.num_devices > 0 {
            assert(queued.releases().len() == before.syncing.len());
        }
    }
}

/// A gradient releases the devices at the sync point only when as many of them are there, and have
/// registered, as take part, and no parameter in the queue lacks a gradient. It does release them
/// then if moreover no parameter that is due lacks one. It releases all of them or none: each in
/// order of arrival, on the channel that is kept for it. With the release a new round begins;
/// without, nobody leaves and every registration counts on.
pub proof fn law_last_gradient_opens_the_sync_point<D, T>(
    before: SyncState<D, T>,
    tensor: T,
    params: DistributedParams,
    next: SyncState<D, T>,
    outcome: SyncOutcome<D, T>,
)
    requires
        before.handles(
            DistributedSyncMessage::<D, T>::TensorSync((tensor, params))@,
            next,
            outcome@,
        ),
        before.num_devices > 0,
    ensures
        ({
            let param = params.param_id.value;
            let releases = outcome.releases@;
            &&& releases.len() > 0 ==> {
                &&& before.devices_registered == before.num_devices
                &&& before.syncing.len() >= before.num_devices
                &&& all_queued_in_with(before, param, tensor)
            }
            &&& before.devices_registered == before.num_devices && before.syncing.len()
                >= before.num_devices && all_queued_in_with(before, param, tensor)
                && all_due_in_with(before, param, tensor) ==> releases.len() > 0
            &&& releases.len() > 0 ==> {
                &&& releases.len() == before.syncing.len()
                &&& forall|i: int|
                    0 <= i < releases.len() ==> (#[trigger] releases[i]).wait.device
                        == before.syncing[i] && releases[i].callback
                        == before.callbacks[before.syncing[i].id.spec_key()]
                &&& next.devices_registered == 0
                &&& next.syncing.len() == 0
                &&& forall|other: u64| !(#[trigger] next.required.contains_key(other))
                &&& forall|key: u32| !(#[trigger] next.callbacks.contains_key(key))
            }
            &&& releases.len() == 0 ==> {
                &&& next.devices_registered == before.devices_registered
                &&& next.syncing == before.syncing
                &&& next.callbacks == before.callbacks
            }
            &&& next.config == before.config
            &&& next.num_devices == before.num_devices
        }),
{
    let param = params.param_id.value;
    let queued = before.after_submit(param, tensor);
    lemma_submitted(before, param, tensor);
    assert(queued.releases().len() == before.syncing.len());
    if queued.may_close() {
        assert forall|other: u64|
            before.queue.contains_key(other) || other == param implies #[trigger] all_in_with(
            before,
            param,
            tensor,
            other,
        ) by {
            assert(queued.queue.contains_key(other));
            assert(queued.full(other));
        }
    }
    if before.devices_registered == before.num_devices && before.syncing.len()
        >= before.num_devices && all_queued_in_with(before, param, tensor) && all_due_in_with(
        before,
        param,
        tensor,
    ) {
        assert(all_in_with(before, param, tensor, param));
        assert(queued.full(param));
        assert forall|other: u64| #[trigger] queued.queue.contains_key(other) implies queued.full(
            other,
        ) by {
            assert(all_in_with(before, param, tensor, other));
        }
        assert forall|other: u64| #[trigger]
            queued.required.contains_key(other) implies queued.full(other) by {
            assert(before.required.contains_key(other));
        }
    }
}

/// A device that arrives opens the sync point exactly when no parameter has an entry in the queue
/// and, with it, as many devices are there as take part. Then all of them are released, in order
/// of arrival and itself last: itself on the channel that it came with, any other device on the
/// channel that is kept for it. A new round begins. Otherwise nobody is released, and the device
/// waits behind the others with its channel. An arrival reduces nothing.
pub proof fn law_last_arrival_opens_the_sync_point<D, T>(
    before: SyncState<D, T>,
    device: SyncDevice<D>,
    callback: oneshot::Sender<CollectiveWait<D>>,
    next: SyncState<D, T>,
    outcome: SyncOutcome<D, T>,
)
    requires
        before.handles(
            DistributedSyncMessage::<D, T>::CollectiveSync((device, callback))@,
            next,
            outcome@,
        ),
    ensures
        ({
            let releases = outcome.releases@;
            let here = before.syncing.push(device);
            let opens = (forall|param: u64| !(#[trigger] before.queue.contains_key(param)))
                && here.len() >= before.num_devices;
            &&& outcome.reductions@.len() == 0
            &&& opens ==> {
                &&& releases.len() == here.len()
                &&& forall|i: int|
                    0 <= i < releases.len() ==> (#[trigger] releases[i]).wait.device == here[i]
                &&& forall|i: int|
                    0 <= i < releases.len() && here[i].id == device.id ==> (
                    #[trigger] releases[i]).callback == callback
                &&& forall|i: int|
                    0 <= i < releases.len() && here[i].id != device.id ==> (
                    #[trigger] releases[i]).callback == before.callbacks[here[i].id.spec_key()]
                &&& next.devices_registered == 0
                &&& next.syncing.len() == 0
                &&& forall|param: u64| !(#[trigger] next.required.contains_key(param))
                &&& forall|key: u32| !(#[trigger] next.callbacks.contains_key(key))
            }
            &&& !opens ==> {
                &&& releases.len() == 0
                &&& next.syncing == here
                &&& next.callbacks.contains_key(device.id.spec_key())
                &&& next.callbacks[device.id.spec_key()] == callback
                &&& forall|id: DeviceId|
                    id != device.id && before.callbacks.contains_key(#[trigger] id.spec_key()) ==> {
                        &&& next.callbacks.contains_key(id.spec_key())
                        &&& next.callbacks[id.spec_key()] == before.callbacks[id.spec_key()]
                    }
                &&& next.devices_registered == before.devices_registered
                &&& next.required == before.required
            }
            &&& next.queue == before.queue
            &&& next.config == before.config
            &&& next.num_devices == before.num_devices
        }),
{
    let arrived = before.after_arrival(device, callback);
    let here = before.syncing.push(device);
    assert(outcome.reductions@.len() == outcome@.reductions.len());
    assert(arrived.syncing == here);
    if forall|param: u64| !(#[trigger] before.queue.contains_key(param)) {
        assert(arrived.queue.dom() =~= Set::<u64>::empty());
    } else {
        let param = choose|param: u64| #[trigger] before.queue.contains_key(param);
        assert(arrived.queue.dom().contains(param));
    }
    assert forall|i: int| 0 <= i < here.len() && here[i].id != device.id implies (
    #[trigger] arrived.releases()[i]).callback == before.callbacks[here[i].id.spec_key()] by {
        DeviceId::lemma_key_injective(here[i].id, device.id);
    }
    assert forall|id: DeviceId|
        id != device.id && before.callbacks.contains_key(#[trigger] id.spec_key()) implies {
        &&& arrived.callbacks.contains_key(id.spec_key())
        &&& arrived.callbacks[id.spec_key()] == before.callbacks[id.spec_key()]
    } by {
        DeviceId::lemma_key_injective(id, device.id);
    }
}

/// A registration is accepted exactly when neither the number of registrations nor what is due of
/// any parameter grows beyond what a counter holds.
pub proof fn law_registration_refused_only_on_overflow<D, T>(
    before: SyncState<D, T>,
    params: Vec<DistributedParams>,
)
    ensures
        before.accepts(DistributedSyncMessage::<D, T>::RegisterSyncParameters(params)@) <==> {
            &&& before.devices_registered + 1 <= usize::MAX
            &&& forall|param: u64|
                #[trigger] entries_of(params@, param) + (if before.required.contains_key(param) {
                    before.required[param]
                } else {
                    0
                }) <= usize::MAX
        },
{
    let names = param_values(params@);
    assert forall|param: u64|
        #[trigger] entries_of(params@, param) == occurrences(names, param) by {
        lemma_entries(params@, param);
    }
    if before.accepts(DistributedSyncMessage::<D, T>::RegisterSyncParameters(params)@) {
        assert forall|param: u64|
            #[trigger] entries_of(params@, param) + (if before.required.contains_key(param) {
                before.required[param]
            } else {
                0
            }) <= usize::MAX by {
            assert(before.required_of(param) + occurrences(names, param) <= usize::MAX);
        }
    } else if before.devices_registered + 1 <= usize::MAX {
        let param = choose|param: u64|
            !(before.required_of(param) + (#[trigger] occurrences(names, param)) <= usize::MAX);
        assert(entries_of(params@, param) == occurrences(names, param));
    }
}

/// The devices have different ids.
pub open spec fn all_different<D>(devices: Seq<SyncDevice<D>>) -> bool {
    forall|i: int, j: int|
        0 <= i < j < devices.len() ==> (#[trigger] devices[i]).id != (#[trigger] devices[j]).id
}

/// A gradient or an arrival is refused only when it could open the sync point while a device is
/// there twice: devices that arrive once in a round are never refused.
pub proof fn law_refused_only_where_a_device_is_there_twice<D, T>(
    before: SyncState<D, T>,
    tensor: T,
    params: DistributedParams,
    device: SyncDevice<D>,
    callback: oneshot::Sender<CollectiveWait<D>>,
)
    ensures
        before.accepts(DistributedSyncMessage::<D, T>::TensorSync((tensor, params))@) <==> (
        all_different(before.syncing) || before.devices_registered != before.num_devices
            || before.syncing.len() < before.num_devices || !all_queued_in_with(
            before,
            params.param_id.value,
            tensor,
        )),
        before.accepts(DistributedSyncMessage::<D, T>::CollectiveSync((device, callback))@) <==> (
        all_different(before.syncing.push(device)) || before.syncing.len() + 1 < before.num_devices
            || exists|param: u64| #[trigger] before.queue.contains_key(param)),
{
    let param = params.param_id.value;
    let queued = before.after_submit(param, tensor);
    lemma_submitted(before, param, tensor);
    assert(queued.may_close() ==> all_queued_in_with(before, param, tensor)) by {
        if queued.may_close() {
            assert forall|other: u64|
                before.queue.contains_key(other) || other == param implies #[trigger] all_in_with(
                before,
                param,
                tensor,
                other,
            ) by {
                assert(queued.queue.contains_key(other));
                assert(queued.full(other));
            }
        }
    }
    if all_queued_in_with(before, param, tensor) {
        assert(all_in_with(before, param, tensor, param));
        assert(queued.full(param));
        assert forall|other: u64| #[trigger] queued.queue.contains_key(other) implies queued.full(
            other,
        ) by {
            assert(all_in_with(before, param, tensor, other));
        }
    }
    assert(before.distinct() == all_different(before.syncing));
    let arrived = before.after_arrival(device, callback);
    assert(arrived.syncing == before.syncing.push(device));
    assert(arrived.distinct() == all_different(arrived.syncing));
    if exists|other: u64| #[trigger] before.queue.contains_key(other) {
        let other = choose|other: u64| #[trigger] before.queue.contains_key(other);
        assert(arrived.queue.dom().contains(other));
    } else {
        assert(arrived.queue.dom() =~= Set::<u64>::empty());
    }
}

/// As many gradients of `param` wait as are due.
pub open spec fn all_in<D, T>(state: SyncState<D, T>, param: u64) -> bool {
    state.required.contains_key(param) && state.required[param] == if state.queue.contains_key(
        param,
    ) {
        state.queue[param].len()
    } else {
        0
    }
}

/// The reductions follow the order in which the parameters are visited, and each parameter whose
/// gradients are all in is reduced once: all its gradients, in order, with the operation of the
/// settings. The devices at the sync point are released, all of them, exactly when there are
/// enough of them, something is reduced, no parameter in the queue lacks a gradient, and none that
/// lacks one is visited before one that does not.
pub proof fn law_reductions_follow_the_visits<D, T>(
    before: SyncState<D, T>,
    order: Seq<u64>,
    next: SyncState<D, T>,
    outcome: SyncOutcome<D, T>,
) -> (places: Seq<int>)
    requires
        before.well_formed(),
        before.devices_registered == before.num_devices,
        before.num_devices > 0,
        before.visits(order),
        before.launches_in(order, next, outcome@),
    ensures
        ({
            let reductions = outcome.reductions@;
            let releases = outcome.releases@;
            &&& places.len() == reductions.len()
            &&& forall|i: int|
                0 <= i < places.len() ==> {
                    &&& 0 <= #[trigger] places[i] < order.len()
                    &&& reductions[i].param_id.value == order[places[i]]
                    &&& all_in(before, order[places[i]])
                    &&& reductions[i].tensors@ == before.queue[order[places[i]]]
                    &&& reductions[i].op == before.config.all_reduce_op
                }
            &&& forall|i: int, j: int|
                0 <= i < j < places.len() ==> #[trigger] places[i] < #[trigger] places[j]
            &&& forall|k: int|
                0 <= k < order.len() && all_in(before, #[trigger] order[k]) ==> places.contains(k)
            &&& releases.len() > 0 <==> {
                &&& before.syncing.len() >= before.num_devices
                &&& reductions.len() > 0
                &&& forall|param: u64| #[trigger]
                    before.queue.contains_key(param) ==> all_in(before, param)
                &&& forall|i: int, j: int|
                    0 <= i < j < order.len() && all_in(before, #[trigger] order[j]) ==> all_in(
                        before,
                        #[trigger] order[i],
                    )
            }
            &&& releases.len() > 0 ==> {
                &&& releases.len() == before.syncing.len()
                &&& forall|i: int|
                    0 <= i < releases.len() ==> (#[trigger] releases[i]).wait.device
                        == before.syncing[i] && releases[i].callback
                        == before.callbacks[before.syncing[i].id.spec_key()]
            }
        }),
{
    let reductions = outcome.reductions@;
    let said = outcome@.reductions;
    assert forall|param: u64| #[trigger] before.full(param) == all_in(before, param) by {}
    let places = lemma_visit_places(before, order);
    assert(forall|i: int| 0 <= i < reductions.len() ==> said[i] == (#[trigger] reductions[i])@);
    let due = order.filter(|param: u64| before.full(param));
    assert(said == due.map_values(|param: u64| before.reduction_of(param)));
    assert(said.len() == due.len());
    assert(reductions.len() == said.len());
    assert(places.len() == due.len());
    assert forall|i: int| 0 <= i < places.len() implies {
        &&& 0 <= #[trigger] places[i] < order.len()
        &&& reductions[i].param_id.value == order[places[i]]
        &&& all_in(before, order[places[i]])
        &&& reductions[i].tensors@ == before.queue[order[places[i]]]
        &&& reductions[i].op == before.config.all_reduce_op
    } by {
        assert(said[i] == before.reduction_of(due[i]));
        assert(before.full(order[places[i]]));
        assert(before.required[order[places[i]]] >= 1);
        assert(reductions[i]@ == said[i]);
    }
    assert forall|k: int| 0 <= k < order.len() && all_in(before, #[trigger] order[k]) implies
        places.contains(k) by {
        assert(before.full(order[k]));
    }
    assert(reductions.len() > 0 <==> exists|param: u64| #[trigger] before.full(param)) by {
        if reductions.len() > 0 {
            assert(before.full(order[places[0]]));
        }
        if exists|param: u64| #[trigger] before.full(param) {
            let param = choose|param: u64| #[trigger] before.full(param);
            assert(order.contains(param));
            let k = choose|k: int| 0 <= k < order.len() && order[k] == param;
            assert(before.full(order[k]));
            assert(places.contains(k));
        }
    }
    assert(before.releases().len() == before.syncing.len());
    if before.closes_in(order) {
        assert forall|param: u64| #[trigger] before.queue.contains_key(param) implies all_in(
            before,
            param,
        ) by {
            assert(before.full(param));
        }
        assert forall|i: int, j: int|
            0 <= i < j < order.len() && all_in(before, #[trigger] order[j]) implies all_in(
            before,
            #[trigger] order[i],
        ) by {
            assert(before.full(order[j]));
            assert(before.full(order[i]));
        }
    }
    places
}

/// Where the parameters whose gradients are all in stand among those that are visited.
proof fn lemma_visit_places<D, T>(before: SyncState<D, T>, order: Seq<u64>) -> (places: Seq<int>)
    ensures
        ({
            let due = order.filter(|param: u64| before.full(param));
            &&& places.len() == due.len()
            &&& forall|i: int|
                0 <= i < places.len() ==> {
                    &&& 0 <= #[trigger] places[i] < order.len()
                    &&& due[i] == order[places[i]]
                    &&& before.full(order[places[i]])
                }
            &&& forall|i: int, j: int|
                0 <= i < j < places.len() ==> #[trigger] places[i] < #[trigger] places[j]
            &&& forall|k: int|
                0 <= k < order.len() && before.full(#[trigger] order[k]) ==> places.contains(k)
        }),
    decreases order.len(),
{
    reveal(Seq::filter);
    if order.len() == 0 {
        Seq::empty()
    } else {
        let rest = order.drop_last();
        let earlier = lemma_visit_places(before, rest);
        let last = order.len() - 1;
        assert(forall|k: int| 0 <= k < last ==> rest[k] == #[trigger] order[k]);
        let places = if before.full(order.last()) {
            earlier.push(last)
        } else {
            earlier
        };
        assert forall|k: int| 0 <= k < order.len() && before.full(#[trigger] order[k]) implies
            places.contains(k) by {
            if k < last {
                assert(before.full(rest[k]));
                assert(earlier.contains(k));
                let i = choose|i: int| 0 <= i < earlier.len() && earlier[i] == k;
                assert(places[i] == k);
            } else {
                assert(places[places.len() - 1] == k);
            }
        }
        places
    }
}

} // verus!
