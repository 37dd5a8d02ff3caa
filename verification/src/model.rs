//! What the gradient sync server is, and what each message does to it.

use crate::channel::{CollectiveWait, Release};
use crate::types::{
    DistributedConfig, DistributedParamId, DistributedParams, ReduceOperation, SyncDevice,
};
use vstd::prelude::*;

verus! {

/// A message from a device to the server.
#[verifier::reject_recursive_types(D)]
pub enum DistributedSyncMessage<D, T> {
    /// Sent at the start of a backward pass: the parameters whose gradients the device will
    /// submit, one entry for each gradient.
    RegisterSyncParameters(Vec<DistributedParams>),
    /// A gradient of the device, and the parameter it belongs to.
    TensorSync((T, DistributedParams)),
    /// The device has reached the sync point, and waits on the channel to be released from it.
    CollectiveSync((SyncDevice<D>, oneshot::Sender<CollectiveWait<D>>)),
}

/// All the gradients of one parameter, ready to be reduced in place over the devices that
/// submitted them.
pub struct Reduction<T> {
    pub param_id: DistributedParamId,
    pub tensors: Vec<T>,
    pub op: ReduceOperation,
}

/// The work that a message calls for: first the reductions, in order, then the releases, in
/// order.
#[verifier::reject_recursive_types(D)]
pub struct SyncOutcome<D, T> {
    pub reductions: Vec<Reduction<T>>,
    pub releases: Vec<Release<D>>,
}

/// What a [`DistributedSyncMessage`] says.
#[verifier::reject_recursive_types(D)]
pub enum SyncEvent<D, T> {
    Register(Seq<u64>),
    Gradient(u64, T),
    Arrival(SyncDevice<D>, oneshot::Sender<CollectiveWait<D>>),
}

/// What a [`Reduction`] says.
#[verifier::ext_equal]
pub struct ReductionView<T> {
    pub param: u64,
    pub tensors: Seq<T>,
    pub op: ReduceOperation,
}

/// What a [`SyncOutcome`] says.
#[verifier::ext_equal]
#[verifier::reject_recursive_types(D)]
pub struct OutcomeView<D, T> {
    pub reductions: Seq<ReductionView<T>>,
    pub releases: Seq<Release<D>>,
}

/// The parameters that the entries name, one for each entry.
pub open spec fn param_values(params: Seq<DistributedParams>) -> Seq<u64> {
    params.map_values(|entry: DistributedParams| entry.param_id.value)
}

impl<D, T> View for DistributedSyncMessage<D, T> {
    type V = SyncEvent<D, T>;

    open spec fn view(&self) -> SyncEvent<D, T> {
        match *self {
            DistributedSyncMessage::RegisterSyncParameters(params) => SyncEvent::Register(
                param_values(params@),
            ),
            DistributedSyncMessage::TensorSync(sent) => SyncEvent::Gradient(
                sent.1.param_id.value,
                sent.0,
            ),
            DistributedSyncMessage::CollectiveSync(sent) => SyncEvent::Arrival(sent.0, sent.1),
        }
    }
}

impl<T> View for Reduction<T> {
    type V = ReductionView<T>;

    open spec fn view(&self) -> ReductionView<T> {
        ReductionView { param: self.param_id.value, tensors: self.tensors@, op: self.op }
    }
}

/// What the reductions say.
pub open spec fn reduction_views<T>(reductions: Seq<Reduction<T>>) -> Seq<ReductionView<T>> {
    reductions.map_values(|reduction: Reduction<T>| reduction@)
}

impl<D, T> View for SyncOutcome<D, T> {
    type V = OutcomeView<D, T>;

    open spec fn view(&self) -> OutcomeView<D, T> {
        OutcomeView {
            reductions: reduction_views(self.reductions@),
            releases: self.releases@,
        }
    }
}

/// The state of the server.
#[verifier::ext_equal]
#[verifier::reject_recursive_types(D)]
pub struct SyncState<D, T> {
    pub config: DistributedConfig,
    /// How many devices take part.
    pub num_devices: nat,
    /// How many registrations the round has seen.
    pub devices_registered: nat,
    /// The gradients that wait for their reduction, by parameter, in order of submission.
    pub queue: Map<u64, Seq<T>>,
    /// How many gradients each parameter was registered for, where its reduction is still due.
    pub required: Map<u64, nat>,
    /// The devices at the sync point, in order of arrival.
    pub syncing: Seq<SyncDevice<D>>,
    /// The channel of each device at the sync point, by the device's key.
    pub callbacks: Map<u32, oneshot::Sender<CollectiveWait<D>>>,
}

/// How often `param` occurs in `params`.
pub open spec fn occurrences(params: Seq<u64>, param: u64) -> nat {
    params.to_multiset().count(param)
}

/// What [`occurrences`] counts.
pub proof fn lemma_occurrences(params: Seq<u64>, param: u64, last: u64)
    ensures
        occurrences(params, param) > 0 <==> params.contains(param),
        occurrences(params.push(last), param) == occurrences(params, param) + if param == last {
            1nat
        } else {
            0nat
        },
        occurrences(Seq::empty(), param) == 0,
{
    broadcast use vstd::seq_lib::group_to_multiset_ensures;

    assert(Seq::<u64>::empty().to_multiset().count(param) == 0) by {
        assert(!Seq::<u64>::empty().contains(param));
    }
}

/// A prefix holds no more occurrences than the whole.
pub proof fn lemma_occurrences_prefix(params: Seq<u64>, count: int, param: u64)
    requires
        0 <= count <= params.len(),
    ensures
        occurrences(params.take(count), param) <= occurrences(params, param),
{
    assert(params =~= params.take(count) + params.skip(count));
    vstd::seq_lib::lemma_multiset_commutative(params.take(count), params.skip(count));
}

impl<D, T> SyncState<D, T> {
    /// A server at the start of its first round.
    pub open spec fn initial(num_devices: nat, config: DistributedConfig) -> Self {
        SyncState {
            config,
            num_devices,
            devices_registered: 0,
            queue: Map::empty(),
            required: Map::empty(),
            syncing: Seq::empty(),
            callbacks: Map::empty(),
        }
    }

    /// How many gradients of `param` are registered and not reduced.
    pub open spec fn required_of(self, param: u64) -> nat {
        if self.required.contains_key(param) {
            self.required[param]
        } else {
            0
        }
    }

    /// The gradients of `param` that wait for their reduction.
    pub open spec fn queued_of(self, param: u64) -> Seq<T> {
        if self.queue.contains_key(param) {
            self.queue[param]
        } else {
            Seq::empty()
        }
    }

    /// Every registered parameter is registered for at least one gradient, and every device at
    /// the sync point has a channel.
    pub open spec fn well_formed(self) -> bool {
        &&& forall|param: u64| #[trigger]
            self.required.contains_key(param) ==> self.required[param] >= 1
        &&& forall|i: int|
            0 <= i < self.syncing.len() ==> self.callbacks.contains_key(
                (#[trigger] self.syncing[i]).id.spec_key(),
            )
    }

    /// No device is at the sync point twice.
    pub open spec fn distinct(self) -> bool {
        forall|i: int, j: int|
            0 <= i < j < self.syncing.len() ==> (#[trigger] self.syncing[i]).id != (
            #[trigger] self.syncing[j]).id
    }

    /// As many gradients of `param` wait as were registered.
    pub open spec fn full(self, param: u64) -> bool {
        &&& self.required.contains_key(param)
        &&& self.queued_of(param).len() == self.required[param]
    }

    /// The state once a device has announced `params`.
    pub open spec fn after_register(self, params: Seq<u64>) -> Self {
        SyncState {
            required: Map::new(
                |param: u64| self.required.contains_key(param) || params.contains(param),
                |param: u64| self.required_of(param) + occurrences(params, param),
            ),
            devices_registered: self.devices_registered + 1,
            ..self
        }
    }

    /// The state once `tensor` waits behind the other gradients of `param`.
    pub open spec fn after_submit(self, param: u64, tensor: T) -> Self {
        SyncState {
            queue: self.queue.insert(param, self.queued_of(param).push(tensor)),
            ..self
        }
    }

    /// The state once `device` stands at the sync point.
    pub open spec fn after_arrival(
        self,
        device: SyncDevice<D>,
        callback: oneshot::Sender<CollectiveWait<D>>,
    ) -> Self {
        SyncState {
            syncing: self.syncing.push(device),
            callbacks: self.callbacks.insert(device.id.spec_key(), callback),
            ..self
        }
    }

    /// Nothing waits for a reduction, and enough devices are at the sync point.
    pub open spec fn sync_ready(self) -> bool {
        &&& self.queue.dom() == Set::<u64>::empty()
        &&& self.syncing.len() >= self.num_devices
    }

    /// The devices at the sync point, each with its wait and its channel.
    pub open spec fn releases(self) -> Seq<Release<D>> {
        Seq::new(
            self.syncing.len(),
            |i: int|
                Release {
                    wait: CollectiveWait { device: self.syncing[i] },
                    callback: self.callbacks[self.syncing[i].id.spec_key()],
                },
        )
    }

    /// The state once every device at the sync point is released and the round is over.
    pub open spec fn closed(self) -> Self {
        SyncState {
            devices_registered: 0,
            required: Map::empty(),
            syncing: Seq::empty(),
            callbacks: Map::empty(),
            ..self
        }
    }

    /// The state once every full parameter is reduced. Of a parameter that is not full, an
    /// entry stays behind in the queue, even if none of its gradients is in yet.
    pub open spec fn reduced(self) -> Self {
        SyncState {
            queue: Map::new(
                |param: u64|
                    !self.full(param) && (self.queue.contains_key(param)
                        || self.required.contains_key(param)),
                |param: u64| self.queued_of(param),
            ),
            required: Map::new(
                |param: u64| !self.full(param) && self.required.contains_key(param),
                |param: u64| self.required[param],
            ),
            ..self
        }
    }

    /// The reduction of `param`.
    pub open spec fn reduction_of(self, param: u64) -> ReductionView<T> {
        ReductionView {
            param,
            tensors: self.queued_of(param),
            op: self.config.all_reduce_op,
        }
    }

    /// `reductions` holds the reduction of each full parameter, once, and nothing else.
    pub open spec fn reduces_full(self, reductions: Seq<ReductionView<T>>) -> bool {
        &&& forall|i: int|
            0 <= i < reductions.len() ==> self.full((#[trigger] reductions[i]).param)
                && reductions[i] == self.reduction_of(reductions[i].param)
        &&& forall|i: int, j: int|
            0 <= i < j < reductions.len() ==> (#[trigger] reductions[i]).param != (
            #[trigger] reductions[j]).param
        &&& forall|param: u64| #[trigger]
            self.full(param) ==> exists|i: int|
                0 <= i < reductions.len() && (#[trigger] reductions[i]).param == param
    }

    /// Reducing the full parameters can leave nothing waiting, at some point on the way, with
    /// every device at the sync point.
    pub open spec fn may_close(self) -> bool {
        &&& self.devices_registered == self.num_devices
        &&& self.syncing.len() >= self.num_devices
        &&& exists|param: u64| #[trigger] self.full(param)
        &&& forall|param: u64| #[trigger] self.queue.contains_key(param) ==> self.full(param)
    }

    /// Every parameter whose reduction is due is full.
    pub open spec fn complete(self) -> bool {
        forall|param: u64| #[trigger] self.required.contains_key(param) ==> self.full(param)
    }

    /// What launching the reductions leads to: state `next` and work `outcome`.
    ///
    /// Nothing, unless as many devices as take part have registered. Otherwise the reduction of
    /// each full parameter, in the order in which the parameters are visited. The round closes
    /// if nothing waits and every device is at the sync point after one of the reductions: so
    /// it does when the registered parameters are all full, it cannot if a gradient waits for
    /// others, and if a registered parameter has no gradient yet, it does only where that
    /// parameter is visited after all the full ones.
    pub open spec fn launches(self, next: Self, outcome: OutcomeView<D, T>) -> bool {
        if self.devices_registered != self.num_devices {
            &&& next == self
            &&& outcome.reductions == Seq::<ReductionView<T>>::empty()
            &&& outcome.releases == Seq::<Release<D>>::empty()
        } else {
            &&& self.reduces_full(outcome.reductions)
            &&& {
                ||| {
                    &&& self.may_close()
                    &&& next == self.reduced().closed()
                    &&& outcome.releases == self.releases()
                }
                ||| {
                    &&& !(self.may_close() && self.complete())
                    &&& next == self.reduced()
                    &&& outcome.releases == Seq::<Release<D>>::empty()
                }
            }
        }
    }

    /// `order` visits each parameter whose reduction is due, once.
    pub open spec fn visits(self, order: Seq<u64>) -> bool {
        &&& order.no_duplicates()
        &&& forall|param: u64| #[trigger]
            order.contains(param) <==> self.required.contains_key(param)
    }

    /// Visiting the parameters in this order, every full one comes before every other one, and
    /// reducing the full ones leaves nothing waiting, with every device at the sync point.
    pub open spec fn closes_in(self, order: Seq<u64>) -> bool {
        &&& self.may_close()
        &&& forall|i: int, j: int|
            0 <= i < j < order.len() && self.full(#[trigger] order[j]) ==> self.full(
                #[trigger] order[i],
            )
    }

    /// What launching the reductions in this order leads to: state `next` and work `outcome`.
    pub open spec fn launches_in(
        self,
        order: Seq<u64>,
        next: Self,
        outcome: OutcomeView<D, T>,
    ) -> bool {
        &&& outcome.reductions == order.filter(|param: u64| self.full(param)).map_values(
            |param: u64| self.reduction_of(param),
        )
        &&& next == if self.closes_in(order) {
            self.reduced().closed()
        } else {
            self.reduced()
        }
        &&& outcome.releases == if self.closes_in(order) {
            self.releases()
        } else {
            Seq::empty()
        }
    }

    /// What an attempt to close the round leads to: state `next` and the releases `released`.
    pub open spec fn syncs(self, next: Self, released: Seq<Release<D>>) -> bool {
        if self.sync_ready() {
            next == self.closed() && released == self.releases()
        } else {
            next == self && released == Seq::<Release<D>>::empty()
        }
    }

    /// What `event` leads to: state `next` and work `outcome`.
    pub open spec fn handles(
        self,
        event: SyncEvent<D, T>,
        next: Self,
        outcome: OutcomeView<D, T>,
    ) -> bool {
        match event {
            SyncEvent::Register(params) => {
                &&& next == self.after_register(params)
                &&& outcome.reductions == Seq::<ReductionView<T>>::empty()
                &&& outcome.releases == Seq::<Release<D>>::empty()
            },
            SyncEvent::Gradient(param, tensor) => self.after_submit(param, tensor).launches(
                next,
                outcome,
            ),
            SyncEvent::Arrival(device, callback) => {
                &&& self.after_arrival(device, callback).syncs(next, outcome.releases)
                &&& outcome.reductions == Seq::<ReductionView<T>>::empty()
            },
        }
    }

    /// Counting the announcement of `params` overflows no counter.
    pub open spec fn can_count(self, params: Seq<u64>) -> bool {
        &&& self.devices_registered < usize::MAX
        &&& forall|param: u64|
            self.required_of(param) + (#[trigger] occurrences(params, param)) <= usize::MAX
    }

    /// The server can handle `event`: its counters do not overflow, and where the event can
    /// close the round, no device is at the sync point twice.
    pub open spec fn accepts(self, event: SyncEvent<D, T>) -> bool {
        match event {
            SyncEvent::Register(params) => self.can_count(params),
            SyncEvent::Gradient(param, tensor) => {
                self.after_submit(param, tensor).may_close() ==> self.distinct()
            },
            SyncEvent::Arrival(device, callback) => {
                let arrived = self.after_arrival(device, callback);
                arrived.sync_ready() ==> arrived.distinct()
            },
        }
    }
}

} // verus!
