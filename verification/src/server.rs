//! The gradient sync server: it gathers the gradients of each parameter, orders their
//! reduction, and holds every device at the sync point until all of them have reached it.

use crate::channel::{CollectiveWait, Release};
use crate::model::{
    lemma_occurrences, lemma_occurrences_prefix, occurrences, param_values, reduction_views,
    DistributedSyncMessage, OutcomeView, Reduction, ReductionView, SyncEvent, SyncOutcome,
    SyncState,
};
use crate::types::{
    DeviceId, DistributedConfig, DistributedParamId, DistributedParams, SyncDevice,
};
use std::collections::HashMap;
use vstd::prelude::*;

verus! {

broadcast use vstd::std_specs::hash::group_hash_axioms;

/// Schedules the reductions of a group of devices. `D` is the backend's handle to a device and
/// `T` its reference to a gradient: the server carries both without looking inside.
#[verifier::reject_recursive_types(D)]
pub struct DistributedSyncServer<D, T> {
    config: DistributedConfig,
    all_reduce_ops_queue: HashMap<u64, Vec<T>>,
    param_required_map: HashMap<u64, usize>,
    num_devices: usize,
    devices_registered: usize,
    syncing_devices: Vec<SyncDevice<D>>,
    callbacks: HashMap<u32, oneshot::Sender<CollectiveWait<D>>>,
}

impl<D, T> View for DistributedSyncServer<D, T> {
    type V = SyncState<D, T>;

    closed spec fn view(&self) -> SyncState<D, T> {
        SyncState {
            config: self.config,
            num_devices: self.num_devices as nat,
            devices_registered: self.devices_registered as nat,
            queue: self.all_reduce_ops_queue@.map_values(|tensors: Vec<T>| tensors@),
            required: self.param_required_map@.map_values(|count: usize| count as nat),
            syncing: self.syncing_devices@,
            callbacks: self.callbacks@,
        }
    }
}

impl<D, T> DistributedSyncServer<D, T> {
    /// A server for `num_devices` devices, at the start of its first round.
    pub fn new(num_devices: usize, config: DistributedConfig) -> (server: Self)
        ensures
            server@ == SyncState::<D, T>::initial(num_devices as nat, config),
            server@.well_formed(),
    {
        let server = DistributedSyncServer {
            config,
            all_reduce_ops_queue: HashMap::new(),
            param_required_map: HashMap::new(),
            num_devices,
            devices_registered: 0,
            syncing_devices: Vec::new(),
            callbacks: HashMap::new(),
        };
        assert(server@ =~= SyncState::<D, T>::initial(num_devices as nat, config));
        server
    }

    /// Releases every device at the sync point and ends the round, if nothing waits for a
    /// reduction and enough devices are there. Releases nobody otherwise: a device released
    /// before its peers arrive would register into the round that is still closing.
    fn try_launch_sync(&mut self) -> (released: Vec<Release<D>>)
        requires
            old(self)@.well_formed(),
            old(self)@.sync_ready() ==> old(self)@.distinct(),
        ensures
            old(self)@.syncs(final(self)@, released@),
    {
        let mut released: Vec<Release<D>> = Vec::new();
        let ghost before = self@;
        assert(before.queue.dom() =~= self.all_reduce_ops_queue@.dom());
        if !self.all_reduce_ops_queue.is_empty() || self.syncing_devices.len() < self.num_devices {
            assert(!before.sync_ready()) by {
                if before.queue.dom() == Set::<u64>::empty() {
                    assert(self.all_reduce_ops_queue@.dom() =~= Set::<u64>::empty());
                }
            }
            return released;
        }
        assert(before.queue.dom() =~= Set::<u64>::empty());
        self.devices_registered = 0;
        self.param_required_map.clear();
        let mut devices: Vec<SyncDevice<D>> = Vec::new();
        std::mem::swap(&mut devices, &mut self.syncing_devices);
        let ghost emptied = *self;
        for device in arrivals: devices
            invariant
                arrivals.seq() == before.syncing,
                before.distinct(),
                released@ == before.releases().take(arrivals.index()),
                forall|j: int|
                    arrivals.index() <= j < before.syncing.len() ==> {
                        let key = (#[trigger] before.syncing[j]).id.spec_key();
                        &&& self.callbacks@.contains_key(key)
                        &&& self.callbacks@[key] == before.callbacks[key]
                    },
                emptied == (DistributedSyncServer { callbacks: emptied.callbacks, ..*self }),
        {
            let ghost position = arrivals.index();
            assert(device == before.syncing[position]);
            let key = device.id.key();
            let callback = self.callbacks.remove(&key).unwrap();
            released.push(Release { wait: CollectiveWait { device }, callback });
            proof {
                assert forall|j: int| position + 1 <= j < before.syncing.len() implies {
                    let other = (#[trigger] before.syncing[j]).id.spec_key();
                    &&& self.callbacks@.contains_key(other)
                    &&& self.callbacks@[other] == before.callbacks[other]
                } by {
                    assert(before.syncing[position].id != before.syncing[j].id);
                    DeviceId::lemma_key_injective(
                        before.syncing[position].id,
                        before.syncing[j].id,
                    );
                }
                assert(released@ =~= before.releases().take(position + 1));
            }
        }
        assert(released@ =~= before.releases());
        self.callbacks.clear();
        assert(self@ =~= before.closed());
        released
    }

    /// Visits the registered parameters in the given order, and orders the reduction of each
    /// one whose gradients are all in. After each reduction the round may close.
    pub fn launch_in_order(&mut self, order: &Vec<u64>) -> (outcome: SyncOutcome<D, T>)
        requires
            old(self)@.well_formed(),
            old(self)@.visits(order@),
            old(self)@.devices_registered == old(self)@.num_devices,
            old(self)@.closes_in(order@) ==> old(self)@.distinct(),
        ensures
            old(self)@.launches_in(order@, final(self)@, outcome@),
            final(self)@.well_formed(),
    {
        let op = self.config.all_reduce_op;
        let required = self.param_required_map.clone();
        let mut reductions: Vec<Reduction<T>> = Vec::new();
        let mut releases: Vec<Release<D>> = Vec::new();
        let ghost before = self@;
        let ghost mut closed = false;
        assert(visited(before, order@.take(0)) =~= before);
        assert(reduction_views(reductions@) =~= ordered_reductions(before, order@.take(0)));
        for i in 0..order.len()
            invariant
                before.well_formed(),
                before.visits(order@),
                before.devices_registered == before.num_devices,
                before.closes_in(order@) ==> before.distinct(),
                op == before.config.all_reduce_op,
                required@.map_values(|count: usize| count as nat) == before.required,
                closed == closes_within(before, order@, i as int),
                self@ == if closed {
                    visited(before, order@.take(i as int)).closed()
                } else {
                    visited(before, order@.take(i as int))
                },
                releases@ == if closed {
                    before.releases()
                } else {
                    Seq::empty()
                },
                reduction_views(reductions@) == ordered_reductions(before, order@.take(i as int)),
        {
            let param = order[i];
            let ghost seen = order@.take(i as int);
            let ghost seen_next = order@.take(i + 1);
            assert(order@.contains(param));
            assert(required@.contains_key(param));
            assert(!seen.contains(param));
            assert(seen_next =~= seen.push(param));
            assert(self@.queued_of(param) == before.queued_of(param));
            let num_tensors = *required.get(&param).unwrap();
            assert(num_tensors == before.required[param]);
            let ghost start = self@;
            let num_queued = self.all_reduce_ops_queue.entry(param).or_insert(Vec::new()).len();
            assert(num_queued == before.queued_of(param).len());
            assert(self@.queue =~= start.queue.insert(param, before.queued_of(param)));
            proof {
                lemma_reductions_step(before, seen, param);
                assert forall|other: u64| #[trigger]
                    seen_next.contains(other) <==> seen.contains(other) || other == param by {
                    vstd::seq_lib::lemma_seq_contains_after_push(seen, param, other);
                }
            }
            if num_tensors == num_queued {
                proof {
                    lemma_full_not_closed(before, order@, i as int);
                    lemma_full_step(before, order@, i as int);
                }
                let tensors = self.all_reduce_ops_queue.remove(&param).unwrap();
                assert(tensors@ == before.queued_of(param));
                let reduction = Reduction {
                    param_id: DistributedParamId { value: param },
                    tensors,
                    op,
                };
                assert(reduction_views(reductions@.push(reduction)) =~= reduction_views(
                    reductions@,
                ).push(reduction@));
                reductions.push(reduction);
                self.param_required_map.remove(&param);
                assert(self@.queue =~= start.queue.remove(param));
                assert(self@.required =~= start.required.remove(param));
                assert(self@ =~= visited(before, seen_next));
                releases = self.try_launch_sync();
                proof {
                    closed = closes_within(before, order@, i + 1);
                }
            } else {
                proof {
                    lemma_other_step(before, order@, i as int);
                    assert(self@.queue =~= visited(before, seen_next).queue);
                    if !closed {
                        assert(self@.required =~= visited(before, seen_next).required);
                    }
                }
            }
        }
        proof {
            lemma_all_visited(before, order@);
        }
        assert(order@.take(order.len() as int) =~= order@);
        SyncOutcome { reductions, releases }
    }

    /// Orders the reductions that are due, once every device has registered.
    fn launch_ops(&mut self) -> (outcome: SyncOutcome<D, T>)
        requires
            old(self)@.well_formed(),
            old(self)@.may_close() ==> old(self)@.distinct(),
        ensures
            old(self)@.launches(final(self)@, outcome@),
            final(self)@.well_formed(),
    {
        if self.devices_registered == self.num_devices {
            let ghost before = self@;
            let mut order: Vec<u64> = Vec::new();
            let ghost walk = vstd::std_specs::iter::IteratorSpec::remaining(
                &self.param_required_map.keys(),
            ).unref();
            for param in params: self.param_required_map.keys()
                invariant
                    params.seq().unref() == walk,
                    order@ == walk.take(params.index()),
            {
                order.push(*param);
                assert(order@ =~= walk.take(params.index() + 1));
            }
            assert(order@ =~= walk);
            assert(before.visits(order@)) by {
                assert(order@.to_set() =~= before.required.dom());
                assert forall|param: u64| #[trigger]
                    order@.contains(param) <==> before.required.contains_key(param) by {
                    assert(order@.to_set().contains(param) <==> before.required.dom().contains(
                        param,
                    ));
                }
            }
            let outcome = self.launch_in_order(&order);
            proof {
                law_any_order_launches(before, order@, self@, outcome@);
            }
            outcome
        } else {
            let outcome = SyncOutcome { reductions: Vec::new(), releases: Vec::new() };
            assert(outcome@.reductions =~= Seq::<ReductionView<T>>::empty());
            outcome
        }
    }

    /// Called at the start of a backward pass: the device announces the parameters that are
    /// nodes in its autodiff graph, and how many times each is required.
    fn register_sync_params(&mut self, sharded_params: Vec<DistributedParams>)
        requires
            old(self)@.well_formed(),
            old(self)@.can_count(param_values(sharded_params@)),
        ensures
            final(self)@ == old(self)@.after_register(param_values(sharded_params@)),
            final(self)@.well_formed(),
    {
        let ghost before = self@;
        let ghost total = param_values(sharded_params@);
        proof {
            assert forall|param: u64| occurrences(total.take(0), param) == 0 by {
                assert(total.take(0) =~= Seq::empty());
                lemma_occurrences(total.take(0), param, param);
            }
            assert(before.required =~= before.after_register(total.take(0)).required);
        }
        for i in 0..sharded_params.len()
            invariant
                total == param_values(sharded_params@),
                before.can_count(total),
                self@ == (SyncState {
                    required: before.after_register(total.take(i as int)).required,
                    ..before
                }),
        {
            let param = sharded_params[i].param_id.value;
            let ghost seen = total.take(i as int);
            let ghost start = self@;
            proof {
                assert(total.take(i + 1) =~= seen.push(param));
                lemma_occurrences(seen, param, param);
                lemma_occurrences_prefix(total, i + 1, param);
                assert(start.required_of(param) == before.required_of(param) + occurrences(
                    seen,
                    param,
                ));
            }
            let count = self.param_required_map.entry(param).or_insert(0);
            *count = *count + 1;
            proof {
                assert(self@.required =~= start.required.insert(
                    param,
                    start.required_of(param) + 1,
                ));
                let target = before.after_register(seen.push(param)).required;
                assert forall|other: u64|
                    #![trigger target.dom().contains(other)]
                    #![trigger target[other]]
                    self@.required.dom().contains(other) == target.dom().contains(other) && (
                    target.dom().contains(other) ==> self@.required[other] == target[other]) by {
                    lemma_occurrences(seen, other, param);
                    vstd::seq_lib::lemma_seq_contains_after_push(seen, param, other);
                }
                assert(self@.required.dom() =~= target.dom());
                assert(self@.required =~= target);
            }
        }
        proof {
            assert(total.take(total.len() as int) =~= total);
            assert forall|param: u64| total.contains(param) implies occurrences(total, param)
                > 0 by {
                lemma_occurrences(total, param, param);
            }
        }
        self.devices_registered = self.devices_registered + 1;
    }

    /// Called on the registration of a gradient. Orders the reductions that it makes due.
    fn register_tensor(&mut self, tensor: T, sharded_params: DistributedParams) -> (outcome:
        SyncOutcome<D, T>)
        requires
            old(self)@.well_formed(),
            old(self)@.accepts(SyncEvent::Gradient(sharded_params.param_id.value, tensor)),
        ensures
            old(self)@.after_submit(sharded_params.param_id.value, tensor).launches(
                final(self)@,
                outcome@,
            ),
            final(self)@.well_formed(),
    {
        let ghost before = self@;
        let param = sharded_params.param_id.value;
        self.all_reduce_ops_queue.entry(param).or_insert(Vec::new()).push(tensor);
        assert(self@ =~= before.after_submit(param, tensor));
        self.launch_ops()
    }

    /// Called when a device reaches the sync point. Closes the round if it was the last one.
    fn collective_sync(
        &mut self,
        device: SyncDevice<D>,
        callback: oneshot::Sender<CollectiveWait<D>>,
    ) -> (released: Vec<Release<D>>)
        requires
            old(self)@.well_formed(),
            old(self)@.accepts(SyncEvent::Arrival(device, callback)),
        ensures
            old(self)@.after_arrival(device, callback).syncs(final(self)@, released@),
            final(self)@.well_formed(),
    {
        let ghost before = self@;
        self.callbacks.insert(device.id.key(), callback);
        self.syncing_devices.push(device);
        assert(self@ =~= before.after_arrival(device, callback));
        self.try_launch_sync()
    }

    /// No device is at the sync point twice.
    fn syncing_distinct(&self) -> (distinct: bool)
        ensures
            distinct == self@.distinct(),
    {
        let devices = &self.syncing_devices;
        for j in 0..devices.len()
            invariant
                devices@ == self@.syncing,
                forall|a: int, b: int|
                    0 <= a < b < j ==> (#[trigger] devices@[a]).id != (#[trigger] devices@[b]).id,
        {
            for i in 0..j
                invariant
                    devices@ == self@.syncing,
                    j < devices.len(),
                    forall|a: int|
                        0 <= a < i ==> (#[trigger] devices@[a]).id != devices@[j as int].id,
            {
                if devices[i].id == devices[j].id {
                    return false;
                }
            }
        }
        true
    }

    /// `id` is at the sync point.
    fn is_syncing(&self, id: DeviceId) -> (syncing: bool)
        ensures
            syncing == exists|i: int|
                0 <= i < self@.syncing.len() && (#[trigger] self@.syncing[i]).id == id,
    {
        let devices = &self.syncing_devices;
        for i in 0..devices.len()
            invariant
                devices@ == self@.syncing,
                forall|a: int| 0 <= a < i ==> (#[trigger] devices@[a]).id != id,
        {
            if devices[i].id == id {
                assert(self@.syncing[i as int].id == id);
                return true;
            }
        }
        false
    }

    /// `param` is full, or would be with `extra` more gradients.
    fn full_with(&self, param: u64, extra: usize) -> (full: bool)
        ensures
            full == (self@.required.contains_key(param) && self@.queued_of(param).len() + extra
                == self@.required[param]),
    {
        let queued = match self.all_reduce_ops_queue.get(&param) {
            Some(tensors) => tensors.len(),
            None => 0,
        };
        assert(queued == self@.queued_of(param).len());
        match self.param_required_map.get(&param) {
            Some(count) => *count >= extra && *count - extra == queued,
            None => false,
        }
    }

    /// With one more gradient of `param`, the round can close.
    fn submit_may_close(&self, param: u64, tensor: &T) -> (closes: bool)
        requires
            self@.well_formed(),
        ensures
            closes == self@.after_submit(param, *tensor).may_close(),
    {
        let ghost after = self@.after_submit(param, *tensor);
        if self.devices_registered != self.num_devices || self.syncing_devices.len()
            < self.num_devices {
            return false;
        }
        assert(after.queue.contains_key(param));
        if !self.full_with(param, 1) {
            return false;
        }
        assert(after.full(param));
        let ghost walk = vstd::std_specs::iter::IteratorSpec::remaining(
            &self.all_reduce_ops_queue.keys(),
        ).unref();
        for other in others: self.all_reduce_ops_queue.keys()
            invariant
                others.seq().unref() == walk,
                walk.to_set() == self@.queue.dom(),
                after == self@.after_submit(param, *tensor),
                forall|i: int|
                    0 <= i < others.index() ==> walk[i] == param || after.full(#[trigger] walk[i]),
        {
            assert(*other == walk[others.index()]);
            if *other != param && !self.full_with(*other, 0) {
                proof {
                    assert(walk.to_set().contains(*other));
                    assert(after.queue.contains_key(*other));
                    assert(!after.full(*other));
                }
                return false;
            }
        }
        proof {
            assert forall|other: u64| #[trigger] after.queue.contains_key(other) implies after.full(
                other,
            ) by {
                if other != param {
                    assert(walk.to_set().contains(other));
                    let i = choose|i: int| 0 <= i < walk.len() && walk[i] == other;
                    assert(after.full(walk[i]));
                }
            }
        }
        true
    }

    /// The announcement of `params` overflows no counter.
    fn can_register(&self, params: &Vec<DistributedParams>) -> (can: bool)
        ensures
            can == self@.can_count(param_values(params@)),
    {
        let ghost total = param_values(params@);
        if self.devices_registered == usize::MAX {
            return false;
        }
        for i in 0..params.len()
            invariant
                total == param_values(params@),
                forall|a: int|
                    0 <= a < i ==> self@.required_of(#[trigger] total[a]) + occurrences(
                        total,
                        total[a],
                    ) <= usize::MAX,
        {
            let param = params[i].param_id.value;
            assert(param == total[i as int]);
            let count = match self.param_required_map.get(&param) {
                Some(count) => *count,
                None => 0,
            };
            assert(count == self@.required_of(param));
            if count > usize::MAX - count_entries(params, param) {
                return false;
            }
        }
        proof {
            assert forall|param: u64|
                self@.required_of(param) + (#[trigger] occurrences(total, param))
                    <= usize::MAX by {
                lemma_occurrences(total, param, param);
                if total.contains(param) {
                    let a = choose|a: int| 0 <= a < total.len() && total[a] == param;
                    assert(self@.required_of(total[a]) + occurrences(total, total[a])
                        <= usize::MAX);
                }
            }
        }
        true
    }

    /// Whether [`process_message`](Self::process_message) can handle the message.
    pub fn can_process(&self, msg: &DistributedSyncMessage<D, T>) -> (can: bool)
        requires
            self@.well_formed(),
        ensures
            can == self@.accepts(msg@),
    {
        match msg {
            DistributedSyncMessage::RegisterSyncParameters(params) => self.can_register(params),
            DistributedSyncMessage::TensorSync((tensor, params)) => {
                !self.submit_may_close(params.param_id.value, tensor) || self.syncing_distinct()
            },
            DistributedSyncMessage::CollectiveSync((device, callback)) => {
                let ghost arrived = self@.after_arrival(*device, *callback);
                assert(self@.queue.dom() =~= self.all_reduce_ops_queue@.dom());
                let ready = self.all_reduce_ops_queue.is_empty() && (self.num_devices == 0
                    || self.syncing_devices.len() >= self.num_devices - 1);
                assert(ready == arrived.sync_ready()) by {
                    if arrived.sync_ready() {
                        assert(self.all_reduce_ops_queue@.dom() =~= Set::<u64>::empty());
                    }
                    if self.all_reduce_ops_queue@.is_empty() {
                        assert(arrived.queue.dom() =~= Set::<u64>::empty());
                    }
                }
                let distinct = self.syncing_distinct() && !self.is_syncing(device.id);
                assert(distinct == arrived.distinct()) by {
                    let count = self@.syncing.len() as int;
                    assert(arrived.syncing[count].id == device.id);
                    assert(forall|i: int|
                        0 <= i < count ==> #[trigger] arrived.syncing[i] == self@.syncing[i]);
                    assert(forall|i: int|
                        0 <= i < count ==> arrived.syncing[i] == #[trigger] self@.syncing[i]);
                }
                !ready || distinct
            },
        }
    }

    /// Handles a message, and says what work it calls for.
    pub fn process_message(&mut self, msg: DistributedSyncMessage<D, T>) -> (outcome: SyncOutcome<
        D,
        T,
    >)
        requires
            old(self)@.well_formed(),
            old(self)@.accepts(msg@),
        ensures
            old(self)@.handles(msg@, final(self)@, outcome@),
            final(self)@.well_formed(),
    {
        match msg {
            DistributedSyncMessage::RegisterSyncParameters(params) => {
                self.register_sync_params(params);
                let outcome = SyncOutcome { reductions: Vec::new(), releases: Vec::new() };
                assert(outcome@.reductions =~= Seq::<ReductionView<T>>::empty());
                outcome
            },
            DistributedSyncMessage::TensorSync((tensor, params)) => {
                self.register_tensor(tensor, params)
            },
            DistributedSyncMessage::CollectiveSync((device, callback)) => {
                let releases = self.collective_sync(device, callback);
                let outcome = SyncOutcome { reductions: Vec::new(), releases };
                assert(outcome@.reductions =~= Seq::<ReductionView<T>>::empty());
                outcome
            },
        }
    }
}

/// How many of the entries name `param`.
fn count_entries(params: &Vec<DistributedParams>, param: u64) -> (count: usize)
    ensures
        count == occurrences(param_values(params@), param),
{
    let ghost total = param_values(params@);
    let mut count: usize = 0;
    proof {
        assert(total.take(0) =~= Seq::empty());
        lemma_occurrences(total.take(0), param, param);
    }
    for i in 0..params.len()
        invariant
            total == param_values(params@),
            count == occurrences(total.take(i as int), param),
            count <= i,
    {
        proof {
            assert(total.take(i + 1) =~= total.take(i as int).push(total[i as int]));
            lemma_occurrences(total.take(i as int), param, total[i as int]);
        }
        if params[i].param_id.value == param {
            count = count + 1;
        }
    }
    assert(total.take(total.len() as int) =~= total);
    count
}

/// The state once the parameters in `seen` are visited, if the round has not closed on the way.
spec fn visited<D, T>(before: SyncState<D, T>, seen: Seq<u64>) -> SyncState<D, T> {
    SyncState {
        queue: Map::new(
            |param: u64|
                if seen.contains(param) {
                    !before.full(param)
                } else {
                    before.queue.contains_key(param)
                },
            |param: u64| before.queued_of(param),
        ),
        required: Map::new(
            |param: u64|
                before.required.contains_key(param) && !(seen.contains(param) && before.full(
                    param,
                )),
            |param: u64| before.required[param],
        ),
        ..before
    }
}

/// The reductions of the full parameters in `seen`.
spec fn ordered_reductions<D, T>(before: SyncState<D, T>, seen: Seq<u64>) -> Seq<
    ReductionView<T>,
> {
    seen.filter(|param: u64| before.full(param)).map_values(
        |param: u64| before.reduction_of(param),
    )
}

/// The round closes while the first `count` parameters of `order` are visited.
spec fn closes_within<D, T>(before: SyncState<D, T>, order: Seq<u64>, count: int) -> bool {
    &&& before.syncing.len() >= before.num_devices
    &&& exists|i: int| 0 <= i < count && before.full(#[trigger] order[i])
    &&& forall|param: u64| #[trigger]
        before.queue.contains_key(param) ==> before.full(param) && order.take(count).contains(param)
    &&& forall|i: int, j: int|
        0 <= i < j < count && before.full(#[trigger] order[j]) ==> before.full(
            #[trigger] order[i],
        )
}

proof fn lemma_reductions_step<D, T>(before: SyncState<D, T>, seen: Seq<u64>, param: u64)
    ensures
        ordered_reductions(before, seen.push(param)) == if before.full(param) {
            ordered_reductions(before, seen).push(before.reduction_of(param))
        } else {
            ordered_reductions(before, seen)
        },
{
    reveal(Seq::filter);
    assert(seen.push(param).drop_last() =~= seen);
    assert(ordered_reductions(before, seen.push(param)) =~= if before.full(param) {
        ordered_reductions(before, seen).push(before.reduction_of(param))
    } else {
        ordered_reductions(before, seen)
    });
}

/// The reductions of the full parameters in `seen`: one for each, and no other.
proof fn lemma_ordered_reductions<D, T>(before: SyncState<D, T>, seen: Seq<u64>)
    requires
        seen.no_duplicates(),
    ensures
        ({
            let reductions = ordered_reductions(before, seen);
            &&& forall|i: int|
                0 <= i < reductions.len() ==> {
                    let param = (#[trigger] reductions[i]).param;
                    &&& before.full(param)
                    &&& reductions[i] == before.reduction_of(param)
                    &&& seen.contains(param)
                }
            &&& forall|i: int, j: int|
                0 <= i < j < reductions.len() ==> (#[trigger] reductions[i]).param != (
                #[trigger] reductions[j]).param
            &&& forall|param: u64|
                seen.contains(param) && #[trigger] before.full(param) ==> exists|i: int|
                    0 <= i < reductions.len() && (#[trigger] reductions[i]).param == param
        }),
    decreases seen.len(),
{
    let reductions = ordered_reductions(before, seen);
    if seen.len() == 0 {
        reveal(Seq::filter);
        assert(reductions.len() == 0);
    } else {
        let rest = seen.drop_last();
        let last = seen.last();
        let earlier = ordered_reductions(before, rest);
        assert(seen =~= rest.push(last));
        lemma_ordered_reductions(before, rest);
        lemma_reductions_step(before, rest, last);
        assert forall|param: u64| #[trigger]
            seen.contains(param) <==> rest.contains(param) || param == last by {
            vstd::seq_lib::lemma_seq_contains_after_push(rest, last, param);
        }
        assert(!rest.contains(last));
        assert forall|param: u64|
            seen.contains(param) && #[trigger] before.full(param) implies exists|i: int|
            0 <= i < reductions.len() && (#[trigger] reductions[i]).param == param by {
            if param == last {
                assert(reductions[reductions.len() - 1].param == last);
            } else {
                let i = choose|i: int| 0 <= i < earlier.len() && earlier[i].param == param;
                assert(reductions[i] == earlier[i]);
            }
        }
    }
}

/// Once the round has closed, no parameter that is visited later is full.
proof fn lemma_full_not_closed<D, T>(before: SyncState<D, T>, order: Seq<u64>, i: int)
    requires
        before.well_formed(),
        before.visits(order),
        0 <= i < order.len(),
        before.full(order[i]),
    ensures
        !closes_within(before, order, i),
        before.queue.contains_key(order[i]),
{
    assert(before.required[order[i]] >= 1);
    if closes_within(before, order, i) {
        assert(order.take(i).contains(order[i]));
        let k = choose|k: int| 0 <= k < i && order.take(i)[k] == order[i];
        assert(order[k] == order[i]);
    }
}

/// After the reduction of a full parameter, the round closes if it is the last thing to wait for.
proof fn lemma_full_step<D, T>(before: SyncState<D, T>, order: Seq<u64>, i: int)
    requires
        before.well_formed(),
        before.visits(order),
        before.devices_registered == before.num_devices,
        0 <= i < order.len(),
        before.full(order[i]),
    ensures
        closes_within(before, order, i + 1) == visited(before, order.take(i + 1)).sync_ready(),
        closes_within(before, order, i + 1) ==> before.closes_in(order),
{
    let seen = order.take(i + 1);
    let next = visited(before, seen);
    assert(forall|k: int| 0 <= k < i + 1 ==> seen[k] == #[trigger] order[k]);
    if next.sync_ready() {
        assert forall|param: u64| #[trigger] before.queue.contains_key(param) implies before.full(
            param,
        ) && seen.contains(param) by {
            assert(!next.queue.dom().contains(param));
        }
        assert forall|a: int, b: int|
            0 <= a < b < i + 1 && before.full(#[trigger] order[b]) implies before.full(
            #[trigger] order[a],
        ) by {
            assert(seen.contains(order[a]));
            assert(!next.queue.dom().contains(order[a]));
        }
    }
    if closes_within(before, order, i + 1) {
        assert forall|param: u64| !next.queue.dom().contains(param) by {
            if seen.contains(param) {
                let k = choose|k: int| 0 <= k < i + 1 && seen[k] == param;
                assert(order[k] == param);
                if k < i {
                    assert(before.full(order[k]));
                }
            }
        }
        assert(next.queue.dom() =~= Set::<u64>::empty());
        // What is full waits, so it was visited: nothing behind it is full.
        assert forall|a: int, b: int|
            0 <= a < b < order.len() && before.full(#[trigger] order[b]) implies before.full(
            #[trigger] order[a],
        ) by {
            lemma_full_not_closed(before, order, b);
            let k = choose|k: int| 0 <= k < i + 1 && seen[k] == order[b];
            assert(order[k] == order[b]);
        }
    }
}

/// A visit to a parameter that is not full closes nothing.
proof fn lemma_other_step<D, T>(before: SyncState<D, T>, order: Seq<u64>, i: int)
    requires
        before.visits(order),
        0 <= i < order.len(),
        !before.full(order[i]),
    ensures
        closes_within(before, order, i + 1) == closes_within(before, order, i),
{
    let seen = order.take(i);
    let seen_next = order.take(i + 1);
    assert(seen_next =~= seen.push(order[i]));
    if closes_within(before, order, i) {
        assert forall|param: u64| #[trigger] before.queue.contains_key(param) implies before.full(
            param,
        ) && seen_next.contains(param) by {
            let k = choose|k: int| 0 <= k < i && seen[k] == param;
            assert(seen_next[k] == param);
        }
    }
    if closes_within(before, order, i + 1) {
        assert forall|param: u64| #[trigger] before.queue.contains_key(param) implies before.full(
            param,
        ) && seen.contains(param) by {
            let k = choose|k: int| 0 <= k < i + 1 && seen_next[k] == param;
            assert(seen[k] == param);
        }
    }
}

/// Once every parameter is visited, every full one is reduced.
proof fn lemma_all_visited<D, T>(before: SyncState<D, T>, order: Seq<u64>)
    requires
        before.visits(order),
        before.devices_registered == before.num_devices,
    ensures
        visited(before, order) == before.reduced(),
        closes_within(before, order, order.len() as int) == before.closes_in(order),
{
    assert(order.take(order.len() as int) =~= order);
    assert(visited(before, order).queue =~= before.reduced().queue);
    assert(visited(before, order).required =~= before.reduced().required);
    if before.closes_in(order) {
        let param = choose|param: u64| before.full(param);
        assert(order.contains(param));
        let k = choose|k: int| 0 <= k < order.len() && order[k] == param;
        assert(before.full(order[k]));
        assert forall|param: u64| #[trigger] before.queue.contains_key(param) implies before.full(
            param,
        ) && order.contains(param) by {}
    }
}

/// Whatever the order in which the parameters are visited, what it leads to is what launching
/// the reductions may lead to.
pub proof fn law_any_order_launches<D, T>(
    before: SyncState<D, T>,
    order: Seq<u64>,
    next: SyncState<D, T>,
    outcome: OutcomeView<D, T>,
)
    requires
        before.visits(order),
        before.devices_registered == before.num_devices,
        before.launches_in(order, next, outcome),
    ensures
        before.launches(next, outcome),
{
    lemma_ordered_reductions(before, order);
    assert(before.reduces_full(outcome.reductions));
    if before.may_close() && before.complete() {
        assert forall|i: int, j: int|
            0 <= i < j < order.len() && before.full(#[trigger] order[j]) implies before.full(
            #[trigger] order[i],
        ) by {
            assert(order.contains(order[i]));
        }
    }
}

} // verus!
