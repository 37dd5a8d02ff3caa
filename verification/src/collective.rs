//! The reduction of one parameter, broken down into what each device is asked to do.

use crate::types::{DeviceId, ReduceOperation};
use std::collections::VecDeque;
use vstd::prelude::*;

verus! {

/// A gradient that waits for its reduction, and the device it is on. `T` is the backend's
/// reference to the gradient.
pub struct DeviceGradient<T> {
    pub device_id: DeviceId,
    pub tensor: T,
}

/// The part of one gradient in a reduction over `device_ids`.
pub struct CollectiveCall<T> {
    pub tensor: T,
    pub op: ReduceOperation,
    pub device_ids: Vec<DeviceId>,
}

/// The collective work of a backend.
pub struct BackendSyncOps {}

impl BackendSyncOps {
    /// The devices of the gradients, in order.
    pub open spec fn devices_of<T>(tensors: Seq<DeviceGradient<T>>) -> Seq<DeviceId> {
        tensors.map_values(|gradient: DeviceGradient<T>| gradient.device_id)
    }

    /// Reduces the gradients of one parameter over the devices that they are on: the call to
    /// make for each gradient, in order. Every call is made before any result is stored.
    pub fn all_reduce<T>(tensors: Vec<DeviceGradient<T>>, op: ReduceOperation) -> (calls: Vec<
        CollectiveCall<T>,
    >)
        ensures
            calls@.len() == tensors@.len(),
            forall|i: int|
                0 <= i < calls@.len() ==> {
                    let call = #[trigger] calls@[i];
                    &&& call.tensor == tensors@[i].tensor
                    &&& call.op == op
                    &&& call.device_ids@ == Self::devices_of(tensors@)
                },
            forall|i: int, j: int|
                0 <= i < calls@.len() && 0 <= j < tensors@.len() ==> (
                #[trigger] calls@[i]).device_ids@[j] == (#[trigger] tensors@[j]).device_id,
    {
        let mut device_ids: Vec<DeviceId> = Vec::new();
        for i in 0..tensors.len()
            invariant
                device_ids@ == Self::devices_of(tensors@).take(i as int),
        {
            device_ids.push(tensors[i].device_id);
            assert(device_ids@ =~= Self::devices_of(tensors@).take(i + 1));
        }
        assert(device_ids@ =~= Self::devices_of(tensors@));
        let mut calls: Vec<CollectiveCall<T>> = Vec::new();
        let ghost gradients = tensors@;
        for gradient in remaining: tensors
            invariant
                remaining.seq() == gradients,
                device_ids@ == Self::devices_of(gradients),
                calls@.len() == remaining.index(),
                forall|i: int|
                    0 <= i < calls@.len() ==> {
                        let call = #[trigger] calls@[i];
                        &&& call.tensor == gradients[i].tensor
                        &&& call.op == op
                        &&& call.device_ids@ == device_ids@
                    },
        {
            calls.push(
                CollectiveCall { tensor: gradient.tensor, op, device_ids: copy_ids(&device_ids) },
            );
        }
        calls
    }

    /// Where each result of the calls is to be stored: in the gradient that the call was made
    /// for.
    pub fn write_back<T, V>(calls: Vec<CollectiveCall<T>>, reduced: Vec<V>) -> (stores: Vec<(T, V)>)
        requires
            calls@.len() == reduced@.len(),
        ensures
            stores@.len() == calls@.len(),
            forall|i: int|
                0 <= i < stores@.len() ==> (#[trigger] stores@[i]).0 == calls@[i].tensor
                    && stores@[i].1 == reduced@[i],
    {
        let mut stores: Vec<(T, V)> = Vec::new();
        let ghost all_calls = calls@;
        let ghost all_reduced = reduced@;
        let mut results: VecDeque<V> = VecDeque::new();
        for result in remaining: reduced
            invariant
                remaining.seq() == all_reduced,
                results@ == all_reduced.take(remaining.index()),
        {
            results.push_back(result);
            assert(results@ =~= all_reduced.take(remaining.index() + 1));
        }
        assert(results@ =~= all_reduced.skip(0));
        for call in remaining: calls
            invariant
                remaining.seq() == all_calls,
                all_calls.len() == all_reduced.len(),
                results@ == all_reduced.skip(remaining.index()),
                stores@.len() == remaining.index(),
                forall|i: int|
                    0 <= i < stores@.len() ==> (#[trigger] stores@[i]).0 == all_calls[i].tensor
                        && stores@[i].1 == all_reduced[i],
        {
            let result = results.pop_front().unwrap();
            stores.push((call.tensor, result));
            assert(results@ =~= all_reduced.skip(remaining.index() + 1));
        }
        stores
    }
}

/// A copy of the ids.
fn copy_ids(device_ids: &Vec<DeviceId>) -> (copy: Vec<DeviceId>)
    ensures
        copy@ == device_ids@,
{
    let mut copy: Vec<DeviceId> = Vec::new();
    for i in 0..device_ids.len()
        invariant
            copy@ == device_ids@.take(i as int),
    {
        copy.push(device_ids[i]);
        assert(copy@ =~= device_ids@.take(i + 1));
    }
    assert(copy@ =~= device_ids@);
    copy
}

/// What the reduction on one device depends on: the stream on which the gradient was produced,
/// whether nothing else refers to its buffer, and whether its elements lie one after another.
pub struct GradientBuffer {
    pub stream: u64,
    pub can_mut: bool,
    pub is_contiguous: bool,
}

/// One thing to do for a reduction on one device, with the client of the device.
pub enum CollectiveStep {
    /// Pin the client to a stream: what it issues from here on goes there.
    PinStream(u64),
    /// Replace the gradient by its sum with zeros, in a buffer of its own.
    AddToZeros,
    /// Reduce the gradient, in place, over the devices.
    AllReduce { op: ReduceOperation, device_ids: Vec<DeviceId> },
    /// Give the result the device's own client, which is not pinned.
    ResetClient,
}

/// What a [`CollectiveStep`] says.
#[verifier::ext_equal]
pub enum StepView {
    PinStream(u64),
    AddToZeros,
    AllReduce { op: ReduceOperation, device_ids: Seq<DeviceId> },
    ResetClient,
}

impl View for CollectiveStep {
    type V = StepView;

    open spec fn view(&self) -> StepView {
        match *self {
            CollectiveStep::PinStream(stream) => StepView::PinStream(stream),
            CollectiveStep::AddToZeros => StepView::AddToZeros,
            CollectiveStep::AllReduce { op, device_ids } => StepView::AllReduce {
                op,
                device_ids: device_ids@,
            },
            CollectiveStep::ResetClient => StepView::ResetClient,
        }
    }
}

impl GradientBuffer {
    /// The buffer can take the result itself.
    pub open spec fn in_place(self) -> bool {
        self.can_mut && self.is_contiguous
    }
}

/// What the steps say.
pub open spec fn views(steps: Seq<CollectiveStep>) -> Seq<StepView> {
    steps.map_values(|step: CollectiveStep| step@)
}

/// A backend that runs its kernels on streams.
pub struct CubeBackend {}

impl CubeBackend {
    /// The steps of a reduction.
    pub open spec fn reduction_steps(
        buffer: GradientBuffer,
        op: ReduceOperation,
        device_ids: Seq<DeviceId>,
    ) -> Seq<StepView> {
        seq![StepView::PinStream(buffer.stream)] + (if buffer.in_place() {
            Seq::empty()
        } else {
            seq![StepView::AddToZeros]
        }) + seq![StepView::AllReduce { op, device_ids }, StepView::ResetClient]
    }

    /// Reduces a gradient over the devices. The work goes to the stream on which the gradient
    /// was produced, so that it comes behind every kernel already queued there; the pin does
    /// not outlast the reduction. A buffer that is shared or scattered is copied first.
    pub fn all_reduce(
        buffer: &GradientBuffer,
        op: ReduceOperation,
        device_ids: Vec<DeviceId>,
    ) -> (steps: Vec<CollectiveStep>)
        ensures
            views(steps@) == Self::reduction_steps(*buffer, op, device_ids@),
    {
        let mut steps: Vec<CollectiveStep> = Vec::new();
        steps.push(CollectiveStep::PinStream(buffer.stream));
        if !(buffer.can_mut && buffer.is_contiguous) {
            steps.push(CollectiveStep::AddToZeros);
        }
        steps.push(CollectiveStep::AllReduce { op, device_ids });
        steps.push(CollectiveStep::ResetClient);
        assert(views(steps@) =~= Self::reduction_steps(*buffer, op, device_ids@));
        steps
    }
}

/// The stream to which the client is pinned once the first `count` steps are done.
pub open spec fn pinned_after(steps: Seq<StepView>, count: int) -> Option<u64>
    decreases count,
{
    if count <= 0 {
        None
    } else {
        match steps[count - 1] {
            StepView::PinStream(stream) => Some(stream),
            StepView::ResetClient => None,
            _ => pinned_after(steps, count - 1),
        }
    }
}

/// Whatever a reduction issues on the device goes to the stream on which the gradient was
/// produced, and the result is not pinned to it.
pub proof fn law_work_stays_on_producing_stream(
    buffer: GradientBuffer,
    op: ReduceOperation,
    device_ids: Seq<DeviceId>,
)
    ensures
        ({
            let steps = CubeBackend::reduction_steps(buffer, op, device_ids);
            &&& forall|i: int|
                0 <= i < steps.len() && ((#[trigger] steps[i]) is AddToZeros
                    || steps[i] is AllReduce) ==> pinned_after(steps, i) == Some(buffer.stream)
            &&& pinned_after(steps, steps.len() as int) == None::<u64>
        }),
{
    let steps = CubeBackend::reduction_steps(buffer, op, device_ids);
    reveal_with_fuel(pinned_after, 4);
    assert(steps[0] == StepView::PinStream(buffer.stream));
    assert(steps[steps.len() - 1] is ResetClient);
    assert(steps.len() == if buffer.in_place() { 3int } else { 4int });
}

/// A reduction reduces once, with the operation and over the devices that were asked for, and
/// it writes to the buffer of the gradient only if nothing else refers to it.
pub proof fn law_reduces_once_and_never_into_a_shared_buffer(
    buffer: GradientBuffer,
    op: ReduceOperation,
    device_ids: Seq<DeviceId>,
    i: int,
)
    requires
        0 <= i < CubeBackend::reduction_steps(buffer, op, device_ids).len(),
        CubeBackend::reduction_steps(buffer, op, device_ids)[i] is AllReduce,
    ensures
        ({
            let steps = CubeBackend::reduction_steps(buffer, op, device_ids);
            &&& steps[i] == StepView::AllReduce { op, device_ids }
            &&& forall|j: int|
                0 <= j < steps.len() && (#[trigger] steps[j]) is AllReduce ==> j == i
            &&& !buffer.in_place() ==> exists|j: int|
                0 <= j < i && (#[trigger] steps[j]) is AddToZeros
        }),
{
    let steps = CubeBackend::reduction_steps(buffer, op, device_ids);
    if !buffer.in_place() {
        assert(steps[1] is AddToZeros);
    }
}

/// Of whatever buffer, with whatever operation and over whatever devices: a reduction reduces
/// exactly once, with that operation and over those devices. It does so right before the client
/// is reset, which is the last thing it does. The client is pinned once, first of all and to the
/// stream of the gradient. The gradient is added to zeros exactly when its buffer is shared or
/// scattered, and then once, before it is reduced. Nothing else is done.
pub proof fn law_every_gradient_is_reduced(
    buffer: GradientBuffer,
    op: ReduceOperation,
    device_ids: Vec<DeviceId>,
    steps: Vec<CollectiveStep>,
) -> (place: int)
    requires
        call_ensures(CubeBackend::all_reduce, (&buffer, op, device_ids), steps),
    ensures
        0 < place < steps@.len() - 1,
        steps@[place] matches CollectiveStep::AllReduce { op: used, device_ids: reached } && used
            == op && reached@ == device_ids@,
        forall|i: int|
            0 <= i < steps@.len() && (#[trigger] steps@[i]) is AllReduce ==> i == place,
        place == steps@.len() - 2,
        steps@.last() is ResetClient,
        steps@[0] matches CollectiveStep::PinStream(stream) && stream == buffer.stream,
        forall|i: int| 0 <= i < steps@.len() && (#[trigger] steps@[i]) is PinStream ==> i == 0,
        !buffer.can_mut || !buffer.is_contiguous ==> exists|copied: int|
            0 < copied < place && (#[trigger] steps@[copied]) is AddToZeros,
        buffer.can_mut && buffer.is_contiguous ==> forall|i: int|
            0 <= i < steps@.len() ==> !((#[trigger] steps@[i]) is AddToZeros),
        forall|i: int, j: int|
            0 <= i < j < steps@.len() && (#[trigger] steps@[i]) is AddToZeros ==> !((
            #[trigger] steps@[j]) is AddToZeros),
        steps@.len() == if buffer.can_mut && buffer.is_contiguous {
            3int
        } else {
            4int
        },
{
    let said = views(steps@);
    assert(said == CubeBackend::reduction_steps(buffer, op, device_ids@));
    assert(forall|i: int| 0 <= i < steps@.len() ==> said[i] == (#[trigger] steps@[i])@);
    let place = steps@.len() - 2;
    assert(said[place] == StepView::AllReduce { op, device_ids: device_ids@ });
    assert(steps@[0]@ == StepView::PinStream(buffer.stream));
    assert(steps@[place + 1]@ is ResetClient);
    if !(buffer.can_mut && buffer.is_contiguous) {
        assert(steps@[1]@ is AddToZeros);
    }
    place
}

/// Each gradient of a parameter gets one call, in order, for the gradient itself and with the
/// operation that was asked for. Each call is over as many devices as there are gradients, and
/// they are, in order, the devices that the gradients are on, each by its kind and its number.
pub proof fn law_reduced_over_the_devices_of_the_gradients<T>(
    tensors: Vec<DeviceGradient<T>>,
    op: ReduceOperation,
    calls: Vec<CollectiveCall<T>>,
)
    requires
        call_ensures(BackendSyncOps::all_reduce::<T>, (tensors, op), calls),
    ensures
        calls@.len() == tensors@.len(),
        forall|i: int|
            0 <= i < calls@.len() ==> {
                &&& (#[trigger] calls@[i]).tensor == tensors@[i].tensor
                &&& calls@[i].op == op
                &&& calls@[i].device_ids@.len() == tensors@.len()
            },
        forall|i: int, j: int|
            0 <= i < calls@.len() && 0 <= j < tensors@.len() ==> {
                let named = (#[trigger] calls@[i]).device_ids@[j];
                let held_by = (#[trigger] tensors@[j]).device_id;
                named.type_id == held_by.type_id && named.index_id == held_by.index_id
            },
{
}

/// What comes back from the call for a gradient is stored in that gradient.
pub proof fn law_result_replaces_its_own_gradient<T, V>(
    tensors: Vec<DeviceGradient<T>>,
    op: ReduceOperation,
    calls: Vec<CollectiveCall<T>>,
    reduced: Vec<V>,
    stores: Vec<(T, V)>,
)
    requires
        call_ensures(BackendSyncOps::all_reduce::<T>, (tensors, op), calls),
        reduced@.len() == tensors@.len(),
        call_ensures(BackendSyncOps::write_back::<T, V>, (calls, reduced), stores),
    ensures
        stores@.len() == tensors@.len(),
        forall|i: int|
            0 <= i < stores@.len() ==> (#[trigger] stores@[i]).0 == tensors@[i].tensor
                && stores@[i].1 == reduced@[i],
{
    assert(forall|i: int|
        0 <= i < stores@.len() ==> (#[trigger] stores@[i]).0 == calls@[i].tensor);
}

} // verus!
