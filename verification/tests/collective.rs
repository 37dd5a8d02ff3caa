use ddp_sync::collective::{
    BackendSyncOps, CollectiveStep, CubeBackend, DeviceGradient, GradientBuffer,
};
use ddp_sync::types::{DeviceId, ReduceOperation};

fn id(index_id: u16) -> DeviceId {
    DeviceId { type_id: 1, index_id }
}

#[test]
fn every_gradient_is_reduced_over_all_the_devices() {
    let tensors = vec![
        DeviceGradient { device_id: id(2), tensor: 'a' },
        DeviceGradient { device_id: id(0), tensor: 'b' },
        DeviceGradient { device_id: id(1), tensor: 'c' },
    ];
    let calls = BackendSyncOps::all_reduce(tensors, ReduceOperation::Mean);
    assert_eq!(calls.len(), 3);
    for (call, tensor) in calls.iter().zip(['a', 'b', 'c']) {
        assert_eq!(call.tensor, tensor);
        assert_eq!(call.op, ReduceOperation::Mean);
        assert_eq!(call.device_ids, vec![id(2), id(0), id(1)]);
    }
    let stores = BackendSyncOps::write_back(calls, vec![10, 20, 30]);
    assert_eq!(stores, vec![('a', 10), ('b', 20), ('c', 30)]);
}

#[test]
fn no_gradients_make_no_calls() {
    let calls = BackendSyncOps::all_reduce(Vec::<DeviceGradient<u8>>::new(), ReduceOperation::Sum);
    assert!(calls.is_empty());
    assert!(BackendSyncOps::write_back(calls, Vec::<u8>::new()).is_empty());
}

fn describe(steps: &[CollectiveStep]) -> Vec<String> {
    steps
        .iter()
        .map(|step| match step {
            CollectiveStep::PinStream(stream) => format!("pin {}", stream),
            CollectiveStep::AddToZeros => format!("copy"),
            CollectiveStep::AllReduce { op, device_ids } => {
                format!("reduce {:?} over {}", op, device_ids.len())
            }
            CollectiveStep::ResetClient => format!("reset"),
        })
        .collect()
}

#[test]
fn an_exclusive_contiguous_buffer_is_reduced_in_place() {
    let buffer = GradientBuffer { stream: 17, can_mut: true, is_contiguous: true };
    let steps = CubeBackend::all_reduce(&buffer, ReduceOperation::Sum, vec![id(0), id(1)]);
    assert_eq!(describe(&steps), vec!["pin 17", "reduce Sum over 2", "reset"]);
}

#[test]
fn any_other_buffer_is_copied_on_the_producing_stream() {
    for (can_mut, is_contiguous) in [(false, true), (true, false), (false, false)] {
        let buffer = GradientBuffer { stream: 5, can_mut, is_contiguous };
        let steps = CubeBackend::all_reduce(&buffer, ReduceOperation::Mean, vec![id(3)]);
        assert_eq!(describe(&steps), vec!["pin 5", "copy", "reduce Mean over 1", "reset"]);
    }
}
