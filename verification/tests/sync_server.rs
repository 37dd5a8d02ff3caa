use std::collections::HashMap;

use ddp_sync::channel::{deliver_all, CollectiveWait};
use ddp_sync::model::{DistributedSyncMessage, SyncOutcome};
use ddp_sync::server::DistributedSyncServer;
use ddp_sync::types::{
    DeviceId, DistributedConfig, DistributedParamId, DistributedParams, ReduceOperation, SyncDevice,
};

const DEVICES: usize = 4;
const PARAMS: usize = 3;
const ROUNDS: usize = 3;

type Server = DistributedSyncServer<u16, usize>;
type Message = DistributedSyncMessage<u16, usize>;
type Receiver = oneshot::Receiver<CollectiveWait<u16>>;

fn config(op: ReduceOperation) -> DistributedConfig {
    DistributedConfig { all_reduce_op: op }
}

fn param(value: u64) -> DistributedParams {
    DistributedParams { param_id: DistributedParamId { value } }
}

fn register(params: &[u64]) -> Message {
    DistributedSyncMessage::RegisterSyncParameters(params.iter().map(|p| param(*p)).collect())
}

fn gradient(device: usize, value: u64) -> Message {
    DistributedSyncMessage::TensorSync((device, param(value)))
}

fn arrival(device: u16) -> (Message, Receiver) {
    let (sender, receiver) = oneshot::channel();
    let device = SyncDevice { id: DeviceId { type_id: 0, index_id: device }, handle: device };
    (DistributedSyncMessage::CollectiveSync((device, sender)), receiver)
}

/// Hands the message to the server, which must be able to handle it.
fn send(server: &mut Server, msg: Message) -> SyncOutcome<u16, usize> {
    assert!(server.can_process(&msg));
    server.process_message(msg)
}

/// The parameters and the gradients of the reductions.
fn reductions(outcome: &SyncOutcome<u16, usize>) -> Vec<(u64, Vec<usize>)> {
    outcome.reductions.iter().map(|r| (r.param_id.value, r.tensors.clone())).collect()
}

fn released(outcome: &SyncOutcome<u16, usize>) -> Vec<u16> {
    outcome.releases.iter().map(|r| r.wait.device.handle).collect()
}

/// Runs every device through every round. `pick` says which of the devices that can move takes
/// the next step: it is given those devices, and how many steps each device of all has taken in
/// its round. Returns the gradients of each reduction.
fn run_rounds(mut pick: impl FnMut(&[usize], &[usize]) -> usize) -> Vec<Vec<usize>> {
    let mut server = Server::new(DEVICES, config(ReduceOperation::Sum));
    let mut all_reduces: Vec<Vec<usize>> = Vec::new();
    // How many steps each device has taken in its round: the registration, a gradient for each
    // parameter, the arrival.
    let mut taken = vec![0usize; DEVICES];
    let mut rounds = vec![0usize; DEVICES];
    let mut receivers: Vec<Option<Receiver>> = (0..DEVICES).map(|_| None).collect();

    while rounds.iter().any(|r| *r < ROUNDS) {
        let ready: Vec<usize> = (0..DEVICES)
            .filter(|d| receivers[*d].is_none() && rounds[*d] < ROUNDS)
            .collect();
        assert!(!ready.is_empty(), "Every device should complete every round");
        let device = pick(&ready, &taken);

        let outcome = if taken[device] == 0 {
            let params: Vec<u64> = (0..PARAMS as u64).collect();
            send(&mut server, register(&params))
        } else if taken[device] <= PARAMS {
            let value = (taken[device] - 1) as u64;
            send(&mut server, gradient(device, value))
        } else {
            let (msg, receiver) = arrival(device as u16);
            receivers[device] = Some(receiver);
            send(&mut server, msg)
        };
        taken[device] += 1;

        for reduction in outcome.reductions.iter() {
            assert_eq!(reduction.op, ReduceOperation::Sum);
            all_reduces.push(reduction.tensors.clone());
        }
        if !outcome.releases.is_empty() {
            assert!(receivers.iter().all(|r| r.is_some()));
            assert!(rounds.iter().all(|r| *r == rounds[0]));
        }
        assert!(deliver_all(outcome.releases).is_ok());

        for d in 0..DEVICES {
            let wait = match &receivers[d] {
                Some(receiver) => receiver.try_recv().ok(),
                None => None,
            };
            if let Some(wait) = wait {
                assert_eq!(wait.device.handle, d as u16);
                receivers[d] = None;
                taken[d] = 0;
                rounds[d] += 1;
            }
        }
    }
    all_reduces
}

fn assert_covers_every_device(all_reduces: &[Vec<usize>]) {
    assert_eq!(all_reduces.len(), PARAMS * ROUNDS);

    for devices in all_reduces.iter() {
        let mut devices = devices.clone();
        devices.sort();
        assert_eq!(devices, (0..DEVICES).collect::<Vec<_>>());
    }
}

/// On every round, the gradients of all the devices are in before device 0 reaches the sync
/// point first, and the others one after another.
#[test]
fn sync_point_holds_every_device_until_all_arrive() {
    let all_reduces = run_rounds(|ready, taken| {
        match ready.iter().find(|device| taken[**device] <= PARAMS) {
            Some(device) => *device,
            None => ready[0],
        }
    });
    assert_covers_every_device(&all_reduces);
}

/// The same, with the steps before the sync point in turns.
#[test]
fn sync_point_holds_behind_gradients_that_come_in_turns() {
    let all_reduces = run_rounds(|ready, taken| {
        *ready.iter().min_by_key(|device| (taken[**device], **device)).unwrap()
    });
    assert_covers_every_device(&all_reduces);
}

/// On every round, device 0 is at the sync point before the others have registered.
#[test]
fn sync_point_holds_when_a_device_runs_ahead() {
    let all_reduces = run_rounds(|ready, _taken| ready[0]);
    assert_covers_every_device(&all_reduces);
}

#[test]
fn sync_point_holds_when_the_last_device_is_first() {
    let all_reduces = run_rounds(|ready, _taken| ready[ready.len() - 1]);
    assert_covers_every_device(&all_reduces);
}

#[test]
fn every_interleaving_completes_every_round() {
    for seed in 0..500u64 {
        let mut state = seed * 2654435761 + 1;
        let all_reduces = run_rounds(|ready, _taken| {
            state = state.wrapping_mul(6364136223846793005).wrapping_add(1442695040888963407);
            ready[(state >> 33) as usize % ready.len()]
        });
        assert_covers_every_device(&all_reduces);
    }
}

#[test]
fn nothing_is_reduced_before_every_device_has_registered() {
    let mut server = Server::new(2, config(ReduceOperation::Mean));
    send(&mut server, register(&[7]));
    let outcome = send(&mut server, gradient(0, 7));
    assert_eq!(reductions(&outcome), vec![]);

    send(&mut server, register(&[7]));
    let outcome = send(&mut server, gradient(1, 7));
    assert_eq!(reductions(&outcome), vec![(7, vec![0, 1])]);
    assert_eq!(outcome.reductions[0].op, ReduceOperation::Mean);
    assert_eq!(released(&outcome), vec![]);
}

#[test]
fn a_parameter_is_reduced_once_all_its_gradients_are_in() {
    let mut server = Server::new(2, config(ReduceOperation::Sum));
    send(&mut server, register(&[1, 2, 1]));
    send(&mut server, register(&[1]));
    assert_eq!(reductions(&send(&mut server, gradient(10, 1))), vec![]);
    assert_eq!(reductions(&send(&mut server, gradient(20, 1))), vec![]);
    assert_eq!(reductions(&send(&mut server, gradient(30, 1))), vec![(1, vec![10, 20, 30])]);
    assert_eq!(reductions(&send(&mut server, gradient(40, 2))), vec![(2, vec![40])]);
}

#[test]
fn devices_are_released_in_order_of_arrival_on_their_own_channels() {
    let mut server = Server::new(2, config(ReduceOperation::Sum));
    send(&mut server, register(&[1]));
    send(&mut server, register(&[1]));
    send(&mut server, gradient(0, 1));
    send(&mut server, gradient(1, 1));

    let (first, first_receiver) = arrival(1);
    let outcome = send(&mut server, first);
    assert_eq!(released(&outcome), vec![]);
    let (second, second_receiver) = arrival(0);
    let outcome = send(&mut server, second);
    assert_eq!(released(&outcome), vec![1, 0]);
    assert!(first_receiver.try_recv().is_err());

    assert!(deliver_all(outcome.releases).is_ok());
    assert_eq!(first_receiver.try_recv().unwrap().device.handle, 1);
    assert_eq!(second_receiver.try_recv().unwrap().device.handle, 0);
}

#[test]
fn devices_wait_while_a_gradient_is_due() {
    let mut server = Server::new(1, config(ReduceOperation::Sum));
    send(&mut server, register(&[1, 2]));
    assert_eq!(reductions(&send(&mut server, gradient(0, 1))), vec![(1, vec![0])]);
    let (msg, _receiver) = arrival(0);
    assert_eq!(released(&send(&mut server, msg)), vec![]);

    let outcome = send(&mut server, gradient(5, 2));
    assert_eq!(reductions(&outcome), vec![(2, vec![5])]);
    assert_eq!(released(&outcome), vec![0]);
}

#[test]
fn devices_without_gradients_are_released_together() {
    let mut server = Server::new(2, config(ReduceOperation::Sum));
    send(&mut server, register(&[]));
    send(&mut server, register(&[]));
    let (first, _first_receiver) = arrival(0);
    assert_eq!(released(&send(&mut server, first)), vec![]);
    let (second, _second_receiver) = arrival(1);
    assert_eq!(released(&send(&mut server, second)), vec![0, 1]);
}

/// A device that announces nothing and registers last leaves the gradients of the others
/// waiting: only a gradient launches reductions.
#[test]
fn an_empty_announcement_behind_every_gradient_launches_nothing() {
    let mut server = Server::new(2, config(ReduceOperation::Sum));
    send(&mut server, register(&[1]));
    send(&mut server, gradient(0, 1));
    let (first, _first_receiver) = arrival(0);
    send(&mut server, first);
    send(&mut server, register(&[]));
    let (second, _second_receiver) = arrival(1);
    assert_eq!(released(&send(&mut server, second)), vec![]);
}

#[test]
fn excess_registration_blocks_the_reductions() {
    let mut server = Server::new(1, config(ReduceOperation::Sum));
    send(&mut server, register(&[1]));
    send(&mut server, register(&[1]));
    assert_eq!(reductions(&send(&mut server, gradient(0, 1))), vec![]);
    assert_eq!(reductions(&send(&mut server, gradient(1, 1))), vec![]);
}

#[test]
fn a_round_starts_from_scratch_after_a_release() {
    let mut server = Server::new(1, config(ReduceOperation::Sum));
    for round in 0..3 {
        send(&mut server, register(&[4]));
        assert_eq!(reductions(&send(&mut server, gradient(round, 4))), vec![(4, vec![round])]);
        let (msg, receiver) = arrival(0);
        let outcome = send(&mut server, msg);
        assert_eq!(released(&outcome), vec![0]);
        assert!(deliver_all(outcome.releases).is_ok());
        assert!(receiver.try_recv().is_ok());
    }
}

#[test]
fn a_gradient_that_nobody_announced_waits() {
    let mut server = Server::new(1, config(ReduceOperation::Sum));
    send(&mut server, register(&[1]));
    assert_eq!(reductions(&send(&mut server, gradient(0, 9))), vec![]);
    assert_eq!(reductions(&send(&mut server, gradient(1, 1))), vec![(1, vec![1])]);
    let (msg, _receiver) = arrival(0);
    assert_eq!(released(&send(&mut server, msg)), vec![]);
}

#[test]
fn visits_in_a_given_order() {
    // One device, two parameters, both gradients in and the device at the sync point before the
    // second gradient: the order of the visits is the order of the reductions.
    for order in [vec![1u64, 2], vec![2u64, 1]] {
        let mut server = Server::new(2, config(ReduceOperation::Sum));
        send(&mut server, register(&[1, 2]));
        send(&mut server, gradient(0, 1));
        send(&mut server, gradient(0, 2));
        let (first, _first_receiver) = arrival(0);
        send(&mut server, first);
        send(&mut server, register(&[]));
        let (second, _second_receiver) = arrival(1);
        assert_eq!(released(&send(&mut server, second)), vec![]);

        let outcome = server.launch_in_order(&order);
        let visited: Vec<u64> = reductions(&outcome).iter().map(|r| r.0).collect();
        assert_eq!(visited, order);
        assert_eq!(released(&outcome), vec![0, 1]);
    }
}

#[test]
fn the_order_decides_whether_a_round_closes_over_a_missing_gradient() {
    for (order, closes) in [(vec![1u64, 2], true), (vec![2u64, 1], false)] {
        let mut server = Server::new(2, config(ReduceOperation::Sum));
        send(&mut server, register(&[1]));
        send(&mut server, gradient(0, 1));
        let (first, _first_receiver) = arrival(0);
        send(&mut server, first);
        send(&mut server, register(&[2]));
        let (second, _second_receiver) = arrival(1);
        send(&mut server, second);

        let outcome = server.launch_in_order(&order);
        assert_eq!(reductions(&outcome), vec![(1, vec![0])]);
        assert_eq!(released(&outcome), if closes { vec![0, 1] } else { vec![] });
    }
}

#[test]
fn a_device_twice_at_the_sync_point_cannot_be_released() {
    let mut server = Server::new(2, config(ReduceOperation::Sum));
    let (first, _first_receiver) = arrival(0);
    send(&mut server, first);
    let (again, _again_receiver) = arrival(0);
    assert!(!server.can_process(&again));
    let (other, _other_receiver) = arrival(1);
    assert!(server.can_process(&other));
}

#[test]
fn a_device_twice_at_the_sync_point_is_held_while_a_gradient_is_due() {
    let mut server = Server::new(2, config(ReduceOperation::Sum));
    send(&mut server, register(&[1]));
    send(&mut server, gradient(0, 1));
    let (first, _first_receiver) = arrival(0);
    send(&mut server, first);
    let (again, _again_receiver) = arrival(0);
    assert_eq!(released(&send(&mut server, again)), vec![]);
    send(&mut server, register(&[1]));
    assert!(!server.can_process(&gradient(1, 1)));
    assert!(server.can_process(&gradient(1, 2)));
}

#[test]
fn an_order_that_does_not_close_the_round_holds_a_device_that_came_twice() {
    let mut server = Server::new(2, config(ReduceOperation::Sum));
    send(&mut server, register(&[1]));
    send(&mut server, gradient(0, 1));
    let (first, first_receiver) = arrival(0);
    send(&mut server, first);
    send(&mut server, register(&[2]));
    let (again, again_receiver) = arrival(0);
    send(&mut server, again);

    let outcome = server.launch_in_order(&vec![2, 1]);
    assert_eq!(reductions(&outcome), vec![(1, vec![0])]);
    assert_eq!(released(&outcome), vec![]);
    assert!(first_receiver.try_recv().is_err());
    assert!(again_receiver.try_recv().is_err());
}

#[test]
fn device_keys_are_distinct() {
    let mut seen: HashMap<u32, DeviceId> = HashMap::new();
    for type_id in [0u16, 1, 2, 65535] {
        for index_id in [0u16, 1, 2, 65535] {
            let id = DeviceId { type_id, index_id };
            assert_eq!(seen.insert(id.key(), id), None);
        }
    }
    assert_eq!(DeviceId { type_id: 2, index_id: 3 }.key(), 131075);
}
