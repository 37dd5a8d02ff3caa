use ddp_sync::channel::{deliver_all, CollectiveWait, Release};
use ddp_sync::types::{DeviceId, SyncDevice};

fn release(handle: u8) -> (Release<u8>, oneshot::Receiver<CollectiveWait<u8>>) {
    let (callback, receiver) = oneshot::channel();
    let device = SyncDevice { id: DeviceId { type_id: 0, index_id: handle as u16 }, handle };
    (Release { wait: CollectiveWait { device }, callback }, receiver)
}

#[test]
fn a_release_reaches_its_device() {
    let (release, receiver) = release(3);
    assert!(receiver.try_recv().is_err());
    assert!(release.deliver().is_ok());
    let wait = receiver.try_recv().unwrap();
    assert_eq!(wait.device.handle, 3);
    assert_eq!(wait.device.id, DeviceId { type_id: 0, index_id: 3 });
}

#[test]
fn a_release_comes_back_when_nobody_listens() {
    let (release, receiver) = release(4);
    drop(receiver);
    match release.deliver() {
        Ok(()) => panic!("nobody listens"),
        Err(wait) => assert_eq!(wait.device.handle, 4),
    }
}

#[test]
fn delivery_stops_at_the_first_failure() {
    let (first, first_receiver) = release(1);
    let (second, second_receiver) = release(2);
    let (third, third_receiver) = release(3);
    drop(second_receiver);
    match deliver_all(vec![first, second, third]) {
        Ok(()) => panic!("the second device does not listen"),
        Err(failure) => {
            assert_eq!(failure.place, 1);
            assert_eq!(failure.wait.device.handle, 2);
            assert_eq!(failure.unsent.len(), 1);
            assert_eq!(failure.unsent[0].wait.device.handle, 3);
            assert_eq!(first_receiver.try_recv().unwrap().device.handle, 1);
            assert!(third_receiver.try_recv().is_err());
            assert!(deliver_all(failure.unsent).is_ok());
            assert_eq!(third_receiver.try_recv().unwrap().device.handle, 3);
        }
    }
}

#[test]
fn nothing_to_deliver_is_no_failure() {
    assert!(deliver_all(Vec::<Release<u8>>::new()).is_ok());
}
