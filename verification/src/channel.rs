//! The channel end on which a device waits to be released from the sync point.

use crate::types::SyncDevice;
use vstd::prelude::*;

verus! {

/// The sending end of a `oneshot` channel, which the server carries without looking inside.
#[verifier::external_type_specification]
#[verifier::external_body]
#[verifier::reject_recursive_types(T)]
pub struct ExSender<T>(oneshot::Sender<T>);

/// What a released device has still to do: wait for its collective operations to complete.
#[derive(Debug)]
pub struct CollectiveWait<D> {
    pub device: SyncDevice<D>,
}

/// A device that may leave the sync point, with the channel on which it is waiting to hear so.
#[verifier::reject_recursive_types(D)]
pub struct Release<D> {
    pub wait: CollectiveWait<D>,
    pub callback: oneshot::Sender<CollectiveWait<D>>,
}

/// Calls `oneshot::Sender::send`, and `oneshot::SendError::into_inner` on its error.
///
/// Claimed of them: a message that could not be sent comes back unchanged. Whether the message
/// is sent depends on whether the receiver is still there, so nothing is claimed of that.
#[verifier::external_body]
fn send_message<T>(sender: oneshot::Sender<T>, message: T) -> (result: Result<(), T>)
    ensures
        result matches Err(returned) ==> returned == message,
{
    sender.send(message).map_err(|error| error.into_inner())
}

/// `result` is a result of sending `message` on the channel of `sender`. Which result it is
/// depends on the receiver, so this is known only of what a call of the sender has returned.
pub closed spec fn sent<T>(
    sender: oneshot::Sender<T>,
    message: T,
    result: Result<(), T>,
) -> bool {
    call_ensures(send_message::<T>, (sender, message), result)
}

/// What is sent is a result of a call of the sender, with the same channel and message.
proof fn law_sent_by_a_call<T>(sender: oneshot::Sender<T>, message: T, result: Result<(), T>)
    ensures
        sent(sender, message, result) ==> call_ensures(
            send_message::<T>,
            (sender, message),
            result,
        ),
{
}

impl<D> Release<D> {
    /// Hands the device its wait over its own channel. Fails, giving the wait back, when the
    /// device no longer listens.
    pub fn deliver(self) -> (result: Result<(), CollectiveWait<D>>)
        ensures
            sent(self.callback, self.wait, result),
            result matches Err(wait) ==> wait == self.wait,
    {
        send_message(self.callback, self.wait)
    }
}

/// Each of the first `count` releases was sent, with its own wait on its own channel.
pub open spec fn all_sent<D>(releases: Seq<Release<D>>, count: int) -> bool {
    forall|i: int|
        0 <= i < count ==> sent((#[trigger] releases[i]).callback, releases[i].wait, Ok(()))
}

/// A delivery that came to nothing.
#[verifier::reject_recursive_types(D)]
pub struct DeliveryFailure<D> {
    /// The place of the release that failed.
    pub place: usize,
    /// The wait that its device did not get.
    pub wait: CollectiveWait<D>,
    /// The releases behind it, which were not sent.
    pub unsent: Vec<Release<D>>,
}

/// Delivers the releases in order. Stops at the first one that fails, and gives back the
/// releases behind it, unsent.
pub fn deliver_all<D>(releases: Vec<Release<D>>) -> (result: Result<(), DeliveryFailure<D>>)
    ensures
        result is Ok ==> all_sent(releases@, releases@.len() as int),
        result is Ok ==> forall|i: int|
            0 <= i < releases@.len() ==> sent(
                (#[trigger] releases@[i]).callback,
                releases@[i].wait,
                Ok(()),
            ),
        result matches Err(failure) ==> {
            &&& failure.place < releases@.len()
            &&& all_sent(releases@, failure.place as int)
            &&& forall|i: int|
                0 <= i < failure.place ==> sent(
                    (#[trigger] releases@[i]).callback,
                    releases@[i].wait,
                    Ok(()),
                )
            &&& sent(
                releases@[failure.place as int].callback,
                releases@[failure.place as int].wait,
                Err(failure.wait),
            )
            &&& failure.wait == releases@[failure.place as int].wait
            &&& failure.unsent@ == releases@.skip(failure.place + 1)
        },
        releases@.len() == 0 ==> result is Ok,
{
    let ghost all = releases@;
    let count = releases.len();
    let mut unsent = releases;
    let mut delivered: usize = 0;
    while delivered < count
        invariant
            all == releases@,
            delivered <= count,
            all.len() == count,
            unsent@ == all.skip(delivered as int),
            all_sent(all, delivered as int),
        decreases count - delivered,
    {
        let release = unsent.remove(0);
        assert(release == all[delivered as int]);
        assert(unsent@ =~= all.skip(delivered + 1));
        match release.deliver() {
            Ok(done) => {
                assert(sent(release.callback, release.wait, Ok(done)));
                delivered = delivered + 1;
            },
            Err(wait) => {
                return Err(DeliveryFailure { place: delivered, wait, unsent });
            },
        }
    }
    Ok(())
}

} // verus!
