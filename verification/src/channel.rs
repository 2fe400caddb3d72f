//! The two ends of a job channel, each carrying the identity of the channel it
//! belongs to; the sending end also keeps the jobs that were handed to it.
use vstd::prelude::*;
use std::sync::mpsc::{Receiver, SendError, Sender};

verus! {

#[verifier::external_type_specification]
#[verifier::external_body]
#[verifier::reject_recursive_types(T)]
pub struct ExSender<T>(Sender<T>);

#[verifier::external_type_specification]
#[verifier::external_body]
#[verifier::reject_recursive_types(T)]
pub struct ExReceiver<T>(Receiver<T>);

#[verifier::external_type_specification]
#[verifier::external_body]
#[verifier::reject_recursive_types(T)]
pub struct ExSendError<T>(SendError<T>);

/// The sending end of a channel.
#[verifier::reject_recursive_types(T)]
pub struct Outbox<T> {
    sender: Sender<T>,
    channel: Ghost<int>,
    sent: Ghost<Seq<T>>,
}

/// The receiving end of a channel.
#[verifier::reject_recursive_types(T)]
pub struct Inbox<T> {
    receiver: Receiver<T>,
    channel: Ghost<int>,
}

impl<T> Outbox<T> {
    /// The channel this end sends on.
    pub closed spec fn channel(&self) -> int {
        self.channel@
    }

    /// The jobs handed to this end so far, oldest first.
    pub closed spec fn sent(&self) -> Seq<T> {
        self.sent@
    }
}

impl<T> Inbox<T> {
    /// The channel this end receives from.
    pub closed spec fn channel(&self) -> int {
        self.channel@
    }

    /// The receiving end itself.
    pub fn receiver(&self) -> &Receiver<T> {
        &self.receiver
    }

    /// Gives up the channel identity and keeps the receiving end.
    pub fn into_receiver(self) -> Receiver<T> {
        self.receiver
    }
}

/// Calls `std::sync::mpsc::channel`. Claims that the two ends it hands back
/// belong to one channel, and that nothing has been sent on the new sending
/// end. Nothing is said of how this channel relates to others.
#[verifier::external_body]
pub(crate) fn open_channel<T>() -> (r: (Outbox<T>, Inbox<T>))
    ensures
        r.0.channel() == r.1.channel(),
        r.0.sent() == Seq::<T>::empty(),
{
    let (tx, rx) = std::sync::mpsc::channel();
    (
        Outbox { sender: tx, channel: Ghost(arbitrary()), sent: Ghost(Seq::empty()) },
        Inbox { receiver: rx, channel: Ghost(arbitrary()) },
    )
}

/// Calls `Sender::send` with `job`. Claims that the job is recorded as handed
/// to this end, whatever the call returns. Whether it returns `Ok` depends on
/// the receiving end, and is not stated; nor is it stated that an `Err` holds
/// the job.
#[verifier::external_body]
pub(crate) fn send_on<T>(outbox: &mut Outbox<T>, job: T) -> (r: Result<(), SendError<T>>)
    ensures
        final(outbox).channel() == old(outbox).channel(),
        final(outbox).sent() == old(outbox).sent().push(job),
{
    outbox.sender.send(job)
}

/// Calls `Sender::clone`. Claims that the new end sends on the same channel
/// and that nothing has been handed to it yet.
#[verifier::external_body]
pub(crate) fn clone_outbox<T>(outbox: &Outbox<T>) -> (r: Outbox<T>)
    ensures
        r.channel() == outbox.channel(),
        r.sent() == Seq::<T>::empty(),
{
    Outbox { sender: outbox.sender.clone(), channel: Ghost(outbox.channel@), sent: Ghost(Seq::empty()) }
}

} // verus!
