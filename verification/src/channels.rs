//! The bounded channels between the tasks of a worker.

use tokio::sync::mpsc::error::TrySendError;
use tokio::sync::mpsc::{Receiver, Sender};
use vstd::prelude::*;
use crate::control::{BatchMakerControl, ControlView};

verus! {

/// The receiving half of a channel.
#[verifier::external_type_specification]
#[verifier::external_body]
#[verifier::reject_recursive_types(T)]
pub struct ExReceiver<T>(tokio::sync::mpsc::Receiver<T>);

/// The sending half of a channel.
#[verifier::external_type_specification]
#[verifier::external_body]
#[verifier::reject_recursive_types(T)]
pub struct ExSender<T>(tokio::sync::mpsc::Sender<T>);

/// What became of a message that was to be sent without waiting.
pub enum Delivery {
    Sent,
    /// The channel has no room; the message comes back.
    Full(BatchMakerControl),
    /// Nobody receives any more; the message comes back.
    Closed(BatchMakerControl),
}

/// For each attempt so far to take a message out of a channel by its receiving half: the message, or
/// `None` where there was none.
pub uninterp spec fn taken_from(rx: Receiver<BatchMakerControl>) -> Seq<Option<ControlView>>;

/// Calls `Receiver::try_recv` of tokio: takes the next message out of the channel, if one has
/// arrived. Claims that this is one attempt more, and that a message that was taken out is the
/// one that is given. What arrives, and when, is up to the sending tasks.
#[verifier::external_body]
pub(crate) fn try_receive(rx: &mut Receiver<BatchMakerControl>) -> (arrival: Option<
    BatchMakerControl,
>)
    ensures
        taken_from(*final(rx)) == taken_from(*old(rx)).push(
            match arrival {
                Some(control) => Some(control@),
                None => None,
            },
        ),
{
    rx.try_recv().ok()
}

/// The messages that a sending half has put into its channel so far, in the order in which it did.
/// What the receiving task has taken out again makes no difference to them.
pub uninterp spec fn sent_through(tx: Sender<BatchMakerControl>) -> Seq<ControlView>;

/// A message that could not be put into a channel.
pub enum Refusal {
    /// The channel had no room for it.
    Full(ControlView),
    /// Nobody received any more.
    Closed(ControlView),
}

/// The messages that a sending half has tried in vain to put into its channel so far, in the order
/// in which it did.
pub uninterp spec fn refused_by(tx: Sender<BatchMakerControl>) -> Seq<Refusal>;

/// Calls `Sender::try_send` of tokio: puts a message into the channel without waiting. Claims that a
/// message that is sent follows on those that were sent before, and one that is refused on those
/// that were refused before, and that a refused one comes back as it was, with nothing else put
/// into the channel. Which of the three happens is up to the receiving task.
#[verifier::external_body]
pub(crate) fn try_deliver(tx: &mut Sender<BatchMakerControl>, control: BatchMakerControl) -> (delivery:
    Delivery)
    ensures
        sent_through(*final(tx)) == if delivery is Sent {
            sent_through(*old(tx)).push(control@)
        } else {
            sent_through(*old(tx))
        },
        refused_by(*final(tx)) == match delivery {
            Delivery::Sent => refused_by(*old(tx)),
            Delivery::Full(_) => refused_by(*old(tx)).push(Refusal::Full(control@)),
            Delivery::Closed(_) => refused_by(*old(tx)).push(Refusal::Closed(control@)),
        },
        delivery matches Delivery::Full(message) ==> message == control,
        delivery matches Delivery::Closed(message) ==> message == control,
{
    match tx.try_send(control) {
        Ok(()) => Delivery::Sent,
        Err(TrySendError::Full(message)) => Delivery::Full(message),
        Err(TrySendError::Closed(message)) => Delivery::Closed(message),
    }
}

} // verus!
