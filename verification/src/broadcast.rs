//! What this library relies on of `tokio::sync::broadcast`: channels that hand
//! every message to each receiver.

use bytes::Bytes;
use tokio::sync::broadcast::{Receiver, Sender};
use vstd::prelude::*;

use crate::buf::{content, contents};

verus! {

/// [`tokio::sync::broadcast::Sender`], the sending half of a channel.
#[verifier::external_type_specification]
#[verifier::external_body]
#[verifier::reject_recursive_types(T)]
pub struct ExSender<T>(tokio::sync::broadcast::Sender<T>);

/// [`tokio::sync::broadcast::Receiver`], a receiving half of a channel.
#[verifier::external_type_specification]
#[verifier::external_body]
#[verifier::reject_recursive_types(T)]
pub struct ExReceiver<T>(tokio::sync::broadcast::Receiver<T>);

/// Whether what the sender sends goes to the receiver.
pub uninterp spec fn feeds(sender: Sender<Bytes>, receiver: Receiver<Bytes>) -> bool;

/// Whether what the sender sends goes to the receiver.
pub uninterp spec fn feeds_commands(
    sender: Sender<Vec<Bytes>>,
    receiver: Receiver<Vec<Bytes>>,
) -> bool;

/// The capacity that the channel of a sender was made with: a receiver may fall
/// at least that many messages behind before it misses some.
pub uninterp spec fn message_capacity(sender: Sender<Bytes>) -> nat;

/// The capacity that the channel of a sender was made with: a receiver may fall
/// at least that many commands behind before it misses some.
pub uninterp spec fn command_capacity(sender: Sender<Vec<Bytes>>) -> nat;

/// Whether `message` was sent through the channel of `sender`, and sending it gave
/// `outcome`: how many receivers there were at that moment, `None` for none. The
/// same message may be sent more than once, with different outcomes.
pub uninterp spec fn sent(
    sender: Sender<Bytes>,
    message: Seq<u8>,
    outcome: Option<usize>,
) -> bool;

/// Whether `command` was sent through the channel of `sender`, and sending it gave
/// `outcome`: how many receivers there were at that moment, `None` for none. The
/// same command may be sent more than once, with different outcomes.
pub uninterp spec fn sent_command(
    sender: Sender<Vec<Bytes>>,
    command: Seq<Seq<u8>>,
    outcome: Option<usize>,
) -> bool;

/// The number of receivers that a message reached, from what sending it gave.
pub open spec fn receivers(outcome: Option<usize>) -> usize {
    match outcome {
        Some(n) => n,
        None => 0,
    }
}

/// [`tokio::sync::broadcast::channel`]: the sender of a new channel of the given
/// capacity. It panics on a capacity of 0 and on one that cannot be allocated.
#[verifier::external_body]
pub(crate) fn open(capacity: usize) -> (sender: Sender<Bytes>)
    requires
        0 < capacity <= 4096,
    ensures
        message_capacity(sender) == capacity,
{
    tokio::sync::broadcast::channel(capacity).0
}

/// [`tokio::sync::broadcast::channel`]: the sender of a new channel of the given
/// capacity. It panics on a capacity of 0 and on one that cannot be allocated.
#[verifier::external_body]
pub(crate) fn open_commands(capacity: usize) -> (sender: Sender<Vec<Bytes>>)
    requires
        0 < capacity <= 4096,
    ensures
        command_capacity(sender) == capacity,
{
    tokio::sync::broadcast::channel(capacity).0
}

/// `Sender::subscribe`: a receiver on the channel of `sender`. Which messages
/// it will see depends on when they are sent and is left unsaid. It panics only
/// where a channel already has a quarter of `usize::MAX` receivers, more than
/// memory holds.
#[verifier::external_body]
pub(crate) fn subscribe(sender: &Sender<Bytes>) -> (receiver: Receiver<Bytes>)
    ensures
        feeds(*sender, receiver),
{
    sender.subscribe()
}

/// `Sender::subscribe`: a receiver on the channel of `sender`. Which commands it
/// will see depends on when they are sent and is left unsaid. It panics only
/// where a channel already has a quarter of `usize::MAX` receivers, more than
/// memory holds.
#[verifier::external_body]
pub(crate) fn subscribe_commands(sender: &Sender<Vec<Bytes>>) -> (receiver: Receiver<Vec<Bytes>>)
    ensures
        feeds_commands(*sender, receiver),
{
    sender.subscribe()
}

/// `Sender::send`: hands `message` to every receiver that there is at the
/// moment. Returns how many there are, which is up to the moment, or `None`
/// where there is none. Whether a receiver reads the message before it is
/// dropped or falls behind is left unsaid.
#[verifier::external_body]
pub(crate) fn send(sender: &Sender<Bytes>, message: Bytes) -> (outcome: Option<usize>)
    ensures
        sent(*sender, content(message), outcome),
        outcome matches Some(n) ==> n > 0,
{
    sender.send(message).ok()
}

/// `Sender::send`: hands `command` to every receiver that there is at the
/// moment. Returns how many there are, which is up to the moment, or `None`
/// where there is none. Whether a receiver reads the command before it is
/// dropped or falls behind is left unsaid.
#[verifier::external_body]
pub(crate) fn send_command(
    sender: &Sender<Vec<Bytes>>,
    command: Vec<Bytes>,
) -> (outcome: Option<usize>)
    ensures
        sent_command(*sender, contents(command@), outcome),
        outcome matches Some(n) ==> n > 0,
{
    sender.send(command).ok()
}

/// The number of receivers that a message reached, from what sending it gave.
pub fn reached(outcome: Option<usize>) -> (n: usize)
    ensures
        n == receivers(outcome),
{
    match outcome {
        Some(n) => n,
        None => 0,
    }
}

} // verus!
