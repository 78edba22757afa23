//! Message passing: producers, one consumer, back-pressure on bounded
//! channels and closing when one side is gone.
//!
//! The queues are those of `std::sync::mpsc`. Whether a message can be
//! delivered depends on the other side of the channel, which may live in
//! another thread, so the library states what holds of every outcome: a
//! message that cannot be sent is handed back unchanged.

use vstd::prelude::*;

use std::sync::mpsc::{channel, sync_channel, Receiver, RecvError, Sender, SyncSender, TrySendError};

verus! {

#[verifier::external_type_specification]
#[verifier::external_body]
#[verifier::reject_recursive_types(T)]
pub struct ExSender<T>(Sender<T>);

#[verifier::external_type_specification]
#[verifier::external_body]
#[verifier::reject_recursive_types(T)]
pub struct ExSyncSender<T>(SyncSender<T>);

#[verifier::external_type_specification]
#[verifier::external_body]
#[verifier::reject_recursive_types(T)]
pub struct ExReceiver<T>(Receiver<T>);

#[verifier::external_type_specification]
#[verifier::external_body]
pub struct ExRecvError(RecvError);

/// Error of a send after the consumer has gone.
#[derive(Debug, Clone, PartialEq, Eq)]
pub enum SendFailure<T> {
    /// The consumer no longer exists; the message is handed back.
    Closed(T),
}

/// Error of a blocking receive.
#[derive(Debug, Clone, Copy, PartialEq, Eq, Structural)]
pub enum ChannelReceiveError {
    /// Every producer has gone and no message is left.
    Closed,
}

impl From<RecvError> for ChannelReceiveError {
    /// A failed blocking receive means that every producer has gone.
    fn from(error: RecvError) -> (e: Self) {
        ChannelReceiveError::Closed
    }
}

impl vstd::std_specs::convert::FromSpecImpl<RecvError> for ChannelReceiveError {
    open spec fn obeys_from_spec() -> bool {
        true
    }

    open spec fn from_spec(v: RecvError) -> Self {
        ChannelReceiveError::Closed
    }
}

/// Error of a non-blocking send on a bounded channel.
#[derive(Debug, Clone, PartialEq, Eq)]
pub enum TrySendFailure<T> {
    /// The channel is full; the message is handed back.
    Full(T),
    /// The consumer no longer exists; the message is handed back.
    Closed(T),
}

/// The message handed back by a failed send, if any.
pub open spec fn returned_message<T>(r: Result<(), SendFailure<T>>) -> Option<T> {
    match r {
        Ok(()) => None,
        Err(SendFailure::Closed(v)) => Some(v),
    }
}

/// The message handed back by a failed non-blocking send, if any.
pub open spec fn returned_try_message<T>(r: Result<(), TrySendFailure<T>>) -> Option<T> {
    match r {
        Ok(()) => None,
        Err(TrySendFailure::Full(v)) => Some(v),
        Err(TrySendFailure::Closed(v)) => Some(v),
    }
}

/// Creates an unbounded channel (`mpsc::channel`).
#[verifier::external_body]
fn std_channel<T>() -> (pair: (Sender<T>, Receiver<T>)) {
    channel()
}

/// Creates a channel holding at most `capacity` messages
/// (`mpsc::sync_channel`).
#[verifier::external_body]
fn std_sync_channel<T>(capacity: usize) -> (pair: (SyncSender<T>, Receiver<T>)) {
    sync_channel(capacity)
}

/// Sends on an unbounded channel (`Sender::send`); a failed send hands the
/// message back.
#[verifier::external_body]
fn sender_send<T>(sender: &Sender<T>, value: T) -> (r: Result<(), SendFailure<T>>)
    ensures
        r is Err ==> returned_message(r) == Some(value),
{
    match sender.send(value) {
        Ok(()) => Ok(()),
        Err(error) => Err(SendFailure::Closed(error.0)),
    }
}

/// Another sender of the same channel (`Sender::clone`).
#[verifier::external_body]
fn sender_clone<T>(sender: &Sender<T>) -> (s: Sender<T>) {
    sender.clone()
}

/// Sends on a bounded channel without waiting (`SyncSender::try_send`); a
/// failed send hands the message back.
#[verifier::external_body]
fn sync_sender_try_send<T>(sender: &SyncSender<T>, value: T) -> (r: Result<(), TrySendFailure<T>>)
    ensures
        r is Err ==> returned_try_message(r) == Some(value),
{
    match sender.try_send(value) {
        Ok(()) => Ok(()),
        Err(TrySendError::Full(value)) => Err(TrySendFailure::Full(value)),
        Err(TrySendError::Disconnected(value)) => Err(TrySendFailure::Closed(value)),
    }
}

/// Another sender of the same bounded channel (`SyncSender::clone`).
#[verifier::external_body]
fn sync_sender_clone<T>(sender: &SyncSender<T>) -> (s: SyncSender<T>) {
    sender.clone()
}

/// Producer of an unbounded channel.
#[verifier::reject_recursive_types(T)]
pub struct Producer<T> {
    sender: Sender<T>,
}

impl<T> Clone for Producer<T> {
    fn clone(&self) -> (p: Self) {
        Producer { sender: sender_clone(&self.sender) }
    }
}

impl<T> Producer<T> {
    /// Sends a message to the consumer. Never waits for room; fails when
    /// the consumer has gone, handing the message back.
    pub fn send(&self, value: T) -> (r: Result<(), SendFailure<T>>)
        ensures
            r is Err ==> returned_message(r) == Some(value),
    {
        sender_send(&self.sender, value)
    }
}

/// Consumer of an unbounded channel.
#[verifier::reject_recursive_types(T)]
pub struct Consumer<T> {
    receiver: Receiver<T>,
}

impl<T> Consumer<T> {
    /// The standard receiver inside, on which a blocking receive is made.
    /// Waiting for a message depends on the producers and never ends while
    /// the channel is empty and a producer is alive, so the caller makes the
    /// receive and hands its outcome to `finish_recv`.
    pub fn std_receiver(&self) -> (r: &Receiver<T>)
        ensures
            *r == self.receiver_cell(),
    {
        &self.receiver
    }

    /// The standard receiver inside.
    pub closed spec fn receiver_cell(&self) -> Receiver<T> {
        self.receiver
    }
}

/// The outcome of a blocking receive (`Receiver::recv`) in the library's
/// terms: the message, or `Closed` once every producer has gone and no
/// message is left.
pub fn finish_recv<T>(outcome: Result<T, RecvError>) -> (r: Result<T, ChannelReceiveError>)
    ensures
        outcome matches Ok(v) ==> r == Ok::<T, ChannelReceiveError>(v),
        outcome is Err ==> r == Err::<T, ChannelReceiveError>(ChannelReceiveError::Closed),
{
    match outcome {
        Ok(value) => Ok(value),
        Err(_) => Err(ChannelReceiveError::Closed),
    }
}

/// Creates an unbounded channel with many producers and one consumer.
pub fn unbounded_channel<T>() -> (pair: (Producer<T>, Consumer<T>)) {
    let (sender, receiver) = std_channel();
    (Producer { sender }, Consumer { receiver })
}

/// Producer of a bounded channel.
#[verifier::reject_recursive_types(T)]
pub struct BoundedProducer<T> {
    sender: SyncSender<T>,
}

impl<T> Clone for BoundedProducer<T> {
    fn clone(&self) -> (p: Self) {
        BoundedProducer { sender: sync_sender_clone(&self.sender) }
    }
}

impl<T> BoundedProducer<T> {
    /// The standard sender inside, on which a blocking send is made.
    /// Waiting for room depends on the consumer and never ends while the
    /// channel is full and nothing receives, so the caller makes the send.
    pub fn std_sender(&self) -> (s: &SyncSender<T>)
        ensures
            *s == self.sender_cell(),
    {
        &self.sender
    }

    /// The standard sender inside.
    pub closed spec fn sender_cell(&self) -> SyncSender<T> {
        self.sender
    }

    /// Tries to send without waiting; a full channel or a consumer that has
    /// gone hands the message back.
    pub fn try_send(&self, value: T) -> (r: Result<(), TrySendFailure<T>>)
        ensures
            r is Err ==> returned_try_message(r) == Some(value),
    {
        sync_sender_try_send(&self.sender, value)
    }
}

/// Consumer of a bounded channel.
#[verifier::reject_recursive_types(T)]
pub struct BoundedConsumer<T> {
    receiver: Receiver<T>,
}

impl<T> BoundedConsumer<T> {
    /// The standard receiver inside, on which a blocking receive is made
    /// and handed to `finish_recv`.
    pub fn std_receiver(&self) -> (r: &Receiver<T>)
        ensures
            *r == self.receiver_cell(),
    {
        &self.receiver
    }

    /// The standard receiver inside.
    pub closed spec fn receiver_cell(&self) -> Receiver<T> {
        self.receiver
    }
}

/// Creates a channel that holds at most `capacity` messages; capacity zero
/// makes every send a rendezvous with a receive.
pub fn bounded_channel<T>(capacity: usize) -> (pair: (BoundedProducer<T>, BoundedConsumer<T>)) {
    let (sender, receiver) = std_sync_channel(capacity);
    (BoundedProducer { sender }, BoundedConsumer { receiver })
}

} // verus!
