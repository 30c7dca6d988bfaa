//! The stream of write commands from a primary to its replicas.

use bytes::Bytes;
use tokio::sync::broadcast::{Receiver, Sender};
use vstd::prelude::*;

use crate::broadcast::{
    command_capacity, feeds_commands, open_commands, send_command, sent_command, subscribe_commands,
};
use crate::buf::contents;
use crate::commands::copy_from;

verus! {

/// How many pending commands a replica can lag behind before it starts missing
/// them. Bounded so that a stalled replica cannot grow memory without limit.
pub const COMMAND_CAPACITY: usize = 4096;

/// Fans out every write command to any number of replicas. One channel is
/// enough: there is only one stream, and a replica that falls behind starts
/// over.
pub struct ReplicationHub {
    sender: Sender<Vec<Bytes>>,
}

impl ReplicationHub {
    /// The sending half of the stream.
    pub closed spec fn view(&self) -> Sender<Vec<Bytes>> {
        self.sender
    }

    /// A hub without replicas.
    pub fn new() -> (hub: Self)
        ensures
            command_capacity(hub@) == COMMAND_CAPACITY,
    {
        Self { sender: open_commands(COMMAND_CAPACITY) }
    }

    /// What is sent where for the command with the arguments `args`: a copy of
    /// them, over the stream.
    pub fn delivery(&self, args: &[Bytes]) -> (delivery: (&Sender<Vec<Bytes>>, Vec<Bytes>))
        ensures
            *delivery.0 == self@,
            contents(delivery.1@) == contents(args@),
    {
        assert(contents(args@).skip(0) =~= contents(args@));
        (&self.sender, copy_from(args, 0))
    }

    /// Sends the line of a write command to every replica that there is at the
    /// moment.
    pub fn publish(&self, args: &[Bytes])
        ensures
            exists|outcome: Option<usize>| #[trigger]
                sent_command(self@, contents(args@), outcome),
    {
        let (sender, command) = self.delivery(args);
        send_command(sender, command);
    }

    /// A receiver on the stream.
    pub fn subscribe(&self) -> (receiver: Receiver<Vec<Bytes>>)
        ensures
            feeds_commands(self@, receiver),
    {
        subscribe_commands(&self.sender)
    }
}

impl Default for ReplicationHub {
    fn default() -> (hub: Self)
        ensures
            command_capacity(hub@) == COMMAND_CAPACITY,
    {
        Self::new()
    }
}

} // verus!
