//! Channels by name, for messages between the clients of this node.

use bytes::Bytes;
use tokio::sync::broadcast::{Receiver, Sender};
use vstd::prelude::*;

use crate::broadcast::{
    feeds, message_capacity, open, reached, receivers, send, sent, subscribe,
};
use crate::buf::content;
use crate::bytemap::ByteMap;

verus! {

/// How many pending messages a subscriber can lag behind before it starts
/// missing them. Bounded so that a slow subscriber cannot grow memory without
/// limit.
pub const CHANNEL_CAPACITY: usize = 128;

/// Whether publishing `message` to `channel` sends it there and finds the given
/// number of subscribers: nothing is sent, and there are none, where nobody has
/// ever subscribed.
pub open spec fn published(
    channels: Map<Seq<u8>, Sender<Bytes>>,
    channel: Seq<u8>,
    message: Seq<u8>,
    subscribers: usize,
) -> bool {
    if channels.contains_key(channel) {
        exists|outcome: Option<usize>| #[trigger]
            sent(channels[channel], message, outcome) && subscribers == receivers(outcome)
    } else {
        subscribers == 0
    }
}

/// The channels that there are, by name.
pub struct PubSub {
    channels: ByteMap<Sender<Bytes>>,
}

impl PubSub {
    /// The sending half of each channel.
    pub closed spec fn view(&self) -> Map<Seq<u8>, Sender<Bytes>> {
        self.channels@
    }

    /// The invariant of the map, and that every channel has the same capacity.
    pub closed spec fn wf(&self) -> bool {
        &&& self.channels.wf()
        &&& forall|name: Seq<u8>| #[trigger]
            self@.contains_key(name) ==> message_capacity(self@[name]) == CHANNEL_CAPACITY
    }

    /// Every channel has the same capacity.
    pub proof fn law_channels_have_one_capacity(&self, name: Seq<u8>)
        requires
            self.wf(),
            self@.contains_key(name),
        ensures
            message_capacity(self@[name]) == CHANNEL_CAPACITY,
    {
    }

    /// No channels.
    pub fn new() -> (pubsub: Self)
        ensures
            pubsub.wf(),
            pubsub@ == Map::<Seq<u8>, Sender<Bytes>>::empty(),
    {
        Self { channels: ByteMap::new() }
    }

    /// Subscribes to `channel`, which comes into being with its first
    /// subscriber and stays the same from there on.
    pub fn subscribe(&mut self, channel: Bytes) -> (receiver: Receiver<Bytes>)
        requires
            old(self).wf(),
        ensures
            final(self).wf(),
            final(self)@.contains_key(content(channel)),
            feeds(final(self)@[content(channel)], receiver),
            old(self)@.contains_key(content(channel)) ==> final(self)@ == old(self)@,
            final(self)@.remove(content(channel)) == old(self)@.remove(content(channel)),
    {
        let ghost k = content(channel);
        if let Some(sender) = self.channels.get(&channel) {
            return subscribe(sender);
        }
        let sender = open(CHANNEL_CAPACITY);
        let receiver = subscribe(&sender);
        self.channels.insert(channel, sender);
        assert(self@.remove(k) =~= old(self)@.remove(k));
        receiver
    }

    /// What is sent where when `message` is published to `channel`: nothing where
    /// nobody has ever subscribed.
    pub fn delivery(&self, channel: &[u8], message: Bytes) -> (delivery: Option<
        (&Sender<Bytes>, Bytes),
    >)
        requires
            self.wf(),
        ensures
            match delivery {
                Some((sender, sent)) => self@.contains_key(channel@) && *sender == self@[channel@]
                    && sent == message,
                None => !self@.contains_key(channel@),
            },
    {
        match self.channels.get(channel) {
            Some(sender) => Some((sender, message)),
            None => None,
        }
    }

    /// Publishes `message` to `channel`. Returns the number of subscribers at
    /// the moment: 0 if nobody is subscribed.
    pub fn publish(&self, channel: &[u8], message: Bytes) -> (subscribers: usize)
        requires
            self.wf(),
        ensures
            published(self@, channel@, content(message), subscribers),
    {
        match self.delivery(channel, message) {
            Some((sender, message)) => reached(send(sender, message)),
            None => 0,
        }
    }
}

impl Default for PubSub {
    fn default() -> (pubsub: Self)
        ensures
            pubsub.wf(),
            pubsub@ == Map::<Seq<u8>, Sender<Bytes>>::empty(),
    {
        Self::new()
    }
}

} // verus!
