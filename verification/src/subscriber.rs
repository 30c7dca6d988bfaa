//! A connection whose client has subscribed to channels: only subscribing,
//! unsubscribing and pinging are possible there.

use bytes::Bytes;
use vstd::prelude::*;
use vstd::string::*;
use vstd::utf8::encode_utf8;

use crate::buf::{content, contents};
use crate::bytemap::same_bytes;
use crate::commands::{copy_from, meaning, parse_at, Command, CommandView};
use crate::resp::{Reply, ReplyView};
use crate::shard::now_ms;

verus! {

broadcast use crate::buf::lemma_contents_push;

/// The channels after the client left `channel`: the last one takes its place.
pub open spec fn left(channels: Seq<Seq<u8>>, channel: Seq<u8>) -> Seq<Seq<u8>> {
    if channels.contains(channel) {
        channels.update(channels.index_of(channel), channels.last()).drop_last()
    } else {
        channels
    }
}

/// The channels after the client joined `channel`, which then is the last one.
pub open spec fn joined(channels: Seq<Seq<u8>>, channel: Seq<u8>) -> Seq<Seq<u8>> {
    left(channels, channel).push(channel)
}

/// The channels after the client left or joined some, one after the other.
pub open spec fn moved_all(channels: Seq<Seq<u8>>, names: Seq<Seq<u8>>, join: bool) -> Seq<
    Seq<u8>,
>
    decreases names.len(),
{
    if names.len() == 0 {
        channels
    } else {
        moved(moved_all(channels, names.drop_last(), join), names.last(), join)
    }
}

/// The channels after the client left or joined one.
pub open spec fn moved(channels: Seq<Seq<u8>>, name: Seq<u8>, join: bool) -> Seq<Seq<u8>> {
    if join {
        joined(channels, name)
    } else {
        left(channels, name)
    }
}

/// The message that the client has joined or left `channel` and now has `count`
/// channels.
pub open spec fn notice(join: bool, channel: Seq<u8>, count: nat) -> ReplyView {
    ReplyView::Array(
        seq![
            ReplyView::Bulk(
                encode_utf8(
                    if join {
                        "subscribe"@
                    } else {
                        "unsubscribe"@
                    },
                ),
            ),
            ReplyView::Bulk(channel),
            ReplyView::Integer(count as i64 as int),
        ],
    )
}

/// The channels that a client leaves or joins, each with the message about it.
pub open spec fn notices(channels: Seq<Seq<u8>>, names: Seq<Seq<u8>>, join: bool) -> Seq<
    (Seq<u8>, ReplyView),
> {
    Seq::new(
        names.len(),
        |i: int|
            (names[i], notice(join, names[i], moved_all(channels, names.take(i + 1), join).len())),
    )
}

/// What the connection of a subscriber does next.
pub enum SubscriberAction {
    /// Nothing: wait for what comes next.
    Wait,
    /// Send a reply.
    Say(Reply),
    /// Join channels, sending a message about each.
    Join(Vec<(Bytes, Reply)>),
    /// Leave channels, sending a message about each; where that was the last of
    /// them, the connection is an ordinary one again.
    Leave { steps: Vec<(Bytes, Reply)>, done: bool },
}

/// What a [`SubscriberAction`] holds.
#[verifier::ext_equal]
pub enum SubscriberActionView {
    Wait,
    Say(ReplyView),
    Join(Seq<(Seq<u8>, ReplyView)>),
    Leave { steps: Seq<(Seq<u8>, ReplyView)>, done: bool },
}

/// Channels with messages, as what they hold.
pub open spec fn step_views(steps: Seq<(Bytes, Reply)>) -> Seq<(Seq<u8>, ReplyView)> {
    steps.map_values(|step: (Bytes, Reply)| (content(step.0), step.1@))
}

impl SubscriberAction {
    /// What the action holds.
    pub open spec fn view(&self) -> SubscriberActionView {
        match *self {
            SubscriberAction::Wait => SubscriberActionView::Wait,
            SubscriberAction::Say(reply) => SubscriberActionView::Say(reply@),
            SubscriberAction::Join(steps) => SubscriberActionView::Join(step_views(steps@)),
            SubscriberAction::Leave { steps, done } => SubscriberActionView::Leave {
                steps: step_views(steps@),
                done,
            },
        }
    }
}

/// Which channels a request makes the client leave: those that it names, or all
/// where it names none.
pub open spec fn leaving(channels: Seq<Seq<u8>>, names: Seq<Seq<u8>>) -> Seq<Seq<u8>> {
    if names.len() == 0 {
        channels
    } else {
        names
    }
}

/// The channels of a subscriber after a request at the time `now`.
pub open spec fn next_channels(channels: Seq<Seq<u8>>, args: Seq<Seq<u8>>, now: u64) -> Seq<
    Seq<u8>,
> {
    match meaning(args, now) {
        Ok(CommandView::Subscribe(names)) => moved_all(channels, names, true),
        Ok(CommandView::Unsubscribe(names)) => moved_all(channels, leaving(channels, names), false),
        _ => channels,
    }
}

/// What the connection of a subscriber does with a request at the time `now`.
pub open spec fn subscriber_action(
    channels: Seq<Seq<u8>>,
    args: Seq<Seq<u8>>,
    now: u64,
) -> SubscriberActionView {
    if args.len() == 0 {
        SubscriberActionView::Wait
    } else {
        match meaning(args, now) {
            Err(text) => SubscriberActionView::Say(ReplyView::Error(text)),
            Ok(CommandView::Subscribe(names)) => SubscriberActionView::Join(
                notices(channels, names, true),
            ),
            Ok(CommandView::Unsubscribe(names)) => SubscriberActionView::Leave {
                steps: notices(channels, leaving(channels, names), false),
                done: next_channels(channels, args, now).len() == 0,
            },
            Ok(CommandView::Ping(None)) => SubscriberActionView::Say(ReplyView::Simple("PONG"@)),
            Ok(CommandView::Ping(Some(text))) => SubscriberActionView::Say(ReplyView::Bulk(text)),
            Ok(_) => SubscriberActionView::Say(
                ReplyView::Error(
                    "ERR only (P)SUBSCRIBE / (P)UNSUBSCRIBE / PING are allowed in this context"@,
                ),
            ),
        }
    }
}

/// The message that the client has joined or left `channel` and now has `count`
/// channels.
pub fn subscribe_reply(join: bool, channel: Bytes, count: usize) -> (reply: Reply)
    ensures
        reply@ == notice(join, content(channel), count as nat),
{
    let word = if join {
        "subscribe"
    } else {
        "unsubscribe"
    };
    let mut items: Vec<Reply> = Vec::new();
    items.push(Reply::Bulk(Bytes::copy_from_slice(word.as_bytes())));
    items.push(Reply::Bulk(channel));
    items.push(Reply::Integer(count as i64));
    assert(items@[0]@ == ReplyView::Bulk(encode_utf8(word@)));
    assert(items@[1]@ == ReplyView::Bulk(content(channel)));
    assert(items@[2]@ == ReplyView::Integer(count as i64 as int));
    let reply = Reply::Array(items);
    assert(reply@->Array_0 =~= notice(join, content(channel), count as nat)->Array_0);
    reply
}

/// What a subscriber is sent when `payload` was published to `channel`.
pub fn message_reply(channel: Bytes, payload: Bytes) -> (reply: Reply)
    ensures
        reply@ == ReplyView::Array(
            seq![
                ReplyView::Bulk(encode_utf8("message"@)),
                ReplyView::Bulk(content(channel)),
                ReplyView::Bulk(content(payload)),
            ],
        ),
{
    let mut items: Vec<Reply> = Vec::new();
    items.push(Reply::Bulk(Bytes::copy_from_slice("message".as_bytes())));
    items.push(Reply::Bulk(channel));
    items.push(Reply::Bulk(payload));
    assert(items@[0]@ == ReplyView::Bulk(encode_utf8("message"@)));
    assert(items@[1]@ == ReplyView::Bulk(content(channel)));
    assert(items@[2]@ == ReplyView::Bulk(content(payload)));
    let reply = Reply::Array(items);
    assert(reply@->Array_0 =~= seq![
        ReplyView::Bulk(encode_utf8("message"@)),
        ReplyView::Bulk(content(channel)),
        ReplyView::Bulk(content(payload)),
    ]);
    reply
}

/// The channels of a subscriber, in the order in which its connection keeps
/// them.
pub struct Subscriptions {
    channels: Vec<Bytes>,
}

impl Subscriptions {
    /// The names of the channels.
    pub closed spec fn view(&self) -> Seq<Seq<u8>> {
        contents(self.channels@)
    }

    /// No channel occurs twice.
    pub open spec fn wf(&self) -> bool {
        self@.no_duplicates()
    }

    /// No channels.
    pub fn new() -> (subscriptions: Self)
        ensures
            subscriptions.wf(),
            subscriptions@ == Seq::<Seq<u8>>::empty(),
    {
        let channels: Vec<Bytes> = Vec::new();
        assert(contents(channels@) =~= Seq::<Seq<u8>>::empty());
        Self { channels }
    }

    /// Position of `name`.
    fn find(&self, name: &[u8]) -> (pos: Option<usize>)
        requires
            self.wf(),
        ensures
            match pos {
                Some(i) => i < self@.len() && self@[i as int] == name@,
                None => !self@.contains(name@),
            },
    {
        let mut i: usize = 0;
        while i < self.channels.len()
            invariant
                i <= self.channels@.len(),
                forall|j: int| 0 <= j < i ==> #[trigger] self@[j] != name@,
            decreases self.channels@.len() - i,
        {
            assert(self@[i as int] == content(self.channels@[i as int]));
            if same_bytes(&self.channels[i], name) {
                return Some(i);
            }
            i = i + 1;
        }
        None
    }

    /// Joins `name`, or leaves it. Returns the message about it.
    fn change(&mut self, name: &Bytes, join: bool) -> (reply: Reply)
        requires
            old(self).wf(),
        ensures
            final(self).wf(),
            final(self)@ == moved(old(self)@, content(*name), join),
            reply@ == notice(join, content(*name), final(self)@.len()),
    {
        let ghost all = self@;
        let ghost k = content(*name);
        if let Some(i) = self.find(name) {
            self.channels.swap_remove(i);
            proof {
                assert(all.contains(k));
                assert(all[all.index_of(k)] == k);
                assert(all.index_of(k) == i);
                assert(self@ =~= left(all, k));
            }
        }
        proof {
            lemma_left(all, k);
        }
        if join {
            self.channels.push(name.clone());
            assert(self@ =~= joined(all, k));
        }
        subscribe_reply(join, name.clone(), self.channels.len())
    }

    /// Joins `names`, or leaves them, one after the other. Returns the names with
    /// the messages about them.
    fn change_all(&mut self, names: &[Bytes], join: bool) -> (steps: Vec<(Bytes, Reply)>)
        requires
            old(self).wf(),
        ensures
            final(self).wf(),
            final(self)@ == moved_all(old(self)@, contents(names@), join),
            step_views(steps@) == notices(old(self)@, contents(names@), join),
    {
        let mut steps: Vec<(Bytes, Reply)> = Vec::new();
        let mut i: usize = 0;
        let ghost all = contents(names@);
        let ghost want = notices(self@, all, join);
        assert(all.take(0) =~= Seq::<Seq<u8>>::empty());
        while i < names.len()
            invariant
                i <= names@.len(),
                self.wf(),
                all == contents(names@),
                want == notices(old(self)@, all, join),
                self@ == moved_all(old(self)@, all.take(i as int), join),
                step_views(steps@) =~= want.take(i as int),
            decreases names@.len() - i,
        {
            let reply = self.change(&names[i], join);
            proof {
                assert(all.take(i + 1).drop_last() =~= all.take(i as int));
                assert(all.take(i + 1).last() == content(names@[i as int]));
            }
            let ghost was = steps@;
            let ghost step = (content(names@[i as int]), reply@);
            steps.push((names[i].clone(), reply));
            proof {
                assert(step_views(steps@) =~= step_views(was).push(step));
                assert(want[i as int] == step);
            }
            i = i + 1;
        }
        assert(all.take(all.len() as int) =~= all);
        assert(step_views(steps@) =~= want);
        steps
    }

    /// Joins the channels that a client subscribed to when its connection became
    /// that of a subscriber. Returns the names with the messages about them.
    pub fn start(&mut self, names: &[Bytes]) -> (steps: Vec<(Bytes, Reply)>)
        requires
            old(self).wf(),
        ensures
            final(self).wf(),
            final(self)@ == moved_all(old(self)@, contents(names@), true),
            step_views(steps@) == notices(old(self)@, contents(names@), true),
    {
        self.change_all(names, true)
    }

    /// What the connection does with a request at the time `now`.
    pub fn on_request_at(&mut self, args: &[Bytes], now: u64) -> (action: SubscriberAction)
        requires
            old(self).wf(),
        ensures
            final(self).wf(),
            final(self)@ == next_channels(old(self)@, contents(args@), now),
            action@ == subscriber_action(old(self)@, contents(args@), now),
    {
        if args.len() == 0 {
            return SubscriberAction::Wait;
        }
        match parse_at(args, now) {
            Err(e) => SubscriberAction::Say(Reply::Error(e)),
            Ok(Command::Subscribe(names)) => SubscriberAction::Join(self.change_all(&names, true)),
            Ok(Command::Unsubscribe(names)) => {
                let going: Vec<Bytes> = if names.len() == 0 {
                    assert(contents(self.channels@).skip(0) =~= contents(self.channels@));
                    copy_from(&self.channels, 0)
                } else {
                    names
                };
                let steps = self.change_all(&going, false);
                SubscriberAction::Leave { steps, done: self.channels.len() == 0 }
            },
            Ok(Command::Ping(None)) => SubscriberAction::Say(Reply::Simple("PONG".to_owned())),
            Ok(Command::Ping(Some(text))) => SubscriberAction::Say(Reply::Bulk(text)),
            Ok(_) => SubscriberAction::Say(
                Reply::Error(
                    "ERR only (P)SUBSCRIBE / (P)UNSUBSCRIBE / PING are allowed in this context".to_owned(),
                ),
            ),
        }
    }

    /// What the connection does with a request by the system clock.
    pub fn on_request(&mut self, args: &[Bytes]) -> (action: SubscriberAction)
        requires
            old(self).wf(),
        ensures
            final(self).wf(),
            exists|now: u64|
                final(self)@ == #[trigger] next_channels(old(self)@, contents(args@), now)
                    && action@ == subscriber_action(old(self)@, contents(args@), now),
    {
        let now: u64 = now_ms();
        self.on_request_at(args, now)
    }
}

/// Leaving a channel takes exactly that one away.
proof fn lemma_left(channels: Seq<Seq<u8>>, name: Seq<u8>)
    requires
        channels.no_duplicates(),
    ensures
        left(channels, name).no_duplicates(),
        left(channels, name).to_set() == channels.to_set().remove(name),
        left(channels, name).len() == channels.len() - if channels.contains(name) {
            1int
        } else {
            0int
        },
{
    let rest = left(channels, name);
    if channels.contains(name) {
        let at = channels.index_of(name);
        assert(channels[at] == name);
        assert forall|k: Seq<u8>| #[trigger] rest.to_set().contains(k)
            <==> channels.to_set().remove(name).contains(k) by {
            if rest.contains(k) {
                let i = rest.index_of(k);
                assert(rest[i] == k);
                if i == at {
                    assert(channels[channels.len() - 1] == k);
                } else {
                    assert(channels[i] == k);
                }
                assert(channels.contains(k));
            }
            if channels.contains(k) && k != name {
                let i = channels.index_of(k);
                assert(channels[i] == k);
                if i == channels.len() - 1 {
                    assert(rest[at] == k);
                } else {
                    assert(rest[i] == k);
                }
            }
        }
    }
    assert(rest.to_set() =~= channels.to_set().remove(name));
}

/// A client that joins a channel has it, once, next to those that it had; a
/// client that leaves one keeps the others.
pub proof fn law_channels_are_a_set(channels: Seq<Seq<u8>>, name: Seq<u8>, join: bool)
    requires
        channels.no_duplicates(),
    ensures
        moved(channels, name, join).no_duplicates(),
        moved(channels, name, join).to_set() == if join {
            channels.to_set().insert(name)
        } else {
            channels.to_set().remove(name)
        },
{
    lemma_left(channels, name);
    let rest = left(channels, name);
    if join {
        assert(!rest.contains(name)) by {
            assert(!rest.to_set().contains(name));
        }
        rest.lemma_push_to_set_commute(name);
        assert(rest.push(name).to_set() =~= channels.to_set().insert(name));
    }
}

proof fn lemma_leave_all(channels: Seq<Seq<u8>>, names: Seq<Seq<u8>>)
    requires
        channels.no_duplicates(),
    ensures
        moved_all(channels, names, false).no_duplicates(),
        moved_all(channels, names, false).to_set() == channels.to_set().difference(names.to_set()),
    decreases names.len(),
{
    if names.len() == 0 {
        assert(channels.to_set() =~= channels.to_set().difference(names.to_set()));
    } else {
        let front = names.drop_last();
        lemma_leave_all(channels, front);
        law_channels_are_a_set(moved_all(channels, front, false), names.last(), false);
        assert(front.push(names.last()) =~= names);
        front.lemma_push_to_set_commute(names.last());
        assert(moved_all(channels, names, false).to_set() =~= channels.to_set().difference(
            names.to_set(),
        ));
    }
}

/// Unsubscribing without naming a channel leaves all of them: the connection is
/// an ordinary one again.
pub proof fn law_leaving_all_ends_the_subscription(channels: Seq<Seq<u8>>)
    requires
        channels.no_duplicates(),
    ensures
        moved_all(channels, leaving(channels, Seq::empty()), false).len() == 0,
{
    lemma_leave_all(channels, channels);
    let rest = moved_all(channels, channels, false);
    if rest.len() > 0 {
        assert(rest.to_set().contains(rest[0]));
        assert(channels.to_set().contains(rest[0]));
    }
}

} // verus!
