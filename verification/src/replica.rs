//! Both ends of the link between a primary and a replica: one snapshot, then
//! every write command as it happens.

use bytes::{Bytes, BytesMut};
use vstd::prelude::*;
use vstd::string::*;
use vstd::utf8::encode_utf8;

use crate::buf::{buffered, content, contents, from_vec};
use crate::commands::{meaning, parse_at};
use crate::execute::{bulk_array, bulks_reply, execute_at, outcome};
use crate::persistence::aof::{
    executed, law_log_gives_back_what_was_appended, law_stamp_is_read_back, log_of, logged,
    read_stamp, stamp, stamp_of, stamped, takes_over, unstamp,
};
use crate::persistence::snapshot::{
    all_fit, load_all, resync, restored, save_at, unpacked, written, SnapshotError,
};
use crate::pubsub::PubSub;
use crate::resp::{
    bulks_at, countable, encode_command, encode_command_spec, encode_spec,
    law_array_of_bulks_is_a_request, law_bulk_reply_round_trip, parse_bulk_reply, parse_command,
    parse_spec, Frame, Reply, ReplyView,
};
use crate::shard::now_ms;
use crate::store::Store;

verus! {

/// What a replica sends first.
pub fn sync_request() -> (request: Bytes)
    ensures
        content(request) == encode_command_spec(seq![encode_utf8("SYNC"@)]),
{
    let mut args: Vec<Bytes> = Vec::new();
    args.push(Bytes::copy_from_slice("SYNC".as_bytes()));
    assert(contents(args@) =~= seq![encode_utf8("SYNC"@)]);
    encode_command(&args)
}

/// What a primary sends first: a snapshot of everything that is live at the time
/// `now`.
pub fn full_sync_reply_at(store: &Store, now: u64) -> (result: Result<Reply, SnapshotError>)
    requires
        store.wf(),
    ensures
        match result {
            Ok(reply) => reply@ matches ReplyView::Bulk(bytes) && (restored(bytes) matches Some(
                list,
            ) && store@.lists_live(list, now) && written(list, bytes)),
            Err(e) => e is TooLarge,
        },
        result is Ok <==> all_fit(store@, now),
{
    match save_at(store, now) {
        Ok(bytes) => Ok(Reply::Bulk(from_vec(bytes))),
        Err(e) => Err(e),
    }
}

/// What a primary sends first, by the system clock.
pub fn full_sync_reply(store: &Store) -> (result: Result<Reply, SnapshotError>)
    requires
        store.wf(),
    ensures
        match result {
            Ok(reply) => reply@ matches ReplyView::Bulk(bytes) && (restored(bytes) matches Some(
                list,
            ) && written(list, bytes) && exists|now: u64| #[trigger]
                store@.lists_live(list, now) && all_fit(store@, now)),
            Err(e) => e is TooLarge && exists|now: u64| !#[trigger] all_fit(store@, now),
        },
        (forall|now: u64| #[trigger] all_fit(store@, now)) ==> result is Ok,
        (forall|now: u64| !#[trigger] all_fit(store@, now)) ==> result is Err,
{
    let now: u64 = now_ms();
    full_sync_reply_at(store, now)
}

/// What the stream of write commands gives the feed of a replica.
pub enum FeedEvent {
    /// The arguments of a write command.
    Command(Vec<Bytes>),
    /// Some commands were missed, because the replica is too slow: it has to
    /// start over.
    Lagged,
    /// The stream has ended.
    Closed,
}

/// What the feed of a replica does next.
pub enum FeedAction {
    Send(Reply),
    Stop,
}

/// Whether the feed of a replica does this with what the stream gives.
pub open spec fn feed_does(event: FeedEvent, action: FeedAction) -> bool {
    match event {
        FeedEvent::Command(args) => action matches FeedAction::Send(reply) && reply@
            == bulks_reply(contents(args@)),
        FeedEvent::Lagged | FeedEvent::Closed => action is Stop,
    }
}

/// What the feed of a replica does with what the stream gives: commands go out
/// as arrays; a gap or the end of the stream ends the feed, so that the replica
/// reconnects and gets everything anew.
pub fn on_feed_event(event: FeedEvent) -> (action: FeedAction)
    ensures
        feed_does(event, action),
{
    match event {
        FeedEvent::Command(args) => FeedAction::Send(bulk_array(args)),
        FeedEvent::Lagged | FeedEvent::Closed => FeedAction::Stop,
    }
}

/// What a replica has got out of the bytes from its primary.
pub enum ReplicaStep {
    /// Nothing yet: more bytes are needed.
    NeedMore,
    /// The snapshot: the store now holds this many keys.
    Synced(usize),
    /// A write command was executed: this line has to go to the log and to the
    /// replicas of this node.
    Wrote(Vec<Bytes>),
    /// A request that changes nothing.
    Passed,
    /// Something that breaks the link, as the text says.
    Broken(String),
}

/// Whether a request is a write command at the time `now`.
pub open spec fn is_write_request(args: Seq<Seq<u8>>, now: u64) -> bool {
    meaning(args, now) matches Ok(cmd) && cmd.is_write()
}

/// What a line from the primary is passed on as, where it is a write command
/// that was taken over at the time `now`: as it came, with the time in front
/// where it has none.
pub open spec fn passed_on(line: Seq<Seq<u8>>, now: u64) -> Seq<Seq<u8>> {
    if stamp_of(line) is Some {
        line
    } else {
        stamped(line, now)
    }
}

/// What is passed on says the same request and time as what came.
pub proof fn law_replicas_pass_on_what_came(line: Seq<Seq<u8>>, now: u64, later: u64)
    ensures
        executed(passed_on(line, now), later) == executed(line, now),
{
    law_stamp_is_read_back(line, now, later);
}

/// Takes over a line from the primary at the time `now`. Returns what to pass on,
/// if it is a write command.
pub fn apply_replicated_at(
    store: &mut Store,
    pubsub: &PubSub,
    line: Vec<Bytes>,
    now: u64,
) -> (passed: Option<Vec<Bytes>>)
    requires
        old(store).wf(),
        pubsub.wf(),
    ensures
        final(store).wf(),
        takes_over(old(store)@, pubsub@.dom(), contents(line@), now, final(store)@),
        ({
            let (request, at) = executed(contents(line@), now);
            if is_write_request(request, at) {
                passed matches Some(list) && contents(list@) == passed_on(contents(line@), now)
            } else {
                passed is None
            }
        }),
{
    let (args, at) = unstamp(&line, now);
    match parse_at(&args, at) {
        Ok(cmd) => {
            let reply = execute_at(store, pubsub, &cmd, at);
            assert(outcome(old(store)@, pubsub@.dom(), cmd@, at, reply@, store@));
            if !cmd.is_write() {
                None
            } else if read_stamp(&line).is_some() {
                Some(line)
            } else {
                Some(stamp(&line, now))
            }
        },
        Err(_) => None,
    }
}

/// The replica's end of the link: whether the snapshot has come.
pub struct ReplicaLink {
    synced: bool,
}

impl ReplicaLink {
    /// Whether the snapshot has come.
    pub closed spec fn is_synced(&self) -> bool {
        self.synced
    }

    /// A new link.
    pub fn new() -> (link: Self)
        ensures
            !link.is_synced(),
    {
        Self { synced: false }
    }

    /// Why the link ends when the primary closes the connection.
    pub fn closed_text(&self) -> (text: &'static str)
        ensures
            text@ == if self.is_synced() {
                "primary connection closed"@
            } else {
                "primary closed connection during initial sync"@
            },
    {
        if self.synced {
            "primary connection closed"
        } else {
            "primary closed connection during initial sync"
        }
    }

    /// Takes the next thing out of the bytes from the primary: first the
    /// snapshot, which takes the place of everything that the store has, and
    /// from there on one command after the other.
    pub fn step_at(
        &mut self,
        buf: &mut BytesMut,
        store: &mut Store,
        pubsub: &PubSub,
        now: u64,
    ) -> (step: ReplicaStep)
        requires
            old(store).wf(),
            pubsub.wf(),
        ensures
            final(store).wf(),
            !old(self).is_synced() ==> match bulks_at(buffered(*old(buf)), 0, 1) {
                Frame::Partial => step is NeedMore && !final(self).is_synced() && buffered(
                    *final(buf),
                ) == buffered(*old(buf)) && final(store)@ == old(store)@,
                Frame::Invalid(what) => (step matches ReplicaStep::Broken(text) && text@
                    == "protocol error: "@ + what) && !final(self).is_synced() && buffered(
                    *final(buf),
                ) == buffered(*old(buf)) && final(store)@ == old(store)@,
                Frame::Complete { args, used } => buffered(*final(buf)) == buffered(
                    *old(buf),
                ).skip(used) && match restored(args[0]) {
                    Some(list) => (step matches ReplicaStep::Synced(n) && n == list.len())
                        && final(self).is_synced() && final(store)@ == load_all(
                        old(store)@.flushed(),
                        list,
                    ),
                    None => (step matches ReplicaStep::Broken(text) && (unpacked(args[0]) is Some
                        ==> text@ == "record in snapshot holds no value"@))
                        && !final(self).is_synced() && final(store)@ == old(store)@,
                },
            },
            old(self).is_synced() ==> final(self).is_synced() && match parse_spec(
                buffered(*old(buf)),
            ) {
                Frame::Partial => step is NeedMore && buffered(*final(buf)) == buffered(*old(buf))
                    && final(store)@ == old(store)@,
                Frame::Invalid(what) => (step matches ReplicaStep::Broken(text) && text@
                    == "protocol error: "@ + what) && buffered(*final(buf)) == buffered(*old(buf))
                    && final(store)@ == old(store)@,
                Frame::Complete { args, used } => {
                    &&& buffered(*final(buf)) == buffered(*old(buf)).skip(used)
                    &&& takes_over(old(store)@, pubsub@.dom(), args, now, final(store)@)
                    &&& if is_write_request(executed(args, now).0, executed(args, now).1) {
                        step matches ReplicaStep::Wrote(list) && contents(list@) == passed_on(
                            args,
                            now,
                        )
                    } else {
                        step is Passed
                    }
                },
            },
    {
        if !self.synced {
            match parse_bulk_reply(buf) {
                Ok(None) => ReplicaStep::NeedMore,
                Err(e) => ReplicaStep::Broken(e.text()),
                Ok(Some(blob)) => match resync(store, &blob) {
                    Ok(n) => {
                        self.synced = true;
                        ReplicaStep::Synced(n)
                    },
                    Err(e) => ReplicaStep::Broken(e.text()),
                },
            }
        } else {
            match parse_command(buf) {
                Ok(None) => ReplicaStep::NeedMore,
                Err(e) => ReplicaStep::Broken(e.text()),
                Ok(Some(line)) => match apply_replicated_at(store, pubsub, line, now) {
                    Some(line) => ReplicaStep::Wrote(line),
                    None => ReplicaStep::Passed,
                },
            }
        }
    }
}

/// What a primary has sent to a replica after a snapshot `blob` and the given
/// commands.
pub open spec fn feed_of(blob: Seq<u8>, commands: Seq<Seq<Seq<u8>>>) -> Seq<u8> {
    encode_spec(ReplyView::Bulk(blob)) + fed(commands)
}

/// Commands on the wire, each as an array of bulk strings.
pub open spec fn fed(commands: Seq<Seq<Seq<u8>>>) -> Seq<u8>
    decreases commands.len(),
{
    if commands.len() == 0 {
        Seq::empty()
    } else {
        encode_spec(bulks_reply(commands[0])) + fed(commands.skip(1))
    }
}

proof fn lemma_fed_is_a_log(commands: Seq<Seq<Seq<u8>>>)
    ensures
        fed(commands) == log_of(commands),
    decreases commands.len(),
{
    if commands.len() > 0 {
        lemma_fed_is_a_log(commands.skip(1));
        law_array_of_bulks_is_a_request(commands[0]);
        assert(commands[0].map_values(|a: Seq<u8>| ReplyView::Bulk(a))
            =~= commands[0].map_values(|b: Seq<u8>| ReplyView::Bulk(b)));
    }
}

/// Whether `actions` are what the feed of a replica does with `events`, one after
/// the other: it ends where it stops.
pub open spec fn feeding(events: Seq<FeedEvent>, actions: Seq<FeedAction>) -> bool {
    &&& actions.len() == events.len()
    &&& forall|i: int| 0 <= i < events.len() ==> feed_does(#[trigger] events[i], actions[i])
    &&& forall|i: int| 0 <= i < actions.len() - 1 ==> !(#[trigger] actions[i] is Stop)
}

/// The commands that the stream gives.
pub open spec fn commands_in(events: Seq<FeedEvent>) -> Seq<Seq<Seq<u8>>>
    decreases events.len(),
{
    if events.len() == 0 {
        Seq::empty()
    } else {
        match events[0] {
            FeedEvent::Command(args) => seq![contents(args@)] + commands_in(events.skip(1)),
            _ => commands_in(events.skip(1)),
        }
    }
}

/// What the feed of a replica sends.
pub open spec fn sent_by(actions: Seq<FeedAction>) -> Seq<u8>
    decreases actions.len(),
{
    if actions.len() == 0 {
        Seq::empty()
    } else {
        match actions[0] {
            FeedAction::Send(reply) => encode_spec(reply@) + sent_by(actions.skip(1)),
            FeedAction::Stop => sent_by(actions.skip(1)),
        }
    }
}

/// The feed of a replica sends every command that the stream gives, once and in
/// order, and goes on over no gap: where something was missed, it ends, and the
/// replica starts over.
pub proof fn law_feed_goes_on_over_no_gap(events: Seq<FeedEvent>, actions: Seq<FeedAction>)
    requires
        feeding(events, actions),
    ensures
        sent_by(actions) == fed(commands_in(events)),
        forall|i: int| 0 <= i < events.len() - 1 ==> #[trigger] events[i] is Command,
    decreases events.len(),
{
    assert forall|i: int| 0 <= i < events.len() - 1 implies #[trigger] events[i] is Command by {
        assert(!(actions[i] is Stop));
    }
    if events.len() > 0 {
        let rest = events.skip(1);
        let after = actions.skip(1);
        assert forall|i: int| 0 <= i < rest.len() implies feed_does(
            #[trigger] rest[i],
            after[i],
        ) by {
            assert(rest[i] == events[i + 1]);
        }
        assert forall|i: int| 0 <= i < after.len() - 1 implies !(#[trigger] after[i] is Stop) by {
            assert(after[i] == actions[i + 1]);
        }
        law_feed_goes_on_over_no_gap(rest, after);
        assert(feed_does(events[0], actions[0]));
        if let FeedEvent::Command(args) = events[0] {
            let all = commands_in(events);
            assert(all.skip(1) =~= commands_in(rest));
            assert(all[0] == contents(args@));
        }
    }
}

/// A replica reads from the stream of its primary the snapshot and exactly the
/// commands that were sent, in order, also where the last one has arrived only
/// in part.
pub proof fn law_replica_reads_what_was_sent(
    blob: Seq<u8>,
    commands: Seq<Seq<Seq<u8>>>,
    last: Seq<Seq<u8>>,
    k: int,
)
    requires
        blob.len() <= i64::MAX,
        forall|i: int| 0 <= i < commands.len() ==> countable(#[trigger] commands[i]),
        countable(last),
        0 <= k < encode_spec(bulks_reply(last)).len(),
    ensures
        ({
            let stream = feed_of(blob, commands) + encode_spec(bulks_reply(last)).take(k);
            let used = encode_spec(ReplyView::Bulk(blob)).len() as int;
            &&& bulks_at(stream, 0, 1) == (Frame::Complete { args: seq![blob], used })
            &&& logged(stream.skip(used)) == commands
        }),
{
    let tail = encode_spec(bulks_reply(last)).take(k);
    let head = encode_spec(ReplyView::Bulk(blob));
    let stream = feed_of(blob, commands) + tail;
    assert(stream =~= head + (fed(commands) + tail));
    law_bulk_reply_round_trip(blob, fed(commands) + tail);
    assert(stream.skip(head.len() as int) =~= fed(commands) + tail);
    lemma_fed_is_a_log(commands);
    law_array_of_bulks_is_a_request(last);
    assert(last.map_values(|a: Seq<u8>| ReplyView::Bulk(a)) =~= last.map_values(
        |b: Seq<u8>| ReplyView::Bulk(b),
    ));
    law_log_gives_back_what_was_appended(commands, last, k);
}

} // verus!
