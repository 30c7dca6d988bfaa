//! What the functions that a server is made of promise it: each is held here to
//! what the laws of the other modules speak of, or to what its callers rely on.

use bytes::{Bytes, BytesMut};
use tokio::sync::broadcast::{Receiver, Sender};
use vstd::prelude::*;
use vstd::string::*;
use vstd::utf8::encode_utf8;

use crate::broadcast::{feeds, feeds_commands, sent, sent_command};
use crate::buf::{buffered, content, contents};
use crate::cluster::{law_owner_is_proportional, ClusterConfig};
use crate::commands::{meaning, parse, parse_at, Command, CommandView};
use crate::config::{cluster_from, colon_before, node_views, nodes_meaning, parse_cluster_nodes};
use crate::decimal::{dec_nat, u16_value};
use crate::execute::{announces, execute, execute_at, outcome};
use crate::keyspace_laws::shown;
use crate::persistence::aof::{
    executed, logged, record, replay, replay_at, replays, stamp, takes_over, unstamp,
};
use crate::persistence::snapshot::{
    all_fit, fits, load, load_all, resync, restored, save, save_at, SnapshotError,
};
use crate::pubsub::PubSub;
use crate::replica::{
    feed_does, full_sync_reply, full_sync_reply_at, on_feed_event, passed_on, sync_request,
    FeedAction, FeedEvent, ReplicaLink, ReplicaStep,
};
use crate::replication::ReplicationHub;
use crate::resp::{
    bulks_at, encode_reply, encode_spec, law_round_trip, parse_command, parse_spec, Frame, Reply,
    ReplyView, RespCodec, RespError,
};
use crate::server::{
    cluster_view, next_action, on_request, on_request_at, protocol_error_reply, serve_at, serves,
    Action, Step,
};
use crate::shard::{is_expired, may_evict, pairs_of, time_of, Shard};
use crate::store::{Store, StoreView, NUM_SHARDS};
use crate::store_laws::lists_found;
use crate::subscriber::{
    moved_all, next_channels, notices, step_views, subscriber_action, SubscriberAction,
    Subscriptions,
};
use crate::value::{Entry, EntryView, ValueView};

verus! {

/// Requests are read as commands as the laws on requests say.
pub proof fn law_requests_are_parsed(args: &[Bytes], now: u64)
    ensures
        forall|r: Result<Command, String>| #[trigger]
            call_ensures(parse_at, (args, now), r) ==> match r {
                Ok(cmd) => meaning(contents(args@), now) == Ok::<CommandView, Seq<char>>(cmd@),
                Err(e) => meaning(contents(args@), now) == Err::<CommandView, Seq<char>>(e@),
            },
        forall|r: Result<Command, String>| #[trigger]
            call_ensures(parse, (args,), r) ==> exists|t: u64|
                match r {
                    Ok(cmd) => #[trigger] meaning(contents(args@), t) == Ok::<
                        CommandView,
                        Seq<char>,
                    >(cmd@),
                    Err(e) => meaning(contents(args@), t) == Err::<CommandView, Seq<char>>(e@),
                },
{
    assert forall|r: Result<Command, String>| #[trigger]
        call_ensures(parse, (args,), r) implies exists|t: u64|
        match r {
            Ok(cmd) => #[trigger] meaning(contents(args@), t) == Ok::<CommandView, Seq<char>>(
                cmd@,
            ),
            Err(e) => meaning(contents(args@), t) == Err::<CommandView, Seq<char>>(e@),
        } by {
        let t = choose|t: u64|
            crate::commands::understood(r, #[trigger] meaning(contents(args@), t));
        let m = meaning(contents(args@), t);
    }
}

/// Commands are executed as the laws on keys and collections say, and published
/// messages go out.
pub proof fn law_commands_are_executed(pubsub: &PubSub, cmd: &Command, now: u64)
    ensures
        forall|s: &mut Store, reply: Reply| #[trigger]
            call_ensures(execute_at, (s, pubsub, cmd, now), reply) ==> outcome(
                s@,
                pubsub@.dom(),
                cmd@,
                now,
                reply@,
                final(s)@,
            ) && announces(pubsub@, cmd@, reply@) && final(s).wf(),
        forall|s: &mut Store, reply: Reply| #[trigger]
            call_ensures(execute, (s, pubsub, cmd), reply) ==> (exists|t: u64| #[trigger]
                outcome(s@, pubsub@.dom(), cmd@, t, reply@, final(s)@)) && announces(
                pubsub@,
                cmd@,
                reply@,
            ) && final(s).wf(),
{
}

/// `PUBLISH` to a channel that there is sends the message, whole, to that channel
/// and no other, and replies what sending it gave; to another it replies 0.
pub proof fn law_published_messages_go_out(
    channels: Map<Seq<u8>, Sender<Bytes>>,
    channel: Seq<u8>,
    message: Seq<u8>,
    reply: ReplyView,
)
    requires
        announces(channels, CommandView::Publish(channel, message), reply),
    ensures
        channels.contains_key(channel) ==> {
            ||| sent(channels[channel], message, None) && reply == ReplyView::Integer(0)
            ||| exists|n: usize|
                #[trigger] sent(channels[channel], message, Some(n)) && (n <= i64::MAX ==> reply
                    == ReplyView::Integer(n as int))
        },
        !channels.contains_key(channel) ==> reply == ReplyView::Integer(0),
{
}

/// Requests are served as the laws on connections say.
pub proof fn law_requests_are_served(
    pubsub: &PubSub,
    args: &[Bytes],
    cluster: &Option<ClusterConfig>,
    read_only: bool,
    now: u64,
)
    ensures
        forall|s: &mut Store, step: Step| #[trigger]
            call_ensures(serve_at, (s, pubsub, args, cluster, read_only, now), step) ==> serves(
                s@,
                pubsub@.dom(),
                contents(args@),
                cluster_view(*cluster),
                read_only,
                now,
                step@,
                final(s)@,
            ) && final(s).wf(),
        forall|action: Action| #[trigger]
            call_ensures(on_request_at, (args, cluster, read_only, now), action) ==> action@
                == next_action(contents(args@), cluster_view(*cluster), read_only, now),
        forall|action: Action| #[trigger]
            call_ensures(on_request, (args, cluster, read_only), action) ==> exists|t: u64|
                action@ == #[trigger] next_action(
                    contents(args@),
                    cluster_view(*cluster),
                    read_only,
                    t,
                ),
{
}

/// A connection reads exactly the requests that the laws on the wire speak of, and
/// takes exactly their bytes; what it sends are the replies, behind what was there.
pub proof fn law_wire_is_kept()
    ensures
        forall|b: &mut BytesMut, r: Result<Option<Vec<Bytes>>, RespError>| #[trigger]
            call_ensures(parse_command, (b,), r) ==> takes_frame(
                buffered(*b),
                buffered(*final(b)),
                parse_spec(buffered(*b)),
                r,
            ),
        forall|c: &mut RespCodec, b: &mut BytesMut, r: Result<Option<Vec<Bytes>>, RespError>|
            #[trigger]
            call_ensures(RespCodec::decode, (c, b), r) ==> takes_frame(
                buffered(*b),
                buffered(*final(b)),
                parse_spec(buffered(*b)),
                r,
            ),
        forall|reply: Reply, out: &mut Vec<u8>| #[trigger]
            call_ensures(encode_reply, (&reply, out), ()) ==> final(out)@ == out@ + encode_spec(
                reply@,
            ),
        forall|c: &mut RespCodec, reply: Reply, out: &mut Vec<u8>, r: Result<(), RespError>|
            #[trigger]
            call_ensures(RespCodec::encode, (c, reply, out), r) ==> r is Ok && final(out)@ == out@
                + encode_spec(reply@),
{
}

/// Whether a request was taken off the front of a buffer as `frame` says.
pub open spec fn takes_frame(
    before: Seq<u8>,
    after: Seq<u8>,
    frame: Frame,
    r: Result<Option<Vec<Bytes>>, RespError>,
) -> bool {
    match frame {
        Frame::Partial => r matches Ok(None) && after == before,
        Frame::Invalid(what) => r matches Err(RespError::Protocol(s)) && s@ == what && after
            == before,
        Frame::Complete { args, used } => r matches Ok(Some(list)) && contents(list@) == args
            && after == before.skip(used),
    }
}

/// What breaks the protocol is answered with what is wrong.
pub proof fn law_protocol_errors_are_answered(what: String, reply: Reply)
    requires
        call_ensures(protocol_error_reply, (&RespError::Protocol(what),), reply),
    ensures
        reply@ == ReplyView::Error("ERR protocol error: protocol error: "@ + what@),
{
}

/// A log is replayed as the laws on restarts say: all its lines, in order.
pub proof fn law_logs_are_replayed(now: u64)
    ensures
        forall|log: &mut BytesMut, s: &mut Store| #[trigger]
            call_ensures(replay_at, (log, s, now), ()) ==> replays(
                s@,
                logged(buffered(*log)),
                now,
                final(s)@,
            ) && final(s).wf(),
        forall|log: &mut BytesMut, s: &mut Store| #[trigger]
            call_ensures(replay, (log, s), ()) ==> exists|t: u64| #[trigger]
                replays(s@, logged(buffered(*log)), t, final(s)@),
{
}

/// What is appended to the log for a line, and only that, is read back as that
/// line; the line of a request gives back the request and its time.
pub proof fn law_lines_are_recorded(args: &[Bytes], line: &[Bytes], now: u64, later: u64)
    requires
        crate::resp::countable(contents(line@)),
    ensures
        forall|bytes: Bytes, rest: Seq<u8>|
            call_ensures(record, (line,), bytes) ==> parse_spec(#[trigger] (content(bytes) + rest))
                == (Frame::Complete {
                args: contents(line@),
                used: content(bytes).len() as int,
            }),
        forall|l: Vec<Bytes>| #[trigger]
            call_ensures(stamp, (args, now), l) ==> executed(contents(l@), later) == (
                contents(args@),
                now,
            ) && l@.len() == args@.len() + 2,
        forall|r: (Vec<Bytes>, u64)| #[trigger]
            call_ensures(unstamp, (line, now), r) ==> (contents(r.0@), r.1) == executed(
                contents(line@),
                now,
            ),
{
    assert forall|bytes: Bytes, rest: Seq<u8>|
        call_ensures(record, (line,), bytes) implies parse_spec(
        #[trigger] (content(bytes) + rest),
    ) == (Frame::Complete { args: contents(line@), used: content(bytes).len() as int }) by {
        law_round_trip(contents(line@), rest);
    }
    assert forall|l: Vec<Bytes>| #[trigger] call_ensures(stamp, (args, now), l) implies executed(
        contents(l@),
        later,
    ) == (contents(args@), now) && l@.len() == args@.len() + 2 by {
        crate::persistence::aof::law_stamp_is_read_back(contents(args@), now, later);
        assert(contents(l@).len() == l@.len());
        assert(contents(args@).len() == args@.len());
    }
}

/// A snapshot of a store, whenever it can be made, restores every key that is
/// found, with its entry, and nothing else. It can be made exactly if the counts
/// of what is found fit the format.
pub proof fn law_snapshots_are_whole(s: &Store, now: u64)
    requires
        s.wf(),
    ensures
        forall|r: Result<Vec<u8>, SnapshotError>| #[trigger]
            call_ensures(save_at, (s, now), r) ==> (r is Ok <==> all_fit(s@, now)) && (
            r matches Ok(bytes) ==> restored(bytes@) matches Some(list) && lists_found(
                s@,
                list,
                now,
            )),
        forall|r: Result<Vec<u8>, SnapshotError>| #[trigger]
            call_ensures(save, (s,), r) ==> (r matches Ok(bytes) ==> restored(
                bytes@,
            ) matches Some(list) && exists|t: u64| #[trigger] lists_found(s@, list, t)) && ((forall|
                t: u64,
            | #[trigger] all_fit(s@, t)) ==> r is Ok),
        forall|r: Result<Reply, SnapshotError>| #[trigger]
            call_ensures(full_sync_reply_at, (s, now), r) ==> (r is Ok <==> all_fit(s@, now)) && (
            r matches Ok(reply) ==> reply@ matches ReplyView::Bulk(bytes) && (
            restored(bytes) matches Some(list) && lists_found(s@, list, now))),
        forall|r: Result<Reply, SnapshotError>| #[trigger]
            call_ensures(full_sync_reply, (s,), r) ==> (r matches Ok(reply) ==> reply@ matches
                ReplyView::Bulk(bytes) && (restored(bytes) matches Some(list) && exists|t: u64|
                #[trigger] lists_found(s@, list, t))) && ((forall|t: u64| #[trigger]
                all_fit(s@, t)) ==> r is Ok),
{
    assert forall|list: Seq<(Seq<u8>, EntryView)>, t: u64| #[trigger]
        s@.lists_live(list, t) implies lists_found(s@, list, t) by {
        crate::store_laws::lemma_lists(s@, list, t);
    }
    assert forall|r: Result<Vec<u8>, SnapshotError>| #[trigger]
        call_ensures(save, (s,), r) implies (r matches Ok(bytes) ==> restored(
        bytes@,
    ) matches Some(list) && exists|t: u64| #[trigger] lists_found(s@, list, t)) && ((forall|t: u64|
        #[trigger] all_fit(s@, t)) ==> r is Ok) by {
        if let Ok(bytes) = r {
            let list = restored(bytes@)->0;
            let t = choose|t: u64| #[trigger] s@.lists_live(list, t) && all_fit(s@, t);
            assert(lists_found(s@, list, t));
        }
    }
    assert forall|r: Result<Reply, SnapshotError>| #[trigger]
        call_ensures(full_sync_reply, (s,), r) implies (r matches Ok(reply) ==> reply@ matches
        ReplyView::Bulk(bytes) && (restored(bytes) matches Some(list) && exists|t: u64| #[trigger]
        lists_found(s@, list, t))) && ((forall|t: u64| #[trigger] all_fit(s@, t))
        ==> r is Ok) by {
        if let Ok(reply) = r {
            let bytes = reply@->Bulk_0;
            let list = restored(bytes)->0;
            let t = choose|t: u64| #[trigger] s@.lists_live(list, t) && all_fit(s@, t);
            assert(lists_found(s@, list, t));
        }
    }
}

/// Entries that are loaded are found under their keys, exactly as they are, and
/// the keys that none of them has are as they were.
pub proof fn law_loaded_entries_are_found(
    s: StoreView,
    list: Seq<(Seq<u8>, EntryView)>,
)
    requires
        s.shards.len() == NUM_SHARDS,
        forall|i: int, j: int| 0 <= i < j < list.len() ==> list[i].0 != list[j].0,
    ensures
        load_all(s, list).shards.len() == NUM_SHARDS,
        forall|i: int|
            0 <= i < list.len() ==> load_all(s, list).shards[crate::store::shard_of(
                (#[trigger] list[i]).0,
            )].entries.contains_key(list[i].0) && load_all(s, list).shards[crate::store::shard_of(
                list[i].0,
            )].entries[list[i].0] == list[i].1,
        forall|k: Seq<u8>, t: u64|
            (forall|i: int| 0 <= i < list.len() ==> (#[trigger] list[i]).0 != k) ==> #[trigger]
            shown(load_all(s, list), k, t) == shown(s, k, t),
    decreases list.len(),
{
    if list.len() > 0 {
        let front = list.drop_last();
        let n = list.len() - 1;
        law_loaded_entries_are_found(s, front);
        let mid = load_all(s, front);
        let after = load_all(s, list);
        assert forall|i: int| 0 <= i < list.len() implies after.shards[crate::store::shard_of(
            (#[trigger] list[i]).0,
        )].entries.contains_key(list[i].0) && after.shards[crate::store::shard_of(
            list[i].0,
        )].entries[list[i].0] == list[i].1 by {
            if i < n {
                assert(front[i] == list[i]);
                assert(list[i].0 != list[n].0);
            }
        }
        assert forall|k: Seq<u8>, t: u64|
            (forall|i: int| 0 <= i < list.len() ==> (#[trigger] list[i]).0 != k) implies
            #[trigger] shown(after, k, t) == shown(s, k, t) by {
            assert(list[n].0 != k);
            assert forall|i: int| 0 <= i < front.len() implies (#[trigger] front[i]).0 != k by {
                assert(list[i].0 != k);
            }
            assert(shown(mid, k, t) == shown(s, k, t));
        }
    }
}

/// `load` loads what the bytes restore, and `resync` puts it in the place of
/// everything; what cannot be restored changes nothing.
pub proof fn law_snapshots_are_loaded(bytes: &[u8])
    ensures
        forall|s: &mut Store, r: Result<usize, SnapshotError>| #[trigger]
            call_ensures(load, (s, bytes), r) ==> match restored(bytes@) {
                Some(list) => r == Ok::<usize, SnapshotError>(list.len() as usize) && final(s)@
                    == load_all(s@, list),
                None => r is Err && final(s)@ == s@,
            },
        forall|s: &mut Store, r: Result<usize, SnapshotError>| #[trigger]
            call_ensures(resync, (s, bytes), r) ==> match restored(bytes@) {
                Some(list) => r == Ok::<usize, SnapshotError>(list.len() as usize) && final(s)@
                    == load_all(s@.flushed(), list),
                None => r is Err && final(s)@ == s@,
            },
{
}

/// The feed of a replica sends every command as a list of its arguments, all of
/// them, and ends at a gap.
pub proof fn law_feeds_send_everything(event: FeedEvent, action: FeedAction)
    requires
        call_ensures(on_feed_event, (event,), action),
    ensures
        match event {
            FeedEvent::Command(args) => action matches FeedAction::Send(reply) && (
            reply@ matches ReplyView::Array(items) && items.len() == args@.len() && forall|i: int|
                0 <= i < args@.len() ==> #[trigger] items[i] == ReplyView::Bulk(
                    content(args@[i]),
                )),
            FeedEvent::Lagged => action is Stop,
            FeedEvent::Closed => action is Stop,
        },
        feed_does(event, action),
{
}

/// What a replica sends first asks for synchronisation, and nothing else.
pub proof fn law_replicas_ask_first(request: Bytes, rest: Seq<u8>)
    requires
        call_ensures(sync_request, (), request),
    ensures
        parse_spec(content(request) + rest) == (Frame::Complete {
            args: seq![encode_utf8("SYNC"@)],
            used: content(request).len() as int,
        }),
{
    let args = seq![encode_utf8("SYNC"@)];
    reveal_strlit("SYNC");
    vstd::utf8::is_ascii_chars_encode_utf8("SYNC"@);
    law_round_trip(args, rest);
}

/// A replica whose snapshot has not come takes the first whole string for it, and
/// from there on takes over one line after the other, as the laws on replicas
/// say, each with exactly its bytes.
pub proof fn law_replicas_take_over(pubsub: &PubSub, now: u64)
    ensures
        forall|l: &mut ReplicaLink, b: &mut BytesMut, s: &mut Store, step: ReplicaStep|
            #![trigger call_ensures(ReplicaLink::step_at, (l, b, s, pubsub, now), step)]
            call_ensures(ReplicaLink::step_at, (l, b, s, pubsub, now), step) && l.is_synced() ==> {
                &&& final(l).is_synced()
                &&& parse_spec(buffered(*b)) matches Frame::Complete { args, used } ==> {
                    &&& buffered(*final(b)) == buffered(*b).skip(used)
                    &&& takes_over(s@, pubsub@.dom(), args, now, final(s)@)
                    &&& step matches ReplicaStep::Wrote(line) ==> executed(
                        contents(line@),
                        now,
                    ) == executed(args, now)
                    &&& (meaning(executed(args, now).0, executed(args, now).1) matches Ok(cmd)
                        && cmd.is_write()) == (step is Wrote)
                }
                &&& !(parse_spec(buffered(*b)) is Complete) ==> final(s)@ == s@ && buffered(
                    *final(b),
                ) == buffered(*b) && (step is NeedMore || step is Broken)
            },
        forall|l: &mut ReplicaLink, b: &mut BytesMut, s: &mut Store, step: ReplicaStep|
            #![trigger call_ensures(ReplicaLink::step_at, (l, b, s, pubsub, now), step)]
            call_ensures(ReplicaLink::step_at, (l, b, s, pubsub, now), step) && !l.is_synced()
                ==> {
                &&& bulks_at(buffered(*b), 0, 1) matches Frame::Complete { args, used } ==> {
                    &&& buffered(*final(b)) == buffered(*b).skip(used)
                    &&& restored(args[0]) matches Some(list) ==> final(l).is_synced() && final(s)@
                        == load_all(s@.flushed(), list) && step is Synced
                    &&& restored(args[0]) is None ==> !final(l).is_synced() && final(s)@ == s@
                        && step is Broken
                }
                &&& !(bulks_at(buffered(*b), 0, 1) is Complete) ==> !final(l).is_synced()
                    && final(s)@ == s@ && buffered(*final(b)) == buffered(*b)
            },
        forall|l: ReplicaLink| #[trigger] call_ensures(ReplicaLink::new, (), l) ==> !l.is_synced(),
{
    assert forall|line: Seq<Seq<u8>>| #[trigger] executed(passed_on(line, now), now) == executed(
        line,
        now,
    ) by {
        crate::replica::law_replicas_pass_on_what_came(line, now, now);
    }
}

/// A subscriber's requests are served as the laws on subscribers say.
pub proof fn law_subscribers_are_served(names: &[Bytes], args: &[Bytes], now: u64)
    ensures
        forall|s: Subscriptions| #[trigger]
            call_ensures(Subscriptions::new, (), s) ==> s@.len() == 0,
        forall|s: &mut Subscriptions, steps: Vec<(Bytes, Reply)>| #[trigger]
            call_ensures(Subscriptions::start, (s, names), steps) ==> final(s)@ == moved_all(
                s@,
                contents(names@),
                true,
            ) && step_views(steps@) == notices(s@, contents(names@), true) && final(s).wf(),
        forall|s: &mut Subscriptions, action: SubscriberAction| #[trigger]
            call_ensures(Subscriptions::on_request_at, (s, args, now), action) ==> final(s)@
                == next_channels(s@, contents(args@), now) && action@ == subscriber_action(
                s@,
                contents(args@),
                now,
            ) && final(s).wf(),
        forall|s: &mut Subscriptions, action: SubscriberAction| #[trigger]
            call_ensures(Subscriptions::on_request, (s, args), action) ==> final(s).wf()
                && exists|t: u64|
                final(s)@ == #[trigger] next_channels(s@, contents(args@), t) && action@
                    == subscriber_action(s@, contents(args@), t),
{
}

/// A channel comes into being with its first subscriber, stays the same from there
/// on, and none but the one that is asked for changes. A message goes, whole, to
/// the channel that it is for and to no other.
pub proof fn law_channels_are_kept_apart(p: &PubSub, channel: Bytes, name: &[u8], message: Bytes)
    ensures
        forall|s: &mut PubSub, r: Receiver<Bytes>| #[trigger]
            call_ensures(PubSub::subscribe, (s, channel), r) ==> {
                let k = content(channel);
                &&& final(s)@.contains_key(k)
                &&& feeds(final(s)@[k], r)
                &&& s@.contains_key(k) ==> final(s)@[k] == s@[k]
                &&& forall|x: Seq<u8>|
                    x != k ==> (#[trigger] final(s)@.contains_key(x) == s@.contains_key(x) && (
                    s@.contains_key(x) ==> final(s)@[x] == s@[x]))
            },
        forall|d: Option<(&Sender<Bytes>, Bytes)>| #[trigger]
            call_ensures(PubSub::delivery, (p, name, message), d) ==> match d {
                Some((sender, m)) => p@.contains_key(name@) && *sender == p@[name@] && content(m)
                    == content(message),
                None => !p@.contains_key(name@),
            },
        forall|n: usize| #[trigger]
            call_ensures(PubSub::publish, (p, name, message), n) ==> if p@.contains_key(name@) {
                (n == 0 && sent(p@[name@], content(message), None)) || sent(
                    p@[name@],
                    content(message),
                    Some(n),
                )
            } else {
                n == 0
            },
{
    assert forall|s: &mut PubSub, r: Receiver<Bytes>| #[trigger]
        call_ensures(PubSub::subscribe, (s, channel), r) implies {
        let k = content(channel);
        &&& final(s)@.contains_key(k)
        &&& feeds(final(s)@[k], r)
        &&& s@.contains_key(k) ==> final(s)@[k] == s@[k]
        &&& forall|x: Seq<u8>|
            x != k ==> (#[trigger] final(s)@.contains_key(x) == s@.contains_key(x) && (
            s@.contains_key(x) ==> final(s)@[x] == s@[x]))
    } by {
        let k = content(channel);
        assert forall|x: Seq<u8>| x != k implies (#[trigger] final(s)@.contains_key(x)
            == s@.contains_key(x) && (s@.contains_key(x) ==> final(s)@[x] == s@[x])) by {
            assert(final(s)@.remove(k).contains_key(x) == final(s)@.contains_key(x));
            assert(s@.remove(k).contains_key(x) == s@.contains_key(x));
            assert(final(s)@.remove(k)[x] == s@.remove(k)[x]);
        }
        assert(final(s)@.contains_key(k));
        assert(feeds(final(s)@[k], r));
        assert(s@.contains_key(k) ==> final(s)@[k] == s@[k]);
    }
}

/// Every write goes, whole, over the stream that the replicas listen to.
pub proof fn law_streams_are_whole(hub: &ReplicationHub, args: &[Bytes])
    ensures
        call_ensures(ReplicationHub::publish, (hub, args), ()) ==> exists|outcome: Option<usize>|
            #[trigger] sent_command(hub@, contents(args@), outcome),
        forall|d: (&Sender<Vec<Bytes>>, Vec<Bytes>)| #[trigger]
            call_ensures(ReplicationHub::delivery, (hub, args), d) ==> *d.0 == hub@ && contents(
                d.1@,
            ) == contents(args@),
        forall|r: Receiver<Vec<Bytes>>| #[trigger]
            call_ensures(ReplicationHub::subscribe, (hub,), r) ==> feeds_commands(hub@, r),
{
}

/// Of the nodes of a cluster the owner of a slot is the one that stands in the
/// list where the slot stands among all slots; its address and its ranges are
/// given as such.
pub proof fn law_clusters_know_their_owners(
    config: &ClusterConfig,
    slot: u16,
    index: usize,
    owner: usize,
)
    requires
        slot < 16384,
        config.node_list().len() > 0,
        call_ensures(ClusterConfig::owner_index, (config, slot), owner),
    ensures
        owner < config.node_list().len(),
        owner * 16384 <= slot * config.node_list().len() < (owner + 1) * 16384,
        forall|owned: bool| #[trigger]
            call_ensures(ClusterConfig::owns, (config, slot), owned) ==> owned == (owner
                == config.own_index()),
        forall|addr: &(String, u16)| #[trigger]
            call_ensures(ClusterConfig::owner_addr, (config, slot), addr) ==> *addr
                == config.node_list()[owner as int],
        forall|ranges: Vec<(u16, u16)>| #[trigger]
            call_ensures(ClusterConfig::slot_ranges_for_index, (config, index), ranges) ==> ((
            exists|i: int|
                0 <= i < ranges@.len() && (#[trigger] ranges@[i]).0 <= slot <= ranges@[i].1)
                <==> index * 16384 <= slot * config.node_list().len() < (index + 1) * 16384),
{
    let n = config.node_list().len() as int;
    law_owner_is_proportional(slot as int, n);
    assert forall|ranges: Vec<(u16, u16)>| #[trigger]
        call_ensures(ClusterConfig::slot_ranges_for_index, (config, index), ranges) implies ((
    exists|i: int| 0 <= i < ranges@.len() && (#[trigger] ranges@[i]).0 <= slot <= ranges@[i].1)
        <==> index * 16384 <= slot * config.node_list().len() < (index + 1) * 16384) by {
        let o = config.owner(slot as int);
        let i = index as int;
        assert(o == i <==> i * 16384 <= slot * n < (i + 1) * 16384) by (nonlinear_arith)
            requires
                o * 16384 <= slot * n < (o + 1) * 16384,
        ;
        if ranges@.len() == 1 {
            assert(config.owner(slot as int) == index <==> ranges@[0].0 <= slot <= ranges@[0].1);
        } else {
            assert(config.owner(slot as int) != index);
        }
    }
}

/// What the operator says of the cluster: both options or none, and a position
/// that is in the list.
pub proof fn law_clusters_are_configured(list: &str, index: usize)
    ensures
        forall|r: Result<Vec<(String, u16)>, String>| #[trigger]
            call_ensures(parse_cluster_nodes, (list,), r) ==> match r {
                Ok(nodes) => nodes_meaning(list@) == Ok::<Seq<(Seq<char>, u16)>, Seq<char>>(
                    node_views(nodes@),
                ),
                Err(e) => nodes_meaning(list@) == Err::<Seq<(Seq<char>, u16)>, Seq<char>>(e@),
            },
        forall|r: Result<Option<ClusterConfig>, String>| #[trigger]
            call_ensures(cluster_from, (None, None), r) ==> r matches Ok(None),
        forall|r: Result<Option<ClusterConfig>, String>| #[trigger]
            call_ensures(cluster_from, (Some(list), None), r) ==> r is Err,
        forall|r: Result<Option<ClusterConfig>, String>| #[trigger]
            call_ensures(cluster_from, (None, Some(index)), r) ==> r is Err,
        forall|r: Result<Option<ClusterConfig>, String>| #[trigger]
            call_ensures(cluster_from, (Some(list), Some(index)), r) ==> match nodes_meaning(
                list@,
            ) {
                Err(text) => r matches Err(e) && e@ == text,
                Ok(nodes) => if index < nodes.len() {
                    r matches Ok(Some(config)) && node_views(config.node_list()) == nodes
                        && config.own_index() == index
                } else {
                    r is Err
                },
            },
{
}

/// One eviction takes one key away, if there is one, as the laws on eviction say.
pub proof fn law_shards_evict_one()
    ensures
        forall|s: &mut Shard| #[trigger]
            call_ensures(Shard::evict_one, (s,), ()) && s.wf() ==> if s@.entries.dom().len() == 0 {
                final(s)@ == s@
            } else {
                exists|victim: Seq<u8>| #[trigger]
                    may_evict(s@.entries, None, victim) && final(s)@.entries == s@.entries.remove(
                        victim,
                    )
            },
{
}

/// `INFO` says how many shards there are.
pub proof fn law_info(
    before: StoreView,
    channels: Set<Seq<u8>>,
    now: u64,
    reply: ReplyView,
    after: StoreView,
)
    requires
        outcome(before, channels, CommandView::Info, now, reply, after),
    ensures
        reply == ReplyView::Bulk(
            encode_utf8("# Server\r\nimcache_version:0.1.0\r\nmode:standalone\r\nshards:"@)
                + dec_nat(before.shards.len()) + seq![0x0du8, 0x0au8],
        ),
{
}

/// Everything whose counts are signed 64-bit numbers fits a snapshot; a string
/// always does.
pub proof fn law_what_fits_a_snapshot(value: ValueView)
    requires
        match value {
            ValueView::Str(_) => true,
            ValueView::List(items) => items.len() <= i64::MAX && forall|i: int|
                0 <= i < items.len() ==> (#[trigger] items[i]).len() <= i64::MAX,
            ValueView::Hash(fields) => 2 * fields.dom().len() <= i64::MAX && forall|k: Seq<u8>|
                #[trigger] fields.contains_key(k) ==> k.len() <= i64::MAX && fields[k].len()
                    <= i64::MAX,
            ValueView::Members(members) => members.len() <= i64::MAX && forall|k: Seq<u8>|
                #[trigger] members.contains(k) ==> k.len() <= i64::MAX,
            ValueView::Sorted(members) => 2 * members.dom().len() <= i64::MAX && forall|k: Seq<u8>|
                #[trigger] members.contains_key(k) ==> k.len() <= i64::MAX && members[k].whole.len()
                    + members[k].fraction.len() + 3 <= i64::MAX,
        },
    ensures
        fits(value),
{
}

/// A node without a colon is none, and neither is one whose port is no port; the
/// complaint names it.
pub proof fn law_bad_nodes_are_named(text: Seq<char>)
    requires
        !text.contains(','),
    ensures
        colon_before(encode_utf8(text), encode_utf8(text).len() as int) is None ==> nodes_meaning(
            text,
        ) == Err::<Seq<(Seq<char>, u16)>, Seq<char>>(
            "invalid cluster node '"@ + text + "', expected host:port"@,
        ),
        colon_before(encode_utf8(text), encode_utf8(text).len() as int) matches Some(colon) ==> (
        u16_value(encode_utf8(text).skip(colon + 1)) is None ==> nodes_meaning(text) == Err::<
            Seq<(Seq<char>, u16)>,
            Seq<char>,
        >("invalid port in cluster node '"@ + text + "'"@)),
{
    let list = encode_utf8(text);
    crate::config::lemma_no_comma(text);
    crate::config::lemma_comma_found(list, 0, list.len() as int);
    assert(list.take(list.len() as int) =~= list);
    vstd::utf8::encode_utf8_decode_utf8(text);
}

/// The colon before a port is the last one.
pub proof fn law_last_colon_counts(s: Seq<u8>, end: int)
    requires
        0 <= end <= s.len(),
    ensures
        match colon_before(s, end) {
            Some(c) => 0 <= c < end && s[c] == 0x3a && forall|i: int|
                c < i < end ==> #[trigger] s[i] != 0x3a,
            None => forall|i: int| 0 <= i < end ==> #[trigger] s[i] != 0x3a,
        },
    decreases end,
{
    if end > 0 && s[end - 1] != 0x3a {
        law_last_colon_counts(s, end - 1);
    }
}

/// The milliseconds that a clock says are the time, as long as they are a 64-bit
/// number, and a clock before the epoch says 0. An entry is expired from its
/// expiry time on, and one without never.
pub proof fn law_times_are_taken(ms: u64, entry: &Entry, now: u64)
    ensures
        forall|t: u64| #[trigger] call_ensures(time_of, (Some(ms as u128),), t) ==> t == ms,
        forall|t: u64| #[trigger] call_ensures(time_of, (None,), t) ==> t == 0,
        forall|e: bool| #[trigger]
            call_ensures(is_expired, (entry, now), e) ==> e == (match entry.expires_at_ms {
                Some(at) => at <= now,
                None => false,
            }),
{
}

/// Why a link ended tells whether it was before the snapshot or after.
pub proof fn law_ended_links_say_why(link: &ReplicaLink, text: &'static str)
    requires
        call_ensures(ReplicaLink::closed_text, (link,), text),
    ensures
        link.is_synced() ==> text@ == "primary connection closed"@,
        !link.is_synced() ==> text@ == "primary closed connection during initial sync"@,
{
}

/// `Store::for_each_live_entry_at` calls the function on every entry that is
/// found, with its key.
pub proof fn law_every_entry_is_visited<F: FnMut(&Bytes, &Entry)>(s: &Store, f: F, now: u64)
    ensures
        call_ensures(Store::for_each_live_entry_at::<F>, (s, f, now), ()) ==> exists|
            list: Seq<(Bytes, Entry)>,
        |
            lists_found(s@, #[trigger] pairs_of(list), now) && forall|i: int|
                0 <= i < list.len() ==> f.ensures((&(#[trigger] list[i]).0, &list[i].1), ()),
        call_ensures(Store::for_each_live_entry::<F>, (s, f), ()) ==> exists|
            list: Seq<(Bytes, Entry)>,
            t: u64,
        |
            #[trigger] lists_found(s@, pairs_of(list), t) && forall|i: int|
                0 <= i < list.len() ==> f.ensures((&(#[trigger] list[i]).0, &list[i].1), ()),
{
    assert forall|list: Seq<(Seq<u8>, EntryView)>, t: u64| #[trigger]
        s@.lists_live(list, t) implies lists_found(s@, list, t) by {
        crate::store_laws::lemma_lists(s@, list, t);
    }
    if call_ensures(Store::for_each_live_entry::<F>, (s, f), ()) {
        let (list, t) = choose|list: Seq<(Bytes, Entry)>, t: u64|
            {
                &&& #[trigger] s@.lists_live(pairs_of(list), t)
                &&& forall|i: int|
                    0 <= i < list.len() ==> f.ensures((&(#[trigger] list[i]).0, &list[i].1), ())
            };
        assert(lists_found(s@, pairs_of(list), t));
    }
}

} // verus!
