//! What connections do: routing, subscribers, and both ends of replication.

use bytes::{Bytes, BytesMut};
use imcache::broadcast::reached;
use imcache::cluster::ClusterConfig;
use imcache::commands::parse_at;
use imcache::execute::execute_at;
use imcache::persistence::aof::stamp;
use imcache::pubsub::PubSub;
use imcache::replica::{
    apply_replicated_at, full_sync_reply, full_sync_reply_at, on_feed_event, sync_request,
    FeedAction, FeedEvent, ReplicaLink, ReplicaStep,
};
use imcache::replication::ReplicationHub;
use imcache::resp::{encode_reply, parse_command, Reply};
use imcache::server::{
    cluster_info_reply, cluster_slots_reply, on_request, on_request_at, protocol_error_reply,
    serve_at, Action, Step,
};
use imcache::store::Store;
use imcache::subscriber::{message_reply, subscribe_reply, SubscriberAction, Subscriptions};

const NOW: u64 = 1_000_000;

fn request(words: &[&str]) -> Vec<Bytes> {
    words
        .iter()
        .map(|w| Bytes::copy_from_slice(w.as_bytes()))
        .collect()
}

fn wire(reply: &Reply) -> String {
    let mut out = Vec::new();
    encode_reply(reply, &mut out);
    String::from_utf8(out).unwrap()
}

fn run_at(store: &mut Store, words: &[&str]) -> String {
    let cmd = parse_at(&request(words), NOW).unwrap();
    wire(&execute_at(store, &PubSub::new(), &cmd, NOW))
}

fn two_nodes(own: usize) -> Option<ClusterConfig> {
    Some(ClusterConfig::new(
        vec![("10.0.0.1".to_string(), 6380), ("b".to_string(), 6381)],
        own,
    ))
}

fn said(action: Action) -> String {
    match action {
        Action::Say(reply) => wire(&reply),
        _ => panic!("expected a reply"),
    }
}

#[test]
fn ordinary_commands_are_executed() {
    match on_request_at(&request(&["SET", "k", "v"]), &None, false, NOW) {
        Action::Execute { write, close, .. } => assert!(write && !close),
        _ => panic!("expected execution"),
    }
    match on_request(&request(&["quit"]), &None, true) {
        Action::Execute { write, close, .. } => assert!(!write && close),
        _ => panic!("expected execution"),
    }
}

#[test]
fn empty_requests_and_nonsense() {
    assert!(matches!(on_request(&[], &None, false), Action::Wait));
    assert_eq!(
        said(on_request(&request(&["nope"]), &None, false)),
        "-ERR unknown command 'NOPE'\r\n"
    );
    let mut buf = BytesMut::from(&b"*x\r\n"[..]);
    let error = parse_command(&mut buf).unwrap_err();
    assert_eq!(
        wire(&protocol_error_reply(&error)),
        "-ERR protocol error: protocol error: invalid array length\r\n"
    );
}

#[test]
fn some_commands_take_the_connection_over() {
    match on_request(&request(&["SUBSCRIBE", "a", "b"]), &None, false) {
        Action::Subscribe(channels) => assert_eq!(channels, request(&["a", "b"])),
        _ => panic!("expected a subscription"),
    }
    match on_request(&request(&["BGSAVE"]), &None, true) {
        Action::Save(reply) => assert_eq!(wire(&reply), "+Background saving started\r\n"),
        _ => panic!("expected a snapshot"),
    }
    assert!(matches!(
        on_request(&request(&["SYNC"]), &None, false),
        Action::Feed
    ));
}

#[test]
fn replicas_refuse_writes() {
    assert_eq!(
        said(on_request(&request(&["SET", "k", "v"]), &None, true)),
        "-READONLY You can't write against a read only replica.\r\n"
    );
    assert!(matches!(
        on_request(&request(&["GET", "k"]), &None, true),
        Action::Execute { .. }
    ));
}

#[test]
fn cluster_nodes_redirect_to_the_owner() {
    let cluster = two_nodes(0);
    assert_eq!(
        said(on_request(&request(&["GET", "foo"]), &cluster, false)),
        "-MOVED 12182 b:6381\r\n"
    );
    assert!(matches!(
        on_request(&request(&["GET", "bar"]), &cluster, false),
        Action::Execute { .. }
    ));
    assert_eq!(
        said(on_request(&request(&["GET", "bar"]), &two_nodes(1), false)),
        "-MOVED 5061 10.0.0.1:6380\r\n"
    );
    assert!(matches!(
        on_request(&request(&["PING"]), &cluster, false),
        Action::Execute { .. }
    ));
}

#[test]
fn cluster_nodes_refuse_keys_of_different_slots() {
    let cluster = two_nodes(0);
    assert_eq!(
        said(on_request(&request(&["MGET", "bar", "foo"]), &cluster, false)),
        "-CROSSSLOT Keys in request don't hash to the same slot\r\n"
    );
    assert!(matches!(
        on_request(&request(&["DEL", "bar", "bar"]), &cluster, false),
        Action::Execute { .. }
    ));
}

#[test]
fn cluster_info_and_slots() {
    assert_eq!(
        wire(&cluster_info_reply(&None)),
        "$86\r\ncluster_enabled:0\r\ncluster_state:ok\r\ncluster_slots_assigned:0\r\ncluster_known_nodes:1\r\n\r\n"
    );
    assert_eq!(
        wire(&cluster_info_reply(&two_nodes(1))),
        "$90\r\ncluster_enabled:1\r\ncluster_state:ok\r\ncluster_slots_assigned:16384\r\ncluster_known_nodes:2\r\n\r\n"
    );
    assert_eq!(wire(&cluster_slots_reply(&None)), "*0\r\n");
    assert_eq!(
        said(on_request(&request(&["CLUSTER", "slots"]), &two_nodes(0), false)),
        "*2\r\n*3\r\n:0\r\n:8191\r\n*2\r\n$8\r\n10.0.0.1\r\n:6380\r\n*3\r\n:8192\r\n:16383\r\n*2\r\n$1\r\nb\r\n:6381\r\n"
    );
    assert_eq!(
        said(on_request(&request(&["CLUSTER", "x"]), &None, false)),
        "-ERR syntax error\r\n"
    );
    assert_eq!(
        said(on_request(&request(&["CLUSTER"]), &None, false)),
        "-ERR wrong number of arguments for 'cluster' command\r\n"
    );
}

fn steps_of(steps: &[(Bytes, Reply)]) -> Vec<String> {
    steps.iter().map(|(_, reply)| wire(reply)).collect()
}

#[test]
fn subscribers_join_and_leave_channels() {
    let mut subscriptions = Subscriptions::new();
    let steps = subscriptions.start(&request(&["a", "b", "a"]));
    assert_eq!(
        steps_of(&steps),
        vec![
            "*3\r\n$9\r\nsubscribe\r\n$1\r\na\r\n:1\r\n",
            "*3\r\n$9\r\nsubscribe\r\n$1\r\nb\r\n:2\r\n",
            "*3\r\n$9\r\nsubscribe\r\n$1\r\na\r\n:2\r\n",
        ]
    );
    match subscriptions.on_request(&request(&["SUBSCRIBE", "c"])) {
        SubscriberAction::Join(steps) => assert_eq!(
            steps_of(&steps),
            vec!["*3\r\n$9\r\nsubscribe\r\n$1\r\nc\r\n:3\r\n"]
        ),
        _ => panic!("expected to join"),
    }
    match subscriptions.on_request(&request(&["UNSUBSCRIBE", "b", "x"])) {
        SubscriberAction::Leave { steps, done } => {
            assert_eq!(
                steps_of(&steps),
                vec![
                    "*3\r\n$11\r\nunsubscribe\r\n$1\r\nb\r\n:2\r\n",
                    "*3\r\n$11\r\nunsubscribe\r\n$1\r\nx\r\n:2\r\n",
                ]
            );
            assert!(!done);
        }
        _ => panic!("expected to leave"),
    }
    match subscriptions.on_request_at(&request(&["UNSUBSCRIBE"]), NOW) {
        SubscriberAction::Leave { steps, done } => {
            assert_eq!(
                steps_of(&steps),
                vec![
                    "*3\r\n$11\r\nunsubscribe\r\n$1\r\nc\r\n:1\r\n",
                    "*3\r\n$11\r\nunsubscribe\r\n$1\r\na\r\n:0\r\n",
                ]
            );
            assert!(done);
        }
        _ => panic!("expected to leave"),
    }
}

#[test]
fn subscribers_may_only_ping_besides() {
    let mut subscriptions = Subscriptions::new();
    subscriptions.start(&request(&["a"]));
    assert!(matches!(
        subscriptions.on_request(&[]),
        SubscriberAction::Wait
    ));
    let mut say = |words: &[&str]| match subscriptions.on_request(&request(words)) {
        SubscriberAction::Say(reply) => wire(&reply),
        _ => panic!("expected a reply"),
    };
    assert_eq!(say(&["PING"]), "+PONG\r\n");
    assert_eq!(say(&["PING", "x"]), "$1\r\nx\r\n");
    assert_eq!(
        say(&["GET", "k"]),
        "-ERR only (P)SUBSCRIBE / (P)UNSUBSCRIBE / PING are allowed in this context\r\n"
    );
    assert_eq!(say(&["nope"]), "-ERR unknown command 'NOPE'\r\n");
}

#[test]
fn messages_name_their_channel() {
    assert_eq!(
        wire(&message_reply(
            Bytes::from_static(b"news"),
            Bytes::from_static(b"hi")
        )),
        "*3\r\n$7\r\nmessage\r\n$4\r\nnews\r\n$2\r\nhi\r\n"
    );
    assert_eq!(
        wire(&subscribe_reply(false, Bytes::from_static(b"c"), 0)),
        "*3\r\n$11\r\nunsubscribe\r\n$1\r\nc\r\n:0\r\n"
    );
}

#[test]
fn published_messages_reach_the_subscribers_of_their_channel() {
    let mut pubsub = PubSub::new();
    assert_eq!(pubsub.publish(b"a", Bytes::from_static(b"lost")), 0);
    let mut a = pubsub.subscribe(Bytes::from_static(b"a"));
    let mut b = pubsub.subscribe(Bytes::from_static(b"b"));
    let (_, message) = pubsub.delivery(b"a", Bytes::from_static(b"m")).unwrap();
    assert_eq!(message, Bytes::from_static(b"m"));
    assert!(pubsub.delivery(b"c", Bytes::from_static(b"m")).is_none());
    assert_eq!(pubsub.publish(b"a", Bytes::from_static(b"one")), 1);
    assert_eq!(a.try_recv().unwrap(), Bytes::from_static(b"one"));
    assert!(b.try_recv().is_err());
    drop(a);
    assert_eq!(pubsub.publish(b"a", Bytes::from_static(b"two")), 0);
    let _again = pubsub.subscribe(Bytes::from_static(b"a"));
    assert_eq!(pubsub.publish(b"a", Bytes::from_static(b"three")), 1);
    assert_eq!(reached(None), 0);
    assert_eq!(reached(Some(3)), 3);
}

#[test]
fn replicas_are_fed_every_write() {
    let hub = ReplicationHub::new();
    hub.publish(&request(&["SET", "lost", "1"]));
    let mut feed = hub.subscribe();
    assert_eq!(hub.delivery(&request(&["x"])).1, request(&["x"]));
    hub.publish(&request(&["SET", "k", "v"]));
    assert_eq!(feed.try_recv().unwrap(), request(&["SET", "k", "v"]));
    assert!(feed.try_recv().is_err());
}

#[test]
fn slow_receivers_miss_what_exceeds_the_capacity() {
    let mut pubsub = PubSub::new();
    let mut slow = pubsub.subscribe(Bytes::from_static(b"a"));
    for i in 0..129u8 {
        pubsub.publish(b"a", Bytes::copy_from_slice(&[i]));
    }
    assert!(slow.try_recv().is_err());
    assert_eq!(slow.try_recv().unwrap(), Bytes::from_static(&[1]));
    let hub = ReplicationHub::default();
    let mut feed = hub.subscribe();
    for _ in 0..4097 {
        hub.publish(&request(&["INCR", "n"]));
    }
    assert!(feed.try_recv().is_err());
    assert_eq!(feed.len(), 4096);
}

#[test]
fn feed_sends_commands_and_ends_at_a_gap() {
    match on_feed_event(FeedEvent::Command(request(&["DEL", "k"]))) {
        FeedAction::Send(reply) => assert_eq!(wire(&reply), "*2\r\n$3\r\nDEL\r\n$1\r\nk\r\n"),
        _ => panic!("expected a command"),
    }
    assert!(matches!(on_feed_event(FeedEvent::Lagged), FeedAction::Stop));
    assert!(matches!(on_feed_event(FeedEvent::Closed), FeedAction::Stop));
}

#[test]
fn replica_takes_over_the_snapshot_and_follows_the_writes() {
    let mut primary = Store::new(None);
    run_at(&mut primary, &["SET", "a", "1"]);
    run_at(&mut primary, &["RPUSH", "l", "x", "y"]);
    let mut stream = Vec::new();
    encode_reply(&full_sync_reply_at(&primary, NOW).unwrap(), &mut stream);
    for words in [&["INCR", "a"][..], &["LPOP", "l"][..]] {
        run_at(&mut primary, words);
        match on_feed_event(FeedEvent::Command(stamp(&request(words), NOW))) {
            FeedAction::Send(reply) => encode_reply(&reply, &mut stream),
            _ => panic!("expected a command"),
        }
    }
    stream.extend_from_slice(b"PING\r\n*1\r\n$4\r\nFLU");

    let mut replica = Store::new(None);
    run_at(&mut replica, &["SET", "stale", "1"]);
    let pubsub = PubSub::new();
    let mut link = ReplicaLink::new();
    assert_eq!(
        link.closed_text(),
        "primary closed connection during initial sync"
    );
    let mut buf = BytesMut::new();
    let mut written = 0;
    let mut synced = 0;
    for byte in stream {
        buf.extend_from_slice(&[byte]);
        match link.step_at(&mut buf, &mut replica, &pubsub, NOW) {
            ReplicaStep::NeedMore | ReplicaStep::Passed => {}
            ReplicaStep::Synced(n) => synced += n,
            ReplicaStep::Wrote(line) => written += line.len(),
            ReplicaStep::Broken(why) => panic!("{}", why),
        }
    }
    assert_eq!(synced, 2);
    assert_eq!(written, 8);
    assert_eq!(link.closed_text(), "primary connection closed");
    assert_eq!(run_at(&mut replica, &["GET", "a"]), "$1\r\n2\r\n");
    assert_eq!(
        run_at(&mut replica, &["LRANGE", "l", "0", "-1"]),
        "*1\r\n$1\r\ny\r\n"
    );
    assert_eq!(run_at(&mut replica, &["EXISTS", "stale"]), ":0\r\n");
}

#[test]
fn broken_links_are_reported() {
    let mut store = Store::new(None);
    run_at(&mut store, &["SET", "k", "v"]);
    let pubsub = PubSub::new();
    let mut link = ReplicaLink::new();
    let mut buf = BytesMut::from(&b"-ERR no\r\n"[..]);
    match link.step_at(&mut buf, &mut store, &pubsub, NOW) {
        ReplicaStep::Broken(why) => assert_eq!(why, "protocol error: expected '$', got '-'"),
        _ => panic!("expected a broken link"),
    }
    assert_eq!(&buf[..], b"-ERR no\r\n");
    let records = vec![(b"k".to_vec(), 9u32, Vec::<u8>::new(), None::<u64>, 0u64)];
    let blob = Reply::Bulk(Bytes::from(bincode::serialize(&records).unwrap()));
    let mut bytes = Vec::new();
    encode_reply(&blob, &mut bytes);
    match link.step_at(&mut BytesMut::from(&bytes[..]), &mut store, &pubsub, NOW) {
        ReplicaStep::Broken(why) => assert_eq!(why, "record in snapshot holds no value"),
        _ => panic!("expected a broken link"),
    }
    let mut buf = BytesMut::from(&b"$1\r\nx\r\n"[..]);
    assert!(matches!(
        link.step_at(&mut buf, &mut store, &pubsub, NOW),
        ReplicaStep::Broken(_)
    ));
    assert_eq!(run_at(&mut store, &["GET", "k"]), "$1\r\nv\r\n");
}

#[test]
fn replicated_requests_are_told_apart() {
    let mut store = Store::new(None);
    let pubsub = PubSub::new();
    let mut take = |words: &[&str], now: u64| {
        apply_replicated_at(&mut store, &pubsub, request(words), now)
    };
    assert_eq!(
        take(&["SET", "k", "v"], NOW),
        Some(request(&["AT", "1000000", "SET", "k", "v"]))
    );
    let line = ["AT", "1000000", "SET", "t", "v", "PX", "50"];
    assert_eq!(take(&line, NOW + 40), Some(request(&line)));
    assert_eq!(take(&["GET", "k"], NOW), None);
    assert_eq!(take(&["AT", "1000000", "GET", "k"], NOW), None);
    assert_eq!(take(&["nope"], NOW), None);
    assert_eq!(take(&[], NOW), None);
    assert_eq!(run_at(&mut store, &["GET", "k"]), "$1\r\nv\r\n");
    assert_eq!(run_at(&mut store, &["PTTL", "t"]), ":50\r\n");
    assert_eq!(&sync_request()[..], b"*1\r\n$4\r\nSYNC\r\n");
    assert!(matches!(full_sync_reply(&store).unwrap(), Reply::Bulk(_)));
}

#[test]
fn requests_are_served_and_writes_recorded() {
    let mut store = Store::new(None);
    let pubsub = PubSub::new();
    let mut lines = Vec::new();
    let mut replies = Vec::new();
    for words in [
        &["SET", "k", "v", "PX", "10"][..],
        &["GET", "k"],
        &[],
        &["NOPE"],
        &["incr", "n"],
    ] {
        match serve_at(&mut store, &pubsub, &request(words), &None, false, NOW) {
            Step::Wait => {}
            Step::Say(reply) => replies.push(wire(&reply)),
            Step::Done { reply, line, close } => {
                assert!(!close);
                replies.push(wire(&reply));
                lines.extend(line);
            }
            _ => panic!("expected a reply"),
        }
    }
    assert_eq!(
        replies,
        vec![
            "+OK\r\n",
            "$1\r\nv\r\n",
            "-ERR unknown command 'NOPE'\r\n",
            ":1\r\n"
        ]
    );
    assert_eq!(
        lines,
        vec![
            request(&["AT", "1000000", "SET", "k", "v", "PX", "10"]),
            request(&["AT", "1000000", "incr", "n"])
        ]
    );
    let refused = serve_at(&mut store, &pubsub, &request(&["SET", "k", "w"]), &None, true, NOW);
    assert!(matches!(refused, Step::Say(_)));
    assert_eq!(run_at(&mut store, &["GET", "k"]), "$1\r\nv\r\n");
    let mut step = |words: &[&str]| {
        serve_at(&mut store, &pubsub, &request(words), &None, false, NOW)
    };
    assert!(matches!(step(&["SYNC"]), Step::Feed));
    assert!(matches!(step(&["BGSAVE"]), Step::Save(_)));
    assert!(matches!(step(&["SUBSCRIBE", "c"]), Step::Subscribe(_)));
    assert!(matches!(step(&["QUIT"]), Step::Done { line: None, close: true, .. }));
}
