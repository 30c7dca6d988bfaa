//! The log, snapshots, and what a restart recovers.

use bytes::{Bytes, BytesMut};
use imcache::commands::parse_at;
use imcache::execute::execute_at;
use imcache::persistence::aof::{
    read_stamp, record, replay, replay_at, stamp, unstamp, FsyncPolicy,
};
use imcache::persistence::snapshot::{
    decode_records, encode_records, load, pack_entries, resync, save, save_at, unpack_entries,
    SnapshotError,
};
use imcache::pubsub::PubSub;
use imcache::resp::{encode_reply, Reply};
use imcache::server::{serve_at, Step};
use imcache::store::Store;
use imcache::value::{Entry, Value};

const NOW: u64 = 1_000_000;

fn request(words: &[&str]) -> Vec<Bytes> {
    words
        .iter()
        .map(|w| Bytes::copy_from_slice(w.as_bytes()))
        .collect()
}

fn wire(reply: &Reply) -> String {
    let mut out = Vec::new();
    encode_reply(reply, &mut out);
    String::from_utf8(out).unwrap()
}

fn run_at(store: &mut Store, words: &[&str], now: u64) -> String {
    let cmd = parse_at(&request(words), now).unwrap();
    wire(&execute_at(store, &PubSub::new(), &cmd, now))
}

/// Serves requests at the given time and returns the log of the writes among
/// them.
fn serve_from(store: &mut Store, requests: &[&[&str]], now: u64) -> Vec<u8> {
    let mut log = Vec::new();
    for words in requests {
        match serve_at(store, &PubSub::new(), &request(words), &None, false, now) {
            Step::Done { line, .. } => {
                if let Some(line) = line {
                    log.extend_from_slice(&record(&line));
                }
            }
            _ => panic!("expected the request to be executed"),
        }
    }
    log
}

fn serve(store: &mut Store, requests: &[&[&str]]) -> Vec<u8> {
    serve_from(store, requests, NOW)
}

#[test]
fn restart_recovers_from_aof() {
    let mut store = Store::new(None);
    let log = serve(
        &mut store,
        &[
            &["SET", "durable-key", "durable-value"],
            &["SET", "another-key", "another-value"],
        ],
    );
    let mut restarted = Store::new(None);
    replay(&mut BytesMut::from(&log[..]), &mut restarted);
    assert_eq!(
        run_at(&mut restarted, &["GET", "durable-key"], NOW),
        "$13\r\ndurable-value\r\n"
    );
    assert_eq!(
        run_at(&mut restarted, &["GET", "another-key"], NOW),
        "$13\r\nanother-value\r\n"
    );
}

#[test]
fn bgsave_snapshot_survives_restart() {
    let mut store = Store::new(None);
    serve(&mut store, &[&["SET", "snap-key", "snap-value"]]);
    let bytes = save(&store).unwrap();
    let mut restarted = Store::new(None);
    assert_eq!(load(&mut restarted, &bytes).unwrap(), 1);
    assert_eq!(
        run_at(&mut restarted, &["GET", "snap-key"], NOW),
        "$10\r\nsnap-value\r\n"
    );
}

#[test]
fn reads_do_not_go_to_the_log() {
    let mut store = Store::new(None);
    let log = serve(
        &mut store,
        &[&["GET", "a"], &["SET", "a", "1"], &["INCR", "a"], &["TTL", "a"]],
    );
    assert_eq!(
        String::from_utf8(log).unwrap(),
        "*5\r\n$2\r\nAT\r\n$7\r\n1000000\r\n$3\r\nSET\r\n$1\r\na\r\n$1\r\n1\r\n\
         *4\r\n$2\r\nAT\r\n$7\r\n1000000\r\n$4\r\nINCR\r\n$1\r\na\r\n"
    );
}

#[test]
fn log_replays_every_kind_of_value() {
    let mut store = Store::new(None);
    let log = serve(
        &mut store,
        &[
            &["RPUSH", "l", "a", "b", "c"],
            &["LPOP", "l"],
            &["HSET", "h", "f", "1"],
            &["SADD", "s", "m"],
            &["DEL", "gone"],
            &["INCRBY", "n", "5"],
            &["APPEND", "n", "0"],
        ],
    );
    let mut other = Store::new(None);
    replay_at(&mut BytesMut::from(&log[..]), &mut other, NOW);
    assert_eq!(
        run_at(&mut other, &["LRANGE", "l", "0", "-1"], NOW),
        "*2\r\n$1\r\nb\r\n$1\r\nc\r\n"
    );
    assert_eq!(run_at(&mut other, &["HGET", "h", "f"], NOW), "$1\r\n1\r\n");
    assert_eq!(run_at(&mut other, &["SISMEMBER", "s", "m"], NOW), ":1\r\n");
    assert_eq!(run_at(&mut other, &["GET", "n"], NOW), "$2\r\n50\r\n");
}

#[test]
fn log_that_was_cut_short_replays_what_is_whole() {
    let mut store = Store::new(None);
    let log = serve(&mut store, &[&["SET", "a", "1"], &["SET", "b", "2"]]);
    for cut in 1..27 {
        let mut other = Store::new(None);
        replay_at(
            &mut BytesMut::from(&log[..log.len() - cut]),
            &mut other,
            NOW,
        );
        assert_eq!(run_at(&mut other, &["GET", "a"], NOW), "$1\r\n1\r\n");
        assert_eq!(run_at(&mut other, &["GET", "b"], NOW), "$-1\r\n");
    }
}

#[test]
fn replay_passes_over_what_is_no_command_and_stops_at_garbage() {
    let mut store = Store::new(None);
    let log = b"\r\nNONSENSE x\r\nSET a 1\r\n*x\r\nSET b 2\r\n";
    replay_at(&mut BytesMut::from(&log[..]), &mut store, NOW);
    assert_eq!(run_at(&mut store, &["GET", "a"], NOW), "$1\r\n1\r\n");
    assert_eq!(run_at(&mut store, &["GET", "b"], NOW), "$-1\r\n");
}

#[test]
fn fsync_policy_is_read_in_either_case() {
    assert_eq!(FsyncPolicy::parse("always"), Some(FsyncPolicy::Always));
    assert_eq!(FsyncPolicy::parse("EverySec"), Some(FsyncPolicy::EverySec));
    assert_eq!(FsyncPolicy::parse("no"), Some(FsyncPolicy::Never));
    assert_eq!(FsyncPolicy::parse("NEVER"), Some(FsyncPolicy::Never));
    assert_eq!(FsyncPolicy::parse("sometimes"), None);
    assert_eq!(FsyncPolicy::parse(""), None);
    assert!(FsyncPolicy::Always.syncs_each_write());
    assert!(!FsyncPolicy::EverySec.syncs_each_write());
}

#[test]
fn snapshot_of_a_string_has_the_expected_bytes() {
    let list = vec![(
        Bytes::from_static(b"k"),
        Entry {
            value: Value::Str(Bytes::from_static(b"ab")),
            expires_at_ms: Some(258),
            last_access: 3,
        },
    )];
    let bytes = pack_entries(&list).unwrap();
    let mut want: Vec<u8> = Vec::new();
    want.extend_from_slice(&1u64.to_le_bytes());
    want.extend_from_slice(&1u64.to_le_bytes());
    want.extend_from_slice(b"k");
    want.extend_from_slice(&0u32.to_le_bytes());
    want.extend_from_slice(&2u64.to_le_bytes());
    want.extend_from_slice(b"ab");
    want.push(1);
    want.extend_from_slice(&258u64.to_le_bytes());
    want.extend_from_slice(&3u64.to_le_bytes());
    assert_eq!(bytes, want);
}

#[test]
fn snapshot_restores_every_kind_of_value() {
    let mut store = Store::new(None);
    for words in [
        &["SET", "str", "v", "PX", "500"][..],
        &["RPUSH", "l", "a", "b", ""][..],
        &["HSET", "h", "f", "1", "g", "2"][..],
        &["SADD", "s", "x", "y"][..],
        &["SET", "old", "v", "PX", "5"][..],
    ] {
        run_at(&mut store, words, NOW);
    }
    let bytes = save_at(&store, NOW + 10).unwrap();
    let mut other = Store::new(None);
    run_at(&mut other, &["SET", "kept", "v"], NOW);
    assert_eq!(load(&mut other, &bytes).unwrap(), 4);
    assert_eq!(run_at(&mut other, &["PTTL", "str"], NOW + 10), ":490\r\n");
    assert_eq!(
        run_at(&mut other, &["LRANGE", "l", "0", "-1"], NOW),
        "*3\r\n$1\r\na\r\n$1\r\nb\r\n$0\r\n\r\n"
    );
    assert_eq!(run_at(&mut other, &["HGET", "h", "g"], NOW), "$1\r\n2\r\n");
    assert_eq!(run_at(&mut other, &["SISMEMBER", "s", "y"], NOW), ":1\r\n");
    assert_eq!(run_at(&mut other, &["EXISTS", "old", "kept"], NOW), ":1\r\n");
    assert_eq!(resync(&mut other, &bytes).unwrap(), 4);
    assert_eq!(run_at(&mut other, &["EXISTS", "kept"], NOW), ":0\r\n");
    assert_eq!(unpack_entries(&bytes).unwrap().len(), 4);
}

#[test]
fn unreadable_snapshot_leaves_the_store_alone() {
    let mut store = Store::new(None);
    run_at(&mut store, &["SET", "k", "v"], NOW);
    let error = load(&mut store, b"garbage").unwrap_err();
    assert!(matches!(error, SnapshotError::Unpack(_)));
    assert!(!error.text().is_empty());
    assert!(resync(&mut store, &[]).is_err());
    assert_eq!(run_at(&mut store, &["GET", "k"], NOW), "$1\r\nv\r\n");
}

#[test]
fn records_without_a_value_are_refused() {
    let good = (b"k".to_vec(), 1u32, b"*1\r\n$1\r\na\r\n".to_vec(), None, 0u64);
    assert_eq!(decode_records(vec![good.clone()]).unwrap().len(), 1);
    for (kind, data) in [
        (9u32, b"*1\r\n$1\r\na\r\n".to_vec()),
        (1, b"*0\r\n".to_vec()),
        (1, b"*1\r\n$1\r\na\r\nmore".to_vec()),
        (1, b"*2\r\n$1\r\na\r\n".to_vec()),
        (2, b"*1\r\n$1\r\na\r\n".to_vec()),
        (3, b"*x\r\n".to_vec()),
    ] {
        let bad = (b"k".to_vec(), kind, data, None, 0u64);
        let error = decode_records(vec![good.clone(), bad]).unwrap_err();
        assert!(matches!(error, SnapshotError::BadRecord));
        assert_eq!(error.text(), "record in snapshot holds no value");
    }
    assert_eq!(
        SnapshotError::TooLarge.text(),
        "collection too large for a snapshot"
    );
}

#[test]
fn records_hold_collections_as_arrays() {
    let mut list = Value::List(std::collections::VecDeque::new());
    list.push_items(&[Bytes::from_static(b"a")], false);
    let entry = Entry {
        value: list,
        expires_at_ms: None,
        last_access: 1,
    };
    let records = encode_records(&vec![(Bytes::from_static(b"l"), entry)]).unwrap();
    assert_eq!(
        records,
        vec![(b"l".to_vec(), 1, b"*1\r\n$1\r\na\r\n".to_vec(), None, 1)]
    );
}

#[test]
fn snapshot_and_log_together_recover_everything() {
    let mut store = Store::new(None);
    serve(&mut store, &[&["SET", "a", "1"], &["RPUSH", "l", "x"]]);
    let bytes = save(&store).unwrap();
    let log = serve(
        &mut store,
        &[
            &["INCR", "a"],
            &["GET", "a"],
            &["RPOP", "l"],
            &["SET", "b", "2"],
        ],
    );
    let mut recovered = Store::new(None);
    load(&mut recovered, &bytes).unwrap();
    replay(&mut BytesMut::from(&log[..]), &mut recovered);
    for words in [
        &["MGET", "a", "b", "c"][..],
        &["EXISTS", "l"][..],
        &["TYPE", "a"][..],
    ] {
        assert_eq!(
            run_at(&mut recovered, words, NOW),
            run_at(&mut store, words, NOW)
        );
    }
}

#[test]
fn log_replays_the_same_at_any_time() {
    let mut store = Store::new(None);
    let log = serve(
        &mut store,
        &[
            &["SET", "a", "1", "NX"],
            &["SET", "a", "2", "NX"],
            &["APPEND", "a", "3"],
            &["SADD", "s", "m"],
        ],
    );
    for now in [0, NOW, u64::MAX] {
        let mut other = Store::new(None);
        replay_at(&mut BytesMut::from(&log[..]), &mut other, now);
        assert_eq!(run_at(&mut other, &["GET", "a"], NOW), "$2\r\n13\r\n");
        assert_eq!(run_at(&mut other, &["SISMEMBER", "s", "m"], NOW), ":1\r\n");
    }
}

#[test]
fn expired_keys_stay_expired_when_the_log_is_replayed() {
    let mut store = Store::new(None);
    let mut log = serve_from(&mut store, &[&["SET", "k", "v", "PX", "1000"]], NOW);
    let mut early = Store::new(None);
    replay_at(&mut BytesMut::from(&log[..]), &mut early, NOW + 400);
    assert_eq!(run_at(&mut early, &["PTTL", "k"], NOW + 400), ":600\r\n");
    let mut late = Store::new(None);
    replay_at(&mut BytesMut::from(&log[..]), &mut late, NOW + 5000);
    assert_eq!(run_at(&mut late, &["GET", "k"], NOW + 5000), "$-1\r\n");

    // What happened while the key was live is replayed as of that time.
    log.extend(serve_from(&mut store, &[&["SET", "n", "5", "PX", "1000"]], NOW));
    log.extend(serve_from(&mut store, &[&["INCR", "n"]], NOW + 500));
    log.extend(serve_from(&mut store, &[&["SET", "k", "w", "NX"]], NOW + 999));
    log.extend(serve_from(&mut store, &[&["EXPIRE", "n", "60"]], NOW + 999));
    let mut late = Store::new(None);
    replay_at(&mut BytesMut::from(&log[..]), &mut late, NOW + 30_000);
    for words in [&["GET", "k"][..], &["GET", "n"][..], &["PTTL", "n"][..]] {
        assert_eq!(
            run_at(&mut late, words, NOW + 30_000),
            run_at(&mut store, words, NOW + 30_000)
        );
    }
    assert_eq!(run_at(&mut late, &["GET", "n"], NOW + 30_000), "$1\r\n6\r\n");
    assert_eq!(run_at(&mut late, &["GET", "k"], NOW + 30_000), "$-1\r\n");
}

#[test]
fn lines_hold_the_request_behind_its_time() {
    let line = stamp(&request(&["SET", "k", "v"]), u64::MAX);
    assert_eq!(line, request(&["AT", "18446744073709551615", "SET", "k", "v"]));
    assert_eq!(read_stamp(&line), Some(u64::MAX));
    assert_eq!(unstamp(&line, 7), (request(&["SET", "k", "v"]), u64::MAX));
    for plain in [&["SET", "k", "v"][..], &["AT"], &["AT", "x", "y"], &["at", "1", "y"], &[]] {
        assert_eq!(read_stamp(&request(plain)), None);
        assert_eq!(unstamp(&request(plain), 7), (request(plain), 7));
    }
}

#[test]
fn lines_without_a_time_are_replayed_as_of_now() {
    let log = record(&request(&["SET", "k", "v", "PX", "1000"]));
    let mut store = Store::new(None);
    replay_at(&mut BytesMut::from(&log[..]), &mut store, NOW);
    assert_eq!(run_at(&mut store, &["PTTL", "k"], NOW), ":1000\r\n");
}

#[test]
fn sorted_sets_survive_a_restart() {
    let mut store = Store::new(None);
    serve(&mut store, &[&["ZADD", "z", "2", "b", "1.5", "a"]]);
    let bytes = save_at(&store, NOW).unwrap();
    let log = serve(&mut store, &[&["ZADD", "z", "-1", "c"], &["ZREM", "z", "b"]]);
    let mut recovered = Store::new(None);
    assert_eq!(load(&mut recovered, &bytes).unwrap(), 1);
    assert_eq!(
        run_at(&mut recovered, &["ZRANGE", "z", "0", "-1", "WITHSCORES"], NOW),
        "*4\r\n$1\r\na\r\n$3\r\n1.5\r\n$1\r\nb\r\n$1\r\n2\r\n"
    );
    replay_at(&mut BytesMut::from(&log[..]), &mut recovered, NOW + 1);
    assert_eq!(
        run_at(&mut recovered, &["ZRANGE", "z", "0", "-1"], NOW),
        "*2\r\n$1\r\nc\r\n$1\r\na\r\n"
    );
    let list = unpack_entries(&bytes).unwrap();
    assert_eq!(
        encode_records(&list).unwrap(),
        vec![(
            b"z".to_vec(),
            4,
            b"*4\r\n$1\r\na\r\n$3\r\n1.5\r\n$1\r\nb\r\n$1\r\n2\r\n".to_vec(),
            None,
            list[0].1.last_access,
        )]
    );
    for data in [&b"*2\r\n$1\r\na\r\n$1\r\nx\r\n"[..], b"*1\r\n$1\r\na\r\n", b"*0\r\n"] {
        let bad = (b"z".to_vec(), 4u32, data.to_vec(), None, 0u64);
        assert!(decode_records(vec![bad]).is_err());
    }
}
