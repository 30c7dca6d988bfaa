//! Requests, what they mean, and what executing them does.

use bytes::Bytes;
use imcache::commands::{parse, parse_at, Command};
use imcache::execute::{execute, execute_at};
use imcache::pubsub::PubSub;
use imcache::resp::{encode_reply, Reply};
use imcache::score::{precedes, Score};
use imcache::store::Store;

const NOW: u64 = 1_000_000;

fn request(words: &[&str]) -> Vec<Bytes> {
    words
        .iter()
        .map(|w| Bytes::copy_from_slice(w.as_bytes()))
        .collect()
}

fn wire(reply: &Reply) -> String {
    let mut out = Vec::new();
    encode_reply(reply, &mut out);
    String::from_utf8(out).unwrap()
}

/// Executes a request at the given time and returns the reply on the wire.
fn run_at(store: &mut Store, words: &[&str], now: u64) -> String {
    let pubsub = PubSub::new();
    match parse_at(&request(words), now) {
        Ok(cmd) => wire(&execute_at(store, &pubsub, &cmd, now)),
        Err(e) => wire(&Reply::Error(e)),
    }
}

fn run(store: &mut Store, words: &[&str]) -> String {
    run_at(store, words, NOW)
}

fn complaint(words: &[&str]) -> String {
    parse_at(&request(words), NOW).unwrap_err()
}

#[test]
fn get_set_del_roundtrip() {
    let mut store = Store::new(None);
    assert_eq!(run(&mut store, &["SET", "greeting", "hello"]), "+OK\r\n");
    assert_eq!(run(&mut store, &["GET", "greeting"]), "$5\r\nhello\r\n");
    assert_eq!(run(&mut store, &["DEL", "greeting"]), ":1\r\n");
    assert_eq!(run(&mut store, &["GET", "greeting"]), "$-1\r\n");
}

#[test]
fn expire_removes_key_after_ttl() {
    let mut store = Store::new(None);
    run(&mut store, &["SET", "temp", "gone-soon"]);
    assert_eq!(run(&mut store, &["PEXPIRE", "temp", "150"]), ":1\r\n");
    assert_eq!(run(&mut store, &["GET", "temp"]), "$9\r\ngone-soon\r\n");
    assert_eq!(run_at(&mut store, &["GET", "temp"], NOW + 800), "$-1\r\n");
}

#[test]
fn incr_and_append_work() {
    let mut store = Store::new(None);
    assert_eq!(run(&mut store, &["INCRBY", "counter", "1"]), ":1\r\n");
    assert_eq!(run(&mut store, &["INCRBY", "counter", "1"]), ":2\r\n");
    run(&mut store, &["SET", "s", "foo"]);
    assert_eq!(run(&mut store, &["APPEND", "s", "bar"]), ":6\r\n");
    assert_eq!(run(&mut store, &["GET", "s"]), "$6\r\nfoobar\r\n");
}

#[test]
fn names_count_in_either_case() {
    let mut store = Store::new(None);
    assert_eq!(run(&mut store, &["set", "k", "v"]), "+OK\r\n");
    assert_eq!(run(&mut store, &["gEt", "k"]), "$1\r\nv\r\n");
}

#[test]
fn ping_and_echo() {
    let mut store = Store::new(None);
    assert_eq!(run(&mut store, &["PING"]), "+PONG\r\n");
    assert_eq!(run(&mut store, &["PING", "hi"]), "$2\r\nhi\r\n");
    assert_eq!(run(&mut store, &["ECHO", "hi"]), "$2\r\nhi\r\n");
    assert_eq!(
        complaint(&["PING", "a", "b"]),
        "ERR wrong number of arguments for 'ping' command"
    );
    assert_eq!(
        complaint(&["echo"]),
        "ERR wrong number of arguments for 'echo' command"
    );
}

#[test]
fn empty_request_is_no_command() {
    assert_eq!(parse(&[]).unwrap_err(), "ERR empty command");
}

#[test]
fn unknown_command_is_named_in_upper_case() {
    assert_eq!(complaint(&["foo", "x"]), "ERR unknown command 'FOO'");
    assert_eq!(complaint(&["zunion"]), "ERR unknown command 'ZUNION'");
    assert_eq!(complaint(&["größe"]), "ERR unknown command 'GRößE'");
    let bad = vec![Bytes::from_static(b"a\xffb")];
    assert_eq!(
        parse(&bad).unwrap_err(),
        "ERR unknown command 'A\u{fffd}B'"
    );
}

#[test]
fn set_reads_its_options() {
    let cmd = parse_at(&request(&["SET", "k", "v", "EX", "10"]), NOW).unwrap();
    assert!(matches!(
        cmd,
        Command::SetKey {
            expires_at_ms: Some(1_010_000),
            nx: false,
            xx: false,
            ..
        }
    ));
    let cmd = parse_at(&request(&["SET", "k", "v", "px", "10", "nx"]), NOW).unwrap();
    assert!(matches!(
        cmd,
        Command::SetKey {
            expires_at_ms: Some(1_000_010),
            nx: true,
            xx: false,
            ..
        }
    ));
    let cmd = parse_at(&request(&["SET", "k", "v", "PX", "-2000000", "XX"]), NOW).unwrap();
    assert!(matches!(
        cmd,
        Command::SetKey {
            expires_at_ms: Some(0),
            nx: false,
            xx: true,
            ..
        }
    ));
    let cmd = parse_at(&request(&["SET", "k", "v", "EX", "1", "PX", "5"]), NOW).unwrap();
    assert!(matches!(
        cmd,
        Command::SetKey {
            expires_at_ms: Some(1_000_005),
            ..
        }
    ));
}

#[test]
fn set_refuses_bad_options() {
    let syntax = "ERR syntax error";
    assert_eq!(complaint(&["SET", "k", "v", "NX", "XX"]), syntax);
    assert_eq!(complaint(&["SET", "k", "v", "EX"]), syntax);
    assert_eq!(complaint(&["SET", "k", "v", "KEEP"]), syntax);
    assert_eq!(
        complaint(&["SET", "k", "v", "EX", "ten"]),
        "ERR value is not an integer or out of range"
    );
    assert_eq!(
        complaint(&["SET", "k"]),
        "ERR wrong number of arguments for 'set' command"
    );
}

#[test]
fn set_with_conditions() {
    let mut store = Store::new(None);
    assert_eq!(run(&mut store, &["SET", "k", "1", "XX"]), "$-1\r\n");
    assert_eq!(run(&mut store, &["SET", "k", "1", "NX"]), "+OK\r\n");
    assert_eq!(run(&mut store, &["SET", "k", "2", "NX"]), "$-1\r\n");
    assert_eq!(run(&mut store, &["GET", "k"]), "$1\r\n1\r\n");
    assert_eq!(run(&mut store, &["SET", "k", "3", "XX"]), "+OK\r\n");
    assert_eq!(run(&mut store, &["GET", "k"]), "$1\r\n3\r\n");
}

#[test]
fn set_with_expiry_in_the_past_is_not_seen() {
    let mut store = Store::new(None);
    assert_eq!(run(&mut store, &["SET", "k", "v", "PX", "0"]), "+OK\r\n");
    assert_eq!(run(&mut store, &["GET", "k"]), "$-1\r\n");
}

#[test]
fn del_and_exists_count_keys() {
    let mut store = Store::new(None);
    run(&mut store, &["MSET", "a", "1", "b", "2"]);
    assert_eq!(run(&mut store, &["EXISTS", "a", "b", "a", "c"]), ":3\r\n");
    assert_eq!(run(&mut store, &["DEL", "a", "a", "c", "b"]), ":2\r\n");
    assert_eq!(run(&mut store, &["EXISTS", "a", "b"]), ":0\r\n");
}

#[test]
fn ttl_tells_what_is_left() {
    let mut store = Store::new(None);
    assert_eq!(run(&mut store, &["TTL", "k"]), ":-2\r\n");
    run(&mut store, &["SET", "k", "v"]);
    assert_eq!(run(&mut store, &["TTL", "k"]), ":-1\r\n");
    assert_eq!(run(&mut store, &["EXPIRE", "k", "5"]), ":1\r\n");
    assert_eq!(run(&mut store, &["PTTL", "k"]), ":5000\r\n");
    assert_eq!(run_at(&mut store, &["TTL", "k"], NOW + 1), ":4\r\n");
    assert_eq!(run(&mut store, &["PERSIST", "k"]), ":1\r\n");
    assert_eq!(run(&mut store, &["PERSIST", "k"]), ":0\r\n");
    assert_eq!(run(&mut store, &["PTTL", "k"]), ":-1\r\n");
}

#[test]
fn expire_in_the_past_removes_the_key() {
    let mut store = Store::new(None);
    assert_eq!(run(&mut store, &["EXPIRE", "k", "5"]), ":0\r\n");
    run(&mut store, &["SET", "k", "v"]);
    assert_eq!(run(&mut store, &["EXPIRE", "k", "-1"]), ":1\r\n");
    assert_eq!(run(&mut store, &["EXISTS", "k"]), ":0\r\n");
    assert_eq!(
        complaint(&["PEXPIRE", "k"]),
        "ERR wrong number of arguments for 'pexpire' command"
    );
    assert_eq!(
        complaint(&["EXPIRE", "k", "x"]),
        "ERR value is not an integer or out of range"
    );
}

#[test]
fn counters_go_up_and_down() {
    let mut store = Store::new(None);
    assert_eq!(run(&mut store, &["INCR", "n"]), ":1\r\n");
    assert_eq!(run(&mut store, &["INCRBY", "n", "41"]), ":42\r\n");
    assert_eq!(run(&mut store, &["DECRBY", "n", "41"]), ":1\r\n");
    assert_eq!(run(&mut store, &["DECR", "n"]), ":0\r\n");
    assert_eq!(run(&mut store, &["DECR", "n"]), ":-1\r\n");
    assert_eq!(run(&mut store, &["GET", "n"]), "$2\r\n-1\r\n");
}

#[test]
fn counters_refuse_what_is_no_number() {
    let mut store = Store::new(None);
    run(&mut store, &["SET", "n", "abc"]);
    assert_eq!(
        run(&mut store, &["INCR", "n"]),
        "-ERR value is not an integer or out of range\r\n"
    );
    assert_eq!(run(&mut store, &["GET", "n"]), "$3\r\nabc\r\n");
    run(&mut store, &["SET", "n", "9223372036854775807"]);
    assert_eq!(
        run(&mut store, &["INCR", "n"]),
        "-ERR increment or decrement would overflow\r\n"
    );
    assert_eq!(
        run(&mut store, &["GET", "n"]),
        "$19\r\n9223372036854775807\r\n"
    );
}

#[test]
fn counters_and_append_keep_the_expiry_time() {
    let mut store = Store::new(None);
    run(&mut store, &["SET", "n", "1", "PX", "100"]);
    run(&mut store, &["INCR", "n"]);
    run(&mut store, &["APPEND", "n", "0"]);
    assert_eq!(run(&mut store, &["PTTL", "n"]), ":100\r\n");
    assert_eq!(run(&mut store, &["GET", "n"]), "$2\r\n20\r\n");
    assert_eq!(run_at(&mut store, &["APPEND", "n", "x"], NOW + 100), ":1\r\n");
    assert_eq!(run_at(&mut store, &["PTTL", "n"], NOW + 100), ":-1\r\n");
}

#[test]
fn mget_and_mset() {
    let mut store = Store::new(None);
    assert_eq!(run(&mut store, &["MSET", "a", "1", "b", "2", "a", "3"]), "+OK\r\n");
    run(&mut store, &["LPUSH", "l", "x"]);
    assert_eq!(
        run(&mut store, &["MGET", "a", "none", "b", "l"]),
        "*4\r\n$1\r\n3\r\n$-1\r\n$1\r\n2\r\n$-1\r\n"
    );
    assert_eq!(
        complaint(&["MSET", "a"]),
        "ERR wrong number of arguments for 'mset' command"
    );
}

#[test]
fn type_names_the_kind() {
    let mut store = Store::new(None);
    run(&mut store, &["SET", "s", "v"]);
    run(&mut store, &["RPUSH", "l", "v"]);
    run(&mut store, &["HSET", "h", "f", "v"]);
    run(&mut store, &["SADD", "m", "v"]);
    assert_eq!(run(&mut store, &["TYPE", "s"]), "+string\r\n");
    assert_eq!(run(&mut store, &["TYPE", "l"]), "+list\r\n");
    assert_eq!(run(&mut store, &["TYPE", "h"]), "+hash\r\n");
    assert_eq!(run(&mut store, &["TYPE", "m"]), "+set\r\n");
    assert_eq!(run(&mut store, &["TYPE", "x"]), "+none\r\n");
}

#[test]
fn flushall_info_config_and_the_rest() {
    let mut store = Store::new(None);
    run(&mut store, &["SET", "k", "v"]);
    assert_eq!(run(&mut store, &["FLUSHALL"]), "+OK\r\n");
    assert_eq!(run(&mut store, &["EXISTS", "k"]), ":0\r\n");
    assert_eq!(
        run(&mut store, &["INFO"]),
        "$61\r\n# Server\r\nimcache_version:0.1.0\r\nmode:standalone\r\nshards:16\r\n\r\n"
    );
    assert_eq!(
        run(&mut store, &["CONFIG", "GET", "save"]),
        "*2\r\n$4\r\nsave\r\n$0\r\n\r\n"
    );
    assert_eq!(run(&mut store, &["config", "set", "save", "x"]), "+OK\r\n");
    assert_eq!(complaint(&["CONFIG", "SET", "save"]), "ERR syntax error");
    assert_eq!(
        complaint(&["CONFIG", "GET"]),
        "ERR wrong number of arguments for 'config' command"
    );
    assert_eq!(
        run(&mut store, &["BGSAVE"]),
        "+Background saving started\r\n"
    );
    assert_eq!(run(&mut store, &["QUIT"]), "+OK\r\n");
    assert_eq!(
        run(&mut store, &["SYNC"]),
        "-ERR command not allowed in this context\r\n"
    );
}

#[test]
fn lists_are_pushed_and_popped_at_both_ends() {
    let mut store = Store::new(None);
    assert_eq!(run(&mut store, &["RPUSH", "l", "a", "b"]), ":2\r\n");
    assert_eq!(run(&mut store, &["LPUSH", "l", "c", "d"]), ":4\r\n");
    assert_eq!(
        run(&mut store, &["LRANGE", "l", "0", "-1"]),
        "*4\r\n$1\r\nd\r\n$1\r\nc\r\n$1\r\na\r\n$1\r\nb\r\n"
    );
    assert_eq!(run(&mut store, &["LLEN", "l"]), ":4\r\n");
    assert_eq!(run(&mut store, &["LPOP", "l"]), "$1\r\nd\r\n");
    assert_eq!(run(&mut store, &["RPOP", "l"]), "$1\r\nb\r\n");
    assert_eq!(
        run(&mut store, &["LRANGE", "l", "-1", "5"]),
        "*1\r\n$1\r\na\r\n"
    );
    assert_eq!(run(&mut store, &["LRANGE", "l", "1", "0"]), "*0\r\n");
    assert_eq!(run(&mut store, &["LRANGE", "l", "-9", "-9"]), "*0\r\n");
    assert_eq!(run(&mut store, &["LRANGE", "none", "0", "1"]), "*0\r\n");
    assert_eq!(
        complaint(&["LRANGE", "l", "0", "x"]),
        "ERR value is not an integer or out of range"
    );
}

#[test]
fn last_element_takes_the_key_with_it() {
    let mut store = Store::new(None);
    run(&mut store, &["RPUSH", "l", "a"]);
    assert_eq!(run(&mut store, &["LPOP", "l"]), "$1\r\na\r\n");
    assert_eq!(run(&mut store, &["EXISTS", "l"]), ":0\r\n");
    assert_eq!(run(&mut store, &["LPOP", "l"]), "$-1\r\n");
    assert_eq!(run(&mut store, &["LLEN", "l"]), ":0\r\n");
    run(&mut store, &["HSET", "h", "f", "v", "g", "w"]);
    assert_eq!(run(&mut store, &["HDEL", "h", "f", "f", "x"]), ":1\r\n");
    assert_eq!(run(&mut store, &["EXISTS", "h"]), ":1\r\n");
    assert_eq!(run(&mut store, &["HDEL", "h", "g"]), ":1\r\n");
    assert_eq!(run(&mut store, &["EXISTS", "h"]), ":0\r\n");
    assert_eq!(run(&mut store, &["HDEL", "h", "g"]), ":0\r\n");
    run(&mut store, &["SADD", "s", "a"]);
    assert_eq!(run(&mut store, &["SREM", "s", "a", "b"]), ":1\r\n");
    assert_eq!(run(&mut store, &["TYPE", "s"]), "+none\r\n");
}

#[test]
fn hashes_hold_fields() {
    let mut store = Store::new(None);
    assert_eq!(run(&mut store, &["HSET", "h", "f", "1", "g", "2"]), ":2\r\n");
    assert_eq!(run(&mut store, &["HSET", "h", "f", "3", "i", "4"]), ":1\r\n");
    assert_eq!(run(&mut store, &["HGET", "h", "f"]), "$1\r\n3\r\n");
    assert_eq!(run(&mut store, &["HGET", "h", "x"]), "$-1\r\n");
    assert_eq!(run(&mut store, &["HGET", "none", "x"]), "$-1\r\n");
    assert_eq!(run(&mut store, &["HEXISTS", "h", "g"]), ":1\r\n");
    assert_eq!(run(&mut store, &["HEXISTS", "h", "x"]), ":0\r\n");
    assert_eq!(run(&mut store, &["HGETALL", "none"]), "*0\r\n");
    run(&mut store, &["DEL", "h"]);
    run(&mut store, &["HSET", "h", "f", "1"]);
    assert_eq!(
        run(&mut store, &["HGETALL", "h"]),
        "*2\r\n$1\r\nf\r\n$1\r\n1\r\n"
    );
    assert_eq!(
        complaint(&["HSET", "h", "f"]),
        "ERR wrong number of arguments for 'hset' command"
    );
    assert_eq!(
        complaint(&["HSET", "h", "f", "1", "g"]),
        "ERR wrong number of arguments for 'hset' command"
    );
}

#[test]
fn sets_hold_members() {
    let mut store = Store::new(None);
    assert_eq!(run(&mut store, &["SADD", "s", "a", "b", "a"]), ":2\r\n");
    assert_eq!(run(&mut store, &["SADD", "s", "b", "c"]), ":1\r\n");
    assert_eq!(run(&mut store, &["SISMEMBER", "s", "c"]), ":1\r\n");
    assert_eq!(run(&mut store, &["SISMEMBER", "s", "x"]), ":0\r\n");
    assert_eq!(run(&mut store, &["SISMEMBER", "none", "x"]), ":0\r\n");
    let members = run(&mut store, &["SMEMBERS", "s"]);
    assert!(members.starts_with("*3\r\n"));
    for m in ["a", "b", "c"] {
        assert!(members.contains(&format!("$1\r\n{m}\r\n")));
    }
    assert_eq!(run(&mut store, &["SMEMBERS", "none"]), "*0\r\n");
}

#[test]
fn wrong_kind_is_refused_and_changes_nothing() {
    let mut store = Store::new(None);
    run(&mut store, &["SET", "s", "5"]);
    run(&mut store, &["RPUSH", "l", "a"]);
    let wrong = "-WRONGTYPE Operation against a key holding the wrong kind of value\r\n";
    for words in [
        &["LPUSH", "s", "x"][..],
        &["RPOP", "s"][..],
        &["LRANGE", "s", "0", "1"][..],
        &["LLEN", "s"][..],
        &["HSET", "s", "f", "v"][..],
        &["HGET", "s", "f"][..],
        &["HDEL", "s", "f"][..],
        &["HGETALL", "s"][..],
        &["HEXISTS", "s", "f"][..],
        &["SADD", "s", "m"][..],
        &["SREM", "s", "m"][..],
        &["SMEMBERS", "s"][..],
        &["SISMEMBER", "s", "m"][..],
        &["GET", "l"][..],
        &["INCR", "l"][..],
        &["APPEND", "l", "x"][..],
    ] {
        assert_eq!(run(&mut store, words), wrong);
    }
    assert_eq!(run(&mut store, &["GET", "s"]), "$1\r\n5\r\n");
    assert_eq!(run(&mut store, &["LLEN", "l"]), ":1\r\n");
    assert_eq!(run(&mut store, &["SET", "l", "now a string"]), "+OK\r\n");
}

#[test]
fn writes_and_keys_of_commands() {
    let get = parse_at(&request(&["GET", "a"]), NOW).unwrap();
    assert!(!get.is_write());
    assert_eq!(get.keys(), request(&["a"]));
    let mset = parse_at(&request(&["MSET", "a", "1", "b", "2"]), NOW).unwrap();
    assert!(mset.is_write());
    assert_eq!(mset.keys(), request(&["a", "b"]));
    let del = parse_at(&request(&["DEL", "x", "y"]), NOW).unwrap();
    assert!(del.is_write());
    assert_eq!(del.keys(), request(&["x", "y"]));
    let push = parse_at(&request(&["LPUSH", "l", "v"]), NOW).unwrap();
    assert!(push.is_write());
    assert_eq!(push.keys(), request(&["l"]));
    let flush = parse_at(&request(&["FLUSHALL"]), NOW).unwrap();
    assert!(flush.is_write());
    assert_eq!(flush.keys().len(), 0);
    let publish = parse_at(&request(&["PUBLISH", "c", "m"]), NOW).unwrap();
    assert!(!publish.is_write());
    assert_eq!(publish.keys().len(), 0);
}

#[test]
fn other_keys_stay_as_they_are() {
    let mut store = Store::new(None);
    run(&mut store, &["SET", "other", "x", "PX", "50"]);
    for words in [
        &["SET", "k", "v"][..],
        &["INCR", "n"][..],
        &["LPUSH", "l", "a"][..],
        &["LPOP", "l"][..],
        &["DEL", "k", "n"][..],
        &["EXPIRE", "n", "3"][..],
    ] {
        run(&mut store, words);
        assert_eq!(run(&mut store, &["GET", "other"]), "$1\r\nx\r\n");
        assert_eq!(run(&mut store, &["PTTL", "other"]), ":50\r\n");
    }
}

#[test]
fn publish_counts_subscribers() {
    let mut store = Store::new(None);
    let mut pubsub = PubSub::new();
    let publish = parse(&request(&["PUBLISH", "news", "hello"])).unwrap();
    assert_eq!(wire(&execute(&mut store, &pubsub, &publish)), ":0\r\n");
    let mut first = pubsub.subscribe(Bytes::from_static(b"news"));
    let _second = pubsub.subscribe(Bytes::from_static(b"news"));
    assert_eq!(wire(&execute(&mut store, &pubsub, &publish)), ":2\r\n");
    assert_eq!(first.try_recv().unwrap(), Bytes::from_static(b"hello"));
}

#[test]
fn system_clock_version_executes_too() {
    let mut store = Store::new(None);
    let pubsub = PubSub::new();
    let set = parse(&request(&["SET", "k", "v", "EX", "1000"])).unwrap();
    assert_eq!(wire(&execute(&mut store, &pubsub, &set)), "+OK\r\n");
    let ttl = parse(&request(&["TTL", "k"])).unwrap();
    let left = wire(&execute(&mut store, &pubsub, &ttl));
    assert!(left == ":999\r\n" || left == ":1000\r\n");
}

#[test]
fn reads_change_nothing_that_clients_see() {
    let mut store = Store::new(None);
    run(&mut store, &["SET", "s", "v", "PX", "70"]);
    run(&mut store, &["RPUSH", "l", "a"]);
    run(&mut store, &["HSET", "h", "f", "1"]);
    for words in [
        &["GET", "s"][..],
        &["MGET", "s", "l"][..],
        &["EXISTS", "s"][..],
        &["TTL", "s"][..],
        &["TYPE", "l"][..],
        &["LRANGE", "l", "0", "5"][..],
        &["LLEN", "l"][..],
        &["HGETALL", "h"][..],
        &["SMEMBERS", "l"][..],
        &["INFO"][..],
    ] {
        assert!(!parse_at(&request(words), NOW).unwrap().is_write());
        run(&mut store, words);
        assert_eq!(run(&mut store, &["GET", "s"]), "$1\r\nv\r\n");
        assert_eq!(run(&mut store, &["PTTL", "s"]), ":70\r\n");
        assert_eq!(run(&mut store, &["LLEN", "l"]), ":1\r\n");
        assert_eq!(run(&mut store, &["HGET", "h", "f"]), "$1\r\n1\r\n");
    }
}

#[test]
fn numbers_out_of_range_are_refused() {
    let range = "ERR value is not an integer or out of range";
    assert_eq!(complaint(&["SET", "k", "v", "EX", "9223372036854775807"]), range);
    assert_eq!(complaint(&["SET", "k", "v", "EX", "9223372036854775"]), range);
    assert_eq!(complaint(&["SET", "k", "v", "PX", "9223372036854775807"]), range);
    assert_eq!(complaint(&["EXPIRE", "k", "-9223372036854775808"]), range);
    assert_eq!(complaint(&["PEXPIRE", "k", "9223372036854775807"]), range);
    assert!(parse_at(&request(&["SET", "k", "v", "PX", "9223372036853775807"]), NOW).is_ok());
    assert!(parse_at(&request(&["PEXPIRE", "k", "-9223372036854775808"]), NOW).is_ok());

    let mut store = Store::new(None);
    let overflow = "-ERR increment or decrement would overflow\r\n";
    assert_eq!(run(&mut store, &["DECRBY", "n", "-9223372036854775808"]), overflow);
    assert_eq!(run(&mut store, &["GET", "n"]), "$1\r\n0\r\n");
    assert_eq!(run(&mut store, &["DECRBY", "n", "9223372036854775807"]), ":-9223372036854775807\r\n");
    assert_eq!(run(&mut store, &["DECRBY", "n", "2"]), overflow);
}

#[test]
fn sorted_sets_are_ordered_by_score_and_then_by_member() {
    let mut store = Store::new(None);
    assert_eq!(run(&mut store, &["ZADD", "z", "10", "ten", "9.5", "b", "9.50", "a"]), ":3\r\n");
    assert_eq!(run(&mut store, &["ZADD", "z", "-1e1", "low", "1E2", "ten"]), ":1\r\n");
    assert_eq!(run(&mut store, &["TYPE", "z"]), "+zset\r\n");
    assert_eq!(
        run(&mut store, &["ZRANGE", "z", "0", "-1"]),
        "*4\r\n$3\r\nlow\r\n$1\r\na\r\n$1\r\nb\r\n$3\r\nten\r\n"
    );
    assert_eq!(
        run(&mut store, &["ZRANGE", "z", "0", "1", "withscores"]),
        "*4\r\n$3\r\nlow\r\n$3\r\n-10\r\n$1\r\na\r\n$3\r\n9.5\r\n"
    );
    assert_eq!(run(&mut store, &["ZRANGE", "z", "-1", "5"]), "*1\r\n$3\r\nten\r\n");
    assert_eq!(run(&mut store, &["ZRANGE", "z", "3", "1"]), "*0\r\n");
    assert_eq!(run(&mut store, &["ZRANGE", "none", "0", "-1"]), "*0\r\n");
    assert_eq!(run(&mut store, &["ZSCORE", "z", "ten"]), "$3\r\n100\r\n");
    assert_eq!(run(&mut store, &["ZSCORE", "z", "none"]), "$-1\r\n");
    assert_eq!(run(&mut store, &["ZSCORE", "none", "m"]), "$-1\r\n");
    assert_eq!(run(&mut store, &["ZREM", "z", "a", "none", "a"]), ":1\r\n");
    assert_eq!(run(&mut store, &["ZREM", "none", "a"]), ":0\r\n");
    assert_eq!(run(&mut store, &["ZREM", "z", "low", "b", "ten"]), ":3\r\n");
    assert_eq!(run(&mut store, &["EXISTS", "z"]), ":0\r\n");
}

#[test]
fn sorted_set_of_many_members_is_in_order() {
    let mut store = Store::new(None);
    let mut n: u32 = 7;
    for i in 0..200 {
        n = (n * 31 + 11) % 1009;
        run(&mut store, &["ZADD", "z", &format!("{}.5", n), &format!("m{i}")]);
    }
    let cmd = parse_at(&request(&["ZRANGE", "z", "0", "-1", "WITHSCORES"]), NOW).unwrap();
    let items = match execute_at(&mut store, &PubSub::new(), &cmd, NOW) {
        Reply::Array(items) => items,
        _ => panic!("expected an array"),
    };
    assert_eq!(items.len(), 400);
    let text = |r: &Reply| match r {
        Reply::Bulk(b) => String::from_utf8(b.to_vec()).unwrap(),
        _ => panic!("expected a bulk string"),
    };
    let pairs: Vec<(f64, String)> = items
        .chunks(2)
        .map(|c| (text(&c[1]).parse::<f64>().unwrap(), text(&c[0])))
        .collect();
    for w in pairs.windows(2) {
        assert!(w[0] < w[1]);
    }
}

#[test]
fn sorted_set_commands_keep_to_their_kind() {
    let wrong = "-WRONGTYPE Operation against a key holding the wrong kind of value\r\n";
    let mut store = Store::new(None);
    run(&mut store, &["SET", "s", "v"]);
    run(&mut store, &["ZADD", "z", "1", "m"]);
    for words in [
        &["ZADD", "s", "1", "m"][..],
        &["ZRANGE", "s", "0", "-1"],
        &["ZSCORE", "s", "m"],
        &["ZREM", "s", "m"],
        &["GET", "z"],
        &["SADD", "z", "m"],
        &["HGET", "z", "m"],
        &["LPUSH", "z", "m"],
    ] {
        assert_eq!(run(&mut store, words), wrong);
    }
    assert!(parse_at(&request(&["ZADD", "z", "1", "m"]), NOW).unwrap().is_write());
    assert!(parse_at(&request(&["ZREM", "z", "m"]), NOW).unwrap().is_write());
    assert!(!parse_at(&request(&["ZSCORE", "z", "m"]), NOW).unwrap().is_write());
    let range = parse_at(&request(&["ZRANGE", "z", "0", "1"]), NOW).unwrap();
    assert_eq!(range.keys(), request(&["z"]));
    let float = "ERR value is not a valid float";
    for bad in ["", "x", ".", "1.2.3", "1e", "1e401", "--1", "1 ", "nan", "inf"] {
        assert_eq!(complaint(&["ZADD", "z", "1", "m", bad, "n"]), float);
    }
    assert_eq!(
        complaint(&["ZADD", "z", "1"]),
        "ERR wrong number of arguments for 'zadd' command"
    );
    assert_eq!(
        complaint(&["ZADD", "z", "1", "m", "2"]),
        "ERR wrong number of arguments for 'zadd' command"
    );
    assert_eq!(complaint(&["ZRANGE", "z", "0", "1", "BYLEX"]), "ERR syntax error");
    assert_eq!(complaint(&["ZRANGE", "z", "0", "1", "WITHSCORES", "x"]), "ERR syntax error");
    assert_eq!(
        complaint(&["ZRANGE", "z", "a", "1"]),
        "ERR value is not an integer or out of range"
    );
    for name in ["zrange", "zscore", "zrem"] {
        assert_eq!(
            complaint(&[name, "z"]),
            format!("ERR wrong number of arguments for '{name}' command")
        );
    }
}

#[test]
fn scores_are_exact() {
    let same = |text: &str, want: &str| {
        let score = Score::read(text.as_bytes()).unwrap();
        assert_eq!(String::from_utf8(score.text()).unwrap(), want);
        assert_eq!(score.duplicate().text(), score.text());
    };
    for (text, want) in [
        ("0", "0"),
        ("-0.00", "0"),
        ("+007.500", "7.5"),
        (".5", "0.5"),
        ("5.", "5"),
        ("-12e-3", "-0.012"),
        ("1.25e1", "12.5"),
        ("1.25e+4", "12500"),
        ("0.30000000000000004", "0.30000000000000004"),
        ("123456789012345678901234567890.5", "123456789012345678901234567890.5"),
    ] {
        same(text, want);
    }
    let less = |a: &str, b: &str| {
        let (a, b) = (Score::read(a.as_bytes()).unwrap(), Score::read(b.as_bytes()).unwrap());
        a.less(&b)
    };
    let rising = ["-100", "-20", "-3.5", "-3.49", "0", "0.05", "0.5", "0.51", "9", "10", "1e30"];
    for i in 0..rising.len() {
        for j in 0..rising.len() {
            assert_eq!(less(rising[i], rising[j]), i < j);
        }
    }
    assert!(precedes(b"a", b"ab"));
    assert!(!precedes(b"b", b"ab"));
    assert!(!precedes(b"a", b"a"));
}

#[test]
fn every_command_is_understood() {
    for line in [
        "PING", "ECHO a", "SET k v EX 1", "SET k v PX 1 NX", "SET k v XX", "GET k", "DEL k",
        "EXISTS k", "EXPIRE k 1", "PEXPIRE k 1", "PERSIST k", "TTL k", "PTTL k", "INCR k",
        "DECR k", "INCRBY k 1", "DECRBY k 1", "APPEND k v", "MGET k", "MSET k v", "TYPE k",
        "FLUSHALL", "INFO", "CONFIG GET a", "CONFIG SET a b", "BGSAVE", "LPUSH l a", "RPUSH l a",
        "LPOP l", "RPOP l", "LRANGE l 0 1", "LLEN l", "HSET h f v", "HGET h f", "HDEL h f",
        "HGETALL h", "HEXISTS h f", "SADD s m", "SREM s m", "SMEMBERS s", "SISMEMBER s m",
        "ZADD z 1 m", "ZRANGE z 0 1 WITHSCORES", "ZSCORE z m", "ZREM z m", "SUBSCRIBE c",
        "UNSUBSCRIBE", "PUBLISH c m", "SYNC", "CLUSTER INFO", "CLUSTER SLOTS", "QUIT",
    ] {
        let words: Vec<&str> = line.split(' ').collect();
        assert!(parse_at(&request(&words), NOW).is_ok(), "{line}");
    }
}
