//! The commands that clients send, and how a request is read as one.

use bytes::Bytes;
use vstd::prelude::*;
use vstd::string::*;
use vstd::utf8::{decode_utf8, is_ascii_chars, is_ascii_chars_encode_utf8, valid_utf8};

use crate::buf::{content, contents};
use crate::bytemap::same_bytes;
use crate::collections::{pair_contents, score_pairs};
use crate::decimal::{i64_value, read_i64};
use crate::score::{law_scores_are_normal, score_value, Score, ScoreView};
use crate::shard::now_ms;

verus! {

broadcast use crate::buf::lemma_contents_push;

/// A request, understood.
#[derive(Debug, Clone)]
pub enum Command {
    Ping(Option<Bytes>),
    Echo(Bytes),
    /// `SET`.
    SetKey { key: Bytes, value: Bytes, expires_at_ms: Option<u64>, nx: bool, xx: bool },
    Get(Bytes),
    Del(Vec<Bytes>),
    Exists(Vec<Bytes>),
    Expire { key: Bytes, at_ms: i64 },
    Persist(Bytes),
    Ttl { key: Bytes, as_ms: bool },
    Incr(Bytes),
    Decr(Bytes),
    IncrBy(Bytes, i64),
    DecrBy(Bytes, i64),
    Append(Bytes, Bytes),
    MGet(Vec<Bytes>),
    MSet(Vec<(Bytes, Bytes)>),
    Type(Bytes),
    FlushAll,
    Info,
    ConfigGet(Bytes),
    ConfigSet(Bytes, Bytes),
    BgSave,
    Quit,
    /// `LPUSH` where `front`, else `RPUSH`.
    Push { key: Bytes, items: Vec<Bytes>, front: bool },
    /// `LPOP` where `front`, else `RPOP`.
    Pop { key: Bytes, front: bool },
    LRange { key: Bytes, start: i64, stop: i64 },
    LLen(Bytes),
    HSet(Bytes, Vec<(Bytes, Bytes)>),
    HGet(Bytes, Bytes),
    HDel(Bytes, Vec<Bytes>),
    HGetAll(Bytes),
    HExists(Bytes, Bytes),
    SAdd(Bytes, Vec<Bytes>),
    SRem(Bytes, Vec<Bytes>),
    SMembers(Bytes),
    SIsMember(Bytes, Bytes),
    ZAdd(Bytes, Vec<(Score, Bytes)>),
    ZRange { key: Bytes, start: i64, stop: i64, with_scores: bool },
    ZScore(Bytes, Bytes),
    ZRem(Bytes, Vec<Bytes>),
    Subscribe(Vec<Bytes>),
    Unsubscribe(Vec<Bytes>),
    Publish(Bytes, Bytes),
    Sync,
    ClusterInfo,
    ClusterSlots,
}

/// What a [`Command`] holds.
#[verifier::ext_equal]
pub enum CommandView {
    Ping(Option<Seq<u8>>),
    Echo(Seq<u8>),
    SetKey { key: Seq<u8>, value: Seq<u8>, expires_at_ms: Option<u64>, nx: bool, xx: bool },
    Get(Seq<u8>),
    Del(Seq<Seq<u8>>),
    Exists(Seq<Seq<u8>>),
    Expire { key: Seq<u8>, at_ms: i64 },
    Persist(Seq<u8>),
    Ttl { key: Seq<u8>, as_ms: bool },
    Incr(Seq<u8>),
    Decr(Seq<u8>),
    IncrBy(Seq<u8>, i64),
    DecrBy(Seq<u8>, i64),
    Append(Seq<u8>, Seq<u8>),
    MGet(Seq<Seq<u8>>),
    MSet(Seq<(Seq<u8>, Seq<u8>)>),
    Type(Seq<u8>),
    FlushAll,
    Info,
    ConfigGet(Seq<u8>),
    ConfigSet(Seq<u8>, Seq<u8>),
    BgSave,
    Quit,
    Push { key: Seq<u8>, items: Seq<Seq<u8>>, front: bool },
    Pop { key: Seq<u8>, front: bool },
    LRange { key: Seq<u8>, start: i64, stop: i64 },
    LLen(Seq<u8>),
    HSet(Seq<u8>, Seq<(Seq<u8>, Seq<u8>)>),
    HGet(Seq<u8>, Seq<u8>),
    HDel(Seq<u8>, Seq<Seq<u8>>),
    HGetAll(Seq<u8>),
    HExists(Seq<u8>, Seq<u8>),
    SAdd(Seq<u8>, Seq<Seq<u8>>),
    SRem(Seq<u8>, Seq<Seq<u8>>),
    SMembers(Seq<u8>),
    SIsMember(Seq<u8>, Seq<u8>),
    ZAdd(Seq<u8>, Seq<(ScoreView, Seq<u8>)>),
    ZRange { key: Seq<u8>, start: i64, stop: i64, with_scores: bool },
    ZScore(Seq<u8>, Seq<u8>),
    ZRem(Seq<u8>, Seq<Seq<u8>>),
    Subscribe(Seq<Seq<u8>>),
    Unsubscribe(Seq<Seq<u8>>),
    Publish(Seq<u8>, Seq<u8>),
    Sync,
    ClusterInfo,
    ClusterSlots,
}

impl CommandView {
    /// Whether executing the command may change what the keyspace holds.
    pub open spec fn is_write(self) -> bool {
        match self {
            CommandView::SetKey { .. } => true,
            CommandView::Del(_) => true,
            CommandView::Expire { .. } => true,
            CommandView::Persist(_) => true,
            CommandView::Incr(_) => true,
            CommandView::Decr(_) => true,
            CommandView::IncrBy(_, _) => true,
            CommandView::DecrBy(_, _) => true,
            CommandView::Append(_, _) => true,
            CommandView::MSet(_) => true,
            CommandView::FlushAll => true,
            CommandView::Push { .. } => true,
            CommandView::Pop { .. } => true,
            CommandView::HSet(_, _) => true,
            CommandView::HDel(_, _) => true,
            CommandView::SAdd(_, _) => true,
            CommandView::SRem(_, _) => true,
            CommandView::ZAdd(_, _) => true,
            CommandView::ZRem(_, _) => true,
            _ => false,
        }
    }

    /// Whether a command that puts elements into a collection brings any, and
    /// scores in normal form.
    pub open spec fn proper(self) -> bool {
        match self {
            CommandView::Push { items, .. } => items.len() > 0,
            CommandView::HSet(_, pairs) => pairs.len() > 0,
            CommandView::SAdd(_, members) => members.len() > 0,
            CommandView::ZAdd(_, pairs) => pairs.len() > 0 && forall|i: int|
                0 <= i < pairs.len() ==> (#[trigger] pairs[i]).0.normal(),
            _ => true,
        }
    }

    /// The keys that the command names, in order.
    pub open spec fn keys(self) -> Seq<Seq<u8>> {
        match self {
            CommandView::SetKey { key, .. } => seq![key],
            CommandView::Get(key) => seq![key],
            CommandView::Del(keys) => keys,
            CommandView::Exists(keys) => keys,
            CommandView::Expire { key, .. } => seq![key],
            CommandView::Persist(key) => seq![key],
            CommandView::Ttl { key, .. } => seq![key],
            CommandView::Incr(key) => seq![key],
            CommandView::Decr(key) => seq![key],
            CommandView::IncrBy(key, _) => seq![key],
            CommandView::DecrBy(key, _) => seq![key],
            CommandView::Append(key, _) => seq![key],
            CommandView::MGet(keys) => keys,
            CommandView::MSet(pairs) => pairs.map_values(|p: (Seq<u8>, Seq<u8>)| p.0),
            CommandView::Type(key) => seq![key],
            CommandView::Push { key, .. } => seq![key],
            CommandView::Pop { key, .. } => seq![key],
            CommandView::LRange { key, .. } => seq![key],
            CommandView::LLen(key) => seq![key],
            CommandView::HSet(key, _) => seq![key],
            CommandView::HGet(key, _) => seq![key],
            CommandView::HDel(key, _) => seq![key],
            CommandView::HGetAll(key) => seq![key],
            CommandView::HExists(key, _) => seq![key],
            CommandView::SAdd(key, _) => seq![key],
            CommandView::SRem(key, _) => seq![key],
            CommandView::SMembers(key) => seq![key],
            CommandView::SIsMember(key, _) => seq![key],
            CommandView::ZAdd(key, _) => seq![key],
            CommandView::ZRange { key, .. } => seq![key],
            CommandView::ZScore(key, _) => seq![key],
            CommandView::ZRem(key, _) => seq![key],
            _ => Seq::empty(),
        }
    }
}

impl Command {
    /// What the command holds.
    pub open spec fn view(&self) -> CommandView {
        match *self {
            Command::Ping(None) => CommandView::Ping(None),
            Command::Ping(Some(b)) => CommandView::Ping(Some(content(b))),
            Command::Echo(b) => CommandView::Echo(content(b)),
            Command::SetKey { key, value, expires_at_ms, nx, xx } => CommandView::SetKey {
                key: content(key),
                value: content(value),
                expires_at_ms,
                nx,
                xx,
            },
            Command::Get(b) => CommandView::Get(content(b)),
            Command::Del(list) => CommandView::Del(contents(list@)),
            Command::Exists(list) => CommandView::Exists(contents(list@)),
            Command::Expire { key, at_ms } => CommandView::Expire { key: content(key), at_ms },
            Command::Persist(b) => CommandView::Persist(content(b)),
            Command::Ttl { key, as_ms } => CommandView::Ttl { key: content(key), as_ms },
            Command::Incr(b) => CommandView::Incr(content(b)),
            Command::Decr(b) => CommandView::Decr(content(b)),
            Command::IncrBy(b, n) => CommandView::IncrBy(content(b), n),
            Command::DecrBy(b, n) => CommandView::DecrBy(content(b), n),
            Command::Append(a, b) => CommandView::Append(content(a), content(b)),
            Command::MGet(list) => CommandView::MGet(contents(list@)),
            Command::MSet(pairs) => CommandView::MSet(pair_contents(pairs@)),
            Command::Type(b) => CommandView::Type(content(b)),
            Command::FlushAll => CommandView::FlushAll,
            Command::Info => CommandView::Info,
            Command::ConfigGet(b) => CommandView::ConfigGet(content(b)),
            Command::ConfigSet(a, b) => CommandView::ConfigSet(content(a), content(b)),
            Command::BgSave => CommandView::BgSave,
            Command::Quit => CommandView::Quit,
            Command::Push { key, items, front } => CommandView::Push {
                key: content(key),
                items: contents(items@),
                front,
            },
            Command::Pop { key, front } => CommandView::Pop { key: content(key), front },
            Command::LRange { key, start, stop } => CommandView::LRange {
                key: content(key),
                start,
                stop,
            },
            Command::LLen(b) => CommandView::LLen(content(b)),
            Command::HSet(b, pairs) => CommandView::HSet(content(b), pair_contents(pairs@)),
            Command::HGet(a, b) => CommandView::HGet(content(a), content(b)),
            Command::HDel(b, list) => CommandView::HDel(content(b), contents(list@)),
            Command::HGetAll(b) => CommandView::HGetAll(content(b)),
            Command::HExists(a, b) => CommandView::HExists(content(a), content(b)),
            Command::SAdd(b, list) => CommandView::SAdd(content(b), contents(list@)),
            Command::SRem(b, list) => CommandView::SRem(content(b), contents(list@)),
            Command::SMembers(b) => CommandView::SMembers(content(b)),
            Command::SIsMember(a, b) => CommandView::SIsMember(content(a), content(b)),
            Command::ZAdd(b, pairs) => CommandView::ZAdd(content(b), score_pairs(pairs@)),
            Command::ZRange { key, start, stop, with_scores } => CommandView::ZRange {
                key: content(key),
                start,
                stop,
                with_scores,
            },
            Command::ZScore(a, b) => CommandView::ZScore(content(a), content(b)),
            Command::ZRem(b, list) => CommandView::ZRem(content(b), contents(list@)),
            Command::Subscribe(list) => CommandView::Subscribe(contents(list@)),
            Command::Unsubscribe(list) => CommandView::Unsubscribe(contents(list@)),
            Command::Publish(a, b) => CommandView::Publish(content(a), content(b)),
            Command::Sync => CommandView::Sync,
            Command::ClusterInfo => CommandView::ClusterInfo,
            Command::ClusterSlots => CommandView::ClusterSlots,
        }
    }

    /// Whether executing the command changes the keyspace, so that it has to go
    /// to the log and to the replicas.
    pub fn is_write(&self) -> (write: bool)
        ensures
            write == self@.is_write(),
    {
        match self {
            Command::SetKey { .. }
            | Command::Del(_)
            | Command::Expire { .. }
            | Command::Persist(_)
            | Command::Incr(_)
            | Command::Decr(_)
            | Command::IncrBy(_, _)
            | Command::DecrBy(_, _)
            | Command::Append(_, _)
            | Command::MSet(_)
            | Command::FlushAll
            | Command::Push { .. }
            | Command::Pop { .. }
            | Command::HSet(_, _)
            | Command::HDel(_, _)
            | Command::SAdd(_, _)
            | Command::SRem(_, _)
            | Command::ZAdd(_, _)
            | Command::ZRem(_, _) => true,
            _ => false,
        }
    }

    /// The keys that the command names, in order.
    pub fn keys(&self) -> (keys: Vec<Bytes>)
        ensures
            contents(keys@) == self@.keys(),
    {
        match self {
            Command::Del(keys) | Command::Exists(keys) | Command::MGet(keys) => copy_from(keys, 0),
            Command::MSet(pairs) => first_of_each(pairs),
            Command::SetKey { key, .. }
            | Command::Get(key)
            | Command::Expire { key, .. }
            | Command::Persist(key)
            | Command::Ttl { key, .. }
            | Command::Incr(key)
            | Command::Decr(key)
            | Command::IncrBy(key, _)
            | Command::DecrBy(key, _)
            | Command::Append(key, _)
            | Command::Type(key)
            | Command::Push { key, .. }
            | Command::Pop { key, .. }
            | Command::LRange { key, .. }
            | Command::LLen(key)
            | Command::HSet(key, _)
            | Command::HGet(key, _)
            | Command::HDel(key, _)
            | Command::HGetAll(key)
            | Command::HExists(key, _)
            | Command::SAdd(key, _)
            | Command::SRem(key, _)
            | Command::SMembers(key)
            | Command::SIsMember(key, _)
            | Command::ZAdd(key, _)
            | Command::ZRange { key, .. }
            | Command::ZScore(key, _)
            | Command::ZRem(key, _) => {
                let mut keys: Vec<Bytes> = Vec::new();
                keys.push(key.clone());
                assert(contents(keys@) =~= seq![content(*key)]);
                keys
            },
            _ => {
                let keys: Vec<Bytes> = Vec::new();
                assert(contents(keys@) =~= Seq::<Seq<u8>>::empty());
                keys
            },
        }
    }
}

/// Copies of the byte strings from `start` on.
pub(crate) fn copy_from(list: &[Bytes], start: usize) -> (copy: Vec<Bytes>)
    requires
        start <= list@.len(),
    ensures
        contents(copy@) == contents(list@).skip(start as int),
{
    let mut copy: Vec<Bytes> = Vec::new();
    let mut i: usize = start;
    while i < list.len()
        invariant
            start <= i <= list@.len(),
            contents(copy@) =~= contents(list@).subrange(start as int, i as int),
        decreases list@.len() - i,
    {
        copy.push(list[i].clone());
        assert(contents(list@)[i as int] == content(list@[i as int]));
        i = i + 1;
    }
    assert(contents(copy@) =~= contents(list@).skip(start as int));
    copy
}

/// Copies of the first byte string of each pair.
fn first_of_each(pairs: &[(Bytes, Bytes)]) -> (list: Vec<Bytes>)
    ensures
        contents(list@) == pair_contents(pairs@).map_values(|p: (Seq<u8>, Seq<u8>)| p.0),
{
    let mut list: Vec<Bytes> = Vec::new();
    let mut i: usize = 0;
    let ghost all = pair_contents(pairs@).map_values(|p: (Seq<u8>, Seq<u8>)| p.0);
    while i < pairs.len()
        invariant
            i <= pairs@.len(),
            all == pair_contents(pairs@).map_values(|p: (Seq<u8>, Seq<u8>)| p.0),
            contents(list@) =~= all.take(i as int),
        decreases pairs@.len() - i,
    {
        list.push(pairs[i].0.clone());
        assert(all[i as int] == content(pairs@[i as int].0));
        i = i + 1;
    }
    assert(contents(list@) =~= all);
    list
}

/// An ASCII letter in upper case; any other byte as it is.
pub open spec fn upper_byte(b: u8) -> u8 {
    if 0x61 <= b <= 0x7a {
        (b - 0x20) as u8
    } else {
        b
    }
}

/// `s` with its ASCII letters in upper case.
pub open spec fn upper(s: Seq<u8>) -> Seq<u8> {
    s.map_values(|b: u8| upper_byte(b))
}

/// `s` with its ASCII letters in upper case.
pub fn to_upper(s: &[u8]) -> (out: Vec<u8>)
    ensures
        out@ == upper(s@),
{
    let mut out: Vec<u8> = Vec::new();
    let mut i: usize = 0;
    while i < s.len()
        invariant
            i <= s@.len(),
            out@ =~= upper(s@).take(i as int),
        decreases s@.len() - i,
    {
        let b = s[i];
        if 0x61 <= b && b <= 0x7a {
            out.push(b - 0x20);
        } else {
            out.push(b);
        }
        assert(upper(s@)[i as int] == upper_byte(b));
        i = i + 1;
    }
    assert(out@ =~= upper(s@));
    out
}

/// Whether the bytes `s` spell `word`.
pub open spec fn spells(s: Seq<u8>, word: Seq<char>) -> bool {
    s.len() == word.len() && forall|i: int|
        0 <= i < s.len() ==> #[trigger] s[i] as char == word[i]
}

/// Whether the bytes `s` spell `word`.
pub(crate) fn is_word(s: &[u8], word: &str) -> (same: bool)
    requires
        is_ascii_chars(word@),
    ensures
        same == spells(s@, word@),
{
    let bytes = word.as_bytes();
    let same: bool = same_bytes(s, bytes);
    proof {
        is_ascii_chars_encode_utf8(word@);
        assert forall|i: int| 0 <= i < word@.len() implies #[trigger] bytes@[i] as char
            == word@[i] by {
            assert(word@[i] as u8 == bytes@[i]);
        }
        if spells(s@, word@) {
            assert forall|i: int| 0 <= i < s@.len() implies s@[i] == bytes@[i] by {
                assert(s@[i] as char == word@[i]);
                assert(bytes@[i] as char == word@[i]);
            }
            assert(s@ =~= bytes@);
        }
    }
    same
}

/// The names that are compared here are ASCII.
proof fn lemma_option_words()
    ensures
        is_ascii_chars("EX"@),
        is_ascii_chars("PX"@),
        is_ascii_chars("NX"@),
        is_ascii_chars("XX"@),
{
    reveal_strlit("EX");
    reveal_strlit("PX");
    reveal_strlit("NX");
    reveal_strlit("XX");
}

/// The names that are compared here are ASCII.
proof fn lemma_config_words()
    ensures
        is_ascii_chars("GET"@),
        is_ascii_chars("SET"@),
{
    reveal_strlit("GET");
    reveal_strlit("SET");
}

/// The names that are compared here are ASCII.
proof fn lemma_cluster_words()
    ensures
        is_ascii_chars("INFO"@),
        is_ascii_chars("SLOTS"@),
{
    reveal_strlit("INFO");
    reveal_strlit("SLOTS");
}

/// The names that are compared here are ASCII.
proof fn lemma_timeless_words()
    ensures
        is_ascii_chars("PING"@),
        is_ascii_chars("ECHO"@),
        is_ascii_chars("GET"@),
        is_ascii_chars("DEL"@),
        is_ascii_chars("EXISTS"@),
        is_ascii_chars("PERSIST"@),
        is_ascii_chars("TTL"@),
        is_ascii_chars("PTTL"@),
        is_ascii_chars("INCR"@),
        is_ascii_chars("DECR"@),
        is_ascii_chars("INCRBY"@),
        is_ascii_chars("DECRBY"@),
        is_ascii_chars("APPEND"@),
        is_ascii_chars("MGET"@),
        is_ascii_chars("MSET"@),
        is_ascii_chars("TYPE"@),
        is_ascii_chars("FLUSHALL"@),
        is_ascii_chars("INFO"@),
        is_ascii_chars("CONFIG"@),
        is_ascii_chars("BGSAVE"@),
        is_ascii_chars("QUIT"@),
{
    reveal_strlit("PING");
    reveal_strlit("ECHO");
    reveal_strlit("GET");
    reveal_strlit("DEL");
    reveal_strlit("EXISTS");
    reveal_strlit("PERSIST");
    reveal_strlit("TTL");
    reveal_strlit("PTTL");
    reveal_strlit("INCR");
    reveal_strlit("DECR");
    reveal_strlit("INCRBY");
    reveal_strlit("DECRBY");
    reveal_strlit("APPEND");
    reveal_strlit("MGET");
    reveal_strlit("MSET");
    reveal_strlit("TYPE");
    reveal_strlit("FLUSHALL");
    reveal_strlit("INFO");
    reveal_strlit("CONFIG");
    reveal_strlit("BGSAVE");
    reveal_strlit("QUIT");
}

/// The names that are compared here are ASCII.
proof fn lemma_collection_words()
    ensures
        is_ascii_chars("LPUSH"@),
        is_ascii_chars("RPUSH"@),
        is_ascii_chars("LPOP"@),
        is_ascii_chars("RPOP"@),
        is_ascii_chars("LRANGE"@),
        is_ascii_chars("LLEN"@),
        is_ascii_chars("HSET"@),
        is_ascii_chars("HGET"@),
        is_ascii_chars("HDEL"@),
        is_ascii_chars("HGETALL"@),
        is_ascii_chars("HEXISTS"@),
        is_ascii_chars("SADD"@),
        is_ascii_chars("SREM"@),
        is_ascii_chars("SMEMBERS"@),
        is_ascii_chars("SISMEMBER"@),
{
    reveal_strlit("LPUSH");
    reveal_strlit("RPUSH");
    reveal_strlit("LPOP");
    reveal_strlit("RPOP");
    reveal_strlit("LRANGE");
    reveal_strlit("LLEN");
    reveal_strlit("HSET");
    reveal_strlit("HGET");
    reveal_strlit("HDEL");
    reveal_strlit("HGETALL");
    reveal_strlit("HEXISTS");
    reveal_strlit("SADD");
    reveal_strlit("SREM");
    reveal_strlit("SMEMBERS");
    reveal_strlit("SISMEMBER");
}

/// The names that are compared here are ASCII.
proof fn lemma_sorted_words()
    ensures
        is_ascii_chars("ZADD"@),
        is_ascii_chars("ZRANGE"@),
        is_ascii_chars("ZSCORE"@),
        is_ascii_chars("ZREM"@),
        is_ascii_chars("WITHSCORES"@),
{
    reveal_strlit("ZADD");
    reveal_strlit("ZRANGE");
    reveal_strlit("ZSCORE");
    reveal_strlit("ZREM");
    reveal_strlit("WITHSCORES");
}

/// The names that are compared here are ASCII.
proof fn lemma_service_words()
    ensures
        is_ascii_chars("SUBSCRIBE"@),
        is_ascii_chars("UNSUBSCRIBE"@),
        is_ascii_chars("PUBLISH"@),
        is_ascii_chars("SYNC"@),
        is_ascii_chars("CLUSTER"@),
{
    reveal_strlit("SUBSCRIBE");
    reveal_strlit("UNSUBSCRIBE");
    reveal_strlit("PUBLISH");
    reveal_strlit("SYNC");
    reveal_strlit("CLUSTER");
}

/// The names that are compared here are ASCII.
proof fn lemma_timed_words()
    ensures
        is_ascii_chars("SET"@),
        is_ascii_chars("EXPIRE"@),
        is_ascii_chars("PEXPIRE"@),
{
    reveal_strlit("SET");
    reveal_strlit("EXPIRE");
    reveal_strlit("PEXPIRE");
}

/// The text that [`String::from_utf8_lossy`] makes of bytes.
pub uninterp spec fn lossy(data: Seq<u8>) -> Seq<char>;

/// [`String::from_utf8_lossy`]: bytes that are UTF-8 as the text that they
/// encode, others with replacement characters for what is not.
#[verifier::external_body]
fn lossy_text(data: &[u8]) -> (text: String)
    ensures
        text@ == lossy(data@),
        valid_utf8(data@) ==> text@ == decode_utf8(data@),
{
    String::from_utf8_lossy(data).into_owned()
}

/// The complaint about a wrong number of arguments.
pub open spec fn arity_text(name: Seq<char>) -> Seq<char> {
    "ERR wrong number of arguments for '"@ + name + "' command"@
}

/// The complaint about something that has to be an integer.
pub open spec fn not_integer_text(what: Seq<char>) -> Seq<char> {
    "ERR "@ + what + " is not an integer or out of range"@
}

/// The complaint about a command that there is not; `name` is in upper case.
pub open spec fn unknown_text(name: Seq<u8>) -> Seq<char> {
    "ERR unknown command '"@ + lossy(name) + "'"@
}

/// The complaint about a wrong number of arguments for `name`, which is in
/// lower case.
fn arity_err(name: &str) -> (text: String)
    ensures
        text@ == arity_text(name@),
{
    "ERR wrong number of arguments for '".to_owned().concat(name).concat("' command")
}

/// Reads a decimal integer; `what` it is goes into the complaint.
fn parse_i64(b: &[u8], what: &str) -> (result: Result<i64, String>)
    ensures
        match result {
            Ok(n) => i64_value(b@) == Some(n),
            Err(e) => i64_value(b@) is None && e@ == not_integer_text(what@),
        },
{
    match read_i64(b) {
        Some(n) => Ok(n),
        None => Err("ERR ".to_owned().concat(what).concat(" is not an integer or out of range")),
    }
}

/// Reads a decimal number of seconds, or of milliseconds, as the time that far
/// from `now` on.
fn parse_expiry(b: &[u8], seconds: bool, now: u64) -> (result: Result<i64, String>)
    ensures
        match result {
            Ok(at) => expiry_from(b@, seconds, now) == Some(at),
            Err(e) => expiry_from(b@, seconds, now) is None && e@ == not_integer_text("value"@),
        },
{
    match parse_i64(b, "value") {
        Err(e) => Err(e),
        Ok(n) => {
            let unit: i128 = if seconds {
                1000
            } else {
                1
            };
            let at: i128 = now as i128 + n as i128 * unit;
            if i64::MIN as i128 <= at && at <= i64::MAX as i128 {
                Ok(at as i64)
            } else {
                Err("ERR ".to_owned().concat("value").concat(" is not an integer or out of range"))
            }
        },
    }
}

/// The conditions that a `SET` request makes.
#[verifier::ext_equal]
pub struct SetOptions {
    pub expires_at_ms: Option<u64>,
    pub nx: bool,
    pub xx: bool,
}

/// The time `n` seconds, or `n` milliseconds, after `now`, if that is in range.
pub open spec fn expiry_at(n: i64, seconds: bool, now: u64) -> Option<i64> {
    let at = now + n * if seconds {
        1000int
    } else {
        1int
    };
    if i64::MIN <= at <= i64::MAX {
        Some(at as i64)
    } else {
        None
    }
}

/// The time that a request gives as a decimal number of seconds, or of
/// milliseconds, from `now` on, if it is one and in range.
pub open spec fn expiry_from(number: Seq<u8>, seconds: bool, now: u64) -> Option<i64> {
    match i64_value(number) {
        Some(n) => expiry_at(n, seconds, now),
        None => None,
    }
}

/// A time, but not before the epoch.
pub open spec fn since_epoch(at: i64) -> u64 {
    if at > 0 {
        at as u64
    } else {
        0
    }
}

/// What the options `opts` of a `SET` request at the time `now` add to `so_far`,
/// the later ones winning; or the complaint about them.
pub open spec fn options_from(opts: Seq<Seq<u8>>, so_far: SetOptions, now: u64) -> Result<
    SetOptions,
    Seq<char>,
>
    decreases opts.len(),
{
    if opts.len() == 0 {
        Ok(so_far)
    } else {
        let opt = upper(opts[0]);
        if spells(opt, "EX"@) || spells(opt, "PX"@) {
            if opts.len() < 2 {
                Err("ERR syntax error"@)
            } else {
                match expiry_from(opts[1], spells(opt, "EX"@), now) {
                    Some(at) => options_from(
                        opts.skip(2),
                        SetOptions { expires_at_ms: Some(since_epoch(at)), ..so_far },
                        now,
                    ),
                    None => Err(not_integer_text("value"@)),
                }
            }
        } else if spells(opt, "NX"@) {
            options_from(opts.skip(1), SetOptions { nx: true, ..so_far }, now)
        } else if spells(opt, "XX"@) {
            options_from(opts.skip(1), SetOptions { xx: true, ..so_far }, now)
        } else {
            Err("ERR syntax error"@)
        }
    }
}

/// Neighbours as pairs.
pub open spec fn paired(list: Seq<Seq<u8>>) -> Seq<(Seq<u8>, Seq<u8>)> {
    Seq::new(list.len() / 2, |i: int| (list[2 * i], list[2 * i + 1]))
}

/// What the arguments `rest` of a `SET` request mean.
pub open spec fn set_meaning(rest: Seq<Seq<u8>>, now: u64) -> Result<CommandView, Seq<char>> {
    if rest.len() < 2 {
        Err(arity_text("set"@))
    } else {
        match options_from(
            rest.skip(2),
            SetOptions { expires_at_ms: None, nx: false, xx: false },
            now,
        ) {
            Err(e) => Err(e),
            Ok(o) => if o.nx && o.xx {
                Err("ERR syntax error"@)
            } else {
                Ok(
                    CommandView::SetKey {
                        key: rest[0],
                        value: rest[1],
                        expires_at_ms: o.expires_at_ms,
                        nx: o.nx,
                        xx: o.xx,
                    },
                )
            },
        }
    }
}

/// What the arguments `rest` of an `EXPIRE` or `PEXPIRE` request mean.
pub open spec fn expire_meaning(
    rest: Seq<Seq<u8>>,
    name: Seq<char>,
    seconds: bool,
    now: u64,
) -> Result<CommandView, Seq<char>> {
    if rest.len() != 2 {
        Err(arity_text(name))
    } else {
        match expiry_from(rest[1], seconds, now) {
            Some(at_ms) => Ok(CommandView::Expire { key: rest[0], at_ms }),
            None => Err(not_integer_text("value"@)),
        }
    }
}

/// What the arguments `rest` of an `INCRBY` or `DECRBY` request mean.
pub open spec fn step_meaning(rest: Seq<Seq<u8>>, down: bool) -> Result<CommandView, Seq<char>> {
    if rest.len() != 2 {
        Err(
            arity_text(
                if down {
                    "decrby"@
                } else {
                    "incrby"@
                },
            ),
        )
    } else {
        match i64_value(rest[1]) {
            Some(n) => Ok(
                if down {
                    CommandView::DecrBy(rest[0], n)
                } else {
                    CommandView::IncrBy(rest[0], n)
                },
            ),
            None => Err(not_integer_text("value"@)),
        }
    }
}

/// What the arguments `rest` of an `LRANGE` request mean.
pub open spec fn range_meaning(rest: Seq<Seq<u8>>) -> Result<CommandView, Seq<char>> {
    if rest.len() != 3 {
        Err(arity_text("lrange"@))
    } else {
        match (i64_value(rest[1]), i64_value(rest[2])) {
            (Some(start), Some(stop)) => Ok(CommandView::LRange { key: rest[0], start, stop }),
            _ => Err(not_integer_text("value"@)),
        }
    }
}

/// What the arguments `rest` of a `CONFIG` request mean.
pub open spec fn config_meaning(rest: Seq<Seq<u8>>) -> Result<CommandView, Seq<char>> {
    if rest.len() < 2 {
        Err(arity_text("config"@))
    } else if spells(upper(rest[0]), "GET"@) {
        Ok(CommandView::ConfigGet(rest[1]))
    } else if spells(upper(rest[0]), "SET"@) && rest.len() >= 3 {
        Ok(CommandView::ConfigSet(rest[1], rest[2]))
    } else {
        Err("ERR syntax error"@)
    }
}

/// What the arguments `rest` of a `CLUSTER` request mean.
pub open spec fn cluster_meaning(rest: Seq<Seq<u8>>) -> Result<CommandView, Seq<char>> {
    if rest.len() < 1 {
        Err(arity_text("cluster"@))
    } else if spells(upper(rest[0]), "INFO"@) {
        Ok(CommandView::ClusterInfo)
    } else if spells(upper(rest[0]), "SLOTS"@) {
        Ok(CommandView::ClusterSlots)
    } else {
        Err("ERR syntax error"@)
    }
}

/// `command`, unless the number of arguments is not right for `name`.
pub open spec fn given(right: bool, name: Seq<char>, command: CommandView) -> Result<
    CommandView,
    Seq<char>,
> {
    if right {
        Ok(command)
    } else {
        Err(arity_text(name))
    }
}

/// What a request means at the time `now`: a command, or the complaint about
/// it. Names count in either case.
pub open spec fn meaning(args: Seq<Seq<u8>>, now: u64) -> Result<CommandView, Seq<char>> {
    if args.len() == 0 {
        Err("ERR empty command"@)
    } else {
        named_meaning(upper(args[0]), args.skip(1), now)
    }
}

/// What the command called `name`, in upper case, means with the arguments
/// `rest`.
pub open spec fn named_meaning(name: Seq<u8>, rest: Seq<Seq<u8>>, now: u64) -> Result<
    CommandView,
    Seq<char>,
> {
    if spells(name, "SET"@) {
        set_meaning(rest, now)
    } else if spells(name, "EXPIRE"@) {
        expire_meaning(rest, "expire"@, true, now)
    } else if spells(name, "PEXPIRE"@) {
        expire_meaning(rest, "pexpire"@, false, now)
    } else {
        timeless_meaning(name, rest)
    }
}

/// What the command called `name`, in upper case, means with the arguments
/// `rest`, if it is none that depends on the time.
pub open spec fn timeless_meaning(name: Seq<u8>, rest: Seq<Seq<u8>>) -> Result<
    CommandView,
    Seq<char>,
> {
    if spells(name, "PING"@) {
        if rest.len() == 0 {
            Ok(CommandView::Ping(None))
        } else {
            given(rest.len() == 1, "ping"@, CommandView::Ping(Some(rest[0])))
        }
    } else if spells(name, "ECHO"@) {
        given(rest.len() == 1, "echo"@, CommandView::Echo(rest[0]))
    } else if spells(name, "GET"@) {
        given(rest.len() == 1, "get"@, CommandView::Get(rest[0]))
    } else if spells(name, "DEL"@) {
        given(rest.len() > 0, "del"@, CommandView::Del(rest))
    } else if spells(name, "EXISTS"@) {
        given(rest.len() > 0, "exists"@, CommandView::Exists(rest))
    } else if spells(name, "PERSIST"@) {
        given(rest.len() == 1, "persist"@, CommandView::Persist(rest[0]))
    } else if spells(name, "TTL"@) {
        given(rest.len() == 1, "ttl"@, CommandView::Ttl { key: rest[0], as_ms: false })
    } else if spells(name, "PTTL"@) {
        given(rest.len() == 1, "pttl"@, CommandView::Ttl { key: rest[0], as_ms: true })
    } else if spells(name, "INCR"@) {
        given(rest.len() == 1, "incr"@, CommandView::Incr(rest[0]))
    } else if spells(name, "DECR"@) {
        given(rest.len() == 1, "decr"@, CommandView::Decr(rest[0]))
    } else if spells(name, "INCRBY"@) {
        step_meaning(rest, false)
    } else if spells(name, "DECRBY"@) {
        step_meaning(rest, true)
    } else if spells(name, "APPEND"@) {
        given(rest.len() == 2, "append"@, CommandView::Append(rest[0], rest[1]))
    } else if spells(name, "MGET"@) {
        given(rest.len() > 0, "mget"@, CommandView::MGet(rest))
    } else if spells(name, "MSET"@) {
        given(
            rest.len() > 0 && rest.len() % 2 == 0,
            "mset"@,
            CommandView::MSet(paired(rest)),
        )
    } else if spells(name, "TYPE"@) {
        given(rest.len() == 1, "type"@, CommandView::Type(rest[0]))
    } else if spells(name, "FLUSHALL"@) {
        Ok(CommandView::FlushAll)
    } else if spells(name, "INFO"@) {
        Ok(CommandView::Info)
    } else if spells(name, "CONFIG"@) {
        config_meaning(rest)
    } else if spells(name, "BGSAVE"@) {
        Ok(CommandView::BgSave)
    } else if spells(name, "QUIT"@) {
        Ok(CommandView::Quit)
    } else {
        collection_meaning(name, rest)
    }
}

/// What the command called `name`, in upper case, means with the arguments
/// `rest`, if it is one on a collection.
pub open spec fn collection_meaning(name: Seq<u8>, rest: Seq<Seq<u8>>) -> Result<
    CommandView,
    Seq<char>,
> {
    if spells(name, "LPUSH"@) {
        given(
            rest.len() >= 2,
            "lpush"@,
            CommandView::Push { key: rest[0], items: rest.skip(1), front: true },
        )
    } else if spells(name, "RPUSH"@) {
        given(
            rest.len() >= 2,
            "rpush"@,
            CommandView::Push { key: rest[0], items: rest.skip(1), front: false },
        )
    } else if spells(name, "LPOP"@) {
        given(rest.len() == 1, "lpop"@, CommandView::Pop { key: rest[0], front: true })
    } else if spells(name, "RPOP"@) {
        given(rest.len() == 1, "rpop"@, CommandView::Pop { key: rest[0], front: false })
    } else if spells(name, "LRANGE"@) {
        range_meaning(rest)
    } else if spells(name, "LLEN"@) {
        given(rest.len() == 1, "llen"@, CommandView::LLen(rest[0]))
    } else if spells(name, "HSET"@) {
        given(
            rest.len() >= 3 && rest.len() % 2 == 1,
            "hset"@,
            CommandView::HSet(rest[0], paired(rest.skip(1))),
        )
    } else if spells(name, "HGET"@) {
        given(rest.len() == 2, "hget"@, CommandView::HGet(rest[0], rest[1]))
    } else if spells(name, "HDEL"@) {
        given(rest.len() >= 2, "hdel"@, CommandView::HDel(rest[0], rest.skip(1)))
    } else if spells(name, "HGETALL"@) {
        given(rest.len() == 1, "hgetall"@, CommandView::HGetAll(rest[0]))
    } else if spells(name, "HEXISTS"@) {
        given(rest.len() == 2, "hexists"@, CommandView::HExists(rest[0], rest[1]))
    } else if spells(name, "SADD"@) {
        given(rest.len() >= 2, "sadd"@, CommandView::SAdd(rest[0], rest.skip(1)))
    } else if spells(name, "SREM"@) {
        given(rest.len() >= 2, "srem"@, CommandView::SRem(rest[0], rest.skip(1)))
    } else if spells(name, "SMEMBERS"@) {
        given(rest.len() == 1, "smembers"@, CommandView::SMembers(rest[0]))
    } else if spells(name, "SISMEMBER"@) {
        given(rest.len() == 2, "sismember"@, CommandView::SIsMember(rest[0], rest[1]))
    } else {
        sorted_meaning(name, rest)
    }
}

/// The scores and members that a request gives in turn, if all of the scores can
/// be read.
pub open spec fn scores_given(pairs: Seq<(Seq<u8>, Seq<u8>)>) -> Option<
    Seq<(ScoreView, Seq<u8>)>,
> {
    if forall|i: int| 0 <= i < pairs.len() ==> score_value((#[trigger] pairs[i]).0) is Some {
        Some(pairs.map_values(|p: (Seq<u8>, Seq<u8>)| (score_value(p.0)->0, p.1)))
    } else {
        None
    }
}

/// What the arguments `rest` of a `ZADD` request mean.
pub open spec fn zadd_meaning(rest: Seq<Seq<u8>>) -> Result<CommandView, Seq<char>> {
    if rest.len() < 3 || rest.len() % 2 != 1 {
        Err(arity_text("zadd"@))
    } else {
        match scores_given(paired(rest.skip(1))) {
            Some(pairs) => Ok(CommandView::ZAdd(rest[0], pairs)),
            None => Err("ERR value is not a valid float"@),
        }
    }
}

/// What the arguments `rest` of a `ZRANGE` request mean.
pub open spec fn zrange_meaning(rest: Seq<Seq<u8>>) -> Result<CommandView, Seq<char>> {
    if rest.len() < 3 {
        Err(arity_text("zrange"@))
    } else {
        match (i64_value(rest[1]), i64_value(rest[2])) {
            (Some(start), Some(stop)) => if rest.len() == 3 {
                Ok(CommandView::ZRange { key: rest[0], start, stop, with_scores: false })
            } else if rest.len() == 4 && spells(upper(rest[3]), "WITHSCORES"@) {
                Ok(CommandView::ZRange { key: rest[0], start, stop, with_scores: true })
            } else {
                Err("ERR syntax error"@)
            },
            _ => Err(not_integer_text("value"@)),
        }
    }
}

/// What the command called `name`, in upper case, means with the arguments
/// `rest`, if it is one on a sorted set.
pub open spec fn sorted_meaning(name: Seq<u8>, rest: Seq<Seq<u8>>) -> Result<
    CommandView,
    Seq<char>,
> {
    if spells(name, "ZADD"@) {
        zadd_meaning(rest)
    } else if spells(name, "ZRANGE"@) {
        zrange_meaning(rest)
    } else if spells(name, "ZSCORE"@) {
        given(rest.len() == 2, "zscore"@, CommandView::ZScore(rest[0], rest[1]))
    } else if spells(name, "ZREM"@) {
        given(rest.len() >= 2, "zrem"@, CommandView::ZRem(rest[0], rest.skip(1)))
    } else {
        service_meaning(name, rest)
    }
}

/// What the command called `name`, in upper case, means with the arguments
/// `rest`, if it is one about messages, replicas or the cluster.
pub open spec fn service_meaning(name: Seq<u8>, rest: Seq<Seq<u8>>) -> Result<
    CommandView,
    Seq<char>,
> {
    if spells(name, "SUBSCRIBE"@) {
        given(rest.len() > 0, "subscribe"@, CommandView::Subscribe(rest))
    } else if spells(name, "UNSUBSCRIBE"@) {
        Ok(CommandView::Unsubscribe(rest))
    } else if spells(name, "PUBLISH"@) {
        given(rest.len() == 2, "publish"@, CommandView::Publish(rest[0], rest[1]))
    } else if spells(name, "SYNC"@) {
        Ok(CommandView::Sync)
    } else if spells(name, "CLUSTER"@) {
        cluster_meaning(rest)
    } else {
        Err(unknown_text(name))
    }
}

/// A command that puts elements into a collection is only understood with some,
/// and with scores in normal form.
pub proof fn law_meaning_is_proper(args: Seq<Seq<u8>>, now: u64)
    ensures
        meaning(args, now) matches Ok(cmd) ==> cmd.proper(),
{
    assert forall|s: Seq<u8>| (#[trigger] score_value(s) matches Some(score) ==> score.normal()) by {
        law_scores_are_normal(s);
    }
}

/// Whether the result of reading a request says what `meaning` does.
pub open spec fn understood(
    result: Result<Command, String>,
    meaning: Result<CommandView, Seq<char>>,
) -> bool {
    match result {
        Ok(cmd) => meaning == Ok::<CommandView, Seq<char>>(cmd@),
        Err(e) => meaning == Err::<CommandView, Seq<char>>(e@),
    }
}

/// The options of a `SET` request.
fn parse_set_options(opts: &[Bytes], now: u64) -> (result: Result<SetOptions, String>)
    ensures
        match (
            result,
            options_from(
                contents(opts@),
                SetOptions { expires_at_ms: None, nx: false, xx: false },
                now,
            ),
        ) {
            (Ok(o), Ok(p)) => o == p,
            (Err(e), Err(text)) => e@ == text,
            _ => false,
        },
{
    proof {
        lemma_option_words();
    }
    let mut o = SetOptions { expires_at_ms: None, nx: false, xx: false };
    let mut i: usize = 0;
    let ghost all = contents(opts@);
    let ghost want = options_from(all, o, now);
    assert(all.skip(0) =~= all);
    while i < opts.len()
        invariant
            i <= opts@.len(),
            is_ascii_chars("EX"@),
            is_ascii_chars("PX"@),
            is_ascii_chars("NX"@),
            is_ascii_chars("XX"@),
            all == contents(opts@),
            want == options_from(all.skip(i as int), o, now),
            want == options_from(
                all,
                SetOptions { expires_at_ms: None, nx: false, xx: false },
                now,
            ),
        decreases opts@.len() - i,
    {
        let ghost rest = all.skip(i as int);
        let opt = to_upper(&opts[i]);
        let ex: bool = is_word(&opt, "EX");
        assert(rest.skip(1) =~= all.skip(i + 1));
        if ex || is_word(&opt, "PX") {
            if opts.len() - i < 2 {
                return Err("ERR syntax error".to_owned());
            }
            assert(rest[1] == content(opts@[i + 1]));
            assert(rest.skip(2) =~= all.skip(i + 2));
            match parse_expiry(&opts[i + 1], ex, now) {
                Err(e) => {
                    return Err(e);
                },
                Ok(at) => {
                    o.expires_at_ms = Some(
                        if at > 0 {
                            at as u64
                        } else {
                            0
                        },
                    );
                },
            }
            i = i + 2;
        } else if is_word(&opt, "NX") {
            o.nx = true;
            i = i + 1;
        } else if is_word(&opt, "XX") {
            o.xx = true;
            i = i + 1;
        } else {
            return Err("ERR syntax error".to_owned());
        }
    }
    assert(all.skip(i as int) =~= Seq::<Seq<u8>>::empty());
    Ok(o)
}

/// The arguments `rest` of a `SET` request.
fn parse_set(rest: &[Bytes], now: u64) -> (result: Result<Command, String>)
    ensures
        understood(result, set_meaning(contents(rest@), now)),
{
    if rest.len() < 2 {
        return Err(arity_err("set"));
    }
    let opts = &rest[2..rest.len()];
    assert(contents(opts@) =~= contents(rest@).skip(2));
    match parse_set_options(opts, now) {
        Err(e) => Err(e),
        Ok(o) => {
            if o.nx && o.xx {
                return Err("ERR syntax error".to_owned());
            }
            Ok(
                Command::SetKey {
                    key: rest[0].clone(),
                    value: rest[1].clone(),
                    expires_at_ms: o.expires_at_ms,
                    nx: o.nx,
                    xx: o.xx,
                },
            )
        },
    }
}

/// The arguments `rest` of an `EXPIRE` or `PEXPIRE` request.
fn parse_expire(rest: &[Bytes], name: &str, seconds: bool, now: u64) -> (result: Result<
    Command,
    String,
>)
    ensures
        understood(result, expire_meaning(contents(rest@), name@, seconds, now)),
{
    if rest.len() != 2 {
        return Err(arity_err(name));
    }
    match parse_expiry(&rest[1], seconds, now) {
        Err(e) => Err(e),
        Ok(at_ms) => Ok(Command::Expire { key: rest[0].clone(), at_ms }),
    }
}

/// The arguments `rest` of an `INCRBY` or `DECRBY` request.
fn parse_step(rest: &[Bytes], down: bool) -> (result: Result<Command, String>)
    ensures
        understood(result, step_meaning(contents(rest@), down)),
{
    if rest.len() != 2 {
        return Err(
            if down {
                arity_err("decrby")
            } else {
                arity_err("incrby")
            },
        );
    }
    match parse_i64(&rest[1], "value") {
        Err(e) => Err(e),
        Ok(n) => Ok(
            if down {
                Command::DecrBy(rest[0].clone(), n)
            } else {
                Command::IncrBy(rest[0].clone(), n)
            },
        ),
    }
}

/// The arguments `rest` of an `LRANGE` request.
fn parse_range(rest: &[Bytes]) -> (result: Result<Command, String>)
    ensures
        understood(result, range_meaning(contents(rest@))),
{
    if rest.len() != 3 {
        return Err(arity_err("lrange"));
    }
    match (parse_i64(&rest[1], "value"), parse_i64(&rest[2], "value")) {
        (Ok(start), Ok(stop)) => Ok(Command::LRange { key: rest[0].clone(), start, stop }),
        (Err(e), _) => Err(e),
        (_, Err(e)) => Err(e),
    }
}

/// The arguments `rest` of a `CONFIG` request.
fn parse_config(rest: &[Bytes]) -> (result: Result<Command, String>)
    ensures
        understood(result, config_meaning(contents(rest@))),
{
    proof {
        lemma_config_words();
    }
    if rest.len() < 2 {
        return Err(arity_err("config"));
    }
    let sub = to_upper(&rest[0]);
    if is_word(&sub, "GET") {
        Ok(Command::ConfigGet(rest[1].clone()))
    } else if is_word(&sub, "SET") && rest.len() >= 3 {
        Ok(Command::ConfigSet(rest[1].clone(), rest[2].clone()))
    } else {
        Err("ERR syntax error".to_owned())
    }
}

/// The arguments `rest` of a `CLUSTER` request.
fn parse_cluster(rest: &[Bytes]) -> (result: Result<Command, String>)
    ensures
        understood(result, cluster_meaning(contents(rest@))),
{
    proof {
        lemma_cluster_words();
    }
    if rest.len() < 1 {
        return Err(arity_err("cluster"));
    }
    let sub = to_upper(&rest[0]);
    if is_word(&sub, "INFO") {
        Ok(Command::ClusterInfo)
    } else if is_word(&sub, "SLOTS") {
        Ok(Command::ClusterSlots)
    } else {
        Err("ERR syntax error".to_owned())
    }
}

/// The only argument.
fn one(rest: &[Bytes], name: &str) -> (result: Result<Bytes, String>)
    ensures
        match result {
            Ok(b) => rest@.len() == 1 && content(b) == contents(rest@)[0],
            Err(e) => rest@.len() != 1 && e@ == arity_text(name@),
        },
{
    if rest.len() == 1 {
        Ok(rest[0].clone())
    } else {
        Err(arity_err(name))
    }
}

/// The only two arguments.
fn two(rest: &[Bytes], name: &str) -> (result: Result<(Bytes, Bytes), String>)
    ensures
        match result {
            Ok((a, b)) => rest@.len() == 2 && content(a) == contents(rest@)[0] && content(b)
                == contents(rest@)[1],
            Err(e) => rest@.len() != 2 && e@ == arity_text(name@),
        },
{
    if rest.len() == 2 {
        Ok((rest[0].clone(), rest[1].clone()))
    } else {
        Err(arity_err(name))
    }
}

/// All arguments, of which there has to be one.
fn some(rest: &[Bytes], name: &str) -> (result: Result<Vec<Bytes>, String>)
    ensures
        match result {
            Ok(list) => rest@.len() > 0 && contents(list@) == contents(rest@),
            Err(e) => rest@.len() == 0 && e@ == arity_text(name@),
        },
{
    if rest.len() > 0 {
        assert(contents(rest@).skip(0) =~= contents(rest@));
        Ok(copy_from(rest, 0))
    } else {
        Err(arity_err(name))
    }
}

/// The first argument and those behind it, of which there has to be one.
fn key_and_more(rest: &[Bytes], name: &str) -> (result: Result<(Bytes, Vec<Bytes>), String>)
    ensures
        match result {
            Ok((key, list)) => rest@.len() >= 2 && content(key) == contents(rest@)[0] && contents(
                list@,
            ) == contents(rest@).skip(1),
            Err(e) => rest@.len() < 2 && e@ == arity_text(name@),
        },
{
    if rest.len() >= 2 {
        Ok((rest[0].clone(), copy_from(rest, 1)))
    } else {
        Err(arity_err(name))
    }
}

/// The arguments from `start` on as pairs.
pub(crate) fn pair_up(rest: &[Bytes], start: usize) -> (pairs: Vec<(Bytes, Bytes)>)
    requires
        start <= rest@.len(),
    ensures
        pair_contents(pairs@) == paired(contents(rest@).skip(start as int)),
{
    let mut pairs: Vec<(Bytes, Bytes)> = Vec::new();
    let mut i: usize = start;
    let ghost all = contents(rest@).skip(start as int);
    while i < rest.len() && rest.len() - i >= 2
        invariant
            start <= i <= rest@.len(),
            all == contents(rest@).skip(start as int),
            i == start + 2 * pairs@.len(),
            pair_contents(pairs@) =~= paired(all).take(pairs@.len() as int),
        decreases rest@.len() - i,
    {
        let ghost was = pairs@;
        let ghost n = pairs@.len() as int;
        pairs.push((rest[i].clone(), rest[i + 1].clone()));
        proof {
            assert(all[2 * n] == content(rest@[i as int]));
            assert(all[2 * n + 1] == content(rest@[i + 1]));
            assert(pair_contents(pairs@) =~= pair_contents(was).push(paired(all)[n]));
        }
        i = i + 2;
    }
    assert(pair_contents(pairs@) =~= paired(all));
    pairs
}

/// The command called `name`, in upper case, with the arguments `rest`, if it is
/// none that depends on the time.
fn parse_timeless(name: &[u8], rest: &[Bytes]) -> (result: Result<Command, String>)
    ensures
        understood(result, timeless_meaning(name@, contents(rest@))),
{
    proof {
        lemma_timeless_words();
    }
    if is_word(name, "PING") {
        if rest.len() == 0 {
            return Ok(Command::Ping(None));
        }
        match one(rest, "ping") {
            Ok(b) => Ok(Command::Ping(Some(b))),
            Err(e) => Err(e),
        }
    } else if is_word(name, "ECHO") {
        match one(rest, "echo") {
            Ok(b) => Ok(Command::Echo(b)),
            Err(e) => Err(e),
        }
    } else if is_word(name, "GET") {
        match one(rest, "get") {
            Ok(b) => Ok(Command::Get(b)),
            Err(e) => Err(e),
        }
    } else if is_word(name, "DEL") {
        match some(rest, "del") {
            Ok(list) => Ok(Command::Del(list)),
            Err(e) => Err(e),
        }
    } else if is_word(name, "EXISTS") {
        match some(rest, "exists") {
            Ok(list) => Ok(Command::Exists(list)),
            Err(e) => Err(e),
        }
    } else if is_word(name, "PERSIST") {
        match one(rest, "persist") {
            Ok(b) => Ok(Command::Persist(b)),
            Err(e) => Err(e),
        }
    } else if is_word(name, "TTL") {
        match one(rest, "ttl") {
            Ok(b) => Ok(Command::Ttl { key: b, as_ms: false }),
            Err(e) => Err(e),
        }
    } else if is_word(name, "PTTL") {
        match one(rest, "pttl") {
            Ok(b) => Ok(Command::Ttl { key: b, as_ms: true }),
            Err(e) => Err(e),
        }
    } else if is_word(name, "INCR") {
        match one(rest, "incr") {
            Ok(b) => Ok(Command::Incr(b)),
            Err(e) => Err(e),
        }
    } else if is_word(name, "DECR") {
        match one(rest, "decr") {
            Ok(b) => Ok(Command::Decr(b)),
            Err(e) => Err(e),
        }
    } else if is_word(name, "INCRBY") {
        parse_step(rest, false)
    } else if is_word(name, "DECRBY") {
        parse_step(rest, true)
    } else if is_word(name, "APPEND") {
        match two(rest, "append") {
            Ok((a, b)) => Ok(Command::Append(a, b)),
            Err(e) => Err(e),
        }
    } else if is_word(name, "MGET") {
        match some(rest, "mget") {
            Ok(list) => Ok(Command::MGet(list)),
            Err(e) => Err(e),
        }
    } else if is_word(name, "MSET") {
        if rest.len() == 0 || rest.len() % 2 != 0 {
            return Err(arity_err("mset"));
        }
        assert(contents(rest@).skip(0) =~= contents(rest@));
        Ok(Command::MSet(pair_up(rest, 0)))
    } else if is_word(name, "TYPE") {
        match one(rest, "type") {
            Ok(b) => Ok(Command::Type(b)),
            Err(e) => Err(e),
        }
    } else if is_word(name, "FLUSHALL") {
        Ok(Command::FlushAll)
    } else if is_word(name, "INFO") {
        Ok(Command::Info)
    } else if is_word(name, "CONFIG") {
        parse_config(rest)
    } else if is_word(name, "BGSAVE") {
        Ok(Command::BgSave)
    } else if is_word(name, "QUIT") {
        Ok(Command::Quit)
    } else {
        parse_collection(name, rest)
    }
}

/// The command called `name`, in upper case, with the arguments `rest`, if it is
/// one on a collection.
fn parse_collection(name: &[u8], rest: &[Bytes]) -> (result: Result<Command, String>)
    ensures
        understood(result, collection_meaning(name@, contents(rest@))),
{
    proof {
        lemma_collection_words();
    }
    if is_word(name, "LPUSH") {
        match key_and_more(rest, "lpush") {
            Ok((key, items)) => Ok(Command::Push { key, items, front: true }),
            Err(e) => Err(e),
        }
    } else if is_word(name, "RPUSH") {
        match key_and_more(rest, "rpush") {
            Ok((key, items)) => Ok(Command::Push { key, items, front: false }),
            Err(e) => Err(e),
        }
    } else if is_word(name, "LPOP") {
        match one(rest, "lpop") {
            Ok(key) => Ok(Command::Pop { key, front: true }),
            Err(e) => Err(e),
        }
    } else if is_word(name, "RPOP") {
        match one(rest, "rpop") {
            Ok(key) => Ok(Command::Pop { key, front: false }),
            Err(e) => Err(e),
        }
    } else if is_word(name, "LRANGE") {
        parse_range(rest)
    } else if is_word(name, "LLEN") {
        match one(rest, "llen") {
            Ok(b) => Ok(Command::LLen(b)),
            Err(e) => Err(e),
        }
    } else if is_word(name, "HSET") {
        if rest.len() < 3 || rest.len() % 2 != 1 {
            return Err(arity_err("hset"));
        }
        Ok(Command::HSet(rest[0].clone(), pair_up(rest, 1)))
    } else if is_word(name, "HGET") {
        match two(rest, "hget") {
            Ok((a, b)) => Ok(Command::HGet(a, b)),
            Err(e) => Err(e),
        }
    } else if is_word(name, "HDEL") {
        match key_and_more(rest, "hdel") {
            Ok((key, list)) => Ok(Command::HDel(key, list)),
            Err(e) => Err(e),
        }
    } else if is_word(name, "HGETALL") {
        match one(rest, "hgetall") {
            Ok(b) => Ok(Command::HGetAll(b)),
            Err(e) => Err(e),
        }
    } else if is_word(name, "HEXISTS") {
        match two(rest, "hexists") {
            Ok((a, b)) => Ok(Command::HExists(a, b)),
            Err(e) => Err(e),
        }
    } else if is_word(name, "SADD") {
        match key_and_more(rest, "sadd") {
            Ok((key, list)) => Ok(Command::SAdd(key, list)),
            Err(e) => Err(e),
        }
    } else if is_word(name, "SREM") {
        match key_and_more(rest, "srem") {
            Ok((key, list)) => Ok(Command::SRem(key, list)),
            Err(e) => Err(e),
        }
    } else if is_word(name, "SMEMBERS") {
        match one(rest, "smembers") {
            Ok(b) => Ok(Command::SMembers(b)),
            Err(e) => Err(e),
        }
    } else if is_word(name, "SISMEMBER") {
        match two(rest, "sismember") {
            Ok((a, b)) => Ok(Command::SIsMember(a, b)),
            Err(e) => Err(e),
        }
    } else {
        parse_sorted(name, rest)
    }
}

/// The scores and members that stand in turn from `start` on, if all of the
/// scores can be read.
fn parse_scores(rest: &[Bytes], start: usize) -> (list: Option<Vec<(Score, Bytes)>>)
    requires
        start <= rest@.len(),
    ensures
        match list {
            Some(list) => scores_given(paired(contents(rest@).skip(start as int))) == Some(
                score_pairs(list@),
            ),
            None => scores_given(paired(contents(rest@).skip(start as int))) is None,
        },
{
    let pairs = pair_up(rest, start);
    let mut list: Vec<(Score, Bytes)> = Vec::new();
    let mut i: usize = 0;
    let ghost all = pair_contents(pairs@);
    while i < pairs.len()
        invariant
            i <= pairs@.len(),
            all == pair_contents(pairs@),
            all == paired(contents(rest@).skip(start as int)),
            list@.len() == i,
            forall|j: int|
                0 <= j < i ==> score_value((#[trigger] all[j]).0) == Some(score_pairs(list@)[j].0)
                    && score_pairs(list@)[j].1 == all[j].1,
        decreases pairs@.len() - i,
    {
        assert(all[i as int] == (content(pairs@[i as int].0), content(pairs@[i as int].1)));
        match Score::read(&pairs[i].0) {
            Some(score) => {
                let ghost was = list@;
                list.push((score, pairs[i].1.clone()));
                proof {
                    assert forall|j: int| 0 <= j < i implies #[trigger] score_pairs(list@)[j]
                        == score_pairs(was)[j] by {}
                }
            },
            None => {
                assert(score_value(all[i as int].0) is None);
                return None;
            },
        }
        i = i + 1;
    }
    assert(score_pairs(list@) =~= scores_given(all)->0);
    Some(list)
}

/// The arguments `rest` of a `ZADD` request.
fn parse_zadd(rest: &[Bytes]) -> (result: Result<Command, String>)
    ensures
        understood(result, zadd_meaning(contents(rest@))),
{
    if rest.len() < 3 || rest.len() % 2 != 1 {
        return Err(arity_err("zadd"));
    }
    match parse_scores(rest, 1) {
        Some(pairs) => Ok(Command::ZAdd(rest[0].clone(), pairs)),
        None => Err("ERR value is not a valid float".to_owned()),
    }
}

/// The arguments `rest` of a `ZRANGE` request.
fn parse_zrange(rest: &[Bytes]) -> (result: Result<Command, String>)
    ensures
        understood(result, zrange_meaning(contents(rest@))),
{
    proof {
        lemma_sorted_words();
    }
    if rest.len() < 3 {
        return Err(arity_err("zrange"));
    }
    match (parse_i64(&rest[1], "value"), parse_i64(&rest[2], "value")) {
        (Ok(start), Ok(stop)) => {
            let with_scores: bool = rest.len() == 4 && is_word(&to_upper(&rest[3]), "WITHSCORES");
            if rest.len() == 3 || with_scores {
                Ok(Command::ZRange { key: rest[0].clone(), start, stop, with_scores })
            } else {
                Err("ERR syntax error".to_owned())
            }
        },
        (Err(e), _) => Err(e),
        (_, Err(e)) => Err(e),
    }
}

/// The command called `name`, in upper case, with the arguments `rest`, if it is
/// one on a sorted set.
fn parse_sorted(name: &[u8], rest: &[Bytes]) -> (result: Result<Command, String>)
    ensures
        understood(result, sorted_meaning(name@, contents(rest@))),
{
    proof {
        lemma_sorted_words();
    }
    if is_word(name, "ZADD") {
        parse_zadd(rest)
    } else if is_word(name, "ZRANGE") {
        parse_zrange(rest)
    } else if is_word(name, "ZSCORE") {
        match two(rest, "zscore") {
            Ok((a, b)) => Ok(Command::ZScore(a, b)),
            Err(e) => Err(e),
        }
    } else if is_word(name, "ZREM") {
        match key_and_more(rest, "zrem") {
            Ok((key, list)) => Ok(Command::ZRem(key, list)),
            Err(e) => Err(e),
        }
    } else {
        parse_service(name, rest)
    }
}

/// The command called `name`, in upper case, with the arguments `rest`, if it is
/// one about messages, replicas or the cluster.
fn parse_service(name: &[u8], rest: &[Bytes]) -> (result: Result<Command, String>)
    ensures
        understood(result, service_meaning(name@, contents(rest@))),
{
    proof {
        lemma_service_words();
    }
    if is_word(name, "SUBSCRIBE") {
        match some(rest, "subscribe") {
            Ok(list) => Ok(Command::Subscribe(list)),
            Err(e) => Err(e),
        }
    } else if is_word(name, "UNSUBSCRIBE") {
        assert(contents(rest@).skip(0) =~= contents(rest@));
        Ok(Command::Unsubscribe(copy_from(rest, 0)))
    } else if is_word(name, "PUBLISH") {
        match two(rest, "publish") {
            Ok((a, b)) => Ok(Command::Publish(a, b)),
            Err(e) => Err(e),
        }
    } else if is_word(name, "SYNC") {
        Ok(Command::Sync)
    } else if is_word(name, "CLUSTER") {
        parse_cluster(rest)
    } else {
        Err("ERR unknown command '".to_owned().concat(lossy_text(name).as_str()).concat("'"))
    }
}

/// Reads a request as a command at the time `now`.
pub fn parse_at(args: &[Bytes], now: u64) -> (result: Result<Command, String>)
    ensures
        understood(result, meaning(contents(args@), now)),
        result matches Ok(cmd) ==> cmd@.proper(),
{
    proof {
        lemma_timed_words();
        law_meaning_is_proper(contents(args@), now);
    }
    if args.len() == 0 {
        return Err("ERR empty command".to_owned());
    }
    let name = to_upper(&args[0]);
    let rest = &args[1..args.len()];
    assert(contents(rest@) =~= contents(args@).skip(1));
    if is_word(&name, "SET") {
        parse_set(rest, now)
    } else if is_word(&name, "EXPIRE") {
        parse_expire(rest, "expire", true, now)
    } else if is_word(&name, "PEXPIRE") {
        parse_expire(rest, "pexpire", false, now)
    } else {
        parse_timeless(&name, rest)
    }
}

/// Reads a request, its name and its arguments, as a command. Durations count
/// from the time on the system clock.
pub fn parse(args: &[Bytes]) -> (result: Result<Command, String>)
    ensures
        exists|now: u64| understood(result, #[trigger] meaning(contents(args@), now)),
        result matches Ok(cmd) ==> cmd@.proper(),
{
    let now: u64 = now_ms();
    parse_at(args, now)
}

} // verus!
