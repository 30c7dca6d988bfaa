//! What requests mean: which command a request is, said of the words that a
//! client sends, in upper or lower case.

use vstd::prelude::*;
use vstd::string::*;
use vstd::utf8::encode_utf8;

use crate::commands::{
    meaning, options_from, paired, scores_given, spells, upper, upper_byte, CommandView,
    SetOptions,
};
use crate::decimal::i64_value;
use crate::execute::outcome;
use crate::keyspace_laws::{law_set, law_ttl};
use crate::persistence::aof::FsyncPolicy;
use crate::resp::ReplyView;
use crate::score::score_value;
use crate::store::{StoreView, NUM_SHARDS};

verus! {

/// Whether `s` says `word`, a word of capital letters, in upper or lower case.
pub open spec fn says(s: Seq<u8>, word: Seq<char>) -> bool {
    s.len() == word.len() && forall|i: int|
        0 <= i < s.len() ==> (#[trigger] s[i] as int == word[i] as int || s[i] as int == word[i] as int
            + 32)
}

/// The complaint about a wrong number of arguments.
pub open spec fn miscounted(name: Seq<char>) -> Result<CommandView, Seq<char>> {
    Err("ERR wrong number of arguments for '"@ + name + "' command"@)
}

/// The complaint about a number that is none, or out of range.
pub open spec fn misnumbered() -> Result<CommandView, Seq<char>> {
    Err("ERR "@ + "value"@ + " is not an integer or out of range"@)
}

/// Letter `i` of a word, as a number; 0 behind its end.
spec fn letter(word: Seq<char>, i: int) -> int {
    if i < word.len() {
        word[i] as int
    } else {
        0
    }
}

/// A number that no two words of at most eleven letters share.
#[verifier::opaque]
spec fn code(word: Seq<char>) -> int {
    letter(word, 0) + 0x80 * letter(word, 1) + 0x4000 * letter(word, 2) + 0x20_0000 * letter(
        word,
        3,
    ) + 0x1000_0000 * letter(word, 4) + 0x8_0000_0000 * letter(word, 5) + 0x400_0000_0000 * letter(
        word,
        6,
    ) + 0x2_0000_0000_0000 * letter(word, 7) + 0x100_0000_0000_0000 * letter(word, 8)
        + 0x8000_0000_0000_0000 * letter(word, 9) + 0x40_0000_0000_0000_0000 * letter(word, 10)
}

/// Whether a word is made of capital letters.
#[verifier::opaque]
spec fn capital(word: Seq<char>) -> bool {
    forall|i: int| 0 <= i < word.len() ==> 65 <= #[trigger] word[i] as int <= 90
}

proof fn lemma_says(s: Seq<u8>, word: Seq<char>)
    requires
        capital(word),
    ensures
        says(s, word) <==> spells(upper(s), word),
{
    reveal(capital);
    let u = upper(s);
    if says(s, word) {
        assert forall|i: int| 0 <= i < u.len() implies #[trigger] u[i] as char == word[i] by {
            assert(s[i] as int == word[i] as int || s[i] as int == word[i] as int + 32);
            assert(65 <= word[i] as int <= 90);
            assert(u[i] == upper_byte(s[i]));
            assert(u[i] as int == word[i] as int);
        }
    }
    if spells(u, word) {
        assert forall|i: int| 0 <= i < s.len() implies (#[trigger] s[i] as int == word[i] as int
            || s[i] as int == word[i] as int + 32) by {
            assert(u[i] as char == word[i]);
            assert(u[i] == upper_byte(s[i]));
        }
    }
}

/// What is spelled has one number.
proof fn lemma_spelled(u: Seq<u8>, word: Seq<char>, other: Seq<char>)
    requires
        spells(u, word),
        spells(u, other),
    ensures
        code(word) == code(other),
{
    assert forall|i: int| 0 <= i < word.len() implies word[i] == other[i] by {
        assert(u[i] as char == word[i]);
    }
    assert(word =~= other);
}

/// A name that says a word spells that word and no other.
proof fn lemma_name(s: Seq<u8>, word: Seq<char>)
    requires
        says(s, word),
        capital(word),
    ensures
        spells(upper(s), word),
        forall|w: Seq<char>| #[trigger] spells(upper(s), w) ==> code(w) == code(word),
{
    lemma_says(s, word);
    assert forall|w: Seq<char>| #[trigger] spells(upper(s), w) implies code(w) == code(word) by {
        lemma_spelled(upper(s), word, w);
    }
}

proof fn lemma_words_1()
    ensures
        capital("SET"@),
        code("SET"@) == 0x1522d3,
        capital("EXPIRE"@),
        code("EXPIRE"@) == 0x22d29342c45,
        capital("PEXPIRE"@),
        code("PEXPIRE"@) == 0x116949a1622d0,
        capital("PING"@),
        code("PING"@) == 0x8f3a4d0,
        capital("ECHO"@),
        code("ECHO"@) == 0x9f221c5,
        capital("GET"@),
        code("GET"@) == 0x1522c7,
        capital("DEL"@),
        code("DEL"@) == 0x1322c4,
        capital("EXISTS"@),
        code("EXISTS"@) == 0x29d4a726c45,
        capital("PERSIST"@),
        code("PERSIST"@) == 0x1529c9a74a2d0,
{
    reveal(capital);
    reveal(code);
    reveal_strlit("SET");
    reveal_strlit("EXPIRE");
    reveal_strlit("PEXPIRE");
    reveal_strlit("PING");
    reveal_strlit("ECHO");
    reveal_strlit("GET");
    reveal_strlit("DEL");
    reveal_strlit("EXISTS");
    reveal_strlit("PERSIST");
}

proof fn lemma_words_2()
    ensures
        capital("TTL"@),
        code("TTL"@) == 0x132a54,
        capital("PTTL"@),
        code("PTTL"@) == 0x9952a50,
        capital("INCR"@),
        code("INCR"@) == 0xa50e749,
        capital("DECR"@),
        code("DECR"@) == 0xa50e2c4,
        capital("INCRBY"@),
        code("INCRBY"@) == 0x2cc2a50e749,
        capital("DECRBY"@),
        code("DECRBY"@) == 0x2cc2a50e2c4,
        capital("APPEND"@),
        code("APPEND"@) == 0x224e8b42841,
        capital("MGET"@),
        code("MGET"@) == 0xa9163cd,
        capital("MSET"@),
        code("MSET"@) == 0xa9169cd,
{
    reveal(capital);
    reveal(code);
    reveal_strlit("TTL");
    reveal_strlit("PTTL");
    reveal_strlit("INCR");
    reveal_strlit("DECR");
    reveal_strlit("INCRBY");
    reveal_strlit("DECRBY");
    reveal_strlit("APPEND");
    reveal_strlit("MGET");
    reveal_strlit("MSET");
}

proof fn lemma_words_3()
    ensures
        capital("TYPE"@),
        code("TYPE"@) == 0x8b42cd4,
        capital("FLUSHALL"@),
        code("FLUSHALL"@) == 0x99320c8a756646,
        capital("INFO"@),
        code("INFO"@) == 0x9f1a749,
        capital("CONFIG"@),
        code("CONFIG"@) == 0x23c98d3a7c3,
        capital("BGSAVE"@),
        code("BGSAVE"@) == 0x22d6834e3c2,
        capital("QUIT"@),
        code("QUIT"@) == 0xa926ad1,
        capital("LPUSH"@),
        code("LPUSH"@) == 0x48a75684c,
        capital("RPUSH"@),
        code("RPUSH"@) == 0x48a756852,
        capital("LPOP"@),
        code("LPOP"@) == 0xa13e84c,
{
    reveal(capital);
    reveal(code);
    reveal_strlit("TYPE");
    reveal_strlit("FLUSHALL");
    reveal_strlit("INFO");
    reveal_strlit("CONFIG");
    reveal_strlit("BGSAVE");
    reveal_strlit("QUIT");
    reveal_strlit("LPUSH");
    reveal_strlit("RPUSH");
    reveal_strlit("LPOP");
}

proof fn lemma_words_4()
    ensures
        capital("RPOP"@),
        code("RPOP"@) == 0xa13e852,
        capital("LRANGE"@),
        code("LRANGE"@) == 0x22c79d0694c,
        capital("LLEN"@),
        code("LLEN"@) == 0x9d1664c,
        capital("HSET"@),
        code("HSET"@) == 0xa9169c8,
        capital("HGET"@),
        code("HGET"@) == 0xa9163c8,
        capital("HDEL"@),
        code("HDEL"@) == 0x9916248,
        capital("HGETALL"@),
        code("HGETALL"@) == 0x132641a9163c8,
        capital("HEXISTS"@),
        code("HEXISTS"@) == 0x14ea5393622c8,
        capital("SADD"@),
        code("SADD"@) == 0x89120d3,
{
    reveal(capital);
    reveal(code);
    reveal_strlit("RPOP");
    reveal_strlit("LRANGE");
    reveal_strlit("LLEN");
    reveal_strlit("HSET");
    reveal_strlit("HGET");
    reveal_strlit("HDEL");
    reveal_strlit("HGETALL");
    reveal_strlit("HEXISTS");
    reveal_strlit("SADD");
}

proof fn lemma_words_5()
    ensures
        capital("SREM"@),
        code("SREM"@) == 0x9b16953,
        capital("SMEMBERS"@),
        code("SMEMBERS"@) == 0xa74a2c29b166d3,
        capital("SISMEMBER"@),
        code("SISMEMBER"@) == 0x528b0a6c59b4e4d3,
        capital("ZADD"@),
        code("ZADD"@) == 0x89120da,
        capital("ZRANGE"@),
        code("ZRANGE"@) == 0x22c79d0695a,
        capital("ZSCORE"@),
        code("ZSCORE"@) == 0x22d29f0e9da,
        capital("ZREM"@),
        code("ZREM"@) == 0x9b1695a,
        capital("SUBSCRIBE"@),
        code("SUBSCRIBE"@) == 0x458526943a70aad3,
        capital("UNSUBSCRIBE"@),
        code("UNSUBSCRIBE"@) == 0x116149a50e9c2ab4e755,
{
    reveal(capital);
    reveal(code);
    reveal_strlit("SREM");
    reveal_strlit("SMEMBERS");
    reveal_strlit("SISMEMBER");
    reveal_strlit("ZADD");
    reveal_strlit("ZRANGE");
    reveal_strlit("ZSCORE");
    reveal_strlit("ZREM");
    reveal_strlit("SUBSCRIBE");
    reveal_strlit("UNSUBSCRIBE");
}

proof fn lemma_words_6()
    ensures
        capital("PUBLISH"@),
        code("PUBLISH"@) == 0x1229c9990aad0,
        capital("SYNC"@),
        code("SYNC"@) == 0x873acd3,
        capital("CLUSTER"@),
        code("CLUSTER"@) == 0x14a2d4a756643,
        capital("EX"@),
        code("EX"@) == 0x2c45,
        capital("PX"@),
        code("PX"@) == 0x2c50,
        capital("NX"@),
        code("NX"@) == 0x2c4e,
        capital("XX"@),
        code("XX"@) == 0x2c58,
        capital("WITHSCORES"@),
        code("WITHSCORES"@) == 0x29c5a53e1d391524d7,
        capital("SLOTS"@),
        code("SLOTS"@) == 0x53a93e653,
{
    reveal(capital);
    reveal(code);
    reveal_strlit("PUBLISH");
    reveal_strlit("SYNC");
    reveal_strlit("CLUSTER");
    reveal_strlit("EX");
    reveal_strlit("PX");
    reveal_strlit("NX");
    reveal_strlit("XX");
    reveal_strlit("WITHSCORES");
    reveal_strlit("SLOTS");
}

proof fn lemma_words_7()
    ensures
        capital("ALWAYS"@),
        code("ALWAYS"@) == 0x29d9835e641,
        capital("EVERYSEC"@),
        code("EVERYSEC"@) == 0x87169d9a516b45,
        capital("NO"@),
        code("NO"@) == 0x27ce,
        capital("NEVER"@),
        code("NEVER"@) == 0x528b5a2ce,
{
    reveal(capital);
    reveal(code);
    reveal_strlit("ALWAYS");
    reveal_strlit("EVERYSEC");
    reveal_strlit("NO");
    reveal_strlit("NEVER");
}

/// The numbers of the words that requests are made of.
proof fn lemma_words()
    ensures
        capital("SET"@),
        code("SET"@) == 0x1522d3,
        capital("EXPIRE"@),
        code("EXPIRE"@) == 0x22d29342c45,
        capital("PEXPIRE"@),
        code("PEXPIRE"@) == 0x116949a1622d0,
        capital("PING"@),
        code("PING"@) == 0x8f3a4d0,
        capital("ECHO"@),
        code("ECHO"@) == 0x9f221c5,
        capital("GET"@),
        code("GET"@) == 0x1522c7,
        capital("DEL"@),
        code("DEL"@) == 0x1322c4,
        capital("EXISTS"@),
        code("EXISTS"@) == 0x29d4a726c45,
        capital("PERSIST"@),
        code("PERSIST"@) == 0x1529c9a74a2d0,
        capital("TTL"@),
        code("TTL"@) == 0x132a54,
        capital("PTTL"@),
        code("PTTL"@) == 0x9952a50,
        capital("INCR"@),
        code("INCR"@) == 0xa50e749,
        capital("DECR"@),
        code("DECR"@) == 0xa50e2c4,
        capital("INCRBY"@),
        code("INCRBY"@) == 0x2cc2a50e749,
        capital("DECRBY"@),
        code("DECRBY"@) == 0x2cc2a50e2c4,
        capital("APPEND"@),
        code("APPEND"@) == 0x224e8b42841,
        capital("MGET"@),
        code("MGET"@) == 0xa9163cd,
        capital("MSET"@),
        code("MSET"@) == 0xa9169cd,
        capital("TYPE"@),
        code("TYPE"@) == 0x8b42cd4,
        capital("FLUSHALL"@),
        code("FLUSHALL"@) == 0x99320c8a756646,
        capital("INFO"@),
        code("INFO"@) == 0x9f1a749,
        capital("CONFIG"@),
        code("CONFIG"@) == 0x23c98d3a7c3,
        capital("BGSAVE"@),
        code("BGSAVE"@) == 0x22d6834e3c2,
        capital("QUIT"@),
        code("QUIT"@) == 0xa926ad1,
        capital("LPUSH"@),
        code("LPUSH"@) == 0x48a75684c,
        capital("RPUSH"@),
        code("RPUSH"@) == 0x48a756852,
        capital("LPOP"@),
        code("LPOP"@) == 0xa13e84c,
        capital("RPOP"@),
        code("RPOP"@) == 0xa13e852,
        capital("LRANGE"@),
        code("LRANGE"@) == 0x22c79d0694c,
        capital("LLEN"@),
        code("LLEN"@) == 0x9d1664c,
        capital("HSET"@),
        code("HSET"@) == 0xa9169c8,
        capital("HGET"@),
        code("HGET"@) == 0xa9163c8,
        capital("HDEL"@),
        code("HDEL"@) == 0x9916248,
        capital("HGETALL"@),
        code("HGETALL"@) == 0x132641a9163c8,
        capital("HEXISTS"@),
        code("HEXISTS"@) == 0x14ea5393622c8,
        capital("SADD"@),
        code("SADD"@) == 0x89120d3,
        capital("SREM"@),
        code("SREM"@) == 0x9b16953,
        capital("SMEMBERS"@),
        code("SMEMBERS"@) == 0xa74a2c29b166d3,
        capital("SISMEMBER"@),
        code("SISMEMBER"@) == 0x528b0a6c59b4e4d3,
        capital("ZADD"@),
        code("ZADD"@) == 0x89120da,
        capital("ZRANGE"@),
        code("ZRANGE"@) == 0x22c79d0695a,
        capital("ZSCORE"@),
        code("ZSCORE"@) == 0x22d29f0e9da,
        capital("ZREM"@),
        code("ZREM"@) == 0x9b1695a,
        capital("SUBSCRIBE"@),
        code("SUBSCRIBE"@) == 0x458526943a70aad3,
        capital("UNSUBSCRIBE"@),
        code("UNSUBSCRIBE"@) == 0x116149a50e9c2ab4e755,
        capital("PUBLISH"@),
        code("PUBLISH"@) == 0x1229c9990aad0,
        capital("SYNC"@),
        code("SYNC"@) == 0x873acd3,
        capital("CLUSTER"@),
        code("CLUSTER"@) == 0x14a2d4a756643,
        capital("EX"@),
        code("EX"@) == 0x2c45,
        capital("PX"@),
        code("PX"@) == 0x2c50,
        capital("NX"@),
        code("NX"@) == 0x2c4e,
        capital("XX"@),
        code("XX"@) == 0x2c58,
        capital("WITHSCORES"@),
        code("WITHSCORES"@) == 0x29c5a53e1d391524d7,
        capital("SLOTS"@),
        code("SLOTS"@) == 0x53a93e653,
        capital("ALWAYS"@),
        code("ALWAYS"@) == 0x29d9835e641,
        capital("EVERYSEC"@),
        code("EVERYSEC"@) == 0x87169d9a516b45,
        capital("NO"@),
        code("NO"@) == 0x27ce,
        capital("NEVER"@),
        code("NEVER"@) == 0x528b5a2ce,
{
    lemma_words_1();
    lemma_words_2();
    lemma_words_3();
    lemma_words_4();
    lemma_words_5();
    lemma_words_6();
    lemma_words_7();
}

/// The command, where the name stands before exactly `n` arguments.
pub open spec fn exactly(args: Seq<Seq<u8>>, n: nat, name: Seq<char>, cmd: CommandView) -> Result<
    CommandView,
    Seq<char>,
> {
    if args.len() == n + 1 {
        Ok(cmd)
    } else {
        miscounted(name)
    }
}

/// The command, where the name stands before `n` arguments or more.
pub open spec fn at_least(args: Seq<Seq<u8>>, n: nat, name: Seq<char>, cmd: CommandView) -> Result<
    CommandView,
    Seq<char>,
> {
    if args.len() >= n + 1 {
        Ok(cmd)
    } else {
        miscounted(name)
    }
}

/// Requests about one key name that key and nothing else.
pub proof fn law_requests_on_one_key(args: Seq<Seq<u8>>, now: u64)
    requires
        args.len() > 0,
    ensures
        says(args[0], "GET"@) ==> meaning(args, now) == exactly(args, 1, "get"@, CommandView::Get(args[1])),
        says(args[0], "PERSIST"@) ==> meaning(args, now) == exactly(args, 1, "persist"@, CommandView::Persist(args[1])),
        says(args[0], "TTL"@) ==> meaning(args, now) == exactly(args, 1, "ttl"@, CommandView::Ttl { key: args[1], as_ms: false }),
        says(args[0], "PTTL"@) ==> meaning(args, now) == exactly(args, 1, "pttl"@, CommandView::Ttl { key: args[1], as_ms: true }),
        says(args[0], "INCR"@) ==> meaning(args, now) == exactly(args, 1, "incr"@, CommandView::Incr(args[1])),
        says(args[0], "DECR"@) ==> meaning(args, now) == exactly(args, 1, "decr"@, CommandView::Decr(args[1])),
        says(args[0], "TYPE"@) ==> meaning(args, now) == exactly(args, 1, "type"@, CommandView::Type(args[1])),
{
    lemma_words();
    if says(args[0], "GET"@) {
        lemma_name(args[0], "GET"@);
    }
    if says(args[0], "PERSIST"@) {
        lemma_name(args[0], "PERSIST"@);
    }
    if says(args[0], "TTL"@) {
        lemma_name(args[0], "TTL"@);
    }
    if says(args[0], "PTTL"@) {
        lemma_name(args[0], "PTTL"@);
    }
    if says(args[0], "INCR"@) {
        lemma_name(args[0], "INCR"@);
    }
    if says(args[0], "DECR"@) {
        lemma_name(args[0], "DECR"@);
    }
    if says(args[0], "TYPE"@) {
        lemma_name(args[0], "TYPE"@);
    }
}

/// Requests about one collection name its key and nothing else, and `ECHO`
/// names what comes back.
pub proof fn law_requests_on_one_collection(args: Seq<Seq<u8>>, now: u64)
    requires
        args.len() > 0,
    ensures
        says(args[0], "LPOP"@) ==> meaning(args, now) == exactly(args, 1, "lpop"@, CommandView::Pop { key: args[1], front: true }),
        says(args[0], "RPOP"@) ==> meaning(args, now) == exactly(args, 1, "rpop"@, CommandView::Pop { key: args[1], front: false }),
        says(args[0], "LLEN"@) ==> meaning(args, now) == exactly(args, 1, "llen"@, CommandView::LLen(args[1])),
        says(args[0], "HGETALL"@) ==> meaning(args, now) == exactly(args, 1, "hgetall"@, CommandView::HGetAll(args[1])),
        says(args[0], "SMEMBERS"@) ==> meaning(args, now) == exactly(args, 1, "smembers"@, CommandView::SMembers(args[1])),
        says(args[0], "ECHO"@) ==> meaning(args, now) == exactly(args, 1, "echo"@, CommandView::Echo(args[1])),
{
    lemma_words();
    if says(args[0], "LPOP"@) {
        lemma_name(args[0], "LPOP"@);
    }
    if says(args[0], "RPOP"@) {
        lemma_name(args[0], "RPOP"@);
    }
    if says(args[0], "LLEN"@) {
        lemma_name(args[0], "LLEN"@);
    }
    if says(args[0], "HGETALL"@) {
        lemma_name(args[0], "HGETALL"@);
    }
    if says(args[0], "SMEMBERS"@) {
        lemma_name(args[0], "SMEMBERS"@);
    }
    if says(args[0], "ECHO"@) {
        lemma_name(args[0], "ECHO"@);
    }
}

/// Requests that take two arguments take them in their order.
pub proof fn law_requests_with_two_arguments(args: Seq<Seq<u8>>, now: u64)
    requires
        args.len() > 0,
    ensures
        says(args[0], "APPEND"@) ==> meaning(args, now) == exactly(args, 2, "append"@, CommandView::Append(args[1], args[2])),
        says(args[0], "HGET"@) ==> meaning(args, now) == exactly(args, 2, "hget"@, CommandView::HGet(args[1], args[2])),
        says(args[0], "HEXISTS"@) ==> meaning(args, now) == exactly(args, 2, "hexists"@, CommandView::HExists(args[1], args[2])),
        says(args[0], "SISMEMBER"@) ==> meaning(args, now) == exactly(args, 2, "sismember"@, CommandView::SIsMember(args[1], args[2])),
        says(args[0], "ZSCORE"@) ==> meaning(args, now) == exactly(args, 2, "zscore"@, CommandView::ZScore(args[1], args[2])),
        says(args[0], "PUBLISH"@) ==> meaning(args, now) == exactly(args, 2, "publish"@, CommandView::Publish(args[1], args[2])),
{
    lemma_words();
    if says(args[0], "APPEND"@) {
        lemma_name(args[0], "APPEND"@);
    }
    if says(args[0], "HGET"@) {
        lemma_name(args[0], "HGET"@);
    }
    if says(args[0], "HEXISTS"@) {
        lemma_name(args[0], "HEXISTS"@);
    }
    if says(args[0], "SISMEMBER"@) {
        lemma_name(args[0], "SISMEMBER"@);
    }
    if says(args[0], "ZSCORE"@) {
        lemma_name(args[0], "ZSCORE"@);
    }
    if says(args[0], "PUBLISH"@) {
        lemma_name(args[0], "PUBLISH"@);
    }
}

/// Requests on any number of keys or channels take all of them, in their order.
pub proof fn law_requests_on_many_keys(args: Seq<Seq<u8>>, now: u64)
    requires
        args.len() > 0,
    ensures
        says(args[0], "DEL"@) ==> meaning(args, now) == at_least(args, 1, "del"@, CommandView::Del(args.subrange(1, args.len() as int))),
        says(args[0], "EXISTS"@) ==> meaning(args, now) == at_least(args, 1, "exists"@, CommandView::Exists(args.subrange(1, args.len() as int))),
        says(args[0], "MGET"@) ==> meaning(args, now) == at_least(args, 1, "mget"@, CommandView::MGet(args.subrange(1, args.len() as int))),
        says(args[0], "SUBSCRIBE"@) ==> meaning(args, now) == at_least(args, 1, "subscribe"@, CommandView::Subscribe(args.subrange(1, args.len() as int))),
        says(args[0], "UNSUBSCRIBE"@) ==> meaning(args, now) == Ok::<CommandView, Seq<char>>(CommandView::Unsubscribe(args.subrange(1, args.len() as int))),
{
    lemma_words();
    let n = args.len() as int;
    assert(args.skip(1) =~= args.subrange(1, n));
    if n >= 2 {
        assert(args.skip(1).skip(1) =~= args.subrange(2, n));
    }
    if says(args[0], "DEL"@) {
        lemma_name(args[0], "DEL"@);
    }
    if says(args[0], "EXISTS"@) {
        lemma_name(args[0], "EXISTS"@);
    }
    if says(args[0], "MGET"@) {
        lemma_name(args[0], "MGET"@);
    }
    if says(args[0], "SUBSCRIBE"@) {
        lemma_name(args[0], "SUBSCRIBE"@);
    }
    if says(args[0], "UNSUBSCRIBE"@) {
        lemma_name(args[0], "UNSUBSCRIBE"@);
    }
}

/// Requests with any number of elements take all of them, in their order,
/// behind the key.
pub proof fn law_requests_with_many_elements(args: Seq<Seq<u8>>, now: u64)
    requires
        args.len() > 0,
    ensures
        says(args[0], "LPUSH"@) ==> meaning(args, now) == at_least(args, 2, "lpush"@, CommandView::Push { key: args[1], items: args.subrange(2, args.len() as int), front: true }),
        says(args[0], "RPUSH"@) ==> meaning(args, now) == at_least(args, 2, "rpush"@, CommandView::Push { key: args[1], items: args.subrange(2, args.len() as int), front: false }),
        says(args[0], "HDEL"@) ==> meaning(args, now) == at_least(args, 2, "hdel"@, CommandView::HDel(args[1], args.subrange(2, args.len() as int))),
        says(args[0], "SADD"@) ==> meaning(args, now) == at_least(args, 2, "sadd"@, CommandView::SAdd(args[1], args.subrange(2, args.len() as int))),
        says(args[0], "SREM"@) ==> meaning(args, now) == at_least(args, 2, "srem"@, CommandView::SRem(args[1], args.subrange(2, args.len() as int))),
        says(args[0], "ZREM"@) ==> meaning(args, now) == at_least(args, 2, "zrem"@, CommandView::ZRem(args[1], args.subrange(2, args.len() as int))),
{
    lemma_words();
    let n = args.len() as int;
    assert(args.skip(1) =~= args.subrange(1, n));
    if n >= 2 {
        assert(args.skip(1).skip(1) =~= args.subrange(2, n));
    }
    if says(args[0], "LPUSH"@) {
        lemma_name(args[0], "LPUSH"@);
    }
    if says(args[0], "RPUSH"@) {
        lemma_name(args[0], "RPUSH"@);
    }
    if says(args[0], "HDEL"@) {
        lemma_name(args[0], "HDEL"@);
    }
    if says(args[0], "SADD"@) {
        lemma_name(args[0], "SADD"@);
    }
    if says(args[0], "SREM"@) {
        lemma_name(args[0], "SREM"@);
    }
    if says(args[0], "ZREM"@) {
        lemma_name(args[0], "ZREM"@);
    }
}

/// Requests without arguments; `PING` may have one that comes back.
pub proof fn law_requests_without_arguments(args: Seq<Seq<u8>>, now: u64)
    requires
        args.len() > 0,
    ensures
        says(args[0], "FLUSHALL"@) ==> meaning(args, now) == Ok::<CommandView, Seq<char>>(CommandView::FlushAll),
        says(args[0], "INFO"@) ==> meaning(args, now) == Ok::<CommandView, Seq<char>>(CommandView::Info),
        says(args[0], "BGSAVE"@) ==> meaning(args, now) == Ok::<CommandView, Seq<char>>(CommandView::BgSave),
        says(args[0], "QUIT"@) ==> meaning(args, now) == Ok::<CommandView, Seq<char>>(CommandView::Quit),
        says(args[0], "SYNC"@) ==> meaning(args, now) == Ok::<CommandView, Seq<char>>(CommandView::Sync),
        says(args[0], "PING"@) ==> meaning(args, now) == (if args.len() == 1 { Ok(CommandView::Ping(None)) } else if args.len() == 2 { Ok(CommandView::Ping(Some(args[1]))) } else { miscounted("ping"@) }),
{
    lemma_words();
    if says(args[0], "FLUSHALL"@) {
        lemma_name(args[0], "FLUSHALL"@);
    }
    if says(args[0], "INFO"@) {
        lemma_name(args[0], "INFO"@);
    }
    if says(args[0], "BGSAVE"@) {
        lemma_name(args[0], "BGSAVE"@);
    }
    if says(args[0], "QUIT"@) {
        lemma_name(args[0], "QUIT"@);
    }
    if says(args[0], "SYNC"@) {
        lemma_name(args[0], "SYNC"@);
    }
    if says(args[0], "PING"@) {
        lemma_name(args[0], "PING"@);
    }
}

/// Whether `pairs` are the arguments from position `from` on, two by two.
pub open spec fn are_pairs(
    args: Seq<Seq<u8>>,
    from: int,
    pairs: Seq<(Seq<u8>, Seq<u8>)>,
) -> bool {
    &&& args.len() == from + 2 * pairs.len()
    &&& forall|i: int|
        0 <= i < pairs.len() ==> #[trigger] pairs[i] == (args[from + 2 * i], args[from + 2 * i + 1])
}

/// `MSET` takes all its arguments as keys with their values, and `HSET` those
/// behind the key as fields with theirs; there has to be a whole number of pairs.
pub proof fn law_requests_with_pairs(args: Seq<Seq<u8>>, now: u64)
    requires
        args.len() > 0,
    ensures
        says(args[0], "MSET"@) ==> if args.len() >= 3 && args.len() % 2 == 1 {
            meaning(args, now) matches Ok(CommandView::MSet(pairs)) && are_pairs(args, 1, pairs)
        } else {
            meaning(args, now) == miscounted("mset"@)
        },
        says(args[0], "HSET"@) ==> if args.len() >= 4 && args.len() % 2 == 0 {
            meaning(args, now) matches Ok(CommandView::HSet(key, pairs)) && key == args[1]
                && are_pairs(args, 2, pairs)
        } else {
            meaning(args, now) == miscounted("hset"@)
        },
{
    lemma_pair_names(args, now);
    let rest = args.skip(1);
    if args.len() >= 2 {
        let more = rest.skip(1);
        assert forall|i: int| 0 <= i < paired(more).len() implies #[trigger] paired(more)[i] == (
            args[2 + 2 * i],
            args[3 + 2 * i],
        ) by {}
    }
    assert forall|i: int| 0 <= i < paired(rest).len() implies #[trigger] paired(rest)[i] == (
        args[1 + 2 * i],
        args[2 + 2 * i],
    ) by {}
}

proof fn lemma_pair_names(args: Seq<Seq<u8>>, now: u64)
    requires
        args.len() > 0,
    ensures
        says(args[0], "MSET"@) ==> meaning(args, now) == (if args.len() >= 3 && args.len() % 2
            == 1 {
            Ok(CommandView::MSet(paired(args.skip(1))))
        } else {
            miscounted("mset"@)
        }),
        says(args[0], "HSET"@) ==> meaning(args, now) == (if args.len() >= 4 && args.len() % 2
            == 0 {
            Ok(CommandView::HSet(args[1], paired(args.skip(1).skip(1))))
        } else {
            miscounted("hset"@)
        }),
        says(args[0], "ZADD"@) ==> meaning(args, now) == (if args.len() < 4 || args.len() % 2
            == 1 {
            miscounted("zadd"@)
        } else {
            match scores_given(paired(args.skip(1).skip(1))) {
                Some(pairs) => Ok(CommandView::ZAdd(args[1], pairs)),
                None => Err("ERR value is not a valid float"@),
            }
        }),
{
    lemma_words();
    if says(args[0], "MSET"@) {
        lemma_name(args[0], "MSET"@);
    }
    if says(args[0], "HSET"@) {
        lemma_name(args[0], "HSET"@);
    }
    if says(args[0], "ZADD"@) {
        lemma_name(args[0], "ZADD"@);
    }
}

/// Requests with numbers: `INCRBY`, `DECRBY` and `LRANGE` take them as they are
/// written, and complain about what is no signed 64-bit number.
pub proof fn law_requests_with_numbers(args: Seq<Seq<u8>>, now: u64)
    requires
        args.len() > 0,
    ensures
        says(args[0], "INCRBY"@) ==> meaning(args, now) == (if args.len() != 3 {
            miscounted("incrby"@)
        } else {
            match i64_value(args[2]) {
                Some(n) => Ok(CommandView::IncrBy(args[1], n)),
                None => misnumbered(),
            }
        }),
        says(args[0], "DECRBY"@) ==> meaning(args, now) == (if args.len() != 3 {
            miscounted("decrby"@)
        } else {
            match i64_value(args[2]) {
                Some(n) => Ok(CommandView::DecrBy(args[1], n)),
                None => misnumbered(),
            }
        }),
        says(args[0], "LRANGE"@) ==> meaning(args, now) == (if args.len() != 4 {
            miscounted("lrange"@)
        } else if i64_value(args[2]) is None || i64_value(args[3]) is None {
            misnumbered()
        } else {
            Ok(
                CommandView::LRange {
                    key: args[1],
                    start: i64_value(args[2])->0,
                    stop: i64_value(args[3])->0,
                },
            )
        }),
        says(args[0], "ZRANGE"@) ==> meaning(args, now) == (if args.len() < 4 {
            miscounted("zrange"@)
        } else if i64_value(args[2]) is None || i64_value(args[3]) is None {
            misnumbered()
        } else if args.len() == 4 || (args.len() == 5 && says(args[4], "WITHSCORES"@)) {
            Ok(
                CommandView::ZRange {
                    key: args[1],
                    start: i64_value(args[2])->0,
                    stop: i64_value(args[3])->0,
                    with_scores: args.len() == 5,
                },
            )
        } else {
            Err("ERR syntax error"@)
        }),
{
    lemma_words();
    if says(args[0], "INCRBY"@) {
        lemma_name(args[0], "INCRBY"@);
    }
    if says(args[0], "DECRBY"@) {
        lemma_name(args[0], "DECRBY"@);
    }
    if says(args[0], "LRANGE"@) {
        lemma_name(args[0], "LRANGE"@);
    }
    if says(args[0], "ZRANGE"@) {
        lemma_name(args[0], "ZRANGE"@);
        if args.len() == 5 {
            lemma_says(args[4], "WITHSCORES"@);
        }
    }
}

/// A number of seconds, or of milliseconds, from `now` on, in milliseconds since
/// the epoch.
pub open spec fn moment(now: u64, n: i64, seconds: bool) -> int {
    if seconds {
        now + 1000 * n
    } else {
        now + n
    }
}

/// `EXPIRE` asks for the time so many seconds from now, `PEXPIRE` for that so many
/// milliseconds from now, whenever it is a signed 64-bit number.
pub proof fn law_expire_request(args: Seq<Seq<u8>>, seconds: bool, now: u64)
    requires
        args.len() > 0,
        says(
            args[0],
            if seconds {
                "EXPIRE"@
            } else {
                "PEXPIRE"@
            },
        ),
    ensures
        meaning(args, now) == (if args.len() != 3 {
            miscounted(
                if seconds {
                    "expire"@
                } else {
                    "pexpire"@
                },
            )
        } else {
            match i64_value(args[2]) {
                Some(n) => if i64::MIN <= moment(now, n, seconds) <= i64::MAX {
                    Ok(
                        CommandView::Expire {
                            key: args[1],
                            at_ms: moment(now, n, seconds) as i64,
                        },
                    )
                } else {
                    misnumbered()
                },
                None => misnumbered(),
            }
        }),
{
    lemma_words();
    if seconds {
        lemma_name(args[0], "EXPIRE"@);
    } else {
        lemma_name(args[0], "PEXPIRE"@);
    }
}

/// `CONFIG GET` and `CONFIG SET`, `CLUSTER INFO` and `CLUSTER SLOTS`.
pub proof fn law_requests_with_a_second_word(args: Seq<Seq<u8>>, now: u64)
    requires
        args.len() > 0,
    ensures
        says(args[0], "CONFIG"@) ==> meaning(args, now) == (if args.len() < 3 {
            miscounted("config"@)
        } else if says(args[1], "GET"@) {
            Ok(CommandView::ConfigGet(args[2]))
        } else if says(args[1], "SET"@) && args.len() >= 4 {
            Ok(CommandView::ConfigSet(args[2], args[3]))
        } else {
            Err("ERR syntax error"@)
        }),
        says(args[0], "CLUSTER"@) ==> meaning(args, now) == (if args.len() < 2 {
            miscounted("cluster"@)
        } else if says(args[1], "INFO"@) {
            Ok(CommandView::ClusterInfo)
        } else if says(args[1], "SLOTS"@) {
            Ok(CommandView::ClusterSlots)
        } else {
            Err("ERR syntax error"@)
        }),
{
    lemma_words();
    if says(args[0], "CONFIG"@) {
        lemma_name(args[0], "CONFIG"@);
        if args.len() >= 2 {
            lemma_says(args[1], "GET"@);
            lemma_says(args[1], "SET"@);
        }
    }
    if says(args[0], "CLUSTER"@) {
        lemma_name(args[0], "CLUSTER"@);
        if args.len() >= 2 {
            lemma_says(args[1], "INFO"@);
            lemma_says(args[1], "SLOTS"@);
        }
    }
}

/// `ZADD` takes the arguments behind the key as scores with members, in their
/// order, and complains about a score that is none.
pub proof fn law_zadd_request(args: Seq<Seq<u8>>, now: u64)
    requires
        args.len() > 0,
        says(args[0], "ZADD"@),
    ensures
        if args.len() < 4 || args.len() % 2 == 1 {
            meaning(args, now) == miscounted("zadd"@)
        } else if exists|i: int|
            0 <= i < (args.len() - 2) / 2 && score_value(#[trigger] args[2 + 2 * i]) is None {
            meaning(args, now) == Err::<CommandView, Seq<char>>("ERR value is not a valid float"@)
        } else {
            &&& meaning(args, now) matches Ok(CommandView::ZAdd(key, pairs))
            &&& key == args[1]
            &&& 2 * pairs.len() == args.len() - 2
            &&& forall|i: int|
                0 <= i < pairs.len() ==> (#[trigger] pairs[i]).1 == args[3 + 2 * i]
                    && score_value(args[2 + 2 * i]) == Some(pairs[i].0)
        },
{
    lemma_pair_names(args, now);
    let rest = args.skip(1);
    let list = paired(rest.skip(1));
    if args.len() >= 4 && args.len() % 2 == 0 {
        assert forall|i: int| 0 <= i < list.len() implies #[trigger] list[i] == (
            args[2 + 2 * i],
            args[3 + 2 * i],
        ) by {}
        if exists|i: int|
            0 <= i < (args.len() - 2) / 2 && score_value(#[trigger] args[2 + 2 * i]) is None {
            let i = choose|i: int|
                0 <= i < (args.len() - 2) / 2 && score_value(#[trigger] args[2 + 2 * i]) is None;
            assert(score_value(list[i].0) is None);
        } else {
            assert forall|i: int| 0 <= i < list.len() implies score_value(
                (#[trigger] list[i]).0,
            ) is Some by {
                assert(score_value(args[2 + 2 * i]) is Some);
            }
        }
    }
}

/// Whether `s` says the name of a command.
pub open spec fn says_a_command(s: Seq<u8>) -> bool {
    ||| says(s, "SET"@)
    ||| says(s, "EXPIRE"@)
    ||| says(s, "PEXPIRE"@)
    ||| says(s, "PING"@)
    ||| says(s, "ECHO"@)
    ||| says(s, "GET"@)
    ||| says(s, "DEL"@)
    ||| says(s, "EXISTS"@)
    ||| says(s, "PERSIST"@)
    ||| says(s, "TTL"@)
    ||| says(s, "PTTL"@)
    ||| says(s, "INCR"@)
    ||| says(s, "DECR"@)
    ||| says(s, "INCRBY"@)
    ||| says(s, "DECRBY"@)
    ||| says(s, "APPEND"@)
    ||| says(s, "MGET"@)
    ||| says(s, "MSET"@)
    ||| says(s, "TYPE"@)
    ||| says(s, "FLUSHALL"@)
    ||| says(s, "INFO"@)
    ||| says(s, "CONFIG"@)
    ||| says(s, "BGSAVE"@)
    ||| says(s, "QUIT"@)
    ||| says(s, "LPUSH"@)
    ||| says(s, "RPUSH"@)
    ||| says(s, "LPOP"@)
    ||| says(s, "RPOP"@)
    ||| says(s, "LRANGE"@)
    ||| says(s, "LLEN"@)
    ||| says(s, "HSET"@)
    ||| says(s, "HGET"@)
    ||| says(s, "HDEL"@)
    ||| says(s, "HGETALL"@)
    ||| says(s, "HEXISTS"@)
    ||| says(s, "SADD"@)
    ||| says(s, "SREM"@)
    ||| says(s, "SMEMBERS"@)
    ||| says(s, "SISMEMBER"@)
    ||| says(s, "ZADD"@)
    ||| says(s, "ZRANGE"@)
    ||| says(s, "ZSCORE"@)
    ||| says(s, "ZREM"@)
    ||| says(s, "SUBSCRIBE"@)
    ||| says(s, "UNSUBSCRIBE"@)
    ||| says(s, "PUBLISH"@)
    ||| says(s, "SYNC"@)
    ||| says(s, "CLUSTER"@)
}

/// An empty request is none, and one whose first word names no command is
/// answered with that word.
pub proof fn law_other_requests_are_unknown(args: Seq<Seq<u8>>, now: u64)
    ensures
        args.len() == 0 ==> meaning(args, now) == Err::<CommandView, Seq<char>>(
            "ERR empty command"@,
        ),
        args.len() > 0 && !says_a_command(args[0]) ==> meaning(args, now) == Err::<
            CommandView,
            Seq<char>,
        >("ERR unknown command '"@ + crate::commands::lossy(upper(args[0])) + "'"@),
{
    lemma_words();
    if args.len() > 0 {
        lemma_says(args[0], "SET"@);
        lemma_says(args[0], "EXPIRE"@);
        lemma_says(args[0], "PEXPIRE"@);
        lemma_says(args[0], "PING"@);
        lemma_says(args[0], "ECHO"@);
        lemma_says(args[0], "GET"@);
        lemma_says(args[0], "DEL"@);
        lemma_says(args[0], "EXISTS"@);
        lemma_says(args[0], "PERSIST"@);
        lemma_says(args[0], "TTL"@);
        lemma_says(args[0], "PTTL"@);
        lemma_says(args[0], "INCR"@);
        lemma_says(args[0], "DECR"@);
        lemma_says(args[0], "INCRBY"@);
        lemma_says(args[0], "DECRBY"@);
        lemma_says(args[0], "APPEND"@);
        lemma_says(args[0], "MGET"@);
        lemma_says(args[0], "MSET"@);
        lemma_says(args[0], "TYPE"@);
        lemma_says(args[0], "FLUSHALL"@);
        lemma_says(args[0], "INFO"@);
        lemma_says(args[0], "CONFIG"@);
        lemma_says(args[0], "BGSAVE"@);
        lemma_says(args[0], "QUIT"@);
        lemma_says(args[0], "LPUSH"@);
        lemma_says(args[0], "RPUSH"@);
        lemma_says(args[0], "LPOP"@);
        lemma_says(args[0], "RPOP"@);
        lemma_says(args[0], "LRANGE"@);
        lemma_says(args[0], "LLEN"@);
        lemma_says(args[0], "HSET"@);
        lemma_says(args[0], "HGET"@);
        lemma_says(args[0], "HDEL"@);
        lemma_says(args[0], "HGETALL"@);
        lemma_says(args[0], "HEXISTS"@);
        lemma_says(args[0], "SADD"@);
        lemma_says(args[0], "SREM"@);
        lemma_says(args[0], "SMEMBERS"@);
        lemma_says(args[0], "SISMEMBER"@);
        lemma_says(args[0], "ZADD"@);
        lemma_says(args[0], "ZRANGE"@);
        lemma_says(args[0], "ZSCORE"@);
        lemma_says(args[0], "ZREM"@);
        lemma_says(args[0], "SUBSCRIBE"@);
        lemma_says(args[0], "UNSUBSCRIBE"@);
        lemma_says(args[0], "PUBLISH"@);
        lemma_says(args[0], "SYNC"@);
        lemma_says(args[0], "CLUSTER"@);
    }
}

/// An option of `SET`, as a client writes it.
pub enum SetOption {
    /// `NX`.
    New(Seq<u8>),
    /// `XX`.
    Old(Seq<u8>),
    /// `EX` with a number of seconds, or `PX` with one of milliseconds.
    Due { word: Seq<u8>, number: Seq<u8>, seconds: bool },
}

impl SetOption {
    /// Whether the option is written as such, and its time is in range.
    pub open spec fn valid(self, now: u64) -> bool {
        match self {
            SetOption::New(word) => says(word, "NX"@),
            SetOption::Old(word) => says(word, "XX"@),
            SetOption::Due { word, number, seconds } => says(
                word,
                if seconds {
                    "EX"@
                } else {
                    "PX"@
                },
            ) && (i64_value(number) matches Some(n) && i64::MIN <= moment(now, n, seconds)
                <= i64::MAX),
        }
    }

    /// The arguments that the option takes.
    pub open spec fn written(self) -> Seq<Seq<u8>> {
        match self {
            SetOption::New(word) => seq![word],
            SetOption::Old(word) => seq![word],
            SetOption::Due { word, number, .. } => seq![word, number],
        }
    }
}

/// The arguments that options take, one after the other.
pub open spec fn written_out(list: Seq<SetOption>) -> Seq<Seq<u8>>
    decreases list.len(),
{
    if list.len() == 0 {
        Seq::empty()
    } else {
        list[0].written() + written_out(list.skip(1))
    }
}

/// Whether an option for new keys is among these.
pub open spec fn some_new(list: Seq<SetOption>) -> bool {
    exists|i: int| 0 <= i < list.len() && #[trigger] list[i] is New
}

/// Whether an option for old keys is among these.
pub open spec fn some_old(list: Seq<SetOption>) -> bool {
    exists|i: int| 0 <= i < list.len() && #[trigger] list[i] is Old
}

/// Whether the option at `i` is the last that sets a time.
pub open spec fn last_due(list: Seq<SetOption>, i: int) -> bool {
    0 <= i < list.len() && list[i] is Due && forall|j: int|
        i < j < list.len() ==> !(#[trigger] list[j] is Due)
}

/// The expiry time that an option sets.
pub open spec fn due_at(option: SetOption, now: u64) -> u64 {
    match option {
        SetOption::Due { number, seconds, .. } => {
            let at = moment(now, i64_value(number)->0, seconds);
            if at > 0 {
                at as u64
            } else {
                0
            }
        },
        _ => 0,
    }
}

proof fn lemma_option_words()
    ensures
        capital("EX"@),
        capital("PX"@),
        capital("NX"@),
        capital("XX"@),
        code("EX"@) != code("NX"@) && code("EX"@) != code("XX"@),
        code("EX"@) != code("PX"@) && code("PX"@) != code("NX"@) && code("PX"@) != code("XX"@),
        code("NX"@) != code("XX"@),
{
    lemma_words();
}

proof fn lemma_options(list: Seq<SetOption>, so_far: SetOptions, now: u64)
    requires
        forall|i: int| 0 <= i < list.len() ==> (#[trigger] list[i]).valid(now),
    ensures
        ({
            let result = options_from(written_out(list), so_far, now);
            &&& result matches Ok(o)
            &&& o.nx == (so_far.nx || some_new(list))
            &&& o.xx == (so_far.xx || some_old(list))
            &&& forall|i: int| #[trigger]
                last_due(list, i) ==> o.expires_at_ms == Some(due_at(list[i], now))
            &&& (forall|i: int| 0 <= i < list.len() ==> !(#[trigger] list[i] is Due))
                ==> o.expires_at_ms == so_far.expires_at_ms
        }),
    decreases list.len(),
{
    if list.len() > 0 {
        lemma_option_words();
        let option = list[0];
        let rest = list.skip(1);
        let all = written_out(list);
        assert(list[0].valid(now));
        assert forall|i: int| 0 <= i < rest.len() implies (#[trigger] rest[i]).valid(now) by {
            assert(list[i + 1].valid(now));
        }
        assert forall|i: int| #[trigger] last_due(list, i) && i > 0 implies last_due(
            rest,
            i - 1,
        ) by {
            assert(rest[i - 1] == list[i]);
            assert forall|j: int| i - 1 < j < rest.len() implies !(#[trigger] rest[j] is Due) by {
                assert(!(list[j + 1] is Due));
            }
        }
        assert(some_new(list) == (option is New || some_new(rest))) by {
            if some_new(list) {
                let i = choose|i: int| 0 <= i < list.len() && #[trigger] list[i] is New;
                if i > 0 {
                    assert(rest[i - 1] is New);
                }
            }
            if some_new(rest) {
                let i = choose|i: int| 0 <= i < rest.len() && #[trigger] rest[i] is New;
                assert(list[i + 1] is New);
            }
        }
        assert(some_old(list) == (option is Old || some_old(rest))) by {
            if some_old(list) {
                let i = choose|i: int| 0 <= i < list.len() && #[trigger] list[i] is Old;
                if i > 0 {
                    assert(rest[i - 1] is Old);
                }
            }
            if some_old(rest) {
                let i = choose|i: int| 0 <= i < rest.len() && #[trigger] rest[i] is Old;
                assert(list[i + 1] is Old);
            }
        }
        match option {
            SetOption::New(word) => {
                lemma_name(word, "NX"@);
                assert(all.skip(1) =~= written_out(rest));
                lemma_options(rest, SetOptions { nx: true, ..so_far }, now);
            },
            SetOption::Old(word) => {
                lemma_name(word, "XX"@);
                assert(all.skip(1) =~= written_out(rest));
                lemma_options(rest, SetOptions { xx: true, ..so_far }, now);
            },
            SetOption::Due { word, number, seconds } => {
                if seconds {
                    lemma_name(word, "EX"@);
                } else {
                    lemma_name(word, "PX"@);
                }
                assert(all[0] == word && all[1] == number);
                assert(all.skip(2) =~= written_out(rest));
                let at = due_at(option, now);
                let next = SetOptions { expires_at_ms: Some(at), ..so_far };
                assert(options_from(all, so_far, now) == options_from(all.skip(2), next, now));
                lemma_options(rest, next, now);
                if last_due(list, 0) {
                    assert forall|i: int| 0 <= i < rest.len() implies !(
                    #[trigger] rest[i] is Due) by {
                        assert(!(list[i + 1] is Due));
                    }
                }
            },
        }
        if forall|i: int| 0 <= i < list.len() ==> !(#[trigger] list[i] is Due) {
            assert(!(list[0] is Due));
            assert forall|i: int| 0 <= i < rest.len() implies !(#[trigger] rest[i] is Due) by {
                assert(!(list[i + 1] is Due));
            }
        }
    }
}

/// `SET` with options, whatever they are and in whatever order: the key has to be
/// new exactly if some option is `NX` and old exactly if some option is `XX`, of
/// which there may not be both, and the last time that is set counts.
pub proof fn law_set_request(
    name: Seq<u8>,
    key: Seq<u8>,
    value: Seq<u8>,
    list: Seq<SetOption>,
    now: u64,
)
    requires
        says(name, "SET"@),
        forall|i: int| 0 <= i < list.len() ==> (#[trigger] list[i]).valid(now),
    ensures
        ({
            let result = meaning(seq![name, key, value] + written_out(list), now);
            if some_new(list) && some_old(list) {
                result == Err::<CommandView, Seq<char>>("ERR syntax error"@)
            } else {
                &&& result matches Ok(CommandView::SetKey { key: k, value: v, expires_at_ms, nx, xx })
                &&& k == key
                &&& v == value
                &&& nx == some_new(list)
                &&& xx == some_old(list)
                &&& forall|i: int| #[trigger]
                    last_due(list, i) ==> expires_at_ms == Some(due_at(list[i], now))
                &&& (forall|i: int| 0 <= i < list.len() ==> !(#[trigger] list[i] is Due))
                    ==> expires_at_ms is None
            }
        }),
{
    let args = seq![name, key, value] + written_out(list);
    lemma_words();
    lemma_name(name, "SET"@);
    assert(args[0] == name);
    assert(args.skip(1)[0] == key);
    assert(args.skip(1)[1] == value);
    assert(args.skip(1).skip(2) =~= written_out(list));
    lemma_options(list, SetOptions { expires_at_ms: None, nx: false, xx: false }, now);
}

/// `TTL` right after `SET` with `EX` replies the number of seconds that was given,
/// and `PTTL` that of milliseconds that was given with `PX`, whatever it is.
pub proof fn law_time_to_live_is_what_was_set(
    before: StoreView,
    channels: Set<Seq<u8>>,
    name: Seq<u8>,
    key: Seq<u8>,
    value: Seq<u8>,
    word: Seq<u8>,
    number: Seq<u8>,
    seconds: bool,
    n: i64,
    cmd: CommandView,
    now: u64,
    reply: ReplyView,
    mid: StoreView,
    left: ReplyView,
    after: StoreView,
)
    requires
        before.shards.len() == NUM_SHARDS,
        before.max_keys_per_shard != Some(0usize),
        says(name, "SET"@),
        says(
            word,
            if seconds {
                "EX"@
            } else {
                "PX"@
            },
        ),
        i64_value(number) == Some(n),
        n > 0,
        moment(now, n, seconds) <= i64::MAX,
        meaning(seq![name, key, value, word, number], now) == Ok::<CommandView, Seq<char>>(cmd),
        outcome(before, channels, cmd, now, reply, mid),
        outcome(mid, channels, CommandView::Ttl { key, as_ms: !seconds }, now, left, after),
    ensures
        left == ReplyView::Integer(n as int),
{
    let option = SetOption::Due { word, number, seconds };
    let list = seq![option];
    assert(list.skip(1) =~= Seq::<SetOption>::empty());
    reveal_with_fuel(written_out, 2);
    assert(seq![name, key, value] + written_out(list) =~= seq![name, key, value, word, number]);
    assert(option.valid(now));
    law_set_request(name, key, value, list, now);
    assert(last_due(list, 0));
    assert(!some_new(list) && !some_old(list));
    let at = due_at(option, now);
    assert(cmd == CommandView::SetKey {
        key,
        value,
        expires_at_ms: Some(at),
        nx: false,
        xx: false,
    });
    law_set(before, channels, key, value, Some(at), false, false, now, reply, mid);
    crate::laws::law_commands_have_their_effect(before, channels, cmd, now, reply, mid);
    assert(crate::keyspace_laws::shown(mid, key, now) == Some(
        (crate::value::ValueView::Str(value), Some(at)),
    ));
    law_ttl(mid, channels, key, !seconds, now, left, after);
}

/// Each policy has its name, in upper or lower case, and nothing else names one.
pub proof fn law_policies_have_names(word: Seq<char>)
    ensures
        ({
            let s = encode_utf8(word);
            FsyncPolicy::meant_by(word) == (if says(s, "ALWAYS"@) {
                Some(FsyncPolicy::Always)
            } else if says(s, "EVERYSEC"@) {
                Some(FsyncPolicy::EverySec)
            } else if says(s, "NO"@) || says(s, "NEVER"@) {
                Some(FsyncPolicy::Never)
            } else {
                None
            })
        }),
{
    let s = encode_utf8(word);
    lemma_words();
    lemma_says(s, "ALWAYS"@);
    lemma_says(s, "EVERYSEC"@);
    lemma_says(s, "NO"@);
    lemma_says(s, "NEVER"@);
}

/// `FsyncPolicy::parse` reads the names of policies, and `syncs_each_write` tells
/// the one that does from the others.
pub proof fn law_policies_are_read(word: &str, policy: FsyncPolicy)
    ensures
        forall|p: Option<FsyncPolicy>| #[trigger]
            call_ensures(FsyncPolicy::parse, (word,), p) ==> p == FsyncPolicy::meant_by(word@),
        forall|each: bool| #[trigger]
            call_ensures(FsyncPolicy::syncs_each_write, (&policy,), each) ==> each == (policy
                == FsyncPolicy::Always),
{
}

/// Whether arguments are options of `SET` that are written as such.
pub open spec fn are_options(opts: Seq<Seq<u8>>, now: u64) -> bool {
    exists|list: Seq<SetOption>|
        #[trigger] written_out(list) == opts && forall|i: int|
            0 <= i < list.len() ==> (#[trigger] list[i]).valid(now)
}

proof fn lemma_accepted(opts: Seq<Seq<u8>>, so_far: SetOptions, now: u64)
    requires
        options_from(opts, so_far, now) is Ok,
    ensures
        are_options(opts, now),
    decreases opts.len(),
{
    lemma_option_words();
    if opts.len() == 0 {
        let none = Seq::<SetOption>::empty();
        assert(written_out(none) =~= opts);
    } else {
        let word = opts[0];
        lemma_says(word, "EX"@);
        lemma_says(word, "PX"@);
        lemma_says(word, "NX"@);
        lemma_says(word, "XX"@);
        let u = upper(word);
        let first = if spells(u, "EX"@) || spells(u, "PX"@) {
            SetOption::Due { word, number: opts[1], seconds: spells(u, "EX"@) }
        } else if spells(u, "NX"@) {
            SetOption::New(word)
        } else {
            SetOption::Old(word)
        };
        assert(first.valid(now));
        let rest = opts.skip(first.written().len() as int);
        match first {
            SetOption::Due { number, seconds, .. } => {
                let next = SetOptions { expires_at_ms: Some(due_at(first, now)), ..so_far };
                assert(options_from(opts, so_far, now) == options_from(rest, next, now));
                lemma_accepted(rest, next, now);
            },
            SetOption::New(_) => {
                lemma_accepted(rest, SetOptions { nx: true, ..so_far }, now);
            },
            SetOption::Old(_) => {
                lemma_accepted(rest, SetOptions { xx: true, ..so_far }, now);
            },
        }
        let more = choose|list: Seq<SetOption>|
            #[trigger] written_out(list) == rest && forall|i: int|
                0 <= i < list.len() ==> (#[trigger] list[i]).valid(now);
        let list = seq![first] + more;
        assert(list.skip(1) =~= more);
        assert(written_out(list) =~= opts);
        assert forall|i: int| 0 <= i < list.len() implies (#[trigger] list[i]).valid(now) by {
            if i > 0 {
                assert(more[i - 1].valid(now));
            }
        }
    }
}

/// `SET` is only understood with a key, a value, and options behind them that are
/// written as such.
pub proof fn law_set_takes_nothing_else(args: Seq<Seq<u8>>, now: u64)
    requires
        args.len() > 0,
        says(args[0], "SET"@),
    ensures
        args.len() < 3 ==> meaning(args, now) == miscounted("set"@),
        args.len() >= 3 && !are_options(args.skip(3), now) ==> meaning(args, now) is Err,
{
    lemma_words();
    lemma_name(args[0], "SET"@);
    if args.len() >= 3 {
        assert(args.skip(1).skip(2) =~= args.skip(3));
        let start = SetOptions { expires_at_ms: None, nx: false, xx: false };
        if options_from(args.skip(3), start, now) is Ok {
            lemma_accepted(args.skip(3), start, now);
        }
    }
}

} // verus!
