//! What each command does to the keyspace, and what it replies.

use bytes::Bytes;
use std::collections::VecDeque;
use tokio::sync::broadcast::Sender;
use vstd::prelude::*;
use vstd::string::*;
use vstd::utf8::encode_utf8;

use crate::buf::{content, contents, from_vec};
use crate::bytemap::ByteMap;
use crate::collections::{
    end_of, lists_fields, lists_members, pair_contents, popped, pops, pushed, range_bounds,
    range_of, rank_pairs, rank_texts, rank_views, ranked, removes_fields, removes_members,
    removes_scores, score_pairs, with_fields, with_scores,
};
use crate::commands::{Command, CommandView};
use crate::decimal::{dec_int, dec_nat, i64_value, push_int, push_nat, read_i64};
use crate::pubsub::{published, PubSub};
use crate::resp::{crlf, push_slice, Reply, ReplyView};
use crate::score::{score_text, Score, ScoreView};
use crate::shard::{now_ms, set_allowed};
use crate::store::{Store, StoreView};
use crate::value::{scores_of, EntryView, Value, ValueView};

verus! {

broadcast use crate::buf::lemma_contents_push;

/// The reply to a command on a key of the wrong kind.
pub open spec fn wrong_kind_reply() -> ReplyView {
    ReplyView::Error("WRONGTYPE Operation against a key holding the wrong kind of value"@)
}

/// The reply to a command that has no meaning outside its own mode of a
/// connection.
pub open spec fn out_of_place_reply() -> ReplyView {
    ReplyView::Error("ERR command not allowed in this context"@)
}

/// The number `n` as a reply.
pub open spec fn count_reply(n: nat) -> ReplyView {
    ReplyView::Integer(n as i64 as int)
}

/// Yes or no as a reply.
pub open spec fn flag_reply(flag: bool) -> ReplyView {
    ReplyView::Integer(
        if flag {
            1
        } else {
            0
        },
    )
}

/// The reply `+OK`.
pub open spec fn ok_reply() -> ReplyView {
    ReplyView::Simple("OK"@)
}

/// A list of byte strings as a reply.
pub open spec fn bulks_reply(list: Seq<Seq<u8>>) -> ReplyView {
    ReplyView::Array(list.map_values(|b: Seq<u8>| ReplyView::Bulk(b)))
}

/// Pairs of byte strings as one list.
pub open spec fn flat(pairs: Seq<(Seq<u8>, Seq<u8>)>) -> Seq<Seq<u8>> {
    Seq::new(
        2 * pairs.len(),
        |i: int|
            if i % 2 == 0 {
                pairs[i / 2].0
            } else {
                pairs[i / 2].1
            },
    )
}

/// The reply to `GET` of a key with the given value.
pub open spec fn get_reply(value: Option<ValueView>) -> ReplyView {
    match value {
        None => ReplyView::Nil,
        Some(ValueView::Str(data)) => ReplyView::Bulk(data),
        Some(_) => wrong_kind_reply(),
    }
}

/// What `MGET` replies for a key with the given value.
pub open spec fn mget_reply(value: Option<ValueView>) -> ReplyView {
    match value {
        Some(ValueView::Str(data)) => ReplyView::Bulk(data),
        _ => ReplyView::Nil,
    }
}

/// The reply to `TTL`, or to `PTTL` where `as_ms`.
pub open spec fn ttl_reply(ttl: Option<Option<i64>>, as_ms: bool) -> ReplyView {
    match ttl {
        None => ReplyView::Integer(-2),
        Some(None) => ReplyView::Integer(-1),
        Some(Some(ms)) => ReplyView::Integer(
            if as_ms {
                ms as int
            } else {
                ms / 1000
            },
        ),
    }
}

/// The reply to `TYPE`.
pub open spec fn type_reply(value: Option<ValueView>) -> ReplyView {
    match value {
        None => ReplyView::Simple("none"@),
        Some(v) => ReplyView::Simple(v.kind()),
    }
}

/// The reply to `LRANGE`.
pub open spec fn range_reply(value: Option<ValueView>, start: int, stop: int) -> ReplyView {
    match value {
        None => bulks_reply(Seq::empty()),
        Some(ValueView::List(items)) => bulks_reply(range_of(items, start, stop)),
        Some(_) => wrong_kind_reply(),
    }
}

/// The reply to `LLEN`.
pub open spec fn llen_reply(value: Option<ValueView>) -> ReplyView {
    match value {
        None => ReplyView::Integer(0),
        Some(ValueView::List(items)) => count_reply(items.len()),
        Some(_) => wrong_kind_reply(),
    }
}

/// The reply to `HGET`.
pub open spec fn hget_reply(value: Option<ValueView>, field: Seq<u8>) -> ReplyView {
    match value {
        None => ReplyView::Nil,
        Some(ValueView::Hash(fields)) => if fields.contains_key(field) {
            ReplyView::Bulk(fields[field])
        } else {
            ReplyView::Nil
        },
        Some(_) => wrong_kind_reply(),
    }
}

/// The reply to `HEXISTS`.
pub open spec fn hexists_reply(value: Option<ValueView>, field: Seq<u8>) -> ReplyView {
    match value {
        None => ReplyView::Integer(0),
        Some(ValueView::Hash(fields)) => flag_reply(fields.contains_key(field)),
        Some(_) => wrong_kind_reply(),
    }
}

/// Whether `reply` answers `HGETALL`: every field with its value, in some order.
pub open spec fn hgetall_replies(value: Option<ValueView>, reply: ReplyView) -> bool {
    match value {
        None => reply == bulks_reply(Seq::empty()),
        Some(ValueView::Hash(fields)) => exists|list: Seq<(Seq<u8>, Seq<u8>)>| #[trigger]
            lists_fields(fields, list) && reply == bulks_reply(flat(list)),
        Some(_) => reply == wrong_kind_reply(),
    }
}

/// Whether `reply` answers `SMEMBERS`: every member, in some order.
pub open spec fn smembers_replies(value: Option<ValueView>, reply: ReplyView) -> bool {
    match value {
        None => reply == bulks_reply(Seq::empty()),
        Some(ValueView::Members(members)) => exists|list: Seq<Seq<u8>>| #[trigger]
            lists_members(members, list) && reply == bulks_reply(list),
        Some(_) => reply == wrong_kind_reply(),
    }
}

/// The reply to `SISMEMBER`.
pub open spec fn sismember_reply(value: Option<ValueView>, member: Seq<u8>) -> ReplyView {
    match value {
        None => ReplyView::Integer(0),
        Some(ValueView::Members(members)) => flag_reply(members.contains(member)),
        Some(_) => wrong_kind_reply(),
    }
}

/// The reply to `ZSCORE`.
pub open spec fn zscore_reply(value: Option<ValueView>, member: Seq<u8>) -> ReplyView {
    match value {
        None => ReplyView::Nil,
        Some(ValueView::Sorted(members)) => if members.contains_key(member) {
            ReplyView::Bulk(score_text(members[member]))
        } else {
            ReplyView::Nil
        },
        Some(_) => wrong_kind_reply(),
    }
}

/// Members of a sorted set as a reply, with their scores where asked for.
pub open spec fn ranks_reply(list: Seq<(Seq<u8>, ScoreView)>, with_scores: bool) -> ReplyView {
    if with_scores {
        bulks_reply(flat(rank_texts(list)))
    } else {
        bulks_reply(list.map_values(|p: (Seq<u8>, ScoreView)| p.0))
    }
}

/// Whether `reply` answers `ZRANGE`: a range of the members by rank.
pub open spec fn zrange_replies(
    value: Option<ValueView>,
    start: int,
    stop: int,
    with_scores: bool,
    reply: ReplyView,
) -> bool {
    match value {
        None => reply == bulks_reply(Seq::empty()),
        Some(ValueView::Sorted(members)) => exists|list: Seq<(Seq<u8>, ScoreView)>| #[trigger]
            ranked(members, list) && reply == ranks_reply(
                range_of(list, start, stop),
                with_scores,
            ),
        Some(_) => reply == wrong_kind_reply(),
    }
}

/// What a command that changes the value of a key in place makes of it, and what
/// it replies.
#[verifier::ext_equal]
pub struct Changed {
    pub value: ValueView,
    pub reply: ReplyView,
}

/// The number that a string denotes plus `delta`, or the complaint; a key that
/// is not live counts as 0.
pub open spec fn increased(value: Option<ValueView>, delta: int) -> Changed {
    match value {
        Some(ValueView::Str(_)) | None => {
            let text = match value {
                Some(ValueView::Str(data)) => data,
                _ => seq![0x30u8],
            };
            match i64_value(text) {
                None => Changed {
                    value: ValueView::Str(text),
                    reply: ReplyView::Error("ERR value is not an integer or out of range"@),
                },
                Some(n) => if i64::MIN <= n + delta <= i64::MAX {
                    Changed {
                        value: ValueView::Str(dec_int(n + delta)),
                        reply: ReplyView::Integer(n + delta),
                    }
                } else {
                    Changed {
                        value: ValueView::Str(text),
                        reply: ReplyView::Error("ERR increment or decrement would overflow"@),
                    }
                },
            }
        },
        Some(other) => Changed { value: other, reply: wrong_kind_reply() },
    }
}

/// A string with `suffix` behind it; a key that is not live counts as empty.
pub open spec fn appended(value: Option<ValueView>, suffix: Seq<u8>) -> Changed {
    match value {
        None => Changed { value: ValueView::Str(suffix), reply: count_reply(suffix.len()) },
        Some(ValueView::Str(data)) => Changed {
            value: ValueView::Str(data + suffix),
            reply: count_reply((data + suffix).len()),
        },
        Some(other) => Changed { value: other, reply: wrong_kind_reply() },
    }
}

/// A list with `more` pushed; a key that is not live counts as empty.
pub open spec fn list_pushed(value: Option<ValueView>, more: Seq<Seq<u8>>, front: bool) -> Changed {
    let items = match value {
        Some(ValueView::List(items)) => items,
        _ => Seq::empty(),
    };
    match value {
        Some(ValueView::List(_)) | None => Changed {
            value: ValueView::List(pushed(items, more, front)),
            reply: count_reply(pushed(items, more, front).len()),
        },
        Some(other) => Changed { value: other, reply: wrong_kind_reply() },
    }
}

/// A hash with `pairs` set; a key that is not live counts as empty.
pub open spec fn fields_set(value: Option<ValueView>, pairs: Seq<(Seq<u8>, Seq<u8>)>) -> Changed {
    let fields = match value {
        Some(ValueView::Hash(fields)) => fields,
        _ => Map::empty(),
    };
    match value {
        Some(ValueView::Hash(_)) | None => Changed {
            value: ValueView::Hash(with_fields(fields, pairs)),
            reply: count_reply(
                (with_fields(fields, pairs).dom().len() - fields.dom().len()) as nat,
            ),
        },
        Some(other) => Changed { value: other, reply: wrong_kind_reply() },
    }
}

/// A set with `more` added; a key that is not live counts as empty.
pub open spec fn members_added(value: Option<ValueView>, more: Seq<Seq<u8>>) -> Changed {
    let members = match value {
        Some(ValueView::Members(members)) => members,
        _ => Set::empty(),
    };
    match value {
        Some(ValueView::Members(_)) | None => Changed {
            value: ValueView::Members(members.union(more.to_set())),
            reply: count_reply((members.union(more.to_set()).len() - members.len()) as nat),
        },
        Some(other) => Changed { value: other, reply: wrong_kind_reply() },
    }
}

/// A sorted set with members given scores; a key that is not live counts as
/// empty.
pub open spec fn scores_set(
    value: Option<ValueView>,
    pairs: Seq<(ScoreView, Seq<u8>)>,
) -> Changed {
    let members = match value {
        Some(ValueView::Sorted(members)) => members,
        _ => Map::empty(),
    };
    match value {
        Some(ValueView::Sorted(_)) | None => Changed {
            value: ValueView::Sorted(with_scores(members, pairs)),
            reply: count_reply(
                (with_scores(members, pairs).dom().len() - members.dom().len()) as nat,
            ),
        },
        Some(other) => Changed { value: other, reply: wrong_kind_reply() },
    }
}

/// A sorted set without the members `names`.
pub open spec fn scores_removed(value: ValueView, names: Seq<Seq<u8>>) -> Changed {
    match value {
        ValueView::Sorted(members) => {
            let left = members.remove_keys(names.to_set());
            Changed {
                value: ValueView::Sorted(left),
                reply: count_reply((members.dom().len() - left.dom().len()) as nat),
            }
        },
        _ => Changed { value, reply: wrong_kind_reply() },
    }
}

/// A list without its first or its last element.
pub open spec fn list_popped(value: ValueView, front: bool) -> Changed {
    match value {
        ValueView::List(items) => if items.len() == 0 {
            Changed { value, reply: ReplyView::Nil }
        } else {
            Changed {
                value: ValueView::List(popped(items, front)),
                reply: ReplyView::Bulk(end_of(items, front)),
            }
        },
        _ => Changed { value, reply: wrong_kind_reply() },
    }
}

/// A hash without the fields `names`.
pub open spec fn fields_removed(value: ValueView, names: Seq<Seq<u8>>) -> Changed {
    match value {
        ValueView::Hash(fields) => {
            let left = fields.remove_keys(names.to_set());
            Changed {
                value: ValueView::Hash(left),
                reply: count_reply((fields.dom().len() - left.dom().len()) as nat),
            }
        },
        _ => Changed { value, reply: wrong_kind_reply() },
    }
}

/// A set without the members `names`.
pub open spec fn members_removed(value: ValueView, names: Seq<Seq<u8>>) -> Changed {
    match value {
        ValueView::Members(members) => {
            let left = members.difference(names.to_set());
            Changed {
                value: ValueView::Members(left),
                reply: count_reply((members.len() - left.len()) as nat),
            }
        },
        _ => Changed { value, reply: wrong_kind_reply() },
    }
}

/// Whether `states` are those that a store goes through while `pairs` are set
/// one after the other.
pub open spec fn mset_states(
    states: Seq<StoreView>,
    pairs: Seq<(Seq<u8>, Seq<u8>)>,
    now: u64,
) -> bool {
    &&& states.len() == pairs.len() + 1
    &&& forall|i: int|
        0 <= i < pairs.len() ==> (#[trigger] states[i]).sets(
            pairs[i].0,
            string_entry(pairs[i].1),
            false,
            false,
            now,
            states[i + 1],
        )
}

/// Whether setting `pairs` one after the other may turn `before` into `after`.
pub open spec fn msets(
    before: StoreView,
    pairs: Seq<(Seq<u8>, Seq<u8>)>,
    now: u64,
    after: StoreView,
) -> bool {
    exists|states: Seq<StoreView>| #[trigger]
        mset_states(states, pairs, now) && states.first() == before && states.last() == after
}

/// An entry of a string without an expiry time, not used yet.
pub open spec fn string_entry(data: Seq<u8>) -> EntryView {
    EntryView { value: ValueView::Str(data), expires_at_ms: None, last_access: 0 }
}

/// What `INFO` says of a server with `shards` shards.
pub open spec fn info_text(shards: nat) -> Seq<u8> {
    encode_utf8("# Server\r\nimcache_version:0.1.0\r\nmode:standalone\r\nshards:"@) + dec_nat(
        shards,
    ) + crlf()
}

/// Whether, at the time `now`, a command that changes the value of `key` in
/// place may turn `before` into `after`; a key that is not live comes into being.
pub open spec fn changes(
    before: StoreView,
    key: Seq<u8>,
    now: u64,
    changed: Changed,
    reply: ReplyView,
    after: StoreView,
) -> bool {
    before.changes(key, now, changed.value, after) && reply == changed.reply
}

/// Whether, at the time `now`, a command that takes something out of the value
/// of a live `key` turns `before` into `after`.
pub open spec fn edits(
    before: StoreView,
    key: Seq<u8>,
    now: u64,
    changed: Changed,
    reply: ReplyView,
    after: StoreView,
) -> bool {
    after == before.edit(key, now, changed.value) && reply == changed.reply
}

/// Whether executing `cmd` at the time `now`, while there are the given channels,
/// may turn `before` into `after` and give `reply`.
pub open spec fn outcome(
    before: StoreView,
    channels: Set<Seq<u8>>,
    cmd: CommandView,
    now: u64,
    reply: ReplyView,
    after: StoreView,
) -> bool {
    match cmd {
        CommandView::SetKey { key, value, expires_at_ms, nx, xx } => {
            &&& before.sets(
                key,
                EntryView { value: ValueView::Str(value), expires_at_ms, last_access: 0 },
                nx,
                xx,
                now,
                after,
            )
            &&& reply == if set_allowed(before.holds(key, now), nx, xx) {
                ok_reply()
            } else {
                ReplyView::Nil
            }
        },
        CommandView::Get(key) => after == before.touch(key, now) && reply == get_reply(
            before.value(key, now),
        ),
        CommandView::Del(keys) => after == before.drop_all(keys) && reply == count_reply(
            before.count_dropped(keys, now),
        ),
        CommandView::Exists(keys) => after == before.purge_all(keys, now) && reply == count_reply(
            before.count_live(keys, now),
        ),
        CommandView::Expire { key, at_ms } => after == before.expire(key, at_ms, now) && reply
            == flag_reply(before.holds(key, now)),
        CommandView::Persist(key) => after == before.persist(key, now) && reply == flag_reply(
            before.persists(key, now),
        ),
        CommandView::Ttl { key, as_ms } => after == before.purge(key, now) && reply == ttl_reply(
            before.ttl(key, now),
            as_ms,
        ),
        CommandView::Incr(key) => changes(
            before,
            key,
            now,
            increased(before.value(key, now), 1),
            reply,
            after,
        ),
        CommandView::Decr(key) => changes(
            before,
            key,
            now,
            increased(before.value(key, now), -1),
            reply,
            after,
        ),
        CommandView::IncrBy(key, n) => changes(
            before,
            key,
            now,
            increased(before.value(key, now), n as int),
            reply,
            after,
        ),
        CommandView::DecrBy(key, n) => changes(
            before,
            key,
            now,
            increased(before.value(key, now), -(n as int)),
            reply,
            after,
        ),
        CommandView::Append(key, suffix) => changes(
            before,
            key,
            now,
            appended(before.value(key, now), suffix),
            reply,
            after,
        ),
        CommandView::MGet(keys) => after == before.touch_all(keys, now) && reply
            == ReplyView::Array(
            keys.map_values(|k: Seq<u8>| mget_reply(before.value(k, now))),
        ),
        CommandView::MSet(pairs) => msets(before, pairs, now, after) && reply == ok_reply(),
        CommandView::Type(key) => after == before.purge(key, now) && reply == type_reply(
            before.value(key, now),
        ),
        CommandView::FlushAll => after == before.flushed() && reply == ok_reply(),
        CommandView::Push { .. }
        | CommandView::Pop { .. }
        | CommandView::LRange { .. }
        | CommandView::LLen(_)
        | CommandView::HSet(_, _)
        | CommandView::HGet(_, _)
        | CommandView::HDel(_, _)
        | CommandView::HGetAll(_)
        | CommandView::HExists(_, _)
        | CommandView::SAdd(_, _)
        | CommandView::SRem(_, _)
        | CommandView::SMembers(_)
        | CommandView::SIsMember(_, _)
        | CommandView::ZAdd(_, _)
        | CommandView::ZRange { .. }
        | CommandView::ZScore(_, _)
        | CommandView::ZRem(_, _) => collection_outcome(before, cmd, now, reply, after),
        _ => after == before && idle_outcome(before, channels, cmd, reply),
    }
}

/// [`outcome`] of a command on a collection.
pub open spec fn collection_outcome(
    before: StoreView,
    cmd: CommandView,
    now: u64,
    reply: ReplyView,
    after: StoreView,
) -> bool {
    match cmd {
        CommandView::Push { key, items, front } => changes(
            before,
            key,
            now,
            list_pushed(before.value(key, now), items, front),
            reply,
            after,
        ),
        CommandView::Pop { key, front } => match before.value(key, now) {
            Some(v) => edits(before, key, now, list_popped(v, front), reply, after),
            None => after == before.purge(key, now) && reply == ReplyView::Nil,
        },
        CommandView::LRange { key, start, stop } => after == before.touch(key, now) && reply
            == range_reply(before.value(key, now), start as int, stop as int),
        CommandView::LLen(key) => after == before.touch(key, now) && reply == llen_reply(
            before.value(key, now),
        ),
        CommandView::HSet(key, pairs) => changes(
            before,
            key,
            now,
            fields_set(before.value(key, now), pairs),
            reply,
            after,
        ),
        CommandView::HGet(key, field) => after == before.touch(key, now) && reply == hget_reply(
            before.value(key, now),
            field,
        ),
        CommandView::HDel(key, names) => match before.value(key, now) {
            Some(v) => edits(before, key, now, fields_removed(v, names), reply, after),
            None => after == before.purge(key, now) && reply == ReplyView::Integer(0),
        },
        CommandView::HGetAll(key) => after == before.touch(key, now) && hgetall_replies(
            before.value(key, now),
            reply,
        ),
        CommandView::HExists(key, field) => after == before.touch(key, now) && reply
            == hexists_reply(before.value(key, now), field),
        CommandView::SAdd(key, more) => changes(
            before,
            key,
            now,
            members_added(before.value(key, now), more),
            reply,
            after,
        ),
        CommandView::SRem(key, names) => match before.value(key, now) {
            Some(v) => edits(before, key, now, members_removed(v, names), reply, after),
            None => after == before.purge(key, now) && reply == ReplyView::Integer(0),
        },
        CommandView::SMembers(key) => after == before.touch(key, now) && smembers_replies(
            before.value(key, now),
            reply,
        ),
        CommandView::SIsMember(key, member) => after == before.touch(key, now) && reply
            == sismember_reply(before.value(key, now), member),
        CommandView::ZAdd(key, pairs) => changes(
            before,
            key,
            now,
            scores_set(before.value(key, now), pairs),
            reply,
            after,
        ),
        CommandView::ZRange { key, start, stop, with_scores } => after == before.touch(key, now)
            && zrange_replies(
            before.value(key, now),
            start as int,
            stop as int,
            with_scores,
            reply,
        ),
        CommandView::ZScore(key, member) => after == before.touch(key, now) && reply
            == zscore_reply(before.value(key, now), member),
        CommandView::ZRem(key, names) => match before.value(key, now) {
            Some(v) => edits(before, key, now, scores_removed(v, names), reply, after),
            None => after == before.purge(key, now) && reply == ReplyView::Integer(0),
        },
        _ => false,
    }
}

/// Whether `reply` answers a command that leaves the keyspace alone.
pub open spec fn idle_outcome(
    store: StoreView,
    channels: Set<Seq<u8>>,
    cmd: CommandView,
    reply: ReplyView,
) -> bool {
    match cmd {
        CommandView::Ping(None) => reply == ReplyView::Simple("PONG"@),
        CommandView::Ping(Some(text)) => reply == ReplyView::Bulk(text),
        CommandView::Echo(text) => reply == ReplyView::Bulk(text),
        CommandView::Info => reply == ReplyView::Bulk(info_text(store.shards.len())),
        CommandView::ConfigGet(param) => reply == bulks_reply(seq![param, Seq::empty()]),
        CommandView::ConfigSet(_, _) => reply == ok_reply(),
        CommandView::BgSave => reply == ReplyView::Simple("Background saving started"@),
        CommandView::Quit => reply == ok_reply(),
        CommandView::Publish(channel, _) => exists|n: usize|
            reply == #[trigger] count_reply(n as nat) && (!channels.contains(channel) ==> n == 0),
        _ => reply == out_of_place_reply(),
    }
}

/// Whether a command that publishes a message does so, and is answered with the
/// number of subscribers that this found.
pub open spec fn announces(
    channels: Map<Seq<u8>, Sender<Bytes>>,
    cmd: CommandView,
    reply: ReplyView,
) -> bool {
    cmd matches CommandView::Publish(channel, message) ==> exists|n: usize|
        #![trigger count_reply(n as nat)]
        reply == count_reply(n as nat) && published(channels, channel, message, n)
}

/// The reply to a command on a key of the wrong kind.
fn wrong_kind() -> (reply: Reply)
    ensures
        reply@ == wrong_kind_reply(),
{
    Reply::Error("WRONGTYPE Operation against a key holding the wrong kind of value".to_owned())
}

/// Yes or no as a reply.
fn flag(yes: bool) -> (reply: Reply)
    ensures
        reply@ == flag_reply(yes),
{
    Reply::Integer(
        if yes {
            1
        } else {
            0
        },
    )
}

/// A count as a reply, or the complaint about the kind of a key.
fn count_or_wrong_kind(count: Option<usize>) -> (reply: Reply)
    ensures
        reply@ == (match count {
            Some(n) => count_reply(n as nat),
            None => wrong_kind_reply(),
        }),
{
    match count {
        Some(n) => Reply::Integer(n as i64),
        None => wrong_kind(),
    }
}

/// A list of byte strings as a reply.
pub(crate) fn bulk_array(list: Vec<Bytes>) -> (reply: Reply)
    ensures
        reply@ == bulks_reply(contents(list@)),
{
    let mut items: Vec<Reply> = Vec::new();
    let mut i: usize = 0;
    while i < list.len()
        invariant
            i <= list@.len(),
            items@.len() == i,
            forall|j: int|
                0 <= j < i ==> (#[trigger] items@[j])@ == ReplyView::Bulk(content(list@[j])),
        decreases list@.len() - i,
    {
        items.push(Reply::Bulk(list[i].clone()));
        i = i + 1;
    }
    let reply = Reply::Array(items);
    assert(reply@->Array_0 =~= bulks_reply(contents(list@))->Array_0);
    reply
}

/// Pairs of byte strings as one list.
pub(crate) fn flatten(pairs: Vec<(Bytes, Bytes)>) -> (list: Vec<Bytes>)
    ensures
        contents(list@) == flat(pair_contents(pairs@)),
{
    let mut list: Vec<Bytes> = Vec::new();
    let mut i: usize = 0;
    let ghost all = flat(pair_contents(pairs@));
    while i < pairs.len()
        invariant
            i <= pairs@.len(),
            all == flat(pair_contents(pairs@)),
            contents(list@) =~= all.take(2 * i),
        decreases pairs@.len() - i,
    {
        list.push(pairs[i].0.clone());
        list.push(pairs[i].1.clone());
        proof {
            let p = pair_contents(pairs@)[i as int];
            assert(2 * i % 2 == 0 && 2 * i / 2 == i as int);
            assert((2 * i + 1) % 2 == 1 && (2 * i + 1) / 2 == i as int);
            assert(all[2 * i] == p.0);
            assert(all[2 * i + 1] == p.1);
        }
        i = i + 1;
    }
    assert(contents(list@) =~= all);
    list
}

/// The integer that a string denotes, or the complaint about the value.
fn as_int(value: &Value) -> (result: Result<i64, String>)
    ensures
        match result {
            Ok(n) => value@ matches ValueView::Str(data) && i64_value(data) == Some(n),
            Err(e) => match value@ {
                ValueView::Str(data) => i64_value(data) is None && e@
                    == "ERR value is not an integer or out of range"@,
                _ => ReplyView::Error(e@) == wrong_kind_reply(),
            },
        },
{
    match value {
        Value::Str(data) => match read_i64(data) {
            Some(n) => Ok(n),
            None => Err("ERR value is not an integer or out of range".to_owned()),
        },
        _ => Err("WRONGTYPE Operation against a key holding the wrong kind of value".to_owned()),
    }
}

/// The sum or the difference of a number and `delta`, if it is in range.
fn step(number: i64, delta: i64, down: bool) -> (next: Option<i64>)
    ensures
        ({
            let want = if down {
                number - delta
            } else {
                number + delta
            };
            next == if i64::MIN <= want <= i64::MAX {
                Some(want as i64)
            } else {
                None
            }
        }),
{
    if down {
        number.checked_sub(delta)
    } else {
        number.checked_add(delta)
    }
}

/// Adds `delta` to the number under `key`, or takes it away where `down`.
fn step_by(store: &mut Store, key: &Bytes, delta: i64, down: bool, now: u64) -> (reply: Reply)
    requires
        old(store).wf(),
    ensures
        final(store).wf(),
        changes(
            old(store)@,
            content(*key),
            now,
            increased(
                old(store)@.value(content(*key), now),
                if down {
                    -(delta as int)
                } else {
                    delta as int
                },
            ),
            reply@,
            final(store)@,
        ),
{
    proof {
        store.law_no_empty_collections(content(*key));
    }
    let mut zero: Vec<u8> = Vec::new();
    zero.push(0x30);
    assert(zero@ =~= seq![0x30u8]);
    let value = store.entry_mut_at(key, Value::Str(from_vec(zero)), now);
    let reply = match as_int(value) {
        Err(e) => Reply::Error(e),
        Ok(current) => match step(current, delta, down) {
            None => Reply::Error("ERR increment or decrement would overflow".to_owned()),
            Some(next) => {
                let mut text: Vec<u8> = Vec::new();
                push_int(&mut text, next);
                assert(text@ =~= dec_int(next as int));
                *value = Value::Str(from_vec(text));
                Reply::Integer(next)
            },
        },
    };
    store.settle(key);
    reply
}

/// Adds `delta` to the number under `key`.
fn incr_by(store: &mut Store, key: &Bytes, delta: i64, now: u64) -> (reply: Reply)
    requires
        old(store).wf(),
    ensures
        final(store).wf(),
        changes(
            old(store)@,
            content(*key),
            now,
            increased(old(store)@.value(content(*key), now), delta as int),
            reply@,
            final(store)@,
        ),
{
    step_by(store, key, delta, false, now)
}

/// Takes `delta` away from the number under `key`.
fn decr_by(store: &mut Store, key: &Bytes, delta: i64, now: u64) -> (reply: Reply)
    requires
        old(store).wf(),
    ensures
        final(store).wf(),
        changes(
            old(store)@,
            content(*key),
            now,
            increased(old(store)@.value(content(*key), now), -(delta as int)),
            reply@,
            final(store)@,
        ),
{
    step_by(store, key, delta, true, now)
}

/// Puts `suffix` behind the string under `key`.
fn append(store: &mut Store, key: &Bytes, suffix: &[u8], now: u64) -> (reply: Reply)
    requires
        old(store).wf(),
    ensures
        final(store).wf(),
        changes(
            old(store)@,
            content(*key),
            now,
            appended(old(store)@.value(content(*key), now), suffix@),
            reply@,
            final(store)@,
        ),
{
    proof {
        store.law_no_empty_collections(content(*key));
        assert(Seq::<u8>::empty() + suffix@ =~= suffix@);
    }
    let value = store.entry_mut_at(key, Value::Str(Bytes::new()), now);
    let joined: Option<Vec<u8>> = match value {
        Value::Str(data) => {
            let mut joined: Vec<u8> = Vec::new();
            push_slice(&mut joined, data);
            push_slice(&mut joined, suffix);
            assert(joined@ =~= content(*data) + suffix@);
            Some(joined)
        },
        _ => None,
    };
    let reply = match joined {
        Some(joined) => {
            let n: usize = joined.len();
            *value = Value::Str(from_vec(joined));
            Reply::Integer(n as i64)
        },
        None => wrong_kind(),
    };
    store.settle(key);
    reply
}

/// The strings under `keys`.
fn mget(store: &mut Store, keys: &[Bytes], now: u64) -> (reply: Reply)
    requires
        old(store).wf(),
    ensures
        final(store).wf(),
        final(store)@ == old(store)@.touch_all(contents(keys@), now),
        reply@ == ReplyView::Array(
            contents(keys@).map_values(|k: Seq<u8>| mget_reply(old(store)@.value(k, now))),
        ),
{
    let mut items: Vec<Reply> = Vec::new();
    let mut i: usize = 0;
    let ghost all = contents(keys@);
    proof {
        store.lemma_routed();
        assert(all.take(0) =~= Seq::<Seq<u8>>::empty());
    }
    while i < keys.len()
        invariant
            i <= keys@.len(),
            store.wf(),
            old(store)@.routed(),
            all == contents(keys@),
            store@ == old(store)@.touch_all(all.take(i as int), now),
            items@.len() == i,
            forall|j: int|
                0 <= j < i ==> (#[trigger] items@[j])@ == mget_reply(
                    old(store)@.value(all[j], now),
                ),
        decreases keys@.len() - i,
    {
        proof {
            old(store)@.lemma_touch_all_keeps_values(all.take(i as int), all[i as int], now);
            assert(all.take(i + 1).drop_last() =~= all.take(i as int));
            assert(all.take(i + 1).last() == all[i as int]);
        }
        let item = match store.read_at(&keys[i], now) {
            Some(Value::Str(data)) => Reply::Bulk(data.clone()),
            _ => Reply::Nil,
        };
        items.push(item);
        i = i + 1;
    }
    assert(all.take(all.len() as int) =~= all);
    let reply = Reply::Array(items);
    assert(reply@->Array_0 =~= all.map_values(
        |k: Seq<u8>| mget_reply(old(store)@.value(k, now)),
    ));
    reply
}

/// Sets keys to strings, one after the other.
fn mset(store: &mut Store, pairs: &[(Bytes, Bytes)], now: u64)
    requires
        old(store).wf(),
    ensures
        final(store).wf(),
        msets(old(store)@, pair_contents(pairs@), now, final(store)@),
{
    let mut i: usize = 0;
    let ghost all = pair_contents(pairs@);
    let ghost mut states: Seq<StoreView> = seq![store@];
    while i < pairs.len()
        invariant
            i <= pairs@.len(),
            store.wf(),
            all == pair_contents(pairs@),
            mset_states(states, all.take(i as int), now),
            states.first() == old(store)@,
            states.last() == store@,
        decreases pairs@.len() - i,
    {
        let value = Value::Str(pairs[i].1.clone());
        store.set_at(pairs[i].0.clone(), value, None, false, false, now);
        proof {
            let was = states;
            let next = all.take(i + 1);
            states = states.push(store@);
            assert forall|j: int| 0 <= j < next.len() implies (#[trigger] states[j]).sets(
                next[j].0,
                string_entry(next[j].1),
                false,
                false,
                now,
                states[j + 1],
            ) by {
                if j < i {
                    assert(states[j] == was[j]);
                    assert(next[j] == all.take(i as int)[j]);
                }
            }
        }
        i = i + 1;
    }
    assert(all.take(all.len() as int) =~= all);
}

/// Pushes elements onto the list under `key`.
fn push(store: &mut Store, key: &Bytes, items: &[Bytes], front: bool, now: u64) -> (reply: Reply)
    requires
        old(store).wf(),
        items@.len() > 0,
    ensures
        final(store).wf(),
        changes(
            old(store)@,
            content(*key),
            now,
            list_pushed(old(store)@.value(content(*key), now), contents(items@), front),
            reply@,
            final(store)@,
        ),
{
    proof {
        store.law_no_empty_collections(content(*key));
    }
    let empty: VecDeque<Bytes> = VecDeque::new();
    assert(contents(empty@) =~= Seq::<Seq<u8>>::empty());
    let value = store.entry_mut_at(key, Value::List(empty), now);
    let count = value.push_items(items, front);
    store.settle(key);
    count_or_wrong_kind(count)
}

/// Sets fields of the hash under `key`.
fn hset(store: &mut Store, key: &Bytes, pairs: &[(Bytes, Bytes)], now: u64) -> (reply: Reply)
    requires
        old(store).wf(),
        pairs@.len() > 0,
    ensures
        final(store).wf(),
        changes(
            old(store)@,
            content(*key),
            now,
            fields_set(old(store)@.value(content(*key), now), pair_contents(pairs@)),
            reply@,
            final(store)@,
        ),
{
    let empty: ByteMap<Bytes> = ByteMap::new();
    proof {
        store.law_no_empty_collections(content(*key));
        assert(crate::value::fields_of(empty) =~= Map::<Seq<u8>, Seq<u8>>::empty());
        let all = pair_contents(pairs@);
        assert forall|fields: Map<Seq<u8>, Seq<u8>>| !(#[trigger] with_fields(fields, all).dom()
            =~= Set::<Seq<u8>>::empty()) by {
            assert(with_fields(fields, all).dom().contains(all.last().0));
        }
    }
    let value = store.entry_mut_at(key, Value::Hash(empty), now);
    let count = value.set_fields(pairs);
    store.settle(key);
    count_or_wrong_kind(count)
}

/// Adds members to the set under `key`.
fn sadd(store: &mut Store, key: &Bytes, more: &[Bytes], now: u64) -> (reply: Reply)
    requires
        old(store).wf(),
        more@.len() > 0,
    ensures
        final(store).wf(),
        changes(
            old(store)@,
            content(*key),
            now,
            members_added(old(store)@.value(content(*key), now), contents(more@)),
            reply@,
            final(store)@,
        ),
{
    let empty: ByteMap<()> = ByteMap::new();
    proof {
        store.law_no_empty_collections(content(*key));
        assert(empty@.dom() =~= Set::<Seq<u8>>::empty());
        let all = contents(more@);
        assert(all.to_set().contains(all[0]));
        assert forall|members: Set<Seq<u8>>| !(#[trigger] members.union(all.to_set())
            =~= Set::<Seq<u8>>::empty()) by {
            assert(members.union(all.to_set()).contains(all[0]));
        }
    }
    let value = store.entry_mut_at(key, Value::Members(empty), now);
    let count = value.add_members(more);
    store.settle(key);
    count_or_wrong_kind(count)
}

/// Takes the first or the last element of the list under `key` out.
fn pop(store: &mut Store, key: &Bytes, front: bool, now: u64) -> (reply: Reply)
    requires
        old(store).wf(),
    ensures
        final(store).wf(),
        collection_outcome(
            old(store)@,
            CommandView::Pop { key: content(*key), front },
            now,
            reply@,
            final(store)@,
        ),
{
    if !store.live_at(key, now) {
        return Reply::Nil;
    }
    let take_out = |v: &mut Value| -> (item: Option<Option<Bytes>>)
            requires
                v.wf(),
            ensures
                final(v).wf(),
                pops(old(v)@, front, item, final(v)@),
            { v.pop_item(front) };
    let item = store.edit_live_at(key, take_out, now);
    match item {
        Some(Some(data)) => Reply::Bulk(data),
        Some(None) => Reply::Nil,
        None => wrong_kind(),
    }
}

/// Removes fields of the hash under `key`.
fn hdel(store: &mut Store, key: &Bytes, names: &[Bytes], now: u64) -> (reply: Reply)
    requires
        old(store).wf(),
    ensures
        final(store).wf(),
        collection_outcome(
            old(store)@,
            CommandView::HDel(content(*key), contents(names@)),
            now,
            reply@,
            final(store)@,
        ),
{
    if !store.live_at(key, now) {
        return Reply::Integer(0);
    }
    let take_out = |v: &mut Value| -> (removed: Option<usize>)
            requires
                v.wf(),
            ensures
                final(v).wf(),
                removes_fields(old(v)@, contents(names@), removed, final(v)@),
            { v.remove_fields(names) };
    let removed = store.edit_live_at(key, take_out, now);
    count_or_wrong_kind(removed)
}

/// Removes members of the set under `key`.
fn srem(store: &mut Store, key: &Bytes, names: &[Bytes], now: u64) -> (reply: Reply)
    requires
        old(store).wf(),
    ensures
        final(store).wf(),
        collection_outcome(
            old(store)@,
            CommandView::SRem(content(*key), contents(names@)),
            now,
            reply@,
            final(store)@,
        ),
{
    if !store.live_at(key, now) {
        return Reply::Integer(0);
    }
    let take_out = |v: &mut Value| -> (removed: Option<usize>)
            requires
                v.wf(),
            ensures
                final(v).wf(),
                removes_members(old(v)@, contents(names@), removed, final(v)@),
            { v.remove_members(names) };
    let removed = store.edit_live_at(key, take_out, now);
    count_or_wrong_kind(removed)
}

/// Gives members of the sorted set under `key` scores.
fn zadd(store: &mut Store, key: &Bytes, pairs: &[(Score, Bytes)], now: u64) -> (reply: Reply)
    requires
        old(store).wf(),
        pairs@.len() > 0,
        forall|i: int| 0 <= i < pairs@.len() ==> (#[trigger] pairs@[i]).0@.normal(),
    ensures
        final(store).wf(),
        changes(
            old(store)@,
            content(*key),
            now,
            scores_set(old(store)@.value(content(*key), now), score_pairs(pairs@)),
            reply@,
            final(store)@,
        ),
{
    let empty: ByteMap<Score> = ByteMap::new();
    proof {
        store.law_no_empty_collections(content(*key));
        assert(scores_of(empty) =~= Map::<Seq<u8>, ScoreView>::empty());
        let all = score_pairs(pairs@);
        assert forall|members: Map<Seq<u8>, ScoreView>| !(#[trigger] with_scores(
            members,
            all,
        ).dom() =~= Set::<Seq<u8>>::empty()) by {
            assert(with_scores(members, all).dom().contains(all.last().1));
        }
    }
    let value = store.entry_mut_at(key, Value::Sorted(empty), now);
    let count = value.set_scores(pairs);
    store.settle(key);
    count_or_wrong_kind(count)
}

/// Removes members of the sorted set under `key`.
fn zrem(store: &mut Store, key: &Bytes, names: &[Bytes], now: u64) -> (reply: Reply)
    requires
        old(store).wf(),
    ensures
        final(store).wf(),
        collection_outcome(
            old(store)@,
            CommandView::ZRem(content(*key), contents(names@)),
            now,
            reply@,
            final(store)@,
        ),
{
    if !store.live_at(key, now) {
        return Reply::Integer(0);
    }
    let take_out = |v: &mut Value| -> (removed: Option<usize>)
            requires
                v.wf(),
            ensures
                final(v).wf(),
                removes_scores(old(v)@, contents(names@), removed, final(v)@),
            { v.remove_scores(names) };
    let removed = store.edit_live_at(key, take_out, now);
    count_or_wrong_kind(removed)
}

/// A range of the members of a sorted set by rank, with their scores where asked
/// for.
fn rank_range(list: Vec<(Bytes, Score)>, start: i64, stop: i64, with_scores: bool) -> (reply: Reply)
    ensures
        reply@ == ranks_reply(range_of(rank_views(list@), start as int, stop as int), with_scores),
{
    let (from, end) = range_bounds(list.len(), start, stop);
    let part: &[(Bytes, Score)] = &list[from..end];
    let ghost range = range_of(rank_views(list@), start as int, stop as int);
    assert(rank_views(part@) =~= range);
    if with_scores {
        return bulk_array(flatten(rank_pairs(part)));
    }
    let mut names: Vec<Bytes> = Vec::new();
    let mut i: usize = 0;
    let ghost want = range.map_values(|p: (Seq<u8>, ScoreView)| p.0);
    while i < part.len()
        invariant
            i <= part@.len(),
            want == range.map_values(|p: (Seq<u8>, ScoreView)| p.0),
            range == rank_views(part@),
            contents(names@) =~= want.take(i as int),
        decreases part@.len() - i,
    {
        names.push(part[i].0.clone());
        assert(want[i as int] == content(part@[i as int].0));
        i = i + 1;
    }
    assert(contents(names@) =~= want);
    bulk_array(names)
}

/// Reads the sorted set under a key, as `cmd` asks for.
fn read_sorted(store: &mut Store, cmd: &Command, now: u64) -> (reply: Reply)
    requires
        old(store).wf(),
        cmd@ is ZRange || cmd@ is ZScore,
    ensures
        final(store).wf(),
        collection_outcome(old(store)@, cmd@, now, reply@, final(store)@),
{
    match cmd {
        Command::ZRange { key, start, stop, with_scores } => match store.read_at(key, now) {
            None => empty_array(),
            Some(value) => match value.all_ranked() {
                Some(list) => rank_range(list, *start, *stop, *with_scores),
                None => wrong_kind(),
            },
        },
        Command::ZScore(key, member) => match store.read_at(key, now) {
            None => Reply::Nil,
            Some(value) => match value.score(member) {
                Some(Some(score)) => Reply::Bulk(from_vec(score.text())),
                Some(None) => Reply::Nil,
                None => wrong_kind(),
            },
        },
        _ => Reply::Nil,
    }
}

/// Reads the collection under a key, as `cmd` asks for.
fn read_collection(store: &mut Store, cmd: &Command, now: u64) -> (reply: Reply)
    requires
        old(store).wf(),
        cmd@ is LRange || cmd@ is LLen || cmd@ is HGet || cmd@ is HGetAll || cmd@ is HExists || cmd@
            is SMembers || cmd@ is SIsMember,
    ensures
        final(store).wf(),
        collection_outcome(old(store)@, cmd@, now, reply@, final(store)@),
{
    match cmd {
        Command::LRange { key, start, stop } => match store.read_at(key, now) {
            None => empty_array(),
            Some(value) => match value.item_range(*start, *stop) {
                Some(list) => bulk_array(list),
                None => wrong_kind(),
            },
        },
        Command::LLen(key) => match store.read_at(key, now) {
            None => Reply::Integer(0),
            Some(value) => count_or_wrong_kind(value.item_count()),
        },
        Command::HGet(key, field) => match store.read_at(key, now) {
            None => Reply::Nil,
            Some(value) => match value.field(field) {
                Some(Some(data)) => Reply::Bulk(data),
                Some(None) => Reply::Nil,
                None => wrong_kind(),
            },
        },
        Command::HGetAll(key) => match store.read_at(key, now) {
            None => empty_array(),
            Some(value) => match value.all_fields() {
                Some(pairs) => bulk_array(flatten(pairs)),
                None => wrong_kind(),
            },
        },
        Command::HExists(key, field) => match store.read_at(key, now) {
            None => Reply::Integer(0),
            Some(value) => match value.field(field) {
                Some(found) => flag(found.is_some()),
                None => wrong_kind(),
            },
        },
        Command::SMembers(key) => match store.read_at(key, now) {
            None => empty_array(),
            Some(value) => match value.all_members() {
                Some(list) => bulk_array(list),
                None => wrong_kind(),
            },
        },
        Command::SIsMember(key, member) => match store.read_at(key, now) {
            None => Reply::Integer(0),
            Some(value) => match value.has_member(member) {
                Some(present) => flag(present),
                None => wrong_kind(),
            },
        },
        _ => Reply::Nil,
    }
}

/// The reply with no elements.
fn empty_array() -> (reply: Reply)
    ensures
        reply@ == bulks_reply(Seq::empty()),
{
    let reply = Reply::Array(Vec::new());
    assert(reply@->Array_0 =~= bulks_reply(Seq::empty())->Array_0);
    reply
}

/// What `INFO` says.
fn info(shards: usize) -> (reply: Reply)
    ensures
        reply@ == ReplyView::Bulk(info_text(shards as nat)),
{
    let mut text: Vec<u8> = Vec::new();
    push_slice(
        &mut text,
        "# Server\r\nimcache_version:0.1.0\r\nmode:standalone\r\nshards:".as_bytes(),
    );
    push_nat(&mut text, shards as u64);
    text.push(0x0d);
    text.push(0x0a);
    assert(text@ =~= info_text(shards as nat));
    Reply::Bulk(from_vec(text))
}

/// The answer to a command that leaves the keyspace alone.
fn answer(store: &Store, pubsub: &PubSub, cmd: &Command) -> (reply: Reply)
    requires
        pubsub.wf(),
    ensures
        idle_outcome(store@, pubsub@.dom(), cmd@, reply@),
        announces(pubsub@, cmd@, reply@),
{
    match cmd {
        Command::Ping(None) => Reply::Simple("PONG".to_owned()),
        Command::Ping(Some(text)) => Reply::Bulk(text.clone()),
        Command::Echo(text) => Reply::Bulk(text.clone()),
        Command::Info => info(store.num_shards()),
        Command::ConfigGet(param) => {
            let mut list: Vec<Bytes> = Vec::new();
            list.push(param.clone());
            list.push(Bytes::new());
            assert(contents(list@) =~= seq![content(*param), Seq::empty()]);
            bulk_array(list)
        },
        Command::ConfigSet(_, _) => Reply::ok(),
        Command::BgSave => Reply::Simple("Background saving started".to_owned()),
        Command::Quit => Reply::ok(),
        Command::Publish(channel, message) => {
            let n: usize = pubsub.publish(channel, message.clone());
            assert(count_reply(n as nat) == ReplyView::Integer(n as i64 as int));
            Reply::Integer(n as i64)
        },
        _ => Reply::Error("ERR command not allowed in this context".to_owned()),
    }
}

/// Executes a command at the time `now`: changes the keyspace, or hands a
/// message to the subscribers, and replies.
pub fn execute_at(store: &mut Store, pubsub: &PubSub, cmd: &Command, now: u64) -> (reply: Reply)
    requires
        old(store).wf(),
        pubsub.wf(),
        cmd@.proper(),
    ensures
        final(store).wf(),
        outcome(old(store)@, pubsub@.dom(), cmd@, now, reply@, final(store)@),
        announces(pubsub@, cmd@, reply@),
{
    match cmd {
        Command::SetKey { key, value, expires_at_ms, nx, xx } => {
            let value = Value::Str(value.clone());
            if store.set_at(key.clone(), value, *expires_at_ms, *nx, *xx, now) {
                Reply::ok()
            } else {
                Reply::Nil
            }
        },
        Command::Get(key) => match store.read_at(key, now) {
            None => Reply::Nil,
            Some(Value::Str(data)) => Reply::Bulk(data.clone()),
            Some(_) => wrong_kind(),
        },
        Command::Del(keys) => Reply::Integer(store.del_at(keys, now)),
        Command::Exists(keys) => Reply::Integer(store.count_existing_at(keys, now)),
        Command::Expire { key, at_ms } => flag(store.expire_at(key, *at_ms, now)),
        Command::Persist(key) => flag(store.persist_at(key, now)),
        Command::Ttl { key, as_ms } => match store.ttl_ms_at(key, now) {
            None => Reply::Integer(-2),
            Some(None) => Reply::Integer(-1),
            Some(Some(ms)) => Reply::Integer(
                if *as_ms {
                    ms
                } else {
                    ms / 1000
                },
            ),
        },
        Command::Incr(key) => incr_by(store, key, 1, now),
        Command::Decr(key) => incr_by(store, key, -1, now),
        Command::IncrBy(key, n) => incr_by(store, key, *n, now),
        Command::DecrBy(key, n) => decr_by(store, key, *n, now),
        Command::Append(key, suffix) => append(store, key, suffix, now),
        Command::MGet(keys) => mget(store, keys, now),
        Command::MSet(pairs) => {
            mset(store, pairs, now);
            Reply::ok()
        },
        Command::Type(key) => match store.key_type_at(key, now) {
            Some(kind) => Reply::Simple(kind.to_owned()),
            None => Reply::Simple("none".to_owned()),
        },
        Command::FlushAll => {
            store.flush_all();
            Reply::ok()
        },
        Command::Push { key, items, front } => push(store, key, items, *front, now),
        Command::Pop { key, front } => pop(store, key, *front, now),
        Command::HSet(key, pairs) => hset(store, key, pairs, now),
        Command::HDel(key, names) => hdel(store, key, names, now),
        Command::SAdd(key, more) => sadd(store, key, more, now),
        Command::SRem(key, names) => srem(store, key, names, now),
        Command::ZAdd(key, pairs) => {
            proof {
                assert forall|i: int| 0 <= i < pairs@.len() implies (
                #[trigger] pairs@[i]).0@.normal() by {
                    assert(score_pairs(pairs@)[i].0.normal());
                }
            }
            zadd(store, key, pairs, now)
        },
        Command::ZRem(key, names) => zrem(store, key, names, now),
        Command::ZRange { .. } | Command::ZScore(_, _) => read_sorted(store, cmd, now),
        Command::LRange { .. }
        | Command::LLen(_)
        | Command::HGet(_, _)
        | Command::HGetAll(_)
        | Command::HExists(_, _)
        | Command::SMembers(_)
        | Command::SIsMember(_, _) => read_collection(store, cmd, now),
        _ => answer(store, pubsub, cmd),
    }
}

/// Executes a command by the system clock; see [`execute_at`].
pub fn execute(store: &mut Store, pubsub: &PubSub, cmd: &Command) -> (reply: Reply)
    requires
        old(store).wf(),
        pubsub.wf(),
        cmd@.proper(),
    ensures
        final(store).wf(),
        exists|now: u64| #[trigger]
            outcome(old(store)@, pubsub@.dom(), cmd@, now, reply@, final(store)@),
        announces(pubsub@, cmd@, reply@),
{
    let now: u64 = now_ms();
    execute_at(store, pubsub, cmd, now)
}

} // verus!
