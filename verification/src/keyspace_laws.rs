//! What commands on keys, strings and counters promise their clients, said of
//! what clients find before and after, and of the reply.

use vstd::prelude::*;

use crate::commands::CommandView;
use crate::decimal::{dec_int, i64_value};
use crate::execute::outcome;
use crate::laws::{
    effect, law_changed_key_survives_eviction, law_commands_have_their_effect,
    law_set_key_survives_eviction, lemma_drop_all, lemma_purge_all, may_grow, visible,
    with_strings, Datum,
};
use crate::resp::ReplyView;
use crate::store::{shard_of, StoreView, NUM_SHARDS};
use crate::value::ValueView;

verus! {

/// What a client finds under a key at the time `now`: its value and its expiry
/// time, which has not come.
pub open spec fn shown(s: StoreView, key: Seq<u8>, now: u64) -> Option<(ValueView, Option<u64>)> {
    let entries = s.shards[shard_of(key)].entries;
    if !entries.contains_key(key) {
        None
    } else {
        match entries[key].expires_at_ms {
            Some(at) => if now < at {
                Some((entries[key].value, Some(at)))
            } else {
                None
            },
            None => Some((entries[key].value, None)),
        }
    }
}

/// Whether clients find the same under every key.
pub open spec fn alike(before: StoreView, after: StoreView, now: u64) -> bool {
    forall|k: Seq<u8>| #[trigger] shown(after, k, now) == shown(before, k, now)
}

/// Whether clients find the same under every other key than `key`; only where
/// there is a limit may some be gone.
pub open spec fn alike_but(before: StoreView, after: StoreView, key: Seq<u8>, now: u64) -> bool {
    forall|k: Seq<u8>|
        k != key ==> (#[trigger] shown(after, k, now) == shown(before, k, now) || (
        before.max_keys_per_shard is Some && shown(after, k, now) is None))
}

/// The reply to a command on a key of another kind.
pub open spec fn wrong_kind() -> ReplyView {
    ReplyView::Error("WRONGTYPE Operation against a key holding the wrong kind of value"@)
}

pub(crate) proof fn lemma_shown(s: StoreView, now: u64)
    ensures
        forall|k: Seq<u8>| #[trigger]
            shown(s, k, now) == (if visible(s, now).contains_key(k) {
                Some((visible(s, now)[k].value, visible(s, now)[k].expires_at_ms))
            } else {
                None
            }),
        forall|k: Seq<u8>| #[trigger] s.holds(k, now) == (shown(s, k, now) is Some),
        forall|k: Seq<u8>| #[trigger]
            s.value(k, now) == (match shown(s, k, now) {
                Some((v, _)) => Some(v),
                None => None,
            }),
{
    assert forall|k: Seq<u8>| #[trigger] shown(s, k, now) == (if visible(s, now).contains_key(k) {
        Some((visible(s, now)[k].value, visible(s, now)[k].expires_at_ms))
    } else {
        None
    }) by {
        assert(visible(s, now).contains_key(k) <==> s.holds(k, now));
    }
}

pub(crate) proof fn lemma_steady(
    before: StoreView,
    channels: Set<Seq<u8>>,
    cmd: CommandView,
    now: u64,
    reply: ReplyView,
    after: StoreView,
)
    requires
        before.shards.len() == NUM_SHARDS,
        outcome(before, channels, cmd, now, reply, after),
        effect(visible(before, now), cmd, now) == visible(before, now),
        !may_grow(cmd),
    ensures
        alike(before, after, now),
{
    law_commands_have_their_effect(before, channels, cmd, now, reply, after);
    lemma_shown(before, now);
    lemma_shown(after, now);
}

/// What holds of the other keys of a command whose effect leaves them alone.
pub(crate) proof fn lemma_apart(
    before: StoreView,
    channels: Set<Seq<u8>>,
    cmd: CommandView,
    now: u64,
    reply: ReplyView,
    after: StoreView,
    key: Seq<u8>,
)
    requires
        before.shards.len() == NUM_SHARDS,
        outcome(before, channels, cmd, now, reply, after),
        forall|k: Seq<u8>|
            k != key ==> (#[trigger] effect(visible(before, now), cmd, now).contains_key(k)
                == visible(before, now).contains_key(k)),
        forall|k: Seq<u8>|
            k != key && visible(before, now).contains_key(k) ==> #[trigger] effect(
                visible(before, now),
                cmd,
                now,
            )[k] == visible(before, now)[k],
    ensures
        alike_but(before, after, key, now),
        before.max_keys_per_shard is None || !may_grow(cmd) ==> visible(after, now) == effect(
            visible(before, now),
            cmd,
            now,
        ),
        visible(after, now).submap_of(effect(visible(before, now), cmd, now)),
{
    law_commands_have_their_effect(before, channels, cmd, now, reply, after);
    lemma_shown(before, now);
    lemma_shown(after, now);
    let want = effect(visible(before, now), cmd, now);
    assert forall|k: Seq<u8>| k != key implies (#[trigger] shown(after, k, now) == shown(
        before,
        k,
        now,
    ) || (before.max_keys_per_shard is Some && shown(after, k, now) is None)) by {
        if visible(after, now).dom().contains(k) {
            assert(want.dom().contains(k));
            assert(visible(after, now)[k] == want[k]);
        }
        assert(want.contains_key(k) == visible(before, now).contains_key(k));
    }
}

/// `GET` replies what is under the key, nil where nothing is, and the complaint
/// where that is no string. Nothing changes.
pub proof fn law_get(
    before: StoreView,
    channels: Set<Seq<u8>>,
    key: Seq<u8>,
    now: u64,
    reply: ReplyView,
    after: StoreView,
)
    requires
        before.shards.len() == NUM_SHARDS,
        outcome(before, channels, CommandView::Get(key), now, reply, after),
    ensures
        match shown(before, key, now) {
            None => reply == ReplyView::Nil,
            Some((ValueView::Str(data), _)) => reply == ReplyView::Bulk(data),
            Some(_) => reply == wrong_kind(),
        },
        alike(before, after, now),
{
    lemma_shown(before, now);
    lemma_steady(before, channels, CommandView::Get(key), now, reply, after);
}

/// `SET` is refused with nil where it asks for a new key and there is one, or for
/// an old one and there is none; then nothing changes. Otherwise the key has
/// exactly the new value and expiry time, whatever it had, and the reply is OK.
pub proof fn law_set(
    before: StoreView,
    channels: Set<Seq<u8>>,
    key: Seq<u8>,
    value: Seq<u8>,
    expires_at_ms: Option<u64>,
    nx: bool,
    xx: bool,
    now: u64,
    reply: ReplyView,
    after: StoreView,
)
    requires
        before.shards.len() == NUM_SHARDS,
        before.max_keys_per_shard != Some(0usize),
        outcome(
            before,
            channels,
            CommandView::SetKey { key, value, expires_at_ms, nx, xx },
            now,
            reply,
            after,
        ),
    ensures
        (nx && shown(before, key, now) is Some) || (xx && shown(before, key, now) is None) ==> reply
            == ReplyView::Nil && alike(before, after, now),
        !(nx && shown(before, key, now) is Some) && !(xx && shown(before, key, now) is None) ==> {
            &&& reply == ReplyView::Simple("OK"@)
            &&& alike_but(before, after, key, now)
            &&& forall|t: u64| #[trigger]
                shown(after, key, t) == (match expires_at_ms {
                    Some(at) => if t < at {
                        Some((ValueView::Str(value), Some(at)))
                    } else {
                        None
                    },
                    None => Some((ValueView::Str(value), None)),
                })
        },
{
    let cmd = CommandView::SetKey { key, value, expires_at_ms, nx, xx };
    lemma_shown(before, now);
    lemma_shown(after, now);
    let refused = (nx && shown(before, key, now) is Some) || (xx && shown(
        before,
        key,
        now,
    ) is None);
    assert(before.holds(key, now) == (shown(before, key, now) is Some));
    if refused {
        assert(before.purge(key, now) == after);
        assert forall|k: Seq<u8>| #[trigger] shown(after, k, now) == shown(before, k, now) by {}
    } else {
        lemma_apart(before, channels, cmd, now, reply, after, key);
        law_set_key_survives_eviction(
            before,
            channels,
            key,
            value,
            expires_at_ms,
            nx,
            xx,
            now,
            reply,
            after,
        );
    }
}

/// The keys of a list that clients find, each once.
pub open spec fn found_among(s: StoreView, keys: Seq<Seq<u8>>, now: u64) -> Set<Seq<u8>> {
    keys.to_set().filter(|k: Seq<u8>| shown(s, k, now) is Some)
}

proof fn lemma_count_dropped(s: StoreView, keys: Seq<Seq<u8>>, now: u64)
    requires
        s.shards.len() == NUM_SHARDS,
    ensures
        found_among(s, keys, now).finite(),
        s.count_dropped(keys, now) == found_among(s, keys, now).len(),
        found_among(s, keys, now).len() <= keys.len(),
    decreases keys.len(),
{
    lemma_shown(s, now);
    if keys.len() == 0 {
        assert(found_among(s, keys, now) =~= Set::empty());
    } else {
        let front = keys.drop_last();
        let last = keys.last();
        lemma_count_dropped(s, front, now);
        lemma_drop_all(s, front, now);
        lemma_shown(s.drop_all(front), now);
        assert(front.push(last) =~= keys);
        front.lemma_push_to_set_commute(last);
        let had = found_among(s, front, now);
        assert(s.drop_all(front).holds(last, now) == (s.holds(last, now)
            && !front.to_set().contains(last))) by {
            assert(visible(s.drop_all(front), now).contains_key(last) == s.drop_all(front).holds(
                last,
                now,
            ));
            assert(visible(s, now).contains_key(last) == s.holds(last, now));
        }
        if s.holds(last, now) {
            assert(found_among(s, keys, now) =~= had.insert(last));
        } else {
            assert(found_among(s, keys, now) =~= had);
        }
    }
}

/// `DEL` replies how many of the keys there were, each counted once, and
/// afterwards there are none of them; the others are as they were.
pub proof fn law_del(
    before: StoreView,
    channels: Set<Seq<u8>>,
    keys: Seq<Seq<u8>>,
    now: u64,
    reply: ReplyView,
    after: StoreView,
)
    requires
        before.shards.len() == NUM_SHARDS,
        outcome(before, channels, CommandView::Del(keys), now, reply, after),
        keys.len() <= i64::MAX,
    ensures
        reply == ReplyView::Integer(found_among(before, keys, now).len() as int),
        forall|k: Seq<u8>| #[trigger]
            shown(after, k, now) == (if keys.contains(k) {
                None
            } else {
                shown(before, k, now)
            }),
{
    law_commands_have_their_effect(before, channels, CommandView::Del(keys), now, reply, after);
    lemma_shown(before, now);
    lemma_shown(after, now);
    lemma_count_dropped(before, keys, now);
    assert forall|k: Seq<u8>| #[trigger] shown(after, k, now) == (if keys.contains(k) {
        None
    } else {
        shown(before, k, now)
    }) by {
        assert(keys.to_set().contains(k) == keys.contains(k));
    }
}

/// How many of the keys of a list clients find, repeated ones counted each time.
pub open spec fn finds(s: StoreView, keys: Seq<Seq<u8>>, now: u64) -> nat
    decreases keys.len(),
{
    if keys.len() == 0 {
        0
    } else {
        finds(s, keys.skip(1), now) + if shown(s, keys[0], now) is Some {
            1nat
        } else {
            0nat
        }
    }
}

proof fn lemma_finds_push(s: StoreView, keys: Seq<Seq<u8>>, key: Seq<u8>, now: u64)
    ensures
        finds(s, keys.push(key), now) == finds(s, keys, now) + if shown(s, key, now) is Some {
            1nat
        } else {
            0nat
        },
    decreases keys.len(),
{
    let all = keys.push(key);
    if keys.len() == 0 {
        assert(all.skip(1) =~= Seq::<Seq<u8>>::empty());
        reveal_with_fuel(finds, 2);
    } else {
        assert(all.skip(1) =~= keys.skip(1).push(key));
        lemma_finds_push(s, keys.skip(1), key, now);
    }
}

proof fn lemma_count_live(s: StoreView, keys: Seq<Seq<u8>>, now: u64)
    ensures
        s.count_live(keys, now) == finds(s, keys, now),
        finds(s, keys, now) <= keys.len(),
    decreases keys.len(),
{
    lemma_shown(s, now);
    if keys.len() > 0 {
        let front = keys.drop_last();
        lemma_count_live(s, front, now);
        lemma_finds_push(s, front, keys.last(), now);
        assert(front.push(keys.last()) =~= keys);
        assert(s.holds(keys.last(), now) == (shown(s, keys.last(), now) is Some));
    }
}

/// What the store counts as gone is what clients find, each key once.
pub proof fn law_count_of_gone(s: StoreView, keys: Seq<Seq<u8>>, now: u64)
    requires
        s.shards.len() == NUM_SHARDS,
    ensures
        s.count_dropped(keys, now) == found_among(s, keys, now).len(),
        found_among(s, keys, now).len() <= keys.len(),
{
    lemma_count_dropped(s, keys, now);
}

/// What the store counts as found is what clients find, and looking changes
/// nothing.
pub proof fn law_count_of_found(s: StoreView, keys: Seq<Seq<u8>>, now: u64)
    requires
        s.shards.len() == NUM_SHARDS,
    ensures
        s.count_live(keys, now) == finds(s, keys, now),
        finds(s, keys, now) <= keys.len(),
        alike(s, s.purge_all(keys, now), now),
{
    lemma_count_live(s, keys, now);
    lemma_purge_all(s, keys, now);
    lemma_shown(s, now);
    lemma_shown(s.purge_all(keys, now), now);
}

/// `EXISTS` replies how many of the keys there are, repeated ones counted each
/// time. Nothing changes.
pub proof fn law_exists(
    before: StoreView,
    channels: Set<Seq<u8>>,
    keys: Seq<Seq<u8>>,
    now: u64,
    reply: ReplyView,
    after: StoreView,
)
    requires
        before.shards.len() == NUM_SHARDS,
        outcome(before, channels, CommandView::Exists(keys), now, reply, after),
        keys.len() <= i64::MAX,
    ensures
        reply == ReplyView::Integer(finds(before, keys, now) as int),
        alike(before, after, now),
{
    lemma_count_live(before, keys, now);
    lemma_steady(before, channels, CommandView::Exists(keys), now, reply, after);
}

/// `EXPIRE` replies 1 where there is the key and 0 where not. From the time that
/// it sets on the key is not found any more, until then with the same value.
pub proof fn law_expire(
    before: StoreView,
    channels: Set<Seq<u8>>,
    key: Seq<u8>,
    at_ms: i64,
    now: u64,
    reply: ReplyView,
    after: StoreView,
)
    requires
        before.shards.len() == NUM_SHARDS,
        outcome(before, channels, CommandView::Expire { key, at_ms }, now, reply, after),
        now <= i64::MAX,
    ensures
        alike_but(before, after, key, now),
        forall|k: Seq<u8>|
            k != key ==> #[trigger] shown(after, k, now) == shown(before, k, now),
        match shown(before, key, now) {
            None => reply == ReplyView::Integer(0) && shown(after, key, now) is None,
            Some((value, _)) => reply == ReplyView::Integer(1) && forall|t: u64|
                t >= now ==> #[trigger] shown(after, key, t) == (if t < at_ms {
                    Some((value, Some(at_ms as u64)))
                } else {
                    None
                }),
        },
{
    let cmd = CommandView::Expire { key, at_ms };
    lemma_shown(before, now);
    lemma_shown(after, now);
    lemma_apart(before, channels, cmd, now, reply, after, key);
    assert(before.holds(key, now) == (shown(before, key, now) is Some));
    assert(visible(before, now).contains_key(key) == before.holds(key, now));
}

/// `PERSIST` replies 1 where there is the key and it has an expiry time, and 0
/// otherwise. Afterwards the key has the same value and no expiry time.
pub proof fn law_persist(
    before: StoreView,
    channels: Set<Seq<u8>>,
    key: Seq<u8>,
    now: u64,
    reply: ReplyView,
    after: StoreView,
)
    requires
        before.shards.len() == NUM_SHARDS,
        outcome(before, channels, CommandView::Persist(key), now, reply, after),
    ensures
        forall|k: Seq<u8>|
            k != key ==> #[trigger] shown(after, k, now) == shown(before, k, now),
        match shown(before, key, now) {
            None => reply == ReplyView::Integer(0) && shown(after, key, now) is None,
            Some((value, due)) => {
                &&& reply == ReplyView::Integer(
                    if due is Some {
                        1
                    } else {
                        0
                    },
                )
                &&& forall|t: u64| #[trigger]
                    shown(after, key, t) == Some((value, None::<u64>))
            },
        },
{
    let cmd = CommandView::Persist(key);
    lemma_shown(before, now);
    lemma_shown(after, now);
    lemma_apart(before, channels, cmd, now, reply, after, key);
    assert(before.holds(key, now) == (shown(before, key, now) is Some));
    assert(visible(before, now).contains_key(key) == before.holds(key, now));
}

/// `PTTL` replies how many milliseconds are left until the expiry time, `TTL` how
/// many whole seconds; -1 where there is no expiry time, and -2 where there is no
/// key. Nothing changes.
pub proof fn law_ttl(
    before: StoreView,
    channels: Set<Seq<u8>>,
    key: Seq<u8>,
    as_ms: bool,
    now: u64,
    reply: ReplyView,
    after: StoreView,
)
    requires
        before.shards.len() == NUM_SHARDS,
        outcome(before, channels, CommandView::Ttl { key, as_ms }, now, reply, after),
        shown(before, key, now) matches Some((_, Some(at))) ==> at <= i64::MAX,
    ensures
        match shown(before, key, now) {
            None => reply == ReplyView::Integer(-2),
            Some((_, None)) => reply == ReplyView::Integer(-1),
            Some((_, Some(at))) => reply == ReplyView::Integer(
                if as_ms {
                    at - now
                } else {
                    (at - now) / 1000
                },
            ),
        },
        alike(before, after, now),
{
    lemma_shown(before, now);
    assert(before.holds(key, now) == (shown(before, key, now) is Some));
    lemma_steady(before, channels, CommandView::Ttl { key, as_ms }, now, reply, after);
}

/// The step that a counter command takes on a key, if it is one.
pub open spec fn step_of(cmd: CommandView, key: Seq<u8>) -> Option<int> {
    match cmd {
        CommandView::Incr(k) if k == key => Some(1),
        CommandView::Decr(k) if k == key => Some(-1),
        CommandView::IncrBy(k, n) if k == key => Some(n as int),
        CommandView::DecrBy(k, n) if k == key => Some(-n),
        _ => None,
    }
}

/// A counter that stands at `n`, or at 0 where there is no key, stands at `n + d`
/// after a step of `d`, and that is the reply, whenever that is a signed 64-bit
/// number; its expiry time stays. Otherwise the reply is a complaint, and the
/// value stays.
pub proof fn law_counter(
    before: StoreView,
    channels: Set<Seq<u8>>,
    cmd: CommandView,
    key: Seq<u8>,
    d: int,
    now: u64,
    reply: ReplyView,
    after: StoreView,
)
    requires
        before.shards.len() == NUM_SHARDS,
        before.max_keys_per_shard != Some(0usize),
        step_of(cmd, key) == Some(d),
        outcome(before, channels, cmd, now, reply, after),
    ensures
        alike_but(before, after, key, now),
        match shown(before, key, now) {
            None => if i64::MIN <= d <= i64::MAX {
                reply == ReplyView::Integer(d) && shown(after, key, now) == Some(
                    (ValueView::Str(dec_int(d)), None::<u64>),
                )
            } else {
                reply == ReplyView::Error("ERR increment or decrement would overflow"@)
            },
            Some((ValueView::Str(text), due)) => match i64_value(text) {
                Some(n) => if i64::MIN <= n + d <= i64::MAX {
                    reply == ReplyView::Integer(n + d) && shown(after, key, now) == Some(
                        (ValueView::Str(dec_int(n + d)), due),
                    )
                } else {
                    reply == ReplyView::Error("ERR increment or decrement would overflow"@)
                        && shown(after, key, now) == Some((ValueView::Str(text), due))
                },
                None => reply == ReplyView::Error("ERR value is not an integer or out of range"@)
                    && shown(after, key, now) == Some((ValueView::Str(text), due)),
            },
            Some((value, due)) => reply == wrong_kind() && shown(after, key, now) == Some(
                (value, due),
            ),
        },
{
    lemma_shown(before, now);
    lemma_shown(after, now);
    lemma_apart(before, channels, cmd, now, reply, after, key);
    assert(before.holds(key, now) == (shown(before, key, now) is Some));
    assert(visible(before, now).contains_key(key) == before.holds(key, now));
    let zero = seq![0x30u8];
    assert(i64_value(zero) == Some(0i64)) by {
        crate::decimal::lemma_dec_int_read(0);
        assert(dec_int(0) =~= zero);
    }
    let value = crate::execute::increased(before.value(key, now), d).value;
    law_changed_key_survives_eviction(before, key, now, value, after);
    lemma_kept(before, key, now, value, after);
}

/// A key whose value was changed in place shows the new value, with the expiry
/// time that it had.
pub(crate) proof fn lemma_kept(
    before: StoreView,
    key: Seq<u8>,
    now: u64,
    value: ValueView,
    after: StoreView,
)
    requires
        before.shards.len() == NUM_SHARDS,
        before.max_keys_per_shard != Some(0usize),
        before.changes(key, now, value, after),
    ensures
        shown(after, key, now) == Some(
            (
                value,
                match shown(before, key, now) {
                    Some((_, due)) => due,
                    None => None,
                },
            ),
        ),
{
    lemma_shown(before, now);
    law_changed_key_survives_eviction(before, key, now, value, after);
    let mid = before.change(key, now, value);
    let full = mid.home(key);
    let shard = choose|shard: crate::shard::ShardView| #[trigger]
        crate::shard::cut(full, key, before.max_keys_per_shard, shard) && after == mid.with_home(
            key,
            shard,
        );
    assert(shard.entries.dom().contains(key));
    assert(full.entries.dom().contains(key));
    assert(shard.entries[key] == full.entries[key]);
    assert(before.holds(key, now) == (shown(before, key, now) is Some));
}

/// `APPEND` puts the bytes behind those that the key had, and replies how many
/// there are then; its expiry time stays. On something that is no string it
/// complains, and nothing changes.
pub proof fn law_append(
    before: StoreView,
    channels: Set<Seq<u8>>,
    key: Seq<u8>,
    suffix: Seq<u8>,
    now: u64,
    reply: ReplyView,
    after: StoreView,
)
    requires
        before.shards.len() == NUM_SHARDS,
        before.max_keys_per_shard != Some(0usize),
        outcome(before, channels, CommandView::Append(key, suffix), now, reply, after),
    ensures
        alike_but(before, after, key, now),
        match shown(before, key, now) {
            None => shown(after, key, now) == Some((ValueView::Str(suffix), None::<u64>)) && (
            suffix.len() <= i64::MAX ==> reply == ReplyView::Integer(suffix.len() as int)),
            Some((ValueView::Str(data), due)) => shown(after, key, now) == Some(
                (ValueView::Str(data + suffix), due),
            ) && (data.len() + suffix.len() <= i64::MAX ==> reply == ReplyView::Integer(
                (data.len() + suffix.len()) as int,
            )),
            Some((value, due)) => reply == wrong_kind() && shown(after, key, now) == Some(
                (value, due),
            ),
        },
{
    let cmd = CommandView::Append(key, suffix);
    lemma_shown(before, now);
    lemma_apart(before, channels, cmd, now, reply, after, key);
    let value = crate::execute::appended(before.value(key, now), suffix).value;
    lemma_kept(before, key, now, value, after);
}

/// `MGET` replies for each key in turn the string under it, and nil where there
/// is none. Nothing changes.
pub proof fn law_mget(
    before: StoreView,
    channels: Set<Seq<u8>>,
    keys: Seq<Seq<u8>>,
    now: u64,
    reply: ReplyView,
    after: StoreView,
)
    requires
        before.shards.len() == NUM_SHARDS,
        outcome(before, channels, CommandView::MGet(keys), now, reply, after),
    ensures
        alike(before, after, now),
        reply matches ReplyView::Array(items) && items.len() == keys.len() && forall|i: int|
            0 <= i < keys.len() ==> #[trigger] items[i] == (match shown(before, keys[i], now) {
                Some((ValueView::Str(data), _)) => ReplyView::Bulk(data),
                _ => ReplyView::Nil,
            }),
{
    lemma_shown(before, now);
    lemma_steady(before, channels, CommandView::MGet(keys), now, reply, after);
}

/// Whether the pair at `i` is the last of its key.
pub open spec fn is_last(pairs: Seq<(Seq<u8>, Seq<u8>)>, i: int) -> bool {
    0 <= i < pairs.len() && forall|j: int| i < j < pairs.len() ==> (#[trigger] pairs[j]).0
        != pairs[i].0
}

proof fn lemma_strings(
    data: Map<Seq<u8>, Datum>,
    pairs: Seq<(Seq<u8>, Seq<u8>)>,
)
    ensures
        forall|i: int|
            #[trigger] is_last(pairs, i) ==> with_strings(data, pairs).contains_key(pairs[i].0)
                && with_strings(data, pairs)[pairs[i].0] == (Datum {
                value: ValueView::Str(pairs[i].1),
                expires_at_ms: None,
            }),
        forall|k: Seq<u8>|
            (forall|i: int| 0 <= i < pairs.len() ==> (#[trigger] pairs[i]).0 != k)
                ==> #[trigger] with_strings(data, pairs).contains_key(k) == data.contains_key(k)
                && (data.contains_key(k) ==> with_strings(data, pairs)[k] == data[k]),
    decreases pairs.len(),
{
    if pairs.len() > 0 {
        let front = pairs.drop_last();
        let n = pairs.len() - 1;
        lemma_strings(data, front);
        assert forall|i: int| #[trigger] is_last(pairs, i) implies with_strings(
            data,
            pairs,
        ).contains_key(pairs[i].0) && with_strings(data, pairs)[pairs[i].0] == (Datum {
            value: ValueView::Str(pairs[i].1),
            expires_at_ms: None,
        }) by {
            if i < n {
                assert(pairs[n].0 != pairs[i].0);
                assert(is_last(front, i)) by {
                    assert forall|j: int| i < j < front.len() implies (#[trigger] front[j]).0
                        != front[i].0 by {
                        assert(pairs[j].0 != pairs[i].0);
                    }
                }
                assert(front[i] == pairs[i]);
            }
        }
        assert forall|k: Seq<u8>|
            (forall|i: int| 0 <= i < pairs.len() ==> (#[trigger] pairs[i]).0 != k) implies
            #[trigger] with_strings(data, pairs).contains_key(k) == data.contains_key(k) && (
        data.contains_key(k) ==> with_strings(data, pairs)[k] == data[k]) by {
            assert(pairs[n].0 != k);
            assert forall|i: int| 0 <= i < front.len() implies (#[trigger] front[i]).0 != k by {
                assert(pairs[i].0 != k);
            }
        }
    }
}

/// After `MSET` each key has the string of its last pair and no expiry time, the
/// others are as they were, and the reply is OK.
pub proof fn law_mset(
    before: StoreView,
    channels: Set<Seq<u8>>,
    pairs: Seq<(Seq<u8>, Seq<u8>)>,
    now: u64,
    reply: ReplyView,
    after: StoreView,
)
    requires
        before.shards.len() == NUM_SHARDS,
        before.max_keys_per_shard is None,
        outcome(before, channels, CommandView::MSet(pairs), now, reply, after),
    ensures
        reply == ReplyView::Simple("OK"@),
        forall|i: int| #[trigger]
            is_last(pairs, i) ==> shown(after, pairs[i].0, now) == Some(
                (ValueView::Str(pairs[i].1), None::<u64>),
            ),
        forall|k: Seq<u8>|
            (forall|i: int| 0 <= i < pairs.len() ==> (#[trigger] pairs[i]).0 != k)
                ==> #[trigger] shown(after, k, now) == shown(before, k, now),
{
    let cmd = CommandView::MSet(pairs);
    law_commands_have_their_effect(before, channels, cmd, now, reply, after);
    lemma_shown(before, now);
    lemma_shown(after, now);
    lemma_strings(visible(before, now), pairs);
    assert forall|k: Seq<u8>|
        (forall|i: int| 0 <= i < pairs.len() ==> (#[trigger] pairs[i]).0 != k) implies
        #[trigger] shown(after, k, now) == shown(before, k, now) by {
        assert(with_strings(visible(before, now), pairs).contains_key(k) == visible(
            before,
            now,
        ).contains_key(k));
    }
}

/// `TYPE` replies the kind of what is under the key, and "none" where nothing is.
/// Nothing changes.
pub proof fn law_type(
    before: StoreView,
    channels: Set<Seq<u8>>,
    key: Seq<u8>,
    now: u64,
    reply: ReplyView,
    after: StoreView,
)
    requires
        before.shards.len() == NUM_SHARDS,
        outcome(before, channels, CommandView::Type(key), now, reply, after),
    ensures
        alike(before, after, now),
        reply == ReplyView::Simple(
            match shown(before, key, now) {
                None => "none"@,
                Some((ValueView::Str(_), _)) => "string"@,
                Some((ValueView::List(_), _)) => "list"@,
                Some((ValueView::Hash(_), _)) => "hash"@,
                Some((ValueView::Members(_), _)) => "set"@,
                Some((ValueView::Sorted(_), _)) => "zset"@,
            },
        ),
{
    lemma_shown(before, now);
    lemma_steady(before, channels, CommandView::Type(key), now, reply, after);
}

/// After `FLUSHALL` there is no key, at no time, and the reply is OK.
pub proof fn law_flush(
    before: StoreView,
    channels: Set<Seq<u8>>,
    now: u64,
    reply: ReplyView,
    after: StoreView,
)
    requires
        before.shards.len() == NUM_SHARDS,
        outcome(before, channels, CommandView::FlushAll, now, reply, after),
    ensures
        reply == ReplyView::Simple("OK"@),
        forall|k: Seq<u8>, t: u64| #[trigger] shown(after, k, t) is None,
        forall|i: int|
            0 <= i < NUM_SHARDS ==> (#[trigger] after.shards[i]).entries.dom() =~= Set::<
                Seq<u8>,
            >::empty(),
{
}

/// `PING`, `ECHO`, `CONFIG`, `BGSAVE` and `QUIT` leave the keyspace as it is, and
/// what is to be echoed comes back as it is; so do those that mean nothing but to
/// a connection, and they are refused.
pub proof fn law_idle(
    before: StoreView,
    channels: Set<Seq<u8>>,
    cmd: CommandView,
    now: u64,
    reply: ReplyView,
    after: StoreView,
)
    requires
        outcome(before, channels, cmd, now, reply, after),
    ensures
        cmd is Ping || cmd is Echo || cmd is Info || cmd is ConfigGet || cmd is ConfigSet || cmd
            is BgSave || cmd is Quit || cmd is Publish ==> after == before,
        match cmd {
            CommandView::Ping(None) => reply == ReplyView::Simple("PONG"@),
            CommandView::Ping(Some(text)) => reply == ReplyView::Bulk(text),
            CommandView::Echo(text) => reply == ReplyView::Bulk(text),
            CommandView::ConfigGet(name) => reply == ReplyView::Array(
                seq![ReplyView::Bulk(name), ReplyView::Bulk(Seq::empty())],
            ),
            CommandView::ConfigSet(_, _) => reply == ReplyView::Simple("OK"@),
            CommandView::BgSave => reply == ReplyView::Simple("Background saving started"@),
            CommandView::Quit => reply == ReplyView::Simple("OK"@),
            CommandView::Subscribe(_)
            | CommandView::Unsubscribe(_)
            | CommandView::Sync
            | CommandView::ClusterInfo
            | CommandView::ClusterSlots => after == before && reply == ReplyView::Error(
                "ERR command not allowed in this context"@,
            ),
            _ => true,
        },
{
    if let CommandView::ConfigGet(name) = cmd {
        assert(reply->Array_0 =~= seq![ReplyView::Bulk(name), ReplyView::Bulk(Seq::empty())]);
    }
}

} // verus!
