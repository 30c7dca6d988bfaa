//! What holds of the keyspace across commands, time and restarts.

use vstd::prelude::*;

use crate::collections::{end_of, popped, pushed, with_fields, with_scores};
use crate::commands::{meaning, CommandView};
use crate::decimal::{i64_value, lemma_dec_int_read};
use crate::execute::{
    appended, fields_removed, fields_set, increased, list_popped, list_pushed, members_added,
    members_removed, mset_states, ok_reply, outcome, string_entry,
    scores_removed, scores_set, zscore_reply,
};
use crate::persistence::aof::{
    applies, law_stamp_is_read_back, replay_states, replays, stamped, takes_over,
};
use crate::persistence::snapshot::load_all;
use crate::replica::is_write_request;
use crate::resp::ReplyView;
use crate::score::{score_text, ScoreView};
use crate::server::{next_action, serves, ClusterView, StepView};
use crate::shard::{
    cut, lists_keys, set_allowed, set_effect, sweep_len, sweep_start, sweep_window, swept, wrapped,
    ShardView,
};
use crate::store::{shard_of, shard_swept, Store, StoreView, NUM_SHARDS};
use crate::value::{EntryView, ValueView};

verus! {

/// What clients can see of a key: its value and its expiry time.
#[verifier::ext_equal]
pub struct Datum {
    pub value: ValueView,
    pub expires_at_ms: Option<u64>,
}

/// What clients can see of the keyspace at the time `now`.
pub open spec fn visible(store: StoreView, now: u64) -> Map<Seq<u8>, Datum> {
    Map::new(
        |k: Seq<u8>| store.holds(k, now),
        |k: Seq<u8>|
            Datum {
                value: store.entry(k).value,
                expires_at_ms: store.entry(k).expires_at_ms,
            },
    )
}

/// The value of a key that clients can see.
pub open spec fn seen(data: Map<Seq<u8>, Datum>, key: Seq<u8>) -> Option<ValueView> {
    if data.contains_key(key) {
        Some(data[key].value)
    } else {
        None
    }
}

/// The keyspace with `datum` under `key`, which nobody sees once its expiry time
/// has come.
pub open spec fn with_datum(
    data: Map<Seq<u8>, Datum>,
    key: Seq<u8>,
    datum: Datum,
    now: u64,
) -> Map<Seq<u8>, Datum> {
    if datum.expires_at_ms matches Some(at) && at <= now {
        data.remove(key)
    } else {
        data.insert(key, datum)
    }
}

/// The keyspace after the value of `key` was changed in place: the expiry time
/// stays, and a new key has none.
pub open spec fn with_value(
    data: Map<Seq<u8>, Datum>,
    key: Seq<u8>,
    value: ValueView,
) -> Map<Seq<u8>, Datum> {
    data.insert(
        key,
        Datum {
            value,
            expires_at_ms: if data.contains_key(key) {
                data[key].expires_at_ms
            } else {
                None
            },
        },
    )
}

/// The keyspace after something was taken out of the value of `key`: a
/// collection without elements goes together with its key.
pub open spec fn with_less(
    data: Map<Seq<u8>, Datum>,
    key: Seq<u8>,
    value: ValueView,
) -> Map<Seq<u8>, Datum> {
    if value.is_hollow() {
        data.remove(key)
    } else {
        with_value(data, key, value)
    }
}

/// The keyspace after keys were set to strings, one after the other.
pub open spec fn with_strings(
    data: Map<Seq<u8>, Datum>,
    pairs: Seq<(Seq<u8>, Seq<u8>)>,
) -> Map<Seq<u8>, Datum>
    decreases pairs.len(),
{
    if pairs.len() == 0 {
        data
    } else {
        with_strings(data, pairs.drop_last()).insert(
            pairs.last().0,
            Datum { value: ValueView::Str(pairs.last().1), expires_at_ms: None },
        )
    }
}

/// What a command does to the keyspace that clients see, if nothing is evicted.
pub open spec fn effect(
    data: Map<Seq<u8>, Datum>,
    cmd: CommandView,
    now: u64,
) -> Map<Seq<u8>, Datum> {
    match cmd {
        CommandView::SetKey { key, value, expires_at_ms, nx, xx } => if set_allowed(
            data.contains_key(key),
            nx,
            xx,
        ) {
            with_datum(data, key, Datum { value: ValueView::Str(value), expires_at_ms }, now)
        } else {
            data
        },
        CommandView::Del(keys) => data.remove_keys(keys.to_set()),
        CommandView::Expire { key, at_ms } => if !data.contains_key(key) {
            data
        } else if at_ms <= now as i64 {
            data.remove(key)
        } else {
            with_datum(
                data,
                key,
                Datum { value: data[key].value, expires_at_ms: Some(at_ms as u64) },
                now,
            )
        },
        CommandView::Persist(key) => if data.contains_key(key) {
            data.insert(key, Datum { value: data[key].value, expires_at_ms: None })
        } else {
            data
        },
        CommandView::Incr(key) => with_value(data, key, increased(seen(data, key), 1).value),
        CommandView::Decr(key) => with_value(data, key, increased(seen(data, key), -1).value),
        CommandView::IncrBy(key, n) => with_value(
            data,
            key,
            increased(seen(data, key), n as int).value,
        ),
        CommandView::DecrBy(key, n) => with_value(
            data,
            key,
            increased(seen(data, key), -(n as int)).value,
        ),
        CommandView::Append(key, suffix) => with_value(
            data,
            key,
            appended(seen(data, key), suffix).value,
        ),
        CommandView::MSet(pairs) => with_strings(data, pairs),
        CommandView::FlushAll => Map::empty(),
        CommandView::Push { key, items, front } => with_value(
            data,
            key,
            list_pushed(seen(data, key), items, front).value,
        ),
        CommandView::HSet(key, pairs) => with_value(
            data,
            key,
            fields_set(seen(data, key), pairs).value,
        ),
        CommandView::SAdd(key, more) => with_value(
            data,
            key,
            members_added(seen(data, key), more).value,
        ),
        CommandView::Pop { key, front } => match seen(data, key) {
            Some(v) => with_less(data, key, list_popped(v, front).value),
            None => data,
        },
        CommandView::HDel(key, names) => match seen(data, key) {
            Some(v) => with_less(data, key, fields_removed(v, names).value),
            None => data,
        },
        CommandView::SRem(key, names) => match seen(data, key) {
            Some(v) => with_less(data, key, members_removed(v, names).value),
            None => data,
        },
        CommandView::ZAdd(key, pairs) => with_value(
            data,
            key,
            scores_set(seen(data, key), pairs).value,
        ),
        CommandView::ZRem(key, names) => match seen(data, key) {
            Some(v) => with_less(data, key, scores_removed(v, names).value),
            None => data,
        },
        _ => data,
    }
}

proof fn lemma_purge(s: StoreView, key: Seq<u8>, now: u64)
    requires
        s.shards.len() == NUM_SHARDS,
    ensures
        visible(s.purge(key, now), now) == visible(s, now),
        s.purge(key, now).shards.len() == NUM_SHARDS,
{
    assert(visible(s.purge(key, now), now) =~= visible(s, now));
}

proof fn lemma_touch(s: StoreView, key: Seq<u8>, now: u64)
    requires
        s.shards.len() == NUM_SHARDS,
    ensures
        visible(s.touch(key, now), now) == visible(s, now),
        s.touch(key, now).shards.len() == NUM_SHARDS,
{
    assert(visible(s.touch(key, now), now) =~= visible(s, now));
}

proof fn lemma_drop(s: StoreView, key: Seq<u8>, now: u64)
    requires
        s.shards.len() == NUM_SHARDS,
    ensures
        visible(s.drop_key(key), now) == visible(s, now).remove(key),
        s.drop_key(key).shards.len() == NUM_SHARDS,
{
    assert(visible(s.drop_key(key), now) =~= visible(s, now).remove(key));
}

/// Eviction shows clients nothing new, and without a limit it does nothing.
proof fn lemma_settles(s: StoreView, key: Seq<u8>, now: u64, after: StoreView)
    requires
        s.shards.len() == NUM_SHARDS,
        s.settles(key, after),
    ensures
        after.shards.len() == NUM_SHARDS,
        after.max_keys_per_shard == s.max_keys_per_shard,
        visible(after, now).submap_of(visible(s, now)),
        s.max_keys_per_shard is None ==> visible(after, now) == visible(s, now),
{
    let shard = choose|shard: ShardView| #[trigger]
        cut(s.home(key), key, s.max_keys_per_shard, shard) && after == s.with_home(key, shard);
    let full = s.home(key);
    assert forall|k: Seq<u8>| #[trigger] visible(after, now).dom().contains(k) implies visible(
        s,
        now,
    ).dom().contains(k) && visible(after, now)[k] == visible(s, now)[k] by {
        assert(after.holds(k, now));
        if shard_of(k) == shard_of(key) {
            assert(shard.entries.dom().contains(k));
            assert(full.entries.dom().contains(k));
            assert(shard.entries[k] == full.entries[k]);
        }
        assert(s.holds(k, now));
    }
    if s.max_keys_per_shard is None {
        assert(shard == full);
        assert(after.shards =~= s.shards);
    }
}

proof fn lemma_changes(s: StoreView, key: Seq<u8>, now: u64, value: ValueView, after: StoreView)
    requires
        s.shards.len() == NUM_SHARDS,
        s.changes(key, now, value, after),
    ensures
        after.shards.len() == NUM_SHARDS,
        after.max_keys_per_shard == s.max_keys_per_shard,
        visible(after, now).submap_of(with_value(visible(s, now), key, value)),
        s.max_keys_per_shard is None ==> visible(after, now) == with_value(
            visible(s, now),
            key,
            value,
        ),
{
    assert(visible(s.change(key, now, value), now) =~= with_value(visible(s, now), key, value));
    lemma_settles(s.change(key, now, value), key, now, after);
}

proof fn lemma_edit(s: StoreView, key: Seq<u8>, now: u64, value: ValueView)
    requires
        s.shards.len() == NUM_SHARDS,
        s.holds(key, now),
    ensures
        visible(s.edit(key, now, value), now) == with_less(visible(s, now), key, value),
{
    assert(visible(s.edit(key, now, value), now) =~= with_less(visible(s, now), key, value));
}

proof fn lemma_expire(s: StoreView, key: Seq<u8>, at_ms: i64, now: u64)
    requires
        s.shards.len() == NUM_SHARDS,
    ensures
        visible(s.expire(key, at_ms, now), now) == effect(
            visible(s, now),
            CommandView::Expire { key, at_ms },
            now,
        ),
{
    assert(visible(s.expire(key, at_ms, now), now) =~= effect(
        visible(s, now),
        CommandView::Expire { key, at_ms },
        now,
    ));
}

proof fn lemma_persist(s: StoreView, key: Seq<u8>, now: u64)
    requires
        s.shards.len() == NUM_SHARDS,
    ensures
        visible(s.persist(key, now), now) == effect(
            visible(s, now),
            CommandView::Persist(key),
            now,
        ),
{
    assert(visible(s.persist(key, now), now) =~= effect(
        visible(s, now),
        CommandView::Persist(key),
        now,
    ));
}

pub(crate) proof fn lemma_purge_all(s: StoreView, keys: Seq<Seq<u8>>, now: u64)
    requires
        s.shards.len() == NUM_SHARDS,
    ensures
        visible(s.purge_all(keys, now), now) == visible(s, now),
        s.purge_all(keys, now).shards.len() == NUM_SHARDS,
    decreases keys.len(),
{
    if keys.len() > 0 {
        lemma_purge_all(s, keys.drop_last(), now);
        lemma_purge(s.purge_all(keys.drop_last(), now), keys.last(), now);
    }
}

proof fn lemma_touch_all(s: StoreView, keys: Seq<Seq<u8>>, now: u64)
    requires
        s.shards.len() == NUM_SHARDS,
    ensures
        visible(s.touch_all(keys, now), now) == visible(s, now),
        s.touch_all(keys, now).shards.len() == NUM_SHARDS,
    decreases keys.len(),
{
    if keys.len() > 0 {
        lemma_touch_all(s, keys.drop_last(), now);
        lemma_touch(s.touch_all(keys.drop_last(), now), keys.last(), now);
    }
}

pub(crate) proof fn lemma_drop_all(s: StoreView, keys: Seq<Seq<u8>>, now: u64)
    requires
        s.shards.len() == NUM_SHARDS,
    ensures
        visible(s.drop_all(keys), now) == visible(s, now).remove_keys(keys.to_set()),
        s.drop_all(keys).shards.len() == NUM_SHARDS,
    decreases keys.len(),
{
    if keys.len() == 0 {
        assert(visible(s, now) =~= visible(s, now).remove_keys(keys.to_set()));
    } else {
        let front = keys.drop_last();
        lemma_drop_all(s, front, now);
        lemma_drop(s.drop_all(front), keys.last(), now);
        assert(front.push(keys.last()) =~= keys);
        front.lemma_push_to_set_commute(keys.last());
        assert(visible(s.drop_all(keys), now) =~= visible(s, now).remove_keys(keys.to_set()));
    }
}

proof fn lemma_flushed(s: StoreView, now: u64)
    requires
        s.shards.len() == NUM_SHARDS,
    ensures
        visible(s.flushed(), now) == Map::<Seq<u8>, Datum>::empty(),
{
    assert(visible(s.flushed(), now) =~= Map::<Seq<u8>, Datum>::empty());
}

proof fn lemma_sets(
    s: StoreView,
    key: Seq<u8>,
    entry: EntryView,
    nx: bool,
    xx: bool,
    now: u64,
    after: StoreView,
)
    requires
        s.shards.len() == NUM_SHARDS,
        s.sets(key, entry, nx, xx, now, after),
    ensures
        after.shards.len() == NUM_SHARDS,
        after.max_keys_per_shard == s.max_keys_per_shard,
        ({
            let want = if set_allowed(s.holds(key, now), nx, xx) {
                with_datum(
                    visible(s, now),
                    key,
                    Datum { value: entry.value, expires_at_ms: entry.expires_at_ms },
                    now,
                )
            } else {
                visible(s, now)
            };
            &&& visible(after, now).submap_of(want)
            &&& s.max_keys_per_shard is None ==> visible(after, now) == want
        }),
{
    let done = set_allowed(s.holds(key, now), nx, xx);
    let shard = choose|shard: ShardView| #[trigger]
        set_effect(s.home(key), key, entry, done, s.max_keys_per_shard, now, shard) && after
            == s.with_home(key, shard);
    if !done {
        lemma_purge(s, key, now);
    } else {
        let full = s.home(key).purge(key, now).put(key, entry);
        let datum = Datum { value: entry.value, expires_at_ms: entry.expires_at_ms };
        let want = with_datum(visible(s, now), key, datum, now);
        let got = visible(s.with_home(key, full), now);
        assert(got =~= want);
        assert forall|k: Seq<u8>| #[trigger] visible(after, now).dom().contains(
            k,
        ) implies want.dom().contains(k) && visible(after, now)[k] == want[k] by {
            assert(after.holds(k, now));
            if shard_of(k) == shard_of(key) {
                assert(shard.entries.dom().contains(k));
                assert(full.entries.dom().contains(k));
                assert(shard.entries[k] == full.entries[k]);
            }
            assert(s.with_home(key, full).holds(k, now));
            assert(got.dom().contains(k));
        }
        if s.max_keys_per_shard is None {
            assert(shard.entries == full.entries);
            assert(visible(after, now) =~= want);
        }
    }
}

proof fn lemma_strings_grow(
    small: Map<Seq<u8>, Datum>,
    large: Map<Seq<u8>, Datum>,
    key: Seq<u8>,
    datum: Datum,
)
    requires
        small.submap_of(large),
    ensures
        small.insert(key, datum).submap_of(large.insert(key, datum)),
{
    assert forall|k: Seq<u8>| #[trigger] small.insert(key, datum).dom().contains(
        k,
    ) implies large.insert(key, datum).dom().contains(k) && small.insert(key, datum)[k]
        == large.insert(key, datum)[k] by {
        if k != key {
            assert(small.dom().contains(k));
            assert(large.dom().contains(k));
        }
    }
}

proof fn lemma_submap_chain(
    a: Map<Seq<u8>, Datum>,
    b: Map<Seq<u8>, Datum>,
    c: Map<Seq<u8>, Datum>,
)
    requires
        a.submap_of(b),
        b.submap_of(c),
    ensures
        a.submap_of(c),
{
    assert forall|k: Seq<u8>| #[trigger] a.dom().contains(k) implies c.dom().contains(k)
        && a[k] == c[k] by {
        assert(b.dom().contains(k));
        assert(c.dom().contains(k));
    }
}

pub(crate) proof fn lemma_msets(
    s: StoreView,
    states: Seq<StoreView>,
    pairs: Seq<(Seq<u8>, Seq<u8>)>,
    n: int,
    now: u64,
)
    requires
        s.shards.len() == NUM_SHARDS,
        mset_states(states, pairs, now),
        states.first() == s,
        0 <= n <= pairs.len(),
    ensures
        states[n].shards.len() == NUM_SHARDS,
        states[n].max_keys_per_shard == s.max_keys_per_shard,
        visible(states[n], now).submap_of(with_strings(visible(s, now), pairs.take(n))),
        s.max_keys_per_shard is None ==> visible(states[n], now) == with_strings(
            visible(s, now),
            pairs.take(n),
        ),
    decreases n,
{
    if n == 0 {
        assert(pairs.take(0) =~= Seq::<(Seq<u8>, Seq<u8>)>::empty());
    } else {
        lemma_msets(s, states, pairs, n - 1, now);
        let (key, data) = pairs[n - 1];
        let before = states[n - 1];
        let front = pairs.take(n - 1);
        let entry = string_entry(data);
        let datum = Datum { value: entry.value, expires_at_ms: entry.expires_at_ms };
        assert(before.sets(key, entry, false, false, now, states[n]));
        lemma_sets(before, key, entry, false, false, now, states[n]);
        assert(pairs.take(n).drop_last() =~= front);
        assert(pairs.take(n).last() == pairs[n - 1]);
        let large = with_strings(visible(s, now), front);
        lemma_strings_grow(visible(before, now), large, key, datum);
        lemma_submap_chain(
            visible(states[n], now),
            visible(before, now).insert(key, datum),
            large.insert(key, datum),
        );
    }
}

/// Whether a command can bring new keys into the keyspace.
pub open spec fn may_grow(cmd: CommandView) -> bool {
    match cmd {
        CommandView::SetKey { .. }
        | CommandView::MSet(_)
        | CommandView::Incr(_)
        | CommandView::Decr(_)
        | CommandView::IncrBy(_, _)
        | CommandView::DecrBy(_, _)
        | CommandView::Append(_, _)
        | CommandView::Push { .. }
        | CommandView::HSet(_, _)
        | CommandView::SAdd(_, _)
        | CommandView::ZAdd(_, _) => true,
        _ => false,
    }
}

/// Executing a command changes what clients see of the keyspace exactly as
/// [`effect`] says, but that a limit on the keys of a shard may evict some.
pub proof fn law_commands_have_their_effect(
    before: StoreView,
    channels: Set<Seq<u8>>,
    cmd: CommandView,
    now: u64,
    reply: ReplyView,
    after: StoreView,
)
    requires
        before.shards.len() == NUM_SHARDS,
        outcome(before, channels, cmd, now, reply, after),
    ensures
        after.shards.len() == NUM_SHARDS,
        after.max_keys_per_shard == before.max_keys_per_shard,
        visible(after, now).submap_of(effect(visible(before, now), cmd, now)),
        before.max_keys_per_shard is None || !may_grow(cmd) ==> visible(after, now) == effect(
            visible(before, now),
            cmd,
            now,
        ),
{
    let data = visible(before, now);
    match cmd {
        CommandView::SetKey { key, value, expires_at_ms, nx, xx } => {
            lemma_sets(
                before,
                key,
                EntryView { value: ValueView::Str(value), expires_at_ms, last_access: 0 },
                nx,
                xx,
                now,
                after,
            );
        },
        CommandView::MSet(pairs) => {
            let states = choose|states: Seq<StoreView>| #[trigger]
                mset_states(states, pairs, now) && states.first() == before && states.last()
                    == after;
            lemma_msets(before, states, pairs, pairs.len() as int, now);
            assert(pairs.take(pairs.len() as int) =~= pairs);
        },
        CommandView::Get(key)
        | CommandView::LRange { key, .. }
        | CommandView::LLen(key)
        | CommandView::HGet(key, _)
        | CommandView::HGetAll(key)
        | CommandView::HExists(key, _)
        | CommandView::SMembers(key)
        | CommandView::SIsMember(key, _)
        | CommandView::ZRange { key, .. }
        | CommandView::ZScore(key, _) => {
            lemma_touch(before, key, now);
        },
        CommandView::Ttl { key, .. } | CommandView::Type(key) => {
            lemma_purge(before, key, now);
        },
        CommandView::Del(keys) => {
            lemma_drop_all(before, keys, now);
            lemma_drop_all_keeps_limit(before, keys);
        },
        CommandView::Exists(keys) => {
            lemma_purge_all(before, keys, now);
            lemma_purge_all_keeps_limit(before, keys, now);
        },
        CommandView::MGet(keys) => {
            lemma_touch_all(before, keys, now);
            lemma_touch_all_keeps_limit(before, keys, now);
        },
        CommandView::Expire { key, at_ms } => {
            lemma_expire(before, key, at_ms, now);
        },
        CommandView::Persist(key) => {
            lemma_persist(before, key, now);
        },
        CommandView::FlushAll => {
            lemma_flushed(before, now);
        },
        CommandView::Incr(key) => {
            lemma_changes(before, key, now, increased(before.value(key, now), 1).value, after);
        },
        CommandView::Decr(key) => {
            lemma_changes(before, key, now, increased(before.value(key, now), -1).value, after);
        },
        CommandView::IncrBy(key, n) => {
            lemma_changes(before, key, now, increased(before.value(key, now), n as int).value, after);
        },
        CommandView::DecrBy(key, n) => {
            let delta = -(n as int);
            lemma_changes(before, key, now, increased(before.value(key, now), delta).value, after);
        },
        CommandView::Append(key, suffix) => {
            lemma_changes(before, key, now, appended(before.value(key, now), suffix).value, after);
        },
        CommandView::Push { key, items, front } => {
            lemma_changes(before, key, now, list_pushed(before.value(key, now), items, front).value, after);
        },
        CommandView::HSet(key, pairs) => {
            lemma_changes(before, key, now, fields_set(before.value(key, now), pairs).value, after);
        },
        CommandView::SAdd(key, more) => {
            lemma_changes(before, key, now, members_added(before.value(key, now), more).value, after);
        },
        CommandView::Pop { key, front } => {
            match before.value(key, now) {
                Some(v) => lemma_edit(before, key, now, list_popped(v, front).value),
                None => lemma_purge(before, key, now),
            }
        },
        CommandView::HDel(key, names) => {
            match before.value(key, now) {
                Some(v) => lemma_edit(before, key, now, fields_removed(v, names).value),
                None => lemma_purge(before, key, now),
            }
        },
        CommandView::SRem(key, names) => {
            match before.value(key, now) {
                Some(v) => lemma_edit(before, key, now, members_removed(v, names).value),
                None => lemma_purge(before, key, now),
            }
        },
        CommandView::ZAdd(key, pairs) => {
            let value = scores_set(before.value(key, now), pairs).value;
            lemma_changes(before, key, now, value, after);
        },
        CommandView::ZRem(key, names) => {
            match before.value(key, now) {
                Some(v) => lemma_edit(before, key, now, scores_removed(v, names).value),
                None => lemma_purge(before, key, now),
            }
        },
        _ => {},
    }
}

proof fn lemma_drop_all_keeps_limit(s: StoreView, keys: Seq<Seq<u8>>)
    ensures
        s.drop_all(keys).max_keys_per_shard == s.max_keys_per_shard,
    decreases keys.len(),
{
    if keys.len() > 0 {
        lemma_drop_all_keeps_limit(s, keys.drop_last());
    }
}

proof fn lemma_purge_all_keeps_limit(s: StoreView, keys: Seq<Seq<u8>>, now: u64)
    ensures
        s.purge_all(keys, now).max_keys_per_shard == s.max_keys_per_shard,
    decreases keys.len(),
{
    if keys.len() > 0 {
        lemma_purge_all_keeps_limit(s, keys.drop_last(), now);
    }
}

proof fn lemma_touch_all_keeps_limit(s: StoreView, keys: Seq<Seq<u8>>, now: u64)
    ensures
        s.touch_all(keys, now).max_keys_per_shard == s.max_keys_per_shard,
    decreases keys.len(),
{
    if keys.len() > 0 {
        lemma_touch_all_keeps_limit(s, keys.drop_last(), now);
    }
}

/// A command that is no write leaves everything that clients see as it was.
pub proof fn law_reads_change_nothing(
    before: StoreView,
    channels: Set<Seq<u8>>,
    cmd: CommandView,
    now: u64,
    reply: ReplyView,
    after: StoreView,
)
    requires
        before.shards.len() == NUM_SHARDS,
        outcome(before, channels, cmd, now, reply, after),
        !cmd.is_write(),
    ensures
        visible(after, now) == visible(before, now),
{
    law_commands_have_their_effect(before, channels, cmd, now, reply, after);
}

proof fn lemma_strings_frame(
    data: Map<Seq<u8>, Datum>,
    pairs: Seq<(Seq<u8>, Seq<u8>)>,
    key: Seq<u8>,
)
    requires
        forall|i: int| 0 <= i < pairs.len() ==> (#[trigger] pairs[i]).0 != key,
    ensures
        with_strings(data, pairs).contains_key(key) == data.contains_key(key),
        data.contains_key(key) ==> with_strings(data, pairs)[key] == data[key],
    decreases pairs.len(),
{
    if pairs.len() > 0 {
        lemma_strings_frame(data, pairs.drop_last(), key);
        assert(pairs[pairs.len() - 1].0 != key);
    }
}

/// A command touches no key but those that it names; only `FLUSHALL` names none
/// and means all.
pub proof fn law_other_keys_stay(
    data: Map<Seq<u8>, Datum>,
    cmd: CommandView,
    now: u64,
    key: Seq<u8>,
)
    requires
        !cmd.keys().contains(key),
        !(cmd is FlushAll),
    ensures
        effect(data, cmd, now).contains_key(key) == data.contains_key(key),
        data.contains_key(key) ==> effect(data, cmd, now)[key] == data[key],
{
    let keys = cmd.keys();
    match cmd {
        CommandView::MSet(pairs) => {
            assert forall|i: int| 0 <= i < pairs.len() implies (#[trigger] pairs[i]).0 != key by {
                assert(keys[i] == pairs[i].0);
            }
            lemma_strings_frame(data, pairs, key);
        },
        CommandView::Del(names) => {
            assert(!names.to_set().contains(key));
        },
        _ => {
            if keys.len() == 1 {
                assert(keys[0] != key);
            }
        },
    }
}

/// The value of a key, as clients see it.
pub proof fn law_value_is_seen(store: StoreView, key: Seq<u8>, now: u64)
    ensures
        store.value(key, now) == seen(visible(store, now), key),
        store.holds(key, now) == visible(store, now).contains_key(key),
{
}

/// What was set is what is read back, until the key expires; only a limit of no
/// keys at all can take it away before.
pub proof fn law_get_gives_back_what_was_set(
    before: StoreView,
    channels: Set<Seq<u8>>,
    key: Seq<u8>,
    value: Seq<u8>,
    expires_at_ms: Option<u64>,
    nx: bool,
    xx: bool,
    now: u64,
    set_reply: ReplyView,
    mid: StoreView,
    later: u64,
    get: ReplyView,
    after: StoreView,
)
    requires
        before.shards.len() == NUM_SHARDS,
        before.max_keys_per_shard != Some(0usize),
        outcome(
            before,
            channels,
            CommandView::SetKey { key, value, expires_at_ms, nx, xx },
            now,
            set_reply,
            mid,
        ),
        set_reply == ok_reply(),
        now <= later,
        expires_at_ms matches Some(at) ==> later < at,
        outcome(mid, channels, CommandView::Get(key), later, get, after),
    ensures
        get == ReplyView::Bulk(value),
{
    law_set_key_survives_eviction(
        before,
        channels,
        key,
        value,
        expires_at_ms,
        nx,
        xx,
        now,
        set_reply,
        mid,
    );
}

/// Whether no shard has more than `max` keys.
pub open spec fn within(store: StoreView, max: usize) -> bool {
    forall|i: int|
        0 <= i < store.shards.len() ==> (#[trigger] store.shards[i]).entries.dom().finite()
            && store.shards[i].entries.dom().len() <= max
}

/// Whether every shard of `after` has only keys that it has in `before`.
spec fn shrinks(before: StoreView, after: StoreView) -> bool {
    &&& after.shards.len() == before.shards.len()
    &&& forall|i: int|
        0 <= i < before.shards.len() ==> (#[trigger] after.shards[i]).entries.dom().subset_of(
            before.shards[i].entries.dom(),
        )
}

proof fn lemma_shrinks_within(before: StoreView, after: StoreView, max: usize)
    requires
        shrinks(before, after),
        within(before, max),
    ensures
        within(after, max),
{
    assert forall|i: int| 0 <= i < after.shards.len() implies (
    #[trigger] after.shards[i]).entries.dom().finite() && after.shards[i].entries.dom().len()
        <= max by {
        let large = before.shards[i].entries.dom();
        let small = after.shards[i].entries.dom();
        assert(small.subset_of(large));
        vstd::set_lib::lemma_set_subset_finite(large, small);
        vstd::set_lib::lemma_len_subset(small, large);
    }
}

proof fn lemma_home_shrinks(s: StoreView, key: Seq<u8>, shard: ShardView)
    requires
        s.shards.len() == NUM_SHARDS,
        shard.entries.dom().subset_of(s.home(key).entries.dom()),
    ensures
        shrinks(s, s.with_home(key, shard)),
        s.with_home(key, shard).shards.len() == NUM_SHARDS,
{
    assert forall|i: int| 0 <= i < s.shards.len() implies (#[trigger] s.with_home(
        key,
        shard,
    ).shards[i]).entries.dom().subset_of(s.shards[i].entries.dom()) by {}
}

proof fn lemma_purge_shrinks(s: StoreView, key: Seq<u8>, now: u64)
    requires
        s.shards.len() == NUM_SHARDS,
    ensures
        shrinks(s, s.purge(key, now)),
{
    lemma_home_shrinks(s, key, s.home(key).purge(key, now));
}

proof fn lemma_touch_shrinks(s: StoreView, key: Seq<u8>, now: u64)
    requires
        s.shards.len() == NUM_SHARDS,
    ensures
        shrinks(s, s.touch(key, now)),
{
    lemma_home_shrinks(s, key, s.home(key).touch(key, now));
}

proof fn lemma_shrinks_chain(a: StoreView, b: StoreView, c: StoreView)
    requires
        shrinks(a, b),
        shrinks(b, c),
    ensures
        shrinks(a, c),
{
    assert forall|i: int| 0 <= i < a.shards.len() implies (
    #[trigger] c.shards[i]).entries.dom().subset_of(a.shards[i].entries.dom()) by {
        assert(c.shards[i].entries.dom().subset_of(b.shards[i].entries.dom()));
        assert(b.shards[i].entries.dom().subset_of(a.shards[i].entries.dom()));
    }
}

proof fn lemma_all_shrink(s: StoreView, keys: Seq<Seq<u8>>, now: u64)
    requires
        s.shards.len() == NUM_SHARDS,
    ensures
        shrinks(s, s.purge_all(keys, now)),
        shrinks(s, s.touch_all(keys, now)),
        shrinks(s, s.drop_all(keys)),
    decreases keys.len(),
{
    if keys.len() > 0 {
        let front = keys.drop_last();
        let key = keys.last();
        lemma_all_shrink(s, front, now);
        lemma_purge_shrinks(s.purge_all(front, now), key, now);
        lemma_shrinks_chain(s, s.purge_all(front, now), s.purge_all(keys, now));
        lemma_touch_shrinks(s.touch_all(front, now), key, now);
        lemma_shrinks_chain(s, s.touch_all(front, now), s.touch_all(keys, now));
        let dropped = s.drop_all(front);
        lemma_home_shrinks(dropped, key, dropped.home(key).drop_key(key));
        lemma_shrinks_chain(s, dropped, s.drop_all(keys));
    }
}

proof fn lemma_edit_shrinks(s: StoreView, key: Seq<u8>, now: u64, value: ValueView)
    requires
        s.shards.len() == NUM_SHARDS,
        s.holds(key, now),
    ensures
        shrinks(s, s.edit(key, now, value)),
{
    lemma_home_shrinks(s, key, s.home(key).edit(key, now, value));
}

/// Eviction leaves the shard of the key within the limit, and the others alone.
proof fn lemma_settles_within(s: StoreView, key: Seq<u8>, after: StoreView, max: usize)
    requires
        s.shards.len() == NUM_SHARDS,
        s.max_keys_per_shard == Some(max),
        s.settles(key, after),
        s.home(key).entries.dom().finite(),
        forall|i: int|
            0 <= i < NUM_SHARDS && i != shard_of(key) ==> (
            #[trigger] s.shards[i]).entries.dom().finite() && s.shards[i].entries.dom().len()
                <= max,
    ensures
        within(after, max),
        after.shards.len() == NUM_SHARDS,
        after.max_keys_per_shard == Some(max),
{
    let shard = choose|shard: ShardView| #[trigger]
        cut(s.home(key), key, s.max_keys_per_shard, shard) && after == s.with_home(key, shard);
    let full = s.home(key);
    assert(shard.entries.dom().subset_of(full.entries.dom()));
    vstd::set_lib::lemma_set_subset_finite(full.entries.dom(), shard.entries.dom());
    assert forall|i: int| 0 <= i < after.shards.len() implies (
    #[trigger] after.shards[i]).entries.dom().finite() && after.shards[i].entries.dom().len()
        <= max by {
        if i != shard_of(key) {
            assert(after.shards[i] == s.shards[i]);
        }
    }
}

proof fn lemma_changes_within(
    s: StoreView,
    key: Seq<u8>,
    now: u64,
    value: ValueView,
    after: StoreView,
    max: usize,
)
    requires
        s.shards.len() == NUM_SHARDS,
        s.max_keys_per_shard == Some(max),
        within(s, max),
        s.changes(key, now, value, after),
    ensures
        within(after, max),
{
    let full = s.change(key, now, value);
    assert(s.shards[shard_of(key)].entries.dom().finite());
    assert(full.home(key).entries.dom() =~= s.home(key).entries.dom().insert(key));
    assert forall|i: int| 0 <= i < NUM_SHARDS && i != shard_of(key) implies (
    #[trigger] full.shards[i]).entries.dom().finite() && full.shards[i].entries.dom().len()
        <= max by {
        assert(full.shards[i] == s.shards[i]);
    }
    lemma_settles_within(full, key, after, max);
}

proof fn lemma_sets_within(
    s: StoreView,
    key: Seq<u8>,
    entry: EntryView,
    nx: bool,
    xx: bool,
    now: u64,
    after: StoreView,
    max: usize,
)
    requires
        s.shards.len() == NUM_SHARDS,
        s.max_keys_per_shard == Some(max),
        within(s, max),
        s.sets(key, entry, nx, xx, now, after),
    ensures
        within(after, max),
        after.shards.len() == NUM_SHARDS,
        after.max_keys_per_shard == Some(max),
{
    let done = set_allowed(s.holds(key, now), nx, xx);
    let shard = choose|shard: ShardView| #[trigger]
        set_effect(s.home(key), key, entry, done, s.max_keys_per_shard, now, shard) && after
            == s.with_home(key, shard);
    if !done {
        lemma_purge_shrinks(s, key, now);
        lemma_shrinks_within(s, after, max);
    } else {
        let full = s.with_home(key, s.home(key).purge(key, now).put(key, entry));
        assert(s.shards[shard_of(key)].entries.dom().finite());
        assert(full.home(key).entries.dom() =~= s.home(key).entries.dom().insert(key));
        assert forall|i: int| 0 <= i < NUM_SHARDS && i != shard_of(key) implies (
        #[trigger] full.shards[i]).entries.dom().finite() && full.shards[i].entries.dom().len()
            <= max by {
            assert(full.shards[i] == s.shards[i]);
        }
        assert(after.shards =~= full.with_home(key, shard).shards);
        assert(full.settles(key, after));
        lemma_settles_within(full, key, after, max);
    }
}

proof fn lemma_msets_within(
    states: Seq<StoreView>,
    pairs: Seq<(Seq<u8>, Seq<u8>)>,
    n: int,
    now: u64,
    max: usize,
)
    requires
        mset_states(states, pairs, now),
        states.first().shards.len() == NUM_SHARDS,
        states.first().max_keys_per_shard == Some(max),
        within(states.first(), max),
        0 <= n <= pairs.len(),
    ensures
        within(states[n], max),
        states[n].shards.len() == NUM_SHARDS,
        states[n].max_keys_per_shard == Some(max),
    decreases n,
{
    if n > 0 {
        lemma_msets_within(states, pairs, n - 1, now, max);
        let (key, data) = pairs[n - 1];
        let before = states[n - 1];
        assert(before.sets(key, string_entry(data), false, false, now, states[n]));
        lemma_sets_within(before, key, string_entry(data), false, false, now, states[n], max);
    }
}

/// Whatever command is executed, no shard gets more keys than the limit says.
pub proof fn law_eviction_bounds_every_shard(
    before: StoreView,
    channels: Set<Seq<u8>>,
    cmd: CommandView,
    now: u64,
    reply: ReplyView,
    after: StoreView,
    max: usize,
)
    requires
        before.shards.len() == NUM_SHARDS,
        before.max_keys_per_shard == Some(max),
        within(before, max),
        outcome(before, channels, cmd, now, reply, after),
    ensures
        within(after, max),
{
    match cmd {
        CommandView::SetKey { key, value, expires_at_ms, nx, xx } => {
            let entry = EntryView { value: ValueView::Str(value), expires_at_ms, last_access: 0 };
            lemma_sets_within(before, key, entry, nx, xx, now, after, max);
        },
        CommandView::MSet(pairs) => {
            let states = choose|states: Seq<StoreView>| #[trigger]
                mset_states(states, pairs, now) && states.first() == before && states.last()
                    == after;
            lemma_msets_within(states, pairs, pairs.len() as int, now, max);
        },
        CommandView::Incr(key) => {
            let value = increased(before.value(key, now), 1).value;
            lemma_changes_within(before, key, now, value, after, max);
        },
        CommandView::Decr(key) => {
            let value = increased(before.value(key, now), -1).value;
            lemma_changes_within(before, key, now, value, after, max);
        },
        CommandView::IncrBy(key, n) => {
            let value = increased(before.value(key, now), n as int).value;
            lemma_changes_within(before, key, now, value, after, max);
        },
        CommandView::DecrBy(key, n) => {
            let value = increased(before.value(key, now), -(n as int)).value;
            lemma_changes_within(before, key, now, value, after, max);
        },
        CommandView::Append(key, suffix) => {
            let value = appended(before.value(key, now), suffix).value;
            lemma_changes_within(before, key, now, value, after, max);
        },
        CommandView::Push { key, items, front } => {
            let value = list_pushed(before.value(key, now), items, front).value;
            lemma_changes_within(before, key, now, value, after, max);
        },
        CommandView::HSet(key, pairs) => {
            let value = fields_set(before.value(key, now), pairs).value;
            lemma_changes_within(before, key, now, value, after, max);
        },
        CommandView::SAdd(key, more) => {
            let value = members_added(before.value(key, now), more).value;
            lemma_changes_within(before, key, now, value, after, max);
        },
        CommandView::ZAdd(key, pairs) => {
            let value = scores_set(before.value(key, now), pairs).value;
            lemma_changes_within(before, key, now, value, after, max);
        },
        _ => {
            lemma_others_shrink(before, channels, cmd, now, reply, after);
            lemma_shrinks_within(before, after, max);
        },
    }
}

/// A command that cannot bring new keys brings none.
proof fn lemma_others_shrink(
    before: StoreView,
    channels: Set<Seq<u8>>,
    cmd: CommandView,
    now: u64,
    reply: ReplyView,
    after: StoreView,
)
    requires
        before.shards.len() == NUM_SHARDS,
        !may_grow(cmd),
        outcome(before, channels, cmd, now, reply, after),
    ensures
        shrinks(before, after),
{
    match cmd {
        CommandView::Get(key)
        | CommandView::LRange { key, .. }
        | CommandView::LLen(key)
        | CommandView::HGet(key, _)
        | CommandView::HGetAll(key)
        | CommandView::HExists(key, _)
        | CommandView::SMembers(key)
        | CommandView::SIsMember(key, _)
        | CommandView::ZRange { key, .. }
        | CommandView::ZScore(key, _) => {
            lemma_touch_shrinks(before, key, now);
        },
        CommandView::Ttl { key, .. } | CommandView::Type(key) => {
            lemma_purge_shrinks(before, key, now);
        },
        CommandView::Del(keys) | CommandView::Exists(keys) | CommandView::MGet(keys) => {
            lemma_all_shrink(before, keys, now);
        },
        CommandView::Expire { key, .. } | CommandView::Persist(key) => {
            assert(after == before.with_home(key, after.home(key)));
            lemma_home_shrinks(before, key, after.home(key));
        },
        CommandView::Pop { key, front } => {
            match before.value(key, now) {
                Some(v) => lemma_edit_shrinks(before, key, now, list_popped(v, front).value),
                None => lemma_purge_shrinks(before, key, now),
            }
        },
        CommandView::HDel(key, names) => {
            match before.value(key, now) {
                Some(v) => lemma_edit_shrinks(before, key, now, fields_removed(v, names).value),
                None => lemma_purge_shrinks(before, key, now),
            }
        },
        CommandView::SRem(key, names) => {
            match before.value(key, now) {
                Some(v) => lemma_edit_shrinks(before, key, now, members_removed(v, names).value),
                None => lemma_purge_shrinks(before, key, now),
            }
        },
        CommandView::ZRem(key, names) => {
            match before.value(key, now) {
                Some(v) => lemma_edit_shrinks(before, key, now, scores_removed(v, names).value),
                None => lemma_purge_shrinks(before, key, now),
            }
        },
        _ => {},
    }
}

/// A key is not evicted by its own setting, as long as the limit leaves room for
/// one key. Its shard is then within the limit, the other shards are as they
/// were, and nothing is evicted that would not exceed the limit.
pub proof fn law_set_key_survives_eviction(
    before: StoreView,
    channels: Set<Seq<u8>>,
    key: Seq<u8>,
    value: Seq<u8>,
    expires_at_ms: Option<u64>,
    nx: bool,
    xx: bool,
    now: u64,
    reply: ReplyView,
    after: StoreView,
)
    requires
        before.shards.len() == NUM_SHARDS,
        before.max_keys_per_shard != Some(0usize),
        outcome(
            before,
            channels,
            CommandView::SetKey { key, value, expires_at_ms, nx, xx },
            now,
            reply,
            after,
        ),
        reply == ok_reply(),
    ensures
        after.home(key).entries.contains_key(key),
        after.entry(key).value == ValueView::Str(value),
        after.entry(key).expires_at_ms == expires_at_ms,
        before.max_keys_per_shard matches Some(max) ==> after.home(key).entries.dom().len() <= max,
        forall|i: int|
            0 <= i < NUM_SHARDS && i != shard_of(key) ==> #[trigger] after.shards[i]
                == before.shards[i],
        (before.max_keys_per_shard matches Some(max) ==> before.home(key).entries.dom().insert(
            key,
        ).len() <= max) ==> after.home(key).entries.dom() == before.home(
            key,
        ).entries.dom().insert(key),
{
    let entry = EntryView { value: ValueView::Str(value), expires_at_ms, last_access: 0 };
    let done = set_allowed(before.holds(key, now), nx, xx);
    let shard = choose|shard: ShardView| #[trigger]
        set_effect(before.home(key), key, entry, done, before.max_keys_per_shard, now, shard)
            && after == before.with_home(key, shard);
    let full = before.home(key).purge(key, now).put(key, entry);
    assert(full.entries.dom() =~= before.home(key).entries.dom().insert(key));
    assert(full.entries.contains_key(key));
    assert(shard.entries.dom().contains(key));
    assert(full.entries.dom().contains(key));
    assert(shard.entries[key] == full.entries[key]);
}

/// A key whose value was changed in place, or that came into being so, is not
/// evicted by that, as long as the limit leaves room for one key. Its shard is
/// then within the limit, and the other shards are as they were.
pub proof fn law_changed_key_survives_eviction(
    before: StoreView,
    key: Seq<u8>,
    now: u64,
    value: ValueView,
    after: StoreView,
)
    requires
        before.shards.len() == NUM_SHARDS,
        before.max_keys_per_shard != Some(0usize),
        before.changes(key, now, value, after),
    ensures
        after.home(key).entries.contains_key(key),
        after.entry(key).value == value,
        before.max_keys_per_shard matches Some(max) ==> after.home(key).entries.dom().len() <= max,
        forall|i: int|
            0 <= i < NUM_SHARDS && i != shard_of(key) ==> #[trigger] after.shards[i]
                == before.shards[i],
        (before.max_keys_per_shard matches Some(max) ==> before.home(key).entries.dom().insert(
            key,
        ).len() <= max) ==> after.home(key).entries.dom() == before.home(
            key,
        ).entries.dom().insert(key),
{
    let mid = before.change(key, now, value);
    let full = mid.home(key);
    let shard = choose|shard: ShardView| #[trigger]
        cut(full, key, before.max_keys_per_shard, shard) && after == mid.with_home(key, shard);
    assert(full.entries.dom() =~= before.home(key).entries.dom().insert(key));
    assert(full.entries.contains_key(key));
    assert(shard.entries.dom().contains(key));
    assert(full.entries.dom().contains(key));
    assert(shard.entries[key] == full.entries[key]);
}

/// As time goes by, keys only become invisible: those whose expiry time comes,
/// and no others.
pub proof fn law_time_only_takes_away(store: StoreView, key: Seq<u8>, now: u64, later: u64)
    requires
        now <= later,
    ensures
        visible(store, later).contains_key(key) <==> visible(store, now).contains_key(key) && (
        visible(store, now)[key].expires_at_ms matches Some(at) ==> later < at),
        visible(store, later).contains_key(key) ==> visible(store, later)[key] == visible(
            store,
            now,
        )[key],
{
}

/// Active expiry is never seen: it removes only what clients do not see any
/// more.
pub proof fn law_active_expiry_is_not_seen(before: StoreView, now: u64, after: StoreView)
    requires
        before.shards.len() == NUM_SHARDS,
        before.sweeps(now, after),
    ensures
        visible(after, now) == visible(before, now),
{
    assert forall|k: Seq<u8>| #[trigger] visible(after, now).contains_key(k) <==> visible(
        before,
        now,
    ).contains_key(k) by {
        let i = shard_of(k);
        assert(shard_swept(before.shards[i], now, after.shards[i]));
    }
    assert forall|k: Seq<u8>| #[trigger] visible(after, now).contains_key(k) implies visible(
        after,
        now,
    )[k] == visible(before, now)[k] by {
        let i = shard_of(k);
        assert(shard_swept(before.shards[i], now, after.shards[i]));
    }
    assert(visible(after, now) =~= visible(before, now));
}

/// How many entries a round of active expiry has to pass before it comes to
/// `key`.
spec fn ahead(order: Seq<Seq<u8>>, cursor: usize, key: Seq<u8>) -> int {
    let n = order.len() as int;
    let d = order.index_of(key) - sweep_start(cursor, order.len());
    if d < 0 {
        d + n
    } else {
        d
    }
}

/// A round of active expiry removes an expired key, or comes nearer to it, or
/// removes others.
proof fn lemma_round_comes_nearer(
    before: ShardView,
    order: Seq<Seq<u8>>,
    now: u64,
    after: ShardView,
    next_order: Seq<Seq<u8>>,
    key: Seq<u8>,
)
    requires
        lists_keys(order, before.entries),
        before.entries.dom().finite(),
        order.len() <= usize::MAX,
        swept(before, order, now, after, next_order),
        before.entries.contains_key(key),
        before.entries[key].expired(now),
    ensures
        0 <= ahead(order, before.cursor, key) < order.len(),
        after.entries.contains_key(key) ==> after.entries.dom().len() < before.entries.dom().len()
            || (next_order == order && ahead(next_order, after.cursor, key) < ahead(
            order,
            before.cursor,
            key,
        )),
{
    let n = order.len() as int;
    let start = sweep_start(before.cursor, order.len());
    let d = ahead(order, before.cursor, key);
    let window = sweep_window(order, before.cursor);
    assert(order.to_set().contains(key));
    assert(order[order.index_of(key)] == key);
    if d < sweep_len(order.len()) {
        assert(wrapped(start + d, n) == order.index_of(key));
        assert(window[d] == key);
        assert(window.to_set().contains(key));
    }
    if after.entries == before.entries {
        assert(after.cursor == wrapped(start + sweep_len(order.len()), n));
    } else {
        assert(exists|k: Seq<u8>| #[trigger]
            before.entries.dom().contains(k) && !after.entries.dom().contains(k)) by {
            if forall|k: Seq<u8>| #[trigger]
                before.entries.dom().contains(k) ==> after.entries.dom().contains(k) {
                assert(after.entries =~= before.entries);
            }
        }
        let gone = choose|k: Seq<u8>| #[trigger]
            before.entries.dom().contains(k) && !after.entries.dom().contains(k);
        assert(after.entries.dom().subset_of(before.entries.dom().remove(gone)));
        vstd::set_lib::lemma_len_subset(after.entries.dom(), before.entries.dom().remove(gone));
    }
}

/// Whether `stores` are those that rounds of active expiry at the given times
/// make of the first, with nothing else in between.
pub open spec fn only_expiring(stores: Seq<Store>, times: Seq<u64>) -> bool {
    &&& stores.len() == times.len() + 1
    &&& forall|i: int| 0 <= i < stores.len() ==> (#[trigger] stores[i]).wf()
    &&& forall|i: int|
        0 <= i < times.len() ==> (#[trigger] stores[i]).swept_to(times[i], stores[i + 1])
}

proof fn lemma_lingering(stores: Seq<Store>, times: Seq<u64>, key: Seq<u8>, at: u64, i: int)
    requires
        only_expiring(stores, times),
        0 <= i < stores.len(),
        stores[i]@.home(key).entries.contains_key(key),
        stores.first()@.entry(key).expires_at_ms == Some(at),
        forall|j: int| 0 <= j < times.len() ==> at <= #[trigger] times[j],
    ensures
        stores.first()@.home(key).entries.contains_key(key),
        stores[i]@.entry(key) == stores.first()@.entry(key),
        ({
            let n = stores.first()@.home(key).entries.dom().len() as int;
            let left = stores[i]@.home(key).entries.dom().len() as int;
            let order = stores[i].order(shard_of(key));
            let d = ahead(order, stores[i]@.home(key).cursor, key);
            &&& left <= n
            &&& left == order.len()
            &&& 0 <= d < left
            &&& left * (n + 1) + d + i < n * (n + 2)
        }),
    decreases i,
{
    let home = shard_of(key);
    let n = stores.first()@.home(key).entries.dom().len() as int;
    assert(stores[i].wf());
    stores[i].lemma_routed();
    stores[i].lemma_order(home);
    let order = stores[i].order(home);
    let here = stores[i]@.shards[home];
    assert(order.to_set().contains(key));
    assert(order[order.index_of(key)] == key);
    let d = ahead(order, here.cursor, key);
    assert(0 <= d < order.len());
    if i == 0 {
        assert(n * (n + 1) + n == n * (n + 2)) by (nonlinear_arith);
    } else {
        let store = stores[i - 1];
        let now = times[i - 1];
        assert(store.wf());
        assert(store.swept_to(now, stores[i]));
        store.lemma_routed();
        store.lemma_order(home);
        let was = store@.shards[home];
        let old_order = store.order(home);
        assert(swept(was, old_order, now, stores[i]@.shards[home], order));
        assert(was.entries.contains_key(key));
        lemma_lingering(stores, times, key, at, i - 1);
        lemma_round_comes_nearer(was, old_order, now, here, order, key);
        let left = here.entries.dom().len() as int;
        let had = was.entries.dom().len() as int;
        let far = ahead(old_order, was.cursor, key);
        if left < had {
            assert(left * (n + 1) <= (had - 1) * (n + 1)) by (nonlinear_arith)
                requires
                    left <= had - 1,
                    n >= 0,
            ;
            assert((had - 1) * (n + 1) == had * (n + 1) - (n + 1)) by (nonlinear_arith);
        } else {
            assert(here.entries.dom().subset_of(was.entries.dom()));
            vstd::set_lib::lemma_len_subset(here.entries.dom(), was.entries.dom());
        }
    }
}

/// Expired keys that nobody reads do not linger forever: rounds of active expiry
/// remove each of them in the end, after a number of rounds that depends on how
/// many keys its shard has.
pub proof fn law_expired_keys_do_not_linger(
    stores: Seq<Store>,
    times: Seq<u64>,
    key: Seq<u8>,
    at: u64,
)
    requires
        only_expiring(stores, times),
        stores.first()@.entry(key).expires_at_ms == Some(at),
        forall|j: int| 0 <= j < times.len() ==> at <= #[trigger] times[j],
        ({
            let n = stores.first()@.home(key).entries.dom().len();
            times.len() >= n * (n + 2)
        }),
    ensures
        !stores.last()@.home(key).entries.contains_key(key),
{
    let last = times.len() as int;
    assert(stores.last() == stores[last]);
    if stores[last]@.home(key).entries.contains_key(key) {
        lemma_lingering(stores, times, key, at, last);
        let n = stores.first()@.home(key).entries.dom().len() as int;
        let left = stores[last]@.home(key).entries.dom().len() as int;
        assert(left * (n + 1) >= 0) by (nonlinear_arith)
            requires
                left >= 0,
                n >= 0,
        ;
    }
}

/// Adding a number and taking it away again restores the number: the sum was in
/// range.
pub proof fn law_decrement_undoes_increment(value: ValueView, n: int)
    requires
        value matches ValueView::Str(data) && i64_value(data) is Some,
        increased(Some(value), n).reply is Integer,
    ensures
        ({
            let up = increased(Some(value), n);
            let down = increased(Some(up.value), -n);
            &&& down.reply == ReplyView::Integer(
                i64_value(value->Str_0)->0 as int,
            )
            &&& up.reply == ReplyView::Integer(
                i64_value(value->Str_0)->0 + n,
            )
        }),
{
    let start = i64_value(value->Str_0)->0;
    lemma_dec_int_read((start + n) as i64);
}

/// What was pushed last is popped first from the same end, and the list is as it
/// was before.
pub proof fn law_pop_undoes_push(items: Seq<Seq<u8>>, item: Seq<u8>, front: bool)
    ensures
        ({
            let more = list_pushed(Some(ValueView::List(items)), seq![item], front);
            let again = list_popped(more.value, front);
            &&& again.reply == ReplyView::Bulk(item)
            &&& again.value == ValueView::List(items)
        }),
{
    let more = pushed(items, seq![item], front);
    assert(seq![item].reverse() =~= seq![item]);
    assert(popped(more, front) =~= items);
    assert(end_of(more, front) == item);
}

/// A field that was set has its value, and no other field has changed.
pub proof fn law_field_has_what_was_set(
    fields: Map<Seq<u8>, Seq<u8>>,
    name: Seq<u8>,
    value: Seq<u8>,
)
    ensures
        fields_set(Some(ValueView::Hash(fields)), seq![(name, value)]).value == ValueView::Hash(
            fields.insert(name, value),
        ),
{
    let pairs = seq![(name, value)];
    assert(pairs.drop_last() =~= Seq::<(Seq<u8>, Seq<u8>)>::empty());
    reveal_with_fuel(with_fields, 2);
    assert(with_fields(fields, pairs) =~= fields.insert(name, value));
}

/// A member that was given a score has it, and no other member has changed.
pub proof fn law_member_has_the_score_it_was_given(
    members: Map<Seq<u8>, ScoreView>,
    name: Seq<u8>,
    score: ScoreView,
)
    ensures
        ({
            let after = scores_set(Some(ValueView::Sorted(members)), seq![(score, name)]).value;
            &&& after == ValueView::Sorted(members.insert(name, score))
            &&& zscore_reply(Some(after), name) == ReplyView::Bulk(score_text(score))
        }),
{
    let pairs = seq![(score, name)];
    assert(pairs.drop_last() =~= Seq::<(ScoreView, Seq<u8>)>::empty());
    reveal_with_fuel(with_scores, 2);
    assert(with_scores(members, pairs) =~= members.insert(name, score));
}

/// Removing the last element of a collection removes its key.
pub proof fn law_empty_collections_vanish(
    data: Map<Seq<u8>, Datum>,
    cmd: CommandView,
    now: u64,
    key: Seq<u8>,
)
    requires
        cmd is Pop || cmd is HDel || cmd is SRem || cmd is ZRem,
        cmd.keys() == seq![key],
        data.contains_key(key),
    ensures
        effect(data, cmd, now).contains_key(key) ==> !effect(data, cmd, now)[key].value.is_hollow(),
{
    assert(cmd.keys()[0] == key);
}

/// What clients can see of an entry.
pub open spec fn datum_of(entry: EntryView) -> Datum {
    Datum { value: entry.value, expires_at_ms: entry.expires_at_ms }
}

proof fn lemma_load(s: StoreView, key: Seq<u8>, entry: EntryView, now: u64)
    requires
        s.shards.len() == NUM_SHARDS,
    ensures
        s.load(key, entry).shards.len() == NUM_SHARDS,
        visible(s.load(key, entry), now) == with_datum(visible(s, now), key, datum_of(entry), now),
{
    assert(visible(s.load(key, entry), now) =~= with_datum(
        visible(s, now),
        key,
        datum_of(entry),
        now,
    ));
}

proof fn lemma_load_all(
    s: StoreView,
    list: Seq<(Seq<u8>, EntryView)>,
    keys: Seq<Seq<u8>>,
    now: u64,
)
    requires
        s.shards.len() == NUM_SHARDS,
        visible(s, now) == Map::<Seq<u8>, Datum>::empty(),
        keys.len() == list.len(),
        keys.no_duplicates(),
        forall|i: int|
            0 <= i < list.len() ==> (#[trigger] list[i]).0 == keys[i] && !list[i].1.expired(now),
    ensures
        load_all(s, list).shards.len() == NUM_SHARDS,
        forall|k: Seq<u8>| #[trigger]
            visible(load_all(s, list), now).contains_key(k) <==> keys.contains(k),
        forall|i: int|
            0 <= i < list.len() ==> visible(load_all(s, list), now)[(#[trigger] list[i]).0]
                == datum_of(list[i].1),
    decreases list.len(),
{
    if list.len() > 0 {
        let front = list.drop_last();
        let names = keys.drop_last();
        let n = list.len() - 1;
        assert forall|i: int| 0 <= i < front.len() implies (#[trigger] front[i]).0 == names[i]
            && !front[i].1.expired(now) by {
            assert(list[i] == front[i]);
        }
        lemma_load_all(s, front, names, now);
        let mid = load_all(s, front);
        let (key, entry) = list[n];
        assert(list[n].0 == keys[n]);
        lemma_load(mid, key, entry, now);
        let data = visible(load_all(s, list), now);
        assert(data == visible(mid, now).insert(key, datum_of(entry)));
        assert forall|k: Seq<u8>| #[trigger] data.contains_key(k) <==> keys.contains(k) by {
            if names.contains(k) {
                assert(keys[names.index_of(k)] == k);
            }
            if keys.contains(k) {
                let i = keys.index_of(k);
                if i < n {
                    assert(names[i] == k);
                }
            }
        }
        assert forall|i: int| 0 <= i < list.len() implies data[(#[trigger] list[i]).0] == datum_of(
            list[i].1,
        ) by {
            if i < n {
                assert(front[i] == list[i]);
                assert(keys[i] != keys[n]);
            }
        }
    } else {
        assert forall|k: Seq<u8>| #[trigger] visible(load_all(s, list), now).contains_key(k)
            <==> keys.contains(k) by {}
    }
}

/// A snapshot that is loaded into an empty store restores everything that
/// clients saw when it was taken.
pub proof fn law_snapshot_restores(
    store: StoreView,
    list: Seq<(Seq<u8>, EntryView)>,
    now: u64,
    other: StoreView,
)
    requires
        store.lists_live(list, now),
        other.shards.len() == NUM_SHARDS,
    ensures
        visible(load_all(other.flushed(), list), now) == visible(store, now),
{
    let keys = store.lemma_lists_live(list, now);
    lemma_flushed(other, now);
    assert forall|i: int| 0 <= i < list.len() implies (#[trigger] list[i]).0 == keys[i]
        && !list[i].1.expired(now) by {
        assert(keys.contains(keys[i]));
    }
    lemma_load_all(other.flushed(), list, keys, now);
    let data = visible(load_all(other.flushed(), list), now);
    assert forall|k: Seq<u8>| data.contains_key(k) implies #[trigger] data[k] == visible(
        store,
        now,
    )[k] by {
        assert(keys.contains(k));
        let i = keys.index_of(k);
        assert(list[i] == (keys[i], store.entry(keys[i])));
    }
    assert forall|k: Seq<u8>| #[trigger] data.contains_key(k) <==> visible(
        store,
        now,
    ).contains_key(k) by {
        assert(keys.contains(k) <==> store.holds(k, now));
    }
    assert(data =~= visible(store, now));
}

/// A request and the time at which it is executed.
pub type Moment = (Seq<Seq<u8>>, u64);

/// What a request does to the keyspace that clients see, if nothing is evicted.
pub open spec fn request_effect(
    data: Map<Seq<u8>, Datum>,
    request: Seq<Seq<u8>>,
    now: u64,
) -> Map<Seq<u8>, Datum> {
    match meaning(request, now) {
        Ok(cmd) => effect(data, cmd, now),
        Err(_) => data,
    }
}

/// What is left of the keyspace at the time `now`: a key whose expiry time has
/// come is not seen any more.
pub open spec fn aged(data: Map<Seq<u8>, Datum>, now: u64) -> Map<Seq<u8>, Datum> {
    data.restrict(
        Set::new(|k: Seq<u8>| data[k].expires_at_ms matches Some(at) ==> now < at),
    )
}

/// What requests do to the keyspace one after the other, each at its own time.
pub open spec fn run(data: Map<Seq<u8>, Datum>, moments: Seq<Moment>) -> Map<Seq<u8>, Datum>
    decreases moments.len(),
{
    if moments.len() == 0 {
        data
    } else {
        let (request, now) = moments.last();
        request_effect(aged(run(data, moments.drop_last()), now), request, now)
    }
}

/// Whether the clock does not run backwards from `start` on until `end`.
pub open spec fn in_order(moments: Seq<Moment>, start: u64, end: u64) -> bool {
    &&& start <= end
    &&& forall|i: int| 0 <= i < moments.len() ==> start <= (#[trigger] moments[i]).1 <= end
    &&& forall|i: int, j: int| 0 <= i <= j < moments.len() ==> moments[i].1 <= moments[j].1
}

/// Whether `states` are those that a store goes through while requests are
/// executed one after the other, each at its own time, whatever channels there
/// are.
pub open spec fn serving(
    states: Seq<StoreView>,
    moments: Seq<Moment>,
    channels: Seq<Set<Seq<u8>>>,
) -> bool {
    &&& states.len() == moments.len() + 1
    &&& channels.len() == moments.len()
    &&& forall|i: int|
        0 <= i < moments.len() ==> applies(
            #[trigger] states[i],
            channels[i],
            moments[i].0,
            moments[i].1,
            states[i + 1],
        )
}

proof fn lemma_aged(store: StoreView, now: u64, later: u64)
    requires
        now <= later,
    ensures
        visible(store, later) == aged(visible(store, now), later),
{
    assert(visible(store, later) =~= aged(visible(store, now), later));
}

proof fn lemma_aged_twice(data: Map<Seq<u8>, Datum>, now: u64, later: u64)
    requires
        now <= later,
    ensures
        aged(aged(data, now), later) == aged(data, later),
{
    assert(aged(aged(data, now), later) =~= aged(data, later));
}

proof fn lemma_front_in_order(moments: Seq<Moment>, start: u64, end: u64)
    requires
        in_order(moments, start, end),
        moments.len() > 0,
    ensures
        in_order(moments.drop_last(), start, moments.last().1),
        start <= moments.last().1 <= end,
{
    let front = moments.drop_last();
    let n = moments.len() - 1;
    assert(start <= moments[n].1);
    assert forall|i: int| 0 <= i < front.len() implies start <= (#[trigger] front[i]).1
        <= moments.last().1 by {
        assert(front[i] == moments[i]);
        assert(moments[i].1 <= moments[n].1);
    }
}

/// Executing requests over any stretch of time changes what clients see exactly
/// as [`run`] says, if nothing is evicted.
pub proof fn law_requests_have_their_effect(
    states: Seq<StoreView>,
    moments: Seq<Moment>,
    channels: Seq<Set<Seq<u8>>>,
    start: u64,
    end: u64,
)
    requires
        serving(states, moments, channels),
        in_order(moments, start, end),
        states.first().shards.len() == NUM_SHARDS,
        states.first().max_keys_per_shard is None,
    ensures
        states.last().shards.len() == NUM_SHARDS,
        states.last().max_keys_per_shard is None,
        visible(states.last(), end) == aged(run(visible(states.first(), start), moments), end),
    decreases moments.len(),
{
    if moments.len() == 0 {
        lemma_aged(states.first(), start, end);
    } else {
        let n = moments.len() - 1;
        let (request, t) = moments[n];
        let front = states.drop_last();
        lemma_front_in_order(moments, start, end);
        assert forall|i: int| 0 <= i < n implies applies(
            #[trigger] front[i],
            channels.drop_last()[i],
            moments.drop_last()[i].0,
            moments.drop_last()[i].1,
            front[i + 1],
        ) by {
            assert(front[i] == states[i]);
        }
        law_requests_have_their_effect(
            front,
            moments.drop_last(),
            channels.drop_last(),
            start,
            t,
        );
        let before = states[n];
        let after = states[n + 1];
        assert(front.last() == before);
        assert(applies(before, channels[n], request, t, after));
        if let Ok(cmd) = meaning(request, t) {
            let reply = choose|reply: ReplyView| #[trigger]
                outcome(before, channels[n], cmd, t, reply, after);
            law_commands_have_their_effect(before, channels[n], cmd, t, reply, after);
        }
        assert(visible(after, t) == request_effect(visible(before, t), request, t));
        lemma_aged(after, t, end);
    }
}

/// The requests that are write commands, each with its time.
pub open spec fn writes(moments: Seq<Moment>) -> Seq<Moment>
    decreases moments.len(),
{
    if moments.len() == 0 {
        Seq::empty()
    } else if is_write_request(moments.last().0, moments.last().1) {
        writes(moments.drop_last()).push(moments.last())
    } else {
        writes(moments.drop_last())
    }
}

/// The lines that the log and the replicas get for requests.
pub open spec fn lines_of(moments: Seq<Moment>) -> Seq<Seq<Seq<u8>>> {
    moments.map_values(|m: Moment| stamped(m.0, m.1))
}

proof fn lemma_writes_in_order(moments: Seq<Moment>, start: u64, end: u64)
    requires
        in_order(moments, start, end),
    ensures
        in_order(writes(moments), start, end),
    decreases moments.len(),
{
    if moments.len() > 0 {
        lemma_front_in_order(moments, start, end);
        let t = moments.last().1;
        let kept = writes(moments.drop_last());
        lemma_writes_in_order(moments.drop_last(), start, t);
        let all = writes(moments);
        assert forall|i: int| 0 <= i < all.len() implies start <= (#[trigger] all[i]).1 <= end by {
            if i < kept.len() {
                assert(all[i] == kept[i]);
            }
        }
        assert forall|i: int, j: int| 0 <= i <= j < all.len() implies all[i].1 <= all[j].1 by {
            if i < kept.len() {
                assert(all[i] == kept[i]);
                if j < kept.len() {
                    assert(all[j] == kept[j]);
                }
            }
        }
    }
}

/// The write commands alone have the effect of all requests.
pub proof fn law_writes_are_all_that_matters(
    data: Map<Seq<u8>, Datum>,
    moments: Seq<Moment>,
    start: u64,
    end: u64,
)
    requires
        in_order(moments, start, end),
    ensures
        aged(run(data, writes(moments)), end) == aged(run(data, moments), end),
    decreases moments.len(),
{
    if moments.len() > 0 {
        let front = moments.drop_last();
        let (last, t) = moments.last();
        lemma_front_in_order(moments, start, end);
        law_writes_are_all_that_matters(data, front, start, t);
        if is_write_request(last, t) {
            let all = writes(front).push(moments.last());
            assert(all.drop_last() =~= writes(front));
        } else {
            lemma_aged_twice(run(data, front), t, end);
            lemma_aged_twice(run(data, writes(front)), t, end);
        }
    }
}

/// Whether `states` are those that a store goes through while it takes over the
/// lines of a log or of a primary one after the other, whenever they come.
pub open spec fn following(
    states: Seq<StoreView>,
    lines: Seq<Seq<Seq<u8>>>,
    channels: Seq<Set<Seq<u8>>>,
    clock: Seq<u64>,
) -> bool {
    &&& states.len() == lines.len() + 1
    &&& channels.len() == lines.len()
    &&& clock.len() == lines.len()
    &&& forall|i: int|
        0 <= i < lines.len() ==> takes_over(
            #[trigger] states[i],
            channels[i],
            lines[i],
            clock[i],
            states[i + 1],
        )
}

/// Taking over lines is executing their requests at the times that they say,
/// whenever it happens.
pub proof fn law_lines_are_executed_at_their_time(
    states: Seq<StoreView>,
    moments: Seq<Moment>,
    channels: Seq<Set<Seq<u8>>>,
    clock: Seq<u64>,
)
    requires
        following(states, lines_of(moments), channels, clock),
    ensures
        serving(states, moments, channels),
{
    let lines = lines_of(moments);
    assert forall|i: int| 0 <= i < moments.len() implies applies(
        #[trigger] states[i],
        channels[i],
        moments[i].0,
        moments[i].1,
        states[i + 1],
    ) by {
        assert(takes_over(states[i], channels[i], lines[i], clock[i], states[i + 1]));
        law_stamp_is_read_back(moments[i].0, moments[i].1, clock[i]);
    }
}

/// Replaying a log at any time changes what clients see exactly as its requests
/// did when they were executed, if nothing is evicted.
pub proof fn law_replay_has_its_effect(
    before: StoreView,
    moments: Seq<Moment>,
    now: u64,
    after: StoreView,
    start: u64,
    end: u64,
)
    requires
        before.shards.len() == NUM_SHARDS,
        before.max_keys_per_shard is None,
        in_order(moments, start, end),
        replays(before, lines_of(moments), now, after),
    ensures
        visible(after, end) == aged(run(visible(before, start), moments), end),
{
    let lines = lines_of(moments);
    let states = choose|states: Seq<StoreView>| #[trigger]
        replay_states(states, lines, now) && states.first() == before && states.last() == after;
    let channels = Seq::new(lines.len(), |i: int| Set::<Seq<u8>>::empty());
    let clock = Seq::new(lines.len(), |i: int| now);
    assert(following(states, lines, channels, clock)) by {
        assert forall|i: int| 0 <= i < lines.len() implies takes_over(
            #[trigger] states[i],
            channels[i],
            lines[i],
            clock[i],
            states[i + 1],
        ) by {}
    }
    law_lines_are_executed_at_their_time(states, moments, channels, clock);
    law_requests_have_their_effect(states, moments, channels, start, end);
}

/// A restart at any later time recovers what clients saw: a store that holds what
/// another one held at the time `start`, before it executed some requests, and
/// then takes over the writes among them from the log, shows clients the same
/// keyspace, expiry times included.
pub proof fn law_restart_recovers(
    states: Seq<StoreView>,
    moments: Seq<Moment>,
    channels: Seq<Set<Seq<u8>>>,
    start: u64,
    later: u64,
    fresh: StoreView,
    now: u64,
    recovered: StoreView,
)
    requires
        serving(states, moments, channels),
        in_order(moments, start, later),
        states.first().shards.len() == NUM_SHARDS,
        states.first().max_keys_per_shard is None,
        fresh.shards.len() == NUM_SHARDS,
        fresh.max_keys_per_shard is None,
        visible(fresh, start) == visible(states.first(), start),
        replays(fresh, lines_of(writes(moments)), now, recovered),
    ensures
        visible(recovered, later) == visible(states.last(), later),
{
    law_requests_have_their_effect(states, moments, channels, start, later);
    lemma_writes_in_order(moments, start, later);
    law_replay_has_its_effect(fresh, writes(moments), now, recovered, start, later);
    law_writes_are_all_that_matters(visible(fresh, start), moments, start, later);
}

proof fn lemma_load_all_keeps_limit(s: StoreView, list: Seq<(Seq<u8>, EntryView)>)
    requires
        s.shards.len() == NUM_SHARDS,
    ensures
        load_all(s, list).shards.len() == NUM_SHARDS,
        load_all(s, list).max_keys_per_shard == s.max_keys_per_shard,
    decreases list.len(),
{
    if list.len() > 0 {
        lemma_load_all_keeps_limit(s, list.drop_last());
    }
}

/// Snapshot and log together recover what clients saw, at any later time: the
/// snapshot that was taken at the time `start`, before some requests were
/// executed, loaded into an empty store, and then the writes among those requests
/// from the log.
pub proof fn law_snapshot_and_log_recover(
    states: Seq<StoreView>,
    moments: Seq<Moment>,
    channels: Seq<Set<Seq<u8>>>,
    start: u64,
    later: u64,
    list: Seq<(Seq<u8>, EntryView)>,
    empty: StoreView,
    now: u64,
    recovered: StoreView,
)
    requires
        serving(states, moments, channels),
        in_order(moments, start, later),
        states.first().shards.len() == NUM_SHARDS,
        states.first().max_keys_per_shard is None,
        states.first().lists_live(list, start),
        empty.shards.len() == NUM_SHARDS,
        empty.max_keys_per_shard is None,
        replays(load_all(empty.flushed(), list), lines_of(writes(moments)), now, recovered),
    ensures
        visible(recovered, later) == visible(states.last(), later),
{
    law_snapshot_restores(states.first(), list, start, empty);
    lemma_load_all_keeps_limit(empty.flushed(), list);
    law_restart_recovers(
        states,
        moments,
        channels,
        start,
        later,
        load_all(empty.flushed(), list),
        now,
        recovered,
    );
}

/// A replica follows its primary: where both show clients the same keyspace at
/// the time `start`, they still do after the primary has executed some requests
/// and the replica has taken over the writes among them, whenever they reached
/// it.
pub proof fn law_replica_follows_primary(
    primary: Seq<StoreView>,
    moments: Seq<Moment>,
    channels: Seq<Set<Seq<u8>>>,
    replica: Seq<StoreView>,
    replica_channels: Seq<Set<Seq<u8>>>,
    clock: Seq<u64>,
    start: u64,
    later: u64,
)
    requires
        serving(primary, moments, channels),
        in_order(moments, start, later),
        following(replica, lines_of(writes(moments)), replica_channels, clock),
        primary.first().shards.len() == NUM_SHARDS,
        primary.first().max_keys_per_shard is None,
        replica.first().shards.len() == NUM_SHARDS,
        replica.first().max_keys_per_shard is None,
        visible(replica.first(), start) == visible(primary.first(), start),
    ensures
        visible(replica.last(), later) == visible(primary.last(), later),
{
    law_requests_have_their_effect(primary, moments, channels, start, later);
    lemma_writes_in_order(moments, start, later);
    law_lines_are_executed_at_their_time(replica, writes(moments), replica_channels, clock);
    law_requests_have_their_effect(replica, writes(moments), replica_channels, start, later);
    law_writes_are_all_that_matters(visible(primary.first(), start), moments, start, later);
}

/// Whether a connection executes a request: it is neither turned away nor takes
/// the connection over.
pub open spec fn is_executed(m: Moment, cluster: Option<ClusterView>, read_only: bool) -> bool {
    next_action(m.0, cluster, read_only, m.1) is Execute
}

/// The requests that a connection executes, in order.
pub open spec fn executed_ones(
    moments: Seq<Moment>,
    cluster: Option<ClusterView>,
    read_only: bool,
) -> Seq<Moment>
    decreases moments.len(),
{
    if moments.len() == 0 {
        Seq::empty()
    } else if is_executed(moments.last(), cluster, read_only) {
        executed_ones(moments.drop_last(), cluster, read_only).push(moments.last())
    } else {
        executed_ones(moments.drop_last(), cluster, read_only)
    }
}

/// The lines that steps give the log and the replicas, in order.
pub open spec fn lines_from(steps: Seq<StepView>) -> Seq<Seq<Seq<u8>>>
    decreases steps.len(),
{
    if steps.len() == 0 {
        Seq::empty()
    } else {
        match steps.last().line() {
            Some(line) => lines_from(steps.drop_last()).push(line),
            None => lines_from(steps.drop_last()),
        }
    }
}

/// Whether `states` and `steps` are those that a connection goes through while it
/// serves requests one after the other, each at its own time.
pub open spec fn conversing(
    states: Seq<StoreView>,
    steps: Seq<StepView>,
    moments: Seq<Moment>,
    channels: Seq<Set<Seq<u8>>>,
    cluster: Option<ClusterView>,
    read_only: bool,
) -> bool {
    &&& states.len() == moments.len() + 1
    &&& steps.len() == moments.len()
    &&& channels.len() == moments.len()
    &&& forall|i: int|
        0 <= i < moments.len() ==> serves(
            #[trigger] states[i],
            channels[i],
            moments[i].0,
            cluster,
            read_only,
            moments[i].1,
            steps[i],
            states[i + 1],
        )
}

/// Every request but an empty one is answered by one reply, as long as none takes
/// the connection over; one that is not understood by the complaint about it.
pub proof fn law_every_request_is_answered(
    states: Seq<StoreView>,
    steps: Seq<StepView>,
    moments: Seq<Moment>,
    channels: Seq<Set<Seq<u8>>>,
    cluster: Option<ClusterView>,
    read_only: bool,
    i: int,
)
    requires
        conversing(states, steps, moments, channels, cluster, read_only),
        0 <= i < moments.len(),
        !(steps[i] is Subscribe),
        !(steps[i] is Feed),
    ensures
        steps[i].reply() is Some <==> moments[i].0.len() > 0,
        moments[i].0.len() > 0 && meaning(moments[i].0, moments[i].1) is Err
            ==> steps[i].reply() == Some(
            ReplyView::Error(meaning(moments[i].0, moments[i].1)->Err_0),
        ) && states[i + 1] == states[i],
{
    assert(serves(
        states[i],
        channels[i],
        moments[i].0,
        cluster,
        read_only,
        moments[i].1,
        steps[i],
        states[i + 1],
    ));
}

proof fn lemma_front_conversing(
    states: Seq<StoreView>,
    steps: Seq<StepView>,
    moments: Seq<Moment>,
    channels: Seq<Set<Seq<u8>>>,
    cluster: Option<ClusterView>,
    read_only: bool,
)
    requires
        conversing(states, steps, moments, channels, cluster, read_only),
        moments.len() > 0,
    ensures
        conversing(
            states.drop_last(),
            steps.drop_last(),
            moments.drop_last(),
            channels.drop_last(),
            cluster,
            read_only,
        ),
{
    let front = states.drop_last();
    assert forall|i: int| 0 <= i < moments.len() - 1 implies serves(
        #[trigger] front[i],
        channels.drop_last()[i],
        moments.drop_last()[i].0,
        cluster,
        read_only,
        moments.drop_last()[i].1,
        steps.drop_last()[i],
        front[i + 1],
    ) by {
        assert(front[i] == states[i]);
    }
}

proof fn lemma_serves(
    before: StoreView,
    channels: Set<Seq<u8>>,
    m: Moment,
    cluster: Option<ClusterView>,
    read_only: bool,
    step: StepView,
    after: StoreView,
)
    requires
        serves(before, channels, m.0, cluster, read_only, m.1, step, after),
    ensures
        is_executed(m, cluster, read_only) ==> applies(before, channels, m.0, m.1, after),
        !is_executed(m, cluster, read_only) ==> after == before,
        step.line() == if is_executed(m, cluster, read_only) && is_write_request(m.0, m.1) {
            Some(stamped(m.0, m.1))
        } else {
            None
        },
{
}

/// What a connection gives the log and the replicas are exactly the write
/// commands that it executed, in order, each as it came and with the time at
/// which it was executed.
pub proof fn law_log_is_the_executed_writes(
    states: Seq<StoreView>,
    steps: Seq<StepView>,
    moments: Seq<Moment>,
    channels: Seq<Set<Seq<u8>>>,
    cluster: Option<ClusterView>,
    read_only: bool,
)
    requires
        conversing(states, steps, moments, channels, cluster, read_only),
    ensures
        lines_from(steps) == lines_of(writes(executed_ones(moments, cluster, read_only))),
    decreases moments.len(),
{
    let all = executed_ones(moments, cluster, read_only);
    if moments.len() == 0 {
        assert(lines_from(steps) =~= lines_of(writes(all)));
    } else {
        let n = moments.len() - 1;
        lemma_front_conversing(states, steps, moments, channels, cluster, read_only);
        law_log_is_the_executed_writes(
            states.drop_last(),
            steps.drop_last(),
            moments.drop_last(),
            channels.drop_last(),
            cluster,
            read_only,
        );
        let front = executed_ones(moments.drop_last(), cluster, read_only);
        lemma_serves(
            states[n],
            channels[n],
            moments[n],
            cluster,
            read_only,
            steps[n],
            states[n + 1],
        );
        if is_executed(moments[n], cluster, read_only) {
            assert(all.drop_last() =~= front);
            if is_write_request(moments[n].0, moments[n].1) {
                assert(lines_of(writes(all)) =~= lines_of(writes(front)).push(
                    stamped(moments[n].0, moments[n].1),
                ));
            }
        }
    }
}

/// The states that a store goes through with the requests that a connection
/// executes alone.
pub open spec fn states_of(
    states: Seq<StoreView>,
    moments: Seq<Moment>,
    cluster: Option<ClusterView>,
    read_only: bool,
) -> Seq<StoreView>
    decreases moments.len(),
{
    if moments.len() == 0 {
        seq![states.first()]
    } else if is_executed(moments.last(), cluster, read_only) {
        states_of(states.drop_last(), moments.drop_last(), cluster, read_only).push(states.last())
    } else {
        states_of(states.drop_last(), moments.drop_last(), cluster, read_only)
    }
}

/// The channels that there are with the requests that a connection executes
/// alone.
pub open spec fn channels_of(
    channels: Seq<Set<Seq<u8>>>,
    moments: Seq<Moment>,
    cluster: Option<ClusterView>,
    read_only: bool,
) -> Seq<Set<Seq<u8>>>
    decreases moments.len(),
{
    if moments.len() == 0 {
        Seq::empty()
    } else if is_executed(moments.last(), cluster, read_only) {
        channels_of(channels.drop_last(), moments.drop_last(), cluster, read_only).push(
            channels.last(),
        )
    } else {
        channels_of(channels.drop_last(), moments.drop_last(), cluster, read_only)
    }
}

proof fn lemma_serving_grows(
    states: Seq<StoreView>,
    moments: Seq<Moment>,
    channels: Seq<Set<Seq<u8>>>,
    m: Moment,
    names: Set<Seq<u8>>,
    after: StoreView,
)
    requires
        serving(states, moments, channels),
        applies(states.last(), names, m.0, m.1, after),
    ensures
        serving(states.push(after), moments.push(m), channels.push(names)),
{
    let all = states.push(after);
    assert forall|i: int| 0 <= i < moments.len() + 1 implies applies(
        #[trigger] all[i],
        channels.push(names)[i],
        moments.push(m)[i].0,
        moments.push(m)[i].1,
        all[i + 1],
    ) by {
        if i < moments.len() {
            assert(all[i] == states[i]);
            assert(all[i + 1] == states[i + 1]);
        } else {
            assert(all[i] == states.last());
        }
    }
}

/// What a connection turns away changes nothing: the store goes through the
/// states of the requests that are executed, and no others.
pub proof fn law_only_executed_requests_matter(
    states: Seq<StoreView>,
    steps: Seq<StepView>,
    moments: Seq<Moment>,
    channels: Seq<Set<Seq<u8>>>,
    cluster: Option<ClusterView>,
    read_only: bool,
)
    requires
        conversing(states, steps, moments, channels, cluster, read_only),
    ensures
        serving(
            states_of(states, moments, cluster, read_only),
            executed_ones(moments, cluster, read_only),
            channels_of(channels, moments, cluster, read_only),
        ),
        states_of(states, moments, cluster, read_only).first() == states.first(),
        states_of(states, moments, cluster, read_only).last() == states.last(),
    decreases moments.len(),
{
    if moments.len() > 0 {
        let n = moments.len() - 1;
        lemma_front_conversing(states, steps, moments, channels, cluster, read_only);
        law_only_executed_requests_matter(
            states.drop_last(),
            steps.drop_last(),
            moments.drop_last(),
            channels.drop_last(),
            cluster,
            read_only,
        );
        let front = states_of(states.drop_last(), moments.drop_last(), cluster, read_only);
        let done = executed_ones(moments.drop_last(), cluster, read_only);
        let heard = channels_of(channels.drop_last(), moments.drop_last(), cluster, read_only);
        assert(states.drop_last().last() == states[n]);
        lemma_serves(
            states[n],
            channels[n],
            moments[n],
            cluster,
            read_only,
            steps[n],
            states[n + 1],
        );
        if is_executed(moments[n], cluster, read_only) {
            lemma_serving_grows(front, done, heard, moments[n], channels[n], states[n + 1]);
        }
    }
}

proof fn lemma_executed_in_order(
    moments: Seq<Moment>,
    cluster: Option<ClusterView>,
    read_only: bool,
    start: u64,
    end: u64,
)
    requires
        in_order(moments, start, end),
    ensures
        in_order(executed_ones(moments, cluster, read_only), start, end),
    decreases moments.len(),
{
    if moments.len() > 0 {
        lemma_front_in_order(moments, start, end);
        let t = moments.last().1;
        let kept = executed_ones(moments.drop_last(), cluster, read_only);
        lemma_executed_in_order(moments.drop_last(), cluster, read_only, start, t);
        let all = executed_ones(moments, cluster, read_only);
        assert forall|i: int| 0 <= i < all.len() implies start <= (#[trigger] all[i]).1 <= end by {
            if i < kept.len() {
                assert(all[i] == kept[i]);
            }
        }
        assert forall|i: int, j: int| 0 <= i <= j < all.len() implies all[i].1 <= all[j].1 by {
            if i < kept.len() {
                assert(all[i] == kept[i]);
                if j < kept.len() {
                    assert(all[j] == kept[j]);
                }
            }
        }
    }
}

/// The lines that a connection gives the log recover, at any later time, what it
/// left clients to see: whatever it turned away, and expiry times included.
pub proof fn law_log_of_a_connection_recovers(
    states: Seq<StoreView>,
    steps: Seq<StepView>,
    moments: Seq<Moment>,
    channels: Seq<Set<Seq<u8>>>,
    cluster: Option<ClusterView>,
    read_only: bool,
    start: u64,
    later: u64,
    fresh: StoreView,
    now: u64,
    recovered: StoreView,
)
    requires
        conversing(states, steps, moments, channels, cluster, read_only),
        in_order(moments, start, later),
        states.first().shards.len() == NUM_SHARDS,
        states.first().max_keys_per_shard is None,
        fresh.shards.len() == NUM_SHARDS,
        fresh.max_keys_per_shard is None,
        visible(fresh, start) == visible(states.first(), start),
        replays(fresh, lines_from(steps), now, recovered),
    ensures
        visible(recovered, later) == visible(states.last(), later),
{
    law_log_is_the_executed_writes(states, steps, moments, channels, cluster, read_only);
    law_only_executed_requests_matter(states, steps, moments, channels, cluster, read_only);
    lemma_executed_in_order(moments, cluster, read_only, start, later);
    law_restart_recovers(
        states_of(states, moments, cluster, read_only),
        executed_ones(moments, cluster, read_only),
        channels_of(channels, moments, cluster, read_only),
        start,
        later,
        fresh,
        now,
        recovered,
    );
}

} // verus!
