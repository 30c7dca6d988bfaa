//! What the functions of the store promise their callers, said of what is found
//! under the keys before and after each call.

use bytes::Bytes;
use vstd::prelude::*;

use crate::buf::{content, contents};
use crate::keyspace_laws::{
    alike, alike_but, finds, found_among, law_count_of_found, law_count_of_gone, lemma_kept,
    lemma_shown, shown,
};
use crate::commands::CommandView;
use crate::execute::{mset_states, outcome, string_entry};
use crate::laws::lemma_msets;
use crate::resp::ReplyView;
use crate::shard::{cut, pairs_of, set_allowed, set_effect, ShardView};
use crate::store::{shard_of, Store, StoreView, NUM_SHARDS};
use crate::value::{Entry, EntryView, Value, ValueView};

verus! {

/// Setting a key to any value: refused where it has to be new and is not, or has
/// to be old and is not; otherwise it has exactly this value and expiry time, and
/// the other keys are as they were, but that a limit may take some away.
pub proof fn law_setting(
    before: StoreView,
    key: Seq<u8>,
    entry: EntryView,
    nx: bool,
    xx: bool,
    now: u64,
    after: StoreView,
)
    requires
        before.shards.len() == NUM_SHARDS,
        before.max_keys_per_shard != Some(0usize),
        before.sets(key, entry, nx, xx, now, after),
    ensures
        ({
            let there = shown(before, key, now) is Some;
            if (nx && there) || (xx && !there) {
                alike(before, after, now)
            } else {
                &&& alike_but(before, after, key, now)
                &&& after.shards[shard_of(key)].entries.contains_key(key)
                &&& after.shards[shard_of(key)].entries[key].value == entry.value
                &&& after.shards[shard_of(key)].entries[key].expires_at_ms == entry.expires_at_ms
            }
        }),
{
    lemma_shown(before, now);
    let there = shown(before, key, now) is Some;
    assert(before.holds(key, now) == there);
    let done = set_allowed(before.holds(key, now), nx, xx);
    let shard = choose|shard: ShardView| #[trigger]
        set_effect(before.home(key), key, entry, done, before.max_keys_per_shard, now, shard)
            && after == before.with_home(key, shard);
    if (nx && there) || (xx && !there) {
        assert(after == before.purge(key, now));
        assert forall|k: Seq<u8>| #[trigger] shown(after, k, now) == shown(before, k, now) by {}
    } else {
        let full = before.home(key).purge(key, now).put(key, entry);
        assert(cut(full, key, before.max_keys_per_shard, shard));
        assert(full.entries.contains_key(key));
        assert(shard.entries.dom().contains(key));
        assert(full.entries.dom().contains(key));
        assert(shard.entries[key] == full.entries[key]);
        assert forall|k: Seq<u8>| k != key implies (#[trigger] shown(after, k, now) == shown(
            before,
            k,
            now,
        ) || (before.max_keys_per_shard is Some && shown(after, k, now) is None)) by {
            if shard_of(k) == shard_of(key) {
                if shard.entries.contains_key(k) {
                    assert(shard.entries.dom().contains(k));
                    assert(full.entries.dom().contains(k));
                    assert(shard.entries[k] == full.entries[k]);
                } else if before.max_keys_per_shard is None {
                    assert(shard.entries == full.entries);
                }
            }
        }
    }
}

/// `Store::get_at` gives what is found under the key, and changes nothing that is
/// found.
pub proof fn law_store_get(key: &[u8], now: u64)
    ensures
        forall|s: &mut Store, value: Option<Value>|
            s.wf() && #[trigger] call_ensures(Store::get_at, (s, key, now), value) ==> {
                &&& match shown(s@, key@, now) {
                    Some((v, _)) => value matches Some(x) && x@ == v,
                    None => value is None,
                }
                &&& alike(s@, final(s)@, now)
                &&& final(s).wf()
            },
        forall|s: &mut Store, value: Option<Value>|
            s.wf() && #[trigger] call_ensures(Store::get, (s, key), value) ==> exists|t: u64|
                {
                    &&& match #[trigger] shown(s@, key@, t) {
                        Some((v, _)) => value matches Some(x) && x@ == v,
                        None => value is None,
                    }
                    &&& alike(s@, final(s)@, t)
                },
{
    assert forall|s: &mut Store, value: Option<Value>|
        s.wf() && #[trigger] call_ensures(Store::get_at, (s, key, now), value) implies {
        &&& match shown(s@, key@, now) {
            Some((v, _)) => value matches Some(x) && x@ == v,
            None => value is None,
        }
        &&& alike(s@, final(s)@, now)
        &&& final(s).wf()
    } by {
        s.lemma_routed();
        lemma_touched(s@, key@, now);
    }
    assert forall|s: &mut Store, value: Option<Value>|
        s.wf() && #[trigger] call_ensures(Store::get, (s, key), value) implies exists|t: u64|
        {
            &&& match #[trigger] shown(s@, key@, t) {
                Some((v, _)) => value matches Some(x) && x@ == v,
                None => value is None,
            }
            &&& alike(s@, final(s)@, t)
        } by {
        s.lemma_routed();
        let t = choose|t: u64|
            final(s)@ == #[trigger] s@.touch(key@, t) && match value {
                Some(v) => v.wf() && s@.value(key@, t) == Some(v@),
                None => s@.value(key@, t) is None,
            };
        lemma_touched(s@, key@, t);
        let found = shown(s@, key@, t);
    }
}

proof fn lemma_touched(s: StoreView, key: Seq<u8>, now: u64)
    requires
        s.shards.len() == NUM_SHARDS,
    ensures
        alike(s, s.touch(key, now), now),
        alike(s, s.purge(key, now), now),
        s.value(key, now) == (match shown(s, key, now) {
            Some((v, _)) => Some(v),
            None => None,
        }),
        s.holds(key, now) == (shown(s, key, now) is Some),
{
    lemma_shown(s, now);
}

/// `Store::set_at` and `Store::set` say whether they set the key, and do as
/// [`law_setting`] says.
pub proof fn law_store_set(
    key: Bytes,
    value: Value,
    expires_at_ms: Option<u64>,
    nx: bool,
    xx: bool,
    now: u64,
)
    ensures
        forall|s: &mut Store, done: bool|
            s.wf() && #[trigger] call_ensures(
                Store::set_at,
                (s, key, value, expires_at_ms, nx, xx, now),
                done,
            ) ==> {
                let there = shown(s@, content(key), now) is Some;
                &&& done == !((nx && there) || (xx && !there))
                &&& s@.sets(
                    content(key),
                    EntryView { value: value@, expires_at_ms, last_access: 0 },
                    nx,
                    xx,
                    now,
                    final(s)@,
                )
                &&& final(s).wf()
            },
        forall|s: &mut Store, done: bool|
            s.wf() && #[trigger] call_ensures(
                Store::set,
                (s, key, value, expires_at_ms, nx, xx),
                done,
            ) ==> exists|t: u64|
                {
                    let there = #[trigger] shown(s@, content(key), t) is Some;
                    &&& done == !((nx && there) || (xx && !there))
                    &&& s@.sets(
                        content(key),
                        EntryView { value: value@, expires_at_ms, last_access: 0 },
                        nx,
                        xx,
                        t,
                        final(s)@,
                    )
                },
{
    assert forall|s: &mut Store, done: bool|
        s.wf() && #[trigger] call_ensures(
            Store::set_at,
            (s, key, value, expires_at_ms, nx, xx, now),
            done,
        ) implies {
        let there = shown(s@, content(key), now) is Some;
        &&& done == !((nx && there) || (xx && !there))
        &&& s@.sets(
            content(key),
            EntryView { value: value@, expires_at_ms, last_access: 0 },
            nx,
            xx,
            now,
            final(s)@,
        )
        &&& final(s).wf()
    } by {
        s.lemma_routed();
        lemma_touched(s@, content(key), now);
    }
    assert forall|s: &mut Store, done: bool|
        s.wf() && #[trigger] call_ensures(
            Store::set,
            (s, key, value, expires_at_ms, nx, xx),
            done,
        ) implies exists|t: u64|
        {
            let there = #[trigger] shown(s@, content(key), t) is Some;
            &&& done == !((nx && there) || (xx && !there))
            &&& s@.sets(
                content(key),
                EntryView { value: value@, expires_at_ms, last_access: 0 },
                nx,
                xx,
                t,
                final(s)@,
            )
        } by {
        s.lemma_routed();
        let t = choose|t: u64|
            done == set_allowed(#[trigger] s@.holds(content(key), t), nx, xx) && s@.sets(
                content(key),
                EntryView { value: value@, expires_at_ms, last_access: 0 },
                nx,
                xx,
                t,
                final(s)@,
            );
        lemma_touched(s@, content(key), t);
        let there = shown(s@, content(key), t) is Some;
    }
}

/// `Store::del_at` and `Store::del` remove the keys and say how many of them there
/// were, each counted once; `Store::count_existing_at` and
/// `Store::count_existing` count them, repeated ones each time.
pub proof fn law_store_counts(keys: &[Bytes], now: u64)
    requires
        keys@.len() <= i64::MAX,
    ensures
        forall|s: &mut Store, n: i64|
            s.wf() && #[trigger] call_ensures(Store::del_at, (s, keys, now), n) ==> n
                == found_among(s@, contents(keys@), now).len() && forall|k: Seq<u8>, t: u64|
                #[trigger] shown(final(s)@, k, t) == (if contents(keys@).contains(k) {
                    None
                } else {
                    shown(s@, k, t)
                }),
        forall|s: &mut Store, n: i64|
            s.wf() && #[trigger] call_ensures(Store::del, (s, keys), n) ==> (exists|t: u64|
                n == (#[trigger] found_among(s@, contents(keys@), t)).len()) && forall|
                k: Seq<u8>,
                t: u64,
            | #[trigger]
                shown(final(s)@, k, t) == (if contents(keys@).contains(k) {
                    None
                } else {
                    shown(s@, k, t)
                }),
        forall|s: &mut Store, n: i64|
            s.wf() && #[trigger] call_ensures(Store::count_existing_at, (s, keys, now), n) ==> n
                == finds(s@, contents(keys@), now) && alike(s@, final(s)@, now),
        forall|s: &mut Store, n: i64|
            s.wf() && #[trigger] call_ensures(Store::count_existing, (s, keys), n) ==> exists|
                t: u64,
            |
                n == (#[trigger] finds(s@, contents(keys@), t)) && alike(s@, final(s)@, t),
{
    let names = contents(keys@);
    assert forall|s: &mut Store, n: i64|
        s.wf() && #[trigger] call_ensures(Store::del_at, (s, keys, now), n) implies n
        == found_among(s@, names, now).len() && forall|k: Seq<u8>, t: u64| #[trigger]
        shown(final(s)@, k, t) == (if names.contains(k) {
            None
        } else {
            shown(s@, k, t)
        }) by {
        s.lemma_routed();
        law_count_of_gone(s@, names, now);
        lemma_dropped(s@, names);
    }
    assert forall|s: &mut Store, n: i64|
        s.wf() && #[trigger] call_ensures(Store::del, (s, keys), n) implies (exists|t: u64|
        n == (#[trigger] found_among(s@, names, t)).len()) && forall|k: Seq<u8>, t: u64|
        #[trigger] shown(final(s)@, k, t) == (if names.contains(k) {
            None
        } else {
            shown(s@, k, t)
        }) by {
        s.lemma_routed();
        let t = choose|t: u64| n == #[trigger] s@.count_dropped(names, t) as i64;
        law_count_of_gone(s@, names, t);
        lemma_dropped(s@, names);
        let gone = found_among(s@, names, t);
    }
    assert forall|s: &mut Store, n: i64|
        s.wf() && #[trigger] call_ensures(Store::count_existing_at, (s, keys, now), n) implies n
        == finds(s@, names, now) && alike(s@, final(s)@, now) by {
        s.lemma_routed();
        law_count_of_found(s@, names, now);
    }
    assert forall|s: &mut Store, n: i64|
        s.wf() && #[trigger] call_ensures(Store::count_existing, (s, keys), n) implies exists|
        t: u64,
    |
        n == (#[trigger] finds(s@, names, t)) && alike(s@, final(s)@, t) by {
        s.lemma_routed();
        let t = choose|t: u64|
            final(s)@ == #[trigger] s@.purge_all(names, t) && n == s@.count_live(names, t) as i64;
        law_count_of_found(s@, names, t);
        let found = finds(s@, names, t);
    }
}

proof fn lemma_dropped(s: StoreView, keys: Seq<Seq<u8>>)
    requires
        s.shards.len() == NUM_SHARDS,
    ensures
        s.drop_all(keys).shards.len() == NUM_SHARDS,
        forall|k: Seq<u8>, t: u64| #[trigger]
            shown(s.drop_all(keys), k, t) == (if keys.contains(k) {
                None
            } else {
                shown(s, k, t)
            }),
    decreases keys.len(),
{
    if keys.len() > 0 {
        let front = keys.drop_last();
        lemma_dropped(s, front);
        let mid = s.drop_all(front);
        assert forall|k: Seq<u8>, t: u64| #[trigger] shown(s.drop_all(keys), k, t) == (
        if keys.contains(k) {
            None
        } else {
            shown(s, k, t)
        }) by {
            assert(shown(mid, k, t) == (if front.contains(k) {
                None
            } else {
                shown(s, k, t)
            }));
            if front.contains(k) {
                assert(keys[front.index_of(k)] == k);
            }
            if keys.contains(k) && k != keys.last() {
                let i = keys.index_of(k);
                assert(front[i] == k);
            }
            if k == keys.last() {
                assert(keys[keys.len() - 1] == k);
            }
        }
    }
}

/// What is left of the time of a key: `None` without the key, `Some(None)` without
/// an expiry time, and otherwise the milliseconds until then.
pub open spec fn time_left(s: StoreView, key: Seq<u8>, now: u64) -> Option<Option<int>> {
    match shown(s, key, now) {
        None => None,
        Some((_, None)) => Some(None),
        Some((_, Some(at))) => Some(Some(at - now)),
    }
}

/// A time to live as a mathematical number.
pub open spec fn as_number(ttl: Option<Option<i64>>) -> Option<Option<int>> {
    match ttl {
        None => None,
        Some(None) => Some(None),
        Some(Some(n)) => Some(Some(n as int)),
    }
}

/// Whether no expiry time is beyond the signed 64-bit numbers.
pub open spec fn in_range(s: StoreView, key: Seq<u8>) -> bool {
    s.shards[shard_of(key)].entries.contains_key(key) ==> (
    s.shards[shard_of(key)].entries[key].expires_at_ms matches Some(at) ==> at <= i64::MAX)
}

/// `Store::ttl_ms_at` and `Store::ttl_ms` say how much time a key has left, and
/// `Store::key_type_at` and `Store::key_type` of what kind it is; nothing that is
/// found changes.
pub proof fn law_store_asks(key: &[u8], now: u64)
    ensures
        forall|s: &mut Store, ttl: Option<Option<i64>>|
            s.wf() && in_range(s@, key@) && #[trigger] call_ensures(
                Store::ttl_ms_at,
                (s, key, now),
                ttl,
            ) ==> as_number(ttl) == time_left(s@, key@, now) && alike(s@, final(s)@, now),
        forall|s: &mut Store, ttl: Option<Option<i64>>|
            s.wf() && in_range(s@, key@) && #[trigger] call_ensures(Store::ttl_ms, (s, key), ttl)
                ==> exists|t: u64|
                as_number(ttl) == #[trigger] time_left(s@, key@, t) && alike(s@, final(s)@, t),
        forall|s: &mut Store, kind: Option<&'static str>|
            s.wf() && #[trigger] call_ensures(Store::key_type_at, (s, key, now), kind) ==> named(
                shown(s@, key@, now),
                kind,
            ) && alike(s@, final(s)@, now),
        forall|s: &mut Store, kind: Option<&'static str>|
            s.wf() && #[trigger] call_ensures(Store::key_type, (s, key), kind) ==> exists|t: u64|
                named(#[trigger] shown(s@, key@, t), kind) && alike(s@, final(s)@, t),
{
    assert forall|s: &mut Store, ttl: Option<Option<i64>>|
        s.wf() && in_range(s@, key@) && #[trigger] call_ensures(
            Store::ttl_ms_at,
            (s, key, now),
            ttl,
        ) implies as_number(ttl) == time_left(s@, key@, now) && alike(s@, final(s)@, now) by {
        s.lemma_routed();
        lemma_touched(s@, key@, now);
    }
    assert forall|s: &mut Store, ttl: Option<Option<i64>>|
        s.wf() && in_range(s@, key@) && #[trigger] call_ensures(
            Store::ttl_ms,
            (s, key),
            ttl,
        ) implies exists|t: u64|
        as_number(ttl) == #[trigger] time_left(s@, key@, t) && alike(s@, final(s)@, t) by {
        s.lemma_routed();
        let t = choose|t: u64|
            final(s)@ == #[trigger] s@.purge(key@, t) && ttl == s@.ttl(key@, t);
        lemma_touched(s@, key@, t);
        assert(as_number(ttl) == time_left(s@, key@, t));
    }
    assert forall|s: &mut Store, kind: Option<&'static str>|
        s.wf() && #[trigger] call_ensures(Store::key_type_at, (s, key, now), kind) implies named(
        shown(s@, key@, now),
        kind,
    ) && alike(s@, final(s)@, now) by {
        s.lemma_routed();
        lemma_touched(s@, key@, now);
    }
    assert forall|s: &mut Store, kind: Option<&'static str>|
        s.wf() && #[trigger] call_ensures(Store::key_type, (s, key), kind) implies exists|t: u64|
        named(#[trigger] shown(s@, key@, t), kind) && alike(s@, final(s)@, t) by {
        s.lemma_routed();
        let t = choose|t: u64|
            final(s)@ == #[trigger] s@.purge(key@, t) && match kind {
                Some(name) => s@.value(key@, t) matches Some(v) && name@ == v.kind(),
                None => s@.value(key@, t) is None,
            };
        lemma_touched(s@, key@, t);
        assert(named(shown(s@, key@, t), kind));
    }
}

/// Whether a name is that of the kind of what is found.
pub open spec fn named(
    found: Option<(ValueView, Option<u64>)>,
    kind: Option<&'static str>,
) -> bool {
    match found {
        None => kind is None,
        Some((value, _)) => kind matches Some(name) && name@ == (match value {
            ValueView::Str(_) => "string"@,
            ValueView::List(_) => "list"@,
            ValueView::Hash(_) => "hash"@,
            ValueView::Members(_) => "set"@,
            ValueView::Sorted(_) => "zset"@,
        }),
    }
}

/// Whether setting the expiry time of a key to `at_ms` turned `before` into
/// `after`.
pub open spec fn expiry_set(
    before: StoreView,
    key: Seq<u8>,
    at_ms: int,
    now: u64,
    done: bool,
    after: StoreView,
) -> bool {
    &&& done == (shown(before, key, now) is Some)
    &&& forall|k: Seq<u8>| k != key ==> #[trigger] shown(after, k, now) == shown(before, k, now)
    &&& forall|t: u64|
        t >= now ==> #[trigger] shown(after, key, t) == (match shown(before, key, now) {
            Some((value, _)) => if t < at_ms {
                Some((value, Some(at_ms as u64)))
            } else {
                None
            },
            None => None,
        })
}

/// Whether lifting the expiry time of a key turned `before` into `after`.
pub open spec fn expiry_lifted(
    before: StoreView,
    key: Seq<u8>,
    now: u64,
    done: bool,
    after: StoreView,
) -> bool {
    &&& done == (shown(before, key, now) matches Some((_, due)) && due is Some)
    &&& forall|k: Seq<u8>| k != key ==> #[trigger] shown(after, k, now) == shown(before, k, now)
    &&& forall|t: u64|
        t >= now ==> #[trigger] shown(after, key, t) == (match shown(before, key, now) {
            Some((value, _)) => Some((value, None::<u64>)),
            None => None,
        })
}

/// Setting an expiry time, at a time that is a signed 64-bit number, and lifting
/// one, does so for a key that is found and for no other.
pub proof fn law_expiry_times(s: StoreView, key: Seq<u8>, at_ms: i64, now: u64)
    requires
        s.shards.len() == NUM_SHARDS,
    ensures
        now <= i64::MAX ==> expiry_set(
            s,
            key,
            at_ms as int,
            now,
            s.holds(key, now),
            s.expire(key, at_ms, now),
        ),
        expiry_lifted(s, key, now, s.persists(key, now), s.persist(key, now)),
{
    lemma_touched(s, key, now);
}

/// `Store::expire_at`, `Store::expire`, `Store::persist_at` and `Store::persist`
/// set and lift the expiry time of a key as [`law_expiry_times`] says.
pub proof fn law_store_expiry(key: &[u8], at_ms: i64, now: u64)
    ensures
        now <= i64::MAX ==> forall|s: &mut Store, done: bool|
            s.wf() && #[trigger] call_ensures(Store::expire_at, (s, key, at_ms, now), done)
                ==> expiry_set(s@, key@, at_ms as int, now, done, final(s)@),
        forall|s: &mut Store, done: bool|
            s.wf() && #[trigger] call_ensures(Store::persist_at, (s, key, now), done)
                ==> expiry_lifted(s@, key@, now, done, final(s)@),
        forall|s: &mut Store, done: bool|
            s.wf() && #[trigger] call_ensures(Store::expire, (s, key, at_ms), done) ==> exists|
                t: u64,
            |
                final(s)@ == #[trigger] s@.expire(key@, at_ms, t) && done == (shown(
                    s@,
                    key@,
                    t,
                ) is Some),
        forall|s: &mut Store, done: bool|
            s.wf() && #[trigger] call_ensures(Store::persist, (s, key), done) ==> exists|t: u64|
                #[trigger] expiry_lifted(s@, key@, t, done, final(s)@),
{
    assert forall|s: &mut Store, done: bool|
        now <= i64::MAX && s.wf() && #[trigger] call_ensures(
            Store::expire_at,
            (s, key, at_ms, now),
            done,
        ) implies expiry_set(s@, key@, at_ms as int, now, done, final(s)@) by {
        s.lemma_routed();
        law_expiry_times(s@, key@, at_ms, now);
    }
    assert forall|s: &mut Store, done: bool|
        s.wf() && #[trigger] call_ensures(
            Store::persist_at,
            (s, key, now),
            done,
        ) implies expiry_lifted(s@, key@, now, done, final(s)@) by {
        s.lemma_routed();
        law_expiry_times(s@, key@, at_ms, now);
    }
    assert forall|s: &mut Store, done: bool|
        s.wf() && #[trigger] call_ensures(Store::expire, (s, key, at_ms), done) implies exists|
        t: u64,
    |
        final(s)@ == #[trigger] s@.expire(key@, at_ms, t) && done == (shown(
            s@,
            key@,
            t,
        ) is Some) by {
        s.lemma_routed();
        let t = choose|t: u64|
            final(s)@ == #[trigger] s@.expire(key@, at_ms, t) && done == s@.holds(key@, t);
        lemma_touched(s@, key@, t);
        assert(final(s)@ == s@.expire(key@, at_ms, t));
    }
    assert forall|s: &mut Store, done: bool|
        s.wf() && #[trigger] call_ensures(Store::persist, (s, key), done) implies exists|t: u64|
        #[trigger] expiry_lifted(s@, key@, t, done, final(s)@) by {
        s.lemma_routed();
        let t = choose|t: u64|
            final(s)@ == #[trigger] s@.persist(key@, t) && done == s@.persists(key@, t);
        law_expiry_times(s@, key@, at_ms, t);
        assert(expiry_lifted(s@, key@, t, done, final(s)@));
    }
}

/// A new store has no key, and flushing one leaves none.
pub proof fn law_store_empty(max: Option<usize>)
    ensures
        forall|s: Store| #[trigger]
            call_ensures(Store::new, (max,), s) ==> s.wf() && s@.max_keys_per_shard == max
                && s@.shards.len() == 16 && forall|k: Seq<u8>, t: u64| #[trigger]
                shown(s@, k, t) is None,
        forall|s: &mut Store| #[trigger]
            call_ensures(Store::flush_all, (s,), ()) && s.wf() ==> forall|k: Seq<u8>, t: u64|
                #[trigger] shown(final(s)@, k, t) is None,
{
    assert forall|s: &mut Store| #[trigger] call_ensures(Store::flush_all, (s,), ())
        && s.wf() implies forall|k: Seq<u8>, t: u64| #[trigger]
        shown(final(s)@, k, t) is None by {
        s.lemma_routed();
    }
}

/// `Store::load_entry` puts exactly this entry under the key, its last use
/// included, and leaves the other keys as they were.
pub proof fn law_store_load(key: Bytes, entry: Entry)
    ensures
        forall|s: &mut Store|
            s.wf() && #[trigger] call_ensures(Store::load_entry, (s, key, entry), ()) ==> {
                let k = content(key);
                let home = final(s)@.shards[shard_of(k)];
                &&& home.entries.contains_key(k)
                &&& home.entries[k] == entry@
                &&& forall|x: Seq<u8>, t: u64|
                    x != k ==> #[trigger] shown(final(s)@, x, t) == shown(s@, x, t)
            },
{
    assert forall|s: &mut Store|
        s.wf() && #[trigger] call_ensures(Store::load_entry, (s, key, entry), ()) implies {
        let k = content(key);
        let home = final(s)@.shards[shard_of(k)];
        &&& home.entries.contains_key(k)
        &&& home.entries[k] == entry@
        &&& forall|x: Seq<u8>, t: u64|
            x != k ==> #[trigger] shown(final(s)@, x, t) == shown(s@, x, t)
    } by {
        s.lemma_routed();
    }
}

/// Whether `list` has every key that is found at the time `now` with its entry,
/// each once, and nothing else.
pub open spec fn lists_found(
    s: StoreView,
    list: Seq<(Seq<u8>, EntryView)>,
    now: u64,
) -> bool {
    &&& forall|k: Seq<u8>|
        #[trigger] shown(s, k, now) is Some ==> list.contains(
            (k, s.shards[shard_of(k)].entries[k]),
        )
    &&& forall|i: int|
        0 <= i < list.len() ==> shown(s, (#[trigger] list[i]).0, now) is Some && list[i].1
            == s.shards[shard_of(list[i].0)].entries[list[i].0]
    &&& forall|i: int, j: int| 0 <= i < j < list.len() ==> list[i].0 != list[j].0
}

pub(crate) proof fn lemma_lists(s: StoreView, list: Seq<(Seq<u8>, EntryView)>, now: u64)
    requires
        s.lists_live(list, now),
    ensures
        lists_found(s, list, now),
{
    lemma_shown(s, now);
    let keys = s.lemma_lists_live(list, now);
    assert forall|k: Seq<u8>| #[trigger] shown(s, k, now) is Some implies list.contains(
        (k, s.shards[shard_of(k)].entries[k]),
    ) by {
        assert(s.holds(k, now));
        assert(keys.contains(k));
        let i = keys.index_of(k);
        assert(list[i] == (keys[i], s.entry(keys[i])));
    }
    assert forall|i: int| 0 <= i < list.len() implies shown(
        s,
        (#[trigger] list[i]).0,
        now,
    ) is Some && list[i].1 == s.shards[shard_of(list[i].0)].entries[list[i].0] by {
        assert(keys.contains(keys[i]));
        assert(s.holds(keys[i], now));
    }
    assert forall|i: int, j: int| 0 <= i < j < list.len() implies list[i].0 != list[j].0 by {
        assert(list[i] == (keys[i], s.entry(keys[i])));
        assert(list[j] == (keys[j], s.entry(keys[j])));
    }
}

/// `Store::snapshot_all_locked_at` and `Store::snapshot_all_locked` list every key
/// that is found, with its entry, each once, and nothing else.
pub proof fn law_store_lists(s: &Store, now: u64)
    ensures
        forall|list: Vec<(Bytes, Entry)>| #[trigger]
            call_ensures(Store::snapshot_all_locked_at, (s, now), list) ==> lists_found(
                s@,
                pairs_of(list@),
                now,
            ),
        forall|list: Vec<(Bytes, Entry)>| #[trigger]
            call_ensures(Store::snapshot_all_locked, (s,), list) ==> exists|t: u64| #[trigger]
                lists_found(s@, pairs_of(list@), t),
{
    assert forall|list: Vec<(Bytes, Entry)>| #[trigger] call_ensures(
        Store::snapshot_all_locked_at,
        (s, now),
        list,
    ) implies lists_found(s@, pairs_of(list@), now) by {
        lemma_lists(s@, pairs_of(list@), now);
    }
    assert forall|list: Vec<(Bytes, Entry)>| #[trigger] call_ensures(
        Store::snapshot_all_locked,
        (s,),
        list,
    ) implies exists|t: u64| #[trigger] lists_found(s@, pairs_of(list@), t) by {
        let t = choose|t: u64| #[trigger] s@.lists_live(pairs_of(list@), t);
        lemma_lists(s@, pairs_of(list@), t);
    }
}

/// Whether a round of active expiry at the time `now` can have turned `before` into
/// `after`: only keys that are not found any more are gone, and everything else
/// is exactly as it was.
pub open spec fn only_expired_gone(before: StoreView, after: StoreView, now: u64) -> bool {
    &&& after.max_keys_per_shard == before.max_keys_per_shard
    &&& after.shards.len() == before.shards.len()
    &&& forall|i: int|
        0 <= i < before.shards.len() ==> (#[trigger] after.shards[i]).clock
            == before.shards[i].clock
    &&& forall|i: int, k: Seq<u8>|
        0 <= i < before.shards.len() && #[trigger] after.shards[i].entries.contains_key(k)
            ==> before.shards[i].entries.contains_key(k) && after.shards[i].entries[k]
            == before.shards[i].entries[k]
    &&& forall|i: int, k: Seq<u8>|
        0 <= i < before.shards.len() && #[trigger] before.shards[i].entries.contains_key(k) && !(
        before.shards[i].entries[k].expires_at_ms matches Some(at) && at <= now)
            ==> after.shards[i].entries.contains_key(k)
}

proof fn lemma_swept(before: StoreView, after: StoreView, now: u64)
    requires
        before.sweeps(now, after),
    ensures
        only_expired_gone(before, after, now),
{
    assert forall|i: int| 0 <= i < before.shards.len() implies (
    #[trigger] after.shards[i]).clock == before.shards[i].clock by {
        assert(crate::store::shard_swept(before.shards[i], now, after.shards[i]));
    }
    assert forall|i: int, k: Seq<u8>|
        0 <= i < before.shards.len() && #[trigger] after.shards[i].entries.contains_key(
            k,
        ) implies before.shards[i].entries.contains_key(k) && after.shards[i].entries[k]
        == before.shards[i].entries[k] by {
        assert(crate::store::shard_swept(before.shards[i], now, after.shards[i]));
    }
    assert forall|i: int, k: Seq<u8>|
        0 <= i < before.shards.len() && #[trigger] before.shards[i].entries.contains_key(k) && !(
        before.shards[i].entries[k].expires_at_ms matches Some(at) && at <= now) implies
        after.shards[i].entries.contains_key(k) by {
        assert(crate::store::shard_swept(before.shards[i], now, after.shards[i]));
    }
}

/// `Store::active_expire_cycle_at` and `Store::active_expire_cycle` take nothing
/// away but keys whose expiry time has come.
pub proof fn law_store_sweeps(now: u64)
    ensures
        forall|s: &mut Store| #[trigger]
            call_ensures(Store::active_expire_cycle_at, (s, now), ()) ==> only_expired_gone(
                s@,
                final(s)@,
                now,
            ) && s.swept_to(now, *final(s)),
        forall|s: &mut Store| #[trigger]
            call_ensures(Store::active_expire_cycle, (s,), ()) ==> exists|t: u64| #[trigger]
                only_expired_gone(s@, final(s)@, t) && s.swept_to(t, *final(s)),
{
    assert forall|s: &mut Store| #[trigger] call_ensures(
        Store::active_expire_cycle_at,
        (s, now),
        (),
    ) implies only_expired_gone(s@, final(s)@, now) && s.swept_to(now, *final(s)) by {
        lemma_swept(s@, final(s)@, now);
    }
    assert forall|s: &mut Store| #[trigger] call_ensures(
        Store::active_expire_cycle,
        (s,),
        (),
    ) implies exists|t: u64| #[trigger]
        only_expired_gone(s@, final(s)@, t) && s.swept_to(t, *final(s)) by {
        let t = choose|t: u64| #[trigger]
            s@.sweeps(t, final(s)@) && s.swept_to(t, *final(s));
        lemma_swept(s@, final(s)@, t);
    }
}

/// Changing a value in place gives the key the new value and leaves it the expiry
/// time that it had, and leaves the other keys as they were, but that a limit may
/// take some away.
pub proof fn law_changing(
    before: StoreView,
    key: Seq<u8>,
    now: u64,
    value: ValueView,
    after: StoreView,
)
    requires
        before.shards.len() == NUM_SHARDS,
        before.max_keys_per_shard != Some(0usize),
        before.changes(key, now, value, after),
    ensures
        alike_but(before, after, key, now),
        shown(after, key, now) == Some(
            (
                value,
                match shown(before, key, now) {
                    Some((_, due)) => due,
                    None => None,
                },
            ),
        ),
{
    lemma_kept(before, key, now, value, after);
    lemma_shown(before, now);
    let mid = before.change(key, now, value);
    let full = mid.home(key);
    let shard = choose|shard: ShardView| #[trigger]
        cut(full, key, before.max_keys_per_shard, shard) && after == mid.with_home(key, shard);
    assert forall|k: Seq<u8>| k != key implies (#[trigger] shown(after, k, now) == shown(
        before,
        k,
        now,
    ) || (before.max_keys_per_shard is Some && shown(after, k, now) is None)) by {
        if shard_of(k) == shard_of(key) {
            if shard.entries.contains_key(k) {
                assert(shard.entries.dom().contains(k));
                assert(full.entries.dom().contains(k));
                assert(shard.entries[k] == full.entries[k]);
            } else if before.max_keys_per_shard is None {
                assert(shard.entries == full.entries);
            }
        }
    }
}

/// `Store::with_entry_mut_at` calls the function on the value that is found, or on
/// the default where none is, returns what it returns, and keeps what it leaves.
pub proof fn law_store_changes<T, D: FnOnce() -> Value, F: FnOnce(&mut Value) -> T>(
    key: &Bytes,
    default: D,
    f: F,
    now: u64,
)
    ensures
        forall|s: &mut Store, result: T|
            s.wf() && s@.max_keys_per_shard != Some(0usize) && #[trigger] call_ensures(
                Store::with_entry_mut_at::<T, D, F>,
                (s, key, default, f, now),
                result,
            ) ==> exists|v: &mut Value|
                {
                    &&& #[trigger] f.ensures((v,), result)
                    &&& match shown(s@, content(*key), now) {
                        Some((value, _)) => v@ == value,
                        None => exists|d: Value| #[trigger] default.ensures((), d) && v@ == d@,
                    }
                    &&& shown(final(s)@, content(*key), now) == Some(
                        (
                            final(v)@,
                            match shown(s@, content(*key), now) {
                                Some((_, due)) => due,
                                None => None,
                            },
                        ),
                    )
                    &&& alike_but(s@, final(s)@, content(*key), now)
                },
{
    assert forall|s: &mut Store, result: T|
        s.wf() && s@.max_keys_per_shard != Some(0usize) && #[trigger] call_ensures(
            Store::with_entry_mut_at::<T, D, F>,
            (s, key, default, f, now),
            result,
        ) implies exists|v: &mut Value|
        {
            &&& #[trigger] f.ensures((v,), result)
            &&& match shown(s@, content(*key), now) {
                Some((value, _)) => v@ == value,
                None => exists|d: Value| #[trigger] default.ensures((), d) && v@ == d@,
            }
            &&& shown(final(s)@, content(*key), now) == Some(
                (
                    final(v)@,
                    match shown(s@, content(*key), now) {
                        Some((_, due)) => due,
                        None => None,
                    },
                ),
            )
            &&& alike_but(s@, final(s)@, content(*key), now)
        } by {
        s.lemma_routed();
        let k = content(*key);
        lemma_touched(s@, k, now);
        let v = choose|v: &mut Value|
            {
                &&& #[trigger] f.ensures((v,), result)
                &&& v.wf()
                &&& match s@.value(k, now) {
                    Some(value) => v@ == value,
                    None => exists|d: Value| #[trigger] default.ensures((), d) && v@ == d@,
                }
                &&& s@.changes(k, now, final(v)@, final(s)@)
            };
        law_changing(s@, k, now, final(v)@, final(s)@);
    }
}

/// After `MSET` the last key has its value, whatever the limit, and the reply is
/// OK.
pub proof fn law_last_of_many_is_set(
    before: StoreView,
    channels: Set<Seq<u8>>,
    pairs: Seq<(Seq<u8>, Seq<u8>)>,
    now: u64,
    reply: ReplyView,
    after: StoreView,
)
    requires
        before.shards.len() == NUM_SHARDS,
        before.max_keys_per_shard != Some(0usize),
        pairs.len() > 0,
        outcome(before, channels, CommandView::MSet(pairs), now, reply, after),
    ensures
        reply == ReplyView::Simple("OK"@),
        shown(after, pairs.last().0, now) == Some(
            (ValueView::Str(pairs.last().1), None::<u64>),
        ),
{
    let states = choose|states: Seq<StoreView>| #[trigger]
        mset_states(states, pairs, now) && states.first() == before && states.last() == after;
    let n = pairs.len() - 1;
    lemma_msets(before, states, pairs, n, now);
    let (key, data) = pairs[n];
    let entry = string_entry(data);
    assert(states[n].sets(key, entry, false, false, now, states[n + 1]));
    law_setting(states[n], key, entry, false, false, now, states[n + 1]);
}

} // verus!
