//! The keyspace as a whole: every key in the shard that its hash assigns.

use bytes::Bytes;
use vstd::prelude::*;

use crate::buf::{content, contents};
use crate::bytemap::{fnv1a, fnv1a_spec};
use crate::shard::{
    all_wf, cut, lists_keys, now_ms, pairs_of, set_allowed, set_effect, swept, ttl_spec, Shard,
    ShardView,
};
use crate::value::{Entry, EntryView, Value, ValueView};

verus! {

/// How many shards the keyspace is divided into.
pub const NUM_SHARDS: usize = 16;

/// Which shard `key` belongs to.
pub open spec fn shard_of(key: Seq<u8>) -> int {
    (fnv1a_spec(key) % 16) as int
}

/// What a store holds: its shards, and how many keys each of them may have.
#[verifier::ext_equal]
pub struct StoreView {
    pub shards: Seq<ShardView>,
    pub max_keys_per_shard: Option<usize>,
}

impl StoreView {
    /// The shard that `key` belongs to.
    pub open spec fn home(self, key: Seq<u8>) -> ShardView {
        self.shards[shard_of(key)]
    }

    /// The store with another state of the shard that `key` belongs to.
    pub open spec fn with_home(self, key: Seq<u8>, shard: ShardView) -> StoreView {
        StoreView { shards: self.shards.update(shard_of(key), shard), ..self }
    }

    /// Whether `key` is live.
    pub open spec fn holds(self, key: Seq<u8>, now: u64) -> bool {
        self.home(key).holds(key, now)
    }

    /// The entry under `key`.
    pub open spec fn entry(self, key: Seq<u8>) -> EntryView {
        self.home(key).entries[key]
    }

    /// The value of `key`, if it is live.
    pub open spec fn value(self, key: Seq<u8>, now: u64) -> Option<ValueView> {
        if self.holds(key, now) {
            Some(self.entry(key).value)
        } else {
            None
        }
    }

    /// The store after `key` was looked up: purged if expired.
    pub open spec fn purge(self, key: Seq<u8>, now: u64) -> StoreView {
        self.with_home(key, self.home(key).purge(key, now))
    }

    /// The store after a use of `key`.
    pub open spec fn touch(self, key: Seq<u8>, now: u64) -> StoreView {
        self.with_home(key, self.home(key).touch(key, now))
    }

    /// The store after a use of each of `keys` in turn.
    pub open spec fn touch_all(self, keys: Seq<Seq<u8>>, now: u64) -> StoreView
        decreases keys.len(),
    {
        if keys.len() == 0 {
            self
        } else {
            self.touch_all(keys.drop_last(), now).touch(keys.last(), now)
        }
    }

    /// The store without `key`.
    pub open spec fn drop_key(self, key: Seq<u8>) -> StoreView {
        self.with_home(key, self.home(key).drop_key(key))
    }

    /// Whether eviction may turn the store, where `key` was just used, into
    /// `after`.
    pub open spec fn settles(self, key: Seq<u8>, after: StoreView) -> bool {
        exists|shard: ShardView| #[trigger]
            cut(self.home(key), key, self.max_keys_per_shard, shard) && after == self.with_home(
                key,
                shard,
            )
    }

    /// Whether changing the value of `key` in place may turn the store into
    /// `after`: then the least recently used keys go where the shard has too
    /// many.
    pub open spec fn changes(
        self,
        key: Seq<u8>,
        now: u64,
        value: ValueView,
        after: StoreView,
    ) -> bool {
        self.change(key, now, value).settles(key, after)
    }

    /// The store after the value of `key` was changed in place.
    pub open spec fn change(self, key: Seq<u8>, now: u64, value: ValueView) -> StoreView {
        self.with_home(key, self.home(key).change(key, now, value))
    }

    /// The store after the value of the live key `key` was changed in place,
    /// where a collection without elements goes together with its key.
    pub open spec fn edit(self, key: Seq<u8>, now: u64, value: ValueView) -> StoreView {
        self.with_home(key, self.home(key).edit(key, now, value))
    }

    /// The store after `keys` were looked up.
    pub open spec fn purge_all(self, keys: Seq<Seq<u8>>, now: u64) -> StoreView
        decreases keys.len(),
    {
        if keys.len() == 0 {
            self
        } else {
            self.purge_all(keys.drop_last(), now).purge(keys.last(), now)
        }
    }

    /// The store without `keys`.
    pub open spec fn drop_all(self, keys: Seq<Seq<u8>>) -> StoreView
        decreases keys.len(),
    {
        if keys.len() == 0 {
            self
        } else {
            self.drop_all(keys.drop_last()).drop_key(keys.last())
        }
    }

    /// How many of `keys` are live, a repeated one counted each time.
    pub open spec fn count_live(self, keys: Seq<Seq<u8>>, now: u64) -> nat
        decreases keys.len(),
    {
        if keys.len() == 0 {
            0
        } else {
            self.count_live(keys.drop_last(), now) + if self.holds(keys.last(), now) {
                1nat
            } else {
                0nat
            }
        }
    }

    /// How many live keys go when `keys` are removed in order.
    pub open spec fn count_dropped(self, keys: Seq<Seq<u8>>, now: u64) -> nat
        decreases keys.len(),
    {
        if keys.len() == 0 {
            0
        } else {
            self.count_dropped(keys.drop_last(), now) + if self.drop_all(keys.drop_last()).holds(
                keys.last(),
                now,
            ) {
                1nat
            } else {
                0nat
            }
        }
    }

    /// The effect of [`Store::expire_at`].
    pub open spec fn expire(self, key: Seq<u8>, at_ms: i64, now: u64) -> StoreView {
        self.with_home(
            key,
            if !self.holds(key, now) {
                self.home(key).purge(key, now)
            } else if at_ms <= now as i64 {
                self.home(key).drop_key(key)
            } else {
                self.home(key).with_expiry(key, Some(at_ms as u64))
            },
        )
    }

    /// Whether [`Store::persist_at`] takes an expiry time off `key`.
    pub open spec fn persists(self, key: Seq<u8>, now: u64) -> bool {
        self.holds(key, now) && self.entry(key).expires_at_ms is Some
    }

    /// The effect of [`Store::persist_at`].
    pub open spec fn persist(self, key: Seq<u8>, now: u64) -> StoreView {
        self.with_home(
            key,
            if self.persists(key, now) {
                self.home(key).with_expiry(key, None)
            } else {
                self.home(key).purge(key, now)
            },
        )
    }

    /// Time to live of `key`: `None` if it is not live, `Some(None)` if it has
    /// no expiry time.
    pub open spec fn ttl(self, key: Seq<u8>, now: u64) -> Option<Option<i64>> {
        if self.holds(key, now) {
            Some(
                match self.entry(key).expires_at_ms {
                    Some(at) => Some(ttl_spec(at, now)),
                    None => None,
                },
            )
        } else {
            None
        }
    }

    /// Whether setting `key` to `entry` may turn the store into `after`.
    pub open spec fn sets(
        self,
        key: Seq<u8>,
        entry: EntryView,
        nx: bool,
        xx: bool,
        now: u64,
        after: StoreView,
    ) -> bool {
        exists|shard: ShardView| #[trigger]
            set_effect(
                self.home(key),
                key,
                entry,
                set_allowed(self.holds(key, now), nx, xx),
                self.max_keys_per_shard,
                now,
                shard,
            ) && after == self.with_home(key, shard)
    }

    /// The store without any key.
    pub open spec fn flushed(self) -> StoreView {
        StoreView {
            shards: self.shards.map_values(
                |s: ShardView| ShardView { entries: Map::empty(), ..s },
            ),
            ..self
        }
    }

    /// Every key that is live.
    pub open spec fn live_keys(self, now: u64) -> Set<Seq<u8>> {
        Set::new(|k: Seq<u8>| self.holds(k, now))
    }

    /// The store with `entry` under `key`.
    pub open spec fn load(self, key: Seq<u8>, entry: EntryView) -> StoreView {
        self.with_home(
            key,
            ShardView { entries: self.home(key).entries.insert(key, entry), ..self.home(key) },
        )
    }

    /// Whether `list` holds every live key with its entry, each once.
    pub open spec fn lists_live(self, list: Seq<(Seq<u8>, EntryView)>, now: u64) -> bool {
        exists|keys: Seq<Seq<u8>>|
            {
                &&& keys.no_duplicates()
                &&& #[trigger] keys.to_set() == self.live_keys(now)
                &&& list == keys.map_values(|k: Seq<u8>| (k, self.entry(k)))
            }
    }

    /// Whether a round of active expiry may turn the store into `after`.
    pub open spec fn sweeps(self, now: u64, after: StoreView) -> bool {
        &&& after.max_keys_per_shard == self.max_keys_per_shard
        &&& after.shards.len() == self.shards.len()
        &&& forall|i: int|
            0 <= i < self.shards.len() ==> shard_swept(
                self.shards[i],
                now,
                #[trigger] after.shards[i],
            )
    }

    /// A list of what is live names every live key once, each with its entry.
    pub proof fn lemma_lists_live(self, list: Seq<(Seq<u8>, EntryView)>, now: u64) -> (keys: Seq<
        Seq<u8>,
    >)
        requires
            self.lists_live(list, now),
        ensures
            keys.no_duplicates(),
            keys.len() == list.len(),
            forall|k: Seq<u8>| #[trigger] keys.contains(k) <==> self.holds(k, now),
            forall|i: int|
                0 <= i < list.len() ==> #[trigger] list[i] == (keys[i], self.entry(keys[i])),
    {
        let keys = choose|keys: Seq<Seq<u8>>|
            {
                &&& keys.no_duplicates()
                &&& #[trigger] keys.to_set() == self.live_keys(now)
                &&& list == keys.map_values(|k: Seq<u8>| (k, self.entry(k)))
            };
        assert forall|k: Seq<u8>| #[trigger] keys.contains(k) <==> self.holds(k, now) by {
            assert(keys.contains(k) <==> keys.to_set().contains(k));
        }
        keys
    }

    /// A use of keys does not change what any key holds.
    pub proof fn lemma_touch_all_keeps_values(self, keys: Seq<Seq<u8>>, key: Seq<u8>, now: u64)
        requires
            self.shards.len() == NUM_SHARDS,
        ensures
            self.touch_all(keys, now).shards.len() == NUM_SHARDS,
            self.touch_all(keys, now).value(key, now) == self.value(key, now),
        decreases keys.len(),
    {
        if keys.len() > 0 {
            self.lemma_touch_all_keeps_values(keys.drop_last(), key, now);
        }
    }

    /// Looking keys up does not change which keys are live.
    pub proof fn lemma_purge_all_keeps_live(self, keys: Seq<Seq<u8>>, key: Seq<u8>, now: u64)
        requires
            self.shards.len() == NUM_SHARDS,
        ensures
            self.purge_all(keys, now).shards.len() == NUM_SHARDS,
            self.purge_all(keys, now).holds(key, now) == self.holds(key, now),
        decreases keys.len(),
    {
        if keys.len() > 0 {
            self.lemma_purge_all_keeps_live(keys.drop_last(), key, now);
        }
    }

    /// The shape of a store: sixteen shards, and every key in its own.
    pub open spec fn routed(self) -> bool {
        &&& self.shards.len() == NUM_SHARDS
        &&& forall|i: int, k: Seq<u8>|
            0 <= i < NUM_SHARDS && #[trigger] self.shards[i].entries.contains_key(k) ==> shard_of(k)
                == i
    }
}

/// Whether a round of active expiry may turn the shard `before` into `after`,
/// in whatever order its entries lie.
pub open spec fn shard_swept(before: ShardView, now: u64, after: ShardView) -> bool {
    exists|order: Seq<Seq<u8>>| #[trigger]
        lists_keys(order, before.entries) && after == before.sweep(order, now)
}

/// Changing the home of a key keeps every key where it belongs, if nothing but
/// that key comes in.
proof fn lemma_with_home_routed(view: StoreView, key: Seq<u8>, shard: ShardView)
    requires
        view.routed(),
        forall|k: Seq<u8>| #[trigger]
            shard.entries.contains_key(k) ==> k == key || view.home(key).entries.contains_key(k),
    ensures
        view.with_home(key, shard).routed(),
{
    let new = view.with_home(key, shard);
    assert forall|i: int, k: Seq<u8>|
        0 <= i < NUM_SHARDS && #[trigger] new.shards[i].entries.contains_key(k) implies shard_of(k)
        == i by {
        if i != shard_of(key) {
            assert(view.shards[i].entries.contains_key(k));
        } else if k != key {
            assert(view.shards[i].entries.contains_key(k));
        }
    }
}

/// The keyspace: shards that each hold the keys of their own.
pub struct Store {
    shards: Vec<Shard>,
    max_keys_per_shard: Option<usize>,
}

impl Store {
    /// What the store holds.
    pub closed spec fn view(&self) -> StoreView {
        StoreView {
            shards: Seq::new(self.shards@.len(), |i: int| self.shards@[i]@),
            max_keys_per_shard: self.max_keys_per_shard,
        }
    }

    /// The invariant: every shard is well-formed, and every key is in the shard
    /// that it belongs to.
    pub closed spec fn wf(&self) -> bool {
        &&& self@.routed()
        &&& forall|i: int| 0 <= i < self.shards@.len() ==> (#[trigger] self.shards@[i]).wf()
    }

    /// The keys of a shard in the order in which its entries lie.
    pub closed spec fn order(&self, i: int) -> Seq<Seq<u8>> {
        self.shards@[i].order()
    }

    /// The order of a shard lists every key of it once.
    pub proof fn lemma_order(&self, i: int)
        requires
            self.wf(),
            0 <= i < NUM_SHARDS,
        ensures
            lists_keys(self.order(i), self@.shards[i].entries),
            self@.shards[i].entries.dom().finite(),
            self@.shards[i].entries.dom().len() == self.order(i).len(),
            self.order(i).len() <= usize::MAX,
    {
        assert(self.shards@[i].wf());
        self.shards@[i].lemma_order();
    }

    /// Whether a round of active expiry at the time `now` turns the store into
    /// `after`: each shard is looked at from its cursor on.
    pub open spec fn swept_to(&self, now: u64, after: Store) -> bool {
        &&& after@.max_keys_per_shard == self@.max_keys_per_shard
        &&& after@.shards.len() == self@.shards.len()
        &&& forall|i: int|
            0 <= i < self@.shards.len() ==> swept(
                self@.shards[i],
                self.order(i),
                now,
                #[trigger] after@.shards[i],
                after.order(i),
            )
    }

    /// A well-formed store has every key where it belongs.
    pub proof fn lemma_routed(&self)
        requires
            self.wf(),
        ensures
            self@.routed(),
    {
    }

    /// No key of a well-formed store holds a collection without elements.
    pub proof fn law_no_empty_collections(&self, key: Seq<u8>)
        requires
            self.wf(),
        ensures
            self@.home(key).entries.contains_key(key) ==> !self@.entry(key).value.is_hollow(),
    {
        assert(self.shards@[shard_of(key)].wf());
        self.shards@[shard_of(key)].lemma_not_hollow(key);
    }

    /// An empty store, whose shards hold at most `max_keys_per_shard` keys each
    /// if that is given.
    pub fn new(max_keys_per_shard: Option<usize>) -> (store: Self)
        ensures
            store.wf(),
            store@ == (StoreView {
                shards: Seq::new(
                    NUM_SHARDS as nat,
                    |i: int| ShardView { entries: Map::empty(), clock: 0, cursor: 0 },
                ),
                max_keys_per_shard,
            }),
    {
        let mut shards: Vec<Shard> = Vec::new();
        let mut i: usize = 0;
        while i < NUM_SHARDS
            invariant
                i <= NUM_SHARDS,
                shards@.len() == i,
                forall|j: int|
                    0 <= j < i ==> (#[trigger] shards@[j]).wf() && shards@[j]@ == (ShardView {
                        entries: Map::empty(),
                        clock: 0,
                        cursor: 0,
                    }),
            decreases NUM_SHARDS - i,
        {
            shards.push(Shard::new());
            i = i + 1;
        }
        let store = Self { shards, max_keys_per_shard };
        assert(store@.shards =~= Seq::new(
            NUM_SHARDS as nat,
            |i: int| ShardView { entries: Map::empty(), clock: 0, cursor: 0 },
        ));
        store
    }

    /// Which shard `key` belongs to.
    pub fn shard_index(key: &[u8]) -> (index: usize)
        ensures
            index == shard_of(key@),
            index < NUM_SHARDS,
    {
        (fnv1a(key) % 16) as usize
    }

    /// Number of shards.
    pub fn num_shards(&self) -> (n: usize)
        ensures
            n == self@.shards.len(),
    {
        self.shards.len()
    }

    /// The value of `key` at the time `now` for reading, if it is live. Counts as
    /// a use.
    pub fn read_at(&mut self, key: &[u8], now: u64) -> (value: Option<&Value>)
        requires
            old(self).wf(),
        ensures
            final(self).wf(),
            final(self)@ == old(self)@.touch(key@, now),
            match value {
                Some(v) => v.wf() && old(self)@.value(key@, now) == Some(v@),
                None => old(self)@.value(key@, now) is None,
            },
    {
        let idx: usize = Self::shard_index(key);
        proof {
            let was = *self;
            let k = key@;
            assert forall|new: Store|
                {
                    &&& new.max_keys_per_shard == was.max_keys_per_shard
                    &&& new.shards@.len() == was.shards@.len()
                    &&& forall|j: int|
                        0 <= j < was.shards@.len() && j != idx ==> new.shards@[j] == was.shards@[j]
                    &&& new.shards@[idx as int]@ == was@.home(k).touch(k, now)
                } implies #[trigger] new@ == was@.touch(k, now) && new@.routed() by {
                assert(new@.shards =~= was@.touch(k, now).shards);
                lemma_with_home_routed(was@, k, was@.home(k).touch(k, now));
            }
        }
        self.shards[idx].read_at(key, now)
    }

    /// A copy of the value of `key` at the time `now`, if it is live. Counts as a
    /// use.
    pub fn get_at(&mut self, key: &[u8], now: u64) -> (value: Option<Value>)
        requires
            old(self).wf(),
        ensures
            final(self).wf(),
            final(self)@ == old(self)@.touch(key@, now),
            match value {
                Some(v) => v.wf() && old(self)@.value(key@, now) == Some(v@),
                None => old(self)@.value(key@, now) is None,
            },
    {
        let idx: usize = Self::shard_index(key);
        let value = self.shards[idx].get_at(key, now);
        assert(self@.shards =~= old(self)@.touch(key@, now).shards);
        value
    }

    /// The value of `key`, if it is live by the system clock.
    pub fn get(&mut self, key: &[u8]) -> (value: Option<Value>)
        requires
            old(self).wf(),
        ensures
            final(self).wf(),
            exists|now: u64|
                final(self)@ == #[trigger] old(self)@.touch(key@, now) && match value {
                    Some(v) => v.wf() && old(self)@.value(key@, now) == Some(v@),
                    None => old(self)@.value(key@, now) is None,
                },
    {
        let now: u64 = now_ms();
        self.get_at(key, now)
    }

    /// Sets `key` at the time `now`, unless `nx` is asked for and it is live,
    /// or `xx` and it is not. Returns whether it was set. Then the least
    /// recently used keys go where the shard has too many.
    pub fn set_at(
        &mut self,
        key: Bytes,
        value: Value,
        expires_at_ms: Option<u64>,
        nx: bool,
        xx: bool,
        now: u64,
    ) -> (done: bool)
        requires
            old(self).wf(),
            value.wf(),
            !value@.is_hollow(),
        ensures
            final(self).wf(),
            done == set_allowed(old(self)@.holds(content(key), now), nx, xx),
            old(self)@.sets(
                content(key),
                EntryView { value: value@, expires_at_ms, last_access: 0 },
                nx,
                xx,
                now,
                final(self)@,
            ),
    {
        let idx: usize = Self::shard_index(&key);
        let max: Option<usize> = self.max_keys_per_shard;
        let ghost k = content(key);
        let ghost entry = EntryView { value: value@, expires_at_ms, last_access: 0 };
        let done: bool = self.shards[idx].set_at(key, value, expires_at_ms, nx, xx, max, now);
        proof {
            let shard = self.shards@[idx as int]@;
            assert(self@.shards =~= old(self)@.with_home(k, shard).shards);
            assert(set_effect(
                old(self)@.home(k),
                k,
                entry,
                set_allowed(old(self)@.holds(k, now), nx, xx),
                old(self)@.max_keys_per_shard,
                now,
                shard,
            ));
            let full = old(self)@.home(k).purge(k, now).put(k, entry);
            assert forall|x: Seq<u8>| #[trigger] shard.entries.contains_key(x) implies x == k
                || old(self)@.home(k).entries.contains_key(x) by {
                if done {
                    assert(full.entries.contains_key(x));
                }
            }
            lemma_with_home_routed(old(self)@, k, shard);
        }
        done
    }

    /// Sets `key` by the system clock; see [`Store::set_at`].
    pub fn set(
        &mut self,
        key: Bytes,
        value: Value,
        expires_at_ms: Option<u64>,
        nx: bool,
        xx: bool,
    ) -> (done: bool)
        requires
            old(self).wf(),
            value.wf(),
            !value@.is_hollow(),
        ensures
            final(self).wf(),
            exists|now: u64|
                done == set_allowed(#[trigger] old(self)@.holds(content(key), now), nx, xx)
                    && old(self)@.sets(
                    content(key),
                    EntryView { value: value@, expires_at_ms, last_access: 0 },
                    nx,
                    xx,
                    now,
                    final(self)@,
                ),
    {
        let now: u64 = now_ms();
        self.set_at(key, value, expires_at_ms, nx, xx, now)
    }

    /// Removes `keys`. Returns how many of them were live at the time `now`.
    pub fn del_at(&mut self, keys: &[Bytes], now: u64) -> (removed: i64)
        requires
            old(self).wf(),
        ensures
            final(self).wf(),
            final(self)@ == old(self)@.drop_all(contents(keys@)),
            removed == old(self)@.count_dropped(contents(keys@), now) as i64,
    {
        let mut removed: usize = 0;
        let mut i: usize = 0;
        let ghost all = contents(keys@);
        assert(all.take(0) =~= Seq::<Seq<u8>>::empty());
        while i < keys.len()
            invariant
                self.wf(),
                all == contents(keys@),
                i <= keys@.len(),
                removed <= i,
                self@ == old(self)@.drop_all(all.take(i as int)),
                removed == old(self)@.count_dropped(all.take(i as int), now),
            decreases keys@.len() - i,
        {
            let key: &Bytes = &keys[i];
            let idx: usize = Self::shard_index(key);
            let ghost before = *self;
            if self.shards[idx].del_at(key, now) {
                removed = removed + 1;
            }
            proof {
                let next = all.take(i + 1);
                assert(next.drop_last() =~= all.take(i as int));
                assert(next.last() == content(*key));
                assert(self@.shards =~= before@.drop_key(content(*key)).shards);
            }
            i = i + 1;
        }
        assert(all.take(all.len() as int) =~= all);
        removed as i64
    }

    /// Removes `keys`. Returns how many of them were live by the system clock.
    pub fn del(&mut self, keys: &[Bytes]) -> (removed: i64)
        requires
            old(self).wf(),
        ensures
            final(self).wf(),
            final(self)@ == old(self)@.drop_all(contents(keys@)),
            exists|now: u64|
                removed == #[trigger] old(self)@.count_dropped(contents(keys@), now) as i64,
    {
        let now: u64 = now_ms();
        self.del_at(keys, now)
    }

    /// How many of `keys` are live at the time `now`.
    pub fn count_existing_at(&mut self, keys: &[Bytes], now: u64) -> (count: i64)
        requires
            old(self).wf(),
        ensures
            final(self).wf(),
            final(self)@ == old(self)@.purge_all(contents(keys@), now),
            count == old(self)@.count_live(contents(keys@), now) as i64,
    {
        let mut count: usize = 0;
        let mut i: usize = 0;
        let ghost all = contents(keys@);
        assert(all.take(0) =~= Seq::<Seq<u8>>::empty());
        while i < keys.len()
            invariant
                self.wf(),
                old(self).wf(),
                all == contents(keys@),
                i <= keys@.len(),
                count <= i,
                self@ == old(self)@.purge_all(all.take(i as int), now),
                count == old(self)@.count_live(all.take(i as int), now),
            decreases keys@.len() - i,
        {
            let key: &Bytes = &keys[i];
            let idx: usize = Self::shard_index(key);
            let ghost before = *self;
            if !self.shards[idx].purge_if_expired(key, now) {
                count = count + 1;
            }
            proof {
                let next = all.take(i + 1);
                assert(next.drop_last() =~= all.take(i as int));
                assert(next.last() == content(*key));
                assert(self@.shards =~= before@.purge(content(*key), now).shards);
                old(self)@.lemma_purge_all_keeps_live(all.take(i as int), content(*key), now);
            }
            i = i + 1;
        }
        assert(all.take(all.len() as int) =~= all);
        count as i64
    }

    /// How many of `keys` are live by the system clock.
    pub fn count_existing(&mut self, keys: &[Bytes]) -> (count: i64)
        requires
            old(self).wf(),
        ensures
            final(self).wf(),
            exists|now: u64|
                final(self)@ == #[trigger] old(self)@.purge_all(contents(keys@), now) && count
                    == old(self)@.count_live(contents(keys@), now) as i64,
    {
        let now: u64 = now_ms();
        self.count_existing_at(keys, now)
    }

    /// Sets the expiry time of `key`, if it is live at the time `now`: it is
    /// gone at once where that time has come. Returns whether it was live.
    pub fn expire_at(&mut self, key: &[u8], at_ms: i64, now: u64) -> (done: bool)
        requires
            old(self).wf(),
        ensures
            final(self).wf(),
            final(self)@ == old(self)@.expire(key@, at_ms, now),
            done == old(self)@.holds(key@, now),
    {
        let idx: usize = Self::shard_index(key);
        let done: bool = self.shards[idx].expire_at(key, at_ms, now);
        assert(self@.shards =~= old(self)@.expire(key@, at_ms, now).shards);
        done
    }

    /// Sets the expiry time of `key` by the system clock; see
    /// [`Store::expire_at`].
    pub fn expire(&mut self, key: &[u8], at_ms: i64) -> (done: bool)
        requires
            old(self).wf(),
        ensures
            final(self).wf(),
            exists|now: u64|
                final(self)@ == #[trigger] old(self)@.expire(key@, at_ms, now) && done
                    == old(self)@.holds(key@, now),
    {
        let now: u64 = now_ms();
        self.expire_at(key, at_ms, now)
    }

    /// Takes the expiry time off `key`. Returns whether the key was live at the
    /// time `now` and had one.
    pub fn persist_at(&mut self, key: &[u8], now: u64) -> (done: bool)
        requires
            old(self).wf(),
        ensures
            final(self).wf(),
            final(self)@ == old(self)@.persist(key@, now),
            done == old(self)@.persists(key@, now),
    {
        let idx: usize = Self::shard_index(key);
        let done: bool = self.shards[idx].persist_at(key, now);
        assert(self@.shards =~= old(self)@.persist(key@, now).shards);
        done
    }

    /// Takes the expiry time off `key` by the system clock; see
    /// [`Store::persist_at`].
    pub fn persist(&mut self, key: &[u8]) -> (done: bool)
        requires
            old(self).wf(),
        ensures
            final(self).wf(),
            exists|now: u64|
                final(self)@ == #[trigger] old(self)@.persist(key@, now) && done
                    == old(self)@.persists(key@, now),
    {
        let now: u64 = now_ms();
        self.persist_at(key, now)
    }

    /// Time to live of `key` in milliseconds at the time `now`: `None` if it is
    /// not live, `Some(None)` if it has no expiry time.
    pub fn ttl_ms_at(&mut self, key: &[u8], now: u64) -> (ttl: Option<Option<i64>>)
        requires
            old(self).wf(),
        ensures
            final(self).wf(),
            final(self)@ == old(self)@.purge(key@, now),
            ttl == old(self)@.ttl(key@, now),
    {
        let idx: usize = Self::shard_index(key);
        let ttl: Option<Option<i64>> = self.shards[idx].ttl_at(key, now);
        assert(self@.shards =~= old(self)@.purge(key@, now).shards);
        ttl
    }

    /// Time to live of `key` in milliseconds by the system clock; see
    /// [`Store::ttl_ms_at`].
    pub fn ttl_ms(&mut self, key: &[u8]) -> (ttl: Option<Option<i64>>)
        requires
            old(self).wf(),
        ensures
            final(self).wf(),
            exists|now: u64|
                final(self)@ == #[trigger] old(self)@.purge(key@, now) && ttl == old(self)@.ttl(
                    key@,
                    now,
                ),
    {
        let now: u64 = now_ms();
        self.ttl_ms_at(key, now)
    }

    /// What kind of value `key` holds, if it is live at the time `now`.
    pub fn key_type_at(&mut self, key: &[u8], now: u64) -> (kind: Option<&'static str>)
        requires
            old(self).wf(),
        ensures
            final(self).wf(),
            final(self)@ == old(self)@.purge(key@, now),
            match kind {
                Some(name) => old(self)@.value(key@, now) matches Some(v) && name@ == v.kind(),
                None => old(self)@.value(key@, now) is None,
            },
    {
        let idx: usize = Self::shard_index(key);
        let kind = self.shards[idx].key_type_at(key, now);
        assert(self@.shards =~= old(self)@.purge(key@, now).shards);
        kind
    }

    /// What kind of value `key` holds, if it is live by the system clock.
    pub fn key_type(&mut self, key: &[u8]) -> (kind: Option<&'static str>)
        requires
            old(self).wf(),
        ensures
            final(self).wf(),
            exists|now: u64|
                final(self)@ == #[trigger] old(self)@.purge(key@, now) && match kind {
                    Some(name) => old(self)@.value(key@, now) matches Some(v) && name@ == v.kind(),
                    None => old(self)@.value(key@, now) is None,
                },
    {
        let now: u64 = now_ms();
        self.key_type_at(key, now)
    }

    /// Removes every key.
    pub fn flush_all(&mut self)
        requires
            old(self).wf(),
        ensures
            final(self).wf(),
            final(self)@ == old(self)@.flushed(),
    {
        let mut i: usize = 0;
        while i < self.shards.len()
            invariant
                self.wf(),
                old(self).wf(),
                i <= self.shards@.len(),
                self.max_keys_per_shard == old(self).max_keys_per_shard,
                forall|j: int|
                    0 <= j < i ==> #[trigger] self@.shards[j] == (ShardView {
                        entries: Map::empty(),
                        ..old(self)@.shards[j]
                    }),
                forall|j: int|
                    i <= j < self.shards@.len() ==> #[trigger] self@.shards[j]
                        == old(self)@.shards[j],
            decreases self.shards@.len() - i,
        {
            let ghost before = self@;
            self.shards[i].clear();
            assert(self@.shards =~= before.shards.update(
                i as int,
                ShardView { entries: Map::empty(), ..before.shards[i as int] },
            ));
            i = i + 1;
        }
        assert(self@.shards =~= old(self)@.flushed().shards);
    }

    /// The value of `key` at the time `now`, for changing in place; a key that
    /// is not live first comes into being with the value `default`.
    pub(crate) fn entry_mut_at(&mut self, key: &Bytes, default: Value, now: u64) -> (value: &mut Value)
        requires
            old(self).wf(),
            default.wf(),
        ensures
            value.wf(),
            value@ == match old(self)@.value(content(*key), now) {
                Some(v) => v,
                None => default@,
            },
            final(value).wf() && !final(value)@.is_hollow() ==> final(self).wf(),
            final(self)@ == old(self)@.change(content(*key), now, final(value)@),
    {
        let idx: usize = Self::shard_index(key);
        proof {
            let k = content(*key);
            let was = *self;
            assert forall|new: Store, v: ValueView|
                {
                    &&& new.max_keys_per_shard == was.max_keys_per_shard
                    &&& new.shards@.len() == was.shards@.len()
                    &&& forall|j: int|
                        0 <= j < was.shards@.len() && j != idx ==> new.shards@[j] == was.shards@[j]
                    &&& new.shards@[idx as int]@ == #[trigger] was@.home(k).change(k, now, v)
                } implies #[trigger] new@ == was@.change(k, now, v) && new@.routed() by {
                assert(new@.shards =~= was@.change(k, now, v).shards);
                lemma_with_home_routed(was@, k, was@.home(k).change(k, now, v));
            }
        }
        self.shards[idx].entry_mut_at(key, default, now)
    }

    /// Evicts what exceeds the limit in the shard of `key`, which was just used
    /// and is spared, if any can stay.
    pub(crate) fn settle(&mut self, key: &[u8])
        requires
            old(self).wf(),
        ensures
            final(self).wf(),
            old(self)@.settles(key@, final(self)@),
    {
        let idx: usize = Self::shard_index(key);
        let max: Option<usize> = self.max_keys_per_shard;
        self.shards[idx].trim(max, key);
        proof {
            let was = old(self)@;
            let shard = self.shards@[idx as int]@;
            assert(self@.shards =~= was.with_home(key@, shard).shards);
            assert(cut(was.home(key@), key@, max, shard));
            assert forall|k: Seq<u8>| #[trigger] shard.entries.contains_key(k) implies was.home(
                key@,
            ).entries.contains_key(k) by {
                assert(shard.entries.dom().contains(k));
            }
            lemma_with_home_routed(was, key@, shard);
        }
    }

    /// Applies `f` to the value of `key` at the time `now` and returns what it
    /// returns; a key that is not live first comes into being with the value
    /// that `default` makes. Avoids a separate look-up and write. Then the least
    /// recently used keys go where the shard has too many.
    pub fn with_entry_mut_at<T, D: FnOnce() -> Value, F: FnOnce(&mut Value) -> T>(
        &mut self,
        key: &Bytes,
        default: D,
        f: F,
        now: u64,
    ) -> (result: T)
        requires
            old(self).wf(),
            old(self)@.value(content(*key), now) is None ==> default.requires(()) && forall|
                d: Value,
            | #[trigger] default.ensures((), d) ==> d.wf(),
            forall|v: &mut Value| v.wf() ==> f.requires((v,)),
            forall|v: &mut Value, r: T|
                v.wf() && #[trigger] f.ensures((v,), r) ==> final(v).wf()
                    && !final(v)@.is_hollow(),
        ensures
            final(self).wf(),
            exists|v: &mut Value|
                {
                    &&& #[trigger] f.ensures((v,), result)
                    &&& v.wf()
                    &&& match old(self)@.value(content(*key), now) {
                        Some(value) => v@ == value,
                        None => exists|d: Value|
                            #[trigger] default.ensures((), d) && v@ == d@,
                    }
                    &&& old(self)@.changes(content(*key), now, final(v)@, final(self)@)
                },
    {
        let start = if self.live_at(key, now) {
            Value::Str(Bytes::new())
        } else {
            default()
        };
        proof {
            let k = content(*key);
            let was = old(self)@;
            assert forall|v: ValueView| #[trigger] self@.change(k, now, v) == was.change(
                k,
                now,
                v,
            ) by {
                assert(self@.home(k).change(k, now, v).entries =~= was.home(k).change(
                    k,
                    now,
                    v,
                ).entries);
                assert(self@.change(k, now, v).shards =~= was.change(k, now, v).shards);
            }
        }
        let result = f(self.entry_mut_at(key, start, now));
        self.settle(key);
        result
    }

    /// Applies `f` to the value of `key` by the system clock; see
    /// [`Store::with_entry_mut_at`].
    pub fn with_entry_mut<T, D: FnOnce() -> Value, F: FnOnce(&mut Value) -> T>(
        &mut self,
        key: &Bytes,
        default: D,
        f: F,
    ) -> (result: T)
        requires
            old(self).wf(),
            forall|now: u64|
                #[trigger] old(self)@.value(content(*key), now) is None ==> default.requires(())
                    && forall|d: Value| #[trigger] default.ensures((), d) ==> d.wf(),
            forall|v: &mut Value| v.wf() ==> f.requires((v,)),
            forall|v: &mut Value, r: T|
                v.wf() && #[trigger] f.ensures((v,), r) ==> final(v).wf()
                    && !final(v)@.is_hollow(),
        ensures
            final(self).wf(),
            exists|now: u64, v: &mut Value|
                {
                    &&& #[trigger] f.ensures((v,), result)
                    &&& v.wf()
                    &&& match #[trigger] old(self)@.value(content(*key), now) {
                        Some(value) => v@ == value,
                        None => exists|d: Value|
                            #[trigger] default.ensures((), d) && v@ == d@,
                    }
                    &&& old(self)@.changes(content(*key), now, final(v)@, final(self)@)
                },
    {
        let now: u64 = now_ms();
        self.with_entry_mut_at(key, default, f, now)
    }

    /// Whether `key` is live at the time `now`.
    pub fn live_at(&mut self, key: &[u8], now: u64) -> (live: bool)
        requires
            old(self).wf(),
        ensures
            final(self).wf(),
            final(self)@ == old(self)@.purge(key@, now),
            live == old(self)@.holds(key@, now),
            live ==> final(self)@ == old(self)@,
    {
        let idx: usize = Self::shard_index(key);
        let absent: bool = self.shards[idx].purge_if_expired(key, now);
        assert(self@.shards =~= old(self)@.purge(key@, now).shards);
        assert(!absent ==> self@.shards =~= old(self)@.shards);
        !absent
    }

    /// Applies `f` to the value of `key`, which is live at the time `now`, and
    /// returns what it returns. A collection that is left without elements goes
    /// together with its key.
    pub fn edit_live_at<T, F: FnOnce(&mut Value) -> T>(
        &mut self,
        key: &Bytes,
        f: F,
        now: u64,
    ) -> (result: T)
        requires
            old(self).wf(),
            old(self)@.holds(content(*key), now),
            forall|v: &mut Value| v.wf() ==> f.requires((v,)),
            forall|v: &mut Value, r: T|
                v.wf() && #[trigger] f.ensures((v,), r) ==> final(v).wf(),
        ensures
            final(self).wf(),
            exists|v: &mut Value|
                {
                    &&& #[trigger] f.ensures((v,), result)
                    &&& v.wf()
                    &&& v@ == old(self)@.entry(content(*key)).value
                    &&& final(self)@ == old(self)@.edit(content(*key), now, final(v)@)
                },
    {
        let idx: usize = Self::shard_index(key);
        let result = self.shards[idx].edit_live_at(key, f, now);
        proof {
            let k = content(*key);
            let shard = self.shards@[idx as int]@;
            assert(self@.shards =~= old(self)@.with_home(k, shard).shards);
            lemma_with_home_routed(old(self)@, k, shard);
        }
        result
    }

    /// Puts `entry` under `key` as it is, with its expiry time and its last use.
    pub fn load_entry(&mut self, key: Bytes, entry: Entry)
        requires
            old(self).wf(),
            entry.wf(),
        ensures
            final(self).wf(),
            final(self)@ == old(self)@.load(content(key), entry@),
    {
        let idx: usize = Self::shard_index(&key);
        let ghost k = content(key);
        let ghost view = entry@;
        self.shards[idx].put_entry(key, entry);
        proof {
            assert(self@.shards =~= old(self)@.load(k, view).shards);
            lemma_with_home_routed(old(self)@, k, old(self)@.load(k, view).home(k));
        }
    }

    /// Copies of every entry that is live at the time `now`, each with its key.
    pub fn snapshot_all_locked_at(&self, now: u64) -> (list: Vec<(Bytes, Entry)>)
        requires
            self.wf(),
        ensures
            all_wf(list@),
            self@.lists_live(pairs_of(list@), now),
    {
        let mut list: Vec<(Bytes, Entry)> = Vec::new();
        let mut i: usize = 0;
        let ghost mut keys: Seq<Seq<u8>> = Seq::empty();
        let ghost pair = |k: Seq<u8>| (k, self@.entry(k));
        assert(pairs_of(list@) =~= keys.map_values(pair));
        while i < self.shards.len()
            invariant
                self.wf(),
                i <= self.shards@.len(),
                all_wf(list@),
                pair == (|k: Seq<u8>| (k, self@.entry(k))),
                keys.no_duplicates(),
                forall|k: Seq<u8>| #[trigger]
                    keys.contains(k) <==> shard_of(k) < i && self@.holds(k, now),
                pairs_of(list@) == keys.map_values(pair),
            decreases self.shards@.len() - i,
        {
            let ghost was = pairs_of(list@);
            self.shards[i].collect_live_at(&mut list, now);
            proof {
                let shard = self@.shards[i as int];
                let more = choose|live: Seq<Seq<u8>>|
                    #![trigger live.to_set()]
                    {
                        &&& live.no_duplicates()
                        &&& live.to_set() == shard.live_keys(now)
                        &&& pairs_of(list@) == was + live.map_values(
                            |k: Seq<u8>| (k, shard.entries[k]),
                        )
                    };
                assert forall|k: Seq<u8>| #[trigger] more.contains(k) <==> shard_of(k) == i
                    && self@.holds(k, now) by {
                    assert(more.contains(k) <==> shard.live_keys(now).contains(k));
                }
                let all = keys + more;
                assert forall|k: Seq<u8>| #[trigger] all.contains(k) <==> shard_of(k) < i + 1
                    && self@.holds(k, now) by {
                    if keys.contains(k) {
                        assert(all[keys.index_of(k)] == k);
                    }
                    if more.contains(k) {
                        assert(all[keys.len() + more.index_of(k)] == k);
                    }
                    if all.contains(k) {
                        let spot = all.index_of(k);
                        if spot < keys.len() {
                            assert(keys[spot] == k);
                        } else {
                            assert(more[spot - keys.len()] == k);
                        }
                    }
                }
                assert(all.no_duplicates()) by {
                    assert forall|a: int, b: int| 0 <= a < b < all.len() implies all[a] != all[b] by {
                        if a < keys.len() <= b {
                            assert(keys.contains(keys[a]));
                            assert(more.contains(more[b - keys.len()]));
                        }
                    }
                }
                assert forall|j: int| 0 <= j < more.len() implies (
                    more[j],
                    shard.entries[more[j]],
                ) == pair(more[j]) by {
                    assert(more.contains(more[j]));
                }
                assert(pairs_of(list@) =~= all.map_values(pair));
                keys = all;
            }
            i = i + 1;
        }
        proof {
            assert forall|k: Seq<u8>| #[trigger] keys.to_set().contains(k) <==> self@.live_keys(
                now,
            ).contains(k) by {
                assert(keys.contains(k) <==> self@.holds(k, now));
            }
            assert(keys.to_set() =~= self@.live_keys(now));
        }
        list
    }

    /// Copies of every entry that is live by the system clock, each with its
    /// key.
    pub fn snapshot_all_locked(&self) -> (list: Vec<(Bytes, Entry)>)
        requires
            self.wf(),
        ensures
            all_wf(list@),
            exists|now: u64| #[trigger] self@.lists_live(pairs_of(list@), now),
    {
        let now: u64 = now_ms();
        self.snapshot_all_locked_at(now)
    }

    /// Calls `f` on every entry that is live at the time `now`, each with its key.
    pub fn for_each_live_entry_at<F: FnMut(&Bytes, &Entry)>(&self, mut f: F, now: u64)
        requires
            self.wf(),
            forall|k: &Bytes, e: &Entry| e.wf() ==> #[trigger] f.requires((k, e)),
        ensures
            exists|list: Seq<(Bytes, Entry)>|
                {
                    &&& self@.lists_live(#[trigger] pairs_of(list), now)
                    &&& forall|i: int|
                        0 <= i < list.len() ==> f.ensures(
                            (&(#[trigger] list[i]).0, &list[i].1),
                            (),
                        )
                },
    {
        let list = self.snapshot_all_locked_at(now);
        let mut i: usize = 0;
        let ghost called = f;
        while i < list.len()
            invariant
                i <= list@.len(),
                f == called,
                all_wf(list@),
                forall|k: &Bytes, e: &Entry| e.wf() ==> #[trigger] f.requires((k, e)),
                forall|j: int|
                    0 <= j < i ==> f.ensures((&(#[trigger] list@[j]).0, &list@[j].1), ()),
            decreases list@.len() - i,
        {
            assert(list@[i as int].1.wf());
            f(&list[i].0, &list[i].1);
            i = i + 1;
        }
        assert(self@.lists_live(pairs_of(list@), now));
    }

    /// Calls `f` on every entry that is live by the system clock, each with its
    /// key.
    pub fn for_each_live_entry<F: FnMut(&Bytes, &Entry)>(&self, f: F)
        requires
            self.wf(),
            forall|k: &Bytes, e: &Entry| e.wf() ==> #[trigger] f.requires((k, e)),
        ensures
            exists|list: Seq<(Bytes, Entry)>, now: u64|
                {
                    &&& #[trigger] self@.lists_live(pairs_of(list), now)
                    &&& forall|i: int|
                        0 <= i < list.len() ==> f.ensures(
                            (&(#[trigger] list[i]).0, &list[i].1),
                            (),
                        )
                },
    {
        let now: u64 = now_ms();
        self.for_each_live_entry_at(f, now)
    }

    /// Looks at the next few entries of each shard and removes those that are
    /// expired at the time `now`, so that expired keys nobody reads do not linger
    /// forever.
    pub fn active_expire_cycle_at(&mut self, now: u64)
        requires
            old(self).wf(),
        ensures
            final(self).wf(),
            old(self)@.sweeps(now, final(self)@),
            old(self).swept_to(now, *final(self)),
    {
        let mut i: usize = 0;
        while i < self.shards.len()
            invariant
                self.wf(),
                old(self).wf(),
                i <= self.shards@.len(),
                self.max_keys_per_shard == old(self).max_keys_per_shard,
                forall|j: int|
                    0 <= j < i ==> swept(
                        old(self)@.shards[j],
                        old(self).order(j),
                        now,
                        #[trigger] self@.shards[j],
                        self.order(j),
                    ),
                forall|j: int|
                    i <= j < self.shards@.len() ==> #[trigger] self@.shards[j]
                        == old(self)@.shards[j] && self.order(j) == old(self).order(j),
            decreases self.shards@.len() - i,
        {
            let ghost before = *self;
            self.shards[i].expire_cycle_at(now);
            proof {
                let shard = self.shards@[i as int]@;
                let was = before@.shards[i as int];
                assert(self@.shards =~= before@.shards.update(i as int, shard));
                assert(was == old(self)@.shards[i as int]);
                assert(before.order(i as int) == old(self).order(i as int));
                assert(swept(was, before.order(i as int), now, shard, self.order(i as int)));
                assert forall|j: int, k: Seq<u8>|
                    0 <= j < NUM_SHARDS && #[trigger] self@.shards[j].entries.contains_key(
                        k,
                    ) implies shard_of(k) == j by {
                    assert(before@.shards[j].entries.contains_key(k));
                }
                assert forall|j: int|
                    0 <= j < self.shards@.len() && j != i implies #[trigger] self@.shards[j]
                    == before@.shards[j] && self.order(j) == before.order(j) by {
                    assert(self.shards@[j] == before.shards@[j]);
                }
                assert forall|j: int| i < j < self.shards@.len() implies #[trigger] self@.shards[j]
                    == old(self)@.shards[j] && self.order(j) == old(self).order(j) by {
                    assert(before@.shards[j] == old(self)@.shards[j]);
                }
            }
            i = i + 1;
        }
        proof {
            assert forall|j: int| 0 <= j < old(self)@.shards.len() implies shard_swept(
                old(self)@.shards[j],
                now,
                #[trigger] self@.shards[j],
            ) by {
                old(self).lemma_order(j);
            }
        }
    }

    /// Looks at the next few entries of each shard and removes those that are
    /// expired by the system clock; see [`Store::active_expire_cycle_at`].
    pub fn active_expire_cycle(&mut self)
        requires
            old(self).wf(),
        ensures
            final(self).wf(),
            exists|now: u64| #[trigger]
                old(self)@.sweeps(now, final(self)@) && old(self).swept_to(now, *final(self)),
    {
        let now: u64 = now_ms();
        self.active_expire_cycle_at(now)
    }
}

} // verus!
