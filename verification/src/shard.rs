//! One part of the keyspace: entries by key, with expiry and eviction.

use bytes::Bytes;
use rand::Rng;
use std::time::{Duration, SystemTime, SystemTimeError, UNIX_EPOCH};
use vstd::prelude::*;

use crate::buf::{content, contents};
use crate::bytemap::{same_bytes, ByteMap};
use crate::value::{Entry, EntryView, Value, ValueView};

verus! {

broadcast use crate::buf::lemma_contents_push;

/// How many entries eviction looks at to approximate the least recently used.
pub const EVICTION_SAMPLE_SIZE: usize = 5;

/// How many entries of a shard one round of active expiry looks at.
pub const EXPIRE_SAMPLE_SIZE: usize = 20;

/// [`std::time::SystemTime`], a reading of the system clock.
#[verifier::external_type_specification]
#[verifier::external_body]
pub struct ExSystemTime(std::time::SystemTime);

/// [`std::time::SystemTimeError`], that one time does not come after another.
#[verifier::external_type_specification]
#[verifier::external_body]
pub struct ExSystemTimeError(std::time::SystemTimeError);

/// `SystemTime::now` reads the system clock. What it says is up to the machine:
/// nothing is claimed of it.
pub assume_specification[ std::time::SystemTime::now ]() -> (time: SystemTime);

/// How many whole milliseconds a span of time has.
pub uninterp spec fn millis(span: Duration) -> u128;

/// `Duration::as_millis`: the whole milliseconds of a span of time.
pub assume_specification[ std::time::Duration::as_millis ](span: &Duration) -> (ms: u128)
    ensures
        ms == millis(*span),
;

/// The span of time from the Unix epoch until `time`; `None` where that lies
/// before it.
pub uninterp spec fn epoch_span(time: SystemTime) -> Option<Duration>;

/// `SystemTime::duration_since` the Unix epoch; an error where the time lies
/// before it.
#[verifier::external_body]
fn since_unix_epoch(time: &SystemTime) -> (span: Result<Duration, SystemTimeError>)
    ensures
        match span {
            Ok(s) => epoch_span(*time) == Some(s),
            Err(_) => epoch_span(*time) is None,
        },
{
    time.duration_since(UNIX_EPOCH)
}

/// The milliseconds from the Unix epoch until `time`; `None` where that lies
/// before it.
pub open spec fn reading_of(time: SystemTime) -> Option<u128> {
    match epoch_span(time) {
        Some(span) => Some(millis(span)),
        None => None,
    }
}

/// The time that a reading of the clock stands for: its low 64 bits. A clock
/// that stands before the epoch reads as the epoch.
pub open spec fn time_meant(reading: Option<u128>) -> int {
    match reading {
        Some(ms) => ms as int % 0x1_0000_0000_0000_0000,
        None => 0,
    }
}

/// Reads the system clock as milliseconds since the Unix epoch; `None` where it
/// stands before it.
fn clock_ms() -> (reading: Option<u128>)
    ensures
        exists|time: SystemTime| reading == #[trigger] reading_of(time),
{
    let time = SystemTime::now();
    let reading: Option<u128> = match since_unix_epoch(&time) {
        Ok(span) => Some(span.as_millis()),
        Err(_) => None,
    };
    assert(reading == reading_of(time));
    reading
}

/// The time that a reading of the clock stands for: its low 64 bits. A clock
/// that stands before the epoch reads as the epoch.
pub fn time_of(reading: Option<u128>) -> (now: u64)
    ensures
        now as int == time_meant(reading),
{
    match reading {
        Some(ms) => (ms % 0x1_0000_0000_0000_0000) as u64,
        None => 0,
    }
}

/// Milliseconds since the Unix epoch, by the system clock: the time that some
/// reading of it stands for. What the clock says is up to the machine.
pub fn now_ms() -> (now: u64)
    ensures
        exists|time: SystemTime| now as int == time_meant(#[trigger] reading_of(time)),
{
    time_of(clock_ms())
}

/// Whether the expiry time of an entry has come.
pub fn is_expired(entry: &Entry, now: u64) -> (expired: bool)
    ensures
        expired == entry@.expired(now),
{
    match entry.expires_at_ms {
        Some(at) => at <= now,
        None => false,
    }
}

/// [`rand::Rng::gen_range`] on [`rand::thread_rng`]: some number below
/// `bound`. It panics on an empty range. Which number is up to chance.
#[verifier::external_body]
fn random_below(bound: usize) -> (n: usize)
    requires
        bound > 0,
    ensures
        n < bound,
{
    rand::thread_rng().gen_range(0..bound)
}

/// What a shard holds: its entries by key, a clock that counts uses, and where
/// the next round of active expiry starts.
#[verifier::ext_equal]
pub struct ShardView {
    pub entries: Map<Seq<u8>, EntryView>,
    pub clock: u64,
    pub cursor: usize,
}

impl ShardView {
    /// Whether `key` is present and not expired.
    pub open spec fn holds(self, key: Seq<u8>, now: u64) -> bool {
        self.entries.contains_key(key) && !self.entries[key].expired(now)
    }

    /// The shard without `key`, if that is expired.
    pub open spec fn purge(self, key: Seq<u8>, now: u64) -> ShardView {
        if self.entries.contains_key(key) && self.entries[key].expired(now) {
            self.drop_key(key)
        } else {
            self
        }
    }

    /// The shard without `key`.
    pub open spec fn drop_key(self, key: Seq<u8>) -> ShardView {
        ShardView { entries: self.entries.remove(key), ..self }
    }

    /// The clock, one use later. It wraps around.
    pub open spec fn next_clock(self) -> u64 {
        self.clock.wrapping_add(1)
    }

    /// The shard with `entry` under `key`, used just now.
    pub open spec fn put(self, key: Seq<u8>, entry: EntryView) -> ShardView {
        ShardView {
            entries: self.entries.insert(key, entry.used_at(self.next_clock())),
            clock: self.next_clock(),
            ..self
        }
    }

    /// The shard after a use of `key`: purged if expired, else marked as used.
    pub open spec fn touch(self, key: Seq<u8>, now: u64) -> ShardView {
        if self.holds(key, now) {
            self.put(key, self.entries[key])
        } else {
            self.purge(key, now)
        }
    }

    /// The shard after the value of `key` was changed to `value` in place: the
    /// expiry time of a live key stays, and a key that was not live comes into
    /// being without one. Creating it counts as a use of its own.
    pub open spec fn change(self, key: Seq<u8>, now: u64, value: ValueView) -> ShardView {
        if self.holds(key, now) {
            self.put(key, EntryView { value, ..self.entries[key] })
        } else {
            let entry = EntryView { value, expires_at_ms: None, last_access: 0 };
            self.put(key, entry).put(key, entry)
        }
    }

    /// The shard after the value of the live key `key` was changed in place,
    /// where a collection without elements goes together with its key.
    pub open spec fn edit(self, key: Seq<u8>, now: u64, value: ValueView) -> ShardView {
        if value.is_hollow() {
            self.touch(key, now).drop_key(key)
        } else {
            self.change(key, now, value)
        }
    }

    /// The keys that are not expired.
    pub open spec fn live_keys(self, now: u64) -> Set<Seq<u8>> {
        self.entries.dom().filter(|k: Seq<u8>| !self.entries[k].expired(now))
    }

    /// The shard after a round of active expiry, where its entries lie in the
    /// given order: without the keys of the window that are expired, and with
    /// the next window behind this one.
    pub open spec fn sweep(self, order: Seq<Seq<u8>>, now: u64) -> ShardView {
        ShardView {
            entries: self.entries.remove_keys(
                sweep_window(order, self.cursor).to_set().filter(
                    |k: Seq<u8>| self.entries[k].expired(now),
                ),
            ),
            cursor: next_cursor(self.cursor, order.len()),
            ..self
        }
    }

    /// The shard after the expiry time of `key` was set.
    pub open spec fn with_expiry(self, key: Seq<u8>, expires_at_ms: Option<u64>) -> ShardView {
        ShardView {
            entries: self.entries.insert(key, EntryView { expires_at_ms, ..self.entries[key] }),
            ..self
        }
    }
}

/// How many of `n` entries a round of active expiry looks at.
pub open spec fn sweep_len(n: nat) -> nat {
    if n < EXPIRE_SAMPLE_SIZE {
        n
    } else {
        EXPIRE_SAMPLE_SIZE as nat
    }
}

/// Where a round of active expiry starts among `n` entries.
pub open spec fn sweep_start(cursor: usize, n: nat) -> int {
    if cursor < n {
        cursor as int
    } else {
        0
    }
}

/// The position `p` on a circle of `n`, at most once round.
pub open spec fn wrapped(p: int, n: int) -> int {
    if p < n {
        p
    } else {
        p - n
    }
}

/// The keys that a round of active expiry looks at: from the cursor on, and from
/// the first again behind the last.
pub open spec fn sweep_window(order: Seq<Seq<u8>>, cursor: usize) -> Seq<Seq<u8>> {
    Seq::new(
        sweep_len(order.len()),
        |i: int| order[wrapped(sweep_start(cursor, order.len()) + i, order.len() as int)],
    )
}

/// Where the next round of active expiry starts: behind what this one looks at.
pub open spec fn next_cursor(cursor: usize, n: nat) -> usize {
    wrapped(sweep_start(cursor, n) + sweep_len(n), n as int) as usize
}

/// Whether `order` lists every key of a map once.
pub open spec fn lists_keys(order: Seq<Seq<u8>>, entries: Map<Seq<u8>, EntryView>) -> bool {
    order.no_duplicates() && order.to_set() == entries.dom()
}

/// Whether a round of active expiry at the time `now` turns `before`, whose
/// entries lie in the given order, into `after`. Where nothing goes, the order
/// stays.
pub open spec fn swept(
    before: ShardView,
    order: Seq<Seq<u8>>,
    now: u64,
    after: ShardView,
    next_order: Seq<Seq<u8>>,
) -> bool {
    &&& after == before.sweep(order, now)
    &&& after.entries == before.entries ==> next_order == order
}

/// Keys and entries, as what they hold.
pub open spec fn pairs_of(list: Seq<(Bytes, Entry)>) -> Seq<(Seq<u8>, EntryView)> {
    list.map_values(|p: (Bytes, Entry)| (content(p.0), p.1@))
}

/// Whether every entry of a list is well-formed.
pub open spec fn all_wf(list: Seq<(Bytes, Entry)>) -> bool {
    forall|i: int| 0 <= i < list.len() ==> (#[trigger] list[i]).1.wf()
}

/// Whether eviction that spares the key `keep` may pick `victim`: of some sample
/// of entries, none but the spared one was used longer ago.
pub open spec fn may_evict(
    entries: Map<Seq<u8>, EntryView>,
    keep: Option<Seq<u8>>,
    victim: Seq<u8>,
) -> bool {
    exists|sample: Set<Seq<u8>>| #[trigger] is_sample(entries, sample) && oldest_of(
        entries,
        sample,
        keep,
        victim,
    )
}

/// Whether there is anything in `keys` but the spared key.
pub open spec fn has_other(keys: Set<Seq<u8>>, keep: Option<Seq<u8>>) -> bool {
    exists|k: Seq<u8>| #[trigger] keys.contains(k) && keep != Some(k)
}

/// A key, if there is one, as what it holds.
pub open spec fn key_view(key: Option<&[u8]>) -> Option<Seq<u8>> {
    match key {
        Some(k) => Some(k@),
        None => None,
    }
}

/// Whether `sample` is a set of keys as large as eviction looks at.
pub open spec fn is_sample(entries: Map<Seq<u8>, EntryView>, sample: Set<Seq<u8>>) -> bool {
    &&& sample.subset_of(entries.dom())
    &&& sample.finite()
    &&& sample.len() == sample_len(entries.dom().len())
}

/// How many of `n` entries eviction looks at.
pub open spec fn sample_len(n: nat) -> nat {
    if n < EVICTION_SAMPLE_SIZE {
        n
    } else {
        EVICTION_SAMPLE_SIZE as nat
    }
}

/// The keys that eviction looks at where it skips the first `skip`.
pub open spec fn looked_at(order: Seq<Seq<u8>>, skip: int) -> Set<Seq<u8>> {
    order.subrange(skip, skip + sample_len(order.len())).to_set()
}

/// Whether no key of `sample` but the spared one was used longer ago than
/// `victim`, one of them.
pub open spec fn oldest_of(
    entries: Map<Seq<u8>, EntryView>,
    sample: Set<Seq<u8>>,
    keep: Option<Seq<u8>>,
    victim: Seq<u8>,
) -> bool {
    &&& sample.contains(victim)
    &&& keep != Some(victim)
    &&& forall|k: Seq<u8>| #[trigger]
        sample.contains(k) && keep != Some(k) ==> entries[victim].last_access
            <= entries[k].last_access
}

/// Whether evicting `victims` one after the other, which spares the key `keep`,
/// may turn `before` into `after`.
pub open spec fn evicts(
    before: Map<Seq<u8>, EntryView>,
    keep: Option<Seq<u8>>,
    victims: Seq<Seq<u8>>,
    after: Map<Seq<u8>, EntryView>,
) -> bool
    decreases victims.len(),
{
    if victims.len() == 0 {
        after == before
    } else {
        may_evict(before, keep, victims[0]) && evicts(
            before.remove(victims[0]),
            keep,
            victims.skip(1),
            after,
        )
    }
}

/// Whether `after` is `before`, cut down to `max` entries by eviction where it
/// had more. The key that was just used is spared, if any can stay.
pub open spec fn trimmed(
    before: Map<Seq<u8>, EntryView>,
    key: Seq<u8>,
    max: Option<usize>,
    after: Map<Seq<u8>, EntryView>,
) -> bool {
    match max {
        None => after == before,
        Some(max) => exists|victims: Seq<Seq<u8>>| #[trigger]
            evicts(before, spared(key, max), victims, after) && victims.len() == excess(
                before.dom().len(),
                max,
            ),
    }
}

/// The key that eviction spares: the one that was just used, if any can stay.
pub open spec fn spared(key: Seq<u8>, max: usize) -> Option<Seq<u8>> {
    if max > 0 {
        Some(key)
    } else {
        None
    }
}

/// Whether eviction down to `max` entries may turn `full`, where `key` was just
/// used, into `after`.
pub open spec fn cut(
    full: ShardView,
    key: Seq<u8>,
    max: Option<usize>,
    after: ShardView,
) -> bool {
    &&& after.clock == full.clock
    &&& after.cursor == full.cursor
    &&& trimmed(full.entries, key, max, after.entries)
    &&& max matches Some(n) ==> after.entries.dom().len() <= n
    &&& after.entries.submap_of(full.entries)
    &&& max != Some(0usize) && full.entries.contains_key(key) ==> after.entries.contains_key(key)
}

/// By how many `n` entries are more than `max`.
pub open spec fn excess(n: nat, max: usize) -> nat {
    if n > max {
        (n - max) as nat
    } else {
        0
    }
}

/// The model of a map of entries.
pub open spec fn entries_of(map: ByteMap<Entry>) -> Map<Seq<u8>, EntryView> {
    map@.map_values(|e: Entry| e@)
}

/// One part of the keyspace.
pub struct Shard {
    map: ByteMap<Entry>,
    clock: u64,
    cursor: usize,
}

impl Shard {
    /// What the shard holds.
    pub closed spec fn view(&self) -> ShardView {
        ShardView { entries: entries_of(self.map), clock: self.clock, cursor: self.cursor }
    }

    /// The invariant of the map and of every entry in it.
    pub closed spec fn wf(&self) -> bool {
        &&& self.map.wf()
        &&& forall|k: Seq<u8>| #[trigger] self.map@.contains_key(k) ==> self.map@[k].wf()
    }

    /// The keys in the order in which the entries lie.
    pub closed spec fn order(&self) -> Seq<Seq<u8>> {
        self.map.keys()
    }

    /// The order lists every key once.
    pub proof fn lemma_order(&self)
        requires
            self.wf(),
        ensures
            lists_keys(self.order(), self@.entries),
            self@.entries.dom().finite(),
            self@.entries.dom().len() == self.order().len(),
            self.order().len() <= usize::MAX,
    {
        self.map.lemma_keys();
        assert(self@.entries.dom() =~= self.map@.dom());
    }

    /// No key holds a collection without elements.
    pub proof fn lemma_not_hollow(&self, key: Seq<u8>)
        requires
            self.wf(),
        ensures
            self@.entries.contains_key(key) ==> !self@.entries[key].value.is_hollow(),
    {
        if self@.entries.contains_key(key) {
            assert(self.map@.contains_key(key));
        }
    }

    /// An empty shard.
    pub fn new() -> (shard: Self)
        ensures
            shard.wf(),
            shard@ == (ShardView { entries: Map::empty(), clock: 0, cursor: 0 }),
    {
        let shard = Self { map: ByteMap::new(), clock: 0, cursor: 0 };
        assert(shard@.entries =~= Map::empty());
        shard
    }

    /// Number of entries, expired ones among them.
    pub fn len(&self) -> (n: usize)
        requires
            self.wf(),
        ensures
            n == self@.entries.dom().len(),
            n == self.order().len(),
    {
        proof {
            self.lemma_order();
        }
        self.map.len()
    }

    /// Advances the clock.
    fn tick(&mut self) -> (clock: u64)
        requires
            old(self).wf(),
        ensures
            final(self).wf(),
            final(self)@ == (ShardView { clock: old(self)@.next_clock(), ..old(self)@ }),
            clock == old(self)@.next_clock(),
    {
        self.clock = self.clock.wrapping_add(1);
        self.clock
    }

    /// Puts `entry` under `key`.
    pub(crate) fn put_entry(&mut self, key: Bytes, entry: Entry)
        requires
            old(self).wf(),
            entry.wf(),
        ensures
            final(self).wf(),
            final(self)@ == (ShardView {
                entries: old(self)@.entries.insert(content(key), entry@),
                ..old(self)@
            }),
    {
        self.map.insert(key, entry);
        assert(self@.entries =~= old(self)@.entries.insert(content(key), entry@));
    }

    /// Takes the entry of `key` out.
    fn remove_entry(&mut self, key: &[u8])
        requires
            old(self).wf(),
        ensures
            final(self).wf(),
            final(self)@ == old(self)@.drop_key(key@),
    {
        self.map.remove(key);
        assert(self@.entries =~= old(self)@.entries.remove(key@));
    }

    /// Removes `key` if it is present but expired. Returns true if the key is
    /// absent after this call (either it never existed or was purged).
    pub fn purge_if_expired(&mut self, key: &[u8], now: u64) -> (absent: bool)
        requires
            old(self).wf(),
        ensures
            final(self).wf(),
            final(self)@ == old(self)@.purge(key@, now),
            absent == !old(self)@.holds(key@, now),
            absent == !final(self)@.entries.contains_key(key@),
    {
        match self.map.get(key) {
            Some(entry) => {
                if is_expired(entry, now) {
                    self.remove_entry(key);
                    true
                } else {
                    false
                }
            },
            None => true,
        }
    }

    /// Marks `key`, which is present, as used.
    fn mark_used(&mut self, key: &[u8])
        requires
            old(self).wf(),
            old(self)@.entries.contains_key(key@),
        ensures
            final(self).wf(),
            final(self)@ == old(self)@.put(key@, old(self)@.entries[key@]),
    {
        let clock: u64 = self.tick();
        if let Some(entry) = self.map.get_mut(key) {
            entry.last_access = clock;
        }
        assert(self@.entries =~= old(self)@.put(key@, old(self)@.entries[key@]).entries);
    }

    /// Evicts the least recently used of the entries that lie from `skip` on,
    /// as many as eviction looks at; the key `keep` is spared.
    pub fn evict_one_from(&mut self, skip: usize, keep: Option<&[u8]>)
        requires
            old(self).wf(),
            skip + sample_len(old(self).order().len()) <= old(self).order().len(),
        ensures
            final(self).wf(),
            ({
                let picked = looked_at(old(self).order(), skip as int);
                if has_other(picked, key_view(keep)) {
                    exists|victim: Seq<u8>| #[trigger]
                        oldest_of(old(self)@.entries, picked, key_view(keep), victim)
                            && final(self)@ == old(self)@.drop_key(victim)
                } else {
                    final(self)@ == old(self)@
                }
            }),
    {
        let n: usize = self.map.len();
        let sample: usize = if n < EVICTION_SAMPLE_SIZE {
            n
        } else {
            EVICTION_SAMPLE_SIZE
        };
        let end: usize = skip + sample;
        let ghost order = self.map.keys();
        let ghost entries = self@.entries;
        let ghost kept = key_view(keep);
        let mut best: Option<usize> = None;
        let mut i: usize = skip;
        proof {
            self.map.lemma_keys();
        }
        while i < end
            invariant
                self.wf(),
                self@.entries == entries,
                order == self.map.keys(),
                self.map.values().len() == order.len(),
                kept == key_view(keep),
                skip <= i <= end <= order.len(),
                match best {
                    Some(b) => skip <= b < i && kept != Some(order[b as int]) && forall|j: int|
                        skip <= j < i && kept != Some(#[trigger] order[j])
                            ==> entries[order[b as int]].last_access
                            <= entries[order[j]].last_access,
                    None => forall|j: int| skip <= j < i ==> kept == Some(#[trigger] order[j]),
                },
            decreases end - i,
        {
            proof {
                self.map.lemma_entry(i as int);
                assert(entries[order[i as int]] == self.map.values()[i as int]@);
            }
            let skipped: bool = match keep {
                Some(k) => same_bytes(self.map.key_at(i), k),
                None => false,
            };
            if !skipped {
                best = match best {
                    None => Some(i),
                    Some(b) => {
                        proof {
                            self.map.lemma_entry(b as int);
                            assert(entries[order[b as int]] == self.map.values()[b as int]@);
                        }
                        if self.map.value_at(i).last_access < self.map.value_at(b).last_access {
                            Some(i)
                        } else {
                            Some(b)
                        }
                    },
                };
            }
            i = i + 1;
        }
        let ghost window = order.subrange(skip as int, end as int);
        let ghost picked = looked_at(order, skip as int);
        proof {
            assert forall|k: Seq<u8>| #[trigger] picked.contains(k) implies exists|j: int|
                skip <= j < end && #[trigger] order[j] == k by {
                let j = window.index_of(k);
                assert(window[j] == k);
                assert(order[skip + j] == k);
            }
        }
        match best {
            Some(b) => {
                let ghost victim = order[b as int];
                self.map.remove_at(b);
                proof {
                    assert(window[b - skip] == victim);
                    assert(picked.contains(victim));
                    assert(oldest_of(old(self)@.entries, picked, kept, victim));
                    assert(self@.entries =~= entries.remove(victim));
                }
            },
            None => {
                assert(!has_other(picked, kept));
            },
        }
    }

    /// There is something to evict where there are more keys than are spared.
    proof fn lemma_has_other(&self, keep: Option<Seq<u8>>)
        requires
            self.wf(),
            self.order().len() > if keep is Some {
                1int
            } else {
                0int
            },
        ensures
            has_other(self@.entries.dom(), keep),
    {
        self.lemma_order();
        let order = self.order();
        let k = if keep == Some(order[0]) {
            order[1]
        } else {
            order[0]
        };
        assert(order.to_set().contains(k));
        assert(self@.entries.dom().contains(k));
    }

    /// Evicts one entry, if there is one but the key `keep`, which is spared: the
    /// least recently used of a sample at a random place.
    pub fn evict_sparing(&mut self, keep: Option<&[u8]>)
        requires
            old(self).wf(),
        ensures
            final(self).wf(),
            if has_other(old(self)@.entries.dom(), key_view(keep)) {
                &&& exists|victim: Seq<u8>| #[trigger]
                    may_evict(old(self)@.entries, key_view(keep), victim) && final(self)@
                        == old(self)@.drop_key(victim)
                &&& final(self)@.entries.dom().len() + 1 == old(self)@.entries.dom().len()
            } else {
                final(self)@ == old(self)@
            },
    {
        let n: usize = self.len();
        let sample: usize = if n < EVICTION_SAMPLE_SIZE {
            n
        } else {
            EVICTION_SAMPLE_SIZE
        };
        let skip: usize = if n > sample {
            random_below(n - sample + 1)
        } else {
            0
        };
        let ghost order = self.order();
        let ghost entries = self@.entries;
        let ghost kept = key_view(keep);
        let ghost window = order.subrange(skip as int, skip + sample);
        let ghost picked = looked_at(order, skip as int);
        proof {
            self.lemma_order();
            assert(window.no_duplicates());
            window.unique_seq_to_set();
            assert forall|k: Seq<u8>| picked.contains(k) implies entries.dom().contains(k) by {
                let j = window.index_of(k);
                assert(order[skip + j] == k);
                assert(order.to_set().contains(k));
            }
            assert(is_sample(entries, picked));
            if has_other(entries.dom(), kept) {
                let k = choose|k: Seq<u8>| #[trigger] entries.dom().contains(k) && kept != Some(k);
                assert(order.to_set().contains(k));
                assert(n > 0);
                assert(window[0] == order[skip as int]);
                assert(picked.contains(window[0]));
                if kept == Some(window[0]) {
                    if n == 1 {
                        assert(order.index_of(k) == 0);
                    }
                    assert(window[1] != window[0]);
                    assert(picked.contains(window[1]));
                }
                assert(has_other(picked, kept));
            }
        }
        self.evict_one_from(skip, keep);
        proof {
            if has_other(picked, kept) {
                let victim = choose|victim: Seq<u8>| #[trigger]
                    oldest_of(entries, picked, kept, victim) && self@ == old(self)@.drop_key(
                        victim,
                    );
                assert(may_evict(entries, kept, victim));
                assert(entries.dom().contains(victim));
                assert(self@.entries.dom() =~= entries.dom().remove(victim));
            }
        }
    }

    /// Evicts one entry, if there is one: the least recently used of a sample
    /// at a random place.
    pub fn evict_one(&mut self)
        requires
            old(self).wf(),
        ensures
            final(self).wf(),
            old(self)@.entries.dom().len() == 0 ==> final(self)@ == old(self)@,
            old(self)@.entries.dom().len() > 0 ==> exists|victim: Seq<u8>| #[trigger]
                may_evict(old(self)@.entries, None, victim) && final(self)@ == old(self)@.drop_key(
                    victim,
                ),
            old(self)@.entries.dom().len() > 0 ==> final(self)@.entries.dom().len() + 1
                == old(self)@.entries.dom().len(),
    {
        proof {
            self.lemma_order();
            if self@.entries.dom().len() > 0 {
                self.lemma_has_other(None);
            }
            if has_other(self@.entries.dom(), None) {
                let k = choose|k: Seq<u8>| #[trigger] self@.entries.dom().contains(k);
                assert(self.order().to_set().contains(k));
            }
        }
        self.evict_sparing(None);
    }

    /// Evicts entries until there are at most `max`. The key `key`, which was
    /// just used, is spared, if any can stay.
    pub fn trim(&mut self, max: Option<usize>, key: &[u8])
        requires
            old(self).wf(),
        ensures
            final(self).wf(),
            cut(old(self)@, key@, max, final(self)@),
    {
        if let Some(max) = max {
            let keep: Option<&[u8]> = if max > 0 {
                Some(key)
            } else {
                None
            };
            let ghost kept = spared(key@, max);
            let ghost start = self@.entries;
            let ghost mut victims: Seq<Seq<u8>> = Seq::empty();
            let mut n: usize = self.len();
            while n > max
                invariant
                    self.wf(),
                    kept == spared(key@, max),
                    key_view(keep) == kept,
                    self@.clock == old(self)@.clock,
                    self@.cursor == old(self)@.cursor,
                    n == self@.entries.dom().len(),
                    n == self.order().len(),
                    start == old(self)@.entries,
                    evicts(start, kept, victims, self@.entries),
                    victims.len() + n == start.dom().len(),
                    n <= max ==> victims.len() == 0 || n == max,
                    self@.entries.submap_of(start),
                    max > 0 && start.contains_key(key@) ==> self@.entries.contains_key(key@),
                decreases n,
            {
                let ghost prior = self@;
                let ghost before = prior.entries;
                proof {
                    self.lemma_has_other(kept);
                }
                self.evict_sparing(keep);
                proof {
                    let victim = choose|victim: Seq<u8>| #[trigger]
                        may_evict(before, kept, victim) && self@ == prior.drop_key(victim);
                    assert(self@.entries == before.remove(victim));
                    lemma_evicts_push(start, kept, victims, before, victim);
                    victims = victims.push(victim);
                    lemma_submap_remove(before, start, victim);
                }
                n = self.len();
            }
            proof {
                assert(evicts(start, kept, victims, self@.entries));
                assert(victims.len() == excess(start.dom().len(), max));
            }
        }
    }

    /// The value of `key` for reading, if it is live. Counts as a use.
    pub fn read_at(&mut self, key: &[u8], now: u64) -> (value: Option<&Value>)
        requires
            old(self).wf(),
        ensures
            final(self).wf(),
            final(self)@ == old(self)@.touch(key@, now),
            match value {
                Some(v) => old(self)@.holds(key@, now) && v.wf() && v@
                    == old(self)@.entries[key@].value,
                None => !old(self)@.holds(key@, now),
            },
    {
        if self.purge_if_expired(key, now) {
            return None;
        }
        self.mark_used(key);
        assert(self@.entries.contains_key(key@));
        match self.map.get(key) {
            Some(entry) => {
                assert(self@.entries[key@] == entry@);
                Some(&entry.value)
            },
            None => None,
        }
    }

    /// A copy of the value of `key`, if it is live. Counts as a use.
    pub fn get_at(&mut self, key: &[u8], now: u64) -> (value: Option<Value>)
        requires
            old(self).wf(),
        ensures
            final(self).wf(),
            final(self)@ == old(self)@.touch(key@, now),
            match value {
                Some(v) => old(self)@.holds(key@, now) && v.wf() && v@
                    == old(self)@.entries[key@].value,
                None => !old(self)@.holds(key@, now),
            },
    {
        match self.read_at(key, now) {
            Some(value) => Some(value.duplicate()),
            None => None,
        }
    }

    /// The value of `key`, for changing in place; a key that is not live first
    /// comes into being with the value `default`. Counts as a use.
    pub(crate) fn entry_mut_at(&mut self, key: &Bytes, default: Value, now: u64) -> (value: &mut Value)
        requires
            old(self).wf(),
            default.wf(),
        ensures
            value.wf(),
            value@ == if old(self)@.holds(content(*key), now) {
                old(self)@.entries[content(*key)].value
            } else {
                default@
            },
            final(value).wf() && !final(value)@.is_hollow() ==> final(self).wf(),
            final(self)@ == old(self)@.change(content(*key), now, final(value)@),
    {
        if self.purge_if_expired(key, now) {
            let clock: u64 = self.tick();
            let entry = Entry { value: default, expires_at_ms: None, last_access: clock };
            let ghost purged = self@.entries;
            self.map.insert(key.clone(), entry);
            proof {
                assert(self@.entries =~= purged.insert(content(*key), entry@));
                assert(self@.entries =~= old(self)@.entries.insert(content(*key), entry@));
            }
        }
        let clock: u64 = self.clock.wrapping_add(1);
        self.clock = clock;
        proof {
            let k = content(*key);
            let map = self.map;
            assert forall|new: ByteMap<Entry>, e: Entry|
                new@ == #[trigger] map@.insert(k, e) implies #[trigger] entries_of(new)
                == entries_of(map).insert(k, e@) by {
                assert(entries_of(new) =~= entries_of(map).insert(k, e@));
            }
            assert(map@.contains_key(k));
            assert forall|e: Entry| entries_of(map).insert(k, #[trigger] e@)
                =~= old(self)@.entries.insert(k, e@) by {}
        }
        match self.map.get_mut(key) {
            Some(entry) => {
                entry.last_access = clock;
                &mut entry.value
            },
            None => { unreached() },
        }
    }

    /// Applies `f` to the value of `key`, which is live, and returns what it
    /// returns. A collection that is left without elements goes together with
    /// its key.
    pub fn edit_live_at<T, F: FnOnce(&mut Value) -> T>(
        &mut self,
        key: &Bytes,
        f: F,
        now: u64,
    ) -> (result: T)
        requires
            old(self).wf(),
            old(self)@.holds(content(*key), now),
            forall|v: &mut Value| v.wf() ==> f.requires((v,)),
            forall|v: &mut Value, r: T|
                v.wf() && #[trigger] f.ensures((v,), r) ==> final(v).wf(),
        ensures
            final(self).wf(),
            exists|v: &mut Value|
                {
                    &&& #[trigger] f.ensures((v,), result)
                    &&& v.wf()
                    &&& v@ == old(self)@.entries[content(*key)].value
                    &&& final(self)@ == old(self)@.edit(content(*key), now, final(v)@)
                },
    {
        let ghost k = content(*key);
        let mut value = Value::Str(Bytes::new());
        let place = self.entry_mut_at(key, Value::Str(Bytes::new()), now);
        core::mem::swap(place, &mut value);
        let result = f(&mut value);
        let ghost after = value@;
        let hollow: bool = value.is_hollow();
        if !hollow {
            *place = value;
        }
        if hollow {
            self.remove_entry(key);
            assert(self@.entries =~= old(self)@.touch(k, now).drop_key(k).entries);
        }
        assert(self@ == old(self)@.edit(k, now, after));
        result
    }

    /// Sets `key`, unless `nx` is asked for and it is live, or `xx` and it is
    /// not. Then evicts what exceeds `max` entries.
    pub fn set_at(
        &mut self,
        key: Bytes,
        value: Value,
        expires_at_ms: Option<u64>,
        nx: bool,
        xx: bool,
        max: Option<usize>,
        now: u64,
    ) -> (done: bool)
        requires
            old(self).wf(),
            value.wf(),
            !value@.is_hollow(),
        ensures
            final(self).wf(),
            done == set_allowed(old(self)@.holds(content(key), now), nx, xx),
            set_effect(
                old(self)@,
                content(key),
                EntryView { value: value@, expires_at_ms, last_access: 0 },
                done,
                max,
                now,
                final(self)@,
            ),
    {
        let exists: bool = !self.purge_if_expired(&key, now);
        if (nx && exists) || (xx && !exists) {
            return false;
        }
        let clock: u64 = self.tick();
        let ghost k = content(key);
        let entry = Entry { value, expires_at_ms, last_access: clock };
        self.put_entry(key.clone(), entry);
        assert(self@ == old(self)@.purge(k, now).put(
            k,
            EntryView { value: value@, expires_at_ms, last_access: 0 },
        ));
        self.trim(max, &key);
        true
    }

    /// Removes `key`. Returns whether it was live.
    pub fn del_at(&mut self, key: &[u8], now: u64) -> (removed: bool)
        requires
            old(self).wf(),
        ensures
            final(self).wf(),
            final(self)@ == old(self)@.drop_key(key@),
            removed == old(self)@.holds(key@, now),
    {
        if !self.purge_if_expired(key, now) {
            self.remove_entry(key);
            true
        } else {
            assert(self@.entries =~= old(self)@.drop_key(key@).entries);
            false
        }
    }

    /// Sets the expiry time of `key`, if it is live: it is gone at once where
    /// that time has come. Returns whether the key was live.
    pub fn expire_at(&mut self, key: &[u8], at_ms: i64, now: u64) -> (done: bool)
        requires
            old(self).wf(),
        ensures
            final(self).wf(),
            done == old(self)@.holds(key@, now),
            final(self)@ == if !done {
                old(self)@.purge(key@, now)
            } else if at_ms <= now as i64 {
                old(self)@.drop_key(key@)
            } else {
                old(self)@.with_expiry(key@, Some(at_ms as u64))
            },
    {
        if self.purge_if_expired(key, now) {
            return false;
        }
        if at_ms <= now as i64 {
            self.remove_entry(key);
            return true;
        }
        if let Some(entry) = self.map.get_mut(key) {
            entry.expires_at_ms = Some(at_ms as u64);
        }
        assert(self@.entries =~= old(self)@.with_expiry(key@, Some(at_ms as u64)).entries);
        true
    }

    /// Takes the expiry time off `key`. Returns whether the key was live and
    /// had one.
    pub fn persist_at(&mut self, key: &[u8], now: u64) -> (done: bool)
        requires
            old(self).wf(),
        ensures
            final(self).wf(),
            done == (old(self)@.holds(key@, now) && old(self)@.entries[key@].expires_at_ms is Some),
            final(self)@ == if done {
                old(self)@.with_expiry(key@, None)
            } else {
                old(self)@.purge(key@, now)
            },
    {
        if self.purge_if_expired(key, now) {
            return false;
        }
        let mut had: bool = false;
        if let Some(entry) = self.map.get_mut(key) {
            had = entry.expires_at_ms.is_some();
            entry.expires_at_ms = None;
        }
        assert(self@.entries =~= old(self)@.with_expiry(key@, None).entries);
        proof {
            if !had {
                assert(self@.entries =~= old(self)@.entries);
            }
        }
        had
    }

    /// Time to live of `key` in milliseconds: `None` if it is not live,
    /// `Some(None)` if it has no expiry time.
    pub fn ttl_at(&mut self, key: &[u8], now: u64) -> (ttl: Option<Option<i64>>)
        requires
            old(self).wf(),
        ensures
            final(self).wf(),
            final(self)@ == old(self)@.purge(key@, now),
            ttl == if old(self)@.holds(key@, now) {
                Some(
                    match old(self)@.entries[key@].expires_at_ms {
                        Some(at) => Some(ttl_spec(at, now)),
                        None => None,
                    },
                )
            } else {
                None
            },
    {
        if self.purge_if_expired(key, now) {
            return None;
        }
        match self.map.get(key) {
            None => None,
            Some(entry) => match entry.expires_at_ms {
                None => Some(None),
                Some(at) => {
                    let left: i64 = (at as i64).wrapping_sub(now as i64);
                    Some(Some(if left > 0 {
                        left
                    } else {
                        0
                    }))
                },
            },
        }
    }

    /// What kind of value `key` holds, if it is live.
    pub fn key_type_at(&mut self, key: &[u8], now: u64) -> (kind: Option<&'static str>)
        requires
            old(self).wf(),
        ensures
            final(self).wf(),
            final(self)@ == old(self)@.purge(key@, now),
            match kind {
                Some(name) => old(self)@.holds(key@, now) && name@
                    == old(self)@.entries[key@].value.kind(),
                None => !old(self)@.holds(key@, now),
            },
    {
        if self.purge_if_expired(key, now) {
            return None;
        }
        match self.map.get(key) {
            Some(entry) => Some(entry.value.kind()),
            None => None,
        }
    }

    /// Removes what is expired among the entries that lie from the cursor on, as
    /// many as a round of active expiry looks at, and moves the cursor behind
    /// them.
    pub fn expire_cycle_at(&mut self, now: u64)
        requires
            old(self).wf(),
        ensures
            final(self).wf(),
            swept(old(self)@, old(self).order(), now, final(self)@, final(self).order()),
    {
        let n: usize = self.len();
        let sample: usize = if n < EXPIRE_SAMPLE_SIZE {
            n
        } else {
            EXPIRE_SAMPLE_SIZE
        };
        let start: usize = if self.cursor < n {
            self.cursor
        } else {
            0
        };
        let ghost order = self.map.keys();
        let ghost entries = self@.entries;
        let ghost window = sweep_window(order, self.cursor);
        let mut expired: Vec<Bytes> = Vec::new();
        let mut at: usize = start;
        let mut i: usize = 0;
        proof {
            self.lemma_order();
            self.map.lemma_keys();
        }
        while i < sample
            invariant
                self.wf(),
                *self == *old(self),
                self@.entries == entries,
                order == self.map.keys(),
                self.map.values().len() == order.len(),
                lists_keys(order, entries),
                n == order.len(),
                start == sweep_start(self.cursor, order.len()),
                window == sweep_window(order, self.cursor),
                i <= sample == window.len() <= n,
                at == wrapped(start + i, n as int),
                forall|j: int|
                    0 <= j < i && entries[#[trigger] window[j]].expired(now) ==> contents(
                        expired@,
                    ).contains(window[j]),
                forall|k: Seq<u8>| #[trigger]
                    contents(expired@).contains(k) ==> entries[k].expired(now) && window.take(
                        i as int,
                    ).contains(k) && entries.contains_key(k),
            decreases sample - i,
        {
            let ghost before = expired@;
            proof {
                self.map.lemma_entry(at as int);
                assert(entries[order[at as int]] == self.map.values()[at as int]@);
                assert(window[i as int] == order[at as int]);
                assert(window.take(i + 1) =~= window.take(i as int).push(window[i as int]));
                assert(window.take(i + 1)[i as int] == window[i as int]);
                assert(order.to_set().contains(order[at as int]));
            }
            if is_expired(self.map.value_at(at), now) {
                expired.push(self.map.key_at(at).clone());
                proof {
                    let added = contents(expired@);
                    assert(added =~= contents(before).push(window[i as int]));
                    assert(added[before.len() as int] == window[i as int]);
                    assert forall|j: int|
                        0 <= j < i + 1 && entries[#[trigger] window[j]].expired(
                            now,
                        ) implies added.contains(window[j]) by {
                        if j < i {
                            let spot = contents(before).index_of(window[j]);
                            assert(added[spot] == window[j]);
                        }
                    }
                    assert forall|k: Seq<u8>| #[trigger] added.contains(k) implies entries[k].expired(
                        now,
                    ) && window.take(i + 1).contains(k) && entries.contains_key(k) by {
                        let spot = added.index_of(k);
                        if spot < before.len() {
                            assert(contents(before)[spot] == k);
                            assert(contents(before).contains(k));
                            let place = window.take(i as int).index_of(k);
                            assert(window.take(i + 1)[place] == k);
                        }
                    }
                }
            } else {
                assert forall|k: Seq<u8>| #[trigger] contents(expired@).contains(
                    k,
                ) implies window.take(i + 1).contains(k) by {
                    let place = window.take(i as int).index_of(k);
                    assert(window.take(i + 1)[place] == k);
                }
            }
            at = if at + 1 == n {
                0
            } else {
                at + 1
            };
            i = i + 1;
        }
        let ghost gone = contents(expired@);
        let mut j: usize = 0;
        self.cursor = at;
        assert(self@.entries =~= entries.remove_keys(gone.take(0).to_set()));
        while j < expired.len()
            invariant
                self.wf(),
                gone == contents(expired@),
                j <= expired@.len(),
                self@.clock == old(self)@.clock,
                self@.cursor == at,
                self@.entries == entries.remove_keys(gone.take(j as int).to_set()),
                j == 0 ==> self.map == old(self).map,
            decreases expired@.len() - j,
        {
            self.remove_entry(&expired[j]);
            proof {
                let k = gone[j as int];
                assert(gone.take(j + 1) =~= gone.take(j as int).push(k));
                gone.take(j as int).lemma_push_to_set_commute(k);
                assert(self@.entries =~= entries.remove_keys(gone.take(j + 1).to_set()));
            }
            j = j + 1;
        }
        proof {
            assert(gone.take(gone.len() as int) =~= gone);
            assert(window.take(sample as int) =~= window);
            let want = old(self)@.sweep(order, now).entries;
            assert forall|k: Seq<u8>| #[trigger]
                self@.entries.contains_key(k) <==> want.contains_key(k) by {
                if gone.contains(k) {
                    assert(window.to_set().contains(k));
                }
                if window.to_set().contains(k) && entries[k].expired(now) {
                    let spot = window.index_of(k);
                    assert(window[spot] == k);
                    assert(gone.contains(k));
                }
            }
            assert(self@.entries =~= want);
            if gone.len() > 0 {
                assert(gone.contains(gone[0]));
                assert(entries.contains_key(gone[0]));
                assert(gone.to_set().contains(gone[0]));
                assert(!self@.entries.contains_key(gone[0]));
            }
        }
    }

    /// Appends a copy of every entry that is not expired to `list`.
    pub fn collect_live_at(&self, list: &mut Vec<(Bytes, Entry)>, now: u64)
        requires
            self.wf(),
            all_wf(old(list)@),
        ensures
            all_wf(final(list)@),
            exists|live: Seq<Seq<u8>>|
                #![trigger live.to_set()]
                {
                    &&& live.no_duplicates()
                    &&& live.to_set() == self@.live_keys(now)
                    &&& pairs_of(final(list)@) == pairs_of(old(list)@) + live.map_values(
                        |k: Seq<u8>| (k, self@.entries[k]),
                    )
                },
    {
        let n: usize = self.len();
        let ghost order = self.map.keys();
        let ghost entries = self@.entries;
        let ghost mut live: Seq<Seq<u8>> = Seq::empty();
        let ghost pair = |k: Seq<u8>| (k, entries[k]);
        let ghost start = pairs_of(list@);
        let mut i: usize = 0;
        proof {
            self.map.lemma_keys();
            assert(pairs_of(list@) =~= start + live.map_values(pair));
        }
        while i < n
            invariant
                self.wf(),
                all_wf(list@),
                entries == self@.entries,
                order == self.map.keys(),
                order.no_duplicates(),
                self.map.values().len() == order.len(),
                i <= n == order.len(),
                pair == (|k: Seq<u8>| (k, entries[k])),
                live.no_duplicates(),
                forall|k: Seq<u8>| #[trigger]
                    live.contains(k) <==> order.take(i as int).contains(k) && !entries[k].expired(
                        now,
                    ),
                pairs_of(list@) == start + live.map_values(pair),
            decreases n - i,
        {
            let ghost k = order[i as int];
            proof {
                self.map.lemma_entry(i as int);
                assert(entries[k] == self.map.values()[i as int]@);
                assert(order.take(i + 1) =~= order.take(i as int).push(k));
                assert(order.take(i + 1)[i as int] == k);
                assert forall|x: Seq<u8>| #[trigger] order.take(i + 1).contains(x) <==> order.take(
                    i as int,
                ).contains(x) || x == k by {
                    if order.take(i as int).contains(x) {
                        let spot = order.take(i as int).index_of(x);
                        assert(order.take(i + 1)[spot] == x);
                    }
                    if order.take(i + 1).contains(x) {
                        let spot = order.take(i + 1).index_of(x);
                        if spot < i {
                            assert(order.take(i as int)[spot] == x);
                        }
                    }
                }
                assert(self.map@.contains_key(k));
            }
            if !is_expired(self.map.value_at(i), now) {
                let ghost before = list@;
                list.push((self.map.key_at(i).clone(), self.map.value_at(i).duplicate()));
                proof {
                    let was = live;
                    live = live.push(k);
                    assert(!was.contains(k)) by {
                        if order.take(i as int).contains(k) {
                            let spot = order.take(i as int).index_of(k);
                            assert(order[spot] == k);
                        }
                    }
                    assert forall|x: Seq<u8>| #[trigger] live.contains(x) <==> was.contains(x) || x
                        == k by {
                        if was.contains(x) {
                            assert(live[was.index_of(x)] == x);
                        }
                        assert(live[was.len() as int] == k);
                    }
                    assert(pairs_of(list@) =~= pairs_of(before).push((k, entries[k])));
                    assert(pairs_of(list@) =~= start + live.map_values(pair));
                }
            }
            i = i + 1;
        }
        proof {
            assert(order.take(n as int) =~= order);
            assert forall|k: Seq<u8>| #[trigger] live.to_set().contains(k) <==> self@.live_keys(
                now,
            ).contains(k) by {
                assert(live.contains(k) <==> order.contains(k) && !entries[k].expired(now));
                assert(order.to_set().contains(k) <==> entries.contains_key(k));
            }
            assert(live.to_set() =~= self@.live_keys(now));
            assert(pairs_of(list@) =~= start + live.map_values(
                |k: Seq<u8>| (k, self@.entries[k]),
            ));
        }
    }

    /// Removes every entry.
    pub fn clear(&mut self)
        ensures
            final(self).wf(),
            final(self)@ == (ShardView { entries: Map::empty(), ..old(self)@ }),
    {
        self.map.clear();
        assert(self@.entries =~= Map::empty());
    }
}

/// Milliseconds from `now` until `at`, or 0 once that has passed. Both count as
/// signed 64-bit numbers, and the difference wraps around.
pub open spec fn ttl_spec(at: u64, now: u64) -> i64 {
    let left = (at as i64).wrapping_sub(now as i64);
    if left > 0 {
        left
    } else {
        0
    }
}

/// Whether a key that is live, or not, may be set under the conditions `nx`
/// (only if it is not) and `xx` (only if it is).
pub open spec fn set_allowed(live: bool, nx: bool, xx: bool) -> bool {
    !(nx && live) && !(xx && !live)
}

/// Whether setting `key` to `entry` may turn `before` into `after`: the key is
/// purged if expired; then, if the setting was `done`, it gets its entry, and
/// eviction cuts the shard down to `max` entries.
pub open spec fn set_effect(
    before: ShardView,
    key: Seq<u8>,
    entry: EntryView,
    done: bool,
    max: Option<usize>,
    now: u64,
    after: ShardView,
) -> bool {
    if done {
        let full = before.purge(key, now).put(key, entry);
        cut(full, key, max, after)
    } else {
        after == before.purge(key, now)
    }
}

proof fn lemma_submap_remove(
    small: Map<Seq<u8>, EntryView>,
    large: Map<Seq<u8>, EntryView>,
    key: Seq<u8>,
)
    requires
        small.submap_of(large),
    ensures
        small.remove(key).submap_of(large),
{
    assert forall|k: Seq<u8>| #[trigger]
        small.remove(key).dom().contains(k) implies large.dom().contains(k)
        && small.remove(key)[k] == large[k] by {
        assert(small.dom().contains(k));
        assert(large.dom().contains(k));
        assert(small[k] == large[k]);
        assert(small.remove(key)[k] == small[k]);
    }
}

proof fn lemma_evicts_push(
    start: Map<Seq<u8>, EntryView>,
    keep: Option<Seq<u8>>,
    victims: Seq<Seq<u8>>,
    end: Map<Seq<u8>, EntryView>,
    victim: Seq<u8>,
)
    requires
        evicts(start, keep, victims, end),
        may_evict(end, keep, victim),
    ensures
        evicts(start, keep, victims.push(victim), end.remove(victim)),
    decreases victims.len(),
{
    let all = victims.push(victim);
    if victims.len() == 0 {
        assert(all.skip(1) =~= Seq::<Seq<u8>>::empty());
        assert(evicts(start.remove(victim), keep, all.skip(1), end.remove(victim)));
    } else {
        assert(all.skip(1) =~= victims.skip(1).push(victim));
        lemma_evicts_push(start.remove(victims[0]), keep, victims.skip(1), end, victim);
    }
}

} // verus!
