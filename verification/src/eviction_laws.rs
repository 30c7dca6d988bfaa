//! What counts as a use of a key, and what eviction makes of it: the key that
//! was used longest ago goes first.

use vstd::prelude::*;

use crate::commands::CommandView;
use crate::execute::outcome;
use crate::keyspace_laws::shown;
use crate::resp::ReplyView;
use crate::shard::{
    cut, evicts, excess, is_sample, may_evict, oldest_of, set_effect, spared, ShardView,
};
use crate::store::{shard_of, StoreView, NUM_SHARDS};
use crate::value::{EntryView, ValueView};

verus! {

/// Whether, from `before` to `after`, `key` became the key of its shard that was
/// used last: it has the time of the shard's clock, which has moved on, and every
/// other key of the shard is as it was.
pub open spec fn became_latest(before: StoreView, after: StoreView, key: Seq<u8>) -> bool {
    let b = before.shards[shard_of(key)];
    let a = after.shards[shard_of(key)];
    &&& a.clock > b.clock
    &&& a.entries.contains_key(key)
    &&& a.entries[key].last_access == a.clock
    &&& forall|k: Seq<u8>|
        k != key && #[trigger] a.entries.contains_key(k) ==> b.entries.contains_key(k)
            && a.entries[k] == b.entries[k]
    &&& forall|i: int|
        0 <= i < NUM_SHARDS && i != shard_of(key) ==> #[trigger] after.shards[i]
            == before.shards[i]
}

/// The key that a command reads and thereby uses, if it reads one.
pub open spec fn read_key(cmd: CommandView) -> Option<Seq<u8>> {
    match cmd {
        CommandView::Get(key) => Some(key),
        CommandView::LRange { key, .. } => Some(key),
        CommandView::LLen(key) => Some(key),
        CommandView::HGet(key, _) => Some(key),
        CommandView::HExists(key, _) => Some(key),
        CommandView::HGetAll(key) => Some(key),
        CommandView::SMembers(key) => Some(key),
        CommandView::SIsMember(key, _) => Some(key),
        CommandView::ZRange { key, .. } => Some(key),
        CommandView::ZScore(key, _) => Some(key),
        _ => None,
    }
}

/// The key that a command writes in place and thereby uses, if it writes one.
pub open spec fn changed_key(cmd: CommandView) -> Option<Seq<u8>> {
    match cmd {
        CommandView::Incr(key) => Some(key),
        CommandView::Decr(key) => Some(key),
        CommandView::IncrBy(key, _) => Some(key),
        CommandView::DecrBy(key, _) => Some(key),
        CommandView::Append(key, _) => Some(key),
        CommandView::Push { key, .. } => Some(key),
        CommandView::HSet(key, _) => Some(key),
        CommandView::SAdd(key, _) => Some(key),
        CommandView::ZAdd(key, _) => Some(key),
        _ => None,
    }
}

/// Reading a key that there is counts as a use, with or without an expiry time:
/// it becomes the key of its shard that was used last, and no key goes.
pub proof fn law_reading_is_a_use(
    before: StoreView,
    channels: Set<Seq<u8>>,
    cmd: CommandView,
    key: Seq<u8>,
    now: u64,
    reply: ReplyView,
    after: StoreView,
)
    requires
        before.shards.len() == NUM_SHARDS,
        before.shards[shard_of(key)].clock < u64::MAX,
        read_key(cmd) == Some(key),
        shown(before, key, now) is Some,
        outcome(before, channels, cmd, now, reply, after),
    ensures
        became_latest(before, after, key),
        after.shards[shard_of(key)].clock == before.shards[shard_of(key)].clock + 1,
        after.shards[shard_of(key)].entries.dom() == before.shards[shard_of(key)].entries.dom(),
        after.shards[shard_of(key)].entries[key].value
            == before.shards[shard_of(key)].entries[key].value,
        after.shards[shard_of(key)].entries[key].expires_at_ms
            == before.shards[shard_of(key)].entries[key].expires_at_ms,
{
    assert(before.holds(key, now));
    assert(after == before.touch(key, now));
    assert(after.shards[shard_of(key)].entries.dom()
        =~= before.shards[shard_of(key)].entries.dom());
}

/// Changing the value of a key in place counts as a use.
pub proof fn law_changing_is_a_use(
    before: StoreView,
    channels: Set<Seq<u8>>,
    cmd: CommandView,
    key: Seq<u8>,
    now: u64,
    reply: ReplyView,
    after: StoreView,
)
    requires
        before.shards.len() == NUM_SHARDS,
        before.max_keys_per_shard != Some(0usize),
        before.shards[shard_of(key)].clock < u64::MAX - 1,
        changed_key(cmd) == Some(key),
        outcome(before, channels, cmd, now, reply, after),
    ensures
        became_latest(before, after, key),
{
    let value = choose|value: ValueView| #[trigger] before.changes(key, now, value, after);
    assert(before.changes(key, now, value, after));
    let mid = before.change(key, now, value);
    let full = mid.home(key);
    let shard = choose|shard: ShardView| #[trigger]
        cut(full, key, before.max_keys_per_shard, shard) && after == mid.with_home(key, shard);
    lemma_cut(full, key, before.max_keys_per_shard, shard);
    assert(shard.entries.contains_key(key));
}

proof fn lemma_cut(full: ShardView, key: Seq<u8>, max: Option<usize>, after: ShardView)
    requires
        cut(full, key, max, after),
    ensures
        after.clock == full.clock,
        forall|k: Seq<u8>| #[trigger]
            after.entries.contains_key(k) ==> full.entries.contains_key(k) && after.entries[k]
                == full.entries[k],
{
    assert forall|k: Seq<u8>| #[trigger] after.entries.contains_key(
        k,
    ) implies full.entries.contains_key(k) && after.entries[k] == full.entries[k] by {
        assert(after.entries.dom().contains(k));
        assert(full.entries.dom().contains(k));
    }
}

/// Setting a key counts as a use.
pub proof fn law_setting_is_a_use(
    before: StoreView,
    channels: Set<Seq<u8>>,
    key: Seq<u8>,
    value: Seq<u8>,
    expires_at_ms: Option<u64>,
    nx: bool,
    xx: bool,
    now: u64,
    reply: ReplyView,
    after: StoreView,
)
    requires
        before.shards.len() == NUM_SHARDS,
        before.max_keys_per_shard != Some(0usize),
        before.shards[shard_of(key)].clock < u64::MAX,
        outcome(
            before,
            channels,
            CommandView::SetKey { key, value, expires_at_ms, nx, xx },
            now,
            reply,
            after,
        ),
        reply == ReplyView::Simple("OK"@),
    ensures
        became_latest(before, after, key),
{
    let entry = EntryView { value: ValueView::Str(value), expires_at_ms, last_access: 0 };
    let done = crate::shard::set_allowed(before.holds(key, now), nx, xx);
    let shard = choose|shard: ShardView| #[trigger]
        set_effect(before.home(key), key, entry, done, before.max_keys_per_shard, now, shard)
            && after == before.with_home(key, shard);
    let full = before.home(key).purge(key, now).put(key, entry);
    lemma_cut(full, key, before.max_keys_per_shard, shard);
    assert(full.entries.contains_key(key));
    assert(shard.entries.contains_key(key));
}

/// Whether, from `before` to `after`, no key was used: whatever key there still is
/// has the time of its last use that it had.
pub open spec fn nothing_used(before: StoreView, after: StoreView) -> bool {
    forall|i: int, k: Seq<u8>|
        0 <= i < NUM_SHARDS && #[trigger] after.shards[i].entries.contains_key(k)
            ==> before.shards[i].entries.contains_key(k)
            && after.shards[i].entries[k].last_access == before.shards[i].entries[k].last_access
}

proof fn lemma_nothing_used(a: StoreView, b: StoreView, c: StoreView)
    requires
        nothing_used(a, b),
        nothing_used(b, c),
    ensures
        nothing_used(a, c),
{
    assert forall|i: int, k: Seq<u8>|
        0 <= i < NUM_SHARDS && #[trigger] c.shards[i].entries.contains_key(k) implies
        a.shards[i].entries.contains_key(k) && c.shards[i].entries[k].last_access
        == a.shards[i].entries[k].last_access by {
        assert(b.shards[i].entries.contains_key(k));
    }
}

proof fn lemma_all_unused(s: StoreView, keys: Seq<Seq<u8>>, now: u64)
    requires
        s.shards.len() == NUM_SHARDS,
    ensures
        s.purge_all(keys, now).shards.len() == NUM_SHARDS,
        s.drop_all(keys).shards.len() == NUM_SHARDS,
        nothing_used(s, s.purge_all(keys, now)),
        nothing_used(s, s.drop_all(keys)),
    decreases keys.len(),
{
    if keys.len() > 0 {
        let front = keys.drop_last();
        lemma_all_unused(s, front, now);
        lemma_nothing_used(s, s.purge_all(front, now), s.purge_all(keys, now));
        lemma_nothing_used(s, s.drop_all(front), s.drop_all(keys));
    }
}

/// Asking whether there are keys, of what kind they are, how long they live, and
/// setting or lifting expiry times, counts as no use.
pub proof fn law_asking_is_no_use(
    before: StoreView,
    channels: Set<Seq<u8>>,
    cmd: CommandView,
    now: u64,
    reply: ReplyView,
    after: StoreView,
)
    requires
        before.shards.len() == NUM_SHARDS,
        cmd is Exists || cmd is Type || cmd is Ttl || cmd is Expire || cmd is Persist || cmd is Del,
        outcome(before, channels, cmd, now, reply, after),
    ensures
        nothing_used(before, after),
{
    match cmd {
        CommandView::Exists(keys) | CommandView::Del(keys) => {
            lemma_all_unused(before, keys, now);
        },
        _ => {},
    }
}

proof fn lemma_touch_all_uses(s: StoreView, keys: Seq<Seq<u8>>, now: u64, i: int)
    requires
        s.shards.len() == NUM_SHARDS,
        0 <= i < keys.len(),
        forall|h: int| 0 <= h < NUM_SHARDS ==> (#[trigger] s.shards[h]).clock + keys.len()
            <= u64::MAX,
        shown(s, keys[i], now) is Some,
    ensures
        ({
            let h = shard_of(keys[i]);
            let after = s.touch_all(keys, now).shards[h];
            &&& after.entries.contains_key(keys[i])
            &&& after.entries[keys[i]].last_access > s.shards[h].clock
        }),
    decreases keys.len(),
{
    let front = keys.drop_last();
    let last = keys.last();
    let mid = s.touch_all(front, now);
    let h = shard_of(keys[i]);
    lemma_touch_all_clock(s, front, now);
    s.lemma_touch_all_keeps_values(front, keys[i], now);
    assert(s.value(keys[i], now) is Some);
    assert(mid.value(keys[i], now) is Some);
    assert(s.shards[h].clock + keys.len() <= u64::MAX);
    if i < front.len() {
        assert(front[i] == keys[i]);
        lemma_touch_all_uses(s, front, now, i);
    }
}

proof fn lemma_touch_all_clock(s: StoreView, keys: Seq<Seq<u8>>, now: u64)
    requires
        s.shards.len() == NUM_SHARDS,
        forall|h: int| 0 <= h < NUM_SHARDS ==> (#[trigger] s.shards[h]).clock + keys.len()
            <= u64::MAX,
    ensures
        s.touch_all(keys, now).shards.len() == NUM_SHARDS,
        forall|h: int|
            0 <= h < NUM_SHARDS ==> s.shards[h].clock <= (#[trigger] s.touch_all(
                keys,
                now,
            ).shards[h]).clock <= s.shards[h].clock + keys.len(),
    decreases keys.len(),
{
    if keys.len() > 0 {
        let front = keys.drop_last();
        assert forall|h: int| 0 <= h < NUM_SHARDS implies (#[trigger] s.shards[h]).clock
            + front.len() <= u64::MAX by {
            assert(s.shards[h].clock + keys.len() <= u64::MAX);
        }
        lemma_touch_all_clock(s, front, now);
        let mid = s.touch_all(front, now);
        assert forall|h: int| 0 <= h < NUM_SHARDS implies s.shards[h].clock <= (
        #[trigger] s.touch_all(keys, now).shards[h]).clock <= s.shards[h].clock + keys.len() by {
            assert(s.shards[h].clock <= mid.shards[h].clock <= s.shards[h].clock + front.len());
            assert(s.shards[h].clock + keys.len() <= u64::MAX);
        }
    }
}

/// `MGET` counts as a use of every key of it that there is: each has been used
/// later than any key had been before.
pub proof fn law_mget_uses_every_key(
    before: StoreView,
    channels: Set<Seq<u8>>,
    keys: Seq<Seq<u8>>,
    i: int,
    now: u64,
    reply: ReplyView,
    after: StoreView,
)
    requires
        before.shards.len() == NUM_SHARDS,
        outcome(before, channels, CommandView::MGet(keys), now, reply, after),
        0 <= i < keys.len(),
        forall|h: int| 0 <= h < NUM_SHARDS ==> (#[trigger] before.shards[h]).clock + keys.len()
            <= u64::MAX,
        shown(before, keys[i], now) is Some,
    ensures
        after.shards[shard_of(keys[i])].entries.contains_key(keys[i]),
        after.shards[shard_of(keys[i])].entries[keys[i]].last_access > before.shards[shard_of(
            keys[i],
        )].clock,
{
    lemma_touch_all_uses(before, keys, now, i);
}

/// One eviction never takes the key that was used last, apart from the one that
/// is spared, as long as there is another.
pub proof fn law_eviction_spares_the_latest(
    entries: Map<Seq<u8>, EntryView>,
    keep: Option<Seq<u8>>,
    victim: Seq<u8>,
    latest: Seq<u8>,
    other: Seq<u8>,
)
    requires
        entries.dom().finite(),
        may_evict(entries, keep, victim),
        entries.contains_key(latest),
        entries.contains_key(other),
        other != latest,
        keep != Some(other),
        forall|k: Seq<u8>|
            k != latest && keep != Some(k) && #[trigger] entries.contains_key(k)
                ==> entries[k].last_access < entries[latest].last_access,
    ensures
        victim != latest,
        entries.contains_key(victim),
        keep != Some(victim),
{
    let sample = choose|sample: Set<Seq<u8>>| #[trigger]
        is_sample(entries, sample) && oldest_of(entries, sample, keep, victim);
    assert(entries.dom().contains(victim));
    if victim == latest {
        let allowed = match keep {
            Some(k) => set![latest, k],
            None => set![latest],
        };
        assert forall|k: Seq<u8>| sample.contains(k) implies allowed.contains(k) by {
            if k != latest && keep != Some(k) {
                assert(entries.dom().contains(k));
                assert(entries.contains_key(k));
            }
        }
        assert(sample.subset_of(allowed));
        vstd::set_lib::lemma_len_subset(sample, allowed);
        let pair = set![latest, other];
        assert(pair.len() == 2);
        assert(pair.subset_of(entries.dom()));
        vstd::set_lib::lemma_len_subset(pair, entries.dom());
        if let Some(k) = keep {
            if entries.contains_key(k) && k != latest {
                let three = set![latest, other].insert(k);
                assert(three.len() == 3);
                assert(three.subset_of(entries.dom()));
                vstd::set_lib::lemma_len_subset(three, entries.dom());
                assert(sample.len() >= 3);
            } else {
                assert(sample.subset_of(set![latest]));
                vstd::set_lib::lemma_len_subset(sample, set![latest]);
            }
        }
    }
}

/// In a shard of at most five keys, what is evicted was used no later than
/// anything that stays, apart from the key that is spared.
pub proof fn law_small_shards_evict_the_oldest(
    entries: Map<Seq<u8>, EntryView>,
    keep: Option<Seq<u8>>,
    victim: Seq<u8>,
    other: Seq<u8>,
)
    requires
        entries.dom().finite(),
        entries.dom().len() <= 5,
        may_evict(entries, keep, victim),
        entries.contains_key(other),
        keep != Some(other),
    ensures
        entries[victim].last_access <= entries[other].last_access,
{
    let sample = choose|sample: Set<Seq<u8>>| #[trigger]
        is_sample(entries, sample) && oldest_of(entries, sample, keep, victim);
    vstd::set_lib::lemma_subset_equality(sample, entries.dom());
    assert(sample.contains(other));
}

proof fn lemma_latest_survives(
    entries: Map<Seq<u8>, EntryView>,
    keep: Seq<u8>,
    victims: Seq<Seq<u8>>,
    after: Map<Seq<u8>, EntryView>,
    latest: Seq<u8>,
)
    requires
        entries.dom().finite(),
        evicts(entries, Some(keep), victims, after),
        entries.contains_key(keep),
        entries.contains_key(latest),
        latest != keep,
        forall|k: Seq<u8>|
            k != latest && k != keep && #[trigger] entries.contains_key(k)
                ==> entries[k].last_access < entries[latest].last_access,
        entries.dom().len() >= victims.len() + 2,
    ensures
        after.contains_key(latest),
        after[latest] == entries[latest],
    decreases victims.len(),
{
    if victims.len() > 0 {
        let victim = victims[0];
        let pair = set![latest, keep];
        assert(pair.len() == 2);
        assert(exists|k: Seq<u8>| #[trigger]
            entries.dom().contains(k) && k != latest && k != keep) by {
            if forall|k: Seq<u8>| #[trigger]
                entries.dom().contains(k) ==> k == latest || k == keep {
                assert(entries.dom().subset_of(pair));
                vstd::set_lib::lemma_len_subset(entries.dom(), pair);
            }
        }
        let other = choose|k: Seq<u8>| #[trigger]
            entries.dom().contains(k) && k != latest && k != keep;
        assert(entries.contains_key(other));
        law_eviction_spares_the_latest(entries, Some(keep), victim, latest, other);
        let rest = entries.remove(victim);
        assert(rest.dom() =~= entries.dom().remove(victim));
        assert forall|k: Seq<u8>|
            k != latest && k != keep && #[trigger] rest.contains_key(k) implies rest[k].last_access
            < rest[latest].last_access by {
            assert(entries.contains_key(k));
        }
        lemma_latest_survives(rest, keep, victims.skip(1), after, latest);
    }
}

proof fn lemma_oldest_go(
    entries: Map<Seq<u8>, EntryView>,
    keep: Option<Seq<u8>>,
    victims: Seq<Seq<u8>>,
    after: Map<Seq<u8>, EntryView>,
    gone: Seq<u8>,
    left: Seq<u8>,
)
    requires
        entries.dom().finite(),
        entries.dom().len() <= 5,
        evicts(entries, keep, victims, after),
        entries.contains_key(gone),
        !after.contains_key(gone),
        after.contains_key(left),
        keep != Some(left),
    ensures
        entries.contains_key(left),
        entries[gone].last_access <= entries[left].last_access,
    decreases victims.len(),
{
    if victims.len() > 0 {
        let victim = victims[0];
        let rest = entries.remove(victim);
        let sample = choose|sample: Set<Seq<u8>>| #[trigger]
            is_sample(entries, sample) && oldest_of(entries, sample, keep, victim);
        assert(entries.dom().contains(victim));
        assert(rest.dom() =~= entries.dom().remove(victim));
        if victim == gone {
            lemma_after_was_there(rest, keep, victims.skip(1), after, left);
            law_small_shards_evict_the_oldest(entries, keep, victim, left);
        } else {
            lemma_oldest_go(rest, keep, victims.skip(1), after, gone, left);
        }
    }
}

proof fn lemma_after_was_there(
    entries: Map<Seq<u8>, EntryView>,
    keep: Option<Seq<u8>>,
    victims: Seq<Seq<u8>>,
    after: Map<Seq<u8>, EntryView>,
    left: Seq<u8>,
)
    requires
        evicts(entries, keep, victims, after),
        after.contains_key(left),
    ensures
        entries.contains_key(left),
        after[left] == entries[left],
    decreases victims.len(),
{
    if victims.len() > 0 {
        lemma_after_was_there(entries.remove(victims[0]), keep, victims.skip(1), after, left);
    }
}

/// Where a write makes room in a shard that has at most five keys with the
/// written one, the keys that go were used no later than those that stay, apart
/// from the written key itself.
pub proof fn law_writes_evict_the_oldest(
    before: StoreView,
    channels: Set<Seq<u8>>,
    cmd: CommandView,
    key: Seq<u8>,
    now: u64,
    reply: ReplyView,
    after: StoreView,
    gone: Seq<u8>,
    left: Seq<u8>,
)
    requires
        before.shards.len() == NUM_SHARDS,
        (cmd matches CommandView::SetKey { key: k, .. } && k == key) || changed_key(cmd) == Some(
            key,
        ),
        outcome(before, channels, cmd, now, reply, after),
        before.shards[shard_of(key)].entries.dom().finite(),
        before.shards[shard_of(key)].entries.dom().insert(key).len() <= 5,
        gone != key,
        left != key,
        before.shards[shard_of(key)].entries.contains_key(gone),
        !after.shards[shard_of(key)].entries.contains_key(gone),
        after.shards[shard_of(key)].entries.contains_key(left),
    ensures
        before.shards[shard_of(key)].entries.contains_key(left),
        before.shards[shard_of(key)].entries[gone].last_access
            <= before.shards[shard_of(key)].entries[left].last_access,
{
    let (full, shard) = lemma_written(before, channels, cmd, key, now, reply, after);
    if let Some(max) = before.max_keys_per_shard {
        if shard != before.home(key).purge(key, now) {
            let victims = choose|victims: Seq<Seq<u8>>| #[trigger]
                evicts(full.entries, spared(key, max), victims, shard.entries) && victims.len()
                    == excess(full.entries.dom().len(), max);
            assert(full.entries.contains_key(gone));
            lemma_oldest_go(
                full.entries,
                spared(key, max),
                victims,
                shard.entries,
                gone,
                left,
            );
        }
    }
}

/// The shard of a written key before and after eviction; a setting that is
/// refused only purges the key.
proof fn lemma_written(
    before: StoreView,
    channels: Set<Seq<u8>>,
    cmd: CommandView,
    key: Seq<u8>,
    now: u64,
    reply: ReplyView,
    after: StoreView,
) -> (shards: (ShardView, ShardView))
    requires
        before.shards.len() == NUM_SHARDS,
        (cmd matches CommandView::SetKey { key: k, .. } && k == key) || changed_key(cmd) == Some(
            key,
        ),
        outcome(before, channels, cmd, now, reply, after),
    ensures
        shards.1 == after.shards[shard_of(key)],
        shards.0.entries.dom() == before.home(key).entries.dom().insert(key),
        forall|k: Seq<u8>|
            k != key && #[trigger] before.home(key).entries.contains_key(k)
                ==> shards.0.entries[k] == before.home(key).entries[k],
        cut(shards.0, key, before.max_keys_per_shard, shards.1) || (cmd is SetKey && shards.1
            == before.home(key).purge(key, now) && reply == ReplyView::Nil),
{
    match cmd {
        CommandView::SetKey { value, expires_at_ms, nx, xx, .. } => {
            let entry = EntryView { value: ValueView::Str(value), expires_at_ms, last_access: 0 };
            let done = crate::shard::set_allowed(before.holds(key, now), nx, xx);
            let shard = choose|shard: ShardView| #[trigger]
                set_effect(
                    before.home(key),
                    key,
                    entry,
                    done,
                    before.max_keys_per_shard,
                    now,
                    shard,
                ) && after == before.with_home(key, shard);
            let full = before.home(key).purge(key, now).put(key, entry);
            assert(full.entries.dom() =~= before.home(key).entries.dom().insert(key));
            (full, shard)
        },
        _ => {
            let value = choose|value: ValueView| #[trigger]
                before.changes(key, now, value, after);
            assert(before.changes(key, now, value, after));
            let mid = before.change(key, now, value);
            let full = mid.home(key);
            let shard = choose|shard: ShardView| #[trigger]
                cut(full, key, before.max_keys_per_shard, shard) && after == mid.with_home(
                    key,
                    shard,
                );
            assert(full.entries.dom() =~= before.home(key).entries.dom().insert(key));
            (full, shard)
        },
    }
}

/// A key that was just read survives the next write to another key of its shard,
/// however many keys that has, as long as the limit leaves room for two. (No key
/// of the shard may seem to have been used later than its clock says.)
pub proof fn law_key_read_last_survives(
    before: StoreView,
    channels: Set<Seq<u8>>,
    read: CommandView,
    key: Seq<u8>,
    now: u64,
    answer: ReplyView,
    mid: StoreView,
    write: CommandView,
    other: Seq<u8>,
    later: u64,
    reply: ReplyView,
    after: StoreView,
)
    requires
        before.shards.len() == NUM_SHARDS,
        before.shards[shard_of(key)].clock < u64::MAX,
        before.shards[shard_of(key)].entries.dom().finite(),
        forall|k: Seq<u8>| #[trigger]
            before.shards[shard_of(key)].entries.contains_key(k)
                ==> before.shards[shard_of(key)].entries[k].last_access
                <= before.shards[shard_of(key)].clock,
        read_key(read) == Some(key),
        shown(before, key, now) is Some,
        outcome(before, channels, read, now, answer, mid),
        mid.max_keys_per_shard matches Some(max) && max >= 2,
        other != key,
        shard_of(other) == shard_of(key),
        (write matches CommandView::SetKey { key: k, .. } && k == other) || changed_key(write)
            == Some(other),
        outcome(mid, channels, write, later, reply, after),
    ensures
        after.shards[shard_of(key)].entries.contains_key(key),
        after.shards[shard_of(key)].entries[key] == mid.shards[shard_of(key)].entries[key],
{
    law_reading_is_a_use(before, channels, read, key, now, answer, mid);
    let (full, shard) = lemma_written(mid, channels, write, other, later, reply, after);
    let max = mid.max_keys_per_shard->0;
    if cut(full, other, mid.max_keys_per_shard, shard) {
        let victims = choose|victims: Seq<Seq<u8>>| #[trigger]
            evicts(full.entries, spared(other, max), victims, shard.entries) && victims.len()
                == excess(full.entries.dom().len(), max);
        assert(mid.home(other).entries.contains_key(key));
        assert(full.entries.dom().contains(key));
        assert(full.entries.dom().contains(other));
        assert forall|k: Seq<u8>|
            k != key && k != other && #[trigger] full.entries.contains_key(
                k,
            ) implies full.entries[k].last_access < full.entries[key].last_access by {
            assert(mid.home(other).entries.dom().contains(k));
            assert(mid.home(other).entries.contains_key(k));
            assert(before.shards[shard_of(key)].entries.contains_key(k));
        }
        let pair = set![key, other];
        assert(pair.len() == 2);
        assert(pair.subset_of(full.entries.dom()));
        vstd::set_lib::lemma_len_subset(pair, full.entries.dom());
        lemma_latest_survives(full.entries, other, victims, shard.entries, key);
    }
}

/// Taking elements out of a collection counts as a use, as long as some are left.
pub proof fn law_taking_out_is_a_use(
    before: StoreView,
    channels: Set<Seq<u8>>,
    cmd: CommandView,
    key: Seq<u8>,
    now: u64,
    reply: ReplyView,
    after: StoreView,
)
    requires
        before.shards.len() == NUM_SHARDS,
        before.shards[shard_of(key)].clock < u64::MAX,
        (cmd matches CommandView::Pop { key: k, .. } && k == key) || (cmd matches CommandView::HDel(
            k,
            _,
        ) && k == key) || (cmd matches CommandView::SRem(k, _) && k == key) || (
        cmd matches CommandView::ZRem(k, _) && k == key),
        shown(before, key, now) is Some,
        outcome(before, channels, cmd, now, reply, after),
        after.shards[shard_of(key)].entries.contains_key(key),
    ensures
        became_latest(before, after, key),
{
    assert(before.holds(key, now));
}

proof fn lemma_evicted_count(
    entries: Map<Seq<u8>, EntryView>,
    keep: Option<Seq<u8>>,
    victims: Seq<Seq<u8>>,
    after: Map<Seq<u8>, EntryView>,
)
    requires
        entries.dom().finite(),
        evicts(entries, keep, victims, after),
    ensures
        after.dom().finite(),
        after.dom().len() + victims.len() == entries.dom().len(),
    decreases victims.len(),
{
    if victims.len() > 0 {
        let victim = victims[0];
        let sample = choose|sample: Set<Seq<u8>>| #[trigger]
            is_sample(entries, sample) && oldest_of(entries, sample, keep, victim);
        assert(entries.dom().contains(victim));
        assert(entries.remove(victim).dom() =~= entries.dom().remove(victim));
        lemma_evicted_count(entries.remove(victim), keep, victims.skip(1), after);
    }
}

/// A write takes no more keys away than exceed the limit: afterwards the shard has
/// as many keys as it may, or as it would have without a limit.
pub proof fn law_eviction_takes_no_more(
    before: StoreView,
    channels: Set<Seq<u8>>,
    cmd: CommandView,
    key: Seq<u8>,
    now: u64,
    reply: ReplyView,
    after: StoreView,
    max: usize,
)
    requires
        before.shards.len() == NUM_SHARDS,
        before.max_keys_per_shard == Some(max),
        (cmd matches CommandView::SetKey { key: k, .. } && k == key) || changed_key(cmd) == Some(
            key,
        ),
        outcome(before, channels, cmd, now, reply, after),
        reply != ReplyView::Nil,
        before.shards[shard_of(key)].entries.dom().finite(),
    ensures
        ({
            let full = before.shards[shard_of(key)].entries.dom().insert(key).len();
            after.shards[shard_of(key)].entries.dom().len() == if full > max {
                max as nat
            } else {
                full
            }
        }),
{
    let (full, shard) = lemma_written(before, channels, cmd, key, now, reply, after);
    let victims = choose|victims: Seq<Seq<u8>>| #[trigger]
        evicts(full.entries, spared(key, max), victims, shard.entries) && victims.len() == excess(
            full.entries.dom().len(),
            max,
        );
    lemma_evicted_count(full.entries, spared(key, max), victims, shard.entries);
}

} // verus!
