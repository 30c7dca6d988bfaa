//! What commands on lists, hashes, sets and sorted sets promise their clients,
//! said of what clients find before and after, and of the reply.

use vstd::prelude::*;

use crate::collections::{lemma_ranked_keys, lists_fields, ranked, with_fields, with_scores};
use crate::commands::CommandView;
use crate::execute::{fields_set, flat, list_pushed, members_added, outcome, scores_set};
use crate::keyspace_laws::{
    alike, alike_but, lemma_apart, lemma_kept, lemma_shown, lemma_steady, shown, wrong_kind,
};
use crate::laws::visible;
use crate::resp::ReplyView;
use crate::score::{ranks_before, score_text, ScoreView};
use crate::store::{StoreView, NUM_SHARDS};
use crate::value::ValueView;

verus! {

/// `LPUSH` puts the elements in front of the list one after the other, so that
/// the last one comes first, and `RPUSH` behind it in their order; the elements
/// that were there stay between. The reply is the new length. A new list has no
/// expiry time, and an old one keeps its own.
pub proof fn law_push(
    before: StoreView,
    channels: Set<Seq<u8>>,
    key: Seq<u8>,
    more: Seq<Seq<u8>>,
    front: bool,
    now: u64,
    reply: ReplyView,
    after: StoreView,
)
    requires
        before.shards.len() == NUM_SHARDS,
        before.max_keys_per_shard != Some(0usize),
        outcome(
            before,
            channels,
            CommandView::Push { key, items: more, front },
            now,
            reply,
            after,
        ),
    ensures
        alike_but(before, after, key, now),
        match shown(before, key, now) {
            Some((ValueView::List(_), _)) | None => {
                let (old, due) = match shown(before, key, now) {
                    Some((ValueView::List(items), due)) => (items, due),
                    _ => (Seq::empty(), None),
                };
                &&& shown(after, key, now) matches Some((ValueView::List(new), d)) && d == due
                    && new.len() == old.len() + more.len() && (forall|i: int|
                    0 <= i < old.len() ==> #[trigger] old[i] == new[if front {
                        i + more.len()
                    } else {
                        i
                    }]) && (forall|i: int|
                    0 <= i < more.len() ==> #[trigger] more[i] == new[if front {
                        more.len() - 1 - i
                    } else {
                        old.len() + i
                    }])
                &&& old.len() + more.len() <= i64::MAX ==> reply == ReplyView::Integer(
                    (old.len() + more.len()) as int,
                )
            },
            Some((value, due)) => reply == wrong_kind() && shown(after, key, now) == Some(
                (value, due),
            ),
        },
{
    let cmd = CommandView::Push { key, items: more, front };
    lemma_shown(before, now);
    lemma_apart(before, channels, cmd, now, reply, after, key);
    let value = list_pushed(before.value(key, now), more, front).value;
    lemma_kept(before, key, now, value, after);
}

/// `LPOP` takes the first element of the list away and replies it, `RPOP` the
/// last; the others stay in their order, and without any the key is gone. Without
/// a key the reply is nil.
pub proof fn law_pop(
    before: StoreView,
    channels: Set<Seq<u8>>,
    key: Seq<u8>,
    front: bool,
    now: u64,
    reply: ReplyView,
    after: StoreView,
)
    requires
        before.shards.len() == NUM_SHARDS,
        outcome(before, channels, CommandView::Pop { key, front }, now, reply, after),
        !(shown(before, key, now) matches Some((ValueView::List(items), _)) && items.len() == 0),
    ensures
        forall|k: Seq<u8>|
            k != key ==> #[trigger] shown(after, k, now) == shown(before, k, now),
        match shown(before, key, now) {
            None => reply == ReplyView::Nil && shown(after, key, now) is None,
            Some((ValueView::List(items), due)) => {
                let n = items.len() as int;
                &&& reply == ReplyView::Bulk(
                    if front {
                        items[0]
                    } else {
                        items[n - 1]
                    },
                )
                &&& n == 1 ==> shown(after, key, now) is None
                &&& n > 1 ==> shown(after, key, now) == Some(
                    (
                        ValueView::List(
                            if front {
                                items.subrange(1, n)
                            } else {
                                items.subrange(0, n - 1)
                            },
                        ),
                        due,
                    ),
                )
            },
            Some((value, due)) => reply == wrong_kind() && (!value.is_hollow() ==> shown(
                after,
                key,
                now,
            ) == Some((value, due))),
        },
{
    let cmd = CommandView::Pop { key, front };
    lemma_shown(before, now);
    lemma_shown(after, now);
    lemma_apart(before, channels, cmd, now, reply, after, key);
    assert(visible(before, now).contains_key(key) == before.holds(key, now));
    if let Some((ValueView::List(items), due)) = shown(before, key, now) {
        let n = items.len() as int;
        assert(items.drop_first() =~= items.subrange(1, n));
        assert(items.drop_last() =~= items.subrange(0, n - 1));
    }
}

/// Where a position counts from: a negative one from the end of `n` elements.
pub open spec fn place(i: int, n: int) -> int {
    if i < 0 {
        i + n
    } else {
        i
    }
}

/// Whether `list` are the elements of `items` at the positions from `start` to
/// `stop`, both included, in their order.
pub open spec fn is_range<T>(items: Seq<T>, start: int, stop: int, list: Seq<T>) -> bool {
    let n = items.len() as int;
    let low = if place(start, n) < 0 {
        0
    } else {
        place(start, n)
    };
    &&& forall|j: int|
        0 <= j < list.len() ==> low + j < n && low + j <= place(stop, n) && #[trigger] list[j]
            == items[low + j]
    &&& low + list.len() >= n || low + list.len() > place(stop, n)
}

/// `LRANGE` replies the elements from the one position to the other, both
/// included; a negative position counts from the end. Nothing changes.
pub proof fn law_lrange(
    before: StoreView,
    channels: Set<Seq<u8>>,
    key: Seq<u8>,
    start: i64,
    stop: i64,
    now: u64,
    reply: ReplyView,
    after: StoreView,
)
    requires
        before.shards.len() == NUM_SHARDS,
        outcome(before, channels, CommandView::LRange { key, start, stop }, now, reply, after),
    ensures
        alike(before, after, now),
        match shown(before, key, now) {
            None => reply == ReplyView::Array(Seq::empty()),
            Some((ValueView::List(items), _)) => reply matches ReplyView::Array(list) && is_range(
                items.map_values(|b: Seq<u8>| ReplyView::Bulk(b)),
                start as int,
                stop as int,
                list,
            ),
            Some(_) => reply == wrong_kind(),
        },
{
    let cmd = CommandView::LRange { key, start, stop };
    lemma_shown(before, now);
    lemma_steady(before, channels, cmd, now, reply, after);
    if shown(before, key, now) is None {
        assert(reply->Array_0 =~= Seq::empty());
    }
}

/// `LLEN` replies the number of elements, 0 without a key. Nothing changes.
pub proof fn law_llen(
    before: StoreView,
    channels: Set<Seq<u8>>,
    key: Seq<u8>,
    now: u64,
    reply: ReplyView,
    after: StoreView,
)
    requires
        before.shards.len() == NUM_SHARDS,
        outcome(before, channels, CommandView::LLen(key), now, reply, after),
    ensures
        alike(before, after, now),
        match shown(before, key, now) {
            None => reply == ReplyView::Integer(0),
            Some((ValueView::List(items), _)) => items.len() <= i64::MAX ==> reply
                == ReplyView::Integer(items.len() as int),
            Some(_) => reply == wrong_kind(),
        },
{
    lemma_shown(before, now);
    lemma_steady(before, channels, CommandView::LLen(key), now, reply, after);
}

/// Whether the pair at `i` is the last of its name.
pub open spec fn names_last<V>(pairs: Seq<(Seq<u8>, V)>, i: int) -> bool {
    0 <= i < pairs.len() && forall|j: int| i < j < pairs.len() ==> (#[trigger] pairs[j]).0
        != pairs[i].0
}

/// Whether `new` is `old` after each name of the pairs was given its last value.
pub open spec fn overlaid<V>(
    old: Map<Seq<u8>, V>,
    pairs: Seq<(Seq<u8>, V)>,
    new: Map<Seq<u8>, V>,
) -> bool {
    &&& forall|i: int| #[trigger]
        names_last(pairs, i) ==> new.contains_key(pairs[i].0) && new[pairs[i].0] == pairs[i].1
    &&& forall|k: Seq<u8>|
        (forall|i: int| 0 <= i < pairs.len() ==> (#[trigger] pairs[i]).0 != k)
            ==> #[trigger] new.contains_key(k) == old.contains_key(k) && (old.contains_key(k)
            ==> new[k] == old[k])
}

proof fn lemma_overlaid_push<V>(
    old: Map<Seq<u8>, V>,
    pairs: Seq<(Seq<u8>, V)>,
    mid: Map<Seq<u8>, V>,
)
    requires
        pairs.len() > 0,
        overlaid(old, pairs.drop_last(), mid),
    ensures
        overlaid(old, pairs, mid.insert(pairs.last().0, pairs.last().1)),
{
    let front = pairs.drop_last();
    let n = pairs.len() - 1;
    let new = mid.insert(pairs.last().0, pairs.last().1);
    assert forall|i: int| #[trigger] names_last(pairs, i) implies new.contains_key(pairs[i].0)
        && new[pairs[i].0] == pairs[i].1 by {
        if i < n {
            assert(pairs[n].0 != pairs[i].0);
            assert forall|j: int| i < j < front.len() implies (#[trigger] front[j]).0
                != front[i].0 by {
                assert(pairs[j].0 != pairs[i].0);
            }
            assert(names_last(front, i));
            assert(front[i] == pairs[i]);
        }
    }
    assert forall|k: Seq<u8>|
        (forall|i: int| 0 <= i < pairs.len() ==> (#[trigger] pairs[i]).0 != k) implies
        #[trigger] new.contains_key(k) == old.contains_key(k) && (old.contains_key(k) ==> new[k]
        == old[k]) by {
        assert(pairs[n].0 != k);
        assert forall|i: int| 0 <= i < front.len() implies (#[trigger] front[i]).0 != k by {
            assert(pairs[i].0 != k);
        }
        assert(mid.contains_key(k) == old.contains_key(k));
    }
}

/// The names of pairs.
pub open spec fn names_of<V>(pairs: Seq<(Seq<u8>, V)>) -> Set<Seq<u8>> {
    pairs.map_values(|p: (Seq<u8>, V)| p.0).to_set()
}

proof fn lemma_names_push<V>(pairs: Seq<(Seq<u8>, V)>)
    requires
        pairs.len() > 0,
    ensures
        names_of(pairs) == names_of(pairs.drop_last()).insert(pairs.last().0),
{
    let f = |p: (Seq<u8>, V)| p.0;
    let front = pairs.drop_last().map_values(f);
    assert(pairs.map_values(f) =~= front.push(pairs.last().0));
    front.lemma_push_to_set_commute(pairs.last().0);
}

proof fn lemma_fields(old: Map<Seq<u8>, Seq<u8>>, pairs: Seq<(Seq<u8>, Seq<u8>)>)
    ensures
        overlaid(old, pairs, with_fields(old, pairs)),
        with_fields(old, pairs).dom() == old.dom().union(names_of(pairs)),
        names_of(pairs).finite(),
    decreases pairs.len(),
{
    if pairs.len() == 0 {
        assert(with_fields(old, pairs).dom() =~= old.dom().union(names_of(pairs)));
    } else {
        lemma_fields(old, pairs.drop_last());
        lemma_overlaid_push(old, pairs, with_fields(old, pairs.drop_last()));
        lemma_names_push(pairs);
        assert(with_fields(old, pairs).dom() =~= old.dom().union(names_of(pairs)));
    }
}

proof fn lemma_new_ones(old: Set<Seq<u8>>, names: Set<Seq<u8>>)
    requires
        old.finite(),
        names.finite(),
    ensures
        old.union(names).len() - old.len() == names.difference(old).len(),
{
    let new = names.difference(old);
    assert(old.union(names) =~= old.union(new));
    assert(old.disjoint(new));
    vstd::set_lib::lemma_set_disjoint_lens(old, new);
}

/// After `HSET` each field has the last value that was given for it, the other
/// fields are as they were, and the reply is how many of the fields are new, each
/// counted once.
pub proof fn law_hset(
    before: StoreView,
    channels: Set<Seq<u8>>,
    key: Seq<u8>,
    pairs: Seq<(Seq<u8>, Seq<u8>)>,
    now: u64,
    reply: ReplyView,
    after: StoreView,
)
    requires
        before.shards.len() == NUM_SHARDS,
        before.max_keys_per_shard != Some(0usize),
        outcome(before, channels, CommandView::HSet(key, pairs), now, reply, after),
    ensures
        alike_but(before, after, key, now),
        match shown(before, key, now) {
            Some((ValueView::Hash(_), _)) | None => {
                let (old, due) = match shown(before, key, now) {
                    Some((ValueView::Hash(fields), due)) => (fields, due),
                    _ => (Map::empty(), None),
                };
                &&& shown(after, key, now) matches Some((ValueView::Hash(new), d)) && d == due
                    && overlaid(old, pairs, new)
                &&& old.dom().finite() && names_of(pairs).difference(old.dom()).len() <= i64::MAX
                    ==> reply == ReplyView::Integer(
                    names_of(pairs).difference(old.dom()).len() as int,
                )
            },
            Some((value, due)) => reply == wrong_kind() && shown(after, key, now) == Some(
                (value, due),
            ),
        },
{
    let cmd = CommandView::HSet(key, pairs);
    lemma_shown(before, now);
    lemma_apart(before, channels, cmd, now, reply, after, key);
    let value = fields_set(before.value(key, now), pairs).value;
    lemma_kept(before, key, now, value, after);
    let old = match shown(before, key, now) {
        Some((ValueView::Hash(fields), due)) => fields,
        _ => Map::empty(),
    };
    lemma_fields(old, pairs);
    if old.dom().finite() {
        lemma_new_ones(old.dom(), names_of(pairs));
    }
}

/// `HGET` replies the value of the field, `HEXISTS` whether there is one. Nothing
/// changes.
pub proof fn law_hget(
    before: StoreView,
    channels: Set<Seq<u8>>,
    key: Seq<u8>,
    field: Seq<u8>,
    now: u64,
    value: ReplyView,
    exists_reply: ReplyView,
    after: StoreView,
    later: StoreView,
)
    requires
        before.shards.len() == NUM_SHARDS,
        outcome(before, channels, CommandView::HGet(key, field), now, value, after),
        outcome(before, channels, CommandView::HExists(key, field), now, exists_reply, later),
    ensures
        alike(before, after, now),
        alike(before, later, now),
        match shown(before, key, now) {
            None => value == ReplyView::Nil && exists_reply == ReplyView::Integer(0),
            Some((ValueView::Hash(fields), _)) => if fields.contains_key(field) {
                value == ReplyView::Bulk(fields[field]) && exists_reply == ReplyView::Integer(1)
            } else {
                value == ReplyView::Nil && exists_reply == ReplyView::Integer(0)
            },
            Some(_) => value == wrong_kind() && exists_reply == wrong_kind(),
        },
{
    lemma_shown(before, now);
    lemma_steady(before, channels, CommandView::HGet(key, field), now, value, after);
    lemma_steady(before, channels, CommandView::HExists(key, field), now, exists_reply, later);
}

proof fn lemma_left(old: Set<Seq<u8>>, names: Set<Seq<u8>>)
    requires
        old.finite(),
    ensures
        old.len() - old.difference(names).len() == old.intersect(names).len(),
{
    let gone = old.intersect(names);
    let left = old.difference(names);
    assert(old =~= gone.union(left));
    assert(gone.disjoint(left));
    vstd::set_lib::lemma_set_disjoint_lens(gone, left);
}

/// After `HDEL` the hash has none of the named fields and all the others, and
/// without any the key is gone. The reply is how many of the fields there were,
/// each counted once.
pub proof fn law_hdel(
    before: StoreView,
    channels: Set<Seq<u8>>,
    key: Seq<u8>,
    names: Seq<Seq<u8>>,
    now: u64,
    reply: ReplyView,
    after: StoreView,
)
    requires
        before.shards.len() == NUM_SHARDS,
        outcome(before, channels, CommandView::HDel(key, names), now, reply, after),
    ensures
        forall|k: Seq<u8>|
            k != key ==> #[trigger] shown(after, k, now) == shown(before, k, now),
        match shown(before, key, now) {
            None => reply == ReplyView::Integer(0) && shown(after, key, now) is None,
            Some((ValueView::Hash(fields), due)) => {
                let gone = fields.dom().intersect(names.to_set());
                &&& fields.dom().subset_of(names.to_set()) ==> shown(after, key, now) is None
                &&& !fields.dom().subset_of(names.to_set()) ==> shown(after, key, now) == Some(
                    (ValueView::Hash(fields.remove_keys(names.to_set())), due),
                )
                &&& fields.dom().finite() && gone.len() <= i64::MAX ==> reply
                    == ReplyView::Integer(gone.len() as int)
            },
            Some((value, due)) => reply == wrong_kind() && (!value.is_hollow() ==> shown(
                after,
                key,
                now,
            ) == Some((value, due))),
        },
{
    let cmd = CommandView::HDel(key, names);
    lemma_shown(before, now);
    lemma_shown(after, now);
    lemma_apart(before, channels, cmd, now, reply, after, key);
    assert(visible(before, now).contains_key(key) == before.holds(key, now));
    if let Some((ValueView::Hash(fields), due)) = shown(before, key, now) {
        let left = fields.remove_keys(names.to_set());
        assert(left.dom() =~= fields.dom().difference(names.to_set()));
        if fields.dom().finite() {
            lemma_left(fields.dom(), names.to_set());
        }
        if fields.dom().subset_of(names.to_set()) {
            assert(left.dom() =~= Set::empty());
        } else {
            let k = choose|k: Seq<u8>| fields.dom().contains(k) && !names.to_set().contains(k);
            assert(left.dom().contains(k));
        }
    }
}

/// `HGETALL` replies every field with its value behind it, as many as there are.
/// Nothing changes.
pub proof fn law_hgetall(
    before: StoreView,
    channels: Set<Seq<u8>>,
    key: Seq<u8>,
    now: u64,
    reply: ReplyView,
    after: StoreView,
)
    requires
        before.shards.len() == NUM_SHARDS,
        outcome(before, channels, CommandView::HGetAll(key), now, reply, after),
    ensures
        alike(before, after, now),
        match shown(before, key, now) {
            None => reply == ReplyView::Array(Seq::empty()),
            Some((ValueView::Hash(fields), _)) => {
                &&& reply matches ReplyView::Array(items)
                &&& items.len() == 2 * fields.dom().len()
                &&& forall|f: Seq<u8>| #[trigger]
                    fields.contains_key(f) ==> exists|i: int|
                        0 <= i < fields.dom().len() && items[2 * i] == ReplyView::Bulk(f)
                            && #[trigger] items[2 * i + 1] == ReplyView::Bulk(fields[f])
            },
            Some(_) => reply == wrong_kind(),
        },
{
    lemma_shown(before, now);
    lemma_steady(before, channels, CommandView::HGetAll(key), now, reply, after);
    match shown(before, key, now) {
        None => {
            assert(reply->Array_0 =~= Seq::empty());
        },
        Some((ValueView::Hash(fields), _)) => {
            let list = choose|list: Seq<(Seq<u8>, Seq<u8>)>| #[trigger]
                lists_fields(fields, list) && reply == crate::execute::bulks_reply(flat(list));
            let keys = choose|keys: Seq<Seq<u8>>|
                {
                    &&& keys.no_duplicates()
                    &&& #[trigger] keys.to_set() == fields.dom()
                    &&& list == keys.map_values(|k: Seq<u8>| (k, fields[k]))
                };
            keys.unique_seq_to_set();
            let items = reply->Array_0;
            assert forall|f: Seq<u8>| #[trigger] fields.contains_key(f) implies exists|i: int|
                0 <= i < fields.dom().len() && items[2 * i] == ReplyView::Bulk(f)
                    && #[trigger] items[2 * i + 1] == ReplyView::Bulk(fields[f]) by {
                assert(keys.to_set().contains(f));
                let i = keys.index_of(f);
                assert(list[i] == (f, fields[f]));
                assert(2 * i % 2 == 0 && 2 * i / 2 == i);
                assert((2 * i + 1) % 2 == 1 && (2 * i + 1) / 2 == i);
                assert(flat(list)[2 * i] == f);
                assert(flat(list)[2 * i + 1] == fields[f]);
                assert(items[2 * i + 1] == ReplyView::Bulk(fields[f]));
            }
        },
        _ => {},
    }
}

/// After `SADD` the set has the members that it had and those that were added,
/// and the reply is how many of them are new, each counted once.
pub proof fn law_sadd(
    before: StoreView,
    channels: Set<Seq<u8>>,
    key: Seq<u8>,
    more: Seq<Seq<u8>>,
    now: u64,
    reply: ReplyView,
    after: StoreView,
)
    requires
        before.shards.len() == NUM_SHARDS,
        before.max_keys_per_shard != Some(0usize),
        outcome(before, channels, CommandView::SAdd(key, more), now, reply, after),
    ensures
        alike_but(before, after, key, now),
        match shown(before, key, now) {
            Some((ValueView::Members(_), _)) | None => {
                let (old, due) = match shown(before, key, now) {
                    Some((ValueView::Members(members), due)) => (members, due),
                    _ => (Set::empty(), None),
                };
                &&& shown(after, key, now) matches Some((ValueView::Members(new), d)) && d == due
                    && forall|m: Seq<u8>| #[trigger]
                    new.contains(m) <==> old.contains(m) || more.contains(m)
                &&& old.finite() && more.to_set().difference(old).len() <= i64::MAX ==> reply
                    == ReplyView::Integer(more.to_set().difference(old).len() as int)
            },
            Some((value, due)) => reply == wrong_kind() && shown(after, key, now) == Some(
                (value, due),
            ),
        },
{
    let cmd = CommandView::SAdd(key, more);
    lemma_shown(before, now);
    lemma_apart(before, channels, cmd, now, reply, after, key);
    let value = members_added(before.value(key, now), more).value;
    lemma_kept(before, key, now, value, after);
    let old = match shown(before, key, now) {
        Some((ValueView::Members(members), due)) => members,
        _ => Set::empty(),
    };
    if old.finite() {
        lemma_new_ones(old, more.to_set());
    }
}

/// After `SREM` the set has none of the named members and all the others, and
/// without any the key is gone. The reply is how many of them there were, each
/// counted once.
pub proof fn law_srem(
    before: StoreView,
    channels: Set<Seq<u8>>,
    key: Seq<u8>,
    names: Seq<Seq<u8>>,
    now: u64,
    reply: ReplyView,
    after: StoreView,
)
    requires
        before.shards.len() == NUM_SHARDS,
        outcome(before, channels, CommandView::SRem(key, names), now, reply, after),
    ensures
        forall|k: Seq<u8>|
            k != key ==> #[trigger] shown(after, k, now) == shown(before, k, now),
        match shown(before, key, now) {
            None => reply == ReplyView::Integer(0) && shown(after, key, now) is None,
            Some((ValueView::Members(members), due)) => {
                let gone = members.intersect(names.to_set());
                &&& members.subset_of(names.to_set()) ==> shown(after, key, now) is None
                &&& !members.subset_of(names.to_set()) ==> shown(after, key, now) == Some(
                    (ValueView::Members(members.difference(names.to_set())), due),
                )
                &&& members.finite() && gone.len() <= i64::MAX ==> reply == ReplyView::Integer(
                    gone.len() as int,
                )
            },
            Some((value, due)) => reply == wrong_kind() && (!value.is_hollow() ==> shown(
                after,
                key,
                now,
            ) == Some((value, due))),
        },
{
    let cmd = CommandView::SRem(key, names);
    lemma_shown(before, now);
    lemma_shown(after, now);
    lemma_apart(before, channels, cmd, now, reply, after, key);
    assert(visible(before, now).contains_key(key) == before.holds(key, now));
    if let Some((ValueView::Members(members), due)) = shown(before, key, now) {
        let left = members.difference(names.to_set());
        if members.finite() {
            lemma_left(members, names.to_set());
        }
        if members.subset_of(names.to_set()) {
            assert(left =~= Set::empty());
        } else {
            let k = choose|k: Seq<u8>| members.contains(k) && !names.to_set().contains(k);
            assert(left.contains(k));
        }
    }
}

/// `SISMEMBER` replies 1 for a member and 0 for anything else. `SMEMBERS` replies
/// every member, as many as there are. Nothing changes.
pub proof fn law_members(
    before: StoreView,
    channels: Set<Seq<u8>>,
    key: Seq<u8>,
    member: Seq<u8>,
    now: u64,
    reply: ReplyView,
    all: ReplyView,
    after: StoreView,
    later: StoreView,
)
    requires
        before.shards.len() == NUM_SHARDS,
        outcome(before, channels, CommandView::SIsMember(key, member), now, reply, after),
        outcome(before, channels, CommandView::SMembers(key), now, all, later),
    ensures
        alike(before, after, now),
        alike(before, later, now),
        match shown(before, key, now) {
            None => reply == ReplyView::Integer(0) && all == ReplyView::Array(Seq::empty()),
            Some((ValueView::Members(members), _)) => {
                &&& reply == ReplyView::Integer(
                    if members.contains(member) {
                        1
                    } else {
                        0
                    },
                )
                &&& all matches ReplyView::Array(items)
                &&& items.len() == members.len()
                &&& forall|m: Seq<u8>| #[trigger]
                    members.contains(m) <==> items.contains(ReplyView::Bulk(m))
            },
            Some(_) => reply == wrong_kind() && all == wrong_kind(),
        },
{
    lemma_shown(before, now);
    lemma_steady(before, channels, CommandView::SIsMember(key, member), now, reply, after);
    lemma_steady(before, channels, CommandView::SMembers(key), now, all, later);
    match shown(before, key, now) {
        None => {
            assert(all->Array_0 =~= Seq::empty());
        },
        Some((ValueView::Members(members), _)) => {
            let list = choose|list: Seq<Seq<u8>>| #[trigger]
                crate::collections::lists_members(members, list) && all
                    == crate::execute::bulks_reply(list);
            list.unique_seq_to_set();
            let items = all->Array_0;
            assert forall|m: Seq<u8>| #[trigger] members.contains(m) <==> items.contains(
                ReplyView::Bulk(m),
            ) by {
                assert(members.contains(m) == list.to_set().contains(m));
                if list.contains(m) {
                    assert(items[list.index_of(m)] == ReplyView::Bulk(m));
                }
                if items.contains(ReplyView::Bulk(m)) {
                    let i = items.index_of(ReplyView::Bulk(m));
                    assert(list[i] == m);
                }
            }
        },
        _ => {},
    }
}

/// Scores with members the other way round.
pub open spec fn turned(pairs: Seq<(ScoreView, Seq<u8>)>) -> Seq<(Seq<u8>, ScoreView)> {
    pairs.map_values(|p: (ScoreView, Seq<u8>)| (p.1, p.0))
}

proof fn lemma_scores(old: Map<Seq<u8>, ScoreView>, pairs: Seq<(ScoreView, Seq<u8>)>)
    ensures
        overlaid(old, turned(pairs), with_scores(old, pairs)),
        with_scores(old, pairs).dom() == old.dom().union(names_of(turned(pairs))),
        names_of(turned(pairs)).finite(),
    decreases pairs.len(),
{
    if pairs.len() == 0 {
        assert(with_scores(old, pairs).dom() =~= old.dom().union(names_of(turned(pairs))));
    } else {
        lemma_scores(old, pairs.drop_last());
        assert(turned(pairs).drop_last() =~= turned(pairs.drop_last()));
        lemma_overlaid_push(old, turned(pairs), with_scores(old, pairs.drop_last()));
        lemma_names_push(turned(pairs));
        assert(with_scores(old, pairs).dom() =~= old.dom().union(names_of(turned(pairs))));
    }
}

/// After `ZADD` each member has the last score that was given for it, the other
/// members are as they were, and the reply is how many of them are new, each
/// counted once.
pub proof fn law_zadd(
    before: StoreView,
    channels: Set<Seq<u8>>,
    key: Seq<u8>,
    pairs: Seq<(ScoreView, Seq<u8>)>,
    now: u64,
    reply: ReplyView,
    after: StoreView,
)
    requires
        before.shards.len() == NUM_SHARDS,
        before.max_keys_per_shard != Some(0usize),
        outcome(before, channels, CommandView::ZAdd(key, pairs), now, reply, after),
    ensures
        alike_but(before, after, key, now),
        match shown(before, key, now) {
            Some((ValueView::Sorted(_), _)) | None => {
                let (old, due) = match shown(before, key, now) {
                    Some((ValueView::Sorted(members), due)) => (members, due),
                    _ => (Map::empty(), None),
                };
                let new_names = names_of(turned(pairs)).difference(old.dom());
                &&& shown(after, key, now) matches Some((ValueView::Sorted(new), d)) && d == due
                    && overlaid(old, turned(pairs), new)
                &&& old.dom().finite() && new_names.len() <= i64::MAX ==> reply
                    == ReplyView::Integer(new_names.len() as int)
            },
            Some((value, due)) => reply == wrong_kind() && shown(after, key, now) == Some(
                (value, due),
            ),
        },
{
    let cmd = CommandView::ZAdd(key, pairs);
    lemma_shown(before, now);
    lemma_apart(before, channels, cmd, now, reply, after, key);
    let value = scores_set(before.value(key, now), pairs).value;
    lemma_kept(before, key, now, value, after);
    let old = match shown(before, key, now) {
        Some((ValueView::Sorted(members), due)) => members,
        _ => Map::empty(),
    };
    lemma_scores(old, pairs);
    if old.dom().finite() {
        lemma_new_ones(old.dom(), names_of(turned(pairs)));
    }
}

/// After `ZREM` the sorted set has none of the named members and all the others,
/// and without any the key is gone. The reply is how many of them there were,
/// each counted once.
pub proof fn law_zrem(
    before: StoreView,
    channels: Set<Seq<u8>>,
    key: Seq<u8>,
    names: Seq<Seq<u8>>,
    now: u64,
    reply: ReplyView,
    after: StoreView,
)
    requires
        before.shards.len() == NUM_SHARDS,
        outcome(before, channels, CommandView::ZRem(key, names), now, reply, after),
    ensures
        forall|k: Seq<u8>|
            k != key ==> #[trigger] shown(after, k, now) == shown(before, k, now),
        match shown(before, key, now) {
            None => reply == ReplyView::Integer(0) && shown(after, key, now) is None,
            Some((ValueView::Sorted(members), due)) => {
                let gone = members.dom().intersect(names.to_set());
                &&& members.dom().subset_of(names.to_set()) ==> shown(after, key, now) is None
                &&& !members.dom().subset_of(names.to_set()) ==> shown(after, key, now) == Some(
                    (ValueView::Sorted(members.remove_keys(names.to_set())), due),
                )
                &&& members.dom().finite() && gone.len() <= i64::MAX ==> reply
                    == ReplyView::Integer(gone.len() as int)
            },
            Some((value, due)) => reply == wrong_kind() && (!value.is_hollow() ==> shown(
                after,
                key,
                now,
            ) == Some((value, due))),
        },
{
    let cmd = CommandView::ZRem(key, names);
    lemma_shown(before, now);
    lemma_shown(after, now);
    lemma_apart(before, channels, cmd, now, reply, after, key);
    assert(visible(before, now).contains_key(key) == before.holds(key, now));
    if let Some((ValueView::Sorted(members), due)) = shown(before, key, now) {
        let left = members.remove_keys(names.to_set());
        assert(left.dom() =~= members.dom().difference(names.to_set()));
        if members.dom().finite() {
            lemma_left(members.dom(), names.to_set());
        }
        if members.dom().subset_of(names.to_set()) {
            assert(left.dom() =~= Set::empty());
        } else {
            let k = choose|k: Seq<u8>| members.dom().contains(k) && !names.to_set().contains(k);
            assert(left.dom().contains(k));
        }
    }
}

/// `ZSCORE` replies the score of the member as text, and nil where there is none.
/// Nothing changes.
pub proof fn law_zscore(
    before: StoreView,
    channels: Set<Seq<u8>>,
    key: Seq<u8>,
    member: Seq<u8>,
    now: u64,
    reply: ReplyView,
    after: StoreView,
)
    requires
        before.shards.len() == NUM_SHARDS,
        outcome(before, channels, CommandView::ZScore(key, member), now, reply, after),
    ensures
        alike(before, after, now),
        match shown(before, key, now) {
            None => reply == ReplyView::Nil,
            Some((ValueView::Sorted(members), _)) => reply == if members.contains_key(member) {
                ReplyView::Bulk(score_text(members[member]))
            } else {
                ReplyView::Nil
            },
            Some(_) => reply == wrong_kind(),
        },
{
    lemma_shown(before, now);
    lemma_steady(before, channels, CommandView::ZScore(key, member), now, reply, after);
}

/// Whether `list` has every member of a sorted set with its score, as many as
/// there are, each ranking before all behind it.
pub open spec fn in_rank_order(
    members: Map<Seq<u8>, ScoreView>,
    list: Seq<(Seq<u8>, ScoreView)>,
) -> bool {
    &&& list.len() == members.dom().len()
    &&& forall|m: Seq<u8>| #[trigger]
        members.contains_key(m) ==> list.contains((m, members[m]))
    &&& forall|i: int, j: int|
        0 <= i < j < list.len() ==> ranks_before(#[trigger] list[i], #[trigger] list[j])
}

/// `ZRANGE` replies the members from the one rank to the other, both included, a
/// negative rank counting from the end; with scores each is followed by its own.
/// Nothing changes.
pub proof fn law_zrange(
    before: StoreView,
    channels: Set<Seq<u8>>,
    key: Seq<u8>,
    start: i64,
    stop: i64,
    with_scores: bool,
    now: u64,
    reply: ReplyView,
    after: StoreView,
)
    requires
        before.shards.len() == NUM_SHARDS,
        outcome(
            before,
            channels,
            CommandView::ZRange { key, start, stop, with_scores },
            now,
            reply,
            after,
        ),
    ensures
        alike(before, after, now),
        match shown(before, key, now) {
            None => reply == ReplyView::Array(Seq::empty()),
            Some((ValueView::Sorted(members), _)) => exists|
                list: Seq<(Seq<u8>, ScoreView)>,
                range: Seq<(Seq<u8>, ScoreView)>,
            |
                {
                    &&& in_rank_order(members, list)
                    &&& #[trigger] is_range(list, start as int, stop as int, range)
                    &&& reply matches ReplyView::Array(items)
                    &&& items.len() == range.len() * (if with_scores {
                        2int
                    } else {
                        1int
                    })
                    &&& forall|i: int|
                        0 <= i < range.len() ==> if with_scores {
                            items[2 * i] == ReplyView::Bulk((#[trigger] range[i]).0) && items[2 * i
                                + 1] == ReplyView::Bulk(score_text(range[i].1))
                        } else {
                            items[i] == ReplyView::Bulk(range[i].0)
                        }
                },
            Some(_) => reply == wrong_kind(),
        },
{
    let cmd = CommandView::ZRange { key, start, stop, with_scores };
    lemma_shown(before, now);
    lemma_steady(before, channels, cmd, now, reply, after);
    match shown(before, key, now) {
        None => {
            assert(reply->Array_0 =~= Seq::empty());
        },
        Some((ValueView::Sorted(members), _)) => {
            let list = choose|list: Seq<(Seq<u8>, ScoreView)>| #[trigger]
                ranked(members, list) && reply == crate::execute::ranks_reply(
                    crate::collections::range_of(list, start as int, stop as int),
                    with_scores,
                );
            let range = crate::collections::range_of(list, start as int, stop as int);
            let keys = lemma_ranked_keys(members, list);
            let texts = crate::collections::rank_texts(range);
            let items = reply->Array_0;
            assert(in_rank_order(members, list));
            assert(is_range(list, start as int, stop as int, range));
            assert forall|i: int| 0 <= i < range.len() implies if with_scores {
                items[2 * i] == ReplyView::Bulk((#[trigger] range[i]).0) && items[2 * i + 1]
                    == ReplyView::Bulk(score_text(range[i].1))
            } else {
                items[i] == ReplyView::Bulk(range[i].0)
            } by {
                if with_scores {
                    assert(2 * i % 2 == 0 && 2 * i / 2 == i);
                    assert((2 * i + 1) % 2 == 1 && (2 * i + 1) / 2 == i);
                    assert(texts[i] == (range[i].0, score_text(range[i].1)));
                    assert(flat(texts)[2 * i] == range[i].0);
                    assert(flat(texts)[2 * i + 1] == score_text(range[i].1));
                }
            }
        },
        _ => {},
    }
}

} // verus!
