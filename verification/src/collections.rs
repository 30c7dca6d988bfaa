//! Lists, hashes, sets and sorted sets: what the commands on them do to a value.
//! On a value of another kind none of them applies.

use bytes::Bytes;
use std::collections::VecDeque;
use vstd::prelude::*;

use crate::buf::{content, contents, from_vec};
use crate::bytemap::ByteMap;
use crate::score::{law_rank_is_an_order, outranks, ranks_before, score_text, Score, ScoreView};
use crate::value::{all_normal, fields_of, scores_of, Value, ValueView};

verus! {

broadcast use crate::buf::lemma_contents_push;

/// The list `items` after `more` was pushed, one after the other, at the front
/// or at the back.
pub open spec fn pushed(items: Seq<Seq<u8>>, more: Seq<Seq<u8>>, front: bool) -> Seq<Seq<u8>> {
    if front {
        more.reverse() + items
    } else {
        items + more
    }
}

/// The element that goes when the list `items` is popped.
pub open spec fn end_of(items: Seq<Seq<u8>>, front: bool) -> Seq<u8> {
    if front {
        items.first()
    } else {
        items.last()
    }
}

/// The list `items` without the element that goes when it is popped.
pub open spec fn popped(items: Seq<Seq<u8>>, front: bool) -> Seq<Seq<u8>> {
    if front {
        items.drop_first()
    } else {
        items.drop_last()
    }
}

/// Where a range that starts at `start` begins in a list of `len` elements: a
/// negative number counts from the end.
pub open spec fn range_from(start: int, len: nat) -> int {
    if start >= 0 {
        start
    } else if start + len >= 0 {
        start + len
    } else {
        0
    }
}

/// The last position of a range that stops at `stop` in a list of `len`
/// elements: a negative number counts from the end.
pub open spec fn range_to(stop: int, len: nat) -> int {
    if stop < 0 {
        stop + len
    } else if stop < len {
        stop
    } else {
        len - 1
    }
}

/// The elements of `items` from `start` to `stop`, both included.
pub open spec fn range_of<T>(items: Seq<T>, start: int, stop: int) -> Seq<T> {
    let from = range_from(start, items.len());
    let to = range_to(stop, items.len());
    if from > to {
        Seq::empty()
    } else {
        items.subrange(from, to + 1)
    }
}

/// Pairs of byte strings, as what they hold.
pub open spec fn pair_contents(list: Seq<(Bytes, Bytes)>) -> Seq<(Seq<u8>, Seq<u8>)> {
    list.map_values(|p: (Bytes, Bytes)| (content(p.0), content(p.1)))
}

/// The hash `fields` after `pairs` were set one after the other.
pub open spec fn with_fields(
    fields: Map<Seq<u8>, Seq<u8>>,
    pairs: Seq<(Seq<u8>, Seq<u8>)>,
) -> Map<Seq<u8>, Seq<u8>>
    decreases pairs.len(),
{
    if pairs.len() == 0 {
        fields
    } else {
        with_fields(fields, pairs.drop_last()).insert(pairs.last().0, pairs.last().1)
    }
}

/// Whether `list` holds every field of a hash with its value, each once.
pub open spec fn lists_fields(
    fields: Map<Seq<u8>, Seq<u8>>,
    list: Seq<(Seq<u8>, Seq<u8>)>,
) -> bool {
    exists|keys: Seq<Seq<u8>>|
        {
            &&& keys.no_duplicates()
            &&& #[trigger] keys.to_set() == fields.dom()
            &&& list == keys.map_values(|k: Seq<u8>| (k, fields[k]))
        }
}

/// Whether `list` holds every member of a set, each once.
pub open spec fn lists_members(members: Set<Seq<u8>>, list: Seq<Seq<u8>>) -> bool {
    list.no_duplicates() && list.to_set() == members
}

/// Scores with members, as what they hold.
pub open spec fn score_pairs(list: Seq<(Score, Bytes)>) -> Seq<(ScoreView, Seq<u8>)> {
    list.map_values(|p: (Score, Bytes)| (p.0@, content(p.1)))
}

/// Members with scores, as what they hold.
pub open spec fn rank_views(list: Seq<(Bytes, Score)>) -> Seq<(Seq<u8>, ScoreView)> {
    list.map_values(|p: (Bytes, Score)| (content(p.0), p.1@))
}

/// The sorted set `members` after members were given scores one after the other.
pub open spec fn with_scores(
    members: Map<Seq<u8>, ScoreView>,
    pairs: Seq<(ScoreView, Seq<u8>)>,
) -> Map<Seq<u8>, ScoreView>
    decreases pairs.len(),
{
    if pairs.len() == 0 {
        members
    } else {
        with_scores(members, pairs.drop_last()).insert(pairs.last().1, pairs.last().0)
    }
}

/// Whether `list` holds every member of a sorted set with its score, each once,
/// ordered by score and then by member.
pub open spec fn ranked(
    members: Map<Seq<u8>, ScoreView>,
    list: Seq<(Seq<u8>, ScoreView)>,
) -> bool {
    &&& forall|i: int, j: int|
        0 <= i < j < list.len() ==> ranks_before(#[trigger] list[i], #[trigger] list[j])
    &&& forall|p: (Seq<u8>, ScoreView)| #[trigger]
        list.contains(p) <==> members.contains_key(p.0) && members[p.0] == p.1
}

/// Whether removing members from `before` takes `removed` of them away and
/// leaves `after`: `None` for a value that is no sorted set.
pub open spec fn removes_scores(
    before: ValueView,
    names: Seq<Seq<u8>>,
    removed: Option<usize>,
    after: ValueView,
) -> bool {
    match before {
        ValueView::Sorted(members) => {
            let left = members.remove_keys(names.to_set());
            after == ValueView::Sorted(left) && (removed matches Some(n) && n
                == members.dom().len() - left.dom().len())
        },
        _ => removed is None && after == before,
    }
}

/// Members with scores as text.
pub open spec fn rank_texts(list: Seq<(Seq<u8>, ScoreView)>) -> Seq<(Seq<u8>, Seq<u8>)> {
    list.map_values(|p: (Seq<u8>, ScoreView)| (p.0, score_text(p.1)))
}

/// The members in a ranking are distinct, and they are those of the sorted set.
pub proof fn lemma_ranked_keys(
    members: Map<Seq<u8>, ScoreView>,
    list: Seq<(Seq<u8>, ScoreView)>,
) -> (keys: Seq<Seq<u8>>)
    requires
        ranked(members, list),
    ensures
        keys.no_duplicates(),
        keys.to_set() == members.dom(),
        list == keys.map_values(|k: Seq<u8>| (k, members[k])),
        list.len() == members.dom().len(),
        keys.len() == list.len(),
{
    let keys = list.map_values(|p: (Seq<u8>, ScoreView)| p.0);
    assert forall|i: int| 0 <= i < list.len() implies members.contains_key(
        (#[trigger] list[i]).0,
    ) && members[list[i].0] == list[i].1 by {
        assert(list.contains(list[i]));
    }
    assert forall|i: int, j: int| 0 <= i < j < keys.len() implies keys[i] != keys[j] by {
        assert(ranks_before(list[i], list[j]));
        law_rank_is_an_order(list[i], list[i], list[i]);
        if keys[i] == keys[j] {
            assert(list[i] == list[j]);
        }
    }
    assert forall|k: Seq<u8>| #[trigger] keys.to_set().contains(k) <==> members.dom().contains(
        k,
    ) by {
        if keys.contains(k) {
            let i = keys.index_of(k);
            assert(list[i].0 == k);
        }
        if members.contains_key(k) {
            assert(list.contains((k, members[k])));
            let i = list.index_of((k, members[k]));
            assert(keys[i] == k);
        }
    }
    assert(keys.to_set() =~= members.dom());
    keys.unique_seq_to_set();
    assert(list =~= keys.map_values(|k: Seq<u8>| (k, members[k])));
    keys
}

/// A sorted set has only one ranking.
pub proof fn law_ranking_is_unique(
    members: Map<Seq<u8>, ScoreView>,
    a: Seq<(Seq<u8>, ScoreView)>,
    b: Seq<(Seq<u8>, ScoreView)>,
)
    requires
        ranked(members, a),
        ranked(members, b),
    ensures
        a == b,
    decreases a.len(),
{
    if a.len() == 0 {
        if b.len() > 0 {
            assert(b.contains(b[0]));
            assert(a.contains(b[0]));
        }
        assert(a =~= b);
    } else {
        let first = a[0];
        assert(a.contains(first));
        assert(b.contains(first));
        let i = b.index_of(first);
        let other = b[0];
        assert(b.contains(other));
        assert(a.contains(other));
        let j = a.index_of(other);
        law_rank_is_an_order(first, other, first);
        if i > 0 {
            assert(ranks_before(b[0], b[i]));
            if j > 0 {
                assert(ranks_before(a[0], a[j]));
            }
        }
        assert(other == first);
        let rest = members.remove(first.0);
        lemma_ranked_rest(members, a);
        lemma_ranked_rest(members, b);
        law_ranking_is_unique(rest, a.skip(1), b.skip(1));
        assert(a =~= seq![first] + a.skip(1));
        assert(b =~= seq![first] + b.skip(1));
    }
}

proof fn lemma_ranked_rest(
    members: Map<Seq<u8>, ScoreView>,
    list: Seq<(Seq<u8>, ScoreView)>,
)
    requires
        ranked(members, list),
        list.len() > 0,
    ensures
        ranked(members.remove(list[0].0), list.skip(1)),
{
    let first = list[0];
    let rest = list.skip(1);
    let left = members.remove(first.0);
    assert(list.contains(first));
    assert forall|i: int, j: int| 0 <= i < j < rest.len() implies ranks_before(
        #[trigger] rest[i],
        #[trigger] rest[j],
    ) by {
        assert(ranks_before(list[i + 1], list[j + 1]));
    }
    assert forall|p: (Seq<u8>, ScoreView)| #[trigger] rest.contains(p) <==> left.contains_key(p.0)
        && left[p.0] == p.1 by {
        if rest.contains(p) {
            let i = rest.index_of(p);
            assert(list[i + 1] == p);
            assert(list.contains(p));
            assert(ranks_before(list[0], list[i + 1]));
            law_rank_is_an_order(first, first, first);
            if p.0 == first.0 {
                assert(p == first);
            }
        }
        if left.contains_key(p.0) && left[p.0] == p.1 {
            assert(list.contains(p));
            let i = list.index_of(p);
            assert(rest[i - 1] == p);
        }
    }
}

/// Whether popping `before` gives `item` and leaves `after`: `None` for a value
/// that is no list.
pub open spec fn pops(
    before: ValueView,
    front: bool,
    item: Option<Option<Bytes>>,
    after: ValueView,
) -> bool {
    match before {
        ValueView::List(items) => item matches Some(item) && match item {
            Some(b) => items.len() > 0 && content(b) == end_of(items, front) && after
                == ValueView::List(popped(items, front)),
            None => items.len() == 0 && after == before,
        },
        _ => item is None && after == before,
    }
}

/// Whether removing fields from `before` takes `removed` of them away and
/// leaves `after`: `None` for a value that is no hash.
pub open spec fn removes_fields(
    before: ValueView,
    names: Seq<Seq<u8>>,
    removed: Option<usize>,
    after: ValueView,
) -> bool {
    match before {
        ValueView::Hash(fields) => {
            let left = fields.remove_keys(names.to_set());
            after == ValueView::Hash(left) && (removed matches Some(n) && n == fields.dom().len()
                - left.dom().len())
        },
        _ => removed is None && after == before,
    }
}

/// Whether removing members from `before` takes `removed` of them away and
/// leaves `after`: `None` for a value that is no set.
pub open spec fn removes_members(
    before: ValueView,
    names: Seq<Seq<u8>>,
    removed: Option<usize>,
    after: ValueView,
) -> bool {
    match before {
        ValueView::Members(members) => {
            let left = members.difference(names.to_set());
            after == ValueView::Members(left) && (removed matches Some(n) && n == members.len()
                - left.len())
        },
        _ => removed is None && after == before,
    }
}

/// Pushes `more`, one after the other.
fn push_all(items: &mut VecDeque<Bytes>, more: &[Bytes], front: bool)
    ensures
        contents(final(items)@) == pushed(contents(old(items)@), contents(more@), front),
{
    let mut i: usize = 0;
    let ghost start = contents(items@);
    let ghost all = contents(more@);
    assert(contents(items@) =~= pushed(start, all.take(0), front));
    while i < more.len()
        invariant
            i <= more@.len(),
            all == contents(more@),
            contents(items@) == pushed(start, all.take(i as int), front),
        decreases more@.len() - i,
    {
        let ghost was = items@;
        let item = more[i].clone();
        let ghost data = content(item);
        if front {
            items.push_front(item);
            assert(contents(items@) =~= seq![data] + contents(was));
        } else {
            items.push_back(item);
        }
        assert(contents(items@) =~= pushed(start, all.take(i + 1), front));
        i = i + 1;
    }
    assert(all.take(all.len() as int) =~= all);
}

/// Copies of the elements from `start` to `stop`, both included; a negative
/// number counts from the end.
fn copy_range(items: &VecDeque<Bytes>, start: i64, stop: i64) -> (list: Vec<Bytes>)
    ensures
        contents(list@) == range_of(contents(items@), start as int, stop as int),
{
    let (first, end) = range_bounds(items.len(), start, stop);
    let mut list: Vec<Bytes> = Vec::new();
    let ghost all = contents(items@);
    let mut i: usize = first;
    while i < end
        invariant
            first <= i <= end <= items.len(),
            all == contents(items@),
            contents(list@) =~= all.subrange(first as int, i as int),
        decreases end - i,
    {
        list.push(items[i].clone());
        assert(all[i as int] == content(items@[i as int]));
        i = i + 1;
    }
    assert(contents(list@) =~= range_of(all, start as int, stop as int));
    list
}

/// Sets fields, one after the other.
fn set_all(fields: &mut ByteMap<Bytes>, pairs: &[(Bytes, Bytes)])
    requires
        old(fields).wf(),
    ensures
        final(fields).wf(),
        fields_of(*final(fields)) == with_fields(fields_of(*old(fields)), pair_contents(pairs@)),
{
    let mut i: usize = 0;
    let ghost start = fields_of(*fields);
    let ghost all = pair_contents(pairs@);
    assert(all.take(0) =~= Seq::<(Seq<u8>, Seq<u8>)>::empty());
    while i < pairs.len()
        invariant
            i <= pairs@.len(),
            fields.wf(),
            all == pair_contents(pairs@),
            fields_of(*fields) == with_fields(start, all.take(i as int)),
        decreases pairs@.len() - i,
    {
        let ghost was = *fields;
        let field = pairs[i].0.clone();
        let value = pairs[i].1.clone();
        let ghost pair = (content(field), content(value));
        fields.insert(field, value);
        proof {
            assert(all.take(i + 1).drop_last() =~= all.take(i as int));
            assert(all.take(i + 1).last() == pair);
            assert(fields_of(*fields) =~= fields_of(was).insert(pair.0, pair.1));
        }
        i = i + 1;
    }
    assert(all.take(all.len() as int) =~= all);
}

/// Removes keys from a map.
fn remove_all<V>(map: &mut ByteMap<V>, keys: &[Bytes])
    requires
        old(map).wf(),
    ensures
        final(map).wf(),
        final(map)@ == old(map)@.remove_keys(contents(keys@).to_set()),
{
    let mut i: usize = 0;
    let ghost start = map@;
    let ghost all = contents(keys@);
    assert(map@ =~= start.remove_keys(all.take(0).to_set()));
    while i < keys.len()
        invariant
            i <= keys@.len(),
            map.wf(),
            all == contents(keys@),
            map@ == start.remove_keys(all.take(i as int).to_set()),
        decreases keys@.len() - i,
    {
        map.remove(&keys[i]);
        proof {
            let key = content(keys@[i as int]);
            assert(all.take(i + 1) =~= all.take(i as int).push(key));
            all.take(i as int).lemma_push_to_set_commute(key);
            assert(map@ =~= start.remove_keys(all.take(i + 1).to_set()));
        }
        i = i + 1;
    }
    assert(all.take(all.len() as int) =~= all);
}

/// Adds members.
fn add_all(members: &mut ByteMap<()>, more: &[Bytes])
    requires
        old(members).wf(),
    ensures
        final(members).wf(),
        final(members)@.dom() == old(members)@.dom().union(contents(more@).to_set()),
{
    let mut i: usize = 0;
    let ghost start = members@.dom();
    let ghost all = contents(more@);
    assert(members@.dom() =~= start.union(all.take(0).to_set()));
    while i < more.len()
        invariant
            i <= more@.len(),
            members.wf(),
            all == contents(more@),
            members@.dom() == start.union(all.take(i as int).to_set()),
        decreases more@.len() - i,
    {
        members.insert(more[i].clone(), ());
        proof {
            let key = content(more@[i as int]);
            assert(all.take(i + 1) =~= all.take(i as int).push(key));
            all.take(i as int).lemma_push_to_set_commute(key);
            assert(members@.dom() =~= start.union(all.take(i + 1).to_set()));
        }
        i = i + 1;
    }
    assert(all.take(all.len() as int) =~= all);
}

/// Where a range begins and ends in something with `len` elements.
pub(crate) fn range_bounds(len: usize, start: i64, stop: i64) -> (bounds: (usize, usize))
    ensures
        bounds.0 <= bounds.1 <= len,
        ({
            let from = range_from(start as int, len as nat);
            let to = range_to(stop as int, len as nat);
            if from > to {
                bounds.0 == bounds.1
            } else {
                bounds.0 == from && bounds.1 == to + 1
            }
        }),
{
    let n: i128 = len as i128;
    let from: i128 = if start >= 0 {
        start as i128
    } else if start as i128 + n >= 0 {
        start as i128 + n
    } else {
        0
    };
    let to: i128 = if stop < 0 {
        stop as i128 + n
    } else if (stop as i128) < n {
        stop as i128
    } else {
        n - 1
    };
    if from <= to {
        (from as usize, (to + 1) as usize)
    } else {
        (0, 0)
    }
}

/// Gives members scores, one after the other.
fn score_all(members: &mut ByteMap<Score>, pairs: &[(Score, Bytes)])
    requires
        old(members).wf(),
        all_normal(*old(members)),
        forall|i: int| 0 <= i < pairs@.len() ==> (#[trigger] pairs@[i]).0@.normal(),
    ensures
        final(members).wf(),
        all_normal(*final(members)),
        scores_of(*final(members)) == with_scores(scores_of(*old(members)), score_pairs(pairs@)),
{
    let mut i: usize = 0;
    let ghost start = scores_of(*members);
    let ghost all = score_pairs(pairs@);
    assert(all.take(0) =~= Seq::<(ScoreView, Seq<u8>)>::empty());
    while i < pairs.len()
        invariant
            i <= pairs@.len(),
            members.wf(),
            all_normal(*members),
            forall|j: int| 0 <= j < pairs@.len() ==> (#[trigger] pairs@[j]).0@.normal(),
            all == score_pairs(pairs@),
            scores_of(*members) == with_scores(start, all.take(i as int)),
        decreases pairs@.len() - i,
    {
        let ghost was = *members;
        let score = pairs[i].0.duplicate();
        let member = pairs[i].1.clone();
        let ghost pair = (score@, content(member));
        assert(pairs@[i as int].0@.normal());
        members.insert(member, score);
        proof {
            assert(all.take(i + 1).drop_last() =~= all.take(i as int));
            assert(all.take(i + 1).last() == pair);
            assert(scores_of(*members) =~= scores_of(was).insert(pair.1, pair.0));
        }
        i = i + 1;
    }
    assert(all.take(all.len() as int) =~= all);
}

/// The member of a sorted set at a position, with its score.
spec fn entry_at(members: ByteMap<Score>, p: usize) -> (Seq<u8>, ScoreView) {
    (members.keys()[p as int], members.values()[p as int]@)
}

/// Whether `places` are positions in the order of rank.
spec fn in_rank(members: ByteMap<Score>, places: Seq<usize>) -> bool {
    forall|i: int, j: int|
        0 <= i < j < places.len() ==> ranks_before(
            entry_at(members, #[trigger] places[i]),
            entry_at(members, #[trigger] places[j]),
        )
}

/// Merges two runs of positions that are in the order of rank.
fn merge(members: &ByteMap<Score>, a: Vec<usize>, b: Vec<usize>) -> (out: Vec<usize>)
    requires
        members.wf(),
        in_rank(*members, a@),
        in_rank(*members, b@),
        forall|i: int| 0 <= i < a@.len() ==> #[trigger] a@[i] < members.keys().len(),
        forall|i: int| 0 <= i < b@.len() ==> #[trigger] b@[i] < members.keys().len(),
        forall|i: int, j: int| 0 <= i < a@.len() && 0 <= j < b@.len() ==> a@[i] != b@[j],
    ensures
        in_rank(*members, out@),
        forall|p: usize| #[trigger] out@.contains(p) <==> a@.contains(p) || b@.contains(p),
{
    let mut out: Vec<usize> = Vec::new();
    let mut i: usize = 0;
    let mut j: usize = 0;
    proof {
        members.lemma_keys();
    }
    while i < a.len() || j < b.len()
        invariant
            members.wf(),
            members.keys().no_duplicates(),
            members.values().len() == members.keys().len(),
            in_rank(*members, a@),
            in_rank(*members, b@),
            forall|k: int| 0 <= k < a@.len() ==> #[trigger] a@[k] < members.keys().len(),
            forall|k: int| 0 <= k < b@.len() ==> #[trigger] b@[k] < members.keys().len(),
            forall|k: int, l: int| 0 <= k < a@.len() && 0 <= l < b@.len() ==> a@[k] != b@[l],
            i <= a@.len(),
            j <= b@.len(),
            in_rank(*members, out@),
            forall|k: int, l: int|
                0 <= k < out@.len() && i <= l < a@.len() ==> ranks_before(
                    entry_at(*members, #[trigger] out@[k]),
                    entry_at(*members, #[trigger] a@[l]),
                ),
            forall|k: int, l: int|
                0 <= k < out@.len() && j <= l < b@.len() ==> ranks_before(
                    entry_at(*members, #[trigger] out@[k]),
                    entry_at(*members, #[trigger] b@[l]),
                ),
            forall|p: usize| #[trigger]
                out@.contains(p) <==> a@.take(i as int).contains(p) || b@.take(j as int).contains(
                    p,
                ),
        decreases a@.len() - i + (b@.len() - j),
    {
        let first: bool = if i == a.len() {
            false
        } else if j == b.len() {
            true
        } else {
            proof {
                law_rank_is_an_order(
                    entry_at(*members, a@[i as int]),
                    entry_at(*members, b@[j as int]),
                    entry_at(*members, a@[i as int]),
                );
                assert(members.keys()[a@[i as int] as int] != members.keys()[b@[j as int] as int]);
            }
            outranks(
                members.key_at(a[i]),
                members.value_at(a[i]),
                members.key_at(b[j]),
                members.value_at(b[j]),
            )
        };
        let ghost was = out@;
        let next: usize = if first {
            a[i]
        } else {
            b[j]
        };
        out.push(next);
        proof {
            let e = entry_at(*members, next);
            if first && j < b@.len() {
                assert forall|l: int| j <= l < b@.len() implies ranks_before(
                    e,
                    entry_at(*members, #[trigger] b@[l]),
                ) by {
                    if l > j {
                        assert(ranks_before(
                            entry_at(*members, b@[j as int]),
                            entry_at(*members, b@[l]),
                        ));
                        law_rank_is_an_order(
                            e,
                            entry_at(*members, b@[j as int]),
                            entry_at(*members, b@[l]),
                        );
                    }
                }
            }
            if !first && i < a@.len() {
                assert forall|l: int| i <= l < a@.len() implies ranks_before(
                    e,
                    entry_at(*members, #[trigger] a@[l]),
                ) by {
                    if l > i {
                        assert(ranks_before(
                            entry_at(*members, a@[i as int]),
                            entry_at(*members, a@[l]),
                        ));
                        law_rank_is_an_order(
                            e,
                            entry_at(*members, a@[i as int]),
                            entry_at(*members, a@[l]),
                        );
                    }
                }
            }
            lemma_contains_push(was, next);
            if first {
                assert(a@.take(i + 1) =~= a@.take(i as int).push(next));
                lemma_contains_push(a@.take(i as int), next);
            } else {
                assert(b@.take(j + 1) =~= b@.take(j as int).push(next));
                lemma_contains_push(b@.take(j as int), next);
            }
        }
        if first {
            i = i + 1;
        } else {
            j = j + 1;
        }
    }
    assert(a@.take(i as int) =~= a@);
    assert(b@.take(j as int) =~= b@);
    out
}

proof fn lemma_contains_push(list: Seq<usize>, more: usize)
    ensures
        forall|p: usize| #[trigger] list.push(more).contains(p) <==> list.contains(p) || p == more,
{
    let all = list.push(more);
    assert(all[list.len() as int] == more);
    assert forall|p: usize| #[trigger] all.contains(p) <==> list.contains(p) || p == more by {
        if list.contains(p) {
            assert(all[list.index_of(p)] == p);
        }
        if all.contains(p) {
            let i = all.index_of(p);
            if i < list.len() {
                assert(list[i] == p);
            }
        }
    }
}

/// The positions from `start` on before `end`, in the order of rank.
fn sort_places(members: &ByteMap<Score>, start: usize, end: usize) -> (places: Vec<usize>)
    requires
        members.wf(),
        start <= end <= members.keys().len(),
    ensures
        in_rank(*members, places@),
        forall|p: usize| #[trigger] places@.contains(p) <==> start <= p < end,
    decreases end - start,
{
    if end - start <= 1 {
        let mut places: Vec<usize> = Vec::new();
        if end > start {
            places.push(start);
            proof {
                lemma_contains_push(Seq::empty(), start);
                assert(places@ =~= Seq::<usize>::empty().push(start));
            }
        }
        return places;
    }
    let middle: usize = start + (end - start) / 2;
    let a = sort_places(members, start, middle);
    let b = sort_places(members, middle, end);
    proof {
        assert forall|i: int| 0 <= i < a@.len() implies #[trigger] a@[i] < middle by {
            assert(a@.contains(a@[i]));
        }
        assert forall|i: int| 0 <= i < b@.len() implies middle <= #[trigger] b@[i] < end by {
            assert(b@.contains(b@[i]));
        }
    }
    merge(members, a, b)
}

/// Copies of the members of a sorted set with their scores, in the order of
/// rank.
fn copy_ranked(members: &ByteMap<Score>) -> (list: Vec<(Bytes, Score)>)
    requires
        members.wf(),
    ensures
        ranked(scores_of(*members), rank_views(list@)),
{
    let n: usize = members.len();
    let places = sort_places(members, 0, n);
    let mut list: Vec<(Bytes, Score)> = Vec::new();
    let mut i: usize = 0;
    proof {
        members.lemma_keys();
    }
    while i < places.len()
        invariant
            members.wf(),
            n == members.keys().len(),
            members.values().len() == n,
            forall|p: usize| #[trigger] places@.contains(p) <==> p < n,
            i <= places@.len(),
            list@.len() == i,
            forall|j: int|
                0 <= j < i ==> #[trigger] rank_views(list@)[j] == entry_at(*members, places@[j]),
        decreases places@.len() - i,
    {
        assert(places@.contains(places@[i as int]));
        let ghost was = list@;
        list.push((members.key_at(places[i]).clone(), members.value_at(places[i]).duplicate()));
        proof {
            assert forall|j: int| 0 <= j < i implies #[trigger] rank_views(list@)[j]
                == rank_views(was)[j] by {}
        }
        i = i + 1;
    }
    proof {
        let views = rank_views(list@);
        let all = scores_of(*members);
        assert forall|a: int, b: int| 0 <= a < b < views.len() implies ranks_before(
            #[trigger] views[a],
            #[trigger] views[b],
        ) by {
            assert(ranks_before(
                entry_at(*members, places@[a]),
                entry_at(*members, places@[b]),
            ));
        }
        assert forall|p: (Seq<u8>, ScoreView)| #[trigger] views.contains(p) <==> all.contains_key(
            p.0,
        ) && all[p.0] == p.1 by {
            if views.contains(p) {
                let j = views.index_of(p);
                assert(places@.contains(places@[j]));
                members.lemma_entry(places@[j] as int);
            }
            if all.contains_key(p.0) && all[p.0] == p.1 {
                assert(members.keys().to_set().contains(p.0));
                let at = members.keys().index_of(p.0);
                members.lemma_entry(at);
                assert(places@.contains(at as usize));
                let j = places@.index_of(at as usize);
                assert(views[j] == p);
            }
        }
    }
    list
}

/// Members with scores as text.
pub(crate) fn rank_pairs(list: &[(Bytes, Score)]) -> (pairs: Vec<(Bytes, Bytes)>)
    ensures
        pair_contents(pairs@) == rank_texts(rank_views(list@)),
{
    let mut pairs: Vec<(Bytes, Bytes)> = Vec::new();
    let mut i: usize = 0;
    let ghost want = rank_texts(rank_views(list@));
    while i < list.len()
        invariant
            i <= list@.len(),
            want == rank_texts(rank_views(list@)),
            pair_contents(pairs@) =~= want.take(i as int),
        decreases list@.len() - i,
    {
        let ghost was = pairs@;
        let text = from_vec(list[i].1.text());
        let ghost pair = (content(list@[i as int].0), content(text));
        pairs.push((list[i].0.clone(), text));
        proof {
            assert(pair_contents(pairs@) =~= pair_contents(was).push(pair));
            assert(want[i as int] == pair);
        }
        i = i + 1;
    }
    assert(pair_contents(pairs@) =~= want);
    pairs
}

impl Value {
    /// Gives members of a sorted set scores, one after the other. Returns how
    /// many of them it did not have.
    pub fn set_scores(&mut self, pairs: &[(Score, Bytes)]) -> (added: Option<usize>)
        requires
            old(self).wf(),
            forall|i: int| 0 <= i < pairs@.len() ==> (#[trigger] pairs@[i]).0@.normal(),
        ensures
            final(self).wf(),
            match old(self)@ {
                ValueView::Sorted(members) => {
                    let after = with_scores(members, score_pairs(pairs@));
                    final(self)@ == ValueView::Sorted(after) && (added matches Some(n) && n
                        == after.dom().len() - members.dom().len())
                },
                _ => final(self)@ == old(self)@ && added is None,
            },
    {
        match self {
            Value::Sorted(members) => {
                let before: usize = members.len();
                let ghost was = scores_of(*members);
                assert(was.dom() =~= members@.dom());
                score_all(members, pairs);
                let after: usize = members.len();
                proof {
                    members.lemma_keys();
                    assert(scores_of(*members).dom() =~= members@.dom());
                    lemma_with_scores_grows(was, score_pairs(pairs@));
                }
                Some(after - before)
            },
            _ => None,
        }
    }

    /// The score of a member of a sorted set.
    pub fn score(&self, name: &[u8]) -> (score: Option<Option<&Score>>)
        requires
            self.wf(),
        ensures
            match self@ {
                ValueView::Sorted(members) => score matches Some(score) && match score {
                    Some(s) => members.contains_key(name@) && s@ == members[name@],
                    None => !members.contains_key(name@),
                },
                _ => score is None,
            },
    {
        match self {
            Value::Sorted(members) => Some(members.get(name)),
            _ => None,
        }
    }

    /// Removes members of a sorted set. Returns how many of them it had.
    pub fn remove_scores(&mut self, names: &[Bytes]) -> (removed: Option<usize>)
        requires
            old(self).wf(),
        ensures
            final(self).wf(),
            removes_scores(old(self)@, contents(names@), removed, final(self)@),
    {
        match self {
            Value::Sorted(members) => {
                let before: usize = members.len();
                let ghost was = *members;
                assert(scores_of(was).dom() =~= was@.dom());
                proof {
                    members.lemma_keys();
                }
                remove_all(members, names);
                let after: usize = members.len();
                proof {
                    members.lemma_keys();
                    assert(scores_of(*members) =~= scores_of(was).remove_keys(
                        contents(names@).to_set(),
                    ));
                    assert(scores_of(*members).dom() =~= members@.dom());
                    vstd::set_lib::lemma_len_subset(members@.dom(), was@.dom());
                }
                Some(before - after)
            },
            _ => None,
        }
    }

    /// Every member of a sorted set with its score, ordered by score and then by
    /// member.
    pub fn all_ranked(&self) -> (list: Option<Vec<(Bytes, Score)>>)
        requires
            self.wf(),
        ensures
            match self@ {
                ValueView::Sorted(members) => list matches Some(list) && ranked(
                    members,
                    rank_views(list@),
                ),
                _ => list is None,
            },
    {
        match self {
            Value::Sorted(members) => Some(copy_ranked(members)),
            _ => None,
        }
    }

    /// Pushes `more` onto a list, one after the other. Returns its new length.
    pub fn push_items(&mut self, more: &[Bytes], front: bool) -> (len: Option<usize>)
        requires
            old(self).wf(),
        ensures
            final(self).wf(),
            match old(self)@ {
                ValueView::List(items) => {
                    let after = pushed(items, contents(more@), front);
                    final(self)@ == ValueView::List(after) && len == Some(after.len() as usize)
                        && after.len() <= usize::MAX
                },
                _ => final(self)@ == old(self)@ && len is None,
            },
    {
        match self {
            Value::List(items) => {
                push_all(items, more, front);
                Some(items.len())
            },
            _ => None,
        }
    }

    /// Takes the first or the last element of a list out.
    pub fn pop_item(&mut self, front: bool) -> (item: Option<Option<Bytes>>)
        requires
            old(self).wf(),
        ensures
            final(self).wf(),
            pops(old(self)@, front, item, final(self)@),
    {
        match self {
            Value::List(items) => {
                let ghost was = contents(items@);
                let item = if front {
                    items.pop_front()
                } else {
                    items.pop_back()
                };
                proof {
                    if was.len() > 0 {
                        assert(contents(items@) =~= popped(was, front));
                    } else {
                        assert(contents(items@) =~= was);
                    }
                }
                Some(item)
            },
            _ => None,
        }
    }

    /// The elements of a list from `start` to `stop`, both included; a negative
    /// number counts from the end.
    pub fn item_range(&self, start: i64, stop: i64) -> (list: Option<Vec<Bytes>>)
        ensures
            match self@ {
                ValueView::List(items) => list matches Some(list) && contents(list@) == range_of(
                    items,
                    start as int,
                    stop as int,
                ),
                _ => list is None,
            },
    {
        match self {
            Value::List(items) => Some(copy_range(items, start, stop)),
            _ => None,
        }
    }

    /// Number of elements of a list.
    pub fn item_count(&self) -> (len: Option<usize>)
        ensures
            match self@ {
                ValueView::List(items) => items.len() <= usize::MAX && len == Some(
                    items.len() as usize,
                ),
                _ => len is None,
            },
    {
        match self {
            Value::List(items) => Some(items.len()),
            _ => None,
        }
    }

    /// Sets fields of a hash, one after the other. Returns how many of them it
    /// did not have.
    pub fn set_fields(&mut self, pairs: &[(Bytes, Bytes)]) -> (added: Option<usize>)
        requires
            old(self).wf(),
        ensures
            final(self).wf(),
            match old(self)@ {
                ValueView::Hash(fields) => {
                    let after = with_fields(fields, pair_contents(pairs@));
                    final(self)@ == ValueView::Hash(after) && (added matches Some(n) && n
                        == after.dom().len() - fields.dom().len())
                },
                _ => final(self)@ == old(self)@ && added is None,
            },
    {
        match self {
            Value::Hash(fields) => {
                let before: usize = fields.len();
                let ghost was = fields_of(*fields);
                assert(was.dom() =~= fields@.dom());
                set_all(fields, pairs);
                let after: usize = fields.len();
                proof {
                    fields.lemma_keys();
                    assert(fields_of(*fields).dom() =~= fields@.dom());
                    lemma_with_fields_grows(was, pair_contents(pairs@));
                }
                Some(after - before)
            },
            _ => None,
        }
    }

    /// The value of a field of a hash.
    pub fn field(&self, name: &[u8]) -> (value: Option<Option<Bytes>>)
        requires
            self.wf(),
        ensures
            match self@ {
                ValueView::Hash(fields) => value matches Some(value) && match value {
                    Some(b) => fields.contains_key(name@) && content(b) == fields[name@],
                    None => !fields.contains_key(name@),
                },
                _ => value is None,
            },
    {
        match self {
            Value::Hash(fields) => match fields.get(name) {
                Some(b) => Some(Some(b.clone())),
                None => Some(None),
            },
            _ => None,
        }
    }

    /// Removes fields of a hash. Returns how many of them it had.
    pub fn remove_fields(&mut self, names: &[Bytes]) -> (removed: Option<usize>)
        requires
            old(self).wf(),
        ensures
            final(self).wf(),
            removes_fields(old(self)@, contents(names@), removed, final(self)@),
    {
        match self {
            Value::Hash(fields) => {
                let before: usize = fields.len();
                let ghost was = *fields;
                assert(fields_of(was).dom() =~= was@.dom());
                proof {
                    fields.lemma_keys();
                }
                remove_all(fields, names);
                let after: usize = fields.len();
                proof {
                    fields.lemma_keys();
                    assert(fields_of(*fields) =~= fields_of(was).remove_keys(
                        contents(names@).to_set(),
                    ));
                    assert(fields_of(*fields).dom() =~= fields@.dom());
                    vstd::set_lib::lemma_len_subset(fields@.dom(), was@.dom());
                }
                Some(before - after)
            },
            _ => None,
        }
    }

    /// Every field of a hash with its value, in no particular order.
    pub fn all_fields(&self) -> (list: Option<Vec<(Bytes, Bytes)>>)
        requires
            self.wf(),
        ensures
            match self@ {
                ValueView::Hash(fields) => list matches Some(list) && lists_fields(
                    fields,
                    pair_contents(list@),
                ),
                _ => list is None,
            },
    {
        match self {
            Value::Hash(fields) => Some(copy_fields(fields)),
            _ => None,
        }
    }

    /// Adds members to a set. Returns how many of them it did not have.
    pub fn add_members(&mut self, more: &[Bytes]) -> (added: Option<usize>)
        requires
            old(self).wf(),
        ensures
            final(self).wf(),
            match old(self)@ {
                ValueView::Members(members) => {
                    let after = members.union(contents(more@).to_set());
                    final(self)@ == ValueView::Members(after) && (added matches Some(n) && n
                        == after.len() - members.len())
                },
                _ => final(self)@ == old(self)@ && added is None,
            },
    {
        match self {
            Value::Members(members) => {
                let before: usize = members.len();
                let ghost was = members@.dom();
                add_all(members, more);
                let after: usize = members.len();
                proof {
                    members.lemma_keys();
                    vstd::set_lib::lemma_len_subset(was, members@.dom());
                }
                Some(after - before)
            },
            _ => None,
        }
    }

    /// Removes members of a set. Returns how many of them it had.
    pub fn remove_members(&mut self, names: &[Bytes]) -> (removed: Option<usize>)
        requires
            old(self).wf(),
        ensures
            final(self).wf(),
            removes_members(old(self)@, contents(names@), removed, final(self)@),
    {
        match self {
            Value::Members(members) => {
                let before: usize = members.len();
                let ghost was = members@.dom();
                proof {
                    members.lemma_keys();
                }
                remove_all(members, names);
                let after: usize = members.len();
                proof {
                    assert(members@.dom() =~= was.difference(contents(names@).to_set()));
                    vstd::set_lib::lemma_len_subset(members@.dom(), was);
                }
                Some(before - after)
            },
            _ => None,
        }
    }

    /// Every member of a set, in no particular order.
    pub fn all_members(&self) -> (list: Option<Vec<Bytes>>)
        requires
            self.wf(),
        ensures
            match self@ {
                ValueView::Members(members) => list matches Some(list) && lists_members(
                    members,
                    contents(list@),
                ),
                _ => list is None,
            },
    {
        match self {
            Value::Members(members) => Some(copy_members(members)),
            _ => None,
        }
    }

    /// Whether a set has a member.
    pub fn has_member(&self, name: &[u8]) -> (present: Option<bool>)
        requires
            self.wf(),
        ensures
            match self@ {
                ValueView::Members(members) => present == Some(members.contains(name@)),
                _ => present is None,
            },
    {
        match self {
            Value::Members(members) => Some(members.contains_key(name)),
            _ => None,
        }
    }

    /// Whether the value is a collection without elements.
    pub fn is_hollow(&self) -> (hollow: bool)
        requires
            self.wf(),
        ensures
            hollow == self@.is_hollow(),
    {
        match self {
            Value::Str(_) => false,
            Value::List(items) => items.len() == 0,
            Value::Hash(fields) => {
                proof {
                    fields.lemma_keys();
                    assert(fields_of(*fields).dom() =~= fields@.dom());
                    if fields@.dom().len() == 0 {
                        fields@.dom().lemma_len0_is_empty();
                    }
                }
                fields.len() == 0
            },
            Value::Members(members) => {
                proof {
                    members.lemma_keys();
                    if members@.dom().len() == 0 {
                        members@.dom().lemma_len0_is_empty();
                    }
                }
                members.len() == 0
            },
            Value::Sorted(members) => {
                proof {
                    members.lemma_keys();
                    assert(scores_of(*members).dom() =~= members@.dom());
                    if members@.dom().len() == 0 {
                        members@.dom().lemma_len0_is_empty();
                    }
                }
                members.len() == 0
            },
        }
    }
}

/// Copies of the fields of a hash with their values.
fn copy_fields(fields: &ByteMap<Bytes>) -> (list: Vec<(Bytes, Bytes)>)
    requires
        fields.wf(),
    ensures
        lists_fields(fields_of(*fields), pair_contents(list@)),
{
    let n: usize = fields.len();
    let mut list: Vec<(Bytes, Bytes)> = Vec::new();
    let mut i: usize = 0;
    let ghost keys = fields.keys();
    let ghost all = fields_of(*fields);
    proof {
        fields.lemma_keys();
    }
    while i < n
        invariant
            fields.wf(),
            keys == fields.keys(),
            all == fields_of(*fields),
            n == keys.len(),
            fields.values().len() == keys.len(),
            i <= n,
            list@.len() == i,
            forall|j: int|
                0 <= j < i ==> #[trigger] pair_contents(list@)[j] == (keys[j], all[keys[j]]),
        decreases n - i,
    {
        proof {
            fields.lemma_entry(i as int);
        }
        let ghost was = list@;
        list.push((fields.key_at(i).clone(), fields.value_at(i).clone()));
        proof {
            assert forall|j: int| 0 <= j < i implies #[trigger] pair_contents(list@)[j]
                == pair_contents(was)[j] by {}
        }
        i = i + 1;
    }
    proof {
        assert(all.dom() =~= fields@.dom());
        assert(pair_contents(list@) =~= keys.map_values(|k: Seq<u8>| (k, all[k])));
    }
    list
}

/// Copies of the members of a set.
fn copy_members(members: &ByteMap<()>) -> (list: Vec<Bytes>)
    requires
        members.wf(),
    ensures
        lists_members(members@.dom(), contents(list@)),
{
    let n: usize = members.len();
    let mut list: Vec<Bytes> = Vec::new();
    let mut i: usize = 0;
    while i < n
        invariant
            members.wf(),
            n == members.keys().len(),
            i <= n,
            contents(list@) =~= members.keys().take(i as int),
        decreases n - i,
    {
        list.push(members.key_at(i).clone());
        i = i + 1;
    }
    proof {
        members.lemma_keys();
        assert(contents(list@) =~= members.keys());
    }
    list
}

/// Giving scores never takes a member away.
proof fn lemma_with_scores_grows(
    members: Map<Seq<u8>, ScoreView>,
    pairs: Seq<(ScoreView, Seq<u8>)>,
)
    ensures
        members.dom().subset_of(with_scores(members, pairs).dom()),
        with_scores(members, pairs).dom().finite() ==> members.dom().len() <= with_scores(
            members,
            pairs,
        ).dom().len(),
    decreases pairs.len(),
{
    if pairs.len() > 0 {
        lemma_with_scores_grows(members, pairs.drop_last());
    }
    if with_scores(members, pairs).dom().finite() {
        vstd::set_lib::lemma_len_subset(members.dom(), with_scores(members, pairs).dom());
    }
}

/// Setting fields never takes one away.
proof fn lemma_with_fields_grows(
    fields: Map<Seq<u8>, Seq<u8>>,
    pairs: Seq<(Seq<u8>, Seq<u8>)>,
)
    ensures
        fields.dom().subset_of(with_fields(fields, pairs).dom()),
        with_fields(fields, pairs).dom().finite() ==> fields.dom().len() <= with_fields(
            fields,
            pairs,
        ).dom().len(),
    decreases pairs.len(),
{
    if pairs.len() > 0 {
        lemma_with_fields_grows(fields, pairs.drop_last());
    }
    if with_fields(fields, pairs).dom().finite() {
        vstd::set_lib::lemma_len_subset(fields.dom(), with_fields(fields, pairs).dom());
    }
}

} // verus!
