//! Snapshots: every live entry of the keyspace as one block of bytes.

use bytes::Bytes;
use std::collections::VecDeque;
use vstd::prelude::*;
use vstd::string::*;

use crate::buf::{content, contents, from_vec};
use crate::bytemap::ByteMap;
use crate::collections::{
    lemma_ranked_keys, lists_fields, lists_members, pair_contents, rank_pairs, rank_texts,
    rank_views, ranked, score_pairs, with_fields, with_scores,
};
use crate::commands::{pair_up, paired};
use crate::execute::{flat, flatten};
use crate::resp::{
    countable, encode_command, encode_command_spec, law_round_trip, parse_spec, push_slice, read_frame, Frame,
};
use crate::score::{law_score_text_is_read_back, score_text, score_value, Score, ScoreView};
use crate::shard::{all_wf, now_ms, pairs_of};
use crate::store::{Store, StoreView};
use crate::value::{fields_of, scores_of, Entry, EntryView, Value, ValueView};

verus! {

broadcast use crate::buf::lemma_contents_push;

/// [`bincode::ErrorKind`], why bytes could not be packed or unpacked.
#[verifier::external_type_specification]
#[verifier::external_body]
pub struct ExErrorKind(bincode::ErrorKind);

/// An entry in a snapshot: key, kind of value, what it holds, expiry time and
/// last use. A string is held as it is; a collection as an array of bulk
/// strings, a hash as its fields with their values in turn, and a sorted set as
/// its members with their scores in turn.
pub type Record = (Vec<u8>, u32, Vec<u8>, Option<u64>, u64);

/// What a [`Record`] holds.
pub type RecordView = (Seq<u8>, u32, Seq<u8>, Option<u64>, u64);

/// Records, as what they hold.
pub open spec fn record_views(list: Seq<Record>) -> Seq<RecordView> {
    list.map_values(|r: Record| (r.0@, r.1, r.2@, r.3, r.4))
}

/// A number in `width` bytes, the least significant first.
pub open spec fn little_endian(n: nat, width: nat) -> Seq<u8>
    decreases width,
{
    if width == 0 {
        Seq::empty()
    } else {
        seq![(n % 256) as u8] + little_endian(n / 256, (width - 1) as nat)
    }
}

/// A byte string in a snapshot: its length, then its bytes.
pub open spec fn packed_bytes(data: Seq<u8>) -> Seq<u8> {
    little_endian(data.len(), 8) + data
}

/// A record in a snapshot: one part after the other, an expiry time behind a 1,
/// and a 0 where there is none.
pub open spec fn packed_record(record: RecordView) -> Seq<u8> {
    packed_bytes(record.0) + little_endian(record.1 as nat, 4) + packed_bytes(record.2) + (
    match record.3 {
        Some(at) => seq![1u8] + little_endian(at as nat, 8),
        None => seq![0u8],
    }) + little_endian(record.4 as nat, 8)
}

/// The bytes of a snapshot: the number of its records, then one after the other.
pub open spec fn packed(records: Seq<RecordView>) -> Seq<u8> {
    little_endian(records.len(), 8) + records.map_values(
        |r: RecordView| packed_record(r),
    ).flatten()
}

/// The records that [`bincode::deserialize`] reads from the front of bytes, if
/// it can.
pub uninterp spec fn unpacked(bytes: Seq<u8>) -> Option<Seq<RecordView>>;

/// [`bincode::serialize`]: the records as bytes, numbers in fixed width with the
/// least significant byte first and lists behind their length, from which
/// [`bincode::deserialize`] reads the same records. It always succeeds: it has
/// no size limit, writes to memory, and knows the length of every list.
#[verifier::external_body]
fn pack(records: &Vec<Record>) -> (result: Result<Vec<u8>, Box<bincode::ErrorKind>>)
    ensures
        result is Ok,
        result matches Ok(bytes) ==> bytes@ == packed(record_views(records@)),
        result matches Ok(bytes) ==> unpacked(bytes@) == Some(record_views(records@)),
{
    bincode::serialize(records)
}

/// [`bincode::deserialize`]: the records at the front of bytes. It ignores what
/// stands behind them.
#[verifier::external_body]
fn unpack(bytes: &[u8]) -> (result: Result<Vec<Record>, Box<bincode::ErrorKind>>)
    ensures
        match result {
            Ok(records) => unpacked(bytes@) == Some(record_views(records@)),
            Err(_) => unpacked(bytes@) is None,
        },
{
    bincode::deserialize(bytes)
}

/// The text of a [`bincode::ErrorKind`]. Nothing is claimed of it.
#[verifier::external_body]
fn reason(error: &bincode::ErrorKind) -> (text: String) {
    error.to_string()
}

/// Why a snapshot could not be made or read.
#[derive(Debug)]
pub enum SnapshotError {
    /// The records could not be packed.
    Pack(String),
    /// The bytes could not be unpacked.
    Unpack(String),
    /// A collection is too large for the format.
    TooLarge,
    /// A record does not hold a value.
    BadRecord,
}

impl SnapshotError {
    /// The error as a line of text.
    pub fn text(&self) -> (text: String)
        ensures
            text@ == (match *self {
                SnapshotError::Pack(why) => why@,
                SnapshotError::Unpack(why) => why@,
                SnapshotError::TooLarge => "collection too large for a snapshot"@,
                SnapshotError::BadRecord => "record in snapshot holds no value"@,
            }),
    {
        match self {
            SnapshotError::Pack(why) | SnapshotError::Unpack(why) => why.as_str().to_owned(),
            SnapshotError::TooLarge => "collection too large for a snapshot".to_owned(),
            SnapshotError::BadRecord => "record in snapshot holds no value".to_owned(),
        }
    }
}

/// Kind of value in a record: a string.
pub const KIND_STRING: u32 = 0;

/// Kind of value in a record: a list.
pub const KIND_LIST: u32 = 1;

/// Kind of value in a record: a hash.
pub const KIND_HASH: u32 = 2;

/// Kind of value in a record: a set.
pub const KIND_SET: u32 = 3;

/// Kind of value in a record: a sorted set.
pub const KIND_SORTED: u32 = 4;

/// The byte strings that a collection is held as.
pub open spec fn held_items(data: Seq<u8>) -> Option<Seq<Seq<u8>>> {
    match parse_spec(data) {
        Frame::Complete { args, used } => if used == data.len() {
            Some(args)
        } else {
            None
        },
        _ => None,
    }
}

/// The scores and members of a sorted set that is held as members with scores as
/// text, if all of those can be read.
pub open spec fn held_scores(pairs: Seq<(Seq<u8>, Seq<u8>)>) -> Option<
    Seq<(ScoreView, Seq<u8>)>,
> {
    if forall|i: int| 0 <= i < pairs.len() ==> score_value((#[trigger] pairs[i]).1) is Some {
        Some(pairs.map_values(|p: (Seq<u8>, Seq<u8>)| (score_value(p.1)->0, p.0)))
    } else {
        None
    }
}

/// The value that a record of the given kind holds, if it holds one. There is no
/// collection without elements.
pub open spec fn held_value(kind: u32, data: Seq<u8>) -> Option<ValueView> {
    if kind == KIND_STRING {
        Some(ValueView::Str(data))
    } else {
        match held_items(data) {
            None => None,
            Some(items) => if items.len() == 0 {
                None
            } else if kind == KIND_LIST {
                Some(ValueView::List(items))
            } else if kind == KIND_HASH && items.len() % 2 == 0 {
                Some(ValueView::Hash(with_fields(Map::empty(), paired(items))))
            } else if kind == KIND_SET {
                Some(ValueView::Members(items.to_set()))
            } else if kind == KIND_SORTED && items.len() % 2 == 0 {
                match held_scores(paired(items)) {
                    Some(list) => Some(ValueView::Sorted(with_scores(Map::empty(), list))),
                    None => None,
                }
            } else {
                None
            },
        }
    }
}

/// The key and entry that a record holds, if it holds one.
pub open spec fn held_entry(record: RecordView) -> Option<(Seq<u8>, EntryView)> {
    match held_value(record.1, record.2) {
        Some(value) => Some(
            (record.0, EntryView { value, expires_at_ms: record.3, last_access: record.4 }),
        ),
        None => None,
    }
}

/// Whether `data` under the given kind is what a snapshot writes for `value`: a
/// string as it is, a collection as an array of its elements, those of a hash or
/// a set in any order, and those of a sorted set by rank, each with its score.
pub open spec fn written_value(value: ValueView, kind: u32, data: Seq<u8>) -> bool {
    match value {
        ValueView::Str(text) => kind == KIND_STRING && data == text,
        ValueView::List(items) => kind == KIND_LIST && data == encode_command_spec(items),
        ValueView::Hash(fields) => kind == KIND_HASH && exists|list: Seq<(Seq<u8>, Seq<u8>)>|
            #[trigger] lists_fields(fields, list) && data == encode_command_spec(flat(list)),
        ValueView::Members(members) => kind == KIND_SET && exists|list: Seq<Seq<u8>>| #[trigger]
            lists_members(members, list) && data == encode_command_spec(list),
        ValueView::Sorted(members) => kind == KIND_SORTED && exists|
            list: Seq<(Seq<u8>, ScoreView)>,
        | #[trigger]
            ranked(members, list) && data == encode_command_spec(flat(rank_texts(list))),
    }
}

/// Whether `record` is what a snapshot writes for a key and its entry.
pub open spec fn written_entry(pair: (Seq<u8>, EntryView), record: RecordView) -> bool {
    &&& record.0 == pair.0
    &&& written_value(pair.1.value, record.1, record.2)
    &&& record.3 == pair.1.expires_at_ms
    &&& record.4 == pair.1.last_access
}

/// Whether `records` are what a snapshot writes for keys and their entries.
pub open spec fn written_entries(
    list: Seq<(Seq<u8>, EntryView)>,
    records: Seq<RecordView>,
) -> bool {
    &&& records.len() == list.len()
    &&& forall|i: int| 0 <= i < list.len() ==> written_entry(list[i], #[trigger] records[i])
}

/// Whether `bytes` are a snapshot of keys and their entries.
pub open spec fn written(list: Seq<(Seq<u8>, EntryView)>, bytes: Seq<u8>) -> bool {
    exists|records: Seq<RecordView>| #[trigger]
        written_entries(list, records) && bytes == packed(records)
}

/// Whether every one of the records holds an entry.
pub open spec fn all_held(records: Seq<RecordView>) -> bool {
    forall|i: int| 0 <= i < records.len() ==> held_entry(#[trigger] records[i]) is Some
}

/// The keys and entries that records hold.
pub open spec fn held_entries(records: Seq<RecordView>) -> Seq<(Seq<u8>, EntryView)> {
    records.map_values(|r: RecordView| held_entry(r)->0)
}

/// The keys and entries that a snapshot restores, if it can be read.
pub open spec fn restored(bytes: Seq<u8>) -> Option<Seq<(Seq<u8>, EntryView)>> {
    match unpacked(bytes) {
        Some(records) => if all_held(records) {
            Some(held_entries(records))
        } else {
            None
        },
        None => None,
    }
}

/// The store after entries were loaded one after the other.
pub open spec fn load_all(store: StoreView, list: Seq<(Seq<u8>, EntryView)>) -> StoreView
    decreases list.len(),
{
    if list.len() == 0 {
        store
    } else {
        load_all(store, list.drop_last()).load(list.last().0, list.last().1)
    }
}

/// The largest count that the format can express.
const MAX_COUNT: u64 = 0x7fff_ffff_ffff_ffff;

/// The bytes of an array of bulk strings, if its counts fit the format.
fn hold_items(items: &[Bytes]) -> (data: Option<Vec<u8>>)
    ensures
        data is Some <==> countable(contents(items@)),
        data matches Some(data) ==> data@ == encode_command_spec(contents(items@)),
        data matches Some(data) ==> held_items(data@) == Some(contents(items@)),
{
    if items.len() as u64 > MAX_COUNT {
        return None;
    }
    let mut i: usize = 0;
    while i < items.len()
        invariant
            i <= items@.len(),
            forall|j: int| 0 <= j < i ==> #[trigger] contents(items@)[j].len() <= i64::MAX,
        decreases items@.len() - i,
    {
        let item: &[u8] = &items[i];
        assert(contents(items@)[i as int] == item@);
        if item.len() as u64 > MAX_COUNT {
            assert(contents(items@)[i as int].len() > i64::MAX);
            return None;
        }
        i = i + 1;
    }
    let encoded = encode_command(items);
    let mut data: Vec<u8> = Vec::new();
    push_slice(&mut data, &encoded);
    proof {
        let bytes = encode_command_spec(contents(items@));
        assert(data@ =~= bytes);
        law_round_trip(contents(items@), Seq::empty());
        assert(bytes + Seq::<u8>::empty() =~= bytes);
    }
    Some(data)
}

/// A hash put back together from its fields, whatever order they come in.
proof fn lemma_fields_again(
    fields: Map<Seq<u8>, Seq<u8>>,
    list: Seq<(Seq<u8>, Seq<u8>)>,
    keys: Seq<Seq<u8>>,
)
    requires
        keys.no_duplicates(),
        list == keys.map_values(|k: Seq<u8>| (k, fields[k])),
        forall|k: Seq<u8>| #[trigger] keys.contains(k) ==> fields.contains_key(k),
    ensures
        with_fields(Map::empty(), list) == fields.restrict(keys.to_set()),
    decreases list.len(),
{
    if list.len() == 0 {
        assert(fields.restrict(keys.to_set()) =~= Map::<Seq<u8>, Seq<u8>>::empty());
    } else {
        let front = keys.drop_last();
        assert(list.drop_last() =~= front.map_values(|k: Seq<u8>| (k, fields[k])));
        assert forall|k: Seq<u8>| #[trigger] front.contains(k) implies fields.contains_key(k) by {
            assert(keys[front.index_of(k)] == k);
            assert(keys.contains(k));
        }
        lemma_fields_again(fields, list.drop_last(), front);
        assert(keys.contains(keys.last()));
        assert(front.push(keys.last()) =~= keys);
        front.lemma_push_to_set_commute(keys.last());
        assert(with_fields(Map::empty(), list) =~= fields.restrict(keys.to_set()));
    }
}

/// Listing the fields of a hash and setting them one after the other gives it
/// back.
proof fn lemma_listed_fields_again(
    fields: Map<Seq<u8>, Seq<u8>>,
    list: Seq<(Seq<u8>, Seq<u8>)>,
)
    requires
        lists_fields(fields, list),
    ensures
        with_fields(Map::empty(), list) == fields,
{
    let keys = choose|keys: Seq<Seq<u8>>|
        {
            &&& keys.no_duplicates()
            &&& #[trigger] keys.to_set() == fields.dom()
            &&& list == keys.map_values(|k: Seq<u8>| (k, fields[k]))
        };
    assert forall|k: Seq<u8>| #[trigger] keys.contains(k) implies fields.contains_key(k) by {
        assert(keys.to_set().contains(k));
    }
    lemma_fields_again(fields, list, keys);
    assert(fields.restrict(keys.to_set()) =~= fields);
}

/// Pairs made into one list and paired up again are the same pairs.
proof fn lemma_flat_paired(pairs: Seq<(Seq<u8>, Seq<u8>)>)
    ensures
        paired(flat(pairs)) == pairs,
        flat(pairs).len() == 2 * pairs.len(),
{
    assert(paired(flat(pairs)) =~= pairs);
}

/// Whether a byte string is short enough for the format.
pub open spec fn short(data: Seq<u8>) -> bool {
    data.len() <= i64::MAX
}

/// Whether the counts of a value fit the format.
pub open spec fn fits(value: ValueView) -> bool {
    match value {
        ValueView::Str(_) => true,
        ValueView::List(items) => countable(items),
        ValueView::Hash(fields) => 2 * fields.dom().len() <= i64::MAX && forall|k: Seq<u8>|
            #[trigger] fields.contains_key(k) ==> short(k) && short(fields[k]),
        ValueView::Members(members) => members.len() <= i64::MAX && forall|k: Seq<u8>|
            #[trigger] members.contains(k) ==> short(k),
        ValueView::Sorted(members) => 2 * members.dom().len() <= i64::MAX && forall|k: Seq<u8>|
            #[trigger] members.contains_key(k) ==> short(k) && short(score_text(members[k])),
    }
}

proof fn lemma_fits_sorted(
    members: Map<Seq<u8>, ScoreView>,
    list: Seq<(Seq<u8>, ScoreView)>,
)
    requires
        ranked(members, list),
    ensures
        countable(flat(rank_texts(list))) <==> fits(ValueView::Sorted(members)),
        list.len() == members.dom().len(),
{
    let keys = lemma_ranked_keys(members, list);
    let texts = rank_texts(list);
    let all = flat(texts);
    assert(all.len() == 2 * members.dom().len());
    if countable(all) {
        assert forall|k: Seq<u8>| #[trigger] members.contains_key(k) implies short(k) && short(
            score_text(members[k]),
        ) by {
            assert(keys.to_set().contains(k));
            let i = keys.index_of(k);
            assert(list[i] == (k, members[k]));
            assert(texts[i] == (k, score_text(members[k])));
            assert(2 * i % 2 == 0 && 2 * i / 2 == i);
            assert((2 * i + 1) % 2 == 1 && (2 * i + 1) / 2 == i);
            assert(all[2 * i] == k);
            assert(all[2 * i + 1] == score_text(members[k]));
        }
    }
    if fits(ValueView::Sorted(members)) {
        assert forall|i: int| 0 <= i < all.len() implies #[trigger] all[i].len() <= i64::MAX by {
            let k = keys[i / 2];
            assert(keys.to_set().contains(k));
            assert(members.contains_key(k));
            assert(list[i / 2] == (k, members[k]));
            assert(texts[i / 2] == (k, score_text(members[k])));
        }
    }
}

/// A sorted set put back together from some of its members.
proof fn lemma_scores_again(
    members: Map<Seq<u8>, ScoreView>,
    list: Seq<(ScoreView, Seq<u8>)>,
    keys: Seq<Seq<u8>>,
)
    requires
        keys.no_duplicates(),
        list == keys.map_values(|k: Seq<u8>| (members[k], k)),
        forall|k: Seq<u8>| #[trigger] keys.contains(k) ==> members.contains_key(k),
    ensures
        with_scores(Map::empty(), list) == members.restrict(keys.to_set()),
    decreases list.len(),
{
    if list.len() == 0 {
        assert(members.restrict(keys.to_set()) =~= Map::<Seq<u8>, ScoreView>::empty());
    } else {
        let front = keys.drop_last();
        assert(list.drop_last() =~= front.map_values(|k: Seq<u8>| (members[k], k)));
        assert forall|k: Seq<u8>| #[trigger] front.contains(k) implies members.contains_key(k) by {
            assert(keys[front.index_of(k)] == k);
            assert(keys.contains(k));
        }
        lemma_scores_again(members, list.drop_last(), front);
        assert(keys.contains(keys.last()));
        assert(front.push(keys.last()) =~= keys);
        front.lemma_push_to_set_commute(keys.last());
        assert(with_scores(Map::empty(), list) =~= members.restrict(keys.to_set()));
    }
}

/// The ranking of a sorted set, written as text, gives it back.
proof fn lemma_ranking_again(
    members: Map<Seq<u8>, ScoreView>,
    list: Seq<(Seq<u8>, ScoreView)>,
)
    requires
        ranked(members, list),
        forall|k: Seq<u8>| #[trigger] members.contains_key(k) ==> members[k].normal(),
    ensures
        held_scores(rank_texts(list)) matches Some(pairs) && with_scores(Map::empty(), pairs)
            == members,
{
    let keys = lemma_ranked_keys(members, list);
    let texts = rank_texts(list);
    assert forall|i: int| 0 <= i < texts.len() implies score_value((#[trigger] texts[i]).1)
        == Some(members[keys[i]]) && texts[i].0 == keys[i] by {
        assert(keys.to_set().contains(keys[i]));
        assert(members.contains_key(keys[i]));
        assert(list[i] == (keys[i], members[keys[i]]));
        law_score_text_is_read_back(members[keys[i]]);
    }
    let pairs = held_scores(texts)->0;
    assert(pairs =~= keys.map_values(|k: Seq<u8>| (members[k], k)));
    assert forall|k: Seq<u8>| #[trigger] keys.contains(k) implies members.contains_key(k) by {
        assert(keys.to_set().contains(k));
    }
    lemma_scores_again(members, pairs, keys);
    assert(members.restrict(keys.to_set()) =~= members);
}

proof fn lemma_fits_hash(fields: Map<Seq<u8>, Seq<u8>>, list: Seq<(Seq<u8>, Seq<u8>)>)
    requires
        lists_fields(fields, list),
    ensures
        countable(flat(list)) <==> fits(ValueView::Hash(fields)),
        list.len() == fields.dom().len(),
{
    let keys = choose|keys: Seq<Seq<u8>>|
        {
            &&& keys.no_duplicates()
            &&& #[trigger] keys.to_set() == fields.dom()
            &&& list == keys.map_values(|k: Seq<u8>| (k, fields[k]))
        };
    keys.unique_seq_to_set();
    let all = flat(list);
    assert(all.len() == 2 * fields.dom().len());
    if countable(all) {
        assert forall|k: Seq<u8>| #[trigger] fields.contains_key(k) implies short(k) && short(
            fields[k],
        ) by {
            assert(keys.to_set().contains(k));
            let i = keys.index_of(k);
            assert(list[i] == (k, fields[k]));
            assert(2 * i % 2 == 0 && 2 * i / 2 == i);
            assert((2 * i + 1) % 2 == 1 && (2 * i + 1) / 2 == i);
            assert(all[2 * i] == k);
            assert(all[2 * i + 1] == fields[k]);
        }
    }
    if fits(ValueView::Hash(fields)) {
        assert forall|i: int| 0 <= i < all.len() implies #[trigger] all[i].len() <= i64::MAX by {
            let k = keys[i / 2];
            assert(keys.to_set().contains(k));
            assert(fields.contains_key(k));
            assert(list[i / 2] == (k, fields[k]));
        }
    }
}

proof fn lemma_fits_members(members: Set<Seq<u8>>, list: Seq<Seq<u8>>)
    requires
        lists_members(members, list),
    ensures
        countable(list) <==> fits(ValueView::Members(members)),
        list.len() == members.len(),
{
    list.unique_seq_to_set();
    if countable(list) {
        assert forall|k: Seq<u8>| #[trigger] members.contains(k) implies short(k) by {
            assert(list.to_set().contains(k));
            assert(list[list.index_of(k)] == k);
        }
    }
    if fits(ValueView::Members(members)) {
        assert forall|i: int| 0 <= i < list.len() implies #[trigger] list[i].len() <= i64::MAX by {
            assert(list.to_set().contains(list[i]));
            assert(members.contains(list[i]));
        }
    }
}

/// Kind of a value and the bytes that it is held as, if its counts fit.
fn hold_value(value: &Value) -> (held: Option<(u32, Vec<u8>)>)
    requires
        value.wf(),
        !value@.is_hollow(),
    ensures
        held is Some <==> fits(value@),
        held matches Some((kind, data)) ==> held_value(kind, data@) == Some(value@),
        held matches Some((kind, data)) ==> written_value(value@, kind, data@),
{
    match value {
        Value::Str(data) => {
            let mut copy: Vec<u8> = Vec::new();
            push_slice(&mut copy, data);
            assert(copy@ =~= content(*data));
            Some((KIND_STRING, copy))
        },
        Value::List(_) => match value.item_range(0, -1) {
            Some(list) => {
                assert(contents(list@) =~= value@->List_0);
                match hold_items(&list) {
                    Some(data) => Some((KIND_LIST, data)),
                    None => None,
                }
            },
            None => None,
        },
        Value::Hash(_) => match value.all_fields() {
            Some(pairs) => {
                proof {
                    let fields = value@->Hash_0;
                    let list = pair_contents(pairs@);
                    lemma_fits_hash(fields, list);
                    lemma_listed_fields_again(fields, list);
                    lemma_flat_paired(list);
                    if list.len() == 0 {
                        assert(with_fields(Map::empty(), list).dom() =~= Set::<Seq<u8>>::empty());
                    }
                }
                let list = flatten(pairs);
                match hold_items(&list) {
                    Some(data) => Some((KIND_HASH, data)),
                    None => None,
                }
            },
            None => None,
        },
        Value::Members(_) => match value.all_members() {
            Some(list) => {
                proof {
                    let members = value@->Members_0;
                    lemma_fits_members(members, contents(list@));
                    if list@.len() == 0 {
                        assert(contents(list@).to_set() =~= Set::<Seq<u8>>::empty());
                    }
                }
                match hold_items(&list) {
                    Some(data) => Some((KIND_SET, data)),
                    None => None,
                }
            },
            None => None,
        },
        Value::Sorted(members) => match value.all_ranked() {
            Some(list) => {
                let ghost all = value@->Sorted_0;
                let ghost views = rank_views(list@);
                proof {
                    assert forall|k: Seq<u8>| #[trigger] all.contains_key(
                        k,
                    ) implies all[k].normal() by {
                        assert(members@.contains_key(k));
                    }
                    lemma_fits_sorted(all, views);
                    lemma_ranking_again(all, views);
                    lemma_flat_paired(rank_texts(views));
                    if views.len() == 0 {
                        let keys = lemma_ranked_keys(all, views);
                        assert(keys.to_set() =~= Set::<Seq<u8>>::empty());
                    }
                }
                let items = flatten(rank_pairs(&list));
                match hold_items(&items) {
                    Some(data) => Some((KIND_SORTED, data)),
                    None => None,
                }
            },
            None => None,
        },
    }
}

/// The scores and members of a sorted set that is held as members with scores as
/// text, if all of those can be read.
fn read_scores(pairs: &[(Bytes, Bytes)]) -> (list: Option<Vec<(Score, Bytes)>>)
    ensures
        match list {
            Some(list) => held_scores(pair_contents(pairs@)) == Some(score_pairs(list@))
                && forall|i: int| 0 <= i < list@.len() ==> (#[trigger] list@[i]).0@.normal(),
            None => held_scores(pair_contents(pairs@)) is None,
        },
{
    let mut list: Vec<(Score, Bytes)> = Vec::new();
    let mut i: usize = 0;
    let ghost all = pair_contents(pairs@);
    while i < pairs.len()
        invariant
            i <= pairs@.len(),
            all == pair_contents(pairs@),
            list@.len() == i,
            forall|j: int| 0 <= j < i ==> (#[trigger] list@[j]).0@.normal(),
            forall|j: int|
                0 <= j < i ==> score_value((#[trigger] all[j]).1) == Some(score_pairs(list@)[j].0)
                    && score_pairs(list@)[j].1 == all[j].0,
        decreases pairs@.len() - i,
    {
        assert(all[i as int] == (content(pairs@[i as int].0), content(pairs@[i as int].1)));
        match Score::read(&pairs[i].1) {
            Some(score) => {
                let ghost was = list@;
                list.push((score, pairs[i].0.clone()));
                proof {
                    assert forall|j: int| 0 <= j < i implies #[trigger] score_pairs(list@)[j]
                        == score_pairs(was)[j] by {}
                }
            },
            None => {
                assert(score_value(all[i as int].1) is None);
                return None;
            },
        }
        i = i + 1;
    }
    assert(score_pairs(list@) =~= held_scores(all)->0);
    Some(list)
}

/// The value that a record of the given kind holds, if it holds one.
fn take_value(kind: u32, data: Vec<u8>) -> (value: Option<Value>)
    ensures
        match value {
            Some(v) => v.wf() && !v@.is_hollow() && held_value(kind, data@) == Some(v@),
            None => held_value(kind, data@) is None,
        },
{
    if kind == KIND_STRING {
        return Some(Value::Str(from_vec(data)));
    }
    let items: Vec<Bytes> = match read_frame(&data) {
        Ok(Some((items, used))) => {
            if used != data.len() {
                return None;
            }
            items
        },
        _ => {
            return None;
        },
    };
    if items.len() == 0 {
        return None;
    }
    let ghost all = contents(items@);
    if kind == KIND_LIST {
        let empty: VecDeque<Bytes> = VecDeque::new();
        assert(contents(empty@) + all =~= all);
        let mut value = Value::List(empty);
        value.push_items(&items, false);
        Some(value)
    } else if kind == KIND_HASH && items.len() % 2 == 0 {
        let empty: ByteMap<Bytes> = ByteMap::new();
        assert(fields_of(empty) =~= Map::<Seq<u8>, Seq<u8>>::empty());
        let mut value = Value::Hash(empty);
        let pairs = pair_up(&items, 0);
        value.set_fields(&pairs);
        proof {
            assert(all.skip(0) =~= all);
            let list = paired(all);
            assert(list.len() > 0);
            assert(with_fields(Map::empty(), list).dom().contains(list.last().0));
        }
        Some(value)
    } else if kind == KIND_SET {
        let empty: ByteMap<()> = ByteMap::new();
        assert(empty@.dom() =~= Set::<Seq<u8>>::empty());
        let mut value = Value::Members(empty);
        value.add_members(&items);
        proof {
            assert(all.to_set().contains(all[0]));
            assert(Set::<Seq<u8>>::empty().union(all.to_set()) =~= all.to_set());
        }
        Some(value)
    } else if kind == KIND_SORTED && items.len() % 2 == 0 {
        let pairs = pair_up(&items, 0);
        assert(all.skip(0) =~= all);
        match read_scores(&pairs) {
            Some(list) => {
                let empty: ByteMap<Score> = ByteMap::new();
                assert(scores_of(empty) =~= Map::<Seq<u8>, ScoreView>::empty());
                let mut value = Value::Sorted(empty);
                value.set_scores(&list);
                proof {
                    let views = score_pairs(list@);
                    assert(views.len() > 0);
                    assert(with_scores(Map::empty(), views).dom().contains(views.last().1));
                }
                Some(value)
            },
            None => None,
        }
    } else {
        None
    }
}

/// The records of a snapshot of the given entries.
pub fn encode_records(list: &Vec<(Bytes, Entry)>) -> (result: Result<Vec<Record>, SnapshotError>)
    requires
        all_wf(list@),
    ensures
        result is Ok <==> forall|i: int|
            0 <= i < list@.len() ==> fits((#[trigger] list@[i]).1.value@),
        match result {
            Ok(records) => all_held(record_views(records@)) && held_entries(
                record_views(records@),
            ) == pairs_of(list@) && written_entries(pairs_of(list@), record_views(records@)),
            Err(e) => e is TooLarge,
        },
{
    let mut records: Vec<Record> = Vec::new();
    let mut i: usize = 0;
    while i < list.len()
        invariant
            i <= list@.len(),
            all_wf(list@),
            records@.len() == i,
            forall|j: int| 0 <= j < i ==> fits((#[trigger] list@[j]).1.value@),
            forall|j: int|
                0 <= j < i ==> held_entry(#[trigger] record_views(records@)[j]) == Some(
                    pairs_of(list@)[j],
                ),
            forall|j: int|
                0 <= j < i ==> written_entry(
                    pairs_of(list@)[j],
                    #[trigger] record_views(records@)[j],
                ),
        decreases list@.len() - i,
    {
        let (key, entry) = &list[i];
        assert(list@[i as int].1.wf());
        match hold_value(&entry.value) {
            Some((kind, data)) => {
                let mut name: Vec<u8> = Vec::new();
                push_slice(&mut name, key);
                assert(name@ =~= content(*key));
                let ghost was = records@;
                records.push((name, kind, data, entry.expires_at_ms, entry.last_access));
                proof {
                    assert(record_views(records@) =~= record_views(was).push(
                        (name@, kind, data@, entry.expires_at_ms, entry.last_access),
                    ));
                    assert(pairs_of(list@)[i as int] == (content(*key), entry@));
                }
            },
            None => {
                assert(!fits(list@[i as int].1.value@));
                return Err(SnapshotError::TooLarge);
            },
        }
        i = i + 1;
    }
    assert(held_entries(record_views(records@)) =~= pairs_of(list@));
    Ok(records)
}

/// The entries that the records of a snapshot hold.
pub fn decode_records(records: Vec<Record>) -> (result: Result<
    Vec<(Bytes, Entry)>,
    SnapshotError,
>)
    ensures
        match result {
            Ok(list) => all_held(record_views(records@)) && all_wf(list@) && pairs_of(list@)
                == held_entries(record_views(records@)),
            Err(e) => e is BadRecord && !all_held(record_views(records@)),
        },
{
    let mut list: Vec<(Bytes, Entry)> = Vec::new();
    let ghost views = record_views(records@);
    let mut i: usize = 0;
    while i < records.len()
        invariant
            i <= records@.len(),
            views == record_views(records@),
            all_wf(list@),
            list@.len() == i,
            forall|j: int|
                0 <= j < i ==> held_entry(#[trigger] views[j]) == Some(pairs_of(list@)[j]),
        decreases records@.len() - i,
    {
        let record = &records[i];
        let mut key: Vec<u8> = Vec::new();
        push_slice(&mut key, &record.0);
        assert(key@ =~= record.0@);
        let mut data: Vec<u8> = Vec::new();
        push_slice(&mut data, &record.2);
        assert(data@ =~= record.2@);
        match take_value(record.1, data) {
            Some(value) => {
                let entry = Entry { value, expires_at_ms: record.3, last_access: record.4 };
                let ghost was = list@;
                let ghost pair = (key@, entry@);
                list.push((from_vec(key), entry));
                proof {
                    assert(pairs_of(list@) =~= pairs_of(was).push(pair));
                    assert(views[i as int] == (
                        record.0@,
                        record.1,
                        record.2@,
                        record.3,
                        record.4,
                    ));
                }
            },
            None => {
                assert(held_entry(views[i as int]) is None);
                return Err(SnapshotError::BadRecord);
            },
        }
        i = i + 1;
    }
    assert(pairs_of(list@) =~= held_entries(views));
    Ok(list)
}

/// The bytes of a snapshot of the given entries, from which they can be
/// restored.
pub fn pack_entries(list: &Vec<(Bytes, Entry)>) -> (result: Result<Vec<u8>, SnapshotError>)
    requires
        all_wf(list@),
    ensures
        result is Ok <==> forall|i: int|
            0 <= i < list@.len() ==> fits((#[trigger] list@[i]).1.value@),
        match result {
            Ok(bytes) => written(pairs_of(list@), bytes@) && restored(bytes@) == Some(
                pairs_of(list@),
            ),
            Err(e) => e is TooLarge,
        },
{
    match encode_records(list) {
        Ok(records) => match pack(&records) {
            Ok(bytes) => Ok(bytes),
            Err(e) => Err(SnapshotError::Pack(reason(&e))),
        },
        Err(e) => Err(e),
    }
}

/// Whether an error says why bytes restore nothing: they cannot be unpacked, or
/// one of the records holds no value.
pub open spec fn says_why(error: SnapshotError, bytes: Seq<u8>) -> bool {
    if unpacked(bytes) is None {
        error is Unpack
    } else {
        error is BadRecord
    }
}

/// The entries that the bytes of a snapshot restore.
pub fn unpack_entries(bytes: &[u8]) -> (result: Result<Vec<(Bytes, Entry)>, SnapshotError>)
    ensures
        match result {
            Ok(list) => all_wf(list@) && restored(bytes@) == Some(pairs_of(list@)),
            Err(e) => restored(bytes@) is None && says_why(e, bytes@),
        },
{
    match unpack(bytes) {
        Ok(records) => decode_records(records),
        Err(e) => Err(SnapshotError::Unpack(reason(&e))),
    }
}

/// Whether the counts of everything that is live at the time `now` fit the
/// format.
pub open spec fn all_fit(store: StoreView, now: u64) -> bool {
    forall|k: Seq<u8>| #[trigger] store.holds(k, now) ==> fits(store.entry(k).value)
}

/// The bytes of a snapshot of everything that is live at the time `now`.
pub fn save_at(store: &Store, now: u64) -> (result: Result<Vec<u8>, SnapshotError>)
    requires
        store.wf(),
    ensures
        match result {
            Ok(bytes) => restored(bytes@) matches Some(list) && store@.lists_live(list, now)
                && written(list, bytes@),
            Err(e) => e is TooLarge,
        },
        result is Ok <==> all_fit(store@, now),
{
    let list = store.snapshot_all_locked_at(now);
    proof {
        let keys = store@.lemma_lists_live(pairs_of(list@), now);
        if all_fit(store@, now) {
            assert forall|i: int| 0 <= i < list@.len() implies fits(
                (#[trigger] list@[i]).1.value@,
            ) by {
                assert(pairs_of(list@)[i] == (keys[i], store@.entry(keys[i])));
                assert(keys.contains(keys[i]));
                assert(store@.holds(keys[i], now));
            }
        } else {
            let k = choose|k: Seq<u8>| #[trigger]
                store@.holds(k, now) && !fits(store@.entry(k).value);
            assert(keys.contains(k));
            let i = keys.index_of(k);
            assert(pairs_of(list@)[i] == (keys[i], store@.entry(keys[i])));
            assert(!fits(list@[i].1.value@));
        }
    }
    pack_entries(&list)
}

/// The bytes of a snapshot of everything that is live by the system clock.
pub fn save(store: &Store) -> (result: Result<Vec<u8>, SnapshotError>)
    requires
        store.wf(),
    ensures
        match result {
            Ok(bytes) => restored(bytes@) matches Some(list) && written(list, bytes@)
                && exists|now: u64| #[trigger]
                store@.lists_live(list, now) && all_fit(store@, now),
            Err(e) => e is TooLarge && exists|now: u64| !#[trigger] all_fit(store@, now),
        },
        (forall|now: u64| #[trigger] all_fit(store@, now)) ==> result is Ok,
        (forall|now: u64| !#[trigger] all_fit(store@, now)) ==> result is Err,
{
    let now: u64 = now_ms();
    save_at(store, now)
}

/// Loads entries one after the other.
pub fn load_entries(store: &mut Store, list: Vec<(Bytes, Entry)>)
    requires
        old(store).wf(),
        all_wf(list@),
    ensures
        final(store).wf(),
        final(store)@ == load_all(old(store)@, pairs_of(list@)),
{
    let ghost all = pairs_of(list@);
    let mut i: usize = 0;
    assert(all.take(0) =~= Seq::<(Seq<u8>, EntryView)>::empty());
    while i < list.len()
        invariant
            i <= list@.len(),
            store.wf(),
            all_wf(list@),
            all == pairs_of(list@),
            store@ == load_all(old(store)@, all.take(i as int)),
        decreases list@.len() - i,
    {
        let (key, entry) = &list[i];
        assert(list@[i as int].1.wf());
        store.load_entry(key.clone(), entry.duplicate());
        proof {
            assert(all.take(i + 1).drop_last() =~= all.take(i as int));
            assert(all.take(i + 1).last() == all[i as int]);
        }
        i = i + 1;
    }
    assert(all.take(all.len() as int) =~= all);
}

/// Loads the entries that the bytes of a snapshot hold. Returns how many there
/// are. A snapshot that cannot be read leaves the store as it is.
pub fn load(store: &mut Store, bytes: &[u8]) -> (result: Result<usize, SnapshotError>)
    requires
        old(store).wf(),
    ensures
        final(store).wf(),
        match restored(bytes@) {
            Some(list) => final(store)@ == load_all(old(store)@, list) && (result matches Ok(n)
                && n == list.len()),
            None => final(store)@ == old(store)@ && (result matches Err(e) && says_why(e, bytes@)),
        },
{
    match unpack_entries(bytes) {
        Ok(list) => {
            let n: usize = list.len();
            load_entries(store, list);
            Ok(n)
        },
        Err(e) => Err(e),
    }
}

/// Puts the entries that the bytes of a snapshot hold in place of everything
/// that the store has. Returns how many there are. A snapshot that cannot be
/// read leaves the store as it is.
pub fn resync(store: &mut Store, bytes: &[u8]) -> (result: Result<usize, SnapshotError>)
    requires
        old(store).wf(),
    ensures
        final(store).wf(),
        match restored(bytes@) {
            Some(list) => final(store)@ == load_all(old(store)@.flushed(), list) && (
            result matches Ok(n) && n == list.len()),
            None => final(store)@ == old(store)@ && (result matches Err(e) && says_why(e, bytes@)),
        },
{
    match unpack_entries(bytes) {
        Ok(list) => {
            let n: usize = list.len();
            store.flush_all();
            load_entries(store, list);
            Ok(n)
        },
        Err(e) => Err(e),
    }
}

} // verus!
