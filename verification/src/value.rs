//! What the keys of the keyspace hold: values with expiry times.

use bytes::Bytes;
use std::collections::VecDeque;
use vstd::prelude::*;
use vstd::string::*;

use crate::buf::{content, contents};
use crate::bytemap::ByteMap;
use crate::score::{Score, ScoreView};

verus! {

broadcast use crate::buf::lemma_contents_push;

/// What a key can hold.
#[derive(Debug, Clone)]
pub enum Value {
    Str(Bytes),
    List(VecDeque<Bytes>),
    Hash(ByteMap<Bytes>),
    Members(ByteMap<()>),
    Sorted(ByteMap<Score>),
}

/// What a [`Value`] holds.
#[verifier::ext_equal]
pub enum ValueView {
    Str(Seq<u8>),
    List(Seq<Seq<u8>>),
    Hash(Map<Seq<u8>, Seq<u8>>),
    Members(Set<Seq<u8>>),
    Sorted(Map<Seq<u8>, ScoreView>),
}

impl ValueView {
    /// Whether the value is a collection without elements.
    pub open spec fn is_hollow(self) -> bool {
        match self {
            ValueView::Str(_) => false,
            ValueView::List(items) => items.len() == 0,
            ValueView::Hash(fields) => fields.dom() =~= Set::empty(),
            ValueView::Members(members) => members =~= Set::empty(),
            ValueView::Sorted(members) => members.dom() =~= Set::empty(),
        }
    }

    /// What kind of value it is.
    pub open spec fn kind(self) -> Seq<char> {
        match self {
            ValueView::Str(_) => "string"@,
            ValueView::List(_) => "list"@,
            ValueView::Hash(_) => "hash"@,
            ValueView::Members(_) => "set"@,
            ValueView::Sorted(_) => "zset"@,
        }
    }
}

/// The fields of a hash.
pub open spec fn fields_of(map: ByteMap<Bytes>) -> Map<Seq<u8>, Seq<u8>> {
    map@.map_values(|b: Bytes| content(b))
}

/// The members of a sorted set, with their scores.
pub open spec fn scores_of(map: ByteMap<Score>) -> Map<Seq<u8>, ScoreView> {
    map@.map_values(|s: Score| s@)
}

/// Whether every score of a sorted set is in normal form.
pub open spec fn all_normal(map: ByteMap<Score>) -> bool {
    forall|k: Seq<u8>| #[trigger] map@.contains_key(k) ==> map@[k]@.normal()
}

impl Value {
    /// What the value holds.
    pub open spec fn view(&self) -> ValueView {
        match *self {
            Value::Str(data) => ValueView::Str(content(data)),
            Value::List(items) => ValueView::List(contents(items@)),
            Value::Hash(fields) => ValueView::Hash(fields_of(fields)),
            Value::Members(members) => ValueView::Members(members@.dom()),
            Value::Sorted(members) => ValueView::Sorted(scores_of(members)),
        }
    }

    /// The invariant of the maps inside, and of scores.
    pub open spec fn wf(&self) -> bool {
        match *self {
            Value::Hash(fields) => fields.wf(),
            Value::Members(members) => members.wf(),
            Value::Sorted(members) => members.wf() && all_normal(members),
            _ => true,
        }
    }

    /// What kind of value it is.
    pub fn kind(&self) -> (name: &'static str)
        ensures
            name@ == self@.kind(),
    {
        match self {
            Value::Str(_) => "string",
            Value::List(_) => "list",
            Value::Hash(_) => "hash",
            Value::Members(_) => "set",
            Value::Sorted(_) => "zset",
        }
    }

    /// A copy of the value.
    pub fn duplicate(&self) -> (copy: Value)
        requires
            self.wf(),
        ensures
            copy.wf(),
            copy@ == self@,
    {
        match self {
            Value::Str(data) => Value::Str(data.clone()),
            Value::List(items) => {
                let mut copy: VecDeque<Bytes> = VecDeque::new();
                let mut i: usize = 0;
                while i < items.len()
                    invariant
                        i <= items@.len(),
                        contents(copy@) =~= contents(items@).take(i as int),
                    decreases items@.len() - i,
                {
                    copy.push_back(items[i].clone());
                    assert(contents(items@)[i as int] == content(items@[i as int]));
                    i = i + 1;
                }
                assert(contents(copy@) =~= contents(items@));
                Value::List(copy)
            },
            Value::Hash(fields) => {
                let mut copy: ByteMap<Bytes> = ByteMap::new();
                let mut i: usize = 0;
                let n: usize = fields.len();
                proof {
                    fields.lemma_keys();
                    assert(fields_of(copy) =~= fields_of(*fields).restrict(
                        fields.keys().take(0).to_set(),
                    ));
                }
                while i < n
                    invariant
                        fields.wf(),
                        copy.wf(),
                        n == fields.keys().len(),
                        n == fields.values().len(),
                        i <= n,
                        fields_of(copy) == fields_of(*fields).restrict(
                            fields.keys().take(i as int).to_set(),
                        ),
                    decreases n - i,
                {
                    let ghost was = copy;
                    let ghost key = fields.keys()[i as int];
                    proof {
                        fields.lemma_entry(i as int);
                    }
                    copy.insert(fields.key_at(i).clone(), fields.value_at(i).clone());
                    proof {
                        let seen = fields.keys().take(i as int);
                        assert(fields.keys().take(i + 1) =~= seen.push(key));
                        seen.lemma_push_to_set_commute(key);
                        assert(fields_of(copy) =~= fields_of(was).insert(
                            key,
                            fields_of(*fields)[key],
                        ));
                        assert(fields_of(copy) =~= fields_of(*fields).restrict(
                            seen.to_set().insert(key),
                        ));
                    }
                    i = i + 1;
                }
                proof {
                    fields.lemma_keys();
                    assert(fields.keys().take(n as int) =~= fields.keys());
                    assert(fields_of(copy) =~= fields_of(*fields));
                }
                Value::Hash(copy)
            },
            Value::Members(members) => {
                let mut copy: ByteMap<()> = ByteMap::new();
                let mut i: usize = 0;
                let n: usize = members.len();
                assert(copy@.dom() =~= members.keys().take(0).to_set());
                while i < n
                    invariant
                        members.wf(),
                        copy.wf(),
                        n == members.keys().len(),
                        i <= n,
                        copy@.dom() == members.keys().take(i as int).to_set(),
                    decreases n - i,
                {
                    let ghost was = copy;
                    let ghost key = members.keys()[i as int];
                    copy.insert(members.key_at(i).clone(), ());
                    proof {
                        let seen = members.keys().take(i as int);
                        assert(members.keys().take(i + 1) =~= seen.push(key));
                        seen.lemma_push_to_set_commute(key);
                        assert(copy@.dom() =~= was@.dom().insert(key));
                    }
                    i = i + 1;
                }
                proof {
                    members.lemma_keys();
                    assert(members.keys().take(n as int) =~= members.keys());
                }
                Value::Members(copy)
            },
            Value::Sorted(members) => {
                let mut copy: ByteMap<Score> = ByteMap::new();
                let mut i: usize = 0;
                let n: usize = members.len();
                proof {
                    members.lemma_keys();
                    assert(scores_of(copy) =~= scores_of(*members).restrict(
                        members.keys().take(0).to_set(),
                    ));
                }
                while i < n
                    invariant
                        members.wf(),
                        all_normal(*members),
                        copy.wf(),
                        all_normal(copy),
                        n == members.keys().len(),
                        n == members.values().len(),
                        i <= n,
                        scores_of(copy) == scores_of(*members).restrict(
                            members.keys().take(i as int).to_set(),
                        ),
                    decreases n - i,
                {
                    let ghost was = copy;
                    let ghost key = members.keys()[i as int];
                    proof {
                        members.lemma_entry(i as int);
                    }
                    copy.insert(members.key_at(i).clone(), members.value_at(i).duplicate());
                    proof {
                        let seen = members.keys().take(i as int);
                        assert(members.keys().take(i + 1) =~= seen.push(key));
                        seen.lemma_push_to_set_commute(key);
                        assert(scores_of(copy) =~= scores_of(was).insert(
                            key,
                            scores_of(*members)[key],
                        ));
                        assert(scores_of(copy) =~= scores_of(*members).restrict(
                            seen.to_set().insert(key),
                        ));
                    }
                    i = i + 1;
                }
                proof {
                    members.lemma_keys();
                    assert(members.keys().take(n as int) =~= members.keys());
                    assert(scores_of(copy) =~= scores_of(*members));
                }
                Value::Sorted(copy)
            },
        }
    }
}

/// A value in the keyspace, with its expiry time and when it was last used.
#[derive(Debug, Clone)]
pub struct Entry {
    pub value: Value,
    pub expires_at_ms: Option<u64>,
    /// When the entry was last used, on the clock of its shard.
    pub last_access: u64,
}

/// What an [`Entry`] holds.
#[verifier::ext_equal]
pub struct EntryView {
    pub value: ValueView,
    pub expires_at_ms: Option<u64>,
    pub last_access: u64,
}

impl EntryView {
    /// Whether the expiry time has come.
    pub open spec fn expired(self, now: u64) -> bool {
        self.expires_at_ms matches Some(at) && at <= now
    }

    /// The entry, used at `clock`.
    pub open spec fn used_at(self, clock: u64) -> EntryView {
        EntryView { last_access: clock, ..self }
    }
}

impl Entry {
    /// What the entry holds.
    pub open spec fn view(&self) -> EntryView {
        EntryView {
            value: self.value@,
            expires_at_ms: self.expires_at_ms,
            last_access: self.last_access,
        }
    }

    /// The value's invariant; a collection without elements is never kept.
    pub open spec fn wf(&self) -> bool {
        self.value.wf() && !self.value@.is_hollow()
    }

    /// A copy of the entry.
    pub fn duplicate(&self) -> (copy: Entry)
        requires
            self.wf(),
        ensures
            copy.wf(),
            copy@ == self@,
    {
        Entry {
            value: self.value.duplicate(),
            expires_at_ms: self.expires_at_ms,
            last_access: self.last_access,
        }
    }
}

} // verus!
