//! The keyspace: expiry, eviction and what the store offers its callers.

use bytes::Bytes;
use imcache::bytemap::ByteMap;
use imcache::commands::parse_at;
use imcache::execute::execute_at;
use imcache::pubsub::PubSub;
use imcache::shard::{is_expired, now_ms, time_of, Shard};
use imcache::store::{Store, NUM_SHARDS};
use imcache::value::{Entry, Value};
use std::collections::VecDeque;

fn text(s: &str) -> Value {
    Value::Str(Bytes::copy_from_slice(s.as_bytes()))
}

fn key(s: &str) -> Bytes {
    Bytes::copy_from_slice(s.as_bytes())
}

fn string_of(value: Option<Value>) -> Option<String> {
    match value {
        Some(Value::Str(b)) => Some(String::from_utf8(b.to_vec()).unwrap()),
        Some(_) => panic!("not a string"),
        None => None,
    }
}

#[test]
fn lru_eviction_bounds_shard_size() {
    let mut store = Store::new(Some(1));
    for i in 0..200 {
        store.set(key(&format!("key-{i}")), text("v"), None, false, false);
    }
    let mut present = 0;
    for i in 0..200 {
        present += store.count_existing(&[key(&format!("key-{i}"))]);
    }
    assert!(
        present <= 16,
        "expected eviction to bound resident keys, found {present}"
    );
    assert!(present > 0, "expected at least some keys to remain");
}

#[test]
fn eviction_takes_the_least_recently_used() {
    let mut shard = Shard::new();
    for name in ["a", "b", "c"] {
        shard.set_at(key(name), text(name), None, false, false, None, 0);
    }
    shard.get_at(b"a", 0);
    shard.evict_one();
    assert_eq!(shard.len(), 2);
    assert!(shard.get_at(b"b", 0).is_none());
    assert!(shard.get_at(b"a", 0).is_some());
    shard.set_at(key("d"), text("d"), None, false, false, Some(2), 0);
    assert_eq!(shard.len(), 2);
    assert!(shard.get_at(b"c", 0).is_none());
    shard.evict_one();
    shard.evict_one();
    shard.evict_one();
    assert_eq!(shard.len(), 0);
}

#[test]
fn eviction_looks_at_a_window_of_five() {
    let mut shard = Shard::new();
    for i in 0..8 {
        shard.set_at(key(&format!("k{i}")), text("v"), None, false, false, None, 0);
    }
    shard.evict_one_from(2, None);
    assert!(shard.get_at(b"k2", 0).is_none());
    assert!(shard.get_at(b"k0", 0).is_some());
    assert_eq!(shard.len(), 7);
}

#[test]
fn keys_expire_when_their_time_comes() {
    let mut store = Store::new(None);
    store.set_at(key("k"), text("v"), Some(100), false, false, 0);
    assert_eq!(string_of(store.get_at(b"k", 99)), Some("v".to_string()));
    assert_eq!(store.ttl_ms_at(b"k", 40), Some(Some(60)));
    assert_eq!(string_of(store.get_at(b"k", 100)), None);
    assert_eq!(store.ttl_ms_at(b"k", 40), None);
}

#[test]
fn store_offers_expiry_commands() {
    let mut store = Store::new(None);
    assert!(!store.expire_at(b"k", 10, 0));
    store.set_at(key("k"), text("v"), None, false, false, 0);
    assert_eq!(store.ttl_ms_at(b"k", 0), Some(None));
    assert!(store.expire_at(b"k", 10, 0));
    assert_eq!(store.ttl_ms_at(b"k", 4), Some(Some(6)));
    assert!(store.persist_at(b"k", 4));
    assert!(!store.persist_at(b"k", 4));
    assert!(store.expire_at(b"k", 3, 4));
    assert_eq!(store.count_existing_at(&[key("k")], 4), 0);
}

#[test]
fn clock_readings_stand_for_times() {
    assert_eq!(time_of(None), 0);
    assert_eq!(time_of(Some(1_700_000_000_123)), 1_700_000_000_123);
    assert_eq!(time_of(Some(u64::MAX as u128)), u64::MAX);
    assert_eq!(time_of(Some(u64::MAX as u128 + 6)), 5);
}

#[test]
fn store_by_the_system_clock() {
    let mut store = Store::new(None);
    let now = now_ms();
    assert!(now > 1_600_000_000_000);
    assert!(store.set(key("k"), text("v"), None, false, false));
    assert!(!store.set(key("k"), text("w"), None, true, false));
    assert_eq!(string_of(store.get(b"k")), Some("v".to_string()));
    assert_eq!(store.key_type(b"k"), Some("string"));
    assert_eq!(store.key_type(b"x"), None);
    assert!(store.expire(b"k", (now + 100_000) as i64));
    let left = store.ttl_ms(b"k").unwrap().unwrap();
    assert!(left > 0 && left <= 100_000);
    assert!(store.persist(b"k"));
    assert_eq!(store.del(&[key("k"), key("k")]), 1);
    store.active_expire_cycle();
    assert_eq!(store.num_shards(), NUM_SHARDS);
}

#[test]
fn shard_of_a_key_is_its_hash_modulo_sixteen() {
    assert_eq!(Store::shard_index(b""), 0xcbf29ce484222325u64 as usize % 16);
    assert_eq!(Store::shard_index(b"a"), 0xaf63dc4c8601ec8cu64 as usize % 16);
    assert_eq!(
        Store::shard_index(b"foobar"),
        0x85944171f73967e8u64 as usize % 16
    );
}

#[test]
fn with_entry_mut_changes_in_place() {
    let mut store = Store::new(None);
    let len = store.with_entry_mut(
        &key("k"),
        || text("ab"),
        |v| {
            if let Value::Str(b) = v {
                let mut joined = b.to_vec();
                joined.push(b'c');
                *b = Bytes::from(joined);
                b.len()
            } else {
                0
            }
        },
    );
    assert_eq!(len, 3);
    assert_eq!(string_of(store.get(b"k")), Some("abc".to_string()));
    let kept = store.with_entry_mut(&key("k"), || text("unused"), |_| 7);
    assert_eq!(kept, 7);
    assert_eq!(string_of(store.get(b"k")), Some("abc".to_string()));
}

#[test]
fn flush_all_removes_every_key() {
    let mut store = Store::new(None);
    for i in 0..100 {
        store.set_at(key(&format!("{i}")), text("v"), None, false, false, 0);
    }
    store.flush_all();
    assert_eq!(store.snapshot_all_locked_at(0).len(), 0);
}

#[test]
fn snapshot_lists_live_entries_once() {
    let mut store = Store::new(None);
    for i in 0..50 {
        let expires = if i % 2 == 0 { None } else { Some(10) };
        store.set_at(key(&format!("{i}")), text("v"), expires, false, false, 0);
    }
    let mut keys: Vec<Bytes> = store
        .snapshot_all_locked_at(10)
        .into_iter()
        .map(|(k, _)| k)
        .collect();
    keys.sort();
    keys.dedup();
    assert_eq!(keys.len(), 25);
    assert_eq!(store.snapshot_all_locked_at(9).len(), 50);
    assert_eq!(store.snapshot_all_locked().len(), 25);
    let mut seen = 0;
    store.for_each_live_entry_at(|_, entry| seen += entry.last_access.min(1), 9);
    assert_eq!(seen, 50);
    let mut names: Vec<Bytes> = Vec::new();
    store.for_each_live_entry(|k, _| names.push(k.clone()));
    names.sort();
    assert_eq!(names, keys);
}

#[test]
fn loaded_entries_keep_expiry_and_last_use() {
    let mut store = Store::new(None);
    let entry = Entry {
        value: text("v"),
        expires_at_ms: Some(100),
        last_access: 77,
    };
    assert!(!is_expired(&entry, 99));
    assert!(is_expired(&entry, 100));
    store.load_entry(key("k"), entry);
    let list = store.snapshot_all_locked_at(0);
    assert_eq!(list[0].1.last_access, 77);
    assert_eq!(store.ttl_ms_at(b"k", 1), Some(Some(99)));
}

#[test]
fn active_expiry_removes_expired_keys_only() {
    let mut store = Store::new(None);
    for i in 0..100 {
        let expires = if i % 2 == 0 { None } else { Some(10) };
        store.set_at(key(&format!("{i}")), text("v"), expires, false, false, 0);
    }
    for _ in 0..10 {
        store.active_expire_cycle_at(10);
    }
    assert_eq!(store.snapshot_all_locked_at(0).len(), 50);
    assert_eq!(store.snapshot_all_locked_at(10).len(), 50);
}

#[test]
fn active_expiry_looks_at_twenty_entries_a_round() {
    let mut shard = Shard::new();
    for i in 0..30 {
        shard.set_at(key(&format!("{i}")), text("v"), Some(1), false, false, None, 0);
    }
    shard.expire_cycle_at(1);
    assert_eq!(shard.len(), 10);
    shard.expire_cycle_at(1);
    assert_eq!(shard.len(), 0);
}

#[test]
fn byte_map_behaves_like_a_map() {
    let mut map: ByteMap<u32> = ByteMap::new();
    for i in 0..500u32 {
        map.insert(key(&format!("k{i}")), i);
    }
    assert_eq!(map.len(), 500);
    map.insert(key("k7"), 7000);
    assert_eq!(map.len(), 500);
    assert_eq!(map.get(b"k7"), Some(&7000));
    assert_eq!(map.remove(b"k7"), Some(7000));
    assert_eq!(map.remove(b"k7"), None);
    assert!(!map.contains_key(b"k7"));
    for i in 8..500u32 {
        assert_eq!(map.get(format!("k{i}").as_bytes()), Some(&i));
    }
    if let Some(v) = map.get_mut(b"k8") {
        *v += 1;
    }
    assert_eq!(map.get(b"k8"), Some(&9));
    let (k, v) = map.remove_at(0);
    assert_eq!((k, v), (key("k0"), 0));
    map.clear();
    assert_eq!(map.len(), 0);
}

#[test]
fn values_of_all_kinds_are_copied_whole() {
    let mut list = Value::List(VecDeque::new());
    assert_eq!(list.push_items(&[key("a"), key("b")], false), Some(2));
    assert_eq!(list.push_items(&[key("c"), key("d")], true), Some(4));
    let copy = list.duplicate();
    assert_eq!(
        copy.item_range(0, -1).unwrap(),
        vec![key("d"), key("c"), key("a"), key("b")]
    );
    assert_eq!(copy.item_range(-3, 1).unwrap(), vec![key("c")]);
    assert_eq!(copy.item_count(), Some(4));
    assert_eq!(copy.kind(), "list");
    let mut hash = Value::Hash(ByteMap::new());
    assert!(hash.is_hollow());
    assert_eq!(hash.set_fields(&[(key("f"), key("1"))]), Some(1));
    assert_eq!(hash.duplicate().field(b"f").unwrap().unwrap(), key("1"));
    assert_eq!(hash.remove_fields(&[key("f")]), Some(1));
    assert!(hash.is_hollow());
    assert_eq!(hash.add_members(&[key("m")]), None);
    let mut members = Value::Members(ByteMap::new());
    assert_eq!(members.add_members(&[key("m"), key("m")]), Some(1));
    assert_eq!(members.duplicate().all_members().unwrap(), vec![key("m")]);
    assert_eq!(members.has_member(b"m"), Some(true));
    assert_eq!(members.remove_members(&[key("x")]), Some(0));
    assert_eq!(members.pop_item(true).is_none(), true);
}

#[test]
fn key_is_not_evicted_by_its_own_setting() {
    let mut shard = Shard::new();
    for i in 0..50 {
        let name = format!("k{i}");
        shard.set_at(key(&name), text("v"), None, false, false, Some(3), 0);
        assert!(shard.get_at(name.as_bytes(), 0).is_some());
        assert!(shard.len() <= 3);
    }
    shard.set_at(key("x"), text("v"), None, false, false, Some(0), 0);
    assert_eq!(shard.len(), 0);
}

#[test]
fn eviction_spares_the_key_that_was_just_used() {
    let mut shard = Shard::new();
    for i in 0..3 {
        shard.set_at(key(&format!("k{i}")), text("v"), None, false, false, None, 0);
    }
    shard.evict_one_from(0, Some(b"k0"));
    assert!(shard.get_at(b"k0", 0).is_some());
    assert!(shard.get_at(b"k1", 0).is_none());
    shard.evict_sparing(Some(b"k0"));
    shard.evict_sparing(Some(b"k0"));
    assert_eq!(shard.len(), 1);
    assert!(shard.get_at(b"k0", 0).is_some());

    // Also where others seem to have been used later.
    let mut store = Store::new(Some(2));
    for i in 0..100 {
        let entry = Entry { value: text("v"), expires_at_ms: None, last_access: 1_000_000 };
        store.load_entry(key(&format!("k{i}")), entry);
    }
    assert!(store.set_at(key("new"), text("v"), None, false, false, 0));
    assert_eq!(string_of(store.get_at(b"new", 0)), Some("v".to_string()));
}

#[test]
fn every_write_keeps_to_the_limit() {
    let mut store = Store::new(Some(2));
    let pubsub = PubSub::new();
    for i in 0..200 {
        let name = format!("k{i}");
        let request: Vec<Bytes> = match i % 5 {
            0 => vec![key("INCR"), key(&name)],
            1 => vec![key("APPEND"), key(&name), key("x")],
            2 => vec![key("RPUSH"), key(&name), key("x")],
            3 => vec![key("HSET"), key(&name), key("f"), key("x")],
            _ => vec![key("SADD"), key(&name), key("x")],
        };
        execute_at(&mut store, &pubsub, &parse_at(&request, 0).unwrap(), 0);
        assert_eq!(store.count_existing_at(&[key(&name)], 0), 1);
        assert!(store.snapshot_all_locked_at(0).len() <= 32);
    }
    for i in 0..50 {
        let name = key(&format!("w{i}"));
        store.with_entry_mut_at(&name, || text("v"), |_| (), 0);
        assert_eq!(store.count_existing_at(&[name], 0), 1);
    }
    assert!(store.snapshot_all_locked_at(0).len() <= 32);
}

#[test]
fn default_is_made_only_for_a_key_that_is_not_live() {
    let mut store = Store::new(None);
    let made = std::cell::Cell::new(0);
    let make = || {
        made.set(made.get() + 1);
        text("new")
    };
    let read = |v: &mut Value| string_of(Some(v.duplicate())).unwrap();
    assert_eq!(store.with_entry_mut(&key("k"), make, read), "new");
    assert_eq!(made.get(), 1);
    store.set_at(key("k"), text("old"), Some(10), false, false, 0);
    assert_eq!(store.with_entry_mut_at(&key("k"), make, read, 9), "old");
    assert_eq!(made.get(), 1);
    assert_eq!(store.with_entry_mut_at(&key("k"), make, read, 10), "new");
    assert_eq!(made.get(), 2);
    assert_eq!(store.ttl_ms_at(b"k", 10), Some(None));
}

#[test]
fn active_expiry_reaches_keys_behind_live_ones() {
    let mut shard = Shard::new();
    for i in 0..45 {
        shard.set_at(key(&format!("{i}")), text("v"), None, false, false, None, 0);
    }
    shard.set_at(key("late"), text("v"), Some(5), false, false, None, 0);
    shard.expire_cycle_at(5);
    shard.expire_cycle_at(5);
    assert_eq!(shard.len(), 46);
    shard.expire_cycle_at(5);
    assert_eq!(shard.len(), 45);
    for i in 0..45 {
        assert!(shard.get_at(format!("{i}").as_bytes(), 5).is_some());
    }
}
