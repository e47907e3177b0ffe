use std::sync::Arc;

use respkv::dataframe::DataFrame;
use respkv::shard::Shard;
use respkv::store::{ConcurrentHashtable, Store};

fn own(s: &str) -> Vec<u8> {
    s.as_bytes().to_vec()
}

fn plain(s: &str) -> DataFrame {
    DataFrame::plain(own(s))
}

#[test]
fn set_and_get() {
    let mut shard: Shard = Shard::default();
    shard.set(own("a"), plain("1"));
    shard.set(own("c"), plain("2"));
    shard.set(own("b"), plain("3"));
    assert_eq!(shard.get(&own("a")), Some(&plain("1")));
    assert_eq!(shard.get(&own("c")), Some(&plain("2")));
    assert_eq!(shard.get(&own("b")), Some(&plain("3")));
}

#[test]
fn set_and_remove() {
    let mut shard: Shard = Shard::default();
    shard.set(own("a"), plain("1"));
    shard.set(own("c"), plain("2"));
    shard.set(own("b"), plain("3"));
    shard.remove(&own("c"));
    assert_eq!(shard.get(&own("a")), Some(&plain("1")));
    assert_eq!(shard.get(&own("b")), Some(&plain("3")));
    assert_eq!(shard.get(&own("c")), None);
}

#[test]
fn set_replaces_in_place() {
    let mut shard = Shard::new();
    shard.set(own("k"), plain("old"));
    shard.set(own("k"), plain("new"));
    assert_eq!(shard.get(&own("k")), Some(&plain("new")));
    assert_eq!(shard.len(), 1);
}

#[test]
fn get_after_set_survives_other_keys() {
    let mut shard = Shard::new();
    shard.set(own("k"), plain("v"));
    shard.set(own("j"), plain("w"));
    shard.remove(&own("z"));
    shard.remove(&own("j"));
    assert_eq!(shard.get(&own("k")), Some(&plain("v")));
}

#[test]
fn remove_reports_whether_present() {
    let mut shard = Shard::new();
    shard.set(own("k"), plain("v"));
    assert!(shard.remove(&own("k")));
    assert!(!shard.remove(&own("k")));
    assert_eq!(shard.get(&own("k")), None);
}

#[test]
fn for_each_visits_keys_once_in_ascending_order() {
    let mut shard = Shard::new();
    for k in ["m", "b", "z", "a", "mm", "b"] {
        shard.set(own(k), plain(k));
    }
    let keys: Vec<Vec<u8>> = shard.for_each().into_iter().map(|(k, _)| k).collect();
    assert_eq!(keys, vec![own("a"), own("b"), own("m"), own("mm"), own("z")]);
}

#[test]
fn for_each_of_empty_shard_is_empty() {
    let shard = Shard::new();
    assert!(shard.for_each().is_empty());
}

#[test]
fn remove_if_expired_keeps_live_entries() {
    let mut shard = Shard::new();
    shard.set(own("p"), plain("v"));
    shard.set(own("e"), DataFrame::with_expiration(own("v"), 50, 100));
    assert!(!shard.remove_if_expired(&own("p"), 1_000_000));
    assert!(!shard.remove_if_expired(&own("e"), 149));
    assert!(shard.remove_if_expired(&own("e"), 150));
    assert_eq!(shard.get(&own("e")), None);
    assert_eq!(shard.get(&own("p")), Some(&plain("v")));
}

#[test]
fn refreshed_entry_is_not_removed() {
    let mut shard = Shard::new();
    shard.set(own("k"), DataFrame::with_expiration(own("v"), 10, 0));
    shard.set(own("k"), DataFrame::with_expiration(own("v2"), 10, 20));
    assert!(!shard.remove_if_expired(&own("k"), 25));
    assert_eq!(
        shard.get(&own("k")),
        Some(&DataFrame::with_expiration(own("v2"), 10, 20))
    );
}

#[test]
fn table_set_get_remove() {
    let table = ConcurrentHashtable::with_shards(16);
    table.set(own("a"), plain("1"));
    table.set(own("b"), plain("2"));
    assert_eq!(table.get(&own("a")), Some(plain("1")));
    assert!(table.contains(&own("b")));
    assert!(table.remove(&own("a")));
    assert_eq!(table.get(&own("a")), None);
    assert!(!table.remove(&own("a")));
    assert_eq!(table.for_each().len(), 1);
}

#[test]
fn table_with_one_shard() {
    let table = ConcurrentHashtable::with_shards(1);
    table.set(own("b"), plain("2"));
    table.set(own("a"), plain("1"));
    let keys: Vec<Vec<u8>> = table.for_each().into_iter().map(|(k, _)| k).collect();
    assert_eq!(keys, vec![own("a"), own("b")]);
}

#[test]
fn concurrent_disjoint_sets_are_all_found() {
    let table = Arc::new(ConcurrentHashtable::with_shards(7));
    let rt = tokio::runtime::Builder::new_multi_thread()
        .worker_threads(3)
        .build()
        .unwrap();
    rt.block_on(async {
        let mut tasks = vec![];
        for part in 0..3u32 {
            let table = Arc::clone(&table);
            tasks.push(tokio::task::spawn_blocking(move || {
                for i in part * 500..(part + 1) * 500 {
                    table.set(i.to_string().into_bytes(), DataFrame::plain(i.to_string().into_bytes()));
                }
            }));
        }
        for t in tasks {
            t.await.unwrap();
        }
    });
    for i in 0..1500u32 {
        assert_eq!(
            table.get(i.to_string().as_bytes()),
            Some(DataFrame::plain(i.to_string().into_bytes()))
        );
    }
}

#[test]
fn concurrent_disjoint_removes_are_all_absent() {
    let table = Arc::new(ConcurrentHashtable::with_shards(5));
    for i in 0..1000u32 {
        table.set(i.to_string().into_bytes(), DataFrame::plain(i.to_string().into_bytes()));
    }
    let rt = tokio::runtime::Builder::new_multi_thread()
        .worker_threads(2)
        .build()
        .unwrap();
    rt.block_on(async {
        let mut tasks = vec![];
        for start in 0..2u32 {
            let table = Arc::clone(&table);
            tasks.push(tokio::task::spawn_blocking(move || {
                for i in (start..1000).step_by(2) {
                    table.remove(i.to_string().as_bytes());
                }
            }));
        }
        for t in tasks {
            t.await.unwrap();
        }
    });
    for i in 0..1000u32 {
        assert_eq!(table.get(i.to_string().as_bytes()), None);
    }
}

#[test]
fn remove_if_asks_the_condition() {
    let mut shard = Shard::new();
    shard.set(own("k"), plain("v"));
    assert!(!shard.remove_if(&own("k"), |f: &DataFrame| f.data().is_empty()));
    assert!(!shard.remove_if(&own("z"), |_f: &DataFrame| true));
    assert!(shard.remove_if(&own("k"), |f: &DataFrame| f.data() == &own("v")));
    assert_eq!(shard.get(&own("k")), None);
}

#[test]
fn table_remove_if_asks_the_condition() {
    let table = ConcurrentHashtable::with_shards(3);
    table.set(own("k"), plain("v"));
    assert!(!table.remove_if(&own("k"), |f: &DataFrame| f.has_expired(10)));
    assert!(table.remove_if(&own("k"), |f: &DataFrame| !f.has_expired(10)));
    assert!(!table.contains(&own("k")));
}
