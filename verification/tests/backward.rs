use hummock::error::HummockError;
use hummock::iterator::merge_inner::{OrderedMergeIteratorInner, UnorderedMergeIteratorInner};
use hummock::iterator::{
    collect, Backward, BackwardConcatIterator, DirectionEnum, Forward, HummockIterator,
    HummockIteratorDirection, Poll,
};
use hummock::key::key_with_epoch;
use hummock::monitor::StoreLocalStatistic;
use hummock::run::{KeyRange, SstableInfo};
use hummock::sstable::{Sstable, SstableBuilder, SstableIteratorReadOptions, SstableStore};
use hummock::sstable_backward::BackwardSstableIterator;
use hummock::value::{Entry, HummockValue};

fn key(user: &str, epoch: u64) -> Vec<u8> {
    key_with_epoch(user.as_bytes().to_vec(), epoch)
}

fn put(value: &str) -> HummockValue<Vec<u8>> {
    HummockValue::Put(value.as_bytes().to_vec())
}

fn table(id: u64, block_capacity: usize, entries: Vec<(Vec<u8>, HummockValue<Vec<u8>>)>) -> Sstable {
    let mut builder = SstableBuilder::new(id, block_capacity);
    for (k, v) in entries {
        assert!(builder.add(k, v));
    }
    builder.finish()
}

fn plain(id: u64, block_capacity: usize, users: &[&str]) -> Sstable {
    table(id, block_capacity, users.iter().map(|u| (key(u, 1), put(u))).collect())
}

fn info(table: &Sstable) -> SstableInfo {
    SstableInfo {
        id: table.id(),
        key_range: KeyRange {
            left: table.smallest_key().to_vec(),
            right: table.largest_key().to_vec(),
            inf: false,
        },
        file_size: table.len() as u64,
        table_ids: vec![table.id() as u32],
    }
}

fn store_of(tables: Vec<Sstable>) -> SstableStore {
    let mut store = SstableStore::new();
    for t in tables {
        store.put(t);
    }
    store
}

fn backward_iter<'a>(store: &'a SstableStore, id: u64) -> BackwardSstableIterator<'a> {
    let mut stats = StoreLocalStatistic::default();
    let t = store.sstable(id, &mut stats).unwrap();
    BackwardSstableIterator::new(t, store, SstableIteratorReadOptions::default())
}

fn keys_of(entries: &[Entry]) -> Vec<Vec<u8>> {
    entries.iter().map(|e| e.key.clone()).collect()
}

fn users(names: &[&str]) -> Vec<Vec<u8>> {
    names.iter().map(|u| key(u, 1)).collect()
}

#[test]
fn directions_name_themselves() {
    assert_eq!(Forward::direction(), DirectionEnum::Forward);
    assert_eq!(Backward::direction(), DirectionEnum::Backward);
}

#[test]
fn backward_table_iterator_walks_down() {
    let store = store_of(vec![plain(1, 2, &["a", "c", "e", "g", "i"])]);
    let mut iter = backward_iter(&store, 1);
    iter.rewind().unwrap();
    assert_eq!(keys_of(&collect(&mut iter).unwrap()), users(&["i", "g", "e", "c", "a"]));
    assert!(!iter.is_valid());
}

#[test]
fn backward_table_iterator_seeks_the_largest_key_not_above() {
    let store = store_of(vec![plain(1, 2, &["a", "c", "e", "g", "i"])]);
    let mut iter = backward_iter(&store, 1);
    iter.seek(&key("f", 1)).unwrap();
    assert_eq!(iter.key(), key("e", 1).as_slice());
    iter.seek(&key("e", 1)).unwrap();
    assert_eq!(keys_of(&collect(&mut iter).unwrap()), users(&["e", "c", "a"]));
    iter.seek(&key("z", 1)).unwrap();
    assert_eq!(iter.key(), key("i", 1).as_slice());
    iter.seek(&key("0", 1)).unwrap();
    assert!(!iter.is_valid());
}

#[test]
fn backward_poll_and_await() {
    let store = store_of(vec![plain(1, 2, &["a", "b", "c"])]);
    let mut iter = backward_iter(&store, 1);
    iter.rewind().unwrap();
    assert_eq!(iter.key(), key("c", 1).as_slice());
    // c is alone in the last block
    assert_eq!(iter.poll_next(), Poll::Pending);
    iter.await_next().unwrap();
    assert_eq!(iter.key(), key("b", 1).as_slice());
    assert_eq!(iter.poll_next(), Poll::Ready(Ok(())));
    assert_eq!(iter.key(), key("a", 1).as_slice());
    assert_eq!(iter.poll_next(), Poll::Pending);
    iter.await_next().unwrap();
    assert!(!iter.is_valid());
}

#[test]
fn backward_table_iterator_reports_a_corrupt_block() {
    let mut t = plain(4, 1, &["a", "b", "c"]);
    t.corrupt_block(1);
    let store = store_of(vec![t]);
    let mut iter = backward_iter(&store, 4);
    iter.rewind().unwrap();
    assert_eq!(
        iter.next().unwrap_err(),
        HummockError::ChecksumMismatch { sst_id: 4, block_idx: 1 }
    );
    assert!(!iter.is_valid());
    let mut stats = StoreLocalStatistic::default();
    iter.collect_local_statistic(&mut stats);
    assert_eq!(stats.blocks_loaded, 1);
}

#[test]
fn backward_concat_walks_the_run_down() {
    let first = plain(1, 2, &["a", "b", "c"]);
    let second = plain(2, 2, &["m", "n"]);
    // a backward run lists its tables in descending order
    let run = vec![info(&second), info(&first)];
    let store = store_of(vec![first, second]);
    let mut iter = BackwardConcatIterator::new(run, &store, SstableIteratorReadOptions::default());
    iter.rewind().unwrap();
    assert_eq!(keys_of(&collect(&mut iter).unwrap()), users(&["n", "m", "c", "b", "a"]));
    iter.seek(&key("g", 1)).unwrap();
    assert_eq!(iter.key(), key("c", 1).as_slice());
    iter.seek(&key("m", 1)).unwrap();
    assert_eq!(keys_of(&collect(&mut iter).unwrap()), users(&["m", "c", "b", "a"]));
    iter.seek(&key("0", 1)).unwrap();
    assert!(!iter.is_valid());
}

#[test]
fn backward_ordered_merge_prefers_the_last_child() {
    let store = store_of(vec![
        table(1, 1, vec![(key("a", 1), put("a")), (key("k", 5), put("first"))]),
        table(2, 1, vec![(key("k", 5), put("second")), (key("z", 1), put("z"))]),
    ]);
    let mut iter =
        OrderedMergeIteratorInner::new(vec![backward_iter(&store, 1), backward_iter(&store, 2)]);
    iter.rewind().unwrap();
    let out = collect(&mut iter).unwrap();
    assert_eq!(keys_of(&out), vec![key("z", 1), key("k", 5), key("a", 1)]);
    assert_eq!(out[1].value, put("second"));
}

#[test]
fn backward_unordered_merge_keeps_every_entry() {
    let store = store_of(vec![
        table(1, 1, vec![(key("a", 1), put("a")), (key("k", 5), put("first"))]),
        table(2, 1, vec![(key("k", 5), put("second")), (key("z", 1), put("z"))]),
    ]);
    let mut iter =
        UnorderedMergeIteratorInner::new(vec![backward_iter(&store, 1), backward_iter(&store, 2)]);
    iter.seek(&key("k", 5)).unwrap();
    let out = collect(&mut iter).unwrap();
    assert_eq!(keys_of(&out), vec![key("k", 5), key("k", 5), key("a", 1)]);
    assert_eq!(out[0].value, put("first"));
    assert_eq!(out[1].value, put("second"));
}

#[test]
fn newer_epochs_come_last_going_backward() {
    let store = store_of(vec![table(
        1,
        4,
        vec![(key("k", 9), HummockValue::Delete), (key("k", 5), put("old"))],
    )]);
    let mut iter = backward_iter(&store, 1);
    iter.rewind().unwrap();
    assert_eq!(iter.key(), key("k", 5).as_slice());
    iter.next().unwrap();
    assert_eq!(iter.value(), HummockValue::Delete);
}
