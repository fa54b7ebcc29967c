use hummock::error::HummockError;
use hummock::iterator::compact_concat_iterator::ConcatSstableIterator;
use hummock::iterator::concat_inner::{
    await_answer, poll_answer, AwaitStep, ConcatIteratorInner, ConcatIteratorPendingStage,
};
use hummock::iterator::{HummockIterator, Poll};
use hummock::key::key_with_epoch;
use hummock::monitor::StoreLocalStatistic;
use hummock::run::{KeyRange, SstableInfo};
use hummock::sstable::{
    Sstable, SstableBuilder, SstableIterator, SstableIteratorReadOptions, SstableStore,
};
use hummock::value::HummockValue;

fn key(user: &str, epoch: u64) -> Vec<u8> {
    key_with_epoch(user.as_bytes().to_vec(), epoch)
}

fn table(id: u64, block_capacity: usize, users: &[&str], epoch: u64) -> Sstable {
    let mut builder = SstableBuilder::new(id, block_capacity);
    for user in users {
        assert!(builder.add(key(user, epoch), HummockValue::Put(user.as_bytes().to_vec())));
    }
    builder.finish()
}

fn info(table: &Sstable) -> SstableInfo {
    SstableInfo {
        id: table.id(),
        key_range: KeyRange {
            left: table.smallest_key().to_vec(),
            right: table.largest_key().to_vec(),
            inf: false,
        },
        file_size: table.len() as u64,
        table_ids: vec![table.id() as u32],
    }
}

fn store_of(tables: Vec<Sstable>) -> (SstableStore, Vec<SstableInfo>) {
    let mut store = SstableStore::new();
    let mut infos = vec![];
    for t in tables {
        infos.push(info(&t));
        store.put(t);
    }
    (store, infos)
}

fn drain<I: HummockIterator>(iter: &mut I) -> Vec<Vec<u8>> {
    let mut keys = vec![];
    while iter.is_valid() {
        keys.push(iter.key().to_vec());
        iter.next().unwrap();
    }
    keys
}

fn keys_of(users: &[&str], epoch: u64) -> Vec<Vec<u8>> {
    users.iter().map(|u| key(u, epoch)).collect()
}

type ConcatIterator<'a> = ConcatIteratorInner<'a, SstableIterator<'a>>;

#[test]
fn two_table_concat_from_rewind_and_from_seek() {
    let (store, infos) = store_of(vec![
        table(1, 2, &["k001", "k002", "k003"], 1),
        table(2, 2, &["k004", "k005"], 1),
    ]);
    let mut iter = ConcatIterator::new(infos, &store, SstableIteratorReadOptions::default());
    assert!(!iter.is_valid());
    iter.rewind().unwrap();
    assert_eq!(drain(&mut iter), keys_of(&["k001", "k002", "k003", "k004", "k005"], 1));
    assert!(!iter.is_valid());

    iter.seek(&key("k003", 1)).unwrap();
    assert_eq!(drain(&mut iter), keys_of(&["k003", "k004", "k005"], 1));
}

#[test]
fn concat_hands_out_values() {
    let (store, infos) = store_of(vec![table(1, 4, &["a", "b"], 3)]);
    let mut iter = ConcatIterator::new(infos, &store, SstableIteratorReadOptions { prefetch: true });
    iter.rewind().unwrap();
    assert_eq!(iter.key(), key("a", 3).as_slice());
    assert_eq!(iter.value(), HummockValue::Put("a".as_bytes()));
    iter.next().unwrap();
    assert_eq!(iter.value(), HummockValue::Put("b".as_bytes()));
}

#[test]
fn seek_into_hole_lands_on_next_table() {
    let (store, infos) = store_of(vec![table(1, 8, &["a", "b"], 1), table(2, 8, &["m", "n"], 1)]);
    let mut iter = ConcatIterator::new(infos, &store, SstableIteratorReadOptions::default());
    iter.seek(&key("g", 1)).unwrap();
    assert!(iter.is_valid());
    assert_eq!(iter.key(), key("m", 1).as_slice());
    assert_eq!(drain(&mut iter), keys_of(&["m", "n"], 1));
}

#[test]
fn seek_before_first_and_after_last() {
    let (store, infos) = store_of(vec![table(1, 1, &["b", "c"], 1), table(2, 1, &["m", "n"], 1)]);
    let mut iter = ConcatIterator::new(infos, &store, SstableIteratorReadOptions::default());
    iter.seek(&key("a", 1)).unwrap();
    assert_eq!(iter.key(), key("b", 1).as_slice());
    iter.seek(&key("z", 1)).unwrap();
    assert!(!iter.is_valid());
    iter.seek(&key("n", 1)).unwrap();
    assert_eq!(drain(&mut iter), keys_of(&["n"], 1));
}

#[test]
fn seek_respects_epoch_order() {
    let mut builder = SstableBuilder::new(1, 2);
    assert!(builder.add(key("k", 9), HummockValue::Delete));
    assert!(builder.add(key("k", 5), HummockValue::Put(b"old".to_vec())));
    assert!(!builder.add(key("k", 7), HummockValue::Delete));
    assert!(!builder.add(b"short".to_vec(), HummockValue::Delete));
    let (store, infos) = store_of(vec![builder.finish()]);
    let mut iter = ConcatIterator::new(infos, &store, SstableIteratorReadOptions::default());
    iter.seek(&key("k", 7)).unwrap();
    assert_eq!(iter.key(), key("k", 5).as_slice());
    iter.seek(&key("k", 10)).unwrap();
    assert_eq!(iter.key(), key("k", 9).as_slice());
    assert_eq!(iter.value(), HummockValue::Delete);
}

#[test]
fn empty_run_is_exhausted_at_once() {
    let store = SstableStore::new();
    let mut iter = ConcatIterator::new(vec![], &store, SstableIteratorReadOptions::default());
    iter.rewind().unwrap();
    assert!(!iter.is_valid());
    iter.seek(&key("a", 1)).unwrap();
    assert!(!iter.is_valid());
}

#[test]
fn poll_and_await_alternate_across_blocks_and_tables() {
    let (store, infos) = store_of(vec![table(1, 2, &["a", "b", "c"], 1), table(2, 2, &["d"], 1)]);
    let mut iter = ConcatIterator::new(infos, &store, SstableIteratorReadOptions::default());
    iter.rewind().unwrap();
    // a -> b: inside one block
    assert_eq!(iter.poll_next(), Poll::Ready(Ok(())));
    assert_eq!(iter.key(), key("b", 1).as_slice());
    // b -> c: the next block has to be loaded
    assert_eq!(iter.poll_next(), Poll::Pending);
    assert!(!iter.is_valid());
    iter.await_next().unwrap();
    assert_eq!(iter.key(), key("c", 1).as_slice());
    // c -> d: the next table has to be loaded
    assert_eq!(iter.poll_next(), Poll::Pending);
    iter.await_next().unwrap();
    assert_eq!(iter.key(), key("d", 1).as_slice());
    // d -> end
    assert_eq!(iter.poll_next(), Poll::Pending);
    iter.await_next().unwrap();
    assert!(!iter.is_valid());
}

#[test]
fn error_at_third_block_load() {
    let mut t = table(1, 1, &["a", "b", "c", "d"], 1);
    t.corrupt_block(2);
    let (store, infos) = store_of(vec![t]);
    let mut iter = ConcatIterator::new(infos, &store, SstableIteratorReadOptions::default());
    iter.rewind().unwrap();
    iter.next().unwrap();
    assert_eq!(iter.key(), key("b", 1).as_slice());
    assert_eq!(
        iter.next().unwrap_err(),
        HummockError::ChecksumMismatch { sst_id: 1, block_idx: 2 }
    );
    assert!(!iter.is_valid());
}

#[test]
fn missing_table_is_an_error() {
    let (store, mut infos) = store_of(vec![table(1, 4, &["a", "b"], 1)]);
    let absent = table(7, 4, &["c", "d"], 1);
    infos.push(info(&absent));
    let mut iter = ConcatIterator::new(infos, &store, SstableIteratorReadOptions::default());
    iter.rewind().unwrap();
    iter.next().unwrap();
    assert_eq!(iter.next().unwrap_err(), HummockError::ObjectNotFound { sst_id: 7 });
    assert!(!iter.is_valid());
}

#[test]
fn concat_collects_the_counters_of_its_tables() {
    let (store, infos) = store_of(vec![table(1, 2, &["a", "b", "c"], 1), table(2, 2, &["d"], 1)]);
    let mut iter = ConcatIterator::new(infos, &store, SstableIteratorReadOptions::default());
    iter.rewind().unwrap();
    drain(&mut iter);
    let mut stats = StoreLocalStatistic::default();
    iter.collect_local_statistic(&mut stats);
    assert_eq!(stats, StoreLocalStatistic { tables_loaded: 2, blocks_loaded: 3 });
}

#[test]
fn compaction_concat_sees_every_version() {
    let mut builder = SstableBuilder::new(1, 1);
    assert!(builder.add(key("k", 9), HummockValue::Delete));
    assert!(builder.add(key("k", 5), HummockValue::Put(b"old".to_vec())));
    let (store, infos) = store_of(vec![builder.finish(), table(2, 2, &["m", "n"], 1)]);
    let mut iter = ConcatSstableIterator::new(infos, &store, SstableIteratorReadOptions::default());
    iter.rewind().unwrap();
    assert_eq!(iter.value(), HummockValue::Delete);
    let mut expected = vec![key("k", 9), key("k", 5)];
    expected.extend(keys_of(&["m", "n"], 1));
    assert_eq!(drain(&mut iter), expected);
    iter.seek(&key("l", 1)).unwrap();
    assert_eq!(iter.key(), key("m", 1).as_slice());
}

#[test]
fn table_iterator_walks_and_seeks() {
    let (store, _) = store_of(vec![table(1, 2, &["a", "c", "e", "g", "i"], 1)]);
    let mut stats = StoreLocalStatistic::default();
    let t = store.sstable(1, &mut stats).unwrap();
    assert_eq!(t.block_count(), 3);
    let mut iter = SstableIterator::new(t, &store, SstableIteratorReadOptions::default());
    iter.rewind().unwrap();
    assert_eq!(drain(&mut iter), keys_of(&["a", "c", "e", "g", "i"], 1));
    iter.seek(&key("d", 1)).unwrap();
    assert_eq!(drain(&mut iter), keys_of(&["e", "g", "i"], 1));
    iter.seek(&key("c", 1)).unwrap();
    assert_eq!(iter.key(), key("c", 1).as_slice());
    iter.seek(&key("j", 1)).unwrap();
    assert!(!iter.is_valid());
    assert!(store.sstable(9, &mut stats).is_err());
    assert_eq!(stats.tables_loaded, 1);
}

#[test]
fn a_run_iterator_decides_from_its_table_s_answer() {
    let e = HummockError::ChecksumMismatch { sst_id: 1, block_idx: 2 };
    assert_eq!(
        poll_answer(Poll::Pending, false),
        (Poll::Pending, ConcatIteratorPendingStage::AwaitNext)
    );
    assert_eq!(
        poll_answer(Poll::Ready(Err(e)), false),
        (Poll::Ready(Err(e)), ConcatIteratorPendingStage::Idle)
    );
    assert_eq!(
        poll_answer(Poll::Ready(Ok(())), true),
        (Poll::Ready(Ok(())), ConcatIteratorPendingStage::Idle)
    );
    assert_eq!(
        poll_answer(Poll::Ready(Ok(())), false),
        (Poll::Pending, ConcatIteratorPendingStage::AwaitSeekIdx)
    );
    assert_eq!(await_answer(Err(e), false), AwaitStep::Done(Err(e)));
    assert_eq!(await_answer(Ok(()), true), AwaitStep::Done(Ok(())));
    assert_eq!(await_answer(Ok(()), false), AwaitStep::LoadNextTable);
}

#[test]
fn compaction_concat_reports_a_missing_table_and_a_corrupt_block() {
    let mut broken = table(2, 1, &["m", "n"], 1);
    broken.corrupt_block(0);
    let (store, mut infos) = store_of(vec![table(1, 4, &["a", "b"], 1), broken]);
    let absent = table(7, 4, &["x"], 1);
    infos.push(info(&absent));
    let mut iter = ConcatSstableIterator::new(infos, &store, SstableIteratorReadOptions::default());
    iter.rewind().unwrap();
    assert_eq!(iter.poll_next(), Poll::Ready(Ok(())));
    // past the last entry of the first table: the second table has to be loaded
    assert_eq!(iter.poll_next(), Poll::Pending);
    assert_eq!(
        iter.await_next().unwrap_err(),
        HummockError::ChecksumMismatch { sst_id: 2, block_idx: 0 }
    );
    assert!(!iter.is_valid());
}

#[test]
fn compaction_concat_seek_reports_what_it_cannot_load() {
    let mut broken = table(1, 1, &["a", "b", "c"], 1);
    broken.corrupt_block(1);
    let (store, mut infos) = store_of(vec![broken]);
    let absent = table(7, 4, &["x"], 1);
    infos.push(info(&absent));
    let mut iter =
        ConcatSstableIterator::new(infos.clone(), &store, SstableIteratorReadOptions::default());
    // the key lies in the corrupt block
    assert_eq!(
        iter.seek(&key("b", 1)).unwrap_err(),
        HummockError::ChecksumMismatch { sst_id: 1, block_idx: 1 }
    );
    let mut iter =
        ConcatSstableIterator::new(infos.clone(), &store, SstableIteratorReadOptions::default());
    // the key lies in a sound block
    iter.seek(&key("c", 1)).unwrap();
    assert_eq!(iter.key(), key("c", 1).as_slice());
    let mut iter = ConcatSstableIterator::new(infos, &store, SstableIteratorReadOptions::default());
    // the key lies past the first table, and the store lacks the second
    assert_eq!(
        iter.seek(&key("d", 1)).unwrap_err(),
        HummockError::ObjectNotFound { sst_id: 7 }
    );
}
