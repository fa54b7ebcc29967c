use hummock::error::HummockError;
use hummock::iterator::merge_inner::{
    after_child, AfterChild, OrderedMergeIteratorInner, UnorderedMergeIteratorInner,
};
use hummock::iterator::{
    ConcatIterator, Forward, HummockIterator, HummockIteratorUnion, MultiSstIterator, Poll,
};
use hummock::key::{key_with_epoch, user_key};
use hummock::monitor::StoreLocalStatistic;
use hummock::run::{KeyRange, SstableInfo};
use hummock::sstable::{
    Sstable, SstableBuilder, SstableIterator, SstableIteratorReadOptions, SstableStore,
};
use hummock::value::HummockValue;

fn key(user: &str, epoch: u64) -> Vec<u8> {
    key_with_epoch(user.as_bytes().to_vec(), epoch)
}

fn put(value: &str) -> HummockValue<Vec<u8>> {
    HummockValue::Put(value.as_bytes().to_vec())
}

fn table(id: u64, block_capacity: usize, entries: Vec<(Vec<u8>, HummockValue<Vec<u8>>)>) -> Sstable {
    let mut builder = SstableBuilder::new(id, block_capacity);
    for (k, v) in entries {
        assert!(builder.add(k, v));
    }
    builder.finish()
}

fn info(table: &Sstable) -> SstableInfo {
    SstableInfo {
        id: table.id(),
        key_range: KeyRange {
            left: table.smallest_key().to_vec(),
            right: table.largest_key().to_vec(),
            inf: false,
        },
        file_size: table.len() as u64,
        table_ids: vec![table.id() as u32],
    }
}

fn store_of(tables: Vec<Sstable>) -> SstableStore {
    let mut store = SstableStore::new();
    for t in tables {
        store.put(t);
    }
    store
}

fn table_iter<'a>(store: &'a SstableStore, id: u64) -> SstableIterator<'a> {
    let mut stats = StoreLocalStatistic::default();
    let t = store.sstable(id, &mut stats).unwrap();
    SstableIterator::new(t, store, SstableIteratorReadOptions::default())
}

fn drain<I: HummockIterator>(iter: &mut I) -> Vec<(Vec<u8>, HummockValue<Vec<u8>>)> {
    let mut out = vec![];
    while iter.is_valid() {
        let value = match iter.value() {
            HummockValue::Put(v) => HummockValue::Put(v.to_vec()),
            HummockValue::Delete => HummockValue::Delete,
        };
        out.push((iter.key().to_vec(), value));
        iter.next().unwrap();
    }
    out
}

fn x_and_y() -> SstableStore {
    store_of(vec![
        table(1, 2, vec![(key("k1", 5), put("v5")), (key("k2", 3), put("v3"))]),
        table(2, 2, vec![(key("k1", 7), put("v7")), (key("k3", 1), put("v1"))]),
    ])
}

#[test]
fn ordered_merge_of_two_children() {
    let store = x_and_y();
    let mut iter = OrderedMergeIteratorInner::new(vec![table_iter(&store, 1), table_iter(&store, 2)]);
    assert!(!iter.is_valid());
    iter.rewind().unwrap();
    let out = drain(&mut iter);
    assert_eq!(
        out,
        vec![
            (key("k1", 7), put("v7")),
            (key("k1", 5), put("v5")),
            (key("k2", 3), put("v3")),
            (key("k3", 1), put("v1")),
        ]
    );
    // the user keys come in order, and the newest version of k1 comes first
    let mut users: Vec<Vec<u8>> = out.iter().map(|(k, _)| user_key(k).to_vec()).collect();
    users.dedup();
    assert_eq!(users, vec![b"k1".to_vec(), b"k2".to_vec(), b"k3".to_vec()]);
    assert_eq!(out[0].1, put("v7"));
}

#[test]
fn ordered_merge_hands_out_a_key_once_from_the_first_child() {
    let store = store_of(vec![
        table(1, 1, vec![(key("a", 1), put("a-first")), (key("k", 5), put("first"))]),
        table(2, 1, vec![(key("k", 5), put("second")), (key("z", 1), put("z-second"))]),
        table(3, 1, vec![(key("k", 5), put("third"))]),
    ]);
    let mut iter = OrderedMergeIteratorInner::new(vec![
        table_iter(&store, 1),
        table_iter(&store, 2),
        table_iter(&store, 3),
    ]);
    iter.rewind().unwrap();
    assert_eq!(
        drain(&mut iter),
        vec![
            (key("a", 1), put("a-first")),
            (key("k", 5), put("first")),
            (key("z", 1), put("z-second")),
        ]
    );
    iter.seek(&key("k", 5)).unwrap();
    assert_eq!(iter.value(), HummockValue::Put("first".as_bytes()));
    assert_eq!(drain(&mut iter).len(), 2);
}

#[test]
fn unordered_merge_keeps_every_entry() {
    let store = store_of(vec![
        table(1, 1, vec![(key("a", 1), put("a-first")), (key("k", 5), put("first"))]),
        table(2, 1, vec![(key("k", 5), put("second")), (key("z", 1), put("z-second"))]),
    ]);
    let mut iter = UnorderedMergeIteratorInner::new(vec![table_iter(&store, 1), table_iter(&store, 2)]);
    iter.rewind().unwrap();
    assert_eq!(
        drain(&mut iter),
        vec![
            (key("a", 1), put("a-first")),
            (key("k", 5), put("first")),
            (key("k", 5), put("second")),
            (key("z", 1), put("z-second")),
        ]
    );
}

#[test]
fn tombstone_passes_through_unordered_merge() {
    let store = store_of(vec![
        table(1, 4, vec![(key("k", 9), HummockValue::Delete), (key("k", 5), put("old"))]),
        table(2, 4, vec![(key("j", 2), put("j"))]),
    ]);
    let mut iter = UnorderedMergeIteratorInner::new(vec![table_iter(&store, 1), table_iter(&store, 2)]);
    iter.rewind().unwrap();
    assert_eq!(
        drain(&mut iter),
        vec![
            (key("j", 2), put("j")),
            (key("k", 9), HummockValue::Delete),
            (key("k", 5), put("old")),
        ]
    );
}

#[test]
fn merge_seek_lands_on_first_key_at_or_after() {
    let store = x_and_y();
    let mut iter = UnorderedMergeIteratorInner::new(vec![table_iter(&store, 1), table_iter(&store, 2)]);
    iter.seek(&key("k1", 6)).unwrap();
    assert_eq!(iter.key(), key("k1", 5).as_slice());
    assert_eq!(drain(&mut iter).len(), 3);
    iter.seek(&key("k4", 1)).unwrap();
    assert!(!iter.is_valid());
    iter.seek(&key("k0", 1)).unwrap();
    assert_eq!(drain(&mut iter).len(), 4);
}

#[test]
fn merge_of_nothing_is_exhausted() {
    let children: Vec<SstableIterator> = vec![];
    let mut iter = UnorderedMergeIteratorInner::new(children);
    iter.rewind().unwrap();
    assert!(!iter.is_valid());
    let children: Vec<SstableIterator> = vec![];
    let mut iter = OrderedMergeIteratorInner::new(children);
    iter.seek(&key("a", 1)).unwrap();
    assert!(!iter.is_valid());
}

#[test]
fn merge_answers_pending_when_a_child_needs_a_load() {
    let store = store_of(vec![
        table(1, 1, vec![(key("a", 1), put("a")), (key("c", 1), put("c"))]),
        table(2, 2, vec![(key("b", 1), put("b")), (key("d", 1), put("d"))]),
    ]);
    let mut iter = UnorderedMergeIteratorInner::new(vec![table_iter(&store, 1), table_iter(&store, 2)]);
    iter.rewind().unwrap();
    // a -> b: the first child has to load its second block
    assert_eq!(iter.poll_next(), Poll::Pending);
    assert!(!iter.is_valid());
    iter.await_next().unwrap();
    assert_eq!(iter.key(), key("b", 1).as_slice());
    // b -> c: the second child moves inside its block
    assert_eq!(iter.poll_next(), Poll::Ready(Ok(())));
    assert_eq!(iter.key(), key("c", 1).as_slice());
}

#[test]
fn ordered_merge_goes_on_skipping_after_a_load() {
    let store = store_of(vec![
        table(1, 1, vec![(key("k", 1), put("first")), (key("m", 1), put("m"))]),
        table(2, 1, vec![(key("k", 1), put("second")), (key("n", 1), put("n"))]),
    ]);
    let mut iter = OrderedMergeIteratorInner::new(vec![table_iter(&store, 1), table_iter(&store, 2)]);
    iter.rewind().unwrap();
    assert_eq!(iter.value(), HummockValue::Put("first".as_bytes()));
    assert_eq!(iter.poll_next(), Poll::Pending);
    iter.await_next().unwrap();
    assert_eq!(iter.key(), key("m", 1).as_slice());
    assert_eq!(drain(&mut iter).len(), 2);
}

#[test]
fn child_error_makes_the_merge_invalid() {
    let mut broken = table(1, 1, vec![(key("a", 1), put("a")), (key("c", 1), put("c"))]);
    broken.corrupt_block(1);
    let store = store_of(vec![broken, table(2, 2, vec![(key("b", 1), put("b"))])]);
    let mut iter = UnorderedMergeIteratorInner::new(vec![table_iter(&store, 1), table_iter(&store, 2)]);
    iter.rewind().unwrap();
    assert_eq!(
        iter.next().unwrap_err(),
        HummockError::ChecksumMismatch { sst_id: 1, block_idx: 1 }
    );
    assert!(!iter.is_valid());
}

#[test]
fn merge_over_a_union_of_runs_and_tables() {
    let store = store_of(vec![
        table(1, 2, vec![(key("a", 1), put("a")), (key("b", 1), put("b"))]),
        table(2, 2, vec![(key("e", 1), put("e"))]),
        table(3, 2, vec![(key("c", 1), put("c")), (key("f", 1), put("f"))]),
    ]);
    let mut stats = StoreLocalStatistic::default();
    let run = vec![
        info(store.sstable(1, &mut stats).unwrap()),
        info(store.sstable(2, &mut stats).unwrap()),
    ];
    let children: Vec<HummockIteratorUnion<Forward, ConcatIterator, SstableIterator>> = vec![
        HummockIteratorUnion::First(ConcatIterator::new(
            run,
            &store,
            SstableIteratorReadOptions::default(),
        )),
        HummockIteratorUnion::Second(table_iter(&store, 3)),
    ];
    let mut iter = MultiSstIterator::new(children);
    iter.rewind().unwrap();
    let keys: Vec<Vec<u8>> = drain(&mut iter).into_iter().map(|(k, _)| k).collect();
    let expected: Vec<Vec<u8>> = ["a", "b", "c", "e", "f"].iter().map(|u| key(u, 1)).collect();
    assert_eq!(keys, expected);
    // the root hands over what its children counted: two tables and two
    // blocks in the run, one block in the single table
    let mut sink = StoreLocalStatistic { tables_loaded: 10, blocks_loaded: 20 };
    iter.collect_local_statistic(&mut sink);
    assert_eq!(sink, StoreLocalStatistic { tables_loaded: 12, blocks_loaded: 23 });
}

#[test]
fn a_merge_decides_from_its_child_s_answer() {
    let e = HummockError::ObjectNotFound { sst_id: 3 };
    assert_eq!(after_child(Poll::Pending), AfterChild::Wait);
    assert_eq!(after_child(Poll::Ready(Err(e))), AfterChild::Fail(e));
    assert_eq!(after_child(Poll::Ready(Ok(()))), AfterChild::Settle);
}

#[test]
fn a_merge_hands_over_the_sum_of_its_children_s_counters() {
    let store = x_and_y();
    let mut iter = UnorderedMergeIteratorInner::new(vec![table_iter(&store, 1), table_iter(&store, 2)]);
    let mut sink = StoreLocalStatistic::default();
    iter.collect_local_statistic(&mut sink);
    assert_eq!(sink, StoreLocalStatistic::default());
    iter.rewind().unwrap();
    drain(&mut iter);
    // each child has loaded its one block
    iter.collect_local_statistic(&mut sink);
    assert_eq!(sink, StoreLocalStatistic { tables_loaded: 0, blocks_loaded: 2 });
}

#[test]
fn a_union_hands_over_the_counters_of_its_child() {
    let store = x_and_y();
    let mut iter: HummockIteratorUnion<Forward, SstableIterator, SstableIterator> =
        HummockIteratorUnion::Second(table_iter(&store, 2));
    iter.rewind().unwrap();
    let mut sink = StoreLocalStatistic { tables_loaded: 1, blocks_loaded: 1 };
    iter.collect_local_statistic(&mut sink);
    assert_eq!(sink, StoreLocalStatistic { tables_loaded: 1, blocks_loaded: 2 });
}

#[test]
fn boxed_children_merge_like_plain_ones() {
    let store = x_and_y();
    let mut iter = OrderedMergeIteratorInner::new(vec![
        Box::new(table_iter(&store, 1)),
        Box::new(table_iter(&store, 2)),
    ]);
    iter.rewind().unwrap();
    assert_eq!(iter.key(), key("k1", 7).as_slice());
    assert_eq!(drain(&mut iter).len(), 4);
}
