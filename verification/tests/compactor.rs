use hummock::compactor::{compact_and_build_sst, DummyCompactionFilter, TombstoneFilter};
use hummock::iterator::compact_concat_iterator::ConcatSstableIterator;
use hummock::iterator::merge_inner::UnorderedMergeIteratorInner;
use hummock::iterator::{
    collect, ConcatIterator, HummockIterator, HummockIteratorUnion, MultiSstIterator,
};
use hummock::key::key_with_epoch;
use hummock::run::{KeyRange, SstableInfo};
use hummock::sstable::{
    Sstable, SstableBuilder, SstableIterator, SstableIteratorReadOptions, SstableStore,
};
use hummock::value::{Entry, HummockValue};

fn key(user: &str, epoch: u64) -> Vec<u8> {
    key_with_epoch(user.as_bytes().to_vec(), epoch)
}

fn put(value: &str) -> HummockValue<Vec<u8>> {
    HummockValue::Put(value.as_bytes().to_vec())
}

fn table(id: u64, block_capacity: usize, entries: Vec<(Vec<u8>, HummockValue<Vec<u8>>)>) -> Sstable {
    let mut builder = SstableBuilder::new(id, block_capacity);
    for (k, v) in entries {
        assert!(builder.add(k, v));
    }
    builder.finish()
}

fn everything() -> KeyRange {
    KeyRange { left: vec![], right: vec![], inf: true }
}

fn entries_of(tables: &[Sstable]) -> Vec<Entry> {
    let store = SstableStore::new();
    let mut all = vec![];
    for t in tables {
        let mut iter = SstableIterator::new(t, &store, SstableIteratorReadOptions::default());
        iter.rewind().unwrap();
        all.extend(collect(&mut iter).unwrap());
    }
    all
}

fn two_levels() -> (SstableStore, Vec<SstableInfo>, Vec<SstableInfo>) {
    let a = table(1, 2, vec![(key("a", 2), put("a2")), (key("c", 2), put("c2"))]);
    let b = table(2, 2, vec![(key("e", 2), HummockValue::Delete), (key("g", 2), put("g2"))]);
    let c = table(3, 2, vec![(key("a", 1), put("a1")), (key("c", 2), put("c-old"))]);
    let d = table(4, 2, vec![(key("e", 1), put("e1")), (key("h", 1), put("h1"))]);
    let level1 = vec![SstableInfo::of(&a), SstableInfo::of(&b)];
    let level2 = vec![SstableInfo::of(&c), SstableInfo::of(&d)];
    let mut store = SstableStore::new();
    store.put(a);
    store.put(b);
    store.put(c);
    store.put(d);
    (store, level1, level2)
}

fn merge_of<'a>(
    store: &'a SstableStore,
    level1: Vec<SstableInfo>,
    level2: Vec<SstableInfo>,
) -> UnorderedMergeIteratorInner<ConcatSstableIterator<'a>> {
    UnorderedMergeIteratorInner::new(vec![
        ConcatSstableIterator::new(level1, store, SstableIteratorReadOptions { prefetch: true }),
        ConcatSstableIterator::new(level2, store, SstableIteratorReadOptions { prefetch: true }),
    ])
}

fn expect(entries: &[(&str, u64, Option<&str>)]) -> Vec<Entry> {
    entries
        .iter()
        .map(|(u, e, v)| Entry {
            key: key(u, *e),
            value: match v {
                Some(v) => put(v),
                None => HummockValue::Delete,
            },
        })
        .collect()
}

#[test]
fn compaction_writes_the_merged_stream_as_tables() {
    let (store, level1, level2) = two_levels();
    let mut iter = merge_of(&store, level1, level2);
    let tables =
        compact_and_build_sst(&mut iter, &everything(), &DummyCompactionFilter, 32, 3, 2).unwrap();
    assert_eq!(tables.len(), 3);
    assert_eq!(tables[0].id(), 32);
    assert_eq!(tables[1].id(), 33);
    assert_eq!(tables[2].id(), 34);
    assert_eq!(tables[0].len(), 3);
    assert_eq!(tables[2].len(), 1);
    assert_eq!(tables[0].block_count(), 2);
    // the key that both levels hold is written once, from the first level;
    // the tombstone is kept
    assert_eq!(
        entries_of(&tables),
        expect(&[
            ("a", 2, Some("a2")),
            ("a", 1, Some("a1")),
            ("c", 2, Some("c2")),
            ("e", 2, None),
            ("e", 1, Some("e1")),
            ("g", 2, Some("g2")),
            ("h", 1, Some("h1")),
        ])
    );
}

#[test]
fn compaction_keeps_to_the_key_range() {
    let (store, level1, level2) = two_levels();
    let mut iter = merge_of(&store, level1, level2);
    let range = KeyRange { left: key("c", 9), right: key("g", 2), inf: false };
    let tables = compact_and_build_sst(&mut iter, &range, &DummyCompactionFilter, 1, 0, 1).unwrap();
    // a capacity of zero is taken as one
    assert_eq!(tables.len(), 4);
    assert_eq!(
        entries_of(&tables),
        expect(&[("c", 2, Some("c2")), ("e", 2, None), ("e", 1, Some("e1")), ("g", 2, Some("g2"))])
    );
}

#[test]
fn the_filter_decides_what_is_dropped() {
    let (store, level1, level2) = two_levels();
    let mut iter = merge_of(&store, level1.clone(), level2.clone());
    let tables =
        compact_and_build_sst(&mut iter, &everything(), &TombstoneFilter { horizon: 3 }, 1, 10, 4)
            .unwrap();
    assert_eq!(tables.len(), 1);
    assert_eq!(
        entries_of(&tables),
        expect(&[
            ("a", 2, Some("a2")),
            ("a", 1, Some("a1")),
            ("c", 2, Some("c2")),
            ("e", 1, Some("e1")),
            ("g", 2, Some("g2")),
            ("h", 1, Some("h1")),
        ])
    );
    // a tombstone at the horizon or after it stays
    let mut iter = merge_of(&store, level1, level2);
    let tables =
        compact_and_build_sst(&mut iter, &everything(), &TombstoneFilter { horizon: 2 }, 1, 10, 4)
            .unwrap();
    assert_eq!(entries_of(&tables).len(), 7);
}

#[test]
fn compaction_of_nothing_writes_no_table() {
    let store = SstableStore::new();
    let mut iter = merge_of(&store, vec![], vec![]);
    let tables =
        compact_and_build_sst(&mut iter, &everything(), &DummyCompactionFilter, 1, 4, 4).unwrap();
    assert!(tables.is_empty());
}

#[test]
fn an_error_aborts_compaction() {
    let mut broken = table(1, 1, vec![(key("a", 1), put("a")), (key("b", 1), put("b"))]);
    broken.corrupt_block(1);
    let run = vec![SstableInfo::of(&broken)];
    let mut store = SstableStore::new();
    store.put(broken);
    let children: Vec<HummockIteratorUnion<_, ConcatIterator, SstableIterator>> =
        vec![HummockIteratorUnion::First(ConcatIterator::new(
            run,
            &store,
            SstableIteratorReadOptions::default(),
        ))];
    let mut iter = MultiSstIterator::new(children);
    assert!(compact_and_build_sst(&mut iter, &everything(), &DummyCompactionFilter, 1, 4, 4).is_err());
    assert!(!iter.is_valid());
}
