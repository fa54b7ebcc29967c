use hummock::array::{Bitmap, Column, I32ArrayBuilder};
use hummock::dashboard::{
    JsonActorLocation, JsonDispatcher, JsonNode, JsonStreamActor, JsonStreamNode, JsonWorkerNode,
};
use hummock::data_chunk::{DataChunk, ErrorCode};
use hummock::iterator::{collect, next_by_steps, ConcatIterator, DirectionEnum, HummockIterator};
use hummock::key::{
    compare_bytes, compare_key, get_epoch, key_with_epoch, same_key, user_key, KeyOrder,
};
use hummock::monitor::StoreLocalStatistic;
use hummock::run::{check_run, check_table_in_range, KeyRange, SstableInfo};
use hummock::sstable::{Sstable, SstableBuilder, SstableIteratorReadOptions, SstableStore};
use hummock::value::{Entry, HummockValue};

fn key(user: &str, epoch: u64) -> Vec<u8> {
    key_with_epoch(user.as_bytes().to_vec(), epoch)
}

fn plain(id: u64, block_capacity: usize, users: &[&str]) -> Sstable {
    let mut builder = SstableBuilder::new(id, block_capacity);
    for user in users {
        assert!(builder.add(key(user, 1), HummockValue::Put(user.as_bytes().to_vec())));
    }
    builder.finish()
}

#[test]
fn key_with_epoch_appends_the_epoch_most_significant_byte_first() {
    assert_eq!(
        key_with_epoch(b"ab".to_vec(), 0x0102_0304_0506_0708),
        vec![b'a', b'b', 1, 2, 3, 4, 5, 6, 7, 8]
    );
    assert_eq!(key_with_epoch(vec![], 1), vec![0, 0, 0, 0, 0, 0, 0, 1]);
    assert_eq!(key_with_epoch(vec![9], u64::MAX), vec![9, 255, 255, 255, 255, 255, 255, 255, 255]);
}

#[test]
fn epoch_and_user_key_come_back_out() {
    let k = key("user", 0x0102_0304_0506_0708);
    assert_eq!(get_epoch(&k), 0x0102_0304_0506_0708);
    assert_eq!(user_key(&k), b"user");
    assert_eq!(get_epoch(&key("", u64::MAX)), u64::MAX);
    assert_eq!(get_epoch(&key("x", 0)), 0);
}

#[test]
fn keys_order_by_user_key_then_by_epoch_descending() {
    assert_eq!(compare_key(&key("a", 1), &key("b", 1)), KeyOrder::Less);
    assert_eq!(compare_key(&key("b", 1), &key("a", 9)), KeyOrder::Greater);
    assert_eq!(compare_key(&key("a", 7), &key("a", 5)), KeyOrder::Less);
    assert_eq!(compare_key(&key("a", 5), &key("a", 7)), KeyOrder::Greater);
    assert_eq!(compare_key(&key("a", 5), &key("a", 5)), KeyOrder::Equal);
    // a user key that is the beginning of another comes first, whatever the epochs
    assert_eq!(compare_key(&key("a", 1), &key("ab", 9)), KeyOrder::Less);
    assert_eq!(compare_key(&key("", 1), &key("", 2)), KeyOrder::Greater);
    // epochs compare as numbers
    assert_eq!(compare_key(&key("a", 256), &key("a", 255)), KeyOrder::Less);
}

#[test]
fn bytes_compare_one_after_the_other() {
    assert_eq!(compare_bytes(b"", b""), KeyOrder::Equal);
    assert_eq!(compare_bytes(b"", b"a"), KeyOrder::Less);
    assert_eq!(compare_bytes(b"b", b"ab"), KeyOrder::Greater);
    assert_eq!(compare_bytes(b"ab", b"abc"), KeyOrder::Less);
    assert!(same_key(b"abc", b"abc"));
    assert!(!same_key(b"abc", b"abd"));
    assert!(!same_key(b"abc", b"ab"));
}

#[test]
fn counters_add_up_and_saturate() {
    let mut a = StoreLocalStatistic { tables_loaded: 1, blocks_loaded: 2 };
    a.add(&StoreLocalStatistic { tables_loaded: 10, blocks_loaded: 20 });
    assert_eq!(a, StoreLocalStatistic { tables_loaded: 11, blocks_loaded: 22 });
    a.count_table();
    a.count_block();
    assert_eq!(a, StoreLocalStatistic { tables_loaded: 12, blocks_loaded: 23 });
    let mut b = StoreLocalStatistic { tables_loaded: u64::MAX - 1, blocks_loaded: 0 };
    b.add(&a);
    assert_eq!(b, StoreLocalStatistic { tables_loaded: u64::MAX, blocks_loaded: 23 });
    assert_eq!(StoreLocalStatistic::default(), StoreLocalStatistic { tables_loaded: 0, blocks_loaded: 0 });
}

#[test]
fn builder_cuts_blocks_of_the_capacity_given() {
    let t = plain(3, 2, &["a", "b", "c", "d", "e"]);
    assert_eq!(t.id(), 3);
    assert_eq!(t.len(), 5);
    assert_eq!(t.block_count(), 3);
    assert_eq!(t.smallest_key(), key("a", 1).as_slice());
    assert_eq!(t.largest_key(), key("e", 1).as_slice());
    let empty = SstableBuilder::new(4, 0).finish();
    assert!(empty.is_empty());
    assert_eq!(empty.block_count(), 0);
    // a capacity of zero is taken as one
    let one = plain(5, 0, &["a", "b"]);
    assert_eq!(one.block_count(), 2);
}

#[test]
fn store_loads_blocks_unless_they_are_corrupt() {
    let mut t = plain(1, 2, &["a", "b", "c"]);
    t.corrupt_block(1);
    t.corrupt_block(7);
    let mut store = SstableStore::new();
    store.put(t);
    let mut stats = StoreLocalStatistic::default();
    let t = store.load_table(1, true, &mut stats).unwrap();
    assert_eq!(store.get_block(t, 0, &mut stats), Ok((0, 2)));
    assert!(store.get_block(t, 1, &mut stats).is_err());
    assert_eq!(stats, StoreLocalStatistic { tables_loaded: 1, blocks_loaded: 1 });
    assert!(store.find(1).is_some());
    assert!(store.find(2).is_none());
}

#[test]
fn a_run_is_checked_before_it_is_walked() {
    let first = plain(1, 2, &["a", "b", "c"]);
    let second = plain(2, 2, &["m", "n"]);
    let forward = vec![SstableInfo::of(&first), SstableInfo::of(&second)];
    let backward = vec![SstableInfo::of(&second), SstableInfo::of(&first)];
    let overlapping = vec![
        SstableInfo::of(&first),
        SstableInfo {
            id: 2,
            key_range: KeyRange { left: key("c", 1), right: key("n", 1), inf: false },
            file_size: 2,
            table_ids: vec![],
        },
    ];
    let too_narrow = vec![SstableInfo {
        id: 1,
        key_range: KeyRange { left: key("b", 1), right: key("c", 1), inf: false },
        file_size: 3,
        table_ids: vec![],
    }];
    let open = SstableInfo {
        id: 1,
        key_range: KeyRange { left: vec![], right: vec![], inf: true },
        file_size: 3,
        table_ids: vec![],
    };
    let mut store = SstableStore::new();
    store.put(first);
    store.put(second);
    assert!(check_run(&store, &forward, DirectionEnum::Forward));
    assert!(!check_run(&store, &forward, DirectionEnum::Backward));
    assert!(check_run(&store, &backward, DirectionEnum::Backward));
    assert!(!check_run(&store, &backward, DirectionEnum::Forward));
    assert!(!check_run(&store, &overlapping, DirectionEnum::Forward));
    assert!(!check_run(&store, &too_narrow, DirectionEnum::Forward));
    assert!(!check_table_in_range(&store, &too_narrow[0], DirectionEnum::Forward));
    assert!(check_run(&store, &vec![], DirectionEnum::Forward));
    // a table with an open range stands alone
    assert!(check_run(&store, &vec![open.clone()], DirectionEnum::Forward));
    assert!(!check_run(&store, &vec![open, forward[1].clone()], DirectionEnum::Forward));
}

#[test]
fn an_open_range_is_sought_without_looking_at_its_keys() {
    let mut store = SstableStore::new();
    store.put(plain(1, 2, &["a", "b", "c"]));
    let open = SstableInfo {
        id: 1,
        key_range: KeyRange { left: vec![], right: vec![], inf: true },
        file_size: 3,
        table_ids: vec![],
    };
    let mut iter = ConcatIterator::new(vec![open], &store, SstableIteratorReadOptions::default());
    iter.seek(&key("b", 1)).unwrap();
    assert_eq!(iter.key(), key("b", 1).as_slice());
}

#[test]
fn collect_hands_out_what_is_left() {
    let first = plain(1, 2, &["a", "b", "c"]);
    let second = plain(2, 2, &["m", "n"]);
    let run = vec![SstableInfo::of(&first), SstableInfo::of(&second)];
    let mut store = SstableStore::new();
    store.put(first);
    store.put(second);
    let mut iter = ConcatIterator::new(run, &store, SstableIteratorReadOptions::default());
    iter.seek(&key("c", 1)).unwrap();
    let entries = collect(&mut iter).unwrap();
    let expected: Vec<Entry> = ["c", "m", "n"]
        .iter()
        .map(|u| Entry { key: key(u, 1), value: HummockValue::Put(u.as_bytes().to_vec()) })
        .collect();
    assert_eq!(entries, expected);
    assert!(!iter.is_valid());
    assert!(collect(&mut iter).unwrap().is_empty());
}

#[test]
fn collect_stops_at_the_first_error() {
    let mut t = plain(1, 1, &["a", "b", "c"]);
    t.corrupt_block(2);
    let run = vec![SstableInfo::of(&t)];
    let mut store = SstableStore::new();
    store.put(t);
    let mut iter = ConcatIterator::new(run, &store, SstableIteratorReadOptions::default());
    iter.rewind().unwrap();
    assert!(collect(&mut iter).is_err());
    assert!(!iter.is_valid());
}

fn column_of(values: &[i32]) -> Column {
    let mut builder = I32ArrayBuilder::new(values.len());
    for v in values {
        builder.append(Some(*v));
    }
    Column::new(builder.finish())
}

#[test]
fn key_columns_are_picked_in_the_order_asked() {
    let chunk = DataChunk::new(
        vec![column_of(&[1, 2]), column_of(&[3, 4]), column_of(&[5, 6])],
        2,
        None,
    );
    assert_eq!(chunk.key_columns(&[2, 0]).unwrap(), vec![column_of(&[5, 6]), column_of(&[1, 2])]);
    assert!(chunk.key_columns(&[]).unwrap().is_empty());
    assert_eq!(
        chunk.key_columns(&[1, 5, 9]).unwrap_err(),
        ErrorCode::InvalidArrayIndex { index: 5, count: 3 }
    );
}

#[test]
fn arrays_are_built_cut_and_compacted() {
    let mut builder = I32ArrayBuilder::new(0);
    builder.append(Some(1));
    builder.append(None);
    builder.append(Some(3));
    let array = builder.finish();
    assert_eq!(array.len(), 3);
    assert!(!array.is_empty());
    assert_eq!(array.value_at(1), None);
    let part = array.get_continuous_sub_array(1, 2);
    assert_eq!(part.len(), 2);
    assert_eq!(part.value_at(1), Some(3));
    let visible = array.compact(&Bitmap::new(vec![false, true, true]));
    assert_eq!(visible, part);
    let mut again = I32ArrayBuilder::new(4);
    again.append_array(&part);
    again.append_array(&array);
    let both = again.finish();
    assert_eq!(both.len(), 5);
    assert_eq!(both.value_at(2), Some(1));
    assert_eq!(array.clone(), array);
    let bits = Bitmap::new(vec![true, false, true]);
    assert_eq!(bits.num_set(), 2);
    assert!(Bitmap::new(vec![]).is_empty());
}

#[test]
fn dashboard_values_hold_what_they_are_given() {
    let node = JsonWorkerNode { id: 1, host: "127.0.0.1".to_string(), port: 4567 };
    let plan = JsonStreamNode {
        input: vec![JsonStreamNode {
            input: vec![],
            pk_indices: vec![0],
            node: JsonNode { desc: "source".to_string() },
        }],
        pk_indices: vec![0, 1],
        node: JsonNode { desc: "project".to_string() },
    };
    let actor = JsonStreamActor {
        actor_id: 7,
        nodes: plan,
        dispatcher: JsonDispatcher { dispatcher_type: "Hash".to_string(), column_idx: 0 },
        downstream_actor_id: vec![8, 9],
    };
    let location = JsonActorLocation { node, actor: vec![actor] };
    assert_eq!(location.node.port, 4567);
    assert_eq!(location.actor[0].nodes.input[0].node.desc, "source");
    assert_eq!(location.actor[0].downstream_actor_id, vec![8, 9]);
}

#[test]
fn the_two_steps_do_what_next_does() {
    let first = plain(1, 1, &["a", "b"]);
    let run = vec![SstableInfo::of(&first)];
    let mut store = SstableStore::new();
    store.put(first);
    let mut iter = ConcatIterator::new(run, &store, SstableIteratorReadOptions::default());
    iter.rewind().unwrap();
    next_by_steps(&mut iter).unwrap();
    assert_eq!(iter.key(), key("b", 1).as_slice());
    next_by_steps(&mut iter).unwrap();
    assert!(!iter.is_valid());
}
