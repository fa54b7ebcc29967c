//! Compaction: one sorted stream, restricted to a range of keys and passed
//! through a filter, written out as new tables.

use vstd::prelude::*;
use crate::error::HummockResult;
use crate::iterator::{in_order, DirectionEnum, Forward, HummockIterator, HummockIteratorDirection};
use crate::key::{
    compare_key, epoch_of, get_epoch, is_encoded, key_le, lemma_key_order_equal,
    lemma_key_order_flip, lemma_key_order_trans, same_key, KeyOrder,
};
use crate::run::KeyRange;
use crate::sstable::{Sstable, SstableBuilder};
use crate::value::{borrowed_value_view, Entry, EntryView, HummockValue, ValueView};

verus! {

/// Decides, entry by entry, what compaction keeps.
pub trait CompactionFilter {
    /// Whether an entry with this key and value is kept.
    spec fn keeps(&self, key: Seq<u8>, value: ValueView) -> bool;

    /// Whether the entry is kept. `epoch` is the epoch of `key`.
    fn filter(&self, key: &[u8], value: &HummockValue<&[u8]>, epoch: u64) -> (keep: bool)
        requires
            is_encoded(key@),
            epoch == epoch_of(key@),
        ensures
            keep == self.keeps(key@, borrowed_value_view(*value)),
    ;
}

/// The filter that keeps every entry.
pub struct DummyCompactionFilter;

impl CompactionFilter for DummyCompactionFilter {
    open spec fn keeps(&self, key: Seq<u8>, value: ValueView) -> bool {
        true
    }

    fn filter(&self, key: &[u8], value: &HummockValue<&[u8]>, epoch: u64) -> (keep: bool) {
        true
    }
}

/// The filter that drops the tombstones of epochs before its horizon, and
/// keeps everything else.
pub struct TombstoneFilter {
    pub horizon: u64,
}

impl CompactionFilter for TombstoneFilter {
    open spec fn keeps(&self, key: Seq<u8>, value: ValueView) -> bool {
        !(value is Delete && epoch_of(key) < self.horizon)
    }

    fn filter(&self, key: &[u8], value: &HummockValue<&[u8]>, epoch: u64) -> (keep: bool) {
        match value {
            HummockValue::Delete => epoch >= self.horizon,
            HummockValue::Put(_) => true,
        }
    }
}

/// `key` lies within `range`: the range is open, or `key` is neither
/// smaller than its left end nor larger than its right end.
pub open spec fn in_range(range: KeyRange, key: Seq<u8>) -> bool {
    range.inf || (key_le(range.left@, key) && key_le(key, range.right@))
}

/// What compaction writes of the first `n` entries of `s`: those that lie
/// within `range` and that `filter` keeps, but for the ones whose key was
/// written just before.
pub open spec fn compacted_upto<F: CompactionFilter>(
    s: Seq<EntryView>,
    range: KeyRange,
    filter: &F,
    n: int,
) -> Seq<EntryView>
    decreases n,
{
    if n <= 0 {
        Seq::empty()
    } else {
        let before = compacted_upto(s, range, filter, n - 1);
        let e = s[n - 1];
        if in_range(range, e.key) && filter.keeps(e.key, e.value) && (before.len() == 0
            || before.last().key != e.key) {
            before.push(e)
        } else {
            before
        }
    }
}

/// What compaction writes of `s`.
pub open spec fn compacted<F: CompactionFilter>(s: Seq<EntryView>, range: KeyRange, filter: &F) -> Seq<
    EntryView,
> {
    compacted_upto(s, range, filter, s.len() as int)
}

/// The entries of the first `n` tables, one table after the other.
pub open spec fn written(tables: Seq<Sstable>, n: int) -> Seq<EntryView>
    decreases n,
{
    if n <= 0 {
        Seq::empty()
    } else {
        written(tables, n - 1) + tables[n - 1].spec_entries()
    }
}

/// The id of the table that is written after `k` others, counting on from
/// `first` and beginning anew after the largest id.
pub open spec fn table_id(first: u64, k: nat) -> u64 {
    ((first + k) % 0x1_0000_0000_0000_0000) as u64
}

/// Where no entry from `m` up to `n` lies within the range, compaction
/// writes of the first `n` entries what it writes of the first `m`.
pub proof fn lemma_compacted_outside<F: CompactionFilter>(
    s: Seq<EntryView>,
    range: KeyRange,
    filter: &F,
    m: int,
    n: int,
)
    requires
        0 <= m <= n,
        forall|i: int| m <= i < n ==> !in_range(range, #[trigger] s[i].key),
    ensures
        compacted_upto(s, range, filter, n) == compacted_upto(s, range, filter, m),
    decreases n - m,
{
    if m < n {
        lemma_compacted_outside(s, range, filter, m, n - 1);
    }
}

/// What compaction writes are entries of the stream, in their order: the
/// last one written of the first `n` is one of them.
pub proof fn lemma_compacted_last<F: CompactionFilter>(
    s: Seq<EntryView>,
    range: KeyRange,
    filter: &F,
    n: int,
) -> (j: int)
    requires
        0 <= n <= s.len(),
        compacted_upto(s, range, filter, n).len() > 0,
    ensures
        0 <= j < n,
        compacted_upto(s, range, filter, n).last() == s[j],
    decreases n,
{
    let before = compacted_upto(s, range, filter, n - 1);
    if compacted_upto(s, range, filter, n) == before {
        lemma_compacted_last(s, range, filter, n - 1)
    } else {
        n - 1
    }
}

/// Writes what `iter` hands out, from the beginning of `key_range` to its
/// end, as tables: every entry that `filter` keeps, but for one whose key
/// was written just before. A table takes `table_capacity` entries (one, if
/// that is zero) and has blocks of `block_capacity` entries; the tables get
/// the ids from `first_table_id` on. After an error nothing is handed back.
#[verifier::spinoff_prover]
pub fn compact_and_build_sst<I: HummockIterator<Direction = Forward>, F: CompactionFilter>(
    iter: &mut I,
    key_range: &KeyRange,
    filter: &F,
    first_table_id: u64,
    table_capacity: usize,
    block_capacity: usize,
) -> (r: HummockResult<Vec<Sstable>>)
    requires
        old(iter).inv(),
        !(old(iter).state() is AwaitingIo),
        !old(iter).failed(),
        !key_range.inf ==> is_encoded(key_range.left@) && is_encoded(key_range.right@),
    ensures
        final(iter).inv(),
        final(iter).source() == old(iter).source(),
        final(iter).healthy() == old(iter).healthy(),
        old(iter).healthy() ==> r is Ok,
        r is Err ==> final(iter).state() is Exhausted,
        r matches Ok(tables) ==> {
            &&& written(tables@, tables@.len() as int) == compacted(
                old(iter).source(),
                *key_range,
                filter,
            )
            &&& forall|k: int|
                0 <= k < tables@.len() ==> {
                    &&& (#[trigger] tables@[k]).wf()
                    &&& tables@[k].spec_id() == table_id(first_table_id, k as nat)
                    &&& 0 < tables@[k].spec_entries().len()
                    &&& table_capacity > 0 ==> tables@[k].spec_entries().len() <= table_capacity
                }
        },
{
    assert(Forward::spec_direction() == DirectionEnum::Forward);
    let ghost s = iter.source();
    let ghost range = *key_range;
    let capacity: usize = if table_capacity == 0 {
        1
    } else {
        table_capacity
    };
    let positioned = if key_range.inf {
        iter.rewind()
    } else {
        iter.seek(key_range.left.as_slice())
    };
    match positioned {
        Ok(_) => {},
        Err(e) => {
            return Err(e);
        },
    }
    proof {
        iter.lemma_well_formed();
        assert forall|i: int| 0 <= i < iter.position() implies !in_range(
            range,
            #[trigger] s[i].key,
        ) by {
            lemma_key_order_flip(s[i].key, range.left@);
        }
        lemma_compacted_outside(s, range, filter, 0, iter.position() as int);
        if !range.inf {
            let first = iter.position() as int;
            assert forall|i: int| first <= i < s.len() implies key_le(range.left@, #[trigger] s[i].key) by {
                assert(is_encoded(s[first].key) && is_encoded(s[i].key));
                if first < i {
                    assert(in_order(DirectionEnum::Forward, s[first].key, s[i].key));
                    lemma_key_order_trans(range.left@, s[first].key, s[i].key);
                }
            }
        }
    }
    let mut tables: Vec<Sstable> = Vec::new();
    let mut next_id: u64 = first_table_id;
    let mut builder = SstableBuilder::new(next_id, block_capacity);
    let mut last_key: Vec<u8> = Vec::new();
    let mut has_last: bool = false;
    while iter.is_valid()
        invariant
            iter.inv(),
            iter.source() == s,
            iter.healthy() == old(iter).healthy(),
            s == old(iter).source(),
            range == *key_range,
            !range.inf ==> is_encoded(range.left@) && is_encoded(range.right@),
            !range.inf ==> forall|i: int|
                iter.position() <= i < s.len() ==> key_le(range.left@, #[trigger] s[i].key),
            capacity > 0,
            table_capacity > 0 ==> capacity == table_capacity,
            iter.position() <= s.len(),
            iter.state() == crate::iterator::state_at(iter.position(), s.len()),
            builder.wf(),
            builder.spec_id() == next_id,
            builder.spec_entries().len() <= capacity,
            next_id == table_id(first_table_id, tables@.len() as nat),
            written(tables@, tables@.len() as int) + builder.spec_entries() == compacted_upto(
                s,
                range,
                filter,
                iter.position() as int,
            ),
            has_last == (compacted_upto(s, range, filter, iter.position() as int).len() > 0),
            has_last ==> last_key@ == compacted_upto(
                s,
                range,
                filter,
                iter.position() as int,
            ).last().key,
            builder.spec_entries().len() > 0 ==> has_last && builder.spec_entries().last().key
                == last_key@,
            forall|k: int|
                0 <= k < tables@.len() ==> {
                    &&& (#[trigger] tables@[k]).wf()
                    &&& tables@[k].spec_id() == table_id(first_table_id, k as nat)
                    &&& 0 < tables@[k].spec_entries().len() <= capacity
                },
        ensures
            written(tables@, tables@.len() as int) + builder.spec_entries() == compacted(
                s,
                range,
                filter,
            ),
        decreases s.len() - iter.position(),
    {
        let ghost p = iter.position() as int;
        let ghost before = compacted_upto(s, range, filter, p);
        proof {
            iter.lemma_well_formed();
        }
        let key = iter.key();
        assert(is_encoded(s[p].key));
        if !key_range.inf {
            match compare_key(key, key_range.right.as_slice()) {
                KeyOrder::Greater => {
                    proof {
                        assert forall|i: int| p <= i < s.len() implies !in_range(
                            range,
                            #[trigger] s[i].key,
                        ) by {
                            assert(is_encoded(s[i].key));
                            if p < i {
                                assert(in_order(DirectionEnum::Forward, s[p].key, s[i].key));
                            }
                            lemma_key_order_flip(s[p].key, range.right@);
                            lemma_key_order_flip(s[i].key, range.right@);
                            if key_le(s[i].key, range.right@) {
                                crate::key::lemma_key_order_refl(s[p].key);
                                lemma_key_order_trans(s[p].key, s[i].key, range.right@);
                            }
                        }
                        lemma_compacted_outside(s, range, filter, p, s.len() as int);
                    }
                    break ;
                },
                _ => {},
            }
        }
        let value = iter.value();
        let keep = filter.filter(key, &value, get_epoch(key));
        let fresh = !has_last || !same_key(last_key.as_slice(), key);
        if keep && fresh {
            if builder.len() >= capacity {
                let ghost done = tables@;
                let table = builder.finish();
                tables.push(table);
                next_id = next_id.wrapping_add(1);
                builder = SstableBuilder::new(next_id, block_capacity);
                proof {
                    assert forall|k: int| 0 <= k < tables@.len() implies (#[trigger] tables@[k]).wf()
                        && tables@[k].spec_id() == table_id(first_table_id, k as nat) && 0
                        < tables@[k].spec_entries().len() <= capacity by {
                        if k < done.len() {
                            assert(tables@[k] == done[k]);
                        }
                    }
                    assert(written(tables@, tables@.len() - 1) == written(done, done.len() as int)) by {
                        lemma_written_prefix(done, tables@, done.len() as int);
                    }
                    assert(written(tables@, tables@.len() as int) + builder.spec_entries()
                        =~= before);
                }
            }
            let owned_key = vstd::slice::slice_to_vec(key);
            let owned_value = match value {
                HummockValue::Put(v) => HummockValue::Put(vstd::slice::slice_to_vec(v)),
                HummockValue::Delete => HummockValue::Delete,
            };
            let ghost entry = Entry { key: owned_key, value: owned_value };
            let ghost in_builder = builder.spec_entries();
            proof {
                assert(entry@ == s[p]);
                if in_builder.len() > 0 {
                    let j = lemma_compacted_last(s, range, filter, p);
                    assert(is_encoded(s[j].key));
                    assert(in_order(DirectionEnum::Forward, s[j].key, s[p].key));
                    lemma_key_order_equal(s[j].key, s[p].key);
                }
            }
            let added = builder.add(owned_key, owned_value);
            assert(added);
            last_key = vstd::slice::slice_to_vec(key);
            has_last = true;
            proof {
                assert(written(tables@, tables@.len() as int) + builder.spec_entries() =~= (written(
                    tables@,
                    tables@.len() as int,
                ) + in_builder).push(s[p]));
            }
        }
        match iter.next() {
            Ok(_) => {},
            Err(e) => {
                return Err(e);
            },
        }
        proof {
            iter.lemma_well_formed();
        }
    }
    if !builder.is_empty() {
        let ghost done = tables@;
        let ghost rest = builder.spec_entries();
        let table = builder.finish();
        tables.push(table);
        proof {
            lemma_written_prefix(done, tables@, done.len() as int);
            assert forall|k: int| 0 <= k < tables@.len() implies (#[trigger] tables@[k]).wf()
                && tables@[k].spec_id() == table_id(first_table_id, k as nat) && 0
                < tables@[k].spec_entries().len() <= capacity by {
                if k < done.len() {
                    assert(tables@[k] == done[k]);
                }
            }
        }
    } else {
        proof {
            assert(written(tables@, tables@.len() as int) + builder.spec_entries() =~= written(
                tables@,
                tables@.len() as int,
            ));
        }
    }
    Ok(tables)
}

/// Tables written before others are written are not changed by those.
pub proof fn lemma_written_prefix(a: Seq<Sstable>, b: Seq<Sstable>, n: int)
    requires
        0 <= n <= a.len() <= b.len(),
        forall|k: int| 0 <= k < a.len() ==> #[trigger] b[k] == a[k],
    ensures
        written(b, n) == written(a, n),
    decreases n,
{
    if n > 0 {
        lemma_written_prefix(a, b, n - 1);
    }
}

} // verus!
