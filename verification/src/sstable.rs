//! Sorted tables, the store that holds them, and the iterator over one table.
//!
//! A table is an immutable sorted list of entries, cut into blocks. The
//! table's index, which says where each block ends and so which key is its
//! largest, is at hand as soon as the table is; the entries of a block are
//! read only after the block was loaded from the store, which fails where
//! the block is corrupt.

use vstd::prelude::*;
use crate::error::{HummockError, HummockResult};
use crate::iterator::{
    all_encoded, in_order, state_at, strictly_before, DirectionEnum, Forward, HummockIterator,
    HummockIteratorDirection, IteratorState, Poll,
};
use crate::key::{
    compare_key, is_encoded, key_order, lemma_key_order_flip, lemma_key_order_trans, KeyOrder,
};
use crate::monitor::StoreLocalStatistic;
use crate::run::directed;
use crate::value::{borrowed_value_view, entries_view, Entry, EntryView, HummockValue};

verus! {

/// Where a block ends in its table, and whether it can be decoded.
#[derive(Clone, Copy, Debug, PartialEq, Eq, Structural)]
pub struct BlockMeta {
    /// Index in the table of the entry after the block's last.
    pub end: usize,
    /// Whether the block fails its checksum.
    pub corrupt: bool,
}

/// Index in the table of the first entry of block `b`.
pub open spec fn block_start(blocks: Seq<BlockMeta>, b: int) -> int {
    if b <= 0 {
        0
    } else {
        blocks[b - 1].end as int
    }
}

/// The keys of `s` grow strictly from each entry to the next.
pub open spec fn strictly_sorted(s: Seq<EntryView>) -> bool {
    forall|i: int, j: int|
        0 <= i < j < s.len() ==> key_order(#[trigger] s[i].key, #[trigger] s[j].key)
            == KeyOrder::Less
}

/// Block `b` is not empty and ends within the first `len` entries.
pub open spec fn block_in_place(blocks: Seq<BlockMeta>, len: int, b: int) -> bool {
    block_start(blocks, b) < blocks[b].end <= len
}

/// The blocks cut `len` entries into consecutive parts, none of them empty.
pub open spec fn blocks_cover(blocks: Seq<BlockMeta>, len: int) -> bool {
    &&& (blocks.len() == 0 <==> len == 0)
    &&& forall|b: int| 0 <= b < blocks.len() ==> #[trigger] block_in_place(blocks, len, b)
    &&& blocks.len() > 0 ==> blocks[blocks.len() - 1].end == len
}

/// A later block starts where an earlier one ends, or after it.
pub proof fn lemma_blocks_in_order(blocks: Seq<BlockMeta>, len: int, b1: int, b2: int)
    requires
        blocks_cover(blocks, len),
        0 <= b1 < b2 < blocks.len(),
    ensures
        blocks[b1].end <= block_start(blocks, b2),
    decreases b2 - b1,
{
    if b1 + 1 < b2 {
        lemma_blocks_in_order(blocks, len, b1, b2 - 1);
        assert(block_in_place(blocks, len, b2 - 1));
    }
}

/// One sorted table.
#[derive(Debug)]
pub struct Sstable {
    id: u64,
    entries: Vec<Entry>,
    blocks: Vec<BlockMeta>,
}

impl Sstable {
    /// The id under which the store holds the table.
    pub closed spec fn spec_id(&self) -> u64 {
        self.id
    }

    /// The entries of the table, in ascending order of their keys.
    pub closed spec fn spec_entries(&self) -> Seq<EntryView> {
        entries_view(self.entries@)
    }

    /// The blocks of the table, in their order.
    pub closed spec fn spec_blocks(&self) -> Seq<BlockMeta> {
        self.blocks@
    }

    /// The keys are encoded keys and grow strictly, and the blocks cut the
    /// entries into parts of which none is empty.
    pub open spec fn wf(&self) -> bool {
        &&& all_encoded(self.spec_entries())
        &&& strictly_sorted(self.spec_entries())
        &&& blocks_cover(self.spec_blocks(), self.spec_entries().len() as int)
    }

    pub fn id(&self) -> (id: u64)
        ensures
            id == self.spec_id(),
    {
        self.id
    }

    /// Number of entries.
    pub fn len(&self) -> (n: usize)
        ensures
            n == self.spec_entries().len(),
    {
        self.entries.len()
    }

    /// Whether the table has no entry.
    pub fn is_empty(&self) -> (b: bool)
        ensures
            b == (self.spec_entries().len() == 0),
    {
        self.entries.len() == 0
    }

    /// Number of blocks.
    pub fn block_count(&self) -> (n: usize)
        ensures
            n == self.spec_blocks().len(),
    {
        self.blocks.len()
    }

    /// The smallest key of the table.
    pub fn smallest_key(&self) -> (k: &[u8])
        requires
            self.spec_entries().len() > 0,
        ensures
            k@ == self.spec_entries()[0].key,
    {
        self.entries[0].key.as_slice()
    }

    /// The largest key of the table.
    pub fn largest_key(&self) -> (k: &[u8])
        requires
            self.spec_entries().len() > 0,
        ensures
            k@ == self.spec_entries()[self.spec_entries().len() - 1].key,
    {
        self.entries[self.entries.len() - 1].key.as_slice()
    }

    /// Marks block `block_idx` as one that fails its checksum. Nothing
    /// changes where the table has no such block.
    pub fn corrupt_block(&mut self, block_idx: usize)
        ensures
            final(self).spec_id() == old(self).spec_id(),
            final(self).spec_entries() == old(self).spec_entries(),
            final(self).spec_blocks().len() == old(self).spec_blocks().len(),
            forall|b: int|
                0 <= b < old(self).spec_blocks().len() ==> (#[trigger] final(self).spec_blocks()[b]).end
                    == old(self).spec_blocks()[b].end && final(self).spec_blocks()[b].corrupt == (b
                    == block_idx || old(self).spec_blocks()[b].corrupt),
            old(self).wf() ==> final(self).wf(),
    {
        if block_idx < self.blocks.len() {
            let end: usize = self.blocks[block_idx].end;
            self.blocks.set(block_idx, BlockMeta { end, corrupt: true });
            proof {
                let ob = old(self).spec_blocks();
                let nb = self.spec_blocks();
                let len = self.spec_entries().len() as int;
                if blocks_cover(ob, len) {
                    assert forall|b: int| 0 <= b < nb.len() implies #[trigger] block_in_place(
                        nb,
                        len,
                        b,
                    ) by {
                        assert(block_in_place(ob, len, b));
                    }
                }
            }
        }
    }

    /// The key of entry `idx`, as the table's index gives it.
    pub(crate) fn key_at(&self, idx: usize) -> (k: &[u8])
        requires
            idx < self.spec_entries().len(),
        ensures
            k@ == self.spec_entries()[idx as int].key,
    {
        self.entries[idx].key.as_slice()
    }

    /// The value of entry `idx`.
    pub(crate) fn value_at(&self, idx: usize) -> (v: HummockValue<&[u8]>)
        requires
            idx < self.spec_entries().len(),
        ensures
            borrowed_value_view(v) == self.spec_entries()[idx as int].value,
    {
        self.entries[idx].value.as_slice()
    }

    /// Where block `b` starts.
    pub(crate) fn start_of(&self, b: usize) -> (r: usize)
        requires
            b < self.spec_blocks().len(),
        ensures
            r == block_start(self.spec_blocks(), b as int),
    {
        if b == 0 {
            0
        } else {
            self.blocks[b - 1].end
        }
    }

    /// Where block `b` ends.
    pub(crate) fn end_of(&self, b: usize) -> (r: usize)
        requires
            b < self.spec_blocks().len(),
        ensures
            r == self.spec_blocks()[b as int].end,
    {
        self.blocks[b].end
    }

    /// Whether block `b` fails its checksum.
    pub(crate) fn is_corrupt(&self, b: usize) -> (r: bool)
        requires
            b < self.spec_blocks().len(),
        ensures
            r == self.spec_blocks()[b as int].corrupt,
    {
        self.blocks[b].corrupt
    }
}

/// Builds a table from entries added in ascending order of their keys.
pub struct SstableBuilder {
    id: u64,
    block_capacity: usize,
    entries: Vec<Entry>,
}

impl SstableBuilder {
    /// What was added so far.
    pub closed spec fn spec_entries(&self) -> Seq<EntryView> {
        entries_view(self.entries@)
    }

    /// The id that the table will have.
    pub closed spec fn spec_id(&self) -> u64 {
        self.id
    }

    /// How many entries a block takes.
    pub closed spec fn spec_block_capacity(&self) -> usize {
        self.block_capacity
    }

    /// What was added are encoded keys that grow strictly, and a block
    /// takes at least one entry.
    pub open spec fn wf(&self) -> bool {
        &&& all_encoded(self.spec_entries())
        &&& strictly_sorted(self.spec_entries())
        &&& self.spec_block_capacity() > 0
    }

    /// A builder for table `id` with blocks of `block_capacity` entries; a
    /// capacity of zero is taken as one.
    pub fn new(id: u64, block_capacity: usize) -> (r: Self)
        ensures
            r.wf(),
            r.spec_id() == id,
            r.spec_block_capacity() == if block_capacity == 0 {
                1usize
            } else {
                block_capacity
            },
            r.spec_entries() == Seq::<EntryView>::empty(),
    {
        let r = SstableBuilder {
            id,
            block_capacity: if block_capacity == 0 {
                1
            } else {
                block_capacity
            },
            entries: Vec::new(),
        };
        assert(r.spec_entries() =~= Seq::<EntryView>::empty());
        r
    }

    /// How many entries were added.
    pub fn len(&self) -> (n: usize)
        ensures
            n == self.spec_entries().len(),
    {
        self.entries.len()
    }

    /// Whether nothing was added.
    pub fn is_empty(&self) -> (b: bool)
        ensures
            b == (self.spec_entries().len() == 0),
    {
        self.entries.len() == 0
    }

    /// Adds an entry at the end, if its key is an encoded key larger than
    /// the last one added, and says whether it did.
    pub fn add(&mut self, key: Vec<u8>, value: HummockValue<Vec<u8>>) -> (added: bool)
        requires
            old(self).wf(),
        ensures
            final(self).wf(),
            final(self).spec_id() == old(self).spec_id(),
            final(self).spec_block_capacity() == old(self).spec_block_capacity(),
            added == (is_encoded(key@) && (old(self).spec_entries().len() > 0 ==> key_order(
                old(self).spec_entries().last().key,
                key@,
            ) == KeyOrder::Less)),
            added ==> final(self).spec_entries() == old(self).spec_entries().push(
                (Entry { key, value })@,
            ),
            !added ==> final(self).spec_entries() == old(self).spec_entries(),
    {
        if key.len() < 8 {
            return false;
        }
        let n: usize = self.entries.len();
        if n > 0 {
            let last = self.entries[n - 1].key.as_slice();
            assert(last@ == self.spec_entries()[n - 1].key);
            match compare_key(last, key.as_slice()) {
                KeyOrder::Less => {},
                _ => {
                    return false;
                },
            }
        }
        let entry = Entry { key, value };
        self.entries.push(entry);
        proof {
            let old_s = old(self).spec_entries();
            let s = self.spec_entries();
            assert(s =~= old_s.push(entry@));
            assert forall|i: int, j: int| 0 <= i < j < s.len() implies key_order(
                #[trigger] s[i].key,
                #[trigger] s[j].key,
            ) == KeyOrder::Less by {
                if j == n && i < n - 1 {
                    assert(s[i] == old_s[i] && s[n - 1] == old_s[n - 1]);
                    lemma_key_order_trans(s[i].key, s[n - 1].key, s[j].key);
                } else if j < n {
                    assert(s[i] == old_s[i] && s[j] == old_s[j]);
                }
            }
        }
        true
    }

    /// The table of what was added.
    pub fn finish(self) -> (t: Sstable)
        requires
            self.wf(),
        ensures
            t.wf(),
            t.spec_id() == self.spec_id(),
            t.spec_entries() == self.spec_entries(),
            forall|b: int| 0 <= b < t.spec_blocks().len() ==> !(#[trigger] t.spec_blocks()[b]).corrupt,
            forall|b: int|
                0 <= b < t.spec_blocks().len() ==> (#[trigger] t.spec_blocks()[b]).end - block_start(
                    t.spec_blocks(),
                    b,
                ) <= self.spec_block_capacity(),
    {
        let len: usize = self.entries.len();
        let cap: usize = self.block_capacity;
        let mut blocks: Vec<BlockMeta> = Vec::new();
        let mut start: usize = 0;
        while start < len
            invariant
                start <= len,
                cap > 0,
                blocks@.len() == 0 <==> start == 0,
                blocks@.len() > 0 ==> blocks@[blocks@.len() - 1].end == start,
                forall|b: int| 0 <= b < blocks@.len() ==> #[trigger] block_in_place(blocks@, start as int, b),
                forall|b: int|
                    0 <= b < blocks@.len() ==> !(#[trigger] blocks@[b]).corrupt && blocks@[b].end
                        - block_start(blocks@, b) <= cap,
            decreases len - start,
        {
            let end: usize = if len - start <= cap {
                len
            } else {
                start + cap
            };
            let ghost before = blocks@;
            blocks.push(BlockMeta { end, corrupt: false });
            proof {
                assert forall|b: int| 0 <= b < blocks@.len() implies #[trigger] block_in_place(
                    blocks@,
                    end as int,
                    b,
                ) by {
                    if b < before.len() {
                        assert(block_in_place(before, start as int, b));
                    }
                }
                assert forall|b: int| 0 <= b < blocks@.len() implies !(#[trigger] blocks@[b]).corrupt
                    && blocks@[b].end - block_start(blocks@, b) <= cap by {
                    if b < before.len() {
                        assert(blocks@[b] == before[b]);
                    }
                }
            }
            start = end;
        }
        Sstable { id: self.id, entries: self.entries, blocks }
    }
}

/// What a read of a table may ask of the store.
#[derive(Clone, Copy, Debug, PartialEq, Eq, Structural)]
pub struct SstableIteratorReadOptions {
    /// Whether tables are fetched with the call that also prefetches them.
    pub prefetch: bool,
}

impl Default for SstableIteratorReadOptions {
    fn default() -> (r: Self)
        ensures
            r == (SstableIteratorReadOptions { prefetch: false }),
    {
        SstableIteratorReadOptions { prefetch: false }
    }
}

/// The index of the first table with id `id` among the tables from index
/// `from` on, if there is one.
pub open spec fn first_with_id(tables: Seq<Sstable>, id: u64, from: int) -> Option<int>
    decreases tables.len() - from,
{
    if from < 0 || from >= tables.len() {
        None
    } else if tables[from].spec_id() == id {
        Some(from)
    } else {
        first_with_id(tables, id, from + 1)
    }
}

/// Holds tables by id and hands them out to iterators.
pub struct SstableStore {
    tables: Vec<Sstable>,
}

impl SstableStore {
    /// The tables in the store, in the order in which they were put.
    pub closed spec fn spec_tables(&self) -> Seq<Sstable> {
        self.tables@
    }

    /// Every table in the store is well formed.
    pub open spec fn wf(&self) -> bool {
        forall|i: int| 0 <= i < self.spec_tables().len() ==> (#[trigger] self.spec_tables()[i]).wf()
    }

    /// The table that the store hands out for `id`.
    pub open spec fn lookup(&self, id: u64) -> Option<Sstable> {
        match first_with_id(self.spec_tables(), id, 0) {
            Some(i) => Some(self.spec_tables()[i]),
            None => None,
        }
    }

    /// A store without tables.
    pub fn new() -> (r: Self)
        ensures
            r.wf(),
            r.spec_tables() == Seq::<Sstable>::empty(),
    {
        SstableStore { tables: Vec::new() }
    }

    /// Puts a table into the store.
    pub fn put(&mut self, table: Sstable)
        requires
            old(self).wf(),
            table.wf(),
        ensures
            final(self).wf(),
            final(self).spec_tables() == old(self).spec_tables().push(table),
    {
        self.tables.push(table);
        proof {
            assert forall|i: int| 0 <= i < self.spec_tables().len() implies (
            #[trigger] self.spec_tables()[i]).wf() by {
                if i < old(self).spec_tables().len() {
                    assert(self.spec_tables()[i] == old(self).spec_tables()[i]);
                }
            }
        }
    }

    /// The table with id `id`, if the store holds one.
    pub fn find<'a>(&'a self, id: u64) -> (r: Option<&'a Sstable>)
        ensures
            match r {
                Some(t) => self.lookup(id) == Some(*t),
                None => self.lookup(id) is None,
            },
    {
        let mut i: usize = 0;
        while i < self.tables.len()
            invariant
                i <= self.tables.len(),
                first_with_id(self.tables@, id, 0) == first_with_id(self.tables@, id, i as int),
            decreases self.tables.len() - i,
        {
            if self.tables[i].id == id {
                return Some(&self.tables[i]);
            }
            i += 1;
        }
        None
    }

    /// The table with id `id`, from what the store holds already. Counts
    /// the table in `stats` when it is found.
    pub fn sstable<'a>(&'a self, id: u64, stats: &mut StoreLocalStatistic) -> (r: HummockResult<
        &'a Sstable,
    >)
        ensures
            match r {
                Ok(t) => self.lookup(id) == Some(*t) && *final(stats) == old(stats).plus(
                    StoreLocalStatistic { tables_loaded: 1, blocks_loaded: 0 },
                ),
                Err(e) => self.lookup(id) is None && e == (HummockError::ObjectNotFound {
                    sst_id: id,
                }) && *final(stats) == *old(stats),
            },
    {
        match self.find(id) {
            Some(table) => {
                stats.count_table();
                Ok(table)
            },
            None => Err(HummockError::ObjectNotFound { sst_id: id }),
        }
    }

    /// The table with id `id`, fetched with its blocks where `load_data`
    /// says so. Counts the table in `stats` when it is found.
    pub fn load_table<'a>(
        &'a self,
        id: u64,
        load_data: bool,
        stats: &mut StoreLocalStatistic,
    ) -> (r: HummockResult<&'a Sstable>)
        ensures
            match r {
                Ok(t) => self.lookup(id) == Some(*t) && *final(stats) == old(stats).plus(
                    StoreLocalStatistic { tables_loaded: 1, blocks_loaded: 0 },
                ),
                Err(e) => self.lookup(id) is None && e == (HummockError::ObjectNotFound {
                    sst_id: id,
                }) && *final(stats) == *old(stats),
            },
    {
        self.sstable(id, stats)
    }

    /// Loads block `block_idx` of `table`: the range of entries that it
    /// holds, or an error where the block is corrupt. Counts the block in
    /// `stats` when it is loaded.
    pub fn get_block(&self, table: &Sstable, block_idx: usize, stats: &mut StoreLocalStatistic) -> (r:
        HummockResult<(usize, usize)>)
        requires
            block_idx < table.spec_blocks().len(),
        ensures
            match r {
                Ok((start, end)) => !table.spec_blocks()[block_idx as int].corrupt && start
                    == block_start(table.spec_blocks(), block_idx as int) && end
                    == table.spec_blocks()[block_idx as int].end && *final(stats) == old(stats).plus(
                    StoreLocalStatistic { tables_loaded: 0, blocks_loaded: 1 },
                ),
                Err(e) => table.spec_blocks()[block_idx as int].corrupt && e == (
                HummockError::ChecksumMismatch { sst_id: table.spec_id(), block_idx }) && *final(stats)
                    == *old(stats),
            },
    {
        if table.is_corrupt(block_idx) {
            Err(HummockError::ChecksumMismatch { sst_id: table.id, block_idx })
        } else {
            stats.count_block();
            Ok((table.start_of(block_idx), table.end_of(block_idx)))
        }
    }
}

/// An entry that stands at or before one that is smaller than `key` is
/// smaller than `key` too.
pub proof fn lemma_smaller_than_key(t: &Sstable, i: int, j: int, key: Seq<u8>)
    requires
        t.wf(),
        0 <= i <= j < t.spec_entries().len(),
        is_encoded(key),
        key_order(t.spec_entries()[j].key, key) == KeyOrder::Less,
    ensures
        key_order(t.spec_entries()[i].key, key) == KeyOrder::Less,
{
    if i < j {
        let s = t.spec_entries();
        assert(key_order(s[i].key, s[j].key) == KeyOrder::Less);
        assert(is_encoded(s[i].key) && is_encoded(s[j].key));
        lemma_key_order_trans(s[i].key, s[j].key, key);
    }
}

/// An entry that stands at or after one that is not smaller than `key` is
/// not smaller than `key` either.
pub proof fn lemma_not_smaller_than_key(t: &Sstable, i: int, j: int, key: Seq<u8>)
    requires
        t.wf(),
        0 <= i <= j < t.spec_entries().len(),
        is_encoded(key),
        key_order(t.spec_entries()[i].key, key) != KeyOrder::Less,
    ensures
        key_order(t.spec_entries()[j].key, key) != KeyOrder::Less,
{
    if i < j {
        let s = t.spec_entries();
        assert(key_order(s[i].key, s[j].key) == KeyOrder::Less);
        assert(is_encoded(s[i].key) && is_encoded(s[j].key));
        lemma_key_order_flip(s[i].key, key);
        lemma_key_order_flip(s[j].key, key);
        if key_order(s[j].key, key) == KeyOrder::Less {
            lemma_key_order_trans(s[i].key, s[j].key, key);
        }
    }
}

/// No block of `t` fails its checksum.
pub open spec fn sound_table(t: &Sstable) -> bool {
    forall|b: int| 0 <= b < t.spec_blocks().len() ==> !(#[trigger] t.spec_blocks()[b]).corrupt
}

/// The counters after one more block was loaded.
pub open spec fn with_one_block(stats: StoreLocalStatistic) -> StoreLocalStatistic {
    stats.plus(StoreLocalStatistic { tables_loaded: 0, blocks_loaded: 1 })
}

/// The error of a block that fails its checksum.
pub open spec fn corrupt_block_error(t: &Sstable, b: int) -> HummockError {
    HummockError::ChecksumMismatch { sst_id: t.spec_id(), block_idx: b as usize }
}

/// The largest key of block `b` of `t` is smaller than `key`.
pub open spec fn block_below(t: &Sstable, b: int, key: Seq<u8>) -> bool {
    key_order(t.spec_entries()[t.spec_blocks()[b].end - 1].key, key) == KeyOrder::Less
}

/// The block of `t` in which a forward seek for `key` lands: the first whose
/// largest key is not smaller than `key`; the number of blocks if there is
/// none.
pub open spec fn is_seek_block(t: &Sstable, key: Seq<u8>, b: int) -> bool {
    &&& 0 <= b <= t.spec_blocks().len()
    &&& forall|c: int| 0 <= c < b ==> #[trigger] block_below(t, c, key)
    &&& b < t.spec_blocks().len() ==> !block_below(t, b, key)
}

/// Iterates over the entries of one table, in ascending order of their keys.
pub struct SstableIterator<'a> {
    table: &'a Sstable,
    store: &'a SstableStore,
    state: IteratorState,
    /// The block that is loaded.
    cur_block: usize,
    /// Where the loaded block ends.
    block_end: usize,
    /// The entry on which the iterator stands.
    cur_idx: usize,
    stats: StoreLocalStatistic,
    read_options: SstableIteratorReadOptions,
    /// Whether a load has failed.
    failed: Ghost<bool>,
}

impl<'a> SstableIterator<'a> {
    /// The table that the iterator ranges over.
    pub closed spec fn spec_table(&self) -> &Sstable {
        self.table
    }

    /// The block that is loaded, while the iterator is valid or awaits the
    /// next one.
    pub closed spec fn spec_block(&self) -> int {
        self.cur_block as int
    }

    /// The error with which the next step of a valid iterator fails, if it
    /// does: the iterator stands on the last entry of its block, and the
    /// next block is corrupt.
    pub open spec fn step_error(&self) -> Option<HummockError> {
        let blocks = self.spec_table().spec_blocks();
        let b = self.spec_block();
        if self.position() + 1 == blocks[b].end && b + 1 < blocks.len() && blocks[b + 1].corrupt {
            Some(corrupt_block_error(self.spec_table(), b + 1))
        } else {
            None
        }
    }

    /// An iterator over `table`, neither rewound nor sought.
    pub fn new(
        table: &'a Sstable,
        store: &'a SstableStore,
        read_options: SstableIteratorReadOptions,
    ) -> (r: Self)
        requires
            table.wf(),
        ensures
            r.inv(),
            r.state() is Uninitialized,
            r.spec_table() == table,
            r.source() == table.spec_entries(),
            r.local_stats() == StoreLocalStatistic::zero(),
            r.healthy() == sound_table(table),
            !r.failed(),
    {
        SstableIterator {
            table,
            store,
            state: IteratorState::Uninitialized,
            cur_block: 0,
            block_end: 0,
            cur_idx: 0,
            stats: StoreLocalStatistic { tables_loaded: 0, blocks_loaded: 0 },
            read_options,
            failed: Ghost(false),
        }
    }

    /// Loads block `b` and stands on its first entry.
    fn load_block(&mut self, b: usize) -> (r: HummockResult<()>)
        requires
            old(self).inv(),
            !old(self).failed@,
            b < old(self).table.spec_blocks().len(),
        ensures
            final(self).inv(),
            final(self).table == old(self).table,
            final(self).store == old(self).store,
            final(self).failed@ == (r is Err),
            match r {
                Ok(_) => {
                    &&& !old(self).table.spec_blocks()[b as int].corrupt
                    &&& final(self).state is Valid
                    &&& final(self).cur_block == b
                    &&& final(self).cur_idx == block_start(old(self).table.spec_blocks(), b as int)
                    &&& final(self).stats == old(self).stats.plus(
                        StoreLocalStatistic { tables_loaded: 0, blocks_loaded: 1 },
                    )
                },
                Err(e) => {
                    &&& old(self).table.spec_blocks()[b as int].corrupt
                    &&& e == (HummockError::ChecksumMismatch {
                        sst_id: old(self).table.spec_id(),
                        block_idx: b,
                    })
                    &&& final(self).state is Exhausted
                    &&& final(self).stats == old(self).stats
                },
            },
    {
        proof {
            assert(block_in_place(
                self.table.spec_blocks(),
                self.table.spec_entries().len() as int,
                b as int,
            ));
        }
        match self.store.get_block(self.table, b, &mut self.stats) {
            Ok((start, end)) => {
                self.cur_block = b;
                self.block_end = end;
                self.cur_idx = start;
                self.state = IteratorState::Valid;
                Ok(())
            },
            Err(e) => {
                self.state = IteratorState::Exhausted;
                self.failed = Ghost(true);
                Err(e)
            },
        }
    }

    /// The first block whose largest key is not smaller than `key`.
    fn seek_block(&self, key: &[u8]) -> (b: usize)
        requires
            self.inv(),
            is_encoded(key@),
        ensures
            is_seek_block(self.table, key@, b as int),
    {
        let ghost t = self.table;
        let ghost len = t.spec_entries().len() as int;
        let n: usize = self.table.block_count();
        let mut lo: usize = 0;
        let mut hi: usize = n;
        while lo < hi
            invariant
                t == self.table,
                t.wf(),
                len == t.spec_entries().len(),
                n == t.spec_blocks().len(),
                is_encoded(key@),
                lo <= hi <= n,
                forall|c: int| 0 <= c < lo ==> #[trigger] block_below(t, c, key@),
                forall|c: int| hi <= c < n ==> !#[trigger] block_below(t, c, key@),
            decreases hi - lo,
        {
            let mid: usize = lo + (hi - lo) / 2;
            assert(block_in_place(t.spec_blocks(), len, mid as int));
            let last = self.table.key_at(self.table.end_of(mid) - 1);
            assert(is_encoded(t.spec_entries()[t.spec_blocks()[mid as int].end - 1].key));
            match compare_key(last, key) {
                KeyOrder::Less => {
                    proof {
                        assert forall|c: int| 0 <= c < mid + 1 implies #[trigger] block_below(
                            t,
                            c,
                            key@,
                        ) by {
                            assert(block_in_place(t.spec_blocks(), len, c));
                            if c < mid {
                                lemma_blocks_in_order(t.spec_blocks(), len, c, mid as int);
                            }
                            lemma_smaller_than_key(
                                t,
                                t.spec_blocks()[c].end - 1,
                                t.spec_blocks()[mid as int].end - 1,
                                key@,
                            );
                        }
                    }
                    lo = mid + 1;
                },
                _ => {
                    proof {
                        assert forall|c: int| mid <= c < n implies !#[trigger] block_below(
                            t,
                            c,
                            key@,
                        ) by {
                            assert(block_in_place(t.spec_blocks(), len, c));
                            if mid < c {
                                lemma_blocks_in_order(t.spec_blocks(), len, mid as int, c);
                            }
                            lemma_not_smaller_than_key(
                                t,
                                t.spec_blocks()[mid as int].end - 1,
                                t.spec_blocks()[c].end - 1,
                                key@,
                            );
                        }
                    }
                    hi = mid;
                },
            }
        }
        lo
    }

    /// Moves to the next entry and loads the next block where that is
    /// needed, as compaction steps: no version of a key is passed over.
    pub fn next_for_compact(&mut self) -> (r: HummockResult<()>)
        requires
            old(self).inv(),
            old(self).state() is Valid,
        ensures
            final(self).inv(),
            final(self).source() == old(self).source(),
            r is Ok ==> final(self).position() == old(self).position() + 1 && final(self).state()
                == state_at(final(self).position(), final(self).source().len()),
            r is Err ==> final(self).state() is Exhausted,
            final(self).spec_table() == old(self).spec_table(),
            r is Err <==> {
                let blocks = old(self).spec_table().spec_blocks();
                let b = old(self).spec_block();
                old(self).position() + 1 == blocks[b].end && b + 1 < blocks.len() && blocks[b
                    + 1].corrupt
            },
            r matches Err(e) ==> e == corrupt_block_error(
                old(self).spec_table(),
                old(self).spec_block() + 1,
            ),
            r is Err <==> old(self).step_error() is Some,
            r matches Err(e) ==> old(self).step_error() == Some(e),
            final(self).healthy() == old(self).healthy(),
            old(self).healthy() ==> r is Ok,
            final(self).failed() == (r is Err),
    {
        self.next()
    }
}

impl<'a> HummockIterator for SstableIterator<'a> {
    type Direction = Forward;

    closed spec fn inv(&self) -> bool {
        &&& self.table.wf()
        &&& self.failed@ ==> self.state is Exhausted
        &&& self.cur_idx <= self.table.spec_entries().len()
        &&& self.state is Valid ==> {
            &&& self.cur_block < self.table.spec_blocks().len()
            &&& self.block_end == self.table.spec_blocks()[self.cur_block as int].end
            &&& block_start(self.table.spec_blocks(), self.cur_block as int) <= self.cur_idx
                < self.block_end
        }
        &&& self.state is AwaitingIo ==> {
            &&& self.cur_block < self.table.spec_blocks().len()
            &&& self.block_end == self.table.spec_blocks()[self.cur_block as int].end
            &&& self.cur_idx + 1 == self.block_end
        }
    }

    closed spec fn state(&self) -> IteratorState {
        self.state
    }

    closed spec fn source(&self) -> Seq<EntryView> {
        self.table.spec_entries()
    }

    closed spec fn position(&self) -> nat {
        self.cur_idx as nat
    }

    closed spec fn local_stats(&self) -> StoreLocalStatistic {
        self.stats
    }

    closed spec fn healthy(&self) -> bool {
        sound_table(self.table)
    }

    closed spec fn failed(&self) -> bool {
        self.failed@
    }

    proof fn lemma_well_formed(&self) {
        assert(Forward::spec_direction() == DirectionEnum::Forward);
        let t = self.table;
        let len = t.spec_entries().len() as int;
        if self.state is Valid || self.state is AwaitingIo {
            assert(block_in_place(t.spec_blocks(), len, self.cur_block as int));
        }
        let s = t.spec_entries();
        assert forall|i: int, j: int| 0 <= i < j < s.len() implies in_order(
            DirectionEnum::Forward,
            #[trigger] s[i].key,
            #[trigger] s[j].key,
        ) by {
            assert(key_order(s[i].key, s[j].key) == KeyOrder::Less);
        }
    }

    fn next(&mut self) -> (r: HummockResult<()>)
        ensures
            final(self).spec_table() == old(self).spec_table(),
            r is Err <==> {
                let blocks = old(self).spec_table().spec_blocks();
                let b = old(self).spec_block();
                old(self).position() + 1 == blocks[b].end && b + 1 < blocks.len() && blocks[b
                    + 1].corrupt
            },
            r matches Err(e) ==> e == corrupt_block_error(
                old(self).spec_table(),
                old(self).spec_block() + 1,
            ),
    {
        match self.poll_next() {
            Poll::Ready(result) => result,
            Poll::Pending => self.await_next(),
        }
    }

    fn poll_next(&mut self) -> (r: Poll<HummockResult<()>>)
        ensures
            !(r matches Poll::Ready(Err(_))),
            r is Pending <==> old(self).position() + 1 == old(self).spec_table().spec_blocks()[old(
                self,
            ).spec_block()].end,
            final(self).spec_table() == old(self).spec_table(),
            final(self).spec_block() == old(self).spec_block(),
            final(self).local_stats() == old(self).local_stats(),
    {
        proof {
            assert(block_in_place(
                self.table.spec_blocks(),
                self.table.spec_entries().len() as int,
                self.cur_block as int,
            ));
        }
        if self.cur_idx + 1 < self.block_end {
            self.cur_idx = self.cur_idx + 1;
            Poll::Ready(Ok(()))
        } else {
            self.state = IteratorState::AwaitingIo;
            Poll::Pending
        }
    }

    fn await_next(&mut self) -> (r: HummockResult<()>)
        ensures
            final(self).spec_table() == old(self).spec_table(),
            match r {
                Ok(_) => {
                    let b = old(self).spec_block() + 1;
                    if b < old(self).spec_table().spec_blocks().len() {
                        !old(self).spec_table().spec_blocks()[b].corrupt && final(self).spec_block()
                            == b && final(self).local_stats() == with_one_block(
                            old(self).local_stats(),
                        )
                    } else {
                        final(self).local_stats() == old(self).local_stats()
                    }
                },
                Err(e) => {
                    let b = old(self).spec_block() + 1;
                    &&& b < old(self).spec_table().spec_blocks().len()
                    &&& old(self).spec_table().spec_blocks()[b].corrupt
                    &&& e == corrupt_block_error(old(self).spec_table(), b)
                    &&& final(self).local_stats() == old(self).local_stats()
                },
            },
    {
        let ghost t = self.table;
        let ghost len = t.spec_entries().len() as int;
        proof {
            assert(block_in_place(t.spec_blocks(), len, self.cur_block as int));
        }
        let block_count: usize = self.table.block_count();
        let next_block: usize = self.cur_block + 1;
        if next_block >= block_count {
            self.cur_idx = self.block_end;
            self.state = IteratorState::Exhausted;
            Ok(())
        } else {
            proof {
                assert(block_in_place(t.spec_blocks(), len, next_block as int));
            }
            self.state = IteratorState::Exhausted;
            self.load_block(next_block)
        }
    }

    fn key(&self) -> (k: &[u8]) {
        proof {
            self.lemma_well_formed();
        }
        self.table.key_at(self.cur_idx)
    }

    fn value(&self) -> (v: HummockValue<&[u8]>) {
        proof {
            self.lemma_well_formed();
        }
        self.table.value_at(self.cur_idx)
    }

    fn is_valid(&self) -> (b: bool) {
        match self.state {
            IteratorState::Valid => true,
            _ => false,
        }
    }

    fn rewind(&mut self) -> (r: HummockResult<()>)
        ensures
            final(self).spec_table() == old(self).spec_table(),
            match r {
                Ok(_) => if old(self).spec_table().spec_blocks().len() > 0 {
                    !old(self).spec_table().spec_blocks()[0].corrupt && final(self).spec_block() == 0
                        && final(self).local_stats() == with_one_block(old(self).local_stats())
                } else {
                    final(self).local_stats() == old(self).local_stats()
                },
                Err(e) => {
                    &&& old(self).spec_table().spec_blocks().len() > 0
                    &&& old(self).spec_table().spec_blocks()[0].corrupt
                    &&& e == corrupt_block_error(old(self).spec_table(), 0)
                    &&& final(self).local_stats() == old(self).local_stats()
                },
            },
    {
        self.state = IteratorState::Exhausted;
        if self.table.block_count() == 0 {
            self.cur_idx = 0;
            Ok(())
        } else {
            self.load_block(0)
        }
    }

    fn seek(&mut self, key: &[u8]) -> (r: HummockResult<()>)
        ensures
            final(self).spec_table() == old(self).spec_table(),
            forall|b: int| #[trigger]
                is_seek_block(old(self).spec_table(), key@, b) ==> match r {
                    Ok(_) => if b < old(self).spec_table().spec_blocks().len() {
                        !old(self).spec_table().spec_blocks()[b].corrupt && final(self).spec_block()
                            == b && final(self).local_stats() == with_one_block(
                            old(self).local_stats(),
                        ) && final(self).state() is Valid
                    } else {
                        final(self).local_stats() == old(self).local_stats()
                            && !(final(self).state() is Valid)
                    },
                    Err(e) => {
                        &&& b < old(self).spec_table().spec_blocks().len()
                        &&& old(self).spec_table().spec_blocks()[b].corrupt
                        &&& e == corrupt_block_error(old(self).spec_table(), b)
                        &&& final(self).local_stats() == old(self).local_stats()
                    },
                },
    {
        assert(Forward::spec_direction() == DirectionEnum::Forward);
        let ghost t = self.table;
        let ghost s = t.spec_entries();
        let ghost len = s.len() as int;
        self.state = IteratorState::Exhausted;
        let b: usize = self.seek_block(key);
        if b >= self.table.block_count() {
            self.cur_idx = self.table.len();
            proof {
                assert forall|i: int| 0 <= i < len implies strictly_before(
                    DirectionEnum::Forward,
                    #[trigger] s[i].key,
                    key@,
                ) by {
                    let last: int = t.spec_blocks().len() - 1;
                    assert(block_below(t, last, key@));
                    lemma_smaller_than_key(t, i, len - 1, key@);
                }
            }
            return Ok(());
        }
        match self.load_block(b) {
            Ok(_) => {},
            Err(e) => {
                return Err(e);
            },
        }
        proof {
            assert(block_in_place(t.spec_blocks(), len, b as int));
        }
        let ghost start = self.cur_idx as int;
        let end: usize = self.block_end;
        let mut i: usize = self.cur_idx;
        loop
            invariant
                t == self.table,
                t.wf(),
                s == t.spec_entries(),
                len == s.len(),
                is_encoded(key@),
                start <= i < end <= len,
                b < t.spec_blocks().len(),
                !block_below(t, b as int, key@),
                end == t.spec_blocks()[b as int].end,
                start == block_start(t.spec_blocks(), b as int),
                self.state is Valid,
                self.cur_block == b,
                self.block_end == end,
                forall|j: int| start <= j < i ==> key_order(#[trigger] s[j].key, key@) == KeyOrder::Less,
            ensures
                key_order(s[i as int].key, key@) != KeyOrder::Less,
            decreases end - i,
        {
            assert(is_encoded(s[i as int].key));
            match compare_key(self.table.key_at(i), key) {
                KeyOrder::Less => {
                    i = i + 1;
                },
                _ => {
                    break ;
                },
            }
        }
        self.cur_idx = i;
        proof {
            assert forall|j: int| 0 <= j < i implies strictly_before(
                DirectionEnum::Forward,
                #[trigger] s[j].key,
                key@,
            ) by {
                if j < start {
                    assert(b > 0);
                    assert(block_below(t, b - 1, key@));
                    lemma_smaller_than_key(t, j, start - 1, key@);
                }
            }
            lemma_key_order_flip(s[i as int].key, key@);
        }
        Ok(())
    }

    fn collect_local_statistic(&self, stats: &mut StoreLocalStatistic) {
        stats.add(&self.stats)
    }
}

/// A type of iterator over one table that a concatenation can create for
/// each table of its run.
pub trait SstableIteratorType<'a>: HummockIterator {
    /// An iterator over `table`, neither rewound nor sought, that walks the
    /// table's entries in its direction.
    fn create(
        table: &'a Sstable,
        store: &'a SstableStore,
        read_options: SstableIteratorReadOptions,
    ) -> (r: Self)
        requires
            table.wf(),
        ensures
            r.inv(),
            r.state() is Uninitialized,
            r.source() == directed(Self::Direction::spec_direction(), table.spec_entries()),
            r.local_stats() == StoreLocalStatistic::zero(),
            r.healthy() == sound_table(table),
            !r.failed(),
    ;
}

impl<'a> SstableIteratorType<'a> for SstableIterator<'a> {
    fn create(
        table: &'a Sstable,
        store: &'a SstableStore,
        read_options: SstableIteratorReadOptions,
    ) -> (r: Self) {
        SstableIterator::new(table, store, read_options)
    }
}

} // verus!
