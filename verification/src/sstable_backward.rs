//! The iterator over one table from its largest key to its smallest.

use vstd::prelude::*;
use crate::error::HummockResult;
use crate::iterator::{
    in_order, strictly_before, Backward, DirectionEnum, HummockIterator, HummockIteratorDirection,
    IteratorState, Poll,
};
use crate::key::{compare_key, is_encoded, key_order, lemma_key_order_flip, KeyOrder};
use crate::monitor::StoreLocalStatistic;
use crate::run::directed;
use crate::sstable::{
    block_in_place, block_start, corrupt_block_error, lemma_blocks_in_order, sound_table,
    with_one_block, Sstable, SstableIteratorReadOptions, SstableIteratorType, SstableStore,
};
use crate::value::{EntryView, HummockValue};

verus! {

/// The smallest key of block `b` of `t` is larger than `key`.
pub open spec fn block_above(t: &Sstable, b: int, key: Seq<u8>) -> bool {
    key_order(t.spec_entries()[block_start(t.spec_blocks(), b)].key, key) == KeyOrder::Greater
}

/// The number of blocks of `t` whose smallest key is not larger than
/// `key`: a backward seek for `key` lands in the last of them, and nowhere
/// if there is none.
pub open spec fn is_backward_seek_point(t: &Sstable, key: Seq<u8>, n: int) -> bool {
    &&& 0 <= n <= t.spec_blocks().len()
    &&& forall|c: int| 0 <= c < n ==> !#[trigger] block_above(t, c, key)
    &&& forall|c: int| n <= c < t.spec_blocks().len() ==> #[trigger] block_above(t, c, key)
}

/// An entry that stands at or after one that is larger than `key` is
/// larger than `key` too.
pub proof fn lemma_larger_than_key(t: &Sstable, i: int, j: int, key: Seq<u8>)
    requires
        t.wf(),
        0 <= i <= j < t.spec_entries().len(),
        is_encoded(key),
        key_order(t.spec_entries()[i].key, key) == KeyOrder::Greater,
    ensures
        key_order(t.spec_entries()[j].key, key) == KeyOrder::Greater,
{
    let s = t.spec_entries();
    assert(is_encoded(s[i].key) && is_encoded(s[j].key));
    lemma_key_order_flip(s[i].key, key);
    lemma_key_order_flip(s[j].key, key);
    if i < j {
        assert(key_order(s[i].key, s[j].key) == KeyOrder::Less);
        crate::key::lemma_key_order_trans(key, s[i].key, s[j].key);
    }
}

/// An entry that stands at or before one that is not larger than `key` is
/// not larger than `key` either.
pub proof fn lemma_not_larger_than_key(t: &Sstable, i: int, j: int, key: Seq<u8>)
    requires
        t.wf(),
        0 <= i <= j < t.spec_entries().len(),
        is_encoded(key),
        key_order(t.spec_entries()[j].key, key) != KeyOrder::Greater,
    ensures
        key_order(t.spec_entries()[i].key, key) != KeyOrder::Greater,
{
    if key_order(t.spec_entries()[i].key, key) == KeyOrder::Greater {
        lemma_larger_than_key(t, i, j, key);
    }
}

/// Iterates over the entries of one table, in descending order of their
/// keys.
pub struct BackwardSstableIterator<'a> {
    table: &'a Sstable,
    store: &'a SstableStore,
    state: IteratorState,
    /// The block that is loaded.
    cur_block: usize,
    /// Where the loaded block starts.
    block_first: usize,
    /// How many entries were passed: the current entry is this many
    /// before the last of the table.
    passed: usize,
    stats: StoreLocalStatistic,
    read_options: SstableIteratorReadOptions,
    /// Whether a load has failed.
    failed: Ghost<bool>,
}

impl<'a> BackwardSstableIterator<'a> {
    /// The table that the iterator ranges over.
    pub closed spec fn spec_table(&self) -> &Sstable {
        self.table
    }

    /// The block that is loaded, while the iterator is valid or awaits the
    /// next one.
    pub closed spec fn spec_block(&self) -> int {
        self.cur_block as int
    }

    /// Where in the table the current entry stands.
    closed spec fn cur_idx(&self) -> int {
        self.table.spec_entries().len() - 1 - self.passed
    }

    /// An iterator over `table`, neither rewound nor sought.
    pub fn new(
        table: &'a Sstable,
        store: &'a SstableStore,
        read_options: SstableIteratorReadOptions,
    ) -> (r: Self)
        requires
            table.wf(),
        ensures
            r.inv(),
            r.state() is Uninitialized,
            r.spec_table() == table,
            r.source() == directed(DirectionEnum::Backward, table.spec_entries()),
            r.local_stats() == StoreLocalStatistic::zero(),
            r.healthy() == sound_table(table),
            !r.failed(),
    {
        BackwardSstableIterator {
            table,
            store,
            state: IteratorState::Uninitialized,
            cur_block: 0,
            block_first: 0,
            passed: 0,
            stats: StoreLocalStatistic { tables_loaded: 0, blocks_loaded: 0 },
            read_options,
            failed: Ghost(false),
        }
    }

    /// Loads block `b` and stands on its last entry.
    fn load_block(&mut self, b: usize) -> (r: HummockResult<()>)
        requires
            old(self).inv(),
            !old(self).failed@,
            b < old(self).table.spec_blocks().len(),
        ensures
            final(self).inv(),
            final(self).table == old(self).table,
            final(self).store == old(self).store,
            final(self).failed@ == (r is Err),
            match r {
                Ok(_) => {
                    &&& !old(self).table.spec_blocks()[b as int].corrupt
                    &&& final(self).state is Valid
                    &&& final(self).cur_block == b
                    &&& final(self).cur_idx() == old(self).table.spec_blocks()[b as int].end - 1
                    &&& final(self).stats == with_one_block(old(self).stats)
                },
                Err(e) => {
                    &&& old(self).table.spec_blocks()[b as int].corrupt
                    &&& e == corrupt_block_error(old(self).table, b as int)
                    &&& final(self).state is Exhausted
                    &&& final(self).stats == old(self).stats
                    &&& final(self).passed == old(self).passed
                },
            },
    {
        proof {
            assert(block_in_place(
                self.table.spec_blocks(),
                self.table.spec_entries().len() as int,
                b as int,
            ));
        }
        let len: usize = self.table.len();
        match self.store.get_block(self.table, b, &mut self.stats) {
            Ok((start, end)) => {
                self.cur_block = b;
                self.block_first = start;
                self.passed = len - end;
                self.state = IteratorState::Valid;
                Ok(())
            },
            Err(e) => {
                self.state = IteratorState::Exhausted;
                self.failed = Ghost(true);
                Err(e)
            },
        }
    }

    /// The number of blocks whose smallest key is not larger than `key`.
    fn seek_point(&self, key: &[u8]) -> (n: usize)
        requires
            self.inv(),
            is_encoded(key@),
        ensures
            is_backward_seek_point(self.table, key@, n as int),
    {
        let ghost t = self.table;
        let ghost len = t.spec_entries().len() as int;
        let count: usize = self.table.block_count();
        let mut lo: usize = 0;
        let mut hi: usize = count;
        while lo < hi
            invariant
                t == self.table,
                t.wf(),
                len == t.spec_entries().len(),
                count == t.spec_blocks().len(),
                is_encoded(key@),
                lo <= hi <= count,
                forall|c: int| 0 <= c < lo ==> !#[trigger] block_above(t, c, key@),
                forall|c: int| hi <= c < count ==> #[trigger] block_above(t, c, key@),
            decreases hi - lo,
        {
            let mid: usize = lo + (hi - lo) / 2;
            assert(block_in_place(t.spec_blocks(), len, mid as int));
            let first = self.table.key_at(self.table.start_of(mid));
            assert(is_encoded(t.spec_entries()[block_start(t.spec_blocks(), mid as int)].key));
            match compare_key(first, key) {
                KeyOrder::Greater => {
                    proof {
                        assert forall|c: int| mid <= c < count implies #[trigger] block_above(
                            t,
                            c,
                            key@,
                        ) by {
                            assert(block_in_place(t.spec_blocks(), len, c));
                            if mid < c {
                                lemma_blocks_in_order(t.spec_blocks(), len, mid as int, c);
                            }
                            lemma_larger_than_key(
                                t,
                                block_start(t.spec_blocks(), mid as int),
                                block_start(t.spec_blocks(), c),
                                key@,
                            );
                        }
                    }
                    hi = mid;
                },
                _ => {
                    proof {
                        assert forall|c: int| 0 <= c < mid + 1 implies !#[trigger] block_above(
                            t,
                            c,
                            key@,
                        ) by {
                            assert(block_in_place(t.spec_blocks(), len, c));
                            if c < mid {
                                lemma_blocks_in_order(t.spec_blocks(), len, c, mid as int);
                            }
                            lemma_not_larger_than_key(
                                t,
                                block_start(t.spec_blocks(), c),
                                block_start(t.spec_blocks(), mid as int),
                                key@,
                            );
                        }
                    }
                    lo = mid + 1;
                },
            }
        }
        lo
    }
}

impl<'a> HummockIterator for BackwardSstableIterator<'a> {
    type Direction = Backward;

    closed spec fn inv(&self) -> bool {
        &&& self.table.wf()
        &&& self.failed@ ==> self.state is Exhausted
        &&& self.passed <= self.table.spec_entries().len()
        &&& self.state is Valid || self.state is AwaitingIo ==> {
            &&& self.cur_block < self.table.spec_blocks().len()
            &&& self.block_first == block_start(self.table.spec_blocks(), self.cur_block as int)
            &&& self.passed < self.table.spec_entries().len()
            &&& self.block_first <= self.cur_idx() < self.table.spec_blocks()[self.cur_block as int].end
        }
        &&& self.state is AwaitingIo ==> self.cur_idx() == self.block_first
    }

    closed spec fn state(&self) -> IteratorState {
        self.state
    }

    closed spec fn source(&self) -> Seq<EntryView> {
        directed(DirectionEnum::Backward, self.table.spec_entries())
    }

    closed spec fn position(&self) -> nat {
        self.passed as nat
    }

    closed spec fn local_stats(&self) -> StoreLocalStatistic {
        self.stats
    }

    closed spec fn healthy(&self) -> bool {
        sound_table(self.table)
    }

    closed spec fn failed(&self) -> bool {
        self.failed@
    }

    proof fn lemma_well_formed(&self) {
        assert(Backward::spec_direction() == DirectionEnum::Backward);
        let t = self.table;
        let s = self.source();
        let e = t.spec_entries();
        assert forall|i: int, j: int| 0 <= i < j < s.len() implies in_order(
            DirectionEnum::Backward,
            #[trigger] s[i].key,
            #[trigger] s[j].key,
        ) by {
            crate::run::lemma_directed_sorted(DirectionEnum::Backward, *t, i, j);
        }
        assert forall|i: int| 0 <= i < s.len() implies is_encoded(#[trigger] s[i].key) by {
            assert(s[i] == e[e.len() - 1 - i]);
        }
    }

    fn next(&mut self) -> (r: HummockResult<()>)
        ensures
            final(self).spec_table() == old(self).spec_table(),
            r is Err <==> {
                let t = old(self).spec_table();
                let b = old(self).spec_block();
                t.spec_entries().len() - 1 - old(self).position() == block_start(t.spec_blocks(), b)
                    && b > 0 && t.spec_blocks()[b - 1].corrupt
            },
            r matches Err(e) ==> e == corrupt_block_error(
                old(self).spec_table(),
                old(self).spec_block() - 1,
            ),
    {
        match self.poll_next() {
            Poll::Ready(result) => result,
            Poll::Pending => self.await_next(),
        }
    }

    fn poll_next(&mut self) -> (r: Poll<HummockResult<()>>)
        ensures
            !(r matches Poll::Ready(Err(_))),
            r is Pending <==> old(self).spec_table().spec_entries().len() - 1 - old(self).position()
                == block_start(old(self).spec_table().spec_blocks(), old(self).spec_block()),
            final(self).spec_table() == old(self).spec_table(),
            final(self).spec_block() == old(self).spec_block(),
            final(self).local_stats() == old(self).local_stats(),
    {
        let len: usize = self.table.len();
        if len - 1 - self.passed > self.block_first {
            self.passed = self.passed + 1;
            Poll::Ready(Ok(()))
        } else {
            self.state = IteratorState::AwaitingIo;
            Poll::Pending
        }
    }

    fn await_next(&mut self) -> (r: HummockResult<()>)
        ensures
            final(self).spec_table() == old(self).spec_table(),
            match r {
                Ok(_) => if old(self).spec_block() > 0 {
                    !old(self).spec_table().spec_blocks()[old(self).spec_block() - 1].corrupt
                        && final(self).spec_block() == old(self).spec_block() - 1
                        && final(self).local_stats() == with_one_block(old(self).local_stats())
                } else {
                    final(self).local_stats() == old(self).local_stats()
                },
                Err(e) => {
                    &&& old(self).spec_block() > 0
                    &&& old(self).spec_table().spec_blocks()[old(self).spec_block() - 1].corrupt
                    &&& e == corrupt_block_error(old(self).spec_table(), old(self).spec_block() - 1)
                    &&& final(self).local_stats() == old(self).local_stats()
                },
            },
    {
        let ghost t = self.table;
        let ghost len = t.spec_entries().len() as int;
        proof {
            assert(block_in_place(t.spec_blocks(), len, self.cur_block as int));
        }
        if self.cur_block == 0 {
            self.passed = self.passed + 1;
            self.state = IteratorState::Exhausted;
            Ok(())
        } else {
            let prev_block: usize = self.cur_block - 1;
            proof {
                assert(block_in_place(t.spec_blocks(), len, prev_block as int));
            }
            self.state = IteratorState::Exhausted;
            self.load_block(prev_block)
        }
    }

    fn key(&self) -> (k: &[u8]) {
        let len: usize = self.table.len();
        self.table.key_at(len - 1 - self.passed)
    }

    fn value(&self) -> (v: HummockValue<&[u8]>) {
        let len: usize = self.table.len();
        self.table.value_at(len - 1 - self.passed)
    }

    fn is_valid(&self) -> (b: bool) {
        match self.state {
            IteratorState::Valid => true,
            _ => false,
        }
    }

    fn rewind(&mut self) -> (r: HummockResult<()>)
        ensures
            final(self).spec_table() == old(self).spec_table(),
            match r {
                Ok(_) => if old(self).spec_table().spec_blocks().len() > 0 {
                    let last = old(self).spec_table().spec_blocks().len() - 1;
                    !old(self).spec_table().spec_blocks()[last].corrupt && final(self).spec_block()
                        == last && final(self).local_stats() == with_one_block(
                        old(self).local_stats(),
                    )
                } else {
                    final(self).local_stats() == old(self).local_stats()
                },
                Err(e) => {
                    let last = old(self).spec_table().spec_blocks().len() - 1;
                    &&& last >= 0
                    &&& old(self).spec_table().spec_blocks()[last].corrupt
                    &&& e == corrupt_block_error(old(self).spec_table(), last)
                    &&& final(self).local_stats() == old(self).local_stats()
                },
            },
    {
        self.state = IteratorState::Exhausted;
        let count: usize = self.table.block_count();
        if count == 0 {
            self.passed = 0;
            Ok(())
        } else {
            self.load_block(count - 1)
        }
    }

    fn seek(&mut self, key: &[u8]) -> (r: HummockResult<()>)
        ensures
            final(self).spec_table() == old(self).spec_table(),
            forall|n: int| #[trigger]
                is_backward_seek_point(old(self).spec_table(), key@, n) ==> match r {
                    Ok(_) => if n > 0 {
                        !old(self).spec_table().spec_blocks()[n - 1].corrupt && final(self).spec_block()
                            == n - 1 && final(self).local_stats() == with_one_block(
                            old(self).local_stats(),
                        )
                    } else {
                        final(self).local_stats() == old(self).local_stats()
                    },
                    Err(e) => {
                        &&& n > 0
                        &&& old(self).spec_table().spec_blocks()[n - 1].corrupt
                        &&& e == corrupt_block_error(old(self).spec_table(), n - 1)
                        &&& final(self).local_stats() == old(self).local_stats()
                    },
                },
    {
        assert(Backward::spec_direction() == DirectionEnum::Backward);
        let ghost t = self.table;
        let ghost e = t.spec_entries();
        let ghost s = self.source();
        let ghost len = e.len() as int;
        self.state = IteratorState::Exhausted;
        let point: usize = self.seek_point(key);
        let table_len: usize = self.table.len();
        proof {
            assert forall|n: int| is_backward_seek_point(t, key@, n) implies n == point by {
                if n < point {
                    assert(!block_above(t, n, key@));
                } else if n > point {
                    assert(block_above(t, point as int, key@));
                }
            }
        }
        if point == 0 {
            self.passed = table_len;
            proof {
                assert forall|i: int| 0 <= i < len implies strictly_before(
                    DirectionEnum::Backward,
                    #[trigger] s[i].key,
                    key@,
                ) by {
                    assert(s[i] == e[len - 1 - i]);
                    assert(block_above(t, 0, key@));
                    lemma_larger_than_key(t, 0, len - 1 - i, key@);
                }
            }
            return Ok(());
        }
        let b: usize = point - 1;
        match self.load_block(b) {
            Ok(_) => {},
            Err(e) => {
                return Err(e);
            },
        }
        proof {
            assert(block_in_place(t.spec_blocks(), len, b as int));
            assert(!block_above(t, b as int, key@));
        }
        let first: usize = self.block_first;
        let ghost last: int = t.spec_blocks()[b as int].end - 1;
        let mut i: usize = table_len - 1 - self.passed;
        loop
            invariant
                t == self.table,
                t.wf(),
                e == t.spec_entries(),
                len == e.len(),
                table_len == len,
                is_encoded(key@),
                b < t.spec_blocks().len(),
                first == block_start(t.spec_blocks(), b as int),
                last == t.spec_blocks()[b as int].end - 1,
                first <= i <= last < len,
                !block_above(t, b as int, key@),
                self.state is Valid,
                self.cur_block == b,
                self.block_first == first,
                forall|j: int| i < j <= last ==> key_order(#[trigger] e[j].key, key@) == KeyOrder::Greater,
            ensures
                key_order(e[i as int].key, key@) != KeyOrder::Greater,
            decreases i - first,
        {
            assert(is_encoded(e[i as int].key));
            match compare_key(self.table.key_at(i), key) {
                KeyOrder::Greater => {
                    i = i - 1;
                },
                _ => {
                    break ;
                },
            }
        }
        self.passed = table_len - 1 - i;
        proof {
            assert forall|j: int| 0 <= j < self.passed implies strictly_before(
                DirectionEnum::Backward,
                #[trigger] s[j].key,
                key@,
            ) by {
                let a = len - 1 - j;
                assert(s[j] == e[a]);
                if a > last {
                    assert(b + 1 < t.spec_blocks().len());
                    assert(block_above(t, b + 1, key@));
                    lemma_larger_than_key(t, last + 1, a, key@);
                }
            }
            assert(s[self.passed as int] == e[i as int]);
            lemma_key_order_flip(e[i as int].key, key@);
        }
        Ok(())
    }

    fn collect_local_statistic(&self, stats: &mut StoreLocalStatistic) {
        stats.add(&self.stats)
    }
}

impl<'a> SstableIteratorType<'a> for BackwardSstableIterator<'a> {
    fn create(
        table: &'a Sstable,
        store: &'a SstableStore,
        read_options: SstableIteratorReadOptions,
    ) -> (r: Self) {
        BackwardSstableIterator::new(table, store, read_options)
    }
}

} // verus!
