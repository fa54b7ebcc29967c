//! The iterator over a run that compaction reads: forward, every table
//! fetched with prefetch, and no version of a key passed over.

use vstd::prelude::*;
use crate::error::{HummockError, HummockResult};
use crate::iterator::{
    is_seek_position, state_at, strictly_before, DirectionEnum, Forward, HummockIterator,
    HummockIteratorDirection, IteratorState, Poll,
};
use crate::key::is_encoded;
use crate::monitor::StoreLocalStatistic;
use crate::run::{
    is_partition_point, lemma_lookup_wf, lemma_next_table_start, lemma_partition_point_unique,
    lemma_run_seek_position, lemma_run_sorted, lemma_run_source_index, lemma_run_strictly_sorted,
    lemma_table_not_empty, partition_point, run_healthy, run_source, run_wf, seek_table,
    table_healthy, table_source, SstableInfo,
};
use crate::sstable::{
    corrupt_block_error, is_seek_block, Sstable, SstableIterator, SstableIteratorReadOptions,
    SstableStore,
};
use crate::value::{EntryView, HummockValue};

verus! {

/// How a rewind onto the table of `info` ends: with `ObjectNotFound` where
/// the store does not hold the table, with the error of its first block
/// where that is corrupt, and well otherwise.
pub open spec fn rewind_outcome(store: &SstableStore, info: SstableInfo, r: HummockResult<()>) -> bool {
    match store.lookup(info.id) {
        None => r == Err::<(), HummockError>(HummockError::ObjectNotFound { sst_id: info.id }),
        Some(t) => {
            &&& (r is Err <==> t.spec_blocks()[0].corrupt)
            &&& (r matches Err(e) ==> e == corrupt_block_error(&t, 0))
        },
    }
}

/// How a seek for `key` in table `t` ends: with the error of the block in
/// which the key lies, if that block is corrupt, and well otherwise; after
/// it the table's iterator is valid exactly when the key lies in a block of
/// the table.
pub open spec fn sought_outcome(t: &Sstable, key: Seq<u8>, r: HummockResult<()>, valid: bool) -> bool {
    forall|b: int| #[trigger]
        is_seek_block(t, key, b) ==> {
            &&& (r is Err <==> (b < t.spec_blocks().len() && t.spec_blocks()[b].corrupt))
            &&& (r matches Err(e) ==> e == corrupt_block_error(t, b))
            &&& (r is Ok ==> (valid <==> b < t.spec_blocks().len()))
        }
}

/// How a seek for `key` that begins in table `i` of the run ends. Where the
/// store does not hold the table: with `ObjectNotFound`. Where the key lies
/// in a block of the table: with the error of that block if it is corrupt,
/// and well otherwise. Where the key lies past the table: as a rewind onto
/// the next table, and well if there is none.
pub open spec fn seek_outcome(
    store: &SstableStore,
    infos: Seq<SstableInfo>,
    key: Seq<u8>,
    i: int,
    r: HummockResult<()>,
) -> bool {
    match store.lookup(infos[i].id) {
        None => r == Err::<(), HummockError>(HummockError::ObjectNotFound { sst_id: infos[i].id }),
        Some(t) => forall|b: int| #[trigger]
            is_seek_block(&t, key, b) ==> if b < t.spec_blocks().len() {
                &&& (r is Err <==> t.spec_blocks()[b].corrupt)
                &&& (r matches Err(e) ==> e == corrupt_block_error(&t, b))
            } else if i + 1 < infos.len() {
                rewind_outcome(store, infos[i + 1], r)
            } else {
                r is Ok
            },
    }
}

/// Iterates forward over the tables of a run, for compaction.
pub struct ConcatSstableIterator<'a> {
    /// The iterator of the current table.
    sstable_iter: Option<SstableIterator<'a>>,
    /// Current table index.
    cur_idx: usize,
    /// All non-overlapping tables.
    tables: Vec<SstableInfo>,
    sstable_store: &'a SstableStore,
    stats: StoreLocalStatistic,
    read_options: SstableIteratorReadOptions,
    /// Whether the current table is exhausted and the next one is to be
    /// loaded.
    is_pending: bool,
    /// Whether the iterator was rewound or sought.
    initialized: Ghost<bool>,
    /// What the iterator counted itself: the tables it fetched.
    own: Ghost<StoreLocalStatistic>,
    /// The counters of the table iterators that were released, added up.
    released: Ghost<StoreLocalStatistic>,
    /// Whether a step has failed.
    failed: Ghost<bool>,
}

impl<'a> ConcatSstableIterator<'a> {
    /// The direction of iteration.
    pub open spec fn dir() -> DirectionEnum {
        DirectionEnum::Forward
    }

    /// The tables of the run.
    pub closed spec fn spec_tables(&self) -> Seq<SstableInfo> {
        self.tables@
    }

    /// The store from which the tables are fetched.
    pub closed spec fn spec_store(&self) -> &SstableStore {
        self.sstable_store
    }

    /// What the iterator counted itself: the tables that it fetched.
    pub closed spec fn own_stats(&self) -> StoreLocalStatistic {
        self.own@
    }

    /// The counters of the table iterators that the iterator has released,
    /// added up.
    pub closed spec fn released_stats(&self) -> StoreLocalStatistic {
        self.released@
    }

    /// The table of the run that the iterator is in, while it holds a
    /// table iterator.
    pub closed spec fn spec_current(&self) -> int {
        self.cur_idx as int
    }

    /// The iterator of the current table, if one is held.
    pub closed spec fn spec_child(&self) -> Option<SstableIterator<'a>> {
        self.sstable_iter
    }

    /// Whether the current table is exhausted and the next one is to be
    /// loaded.
    pub closed spec fn spec_pending(&self) -> bool {
        self.is_pending
    }

    /// Where in the stream table `i` begins.
    pub closed spec fn start_of(&self, i: int) -> nat {
        run_source(self.sstable_store, self.tables@, Self::dir(), i).len()
    }

    /// What holds whatever stage is pending.
    closed spec fn base_inv(&self) -> bool {
        &&& run_wf(self.sstable_store, self.tables@, Self::dir())
        &&& self.stats == self.own@.plus(self.released@)
        &&& self.sstable_iter matches Some(it) ==> {
            &&& self.initialized@
            &&& it.inv()
            &&& self.cur_idx < self.tables@.len()
            &&& self.sstable_store.lookup(self.tables@[self.cur_idx as int].id) is Some
            &&& it.healthy() == table_healthy(self.sstable_store, self.tables@[self.cur_idx as int])
            &&& it.source() == table_source(
                self.sstable_store,
                self.tables@[self.cur_idx as int],
                Self::dir(),
            )
        }
    }

    /// Caller should make sure that `tables` are non-overlapping, arranged in
    /// ascending order when it serves as a forward iterator, and arranged in
    /// descending order when it serves as a backward iterator.
    pub fn new(
        tables: Vec<SstableInfo>,
        sstable_store: &'a SstableStore,
        read_options: SstableIteratorReadOptions,
    ) -> (r: Self)
        requires
            run_wf(sstable_store, tables@, Self::dir()),
        ensures
            r.inv(),
            r.state() is Uninitialized,
            r.spec_tables() == tables@,
            r.spec_store() == sstable_store,
            r.source() == run_source(sstable_store, tables@, Self::dir(), tables@.len() as int),
            r.local_stats() == StoreLocalStatistic::zero(),
            r.own_stats() == StoreLocalStatistic::zero(),
            r.released_stats() == StoreLocalStatistic::zero(),
            r.healthy() == run_healthy(sstable_store, tables@),
            !r.failed(),
            r.spec_child() is None,
    {
        Self {
            sstable_iter: None,
            cur_idx: 0,
            tables,
            sstable_store,
            stats: StoreLocalStatistic { tables_loaded: 0, blocks_loaded: 0 },
            read_options,
            is_pending: false,
            initialized: Ghost(false),
            own: Ghost(StoreLocalStatistic::zero()),
            released: Ghost(StoreLocalStatistic::zero()),
            failed: Ghost(false),
        }
    }

    /// Releases the iterator of the current table, if there is one, and adds
    /// its counters to those of this iterator.
    fn release(&mut self)
        requires
            old(self).base_inv(),
        ensures
            final(self).base_inv(),
            final(self).sstable_iter is None,
            final(self).tables == old(self).tables,
            final(self).sstable_store == old(self).sstable_store,
            final(self).read_options == old(self).read_options,
            final(self).cur_idx == old(self).cur_idx,
            final(self).is_pending == old(self).is_pending,
            final(self).initialized == old(self).initialized,
            final(self).failed == old(self).failed,
            final(self).own == old(self).own,
            final(self).released@ == match old(self).sstable_iter {
                Some(it) => old(self).released@.plus(it.local_stats()),
                None => old(self).released@,
            },
    {
        match self.sstable_iter.take() {
            Some(old_iter) => {
                old_iter.collect_local_statistic(&mut self.stats);
                self.released = Ghost(self.released@.plus(old_iter.local_stats()));
            },
            None => {},
        }
    }

    /// Seeks to a table, and then seeks to the key if `seek_key` is given.
    /// Past the last table, and after an error, no table is current.
    fn seek_idx(&mut self, idx: usize, seek_key: Option<&[u8]>) -> (r: HummockResult<()>)
        requires
            old(self).base_inv(),
            old(self).initialized@,
            seek_key matches Some(k) ==> is_encoded(k@),
        ensures
            final(self).base_inv(),
            final(self).tables == old(self).tables,
            final(self).sstable_store == old(self).sstable_store,
            final(self).read_options == old(self).read_options,
            final(self).is_pending == old(self).is_pending,
            final(self).initialized == old(self).initialized,
            final(self).failed == old(self).failed,
            r is Err ==> final(self).sstable_iter is None,
            run_healthy(old(self).sstable_store, old(self).tables@) ==> r is Ok,
            final(self).own@ == if idx < old(self).tables@.len() && old(self).sstable_store.lookup(
                old(self).tables@[idx as int].id,
            ) is Some {
                old(self).own@.plus(StoreLocalStatistic { tables_loaded: 1, blocks_loaded: 0 })
            } else {
                old(self).own@
            },
            r is Ok || idx >= old(self).tables@.len() || old(self).sstable_store.lookup(
                old(self).tables@[idx as int].id,
            ) is None ==> final(self).released@ == match old(self).sstable_iter {
                Some(it) => old(self).released@.plus(it.local_stats()),
                None => old(self).released@,
            },
            idx >= old(self).tables@.len() ==> r is Ok,
            idx < old(self).tables@.len() ==> match seek_key {
                None => rewind_outcome(old(self).sstable_store, old(self).tables@[idx as int], r),
                Some(k) => match old(self).sstable_store.lookup(old(self).tables@[idx as int].id) {
                    None => r == Err::<(), HummockError>(
                        HummockError::ObjectNotFound { sst_id: old(self).tables@[idx as int].id },
                    ),
                    Some(t) => sought_outcome(
                        &t,
                        k@,
                        r,
                        final(self).sstable_iter->Some_0.state() is Valid,
                    ),
                },
            },
            r is Ok && idx >= old(self).tables@.len() ==> final(self).sstable_iter is None,
            r is Ok && idx < old(self).tables@.len() ==> {
                &&& final(self).sstable_iter matches Some(it)
                &&& final(self).cur_idx == idx
                &&& it.state() == state_at(it.position(), it.source().len())
                &&& match seek_key {
                    Some(k) => is_seek_position(Self::dir(), it.source(), k@, it.position()),
                    None => it.position() == 0,
                }
            },
    {
        if idx >= self.tables.len() {
            self.release();
            return Ok(());
        }
        let loaded = self.sstable_store.load_table(self.tables[idx].id, true, &mut self.stats);
        let table = match loaded {
            Ok(table) => table,
            Err(e) => {
                self.release();
                return Err(e);
            },
        };
        proof {
            lemma_lookup_wf(self.sstable_store, self.tables@[idx as int].id);
        }
        self.own = Ghost(
            self.own@.plus(StoreLocalStatistic { tables_loaded: 1, blocks_loaded: 0 }),
        );
        let mut sstable_iter = SstableIterator::new(table, self.sstable_store, self.read_options);
        let positioned = match seek_key {
            Some(key) => sstable_iter.seek(key),
            None => sstable_iter.rewind(),
        };
        self.release();
        match positioned {
            Ok(_) => {
                self.sstable_iter = Some(sstable_iter);
                self.cur_idx = idx;
                Ok(())
            },
            Err(e) => {
                sstable_iter.collect_local_statistic(&mut self.stats);
                self.released = Ghost(self.released@.plus(sstable_iter.local_stats()));
                Err(e)
            },
        }
    }
}

impl<'a> ConcatSstableIterator<'a> {
    /// The iterator ranges over the stream of its run: the entries of its
    /// tables, table after table, each entry once. It is healthy exactly
    /// when its run is.
    pub proof fn lemma_source_is_run(&self)
        requires
            self.inv(),
        ensures
            self.source() == run_source(
                self.spec_store(),
                self.spec_tables(),
                Self::dir(),
                self.spec_tables().len() as int,
            ),
            self.healthy() == run_healthy(self.spec_store(), self.spec_tables()),
            run_wf(self.spec_store(), self.spec_tables(), Self::dir()),
    {
    }

    /// While the iterator holds a table iterator, that ranges over the
    /// current table of the run as the store holds it, and is healthy
    /// exactly when that table is.
    pub proof fn lemma_current_table(&self)
        requires
            self.inv(),
            self.spec_child() is Some,
        ensures
            0 <= self.spec_current() < self.spec_tables().len(),
            self.spec_store().lookup(self.spec_tables()[self.spec_current()].id) is Some,
            self.spec_child()->Some_0.inv(),
            self.spec_child()->Some_0.source() == table_source(
                self.spec_store(),
                self.spec_tables()[self.spec_current()],
                Self::dir(),
            ),
            self.spec_child()->Some_0.healthy() == table_healthy(
                self.spec_store(),
                self.spec_tables()[self.spec_current()],
            ),
            self.state() is Valid <==> self.spec_child()->Some_0.state() is Valid && !(
            self.state() is AwaitingIo),
    {
    }

    /// No key occurs twice in the stream of the run.
    pub proof fn lemma_no_key_twice(&self, i: int, j: int)
        requires
            self.inv(),
            0 <= i < j < self.source().len(),
        ensures
            strictly_before(Self::dir(), self.source()[i].key, self.source()[j].key),
    {
        lemma_run_strictly_sorted(
            self.sstable_store,
            self.tables@,
            Self::dir(),
            self.tables@.len() as int,
            i,
            j,
        );
    }

    /// The counters that the iterator hands over are what it counted
    /// itself and the counters of all table iterators that it has released,
    /// added up.
    pub proof fn lemma_stats_additive(&self)
        requires
            self.inv(),
        ensures
            self.local_stats() == self.own_stats().plus(self.released_stats()),
    {
    }

    /// The current entry of a valid iterator is that of the current table's
    /// iterator.
    proof fn lemma_key_index(&self)
        requires
            self.inv(),
            self.state() is Valid,
        ensures
            self.sstable_iter matches Some(it) && it.state() is Valid && it.inv()
                && self.source()[self.position() as int] == it.source()[it.position() as int],
    {
        let it = self.sstable_iter->Some_0;
        it.lemma_well_formed();
        lemma_run_source_index(
            self.sstable_store,
            self.tables@,
            Self::dir(),
            self.tables@.len() as int,
            self.cur_idx as int,
            it.position() as int,
        );
    }

}

impl<'a> HummockIterator for ConcatSstableIterator<'a> {
    type Direction = Forward;

    closed spec fn inv(&self) -> bool {
        &&& self.base_inv()
        &&& self.failed@ ==> self.initialized@ && !self.is_pending && (self.sstable_iter matches Some(it)
            ==> !(it.state() is Valid))
        &&& match self.sstable_iter {
            None => !self.is_pending,
            Some(it) => if self.is_pending {
                it.state() is Exhausted && it.position() == it.source().len()
            } else {
                !(it.state() is AwaitingIo) && !(it.state() is Uninitialized)
            },
        }
    }

    closed spec fn state(&self) -> IteratorState {
        match self.sstable_iter {
            None => if self.initialized@ {
                IteratorState::Exhausted
            } else {
                IteratorState::Uninitialized
            },
            Some(it) => if self.is_pending {
                IteratorState::AwaitingIo
            } else if it.state() is Valid {
                IteratorState::Valid
            } else {
                IteratorState::Exhausted
            },
        }
    }

    closed spec fn source(&self) -> Seq<EntryView> {
        run_source(self.sstable_store, self.tables@, Self::dir(), self.tables@.len() as int)
    }

    closed spec fn position(&self) -> nat {
        match self.sstable_iter {
            None => self.source().len(),
            Some(it) => if self.is_pending {
                (self.start_of(self.cur_idx as int) + it.position() - 1) as nat
            } else {
                self.start_of(self.cur_idx as int) + it.position()
            },
        }
    }

    closed spec fn local_stats(&self) -> StoreLocalStatistic {
        self.stats
    }

    closed spec fn healthy(&self) -> bool {
        run_healthy(self.sstable_store, self.tables@)
    }

    closed spec fn failed(&self) -> bool {
        self.failed@
    }

    proof fn lemma_well_formed(&self) {
        lemma_run_sorted(
            self.sstable_store,
            self.tables@,
            Self::dir(),
            self.tables@.len() as int,
        );
        match self.sstable_iter {
            None => {},
            Some(it) => {
                it.lemma_well_formed();
                lemma_next_table_start(self.sstable_store, self.tables@, Self::dir(), self.cur_idx as int);
                lemma_table_not_empty(self.sstable_store, self.tables@, Self::dir(), self.cur_idx as int);
            },
        }
    }

    fn next(&mut self) -> (r: HummockResult<()>)
        ensures
            final(self).spec_tables() == old(self).spec_tables(),
            final(self).spec_store() == old(self).spec_store(),
            old(self).spec_child() is Some,
            old(self).spec_child()->Some_0.step_error() matches Some(e) ==> r == Err::<
                (),
                HummockError,
            >(e),
            old(self).spec_child()->Some_0.step_error() is None ==> {
                let child = old(self).spec_child()->Some_0;
                let next = old(self).spec_current() + 1;
                if child.position() + 1 < child.source().len() || next >= old(self).spec_tables().len() {
                    r is Ok
                } else {
                    rewind_outcome(old(self).spec_store(), old(self).spec_tables()[next], r)
                }
            },
    {
        proof {
            self.lemma_current_table();
            self.sstable_iter->Some_0.lemma_well_formed();
        }
        match self.poll_next() {
            Poll::Ready(result) => result,
            Poll::Pending => self.await_next(),
        }
    }

    fn poll_next(&mut self) -> (r: Poll<HummockResult<()>>)
        ensures
            final(self).spec_tables() == old(self).spec_tables(),
            final(self).spec_store() == old(self).spec_store(),
            final(self).own_stats() == old(self).own_stats(),
            final(self).released_stats() == old(self).released_stats(),
            final(self).spec_current() == old(self).spec_current(),
            old(self).spec_child() is Some,
            r matches Poll::Ready(Err(_)) <==> old(self).spec_child()->Some_0.step_error() is Some,
            r matches Poll::Ready(Err(e)) ==> old(self).spec_child()->Some_0.step_error() == Some(e),
            r is Pending <==> old(self).spec_child()->Some_0.step_error() is None
                && old(self).spec_child()->Some_0.position() + 1
                == old(self).spec_child()->Some_0.source().len(),
            r matches Poll::Ready(Ok(_)) ==> final(self).state() is Valid,
            r is Pending <==> final(self).spec_pending(),
    {
        let mut sstable_iter = match self.sstable_iter.take() {
            Some(it) => it,
            None => vstd::pervasive::unreached(),
        };
        proof {
            sstable_iter.lemma_well_formed();
            lemma_next_table_start(self.sstable_store, self.tables@, Self::dir(), self.cur_idx as int);
        }
        match sstable_iter.next_for_compact() {
            Err(e) => {
                self.sstable_iter = Some(sstable_iter);
                self.failed = Ghost(true);
                Poll::Ready(Err(e))
            },
            Ok(_) => {
                if sstable_iter.is_valid() {
                    self.sstable_iter = Some(sstable_iter);
                    Poll::Ready(Ok(()))
                } else {
                    // seek to next table
                    self.is_pending = true;
                    self.sstable_iter = Some(sstable_iter);
                    Poll::Pending
                }
            },
        }
    }

    fn await_next(&mut self) -> (r: HummockResult<()>)
        ensures
            final(self).spec_tables() == old(self).spec_tables(),
            final(self).spec_store() == old(self).spec_store(),
            final(self).own_stats() == if old(self).spec_current() + 1 < old(self).spec_tables().len() && old(
                self,
            ).spec_store().lookup(old(self).spec_tables()[old(self).spec_current() + 1].id) is Some {
                old(self).own_stats().plus(StoreLocalStatistic { tables_loaded: 1, blocks_loaded: 0 })
            } else {
                old(self).own_stats()
            },
            r is Ok ==> final(self).released_stats() == match old(self).spec_child() {
                Some(it) => old(self).released_stats().plus(it.local_stats()),
                None => old(self).released_stats(),
            },
            !final(self).spec_pending(),
            old(self).spec_current() + 1 >= old(self).spec_tables().len() ==> r is Ok,
            old(self).spec_current() + 1 < old(self).spec_tables().len() ==> rewind_outcome(
                old(self).spec_store(),
                old(self).spec_tables()[old(self).spec_current() + 1],
                r,
            ),
    {
        let table_count: usize = self.tables.len();
        proof {
            self.lemma_well_formed();
            lemma_next_table_start(self.sstable_store, self.tables@, Self::dir(), self.cur_idx as int);
            lemma_table_not_empty(self.sstable_store, self.tables@, Self::dir(), self.cur_idx as int);
            if self.cur_idx + 1 < table_count {
                lemma_next_table_start(self.sstable_store, self.tables@, Self::dir(), self.cur_idx + 1);
            }
        }
        let ghost before = *self;
        if self.is_pending {
            self.is_pending = false;
            let r = self.seek_idx(self.cur_idx + 1, None);
            proof {
                if r is Ok && before.cur_idx + 1 < table_count {
                    lemma_table_not_empty(self.sstable_store, self.tables@, Self::dir(), self.cur_idx as int);
                }
            }
            match r {
                Ok(_) => {},
                Err(e) => {
                    self.failed = Ghost(true);
                    return Err(e);
                },
            }
        }
        Ok(())
    }

    fn key(&self) -> (k: &[u8]) {
        proof {
            self.lemma_key_index();
        }
        match &self.sstable_iter {
            Some(it) => it.key(),
            None => vstd::pervasive::unreached(),
        }
    }

    fn value(&self) -> (v: HummockValue<&[u8]>) {
        proof {
            self.lemma_key_index();
        }
        match &self.sstable_iter {
            Some(it) => it.value(),
            None => vstd::pervasive::unreached(),
        }
    }

    fn is_valid(&self) -> (b: bool) {
        match &self.sstable_iter {
            Some(it) => it.is_valid(),
            None => false,
        }
    }

    fn rewind(&mut self) -> (r: HummockResult<()>)
        ensures
            final(self).spec_tables() == old(self).spec_tables(),
            final(self).spec_store() == old(self).spec_store(),
            final(self).own_stats() == if 0 < old(self).spec_tables().len() && old(
                self,
            ).spec_store().lookup(old(self).spec_tables()[0].id) is Some {
                old(self).own_stats().plus(StoreLocalStatistic { tables_loaded: 1, blocks_loaded: 0 })
            } else {
                old(self).own_stats()
            },
            r is Ok ==> final(self).released_stats() == match old(self).spec_child() {
                Some(it) => old(self).released_stats().plus(it.local_stats()),
                None => old(self).released_stats(),
            },
            old(self).spec_tables().len() == 0 ==> r is Ok,
            old(self).spec_tables().len() > 0 ==> rewind_outcome(
                old(self).spec_store(),
                old(self).spec_tables()[0],
                r,
            ),
    {
        self.initialized = Ghost(true);
        let r = self.seek_idx(0, None);
        proof {
            if r is Ok && 0 < self.tables@.len() {
                lemma_table_not_empty(self.sstable_store, self.tables@, Self::dir(), 0);
                lemma_next_table_start(self.sstable_store, self.tables@, Self::dir(), 0);
            }
        }
        self.failed = Ghost(r is Err);
        r
    }

    fn seek(&mut self, key: &[u8]) -> (r: HummockResult<()>)
        ensures
            final(self).spec_tables() == old(self).spec_tables(),
            final(self).spec_store() == old(self).spec_store(),
            old(self).spec_tables().len() == 0 ==> r is Ok,
            forall|n: int| #[trigger]
                is_partition_point(old(self).spec_tables(), Self::dir(), key@, n)
                    && old(self).spec_tables().len() > 0 ==> seek_outcome(
                    old(self).spec_store(),
                    old(self).spec_tables(),
                    key@,
                    seek_table(n),
                    r,
                ),
    {
        self.initialized = Ghost(true);
        let dir = DirectionEnum::Forward;
        let point: usize = partition_point(Ghost(self.sstable_store), &self.tables, dir, key);
        proof {
            assert forall|n: int| is_partition_point(self.tables@, Self::dir(), key@, n) implies n
                == point by {
                lemma_partition_point_unique(self.tables@, Self::dir(), key@, n, point as int);
            }
        }
        // considering the boundary of 0
        let table_idx: usize = if point == 0 {
            0
        } else {
            point - 1
        };
        let table_count: usize = self.tables.len();
        let ghost store = self.sstable_store;
        let ghost infos = self.tables@;
        let first = self.seek_idx(table_idx, Some(key));
        proof {
            if first is Err {
                assert(seek_outcome(store, infos, key@, table_idx as int, first));
            }
        }
        match first {
            Ok(_) => {},
            Err(e) => {
                self.failed = Ghost(true);
                return Err(e);
            },
        }
        if table_idx >= table_count {
            return Ok(());
        }
        let ghost cp: nat = self.sstable_iter->Some_0.position();
        proof {
            self.sstable_iter->Some_0.lemma_well_formed();
            lemma_next_table_start(self.sstable_store, self.tables@, Self::dir(), table_idx as int);
            lemma_table_not_empty(self.sstable_store, self.tables@, Self::dir(), table_idx as int);
            lemma_run_seek_position(
                self.sstable_store,
                self.tables@,
                Self::dir(),
                key@,
                point as int,
                table_idx as int,
                cp,
            );
        }
        let ghost first_valid = self.sstable_iter->Some_0.state() is Valid;
        if !self.is_valid() {
            // Seek to next table
            let second = self.seek_idx(table_idx + 1, None);
            proof {
                assert(seek_outcome(store, infos, key@, table_idx as int, second));
            }
            match second {
                Ok(_) => {},
                Err(e) => {
                    self.failed = Ghost(true);
                    return Err(e);
                },
            }
            proof {
                if table_idx + 1 < table_count {
                    lemma_table_not_empty(self.sstable_store, self.tables@, Self::dir(), table_idx + 1);
                    lemma_next_table_start(self.sstable_store, self.tables@, Self::dir(), table_idx + 1);
                }
            }
        } else {
            proof {
                assert(seek_outcome(store, infos, key@, table_idx as int, Ok::<(), HummockError>(())));
            }
        }
        Ok(())
    }

    fn collect_local_statistic(&self, stats: &mut StoreLocalStatistic) {
        stats.add(&self.stats)
    }
}

} // verus!
