//! Runs: lists of tables whose key ranges do not overlap and follow each
//! other in the direction of iteration, and the stream of entries that a
//! run stands for.

use vstd::prelude::*;
use crate::iterator::{
    all_encoded, in_order, is_seek_position, sorted_in, strictly_before, DirectionEnum,
};
use crate::key::{
    compare_key, is_encoded, key_order, lemma_key_order_flip, lemma_key_order_refl,
    lemma_key_order_trans, KeyOrder,
};
use crate::sstable::{first_with_id, sound_table, Sstable, SstableStore};
use crate::value::EntryView;

verus! {

/// The range of keys of a table.
#[derive(Clone, Debug, PartialEq, Eq)]
pub struct KeyRange {
    /// The smallest key.
    pub left: Vec<u8>,
    /// The largest key.
    pub right: Vec<u8>,
    /// Whether the range is open: it then holds every key, whatever `left`
    /// and `right` say.
    pub inf: bool,
}

/// What a run knows of one of its tables.
#[derive(Clone, Debug, PartialEq, Eq)]
pub struct SstableInfo {
    pub id: u64,
    pub key_range: KeyRange,
    pub file_size: u64,
    pub table_ids: Vec<u32>,
}

/// The boundary of a table's range that iteration in direction `dir`
/// crosses first.
pub open spec fn near_key(dir: DirectionEnum, info: SstableInfo) -> Seq<u8> {
    match dir {
        DirectionEnum::Forward => info.key_range.left@,
        DirectionEnum::Backward => info.key_range.right@,
    }
}

/// The boundary of a table's range that iteration in direction `dir`
/// crosses last.
pub open spec fn far_key(dir: DirectionEnum, info: SstableInfo) -> Seq<u8> {
    match dir {
        DirectionEnum::Forward => info.key_range.right@,
        DirectionEnum::Backward => info.key_range.left@,
    }
}

/// The entries `s` of a table in the order in which direction `dir` walks
/// them.
pub open spec fn directed(dir: DirectionEnum, s: Seq<EntryView>) -> Seq<EntryView> {
    match dir {
        DirectionEnum::Forward => s,
        DirectionEnum::Backward => Seq::new(s.len(), |i: int| s[s.len() - 1 - i]),
    }
}

/// What the table of `info` adds to the stream of its run: its entries in
/// direction `dir`, or nothing where the store does not hold the table.
pub open spec fn table_source(store: &SstableStore, info: SstableInfo, dir: DirectionEnum) -> Seq<
    EntryView,
> {
    match store.lookup(info.id) {
        Some(t) => directed(dir, t.spec_entries()),
        None => Seq::empty(),
    }
}

/// The stream of the first `n` tables of a run.
pub open spec fn run_source(
    store: &SstableStore,
    infos: Seq<SstableInfo>,
    dir: DirectionEnum,
    n: int,
) -> Seq<EntryView>
    decreases n,
{
    if n <= 0 {
        Seq::empty()
    } else {
        run_source(store, infos, dir, n - 1) + table_source(store, infos[n - 1], dir)
    }
}

/// The table of `info`, if the store holds it, has entries, and unless the
/// range is open all of them lie within it.
pub open spec fn table_in_range(store: &SstableStore, info: SstableInfo, dir: DirectionEnum) -> bool {
    &&& !info.key_range.inf ==> is_encoded(info.key_range.left@) && is_encoded(
        info.key_range.right@,
    ) && in_order(dir, near_key(dir, info), far_key(dir, info))
    &&& store.lookup(info.id) matches Some(t) ==> {
        &&& t.spec_entries().len() > 0
        &&& !info.key_range.inf ==> forall|i: int|
            0 <= i < t.spec_entries().len() ==> in_order(
                dir,
                near_key(dir, info),
                #[trigger] t.spec_entries()[i].key,
            ) && in_order(dir, t.spec_entries()[i].key, far_key(dir, info))
    }
}

/// The tables of a run follow each other in direction `dir` without
/// overlap, and the store holds well-formed tables that lie within the
/// ranges that the run gives for them. A table with an open range stands
/// alone.
pub open spec fn run_wf(store: &SstableStore, infos: Seq<SstableInfo>, dir: DirectionEnum) -> bool {
    &&& store.wf()
    &&& forall|i: int| 0 <= i < infos.len() ==> table_in_range(store, #[trigger] infos[i], dir)
    &&& infos.len() > 1 ==> forall|i: int| 0 <= i < infos.len() ==> !(#[trigger] infos[i]).key_range.inf
    &&& forall|i: int, j: int|
        0 <= i < j < infos.len() ==> strictly_before(
            dir,
            far_key(dir, #[trigger] infos[i]),
            near_key(dir, #[trigger] infos[j]),
        )
}

/// The store holds the table of `info`, and no block of it fails its
/// checksum.
pub open spec fn table_healthy(store: &SstableStore, info: SstableInfo) -> bool {
    store.lookup(info.id) matches Some(t) && sound_table(&t)
}

/// The store holds every table of the run, and none of them has a block
/// that fails its checksum.
pub open spec fn run_healthy(store: &SstableStore, infos: Seq<SstableInfo>) -> bool {
    forall|i: int| 0 <= i < infos.len() ==> table_healthy(store, #[trigger] infos[i])
}

/// `n` tables at the head of the run begin at `key` or before it, and no
/// other table does.
pub open spec fn is_partition_point(
    infos: Seq<SstableInfo>,
    dir: DirectionEnum,
    key: Seq<u8>,
    n: int,
) -> bool {
    &&& 0 <= n <= infos.len()
    &&& forall|i: int| 0 <= i < n ==> starts_at_or_before(dir, #[trigger] infos[i], key)
    &&& forall|i: int| n <= i < infos.len() ==> !starts_at_or_before(dir, #[trigger] infos[i], key)
}

/// The table in which a seek begins, where `n` tables begin at the key or
/// before it: the last of them, or the first table if there is none.
pub open spec fn seek_table(n: int) -> int {
    if n <= 0 {
        0
    } else {
        n - 1
    }
}

/// A run has one partition point for a key.
pub proof fn lemma_partition_point_unique(
    infos: Seq<SstableInfo>,
    dir: DirectionEnum,
    key: Seq<u8>,
    m: int,
    n: int,
)
    requires
        is_partition_point(infos, dir, key, m),
        is_partition_point(infos, dir, key, n),
    ensures
        m == n,
{
    if m < n {
        assert(starts_at_or_before(dir, infos[m], key));
    } else if n < m {
        assert(starts_at_or_before(dir, infos[n], key));
    }
}

/// What may stand before a key may stand before anything that the key may
/// stand before; and strictly so as soon as one of the two steps is strict.
pub proof fn lemma_in_order_trans(dir: DirectionEnum, a: Seq<u8>, b: Seq<u8>, c: Seq<u8>)
    requires
        is_encoded(a),
        is_encoded(b),
        is_encoded(c),
        in_order(dir, a, b),
        in_order(dir, b, c),
    ensures
        in_order(dir, a, c),
        strictly_before(dir, a, b) || strictly_before(dir, b, c) ==> strictly_before(dir, a, c),
{
    match dir {
        DirectionEnum::Forward => {
            lemma_key_order_trans(a, b, c);
        },
        DirectionEnum::Backward => {
            lemma_key_order_flip(a, b);
            lemma_key_order_flip(b, c);
            lemma_key_order_flip(a, c);
            lemma_key_order_trans(c, b, a);
        },
    }
}

/// Of two keys, one may stand before the other exactly when the other does
/// not stand strictly before it.
pub proof fn lemma_in_order_total(dir: DirectionEnum, a: Seq<u8>, b: Seq<u8>)
    ensures
        in_order(dir, a, b) <==> !strictly_before(dir, b, a),
        strictly_before(dir, a, b) ==> in_order(dir, a, b),
        in_order(dir, a, a),
{
    lemma_key_order_flip(a, b);
    lemma_key_order_refl(a);
}

/// The store hands out only tables that it holds.
pub proof fn lemma_lookup_wf(store: &SstableStore, id: u64)
    requires
        store.wf(),
    ensures
        store.lookup(id) matches Some(t) ==> t.wf(),
{
    lemma_first_with_id(store.spec_tables(), id, 0);
}

/// Where a table with id `id` is found from index `from` on, it is at an
/// index of the list.
pub proof fn lemma_first_with_id(tables: Seq<Sstable>, id: u64, from: int)
    requires
        0 <= from,
    ensures
        first_with_id(tables, id, from) matches Some(i) ==> from <= i < tables.len()
            && tables[i].spec_id() == id,
    decreases tables.len() - from,
{
    if from < tables.len() && tables[from].spec_id() != id {
        lemma_first_with_id(tables, id, from + 1);
    }
}

/// The entries of a well-formed table, walked in direction `dir`, are
/// encoded keys that move strictly on from each to the next.
pub proof fn lemma_directed_sorted(dir: DirectionEnum, t: Sstable, i: int, j: int)
    requires
        t.wf(),
        0 <= i < j < t.spec_entries().len(),
    ensures
        strictly_before(
            dir,
            directed(dir, t.spec_entries())[i].key,
            directed(dir, t.spec_entries())[j].key,
        ),
        is_encoded(directed(dir, t.spec_entries())[i].key),
        is_encoded(directed(dir, t.spec_entries())[j].key),
{
    let s = t.spec_entries();
    match dir {
        DirectionEnum::Forward => {
            assert(key_order(s[i].key, s[j].key) == KeyOrder::Less);
        },
        DirectionEnum::Backward => {
            let a = s.len() - 1 - j;
            let b = s.len() - 1 - i;
            assert(key_order(s[a].key, s[b].key) == KeyOrder::Less);
            lemma_key_order_flip(s[a].key, s[b].key);
        },
    }
}

/// The stream of the first `m` tables is a part of that of the first `n`,
/// and the stream of table `i` stands in it where the first `i` tables end.
pub proof fn lemma_run_source_index(
    store: &SstableStore,
    infos: Seq<SstableInfo>,
    dir: DirectionEnum,
    n: int,
    i: int,
    p: int,
)
    requires
        0 <= i < n <= infos.len(),
        0 <= p < table_source(store, infos[i], dir).len(),
    ensures
        run_source(store, infos, dir, i).len() + table_source(store, infos[i], dir).len()
            <= run_source(store, infos, dir, n).len(),
        run_source(store, infos, dir, n)[run_source(store, infos, dir, i).len() + p]
            == table_source(store, infos[i], dir)[p],
    decreases n,
{
    if i < n - 1 {
        lemma_run_source_index(store, infos, dir, n - 1, i, p);
    }
}

/// The stream of the first `m` tables is no longer than that of the first `n`.
pub proof fn lemma_run_source_len(
    store: &SstableStore,
    infos: Seq<SstableInfo>,
    dir: DirectionEnum,
    m: int,
    n: int,
)
    requires
        0 <= m <= n,
    ensures
        run_source(store, infos, dir, m).len() <= run_source(store, infos, dir, n).len(),
        m < n ==> run_source(store, infos, dir, m).len() + table_source(
            store,
            infos[m],
            dir,
        ).len() <= run_source(store, infos, dir, n).len(),
    decreases n - m,
{
    if m < n {
        lemma_run_source_len(store, infos, dir, m, n - 1);
        if m < n - 1 {
        }
    }
}

/// Every entry of a table of a well-formed run is an encoded key within the
/// table's range.
pub proof fn lemma_table_source_in_range(
    store: &SstableStore,
    infos: Seq<SstableInfo>,
    dir: DirectionEnum,
    i: int,
    p: int,
)
    requires
        run_wf(store, infos, dir),
        0 <= i < infos.len(),
        0 <= p < table_source(store, infos[i], dir).len(),
    ensures
        is_encoded(table_source(store, infos[i], dir)[p].key),
        !infos[i].key_range.inf ==> in_order(
            dir,
            near_key(dir, infos[i]),
            table_source(store, infos[i], dir)[p].key,
        ) && in_order(dir, table_source(store, infos[i], dir)[p].key, far_key(dir, infos[i])),
{
    assert(table_in_range(store, infos[i], dir));
    lemma_lookup_wf(store, infos[i].id);
    let t = store.lookup(infos[i].id)->Some_0;
    let s = t.spec_entries();
    let q = match dir {
        DirectionEnum::Forward => p,
        DirectionEnum::Backward => s.len() - 1 - p,
    };
    assert(table_source(store, infos[i], dir)[p] == s[q]);
    assert(is_encoded(s[q].key));
}

/// In a well-formed run, every entry of the first `m` tables stands strictly
/// before the range of table `j`, for `j` from `m` on.
pub proof fn lemma_run_prefix_before(
    store: &SstableStore,
    infos: Seq<SstableInfo>,
    dir: DirectionEnum,
    m: int,
    j: int,
    p: int,
)
    requires
        run_wf(store, infos, dir),
        0 <= m <= j < infos.len(),
        0 <= p < run_source(store, infos, dir, m).len(),
    ensures
        is_encoded(run_source(store, infos, dir, m)[p].key),
        strictly_before(dir, run_source(store, infos, dir, m)[p].key, near_key(dir, infos[j])),
    decreases m,
{
    let prev = run_source(store, infos, dir, m - 1);
    if p < prev.len() {
        lemma_run_prefix_before(store, infos, dir, m - 1, j, p);
    } else {
        let q = p - prev.len();
        let k = table_source(store, infos[m - 1], dir)[q].key;
        lemma_table_source_in_range(store, infos, dir, m - 1, q);
        assert(!infos[m - 1].key_range.inf);
        assert(!infos[j].key_range.inf);
        assert(table_in_range(store, infos[m - 1], dir));
        assert(table_in_range(store, infos[j], dir));
        assert(strictly_before(dir, far_key(dir, infos[m - 1]), near_key(dir, infos[j])));
        lemma_in_order_total(dir, far_key(dir, infos[m - 1]), near_key(dir, infos[j]));
        lemma_in_order_trans(dir, k, far_key(dir, infos[m - 1]), near_key(dir, infos[j]));
    }
}

/// The stream of a well-formed run is sorted in the run's direction and
/// made of encoded keys.
pub proof fn lemma_run_sorted(
    store: &SstableStore,
    infos: Seq<SstableInfo>,
    dir: DirectionEnum,
    n: int,
)
    requires
        run_wf(store, infos, dir),
        0 <= n <= infos.len(),
    ensures
        sorted_in(dir, run_source(store, infos, dir, n)),
        all_encoded(run_source(store, infos, dir, n)),
    decreases n,
{
    if n > 0 {
        lemma_run_sorted(store, infos, dir, n - 1);
        let prev = run_source(store, infos, dir, n - 1);
        let ts = table_source(store, infos[n - 1], dir);
        let s = run_source(store, infos, dir, n);
        lemma_lookup_wf(store, infos[n - 1].id);
        assert forall|i: int| 0 <= i < s.len() implies is_encoded(#[trigger] s[i].key) by {
            if i >= prev.len() {
                lemma_table_source_in_range(store, infos, dir, n - 1, i - prev.len());
            } else {
                assert(s[i] == prev[i]);
            }
        }
        assert forall|i: int, j: int| 0 <= i < j < s.len() implies in_order(
            dir,
            #[trigger] s[i].key,
            #[trigger] s[j].key,
        ) by {
            if j < prev.len() {
                assert(s[i] == prev[i] && s[j] == prev[j]);
            } else if i >= prev.len() {
                let t = store.lookup(infos[n - 1].id)->Some_0;
                lemma_directed_sorted(dir, t, i - prev.len(), j - prev.len());
                lemma_in_order_total(dir, s[i].key, s[j].key);
            } else {
                assert(s[i] == prev[i]);
                lemma_run_prefix_before(store, infos, dir, n - 1, n - 1, i);
                lemma_table_source_in_range(store, infos, dir, n - 1, j - prev.len());
                assert(!infos[n - 1].key_range.inf) by {
                    if infos.len() == 1 {
                        assert(prev.len() == 0);
                    }
                }
                assert(table_in_range(store, infos[n - 1], dir));
                lemma_in_order_total(dir, s[i].key, near_key(dir, infos[n - 1]));
                lemma_in_order_trans(dir, s[i].key, near_key(dir, infos[n - 1]), s[j].key);
            }
        }
    }
}

/// A seek for `key` in direction `dir` may have to look into the table of
/// `info`, or into a later one: its range is open, or begins at `key` or
/// before it.
pub open spec fn starts_at_or_before(dir: DirectionEnum, info: SstableInfo, key: Seq<u8>) -> bool {
    info.key_range.inf || in_order(dir, near_key(dir, info), key)
}

/// In a well-formed run, the tables whose range begins at `key` or before
/// it come first.
pub proof fn lemma_starts_monotonic(
    store: &SstableStore,
    infos: Seq<SstableInfo>,
    dir: DirectionEnum,
    key: Seq<u8>,
    i: int,
    j: int,
)
    requires
        run_wf(store, infos, dir),
        is_encoded(key),
        0 <= i <= j < infos.len(),
        starts_at_or_before(dir, infos[j], key),
    ensures
        starts_at_or_before(dir, infos[i], key),
{
    if i < j {
        assert(table_in_range(store, infos[i], dir));
        assert(table_in_range(store, infos[j], dir));
        assert(!infos[i].key_range.inf && !infos[j].key_range.inf);
        let ni = near_key(dir, infos[i]);
        let fi = far_key(dir, infos[i]);
        let nj = near_key(dir, infos[j]);
        assert(strictly_before(dir, fi, nj));
        lemma_in_order_total(dir, fi, nj);
        lemma_in_order_trans(dir, ni, fi, nj);
        lemma_in_order_trans(dir, ni, nj, key);
    }
}

/// Whether the range of `info` is open or begins, in direction `dir`, at
/// `key` or before it.
pub fn range_starts_at_or_before(info: &SstableInfo, dir: DirectionEnum, key: &[u8]) -> (b: bool)
    requires
        is_encoded(key@),
        !info.key_range.inf ==> is_encoded(info.key_range.left@) && is_encoded(
            info.key_range.right@,
        ),
    ensures
        b == starts_at_or_before(dir, *info, key@),
{
    if info.key_range.inf {
        return true;
    }
    match dir {
        DirectionEnum::Forward => {
            match compare_key(info.key_range.left.as_slice(), key) {
                KeyOrder::Greater => false,
                _ => true,
            }
        },
        DirectionEnum::Backward => {
            match compare_key(info.key_range.right.as_slice(), key) {
                KeyOrder::Less => false,
                _ => true,
            }
        },
    }
}

/// The number of tables at the head of the run whose range is open or
/// begins, in direction `dir`, at `key` or before it.
pub(crate) fn partition_point(
    store: Ghost<&SstableStore>,
    tables: &Vec<SstableInfo>,
    dir: DirectionEnum,
    key: &[u8],
) -> (n: usize)
    requires
        run_wf(store@, tables@, dir),
        is_encoded(key@),
    ensures
        is_partition_point(tables@, dir, key@, n as int),
{
    let mut lo: usize = 0;
    let mut hi: usize = tables.len();
    while lo < hi
        invariant
            lo <= hi <= tables@.len(),
            run_wf(store@, tables@, dir),
            is_encoded(key@),
            forall|i: int| 0 <= i < lo ==> starts_at_or_before(dir, #[trigger] tables@[i], key@),
            forall|i: int| hi <= i < tables@.len() ==> !starts_at_or_before(dir, #[trigger] tables@[i], key@),
        decreases hi - lo,
    {
        let mid: usize = lo + (hi - lo) / 2;
        assert(table_in_range(store@, tables@[mid as int], dir));
        if range_starts_at_or_before(&tables[mid], dir, key) {
            proof {
                assert forall|i: int| 0 <= i < mid + 1 implies starts_at_or_before(
                    dir,
                    #[trigger] tables@[i],
                    key@,
                ) by {
                    lemma_starts_monotonic(store@, tables@, dir, key@, i, mid as int);
                }
            }
            lo = mid + 1;
        } else {
            proof {
                assert forall|i: int| mid <= i < tables@.len() implies !starts_at_or_before(
                    dir,
                    #[trigger] tables@[i],
                    key@,
                ) by {
                    if starts_at_or_before(dir, tables@[i], key@) {
                        lemma_starts_monotonic(store@, tables@, dir, key@, mid as int, i);
                    }
                }
            }
            hi = mid;
        }
    }
    lo
}

/// The stream of the first `n` tables begins with that of the first `m`.
pub proof fn lemma_run_source_prefix(
    store: &SstableStore,
    infos: Seq<SstableInfo>,
    dir: DirectionEnum,
    m: int,
    n: int,
    i: int,
)
    requires
        0 <= m <= n,
        0 <= i < run_source(store, infos, dir, m).len(),
    ensures
        i < run_source(store, infos, dir, n).len(),
        run_source(store, infos, dir, n)[i] == run_source(store, infos, dir, m)[i],
    decreases n - m,
{
    if m < n {
        lemma_run_source_prefix(store, infos, dir, m, n - 1, i);
    }
}

/// In a well-formed run, where no table from `m` on begins at `key` or
/// before it, `key` may stand before every entry of those tables.
pub proof fn lemma_run_suffix_after(
    store: &SstableStore,
    infos: Seq<SstableInfo>,
    dir: DirectionEnum,
    key: Seq<u8>,
    m: int,
    n: int,
    p: int,
)
    requires
        run_wf(store, infos, dir),
        is_encoded(key),
        0 <= m <= n <= infos.len(),
        forall|j: int| m <= j < n ==> !starts_at_or_before(dir, #[trigger] infos[j], key),
        run_source(store, infos, dir, m).len() <= p < run_source(store, infos, dir, n).len(),
    ensures
        in_order(dir, key, run_source(store, infos, dir, n)[p].key),
    decreases n - m,
{
    let prev = run_source(store, infos, dir, n - 1);
    if m == n {
    } else if p < prev.len() {
        lemma_run_suffix_after(store, infos, dir, key, m, n - 1, p);
    } else {
        let q = p - prev.len();
        let info = infos[n - 1];
        assert(!starts_at_or_before(dir, info, key));
        lemma_table_source_in_range(store, infos, dir, n - 1, q);
        assert(table_in_range(store, info, dir));
        lemma_in_order_total(dir, near_key(dir, info), key);
        lemma_in_order_total(dir, key, near_key(dir, info));
        lemma_in_order_trans(dir, key, near_key(dir, info), table_source(store, info, dir)[q].key);
    }
}

/// Where a seek for `key` lands in a well-formed run: in the last table
/// that begins at `key` or before it (the first table, if none does), where
/// a seek for `key` lands in that table; which is the beginning of the next
/// table when it is the end of that one.
pub proof fn lemma_run_seek_position(
    store: &SstableStore,
    infos: Seq<SstableInfo>,
    dir: DirectionEnum,
    key: Seq<u8>,
    point: int,
    idx: int,
    cp: nat,
)
    requires
        run_wf(store, infos, dir),
        is_encoded(key),
        0 <= point <= infos.len(),
        forall|i: int| 0 <= i < point ==> starts_at_or_before(dir, #[trigger] infos[i], key),
        forall|i: int| point <= i < infos.len() ==> !starts_at_or_before(dir, #[trigger] infos[i], key),
        idx == if point == 0 {
            0
        } else {
            point - 1
        },
        idx < infos.len(),
        is_seek_position(dir, table_source(store, infos[idx], dir), key, cp),
    ensures
        is_seek_position(
            dir,
            run_source(store, infos, dir, infos.len() as int),
            key,
            run_source(store, infos, dir, idx).len() + cp,
        ),
{
    let n = infos.len() as int;
    let total = run_source(store, infos, dir, n);
    let start = run_source(store, infos, dir, idx).len() as int;
    let ts = table_source(store, infos[idx], dir);
    let p = start + cp;
    lemma_run_source_len(store, infos, dir, idx, n);
    lemma_run_source_len(store, infos, dir, idx + 1, n);
    assert forall|i: int| 0 <= i < p implies strictly_before(dir, #[trigger] total[i].key, key) by {
        if i < start {
            lemma_run_source_prefix(store, infos, dir, idx, n, i);
            lemma_run_prefix_before(store, infos, dir, idx, idx, i);
            assert(idx > 0);
            assert(starts_at_or_before(dir, infos[idx], key));
            assert(!infos[idx].key_range.inf);
            assert(table_in_range(store, infos[idx], dir));
            lemma_in_order_total(dir, total[i].key, near_key(dir, infos[idx]));
            lemma_in_order_trans(dir, total[i].key, near_key(dir, infos[idx]), key);
        } else {
            lemma_run_source_index(store, infos, dir, n, idx, i - start);
            assert(strictly_before(dir, ts[i - start].key, key));
        }
    }
    if p < total.len() {
        if cp < ts.len() {
            lemma_run_source_index(store, infos, dir, n, idx, cp as int);
        } else {
            lemma_run_suffix_after(store, infos, dir, key, idx + 1, n, p);
        }
    }
}

/// In the stream of a well-formed run no key occurs twice: each entry
/// stands strictly before the ones after it.
pub proof fn lemma_run_strictly_sorted(
    store: &SstableStore,
    infos: Seq<SstableInfo>,
    dir: DirectionEnum,
    n: int,
    i: int,
    j: int,
)
    requires
        run_wf(store, infos, dir),
        0 <= n <= infos.len(),
        0 <= i < j < run_source(store, infos, dir, n).len(),
    ensures
        strictly_before(
            dir,
            run_source(store, infos, dir, n)[i].key,
            run_source(store, infos, dir, n)[j].key,
        ),
    decreases n,
{
    let prev = run_source(store, infos, dir, n - 1);
    let s = run_source(store, infos, dir, n);
    lemma_lookup_wf(store, infos[n - 1].id);
    if j < prev.len() {
        lemma_run_strictly_sorted(store, infos, dir, n - 1, i, j);
    } else if i >= prev.len() {
        let t = store.lookup(infos[n - 1].id)->Some_0;
        lemma_directed_sorted(dir, t, i - prev.len(), j - prev.len());
    } else {
        assert(s[i] == prev[i]);
        lemma_run_prefix_before(store, infos, dir, n - 1, n - 1, i);
        lemma_table_source_in_range(store, infos, dir, n - 1, j - prev.len());
        assert(!infos[n - 1].key_range.inf) by {
            if infos.len() == 1 {
                assert(prev.len() == 0);
            }
        }
        assert(table_in_range(store, infos[n - 1], dir));
        lemma_in_order_total(dir, s[i].key, near_key(dir, infos[n - 1]));
        lemma_in_order_trans(dir, s[i].key, near_key(dir, infos[n - 1]), s[j].key);
    }
}

impl SstableInfo {
    /// What a run knows of `table`: its id, and the range from its smallest
    /// key to its largest.
    pub fn of(table: &Sstable) -> (info: SstableInfo)
        requires
            table.wf(),
            table.spec_entries().len() > 0,
        ensures
            info.id == table.spec_id(),
            !info.key_range.inf,
            info.key_range.left@ == table.spec_entries()[0].key,
            info.key_range.right@ == table.spec_entries()[table.spec_entries().len() - 1].key,
            info.file_size == table.spec_entries().len(),
            info.table_ids@ == Seq::<u32>::empty(),
    {
        SstableInfo {
            id: table.id(),
            key_range: KeyRange {
                left: vstd::slice::slice_to_vec(table.smallest_key()),
                right: vstd::slice::slice_to_vec(table.largest_key()),
                inf: false,
            },
            file_size: table.len() as u64,
            table_ids: Vec::new(),
        }
    }
}

/// Whether the table of `info`, if the store holds it, has entries that,
/// unless the range is open, all lie within the range.
pub fn check_table_in_range(store: &SstableStore, info: &SstableInfo, dir: DirectionEnum) -> (b:
    bool)
    requires
        store.wf(),
    ensures
        b == table_in_range(store, *info, dir),
{
    let left = info.key_range.left.as_slice();
    let right = info.key_range.right.as_slice();
    if !info.key_range.inf {
        if left.len() < 8 || right.len() < 8 {
            return false;
        }
        proof {
            lemma_key_order_flip(left@, right@);
        }
        match compare_key(left, right) {
            KeyOrder::Greater => {
                return false;
            },
            _ => {},
        }
    }
    proof {
        lemma_lookup_wf(store, info.id);
    }
    match store.find(info.id) {
        None => true,
        Some(t) => {
            if t.is_empty() {
                return false;
            }
            if info.key_range.inf {
                return true;
            }
            let ghost e = t.spec_entries();
            let ghost last = e.len() - 1;
            assert(is_encoded(e[0].key) && is_encoded(e[last].key));
            let low = compare_key(left, t.smallest_key());
            let high = compare_key(t.largest_key(), right);
            proof {
                lemma_key_order_flip(left@, e[0].key);
                lemma_key_order_flip(e[last].key, right@);
                if low != KeyOrder::Greater && high != KeyOrder::Greater {
                    assert forall|i: int| 0 <= i < e.len() implies in_order(
                        dir,
                        near_key(dir, *info),
                        #[trigger] e[i].key,
                    ) && in_order(dir, e[i].key, far_key(dir, *info)) by {
                        assert(is_encoded(e[i].key));
                        lemma_key_order_refl(e[i].key);
                        if 0 < i {
                            assert(key_order(e[0].key, e[i].key) == KeyOrder::Less);
                        }
                        if i < last {
                            assert(key_order(e[i].key, e[last].key) == KeyOrder::Less);
                        }
                        lemma_key_order_trans(left@, e[0].key, e[i].key);
                        lemma_key_order_trans(e[i].key, e[last].key, right@);
                        lemma_key_order_flip(left@, e[i].key);
                        lemma_key_order_flip(e[i].key, right@);
                    }
                } else if low == KeyOrder::Greater {
                    assert(!in_order(dir, near_key(dir, *info), e[0].key) || !in_order(
                        dir,
                        e[0].key,
                        far_key(dir, *info),
                    ));
                } else {
                    assert(!in_order(dir, near_key(dir, *info), e[last].key) || !in_order(
                        dir,
                        e[last].key,
                        far_key(dir, *info),
                    ));
                }
            }
            match (low, high) {
                (KeyOrder::Greater, _) => false,
                (_, KeyOrder::Greater) => false,
                _ => true,
            }
        },
    }
}

/// Tables whose ranges are in order and each end before the next begins
/// do not overlap, however far apart they stand.
pub proof fn lemma_adjacent_ranges(
    store: &SstableStore,
    infos: Seq<SstableInfo>,
    dir: DirectionEnum,
    n: int,
    i: int,
    j: int,
)
    requires
        0 <= i < j < n <= infos.len(),
        forall|k: int| 0 <= k < n ==> table_in_range(store, #[trigger] infos[k], dir) && !infos[k].key_range.inf,
        forall|k: int|
            0 < k < n ==> strictly_before(
                dir,
                far_key(dir, infos[k - 1]),
                near_key(dir, #[trigger] infos[k]),
            ),
    ensures
        strictly_before(dir, far_key(dir, infos[i]), near_key(dir, infos[j])),
    decreases j - i,
{
    if i + 1 < j {
        lemma_adjacent_ranges(store, infos, dir, n, i, j - 1);
        assert(table_in_range(store, infos[i], dir));
        assert(table_in_range(store, infos[j - 1], dir));
        assert(table_in_range(store, infos[j], dir));
        let a = far_key(dir, infos[i]);
        let b = near_key(dir, infos[j - 1]);
        let c = far_key(dir, infos[j - 1]);
        let d = near_key(dir, infos[j]);
        assert(strictly_before(dir, c, d));
        lemma_in_order_total(dir, a, b);
        lemma_in_order_total(dir, c, d);
        lemma_in_order_trans(dir, a, b, c);
        lemma_in_order_trans(dir, a, c, d);
    } else {
        assert(table_in_range(store, infos[j], dir));
    }
}

/// Whether `tables` are a run in direction `dir` over the tables of
/// `store`: what the iterators over a run ask of it.
pub fn check_run(store: &SstableStore, tables: &Vec<SstableInfo>, dir: DirectionEnum) -> (b: bool)
    requires
        store.wf(),
    ensures
        b == run_wf(store, tables@, dir),
{
    let n: usize = tables.len();
    let mut i: usize = 0;
    while i < n
        invariant
            i <= n,
            n == tables@.len(),
            store.wf(),
            forall|k: int| 0 <= k < i ==> table_in_range(store, #[trigger] tables@[k], dir),
            n > 1 ==> forall|k: int| 0 <= k < i ==> !(#[trigger] tables@[k]).key_range.inf,
            forall|k: int|
                0 < k < i ==> strictly_before(
                    dir,
                    far_key(dir, tables@[k - 1]),
                    near_key(dir, #[trigger] tables@[k]),
                ),
        decreases n - i,
    {
        if !check_table_in_range(store, &tables[i], dir) {
            return false;
        }
        if n > 1 && tables[i].key_range.inf {
            return false;
        }
        if i > 0 {
            assert(table_in_range(store, tables@[i - 1], dir));
            let apart = match dir {
                DirectionEnum::Forward => {
                    match compare_key(
                        tables[i - 1].key_range.right.as_slice(),
                        tables[i].key_range.left.as_slice(),
                    ) {
                        KeyOrder::Less => true,
                        _ => false,
                    }
                },
                DirectionEnum::Backward => {
                    match compare_key(
                        tables[i - 1].key_range.left.as_slice(),
                        tables[i].key_range.right.as_slice(),
                    ) {
                        KeyOrder::Greater => true,
                        _ => false,
                    }
                },
            };
            if !apart {
                return false;
            }
        }
        i += 1;
    }
    proof {
        assert forall|a: int, b: int| 0 <= a < b < tables@.len() implies strictly_before(
            dir,
            far_key(dir, #[trigger] tables@[a]),
            near_key(dir, #[trigger] tables@[b]),
        ) by {
            lemma_adjacent_ranges(store, tables@, dir, n as int, a, b);
        }
    }
    true
}

/// The stream of the first `i + 1` tables is that of the first `i` and then
/// that of table `i`; it is a part of the stream of the run.
pub proof fn lemma_next_table_start(
    store: &SstableStore,
    infos: Seq<SstableInfo>,
    dir: DirectionEnum,
    i: int,
)
    requires
        0 <= i < infos.len(),
    ensures
        run_source(store, infos, dir, i + 1).len() == run_source(store, infos, dir, i).len()
            + table_source(store, infos[i], dir).len(),
        run_source(store, infos, dir, i + 1).len() <= run_source(
            store,
            infos,
            dir,
            infos.len() as int,
        ).len(),
{
    lemma_run_source_len(store, infos, dir, i + 1, infos.len() as int);
}

/// A table of a well-formed run that the store holds has entries.
pub proof fn lemma_table_not_empty(
    store: &SstableStore,
    infos: Seq<SstableInfo>,
    dir: DirectionEnum,
    i: int,
)
    requires
        run_wf(store, infos, dir),
        0 <= i < infos.len(),
        store.lookup(infos[i].id) is Some,
    ensures
        table_source(store, infos[i], dir).len() > 0,
{
    assert(table_in_range(store, infos[i], dir));
}

} // verus!
