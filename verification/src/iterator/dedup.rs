//! A sorted sequence of entries with each key kept once: of the entries
//! with one key, the first stays.

use vstd::prelude::*;
use crate::iterator::{
    all_encoded, in_order, is_seek_position, sorted_in, strictly_before, DirectionEnum,
};
use crate::key::{is_encoded, lemma_key_order_equal};
use crate::run::{lemma_in_order_total, lemma_in_order_trans};
use crate::value::EntryView;

verus! {

/// Entry `i` of `m` is the first with its key among those that stand next
/// to each other.
pub open spec fn kept(m: Seq<EntryView>, i: int) -> bool {
    i == 0 || m[i].key != m[i - 1].key
}

/// The entries among the first `q` of `m` that are kept, in their order.
pub open spec fn dedup_upto(m: Seq<EntryView>, q: int) -> Seq<EntryView>
    decreases q,
{
    if q <= 0 {
        Seq::empty()
    } else if kept(m, q - 1) {
        dedup_upto(m, q - 1).push(m[q - 1])
    } else {
        dedup_upto(m, q - 1)
    }
}

/// `m` with each key kept once.
pub open spec fn dedup(m: Seq<EntryView>) -> Seq<EntryView> {
    dedup_upto(m, m.len() as int)
}

/// Where in `m` entry `j` of what is kept of the first `q` entries stands.
pub open spec fn origin(m: Seq<EntryView>, q: int, j: int) -> int
    decreases q,
{
    if q <= 0 {
        0
    } else if j < dedup_upto(m, q - 1).len() {
        origin(m, q - 1, j)
    } else {
        q - 1
    }
}

/// What is kept of the first `a` entries is the beginning of what is kept
/// of the first `b`, for `a` up to `b`.
pub proof fn lemma_dedup_prefix(m: Seq<EntryView>, a: int, b: int)
    requires
        0 <= a <= b,
    ensures
        dedup_upto(m, a).len() <= dedup_upto(m, b).len(),
        dedup_upto(m, b).len() <= dedup_upto(m, a).len() + (b - a),
        forall|j: int|
            0 <= j < dedup_upto(m, a).len() ==> #[trigger] dedup_upto(m, b)[j] == dedup_upto(m, a)[j],
    decreases b - a,
{
    if a < b {
        lemma_dedup_prefix(m, a, b - 1);
    }
}

/// Where no entry from `a` up to `b` is kept, as much is kept of the first
/// `b` entries as of the first `a`.
pub proof fn lemma_dedup_none_kept(m: Seq<EntryView>, a: int, b: int)
    requires
        0 <= a <= b,
        forall|i: int| a <= i < b ==> !kept(m, i),
    ensures
        dedup_upto(m, b) == dedup_upto(m, a),
    decreases b - a,
{
    if a < b {
        lemma_dedup_none_kept(m, a, b - 1);
        assert(!kept(m, b - 1));
    }
}

/// An entry that is kept stands in what is kept, after the kept ones
/// before it.
pub proof fn lemma_dedup_at(m: Seq<EntryView>, q: int, n: int)
    requires
        0 <= q < n,
        kept(m, q),
    ensures
        dedup_upto(m, q).len() < dedup_upto(m, n).len(),
        dedup_upto(m, n)[dedup_upto(m, q).len() as int] == m[q],
{
    lemma_dedup_prefix(m, q + 1, n);
    assert(dedup_upto(m, q + 1) == dedup_upto(m, q).push(m[q]));
}

/// Every entry of what is kept is a kept entry of `m`, and they stand in
/// `m` in the same order.
pub proof fn lemma_origin(m: Seq<EntryView>, q: int, j: int)
    requires
        0 <= q,
        0 <= j < dedup_upto(m, q).len(),
    ensures
        0 <= origin(m, q, j) < q,
        kept(m, origin(m, q, j)),
        dedup_upto(m, q)[j] == m[origin(m, q, j)],
        dedup_upto(m, origin(m, q, j)).len() == j,
    decreases q,
{
    if q > 0 {
        if j < dedup_upto(m, q - 1).len() {
            lemma_origin(m, q - 1, j);
        }
    }
}

/// A later entry of what is kept stands later in `m`.
pub proof fn lemma_origin_monotonic(m: Seq<EntryView>, q: int, j1: int, j2: int)
    requires
        0 <= q,
        0 <= j1 < j2 < dedup_upto(m, q).len(),
    ensures
        origin(m, q, j1) < origin(m, q, j2),
{
    lemma_origin(m, q, j1);
    lemma_origin(m, q, j2);
    let o1 = origin(m, q, j1);
    let o2 = origin(m, q, j2);
    if o1 >= o2 {
        lemma_dedup_prefix(m, o2, o1);
    }
}

/// What is kept of a sorted sequence of encoded keys is sorted, its keys
/// are encoded, and no two of its entries have the same key.
pub proof fn lemma_dedup_sorted(dir: DirectionEnum, m: Seq<EntryView>, q: int)
    requires
        0 <= q <= m.len(),
        sorted_in(dir, m),
        all_encoded(m),
    ensures
        sorted_in(dir, dedup_upto(m, q)),
        all_encoded(dedup_upto(m, q)),
        forall|a: int, b: int|
            0 <= a < b < dedup_upto(m, q).len() ==> strictly_before(
                dir,
                #[trigger] dedup_upto(m, q)[a].key,
                #[trigger] dedup_upto(m, q)[b].key,
            ),
{
    let d = dedup_upto(m, q);
    assert forall|a: int| 0 <= a < d.len() implies is_encoded(#[trigger] d[a].key) by {
        lemma_origin(m, q, a);
    }
    assert forall|a: int, b: int| 0 <= a < b < d.len() implies strictly_before(
        dir,
        #[trigger] d[a].key,
        #[trigger] d[b].key,
    ) by {
        lemma_origin(m, q, a);
        lemma_origin(m, q, b);
        lemma_origin_monotonic(m, q, a, b);
        let oa = origin(m, q, a);
        let ob = origin(m, q, b);
        let before = m[ob - 1].key;
        assert(is_encoded(m[oa].key) && is_encoded(m[ob].key) && is_encoded(before));
        assert(in_order(dir, before, m[ob].key));
        lemma_key_order_equal(before, m[ob].key);
        assert(strictly_before(dir, before, m[ob].key));
        lemma_in_order_total(dir, m[oa].key, before);
        if oa < ob - 1 {
            assert(in_order(dir, m[oa].key, before));
        }
        lemma_in_order_trans(dir, m[oa].key, before, m[ob].key);
    }
    assert forall|a: int, b: int| 0 <= a < b < d.len() implies in_order(
        dir,
        #[trigger] d[a].key,
        #[trigger] d[b].key,
    ) by {
        assert(strictly_before(dir, d[a].key, d[b].key));
        lemma_in_order_total(dir, d[a].key, d[b].key);
    }
}

/// Where a seek for `key` lands at entry `q` of a sorted sequence, that
/// entry is kept, and the seek lands in what is kept of the sequence after
/// the kept entries before `q`.
pub proof fn lemma_dedup_seek(dir: DirectionEnum, m: Seq<EntryView>, key: Seq<u8>, q: nat)
    requires
        sorted_in(dir, m),
        all_encoded(m),
        is_encoded(key),
        is_seek_position(dir, m, key, q),
    ensures
        q < m.len() ==> kept(m, q as int),
        is_seek_position(dir, dedup(m), key, dedup_upto(m, q as int).len()),
{
    let n = m.len() as int;
    let d = dedup(m);
    let p = dedup_upto(m, q as int).len() as int;
    lemma_dedup_prefix(m, q as int, n);
    if 0 < q < m.len() {
        lemma_in_order_total(dir, key, m[q as int].key);
        lemma_in_order_total(dir, m[q - 1].key, key);
        assert(strictly_before(dir, m[q - 1].key, key));
    }
    assert forall|j: int| 0 <= j < p implies strictly_before(dir, #[trigger] d[j].key, key) by {
        lemma_origin(m, q as int, j);
        assert(d[j] == dedup_upto(m, q as int)[j]);
    }
    if p < d.len() {
        lemma_origin(m, n, p);
        let o = origin(m, n, p);
        if o < q {
            lemma_dedup_prefix(m, o + 1, q as int);
            assert(dedup_upto(m, o + 1) == dedup_upto(m, o).push(m[o]));
        }
        assert(is_encoded(m[q as int].key) && is_encoded(m[o].key));
        lemma_in_order_total(dir, m[q as int].key, m[q as int].key);
        if q < o {
            assert(in_order(dir, m[q as int].key, m[o].key));
        }
        lemma_in_order_trans(dir, key, m[q as int].key, m[o].key);
    }
}

/// Where in `m` the first of the entries stands that have the key of entry
/// `i` and stand next to each other up to it.
pub open spec fn first_of_key(m: Seq<EntryView>, i: int) -> int
    decreases i,
{
    if i <= 0 || kept(m, i) {
        i
    } else {
        first_of_key(m, i - 1)
    }
}

/// Every key of `m` is kept, with the first of the entries that have it;
/// so what is kept of a merge holds, for each key, the entry of the child
/// that the merge hands out first.
pub proof fn lemma_dedup_covers(m: Seq<EntryView>, i: int)
    requires
        0 <= i < m.len(),
    ensures
        0 <= first_of_key(m, i) <= i,
        kept(m, first_of_key(m, i)),
        m[first_of_key(m, i)].key == m[i].key,
        dedup_upto(m, first_of_key(m, i)).len() < dedup(m).len(),
        dedup(m)[dedup_upto(m, first_of_key(m, i)).len() as int] == m[first_of_key(m, i)],
    decreases i,
{
    if i > 0 && !kept(m, i) {
        lemma_dedup_covers(m, i - 1);
    }
    lemma_dedup_at(m, first_of_key(m, i), m.len() as int);
}

} // verus!
