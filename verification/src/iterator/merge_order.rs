//! The order in which a merge hands out the entries of its children.
//!
//! Each child stands for a sorted sequence of entries. The merge takes, time
//! after time, the entry that comes first among the first entries of the
//! children; among children whose first entries have the same key, the child
//! with the smallest index goes first.

use vstd::multiset::Multiset;
use vstd::prelude::*;
use crate::iterator::{
    all_encoded, in_order, is_seek_position, sorted_in, strictly_before, DirectionEnum,
};
use crate::run::{lemma_in_order_total, lemma_in_order_trans};
use crate::value::EntryView;

verus! {

/// How a merge chooses among its children: the direction in which it walks,
/// and which of the children whose first entries have the same key goes
/// first.
pub struct MergeRule {
    pub dir: DirectionEnum,
    /// Whether, of children with the same key, the one with the largest
    /// index goes first rather than the one with the smallest.
    pub last_wins: bool,
}

/// Under `rule`, a child with first key `new` goes before a child with a
/// smaller index and first key `best`.
pub open spec fn takes_over(rule: MergeRule, new: Seq<u8>, best: Seq<u8>) -> bool {
    if rule.last_wins {
        in_order(rule.dir, new, best)
    } else {
        strictly_before(rule.dir, new, best)
    }
}

/// How many entries the first `n` children hold together.
pub open spec fn total_len(rems: Seq<Seq<EntryView>>, n: int) -> nat
    decreases n,
{
    if n <= 0 {
        0
    } else {
        total_len(rems, n - 1) + rems[n - 1].len()
    }
}

/// The child among the first `n` whose first entry comes first in direction
/// of the rule; of several with the same key, the one that the rule names.
/// `None` where none of them has an entry.
pub open spec fn top_upto(rems: Seq<Seq<EntryView>>, rule: MergeRule, n: int) -> Option<int>
    decreases n,
{
    if n <= 0 {
        None
    } else {
        match top_upto(rems, rule, n - 1) {
            None => if rems[n - 1].len() > 0 {
                Some(n - 1)
            } else {
                None
            },
            Some(b) => if rems[n - 1].len() > 0 && takes_over(
                rule,
                rems[n - 1][0].key,
                rems[b][0].key,
            ) {
                Some(n - 1)
            } else {
                Some(b)
            },
        }
    }
}

/// The child whose first entry the merge hands out next.
pub open spec fn top_of(rems: Seq<Seq<EntryView>>, rule: MergeRule) -> Option<int> {
    top_upto(rems, rule, rems.len() as int)
}

/// The children after child `t` handed out its first entry.
pub open spec fn advance(rems: Seq<Seq<EntryView>>, t: int) -> Seq<Seq<EntryView>> {
    rems.update(t, rems[t].skip(1))
}

/// The first `k` entries that a merge of `rems` hands out.
pub open spec fn merge_n(rems: Seq<Seq<EntryView>>, rule: MergeRule, k: nat) -> Seq<EntryView>
    decreases k,
{
    if k == 0 {
        Seq::empty()
    } else {
        match top_of(rems, rule) {
            None => Seq::empty(),
            Some(t) => seq![rems[t][0]] + merge_n(advance(rems, t), rule, (k - 1) as nat),
        }
    }
}

/// All entries that a merge of `rems` hands out, in their order.
pub open spec fn merge_order(rems: Seq<Seq<EntryView>>, rule: MergeRule) -> Seq<EntryView> {
    merge_n(rems, rule, total_len(rems, rems.len() as int))
}

/// Every child is sorted in direction `dir` and holds encoded keys.
pub open spec fn all_sorted(rems: Seq<Seq<EntryView>>, dir: DirectionEnum) -> bool {
    forall|i: int| 0 <= i < rems.len() ==> sorted_in(dir, #[trigger] rems[i]) && all_encoded(rems[i])
}

/// The top child has an entry, and this entry may stand before the first
/// entry of every other child. Of the children with the same first key, the
/// top child is the one with the smallest index, or with the largest where
/// the rule says so.
pub proof fn lemma_top_upto(rems: Seq<Seq<EntryView>>, rule: MergeRule, n: int)
    requires
        0 <= n <= rems.len(),
        all_sorted(rems, rule.dir),
    ensures
        match top_upto(rems, rule, n) {
            None => forall|i: int| 0 <= i < n ==> (#[trigger] rems[i]).len() == 0,
            Some(t) => {
                &&& 0 <= t < n
                &&& rems[t].len() > 0
                &&& forall|i: int|
                    0 <= i < n && (#[trigger] rems[i]).len() > 0 ==> in_order(
                        rule.dir,
                        rems[t][0].key,
                        rems[i][0].key,
                    )
                &&& !rule.last_wins ==> forall|i: int|
                    0 <= i < t && (#[trigger] rems[i]).len() > 0 ==> strictly_before(
                        rule.dir,
                        rems[t][0].key,
                        rems[i][0].key,
                    )
                &&& rule.last_wins ==> forall|i: int|
                    t < i < n && (#[trigger] rems[i]).len() > 0 ==> strictly_before(
                        rule.dir,
                        rems[t][0].key,
                        rems[i][0].key,
                    )
            },
        },
    decreases n,
{
    if n > 0 {
        lemma_top_upto(rems, rule, n - 1);
        match top_upto(rems, rule, n - 1) {
            None => {
                if rems[n - 1].len() > 0 {
                    lemma_in_order_total(rule.dir, rems[n - 1][0].key, rems[n - 1][0].key);
                }
            },
            Some(b) => {
                assert(sorted_in(rule.dir, rems[b]) && all_encoded(rems[b]));
                assert(sorted_in(rule.dir, rems[n - 1]) && all_encoded(rems[n - 1]));
                if rems[n - 1].len() > 0 {
                    let kb = rems[b][0].key;
                    let kn = rems[n - 1][0].key;
                    lemma_in_order_total(rule.dir, kb, kn);
                    lemma_in_order_total(rule.dir, kn, kb);
                    lemma_in_order_total(rule.dir, kb, kb);
                    if takes_over(rule, kn, kb) {
                        assert(in_order(rule.dir, kn, kb));
                        assert forall|i: int| 0 <= i < n && (#[trigger] rems[i]).len()
                            > 0 implies in_order(rule.dir, kn, rems[i][0].key) by {
                            if i < n - 1 {
                                assert(all_encoded(rems[i]));
                                lemma_in_order_trans(rule.dir, kn, kb, rems[i][0].key);
                            } else {
                                lemma_in_order_total(rule.dir, kn, kn);
                            }
                        }
                        if !rule.last_wins {
                            assert forall|i: int| 0 <= i < n - 1 && (#[trigger] rems[i]).len()
                                > 0 implies strictly_before(rule.dir, kn, rems[i][0].key) by {
                                assert(all_encoded(rems[i]));
                                lemma_in_order_trans(rule.dir, kn, kb, rems[i][0].key);
                            }
                        }
                    }
                }
            },
        }
    }
}

/// After a child handed out an entry, the children hold one entry less.
pub proof fn lemma_total_len_advance(rems: Seq<Seq<EntryView>>, t: int, n: int)
    requires
        0 <= t < rems.len(),
        0 <= n <= rems.len(),
        rems[t].len() > 0,
    ensures
        total_len(advance(rems, t), n) == if t < n {
            (total_len(rems, n) - 1) as nat
        } else {
            total_len(rems, n)
        },
        t < n ==> total_len(rems, n) > 0,
    decreases n,
{
    if n > 0 {
        lemma_total_len_advance(rems, t, n - 1);
    }
}

/// A sorted child stays sorted when it hands out its first entry.
pub proof fn lemma_advance_sorted(rems: Seq<Seq<EntryView>>, rule: MergeRule, t: int)
    requires
        0 <= t < rems.len(),
        rems[t].len() > 0,
        all_sorted(rems, rule.dir),
    ensures
        all_sorted(advance(rems, t), rule.dir),
{
    let next = advance(rems, t);
    assert forall|i: int| 0 <= i < next.len() implies sorted_in(rule.dir, #[trigger] next[i])
        && all_encoded(next[i]) by {
        assert(sorted_in(rule.dir, rems[i]) && all_encoded(rems[i]));
        if i == t {
            let s = rems[t];
            let r = next[t];
            assert forall|a: int, b: int| 0 <= a < b < r.len() implies in_order(
                rule.dir,
                #[trigger] r[a].key,
                #[trigger] r[b].key,
            ) by {
                assert(r[a] == s[a + 1] && r[b] == s[b + 1]);
            }
            assert forall|a: int| 0 <= a < r.len() implies crate::key::is_encoded(
                #[trigger] r[a].key,
            ) by {
                assert(r[a] == s[a + 1]);
            }
        }
    }
}

/// The merge of children that hold entries begins with the first entry of
/// the top child and goes on as the merge of what is left.
pub proof fn lemma_merge_order_unfold(rems: Seq<Seq<EntryView>>, rule: MergeRule)
    requires
        all_sorted(rems, rule.dir),
    ensures
        match top_of(rems, rule) {
            None => merge_order(rems, rule) == Seq::<EntryView>::empty(),
            Some(t) => {
                &&& 0 <= t < rems.len()
                &&& rems[t].len() > 0
                &&& merge_order(rems, rule) == seq![rems[t][0]] + merge_order(advance(rems, t), rule)
                &&& merge_order(rems, rule).len() > 0
                &&& merge_order(rems, rule)[0] == rems[t][0]
                &&& merge_order(advance(rems, t), rule) == merge_order(rems, rule).skip(1)
            },
        },
{
    let n = rems.len() as int;
    lemma_top_upto(rems, rule, n);
    match top_of(rems, rule) {
        None => {},
        Some(t) => {
            lemma_total_len_advance(rems, t, n);
            let rest = merge_order(advance(rems, t), rule);
            assert(merge_order(rems, rule) == seq![rems[t][0]] + rest);
            assert((seq![rems[t][0]] + rest).skip(1) =~= rest);
        },
    }
}

/// Key `x` may stand before every entry of every child.
pub open spec fn bounds_all(dir: DirectionEnum, x: Seq<u8>, rems: Seq<Seq<EntryView>>) -> bool {
    forall|i: int, j: int|
        0 <= i < rems.len() && 0 <= j < rems[i].len() ==> in_order(dir, x, #[trigger] rems[i][j].key)
}

/// What may stand before every entry of the children may stand before
/// every entry of their merge.
pub proof fn lemma_merge_bounded(rems: Seq<Seq<EntryView>>, rule: MergeRule, x: Seq<u8>)
    requires
        all_sorted(rems, rule.dir),
        bounds_all(rule.dir, x, rems),
    ensures
        forall|p: int|
            0 <= p < merge_order(rems, rule).len() ==> in_order(
                rule.dir,
                x,
                #[trigger] merge_order(rems, rule)[p].key,
            ),
    decreases total_len(rems, rems.len() as int),
{
    let n = rems.len() as int;
    lemma_merge_order_unfold(rems, rule);
    match top_of(rems, rule) {
        None => {},
        Some(t) => {
            let next = advance(rems, t);
            lemma_total_len_advance(rems, t, n);
            lemma_advance_sorted(rems, rule, t);
            assert forall|i: int, j: int| 0 <= i < next.len() && 0 <= j < next[i].len() implies in_order(
                rule.dir,
                x,
                #[trigger] next[i][j].key,
            ) by {
                if i == t {
                    assert(next[i][j] == rems[i][j + 1]);
                } else {
                    assert(next[i][j] == rems[i][j]);
                }
            }
            lemma_merge_bounded(next, rule, x);
            let m = merge_order(rems, rule);
            let rest = merge_order(next, rule);
            assert forall|p: int| 0 <= p < m.len() implies in_order(rule.dir, x, #[trigger] m[p].key) by {
                if p == 0 {
                    assert(m[0] == rems[t][0]);
                } else {
                    assert(m[p] == rest[p - 1]);
                }
            }
        },
    }
}

/// The first entry of the top child may stand before every entry of every
/// child.
pub proof fn lemma_top_bounds(rems: Seq<Seq<EntryView>>, rule: MergeRule)
    requires
        all_sorted(rems, rule.dir),
        top_of(rems, rule) is Some,
    ensures
        bounds_all(rule.dir, rems[top_of(rems, rule)->Some_0][0].key, rems),
{
    let t = top_of(rems, rule)->Some_0;
    lemma_top_upto(rems, rule, rems.len() as int);
    let head = rems[t][0].key;
    assert(all_encoded(rems[t]));
    assert forall|i: int, j: int| 0 <= i < rems.len() && 0 <= j < rems[i].len() implies in_order(
        rule.dir,
        head,
        #[trigger] rems[i][j].key,
    ) by {
        assert(sorted_in(rule.dir, rems[i]) && all_encoded(rems[i]));
        assert(in_order(rule.dir, head, rems[i][0].key));
        if j > 0 {
            lemma_in_order_trans(rule.dir, head, rems[i][0].key, rems[i][j].key);
        }
    }
}

/// The merge of sorted children is sorted, and made of encoded keys.
pub proof fn lemma_merge_sorted(rems: Seq<Seq<EntryView>>, rule: MergeRule)
    requires
        all_sorted(rems, rule.dir),
    ensures
        sorted_in(rule.dir, merge_order(rems, rule)),
        all_encoded(merge_order(rems, rule)),
    decreases total_len(rems, rems.len() as int),
{
    let n = rems.len() as int;
    lemma_merge_order_unfold(rems, rule);
    match top_of(rems, rule) {
        None => {},
        Some(t) => {
            let next = advance(rems, t);
            lemma_total_len_advance(rems, t, n);
            lemma_advance_sorted(rems, rule, t);
            lemma_merge_sorted(next, rule);
            lemma_top_bounds(rems, rule);
            let head = rems[t][0].key;
            assert forall|i: int, j: int| 0 <= i < next.len() && 0 <= j < next[i].len() implies in_order(
                rule.dir,
                head,
                #[trigger] next[i][j].key,
            ) by {
                if i == t {
                    assert(next[i][j] == rems[i][j + 1]);
                } else {
                    assert(next[i][j] == rems[i][j]);
                }
            }
            lemma_merge_bounded(next, rule, head);
            let m = merge_order(rems, rule);
            let rest = merge_order(next, rule);
            assert(all_encoded(rems[t]));
            assert forall|p: int| 0 <= p < m.len() implies crate::key::is_encoded(
                #[trigger] m[p].key,
            ) by {
                if p > 0 {
                    assert(m[p] == rest[p - 1]);
                }
            }
            assert forall|a: int, b: int| 0 <= a < b < m.len() implies in_order(
                rule.dir,
                #[trigger] m[a].key,
                #[trigger] m[b].key,
            ) by {
                assert(m[b] == rest[b - 1]);
                if a > 0 {
                    assert(m[a] == rest[a - 1]);
                }
            }
        },
    }
}

/// Each child with the entries before its position left out.
pub open spec fn skip_each(srcs: Seq<Seq<EntryView>>, ps: Seq<nat>) -> Seq<Seq<EntryView>> {
    Seq::new(srcs.len(), |i: int| srcs[i].skip(ps[i] as int))
}

/// The first `n` positions added up.
pub open spec fn sum_upto(ps: Seq<nat>, n: int) -> nat
    decreases n,
{
    if n <= 0 {
        0
    } else {
        sum_upto(ps, n - 1) + ps[n - 1]
    }
}

/// Positions that add up to nothing are all at the beginning.
pub proof fn lemma_sum_zero(ps: Seq<nat>, n: int)
    requires
        0 <= n <= ps.len(),
    ensures
        sum_upto(ps, n) == 0 <==> forall|i: int| 0 <= i < n ==> #[trigger] ps[i] == 0,
    decreases n,
{
    if n > 0 {
        lemma_sum_zero(ps, n - 1);
        if sum_upto(ps, n) == 0 {
            assert forall|i: int| 0 <= i < n implies #[trigger] ps[i] == 0 by {
                if i < n - 1 {
                }
            }
        }
    }
}

/// Moving one position back by one takes one off the sum.
pub proof fn lemma_sum_update(ps: Seq<nat>, t: int, n: int)
    requires
        0 <= t < ps.len(),
        0 <= n <= ps.len(),
        ps[t] > 0,
    ensures
        sum_upto(ps.update(t, (ps[t] - 1) as nat), n) == if t < n {
            (sum_upto(ps, n) - 1) as nat
        } else {
            sum_upto(ps, n)
        },
        t < n ==> sum_upto(ps, n) > 0,
    decreases n,
{
    if n > 0 {
        lemma_sum_update(ps, t, n - 1);
    }
}

/// A merge whose children each stand where a seek for `key` lands in them
/// stands where a seek for `key` lands in the merge: as many entries into
/// it as the children are into theirs together, with the merge of what the
/// children have left still to come.
pub proof fn lemma_merge_seek(
    srcs: Seq<Seq<EntryView>>,
    ps: Seq<nat>,
    rule: MergeRule,
    key: Seq<u8>,
)
    requires
        all_sorted(srcs, rule.dir),
        crate::key::is_encoded(key),
        ps.len() == srcs.len(),
        forall|i: int| 0 <= i < srcs.len() ==> is_seek_position(rule.dir, #[trigger] srcs[i], key, ps[i]),
    ensures
        sum_upto(ps, ps.len() as int) <= merge_order(srcs, rule).len(),
        merge_order(skip_each(srcs, ps), rule) == merge_order(srcs, rule).skip(
            sum_upto(ps, ps.len() as int) as int,
        ),
        is_seek_position(rule.dir, merge_order(srcs, rule), key, sum_upto(ps, ps.len() as int)),
    decreases sum_upto(ps, ps.len() as int),
{
    let n = srcs.len() as int;
    let total = sum_upto(ps, n);
    let m = merge_order(srcs, rule);
    lemma_sum_zero(ps, n);
    lemma_merge_order_unfold(srcs, rule);
    lemma_top_upto(srcs, rule, n);
    if total == 0 {
        assert forall|i: int| 0 <= i < n implies #[trigger] skip_each(srcs, ps)[i] == srcs[i] by {
            assert(ps[i] == 0);
            assert(srcs[i].skip(0) =~= srcs[i]);
        }
        assert(skip_each(srcs, ps) =~= srcs);
        assert(m.skip(0) =~= m);
        match top_of(srcs, rule) {
            None => {},
            Some(t) => {
                assert(ps[t] == 0);
                assert(is_seek_position(rule.dir, srcs[t], key, ps[t]));
            },
        }
    } else {
        let j = choose|j: int| 0 <= j < n && #[trigger] ps[j] != 0;
        assert(is_seek_position(rule.dir, srcs[j], key, ps[j]));
        assert(strictly_before(rule.dir, srcs[j][0].key, key));
        let t = top_of(srcs, rule)->Some_0;
        let head = srcs[t][0].key;
        assert(all_encoded(srcs[t]) && all_encoded(srcs[j]));
        lemma_in_order_total(rule.dir, srcs[j][0].key, key);
        lemma_in_order_trans(rule.dir, head, srcs[j][0].key, key);
        lemma_in_order_total(rule.dir, key, head);
        assert(is_seek_position(rule.dir, srcs[t], key, ps[t]));
        assert(ps[t] > 0);
        let srcs2 = advance(srcs, t);
        let ps2 = ps.update(t, (ps[t] - 1) as nat);
        lemma_advance_sorted(srcs, rule, t);
        lemma_sum_update(ps, t, n);
        assert forall|i: int| 0 <= i < srcs2.len() implies is_seek_position(
            rule.dir,
            #[trigger] srcs2[i],
            key,
            ps2[i],
        ) by {
            assert(is_seek_position(rule.dir, srcs[i], key, ps[i]));
            if i == t {
                let s = srcs[t];
                let r = srcs2[t];
                assert forall|a: int| 0 <= a < ps2[t] implies strictly_before(
                    rule.dir,
                    #[trigger] r[a].key,
                    key,
                ) by {
                    assert(r[a] == s[a + 1]);
                }
                if ps2[t] < r.len() {
                    assert(r[ps2[t] as int] == s[ps[t] as int]);
                }
            }
        }
        lemma_merge_seek(srcs2, ps2, rule, key);
        assert forall|i: int| 0 <= i < n implies #[trigger] skip_each(srcs2, ps2)[i] == skip_each(
            srcs,
            ps,
        )[i] by {
            if i == t {
                assert(srcs[t].skip(1).skip(ps[t] - 1) =~= srcs[t].skip(ps[t] as int));
            }
        }
        assert(skip_each(srcs2, ps2) =~= skip_each(srcs, ps));
        let rest = merge_order(srcs2, rule);
        assert(m == seq![srcs[t][0]] + rest);
        assert(m.skip(total as int) =~= rest.skip(total - 1));
        assert forall|a: int| 0 <= a < total implies strictly_before(rule.dir, #[trigger] m[a].key, key) by {
            if a > 0 {
                assert(m[a] == rest[a - 1]);
            }
        }
        if total < m.len() {
            assert(m[total as int] == rest[total - 1]);
        }
    }
}

/// The entries of the first `n` children, each as often as the children
/// hold it together.
pub open spec fn multiset_sum(rems: Seq<Seq<EntryView>>, n: int) -> Multiset<EntryView>
    decreases n,
{
    if n <= 0 {
        Multiset::empty()
    } else {
        multiset_sum(rems, n - 1).add(rems[n - 1].to_multiset())
    }
}

/// No entry is in the multiset of the empty sequence.
pub proof fn lemma_empty_to_multiset()
    ensures
        Seq::<EntryView>::empty().to_multiset() == Multiset::<EntryView>::empty(),
{
    let s = Seq::<EntryView>::empty();
    s.to_multiset_ensures();
    vstd::multiset::lemma_multiset_empty_len(s.to_multiset());
    assert(s.to_multiset() =~= Multiset::<EntryView>::empty());
}

/// What the children hold is what they hold after child `t` handed out its
/// first entry, and that entry.
pub proof fn lemma_multiset_sum_advance(rems: Seq<Seq<EntryView>>, t: int, n: int)
    requires
        0 <= t < rems.len(),
        0 <= n <= rems.len(),
        rems[t].len() > 0,
    ensures
        multiset_sum(rems, n) == if t < n {
            multiset_sum(advance(rems, t), n).insert(rems[t][0])
        } else {
            multiset_sum(advance(rems, t), n)
        },
    decreases n,
{
    broadcast use vstd::multiset::group_multiset_axioms;

    if n > 0 {
        lemma_multiset_sum_advance(rems, t, n - 1);
        let next = advance(rems, t);
        if t == n - 1 {
            let s = rems[t];
            let head = seq![s[0]];
            assert(s =~= head + s.skip(1));
            vstd::seq_lib::lemma_multiset_commutative(head, s.skip(1));
            assert(head =~= Seq::<EntryView>::empty().push(s[0]));
            vstd::seq_lib::to_multiset_build(Seq::<EntryView>::empty(), s[0]);
            lemma_empty_to_multiset();
            assert(multiset_sum(rems, n) =~= multiset_sum(next, n).insert(s[0]));
        } else if t < n - 1 {
            assert(next[n - 1] == rems[n - 1]);
            assert(multiset_sum(rems, n) =~= multiset_sum(next, n).insert(rems[t][0]));
        } else {
            assert(next[n - 1] == rems[n - 1]);
        }
    }
}

/// A merge hands out every entry of every child, each as often as the
/// children hold it together, and nothing else.
pub proof fn lemma_merge_multiset(rems: Seq<Seq<EntryView>>, rule: MergeRule)
    requires
        all_sorted(rems, rule.dir),
    ensures
        merge_order(rems, rule).to_multiset() == multiset_sum(rems, rems.len() as int),
    decreases total_len(rems, rems.len() as int),
{
    broadcast use vstd::multiset::group_multiset_axioms;

    let n = rems.len() as int;
    lemma_merge_order_unfold(rems, rule);
    lemma_top_upto(rems, rule, n);
    match top_of(rems, rule) {
        None => {
            lemma_multiset_sum_empty(rems, n);
            lemma_empty_to_multiset();
        },
        Some(t) => {
            let next = advance(rems, t);
            lemma_total_len_advance(rems, t, n);
            lemma_advance_sorted(rems, rule, t);
            lemma_merge_multiset(next, rule);
            lemma_multiset_sum_advance(rems, t, n);
            let head = seq![rems[t][0]];
            let rest = merge_order(next, rule);
            vstd::seq_lib::lemma_multiset_commutative(head, rest);
            assert(head =~= Seq::<EntryView>::empty().push(rems[t][0]));
            vstd::seq_lib::to_multiset_build(Seq::<EntryView>::empty(), rems[t][0]);
            lemma_empty_to_multiset();
            assert(merge_order(rems, rule).to_multiset() =~= multiset_sum(rems, n));
        },
    }
}

/// Children without entries hold nothing together.
pub proof fn lemma_multiset_sum_empty(rems: Seq<Seq<EntryView>>, n: int)
    requires
        0 <= n <= rems.len(),
        forall|i: int| 0 <= i < n ==> (#[trigger] rems[i]).len() == 0,
    ensures
        multiset_sum(rems, n) == Multiset::<EntryView>::empty(),
    decreases n,
{
    broadcast use vstd::multiset::group_multiset_axioms;

    if n > 0 {
        lemma_multiset_sum_empty(rems, n - 1);
        assert(rems[n - 1] =~= Seq::<EntryView>::empty());
        lemma_empty_to_multiset();
        assert(multiset_sum(rems, n) =~= Multiset::<EntryView>::empty());
    }
}

/// The child from which entry `k` of the merge of `rems` comes.
pub open spec fn origin_child(rems: Seq<Seq<EntryView>>, rule: MergeRule, k: nat) -> int
    decreases k,
{
    match top_of(rems, rule) {
        None => -1,
        Some(t) => if k == 0 {
            t
        } else {
            origin_child(advance(rems, t), rule, (k - 1) as nat)
        },
    }
}

/// Where in its child entry `k` of the merge of `rems` stands.
pub open spec fn origin_index(rems: Seq<Seq<EntryView>>, rule: MergeRule, k: nat) -> int
    decreases k,
{
    match top_of(rems, rule) {
        None => -1,
        Some(t) => if k == 0 {
            0
        } else if origin_child(advance(rems, t), rule, (k - 1) as nat) == t {
            origin_index(advance(rems, t), rule, (k - 1) as nat) + 1
        } else {
            origin_index(advance(rems, t), rule, (k - 1) as nat)
        },
    }
}

/// Every entry of a merge is an entry of one of its children.
pub proof fn lemma_origin(rems: Seq<Seq<EntryView>>, rule: MergeRule, k: nat)
    requires
        all_sorted(rems, rule.dir),
        k < merge_order(rems, rule).len(),
    ensures
        0 <= origin_child(rems, rule, k) < rems.len(),
        0 <= origin_index(rems, rule, k) < rems[origin_child(rems, rule, k)].len(),
        merge_order(rems, rule)[k as int] == rems[origin_child(rems, rule, k)][origin_index(
            rems,
            rule,
            k,
        )],
    decreases k,
{
    lemma_merge_order_unfold(rems, rule);
    let t = top_of(rems, rule)->Some_0;
    if k > 0 {
        let next = advance(rems, t);
        lemma_advance_sorted(rems, rule, t);
        lemma_origin(next, rule, (k - 1) as nat);
        let c = origin_child(next, rule, (k - 1) as nat);
        let j = origin_index(next, rule, (k - 1) as nat);
        assert(merge_order(rems, rule)[k as int] == merge_order(next, rule)[k - 1]);
        if c == t {
            assert(next[t][j] == rems[t][j + 1]);
        } else {
            assert(next[c] == rems[c]);
        }
    }
}

/// The entries that a merge takes from one child come in the order in
/// which the child holds them.
pub proof fn lemma_origin_in_order(rems: Seq<Seq<EntryView>>, rule: MergeRule, a: nat, b: nat)
    requires
        all_sorted(rems, rule.dir),
        a < b < merge_order(rems, rule).len(),
        origin_child(rems, rule, a) == origin_child(rems, rule, b),
    ensures
        origin_index(rems, rule, a) < origin_index(rems, rule, b),
    decreases a,
{
    lemma_merge_order_unfold(rems, rule);
    let t = top_of(rems, rule)->Some_0;
    let next = advance(rems, t);
    lemma_advance_sorted(rems, rule, t);
    lemma_origin(next, rule, (b - 1) as nat);
    if a > 0 {
        lemma_origin_in_order(next, rule, (a - 1) as nat, (b - 1) as nat);
    }
}

/// No key occurs twice in `s`.
pub open spec fn no_key_twice(s: Seq<EntryView>) -> bool {
    forall|i: int, j: int| 0 <= i < j < s.len() ==> (#[trigger] s[i]).key != (#[trigger] s[j]).key
}

/// Where no child holds a key twice, two entries of the merge with the same
/// key come from two children.
pub proof fn lemma_equal_keys_from_two_children(
    rems: Seq<Seq<EntryView>>,
    rule: MergeRule,
    a: nat,
    b: nat,
)
    requires
        all_sorted(rems, rule.dir),
        forall|c: int| 0 <= c < rems.len() ==> no_key_twice(#[trigger] rems[c]),
        a < b < merge_order(rems, rule).len(),
        merge_order(rems, rule)[a as int].key == merge_order(rems, rule)[b as int].key,
    ensures
        origin_child(rems, rule, a) != origin_child(rems, rule, b),
{
    lemma_origin(rems, rule, a);
    lemma_origin(rems, rule, b);
    let c = origin_child(rems, rule, a);
    if c == origin_child(rems, rule, b) {
        lemma_origin_in_order(rems, rule, a, b);
        assert(no_key_twice(rems[c]));
    }
}

} // verus!
