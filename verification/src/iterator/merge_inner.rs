//! The merge of several sorted iterators into one.
//!
//! The children stay in the order in which they were given. A child is in
//! the heap while it is valid, and the top of the heap is the child whose
//! current entry comes first.

use vstd::prelude::*;
use crate::error::{HummockError, HummockResult};
use crate::iterator::dedup::{
    dedup, dedup_upto, kept, lemma_dedup_at, lemma_dedup_none_kept, lemma_dedup_prefix,
    lemma_dedup_seek, lemma_dedup_sorted,
};
use crate::iterator::merge_order::{
    advance, all_sorted, lemma_merge_multiset, lemma_merge_order_unfold, lemma_merge_seek,
    lemma_merge_sorted, lemma_top_upto, merge_order, multiset_sum, skip_each, sum_upto, takes_over,
    top_of, top_upto, MergeRule,
};
use crate::iterator::{
    all_encoded, in_order, is_seek_position, sorted_in, state_at, strictly_before, DirectionEnum,
    HummockIterator, HummockIteratorDirection, IteratorState, Poll,
};
use crate::key::{compare_key, is_encoded, key_order, lemma_key_order_flip, same_key, KeyOrder};
use crate::monitor::{lemma_plus_associative, stats_sum, StoreLocalStatistic};
use crate::value::{EntryView, HummockValue};

verus! {

/// The order of two ranks.
pub open spec fn rank_order(a: nat, b: nat) -> KeyOrder {
    if a < b {
        KeyOrder::Less
    } else if a == b {
        KeyOrder::Equal
    } else {
        KeyOrder::Greater
    }
}

/// What a node of a merge carries besides its iterator, to order nodes
/// whose current keys are the same.
pub trait NodeExtraOrderInfo: Sized {
    /// Whether the merge is order aware: it ranks its children, and hands
    /// out each key once.
    spec fn spec_ordered() -> bool;

    /// The rank of the node among the children; nothing where the merge
    /// does not rank them.
    spec fn rank(&self) -> nat;

    fn ordered() -> (b: bool)
        ensures
            b == Self::spec_ordered(),
    ;

    /// The order of the ranks of two nodes.
    fn tie(&self, other: &Self) -> (r: KeyOrder)
        ensures
            r == rank_order(self.rank(), other.rank()),
    ;
}

/// For unordered merge iterator, no extra order info is needed.
pub type UnorderedNodeExtra = ();

/// Store the order index for the order aware merge iterator
pub type OrderedNodeExtra = usize;

impl NodeExtraOrderInfo for UnorderedNodeExtra {
    open spec fn spec_ordered() -> bool {
        false
    }

    open spec fn rank(&self) -> nat {
        0
    }

    fn ordered() -> (b: bool) {
        false
    }

    fn tie(&self, other: &Self) -> (r: KeyOrder) {
        KeyOrder::Equal
    }
}

impl NodeExtraOrderInfo for OrderedNodeExtra {
    open spec fn spec_ordered() -> bool {
        true
    }

    open spec fn rank(&self) -> nat {
        *self as nat
    }

    fn ordered() -> (b: bool) {
        true
    }

    fn tie(&self, other: &Self) -> (r: KeyOrder) {
        if *self < *other {
            KeyOrder::Less
        } else if *self == *other {
            KeyOrder::Equal
        } else {
            KeyOrder::Greater
        }
    }
}

/// The first outcome unless it is `Equal`, else the second.
pub open spec fn then_order(a: KeyOrder, b: KeyOrder) -> KeyOrder {
    if a == KeyOrder::Equal {
        b
    } else {
        a
    }
}

/// The order of two nodes in the heap of a merge in direction `dir`, by
/// their current keys and then by their ranks. The node that goes first is
/// the greater one, as the top of a heap is its greatest node.
pub open spec fn node_order(
    dir: DirectionEnum,
    key: Seq<u8>,
    rank: nat,
    other_key: Seq<u8>,
    other_rank: nat,
) -> KeyOrder {
    match dir {
        DirectionEnum::Forward => then_order(key_order(other_key, key), rank_order(other_rank, rank)),
        DirectionEnum::Backward => then_order(key_order(key, other_key), rank_order(rank, other_rank)),
    }
}

/// A child of a merge.
pub struct Node<I: HummockIterator, T: NodeExtraOrderInfo> {
    pub iter: I,
    pub extra_order_info: T,
}

impl<I: HummockIterator, T: NodeExtraOrderInfo> Node<I, T> {
    /// The current key of the node's iterator.
    pub open spec fn spec_key(&self) -> Seq<u8> {
        self.iter.source()[self.iter.position() as int].key
    }

    /// Compares two nodes whose iterators are valid, as the heap orders
    /// them: the node whose key comes first in the direction of iteration
    /// is the greater; of two nodes with the same key, where the merge
    /// ranks its children, forward the one with the smaller rank and
    /// backward the one with the larger.
    pub fn compare(&self, other: &Self) -> (r: KeyOrder)
        requires
            self.iter.inv(),
            self.iter.state() is Valid,
            other.iter.inv(),
            other.iter.state() is Valid,
        ensures
            r == node_order(
                I::Direction::spec_direction(),
                self.spec_key(),
                self.extra_order_info.rank(),
                other.spec_key(),
                other.extra_order_info.rank(),
            ),
    {
        proof {
            self.iter.lemma_well_formed();
            other.iter.lemma_well_formed();
        }
        // Note: to implement min-heap by using max-heap internally, the comparing
        // order should be reversed.
        match I::Direction::direction() {
            DirectionEnum::Forward => {
                match compare_key(other.iter.key(), self.iter.key()) {
                    KeyOrder::Equal => other.extra_order_info.tie(&self.extra_order_info),
                    o => o,
                }
            },
            DirectionEnum::Backward => {
                match compare_key(self.iter.key(), other.iter.key()) {
                    KeyOrder::Equal => self.extra_order_info.tie(&other.extra_order_info),
                    o => o,
                }
            },
        }
    }
}

/// The sources of a list of iterators, in their order.
pub open spec fn sources_of<I: HummockIterator>(children: Seq<I>) -> Seq<Seq<EntryView>> {
    Seq::new(children.len(), |i: int| children[i].source())
}

/// The sources of the children, in the order of the children.
pub open spec fn child_sources<I: HummockIterator, T: NodeExtraOrderInfo>(
    nodes: Seq<Node<I, T>>,
) -> Seq<Seq<EntryView>> {
    Seq::new(nodes.len(), |i: int| nodes[i].iter.source())
}

/// The positions of the children, in the order of the children.
pub open spec fn child_positions<I: HummockIterator, T: NodeExtraOrderInfo>(
    nodes: Seq<Node<I, T>>,
) -> Seq<nat> {
    Seq::new(nodes.len(), |i: int| nodes[i].iter.position())
}

/// The counters of the children, in the order of the children.
pub open spec fn child_stats<I: HummockIterator, T: NodeExtraOrderInfo>(
    nodes: Seq<Node<I, T>>,
) -> Seq<StoreLocalStatistic> {
    Seq::new(nodes.len(), |i: int| nodes[i].iter.local_stats())
}

/// Every child is healthy.
pub open spec fn nodes_healthy<I: HummockIterator, T: NodeExtraOrderInfo>(
    nodes: Seq<Node<I, T>>,
) -> bool {
    forall|i: int| 0 <= i < nodes.len() ==> (#[trigger] nodes[i]).iter.healthy()
}

/// The iterators of the children, in the order of the children.
pub open spec fn children_of<I: HummockIterator, T: NodeExtraOrderInfo>(
    nodes: Seq<Node<I, T>>,
) -> Seq<I> {
    Seq::new(nodes.len(), |i: int| nodes[i].iter)
}

/// `child` stands on an entry with key `key`.
pub open spec fn on_key<I: HummockIterator>(child: I, key: Seq<u8>) -> bool {
    child.state() is Valid && child.source()[child.position() as int].key == key
}

/// A step of a merge that stood on `key` with top child `top` has left
/// every other child as it was, but for those that stood on `key` too: all
/// children are still held, and only children on the current key move.
pub open spec fn others_kept<I: HummockIterator>(
    prev: Seq<I>,
    now: Seq<I>,
    top: Option<int>,
    key: Seq<u8>,
) -> bool {
    &&& now.len() == prev.len()
    &&& forall|i: int|
        0 <= i < prev.len() && top != Some(i) && !on_key(prev[i], key) ==> #[trigger] now[i]
            == prev[i]
}

/// Two steps that each left the other children as they were did so
/// together.
pub proof fn lemma_others_kept_twice<I: HummockIterator>(
    a: Seq<I>,
    b: Seq<I>,
    c: Seq<I>,
    top: Option<int>,
    key: Seq<u8>,
)
    requires
        others_kept(a, b, top, key),
        others_kept(b, c, None, key),
    ensures
        others_kept(a, c, top, key),
{
    assert forall|i: int| 0 <= i < a.len() && top != Some(i) && !on_key(a[i], key) implies #[trigger] c[i]
        == a[i] by {
        assert(b[i] == a[i]);
    }
}

/// No child has failed.
pub open spec fn nodes_unfailed<I: HummockIterator, T: NodeExtraOrderInfo>(
    nodes: Seq<Node<I, T>>,
) -> bool {
    forall|i: int| 0 <= i < nodes.len() ==> !(#[trigger] nodes[i]).iter.failed()
}

/// Every one of a list of iterators is healthy.
pub open spec fn all_healthy<I: HummockIterator>(children: Seq<I>) -> bool {
    forall|i: int| 0 <= i < children.len() ==> (#[trigger] children[i]).healthy()
}

/// The counters of a list of iterators, in their order.
pub open spec fn stats_of<I: HummockIterator>(children: Seq<I>) -> Seq<StoreLocalStatistic> {
    Seq::new(children.len(), |i: int| children[i].local_stats())
}

/// What a merge does after its top child answered a step.
#[derive(Clone, Copy, Debug, PartialEq, Eq, Structural)]
pub enum AfterChild {
    /// The child moved on: the merge passes one entry and chooses its top
    /// anew.
    Settle,
    /// The child failed: the heap is cleared, the merge is exhausted and
    /// hands the error on.
    Fail(HummockError),
    /// The child needs a load: so does the merge.
    Wait,
}

/// What a merge does after its top child answered `polled`.
pub open spec fn spec_after_child(polled: Poll<HummockResult<()>>) -> AfterChild {
    match polled {
        Poll::Pending => AfterChild::Wait,
        Poll::Ready(Err(e)) => AfterChild::Fail(e),
        Poll::Ready(Ok(_)) => AfterChild::Settle,
    }
}

/// Decides what a merge does after its top child answered a step: the
/// child's error goes on as it is and ends the merge, its need of a load
/// becomes the merge's, and where it moved on the merge does.
pub fn after_child(polled: Poll<HummockResult<()>>) -> (r: AfterChild)
    ensures
        r == spec_after_child(polled),
{
    match polled {
        Poll::Pending => AfterChild::Wait,
        Poll::Ready(Err(e)) => AfterChild::Fail(e),
        Poll::Ready(Ok(_)) => AfterChild::Settle,
    }
}

/// What each child has yet to hand out.
pub open spec fn child_remaining<I: HummockIterator, T: NodeExtraOrderInfo>(
    nodes: Seq<Node<I, T>>,
) -> Seq<Seq<EntryView>> {
    skip_each(child_sources(nodes), child_positions(nodes))
}

/// Every child keeps its invariant and has the rank of its place among the
/// children, where the merge ranks them.
pub open spec fn children_ok<I: HummockIterator, T: NodeExtraOrderInfo>(
    nodes: Seq<Node<I, T>>,
) -> bool {
    forall|i: int|
        0 <= i < nodes.len() ==> (#[trigger] nodes[i]).iter.inv() && nodes[i].extra_order_info.rank()
            == if T::spec_ordered() {
            i as nat
        } else {
            0
        }
}

/// Child `i` is on an entry or past its last one, as its position says.
pub open spec fn child_settled<I: HummockIterator, T: NodeExtraOrderInfo>(
    nodes: Seq<Node<I, T>>,
    i: int,
) -> bool {
    nodes[i].iter.state() == state_at(nodes[i].iter.position(), nodes[i].iter.source().len())
}

/// The rule by which a merge over children of type `I` with nodes of type
/// `T` chooses among its children.
pub open spec fn rule_of<I: HummockIterator, T: NodeExtraOrderInfo>() -> MergeRule {
    MergeRule {
        dir: I::Direction::spec_direction(),
        last_wins: T::spec_ordered() && I::Direction::spec_direction() == DirectionEnum::Backward,
    }
}

/// The sources of children that keep their invariant are sorted, and so is
/// what the children have yet to hand out.
pub proof fn lemma_children_sorted<I: HummockIterator, T: NodeExtraOrderInfo>(
    nodes: Seq<Node<I, T>>,
)
    requires
        children_ok(nodes),
    ensures
        all_sorted(child_sources(nodes), I::Direction::spec_direction()),
        all_sorted(child_remaining(nodes), I::Direction::spec_direction()),
        forall|i: int|
            0 <= i < nodes.len() ==> (#[trigger] nodes[i]).iter.position()
                <= nodes[i].iter.source().len(),
{
    let dir = I::Direction::spec_direction();
    let srcs = child_sources(nodes);
    let rems = child_remaining(nodes);
    assert forall|i: int| 0 <= i < nodes.len() implies sorted_in(dir, #[trigger] srcs[i])
        && all_encoded(srcs[i]) && sorted_in(dir, rems[i]) && all_encoded(rems[i])
        && nodes[i].iter.position() <= nodes[i].iter.source().len() by {
        assert(nodes[i].iter.inv());
        nodes[i].iter.lemma_well_formed();
        let s = srcs[i];
        let p = nodes[i].iter.position() as int;
        let r = rems[i];
        assert(r == s.skip(p));
        assert forall|a: int, b: int| 0 <= a < b < r.len() implies in_order(
            dir,
            #[trigger] r[a].key,
            #[trigger] r[b].key,
        ) by {
            assert(r[a] == s[a + p] && r[b] == s[b + p]);
        }
        assert forall|a: int| 0 <= a < r.len() implies is_encoded(#[trigger] r[a].key) by {
            assert(r[a] == s[a + p]);
        }
    }
    assert forall|i: int| 0 <= i < nodes.len() implies (#[trigger] nodes[i]).iter.position()
        <= nodes[i].iter.source().len() by {
        nodes[i].iter.lemma_well_formed();
    }
    assert forall|i: int| 0 <= i < srcs.len() implies sorted_in(dir, #[trigger] srcs[i])
        && all_encoded(srcs[i]) by {
        assert(nodes[i].iter.inv());
    }
    assert forall|i: int| 0 <= i < rems.len() implies sorted_in(dir, #[trigger] rems[i])
        && all_encoded(rems[i]) by {
        assert(nodes[i].iter.inv());
    }
}

/// A child with a larger index takes over from one with a smaller index
/// exactly when the heap orders its node above the other's.
pub proof fn lemma_node_order_takes_over<I: HummockIterator, T: NodeExtraOrderInfo>(
    nodes: Seq<Node<I, T>>,
    b: int,
    c: int,
)
    requires
        children_ok(nodes),
        0 <= b < c < nodes.len(),
        nodes[b].iter.position() < nodes[b].iter.source().len(),
        nodes[c].iter.position() < nodes[c].iter.source().len(),
    ensures
        takes_over(rule_of::<I, T>(), nodes[c].spec_key(), nodes[b].spec_key()) <==> node_order(
            I::Direction::spec_direction(),
            nodes[c].spec_key(),
            nodes[c].extra_order_info.rank(),
            nodes[b].spec_key(),
            nodes[b].extra_order_info.rank(),
        ) == KeyOrder::Greater,
{
    assert(nodes[b].iter.inv() && nodes[c].iter.inv());
    lemma_key_order_flip(nodes[c].spec_key(), nodes[b].spec_key());
}

/// Iterates on multiple iterators, a.k.a. `MergeIterator`.
pub struct MergeIteratorInner<I: HummockIterator, NE: NodeExtraOrderInfo> {
    /// The children, in the order in which they were given.
    nodes: Vec<Node<I, NE>>,
    /// The top of the heap: the valid child whose current entry comes
    /// first. `None` while no child is valid.
    heap_top: Option<usize>,
    /// The key that the order aware merge hands out only once.
    last_table_key: Vec<u8>,
    /// Whether the top child awaits a load.
    pending: bool,
    /// How many entries of the children were passed.
    merged: Ghost<nat>,
    /// Where, among the entries of the children, the entry stands that the
    /// order aware merge is on, or is leaving.
    left: Ghost<nat>,
    /// Whether the iterator was rewound or sought.
    initialized: Ghost<bool>,
    /// Whether a step has failed.
    failed: Ghost<bool>,
}

/// An order aware merge iterator.
pub type OrderedMergeIteratorInner<I> = MergeIteratorInner<I, OrderedNodeExtra>;

pub type UnorderedMergeIteratorInner<I> = MergeIteratorInner<I, UnorderedNodeExtra>;

impl<I: HummockIterator> OrderedMergeIteratorInner<I> {
    /// A merge of `iterators` that hands out each key once, from the child
    /// that comes first among those that hold the key: forward the one
    /// given first, backward the one given last.
    pub fn new(iterators: Vec<I>) -> (r: Self)
        requires
            forall|i: int|
                0 <= i < iterators@.len() ==> (#[trigger] iterators@[i]).inv() && !(
                iterators@[i].state() is AwaitingIo) && !iterators@[i].failed(),
        ensures
            r.inv(),
            !r.failed(),
            r.state() is Uninitialized,
            r.spec_children() == iterators@,
            r.source() == dedup(merge_order(sources_of(iterators@), Self::rule())),
            r.healthy() == all_healthy(iterators@),
            r.local_stats() == stats_sum(stats_of(iterators@), iterators@.len() as int),
    {
        let mut iterators = iterators;
        let ghost all = iterators@;
        let mut nodes: Vec<Node<I, OrderedNodeExtra>> = Vec::new();
        while iterators.len() > 0
            invariant
                nodes@.len() + iterators@.len() == all.len(),
                forall|i: int| 0 <= i < nodes@.len() ==> (#[trigger] nodes@[i]).iter == all[i],
                forall|i: int|
                    0 <= i < nodes@.len() ==> (#[trigger] nodes@[i]).extra_order_info as int == i,
                forall|i: int|
                    0 <= i < iterators@.len() ==> #[trigger] iterators@[i] == all[nodes@.len() + i],
            decreases iterators@.len(),
        {
            let i: usize = nodes.len();
            let iter = iterators.remove(0);
            nodes.push(Node { iter, extra_order_info: i });
        }
        let r = MergeIteratorInner {
            nodes,
            heap_top: None,
            last_table_key: Vec::new(),
            pending: false,
            merged: Ghost(0),
            left: Ghost(0),
            initialized: Ghost(false),
            failed: Ghost(false),
        };
        proof {
            assert(r.spec_children() =~= all);
            assert forall|i: int| 0 <= i < r.nodes@.len() implies (#[trigger] r.nodes@[i]).iter.inv()
                && r.nodes@[i].extra_order_info.rank() == i as nat && !(r.nodes@[i].iter.state() is AwaitingIo)
                && !r.nodes@[i].iter.failed() by {
                assert(r.nodes@[i].iter == all[i]);
            }
            assert(child_sources(r.nodes@) =~= sources_of(all));
            assert(child_stats(r.nodes@) =~= stats_of(all));
            assert(nodes_healthy(r.nodes@) == all_healthy(all)) by {
                if all_healthy(all) {
                    assert forall|i: int| 0 <= i < r.nodes@.len() implies (#[trigger] r.nodes@[i]).iter.healthy() by {
                        assert(all[i].healthy());
                    }
                }
                if nodes_healthy(r.nodes@) {
                    assert forall|i: int| 0 <= i < all.len() implies (#[trigger] all[i]).healthy() by {
                        assert(r.nodes@[i].iter.healthy());
                    }
                }
            }
        }
        r
    }
}

impl<I: HummockIterator> UnorderedMergeIteratorInner<I> {
    /// A merge of `iterators` that hands out every entry of every child;
    /// entries with the same key come in the order of the children.
    pub fn new(iterators: Vec<I>) -> (r: Self)
        requires
            forall|i: int|
                0 <= i < iterators@.len() ==> (#[trigger] iterators@[i]).inv() && !(
                iterators@[i].state() is AwaitingIo) && !iterators@[i].failed(),
        ensures
            r.inv(),
            !r.failed(),
            r.state() is Uninitialized,
            r.spec_children() == iterators@,
            r.source() == merge_order(sources_of(iterators@), Self::rule()),
            r.healthy() == all_healthy(iterators@),
            r.local_stats() == stats_sum(stats_of(iterators@), iterators@.len() as int),
    {
        let mut iterators = iterators;
        let ghost all = iterators@;
        let mut nodes: Vec<Node<I, UnorderedNodeExtra>> = Vec::new();
        while iterators.len() > 0
            invariant
                nodes@.len() + iterators@.len() == all.len(),
                forall|i: int| 0 <= i < nodes@.len() ==> (#[trigger] nodes@[i]).iter == all[i],
                forall|i: int|
                    0 <= i < iterators@.len() ==> #[trigger] iterators@[i] == all[nodes@.len() + i],
            decreases iterators@.len(),
        {
            let iter = iterators.remove(0);
            nodes.push(Node { iter, extra_order_info: () });
        }
        let r = MergeIteratorInner {
            nodes,
            heap_top: None,
            last_table_key: Vec::new(),
            pending: false,
            merged: Ghost(0),
            left: Ghost(0),
            initialized: Ghost(false),
            failed: Ghost(false),
        };
        proof {
            assert(r.spec_children() =~= all);
            assert forall|i: int| 0 <= i < r.nodes@.len() implies (#[trigger] r.nodes@[i]).iter.inv()
                && r.nodes@[i].extra_order_info.rank() == 0 && !(r.nodes@[i].iter.state() is AwaitingIo)
                && !r.nodes@[i].iter.failed() by {
                assert(r.nodes@[i].iter == all[i]);
            }
            assert(child_sources(r.nodes@) =~= sources_of(all));
            assert(child_stats(r.nodes@) =~= stats_of(all));
            assert(nodes_healthy(r.nodes@) == all_healthy(all)) by {
                if all_healthy(all) {
                    assert forall|i: int| 0 <= i < r.nodes@.len() implies (#[trigger] r.nodes@[i]).iter.healthy() by {
                        assert(all[i].healthy());
                    }
                }
                if nodes_healthy(r.nodes@) {
                    assert forall|i: int| 0 <= i < all.len() implies (#[trigger] all[i]).healthy() by {
                        assert(r.nodes@[i].iter.healthy());
                    }
                }
            }
        }
        r
    }
}

impl<I: HummockIterator, NE: NodeExtraOrderInfo> MergeIteratorInner<I, NE> {
    /// The children, in the order in which they were given.
    pub closed spec fn spec_children(&self) -> Seq<I> {
        children_of(self.nodes@)
    }

    /// The top of the heap: the valid child whose current entry comes
    /// first, or the child that awaits a load.
    pub closed spec fn spec_top(&self) -> Option<int> {
        match self.heap_top {
            Some(t) => Some(t as int),
            None => None,
        }
    }

    /// The rule by which the merge chooses among its children.
    pub open spec fn rule() -> MergeRule {
        rule_of::<I, NE>()
    }

    /// All entries of all children, in the order in which a merge that
    /// hands out every one of them does.
    pub closed spec fn merged_source(&self) -> Seq<EntryView> {
        merge_order(child_sources(self.nodes@), Self::rule())
    }

    /// What holds while the heap has a top: the top is the child whose
    /// current entry comes first, every other child is on an entry or past
    /// its last one, and what the children have left is what the merge of
    /// their sources has left.
    closed spec fn heap_inv(&self, t: int) -> bool {
        &&& 0 <= t < self.nodes@.len()
        &&& top_of(child_remaining(self.nodes@), Self::rule()) == Some(t)
        &&& merge_order(child_remaining(self.nodes@), Self::rule()) == self.merged_source().skip(
            self.merged@ as int,
        )
        &&& forall|i: int| 0 <= i < self.nodes@.len() && i != t ==> child_settled(self.nodes@, i)
    }

    /// What holds of an order aware merge while the heap has a top: the
    /// entry that the merge is on, or is leaving, is the first with its
    /// key, and every entry from there up to the current one of the top
    /// child has that key.
    closed spec fn ordered_inv(&self) -> bool {
        self.heap_top is Some ==> {
            let m = self.merged_source();
            &&& self.left@ <= self.merged@
            &&& kept(m, self.left@ as int)
            &&& forall|i: int| self.left@ <= i <= self.merged@ ==> (#[trigger] m[i]).key == m[self.left@ as int].key
            &&& !self.pending ==> self.left@ == self.merged@
            &&& self.pending ==> self.last_table_key@ == m[self.left@ as int].key
        }
    }

    /// What a merge hands out is the merge of the sources of its children:
    /// every entry of every child, sorted, each as often as the children
    /// hold it together. An order aware merge keeps of these, for each key,
    /// the one that comes first: that of the child given first where the
    /// merge walks forward, of the child given last where it walks
    /// backward; so no key occurs twice in what it hands out.
    pub proof fn lemma_merge_source(&self)
        requires
            self.inv(),
        ensures
            self.merged_source() == merge_order(sources_of(self.spec_children()), Self::rule()),
            self.merged_source().to_multiset() == multiset_sum(
                sources_of(self.spec_children()),
                self.spec_children().len() as int,
            ),
            sorted_in(I::Direction::spec_direction(), self.merged_source()),
            !NE::spec_ordered() ==> self.source() == self.merged_source(),
            NE::spec_ordered() ==> self.source() == dedup(self.merged_source()),
            NE::spec_ordered() ==> forall|a: int, b: int|
                0 <= a < b < self.source().len() ==> strictly_before(
                    I::Direction::spec_direction(),
                    #[trigger] self.source()[a].key,
                    #[trigger] self.source()[b].key,
                ),
    {
        let srcs = child_sources(self.nodes@);
        assert(srcs =~= sources_of(self.spec_children()));
        lemma_children_sorted(self.nodes@);
        lemma_merge_sorted(srcs, Self::rule());
        lemma_merge_multiset(srcs, Self::rule());
        if NE::spec_ordered() {
            let m = self.merged_source();
            lemma_dedup_sorted(I::Direction::spec_direction(), m, m.len() as int);
        }
    }

    /// Moves all iterators out of the heap.
    fn reset_heap(&mut self)
        ensures
            final(self).heap_top is None,
            final(self).nodes == old(self).nodes,
            final(self).pending == old(self).pending,
            final(self).merged == old(self).merged,
            final(self).left == old(self).left,
            final(self).failed == old(self).failed,
            final(self).last_table_key == old(self).last_table_key,
            final(self).initialized == old(self).initialized,
    {
        self.heap_top = None;
    }

    /// The valid child whose current entry comes first.
    fn select_top(&self) -> (r: Option<usize>)
        requires
            children_ok(self.nodes@),
            forall|i: int| 0 <= i < self.nodes@.len() ==> child_settled(self.nodes@, i),
        ensures
            match r {
                Some(t) => top_of(child_remaining(self.nodes@), Self::rule()) == Some(t as int),
                None => top_of(child_remaining(self.nodes@), Self::rule()) is None,
            },
    {
        let ghost nodes = self.nodes@;
        let ghost rems = child_remaining(nodes);
        let ghost rule = Self::rule();
        let n: usize = self.nodes.len();
        let mut best: Option<usize> = None;
        let mut i: usize = 0;
        proof {
            lemma_children_sorted(nodes);
        }
        while i < n
            invariant
                i <= n,
                n == nodes.len(),
                nodes == self.nodes@,
                rems == child_remaining(nodes),
                rule == Self::rule(),
                children_ok(nodes),
                all_sorted(rems, rule.dir),
                forall|j: int| 0 <= j < nodes.len() ==> child_settled(nodes, j),
                forall|j: int|
                    0 <= j < nodes.len() ==> (#[trigger] nodes[j]).iter.position()
                        <= nodes[j].iter.source().len(),
                match best {
                    Some(b) => b < i && top_upto(rems, rule, i as int) == Some(b as int),
                    None => top_upto(rems, rule, i as int) is None,
                },
            decreases n - i,
        {
            assert(child_settled(nodes, i as int));
            assert(nodes[i as int].iter.inv());
            assert(rems[i as int] == nodes[i as int].iter.source().skip(
                nodes[i as int].iter.position() as int,
            ));
            if self.nodes[i].iter.is_valid() {
                match best {
                    None => {
                        best = Some(i);
                    },
                    Some(b) => {
                        proof {
                            lemma_top_upto(rems, rule, i as int);
                            assert(child_settled(nodes, b as int));
                            assert(nodes[b as int].iter.inv());
                            assert(rems[b as int] == nodes[b as int].iter.source().skip(
                                nodes[b as int].iter.position() as int,
                            ));
                            lemma_node_order_takes_over(nodes, b as int, i as int);
                        }
                        match self.nodes[i].compare(&self.nodes[b]) {
                            KeyOrder::Greater => {
                                best = Some(i);
                            },
                            _ => {},
                        }
                    },
                }
            }
            i += 1;
        }
        best
    }

    /// After some iterators were sought or rewound, calls this function to
    /// construct a new heap using the valid ones.
    fn build_heap(&mut self)
        requires
            old(self).heap_top is None,
            children_ok(old(self).nodes@),
            forall|i: int| 0 <= i < old(self).nodes@.len() ==> child_settled(old(self).nodes@, i),
        ensures
            final(self).nodes == old(self).nodes,
            final(self).pending == old(self).pending,
            final(self).merged == old(self).merged,
            final(self).left == old(self).left,
            final(self).failed == old(self).failed,
            final(self).last_table_key == old(self).last_table_key,
            final(self).initialized == old(self).initialized,
            match final(self).heap_top {
                Some(t) => top_of(child_remaining(final(self).nodes@), Self::rule()) == Some(
                    t as int,
                ),
                None => top_of(child_remaining(final(self).nodes@), Self::rule()) is None,
            },
    {
        self.heap_top = self.select_top();
    }
}

impl<I: HummockIterator, NE: NodeExtraOrderInfo> MergeIteratorInner<I, NE> {
    /// What the children were before the top child moved on by one entry,
    /// and what they are now.
    closed spec fn stepped(prev: Seq<Node<I, NE>>, now: Seq<Node<I, NE>>, t: int) -> bool {
        &&& now.len() == prev.len()
        &&& 0 <= t < now.len()
        &&& children_ok(prev)
        &&& children_ok(now)
        &&& child_sources(now) == child_sources(prev)
        &&& forall|i: int|
            0 <= i < now.len() && i != t ==> (#[trigger] now[i]).iter.position()
                == prev[i].iter.position()
        &&& now[t].iter.position() == prev[t].iter.position() + 1
        &&& top_of(child_remaining(prev), Self::rule()) == Some(t)
        &&& forall|i: int| 0 <= i < now.len() ==> child_settled(now, i)
    }

    /// After the top child moved on by one entry, what the children have
    /// left is what they had left before, without its first entry.
    proof fn lemma_stepped(prev: Seq<Node<I, NE>>, now: Seq<Node<I, NE>>, t: int)
        requires
            Self::stepped(prev, now, t),
        ensures
            child_remaining(now) == advance(child_remaining(prev), t),
            merge_order(child_remaining(prev), Self::rule()).len() > 0,
            merge_order(child_remaining(now), Self::rule()) == merge_order(
                child_remaining(prev),
                Self::rule(),
            ).skip(1),
    {
        let rule = Self::rule();
        lemma_children_sorted(prev);
        lemma_children_sorted(now);
        let rp = child_remaining(prev);
        let rn = child_remaining(now);
        lemma_top_upto(rp, rule, rp.len() as int);
        assert forall|i: int| 0 <= i < rn.len() implies #[trigger] rn[i] == advance(rp, t)[i] by {
            assert(child_sources(now)[i] == child_sources(prev)[i]);
            let s = prev[i].iter.source();
            let p = prev[i].iter.position() as int;
            if i == t {
                assert(s.skip(p).skip(1) =~= s.skip(p + 1));
            }
        }
        assert(rn =~= advance(rp, t));
        lemma_merge_order_unfold(rp, rule);
    }

    /// Passes one entry after the top child has moved on, and chooses the
    /// top anew.
    fn settle(&mut self, prev: Ghost<Seq<Node<I, NE>>>, t: Ghost<int>)
        requires
            Self::stepped(prev@, old(self).nodes@, t@),
            merge_order(child_remaining(prev@), Self::rule()) == old(self).merged_source().skip(
                old(self).merged@ as int,
            ),
            old(self).merged@ <= old(self).merged_source().len(),
        ensures
            final(self).nodes == old(self).nodes,
            final(self).initialized == old(self).initialized,
            final(self).last_table_key == old(self).last_table_key,
            final(self).left == old(self).left,
            final(self).failed == old(self).failed,
            final(self).merged@ == old(self).merged@ + 1,
            final(self).merged@ <= final(self).merged_source().len(),
            !final(self).pending,
            children_ok(final(self).nodes@),
            forall|i: int| 0 <= i < final(self).nodes@.len() ==> child_settled(final(self).nodes@, i),
            forall|i: int|
                0 <= i < final(self).nodes@.len() ==> !((#[trigger] final(self).nodes@[i]).iter.state() is AwaitingIo),
            match final(self).heap_top {
                Some(top) => final(self).heap_inv(top as int) && final(self).merged@
                    < final(self).merged_source().len(),
                None => final(self).merged@ == final(self).merged_source().len(),
            },
    {
        let ghost m = self.merged_source();
        let ghost q = self.merged@;
        proof {
            Self::lemma_stepped(prev@, self.nodes@, t@);
            assert(m.skip(q as int).skip(1) =~= m.skip(q as int + 1));
            lemma_children_sorted(self.nodes@);
            lemma_merge_order_unfold(child_remaining(self.nodes@), Self::rule());
            assert forall|i: int| 0 <= i < self.nodes@.len() implies !((
            #[trigger] self.nodes@[i]).iter.state() is AwaitingIo) by {
                assert(child_settled(self.nodes@, i));
            }
        }
        self.merged = Ghost((q + 1) as nat);
        self.pending = false;
        self.heap_top = self.select_top();
    }
}

impl<I: HummockIterator, NE: NodeExtraOrderInfo> HummockIterator for MergeIteratorInner<I, NE> {
    type Direction = I::Direction;

    closed spec fn inv(&self) -> bool {
        &&& NE::spec_ordered() ==> self.ordered_inv()
        &&& children_ok(self.nodes@)
        &&& self.merged@ <= self.merged_source().len()
        &&& self.heap_top is Some ==> self.initialized@
        &&& self.failed@ ==> self.heap_top is None && self.initialized@
        &&& !self.failed@ ==> nodes_unfailed(self.nodes@)
        &&& match self.heap_top {
            None => !self.pending && forall|i: int|
                0 <= i < self.nodes@.len() ==> !((#[trigger] self.nodes@[i]).iter.state() is AwaitingIo),
            Some(t) => self.heap_inv(t as int) && if self.pending {
                self.nodes@[t as int].iter.state() is AwaitingIo
            } else {
                child_settled(self.nodes@, t as int)
            },
        }
    }

    closed spec fn state(&self) -> IteratorState {
        match self.heap_top {
            Some(_) => if self.pending {
                IteratorState::AwaitingIo
            } else {
                IteratorState::Valid
            },
            None => if self.initialized@ {
                IteratorState::Exhausted
            } else {
                IteratorState::Uninitialized
            },
        }
    }

    closed spec fn source(&self) -> Seq<EntryView> {
        if NE::spec_ordered() {
            dedup(self.merged_source())
        } else {
            self.merged_source()
        }
    }

    closed spec fn position(&self) -> nat {
        if NE::spec_ordered() {
            match self.heap_top {
                Some(_) => dedup_upto(self.merged_source(), self.left@ as int).len(),
                None => dedup_upto(self.merged_source(), self.merged@ as int).len(),
            }
        } else {
            self.merged@
        }
    }

    /// The counters of the children, added up.
    closed spec fn local_stats(&self) -> StoreLocalStatistic {
        stats_sum(child_stats(self.nodes@), self.nodes@.len() as int)
    }

    closed spec fn healthy(&self) -> bool {
        nodes_healthy(self.nodes@)
    }

    closed spec fn failed(&self) -> bool {
        self.failed@
    }

    proof fn lemma_well_formed(&self) {
        let m = self.merged_source();
        let dir = I::Direction::spec_direction();
        lemma_children_sorted(self.nodes@);
        lemma_merge_sorted(child_sources(self.nodes@), Self::rule());
        match self.heap_top {
            Some(t) => {
                lemma_merge_order_unfold(child_remaining(self.nodes@), Self::rule());
                if NE::spec_ordered() {
                    lemma_dedup_at(m, self.left@ as int, m.len() as int);
                }
            },
            None => {
                if NE::spec_ordered() {
                    lemma_dedup_prefix(m, self.merged@ as int, m.len() as int);
                }
            },
        }
        if NE::spec_ordered() {
            lemma_dedup_sorted(dir, m, m.len() as int);
        }
    }

    fn next(&mut self) -> (r: HummockResult<()>)
        ensures
            others_kept(
                old(self).spec_children(),
                final(self).spec_children(),
                old(self).spec_top(),
                old(self).source()[old(self).position() as int].key,
            ),
    {
        let ghost before = self.spec_children();
        let ghost top = self.spec_top();
        let ghost key = self.source()[self.position() as int].key;
        match self.poll_next() {
            Poll::Ready(result) => result,
            Poll::Pending => {
                let ghost between = self.spec_children();
                let r = self.await_next();
                proof {
                    assert forall|i: int|
                        0 <= i < before.len() && top != Some(i) && !on_key(before[i], key) implies #[trigger] self.spec_children()[i]
                        == before[i] by {
                        assert(between[i] == before[i]);
                        assert(!on_key(between[i], key));
                    }
                }
                r
            },
        }
    }

    fn poll_next(&mut self) -> (r: Poll<HummockResult<()>>)
        ensures
            others_kept(
                old(self).spec_children(),
                final(self).spec_children(),
                old(self).spec_top(),
                old(self).source()[old(self).position() as int].key,
            ),
            r is Pending ==> final(self).spec_top() is Some && on_key(
                old(self).spec_children()[final(self).spec_top()->Some_0],
                old(self).source()[old(self).position() as int].key,
            ),
    {
        if NE::ordered() {
            self.poll_next_ordered()
        } else {
            self.poll_next_unordered()
        }
    }

    fn await_next(&mut self) -> (r: HummockResult<()>)
        ensures
            others_kept(
                old(self).spec_children(),
                final(self).spec_children(),
                old(self).spec_top(),
                old(self).source()[old(self).position() as int].key,
            ),
    {
        if NE::ordered() {
            self.await_next_ordered()
        } else {
            self.await_next_unordered()
        }
    }

    fn key(&self) -> (k: &[u8]) {
        let t: usize = match self.heap_top {
            Some(t) => t,
            None => vstd::pervasive::unreached(),
        };
        proof {
            self.lemma_current_entry(t as int);
        }
        self.nodes[t].iter.key()
    }

    fn value(&self) -> (v: HummockValue<&[u8]>) {
        let t: usize = match self.heap_top {
            Some(t) => t,
            None => vstd::pervasive::unreached(),
        };
        proof {
            self.lemma_current_entry(t as int);
        }
        self.nodes[t].iter.value()
    }

    fn is_valid(&self) -> (b: bool) {
        match self.heap_top {
            Some(t) => {
                proof {
                    if !self.pending {
                        self.lemma_current(t as int);
                    }
                    assert(self.nodes@[t as int].iter.inv());
                }
                self.nodes[t].iter.is_valid()
            },
            None => false,
        }
    }

    fn rewind(&mut self) -> (r: HummockResult<()>)
        ensures
            old(self).spec_children().len() == 0 ==> r is Ok,
            final(self).spec_children().len() == old(self).spec_children().len(),
    {
        proof {
            self.lemma_none_awaiting();
        }
        self.initialized = Ghost(true);
        self.reset_heap();
        let ghost before = self.nodes@;
        let n: usize = self.nodes.len();
        let mut i: usize = 0;
        while i < n
            invariant
                i <= n,
                n == self.nodes@.len(),
                n == before.len(),
                before == old(self).nodes@,
                children_ok(self.nodes@),
                child_sources(self.nodes@) == child_sources(before),
                nodes_healthy(self.nodes@) == nodes_healthy(before),
                nodes_unfailed(self.nodes@),
                !self.failed@,
                self.heap_top is None,
                !self.pending,
                self.initialized@,
                self.merged == old(self).merged,
                self.merged@ <= self.merged_source().len(),
                forall|j: int|
                    0 <= j < i ==> (#[trigger] self.nodes@[j]).iter.position() == 0 && child_settled(
                        self.nodes@,
                        j,
                    ),
                forall|j: int|
                    i <= j < n ==> !((#[trigger] self.nodes@[j]).iter.state() is AwaitingIo),
            decreases n - i,
        {
            let ghost prev = self.nodes@;
            assert(prev[i as int].iter.inv());
            assert(!prev[i as int].iter.failed());
            proof {
                if nodes_healthy(prev) {
                    assert(prev[i as int].iter.healthy());
                }
            }
            let result = self.nodes[i].iter.rewind();
            proof {
                self.lemma_one_changed(prev, i as int);
            }
            match result {
                Ok(_) => {},
                Err(e) => {
                    self.failed = Ghost(true);
                    return Err(e);
                },
            }
            i += 1;
        }
        self.merged = Ghost(0);
        self.left = Ghost(0);
        self.build_heap();
        proof {
            let m = self.merged_source();
            if NE::spec_ordered() && m.len() > 0 {
                lemma_dedup_at(m, 0, m.len() as int);
            }
            let srcs = child_sources(self.nodes@);
            let rems = child_remaining(self.nodes@);
            assert forall|j: int| 0 <= j < n implies #[trigger] rems[j] == srcs[j] by {
                assert(self.nodes@[j].iter.position() == 0);
                assert(srcs[j].skip(0) =~= srcs[j]);
            }
            assert(rems =~= srcs);
            assert(self.merged_source().skip(0) =~= self.merged_source());
            lemma_children_sorted(self.nodes@);
            lemma_merge_order_unfold(rems, Self::rule());
        }
        Ok(())
    }

    fn seek(&mut self, key: &[u8]) -> (r: HummockResult<()>)
        ensures
            old(self).spec_children().len() == 0 ==> r is Ok,
            final(self).spec_children().len() == old(self).spec_children().len(),
    {
        proof {
            self.lemma_none_awaiting();
        }
        self.initialized = Ghost(true);
        self.reset_heap();
        let ghost before = self.nodes@;
        let ghost dir = I::Direction::spec_direction();
        let n: usize = self.nodes.len();
        let mut i: usize = 0;
        while i < n
            invariant
                i <= n,
                n == self.nodes@.len(),
                n == before.len(),
                before == old(self).nodes@,
                is_encoded(key@),
                dir == I::Direction::spec_direction(),
                children_ok(self.nodes@),
                child_sources(self.nodes@) == child_sources(before),
                nodes_healthy(self.nodes@) == nodes_healthy(before),
                nodes_unfailed(self.nodes@),
                !self.failed@,
                self.heap_top is None,
                !self.pending,
                self.initialized@,
                self.merged == old(self).merged,
                self.merged@ <= self.merged_source().len(),
                forall|j: int|
                    0 <= j < i ==> is_seek_position(
                        dir,
                        (#[trigger] self.nodes@[j]).iter.source(),
                        key@,
                        self.nodes@[j].iter.position(),
                    ) && child_settled(self.nodes@, j),
                forall|j: int|
                    i <= j < n ==> !((#[trigger] self.nodes@[j]).iter.state() is AwaitingIo),
            decreases n - i,
        {
            let ghost prev = self.nodes@;
            assert(prev[i as int].iter.inv());
            assert(!prev[i as int].iter.failed());
            proof {
                if nodes_healthy(prev) {
                    assert(prev[i as int].iter.healthy());
                }
            }
            let result = self.nodes[i].iter.seek(key);
            proof {
                self.lemma_one_changed(prev, i as int);
            }
            match result {
                Ok(_) => {},
                Err(e) => {
                    self.failed = Ghost(true);
                    return Err(e);
                },
            }
            i += 1;
        }
        proof {
            let srcs = child_sources(self.nodes@);
            let ps = child_positions(self.nodes@);
            lemma_children_sorted(self.nodes@);
            assert forall|j: int| 0 <= j < srcs.len() implies is_seek_position(
                dir,
                #[trigger] srcs[j],
                key@,
                ps[j],
            ) by {
                assert(is_seek_position(
                    dir,
                    self.nodes@[j].iter.source(),
                    key@,
                    self.nodes@[j].iter.position(),
                ));
            }
            lemma_merge_seek(srcs, ps, Self::rule(), key@);
        }
        self.merged = Ghost(sum_upto(child_positions(self.nodes@), n as int));
        self.left = self.merged;
        self.build_heap();
        proof {
            lemma_merge_order_unfold(child_remaining(self.nodes@), Self::rule());
            if NE::spec_ordered() {
                let m = self.merged_source();
                lemma_merge_sorted(child_sources(self.nodes@), Self::rule());
                lemma_dedup_seek(dir, m, key@, self.merged@);
                if self.merged@ < m.len() {
                    lemma_dedup_at(m, self.merged@ as int, m.len() as int);
                }
            }
        }
        Ok(())
    }

    fn collect_local_statistic(&self, stats: &mut StoreLocalStatistic) {
        let ghost counted = child_stats(self.nodes@);
        let n: usize = self.nodes.len();
        let mut i: usize = 0;
        while i < n
            invariant
                i <= n,
                n == self.nodes@.len(),
                counted == child_stats(self.nodes@),
                children_ok(self.nodes@),
                *stats == old(stats).plus(stats_sum(counted, i as int)),
            decreases n - i,
        {
            proof {
                lemma_plus_associative(*old(stats), stats_sum(counted, i as int), counted[i as int]);
                assert(self.nodes@[i as int].iter.inv());
            }
            self.nodes[i].iter.collect_local_statistic(stats);
            i += 1;
        }
    }
}

impl<I: HummockIterator, NE: NodeExtraOrderInfo> MergeIteratorInner<I, NE> {
    /// Moves the top child on by one entry, if that needs no load.
    fn poll_next_unordered(&mut self) -> (r: Poll<HummockResult<()>>)
        requires
            old(self).inv(),
            old(self).state() is Valid,
            !NE::spec_ordered(),
        ensures
            final(self).inv(),
            final(self).source() == old(self).source(),
            final(self).healthy() == old(self).healthy(),
            r is Pending ==> final(self).spec_top() is Some && on_key(
                old(self).spec_children()[final(self).spec_top()->Some_0],
                old(self).source()[old(self).position() as int].key,
            ),
            others_kept(
                old(self).spec_children(),
                final(self).spec_children(),
                old(self).spec_top(),
                old(self).source()[old(self).position() as int].key,
            ),
            final(self).failed() == (r matches Poll::Ready(Err(_))),
            old(self).healthy() ==> !(r matches Poll::Ready(Err(_))),
            final(self).local_stats() == old(self).local_stats(),
            r matches Poll::Ready(Ok(_)) ==> final(self).position() == old(self).position() + 1
                && final(self).state() == state_at(
                final(self).position(),
                final(self).source().len(),
            ),
            r matches Poll::Ready(Err(_)) ==> final(self).state() is Exhausted,
            r is Pending ==> final(self).state() is AwaitingIo && final(self).position() == old(
                self,
            ).position(),
    {
        let t: usize = match self.heap_top {
            Some(t) => t,
            None => vstd::pervasive::unreached(),
        };
        let ghost prev = self.nodes@;
        proof {
            assert(self.heap_inv(t as int));
            self.lemma_current(t as int);
            lemma_children_sorted(prev);
            lemma_top_upto(child_remaining(prev), Self::rule(), prev.len() as int);
            if nodes_healthy(prev) {
                assert(prev[t as int].iter.healthy());
            }
        }
        let ghost key = self.source()[self.position() as int].key;
        proof {
            self.lemma_current_entry(t as int);
        }
        let polled = self.nodes[t].iter.poll_next();
        proof {
            self.lemma_others_kept(prev, t as int, key);
            assert(on_key(children_of(prev)[t as int], key));
        }
        match after_child(polled) {
            AfterChild::Wait => {
                self.pending = true;
                proof {
                    self.lemma_same_remaining(prev, t as int);
                }
                Poll::Pending
            },
            AfterChild::Fail(e) => {
                self.heap_top = None;
                self.failed = Ghost(true);
                proof {
                    self.lemma_failed(prev, t as int);
                }
                Poll::Ready(Err(e))
            },
            AfterChild::Settle => {
                proof {
                    self.lemma_moved(prev, t as int);
                }
                self.settle(Ghost(prev), Ghost(t as int));
                Poll::Ready(Ok(()))
            },
        }
    }

    /// Completes the step of the top child that was left pending.
    fn await_next_unordered(&mut self) -> (r: HummockResult<()>)
        requires
            old(self).inv(),
            old(self).state() is AwaitingIo,
            !NE::spec_ordered(),
        ensures
            final(self).inv(),
            final(self).source() == old(self).source(),
            final(self).healthy() == old(self).healthy(),
            others_kept(
                old(self).spec_children(),
                final(self).spec_children(),
                old(self).spec_top(),
                old(self).source()[old(self).position() as int].key,
            ),
            final(self).failed() == (r is Err),
            old(self).healthy() ==> r is Ok,
            r is Ok ==> final(self).position() == old(self).position() + 1 && final(self).state()
                == state_at(final(self).position(), final(self).source().len()),
            r is Err ==> final(self).state() is Exhausted,
    {
        let t: usize = match self.heap_top {
            Some(t) => t,
            None => vstd::pervasive::unreached(),
        };
        let ghost prev = self.nodes@;
        proof {
            assert(self.heap_inv(t as int));
            assert(prev[t as int].iter.inv());
            lemma_children_sorted(prev);
            lemma_top_upto(child_remaining(prev), Self::rule(), prev.len() as int);
            if nodes_healthy(prev) {
                assert(prev[t as int].iter.healthy());
            }
        }
        let ghost key = self.source()[self.position() as int].key;
        let awaited = self.nodes[t].iter.await_next();
        proof {
            self.lemma_others_kept(prev, t as int, key);
        }
        match after_child(Poll::Ready(awaited)) {
            AfterChild::Wait => vstd::pervasive::unreached(),
            AfterChild::Fail(e) => {
                self.heap_top = None;
                self.failed = Ghost(true);
                self.pending = false;
                proof {
                    self.lemma_failed(prev, t as int);
                }
                Err(e)
            },
            AfterChild::Settle => {
                proof {
                    self.lemma_moved(prev, t as int);
                }
                self.settle(Ghost(prev), Ghost(t as int));
                Ok(())
            },
        }
    }

    /// Moves past the current key: every child whose current entry has it
    /// moves on, until the top of the heap has another key.
    fn poll_next_ordered(&mut self) -> (r: Poll<HummockResult<()>>)
        requires
            old(self).inv(),
            old(self).state() is Valid,
            NE::spec_ordered(),
        ensures
            final(self).inv(),
            final(self).source() == old(self).source(),
            final(self).healthy() == old(self).healthy(),
            r is Pending ==> final(self).spec_top() is Some && on_key(
                old(self).spec_children()[final(self).spec_top()->Some_0],
                old(self).source()[old(self).position() as int].key,
            ),
            others_kept(
                old(self).spec_children(),
                final(self).spec_children(),
                old(self).spec_top(),
                old(self).source()[old(self).position() as int].key,
            ),
            final(self).failed() == (r matches Poll::Ready(Err(_))),
            old(self).healthy() ==> !(r matches Poll::Ready(Err(_))),
            final(self).local_stats() == old(self).local_stats(),
            r matches Poll::Ready(Ok(_)) ==> final(self).position() == old(self).position() + 1
                && final(self).state() == state_at(
                final(self).position(),
                final(self).source().len(),
            ),
            r matches Poll::Ready(Err(_)) ==> final(self).state() is Exhausted,
            r is Pending ==> final(self).state() is AwaitingIo && final(self).position() == old(
                self,
            ).position(),
    {
        let t: usize = match self.heap_top {
            Some(t) => t,
            None => vstd::pervasive::unreached(),
        };
        proof {
            self.lemma_current(t as int);
            self.lemma_current_entry(t as int);
            self.lemma_none_awaiting();
        }
        let top_key = self.nodes[t].iter.key();
        self.last_table_key.clear();
        self.last_table_key.extend_from_slice(top_key);
        assert(self.last_table_key@ =~= top_key@);
        self.skip_last_key(false)
    }

    /// Completes the step of the top child that was left pending, and
    /// goes on to move past the current key.
    fn await_next_ordered(&mut self) -> (r: HummockResult<()>)
        requires
            old(self).inv(),
            old(self).state() is AwaitingIo,
            NE::spec_ordered(),
        ensures
            final(self).inv(),
            final(self).source() == old(self).source(),
            final(self).healthy() == old(self).healthy(),
            others_kept(
                old(self).spec_children(),
                final(self).spec_children(),
                old(self).spec_top(),
                old(self).source()[old(self).position() as int].key,
            ),
            final(self).failed() == (r is Err),
            old(self).healthy() ==> r is Ok,
            r is Ok ==> final(self).position() == old(self).position() + 1 && final(self).state()
                == state_at(final(self).position(), final(self).source().len()),
            r is Err ==> final(self).state() is Exhausted,
    {
        let t: usize = match self.heap_top {
            Some(t) => t,
            None => vstd::pervasive::unreached(),
        };
        let ghost prev = self.nodes@;
        proof {
            assert(self.heap_inv(t as int));
            assert(prev[t as int].iter.inv());
            lemma_children_sorted(prev);
            lemma_top_upto(child_remaining(prev), Self::rule(), prev.len() as int);
            if nodes_healthy(prev) {
                assert(prev[t as int].iter.healthy());
            }
        }
        let ghost key = self.source()[self.position() as int].key;
        proof {
            let m = self.merged_source();
            lemma_merge_order_unfold(child_remaining(prev), Self::rule());
            lemma_dedup_at(m, self.left@ as int, m.len() as int);
            assert(key == self.last_table_key@);
        }
        let awaited = self.nodes[t].iter.await_next();
        proof {
            self.lemma_others_kept(prev, t as int, key);
        }
        match after_child(Poll::Ready(awaited)) {
            AfterChild::Wait => vstd::pervasive::unreached(),
            AfterChild::Fail(e) => {
                self.heap_top = None;
                self.failed = Ghost(true);
                self.pending = false;
                proof {
                    self.lemma_failed(prev, t as int);
                }
                Err(e)
            },
            AfterChild::Settle => {
                proof {
                    self.lemma_moved(prev, t as int);
                }
                self.settle(Ghost(prev), Ghost(t as int));
                let ghost between = self.spec_children();
                let skipped = self.skip_last_key(true);
                proof {
                    lemma_others_kept_twice(
                        children_of(prev),
                        between,
                        self.spec_children(),
                        Some(t as int),
                        key,
                    );
                }
                match skipped {
                    Poll::Ready(result) => result,
                    Poll::Pending => vstd::pervasive::unreached(),
                }
            },
        }
    }

    /// What holds while an order aware merge moves past a key: no child
    /// awaits a load, the entry that is being left is the first with its
    /// key, and every entry passed since has that key.
    closed spec fn skipping(&self) -> bool {
        let m = self.merged_source();
        &&& NE::spec_ordered()
        &&& children_ok(self.nodes@)
        &&& !self.failed@
        &&& nodes_unfailed(self.nodes@)
        &&& self.initialized@
        &&& !self.pending
        &&& forall|i: int| 0 <= i < self.nodes@.len() ==> child_settled(self.nodes@, i)
        &&& self.left@ <= self.merged@ <= m.len()
        &&& self.left@ < m.len()
        &&& kept(m, self.left@ as int)
        &&& self.last_table_key@ == m[self.left@ as int].key
        &&& forall|i: int| self.left@ <= i < self.merged@ ==> (#[trigger] m[i]).key == m[self.left@ as int].key
        &&& match self.heap_top {
            Some(t) => self.heap_inv(t as int),
            None => self.merged@ == m.len() && self.left@ < self.merged@,
        }
    }

    /// Moves every child on whose current entry has the key that is being
    /// left, until the top of the heap has another key. Where `awaited`
    /// holds, a child that needs a load gets it; else the merge answers
    /// `Pending`.
    fn skip_last_key(&mut self, awaited: bool) -> (r: Poll<HummockResult<()>>)
        requires
            old(self).skipping(),
        ensures
            final(self).inv(),
            final(self).merged_source() == old(self).merged_source(),
            final(self).last_table_key == old(self).last_table_key,
            final(self).healthy() == old(self).healthy(),
            r is Pending ==> final(self).spec_top() is Some && on_key(
                old(self).spec_children()[final(self).spec_top()->Some_0],
                old(self).last_table_key@,
            ),
            others_kept(
                old(self).spec_children(),
                final(self).spec_children(),
                None,
                old(self).last_table_key@,
            ),
            final(self).failed() == (r matches Poll::Ready(Err(_))),
            old(self).healthy() ==> !(r matches Poll::Ready(Err(_))),
            !awaited ==> final(self).local_stats() == old(self).local_stats(),
            awaited ==> !(r is Pending),
            r matches Poll::Ready(Ok(_)) ==> final(self).position() == dedup_upto(
                old(self).merged_source(),
                old(self).left@ as int,
            ).len() + 1 && final(self).state() == state_at(
                final(self).position(),
                final(self).source().len(),
            ),
            r matches Poll::Ready(Err(_)) ==> final(self).state() is Exhausted,
            r is Pending ==> final(self).state() is AwaitingIo && final(self).position()
                == dedup_upto(old(self).merged_source(), old(self).left@ as int).len(),
        decreases old(self).merged_source().len() - old(self).merged@,
    {
        let ghost m = self.merged_source();
        let ghost left = self.left@ as int;
        let t: usize = match self.heap_top {
            Some(t) => t,
            None => {
                proof {
                    self.lemma_left_last(left, m.len() as int);
                    assert forall|i: int| 0 <= i < self.nodes@.len() implies !((
                    #[trigger] self.nodes@[i]).iter.state() is AwaitingIo) by {
                        assert(child_settled(self.nodes@, i));
                    }
                }
                return Poll::Ready(Ok(()));
            },
        };
        let ghost prev = self.nodes@;
        let ghost q = self.merged@ as int;
        proof {
            assert(self.heap_inv(t as int));
            lemma_children_sorted(prev);
            lemma_top_upto(child_remaining(prev), Self::rule(), prev.len() as int);
            lemma_merge_order_unfold(child_remaining(prev), Self::rule());
            assert(prev[t as int].iter.inv());
            assert(child_settled(prev, t as int));
            assert(m.skip(q)[0] == m[q]);
            assert(child_remaining(prev)[t as int][0] == prev[t as int].iter.source()[prev[t as int].iter.position() as int]);
        }
        if !same_key(self.nodes[t].iter.key(), self.last_table_key.as_slice()) {
            proof {
                assert(m[q].key != m[left].key);
                assert(left < q);
                assert(m[q - 1].key == m[left].key);
                self.lemma_left_last(left, q);
                lemma_dedup_at(m, q, m.len() as int);
            }
            self.left = Ghost(q as nat);
            return Poll::Ready(Ok(()));
        }
        proof {
            if nodes_healthy(prev) {
                assert(prev[t as int].iter.healthy());
            }
        }
        let polled = if awaited {
            Poll::Ready(self.nodes[t].iter.next())
        } else {
            self.nodes[t].iter.poll_next()
        };
        let ghost last = self.last_table_key@;
        let ghost stepped = self.spec_children();
        proof {
            self.lemma_others_kept(prev, t as int, last);
            assert(on_key(children_of(prev)[t as int], last));
        }
        match after_child(polled) {
            AfterChild::Wait => {
                self.pending = true;
                proof {
                    self.lemma_same_remaining(prev, t as int);
                }
                Poll::Pending
            },
            AfterChild::Fail(e) => {
                self.heap_top = None;
                self.failed = Ghost(true);
                proof {
                    self.lemma_failed(prev, t as int);
                }
                Poll::Ready(Err(e))
            },
            AfterChild::Settle => {
                proof {
                    self.lemma_moved(prev, t as int);
                }
                self.settle(Ghost(prev), Ghost(t as int));
                let ghost between = self.spec_children();
                assert(between == stepped);
                let r = self.skip_last_key(awaited);
                proof {
                    lemma_others_kept_twice(
                        children_of(prev),
                        between,
                        self.spec_children(),
                        None,
                        last,
                    );
                    if r is Pending {
                        let waiting = self.spec_top()->Some_0;
                        if waiting != t {
                            assert(between[waiting] == children_of(prev)[waiting]);
                        }
                    }
                }
                r
            },
        }
    }

    /// Where every entry from `left` up to `q` has the key of entry
    /// `left`, which is kept, one more entry is kept of the first `q` than
    /// of the first `left`.
    proof fn lemma_left_last(&self, left: int, q: int)
        requires
            0 <= left < q <= self.merged_source().len(),
            kept(self.merged_source(), left),
            forall|i: int| left <= i < q ==> (#[trigger] self.merged_source()[i]).key
                == self.merged_source()[left].key,
        ensures
            dedup_upto(self.merged_source(), q).len() == dedup_upto(self.merged_source(), left).len() + 1,
    {
        let m = self.merged_source();
        assert forall|i: int| left + 1 <= i < q implies !kept(m, i) by {
            assert(m[i].key == m[left].key);
            assert(m[i - 1].key == m[left].key);
        }
        lemma_dedup_none_kept(m, left + 1, q);
        assert(dedup_upto(m, left + 1) == dedup_upto(m, left).push(m[left]));
    }

    /// Where only child `t` changed and kept its source, the sources of
    /// the children are what they were, and the other children too.
    proof fn lemma_one_changed(&self, prev: Seq<Node<I, NE>>, t: int)
        requires
            children_ok(prev),
            0 <= t < prev.len(),
            self.nodes@.len() == prev.len(),
            forall|i: int| 0 <= i < prev.len() && i != t ==> #[trigger] self.nodes@[i] == prev[i],
            self.nodes@[t].extra_order_info == prev[t].extra_order_info,
            self.nodes@[t].iter.inv(),
            self.nodes@[t].iter.source() == prev[t].iter.source(),
        ensures
            children_ok(self.nodes@),
            child_sources(self.nodes@) == child_sources(prev),
            self.nodes@[t].iter.healthy() == prev[t].iter.healthy() ==> nodes_healthy(self.nodes@)
                == nodes_healthy(prev),
            self.nodes@[t].iter.local_stats() == prev[t].iter.local_stats() ==> child_stats(
                self.nodes@,
            ) == child_stats(prev),
            !self.nodes@[t].iter.failed() && nodes_unfailed(prev) ==> nodes_unfailed(self.nodes@),
    {
        if self.nodes@[t].iter.healthy() == prev[t].iter.healthy() {
            if nodes_healthy(prev) {
                assert forall|i: int| 0 <= i < self.nodes@.len() implies (
                #[trigger] self.nodes@[i]).iter.healthy() by {
                    assert(prev[i].iter.healthy());
                }
            }
            if nodes_healthy(self.nodes@) {
                assert forall|i: int| 0 <= i < prev.len() implies (#[trigger] prev[i]).iter.healthy() by {
                    assert(self.nodes@[i].iter.healthy());
                }
            }
        }
        if self.nodes@[t].iter.local_stats() == prev[t].iter.local_stats() {
            assert(child_stats(self.nodes@) =~= child_stats(prev));
        }
        if !self.nodes@[t].iter.failed() && nodes_unfailed(prev) {
            assert forall|i: int| 0 <= i < self.nodes@.len() implies !(
            #[trigger] self.nodes@[i]).iter.failed() by {
                assert(!prev[i].iter.failed());
            }
        }
        assert forall|i: int| 0 <= i < self.nodes@.len() implies (#[trigger] self.nodes@[i]).iter.inv()
            && self.nodes@[i].extra_order_info.rank() == if NE::spec_ordered() {
            i as nat
        } else {
            0
        } by {
            assert(prev[i].iter.inv());
        }
        assert(child_sources(self.nodes@) =~= child_sources(prev));
    }

    /// Where only child `t` changed and kept its source and its position,
    /// what the children have left is what it was.
    proof fn lemma_same_remaining(&self, prev: Seq<Node<I, NE>>, t: int)
        requires
            children_ok(prev),
            0 <= t < prev.len(),
            self.nodes@.len() == prev.len(),
            forall|i: int| 0 <= i < prev.len() && i != t ==> #[trigger] self.nodes@[i] == prev[i],
            self.nodes@[t].extra_order_info == prev[t].extra_order_info,
            self.nodes@[t].iter.inv(),
            self.nodes@[t].iter.source() == prev[t].iter.source(),
            self.nodes@[t].iter.position() == prev[t].iter.position(),
            forall|i: int| 0 <= i < prev.len() && i != t ==> child_settled(prev, i),
        ensures
            children_ok(self.nodes@),
            child_sources(self.nodes@) == child_sources(prev),
            child_remaining(self.nodes@) == child_remaining(prev),
            forall|i: int|
                0 <= i < prev.len() && i != t ==> #[trigger] child_settled(self.nodes@, i),
            self.nodes@[t].iter.healthy() == prev[t].iter.healthy() ==> nodes_healthy(self.nodes@)
                == nodes_healthy(prev),
            self.nodes@[t].iter.local_stats() == prev[t].iter.local_stats() ==> child_stats(
                self.nodes@,
            ) == child_stats(prev),
            !self.nodes@[t].iter.failed() && nodes_unfailed(prev) ==> nodes_unfailed(self.nodes@),
    {
        self.lemma_one_changed(prev, t);
        assert(child_remaining(self.nodes@) =~= child_remaining(prev));
        assert forall|i: int| 0 <= i < prev.len() && i != t implies #[trigger] child_settled(
            self.nodes@,
            i,
        ) by {
            assert(child_settled(prev, i));
        }
    }

    /// Where child `t` failed and the others are as they were, no child
    /// awaits a load.
    proof fn lemma_failed(&self, prev: Seq<Node<I, NE>>, t: int)
        requires
            children_ok(prev),
            0 <= t < prev.len(),
            self.nodes@.len() == prev.len(),
            forall|i: int| 0 <= i < prev.len() && i != t ==> #[trigger] self.nodes@[i] == prev[i],
            forall|i: int| 0 <= i < prev.len() && i != t ==> child_settled(prev, i),
            self.nodes@[t].extra_order_info == prev[t].extra_order_info,
            self.nodes@[t].iter.inv(),
            self.nodes@[t].iter.source() == prev[t].iter.source(),
            self.nodes@[t].iter.state() is Exhausted,
        ensures
            children_ok(self.nodes@),
            child_sources(self.nodes@) == child_sources(prev),
            forall|i: int|
                0 <= i < self.nodes@.len() ==> !((#[trigger] self.nodes@[i]).iter.state() is AwaitingIo),
            self.nodes@[t].iter.healthy() == prev[t].iter.healthy() ==> nodes_healthy(self.nodes@)
                == nodes_healthy(prev),
            self.nodes@[t].iter.local_stats() == prev[t].iter.local_stats() ==> child_stats(
                self.nodes@,
            ) == child_stats(prev),
            !self.nodes@[t].iter.failed() && nodes_unfailed(prev) ==> nodes_unfailed(self.nodes@),
    {
        self.lemma_one_changed(prev, t);
        assert forall|i: int| 0 <= i < self.nodes@.len() implies !((
        #[trigger] self.nodes@[i]).iter.state() is AwaitingIo) by {
            if i != t {
                assert(child_settled(prev, i));
            }
        }
    }

    /// Where child `t`, the top, moved on by one entry and the others are
    /// as they were, the children have stepped.
    proof fn lemma_moved(&self, prev: Seq<Node<I, NE>>, t: int)
        requires
            children_ok(prev),
            0 <= t < prev.len(),
            self.nodes@.len() == prev.len(),
            top_of(child_remaining(prev), Self::rule()) == Some(t),
            forall|i: int| 0 <= i < prev.len() && i != t ==> #[trigger] self.nodes@[i] == prev[i],
            forall|i: int| 0 <= i < prev.len() && i != t ==> child_settled(prev, i),
            self.nodes@[t].extra_order_info == prev[t].extra_order_info,
            self.nodes@[t].iter.inv(),
            self.nodes@[t].iter.source() == prev[t].iter.source(),
            self.nodes@[t].iter.position() == prev[t].iter.position() + 1,
            child_settled(self.nodes@, t),
        ensures
            Self::stepped(prev, self.nodes@, t),
            child_sources(self.nodes@) == child_sources(prev),
            self.nodes@[t].iter.healthy() == prev[t].iter.healthy() ==> nodes_healthy(self.nodes@)
                == nodes_healthy(prev),
            self.nodes@[t].iter.local_stats() == prev[t].iter.local_stats() ==> child_stats(
                self.nodes@,
            ) == child_stats(prev),
            !self.nodes@[t].iter.failed() && nodes_unfailed(prev) ==> nodes_unfailed(self.nodes@),
    {
        self.lemma_one_changed(prev, t);
        assert forall|i: int| 0 <= i < self.nodes@.len() implies child_settled(self.nodes@, i) by {
            if i != t {
                assert(child_settled(prev, i));
            }
        }
    }

    /// The current entry of a valid merge, as its source and position give
    /// it, is the current entry of the top child.
    proof fn lemma_current_entry(&self, t: int)
        requires
            self.inv(),
            self.heap_top matches Some(top) && top == t,
            !self.pending,
        ensures
            0 <= t < self.nodes@.len(),
            self.nodes@[t].iter.inv(),
            self.nodes@[t].iter.state() is Valid,
            self.position() < self.source().len(),
            self.source()[self.position() as int] == self.nodes@[t].iter.source()[self.nodes@[t].iter.position() as int],
    {
        self.lemma_current(t);
        if NE::spec_ordered() {
            let m = self.merged_source();
            lemma_dedup_at(m, self.merged@ as int, m.len() as int);
        }
    }

    /// Where only child `t` changed, every other child is as it was.
    proof fn lemma_others_kept(&self, prev: Seq<Node<I, NE>>, t: int, key: Seq<u8>)
        requires
            0 <= t < prev.len(),
            self.nodes@.len() == prev.len(),
            forall|i: int| 0 <= i < prev.len() && i != t ==> #[trigger] self.nodes@[i] == prev[i],
        ensures
            others_kept(children_of(prev), self.spec_children(), Some(t), key),
            on_key(prev[t].iter, key) ==> others_kept(
                children_of(prev),
                self.spec_children(),
                None,
                key,
            ),
    {
        let a = children_of(prev);
        let b = self.spec_children();
        assert forall|i: int| 0 <= i < a.len() && i != t implies #[trigger] b[i] == a[i] by {
            assert(self.nodes@[i] == prev[i]);
        }
    }

    /// The current entry of a valid merge is the current entry of its top
    /// child, which is valid; and it may stand before the current entry of
    /// every valid child.
    pub proof fn lemma_current_child(&self) -> (t: int)
        requires
            self.inv(),
            self.state() is Valid,
        ensures
            self.spec_top() == Some(t),
            0 <= t < self.spec_children().len(),
            self.spec_children()[t].state() is Valid,
            self.source()[self.position() as int] == self.spec_children()[t].source()[self.spec_children()[t].position() as int],
            forall|i: int|
                0 <= i < self.spec_children().len() && (#[trigger] self.spec_children()[i]).state() is Valid
                    ==> in_order(
                    I::Direction::spec_direction(),
                    self.source()[self.position() as int].key,
                    self.spec_children()[i].source()[self.spec_children()[i].position() as int].key,
                ),
    {
        let t = self.heap_top->Some_0 as int;
        self.lemma_current_entry(t);
        let rems = child_remaining(self.nodes@);
        lemma_children_sorted(self.nodes@);
        lemma_top_upto(rems, Self::rule(), rems.len() as int);
        assert forall|i: int|
            0 <= i < self.spec_children().len() && (#[trigger] self.spec_children()[i]).state() is Valid implies in_order(
            I::Direction::spec_direction(),
            self.source()[self.position() as int].key,
            self.spec_children()[i].source()[self.spec_children()[i].position() as int].key,
        ) by {
            assert(self.nodes@[i].iter.inv());
            self.nodes@[i].iter.lemma_well_formed();
            let p = self.nodes@[i].iter.position() as int;
            assert(rems[i] == self.nodes@[i].iter.source().skip(p));
            assert(rems[i][0] == self.nodes@[i].iter.source()[p]);
            let pt = self.nodes@[t].iter.position() as int;
            assert(rems[t] == self.nodes@[t].iter.source().skip(pt));
            assert(rems[t][0] == self.nodes@[t].iter.source()[pt]);
        }
        t
    }

    /// While the merge awaits no load, no child does.
    proof fn lemma_none_awaiting(&self)
        requires
            self.inv(),
            !(self.state() is AwaitingIo),
        ensures
            forall|i: int|
                0 <= i < self.nodes@.len() ==> !((#[trigger] self.nodes@[i]).iter.state() is AwaitingIo),
    {
        assert forall|i: int| 0 <= i < self.nodes@.len() implies !((
        #[trigger] self.nodes@[i]).iter.state() is AwaitingIo) by {
            match self.heap_top {
                Some(t) => {
                    assert(self.heap_inv(t as int));
                    assert(child_settled(self.nodes@, i));
                },
                None => {},
            }
        }
    }

    /// The current entry of the merge is the current entry of the top
    /// child, which is valid.
    proof fn lemma_current(&self, t: int)
        requires
            self.inv(),
            self.heap_top matches Some(top) && top == t,
            !self.pending,
        ensures
            0 <= t < self.nodes@.len(),
            self.nodes@[t].iter.inv(),
            self.nodes@[t].iter.state() is Valid,
            self.merged@ < self.merged_source().len(),
            self.merged_source()[self.merged@ as int] == self.nodes@[t].iter.source()[self.nodes@[t].iter.position() as int],
    {
        let rems = child_remaining(self.nodes@);
        lemma_children_sorted(self.nodes@);
        lemma_merge_order_unfold(rems, Self::rule());
        assert(self.nodes@[t].iter.inv());
        assert(child_settled(self.nodes@, t));
        let m = self.merged_source();
        assert(m.skip(self.merged@ as int)[0] == m[self.merged@ as int]);
        assert(rems[t][0] == self.nodes@[t].iter.source()[self.nodes@[t].iter.position() as int]);
    }
}

} // verus!
