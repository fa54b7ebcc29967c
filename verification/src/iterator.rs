//! The protocol that every iterator of the storage engine follows, the two
//! directions of iteration, and the sum of up to four iterator types.
//!
//! An iterator ranges over a fixed sequence of entries, its source, and stands
//! at a position in it. Stepping is split in two: `poll_next` advances where
//! no load from the store is needed and answers `Pending` where one is;
//! `await_next` then performs that load.

use vstd::prelude::*;
use crate::error::HummockResult;
use crate::key::{is_encoded, key_order, KeyOrder};
use crate::monitor::StoreLocalStatistic;
use crate::value::{borrowed_value_view, entries_view, Entry, EntryView, HummockValue};

pub mod compact_concat_iterator;
pub mod concat_inner;
pub mod dedup;
pub mod merge_inner;
pub mod merge_order;

verus! {

/// The two ways to walk over keys.
#[derive(Clone, Copy, Debug, PartialEq, Eq, Structural)]
pub enum DirectionEnum {
    Forward,
    Backward,
}

/// A direction of iteration, fixed at compile time.
pub trait HummockIteratorDirection {
    /// The direction that this marker stands for.
    spec fn spec_direction() -> DirectionEnum;

    fn direction() -> (d: DirectionEnum)
        ensures
            d == Self::spec_direction(),
    ;
}

/// From smaller keys to larger ones.
pub struct Forward;

impl HummockIteratorDirection for Forward {
    open spec fn spec_direction() -> DirectionEnum {
        DirectionEnum::Forward
    }

    #[inline(always)]
    fn direction() -> (d: DirectionEnum) {
        DirectionEnum::Forward
    }
}

/// From larger keys to smaller ones.
pub struct Backward;

impl HummockIteratorDirection for Backward {
    open spec fn spec_direction() -> DirectionEnum {
        DirectionEnum::Backward
    }

    #[inline(always)]
    fn direction() -> (d: DirectionEnum) {
        DirectionEnum::Backward
    }
}

/// Outcome of an attempt to advance without loading anything.
#[derive(Clone, Copy, Debug, PartialEq, Eq)]
pub enum Poll<T> {
    /// The attempt is complete, with this result.
    Ready(T),
    /// A load is needed; `await_next` performs it.
    Pending,
}

/// Where an iterator is in its life.
#[derive(Clone, Copy, Debug, PartialEq, Eq, Structural)]
pub enum IteratorState {
    /// Neither rewound nor sought yet.
    Uninitialized,
    /// Positioned on an entry.
    Valid,
    /// Past the last entry, or stopped by an error.
    Exhausted,
    /// `poll_next` answered `Pending`, and `await_next` has not run yet.
    AwaitingIo,
}

/// In direction `dir`, key `a` may stand before key `b`.
pub open spec fn in_order(dir: DirectionEnum, a: Seq<u8>, b: Seq<u8>) -> bool {
    match dir {
        DirectionEnum::Forward => key_order(a, b) != KeyOrder::Greater,
        DirectionEnum::Backward => key_order(a, b) != KeyOrder::Less,
    }
}

/// In direction `dir`, key `a` stands before key `b` and differs from it.
pub open spec fn strictly_before(dir: DirectionEnum, a: Seq<u8>, b: Seq<u8>) -> bool {
    match dir {
        DirectionEnum::Forward => key_order(a, b) == KeyOrder::Less,
        DirectionEnum::Backward => key_order(a, b) == KeyOrder::Greater,
    }
}

/// The keys of `s` never step back in direction `dir`.
pub open spec fn sorted_in(dir: DirectionEnum, s: Seq<EntryView>) -> bool {
    forall|i: int, j: int|
        0 <= i < j < s.len() ==> in_order(dir, #[trigger] s[i].key, #[trigger] s[j].key)
}

/// Every key of `s` ends with an epoch.
pub open spec fn all_encoded(s: Seq<EntryView>) -> bool {
    forall|i: int| 0 <= i < s.len() ==> is_encoded(#[trigger] s[i].key)
}

/// Position `p` is where a seek for `key` lands in `s`: everything before it
/// stands strictly before `key`, and the entry at `p`, if there is one, does
/// not.
pub open spec fn is_seek_position(dir: DirectionEnum, s: Seq<EntryView>, key: Seq<u8>, p: nat) -> bool {
    &&& p <= s.len()
    &&& forall|i: int| 0 <= i < p ==> strictly_before(dir, #[trigger] s[i].key, key)
    &&& p < s.len() ==> in_order(dir, key, s[p as int].key)
}

/// The state of an iterator that has moved to position `p` of a source of
/// `len` entries: on an entry, or past the end.
pub open spec fn state_at(p: nat, len: nat) -> IteratorState {
    if p < len {
        IteratorState::Valid
    } else {
        IteratorState::Exhausted
    }
}

/// The interface of all iterators.
///
/// After creating an iterator, call `rewind` to start from the first entry or
/// `seek` to start from a key, then read `key` and `value` and step with
/// `next` while `is_valid` holds.
pub trait HummockIterator: Sized {
    type Direction: HummockIteratorDirection;

    /// What holds of the iterator between calls.
    spec fn inv(&self) -> bool;

    /// Where the iterator is in its life.
    spec fn state(&self) -> IteratorState;

    /// All entries that the iterator ranges over, in the order of iteration.
    spec fn source(&self) -> Seq<EntryView>;

    /// The index in the source of the current entry; while a load is
    /// awaited, of the entry that was left.
    spec fn position(&self) -> nat;

    /// The counters that `collect_local_statistic` hands over.
    spec fn local_stats(&self) -> StoreLocalStatistic;

    /// Whether nothing that the iterator ranges over is missing or
    /// corrupt. No step of a healthy iterator fails.
    spec fn healthy(&self) -> bool;

    /// Whether a step of the iterator has failed. A failed iterator is
    /// exhausted for good: it is not rewound or sought again.
    spec fn failed(&self) -> bool;

    /// The source is sorted in the iterator's direction, its keys are
    /// encoded keys, and a valid iterator stands inside it.
    proof fn lemma_well_formed(&self)
        requires
            self.inv(),
        ensures
            self.position() <= self.source().len(),
            self.state() is Valid ==> self.position() < self.source().len(),
            self.state() is AwaitingIo ==> self.position() < self.source().len(),
            self.failed() ==> self.state() is Exhausted,
            all_encoded(self.source()),
            sorted_in(Self::Direction::spec_direction(), self.source()),
    ;

    /// Moves a valid iterator to the next entry. Reaching the end is no
    /// error: the iterator is then exhausted.
    fn next(&mut self) -> (r: HummockResult<()>)
        requires
            old(self).inv(),
            old(self).state() is Valid,
        ensures
            final(self).inv(),
            final(self).source() == old(self).source(),
            final(self).healthy() == old(self).healthy(),
            final(self).failed() == (r is Err),
            old(self).healthy() ==> r is Ok,
            r is Ok ==> final(self).position() == old(self).position() + 1 && final(self).state()
                == state_at(final(self).position(), final(self).source().len()),
            r is Err ==> final(self).state() is Exhausted,
    ;

    /// Moves a valid iterator to the next entry if that needs no load, and
    /// answers `Pending` otherwise. It loads nothing itself, so its
    /// counters stay as they are.
    fn poll_next(&mut self) -> (r: Poll<HummockResult<()>>)
        requires
            old(self).inv(),
            old(self).state() is Valid,
        ensures
            final(self).inv(),
            final(self).source() == old(self).source(),
            final(self).healthy() == old(self).healthy(),
            final(self).failed() == (r matches Poll::Ready(Err(_))),
            old(self).healthy() ==> !(r matches Poll::Ready(Err(_))),
            final(self).local_stats() == old(self).local_stats(),
            r matches Poll::Ready(Ok(_)) ==> final(self).position() == old(self).position() + 1
                && final(self).state() == state_at(
                final(self).position(),
                final(self).source().len(),
            ),
            r matches Poll::Ready(Err(_)) ==> final(self).state() is Exhausted,
            r is Pending ==> final(self).state() is AwaitingIo && final(self).position() == old(
                self,
            ).position(),
    ;

    /// Completes the step that `poll_next` left pending.
    fn await_next(&mut self) -> (r: HummockResult<()>)
        requires
            old(self).inv(),
            old(self).state() is AwaitingIo,
        ensures
            final(self).inv(),
            final(self).source() == old(self).source(),
            final(self).healthy() == old(self).healthy(),
            final(self).failed() == (r is Err),
            old(self).healthy() ==> r is Ok,
            r is Ok ==> final(self).position() == old(self).position() + 1 && final(self).state()
                == state_at(final(self).position(), final(self).source().len()),
            r is Err ==> final(self).state() is Exhausted,
    ;

    /// The current key.
    fn key(&self) -> (k: &[u8])
        requires
            self.inv(),
            self.state() is Valid,
        ensures
            k@ == self.source()[self.position() as int].key,
    ;

    /// The current value.
    fn value(&self) -> (v: HummockValue<&[u8]>)
        requires
            self.inv(),
            self.state() is Valid,
        ensures
            borrowed_value_view(v) == self.source()[self.position() as int].value,
    ;

    /// Whether the iterator stands on an entry.
    fn is_valid(&self) -> (b: bool)
        requires
            self.inv(),
        ensures
            b == (self.state() is Valid),
    ;

    /// Moves to the first entry.
    fn rewind(&mut self) -> (r: HummockResult<()>)
        requires
            old(self).inv(),
            !(old(self).state() is AwaitingIo),
            !old(self).failed(),
        ensures
            final(self).inv(),
            final(self).source() == old(self).source(),
            final(self).healthy() == old(self).healthy(),
            final(self).failed() == (r is Err),
            old(self).healthy() ==> r is Ok,
            r is Ok ==> final(self).position() == 0 && final(self).state() == state_at(
                0,
                final(self).source().len(),
            ),
            r is Err ==> final(self).state() is Exhausted,
    ;

    /// Moves to the first entry, in the iterator's direction, that does not
    /// stand strictly before `key`.
    fn seek(&mut self, key: &[u8]) -> (r: HummockResult<()>)
        requires
            old(self).inv(),
            !(old(self).state() is AwaitingIo),
            !old(self).failed(),
            is_encoded(key@),
        ensures
            final(self).inv(),
            final(self).source() == old(self).source(),
            final(self).healthy() == old(self).healthy(),
            final(self).failed() == (r is Err),
            old(self).healthy() ==> r is Ok,
            r is Ok ==> is_seek_position(
                Self::Direction::spec_direction(),
                final(self).source(),
                key@,
                final(self).position(),
            ) && final(self).state() == state_at(
                final(self).position(),
                final(self).source().len(),
            ),
            r is Err ==> final(self).state() is Exhausted,
    ;

    /// Adds the iterator's own counters to `stats`.
    fn collect_local_statistic(&self, stats: &mut StoreLocalStatistic)
        requires
            self.inv(),
        ensures
            *final(stats) == old(stats).plus(self.local_stats()),
    ;
}

/// Of two entries that an iterator hands out one after the other, however
/// far apart, the first may stand before the second in the iterator's
/// direction.
pub proof fn lemma_handed_out_in_order<I: HummockIterator>(it: &I, i: int, j: int)
    requires
        it.inv(),
        0 <= i < j < it.source().len(),
    ensures
        in_order(I::Direction::spec_direction(), it.source()[i].key, it.source()[j].key),
{
    it.lemma_well_formed();
}

/// After a forward seek for `key`: where the iterator is not valid, every
/// key of its source is smaller than `key`; where it is valid, its current
/// key is not smaller than `key`, and every key before it is.
pub proof fn lemma_forward_seek(s: Seq<EntryView>, key: Seq<u8>, p: nat)
    requires
        is_seek_position(DirectionEnum::Forward, s, key, p),
    ensures
        state_at(p, s.len()) is Exhausted ==> forall|i: int|
            0 <= i < s.len() ==> key_order(#[trigger] s[i].key, key) == KeyOrder::Less,
        state_at(p, s.len()) is Valid ==> key_order(s[p as int].key, key) != KeyOrder::Less
            && forall|i: int| 0 <= i < p ==> key_order(#[trigger] s[i].key, key) == KeyOrder::Less,
{
    if p < s.len() {
        crate::key::lemma_key_order_flip(s[p as int].key, key);
    }
}

/// After a backward seek for `key`: where the iterator is not valid, every
/// key of its source is larger than `key`; where it is valid, its current
/// key is not larger than `key`, and every key before it is.
pub proof fn lemma_backward_seek(s: Seq<EntryView>, key: Seq<u8>, p: nat)
    requires
        is_seek_position(DirectionEnum::Backward, s, key, p),
    ensures
        state_at(p, s.len()) is Exhausted ==> forall|i: int|
            0 <= i < s.len() ==> key_order(#[trigger] s[i].key, key) == KeyOrder::Greater,
        state_at(p, s.len()) is Valid ==> key_order(s[p as int].key, key) != KeyOrder::Greater
            && forall|i: int| 0 <= i < p ==> key_order(#[trigger] s[i].key, key) == KeyOrder::Greater,
{
    if p < s.len() {
        crate::key::lemma_key_order_flip(s[p as int].key, key);
    }
}

/// Moves a valid iterator to the next entry in the two steps of the
/// protocol: `poll_next`, and `await_next` where that answered `Pending`.
/// The two steps together do what `next` does.
pub fn next_by_steps<I: HummockIterator>(iter: &mut I) -> (r: HummockResult<()>)
    requires
        old(iter).inv(),
        old(iter).state() is Valid,
    ensures
        final(iter).inv(),
        final(iter).source() == old(iter).source(),
        final(iter).healthy() == old(iter).healthy(),
        final(iter).failed() == (r is Err),
        old(iter).healthy() ==> r is Ok,
        r is Ok ==> final(iter).position() == old(iter).position() + 1 && final(iter).state()
            == state_at(final(iter).position(), final(iter).source().len()),
        r is Err ==> final(iter).state() is Exhausted,
{
    match iter.poll_next() {
        Poll::Ready(result) => result,
        Poll::Pending => iter.await_next(),
    }
}

/// Hands out, in their order, all entries that `iter` has left, and leaves
/// it exhausted. After a rewind these are all entries of its source. The
/// first error ends the walk.
pub fn collect<I: HummockIterator>(iter: &mut I) -> (r: HummockResult<Vec<Entry>>)
    requires
        old(iter).inv(),
        old(iter).state() == state_at(old(iter).position(), old(iter).source().len()),
    ensures
        final(iter).inv(),
        final(iter).source() == old(iter).source(),
        final(iter).state() is Exhausted,
        final(iter).healthy() == old(iter).healthy(),
        old(iter).healthy() ==> r is Ok,
        final(iter).failed() == (old(iter).failed() || r is Err),
        r matches Ok(entries) ==> entries_view(entries@) == remaining(old(iter))
            && final(iter).position() == final(iter).source().len(),
{
    let ghost source = iter.source();
    let ghost start = iter.position();
    let mut entries: Vec<Entry> = Vec::new();
    proof {
        iter.lemma_well_formed();
        assert(entries_view(entries@) =~= source.subrange(start as int, start as int));
    }
    while iter.is_valid()
        invariant
            iter.inv(),
            iter.source() == source,
            iter.healthy() == old(iter).healthy(),
            iter.failed() == old(iter).failed(),
            source == old(iter).source(),
            start == old(iter).position(),
            start <= iter.position() <= source.len(),
            iter.state() == state_at(iter.position(), source.len()),
            entries_view(entries@) == source.subrange(start as int, iter.position() as int),
        decreases source.len() - iter.position(),
    {
        proof {
            iter.lemma_well_formed();
        }
        let key = vstd::slice::slice_to_vec(iter.key());
        let value = match iter.value() {
            HummockValue::Put(v) => HummockValue::Put(vstd::slice::slice_to_vec(v)),
            HummockValue::Delete => HummockValue::Delete,
        };
        let entry = Entry { key, value };
        let ghost before = entries@;
        let ghost p = iter.position() as int;
        proof {
            assert(entry@ == source[p]);
        }
        entries.push(entry);
        proof {
            assert(entries_view(entries@) =~= entries_view(before).push(entry@));
            assert(source.subrange(start as int, p + 1) =~= source.subrange(start as int, p).push(
                source[p],
            ));
        }
        match iter.next() {
            Ok(_) => {},
            Err(e) => {
                return Err(e);
            },
        }
        proof {
            iter.lemma_well_formed();
        }
    }
    proof {
        assert(source.subrange(start as int, source.len() as int) =~= source.skip(start as int));
    }
    Ok(entries)
}

/// The entries that an iterator has yet to hand out, the current one first.
pub open spec fn remaining<I: HummockIterator>(it: &I) -> Seq<EntryView> {
    it.source().skip(it.position() as int)
}

/// A placeholder for the slots of `HummockIteratorUnion` that are not in
/// use. No value of it is ever made, so none of its methods can be called.
pub struct PhantomHummockIterator<D: HummockIteratorDirection> {
    _phantom: core::marker::PhantomData<D>,
}

impl<D: HummockIteratorDirection> HummockIterator for PhantomHummockIterator<D> {
    type Direction = D;

    open spec fn inv(&self) -> bool {
        false
    }

    open spec fn state(&self) -> IteratorState {
        IteratorState::Uninitialized
    }

    open spec fn source(&self) -> Seq<EntryView> {
        Seq::empty()
    }

    open spec fn position(&self) -> nat {
        0
    }

    open spec fn local_stats(&self) -> StoreLocalStatistic {
        StoreLocalStatistic::zero()
    }

    open spec fn healthy(&self) -> bool {
        true
    }

    open spec fn failed(&self) -> bool {
        false
    }

    proof fn lemma_well_formed(&self) {
    }

    fn next(&mut self) -> (r: HummockResult<()>) {
        vstd::pervasive::unreached()
    }

    fn poll_next(&mut self) -> (r: Poll<HummockResult<()>>) {
        vstd::pervasive::unreached()
    }

    fn await_next(&mut self) -> (r: HummockResult<()>) {
        vstd::pervasive::unreached()
    }

    fn key(&self) -> (k: &[u8]) {
        vstd::pervasive::unreached()
    }

    fn value(&self) -> (v: HummockValue<&[u8]>) {
        vstd::pervasive::unreached()
    }

    fn is_valid(&self) -> (b: bool) {
        vstd::pervasive::unreached()
    }

    fn rewind(&mut self) -> (r: HummockResult<()>) {
        vstd::pervasive::unreached()
    }

    fn seek(&mut self, key: &[u8]) -> (r: HummockResult<()>) {
        vstd::pervasive::unreached()
    }

    fn collect_local_statistic(&self, stats: &mut StoreLocalStatistic) {
        vstd::pervasive::unreached()
    }
}

/// One of up to four types of iterator that share a direction, so that a
/// merge over iterators of different types is typed at compile time and
/// steps without dynamic dispatch.
#[verifier::reject_recursive_types(D)]
pub enum HummockIteratorUnion<
    D: HummockIteratorDirection,
    I1: HummockIterator<Direction = D>,
    I2: HummockIterator<Direction = D>,
    I3: HummockIterator<Direction = D> = PhantomHummockIterator<D>,
    I4: HummockIterator<Direction = D> = PhantomHummockIterator<D>,
> {
    First(I1),
    Second(I2),
    Third(I3),
    Fourth(I4),
}

impl<
    D: HummockIteratorDirection,
    I1: HummockIterator<Direction = D>,
    I2: HummockIterator<Direction = D>,
    I3: HummockIterator<Direction = D>,
    I4: HummockIterator<Direction = D>,
> HummockIterator for HummockIteratorUnion<D, I1, I2, I3, I4> {
    type Direction = D;

    open spec fn inv(&self) -> bool {
        match self {
            HummockIteratorUnion::First(iter) => iter.inv(),
            HummockIteratorUnion::Second(iter) => iter.inv(),
            HummockIteratorUnion::Third(iter) => iter.inv(),
            HummockIteratorUnion::Fourth(iter) => iter.inv(),
        }
    }

    open spec fn state(&self) -> IteratorState {
        match self {
            HummockIteratorUnion::First(iter) => iter.state(),
            HummockIteratorUnion::Second(iter) => iter.state(),
            HummockIteratorUnion::Third(iter) => iter.state(),
            HummockIteratorUnion::Fourth(iter) => iter.state(),
        }
    }

    open spec fn source(&self) -> Seq<EntryView> {
        match self {
            HummockIteratorUnion::First(iter) => iter.source(),
            HummockIteratorUnion::Second(iter) => iter.source(),
            HummockIteratorUnion::Third(iter) => iter.source(),
            HummockIteratorUnion::Fourth(iter) => iter.source(),
        }
    }

    open spec fn position(&self) -> nat {
        match self {
            HummockIteratorUnion::First(iter) => iter.position(),
            HummockIteratorUnion::Second(iter) => iter.position(),
            HummockIteratorUnion::Third(iter) => iter.position(),
            HummockIteratorUnion::Fourth(iter) => iter.position(),
        }
    }

    /// The counters of the iterator that the union holds.
    open spec fn local_stats(&self) -> StoreLocalStatistic {
        match self {
            HummockIteratorUnion::First(iter) => iter.local_stats(),
            HummockIteratorUnion::Second(iter) => iter.local_stats(),
            HummockIteratorUnion::Third(iter) => iter.local_stats(),
            HummockIteratorUnion::Fourth(iter) => iter.local_stats(),
        }
    }

    open spec fn healthy(&self) -> bool {
        match self {
            HummockIteratorUnion::First(iter) => iter.healthy(),
            HummockIteratorUnion::Second(iter) => iter.healthy(),
            HummockIteratorUnion::Third(iter) => iter.healthy(),
            HummockIteratorUnion::Fourth(iter) => iter.healthy(),
        }
    }

    open spec fn failed(&self) -> bool {
        match self {
            HummockIteratorUnion::First(iter) => iter.failed(),
            HummockIteratorUnion::Second(iter) => iter.failed(),
            HummockIteratorUnion::Third(iter) => iter.failed(),
            HummockIteratorUnion::Fourth(iter) => iter.failed(),
        }
    }

    proof fn lemma_well_formed(&self) {
        match self {
            HummockIteratorUnion::First(iter) => iter.lemma_well_formed(),
            HummockIteratorUnion::Second(iter) => iter.lemma_well_formed(),
            HummockIteratorUnion::Third(iter) => iter.lemma_well_formed(),
            HummockIteratorUnion::Fourth(iter) => iter.lemma_well_formed(),
        }
    }

    fn next(&mut self) -> (r: HummockResult<()>) {
        match self {
            HummockIteratorUnion::First(iter) => iter.next(),
            HummockIteratorUnion::Second(iter) => iter.next(),
            HummockIteratorUnion::Third(iter) => iter.next(),
            HummockIteratorUnion::Fourth(iter) => iter.next(),
        }
    }

    fn poll_next(&mut self) -> (r: Poll<HummockResult<()>>) {
        match self {
            HummockIteratorUnion::First(iter) => iter.poll_next(),
            HummockIteratorUnion::Second(iter) => iter.poll_next(),
            HummockIteratorUnion::Third(iter) => iter.poll_next(),
            HummockIteratorUnion::Fourth(iter) => iter.poll_next(),
        }
    }

    fn await_next(&mut self) -> (r: HummockResult<()>) {
        match self {
            HummockIteratorUnion::First(iter) => iter.await_next(),
            HummockIteratorUnion::Second(iter) => iter.await_next(),
            HummockIteratorUnion::Third(iter) => iter.await_next(),
            HummockIteratorUnion::Fourth(iter) => iter.await_next(),
        }
    }

    fn key(&self) -> (k: &[u8]) {
        match self {
            HummockIteratorUnion::First(iter) => iter.key(),
            HummockIteratorUnion::Second(iter) => iter.key(),
            HummockIteratorUnion::Third(iter) => iter.key(),
            HummockIteratorUnion::Fourth(iter) => iter.key(),
        }
    }

    fn value(&self) -> (v: HummockValue<&[u8]>) {
        match self {
            HummockIteratorUnion::First(iter) => iter.value(),
            HummockIteratorUnion::Second(iter) => iter.value(),
            HummockIteratorUnion::Third(iter) => iter.value(),
            HummockIteratorUnion::Fourth(iter) => iter.value(),
        }
    }

    fn is_valid(&self) -> (b: bool) {
        match self {
            HummockIteratorUnion::First(iter) => iter.is_valid(),
            HummockIteratorUnion::Second(iter) => iter.is_valid(),
            HummockIteratorUnion::Third(iter) => iter.is_valid(),
            HummockIteratorUnion::Fourth(iter) => iter.is_valid(),
        }
    }

    fn rewind(&mut self) -> (r: HummockResult<()>) {
        match self {
            HummockIteratorUnion::First(iter) => iter.rewind(),
            HummockIteratorUnion::Second(iter) => iter.rewind(),
            HummockIteratorUnion::Third(iter) => iter.rewind(),
            HummockIteratorUnion::Fourth(iter) => iter.rewind(),
        }
    }

    fn seek(&mut self, key: &[u8]) -> (r: HummockResult<()>) {
        match self {
            HummockIteratorUnion::First(iter) => iter.seek(key),
            HummockIteratorUnion::Second(iter) => iter.seek(key),
            HummockIteratorUnion::Third(iter) => iter.seek(key),
            HummockIteratorUnion::Fourth(iter) => iter.seek(key),
        }
    }

    fn collect_local_statistic(&self, stats: &mut StoreLocalStatistic) {
        match self {
            HummockIteratorUnion::First(iter) => iter.collect_local_statistic(stats),
            HummockIteratorUnion::Second(iter) => iter.collect_local_statistic(stats),
            HummockIteratorUnion::Third(iter) => iter.collect_local_statistic(stats),
            HummockIteratorUnion::Fourth(iter) => iter.collect_local_statistic(stats),
        }
    }
}

/// A boxed iterator is the iterator in the box.
impl<I: HummockIterator> HummockIterator for Box<I> {
    type Direction = I::Direction;

    open spec fn inv(&self) -> bool {
        (**self).inv()
    }

    open spec fn state(&self) -> IteratorState {
        (**self).state()
    }

    open spec fn source(&self) -> Seq<EntryView> {
        (**self).source()
    }

    open spec fn position(&self) -> nat {
        (**self).position()
    }

    open spec fn local_stats(&self) -> StoreLocalStatistic {
        (**self).local_stats()
    }

    open spec fn healthy(&self) -> bool {
        (**self).healthy()
    }

    open spec fn failed(&self) -> bool {
        (**self).failed()
    }

    proof fn lemma_well_formed(&self) {
        (**self).lemma_well_formed();
    }

    fn next(&mut self) -> (r: HummockResult<()>) {
        (**self).next()
    }

    fn poll_next(&mut self) -> (r: Poll<HummockResult<()>>) {
        (**self).poll_next()
    }

    fn await_next(&mut self) -> (r: HummockResult<()>) {
        (**self).await_next()
    }

    fn key(&self) -> (k: &[u8]) {
        (**self).key()
    }

    fn value(&self) -> (v: HummockValue<&[u8]>) {
        (**self).value()
    }

    fn is_valid(&self) -> (b: bool) {
        (**self).is_valid()
    }

    fn rewind(&mut self) -> (r: HummockResult<()>) {
        (**self).rewind()
    }

    fn seek(&mut self, key: &[u8]) -> (r: HummockResult<()>) {
        (**self).seek(key)
    }

    fn collect_local_statistic(&self, stats: &mut StoreLocalStatistic) {
        (**self).collect_local_statistic(stats)
    }
}

/// The forward iterator over a run.
pub type ConcatIterator<'a> = crate::iterator::concat_inner::ConcatIteratorInner<
    'a,
    crate::sstable::SstableIterator<'a>,
>;

/// The backward iterator over a run.
pub type BackwardConcatIterator<'a> = crate::iterator::concat_inner::ConcatIteratorInner<
    'a,
    crate::sstable_backward::BackwardSstableIterator<'a>,
>;

/// What compaction reads: a merge, in no order among equal keys, of runs
/// and of single tables.
pub type MultiSstIterator<'a> = crate::iterator::merge_inner::UnorderedMergeIteratorInner<
    HummockIteratorUnion<Forward, ConcatIterator<'a>, crate::sstable::SstableIterator<'a>>,
>;

} // verus!
