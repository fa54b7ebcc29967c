//! Values and entries as the iterators hand them out.

use vstd::prelude::*;

verus! {

/// What a key maps to in one version: a payload, or a tombstone.
#[derive(Clone, Debug, PartialEq, Eq)]
pub enum HummockValue<T> {
    Put(T),
    Delete,
}

/// A value with its payload as a sequence of bytes.
pub type ValueView = HummockValue<Seq<u8>>;

/// The mathematical value of an owned value.
pub open spec fn owned_value_view(v: HummockValue<Vec<u8>>) -> ValueView {
    match v {
        HummockValue::Put(p) => HummockValue::Put(p@),
        HummockValue::Delete => HummockValue::Delete,
    }
}

/// The mathematical value of a borrowed value.
pub open spec fn borrowed_value_view(v: HummockValue<&[u8]>) -> ValueView {
    match v {
        HummockValue::Put(p) => HummockValue::Put(p@),
        HummockValue::Delete => HummockValue::Delete,
    }
}

impl HummockValue<Vec<u8>> {
    /// Borrows the payload.
    pub fn as_slice(&self) -> (r: HummockValue<&[u8]>)
        ensures
            borrowed_value_view(r) == owned_value_view(*self),
    {
        match self {
            HummockValue::Put(p) => HummockValue::Put(p.as_slice()),
            HummockValue::Delete => HummockValue::Delete,
        }
    }
}

/// One version of one key, as a table stores it.
#[derive(Clone, Debug, PartialEq, Eq)]
pub struct Entry {
    pub key: Vec<u8>,
    pub value: HummockValue<Vec<u8>>,
}

/// The mathematical value of an entry.
pub struct EntryView {
    pub key: Seq<u8>,
    pub value: ValueView,
}

impl View for Entry {
    type V = EntryView;

    open spec fn view(&self) -> EntryView {
        EntryView { key: self.key@, value: owned_value_view(self.value) }
    }
}

/// The entries of a vector as mathematical values, in the same order.
pub open spec fn entries_view(entries: Seq<Entry>) -> Seq<EntryView> {
    Seq::new(entries.len(), |i: int| entries[i]@)
}

} // verus!
