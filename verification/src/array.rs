//! Columns of nullable integers, and bitmaps that select rows.

use vstd::prelude::*;

verus! {

/// One cell of a column: a number, or null.
pub type Datum = Option<i32>;

/// An immutable array of nullable 32-bit integers.
#[derive(Debug, PartialEq, Eq)]
pub struct I32Array {
    data: Vec<Datum>,
}

impl View for I32Array {
    type V = Seq<Datum>;

    closed spec fn view(&self) -> Seq<Datum> {
        self.data@
    }
}

impl Clone for I32Array {
    fn clone(&self) -> (r: Self)
        ensures
            r@ == self@,
    {
        let mut data: Vec<Datum> = Vec::with_capacity(self.data.len());
        let mut i: usize = 0;
        while i < self.data.len()
            invariant
                i <= self.data.len(),
                data@ == self.data@.subrange(0, i as int),
            decreases self.data.len() - i,
        {
            data.push(self.data[i]);
            assert(data@ =~= self.data@.subrange(0, i + 1));
            i += 1;
        }
        assert(data@ =~= self.data@);
        I32Array { data }
    }
}

impl I32Array {
    /// Number of rows.
    pub fn len(&self) -> (n: usize)
        ensures
            n == self@.len(),
    {
        self.data.len()
    }

    /// Whether the array has no row.
    pub fn is_empty(&self) -> (b: bool)
        ensures
            b == (self@.len() == 0),
    {
        self.data.len() == 0
    }

    /// The cell of row `idx`.
    pub fn value_at(&self, idx: usize) -> (d: Datum)
        requires
            idx < self@.len(),
        ensures
            d == self@[idx as int],
    {
        self.data[idx]
    }

    /// The rows from `start` to `end`, both included, as an array of their own.
    pub fn get_continuous_sub_array(&self, start: usize, end: usize) -> (r: I32Array)
        requires
            start <= end < self@.len(),
        ensures
            r@ == self@.subrange(start as int, end + 1),
    {
        let len: usize = self.data.len();
        let mut data: Vec<Datum> = Vec::with_capacity(end - start + 1);
        let mut i: usize = start;
        while i <= end
            invariant
                start <= i <= end + 1,
                end < len,
                len == self.data@.len(),
                data@ == self.data@.subrange(start as int, i as int),
            decreases end + 1 - i,
        {
            data.push(self.data[i]);
            assert(data@ =~= self.data@.subrange(start as int, i + 1));
            i += 1;
        }
        I32Array { data }
    }

    /// The rows that `visibility` selects, in their order.
    pub fn compact(&self, visibility: &Bitmap) -> (r: I32Array)
        requires
            visibility@.len() == self@.len(),
        ensures
            r@ == visible_rows(self@, visibility@, self@.len() as int),
    {
        let mut data: Vec<Datum> = Vec::new();
        let mut i: usize = 0;
        while i < self.data.len()
            invariant
                i <= self.data.len(),
                visibility@.len() == self.data@.len(),
                data@ == visible_rows(self.data@, visibility@, i as int),
            decreases self.data.len() - i,
        {
            if visibility.is_set(i) {
                data.push(self.data[i]);
            }
            i += 1;
        }
        I32Array { data }
    }
}

/// Collects rows into an array.
pub struct I32ArrayBuilder {
    data: Vec<Datum>,
}

impl View for I32ArrayBuilder {
    type V = Seq<Datum>;

    closed spec fn view(&self) -> Seq<Datum> {
        self.data@
    }
}

impl I32ArrayBuilder {
    /// A builder with room for `capacity` rows and none in it.
    pub fn new(capacity: usize) -> (r: Self)
        ensures
            r@ == Seq::<Datum>::empty(),
    {
        I32ArrayBuilder { data: Vec::with_capacity(capacity) }
    }

    /// Adds one row at the end.
    pub fn append(&mut self, value: Datum)
        ensures
            final(self)@ == old(self)@.push(value),
    {
        self.data.push(value);
    }

    /// Adds the rows of `other` at the end.
    pub fn append_array(&mut self, other: &I32Array)
        ensures
            final(self)@ == old(self)@ + other@,
    {
        let mut i: usize = 0;
        while i < other.data.len()
            invariant
                i <= other.data.len(),
                self.data@ == old(self).data@ + other.data@.subrange(0, i as int),
            decreases other.data.len() - i,
        {
            self.data.push(other.data[i]);
            assert(self.data@ =~= old(self).data@ + other.data@.subrange(0, i + 1));
            i += 1;
        }
        assert(other.data@.subrange(0, other.data@.len() as int) =~= other.data@);
    }

    /// The array of the rows collected.
    pub fn finish(self) -> (r: I32Array)
        ensures
            r@ == self@,
    {
        I32Array { data: self.data }
    }
}

/// The first `n` rows of `rows` that `vis` selects, in their order.
pub open spec fn visible_rows(rows: Seq<Datum>, vis: Seq<bool>, n: int) -> Seq<Datum>
    decreases n,
{
    if n <= 0 {
        Seq::empty()
    } else if vis[n - 1] {
        visible_rows(rows, vis, n - 1).push(rows[n - 1])
    } else {
        visible_rows(rows, vis, n - 1)
    }
}

/// How many of the first `n` bits of `vis` are set.
pub open spec fn count_set(vis: Seq<bool>, n: int) -> nat
    decreases n,
{
    if n <= 0 {
        0
    } else if vis[n - 1] {
        count_set(vis, n - 1) + 1
    } else {
        count_set(vis, n - 1)
    }
}

/// As many rows are visible as bits are set.
pub proof fn lemma_visible_rows_len(rows: Seq<Datum>, vis: Seq<bool>, n: int)
    requires
        0 <= n,
    ensures
        visible_rows(rows, vis, n).len() == count_set(vis, n),
    decreases n,
{
    if n > 0 {
        lemma_visible_rows_len(rows, vis, n - 1);
    }
}

/// One bit for each row of a chunk: whether the row is visible.
#[derive(Debug, PartialEq, Eq)]
pub struct Bitmap {
    bits: Vec<bool>,
}

impl View for Bitmap {
    type V = Seq<bool>;

    closed spec fn view(&self) -> Seq<bool> {
        self.bits@
    }
}

impl Bitmap {
    /// The bitmap of these bits.
    pub fn new(bits: Vec<bool>) -> (r: Self)
        ensures
            r@ == bits@,
    {
        Bitmap { bits }
    }

    /// Number of bits.
    pub fn len(&self) -> (n: usize)
        ensures
            n == self@.len(),
    {
        self.bits.len()
    }

    /// Whether the bitmap has no bit.
    pub fn is_empty(&self) -> (b: bool)
        ensures
            b == (self@.len() == 0),
    {
        self.bits.len() == 0
    }

    /// Whether bit `idx` is set.
    pub fn is_set(&self, idx: usize) -> (b: bool)
        requires
            idx < self@.len(),
        ensures
            b == self@[idx as int],
    {
        self.bits[idx]
    }

    /// How many bits are set.
    pub fn num_set(&self) -> (n: usize)
        ensures
            n == count_set(self@, self@.len() as int),
    {
        let mut n: usize = 0;
        let mut i: usize = 0;
        while i < self.bits.len()
            invariant
                i <= self.bits.len(),
                n == count_set(self.bits@, i as int),
                n <= i,
            decreases self.bits.len() - i,
        {
            if self.bits[i] {
                n += 1;
            }
            i += 1;
        }
        n
    }
}

/// A column of a chunk.
#[derive(Debug, PartialEq, Eq)]
pub struct Column {
    array: I32Array,
}

impl View for Column {
    type V = Seq<Datum>;

    closed spec fn view(&self) -> Seq<Datum> {
        self.array@
    }
}

impl Clone for Column {
    fn clone(&self) -> (r: Self)
        ensures
            r@ == self@,
    {
        Column { array: self.array.clone() }
    }
}

impl Column {
    /// The column that holds `array`.
    pub fn new(array: I32Array) -> (r: Self)
        ensures
            r@ == array@,
    {
        Column { array }
    }

    /// The rows of the column.
    pub fn array(&self) -> (a: &I32Array)
        ensures
            a@ == self@,
    {
        &self.array
    }

    /// The rows of the column.
    pub fn array_ref(&self) -> (a: &I32Array)
        ensures
            a@ == self@,
    {
        &self.array
    }
}

} // verus!
