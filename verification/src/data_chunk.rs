//! Chunks of rows: columns of equal length with an optional visibility mask.

use vstd::prelude::*;
use crate::array::{
    count_set, lemma_visible_rows_len, visible_rows, Bitmap, Column, Datum, I32Array,
    I32ArrayBuilder,
};

verus! {

/// Why an operation on a chunk was refused.
#[derive(Clone, Copy, Debug, PartialEq, Eq, Structural)]
pub enum ErrorCode {
    /// A column was asked for that the chunk does not have.
    InvalidArrayIndex { index: usize, count: usize },
    /// A column has another number of rows than the visibility mask has bits.
    LengthMismatch { column: usize, rows: usize, bits: usize },
}

/// A collection of columns with a visibility mask.
#[derive(Debug, PartialEq, Eq)]
pub struct DataChunk {
    columns: Vec<Column>,
    cardinality: usize,
    visibility: Option<Bitmap>,
}

/// The mathematical value of a chunk.
pub struct DataChunkView {
    pub columns: Seq<Seq<Datum>>,
    pub cardinality: nat,
    pub visibility: Option<Seq<bool>>,
}

impl DataChunkView {
    /// Every column has as many rows as the chunk says, and the mask, if
    /// there is one, a bit for each of them.
    pub open spec fn wf(self) -> bool {
        &&& self.columns_full()
        &&& (self.visibility matches Some(v) ==> v.len() == self.cardinality)
    }

    /// Every column has as many rows as the chunk says.
    pub open spec fn columns_full(self) -> bool {
        forall|c: int| 0 <= c < self.columns.len() ==> (#[trigger] self.columns[c]).len() == self.cardinality
    }
}

/// The rows of each column, in the order of the columns.
pub open spec fn columns_view(columns: Seq<Column>) -> Seq<Seq<Datum>> {
    Seq::new(columns.len(), |c: int| columns[c]@)
}

impl View for DataChunk {
    type V = DataChunkView;

    closed spec fn view(&self) -> DataChunkView {
        DataChunkView {
            columns: columns_view(self.columns@),
            cardinality: self.cardinality as nat,
            visibility: match self.visibility {
                Some(v) => Some(v@),
                None => None,
            },
        }
    }
}

/// The cardinalities of the first `n` chunks, added up.
pub open spec fn total_cardinality(chunks: Seq<DataChunk>, n: int) -> nat
    decreases n,
{
    if n <= 0 {
        0
    } else {
        total_cardinality(chunks, n - 1) + chunks[n - 1]@.cardinality
    }
}

/// Column `c` of the first `n` chunks, one after the other.
pub open spec fn merged_column(chunks: Seq<DataChunk>, c: int, n: int) -> Seq<Datum>
    decreases n,
{
    if n <= 0 {
        Seq::empty()
    } else {
        merged_column(chunks, c, n - 1) + chunks[n - 1]@.columns[c]
    }
}

/// How many chunks of at most `limit` rows it takes to hold `total` rows.
pub open spec fn chunk_count(total: nat, limit: nat) -> nat {
    ((total + limit - 1) / (limit as int)) as nat
}

/// Chunk `i` of what `chunks` hold when cut anew into chunks of `limit` rows:
/// the rows from `i * limit` on, `limit` of them or as many as are left, of
/// each column, without a mask.
pub open spec fn rechunked(chunks: Seq<DataChunk>, limit: nat, i: int) -> DataChunkView {
    let total = total_cardinality(chunks, chunks.len() as int);
    let start = i * limit;
    let end = if start + limit <= total {
        start + limit
    } else {
        total as int
    };
    DataChunkView {
        columns: Seq::new(
            chunks[0]@.columns.len(),
            |c: int| merged_column(chunks, c, chunks.len() as int).subrange(start, end),
        ),
        cardinality: (end - start) as nat,
        visibility: None,
    }
}

/// What `rechunk` asks of its input: chunks whose columns have as many rows
/// as the chunk says, each with at least the columns of the first, which has
/// one; and a total that leaves room for the rounding. Masks are not looked
/// at.
pub open spec fn can_rechunk(chunks: Seq<DataChunk>, limit: nat) -> bool {
    &&& limit > 0
    &&& chunks.len() > 0 ==> chunks[0]@.columns.len() > 0
    &&& forall|j: int|
        0 <= j < chunks.len() ==> (#[trigger] chunks[j])@.columns_full() && chunks[j]@.columns.len()
            >= chunks[0]@.columns.len()
    &&& total_cardinality(chunks, chunks.len() as int) + limit <= usize::MAX
}

/// The total of the first `m` chunks is no more than that of the first `n`.
pub proof fn lemma_total_monotonic(chunks: Seq<DataChunk>, m: int, n: int)
    requires
        0 <= m <= n,
    ensures
        total_cardinality(chunks, m) <= total_cardinality(chunks, n),
    decreases n - m,
{
    if m < n {
        lemma_total_monotonic(chunks, m, n - 1);
    }
}

/// A merged column has as many rows as the chunks it is made of say.
pub proof fn lemma_merged_column_len(chunks: Seq<DataChunk>, c: int, n: int)
    requires
        0 <= n <= chunks.len(),
        forall|j: int| 0 <= j < chunks.len() ==> (#[trigger] chunks[j])@.columns_full(),
        forall|j: int| 0 <= j < chunks.len() ==> 0 <= c < (#[trigger] chunks[j])@.columns.len(),
    ensures
        merged_column(chunks, c, n).len() == total_cardinality(chunks, n),
    decreases n,
{
    if n > 0 {
        lemma_merged_column_len(chunks, c, n - 1);
        assert(chunks[n - 1]@.columns_full());
    }
}

impl DataChunk {
    pub fn new(columns: Vec<Column>, cardinality: usize, visibility: Option<Bitmap>) -> (r: Self)
        ensures
            r@.columns == columns_view(columns@),
            r@.cardinality == cardinality,
            r@.visibility == match visibility {
                Some(v) => Some(v@),
                None => None,
            },
    {
        DataChunk { columns, cardinality, visibility }
    }

    /// Whether every column has as many rows as the chunk says, and the
    /// mask, if there is one, a bit for each of them.
    pub fn is_well_formed(&self) -> (b: bool)
        ensures
            b == self@.wf(),
    {
        match &self.visibility {
            Some(v) => {
                if v.len() != self.cardinality {
                    return false;
                }
            },
            None => {},
        }
        let mut c: usize = 0;
        while c < self.columns.len()
            invariant
                c <= self.columns.len(),
                forall|d: int| 0 <= d < c ==> (#[trigger] self@.columns[d]).len() == self.cardinality,
            decreases self.columns.len() - c,
        {
            if self.columns[c].array_ref().len() != self.cardinality {
                assert(self@.columns[c as int].len() != self.cardinality);
                return false;
            }
            c += 1;
        }
        true
    }

    pub fn destruct(self) -> (r: (Vec<Column>, Option<Bitmap>))
        ensures
            columns_view(r.0@) == self@.columns,
            self@.visibility == match r.1 {
                Some(v) => Some(v@),
                None => None,
            },
    {
        (self.columns, self.visibility)
    }

    pub fn dimension(&self) -> (n: usize)
        ensures
            n == self@.columns.len(),
    {
        self.columns.len()
    }

    pub fn cardinality(&self) -> (n: usize)
        ensures
            n == self@.cardinality,
    {
        self.cardinality
    }

    pub fn visibility(&self) -> (v: &Option<Bitmap>)
        ensures
            self@.visibility == match *v {
                Some(b) => Some(b@),
                None => None,
            },
    {
        &self.visibility
    }

    pub fn with_visibility(&self, visibility: Bitmap) -> (r: Self)
        ensures
            r@.columns == self@.columns,
            r@.cardinality == self@.cardinality,
            r@.visibility == Some(visibility@),
    {
        let columns = Self::clone_columns(&self.columns);
        DataChunk { columns, cardinality: self.cardinality, visibility: Some(visibility) }
    }

    pub fn get_visibility_ref(&self) -> (v: Option<&Bitmap>)
        ensures
            self@.visibility == match v {
                Some(b) => Some(b@),
                None => None,
            },
    {
        self.visibility.as_ref()
    }

    pub fn set_visibility(&mut self, visibility: Bitmap)
        ensures
            final(self)@.columns == old(self)@.columns,
            final(self)@.cardinality == old(self)@.cardinality,
            final(self)@.visibility == Some(visibility@),
    {
        self.visibility = Some(visibility);
    }

    /// A copy of column `idx`, or an error where the chunk has no such column.
    pub fn column_at(&self, idx: usize) -> (r: Result<Column, ErrorCode>)
        ensures
            idx < self@.columns.len() ==> r is Ok && r->Ok_0@ == self@.columns[idx as int],
            idx >= self@.columns.len() ==> r == Err::<Column, ErrorCode>(
                ErrorCode::InvalidArrayIndex { index: idx, count: self@.columns.len() as usize },
            ),
    {
        if idx < self.columns.len() {
            Ok(self.columns[idx].clone())
        } else {
            Err(ErrorCode::InvalidArrayIndex { index: idx, count: self.columns.len() })
        }
    }

    /// Copies of the columns that `keys` name, in the order of `keys`: the
    /// columns by which the rows of the chunk are hashed. The first index
    /// in `keys` that names no column is reported.
    pub fn key_columns(&self, keys: &[usize]) -> (r: Result<Vec<Column>, ErrorCode>)
        ensures
            match r {
                Ok(columns) => {
                    &&& columns@.len() == keys@.len()
                    &&& forall|k: int| 0 <= k < keys@.len() ==> #[trigger] keys@[k] < self@.columns.len()
                    &&& forall|k: int|
                        0 <= k < keys@.len() ==> (#[trigger] columns@[k])@
                            == self@.columns[keys@[k] as int]
                },
                Err(e) => exists|j: int|
                    {
                        &&& 0 <= j < keys@.len()
                        &&& #[trigger] keys@[j] >= self@.columns.len()
                        &&& forall|k: int| 0 <= k < j ==> #[trigger] keys@[k] < self@.columns.len()
                        &&& e == (ErrorCode::InvalidArrayIndex {
                            index: keys@[j],
                            count: self@.columns.len() as usize,
                        })
                    },
            },
    {
        let mut columns: Vec<Column> = Vec::with_capacity(keys.len());
        let mut k: usize = 0;
        while k < keys.len()
            invariant
                k <= keys@.len(),
                columns@.len() == k,
                forall|j: int| 0 <= j < k ==> #[trigger] keys@[j] < self@.columns.len(),
                forall|j: int|
                    0 <= j < k ==> keys@[j] < self@.columns.len() && (#[trigger] columns@[j])@
                        == self@.columns[keys@[j] as int],
            decreases keys@.len() - k,
        {
            let ghost before = columns@;
            match self.column_at(keys[k]) {
                Ok(column) => {
                    columns.push(column);
                    proof {
                        assert forall|j: int| 0 <= j < k + 1 implies keys@[j] < self@.columns.len()
                            && (#[trigger] columns@[j])@ == self@.columns[keys@[j] as int] by {
                            if j < k {
                                assert(columns@[j] == before[j]);
                            }
                        }
                    }
                },
                Err(e) => {
                    proof {
                        let j = k as int;
                        assert(0 <= j < keys@.len() && keys@[j] >= self@.columns.len() && (forall|
                            i: int,
                        | 0 <= i < j ==> #[trigger] keys@[i] < self@.columns.len()) && e == (
                        ErrorCode::InvalidArrayIndex {
                            index: keys@[j],
                            count: self@.columns.len() as usize,
                        }));
                    }
                    return Err(e);
                },
            }
            k += 1;
        }
        Ok(columns)
    }

    fn clone_columns(columns: &Vec<Column>) -> (r: Vec<Column>)
        ensures
            columns_view(r@) == columns_view(columns@),
    {
        let mut r: Vec<Column> = Vec::with_capacity(columns.len());
        let mut c: usize = 0;
        while c < columns.len()
            invariant
                c <= columns.len(),
                r@.len() == c,
                forall|d: int| 0 <= d < c ==> (#[trigger] r@[d])@ == columns@[d]@,
            decreases columns.len() - c,
        {
            r.push(columns[c].clone());
            c += 1;
        }
        assert(columns_view(r@) =~= columns_view(columns@));
        r
    }

    /// Converts the chunk to compact format, in which it has no mask: the
    /// rows that the mask selects are kept, in their order. A chunk without a
    /// mask is returned as it is. Where a column has another number of rows
    /// than the mask has bits, the first such column is reported.
    pub fn compact(self) -> (r: Result<Self, ErrorCode>)
        ensures
            self@.visibility is None ==> r is Ok && r->Ok_0@ == self@,
            self@.visibility matches Some(vis) ==> match r {
                Ok(c) => {
                    &&& forall|d: int| 0 <= d < self@.columns.len() ==> (#[trigger] self@.columns[d]).len() == vis.len()
                    &&& c@.visibility is None
                    &&& c@.wf()
                    &&& c@.cardinality == count_set(vis, vis.len() as int)
                    &&& c@.columns.len() == self@.columns.len()
                    &&& forall|d: int|
                        0 <= d < self@.columns.len() ==> #[trigger] c@.columns[d] == visible_rows(
                            self@.columns[d],
                            vis,
                            vis.len() as int,
                        )
                },
                Err(e) => {
                    &&& e matches ErrorCode::LengthMismatch { column, rows, bits }
                    &&& column < self@.columns.len()
                    &&& rows == self@.columns[column as int].len()
                    &&& bits == vis.len()
                    &&& rows != bits
                    &&& forall|d: int| 0 <= d < column ==> (#[trigger] self@.columns[d]).len() == vis.len()
                },
            },
    {
        match &self.visibility {
            None => Ok(self),
            Some(visibility) => {
                let cardinality = visibility.num_set();
                let mut columns: Vec<Column> = Vec::with_capacity(self.columns.len());
                let mut c: usize = 0;
                while c < self.columns.len()
                    invariant
                        c <= self.columns.len(),
                        columns@.len() == c,
                        self@.visibility == Some(visibility@),
                        forall|d: int| 0 <= d < c ==> (#[trigger] self@.columns[d]).len() == visibility@.len(),
                        forall|d: int|
                            0 <= d < c ==> (#[trigger] columns@[d])@ == visible_rows(
                                self@.columns[d],
                                visibility@,
                                visibility@.len() as int,
                            ),
                    decreases self.columns.len() - c,
                {
                    let array = self.columns[c].array_ref();
                    if array.len() != visibility.len() {
                        return Err(
                            ErrorCode::LengthMismatch {
                                column: c,
                                rows: array.len(),
                                bits: visibility.len(),
                            },
                        );
                    }
                    columns.push(Column::new(array.compact(visibility)));
                    c += 1;
                }
                let r = DataChunk { columns, cardinality, visibility: None };
                assert forall|d: int| 0 <= d < self@.columns.len() implies #[trigger] r@.columns[d]
                    == visible_rows(self@.columns[d], visibility@, visibility@.len() as int) by {
                    assert(r@.columns[d] == columns@[d]@);
                }
                assert forall|d: int| 0 <= d < r@.columns.len() implies (#[trigger] r@.columns[d]).len()
                    == r@.cardinality by {
                    lemma_visible_rows_len(self@.columns[d], visibility@, visibility@.len() as int);
                }
                Ok(r)
            },
        }
    }

    /// Cuts what `chunks` hold into chunks of `each_size_limit` rows. When
    /// the rows do not divide evenly, the last chunk holds the remainder.
    pub fn rechunk(chunks: &[DataChunk], each_size_limit: usize) -> (r: Result<
        Vec<DataChunk>,
        ErrorCode,
    >)
        requires
            can_rechunk(chunks@, each_size_limit as nat),
        ensures
            r is Ok,
            chunks@.len() == 0 ==> r->Ok_0@.len() == 0,
            chunks@.len() > 0 ==> r->Ok_0@.len() == chunk_count(
                total_cardinality(chunks@, chunks@.len() as int),
                each_size_limit as nat,
            ),
            chunks@.len() > 0 ==> forall|i: int|
                0 <= i < r->Ok_0@.len() ==> (#[trigger] r->Ok_0@[i])@ == rechunked(
                    chunks@,
                    each_size_limit as nat,
                    i,
                ),
    {
        if chunks.len() == 0 {
            return Ok(Vec::new());
        }
        let ghost all = chunks@;
        let n: usize = chunks.len();
        let mut total_cardinality: usize = 0;
        let mut j: usize = 0;
        while j < n
            invariant
                j <= n,
                n == all.len(),
                all == chunks@,
                total_cardinality == self::total_cardinality(all, j as int),
                self::total_cardinality(all, n as int) + each_size_limit <= usize::MAX,
            decreases n - j,
        {
            proof {
                lemma_total_monotonic(all, j + 1, n as int);
            }
            total_cardinality = total_cardinality + chunks[j].cardinality();
            j += 1;
        }
        let num_chunks: usize = (total_cardinality + each_size_limit - 1) / each_size_limit;
        let num_columns: usize = chunks[0].columns.len();

        // For each column, merge what all the chunks hold of it into one array.
        let mut new_arrays: Vec<I32Array> = Vec::with_capacity(num_columns);
        let mut col_idx: usize = 0;
        while col_idx < num_columns
            invariant
                col_idx <= num_columns,
                n == all.len(),
                all == chunks@,
                num_columns == all[0]@.columns.len(),
                can_rechunk(all, each_size_limit as nat),
                new_arrays@.len() == col_idx,
                forall|c: int|
                    0 <= c < col_idx ==> (#[trigger] new_arrays@[c])@ == merged_column(
                        all,
                        c,
                        n as int,
                    ),
            decreases num_columns - col_idx,
        {
            let mut array_builder = I32ArrayBuilder::new(total_cardinality);
            let mut k: usize = 0;
            while k < n
                invariant
                    k <= n,
                    n == all.len(),
                    all == chunks@,
                    col_idx < num_columns,
                    num_columns == all[0]@.columns.len(),
                    can_rechunk(all, each_size_limit as nat),
                    array_builder@ == merged_column(all, col_idx as int, k as int),
                decreases n - k,
            {
                assert(all[k as int]@.columns.len() >= num_columns);
                let each_chunk = &chunks[k];
                assert(each_chunk@.columns[col_idx as int] == each_chunk.columns@[col_idx as int]@);
                array_builder.append_array(each_chunk.columns[col_idx].array_ref());
                k += 1;
            }
            new_arrays.push(array_builder.finish());
            col_idx += 1;
        }

        proof {
            assert forall|c: int| 0 <= c < num_columns implies (#[trigger] new_arrays@[c])@.len()
                == total_cardinality by {
                assert forall|j: int| 0 <= j < all.len() implies 0 <= c < (#[trigger] all[j])@.columns.len() by {
                    assert(all[j]@.columns_full());
                }
                lemma_merged_column_len(all, c, n as int);
            }
            lemma_chunk_count(total_cardinality as nat, each_size_limit as nat);
        }

        let mut new_chunks: Vec<DataChunk> = Vec::with_capacity(num_chunks);
        let mut chunk_idx: usize = 0;
        let mut start_idx: usize = 0;
        while chunk_idx < num_chunks
            invariant
                chunk_idx <= num_chunks,
                n == all.len(),
                n > 0,
                all == chunks@,
                each_size_limit > 0,
                num_columns == all[0]@.columns.len(),
                num_columns > 0,
                num_chunks == chunk_count(total_cardinality as nat, each_size_limit as nat),
                total_cardinality == self::total_cardinality(all, n as int),
                total_cardinality + each_size_limit <= usize::MAX,
                start_idx == chunk_idx * each_size_limit,
                chunk_idx < num_chunks ==> start_idx < total_cardinality,
                new_arrays@.len() == num_columns,
                forall|c: int|
                    0 <= c < num_columns ==> (#[trigger] new_arrays@[c])@ == merged_column(
                        all,
                        c,
                        n as int,
                    ),
                forall|c: int| 0 <= c < num_columns ==> (#[trigger] new_arrays@[c])@.len() == total_cardinality,
                new_chunks@.len() == chunk_idx,
                forall|i: int|
                    0 <= i < chunk_idx ==> (#[trigger] new_chunks@[i])@ == rechunked(
                        all,
                        each_size_limit as nat,
                        i,
                    ),
            decreases num_chunks - chunk_idx,
        {
            let mut new_columns: Vec<Column> = Vec::with_capacity(num_columns);
            assert(new_arrays@[0]@.len() == total_cardinality);
            let end_idx: usize = if start_idx + each_size_limit - 1 < new_arrays[0].len() - 1 {
                start_idx + each_size_limit - 1
            } else {
                new_arrays[0].len() - 1
            };
            let mut c: usize = 0;
            while c < num_columns
                invariant
                    c <= num_columns,
                    start_idx <= end_idx < total_cardinality,
                    new_arrays@.len() == num_columns,
                    forall|d: int| 0 <= d < num_columns ==> (#[trigger] new_arrays@[d])@.len() == total_cardinality,
                    new_columns@.len() == c,
                    forall|d: int|
                        0 <= d < c ==> (#[trigger] new_columns@[d])@ == new_arrays@[d]@.subrange(
                            start_idx as int,
                            end_idx + 1,
                        ),
                decreases num_columns - c,
            {
                assert(new_arrays@[c as int]@.len() == total_cardinality);
                let column = Column::new(new_arrays[c].get_continuous_sub_array(start_idx, end_idx));
                new_columns.push(column);
                c += 1;
            }
            let cardinality: usize = end_idx - start_idx + 1;
            let new_chunk = DataChunk { columns: new_columns, cardinality, visibility: None };
            proof {
                let want = rechunked(all, each_size_limit as nat, chunk_idx as int);
                assert(new_chunk@.columns =~= want.columns);
                assert(new_chunk@.cardinality == want.cardinality);
                lemma_chunk_step(
                    total_cardinality as nat,
                    each_size_limit as nat,
                    chunk_idx as nat,
                );
            }
            new_chunks.push(new_chunk);
            chunk_idx += 1;
            start_idx = start_idx + each_size_limit;
        }
        Ok(new_chunks)
    }
}

/// With `chunk_count` chunks of `limit` rows, the last chunk starts inside the
/// rows and no further chunk would.
pub proof fn lemma_chunk_count(total: nat, limit: nat)
    requires
        limit > 0,
    ensures
        total > 0 ==> chunk_count(total, limit) > 0,
        total == 0 ==> chunk_count(total, limit) == 0,
        forall|i: nat| i < chunk_count(total, limit) ==> #[trigger] (i * limit) < total,
        chunk_count(total, limit) * limit >= total,
{
    let n = chunk_count(total, limit);
    assert(n * limit >= total && (n > 0 ==> (n - 1) * limit < total) && (total > 0 ==> n > 0) && (total == 0 ==> n == 0)) by (nonlinear_arith)
        requires
            limit > 0,
            n == (total + limit - 1) / (limit as int),
    ;
    assert forall|i: nat| i < n implies #[trigger] (i * limit) < total by {
        assert(i * limit <= (n - 1) * limit) by (nonlinear_arith)
            requires
                i <= n - 1,
                limit > 0,
        ;
    }
}

/// The chunk after chunk `i` starts `limit` rows further on, inside the rows
/// if it is one of the `chunk_count` chunks.
pub proof fn lemma_chunk_step(total: nat, limit: nat, i: nat)
    requires
        limit > 0,
        i < chunk_count(total, limit),
    ensures
        (i + 1) * limit == i * limit + limit,
        i + 1 < chunk_count(total, limit) ==> (i + 1) * limit < total,
{
    lemma_chunk_count(total, limit);
    assert((i + 1) * limit == i * limit + limit) by (nonlinear_arith);
    if i + 1 < chunk_count(total, limit) {
        let j: nat = i + 1;
        assert(j * limit < total);
    }
}

} // verus!
