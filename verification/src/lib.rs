//! Key-value iterators of an LSM-tree storage engine, with their behaviour
//! stated as contracts and proved.
//!
//! Keys carry a version: a user key and an epoch, ordered by user key and
//! then by epoch, newest first ([`key`]). Sorted tables hold entries in
//! blocks and live in a store ([`sstable`]). An iterator walks one table
//! ([`sstable`], [`sstable_backward`]), a run of tables that do not overlap
//! ([`run`], [`iterator::concat_inner`]), or several iterators merged into
//! one stream ([`iterator::merge_inner`]); all of them follow one protocol
//! ([`iterator`]). Compaction writes such a stream out as new tables
//! ([`compactor`]).
//!
//! Beside these stand chunks of rows ([`data_chunk`], [`array`]) and the
//! values that the dashboard shows ([`dashboard`]).

pub mod array;
pub mod compactor;
pub mod dashboard;
pub mod data_chunk;
pub mod error;
pub mod iterator;
pub mod key;
pub mod monitor;
pub mod run;
pub mod sstable;
pub mod sstable_backward;
pub mod value;
