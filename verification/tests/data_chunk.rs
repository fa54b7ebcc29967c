use hummock::array::{Bitmap, Column, I32ArrayBuilder};
use hummock::data_chunk::{DataChunk, ErrorCode};

fn column_of(values: &[i32]) -> Column {
    let mut builder = I32ArrayBuilder::new(values.len());
    for v in values {
        builder.append(Some(*v));
    }
    Column::new(builder.finish())
}

#[test]
fn test_rechunk() {
    let num_chunks: usize = 10;
    let chunk_size: usize = 60;
    let mut chunks = vec![];
    for chunk_idx in 0..num_chunks {
        let mut builder = I32ArrayBuilder::new(0);
        for i in chunk_size * chunk_idx..chunk_size * (chunk_idx + 1) {
            builder.append(Some(i as i32));
        }
        let chunk = DataChunk::new(vec![Column::new(builder.finish())], chunk_size, None);
        chunks.push(chunk);
    }

    let total_card: usize = num_chunks * chunk_size;
    let new_chunk_size: usize = 80;
    let chunk_sizes: Vec<usize> = vec![80, 80, 80, 80, 80, 80, 80, 40];
    let new_chunks = DataChunk::rechunk(&chunks, new_chunk_size).unwrap();
    assert_eq!(new_chunks.len(), chunk_sizes.len());
    // check cardinality
    for (idx, chunk_size) in chunk_sizes.iter().enumerate() {
        assert_eq!(*chunk_size, new_chunks[idx].cardinality());
    }

    let mut chunk_idx: usize = 0;
    let mut cur_idx: usize = 0;
    for val in 0..total_card {
        if cur_idx >= chunk_sizes[chunk_idx] {
            cur_idx = 0;
            chunk_idx += 1;
        }
        assert_eq!(
            new_chunks[chunk_idx]
                .column_at(0)
                .unwrap()
                .array()
                .value_at(cur_idx)
                .unwrap(),
            val as i32
        );
        cur_idx += 1;
    }
}

#[test]
fn rechunk_of_nothing_is_nothing() {
    let chunks: Vec<DataChunk> = vec![];
    let new_chunks = DataChunk::rechunk(&chunks, 5).unwrap();
    assert!(new_chunks.is_empty());
}

#[test]
fn rechunk_keeps_every_column() {
    let a = DataChunk::new(vec![column_of(&[1, 2, 3]), column_of(&[10, 20, 30])], 3, None);
    let b = DataChunk::new(vec![column_of(&[4, 5]), column_of(&[40, 50])], 2, None);
    let out = DataChunk::rechunk(&[a, b], 2).unwrap();
    assert_eq!(out.len(), 3);
    assert_eq!(out[0].cardinality(), 2);
    assert_eq!(out[1].cardinality(), 2);
    assert_eq!(out[2].cardinality(), 1);
    assert_eq!(out[0].dimension(), 2);
    assert_eq!(out[1].column_at(0).unwrap(), column_of(&[3, 4]));
    assert_eq!(out[1].column_at(1).unwrap(), column_of(&[30, 40]));
    assert_eq!(out[2].column_at(1).unwrap(), column_of(&[50]));
    assert!(out[2].visibility().is_none());
}

#[test]
fn compact_keeps_visible_rows() {
    let chunk = DataChunk::new(
        vec![column_of(&[1, 2, 3, 4]), column_of(&[5, 6, 7, 8])],
        4,
        Some(Bitmap::new(vec![true, false, false, true])),
    );
    assert!(chunk.is_well_formed());
    let compacted = chunk.compact().unwrap();
    assert_eq!(compacted.cardinality(), 2);
    assert!(compacted.get_visibility_ref().is_none());
    assert_eq!(compacted.column_at(0).unwrap(), column_of(&[1, 4]));
    assert_eq!(compacted.column_at(1).unwrap(), column_of(&[5, 8]));
}

#[test]
fn compact_without_mask_changes_nothing() {
    let chunk = DataChunk::new(vec![column_of(&[1, 2])], 2, None);
    let compacted = chunk.compact().unwrap();
    assert_eq!(compacted.cardinality(), 2);
    assert_eq!(compacted.column_at(0).unwrap(), column_of(&[1, 2]));
}

#[test]
fn compact_reports_a_column_of_another_length() {
    let chunk = DataChunk::new(
        vec![column_of(&[1, 2]), column_of(&[1, 2, 3])],
        2,
        Some(Bitmap::new(vec![true, false])),
    );
    assert!(!chunk.is_well_formed());
    assert_eq!(
        chunk.compact().unwrap_err(),
        ErrorCode::LengthMismatch { column: 1, rows: 3, bits: 2 }
    );
}

#[test]
fn column_at_outside_the_chunk_is_an_error() {
    let chunk = DataChunk::new(vec![column_of(&[1])], 1, None);
    assert_eq!(
        chunk.column_at(3).unwrap_err(),
        ErrorCode::InvalidArrayIndex { index: 3, count: 1 }
    );
}

#[test]
fn visibility_can_be_set_and_read() {
    let mut chunk = DataChunk::new(vec![column_of(&[1, 2])], 2, None);
    assert!(chunk.visibility().is_none());
    chunk.set_visibility(Bitmap::new(vec![false, true]));
    assert_eq!(chunk.get_visibility_ref().unwrap().len(), 2);
    let other = chunk.with_visibility(Bitmap::new(vec![true, true]));
    assert!(other.get_visibility_ref().unwrap().is_set(0));
    assert!(!chunk.get_visibility_ref().unwrap().is_set(0));
    let (columns, visibility) = other.destruct();
    assert_eq!(columns.len(), 1);
    assert_eq!(visibility.unwrap().num_set(), 2);
}
