use rtcdb::scan::{index_step, read_column_block, IndexStep};
use rtcdb::{create_readers, create_writers, read_all, write_blocks};
use rtcdb::{ColumnMetaData, ColumnReader, DType, DValue, IndexEntry, IndexValue};
use rtcdb::{StoreError, TableMetaData};

fn pairs() -> TableMetaData {
    TableMetaData::new(
        "pairs",
        vec![ColumnMetaData::new("name", DType::String), ColumnMetaData::new("n", DType::Uint64)],
    )
}

fn written(rows: u64, per_block: usize) -> Vec<(Vec<u8>, Vec<u8>)> {
    let table = pairs();
    let rows: Vec<Vec<DValue>> = (0..rows)
        .map(|i| vec![DValue::String(format!("name {}", i)), DValue::Uint64(i)])
        .collect();
    let mut writers = create_writers(&table, &vec![0, 0]);
    write_blocks(&table, &rows, &mut writers, per_block).unwrap();
    writers.into_iter().map(|w| (w.data, w.index)).collect()
}

fn scan_of(files: Vec<(Vec<u8>, Vec<u8>)>) -> Result<Vec<Vec<DValue>>, StoreError> {
    let table = pairs();
    let readers = create_readers(&table.columns, files);
    read_all(&table, &readers)
}

fn format_error(column: &str, offset: u64) -> StoreError {
    StoreError::FormatError { column: column.to_string(), offset }
}

fn compression_error(column: &str, offset: u64) -> StoreError {
    StoreError::CompressionError { column: column.to_string(), offset }
}

/// The files of one column whose only block is stored as `block` and
/// described by `entry`.
fn one_block(entry: IndexEntry, block: Vec<u8>) -> (Vec<u8>, Vec<u8>) {
    (block, entry.to_bytes().to_vec())
}

#[test]
fn an_index_file_that_ends_within_a_record_is_a_format_error() {
    let mut files = written(5, 2);
    files[1].1.truncate(2 * 40 + 39);
    assert_eq!(scan_of(files), Err(format_error("n", 80)));
    let mut files = written(5, 2);
    files[0].1.push(0);
    files[1].1.push(0);
    assert_eq!(scan_of(files), Err(format_error("name", 120)));
}

#[test]
fn an_index_file_that_ends_before_the_others_is_a_format_error() {
    let mut files = written(5, 2);
    files[0].1.truncate(40);
    assert_eq!(scan_of(files), Err(format_error("name", 40)));
    let mut files = written(5, 2);
    files[1].1.clear();
    assert_eq!(scan_of(files), Err(format_error("n", 0)));
}

#[test]
fn index_files_that_end_together_end_the_scan() {
    let mut files = written(5, 2);
    files[0].1.truncate(80);
    files[1].1.truncate(80);
    let rows = scan_of(files).unwrap();
    assert_eq!(rows.len(), 4);
    assert_eq!(rows[3], vec![DValue::String("name 3".to_string()), DValue::Uint64(3)]);
}

#[test]
fn the_index_files_are_stepped_in_lockstep() {
    let table = pairs();
    let mut files = written(5, 2);
    files[1].1.truncate(100);
    let readers = create_readers(&table.columns, files);
    assert_eq!(index_step(&readers, 0), IndexStep::Block);
    assert_eq!(index_step(&readers, 1), IndexStep::Block);
    assert_eq!(index_step(&readers, 2), IndexStep::Torn(1));
    // Behind the last record of the first column, that column is the first to lack one.
    assert_eq!(index_step(&readers, 3), IndexStep::Torn(0));
    assert_eq!(index_step(&readers, usize::MAX), IndexStep::Torn(0));
    assert_eq!(index_step(&Vec::new(), 5), IndexStep::End);
}

#[test]
fn a_block_outside_the_data_file_is_a_format_error() {
    let mut files = written(5, 2);
    files[1].0.pop();
    // The last block of the column no longer lies within its data file.
    assert_eq!(scan_of(files), Err(format_error("n", 80)));
    let column = ColumnMetaData::new("n", DType::Uint64);
    let entry = IndexEntry {
        start_position: u64::MAX,
        compressed_size: 2,
        decompressed_size: 8,
        min: IndexValue::Uint64(0),
        max: IndexValue::Uint64(0),
    };
    let (data, index) = one_block(entry, vec![0; 16]);
    let reader = ColumnReader { data, index };
    assert_eq!(read_column_block(&column, &reader, 0), Err(format_error("n", 0)));
}

#[test]
fn a_block_that_does_not_decompress_is_a_compression_error() {
    let mut files = written(5, 2);
    let column = ColumnMetaData::new("n", DType::Uint64);
    let reader = ColumnReader { data: files[1].0.clone(), index: files[1].1.clone() };
    let second = rtcdb::scan::read_record(&column, &reader, 1);
    // An offset of zero is no valid match: put one behind the first token.
    let at = second.start_position as usize;
    files[1].0[at] = 0x00;
    files[1].0[at + 1] = 0x00;
    files[1].0[at + 2] = 0x00;
    assert_eq!(scan_of(files), Err(compression_error("n", second.start_position)));
}

#[test]
fn a_block_with_a_long_run_of_ones_is_a_compression_error() {
    let column = ColumnMetaData::new("n", DType::Uint64);
    let size = rtcdb::lz4::MAX_LENGTH_RUN + 3;
    let entry = IndexEntry {
        start_position: 1,
        compressed_size: size as u64,
        decompressed_size: 8,
        min: IndexValue::Uint64(0),
        max: IndexValue::Uint64(0),
    };
    let (data, index) = one_block(entry, vec![0xff; size + 1]);
    let reader = ColumnReader { data, index };
    assert_eq!(read_column_block(&column, &reader, 0), Err(compression_error("n", 1)));
}

#[test]
fn a_block_of_another_size_than_announced_is_a_format_error() {
    let column = ColumnMetaData::new("n", DType::Uint64);
    let payload = vec![0u8, 0, 0, 0, 0, 0, 0, 9];
    let block = rtcdb::block::compress_column(&payload).unwrap();
    let entry = IndexEntry {
        start_position: 0,
        compressed_size: block.len() as u64,
        decompressed_size: 16,
        min: IndexValue::Uint64(9),
        max: IndexValue::Uint64(9),
    };
    let (data, index) = one_block(entry, block.clone());
    let reader = ColumnReader { data, index };
    assert_eq!(read_column_block(&column, &reader, 0), Err(format_error("n", 0)));
    // Announced as it is, the block is read.
    let entry = IndexEntry { decompressed_size: 8, ..entry };
    let (data, index) = one_block(entry, block);
    let reader = ColumnReader { data, index };
    assert_eq!(read_column_block(&column, &reader, 0), Ok(vec![DValue::Uint64(9)]));
}

#[test]
fn an_absurd_announced_size_is_a_format_error() {
    let column = ColumnMetaData::new("n", DType::Uint64);
    let payload = vec![0u8, 0, 0, 0, 0, 0, 0, 9];
    let block = rtcdb::block::compress_column(&payload).unwrap();
    let entry = IndexEntry {
        start_position: 0,
        compressed_size: block.len() as u64,
        decompressed_size: u64::MAX,
        min: IndexValue::Uint64(9),
        max: IndexValue::Uint64(9),
    };
    let (data, index) = one_block(entry, block);
    let reader = ColumnReader { data, index };
    assert_eq!(read_column_block(&column, &reader, 0), Err(format_error("n", 0)));
}

#[test]
fn a_payload_that_is_not_made_of_cells_is_a_format_error() {
    let column = ColumnMetaData::new("name", DType::String);
    // A length prefix of five with three bytes behind it.
    let payload = vec![0u8, 0, 0, 5, b'a', b'b', b'c'];
    let block = rtcdb::block::compress_column(&payload).unwrap();
    let entry = IndexEntry {
        start_position: 0,
        compressed_size: block.len() as u64,
        decompressed_size: payload.len() as u64,
        min: IndexValue::String([0; 8]),
        max: IndexValue::String([0; 8]),
    };
    let (data, index) = one_block(entry, block);
    let reader = ColumnReader { data, index };
    assert_eq!(read_column_block(&column, &reader, 0), Err(format_error("name", 0)));
}

#[test]
fn columns_of_different_length_are_a_format_error() {
    // Two writes with different block sizes: three rows in the first block
    // of one column, two in the first block of the other.
    let by_three = written(6, 3);
    let by_two = written(6, 2);
    let files = vec![by_three[0].clone(), (by_two[1].0.clone(), by_two[1].1[..80].to_vec())];
    assert_eq!(scan_of(files), Err(format_error("n", 0)));
}
