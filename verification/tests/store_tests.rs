use rtcdb::block::{compress_column, decode_values, decompress_column, is_readable};
use rtcdb::block::{largest_payload_of, sealed_block};
use rtcdb::lz4::MAX_LENGTH_RUN;
use rtcdb::storage::is_rectangular;
use rtcdb::scan::{index_step, read_column_block, read_record, IndexStep};
use rtcdb::storage::write_block;
use rtcdb::{create_readers, create_writers, read_all, scan, write_blocks, write_data};
use rtcdb::{ColumnMetaData, ColumnReader, ColumnWriter, DType, DValue, IndexValue};
use rtcdb::{StoreError, TableMetaData, ROWS_PER_BLOCK};

fn events() -> TableMetaData {
    TableMetaData::new(
        "events",
        vec![
            ColumnMetaData::new("event", DType::String),
            ColumnMetaData::new("timestamp", DType::Uint64),
            ColumnMetaData::new("id", DType::Uint64),
        ],
    )
}

fn row(event: &str, timestamp: u64, id: u64) -> Vec<DValue> {
    vec![DValue::String(event.to_string()), DValue::Uint64(timestamp), DValue::Uint64(id)]
}

fn fresh(table: &TableMetaData) -> Vec<ColumnWriter> {
    create_writers(table, &vec![0; table.columns.len()])
}

fn readers_of(table: &TableMetaData, writers: Vec<ColumnWriter>) -> Vec<ColumnReader> {
    create_readers(&table.columns, writers.into_iter().map(|w| (w.data, w.index)).collect())
}

fn numbered(n: u64) -> Vec<Vec<DValue>> {
    (0..n).map(|i| row(&format!("event-{}", i % 7), 1_000 + i, n - i)).collect()
}

#[test]
fn two_rows_round_trip() {
    let table = events();
    let rows = vec![row("test", 123, 456), row("test2", 1234, 4567)];
    let mut writers = fresh(&table);
    assert_eq!(write_data(&table, &rows, &mut writers), Ok(()));
    let readers = readers_of(&table, writers);
    assert_eq!(read_all(&table, &readers), Ok(rows));
}

#[test]
fn rows_of_many_blocks_round_trip_in_order() {
    let table = events();
    let rows = numbered(23);
    let mut writers = fresh(&table);
    write_blocks(&table, &rows, &mut writers, 4).unwrap();
    for w in &writers {
        assert_eq!(w.index.len(), 6 * 40);
        assert_eq!(w.position, w.data.len() as u64);
    }
    let readers = readers_of(&table, writers);
    assert_eq!(read_all(&table, &readers).unwrap(), rows);
}

#[test]
fn texts_with_null_bytes_and_long_texts_round_trip() {
    let table = events();
    let long = "x".repeat(100_000);
    let rows = vec![
        row("", 0, u64::MAX),
        row("a\u{0}b\u{0}", u64::MAX, 0),
        row(&long, 1, 1),
        row("héllo wörld ☃", 2, 2),
    ];
    let mut writers = fresh(&table);
    write_blocks(&table, &rows, &mut writers, 3).unwrap();
    let readers = readers_of(&table, writers);
    assert_eq!(read_all(&table, &readers).unwrap(), rows);
}

#[test]
fn a_block_of_many_megabytes_round_trips() {
    let table = TableMetaData::new("blobs", vec![ColumnMetaData::new("blob", DType::String)]);
    // Text that hardly compresses: the digits of a simple generator.
    let mut state: u64 = 0x2545_f491_4f6c_dd1d;
    let mut blob = String::with_capacity(12 << 20);
    while blob.len() < 12 << 20 {
        state ^= state << 13;
        state ^= state >> 7;
        state ^= state << 17;
        blob.push((b'!' + (state % 90) as u8) as char);
    }
    let rows = vec![vec![DValue::String(blob)]];
    let mut writers = fresh(&table);
    write_data(&table, &rows, &mut writers).unwrap();
    assert!(writers[0].data.len() > 9 << 20);
    let readers = readers_of(&table, writers);
    assert_eq!(read_all(&table, &readers).unwrap(), rows);
}

#[test]
fn a_second_write_appends_behind_the_first() {
    let table = events();
    let first = numbered(5);
    let second = vec![row("late", 9, 9), row("later", 10, 10)];
    let mut writers = fresh(&table);
    write_blocks(&table, &first, &mut writers, 2).unwrap();
    let files: Vec<(Vec<u8>, Vec<u8>)> = writers.into_iter().map(|w| (w.data, w.index)).collect();

    // New writers resume where the data files end.
    let lengths: Vec<u64> = files.iter().map(|f| f.0.len() as u64).collect();
    let mut writers = create_writers(&table, &lengths);
    write_blocks(&table, &second, &mut writers, 2).unwrap();
    let grown: Vec<(Vec<u8>, Vec<u8>)> = files
        .into_iter()
        .zip(writers)
        .map(|((mut data, mut index), w)| {
            assert_eq!(w.position, (data.len() + w.data.len()) as u64);
            data.extend_from_slice(&w.data);
            index.extend_from_slice(&w.index);
            (data, index)
        })
        .collect();
    let readers = create_readers(&table.columns, grown);
    let mut all = first;
    all.extend(second);
    assert_eq!(read_all(&table, &readers).unwrap(), all);
}

#[test]
fn a_subset_of_the_columns_can_be_scanned() {
    let table = events();
    let rows = numbered(9);
    let mut writers = fresh(&table);
    write_blocks(&table, &rows, &mut writers, 4).unwrap();
    let mut files: Vec<(Vec<u8>, Vec<u8>)> =
        writers.into_iter().map(|w| (w.data, w.index)).collect();
    let id = files.pop().unwrap();
    let event = files.swap_remove(0);
    let columns = vec![table.columns[2].clone(), table.columns[0].clone()];
    let readers = create_readers(&columns, vec![id, event]);
    let expected: Vec<Vec<DValue>> =
        rows.iter().map(|r| vec![r[2].clone(), r[0].clone()]).collect();
    assert_eq!(scan(&columns, &readers).unwrap(), expected);
}

#[test]
fn blocks_are_cut_every_1024_rows() {
    let table = events();
    let rows = numbered(2049);
    let mut writers = fresh(&table);
    write_data(&table, &rows, &mut writers).unwrap();
    assert_eq!(ROWS_PER_BLOCK, 1024);
    for w in &writers {
        assert_eq!(w.index.len(), 3 * 40);
    }
    let readers = readers_of(&table, writers);
    for (column, reader) in table.columns.iter().zip(&readers) {
        let counts: Vec<usize> =
            (0..3).map(|k| read_column_block(column, reader, k).unwrap().len()).collect();
        assert_eq!(counts, vec![1024, 1024, 1]);
    }
    assert_eq!(index_step(&readers, 2), IndexStep::Block);
    assert_eq!(index_step(&readers, 3), IndexStep::End);
    assert_eq!(read_all(&table, &readers).unwrap(), rows);
}

#[test]
fn a_full_last_block_is_not_followed_by_an_empty_one() {
    let table = events();
    let rows = numbered(6);
    let mut writers = fresh(&table);
    write_blocks(&table, &rows, &mut writers, 3).unwrap();
    for w in &writers {
        assert_eq!(w.index.len(), 2 * 40);
    }
    let mut writers = fresh(&table);
    write_blocks(&table, &rows, &mut writers, 6).unwrap();
    assert_eq!(writers[0].index.len(), 40);
    let mut writers = fresh(&table);
    write_blocks(&table, &rows, &mut writers, 7).unwrap();
    assert_eq!(writers[0].index.len(), 40);
    let mut writers = fresh(&table);
    write_blocks(&table, &rows, &mut writers, 1).unwrap();
    assert_eq!(writers[0].index.len(), 6 * 40);
}

#[test]
fn an_empty_write_adds_nothing() {
    let table = events();
    let mut writers = create_writers(&table, &vec![11, 22, 33]);
    assert_eq!(write_data(&table, &Vec::new(), &mut writers), Ok(()));
    for (w, at) in writers.iter().zip([11u64, 22, 33]) {
        assert_eq!(w.position, at);
        assert!(w.data.is_empty());
        assert!(w.index.is_empty());
    }
    let readers = readers_of(&table, fresh(&table));
    assert_eq!(read_all(&table, &readers), Ok(Vec::new()));
}

#[test]
fn index_records_hold_offsets_sizes_and_exact_integer_bounds() {
    let table = events();
    let rows = vec![
        row("pear", 50, 7),
        row("apple", 20, 9),
        row("quince", 90, 8),
        row("fig", u64::MAX, 0),
        row("banana", 3, 3),
    ];
    let mut writers = create_writers(&table, &vec![100, 200, 300]);
    write_blocks(&table, &rows, &mut writers, 3).unwrap();

    let timestamp = ColumnReader { data: writers[1].data.clone(), index: writers[1].index.clone() };
    let first = read_record(&table.columns[1], &timestamp, 0);
    let second = read_record(&table.columns[1], &timestamp, 1);
    assert_eq!(first.start_position, 200);
    assert_eq!(first.decompressed_size, 3 * 8);
    assert_eq!(second.start_position, 200 + first.compressed_size);
    assert_eq!(second.decompressed_size, 2 * 8);
    assert_eq!(first.compressed_size + second.compressed_size, timestamp.data.len() as u64);
    assert_eq!(writers[1].position, 200 + timestamp.data.len() as u64);
    assert_eq!((first.min, first.max), (IndexValue::Uint64(20), IndexValue::Uint64(90)));
    assert_eq!((second.min, second.max), (IndexValue::Uint64(3), IndexValue::Uint64(u64::MAX)));

    let id = ColumnReader { data: writers[2].data.clone(), index: writers[2].index.clone() };
    let first = read_record(&table.columns[2], &id, 0);
    assert_eq!((first.min, first.max), (IndexValue::Uint64(7), IndexValue::Uint64(9)));
}

#[test]
fn index_records_hold_the_prefixes_of_the_text_bounds() {
    let table = events();
    let rows = vec![
        row("pomegranate seeds", 1, 1),
        row("apple", 2, 2),
        row("pomegranate", 3, 3),
        row("applesauce", 4, 4),
        row("Zucchini", 5, 5),
    ];
    let mut writers = fresh(&table);
    write_blocks(&table, &rows, &mut writers, 4).unwrap();
    let event = ColumnReader { data: writers[0].data.clone(), index: writers[0].index.clone() };
    let first = read_record(&table.columns[0], &event, 0);
    // The bounds are found on the whole texts, then cut to eight bytes.
    assert_eq!(first.min, IndexValue::String([b'a', b'p', b'p', b'l', b'e', 0, 0, 0]));
    assert_eq!(first.max, IndexValue::String(*b"pomegran"));
    assert_eq!(first.decompressed_size, (4 + 17) + (4 + 5) + (4 + 11) + (4 + 10));
    let second = read_record(&table.columns[0], &event, 1);
    assert_eq!(second.min, IndexValue::String(*b"Zucchini"));
    assert_eq!(second.max, IndexValue::String(*b"Zucchini"));
}

#[test]
fn a_value_of_the_wrong_type_fails_the_write() {
    let table = events();
    let rows = vec![vec![
        DValue::String("test".to_string()),
        DValue::String("not a number".to_string()),
        DValue::Uint64(1),
    ]];
    let mut writers = fresh(&table);
    assert_eq!(
        write_data(&table, &rows, &mut writers),
        Err(StoreError::SchemaMismatch {
            column: "timestamp".to_string(),
            expected: DType::Uint64,
            found: DType::String,
        })
    );
    for w in &writers {
        assert_eq!(w.position, 0);
        assert!(w.data.is_empty());
        assert!(w.index.is_empty());
    }
}

#[test]
fn blocks_before_the_offending_block_stay_flushed() {
    let table = events();
    let mut rows = numbered(5);
    rows[4][2] = DValue::String("five".to_string());
    let mut writers = fresh(&table);
    assert_eq!(
        write_blocks(&table, &rows, &mut writers, 2),
        Err(StoreError::SchemaMismatch {
            column: "id".to_string(),
            expected: DType::Uint64,
            found: DType::String,
        })
    );
    for w in &writers {
        assert_eq!(w.index.len(), 2 * 40);
        assert_eq!(w.position, w.data.len() as u64);
    }
    let readers = readers_of(&table, writers);
    assert_eq!(read_all(&table, &readers).unwrap(), rows[..4].to_vec());
}

#[test]
fn the_first_column_with_a_fault_is_named() {
    let table = events();
    // Row 0 is wrong in the last column, row 1 in the first: the columns are
    // gone through in their order, so the first column is named.
    let rows = vec![
        vec![
            DValue::String("a".to_string()),
            DValue::Uint64(1),
            DValue::String("x".to_string()),
        ],
        vec![DValue::Uint64(0), DValue::Uint64(2), DValue::Uint64(3)],
    ];
    let mut writers = fresh(&table);
    assert_eq!(
        write_data(&table, &rows, &mut writers),
        Err(StoreError::SchemaMismatch {
            column: "event".to_string(),
            expected: DType::String,
            found: DType::Uint64,
        })
    );
    let mut writers = fresh(&table);
    assert_eq!(
        write_block(&table, &rows, 0, 1, &mut writers),
        Err(StoreError::SchemaMismatch {
            column: "id".to_string(),
            expected: DType::Uint64,
            found: DType::String,
        })
    );
}

#[test]
fn a_block_that_would_end_beyond_the_last_offset_is_refused() {
    let table = events();
    let rows = numbered(3);
    let mut writers = create_writers(&table, &vec![0, u64::MAX - 3, 0]);
    assert_eq!(
        write_blocks(&table, &rows, &mut writers, 2),
        Err(StoreError::CompressionError { column: "timestamp".to_string(), offset: u64::MAX - 3 })
    );
    // No column has taken the block.
    for w in &writers {
        assert!(w.data.is_empty());
        assert!(w.index.is_empty());
    }
}

#[test]
fn a_table_without_columns_takes_rows_and_keeps_none() {
    let table = TableMetaData::new("empty", Vec::new());
    let rows: Vec<Vec<DValue>> = vec![Vec::new(), Vec::new()];
    let mut writers = Vec::new();
    assert_eq!(write_data(&table, &rows, &mut writers), Ok(()));
    assert_eq!(read_all(&table, &Vec::new()), Ok(Vec::new()));
}

#[test]
fn compression_round_trips_and_changes_the_bytes() {
    let payload: Vec<u8> = (0..10_000u32).map(|i| (i % 13) as u8).collect();
    let block = compress_column(&payload).unwrap();
    assert!(block.len() < payload.len());
    assert_ne!(block, payload);
    assert_eq!(decompress_column(&block, payload.len()), Some(payload.clone()));
    // A buffer that is too small is the decompressor's error.
    assert_eq!(decompress_column(&block, payload.len() - 1), None);
    // A buffer that is too large is filled in part only.
    assert_eq!(decompress_column(&block, payload.len() + 5), Some(payload));
    let short = vec![1u8, 2, 3];
    let block = compress_column(&short).unwrap();
    assert_eq!(decompress_column(&block, 3), Some(short));
    let block = compress_column(&Vec::new()).unwrap();
    assert_eq!(decompress_column(&block, 0), Some(Vec::new()));
}

#[test]
fn payloads_of_every_small_size_round_trip_into_an_exact_buffer() {
    let mut state: u32 = 12345;
    for len in 0..400usize {
        // Three kinds of payload: all equal, a short period, and noise.
        let equal = vec![len as u8; len];
        let period: Vec<u8> = (0..len).map(|i| (i % 5) as u8).collect();
        let noise: Vec<u8> = (0..len)
            .map(|_| {
                state = state.wrapping_mul(1_103_515_245).wrapping_add(12345);
                (state >> 16) as u8
            })
            .collect();
        for payload in [equal, period, noise] {
            let block = compress_column(&payload).unwrap();
            assert!(payload.len() <= largest_payload_of(block.len()));
            assert_eq!(decompress_column(&block, payload.len()), Some(payload));
        }
    }
}

#[test]
fn a_highly_compressible_payload_round_trips() {
    let payload = vec![0u8; 1 << 20];
    let block = compress_column(&payload).unwrap();
    assert!(block.len() * 255 >= payload.len());
    assert_eq!(decompress_column(&block, payload.len()), Some(payload));
}

#[test]
fn what_the_compressor_leaves_is_cut_to_what_it_wrote() {
    let output = vec![1u8, 2, 3, 4, 5];
    assert_eq!(sealed_block(Ok(3), output.clone(), 9), Some(vec![1, 2, 3]));
    assert_eq!(sealed_block(Ok(0), output.clone(), 0), Some(Vec::new()));
    assert_eq!(sealed_block(Ok(5), output.clone(), 5 * 255), Some(output.clone()));
    // More bytes than the buffer has.
    assert_eq!(sealed_block(Ok(6), output.clone(), 9), None);
    // Fewer bytes than can stand for the payload.
    assert_eq!(sealed_block(Ok(0), output.clone(), 1), None);
    assert_eq!(sealed_block(Ok(5), output.clone(), 5 * 255 + 1), None);
    assert_eq!(
        sealed_block(Err(lz4_flex::block::CompressError::OutputTooSmall), output, 9),
        None
    );
    // A run of bytes 0xFF that the decompressor could not add up.
    let mut run = vec![0xffu8; MAX_LENGTH_RUN + 2];
    run[0] = 1;
    assert_eq!(sealed_block(Ok(MAX_LENGTH_RUN + 1), run.clone(), 9), None);
    assert_eq!(
        sealed_block(Ok(MAX_LENGTH_RUN), run, 9).map(|b| b.len()),
        Some(MAX_LENGTH_RUN)
    );
}

#[test]
fn a_compressed_block_fits_in_the_buffer_that_the_compressor_asks_for() {
    for len in [0usize, 1, 12, 13, 100, 4096] {
        // Noise does not compress: the block is longer than the payload.
        let mut state: u32 = 7;
        let noise: Vec<u8> = (0..len)
            .map(|_| {
                state = state.wrapping_mul(1_664_525).wrapping_add(1_013_904_223);
                (state >> 24) as u8
            })
            .collect();
        let block = compress_column(&noise).unwrap();
        assert!(block.len() >= len);
        assert!(block.len() <= 20 + len * 110 / 100);
    }
}

#[test]
fn a_block_with_a_long_run_of_ones_cannot_be_read() {
    assert!(is_readable(&[]));
    assert!(is_readable(&[0xff, 0xff, 0, 0xff]));
    assert!(is_readable(&vec![0xffu8; MAX_LENGTH_RUN - 1]));
    assert!(!is_readable(&vec![0xffu8; MAX_LENGTH_RUN]));
    let mut block = vec![0xffu8; 2 * MAX_LENGTH_RUN + 5];
    assert!(!is_readable(&block));
    // Cut into runs that are one byte short.
    block[MAX_LENGTH_RUN - 1] = 0xfe;
    block[2 * MAX_LENGTH_RUN - 1] = 0;
    assert!(is_readable(&block));
    block[MAX_LENGTH_RUN - 1] = 0xff;
    assert!(!is_readable(&block));
    assert_eq!(decompress_column(&block, 16), None);
    let mut tail = vec![7u8; 100];
    tail.extend(vec![0xffu8; MAX_LENGTH_RUN]);
    assert!(!is_readable(&tail));
    tail.pop();
    assert!(is_readable(&tail));
}

#[test]
fn the_largest_payload_is_255_times_the_block() {
    assert_eq!(largest_payload_of(0), 0);
    assert_eq!(largest_payload_of(1), 255);
    assert_eq!(largest_payload_of(1000), 255_000);
    assert_eq!(largest_payload_of(usize::MAX), usize::MAX / 2);
    assert_eq!(largest_payload_of(usize::MAX / 255), usize::MAX / 2);
    assert_eq!(largest_payload_of(usize::MAX / 510), usize::MAX / 510 * 255);
}

#[test]
fn rows_are_measured_against_the_table() {
    let rows = numbered(3);
    assert!(is_rectangular(&rows, 3));
    assert!(!is_rectangular(&rows, 2));
    assert!(is_rectangular(&Vec::new(), 5));
    let mut ragged = numbered(3);
    ragged[1].pop();
    assert!(!is_rectangular(&ragged, 3));
}

#[test]
fn garbage_is_not_decompressed() {
    // A token that announces 15 + 255 + ... literals with nothing behind it.
    assert_eq!(decompress_column(&[0xf0, 0xff], 64), None);
    // A match that reaches back before the start of the output.
    assert_eq!(decompress_column(&[0x10, b'a', 0x09, 0x00], 64), None);
    assert_eq!(decompress_column(&[], 0), None);
}

#[test]
fn values_are_decoded_until_the_payload_ends() {
    let payload = [0, 0, 0, 0, 0, 0, 0, 1, 0, 0, 0, 0, 0, 0, 0, 2];
    assert_eq!(
        decode_values(&payload, &DType::Uint64),
        Some(vec![DValue::Uint64(1), DValue::Uint64(2)])
    );
    assert_eq!(decode_values(&payload[..15], &DType::Uint64), None);
    assert_eq!(decode_values(&[], &DType::String), Some(Vec::new()));
    let texts = [0, 0, 0, 1, b'a', 0, 0, 0, 0, 0, 0, 0, 2, b'b', b'c'];
    assert_eq!(
        decode_values(&texts, &DType::String),
        Some(vec![
            DValue::String("a".to_string()),
            DValue::String(String::new()),
            DValue::String("bc".to_string()),
        ])
    );
}
