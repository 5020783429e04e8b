use rtcdb::bytes::{push_u32_be, push_u64_be, read_u32_be, read_u64_be, u64_be_bytes};
use rtcdb::cell::{read_dvalue_data, write_dvalue_data};
use rtcdb::paths::{data_path, index_path, meta_path};
use rtcdb::{DType, DValue, IndexEntry, IndexValue};

#[test]
fn integers_are_big_endian() {
    assert_eq!(u64_be_bytes(0x0102_0304_0506_0708), [1, 2, 3, 4, 5, 6, 7, 8]);
    assert_eq!(u64_be_bytes(0), [0; 8]);
    assert_eq!(u64_be_bytes(u64::MAX), [255; 8]);
    let mut out = vec![9u8];
    push_u64_be(&mut out, 258);
    push_u32_be(&mut out, 0xdead_beef);
    assert_eq!(out, vec![9, 0, 0, 0, 0, 0, 0, 1, 2, 0xde, 0xad, 0xbe, 0xef]);
    assert_eq!(read_u64_be(&out, 1), 258);
    assert_eq!(read_u32_be(&out, 9), 0xdead_beef);
    assert_eq!(read_u64_be(&[255; 8], 0), u64::MAX);
    assert_eq!(read_u32_be(&[0, 255, 255, 255, 255], 1), u32::MAX);
}

#[test]
fn an_integer_cell_is_eight_bytes() {
    let mut bytes = Vec::new();
    write_dvalue_data(&mut bytes, &DValue::Uint64(0x1122_3344_5566_7788)).unwrap();
    assert_eq!(bytes, vec![0x11, 0x22, 0x33, 0x44, 0x55, 0x66, 0x77, 0x88]);
    assert_eq!(
        read_dvalue_data(&bytes, &DType::Uint64),
        Some((8, DValue::Uint64(0x1122_3344_5566_7788)))
    );
}

#[test]
fn a_text_cell_is_length_prefixed() {
    let mut bytes = vec![7u8];
    write_dvalue_data(&mut bytes, &DValue::String("ab".to_string())).unwrap();
    assert_eq!(bytes, vec![7, 0, 0, 0, 2, b'a', b'b']);
    assert_eq!(
        read_dvalue_data(&bytes[1..], &DType::String),
        Some((6, DValue::String("ab".to_string())))
    );
    let mut empty = Vec::new();
    write_dvalue_data(&mut empty, &DValue::String(String::new())).unwrap();
    assert_eq!(empty, vec![0, 0, 0, 0]);
    assert_eq!(read_dvalue_data(&empty, &DType::String), Some((4, DValue::String(String::new()))));
}

#[test]
fn a_text_cell_keeps_null_bytes_and_counts_bytes_not_characters() {
    let value = DValue::String("a\u{0}é".to_string());
    let mut bytes = Vec::new();
    write_dvalue_data(&mut bytes, &value).unwrap();
    assert_eq!(bytes, vec![0, 0, 0, 4, b'a', 0, 0xc3, 0xa9]);
    assert_eq!(read_dvalue_data(&bytes, &DType::String), Some((8, value)));
}

#[test]
fn a_cell_is_read_from_the_front_and_the_rest_is_left() {
    let bytes = [0, 0, 0, 1, b'x', 0, 0, 0, 1, b'y'];
    assert_eq!(
        read_dvalue_data(&bytes, &DType::String),
        Some((5, DValue::String("x".to_string())))
    );
    let numbers = [0, 0, 0, 0, 0, 0, 0, 5, 1, 2, 3];
    assert_eq!(read_dvalue_data(&numbers, &DType::Uint64), Some((8, DValue::Uint64(5))));
}

#[test]
fn a_malformed_cell_is_refused() {
    assert_eq!(read_dvalue_data(&[0, 0, 0, 0, 0, 0, 1], &DType::Uint64), None);
    assert_eq!(read_dvalue_data(&[], &DType::Uint64), None);
    assert_eq!(read_dvalue_data(&[0, 0, 0], &DType::String), None);
    // The prefix announces more bytes than there are.
    assert_eq!(read_dvalue_data(&[0, 0, 0, 3, b'a', b'b'], &DType::String), None);
    assert_eq!(read_dvalue_data(&[255, 255, 255, 255, b'a'], &DType::String), None);
    // Not UTF-8.
    assert_eq!(read_dvalue_data(&[0, 0, 0, 2, 0xc3, 0x28], &DType::String), None);
    assert_eq!(read_dvalue_data(&[0, 0, 0, 1, 0xff], &DType::String), None);
}

#[test]
fn an_index_entry_is_read_back_as_written() {
    let numbers = IndexEntry {
        start_position: 0x0102,
        compressed_size: u64::MAX,
        decompressed_size: 77,
        min: IndexValue::Uint64(3),
        max: IndexValue::Uint64(u64::MAX - 1),
    };
    assert_eq!(IndexEntry::from_bytes(&numbers.to_bytes(), &DType::Uint64), numbers);
    let texts = IndexEntry {
        start_position: 5,
        compressed_size: 6,
        decompressed_size: 7,
        min: IndexValue::from_dvalue(&DValue::String("ab".to_string())),
        max: IndexValue::from_dvalue(&DValue::String("zebra crossing".to_string())),
    };
    let bytes = texts.to_bytes();
    assert_eq!(&bytes[24..32], &[b'a', b'b', 0, 0, 0, 0, 0, 0]);
    assert_eq!(&bytes[32..40], b"zebra cr");
    assert_eq!(IndexEntry::from_bytes(&bytes, &DType::String), texts);
}

#[test]
fn the_type_decides_how_a_zone_value_is_read() {
    let bytes = [0, 0, 0, 0, 0, 0, 1, 0];
    assert_eq!(IndexValue::from_bytes(&bytes, &DType::Uint64), IndexValue::Uint64(256));
    assert_eq!(IndexValue::from_bytes(&bytes, &DType::String), IndexValue::String(bytes));
    let mut out = [9u8; 8];
    IndexValue::Uint64(256).write_bytes(&mut out);
    assert_eq!(out, bytes);
    IndexValue::String(*b"abcdefgh").write_bytes(&mut out);
    assert_eq!(&out, b"abcdefgh");
    assert_eq!(IndexValue::Uint64(1).to_bytes(), [0, 0, 0, 0, 0, 0, 0, 1]);
}

#[test]
fn a_text_zone_value_cuts_bytes_not_characters() {
    // Seven ASCII bytes and a two-byte character: the character is cut in two.
    assert_eq!(
        IndexValue::from_dvalue(&DValue::String("abcdefgé".to_string())),
        IndexValue::String([b'a', b'b', b'c', b'd', b'e', b'f', b'g', 0xc3])
    );
    assert_eq!(
        IndexValue::from_dvalue(&DValue::String("12345678".to_string())),
        IndexValue::String(*b"12345678")
    );
}

#[test]
fn files_are_named_after_table_and_column() {
    let table = "events".to_string();
    let column = "id".to_string();
    assert_eq!(index_path(&table, &column), "events.id.index");
    assert_eq!(data_path(&table, &column), "events.id.data");
    assert_eq!(meta_path(), "metadata.json");
}
