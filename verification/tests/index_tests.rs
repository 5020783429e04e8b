use rtcdb::{DValue, IndexEntry, IndexValue};

#[test]
fn test_index_entry_to_bytes() {
    let entry = IndexEntry {
        start_position: 1,
        compressed_size: 2,
        decompressed_size: 3,
        min: IndexValue::Uint64(4),
        max: IndexValue::from_dvalue(&DValue::String("longlonglong".to_string())),
    };
    let bytes = entry.to_bytes();
    let expected: [u8; 40] = [
        0, 0, 0, 0, 0, 0, 0, 1,
        0, 0, 0, 0, 0, 0, 0, 2,
        0, 0, 0, 0, 0, 0, 0, 3,
        0, 0, 0, 0, 0, 0, 0, 4,
        b'l', b'o', b'n', b'g', b'l', b'o', b'n', b'g',
    ];
    assert_eq!(bytes, expected);
}

#[test]
fn test_index_entry_from_dvalue() {
    assert_eq!(IndexValue::from_dvalue(&DValue::Uint64(42)), IndexValue::Uint64(42));
    assert_eq!(IndexValue::from_dvalue(&DValue::String("".to_string())), IndexValue::String([0, 0, 0, 0, 0 ,0 ,0 ,0]));
    assert_eq!(IndexValue::from_dvalue(&DValue::String("a".to_string())), IndexValue::String([b'a', 0, 0, 0, 0 ,0 ,0 ,0]));
    assert_eq!(IndexValue::from_dvalue(&DValue::String("longlonglong".to_string())), IndexValue::String([b'l', b'o', b'n', b'g', b'l', b'o', b'n', b'g',]));
}
