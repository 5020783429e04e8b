use rtcdb::data::bytes_less;
use rtcdb::{get_dtype, get_max, get_min, DType, DValue, SchemaMismatch};

fn text(s: &str) -> DValue {
    DValue::String(s.to_string())
}

#[test]
fn dtype_follows_the_variant() {
    assert_eq!(get_dtype(&text("x")), DType::String);
    assert_eq!(get_dtype(&DValue::Uint64(0)), DType::Uint64);
}

#[test]
fn min_and_max_of_integers_are_numeric() {
    let a = DValue::Uint64(9);
    let b = DValue::Uint64(10);
    assert_eq!(get_min(&a, &b), Ok(&a));
    assert_eq!(get_min(&b, &a), Ok(&a));
    assert_eq!(get_max(&a, &b), Ok(&b));
    assert_eq!(get_max(&b, &a), Ok(&b));
    let lo = DValue::Uint64(0);
    let hi = DValue::Uint64(u64::MAX);
    assert_eq!(get_min(&hi, &lo), Ok(&lo));
    assert_eq!(get_max(&lo, &hi), Ok(&hi));
}

#[test]
fn min_and_max_of_texts_go_by_bytes() {
    // Upper case comes before lower case; a prefix comes before what it is a prefix of.
    assert_eq!(get_min(&text("a"), &text("B")), Ok(&text("B")));
    assert_eq!(get_max(&text("a"), &text("B")), Ok(&text("a")));
    assert_eq!(get_min(&text("abc"), &text("ab")), Ok(&text("ab")));
    assert_eq!(get_max(&text("abc"), &text("ab")), Ok(&text("abc")));
    assert_eq!(get_min(&text(""), &text("\u{0}")), Ok(&text("")));
    // "é" is encoded as 0xC3 0xA9 and so comes behind every ASCII text.
    assert_eq!(get_max(&text("zzz"), &text("é")), Ok(&text("é")));
    assert_eq!(get_min(&text("10"), &text("9")), Ok(&text("10")));
}

#[test]
fn equal_values_keep_the_first_argument() {
    let a = text("same");
    let b = text("same");
    let min = get_min(&a, &b).unwrap();
    let max = get_max(&a, &b).unwrap();
    assert!(std::ptr::eq(min, &a));
    assert!(std::ptr::eq(max, &a));
}

#[test]
fn values_of_different_types_are_refused() {
    let n = DValue::Uint64(1);
    let s = text("1");
    assert_eq!(
        get_min(&n, &s),
        Err(SchemaMismatch { expected: DType::Uint64, found: DType::String })
    );
    assert_eq!(
        get_max(&s, &n),
        Err(SchemaMismatch { expected: DType::String, found: DType::Uint64 })
    );
}

#[test]
fn bytes_are_ordered_lexicographically() {
    assert!(bytes_less(b"", b"a"));
    assert!(!bytes_less(b"a", b""));
    assert!(!bytes_less(b"", b""));
    assert!(!bytes_less(b"abc", b"abc"));
    assert!(bytes_less(b"abc", b"abd"));
    assert!(bytes_less(b"ab", b"abc"));
    assert!(!bytes_less(b"b", b"abc"));
    assert!(bytes_less(&[0x7f], &[0x80]));
    assert!(bytes_less(&[1, 255], &[2, 0]));
}
