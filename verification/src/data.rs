//! Typed scalar values and their ordering.

use vstd::prelude::*;
use vstd::utf8::encode_utf8;

verus! {

/// The declared type of a column, and of every value stored in it.
#[derive(Debug, Clone, Copy, PartialEq, Eq, Structural)]
pub enum DType {
    String,
    Uint64,
}

/// One cell of a row: a UTF-8 text or an unsigned 64-bit integer.
#[derive(Debug, PartialEq, Eq, Clone, PartialOrd)]
pub enum DValue {
    String(String),
    Uint64(u64),
}

/// The mathematical value of a [`DValue`].
pub enum Scalar {
    Text(Seq<char>),
    Number(u64),
}

/// Two values of different types met where one type was expected.
#[derive(Debug, Clone, Copy, PartialEq, Eq, Structural)]
pub struct SchemaMismatch {
    pub expected: DType,
    pub found: DType,
}

/// Strict lexicographic order on byte strings: a proper prefix comes first,
/// otherwise the first differing byte decides.
pub open spec fn bytes_lt(a: Seq<u8>, b: Seq<u8>) -> bool
    decreases a.len(),
{
    if b.len() == 0 {
        false
    } else if a.len() == 0 {
        true
    } else if a[0] != b[0] {
        a[0] < b[0]
    } else {
        bytes_lt(a.drop_first(), b.drop_first())
    }
}

impl Scalar {
    /// The type tag that the value carries.
    pub open spec fn dtype(self) -> DType {
        match self {
            Scalar::Text(_) => DType::String,
            Scalar::Number(_) => DType::Uint64,
        }
    }

    /// The UTF-8 bytes of a text; empty for a number.
    pub open spec fn text_bytes(self) -> Seq<u8> {
        match self {
            Scalar::Text(s) => encode_utf8(s),
            Scalar::Number(_) => Seq::empty(),
        }
    }

    /// Strict order between two values of one type: numeric for integers,
    /// byte-wise lexicographic over the UTF-8 encoding for texts. Values of
    /// different types are not ordered.
    pub open spec fn lt(self, other: Scalar) -> bool {
        match (self, other) {
            (Scalar::Number(x), Scalar::Number(y)) => x < y,
            (Scalar::Text(s), Scalar::Text(t)) => bytes_lt(encode_utf8(s), encode_utf8(t)),
            _ => false,
        }
    }

    /// The smaller of two values; the first one where neither is smaller.
    pub open spec fn min(self, other: Scalar) -> Scalar {
        if other.lt(self) {
            other
        } else {
            self
        }
    }

    /// The larger of two values; the first one where neither is larger.
    pub open spec fn max(self, other: Scalar) -> Scalar {
        if self.lt(other) {
            other
        } else {
            self
        }
    }
}

impl View for DValue {
    type V = Scalar;

    open spec fn view(&self) -> Scalar {
        match self {
            DValue::String(s) => Scalar::Text(s@),
            DValue::Uint64(n) => Scalar::Number(*n),
        }
    }
}

impl DeepView for DValue {
    type V = Scalar;

    open spec fn deep_view(&self) -> Scalar {
        self.view()
    }
}

/// The type of a value.
pub fn get_dtype(value: &DValue) -> (dtype: DType)
    ensures
        dtype == value@.dtype(),
{
    match value {
        DValue::String(_) => DType::String,
        DValue::Uint64(_) => DType::Uint64,
    }
}

/// Decides `a < b` in the lexicographic order on byte strings.
pub fn bytes_less(a: &[u8], b: &[u8]) -> (less: bool)
    ensures
        less == bytes_lt(a@, b@),
{
    let mut i: usize = 0;
    proof {
        assert(a@.skip(0) == a@);
        assert(b@.skip(0) == b@);
    }
    while i < a.len() && i < b.len()
        invariant
            i <= a@.len(),
            i <= b@.len(),
            bytes_lt(a@, b@) == bytes_lt(a@.skip(i as int), b@.skip(i as int)),
        decreases a@.len() - i,
    {
        let x: u8 = a[i];
        let y: u8 = b[i];
        proof {
            assert(a@.skip(i as int).drop_first() == a@.skip(i + 1));
            assert(b@.skip(i as int).drop_first() == b@.skip(i + 1));
        }
        if x != y {
            return x < y;
        }
        i = i + 1;
    }
    i < b.len()
}

/// The smaller of two values of one type; `min_val` where neither is smaller.
/// Values of different types are refused.
pub fn get_min<'a>(min_val: &'a DValue, new_val: &'a DValue) -> (res: Result<
    &'a DValue,
    SchemaMismatch,
>)
    ensures
        match res {
            Ok(m) => min_val@.dtype() == new_val@.dtype() && *m == (if new_val@.lt(min_val@) {
                *new_val
            } else {
                *min_val
            }),
            Err(e) => min_val@.dtype() != new_val@.dtype() && e == (SchemaMismatch {
                expected: min_val@.dtype(),
                found: new_val@.dtype(),
            }),
        },
{
    match (min_val, new_val) {
        (DValue::String(min_s), DValue::String(new_s)) => {
            if bytes_less(new_s.as_str().as_bytes(), min_s.as_str().as_bytes()) {
                Ok(new_val)
            } else {
                Ok(min_val)
            }
        },
        (DValue::Uint64(min_u), DValue::Uint64(new_u)) => {
            if *new_u < *min_u {
                Ok(new_val)
            } else {
                Ok(min_val)
            }
        },
        _ => Err(SchemaMismatch { expected: get_dtype(min_val), found: get_dtype(new_val) }),
    }
}

/// The larger of two values of one type; `max_val` where neither is larger.
/// Values of different types are refused.
pub fn get_max<'a>(max_val: &'a DValue, new_val: &'a DValue) -> (res: Result<
    &'a DValue,
    SchemaMismatch,
>)
    ensures
        match res {
            Ok(m) => max_val@.dtype() == new_val@.dtype() && *m == (if max_val@.lt(new_val@) {
                *new_val
            } else {
                *max_val
            }),
            Err(e) => max_val@.dtype() != new_val@.dtype() && e == (SchemaMismatch {
                expected: max_val@.dtype(),
                found: new_val@.dtype(),
            }),
        },
{
    match (max_val, new_val) {
        (DValue::String(max_s), DValue::String(new_s)) => {
            if bytes_less(max_s.as_str().as_bytes(), new_s.as_str().as_bytes()) {
                Ok(new_val)
            } else {
                Ok(max_val)
            }
        },
        (DValue::Uint64(max_u), DValue::Uint64(new_u)) => {
            if *new_u > *max_u {
                Ok(new_val)
            } else {
                Ok(max_val)
            }
        },
        _ => Err(SchemaMismatch { expected: get_dtype(max_val), found: get_dtype(new_val) }),
    }
}

} // verus!
