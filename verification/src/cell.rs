//! The encoding of cells inside a block.
//!
//! An integer is its eight big-endian bytes. A text is the number of its
//! UTF-8 bytes as four big-endian bytes, followed by those bytes. The cells
//! of one column of a block follow each other without any framing.

use crate::bytes::{be_u32, be_u64, u32_from_be, u64_from_be};
use crate::bytes::{lemma_u32_be_round_trip, lemma_u64_be_round_trip};
use crate::bytes::{push_u32_be, push_u64_be, read_u32_be, read_u64_be};
use crate::data::{DType, DValue, Scalar};
use vstd::prelude::*;
use vstd::slice::slice_to_vec;
use vstd::utf8::{decode_utf8, encode_utf8, valid_utf8};
use vstd::utf8::{encode_utf8_decode_utf8, encode_utf8_valid_utf8};

verus! {

#[verifier::external_type_specification]
#[verifier::external_body]
pub struct ExFromUtf8Error(std::string::FromUtf8Error);

/// A text is too long for the four-byte length prefix: its UTF-8 encoding
/// has `length` bytes.
#[derive(Debug, Clone, Copy, PartialEq, Eq, Structural)]
pub struct TextTooLong {
    pub length: usize,
}

/// Whether a value can be encoded: a text of at most `u32::MAX` bytes, or
/// any integer.
pub open spec fn encodable(v: Scalar) -> bool {
    v.text_bytes().len() <= u32::MAX
}

/// The encoding of one cell.
pub open spec fn cell_bytes(v: Scalar) -> Seq<u8> {
    match v {
        Scalar::Number(n) => be_u64(n),
        Scalar::Text(s) => be_u32(encode_utf8(s).len() as u32) + encode_utf8(s),
    }
}

/// The encoding of the cells of one column of a block, in row order.
pub open spec fn column_bytes(values: Seq<Scalar>) -> Seq<u8>
    decreases values.len(),
{
    if values.len() == 0 {
        Seq::empty()
    } else {
        cell_bytes(values[0]) + column_bytes(values.drop_first())
    }
}

/// The cell of type `dtype` at the front of `bytes` and the number of bytes
/// that it takes; `None` where the bytes do not start with such a cell.
pub open spec fn decode_cell(bytes: Seq<u8>, dtype: DType) -> Option<(Scalar, nat)> {
    match dtype {
        DType::Uint64 => if bytes.len() >= 8 {
            Some((Scalar::Number(u64_from_be(bytes.subrange(0, 8))), 8nat))
        } else {
            None
        },
        DType::String => if bytes.len() >= 4 {
            let length = u32_from_be(bytes.subrange(0, 4)) as nat;
            let text = bytes.subrange(4, 4 + length as int);
            if bytes.len() >= 4 + length && valid_utf8(text) {
                Some((Scalar::Text(decode_utf8(text)), 4 + length))
            } else {
                None
            }
        } else {
            None
        },
    }
}

/// The cells of type `dtype` that `bytes` is made of; `None` where the bytes
/// are not a sequence of such cells.
pub open spec fn decode_column(bytes: Seq<u8>, dtype: DType) -> Option<Seq<Scalar>>
    decreases bytes.len(),
{
    if bytes.len() == 0 {
        Some(Seq::empty())
    } else {
        match decode_cell(bytes, dtype) {
            Some((v, n)) => match decode_column(bytes.skip(n as int), dtype) {
                Some(rest) => Some(seq![v] + rest),
                None => None,
            },
            None => None,
        }
    }
}

/// `String::from_utf8` of the standard library: the string whose UTF-8
/// encoding is `bytes`, or an error where `bytes` is not valid UTF-8.
#[verifier::external_body]
fn string_from_utf8(bytes: Vec<u8>) -> (res: Result<String, std::string::FromUtf8Error>)
    ensures
        match res {
            Ok(s) => valid_utf8(bytes@) && encode_utf8(s@) == bytes@,
            Err(_) => !valid_utf8(bytes@),
        },
{
    String::from_utf8(bytes)
}

/// Appends the encoding of `value` to `bytes`. A text of more than
/// `u32::MAX` bytes is refused and `bytes` stays as it was.
pub fn write_dvalue_data(bytes: &mut Vec<u8>, value: &DValue) -> (res: Result<(), TextTooLong>)
    ensures
        match res {
            Ok(_) => encodable(value@) && final(bytes)@ == old(bytes)@ + cell_bytes(value@),
            Err(e) => !encodable(value@) && final(bytes)@ == old(bytes)@ && e.length
                == value@.text_bytes().len(),
        },
{
    match value {
        DValue::String(s) => {
            let text: &[u8] = s.as_str().as_bytes();
            if text.len() > u32::MAX as usize {
                return Err(TextTooLong { length: text.len() });
            }
            push_u32_be(bytes, text.len() as u32);
            bytes.extend_from_slice(text);
            assert(bytes@ =~= old(bytes)@ + cell_bytes(value@));
            Ok(())
        },
        DValue::Uint64(u) => {
            push_u64_be(bytes, *u);
            Ok(())
        },
    }
}

/// Reads the cell of type `dtype` at the front of `bytes`: the number of
/// bytes that it takes, and its value.
pub fn read_dvalue_data(bytes: &[u8], dtype: &DType) -> (res: Option<(usize, DValue)>)
    ensures
        match res {
            Some((n, value)) => decode_cell(bytes@, *dtype) == Some((value@, n as nat)),
            None => decode_cell(bytes@, *dtype) is None,
        },
{
    match dtype {
        DType::String => {
            if bytes.len() < 4 {
                return None;
            }
            let length: u32 = read_u32_be(bytes, 0);
            if length as usize > bytes.len() - 4 {
                return None;
            }
            let end: usize = 4 + length as usize;
            let text: Vec<u8> = slice_to_vec(&bytes[4..end]);
            match string_from_utf8(text) {
                Ok(s) => {
                    proof {
                        encode_utf8_decode_utf8(s@);
                    }
                    Some((end, DValue::String(s)))
                },
                Err(_) => None,
            }
        },
        DType::Uint64 => {
            if bytes.len() < 8 {
                return None;
            }
            let u: u64 = read_u64_be(bytes, 0);
            Some((8, DValue::Uint64(u)))
        },
    }
}

/// A cell that was encoded is read back as it was, whatever follows it.
pub proof fn lemma_cell_round_trip(v: Scalar, rest: Seq<u8>)
    requires
        encodable(v),
    ensures
        decode_cell(cell_bytes(v) + rest, v.dtype()) == Some((v, cell_bytes(v).len())),
        cell_bytes(v).len() >= 4,
{
    let bytes = cell_bytes(v) + rest;
    match v {
        Scalar::Number(n) => {
            lemma_u64_be_round_trip(n);
            assert(bytes.subrange(0, 8) =~= be_u64(n));
        },
        Scalar::Text(s) => {
            let text = encode_utf8(s);
            lemma_u32_be_round_trip(text.len() as u32);
            assert(bytes.subrange(0, 4) =~= be_u32(text.len() as u32));
            assert(bytes.subrange(4, 4 + text.len() as int) =~= text);
            encode_utf8_valid_utf8(s);
            encode_utf8_decode_utf8(s);
        },
    }
}

/// The encoding of a column with one more cell at its end.
pub proof fn lemma_column_bytes_push(values: Seq<Scalar>, v: Scalar)
    ensures
        column_bytes(values.push(v)) == column_bytes(values) + cell_bytes(v),
    decreases values.len(),
{
    if values.len() == 0 {
        assert(values.push(v).drop_first() =~= Seq::<Scalar>::empty());
        assert(column_bytes(values.push(v).drop_first()) =~= Seq::<u8>::empty());
        assert(column_bytes(values.push(v)) =~= column_bytes(values) + cell_bytes(v));
    } else {
        assert(values.push(v).drop_first() =~= values.drop_first().push(v));
        lemma_column_bytes_push(values.drop_first(), v);
        assert(column_bytes(values.push(v)) =~= column_bytes(values) + cell_bytes(v));
    }
}

/// A column of encodable values of one type is read back as it was.
pub proof fn lemma_column_round_trip(values: Seq<Scalar>, dtype: DType)
    requires
        forall|i: int| 0 <= i < values.len() ==> (#[trigger] values[i]).dtype() == dtype,
        forall|i: int| 0 <= i < values.len() ==> encodable(#[trigger] values[i]),
    ensures
        decode_column(column_bytes(values), dtype) == Some(values),
    decreases values.len(),
{
    if values.len() == 0 {
    } else {
        let rest = column_bytes(values.drop_first());
        let bytes = column_bytes(values);
        lemma_cell_round_trip(values[0], rest);
        assert(bytes.skip(cell_bytes(values[0]).len() as int) =~= rest);
        lemma_column_round_trip(values.drop_first(), dtype);
        assert(seq![values[0]] + values.drop_first() =~= values);
    }
}

} // verus!
