//! One column of one block: its cells encoded back to back and compressed as
//! a unit, with the smallest and the largest value beside it.

use crate::cell::{column_bytes, decode_column, encodable};
use crate::cell::{lemma_column_bytes_push, read_dvalue_data, write_dvalue_data};
use crate::chunk::column_slice;
use crate::data::{get_dtype, get_max, get_min, DType, DValue, Scalar};
use crate::error::StoreError;
use crate::index::{Entry, IndexEntry, IndexValue, Zone};
use crate::lz4::{all_ones, compress_into, decompress_into, lz4_decompressed};
use crate::lz4::{max_compressed_size, readable, MAX_EXPANSION, MAX_LENGTH_RUN};
use crate::metadata::ColumnMetaData;
use crate::order::{column_max, column_min, lemma_lt_irreflexive};
use vstd::prelude::*;

verus! {

/// Why the value `v` cannot be stored in the column `col`, if it cannot: it
/// has another type than the column, or it is a text too long to encode.
/// `position` is where the block would start in the data file.
pub open spec fn cell_fault(col: ColumnMetaData, v: Scalar, position: u64) -> Option<StoreError> {
    if v.dtype() != col.dtype {
        Some(StoreError::SchemaMismatch { column: col.name, expected: col.dtype, found: v.dtype() })
    } else if !encodable(v) {
        Some(StoreError::CompressionError { column: col.name, offset: position })
    } else {
        None
    }
}

/// The fault of the first of `values` that cannot be stored in `col`.
pub open spec fn column_fault(col: ColumnMetaData, values: Seq<Scalar>, position: u64) -> Option<
    StoreError,
>
    decreases values.len(),
{
    if values.len() == 0 {
        None
    } else {
        match column_fault(col, values.drop_last(), position) {
            Some(e) => Some(e),
            None => cell_fault(col, values.last(), position),
        }
    }
}

/// Whether each of `values` can be stored in a column of type `dtype`: it
/// has that type, and it can be encoded.
pub open spec fn storable(dtype: DType, values: Seq<Scalar>) -> bool {
    forall|i: int|
        0 <= i < values.len() ==> (#[trigger] values[i]).dtype() == dtype && encodable(values[i])
}

/// A column has no fault exactly when each of its values can be stored.
pub proof fn lemma_column_fault_none(col: ColumnMetaData, values: Seq<Scalar>, position: u64)
    ensures
        column_fault(col, values, position) is None <==> storable(col.dtype, values),
    decreases values.len(),
{
    if values.len() > 0 {
        lemma_column_fault_none(col, values.drop_last(), position);
        if storable(col.dtype, values) {
            assert forall|i: int| 0 <= i < values.drop_last().len() implies (
            #[trigger] values.drop_last()[i]).dtype() == col.dtype && encodable(
                values.drop_last()[i],
            ) by {
                assert(values.drop_last()[i] == values[i]);
            }
            assert(values.last() == values[values.len() - 1]);
        }
        if column_fault(col, values, position) is None {
            assert forall|i: int| 0 <= i < values.len() implies (#[trigger] values[i]).dtype()
                == col.dtype && encodable(values[i]) by {
                if i < values.len() - 1 {
                    assert(values.drop_last()[i] == values[i]);
                }
            }
        }
    }
}

/// The largest payload that the store takes a block of `stored` bytes to
/// hold: as many bytes as the bytes of the block can stand for, and no more
/// than a buffer can have.
pub open spec fn largest_payload(stored: int) -> int {
    if MAX_EXPANSION * stored <= usize::MAX / 2 {
        MAX_EXPANSION * stored
    } else {
        (usize::MAX / 2) as int
    }
}

/// Whether `stored` is a compressed form of the column `values`: a block
/// that the store can read, that is not too small for what it is to hold,
/// and that decompresses to the encoded cells.
pub open spec fn sealed(values: Seq<Scalar>, stored: Seq<u8>) -> bool {
    &&& readable(stored)
    &&& column_bytes(values).len() <= largest_payload(stored.len() as int)
    &&& lz4_decompressed(stored, column_bytes(values).len()) == Some(column_bytes(values))
}

/// One column of a block, encoded and not yet compressed.
pub struct BlockColumn {
    /// The encoded cells.
    pub payload: Vec<u8>,
    /// The zone value of the smallest cell.
    pub min: IndexValue,
    /// The zone value of the largest cell.
    pub max: IndexValue,
}

/// Encodes the cells of the column `c` in the rows `start..end` of `data`
/// for a column declared as `col`, and finds the smallest and the largest of
/// them. The first cell that has another type than the column, or that is a
/// text too long to encode, ends the work with its fault.
pub fn encode_column(
    col: &ColumnMetaData,
    data: &Vec<Vec<DValue>>,
    start: usize,
    end: usize,
    c: usize,
    position: u64,
) -> (res: Result<BlockColumn, StoreError>)
    requires
        start < end <= data@.len(),
        forall|r: int| start <= r < end ==> c < (#[trigger] data@[r])@.len(),
    ensures
        match res {
            Ok(column) => {
                let values = column_slice(data.deep_view(), start as int, end as int, c as int);
                &&& column_fault(*col, values, position) is None
                &&& storable(col.dtype, values)
                &&& column.payload@ == column_bytes(values)
                &&& column.min@ == Zone::of(column_min(values))
                &&& column.max@ == Zone::of(column_max(values))
                &&& column.min@.fits(col.dtype)
                &&& column.max@.fits(col.dtype)
            },
            Err(e) => column_fault(
                *col,
                column_slice(data.deep_view(), start as int, end as int, c as int),
                position,
            ) == Some(e),
        },
{
    let ghost values = column_slice(data.deep_view(), start as int, end as int, c as int);
    let mut payload: Vec<u8> = Vec::new();
    let mut min: &DValue = &data[start][c];
    let mut max: &DValue = &data[start][c];
    let mut r: usize = start;
    proof {
        assert(values.take(0) =~= Seq::<Scalar>::empty());
        assert(values[0] == data@[start as int]@[c as int]@);
    }
    while r < end
        invariant
            start <= r <= end <= data@.len(),
            start < end,
            forall|i: int| start <= i < end ==> c < (#[trigger] data@[i])@.len(),
            values == column_slice(data.deep_view(), start as int, end as int, c as int),
            column_fault(*col, values.take(r - start), position) is None,
            payload@ == column_bytes(values.take(r - start)),
            r == start ==> min@ == values[0] && max@ == values[0],
            r > start ==> min@ == column_min(values.take(r - start)),
            r > start ==> max@ == column_max(values.take(r - start)),
            r > start ==> min@.dtype() == col.dtype && max@.dtype() == col.dtype,
        decreases end - r,
    {
        let cell: &DValue = &data[r][c];
        let ghost done = values.take(r - start);
        let ghost next = values.take(r - start + 1);
        proof {
            assert(cell@ == values[r - start]);
            assert(next.drop_last() =~= done);
            assert(next.last() == cell@);
            assert(next =~= done.push(cell@));
            lemma_column_bytes_push(done, cell@);
            lemma_lt_irreflexive(cell@);
        }
        let found: DType = get_dtype(cell);
        if found != col.dtype {
            proof {
                lemma_column_fault_prefix(*col, values, position, r - start + 1);
            }
            return Err(
                StoreError::SchemaMismatch {
                    column: col.name.clone(),
                    expected: col.dtype,
                    found,
                },
            );
        }
        match write_dvalue_data(&mut payload, cell) {
            Ok(_) => {},
            Err(_) => {
                proof {
                    lemma_column_fault_prefix(*col, values, position, r - start + 1);
                }
                return Err(
                    StoreError::CompressionError { column: col.name.clone(), offset: position },
                );
            },
        }
        match get_min(min, cell) {
            Ok(m) => {
                min = m;
            },
            Err(e) => {
                return Err(
                    StoreError::SchemaMismatch {
                        column: col.name.clone(),
                        expected: e.expected,
                        found: e.found,
                    },
                );
            },
        }
        match get_max(max, cell) {
            Ok(m) => {
                max = m;
            },
            Err(e) => {
                return Err(
                    StoreError::SchemaMismatch {
                        column: col.name.clone(),
                        expected: e.expected,
                        found: e.found,
                    },
                );
            },
        }
        r = r + 1;
    }
    proof {
        assert(values.take(end - start) =~= values);
        lemma_column_fault_none(*col, values, position);
    }
    Ok(
        BlockColumn {
            payload,
            min: IndexValue::from_dvalue(min),
            max: IndexValue::from_dvalue(max),
        },
    )
}

/// A fault among the first `n` of `values` is the fault of the whole column.
pub proof fn lemma_column_fault_prefix(
    col: ColumnMetaData,
    values: Seq<Scalar>,
    position: u64,
    n: int,
)
    requires
        0 <= n <= values.len(),
        column_fault(col, values.take(n), position) is Some,
    ensures
        column_fault(col, values, position) == column_fault(col, values.take(n), position),
    decreases values.len() - n,
{
    if n < values.len() {
        assert(values.take(n + 1).drop_last() =~= values.take(n));
        lemma_column_fault_prefix(col, values, position, n + 1);
    } else {
        assert(values.take(n) =~= values);
    }
}

/// Decides whether `block` holds no run of [`MAX_LENGTH_RUN`] bytes `0xFF`.
pub fn is_readable(block: &[u8]) -> (b: bool)
    ensures
        b == readable(block@),
{
    let mut run: usize = 0;
    let mut i: usize = 0;
    while i < block.len()
        invariant
            i <= block@.len(),
            run <= i,
            run < MAX_LENGTH_RUN,
            all_ones(block@, i - run, i as int),
            run < i ==> block@[i - run - 1] != 0xffu8,
            forall|from: int|
                0 <= from && from + MAX_LENGTH_RUN <= i ==> !#[trigger] all_ones(
                    block@,
                    from,
                    from + MAX_LENGTH_RUN,
                ),
        decreases block@.len() - i,
    {
        if block[i] == 0xff {
            run = run + 1;
            if run == MAX_LENGTH_RUN {
                let ghost from = i + 1 - MAX_LENGTH_RUN;
                assert(all_ones(block@, from, from + MAX_LENGTH_RUN));
                return false;
            }
        } else {
            run = 0;
        }
        i = i + 1;
        assert forall|from: int|
            0 <= from && from + MAX_LENGTH_RUN <= i implies !#[trigger] all_ones(
            block@,
            from,
            from + MAX_LENGTH_RUN,
        ) by {
            if from + MAX_LENGTH_RUN == i {
                // The byte in front of the run lies in the window.
                assert(from <= i - run - 1 < from + MAX_LENGTH_RUN);
            }
        }
    }
    true
}

/// The size of the largest payload that the store takes a block of `stored`
/// bytes to hold.
pub fn largest_payload_of(stored: usize) -> (largest: usize)
    ensures
        largest == largest_payload(stored as int),
{
    match stored.checked_mul(MAX_EXPANSION) {
        Some(bytes) => if bytes <= usize::MAX / 2 {
            bytes
        } else {
            usize::MAX / 2
        },
        None => usize::MAX / 2,
    }
}

/// The size of the buffer that the compressor is given for a payload of
/// `payload` bytes: 20 bytes more than 110% of the payload.
pub open spec fn compressed_bound(payload: int) -> int {
    20 + (payload * 110) / 100
}

/// Whether the compressor, having reported `n` bytes written into `output`
/// for a payload of `payload` bytes, has left a block that the store keeps:
/// the bytes lie within `output`, they are a block that the store can read,
/// and the block is not too small to hold the payload.
pub open spec fn keeps(output: Seq<u8>, n: int, payload: int) -> bool {
    &&& 0 <= n <= output.len()
    &&& readable(output.take(n))
    &&& payload <= largest_payload(n)
}

/// What a call of the compressor for a payload of `payload` bytes has left:
/// the first `n` bytes of `output` where it reports `n` bytes written and
/// the store keeps them; nothing where it reports an error or the store does
/// not keep what it wrote.
pub fn sealed_block(
    outcome: Result<usize, lz4_flex::block::CompressError>,
    output: Vec<u8>,
    payload: usize,
) -> (res: Option<Vec<u8>>)
    ensures
        match outcome {
            Ok(n) => if keeps(output@, n as int, payload as int) {
                res matches Some(block) && block@ == output@.take(n as int)
            } else {
                res is None
            },
            Err(_) => res is None,
        },
{
    match outcome {
        Ok(n) => {
            if n > output.len() || payload > largest_payload_of(n) {
                return None;
            }
            let mut block: Vec<u8> = output;
            block.truncate(n);
            if is_readable(block.as_slice()) {
                Some(block)
            } else {
                None
            }
        },
        Err(_) => None,
    }
}

/// Compresses the encoded cells of one column of a block: the compressor is
/// given `payload` and a buffer of the size that it asks for, and what it
/// leaves is cut to what it wrote. Whether the compressor succeeds is its
/// own affair; a block that comes back fits in that buffer, can be read, is
/// not too small to hold `payload`, and decompresses to `payload`. A payload
/// too large for the compressor to size its buffer comes back as `None`.
pub fn compress_column(payload: &Vec<u8>) -> (res: Option<Vec<u8>>)
    ensures
        res matches Some(block) ==> {
            &&& block@.len() <= compressed_bound(payload@.len() as int)
            &&& readable(block@)
            &&& payload@.len() <= largest_payload(block@.len() as int)
            &&& lz4_decompressed(block@, payload@.len()) == Some(payload@)
        },
        payload@.len() * 110 > usize::MAX ==> res is None,
{
    if payload.len() > usize::MAX / 110 {
        return None;
    }
    let bound: usize = max_compressed_size(payload.len());
    let mut output: Vec<u8> = vec![0u8; bound];
    let outcome = compress_into(payload.as_slice(), &mut output);
    sealed_block(outcome, output, payload.len())
}

/// Decompresses one stored block into a buffer of `size` bytes. The result
/// is what the decompressor wrote, or `None` where it reports an error. A
/// block that the store cannot read is not handed to the decompressor and
/// comes back as `None`.
pub fn decompress_column(block: &[u8], size: usize) -> (res: Option<Vec<u8>>)
    ensures
        !readable(block@) ==> res is None,
        readable(block@) ==> match res {
            Some(payload) => lz4_decompressed(block@, size as nat) == Some(payload@),
            None => lz4_decompressed(block@, size as nat) is None,
        },
{
    if !is_readable(block) {
        return None;
    }
    let mut output: Vec<u8> = vec![0u8; size];
    match decompress_into(block, &mut output) {
        Ok(n) => {
            output.truncate(n);
            Some(output)
        },
        Err(_) => None,
    }
}

/// Decodes the cells of type `dtype` that `payload` is made of.
pub fn decode_values(payload: &[u8], dtype: &DType) -> (res: Option<Vec<DValue>>)
    ensures
        match res {
            Some(values) => decode_column(payload@, *dtype) == Some(values.deep_view()),
            None => decode_column(payload@, *dtype) is None,
        },
{
    let mut values: Vec<DValue> = Vec::new();
    let mut at: usize = 0;
    proof {
        assert(payload@.skip(0) =~= payload@);
        assert(values.deep_view() =~= Seq::<Scalar>::empty());
        assert(forall|rest: Seq<Scalar>| #[trigger] (Seq::<Scalar>::empty() + rest) =~= rest);
    }
    while at < payload.len()
        invariant
            at <= payload@.len(),
            decode_column(payload@, *dtype) == (match decode_column(
                payload@.skip(at as int),
                *dtype,
            ) {
                Some(rest) => Some(values.deep_view() + rest),
                None => None,
            }),
        decreases payload@.len() - at,
    {
        let ghost front = payload@.skip(at as int);
        let ghost done = values.deep_view();
        match read_dvalue_data(&payload[at..payload.len()], dtype) {
            Some((n, value)) => {
                proof {
                    assert(payload@.subrange(at as int, payload@.len() as int) =~= front);
                    assert(front.skip(n as int) =~= payload@.skip(at + n));
                }
                values.push(value);
                at = at + n;
                proof {
                    assert(values.deep_view() =~= done.push(value@));
                    assert forall|rest: Seq<Scalar>|
                        #[trigger] (done + (seq![value@] + rest)) == done.push(value@) + rest by {
                        assert(done + (seq![value@] + rest) =~= done.push(value@) + rest);
                    }
                }
            },
            None => {
                proof {
                    assert(payload@.subrange(at as int, payload@.len() as int) =~= front);
                }
                return None;
            },
        }
    }
    proof {
        assert(values.deep_view() + Seq::<Scalar>::empty() =~= values.deep_view());
    }
    Some(values)
}

/// What reading one column of a block comes to, given what decompressing
/// the stored block gave: the values, or the failure. `record` is the offset
/// of the block's record in the index file.
pub open spec fn decoded_block(
    col: ColumnMetaData,
    entry: Entry,
    record: u64,
    decompressed: Option<Seq<u8>>,
) -> Result<Seq<Scalar>, StoreError> {
    match decompressed {
        None => Err(
            StoreError::CompressionError { column: col.name, offset: entry.start_position },
        ),
        Some(payload) => if payload.len() != entry.decompressed_size {
            Err(StoreError::FormatError { column: col.name, offset: record })
        } else {
            match decode_column(payload, col.dtype) {
                Some(values) => Ok(values),
                None => Err(StoreError::FormatError { column: col.name, offset: record }),
            }
        },
    }
}

/// Turns what decompressing a stored block gave into the values of the
/// column: a decompressor's error is a compression error; a payload of
/// another size than the record announces, or one that is not a sequence of
/// cells of the column's type, is a format error.
pub fn decode_block(
    col: &ColumnMetaData,
    entry: &IndexEntry,
    record: u64,
    decompressed: Option<Vec<u8>>,
) -> (res: Result<Vec<DValue>, StoreError>)
    ensures
        match res {
            Ok(values) => decoded_block(
                *col,
                entry@,
                record,
                match decompressed {
                    Some(p) => Some(p@),
                    None => None,
                },
            ) == Ok::<Seq<Scalar>, StoreError>(values.deep_view()),
            Err(e) => decoded_block(
                *col,
                entry@,
                record,
                match decompressed {
                    Some(p) => Some(p@),
                    None => None,
                },
            ) == Err::<Seq<Scalar>, StoreError>(e),
        },
{
    match decompressed {
        None => Err(
            StoreError::CompressionError {
                column: col.name.clone(),
                offset: entry.start_position,
            },
        ),
        Some(payload) => {
            if payload.len() as u64 != entry.decompressed_size {
                return Err(StoreError::FormatError { column: col.name.clone(), offset: record });
            }
            match decode_values(payload.as_slice(), &col.dtype) {
                Some(values) => Ok(values),
                None => Err(StoreError::FormatError { column: col.name.clone(), offset: record }),
            }
        },
    }
}

} // verus!
