//! Writing rows to a table.
//!
//! The rows are cut into blocks. For each block, each column is encoded and
//! compressed, and then the block of every column is appended to that
//! column's writer, with its index record. A block is appended for all
//! columns or for none, so the files of a table always hold the same blocks
//! for every column.

use crate::block::{column_fault, largest_payload, sealed, storable};
use crate::block::{compress_column, encode_column, BlockColumn};
use crate::cell::column_bytes;
use crate::chunk::{block_column, block_columns, block_count, block_start, column_slice};
use crate::chunk::lemma_block_count;
use crate::data::{DValue, Scalar};
use crate::error::StoreError;
use crate::index::Zone;
use crate::lz4::{lz4_decompressed, readable};
use crate::metadata::{ColumnMetaData, TableMetaData};
use crate::order::{column_max, column_min};
use crate::writer::{appends, writer_states, ColumnWriter, SealedColumn, WriterState};
use vstd::prelude::*;

verus! {

/// The number of rows of a block, unless the caller chooses another.
pub const ROWS_PER_BLOCK: usize = 1024;

/// Whether every row has one cell for each of `n` columns.
pub open spec fn rectangular(rows: Seq<Vec<DValue>>, n: int) -> bool {
    forall|r: int| 0 <= r < rows.len() ==> (#[trigger] rows[r])@.len() == n
}

/// Decides whether every row of `data` has one cell for each of `n`
/// columns.
pub fn is_rectangular(data: &Vec<Vec<DValue>>, n: usize) -> (b: bool)
    ensures
        b == rectangular(data@, n as int),
{
    let mut r: usize = 0;
    while r < data.len()
        invariant
            r <= data@.len(),
            forall|i: int| 0 <= i < r ==> (#[trigger] data@[i])@.len() == n,
        decreases data@.len() - r,
    {
        if data[r].len() != n {
            return false;
        }
        r = r + 1;
    }
    true
}

/// The first fault in the rows `start..end`, going through the first `upto`
/// columns in order and through the rows of each column in order.
pub open spec fn block_fault(
    cols: Seq<ColumnMetaData>,
    rows: Seq<Seq<Scalar>>,
    start: int,
    end: int,
    writers: Seq<WriterState>,
    upto: int,
) -> Option<StoreError>
    decreases upto,
{
    if upto <= 0 {
        None
    } else {
        match block_fault(cols, rows, start, end, writers, upto - 1) {
            Some(e) => Some(e),
            None => column_fault(
                cols[upto - 1],
                column_slice(rows, start, end, upto - 1),
                writers[upto - 1].position as u64,
            ),
        }
    }
}

/// Whether `stored` holds column `c` of block `b` of `rows`: the values can
/// be stored in the column, and `stored` is a compressed form of them.
pub open spec fn block_stored(
    cols: Seq<ColumnMetaData>,
    rows: Seq<Seq<Scalar>>,
    per_block: int,
    c: int,
    b: int,
    stored: Seq<u8>,
) -> bool {
    &&& storable(cols[c].dtype, block_column(rows, per_block, b, c))
    &&& sealed(block_column(rows, per_block, b, c), stored)
}

/// Whether the writer `after` is the writer `before` with column `c` of the
/// first `k` blocks of `rows` appended, block `b` stored as `stored[b]`.
pub open spec fn column_flushed(
    cols: Seq<ColumnMetaData>,
    rows: Seq<Seq<Scalar>>,
    per_block: int,
    before: WriterState,
    after: WriterState,
    k: int,
    c: int,
    stored: Seq<Seq<u8>>,
) -> bool {
    &&& stored.len() == k
    &&& after == before.append_blocks(block_columns(rows, per_block, k, c), stored)
    &&& after.position <= u64::MAX
    &&& forall|b: int|
        0 <= b < k ==> block_stored(cols, rows, per_block, c, b, #[trigger] stored[b])
}

/// Whether `after` is `before` with the first `k` blocks of `rows` appended,
/// column `c` of block `b` stored as `stored[c][b]`.
pub open spec fn flushed(
    cols: Seq<ColumnMetaData>,
    rows: Seq<Seq<Scalar>>,
    per_block: int,
    before: Seq<WriterState>,
    after: Seq<WriterState>,
    k: int,
    stored: Seq<Seq<Seq<u8>>>,
) -> bool {
    &&& 0 <= k <= block_count(rows.len() as int, per_block)
    &&& before.len() == cols.len()
    &&& after.len() == cols.len()
    &&& stored.len() == cols.len()
    &&& forall|c: int|
        0 <= c < cols.len() ==> column_flushed(
            cols,
            rows,
            per_block,
            before[c],
            after[c],
            k,
            c,
            #[trigger] stored[c],
        )
}

/// Whether `res` is a result that a write may give once it has flushed the
/// first `k` blocks and left the writers as `after`: success exactly when
/// no block is left; otherwise the first fault of block `k`, or, where that
/// block has no fault, a compression error at one of its columns.
pub open spec fn outcome(
    cols: Seq<ColumnMetaData>,
    rows: Seq<Seq<Scalar>>,
    per_block: int,
    after: Seq<WriterState>,
    k: int,
    res: Result<(), StoreError>,
) -> bool {
    let n = rows.len() as int;
    match res {
        Ok(_) => k == block_count(n, per_block),
        Err(e) => {
            &&& k < block_count(n, per_block)
            &&& match block_fault(
                cols,
                rows,
                block_start(n, per_block, k),
                block_start(n, per_block, k + 1),
                after,
                cols.len() as int,
            ) {
                Some(fault) => e == fault,
                None => exists|c: int|
                    0 <= c < cols.len() && e == (StoreError::CompressionError {
                        column: (#[trigger] cols[c]).name,
                        offset: after[c].position as u64,
                    }),
            }
        },
    }
}

/// What a write of `rows` does to the writers and returns: it flushes some
/// number of leading blocks, all of them unless it fails.
pub open spec fn write_result(
    cols: Seq<ColumnMetaData>,
    rows: Seq<Seq<Scalar>>,
    per_block: int,
    before: Seq<WriterState>,
    after: Seq<WriterState>,
    res: Result<(), StoreError>,
) -> bool {
    exists|k: int, stored: Seq<Seq<Seq<u8>>>|
        #[trigger] flushed(cols, rows, per_block, before, after, k, stored) && outcome(
            cols,
            rows,
            per_block,
            after,
            k,
            res,
        )
}

/// Whether `column` holds the encoded cells of column `c` in the rows
/// `start..end`, which can be stored in that column, and the zone values of
/// the smallest and the largest of them.
pub open spec fn encodes(
    cols: Seq<ColumnMetaData>,
    rows: Seq<Seq<Scalar>>,
    start: int,
    end: int,
    c: int,
    column: BlockColumn,
) -> bool {
    let values = column_slice(rows, start, end, c);
    &&& storable(cols[c].dtype, values)
    &&& column.payload@ == column_bytes(values)
    &&& column.min@ == Zone::of(column_min(values))
    &&& column.max@ == Zone::of(column_max(values))
}

/// Whether `block` is a compressed form of `column` that can be appended at
/// `position`.
pub open spec fn seals(block: SealedColumn, column: BlockColumn, position: int) -> bool {
    &&& readable(block.block@)
    &&& column.payload@.len() <= largest_payload(block.block@.len() as int)
    &&& lz4_decompressed(block.block@, column.payload@.len()) == Some(column.payload@)
    &&& block.decompressed_size == column.payload@.len()
    &&& block.min == column.min
    &&& block.max == column.max
    &&& position + block.block@.len() <= u64::MAX
}

/// Whether the writer `after` is the writer `before` with column `c` of the
/// rows `start..end` appended as one block.
pub open spec fn block_written(
    cols: Seq<ColumnMetaData>,
    rows: Seq<Seq<Scalar>>,
    start: int,
    end: int,
    c: int,
    before: WriterState,
    after: WriterState,
) -> bool {
    let values = column_slice(rows, start, end, c);
    let stored = after.data.skip(before.data.len() as int);
    &&& storable(cols[c].dtype, values)
    &&& sealed(values, stored)
    &&& after == before.append_block(values, stored)
    &&& after.position <= u64::MAX
}

/// Encodes each column of the rows `start..end` of `data`, in column order,
/// up to the first fault.
pub fn encode_block(
    table: &TableMetaData,
    data: &Vec<Vec<DValue>>,
    start: usize,
    end: usize,
    writers: &Vec<ColumnWriter>,
) -> (res: Result<Vec<BlockColumn>, StoreError>)
    requires
        start < end <= data@.len(),
        writers@.len() == table.columns@.len(),
        rectangular(data@, table.columns@.len() as int),
    ensures
        match res {
            Ok(encoded) => {
                &&& block_fault(
                    table.columns@,
                    data.deep_view(),
                    start as int,
                    end as int,
                    writer_states(writers@),
                    table.columns@.len() as int,
                ) is None
                &&& encoded@.len() == table.columns@.len()
                &&& forall|c: int|
                    0 <= c < table.columns@.len() ==> encodes(
                        table.columns@,
                        data.deep_view(),
                        start as int,
                        end as int,
                        c,
                        #[trigger] encoded@[c],
                    )
            },
            Err(e) => block_fault(
                table.columns@,
                data.deep_view(),
                start as int,
                end as int,
                writer_states(writers@),
                table.columns@.len() as int,
            ) == Some(e),
        },
{
    let ghost rows = data.deep_view();
    let n: usize = table.columns.len();
    let mut encoded: Vec<BlockColumn> = Vec::new();
    let mut c: usize = 0;
    while c < n
        invariant
            c <= n,
            n == table.columns@.len(),
            writers@.len() == n,
            start < end <= data@.len(),
            rows == data.deep_view(),
            rectangular(data@, n as int),
            encoded@.len() == c,
            block_fault(
                table.columns@,
                rows,
                start as int,
                end as int,
                writer_states(writers@),
                c as int,
            ) is None,
            forall|j: int|
                0 <= j < c ==> encodes(
                    table.columns@,
                    rows,
                    start as int,
                    end as int,
                    j,
                    #[trigger] encoded@[j],
                ),
        decreases n - c,
    {
        match encode_column(&table.columns[c], data, start, end, c, writers[c].position) {
            Ok(column) => {
                encoded.push(column);
            },
            Err(e) => {
                proof {
                    lemma_block_fault_prefix(
                        table.columns@,
                        rows,
                        start as int,
                        end as int,
                        writer_states(writers@),
                        c + 1,
                    );
                }
                return Err(e);
            },
        }
        c = c + 1;
    }
    Ok(encoded)
}

/// The failure to compress or to place the block of the column `col` that
/// would start at `offset` of the data file.
pub fn compression_error(col: &ColumnMetaData, offset: u64) -> (e: StoreError)
    ensures
        e == (StoreError::CompressionError { column: col.name, offset }),
{
    StoreError::CompressionError { column: col.name.clone(), offset }
}

/// Compresses each encoded column of a block, in column order, up to the
/// first that cannot be compressed or whose block would end beyond the last
/// offset that an index record can hold.
pub fn compress_block(
    table: &TableMetaData,
    encoded: &Vec<BlockColumn>,
    writers: &Vec<ColumnWriter>,
) -> (res: Result<Vec<SealedColumn>, StoreError>)
    requires
        writers@.len() == table.columns@.len(),
        encoded@.len() == table.columns@.len(),
    ensures
        match res {
            Ok(blocks) => {
                &&& blocks@.len() == table.columns@.len()
                &&& forall|c: int|
                    0 <= c < table.columns@.len() ==> seals(
                        #[trigger] blocks@[c],
                        encoded@[c],
                        writers@[c].position as int,
                    )
            },
            Err(e) => exists|c: int|
                0 <= c < table.columns@.len() && e == (StoreError::CompressionError {
                    column: (#[trigger] table.columns@[c]).name,
                    offset: writers@[c].position,
                }),
        },
{
    let n: usize = table.columns.len();
    let mut blocks: Vec<SealedColumn> = Vec::new();
    let mut c: usize = 0;
    while c < n
        invariant
            c <= n,
            n == table.columns@.len(),
            writers@.len() == n,
            encoded@.len() == n,
            blocks@.len() == c,
            forall|j: int|
                0 <= j < c ==> seals(
                    #[trigger] blocks@[j],
                    encoded@[j],
                    writers@[j].position as int,
                ),
        decreases n - c,
    {
        let position: u64 = writers[c].position;
        let column: &BlockColumn = &encoded[c];
        let block: Vec<u8> = match compress_column(&column.payload) {
            Some(block) => block,
            None => {
                return Err(compression_error(&table.columns[c], position));
            },
        };
        if block.len() as u64 > u64::MAX - position {
            return Err(compression_error(&table.columns[c], position));
        }
        blocks.push(
            SealedColumn {
                block,
                decompressed_size: column.payload.len() as u64,
                min: column.min,
                max: column.max,
            },
        );
        c = c + 1;
    }
    Ok(blocks)
}

/// Appends to each writer the compressed block of its column.
pub fn append_block(writers: &mut Vec<ColumnWriter>, blocks: &Vec<SealedColumn>)
    requires
        old(writers)@.len() == blocks@.len(),
        forall|c: int|
            0 <= c < blocks@.len() ==> old(writers)@[c].position + (
            #[trigger] blocks@[c]).block@.len() <= u64::MAX,
    ensures
        final(writers)@.len() == old(writers)@.len(),
        forall|c: int|
            0 <= c < blocks@.len() ==> appends(
                old(writers)@[c],
                #[trigger] final(writers)@[c],
                blocks@[c],
            ),
{
    let ghost before = writers@;
    let n: usize = blocks.len();
    let mut c: usize = 0;
    while c < n
        invariant
            c <= n,
            n == blocks@.len(),
            writers@.len() == n,
            before.len() == n,
            forall|j: int|
                0 <= j < n ==> before[j].position + (#[trigger] blocks@[j]).block@.len()
                    <= u64::MAX,
            forall|j: int| c <= j < n ==> #[trigger] writers@[j] == before[j],
            forall|j: int| 0 <= j < c ==> appends(before[j], #[trigger] writers@[j], blocks@[j]),
        decreases n - c,
    {
        writers[c].append(&blocks[c]);
        c = c + 1;
    }
}

/// Writes the rows `start..end` of `data` as one block: a block of each
/// column, all of them or none. The first fault among the cells, column by
/// column, ends the work before anything is compressed; a column that cannot
/// be compressed, or whose block would end beyond the last offset that an
/// index record can hold, ends it before anything is appended.
pub fn write_block(
    table: &TableMetaData,
    data: &Vec<Vec<DValue>>,
    start: usize,
    end: usize,
    writers: &mut Vec<ColumnWriter>,
) -> (res: Result<(), StoreError>)
    requires
        start < end <= data@.len(),
        old(writers)@.len() == table.columns@.len(),
        rectangular(data@, table.columns@.len() as int),
    ensures
        final(writers)@.len() == old(writers)@.len(),
        match res {
            Ok(_) => {
                &&& block_fault(
                    table.columns@,
                    data.deep_view(),
                    start as int,
                    end as int,
                    writer_states(old(writers)@),
                    table.columns@.len() as int,
                ) is None
                &&& forall|c: int|
                    0 <= c < table.columns@.len() ==> block_written(
                        table.columns@,
                        data.deep_view(),
                        start as int,
                        end as int,
                        c,
                        old(writers)@[c]@,
                        (#[trigger] final(writers)@[c])@,
                    )
            },
            Err(e) => {
                &&& final(writers)@ == old(writers)@
                &&& match block_fault(
                    table.columns@,
                    data.deep_view(),
                    start as int,
                    end as int,
                    writer_states(old(writers)@),
                    table.columns@.len() as int,
                ) {
                    Some(fault) => e == fault,
                    None => exists|c: int|
                        0 <= c < table.columns@.len() && e == (StoreError::CompressionError {
                            column: (#[trigger] table.columns@[c]).name,
                            offset: old(writers)@[c].position,
                        }),
                }
            },
        },
{
    let ghost before = writers@;
    let ghost rows = data.deep_view();
    let encoded: Vec<BlockColumn> = match encode_block(table, data, start, end, writers) {
        Ok(encoded) => encoded,
        Err(e) => {
            return Err(e);
        },
    };
    let blocks: Vec<SealedColumn> = match compress_block(table, &encoded, writers) {
        Ok(blocks) => blocks,
        Err(e) => {
            return Err(e);
        },
    };
    proof {
        assert forall|c: int| 0 <= c < blocks@.len() implies before[c].position + (
        #[trigger] blocks@[c]).block@.len() <= u64::MAX by {
            assert(seals(blocks@[c], encoded@[c], before[c].position as int));
        }
    }
    append_block(writers, &blocks);
    proof {
        assert forall|c: int| 0 <= c < table.columns@.len() implies block_written(
            table.columns@,
            rows,
            start as int,
            end as int,
            c,
            before[c]@,
            (#[trigger] writers@[c])@,
        ) by {
            assert(seals(blocks@[c], encoded@[c], before[c].position as int));
            assert(encodes(table.columns@, rows, start as int, end as int, c, encoded@[c]));
            assert(appends(before[c], writers@[c], blocks@[c]));
            lemma_block_written(
                table.columns@,
                rows,
                start as int,
                end as int,
                c,
                before[c],
                writers@[c],
                encoded@[c],
                blocks@[c],
            );
        }
    }
    Ok(())
}

/// Writes `data` to the table `table` in blocks of `rows_per_block` rows,
/// the last block perhaps shorter. The blocks are flushed one after the
/// other; the first block that cannot be written ends the write with its
/// error and leaves the blocks before it flushed.
pub fn write_blocks(
    table: &TableMetaData,
    data: &Vec<Vec<DValue>>,
    writers: &mut Vec<ColumnWriter>,
    rows_per_block: usize,
) -> (res: Result<(), StoreError>)
    requires
        rows_per_block > 0,
        old(writers)@.len() == table.columns@.len(),
        rectangular(data@, table.columns@.len() as int),
    ensures
        final(writers)@.len() == old(writers)@.len(),
        write_result(
            table.columns@,
            data.deep_view(),
            rows_per_block as int,
            writer_states(old(writers)@),
            writer_states(final(writers)@),
            res,
        ),
        data@.len() == 0 ==> res is Ok && final(writers)@ == old(writers)@,
{
    let ghost cols = table.columns@;
    let ghost rows = data.deep_view();
    let ghost per_block = rows_per_block as int;
    let ghost before = writer_states(writers@);
    let ghost mut stored: Seq<Seq<Seq<u8>>> = Seq::new(cols.len(), |c: int| Seq::empty());
    let ghost mut k: int = 0;
    let len: usize = data.len();
    let mut start: usize = 0;
    proof {
        lemma_block_count(len as int, per_block, 0);
        assert forall|c: int| 0 <= c < cols.len() implies column_flushed(
            cols,
            rows,
            per_block,
            before[c],
            writer_states(writers@)[c],
            0,
            c,
            #[trigger] stored[c],
        ) by {
            assert(block_columns(rows, per_block, 0, c) =~= Seq::<Seq<Scalar>>::empty());
        }
    }
    while start < len
        invariant
            start <= len,
            len == data@.len(),
            rows == data.deep_view(),
            rows.len() == len,
            cols == table.columns@,
            per_block == rows_per_block,
            rows_per_block > 0,
            writers@.len() == cols.len(),
            rectangular(data@, cols.len() as int),
            old(writers)@.len() == cols.len(),
            before == writer_states(old(writers)@),
            0 <= k,
            k == 0 ==> writers@ == old(writers)@,
            start == block_start(len as int, per_block, k),
            flushed(cols, rows, per_block, before, writer_states(writers@), k, stored),
        decreases len - start,
    {
        let end: usize = if len - start > rows_per_block {
            start + rows_per_block
        } else {
            len
        };
        let ghost mid = writers@;
        let ghost mid_states = writer_states(writers@);
        proof {
            lemma_block_count(len as int, per_block, k);
            lemma_block_count(len as int, per_block, k + 1);
            assert((k + 1) * per_block == k * per_block + per_block) by (nonlinear_arith);
            assert(start == k * per_block);
            assert(end == block_start(len as int, per_block, k + 1));
        }
        match write_block(table, data, start, end, writers) {
            Ok(_) => {
                proof {
                    let after = writer_states(writers@);
                    assert forall|c: int| 0 <= c < cols.len() implies block_written(
                        cols,
                        rows,
                        start as int,
                        end as int,
                        c,
                        mid_states[c],
                        #[trigger] after[c],
                    ) by {
                        assert(block_written(
                            cols,
                            rows,
                            start as int,
                            end as int,
                            c,
                            mid[c]@,
                            writers@[c]@,
                        ));
                    }
                    lemma_flush_block(cols, rows, per_block, before, mid_states, after, k, stored);
                    stored = grow(stored, mid_states, after);
                    k = k + 1;
                }
            },
            Err(e) => {
                proof {
                    assert(writer_states(writers@) =~= mid_states);
                    let fault = block_fault(
                        cols,
                        rows,
                        start as int,
                        end as int,
                        mid_states,
                        cols.len() as int,
                    );
                    if fault is None {
                        let c = choose|c: int|
                            0 <= c < cols.len() && e == (StoreError::CompressionError {
                                column: (#[trigger] cols[c]).name,
                                offset: mid[c].position,
                            });
                        assert(mid_states[c].position as u64 == mid[c].position);
                    }
                    assert(outcome(cols, rows, per_block, mid_states, k, Err(e)));
                }
                return Err(e);
            },
        }
        start = end;
    }
    proof {
        lemma_block_count(len as int, per_block, k);
        if k > 0 {
            lemma_block_count(len as int, per_block, k - 1);
        }
        assert(k == block_count(len as int, per_block));
        assert(outcome(cols, rows, per_block, writer_states(writers@), k, Ok(())));
    }
    Ok(())
}

/// Writes `data` to the table `table` in blocks of [`ROWS_PER_BLOCK`] rows.
pub fn write_data(
    table: &TableMetaData,
    data: &Vec<Vec<DValue>>,
    writers: &mut Vec<ColumnWriter>,
) -> (res: Result<(), StoreError>)
    requires
        old(writers)@.len() == table.columns@.len(),
        rectangular(data@, table.columns@.len() as int),
    ensures
        final(writers)@.len() == old(writers)@.len(),
        write_result(
            table.columns@,
            data.deep_view(),
            ROWS_PER_BLOCK as int,
            writer_states(old(writers)@),
            writer_states(final(writers)@),
            res,
        ),
        data@.len() == 0 ==> res is Ok && final(writers)@ == old(writers)@,
{
    write_blocks(table, data, writers, ROWS_PER_BLOCK)
}

/// What is stored of each column once one more block has been written: the
/// bytes that the block added to the column's data, behind what was stored.
pub open spec fn grow(
    stored: Seq<Seq<Seq<u8>>>,
    mid: Seq<WriterState>,
    after: Seq<WriterState>,
) -> Seq<Seq<Seq<u8>>> {
    Seq::new(stored.len(), |c: int| stored[c].push(after[c].data.skip(mid[c].data.len() as int)))
}

/// A writer that takes the compressed form of an encoded column holds that
/// column as one more block.
pub proof fn lemma_block_written(
    cols: Seq<ColumnMetaData>,
    rows: Seq<Seq<Scalar>>,
    start: int,
    end: int,
    c: int,
    before: ColumnWriter,
    after: ColumnWriter,
    column: BlockColumn,
    block: SealedColumn,
)
    requires
        encodes(cols, rows, start, end, c, column),
        seals(block, column, before.position as int),
        appends(before, after, block),
    ensures
        block_written(cols, rows, start, end, c, before@, after@),
{
    let values = column_slice(rows, start, end, c);
    let stored = after@.data.skip(before@.data.len() as int);
    assert(stored =~= block.block@);
    let next = before@.append_block(values, stored);
    assert(after@.position == next.position);
    assert(after@.data == next.data);
    assert(after@.index == next.index);
}

/// Writers that hold `k` blocks and then take block `k` hold `k + 1` blocks.
pub proof fn lemma_flush_block(
    cols: Seq<ColumnMetaData>,
    rows: Seq<Seq<Scalar>>,
    per_block: int,
    before: Seq<WriterState>,
    mid: Seq<WriterState>,
    after: Seq<WriterState>,
    k: int,
    stored: Seq<Seq<Seq<u8>>>,
)
    requires
        flushed(cols, rows, per_block, before, mid, k, stored),
        k < block_count(rows.len() as int, per_block),
        after.len() == cols.len(),
        forall|c: int|
            0 <= c < cols.len() ==> block_written(
                cols,
                rows,
                block_start(rows.len() as int, per_block, k),
                block_start(rows.len() as int, per_block, k + 1),
                c,
                mid[c],
                #[trigger] after[c],
            ),
    ensures
        flushed(cols, rows, per_block, before, after, k + 1, grow(stored, mid, after)),
{
    let grown = grow(stored, mid, after);
    assert forall|c: int| 0 <= c < cols.len() implies column_flushed(
        cols,
        rows,
        per_block,
        before[c],
        after[c],
        k + 1,
        c,
        #[trigger] grown[c],
    ) by {
        let values = block_column(rows, per_block, k, c);
        let fresh = after[c].data.skip(mid[c].data.len() as int);
        assert(column_flushed(cols, rows, per_block, before[c], mid[c], k, c, stored[c]));
        assert(block_written(
            cols,
            rows,
            block_start(rows.len() as int, per_block, k),
            block_start(rows.len() as int, per_block, k + 1),
            c,
            mid[c],
            after[c],
        ));
        let blocks = block_columns(rows, per_block, k + 1, c);
        assert(blocks.drop_last() =~= block_columns(rows, per_block, k, c));
        assert(blocks.last() == values);
        assert(grown[c].drop_last() =~= stored[c]);
        assert(grown[c].last() == fresh);
        assert forall|b: int| 0 <= b < k + 1 implies block_stored(
            cols,
            rows,
            per_block,
            c,
            b,
            #[trigger] grown[c][b],
        ) by {
            if b < k {
                assert(grown[c][b] == stored[c][b]);
            }
        }
    }
}

/// A fault among the first `upto` columns is the fault of the whole block.
pub proof fn lemma_block_fault_prefix(
    cols: Seq<ColumnMetaData>,
    rows: Seq<Seq<Scalar>>,
    start: int,
    end: int,
    writers: Seq<WriterState>,
    upto: int,
)
    requires
        0 <= upto <= cols.len(),
        block_fault(cols, rows, start, end, writers, upto) is Some,
    ensures
        block_fault(cols, rows, start, end, writers, cols.len() as int) == block_fault(
            cols,
            rows,
            start,
            end,
            writers,
            upto,
        ),
    decreases cols.len() - upto,
{
    if upto < cols.len() {
        lemma_block_fault_prefix(cols, rows, start, end, writers, upto + 1);
    }
}

} // verus!
