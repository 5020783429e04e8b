//! What holds of a write and a scan together.

use crate::block::{column_fault, lemma_column_fault_none, sealed, storable};
use crate::cell::{column_bytes, encodable, lemma_column_round_trip};
use crate::chunk::{block_column, block_columns, block_count, block_start, column_slice};
use crate::chunk::{lemma_block_bounds, lemma_block_count, lemma_block_end};
use crate::data::{DType, DValue, Scalar};
use crate::error::StoreError;
use crate::index::{lemma_entry_round_trip, lemma_text_zone_prefix, text_zone, Entry, Zone};
use crate::index::INDEX_ENTRY_BYTES;
use crate::metadata::ColumnMetaData;
use crate::order::{column_max, column_min, is_maximum, is_minimum, lemma_number_bounds};
use crate::order::{lemma_column_max_is_maximum, lemma_column_min_is_minimum};
use crate::scan::{block_read, block_rows, block_values, exhausted, lemma_not_torn, record};
use crate::scan::{record_offset, scanned, scanned_from, torn, transpose, uneven, ColumnFiles};
use crate::storage::{block_fault, block_stored, column_flushed, flushed, outcome, write_result};
use crate::storage::{lemma_block_fault_prefix, rectangular};
use crate::writer::{lemma_append_blocks_at, lemma_append_blocks_sizes, lemma_record_fits};
use crate::writer::WriterState;
use vstd::prelude::*;

verus! {

/// The files that hold what `files` held and, behind it, what `writers`
/// hold.
pub open spec fn appended(files: Seq<ColumnFiles>, writers: Seq<WriterState>) -> Seq<ColumnFiles> {
    Seq::new(
        files.len(),
        |c: int|
            ColumnFiles {
                data: files[c].data + writers[c].data,
                index: files[c].index + writers[c].index,
            },
    )
}

/// Whether `writers` are writers that were just made for the files `files`:
/// each stands at the end of its data file and holds nothing yet.
pub open spec fn opened(files: Seq<ColumnFiles>, writers: Seq<WriterState>) -> bool {
    &&& writers.len() == files.len()
    &&& forall|c: int|
        0 <= c < files.len() ==> (#[trigger] writers[c]) == (WriterState {
            position: files[c].data.len() as int,
            data: Seq::empty(),
            index: Seq::empty(),
        })
}

/// Whether every row has one value for each of `n` columns.
pub open spec fn rows_of_width(rows: Seq<Seq<Scalar>>, n: int) -> bool {
    forall|r: int| 0 <= r < rows.len() ==> (#[trigger] rows[r]).len() == n
}

/// Rows that hold one cell for each of `n` columns hold one value for each
/// of them.
pub proof fn lemma_rows_of_width(data: Vec<Vec<DValue>>, n: int)
    requires
        rectangular(data@, n),
    ensures
        rows_of_width(data.deep_view(), n),
{
    assert forall|r: int| 0 <= r < data.deep_view().len() implies (
    #[trigger] data.deep_view()[r]).len() == n by {
        assert(data@[r]@.len() == n);
    }
}

/// Whether the files `files` of a table with at least one column held `k0`
/// blocks when the writers `before` were made for them, and a write of
/// `rows`, each with one value for each column, has succeeded and left the
/// writers as `after`.
pub open spec fn written_behind(
    cols: Seq<ColumnMetaData>,
    rows: Seq<Seq<Scalar>>,
    per_block: int,
    files: Seq<ColumnFiles>,
    before: Seq<WriterState>,
    after: Seq<WriterState>,
    k0: int,
) -> bool {
    &&& cols.len() > 0
    &&& per_block > 0
    &&& 0 <= k0
    &&& files.len() == cols.len()
    &&& rows_of_width(rows, cols.len() as int)
    &&& exhausted(files, k0)
    &&& opened(files, before)
    &&& write_result(cols, rows, per_block, before, after, Ok(()))
}

/// Round trip. Where the files of a table with at least one column scan to
/// the rows `earlier`, and a write of `rows`, each with one value for each
/// column, by writers made for those files succeeds, the files with what the
/// writers hold appended to them scan to `earlier` followed by `rows`.
pub proof fn lemma_round_trip(
    cols: Seq<ColumnMetaData>,
    rows: Seq<Seq<Scalar>>,
    per_block: int,
    files: Seq<ColumnFiles>,
    before: Seq<WriterState>,
    after: Seq<WriterState>,
    earlier: Seq<Seq<Scalar>>,
)
    requires
        cols.len() > 0,
        per_block > 0,
        files.len() == cols.len(),
        rows_of_width(rows, cols.len() as int),
        opened(files, before),
        scanned(cols, files) == Ok::<Seq<Seq<Scalar>>, StoreError>(earlier),
        write_result(cols, rows, per_block, before, after, Ok(())),
    ensures
        scanned(cols, appended(files, after)) == Ok::<Seq<Seq<Scalar>>, StoreError>(
            earlier + rows,
        ),
{
    let (k, stored) = choose|k: int, stored: Seq<Seq<Seq<u8>>>|
        #[trigger] flushed(cols, rows, per_block, before, after, k, stored) && outcome(
            cols,
            rows,
            per_block,
            after,
            k,
            Ok(()),
        );
    lemma_scan_grown(cols, rows, per_block, files, before, after, stored, earlier, 0);
}

/// Round trip on a new table. Where a write of `rows` to a table with at
/// least one column, by writers made for files that are still empty,
/// succeeds, what the writers hold scans to exactly `rows`, in their order.
pub proof fn lemma_round_trip_new(
    cols: Seq<ColumnMetaData>,
    rows: Seq<Seq<Scalar>>,
    per_block: int,
    before: Seq<WriterState>,
    after: Seq<WriterState>,
)
    requires
        cols.len() > 0,
        per_block > 0,
        rows_of_width(rows, cols.len() as int),
        before.len() == cols.len(),
        forall|c: int|
            0 <= c < cols.len() ==> (#[trigger] before[c]) == (WriterState {
                position: 0,
                data: Seq::empty(),
                index: Seq::empty(),
            }),
        write_result(cols, rows, per_block, before, after, Ok(())),
    ensures
        scanned(
            cols,
            Seq::new(
                cols.len(),
                |c: int| ColumnFiles { data: after[c].data, index: after[c].index },
            ),
        ) == Ok::<Seq<Seq<Scalar>>, StoreError>(rows),
{
    let files = Seq::new(
        cols.len(),
        |c: int| ColumnFiles { data: Seq::<u8>::empty(), index: Seq::<u8>::empty() },
    );
    assert(exhausted(files, 0));
    assert(scanned(cols, files) == Ok::<Seq<Seq<Scalar>>, StoreError>(Seq::empty()));
    lemma_round_trip(cols, rows, per_block, files, before, after, Seq::empty());
    let held = Seq::new(
        cols.len(),
        |c: int| ColumnFiles { data: after[c].data, index: after[c].index },
    );
    assert forall|c: int| 0 <= c < cols.len() implies #[trigger] appended(files, after)[c]
        == held[c] by {
        assert(files[c].data + after[c].data =~= after[c].data);
        assert(files[c].index + after[c].index =~= after[c].index);
    }
    assert(appended(files, after) =~= held);
    assert(Seq::<Seq<Scalar>>::empty() + rows =~= rows);
}

/// Zone bounds. The record of each block that was written, as it is read
/// from the index file, holds the zone values of the smallest and of the
/// largest value of the block in its column: of a value of the block that
/// none of the block is smaller than, and of one that none is larger than.
pub proof fn lemma_zone_bounds(
    cols: Seq<ColumnMetaData>,
    rows: Seq<Seq<Scalar>>,
    per_block: int,
    files: Seq<ColumnFiles>,
    before: Seq<WriterState>,
    after: Seq<WriterState>,
    k0: int,
    j: int,
    c: int,
)
    requires
        written_behind(cols, rows, per_block, files, before, after, k0),
        0 <= j < block_count(rows.len() as int, per_block),
        0 <= c < cols.len(),
    ensures
        ({
            let entry = record(cols[c], appended(files, after)[c], k0 + j);
            let values = block_column(rows, per_block, j, c);
            &&& entry.min == Zone::of(column_min(values))
            &&& entry.max == Zone::of(column_max(values))
            &&& is_minimum(values, column_min(values))
            &&& is_maximum(values, column_max(values))
        }),
{
    lemma_all_flushed(cols, rows, per_block, before, after);
    let stored = stored_of(cols, rows, per_block, before, after);
    let count = block_count(rows.len() as int, per_block);
    let blocks = block_columns(rows, per_block, count, c);
    let values = block_column(rows, per_block, j, c);
    assert(column_flushed(cols, rows, per_block, before[c], after[c], count, c, stored[c]));
    assert(block_stored(cols, rows, per_block, c, j, stored[c][j]));
    assert(before[c] == writer_for(files[c]));
    assert(files[c].index.len() == record_offset(k0));
    lemma_block_bounds(rows.len() as int, per_block, j);
    assert(blocks[j] == values);
    lemma_block_read_back(cols[c], files[c], blocks, stored[c], k0, j);
    assert(appended(files, after)[c] == flushed_to(files[c], after[c]));
    assert(values[0].dtype() == cols[c].dtype);
    assert forall|i: int| 0 <= i < values.len() implies (#[trigger] values[i]).dtype()
        == values[0].dtype() by {}
    lemma_column_min_is_minimum(values);
    lemma_column_max_is_maximum(values);
}

/// Exact zone bounds of integers. In a column of integers the record of
/// each block that was written, as it is read from the index file, holds
/// the smallest and the largest integer of the block.
pub proof fn lemma_number_zone_bounds(
    cols: Seq<ColumnMetaData>,
    rows: Seq<Seq<Scalar>>,
    per_block: int,
    files: Seq<ColumnFiles>,
    before: Seq<WriterState>,
    after: Seq<WriterState>,
    k0: int,
    j: int,
    c: int,
)
    requires
        written_behind(cols, rows, per_block, files, before, after, k0),
        0 <= j < block_count(rows.len() as int, per_block),
        0 <= c < cols.len(),
        cols[c].dtype == DType::Uint64,
    ensures
        ({
            let entry = record(cols[c], appended(files, after)[c], k0 + j);
            let values = block_column(rows, per_block, j, c);
            &&& entry.min is Number
            &&& entry.max is Number
            &&& exists|i: int|
                0 <= i < values.len() && #[trigger] values[i] == Scalar::Number(
                    entry.min->Number_0,
                )
            &&& exists|i: int|
                0 <= i < values.len() && #[trigger] values[i] == Scalar::Number(
                    entry.max->Number_0,
                )
            &&& forall|i: int|
                0 <= i < values.len() ==> (#[trigger] values[i]) is Number
                    && entry.min->Number_0 <= values[i]->Number_0 <= entry.max->Number_0
        }),
{
    lemma_all_flushed(cols, rows, per_block, before, after);
    let stored = stored_of(cols, rows, per_block, before, after);
    let count = block_count(rows.len() as int, per_block);
    let values = block_column(rows, per_block, j, c);
    lemma_zone_bounds(cols, rows, per_block, files, before, after, k0, j, c);
    lemma_block_bounds(rows.len() as int, per_block, j);
    assert(column_flushed(cols, rows, per_block, before[c], after[c], count, c, stored[c]));
    assert(block_stored(cols, rows, per_block, c, j, stored[c][j]));
    assert forall|i: int| 0 <= i < values.len() implies (#[trigger] values[i]) is Number by {
        assert(values[i].dtype() == DType::Uint64);
    }
    lemma_number_bounds(values);
    let lo = choose|i: int| 0 <= i < values.len() && #[trigger] values[i] == column_min(values);
    let hi = choose|i: int| 0 <= i < values.len() && #[trigger] values[i] == column_max(values);
    assert(values[lo] == Scalar::Number(column_min(values)->Number_0));
    assert(values[hi] == Scalar::Number(column_max(values)->Number_0));
}

/// The number of bytes of a text that its zone value holds: eight, or all
/// of a shorter text.
pub open spec fn prefix_len(text: Seq<u8>) -> int {
    if text.len() < 8 {
        text.len() as int
    } else {
        8
    }
}

/// Prefix zone bounds of texts. In a column of texts the record of each
/// block that was written, as it is read from the index file, holds the
/// first bytes, at most eight, of the text of the block that comes first in
/// the order of their bytes, and of the text that comes last, with zero
/// bytes behind a text of fewer than eight bytes.
pub proof fn lemma_text_zone_bounds(
    cols: Seq<ColumnMetaData>,
    rows: Seq<Seq<Scalar>>,
    per_block: int,
    files: Seq<ColumnFiles>,
    before: Seq<WriterState>,
    after: Seq<WriterState>,
    k0: int,
    j: int,
    c: int,
)
    requires
        written_behind(cols, rows, per_block, files, before, after, k0),
        0 <= j < block_count(rows.len() as int, per_block),
        0 <= c < cols.len(),
        cols[c].dtype == DType::String,
    ensures
        ({
            let entry = record(cols[c], appended(files, after)[c], k0 + j);
            let values = block_column(rows, per_block, j, c);
            let first = column_min(values).text_bytes();
            let last = column_max(values).text_bytes();
            &&& is_minimum(values, column_min(values))
            &&& is_maximum(values, column_max(values))
            &&& entry.min == Zone::Prefix(text_zone(first))
            &&& entry.max == Zone::Prefix(text_zone(last))
            &&& text_zone(first).take(prefix_len(first)) == first.take(prefix_len(first))
            &&& text_zone(last).take(prefix_len(last)) == last.take(prefix_len(last))
        }),
{
    lemma_all_flushed(cols, rows, per_block, before, after);
    let stored = stored_of(cols, rows, per_block, before, after);
    let values = block_column(rows, per_block, j, c);
    lemma_zone_bounds(cols, rows, per_block, files, before, after, k0, j, c);
    lemma_block_bounds(rows.len() as int, per_block, j);
    let count = block_count(rows.len() as int, per_block);
    assert(column_flushed(cols, rows, per_block, before[c], after[c], count, c, stored[c]));
    assert(block_stored(cols, rows, per_block, c, j, stored[c][j]));
    assert(values[0].dtype() == DType::String);
    assert forall|i: int| 0 <= i < values.len() implies (#[trigger] values[i]).dtype()
        == values[0].dtype() by {}
    lemma_column_min_is_minimum(values);
    lemma_column_max_is_maximum(values);
    let first = column_min(values).text_bytes();
    let last = column_max(values).text_bytes();
    lemma_text_zone_prefix(first);
    lemma_text_zone_prefix(last);
    assert(text_zone(first).take(prefix_len(first)) =~= first.take(prefix_len(first)));
    assert(text_zone(last).take(prefix_len(last)) =~= last.take(prefix_len(last)));
}

/// Block chunking. A write that succeeds leaves in each writer one record
/// for each block of the rows: as many blocks as it takes to hold the rows,
/// `per_block` rows in each but the last, which holds the rest.
pub proof fn lemma_block_chunking(
    cols: Seq<ColumnMetaData>,
    rows: Seq<Seq<Scalar>>,
    per_block: int,
    before: Seq<WriterState>,
    after: Seq<WriterState>,
    c: int,
)
    requires
        per_block > 0,
        0 <= c < cols.len(),
        write_result(cols, rows, per_block, before, after, Ok(())),
    ensures
        after[c].index.len() == before[c].index.len() + INDEX_ENTRY_BYTES * block_count(
            rows.len() as int,
            per_block,
        ),
        block_count(rows.len() as int, per_block) * per_block >= rows.len(),
        (block_count(rows.len() as int, per_block) - 1) * per_block < rows.len() || rows.len()
            == 0,
        forall|b: int|
            0 <= b < block_count(rows.len() as int, per_block) ==> (#[trigger] block_column(
                rows,
                per_block,
                b,
                c,
            )).len() == (if (b + 1) * per_block <= rows.len() {
                per_block
            } else {
                rows.len() - b * per_block
            }),
{
    let (k, stored) = choose|k: int, stored: Seq<Seq<Seq<u8>>>|
        #[trigger] flushed(cols, rows, per_block, before, after, k, stored) && outcome(
            cols,
            rows,
            per_block,
            after,
            k,
            Ok(()),
        );
    let count = block_count(rows.len() as int, per_block);
    assert(column_flushed(cols, rows, per_block, before[c], after[c], count, c, stored[c]));
    lemma_append_blocks_sizes(before[c], block_columns(rows, per_block, count, c), stored[c]);
    lemma_block_count(rows.len() as int, per_block, count);
    if count > 0 {
        lemma_block_count(rows.len() as int, per_block, count - 1);
    } else {
        lemma_block_count(rows.len() as int, per_block, 0);
    }
    assert forall|b: int| 0 <= b < count implies (#[trigger] block_column(
        rows,
        per_block,
        b,
        c,
    )).len() == (if (b + 1) * per_block <= rows.len() {
        per_block
    } else {
        rows.len() - b * per_block
    }) by {
        lemma_block_bounds(rows.len() as int, per_block, b);
        assert((b + 1) * per_block == b * per_block + per_block) by (nonlinear_arith);
    }
}

/// An empty write is a no-op. A write of no rows succeeds and leaves every
/// writer as it was: no record and no data are added.
pub proof fn lemma_empty_write(
    cols: Seq<ColumnMetaData>,
    per_block: int,
    before: Seq<WriterState>,
    after: Seq<WriterState>,
    res: Result<(), StoreError>,
)
    requires
        per_block > 0,
        write_result(cols, Seq::empty(), per_block, before, after, res),
    ensures
        res is Ok,
        after == before,
{
    let rows = Seq::<Seq<Scalar>>::empty();
    let (k, stored) = choose|k: int, stored: Seq<Seq<Seq<u8>>>|
        #[trigger] flushed(cols, rows, per_block, before, after, k, stored) && outcome(
            cols,
            rows,
            per_block,
            after,
            k,
            res,
        );
    lemma_block_count(0, per_block, 0);
    assert(block_count(0, per_block) == 0);
    assert forall|c: int| 0 <= c < cols.len() implies after[c] == before[c] by {
        assert(column_flushed(cols, rows, per_block, before[c], after[c], k, c, stored[c]));
        assert(block_columns(rows, per_block, 0, c) =~= Seq::<Seq<Scalar>>::empty());
    }
    assert(after =~= before);
}

/// Whether `e` is a failure that a cell of the column `col` can cause: a
/// schema mismatch that names the column, its declared type and another
/// type, or a compression error that names the column.
pub open spec fn fault_of_column(col: ColumnMetaData, e: StoreError) -> bool {
    match e {
        StoreError::SchemaMismatch { column, expected, found } => column == col.name && expected
            == col.dtype && found != col.dtype,
        StoreError::CompressionError { column, offset } => column == col.name,
        _ => false,
    }
}

/// A write fails only with a failure that a cell of one of the columns can
/// cause: a schema mismatch or a compression error that names a column of
/// the table.
pub proof fn lemma_write_failure(
    cols: Seq<ColumnMetaData>,
    rows: Seq<Seq<Scalar>>,
    per_block: int,
    before: Seq<WriterState>,
    after: Seq<WriterState>,
    e: StoreError,
)
    requires
        write_result(cols, rows, per_block, before, after, Err(e)),
    ensures
        exists|c: int| 0 <= c < cols.len() && fault_of_column(#[trigger] cols[c], e),
{
    let n = rows.len() as int;
    let (k, stored) = choose|k: int, stored: Seq<Seq<Seq<u8>>>|
        #[trigger] flushed(cols, rows, per_block, before, after, k, stored) && outcome(
            cols,
            rows,
            per_block,
            after,
            k,
            Err(e),
        );
    let fault = block_fault(
        cols,
        rows,
        block_start(n, per_block, k),
        block_start(n, per_block, k + 1),
        after,
        cols.len() as int,
    );
    if fault is Some {
        lemma_block_fault_kind(
            cols,
            rows,
            block_start(n, per_block, k),
            block_start(n, per_block, k + 1),
            after,
            cols.len() as int,
        );
    } else {
        let c = choose|c: int|
            0 <= c < cols.len() && e == (StoreError::CompressionError {
                column: (#[trigger] cols[c]).name,
                offset: after[c].position as u64,
            });
        assert(fault_of_column(cols[c], e));
    }
}

/// Type enforcement. A write of rows of which one holds, for some column, a
/// value of another type than the column declares, fails: with a schema
/// mismatch, or with a compression error, each naming a column of the
/// table. It flushes no block but such as lie before the row: the block of
/// the row, and the blocks behind it, add nothing to any writer.
pub proof fn lemma_type_enforcement(
    cols: Seq<ColumnMetaData>,
    rows: Seq<Seq<Scalar>>,
    per_block: int,
    before: Seq<WriterState>,
    after: Seq<WriterState>,
    res: Result<(), StoreError>,
    r: int,
    c: int,
)
    requires
        per_block > 0,
        0 <= r < rows.len(),
        0 <= c < cols.len(),
        rows[r][c].dtype() != cols[c].dtype,
        write_result(cols, rows, per_block, before, after, res),
    ensures
        res is Err,
        exists|j: int| 0 <= j < cols.len() && fault_of_column(#[trigger] cols[j], res->Err_0),
        exists|k: int, stored: Seq<Seq<Seq<u8>>>|
            #[trigger] flushed(cols, rows, per_block, before, after, k, stored) && k * per_block
                <= r,
{
    let n = rows.len() as int;
    let (k, stored) = choose|k: int, stored: Seq<Seq<Seq<u8>>>|
        #[trigger] flushed(cols, rows, per_block, before, after, k, stored) && outcome(
            cols,
            rows,
            per_block,
            after,
            k,
            res,
        );
    if k * per_block > r {
        let g = r / per_block;
        assert(g * per_block <= r < g * per_block + per_block && 0 <= g) by (nonlinear_arith)
            requires
                g == r / per_block,
                0 < per_block,
                0 <= r,
        ;
        assert(g < k) by (nonlinear_arith)
            requires
                g * per_block <= r,
                r < k * per_block,
                0 < per_block,
        ;
        lemma_block_bounds(n, per_block, g);
        assert((g + 1) * per_block == g * per_block + per_block) by (nonlinear_arith);
        let values = block_column(rows, per_block, g, c);
        assert(column_flushed(cols, rows, per_block, before[c], after[c], k, c, stored[c]));
        assert(block_stored(cols, rows, per_block, c, g, stored[c][g]));
        assert(values[r - g * per_block] == rows[r][c]);
        assert(false);
    }
    lemma_block_count(n, per_block, k);
    lemma_write_failure(cols, rows, per_block, before, after, res->Err_0);
}

/// Where the block that a failed write stopped at holds a value of another
/// type than its column declares, and no text too long to encode, the write
/// failed with a schema mismatch.
pub proof fn lemma_mismatch_reported(
    cols: Seq<ColumnMetaData>,
    rows: Seq<Seq<Scalar>>,
    per_block: int,
    before: Seq<WriterState>,
    after: Seq<WriterState>,
    res: Result<(), StoreError>,
    k: int,
    stored: Seq<Seq<Seq<u8>>>,
    r: int,
    c: int,
)
    requires
        per_block > 0,
        flushed(cols, rows, per_block, before, after, k, stored),
        outcome(cols, rows, per_block, after, k, res),
        k < block_count(rows.len() as int, per_block),
        block_start(rows.len() as int, per_block, k) <= r < block_start(
            rows.len() as int,
            per_block,
            k + 1,
        ),
        0 <= c < cols.len(),
        rows[r][c].dtype() != cols[c].dtype,
        forall|i: int, j: int|
            0 <= i < rows.len() && 0 <= j < cols.len() ==> encodable(#[trigger] rows[i][j]),
    ensures
        res is Err,
        res->Err_0 is SchemaMismatch,
{
    let n = rows.len() as int;
    let start = block_start(n, per_block, k);
    let end = block_start(n, per_block, k + 1);
    lemma_block_bounds(n, per_block, k);
    let values = column_slice(rows, start, end, c);
    assert(values[r - start] == rows[r][c]);
    lemma_column_fault_none(cols[c], values, after[c].position as u64);
    assert(column_fault(cols[c], values, after[c].position as u64) is Some);
    lemma_block_fault_found(cols, rows, start, end, after, c + 1);
    let fault = block_fault(cols, rows, start, end, after, cols.len() as int);
    lemma_block_fault_mismatch(cols, rows, start, end, after, cols.len() as int);
}

/// The files of one column once a writer, made for the files `file` and
/// grown to `after`, has been flushed to them.
pub open spec fn flushed_to(file: ColumnFiles, after: WriterState) -> ColumnFiles {
    ColumnFiles { data: file.data + after.data, index: file.index + after.index }
}

/// The writer that is made for the files `file`.
pub open spec fn writer_for(file: ColumnFiles) -> WriterState {
    WriterState { position: file.data.len() as int, data: Seq::empty(), index: Seq::empty() }
}

/// What reading a block comes to where its record and its stored bytes are
/// known: the values that the stored bytes are a compressed form of.
pub proof fn lemma_block_values_known(
    col: ColumnMetaData,
    files: ColumnFiles,
    k: int,
    entry: Entry,
    values: Seq<Scalar>,
    stored: Seq<u8>,
)
    requires
        storable(col.dtype, values),
        sealed(values, stored),
        record(col, files, k) == entry,
        entry.compressed_size == stored.len(),
        entry.decompressed_size == column_bytes(values).len(),
        entry.start_position + entry.compressed_size <= files.data.len(),
        files.data.subrange(
            entry.start_position as int,
            entry.start_position + entry.compressed_size,
        ) == stored,
    ensures
        block_values(col, files, k) == Ok::<Seq<Scalar>, StoreError>(values),
{
    lemma_column_round_trip(values, col.dtype);
}

/// A record and a block that lie in what a writer holds lie in the files
/// that the writer is flushed to: the record behind the records that the
/// files held, the block at the offset that the writer had reached.
pub proof fn lemma_flushed_ranges(
    file: ColumnFiles,
    after: WriterState,
    k0: int,
    j: int,
    at_index: int,
    at_data: int,
    size: int,
)
    requires
        0 <= k0,
        0 <= j,
        file.index.len() == record_offset(k0),
        at_index == INDEX_ENTRY_BYTES * j,
        at_index + INDEX_ENTRY_BYTES <= after.index.len(),
        0 <= at_data,
        0 <= size,
        at_data + size <= after.data.len(),
    ensures
        flushed_to(file, after).index.subrange(record_offset(k0 + j), record_offset(k0 + j + 1))
            == after.index.subrange(at_index, at_index + INDEX_ENTRY_BYTES),
        flushed_to(file, after).data.subrange(
            file.data.len() + at_data,
            file.data.len() + at_data + size,
        ) == after.data.subrange(at_data, at_data + size),
        file.data.len() + at_data + size <= flushed_to(file, after).data.len(),
{
    let files = flushed_to(file, after);
    assert(record_offset(k0 + j) == file.index.len() + at_index);
    assert(record_offset(k0 + j + 1) == file.index.len() + at_index + INDEX_ENTRY_BYTES);
    assert(files.index.subrange(record_offset(k0 + j), record_offset(k0 + j + 1))
        =~= after.index.subrange(at_index, at_index + INDEX_ENTRY_BYTES));
    assert(files.data.subrange(file.data.len() + at_data, file.data.len() + at_data + size)
        =~= after.data.subrange(at_data, at_data + size));
}

/// A block that a writer appended is read back as it was written: block `j`
/// of the blocks `blocks`, appended to files that held `k0` blocks, is block
/// `k0 + j` of the files, and its values are those that were written.
pub proof fn lemma_block_read_back(
    col: ColumnMetaData,
    file: ColumnFiles,
    blocks: Seq<Seq<Scalar>>,
    stored: Seq<Seq<u8>>,
    k0: int,
    j: int,
)
    requires
        0 <= k0,
        file.index.len() == record_offset(k0),
        blocks.len() == stored.len(),
        0 <= j < blocks.len(),
        blocks[j].len() > 0,
        storable(col.dtype, blocks[j]),
        sealed(blocks[j], stored[j]),
        writer_for(file).append_blocks(blocks, stored).position <= u64::MAX,
    ensures
        block_values(
            col,
            flushed_to(file, writer_for(file).append_blocks(blocks, stored)),
            k0 + j,
        ) == Ok::<Seq<Scalar>, StoreError>(blocks[j]),
        record(
            col,
            flushed_to(file, writer_for(file).append_blocks(blocks, stored)),
            k0 + j,
        ).min == Zone::of(column_min(blocks[j])),
        record(
            col,
            flushed_to(file, writer_for(file).append_blocks(blocks, stored)),
            k0 + j,
        ).max == Zone::of(column_max(blocks[j])),
{
    let w = writer_for(file);
    let after = w.append_blocks(blocks, stored);
    let at = w.append_blocks(blocks.take(j), stored.take(j));
    let files = flushed_to(file, after);
    let values = blocks[j];
    let entry = at.entry(values, stored[j]);
    lemma_append_blocks_at(w, blocks, stored, j);
    lemma_append_blocks_sizes(w, blocks, stored);
    lemma_record_fits(at, col.dtype, values, stored[j]);
    lemma_entry_round_trip(entry, col.dtype, Seq::empty());
    assert(entry.bytes() + Seq::<u8>::empty() =~= entry.bytes());
    lemma_flushed_ranges(
        file,
        after,
        k0,
        j,
        at.index.len() as int,
        at.data.len() as int,
        stored[j].len() as int,
    );
    assert(record(col, files, k0 + j) == entry);
    assert(entry.start_position == file.data.len() + at.data.len());
    lemma_block_values_known(col, files, k0 + j, entry, values, stored[j]);
}

/// Where every index file holds record `k`, no column is torn there.
pub proof fn lemma_none_torn(files: Seq<ColumnFiles>, k: int, from: int)
    requires
        0 <= from,
        forall|c: int|
            0 <= c < files.len() ==> (#[trigger] files[c]).index.len() >= record_offset(k + 1),
    ensures
        torn(files, k, from) is None,
    decreases files.len() - from,
{
    if from < files.len() {
        lemma_none_torn(files, k, from + 1);
    }
}

/// Where the first `upto` columns are as long as the first, none of them is
/// uneven.
pub proof fn lemma_none_uneven(columns: Seq<Seq<Scalar>>, upto: int)
    requires
        forall|c: int| 0 <= c < upto ==> (#[trigger] columns[c]).len() == columns[0].len(),
    ensures
        uneven(columns, upto) is None,
    decreases upto,
{
    if upto > 0 {
        lemma_none_uneven(columns, upto - 1);
    }
}

/// As what the blocks of a write that has succeeded are stored.
pub open spec fn stored_of(
    cols: Seq<ColumnMetaData>,
    rows: Seq<Seq<Scalar>>,
    per_block: int,
    before: Seq<WriterState>,
    after: Seq<WriterState>,
) -> Seq<Seq<Seq<u8>>> {
    choose|stored: Seq<Seq<Seq<u8>>>|
        flushed(
            cols,
            rows,
            per_block,
            before,
            after,
            block_count(rows.len() as int, per_block),
            stored,
        )
}

/// A write that has succeeded has flushed every block.
pub proof fn lemma_all_flushed(
    cols: Seq<ColumnMetaData>,
    rows: Seq<Seq<Scalar>>,
    per_block: int,
    before: Seq<WriterState>,
    after: Seq<WriterState>,
)
    requires
        write_result(cols, rows, per_block, before, after, Ok(())),
    ensures
        flushed(
            cols,
            rows,
            per_block,
            before,
            after,
            block_count(rows.len() as int, per_block),
            stored_of(cols, rows, per_block, before, after),
        ),
{
    let (k, stored) = choose|k: int, stored: Seq<Seq<Seq<u8>>>|
        #[trigger] flushed(cols, rows, per_block, before, after, k, stored) && outcome(
            cols,
            rows,
            per_block,
            after,
            k,
            Ok(()),
        );
    assert(flushed(
        cols,
        rows,
        per_block,
        before,
        after,
        block_count(rows.len() as int, per_block),
        stored,
    ));
}

/// Whether the files `files` held `k0` blocks when the writers `before`
/// were made for them, and the writers, grown to `after`, hold all the
/// blocks of `rows`, stored as `stored`.
pub open spec fn stored_behind(
    cols: Seq<ColumnMetaData>,
    rows: Seq<Seq<Scalar>>,
    per_block: int,
    files: Seq<ColumnFiles>,
    before: Seq<WriterState>,
    after: Seq<WriterState>,
    stored: Seq<Seq<Seq<u8>>>,
    k0: int,
) -> bool {
    &&& cols.len() > 0
    &&& per_block > 0
    &&& 0 <= k0
    &&& files.len() == cols.len()
    &&& rows_of_width(rows, cols.len() as int)
    &&& exhausted(files, k0)
    &&& opened(files, before)
    &&& flushed(
        cols,
        rows,
        per_block,
        before,
        after,
        block_count(rows.len() as int, per_block),
        stored,
    )
}

/// The columns of block `j` of `rows`, the first `upto` of them.
pub open spec fn columns_of_block(
    rows: Seq<Seq<Scalar>>,
    per_block: int,
    j: int,
    upto: int,
) -> Seq<Seq<Scalar>> {
    Seq::new(upto as nat, |c: int| block_column(rows, per_block, j, c))
}

/// Each column of a block that was written is read back as it was written.
pub proof fn lemma_columns_read_back(
    cols: Seq<ColumnMetaData>,
    rows: Seq<Seq<Scalar>>,
    per_block: int,
    files: Seq<ColumnFiles>,
    before: Seq<WriterState>,
    after: Seq<WriterState>,
    stored: Seq<Seq<Seq<u8>>>,
    k0: int,
    j: int,
    upto: int,
)
    requires
        stored_behind(cols, rows, per_block, files, before, after, stored, k0),
        0 <= j < block_count(rows.len() as int, per_block),
        0 <= upto <= cols.len(),
    ensures
        block_read(cols, appended(files, after), k0 + j, upto) == Ok::<
            Seq<Seq<Scalar>>,
            StoreError,
        >(columns_of_block(rows, per_block, j, upto)),
    decreases upto,
{
    let count = block_count(rows.len() as int, per_block);
    if upto == 0 {
        assert(columns_of_block(rows, per_block, j, upto) =~= Seq::<Seq<Scalar>>::empty());
    } else {
        let c = upto - 1;
        lemma_columns_read_back(cols, rows, per_block, files, before, after, stored, k0, j, c);
        let blocks = block_columns(rows, per_block, count, c);
        assert(column_flushed(cols, rows, per_block, before[c], after[c], count, c, stored[c]));
        assert(block_stored(cols, rows, per_block, c, j, stored[c][j]));
        assert(before[c] == writer_for(files[c]));
        assert(files[c].index.len() == record_offset(k0));
        lemma_block_bounds(rows.len() as int, per_block, j);
        assert(blocks[j] == block_column(rows, per_block, j, c));
        lemma_block_read_back(cols[c], files[c], blocks, stored[c], k0, j);
        assert(appended(files, after)[c] == flushed_to(files[c], after[c]));
        assert(columns_of_block(rows, per_block, j, upto) =~= columns_of_block(
            rows,
            per_block,
            j,
            c,
        ).push(block_column(rows, per_block, j, c)));
    }
}

/// A block that was written is read back as the rows that it was made of.
pub proof fn lemma_block_rows_read_back(
    cols: Seq<ColumnMetaData>,
    rows: Seq<Seq<Scalar>>,
    per_block: int,
    files: Seq<ColumnFiles>,
    before: Seq<WriterState>,
    after: Seq<WriterState>,
    stored: Seq<Seq<Seq<u8>>>,
    k0: int,
    j: int,
)
    requires
        stored_behind(cols, rows, per_block, files, before, after, stored, k0),
        0 <= j < block_count(rows.len() as int, per_block),
    ensures
        block_rows(cols, appended(files, after), k0 + j) == Ok::<Seq<Seq<Scalar>>, StoreError>(
            rows.subrange(
                block_start(rows.len() as int, per_block, j),
                block_start(rows.len() as int, per_block, j + 1),
            ),
        ),
{
    let n = cols.len() as int;
    let columns = columns_of_block(rows, per_block, j, n);
    let start = block_start(rows.len() as int, per_block, j);
    let end = block_start(rows.len() as int, per_block, j + 1);
    lemma_columns_read_back(cols, rows, per_block, files, before, after, stored, k0, j, n);
    lemma_block_bounds(rows.len() as int, per_block, j);
    lemma_none_uneven(columns, n);
    assert forall|r: int| 0 <= r < end - start implies #[trigger] transpose(columns)[r]
        == rows.subrange(start, end)[r] by {
        assert(rows[start + r].len() == n);
        assert(transpose(columns)[r] =~= rows[start + r]);
    }
    assert(transpose(columns) =~= rows.subrange(start, end));
}

/// The scan of what was written, from block `j` of it on, gives the rows
/// from that block on.
pub proof fn lemma_scan_written(
    cols: Seq<ColumnMetaData>,
    rows: Seq<Seq<Scalar>>,
    per_block: int,
    files: Seq<ColumnFiles>,
    before: Seq<WriterState>,
    after: Seq<WriterState>,
    stored: Seq<Seq<Seq<u8>>>,
    k0: int,
    j: int,
)
    requires
        stored_behind(cols, rows, per_block, files, before, after, stored, k0),
        0 <= j <= block_count(rows.len() as int, per_block),
    ensures
        scanned_from(cols, appended(files, after), k0 + j) == Ok::<Seq<Seq<Scalar>>, StoreError>(
            rows.skip(block_start(rows.len() as int, per_block, j)),
        ),
    decreases block_count(rows.len() as int, per_block) - j,
{
    let count = block_count(rows.len() as int, per_block);
    let grown = appended(files, after);
    assert forall|c: int| 0 <= c < grown.len() implies (#[trigger] grown[c]).index.len()
        == record_offset(k0 + count) by {
        assert(column_flushed(cols, rows, per_block, before[c], after[c], count, c, stored[c]));
        lemma_append_blocks_sizes(
            before[c],
            block_columns(rows, per_block, count, c),
            stored[c],
        );
        assert(files[c].index.len() == record_offset(k0));
        assert(before[c] == writer_for(files[c]));
    }
    if j == count {
        lemma_block_end(rows.len() as int, per_block);
        assert(rows.skip(rows.len() as int) =~= Seq::<Seq<Scalar>>::empty());
    } else {
        let start = block_start(rows.len() as int, per_block, j);
        let end = block_start(rows.len() as int, per_block, j + 1);
        lemma_block_bounds(rows.len() as int, per_block, j);
        assert(grown[0].index.len() != record_offset(k0 + j));
        lemma_none_torn(grown, k0 + j, 0);
        lemma_block_rows_read_back(cols, rows, per_block, files, before, after, stored, k0, j);
        lemma_scan_written(cols, rows, per_block, files, before, after, stored, k0, j + 1);
        assert(rows.subrange(start, end) + rows.skip(end) =~= rows.skip(start));
    }
}

/// A block that lies within the files is read as the same values once the
/// files have grown.
pub proof fn lemma_block_values_stay(
    col: ColumnMetaData,
    file: ColumnFiles,
    more: WriterState,
    k: int,
)
    requires
        0 <= k,
        record_offset(k + 1) <= file.index.len(),
        block_values(col, file, k) is Ok,
    ensures
        block_values(col, flushed_to(file, more), k) == block_values(col, file, k),
{
    let grown = flushed_to(file, more);
    assert(grown.index.subrange(record_offset(k), record_offset(k + 1)) =~= file.index.subrange(
        record_offset(k),
        record_offset(k + 1),
    ));
    let entry = record(col, file, k);
    assert(record(col, grown, k) == entry);
    assert(grown.data.subrange(
        entry.start_position as int,
        entry.start_position + entry.compressed_size,
    ) =~= file.data.subrange(
        entry.start_position as int,
        entry.start_position + entry.compressed_size,
    ));
}

/// Columns of a block that are read from the files are read as the same
/// values once the files have grown.
pub proof fn lemma_block_read_stays(
    cols: Seq<ColumnMetaData>,
    files: Seq<ColumnFiles>,
    more: Seq<WriterState>,
    k: int,
    upto: int,
)
    requires
        0 <= k,
        0 <= upto <= files.len(),
        forall|c: int|
            0 <= c < files.len() ==> (#[trigger] files[c]).index.len() >= record_offset(k + 1),
        block_read(cols, files, k, upto) is Ok,
    ensures
        block_read(cols, appended(files, more), k, upto) == block_read(cols, files, k, upto),
    decreases upto,
{
    if upto > 0 {
        let c = upto - 1;
        lemma_block_read_stays(cols, files, more, k, c);
        assert(files[c].index.len() >= record_offset(k + 1));
        lemma_block_values_stay(cols[c], files[c], more[c], k);
        assert(appended(files, more)[c] == flushed_to(files[c], more[c]));
    }
}

/// The scan of files that have grown by a write gives what the scan of the
/// files gave before, and behind it the rows that were written.
pub proof fn lemma_scan_grown(
    cols: Seq<ColumnMetaData>,
    rows: Seq<Seq<Scalar>>,
    per_block: int,
    files: Seq<ColumnFiles>,
    before: Seq<WriterState>,
    after: Seq<WriterState>,
    stored: Seq<Seq<Seq<u8>>>,
    earlier: Seq<Seq<Scalar>>,
    k: int,
)
    requires
        cols.len() > 0,
        per_block > 0,
        0 <= k,
        files.len() == cols.len(),
        rows_of_width(rows, cols.len() as int),
        opened(files, before),
        flushed(
            cols,
            rows,
            per_block,
            before,
            after,
            block_count(rows.len() as int, per_block),
            stored,
        ),
        scanned_from(cols, files, k) == Ok::<Seq<Seq<Scalar>>, StoreError>(earlier),
    ensures
        scanned_from(cols, appended(files, after), k) == Ok::<Seq<Seq<Scalar>>, StoreError>(
            earlier + rows,
        ),
    decreases files[0].index.len() - record_offset(k),
{
    let grown = appended(files, after);
    if exhausted(files, k) {
        lemma_scan_written(cols, rows, per_block, files, before, after, stored, k, 0);
        lemma_block_count(rows.len() as int, per_block, 0);
        assert(rows.skip(0) =~= rows);
        assert(earlier + rows =~= rows);
    } else {
        lemma_not_torn(files, k, 0);
        let block = block_rows(cols, files, k)->Ok_0;
        let rest = scanned_from(cols, files, k + 1)->Ok_0;
        assert(earlier == block + rest);
        assert forall|c: int| 0 <= c < grown.len() implies (#[trigger] grown[c]).index.len()
            >= record_offset(k + 1) by {
            assert(files[c].index.len() >= record_offset(k + 1));
        }
        assert(grown[0].index.len() != record_offset(k));
        lemma_none_torn(grown, k, 0);
        lemma_block_read_stays(cols, files, after, k, cols.len() as int);
        assert(block_rows(cols, grown, k) == block_rows(cols, files, k));
        lemma_scan_grown(cols, rows, per_block, files, before, after, stored, rest, k + 1);
        assert(block + (rest + rows) =~= (block + rest) + rows);
    }
}

/// The fault of a column is a failure that a cell of the column can cause.
pub proof fn lemma_column_fault_kind(col: ColumnMetaData, values: Seq<Scalar>, position: u64)
    requires
        column_fault(col, values, position) is Some,
    ensures
        fault_of_column(col, column_fault(col, values, position)->Some_0),
    decreases values.len(),
{
    if values.len() > 0 && column_fault(col, values.drop_last(), position) is Some {
        lemma_column_fault_kind(col, values.drop_last(), position);
    }
}

/// The fault of a block is a failure that a cell of one of its columns can
/// cause.
pub proof fn lemma_block_fault_kind(
    cols: Seq<ColumnMetaData>,
    rows: Seq<Seq<Scalar>>,
    start: int,
    end: int,
    writers: Seq<WriterState>,
    upto: int,
)
    requires
        0 <= upto <= cols.len(),
        block_fault(cols, rows, start, end, writers, upto) is Some,
    ensures
        exists|c: int|
            0 <= c < cols.len() && fault_of_column(
                #[trigger] cols[c],
                block_fault(cols, rows, start, end, writers, upto)->Some_0,
            ),
    decreases upto,
{
    if block_fault(cols, rows, start, end, writers, upto - 1) is Some {
        lemma_block_fault_kind(cols, rows, start, end, writers, upto - 1);
    } else {
        lemma_column_fault_kind(
            cols[upto - 1],
            column_slice(rows, start, end, upto - 1),
            writers[upto - 1].position as u64,
        );
        assert(fault_of_column(
            cols[upto - 1],
            block_fault(cols, rows, start, end, writers, upto)->Some_0,
        ));
    }
}

/// A block of which one of the first `upto` columns has a fault has a fault.
pub proof fn lemma_block_fault_found(
    cols: Seq<ColumnMetaData>,
    rows: Seq<Seq<Scalar>>,
    start: int,
    end: int,
    writers: Seq<WriterState>,
    upto: int,
)
    requires
        0 < upto <= cols.len(),
        column_fault(
            cols[upto - 1],
            column_slice(rows, start, end, upto - 1),
            writers[upto - 1].position as u64,
        ) is Some,
    ensures
        block_fault(cols, rows, start, end, writers, cols.len() as int) is Some,
{
    assert(block_fault(cols, rows, start, end, writers, upto) is Some);
    lemma_block_fault_prefix(cols, rows, start, end, writers, upto);
}

/// The fault of a column of values that can all be encoded is a schema
/// mismatch.
pub proof fn lemma_column_fault_mismatch(col: ColumnMetaData, values: Seq<Scalar>, position: u64)
    requires
        column_fault(col, values, position) is Some,
        forall|i: int| 0 <= i < values.len() ==> encodable(#[trigger] values[i]),
    ensures
        column_fault(col, values, position)->Some_0 is SchemaMismatch,
    decreases values.len(),
{
    if values.len() > 0 && column_fault(col, values.drop_last(), position) is Some {
        assert forall|i: int| 0 <= i < values.drop_last().len() implies encodable(
            #[trigger] values.drop_last()[i],
        ) by {
            assert(values.drop_last()[i] == values[i]);
        }
        lemma_column_fault_mismatch(col, values.drop_last(), position);
    } else if values.len() > 0 {
        assert(encodable(values[values.len() - 1]));
    }
}

/// The fault of a block of values that can all be encoded is a schema
/// mismatch.
pub proof fn lemma_block_fault_mismatch(
    cols: Seq<ColumnMetaData>,
    rows: Seq<Seq<Scalar>>,
    start: int,
    end: int,
    writers: Seq<WriterState>,
    upto: int,
)
    requires
        0 <= start <= end <= rows.len(),
        0 <= upto <= cols.len(),
        block_fault(cols, rows, start, end, writers, upto) is Some,
        forall|i: int, j: int|
            0 <= i < rows.len() && 0 <= j < cols.len() ==> encodable(#[trigger] rows[i][j]),
    ensures
        block_fault(cols, rows, start, end, writers, upto)->Some_0 is SchemaMismatch,
    decreases upto,
{
    if block_fault(cols, rows, start, end, writers, upto - 1) is Some {
        lemma_block_fault_mismatch(cols, rows, start, end, writers, upto - 1);
    } else {
        let values = column_slice(rows, start, end, upto - 1);
        assert forall|i: int| 0 <= i < values.len() implies encodable(#[trigger] values[i]) by {
            assert(values[i] == rows[start + i][upto - 1]);
        }
        lemma_column_fault_mismatch(cols[upto - 1], values, writers[upto - 1].position as u64);
    }
}

} // verus!
