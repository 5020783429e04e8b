//! Reading a table back: the index files of the requested columns are walked
//! in lockstep, one record of each per block; the block of each column is
//! fetched from its data file, decompressed and decoded; and the values of
//! the columns are put together into rows.

use crate::block::{decode_block, decoded_block, decompress_column, largest_payload};
use crate::block::largest_payload_of;
use crate::data::{DValue, Scalar};
use crate::error::StoreError;
use crate::index::{Entry, IndexEntry, INDEX_ENTRY_BYTES};
use crate::lz4::{lz4_decompressed, readable};
use crate::metadata::{ColumnMetaData, TableMetaData};
use vstd::prelude::*;

verus! {

/// The two files of one column as they stand.
#[derive(Debug, PartialEq, Eq)]
pub struct ColumnReader {
    /// The bytes of the data file.
    pub data: Vec<u8>,
    /// The bytes of the index file.
    pub index: Vec<u8>,
}

/// The mathematical value of a [`ColumnReader`].
pub struct ColumnFiles {
    pub data: Seq<u8>,
    pub index: Seq<u8>,
}

impl View for ColumnReader {
    type V = ColumnFiles;

    open spec fn view(&self) -> ColumnFiles {
        ColumnFiles { data: self.data@, index: self.index@ }
    }
}

/// The views of a vector of readers.
pub open spec fn column_files(readers: Seq<ColumnReader>) -> Seq<ColumnFiles> {
    Seq::new(readers.len(), |c: int| readers[c]@)
}

/// The offset of record `k` in an index file.
pub open spec fn record_offset(k: int) -> int {
    k * INDEX_ENTRY_BYTES as int
}

/// Whether every index file ends exactly where record `k` would start.
pub open spec fn exhausted(files: Seq<ColumnFiles>, k: int) -> bool {
    forall|c: int| 0 <= c < files.len() ==> (#[trigger] files[c]).index.len() == record_offset(k)
}

/// The first column, from `from` on, whose index file ends before the end of
/// record `k`.
pub open spec fn torn(files: Seq<ColumnFiles>, k: int, from: int) -> Option<int>
    decreases files.len() - from,
{
    if from < 0 || from >= files.len() {
        None
    } else if files[from].index.len() < record_offset(k + 1) {
        Some(from)
    } else {
        torn(files, k, from + 1)
    }
}

/// The failure of a scan at record `k` of the column `col`.
pub open spec fn format_error(col: ColumnMetaData, k: int) -> StoreError {
    StoreError::FormatError { column: col.name, offset: record_offset(k) as u64 }
}

/// Record `k` of a column of the declared type of `col`.
pub open spec fn record(col: ColumnMetaData, files: ColumnFiles, k: int) -> Entry {
    Entry::parse(files.index.subrange(record_offset(k), record_offset(k + 1)), col.dtype)
}

/// The size of the buffer into which the block of the record `entry` is
/// decompressed: the size that the record announces, or the size of the
/// largest payload that a block of its size can hold, if that is less.
pub open spec fn capacity(entry: Entry) -> nat {
    if entry.decompressed_size <= largest_payload(entry.compressed_size as int) {
        entry.decompressed_size as nat
    } else {
        largest_payload(entry.compressed_size as int) as nat
    }
}

/// The stored bytes of the block that the record `entry` describes, where
/// the block lies within the data file.
pub open spec fn stored_block(files: ColumnFiles, entry: Entry) -> Seq<u8> {
    files.data.subrange(
        entry.start_position as int,
        entry.start_position + entry.compressed_size,
    )
}

/// What reading block `k` of the column `col` comes to: its values, or the
/// failure. A block that does not lie within the data file is a format
/// error; one that the store cannot read is a compression error; the rest
/// is told by what decompressing the stored bytes gives.
pub open spec fn block_values(col: ColumnMetaData, files: ColumnFiles, k: int) -> Result<
    Seq<Scalar>,
    StoreError,
> {
    let entry = record(col, files, k);
    if entry.start_position + entry.compressed_size > files.data.len() {
        Err(format_error(col, k))
    } else if !readable(stored_block(files, entry)) {
        Err(StoreError::CompressionError { column: col.name, offset: entry.start_position })
    } else {
        decoded_block(
            col,
            entry,
            record_offset(k) as u64,
            lz4_decompressed(stored_block(files, entry), capacity(entry)),
        )
    }
}

/// The values of block `k` of each of the first `upto` columns, or the
/// failure of the first column that cannot be read.
pub open spec fn block_read(
    cols: Seq<ColumnMetaData>,
    files: Seq<ColumnFiles>,
    k: int,
    upto: int,
) -> Result<Seq<Seq<Scalar>>, StoreError>
    decreases upto,
{
    if upto <= 0 {
        Ok(Seq::empty())
    } else {
        match block_read(cols, files, k, upto - 1) {
            Err(e) => Err(e),
            Ok(columns) => match block_values(cols[upto - 1], files[upto - 1], k) {
                Err(e) => Err(e),
                Ok(values) => Ok(columns.push(values)),
            },
        }
    }
}

/// The first of the first `upto` columns that has another number of values
/// than the first column.
pub open spec fn uneven(columns: Seq<Seq<Scalar>>, upto: int) -> Option<int>
    decreases upto,
{
    if upto <= 0 {
        None
    } else {
        match uneven(columns, upto - 1) {
            Some(c) => Some(c),
            None => if columns[upto - 1].len() != columns[0].len() {
                Some(upto - 1)
            } else {
                None
            },
        }
    }
}

/// The rows that columns of equal length make: row `r` holds value `r` of
/// each column, in column order.
pub open spec fn transpose(columns: Seq<Seq<Scalar>>) -> Seq<Seq<Scalar>> {
    if columns.len() == 0 {
        Seq::empty()
    } else {
        Seq::new(columns[0].len(), |r: int| Seq::new(columns.len(), |c: int| columns[c][r]))
    }
}

/// The rows of block `k`, or the failure: that of the first column that
/// cannot be read, else a format error at the first column that holds
/// another number of values than the first.
pub open spec fn block_rows(cols: Seq<ColumnMetaData>, files: Seq<ColumnFiles>, k: int) -> Result<
    Seq<Seq<Scalar>>,
    StoreError,
> {
    match block_read(cols, files, k, cols.len() as int) {
        Err(e) => Err(e),
        Ok(columns) => match uneven(columns, columns.len() as int) {
            Some(c) => Err(format_error(cols[c], k)),
            None => Ok(transpose(columns)),
        },
    }
}

/// The rows from block `k` on, or the first failure. The scan ends cleanly
/// where every index file is exhausted at once; an index file that ends
/// within a record, or before the others, is a format error.
pub open spec fn scanned_from(cols: Seq<ColumnMetaData>, files: Seq<ColumnFiles>, k: int) -> Result<
    Seq<Seq<Scalar>>,
    StoreError,
>
    decreases
            (if files.len() > 0 {
                files[0].index.len() - record_offset(k)
            } else {
                0
            }),
{
    if exhausted(files, k) {
        Ok(Seq::empty())
    } else {
        match torn(files, k, 0) {
            Some(c) => Err(format_error(cols[c], k)),
            None => match block_rows(cols, files, k) {
                Err(e) => Err(e),
                Ok(block) => match scanned_from(cols, files, k + 1) {
                    Err(e) => Err(e),
                    Ok(rest) => Ok(block + rest),
                },
            },
        }
    }
}

/// What a scan of the columns `cols`, stored as `files`, comes to: all rows
/// in the order in which they were written, or the first failure.
pub open spec fn scanned(cols: Seq<ColumnMetaData>, files: Seq<ColumnFiles>) -> Result<
    Seq<Seq<Scalar>>,
    StoreError,
> {
    scanned_from(cols, files, 0)
}

/// Whether the outcome `res` of reading one column is the outcome
/// `expected`.
pub open spec fn column_agrees(
    res: Result<Vec<DValue>, StoreError>,
    expected: Result<Seq<Scalar>, StoreError>,
) -> bool {
    match res {
        Ok(values) => expected == Ok::<Seq<Scalar>, StoreError>(values.deep_view()),
        Err(e) => expected == Err::<Seq<Scalar>, StoreError>(e),
    }
}

/// Whether the outcome `res` of reading rows is the outcome `expected`.
pub open spec fn rows_agree(
    res: Result<Vec<Vec<DValue>>, StoreError>,
    expected: Result<Seq<Seq<Scalar>>, StoreError>,
) -> bool {
    match res {
        Ok(rows) => expected == Ok::<Seq<Seq<Scalar>>, StoreError>(rows.deep_view()),
        Err(e) => expected == Err::<Seq<Seq<Scalar>>, StoreError>(e),
    }
}

/// What the index files say of record `k`.
#[derive(Debug, Clone, Copy, PartialEq, Eq)]
pub enum IndexStep {
    /// Every index file is exhausted: the scan is over.
    End,
    /// Every index file holds record `k`.
    Block,
    /// The index file of this column ends before the end of record `k`,
    /// and not all index files are exhausted.
    Torn(usize),
}

/// A copy of `value`.
pub fn copy_value(value: &DValue) -> (copy: DValue)
    ensures
        copy == *value,
{
    match value {
        DValue::String(s) => DValue::String(s.clone()),
        DValue::Uint64(n) => DValue::Uint64(*n),
    }
}

/// Looks at each index file where record `k` would start.
pub fn index_step(readers: &Vec<ColumnReader>, k: usize) -> (step: IndexStep)
    ensures
        match step {
            IndexStep::End => exhausted(column_files(readers@), k as int),
            IndexStep::Block => !exhausted(column_files(readers@), k as int) && torn(
                column_files(readers@),
                k as int,
                0,
            ) is None,
            IndexStep::Torn(c) => !exhausted(column_files(readers@), k as int) && torn(
                column_files(readers@),
                k as int,
                0,
            ) == Some(c as int),
        },
{
    let ghost files = column_files(readers@);
    let at: Option<usize> = k.checked_mul(INDEX_ENTRY_BYTES);
    let next: Option<usize> = match at {
        Some(offset) => offset.checked_add(INDEX_ENTRY_BYTES),
        None => None,
    };
    let n: usize = readers.len();
    let mut c: usize = 0;
    let mut all_done: bool = true;
    while c < n
        invariant
            c <= n,
            n == readers@.len(),
            files == column_files(readers@),
            match at {
                Some(offset) => offset == record_offset(k as int),
                None => record_offset(k as int) > usize::MAX,
            },
            all_done <==> forall|j: int|
                0 <= j < c ==> (#[trigger] files[j]).index.len() == record_offset(k as int),
        decreases n - c,
    {
        let length: usize = readers[c].index.len();
        let here: bool = match at {
            Some(offset) => length == offset,
            None => false,
        };
        if !here {
            all_done = false;
            assert(files[c as int].index.len() != record_offset(k as int));
        }
        c = c + 1;
    }
    if all_done {
        return IndexStep::End;
    }
    assert(!exhausted(files, k as int));
    c = 0;
    while c < n
        invariant
            !exhausted(files, k as int),
            c <= n,
            n == readers@.len(),
            files == column_files(readers@),
            match next {
                Some(offset) => offset == record_offset(k + 1),
                None => record_offset(k + 1) > usize::MAX,
            },
            torn(files, k as int, 0) == torn(files, k as int, c as int),
        decreases n - c,
    {
        let length: usize = readers[c].index.len();
        let short: bool = match next {
            Some(offset) => length < offset,
            None => true,
        };
        if short {
            return IndexStep::Torn(c);
        }
        c = c + 1;
    }
    IndexStep::Block
}

/// Reads record `k` of the index file of the column `col`.
pub fn read_record(col: &ColumnMetaData, reader: &ColumnReader, k: usize) -> (entry: IndexEntry)
    requires
        record_offset(k + 1) <= reader.index@.len(),
    ensures
        entry@ == record(*col, reader@, k as int),
        entry@.fits(col.dtype),
{
    assert(reader.index@.len() == reader.index.len());
    let at: usize = k * INDEX_ENTRY_BYTES;
    let mut bytes: [u8; 40] = [0u8; 40];
    let mut i: usize = 0;
    while i < INDEX_ENTRY_BYTES
        invariant
            i <= INDEX_ENTRY_BYTES,
            at == record_offset(k as int),
            at + INDEX_ENTRY_BYTES <= reader.index@.len(),
            reader.index@.len() <= usize::MAX,
            forall|j: int| 0 <= j < i ==> bytes@[j] == reader.index@[at + j],
        decreases INDEX_ENTRY_BYTES - i,
    {
        bytes[i] = reader.index[at + i];
        i = i + 1;
    }
    assert(bytes@ =~= reader@.index.subrange(record_offset(k as int), record_offset(k + 1)));
    IndexEntry::from_bytes(&bytes, &col.dtype)
}

/// Reads block `k` of the column `col`: fetches the stored block that
/// record `k` describes, decompresses it and decodes its cells.
pub fn read_column_block(col: &ColumnMetaData, reader: &ColumnReader, k: usize) -> (res: Result<
    Vec<DValue>,
    StoreError,
>)
    requires
        record_offset(k + 1) <= reader.index@.len(),
    ensures
        column_agrees(res, block_values(*col, reader@, k as int)),
{
    let entry: IndexEntry = read_record(col, reader, k);
    assert(reader.index@.len() == reader.index.len());
    let record: u64 = (k * INDEX_ENTRY_BYTES) as u64;
    let length: u64 = reader.data.len() as u64;
    if entry.start_position > length || entry.compressed_size > length - entry.start_position {
        return Err(StoreError::FormatError { column: col.name.clone(), offset: record });
    }
    let start: usize = entry.start_position as usize;
    let size: usize = entry.compressed_size as usize;
    let largest: usize = largest_payload_of(size);
    let room: usize = if entry.decompressed_size <= largest as u64 {
        entry.decompressed_size as usize
    } else {
        largest
    };
    let stored: &[u8] = &reader.data.as_slice()[start..start + size];
    let decompressed: Option<Vec<u8>> = decompress_column(stored, room);
    decode_block(col, &entry, record, decompressed)
}

/// Where no column is torn at record `k`, every index file holds it.
pub proof fn lemma_not_torn(files: Seq<ColumnFiles>, k: int, from: int)
    requires
        0 <= from,
        torn(files, k, from) is None,
    ensures
        forall|c: int|
            from <= c < files.len() ==> (#[trigger] files[c]).index.len() >= record_offset(k + 1),
    decreases files.len() - from,
{
    if from < files.len() {
        lemma_not_torn(files, k, from + 1);
    }
}

/// Where no column is uneven, every column is as long as the first.
pub proof fn lemma_even(columns: Seq<Seq<Scalar>>, upto: int)
    requires
        uneven(columns, upto) is None,
    ensures
        forall|c: int| 0 <= c < upto ==> (#[trigger] columns[c]).len() == columns[0].len(),
    decreases upto,
{
    if upto > 0 {
        lemma_even(columns, upto - 1);
    }
}

/// Reads block `k` of each column, in column order, up to the first column
/// that cannot be read.
pub fn read_block_columns(
    columns: &Vec<ColumnMetaData>,
    readers: &Vec<ColumnReader>,
    k: usize,
) -> (res: Result<Vec<Vec<DValue>>, StoreError>)
    requires
        readers@.len() == columns@.len(),
        torn(column_files(readers@), k as int, 0) is None,
    ensures
        rows_agree(
            res,
            block_read(columns@, column_files(readers@), k as int, columns@.len() as int),
        ),
        res matches Ok(decoded) ==> decoded@.len() == columns@.len(),
{
    let ghost files = column_files(readers@);
    let n: usize = columns.len();
    let mut decoded: Vec<Vec<DValue>> = Vec::new();
    let mut c: usize = 0;
    proof {
        lemma_not_torn(files, k as int, 0);
        assert(decoded.deep_view() =~= Seq::<Seq<Scalar>>::empty());
    }
    while c < n
        invariant
            c <= n,
            n == columns@.len(),
            readers@.len() == n,
            files == column_files(readers@),
            forall|j: int|
                0 <= j < files.len() ==> (#[trigger] files[j]).index.len() >= record_offset(k + 1),
            decoded@.len() == c,
            block_read(columns@, files, k as int, c as int) == Ok::<Seq<Seq<Scalar>>, StoreError>(
                decoded.deep_view(),
            ),
        decreases n - c,
    {
        let ghost done = decoded.deep_view();
        proof {
            assert(files[c as int].index.len() >= record_offset(k + 1));
        }
        match read_column_block(&columns[c], &readers[c], k) {
            Ok(values) => {
                decoded.push(values);
                proof {
                    assert(decoded.deep_view() =~= done.push(values.deep_view()));
                }
            },
            Err(e) => {
                proof {
                    lemma_block_read_fails(columns@, files, k as int, c + 1);
                }
                return Err(e);
            },
        }
        c = c + 1;
    }
    Ok(decoded)
}

/// A failure among the first `upto` columns is the failure of the block.
pub proof fn lemma_block_read_fails(
    cols: Seq<ColumnMetaData>,
    files: Seq<ColumnFiles>,
    k: int,
    upto: int,
)
    requires
        0 <= upto <= cols.len(),
        block_read(cols, files, k, upto) is Err,
    ensures
        block_read(cols, files, k, cols.len() as int) == block_read(cols, files, k, upto),
    decreases cols.len() - upto,
{
    if upto < cols.len() {
        lemma_block_read_fails(cols, files, k, upto + 1);
    }
}

/// A column uneven among the first `upto` is the first uneven column.
pub proof fn lemma_uneven_found(columns: Seq<Seq<Scalar>>, upto: int)
    requires
        0 <= upto <= columns.len(),
        uneven(columns, upto) is Some,
    ensures
        uneven(columns, columns.len() as int) == uneven(columns, upto),
    decreases columns.len() - upto,
{
    if upto < columns.len() {
        lemma_uneven_found(columns, upto + 1);
    }
}

/// The first column that has another number of values than the first.
pub fn first_uneven(decoded: &Vec<Vec<DValue>>) -> (res: Option<usize>)
    ensures
        match res {
            Some(c) => uneven(decoded.deep_view(), decoded@.len() as int) == Some(c as int) && c
                < decoded@.len(),
            None => uneven(decoded.deep_view(), decoded@.len() as int) is None,
        },
{
    let ghost columns = decoded.deep_view();
    let n: usize = decoded.len();
    let mut c: usize = 0;
    while c < n
        invariant
            c <= n,
            n == decoded@.len(),
            columns == decoded.deep_view(),
            uneven(columns, c as int) is None,
        decreases n - c,
    {
        if decoded[c].len() != decoded[0].len() {
            proof {
                assert(columns[c as int].len() == decoded@[c as int]@.len());
                assert(columns[0].len() == decoded@[0]@.len());
                lemma_uneven_found(columns, c + 1);
            }
            return Some(c);
        }
        proof {
            assert(columns[c as int].len() == decoded@[c as int]@.len());
            assert(columns[0].len() == decoded@[0]@.len());
        }
        c = c + 1;
    }
    None
}

/// Appends to `rows` the rows that the columns `decoded` make.
pub fn append_rows(rows: &mut Vec<Vec<DValue>>, decoded: &Vec<Vec<DValue>>)
    requires
        uneven(decoded.deep_view(), decoded@.len() as int) is None,
    ensures
        final(rows).deep_view() == old(rows).deep_view() + transpose(decoded.deep_view()),
{
    let ghost columns = decoded.deep_view();
    let ghost before = rows.deep_view();
    let n: usize = decoded.len();
    if n == 0 {
        proof {
            assert(before + transpose(columns) =~= before);
        }
        return ;
    }
    let count: usize = decoded[0].len();
    proof {
        lemma_even(columns, n as int);
        assert(columns[0].len() == count);
        assert forall|c: int| 0 <= c < n implies (#[trigger] decoded@[c])@.len() == count by {
            assert(columns[c].len() == decoded@[c]@.len());
        }
    }
    let mut r: usize = 0;
    while r < count
        invariant
            r <= count,
            n == decoded@.len(),
            n > 0,
            columns == decoded.deep_view(),
            columns[0].len() == count,
            forall|c: int| 0 <= c < n ==> (#[trigger] decoded@[c])@.len() == count,
            rows.deep_view() == before + transpose(columns).take(r as int),
        decreases count - r,
    {
        let mut row: Vec<DValue> = Vec::new();
        let mut c: usize = 0;
        while c < n
            invariant
                c <= n,
                r < count,
                n == decoded@.len(),
                columns == decoded.deep_view(),
                forall|j: int| 0 <= j < n ==> (#[trigger] decoded@[j])@.len() == count,
                row@.len() == c,
                forall|j: int| 0 <= j < c ==> (#[trigger] row@[j])@ == columns[j][r as int],
            decreases n - c,
        {
            let value: DValue = copy_value(&decoded[c][r]);
            proof {
                assert(columns[c as int][r as int] == decoded@[c as int]@[r as int]@);
            }
            row.push(value);
            c = c + 1;
        }
        let ghost so_far = rows.deep_view();
        proof {
            assert(row.deep_view() =~= transpose(columns)[r as int]);
        }
        rows.push(row);
        proof {
            assert(rows.deep_view() =~= so_far.push(row.deep_view()));
            assert(transpose(columns).take(r + 1) =~= transpose(columns).take(r as int).push(
                transpose(columns)[r as int],
            ));
            assert(rows.deep_view() =~= before + transpose(columns).take(r + 1));
        }
        r = r + 1;
    }
    proof {
        assert(transpose(columns).take(count as int) =~= transpose(columns));
    }
}

/// Reads block `k` of every column and appends its rows to `rows`. Where
/// the block cannot be read, `rows` stays as it was.
pub fn read_all_from_block_group(
    rows: &mut Vec<Vec<DValue>>,
    columns: &Vec<ColumnMetaData>,
    readers: &Vec<ColumnReader>,
    k: usize,
) -> (res: Result<(), StoreError>)
    requires
        readers@.len() == columns@.len(),
        torn(column_files(readers@), k as int, 0) is None,
    ensures
        match block_rows(columns@, column_files(readers@), k as int) {
            Ok(block) => res is Ok && final(rows).deep_view() == old(rows).deep_view() + block,
            Err(e) => res == Err::<(), StoreError>(e) && final(rows)@ == old(rows)@,
        },
{
    let decoded: Vec<Vec<DValue>> = match read_block_columns(columns, readers, k) {
        Ok(decoded) => decoded,
        Err(e) => {
            return Err(e);
        },
    };
    match first_uneven(&decoded) {
        Some(c) => {
            assert(record_offset(k + 1) <= usize::MAX) by {
                lemma_not_torn(column_files(readers@), k as int, 0);
                let files = column_files(readers@);
                assert(files[c as int].index.len() == readers@[c as int].index.len());
                assert(readers@[c as int].index.len() <= usize::MAX);
            }
            Err(
                StoreError::FormatError {
                    column: columns[c].name.clone(),
                    offset: (k * INDEX_ENTRY_BYTES) as u64,
                },
            )
        },
        None => {
            append_rows(rows, &decoded);
            Ok(())
        },
    }
}

/// Scans the columns `columns`, whose files `readers` hold: all rows, in the
/// order in which they were written and with one value for each of the
/// columns, in their order.
pub fn scan(columns: &Vec<ColumnMetaData>, readers: &Vec<ColumnReader>) -> (res: Result<
    Vec<Vec<DValue>>,
    StoreError,
>)
    requires
        readers@.len() == columns@.len(),
    ensures
        rows_agree(res, scanned(columns@, column_files(readers@))),
{
    let ghost cols = columns@;
    let ghost files = column_files(readers@);
    let mut rows: Vec<Vec<DValue>> = Vec::new();
    let mut k: usize = 0;
    proof {
        assert(rows.deep_view() =~= Seq::<Seq<Scalar>>::empty());
        assert(forall|rest: Seq<Seq<Scalar>>|
            #[trigger] (Seq::<Seq<Scalar>>::empty() + rest) =~= rest);
    }
    loop
        invariant
            readers@.len() == columns@.len(),
            cols == columns@,
            files == column_files(readers@),
            files.len() > 0 ==> record_offset(k as int) <= files[0].index.len(),
            scanned(cols, files) == (match scanned_from(cols, files, k as int) {
                Ok(rest) => Ok::<Seq<Seq<Scalar>>, StoreError>(rows.deep_view() + rest),
                Err(e) => Err(e),
            }),
        decreases
                (if files.len() > 0 {
                    files[0].index.len() - record_offset(k as int)
                } else {
                    0
                }),
    {
        match index_step(readers, k) {
            IndexStep::End => {
                proof {
                    assert(rows.deep_view() + Seq::<Seq<Scalar>>::empty() =~= rows.deep_view());
                }
                return Ok(rows);
            },
            IndexStep::Torn(c) => {
                assert(c < columns@.len() && record_offset(k as int) <= usize::MAX) by {
                    lemma_torn_column(files, k as int, 0);
                    assert(files[0].index.len() == readers@[0].index.len());
                    assert(readers@[0].index.len() <= usize::MAX);
                }
                return Err(
                    StoreError::FormatError {
                        column: columns[c].name.clone(),
                        offset: (k * INDEX_ENTRY_BYTES) as u64,
                    },
                );
            },
            IndexStep::Block => {},
        }
        let ghost so_far = rows.deep_view();
        proof {
            lemma_not_torn(files, k as int, 0);
            assert(files.len() > 0);
            assert(files[0].index.len() == readers@[0].index.len());
            assert(readers@[0].index.len() <= usize::MAX);
        }
        match read_all_from_block_group(&mut rows, columns, readers, k) {
            Ok(_) => {
                proof {
                    let block = block_rows(cols, files, k as int)->Ok_0;
                    assert forall|rest: Seq<Seq<Scalar>>|
                        #[trigger] (so_far + (block + rest)) == rows.deep_view() + rest by {
                        assert(so_far + (block + rest) =~= (so_far + block) + rest);
                    }
                }
            },
            Err(e) => {
                return Err(e);
            },
        }
        k = k + 1;
    }
}

/// A torn column is one of the columns.
pub proof fn lemma_torn_column(files: Seq<ColumnFiles>, k: int, from: int)
    requires
        0 <= from,
        torn(files, k, from) is Some,
    ensures
        from <= torn(files, k, from)->Some_0 < files.len(),
    decreases files.len() - from,
{
    if from < files.len() && files[from].index.len() >= record_offset(k + 1) {
        lemma_torn_column(files, k, from + 1);
    }
}

/// Reads every row of the table `table`, whose columns' files `readers`
/// hold.
pub fn read_all(table: &TableMetaData, readers: &Vec<ColumnReader>) -> (res: Result<
    Vec<Vec<DValue>>,
    StoreError,
>)
    requires
        readers@.len() == table.columns@.len(),
    ensures
        rows_agree(res, scanned(table.columns@, column_files(readers@))),
{
    scan(&table.columns, readers)
}

/// The readers of the columns `columns`: one for each column, in their
/// order, from the bytes of its data file and of its index file.
pub fn create_readers(columns: &Vec<ColumnMetaData>, files: Vec<(Vec<u8>, Vec<u8>)>) -> (readers:
    Vec<ColumnReader>)
    requires
        files@.len() == columns@.len(),
    ensures
        readers@.len() == columns@.len(),
        forall|c: int|
            0 <= c < columns@.len() ==> (#[trigger] readers@[c])@ == (ColumnFiles {
                data: files@[c].0@,
                index: files@[c].1@,
            }),
{
    let ghost given = files@;
    let mut readers: Vec<ColumnReader> = Vec::new();
    for file in iter: files
        invariant
            iter.seq() == given,
            readers@.len() == iter.index(),
            forall|c: int|
                0 <= c < iter.index() ==> (#[trigger] readers@[c])@ == (ColumnFiles {
                    data: given[c].0@,
                    index: given[c].1@,
                }),
    {
        readers.push(ColumnReader { data: file.0, index: file.1 });
    }
    readers
}

} // verus!
