//! The writer of one column: what a write adds to the column's data file and
//! to its index file, and where in the data file it stands.

use crate::block::{sealed, storable};
use crate::cell::column_bytes;
use crate::data::{DType, Scalar};
use crate::index::{lemma_entry_len, lemma_zone_of, Entry, IndexEntry, IndexValue, Zone};
use crate::index::INDEX_ENTRY_BYTES;
use crate::metadata::TableMetaData;
use crate::order::{column_max, column_min};
use crate::order::{lemma_column_max_is_maximum, lemma_column_min_is_minimum};
use vstd::prelude::*;

verus! {

/// What a write adds to the two files of one column.
#[derive(Debug, PartialEq, Eq)]
pub struct ColumnWriter {
    /// Where the next block starts in the data file: the length that the
    /// file has once `data` is appended to it.
    pub position: u64,
    /// The bytes to append to the data file.
    pub data: Vec<u8>,
    /// The bytes to append to the index file.
    pub index: Vec<u8>,
}

/// The mathematical value of a [`ColumnWriter`].
pub struct WriterState {
    pub position: int,
    pub data: Seq<u8>,
    pub index: Seq<u8>,
}

impl View for ColumnWriter {
    type V = WriterState;

    open spec fn view(&self) -> WriterState {
        WriterState { position: self.position as int, data: self.data@, index: self.index@ }
    }
}

impl WriterState {
    /// The index record of a block of `values` that is stored as `stored`
    /// at the writer's position.
    pub open spec fn entry(self, values: Seq<Scalar>, stored: Seq<u8>) -> Entry {
        Entry {
            start_position: self.position as u64,
            compressed_size: stored.len() as u64,
            decompressed_size: column_bytes(values).len() as u64,
            min: Zone::of(column_min(values)),
            max: Zone::of(column_max(values)),
        }
    }

    /// The writer after one more block: `stored` behind the data, the
    /// block's record behind the index, the position moved on by the length
    /// of `stored`.
    pub open spec fn append_block(self, values: Seq<Scalar>, stored: Seq<u8>) -> WriterState {
        WriterState {
            position: self.position + stored.len(),
            data: self.data + stored,
            index: self.index + self.entry(values, stored).bytes(),
        }
    }

    /// The writer after the blocks `blocks`, stored as `stored`, in order.
    pub open spec fn append_blocks(
        self,
        blocks: Seq<Seq<Scalar>>,
        stored: Seq<Seq<u8>>,
    ) -> WriterState
        decreases blocks.len(),
    {
        if blocks.len() == 0 {
            self
        } else {
            self.append_blocks(blocks.drop_last(), stored.drop_last()).append_block(
                blocks.last(),
                stored.last(),
            )
        }
    }
}

/// The views of a vector of writers.
pub open spec fn writer_states(writers: Seq<ColumnWriter>) -> Seq<WriterState> {
    Seq::new(writers.len(), |c: int| writers[c]@)
}

/// One column of a block, compressed and ready to be appended.
pub struct SealedColumn {
    /// The compressed block.
    pub block: Vec<u8>,
    /// The number of bytes of the encoded cells.
    pub decompressed_size: u64,
    /// The zone value of the smallest cell.
    pub min: IndexValue,
    /// The zone value of the largest cell.
    pub max: IndexValue,
}

/// Whether the writer `after` is the writer `before` with the compressed
/// block `block` and its index record appended.
pub open spec fn appends(before: ColumnWriter, after: ColumnWriter, block: SealedColumn) -> bool {
    &&& after.position == before.position + block.block@.len()
    &&& after.data@ == before.data@ + block.block@
    &&& after.index@ == before.index@ + (Entry {
        start_position: before.position,
        compressed_size: block.block@.len() as u64,
        decompressed_size: block.decompressed_size,
        min: block.min@,
        max: block.max@,
    }).bytes()
}

impl ColumnWriter {
    /// A writer for a column whose data file has `position` bytes.
    pub fn new(position: u64) -> (writer: ColumnWriter)
        ensures
            writer@ == (WriterState {
                position: position as int,
                data: Seq::empty(),
                index: Seq::empty(),
            }),
    {
        ColumnWriter { position, data: Vec::new(), index: Vec::new() }
    }

    /// Appends one compressed block and its index record.
    pub fn append(&mut self, column: &SealedColumn)
        requires
            old(self).position + column.block@.len() <= u64::MAX,
        ensures
            appends(*old(self), *final(self), *column),
    {
        let size: u64 = column.block.len() as u64;
        let entry = IndexEntry {
            start_position: self.position,
            compressed_size: size,
            decompressed_size: column.decompressed_size,
            min: column.min,
            max: column.max,
        };
        let record: [u8; 40] = entry.to_bytes();
        self.data.extend_from_slice(column.block.as_slice());
        self.index.extend_from_slice(&record);
        self.position = self.position + size;
        assert(self.data@ =~= old(self).data@ + column.block@);
        assert(self.index@ =~= old(self).index@ + entry@.bytes());
    }
}

/// The writers of a table: one for each column, in column order, each at
/// the end of its data file, whose length `lengths` gives.
pub fn create_writers(table: &TableMetaData, lengths: &Vec<u64>) -> (writers: Vec<ColumnWriter>)
    requires
        lengths@.len() == table.columns@.len(),
    ensures
        writers@.len() == table.columns@.len(),
        forall|c: int|
            0 <= c < table.columns@.len() ==> (#[trigger] writers@[c])@ == (WriterState {
                position: lengths@[c] as int,
                data: Seq::empty(),
                index: Seq::empty(),
            }),
{
    let n: usize = table.columns.len();
    let mut writers: Vec<ColumnWriter> = Vec::new();
    let mut c: usize = 0;
    while c < n
        invariant
            c <= n,
            n == table.columns@.len(),
            lengths@.len() == n,
            writers@.len() == c,
            forall|j: int|
                0 <= j < c ==> (#[trigger] writers@[j])@ == (WriterState {
                    position: lengths@[j] as int,
                    data: Seq::empty(),
                    index: Seq::empty(),
                }),
        decreases n - c,
    {
        writers.push(ColumnWriter::new(lengths[c]));
        c = c + 1;
    }
    writers
}

/// The index record of a block has 40 bytes.
pub proof fn lemma_record_len(w: WriterState, values: Seq<Scalar>, stored: Seq<u8>)
    ensures
        w.entry(values, stored).bytes().len() == INDEX_ENTRY_BYTES,
{
    lemma_zone_of(column_min(values));
    lemma_zone_of(column_max(values));
    lemma_entry_len(w.entry(values, stored));
}

/// The record of a block of values that can be stored in a column is one of
/// that column, and says where the block lies and how large it is.
pub proof fn lemma_record_fits(
    w: WriterState,
    dtype: DType,
    values: Seq<Scalar>,
    stored: Seq<u8>,
)
    requires
        values.len() > 0,
        storable(dtype, values),
        sealed(values, stored),
        0 <= w.position <= u64::MAX,
        stored.len() <= u64::MAX,
    ensures
        w.entry(values, stored).fits(dtype),
        w.entry(values, stored).start_position == w.position,
        w.entry(values, stored).compressed_size == stored.len(),
        w.entry(values, stored).decompressed_size == column_bytes(values).len(),
{
    assert(values[0].dtype() == dtype);
    assert forall|i: int| 0 <= i < values.len() implies (#[trigger] values[i]).dtype()
        == values[0].dtype() by {}
    lemma_column_min_is_minimum(values);
    lemma_column_max_is_maximum(values);
    lemma_zone_of(column_min(values));
    lemma_zone_of(column_max(values));
}

/// What appending blocks does to the sizes of a writer: one record for each
/// block, the data and the position grown by the same amount, and what was
/// there before left in front.
pub proof fn lemma_append_blocks_sizes(
    w: WriterState,
    blocks: Seq<Seq<Scalar>>,
    stored: Seq<Seq<u8>>,
)
    requires
        blocks.len() == stored.len(),
    ensures
        w.append_blocks(blocks, stored).index.len() == w.index.len() + INDEX_ENTRY_BYTES
            * blocks.len(),
        w.append_blocks(blocks, stored).data.len() - w.data.len() == w.append_blocks(
            blocks,
            stored,
        ).position - w.position,
        w.append_blocks(blocks, stored).position >= w.position,
        w.append_blocks(blocks, stored).index.take(w.index.len() as int) == w.index,
        w.append_blocks(blocks, stored).data.take(w.data.len() as int) == w.data,
    decreases blocks.len(),
{
    let after = w.append_blocks(blocks, stored);
    if blocks.len() == 0 {
        assert(after.index.take(w.index.len() as int) =~= w.index);
        assert(after.data.take(w.data.len() as int) =~= w.data);
    } else {
        let prev = w.append_blocks(blocks.drop_last(), stored.drop_last());
        lemma_append_blocks_sizes(w, blocks.drop_last(), stored.drop_last());
        lemma_record_len(prev, blocks.last(), stored.last());
        assert(after.index.take(w.index.len() as int) =~= prev.index.take(w.index.len() as int));
        assert(after.data.take(w.data.len() as int) =~= prev.data.take(w.data.len() as int));
    }
}

/// Where block `j` lies in a writer that has taken `blocks`: its record
/// stands behind `j` records, its stored bytes behind those of the `j`
/// blocks before it, and the record is that of the writer as it was when it
/// had taken those `j` blocks.
pub proof fn lemma_append_blocks_at(
    w: WriterState,
    blocks: Seq<Seq<Scalar>>,
    stored: Seq<Seq<u8>>,
    j: int,
)
    requires
        blocks.len() == stored.len(),
        0 <= j < blocks.len(),
    ensures
        ({
            let after = w.append_blocks(blocks, stored);
            let at = w.append_blocks(blocks.take(j), stored.take(j));
            &&& at.index.len() == w.index.len() + INDEX_ENTRY_BYTES * j
            &&& at.data.len() - w.data.len() == at.position - w.position
            &&& at.position >= w.position
            &&& at.data.len() + stored[j].len() <= after.data.len()
            &&& at.position + stored[j].len() <= after.position
            &&& after.index.subrange(
                at.index.len() as int,
                at.index.len() + INDEX_ENTRY_BYTES,
            ) == at.entry(blocks[j], stored[j]).bytes()
            &&& after.data.subrange(at.data.len() as int, at.data.len() + stored[j].len() as int)
                == stored[j]
        }),
    decreases blocks.len(),
{
    let after = w.append_blocks(blocks, stored);
    let at = w.append_blocks(blocks.take(j), stored.take(j));
    let front = blocks.drop_last();
    let front_stored = stored.drop_last();
    let prev = w.append_blocks(front, front_stored);
    lemma_append_blocks_sizes(w, front, front_stored);
    lemma_append_blocks_sizes(w, blocks.take(j), stored.take(j));
    lemma_record_len(prev, blocks.last(), stored.last());
    if j == blocks.len() - 1 {
        assert(blocks.take(j) =~= front);
        assert(stored.take(j) =~= front_stored);
        assert(after.index.subrange(at.index.len() as int, at.index.len() + INDEX_ENTRY_BYTES)
            =~= at.entry(blocks[j], stored[j]).bytes());
        assert(after.data.subrange(at.data.len() as int, at.data.len() + stored[j].len() as int)
            =~= stored[j]);
    } else {
        lemma_append_blocks_at(w, front, front_stored, j);
        assert(front.take(j) =~= blocks.take(j));
        assert(front_stored.take(j) =~= stored.take(j));
        lemma_record_len(at, blocks[j], stored[j]);
        assert(after.index.subrange(at.index.len() as int, at.index.len() + INDEX_ENTRY_BYTES)
            =~= prev.index.subrange(at.index.len() as int, at.index.len() + INDEX_ENTRY_BYTES));
        assert(after.data.subrange(at.data.len() as int, at.data.len() + stored[j].len() as int)
            =~= prev.data.subrange(at.data.len() as int, at.data.len() + stored[j].len() as int));
    }
}

} // verus!
