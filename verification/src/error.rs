//! The ways in which a write or a scan fails.

use crate::data::DType;
use vstd::prelude::*;

verus! {

/// A failure of the column store. No failure is recovered from inside the
/// library: each is handed to the caller with the place at which it arose.
#[derive(Debug, Clone, PartialEq, Eq)]
pub enum StoreError {
    /// A cell of the column `column` has the type `found`, not the type
    /// `expected` that the column declares.
    SchemaMismatch { column: String, expected: DType, found: DType },
    /// The block of the column `column` that starts, or would start, at
    /// `offset` of the data file could not be stored or could not be read:
    /// one of its texts is too long to encode, the compressor failed or gave
    /// a block that the store cannot read, the block would end beyond the
    /// last offset that an index record can hold, or the decompressor
    /// failed.
    CompressionError { column: String, offset: u64 },
    /// The index record at `offset` of the index file of the column `column`,
    /// or the block that it describes, is malformed: the index file ends
    /// within the record or before those of the other columns, the block
    /// does not lie within the data file, it does not decompress to the
    /// announced size or to cells of the column's type, or it holds another
    /// number of cells than the block of the first column.
    FormatError { column: String, offset: u64 },
    /// No table is called `table`.
    TableNotFound { table: String },
}

} // verus!
