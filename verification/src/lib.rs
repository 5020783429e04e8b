//! An embedded columnar storage engine.
//!
//! A table is a named, ordered list of typed columns. Rows are written in
//! blocks of a fixed number of rows; each column of a block is encoded,
//! compressed on its own and appended to that column's data file, and one
//! fixed-width zone-map record per block is appended to the column's index
//! file. A scan walks the index files of the requested columns in lockstep
//! and rebuilds the rows.
//!
//! The library works on the bytes of those files; reading and writing the
//! files themselves is left to the caller.
//!
//! - [`data`], [`order`]: the values and their order.
//! - [`metadata`], [`db`], [`paths`]: tables, the catalog, and the names of
//!   the files.
//! - [`bytes`], [`cell`], [`index`]: how integers, cells and index records
//!   are laid out in bytes.
//! - [`lz4`], [`block`]: one column of one block, compressed.
//! - [`chunk`], [`writer`], [`storage`]: writing rows.
//! - [`scan`]: reading rows.
//! - [`laws`]: what holds of writing and reading together.

pub mod block;
pub mod bytes;
pub mod cell;
pub mod chunk;
pub mod data;
pub mod db;
pub mod error;
pub mod index;
pub mod laws;
pub mod lz4;
pub mod metadata;
pub mod order;
pub mod paths;
pub mod scan;
pub mod storage;
pub mod writer;

pub use data::{get_dtype, get_max, get_min, DType, DValue, Scalar, SchemaMismatch};
pub use db::DB;
pub use error::StoreError;
pub use index::{IndexEntry, IndexValue};
pub use metadata::{ColumnMetaData, MetaData, TableMetaData};
pub use paths::{data_path, index_path, meta_path};
pub use scan::{create_readers, read_all, scan, ColumnReader};
pub use storage::{write_blocks, write_data, ROWS_PER_BLOCK};
pub use writer::{create_writers, ColumnWriter};
