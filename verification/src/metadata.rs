//! Table schemas: named, typed columns in a fixed order.

use crate::data::DType;
use vstd::prelude::*;

verus! {

/// A column: its name and the one type of all its values.
#[derive(Debug, Clone, PartialEq, Eq)]
pub struct ColumnMetaData {
    pub name: String,
    pub dtype: DType,
}

/// A table: its name and its columns. Rows are positional, one value per
/// column in this order.
#[derive(Debug, Clone, PartialEq, Eq)]
pub struct TableMetaData {
    pub name: String,
    pub columns: Vec<ColumnMetaData>,
}

/// The catalog: every table of a database.
#[derive(Debug)]
pub struct MetaData {
    pub tables: Vec<TableMetaData>,
}

impl ColumnMetaData {
    pub fn new(name: &str, dtype: DType) -> (column: ColumnMetaData)
        ensures
            column.name@ == name@,
            column.dtype == dtype,
    {
        ColumnMetaData { name: name.to_owned(), dtype }
    }
}

impl TableMetaData {
    pub fn new(name: &str, columns: Vec<ColumnMetaData>) -> (table: TableMetaData)
        ensures
            table.name@ == name@,
            table.columns == columns,
    {
        TableMetaData { name: name.to_owned(), columns }
    }

    /// The declared types of the columns, in column order.
    pub open spec fn dtypes(&self) -> Seq<DType> {
        Seq::new(self.columns@.len(), |c: int| self.columns@[c].dtype)
    }
}

} // verus!
