//! The database: a directory and the tables of its catalog. A write names
//! its table; the database finds the schema and hands the rows to the column
//! store.

use crate::data::DValue;
use crate::error::StoreError;
use crate::metadata::{MetaData, TableMetaData};
use crate::storage::{rectangular, write_data, write_result};
use crate::writer::{writer_states, ColumnWriter};
use crate::storage::ROWS_PER_BLOCK;
use vstd::prelude::*;

verus! {

/// A database: where it lies, and its tables.
#[derive(Debug, PartialEq, Eq)]
pub struct DB {
    pub path: String,
    pub tables: Vec<TableMetaData>,
}

/// The position of the first of the tables `tables`, from `from` on, that is
/// called `name`.
pub open spec fn find_table(tables: Seq<TableMetaData>, name: Seq<char>, from: int) -> Option<int>
    decreases tables.len() - from,
{
    if from < 0 || from >= tables.len() {
        None
    } else if tables[from].name@ == name {
        Some(from)
    } else {
        find_table(tables, name, from + 1)
    }
}

/// The table that a name stands for is one of the tables and has that name.
pub proof fn lemma_find_table(tables: Seq<TableMetaData>, name: Seq<char>, from: int)
    requires
        0 <= from,
        find_table(tables, name, from) is Some,
    ensures
        from <= find_table(tables, name, from)->Some_0 < tables.len(),
        tables[find_table(tables, name, from)->Some_0].name@ == name,
    decreases tables.len() - from,
{
    if from < tables.len() && tables[from].name@ != name {
        lemma_find_table(tables, name, from + 1);
    }
}

impl DB {
    /// The database at `path` whose catalog was read as `meta`.
    pub fn open(path: &str, meta: MetaData) -> (db: DB)
        ensures
            db.path@ == path@,
            db.tables == meta.tables,
    {
        DB { path: path.to_owned(), tables: meta.tables }
    }

    /// A new database at `path` with the tables `tables`.
    pub fn init(path: &str, tables: Vec<TableMetaData>) -> (db: DB)
        ensures
            db.path@ == path@,
            db.tables == tables,
    {
        DB { path: path.to_owned(), tables }
    }

    /// The first table that is called `table_name`.
    pub fn get_table(&self, table_name: &String) -> (res: Result<&TableMetaData, StoreError>)
        ensures
            match res {
                Ok(table) => find_table(self.tables@, table_name@, 0) is Some && *table
                    == self.tables@[find_table(self.tables@, table_name@, 0)->Some_0],
                Err(e) => find_table(self.tables@, table_name@, 0) is None && e
                    == (StoreError::TableNotFound { table: *table_name }),
            },
    {
        let mut i: usize = 0;
        while i < self.tables.len()
            invariant
                i <= self.tables@.len(),
                find_table(self.tables@, table_name@, 0) == find_table(
                    self.tables@,
                    table_name@,
                    i as int,
                ),
            decreases self.tables@.len() - i,
        {
            if self.tables[i].name == *table_name {
                return Ok(&self.tables[i]);
            }
            i = i + 1;
        }
        Err(StoreError::TableNotFound { table: table_name.clone() })
    }

    /// Writes `rows` to the table called `table_name`, with one writer for
    /// each of its columns. A name that no table has is refused before
    /// anything else is done.
    pub fn write_data(
        &self,
        table_name: &String,
        rows: &Vec<Vec<DValue>>,
        writers: &mut Vec<ColumnWriter>,
    ) -> (res: Result<(), StoreError>)
        requires
            find_table(self.tables@, table_name@, 0) matches Some(i) ==> old(writers)@.len()
                == self.tables@[i].columns@.len() && rectangular(
                rows@,
                self.tables@[i].columns@.len() as int,
            ),
        ensures
            match find_table(self.tables@, table_name@, 0) {
                Some(i) => final(writers)@.len() == old(writers)@.len() && write_result(
                    self.tables@[i].columns@,
                    rows.deep_view(),
                    ROWS_PER_BLOCK as int,
                    writer_states(old(writers)@),
                    writer_states(final(writers)@),
                    res,
                ),
                None => final(writers)@ == old(writers)@ && res == Err::<(), StoreError>(
                    StoreError::TableNotFound { table: *table_name },
                ),
            },
    {
        match self.get_table(table_name) {
            Ok(table) => write_data(table, rows, writers),
            Err(e) => Err(e),
        }
    }
}

} // verus!
