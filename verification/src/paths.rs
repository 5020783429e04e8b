//! The names of the files of a database, within its directory.

use vstd::prelude::*;
use vstd::string::StringExecFns;

verus! {

/// The name of the catalog file.
pub open spec fn meta_name() -> Seq<char> {
    "metadata.json"@
}

/// The name of a file of the column `column` of the table `table`: both
/// names, each followed by a dot, and the suffix.
pub open spec fn column_file_name(table: Seq<char>, column: Seq<char>, suffix: Seq<char>) -> Seq<
    char,
> {
    table + "."@ + column + "."@ + suffix
}

/// The name of the catalog file.
pub fn meta_path() -> (name: String)
    ensures
        name@ == meta_name(),
{
    String::from_str("metadata.json")
}

/// The name of the index file of a column: `<table>.<column>.index`.
pub fn index_path(table_name: &String, column_name: &String) -> (name: String)
    ensures
        name@ == column_file_name(table_name@, column_name@, "index"@),
{
    let mut name: String = table_name.clone();
    name.append(".");
    name.append(column_name.as_str());
    name.append(".");
    name.append("index");
    name
}

/// The name of the data file of a column: `<table>.<column>.data`.
pub fn data_path(table_name: &String, column_name: &String) -> (name: String)
    ensures
        name@ == column_file_name(table_name@, column_name@, "data"@),
{
    let mut name: String = table_name.clone();
    name.append(".");
    name.append(column_name.as_str());
    name.append(".");
    name.append("data");
    name
}

} // verus!
