use rtcdb::{create_readers, create_writers, read_all};
use rtcdb::{ColumnMetaData, DType, DValue, MetaData, StoreError, TableMetaData, DB};

const TEST_TABLE_NAME: &str = "events";

fn get_test_tables() -> Vec<TableMetaData> {
    vec![TableMetaData::new(
        TEST_TABLE_NAME,
        vec![
            ColumnMetaData::new("event", DType::String),
            ColumnMetaData::new("timestamp", DType::Uint64),
            ColumnMetaData::new("id", DType::Uint64),
        ],
    )]
}

#[test]
fn test_init() {
    let tables = get_test_tables();
    let db_init = DB::init("test_init", tables.clone());

    assert_eq!(db_init.tables, tables);
}

#[test]
fn test_open() {
    let db_init = DB::init("test_open", get_test_tables());
    let db_open = DB::open("test_open", MetaData { tables: db_init.tables.clone() });

    assert_eq!(db_open.tables, db_init.tables);
}

#[test]
fn test_write() {
    let db = DB::init("test_write", get_test_tables());
    let mut writers = create_writers(&db.tables[0], &vec![0, 0, 0]);

    db.write_data(
        &TEST_TABLE_NAME.to_string(),
        &vec![
            vec![
                DValue::String("test".to_string()),
                DValue::Uint64(123),
                DValue::Uint64(456),
            ],
            vec![
                DValue::String("test2".to_string()),
                DValue::Uint64(1234),
                DValue::Uint64(4567),
            ],
        ],
        &mut writers,
    )
    .unwrap()
}

#[test]
fn write_through_the_database_scans_back() {
    let db = DB::init("scan", get_test_tables());
    let table = db.get_table(&TEST_TABLE_NAME.to_string()).unwrap();
    let mut writers = create_writers(table, &vec![0, 0, 0]);
    let rows = vec![
        vec![DValue::String("test".to_string()), DValue::Uint64(123), DValue::Uint64(456)],
        vec![DValue::String("test2".to_string()), DValue::Uint64(1234), DValue::Uint64(4567)],
    ];
    db.write_data(&TEST_TABLE_NAME.to_string(), &rows, &mut writers).unwrap();
    let files = writers.into_iter().map(|w| (w.data, w.index)).collect();
    let readers = create_readers(&table.columns, files);
    assert_eq!(read_all(table, &readers).unwrap(), rows);
}

#[test]
fn unknown_table_is_refused_and_nothing_is_written() {
    let db = DB::init("missing", get_test_tables());
    let mut writers = create_writers(&db.tables[0], &vec![7, 8, 9]);
    let rows = vec![vec![DValue::Uint64(1)]];
    let res = db.write_data(&"nowhere".to_string(), &rows, &mut writers);
    assert_eq!(res, Err(StoreError::TableNotFound { table: "nowhere".to_string() }));
    for (w, at) in writers.iter().zip([7u64, 8, 9]) {
        assert_eq!(w.position, at);
        assert!(w.data.is_empty());
        assert!(w.index.is_empty());
    }
    assert_eq!(
        db.get_table(&"nowhere".to_string()),
        Err(StoreError::TableNotFound { table: "nowhere".to_string() })
    );
}

#[test]
fn the_first_table_of_a_name_is_found() {
    let mut tables = get_test_tables();
    tables.push(TableMetaData::new("other", vec![ColumnMetaData::new("n", DType::Uint64)]));
    tables.push(TableMetaData::new("other", vec![ColumnMetaData::new("s", DType::String)]));
    let db = DB::init("dir", tables);
    assert_eq!(db.path, "dir");
    let found = db.get_table(&"other".to_string()).unwrap();
    assert_eq!(found.columns, vec![ColumnMetaData::new("n", DType::Uint64)]);
}

#[test]
fn constructors_keep_their_arguments() {
    let column = ColumnMetaData::new("id", DType::Uint64);
    assert_eq!(column.name, "id");
    assert_eq!(column.dtype, DType::Uint64);
    let table = TableMetaData::new("events", vec![column.clone()]);
    assert_eq!(table.name, "events");
    assert_eq!(table.columns, vec![column]);
}
