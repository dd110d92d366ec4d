use tablestore::command_parser::{parse_command, Column, ColumnType, Command, Value};
use tablestore::database::cell_value::Value as Stored;
use tablestore::database::{CellValue, ColumnDefinition, Database, Row, TableData, TableDefinition};
use tablestore::database_manager::{render_cell, DatabaseError, DatabaseManager, Outcome, Selection};

fn manager() -> DatabaseManager {
    DatabaseManager::new("dbfile.bin".to_string())
}

fn create(name: &str) -> Command {
    Command::CreateTable {
        name: name.to_string(),
        columns: vec![
            Column { name: "id".to_string(), col_type: ColumnType::INT, not_null: true },
            Column { name: "name".to_string(), col_type: ColumnType::STRING(20), not_null: false },
        ],
    }
}

fn definition(name: &str) -> TableDefinition {
    TableDefinition {
        name: name.to_string(),
        columns: vec![
            ColumnDefinition { name: "id".to_string(), col_type: 0, length: 0, not_null: true },
            ColumnDefinition { name: "name".to_string(), col_type: 1, length: 20, not_null: false },
        ],
    }
}

fn cell(value: Stored) -> CellValue {
    CellValue { value: Some(value) }
}

fn command(text: &str) -> Command {
    parse_command(text).unwrap()
}

fn written(outcome: Result<Outcome, DatabaseError>) -> Vec<u8> {
    match outcome {
        Ok(Outcome::CatalogChanged { contents }) => contents,
        Ok(Outcome::TableChanged { contents, .. }) => contents,
        other => panic!("nothing to write: {:?}", other),
    }
}

#[test]
fn new_keeps_the_path() {
    assert_eq!(manager().file_path(), "dbfile.bin");
}

#[test]
fn load_database_of_an_absent_file_is_empty() {
    assert_eq!(manager().load_database(None).unwrap(), Database { tables: vec![] });
    assert_eq!(manager().load_database(Some(&[])).unwrap(), Database { tables: vec![] });
}

#[test]
fn load_database_refuses_corrupt_bytes() {
    match manager().load_database(Some(&[0x0a, 0x05, 0x01])) {
        Err(DatabaseError::CorruptFile(file)) => assert_eq!(file, "dbfile.bin"),
        other => panic!("{:?}", other),
    }
}

#[test]
fn save_then_load_gives_the_catalog_back() {
    let m = manager();
    let database = Database { tables: vec![definition("a"), definition("b")] };
    let bytes = m.save_database(&database);
    assert_eq!(bytes, database.encode());
    assert_eq!(m.load_database(Some(&bytes)).unwrap(), database);
}

#[test]
fn create_table_then_list_tables_names_it_once() {
    let m = manager();
    let mut database = Database { tables: vec![definition("other")] };
    m.create_table(&mut database, create("t")).unwrap();
    let names = m.list_tables(&database).unwrap();
    assert_eq!(names, vec!["other".to_string(), "t".to_string()]);
    assert_eq!(names.iter().filter(|n| n.as_str() == "t").count(), 1);
    assert_eq!(database.tables[1], definition("t"));
}

#[test]
fn create_table_twice_fails_the_second_time() {
    let m = manager();
    let mut database = Database { tables: vec![] };
    assert!(m.create_table(&mut database, create("t")).is_ok());
    let before = database.clone();
    match m.create_table(&mut database, create("t")) {
        Err(DatabaseError::TableAlreadyExists(name)) => assert_eq!(name, "t"),
        other => panic!("{:?}", other),
    }
    assert_eq!(database, before);
    assert_eq!(database.tables.iter().filter(|t| t.name == "t").count(), 1);
}

#[test]
fn create_table_twice_through_the_files() {
    let m = manager();
    let first = written(m.execute(create("t"), None, None));
    match m.execute(create("t"), Some(&first), None) {
        Err(DatabaseError::TableAlreadyExists(name)) => assert_eq!(name, "t"),
        other => panic!("{:?}", other),
    }
    assert_eq!(Database::decode(&first).unwrap(), Database { tables: vec![definition("t")] });
    match m.execute(Command::ListTable, Some(&first), None) {
        Ok(Outcome::Tables(names)) => assert_eq!(names, vec!["t".to_string()]),
        other => panic!("{:?}", other),
    }
}

#[test]
fn create_table_cuts_the_length_to_32_bits() {
    let m = manager();
    let mut database = Database { tables: vec![] };
    let wide = Command::CreateTable {
        name: "w".to_string(),
        columns: vec![
            Column { name: "a".to_string(), col_type: ColumnType::STRING(4294967296 + 7), not_null: false },
            Column { name: "b".to_string(), col_type: ColumnType::STRING(256), not_null: true },
        ],
    };
    m.create_table(&mut database, wide).unwrap();
    assert_eq!(
        database.tables[0].columns,
        vec![
            ColumnDefinition { name: "a".to_string(), col_type: 1, length: 7, not_null: false },
            ColumnDefinition { name: "b".to_string(), col_type: 1, length: 256, not_null: true },
        ]
    );
}

#[test]
fn column_definition_from_column() {
    let int = Column { name: "id".to_string(), col_type: ColumnType::INT, not_null: true };
    assert_eq!(
        ColumnDefinition::from(int),
        ColumnDefinition { name: "id".to_string(), col_type: 0, length: 0, not_null: true }
    );
    let text = Column { name: "s".to_string(), col_type: ColumnType::STRING(u64::MAX), not_null: false };
    assert_eq!(
        ColumnDefinition::from(text),
        ColumnDefinition { name: "s".to_string(), col_type: 1, length: u32::MAX, not_null: false }
    );
}

#[test]
fn drop_table_on_an_empty_catalog_fails_and_changes_nothing() {
    let m = manager();
    let mut database = Database { tables: vec![] };
    match m.drop_table(&mut database, "missing") {
        Err(DatabaseError::TableDoesNotExist(name)) => assert_eq!(name, "missing"),
        other => panic!("{:?}", other),
    }
    assert_eq!(database, Database { tables: vec![] });
    match m.execute(command("DROP TABLE missing"), None, None) {
        Err(DatabaseError::TableDoesNotExist(name)) => assert_eq!(name, "missing"),
        other => panic!("{:?}", other),
    }
}

#[test]
fn drop_table_takes_the_table_out() {
    let m = manager();
    let mut database = Database { tables: vec![definition("a"), definition("b"), definition("c")] };
    m.drop_table(&mut database, "b").unwrap();
    assert_eq!(database, Database { tables: vec![definition("a"), definition("c")] });
    assert!(!m.has_table(&database, "b"));
    assert!(m.has_table(&database, "a"));
    assert!(m.has_table(&database, "c"));
    assert!(!m.has_table(&database, "A"));
}

#[test]
fn drop_table_takes_the_first_of_two() {
    let m = manager();
    let mut second = definition("a");
    second.columns.pop();
    let mut database = Database { tables: vec![definition("a"), second.clone()] };
    m.drop_table(&mut database, "a").unwrap();
    assert_eq!(database, Database { tables: vec![second] });
}

#[test]
fn list_tables_of_an_empty_catalog_fails() {
    let m = manager();
    assert!(matches!(
        m.list_tables(&Database { tables: vec![] }),
        Err(DatabaseError::NoTablesInDatabase)
    ));
    assert!(matches!(
        m.execute(Command::ListTable, None, None),
        Err(DatabaseError::NoTablesInDatabase)
    ));
}

#[test]
fn display_schema_gives_the_table() {
    let m = manager();
    let database = Database { tables: vec![definition("a"), definition("b")] };
    assert_eq!(m.display_schema(&database, "b").unwrap(), &definition("b"));
    match m.display_schema(&database, "c") {
        Err(DatabaseError::TableDoesNotExist(name)) => assert_eq!(name, "c"),
        other => panic!("{:?}", other),
    }
    let bytes = database.encode();
    match m.execute(command("SCHEMA a;"), Some(&bytes), None) {
        Ok(Outcome::Schema(table)) => assert_eq!(table, definition("a")),
        other => panic!("{:?}", other),
    }
    assert!(matches!(
        m.execute(command("SCHEMA z"), Some(&bytes), None),
        Err(DatabaseError::TableDoesNotExist(_))
    ));
}

#[test]
fn load_table_wants_the_table_in_the_catalog() {
    let m = manager();
    let database = Database { tables: vec![definition("t")] };
    match m.load_table(&database, "u", None) {
        Err(DatabaseError::TableDoesNotExist(name)) => assert_eq!(name, "u"),
        other => panic!("{:?}", other),
    }
    match m.load_table(&database, "u", Some(&[0xff])) {
        Err(DatabaseError::TableDoesNotExist(name)) => assert_eq!(name, "u"),
        other => panic!("{:?}", other),
    }
}

#[test]
fn load_table_without_a_file_has_no_rows() {
    let m = manager();
    let database = Database { tables: vec![definition("t")] };
    assert_eq!(
        m.load_table(&database, "t", None).unwrap(),
        TableData { table_name: "t".to_string(), num_rows: 0, rows: vec![] }
    );
}

#[test]
fn load_table_refuses_corrupt_bytes() {
    let m = manager();
    let database = Database { tables: vec![definition("t")] };
    match m.load_table(&database, "t", Some(&[0x1a, 0x01])) {
        Err(DatabaseError::CorruptFile(file)) => assert_eq!(file, "t.tab"),
        other => panic!("{:?}", other),
    }
}

#[test]
fn table_file_names() {
    assert_eq!(DatabaseManager::table_file("users"), "users.tab");
    assert_eq!(DatabaseManager::data_file(&command("SELECT * FROM a JOIN b")), Some("a.tab".to_string()));
    assert_eq!(DatabaseManager::data_file(&command("INSERT INTO c VALUES (1)")), Some("c.tab".to_string()));
    assert_eq!(DatabaseManager::data_file(&command("LIST TABLES")), None);
    assert_eq!(DatabaseManager::data_file(&command("DROP TABLE a")), None);
    assert_eq!(DatabaseManager::data_file(&create("a")), None);
    assert_eq!(DatabaseManager::data_file(&command("SCHEMA a")), None);
}

#[test]
fn insert_then_select_gives_the_rows_in_order() {
    let m = manager();
    let catalog = written(m.execute(create("t"), None, None));
    let insert = command("INSERT INTO t VALUES (1, 'a'), (2, NULL)");
    let (file, contents) = match m.execute(insert, Some(&catalog), None) {
        Ok(Outcome::TableChanged { file, contents }) => (file, contents),
        other => panic!("{:?}", other),
    };
    assert_eq!(file, "t.tab");
    let selection = match m.execute(command("SELECT * FROM t"), Some(&catalog), Some(&contents)) {
        Ok(Outcome::Rows(selection)) => selection,
        other => panic!("{:?}", other),
    };
    assert_eq!(selection.columns, vec!["id".to_string(), "name".to_string()]);
    assert_eq!(selection.rows.len(), 2);
    assert_eq!(
        selection.rows[0],
        Row { cells: vec![cell(Stored::IntVal(1)), cell(Stored::StrVal("a".to_string()))] }
    );
    assert_eq!(
        selection.rows[1],
        Row { cells: vec![cell(Stored::IntVal(2)), cell(Stored::NullVal(true))] }
    );
    let data = TableData::decode(&contents).unwrap();
    assert_eq!(data.table_name, "t");
    assert_eq!(data.num_rows, 2);
}

#[test]
fn insert_adds_behind_the_rows_that_are_there() {
    let m = manager();
    let database = Database { tables: vec![definition("t")] };
    let first = m
        .insert(&database, None, command("INSERT INTO t VALUES (1, 'a')"))
        .unwrap();
    let second = m
        .insert(&database, Some(&first.encode()), command("INSERT INTO t VALUES (2), (3, 4, 5)"))
        .unwrap();
    assert_eq!(
        second,
        TableData {
            table_name: "t".to_string(),
            num_rows: 3,
            rows: vec![
                Row { cells: vec![cell(Stored::IntVal(1)), cell(Stored::StrVal("a".to_string()))] },
                Row { cells: vec![cell(Stored::IntVal(2))] },
                Row {
                    cells: vec![cell(Stored::IntVal(3)), cell(Stored::IntVal(4)), cell(Stored::IntVal(5))]
                },
            ],
        }
    );
}

#[test]
fn insert_does_not_hold_values_against_the_schema() {
    let m = manager();
    let database = Database { tables: vec![definition("t")] };
    let data = m
        .insert(
            &database,
            None,
            Command::Insert {
                table: "t".to_string(),
                values: vec![vec![Value::Null, Value::Int(5), Value::Str("x".to_string())]],
            },
        )
        .unwrap();
    assert_eq!(
        data.rows,
        vec![Row {
            cells: vec![
                cell(Stored::NullVal(true)),
                cell(Stored::IntVal(5)),
                cell(Stored::StrVal("x".to_string()))
            ]
        }]
    );
    assert_eq!(data.num_rows, 1);
}

#[test]
fn insert_into_a_missing_table_fails() {
    let m = manager();
    match m.execute(command("INSERT INTO t VALUES (1)"), None, None) {
        Err(DatabaseError::TableDoesNotExist(name)) => assert_eq!(name, "t"),
        other => panic!("{:?}", other),
    }
    let database = Database { tables: vec![definition("t")] };
    assert!(matches!(
        m.insert(&database, Some(&[0x08]), command("INSERT INTO t VALUES (1)")),
        Err(DatabaseError::CorruptFile(_))
    ));
}

#[test]
fn select_ignores_the_selected_names_and_the_join() {
    let m = manager();
    let database = Database { tables: vec![definition("t"), definition("u")] };
    let data = TableData {
        table_name: "t".to_string(),
        num_rows: 1,
        rows: vec![Row { cells: vec![cell(Stored::IntVal(1)), cell(Stored::StrVal("a".to_string()))] }],
    };
    let bytes = data.encode();
    let all = m.select(&database, Some(&bytes), command("SELECT * FROM t")).unwrap();
    let some = m.select(&database, Some(&bytes), command("SELECT name FROM t JOIN u")).unwrap();
    assert_eq!(all, some);
    assert_eq!(all, Selection { columns: vec!["id".to_string(), "name".to_string()], rows: data.rows });
    match m.select(&database, None, command("SELECT * FROM v")) {
        Err(DatabaseError::TableDoesNotExist(name)) => assert_eq!(name, "v"),
        other => panic!("{:?}", other),
    }
    assert_eq!(
        m.select(&database, None, command("SELECT * FROM u")).unwrap(),
        Selection { columns: vec!["id".to_string(), "name".to_string()], rows: vec![] }
    );
}

#[test]
fn a_listing_has_a_header_a_rule_and_a_line_for_each_row() {
    let selection = Selection {
        columns: vec!["id".to_string(), "name".to_string()],
        rows: vec![
            Row { cells: vec![cell(Stored::IntVal(1)), cell(Stored::StrVal("a".to_string()))] },
            Row { cells: vec![cell(Stored::IntVal(-20)), cell(Stored::NullVal(true))] },
            Row { cells: vec![CellValue { value: None }, cell(Stored::NullVal(false)), cell(Stored::IntVal(0))] },
            Row { cells: vec![] },
        ],
    };
    let lines = selection.render();
    assert_eq!(lines.len(), 6);
    assert_eq!(lines[0], format!("{:<30}{:<30}", "id", "name"));
    assert_eq!(lines[1], "-".repeat(80));
    assert_eq!(lines[2], format!("{:<30}{:<30}", 1, "a"));
    assert_eq!(lines[3], format!("{:<30}{:<30}", -20, "NULL"));
    assert_eq!(lines[4], format!("{:<30}{:<30}", "Matched None", 0));
    assert_eq!(lines[5], "");
    assert_eq!(lines[2].len(), 60);
}

#[test]
fn a_cell_is_padded_to_thirty_characters() {
    assert_eq!(render_cell(&cell(Stored::IntVal(i64::MIN))), format!("{:<30}", i64::MIN));
    assert_eq!(render_cell(&cell(Stored::IntVal(i64::MAX))), format!("{:<30}", i64::MAX));
    assert_eq!(render_cell(&cell(Stored::IntVal(10))), format!("{:<30}", 10));
    let long = "x".repeat(31);
    assert_eq!(render_cell(&cell(Stored::StrVal(long.clone()))), long);
    let wide = "\u{e9}".repeat(29);
    assert_eq!(render_cell(&cell(Stored::StrVal(wide.clone()))), format!("{} ", wide));
    assert_eq!(render_cell(&cell(Stored::StrVal(String::new()))), " ".repeat(30));
    assert_eq!(render_cell(&cell(Stored::NullVal(false))), "");
    assert_eq!(render_cell(&CellValue { value: None }), format!("{:<30}", "Matched None"));
}

#[test]
fn error_messages() {
    assert_eq!(
        DatabaseError::TableAlreadyExists("t".to_string()).message(),
        "Table 't' already exists."
    );
    assert_eq!(
        DatabaseError::TableDoesNotExist("t".to_string()).message(),
        "Table 't' does not exist."
    );
    assert_eq!(DatabaseError::NoTablesInDatabase.message(), "No tables in the database.");
    assert_eq!(DatabaseError::UnknownError.message(), "An unknown error occurred.");
    assert_eq!(
        DatabaseError::CorruptFile("t.tab".to_string()).message(),
        "File 't.tab' cannot be decoded."
    );
    let cause = std::io::Error::new(std::io::ErrorKind::Other, "disk on fire");
    let error = DatabaseError::from(cause);
    assert!(matches!(error, DatabaseError::IOError(_)));
    assert_eq!(error.message(), "I/O error: disk on fire");
}

#[test]
fn execute_on_a_corrupt_catalog_fails() {
    let m = manager();
    for text in ["LIST TABLES", "DROP TABLE t", "SCHEMA t", "SELECT * FROM t", "INSERT INTO t VALUES (1)"] {
        assert!(matches!(
            m.execute(command(text), Some(&[0x0a]), None),
            Err(DatabaseError::CorruptFile(_))
        ));
    }
}

#[test]
fn execute_drop_writes_the_catalog_without_the_table() {
    let m = manager();
    let one = written(m.execute(create("a"), None, None));
    let two = written(m.execute(create("b"), Some(&one), None));
    let left = written(m.execute(command("DROP TABLE a;"), Some(&two), None));
    assert_eq!(Database::decode(&left).unwrap(), Database { tables: vec![definition("b")] });
}
