use tablestore::column_definition::{Column, ColumnType};
use tablestore::file_manager::FileManager;
use tablestore::parser::Parser;
use tablestore::semantic_processor::SemanticProcessor;
use tablestore::table_definition::Table;
use tablestore::table_manager::{TpdEntry, TpdList};
use tablestore::text::{decimal_text, join_text, pad_text, same_text};
use tablestore::token::{Token, TokenType};

fn columns() -> Vec<Column> {
    vec![Column::new("id", ColumnType::Int, true), Column::new("name", ColumnType::Varchar(20), false)]
}

#[test]
fn token_new() {
    let token = Token::new("CREATE", TokenType::Keyword, 10);
    assert_eq!(
        token,
        Token { tok_string: "CREATE".to_string(), tok_type: TokenType::Keyword, tok_value: 10 }
    );
}

#[test]
fn column_new() {
    assert_eq!(
        Column::new("code", ColumnType::Char(3), true),
        Column { name: "code".to_string(), col_type: ColumnType::Char(3), not_null: true }
    );
}

#[test]
fn table_new_and_add_column() {
    let mut table = Table::new("example", columns());
    assert_eq!(table.name, "example");
    assert_eq!(table.columns, columns());
    table.add_column(Column::new("age", ColumnType::Int, false));
    assert_eq!(table.columns.len(), 3);
    assert_eq!(table.columns[2], Column::new("age", ColumnType::Int, false));
    assert_eq!(&table.columns[..2], &columns()[..]);
    assert_eq!(table.name, "example");
}

#[test]
fn entry_size_counts_header_name_and_columns() {
    let entry = TpdEntry::new("users", columns());
    assert_eq!(entry.tpd_size, 4 + 5 + 4 + 4 + 4 + 2 * 36);
    assert_eq!(entry.tpd_size, 93);
    assert_eq!(entry.table_name, "users");
    assert_eq!(entry.num_columns, 2);
    assert_eq!(entry.columns, columns());
    assert_eq!(entry.tpd_flags, 0);
    assert_eq!(TpdEntry::new("", vec![]).tpd_size, 16);
    assert_eq!(TpdEntry::new("\u{e9}", vec![]).tpd_size, 18);
}

#[test]
fn list_add_get_drop() {
    let mut list = TpdList::new();
    assert_eq!((list.list_size, list.num_tables, list.tpd_entries.len()), (0, 0, 0));
    assert_eq!(list.add_tpd_entry(TpdEntry::new("users", columns())), Ok(()));
    assert_eq!(list.add_tpd_entry(TpdEntry::new("orders", vec![])), Ok(()));
    assert_eq!((list.list_size, list.num_tables), (93 + 22, 2));
    assert_eq!(
        list.add_tpd_entry(TpdEntry::new("users", vec![])),
        Err("Duplicate table name".to_string())
    );
    assert_eq!((list.list_size, list.num_tables, list.tpd_entries.len()), (115, 2, 2));
    assert_eq!(list.get_tpd_entry("users"), Some(&TpdEntry::new("users", columns())));
    assert_eq!(list.get_tpd_entry("none"), None);
    assert_eq!(list.drop_tpd_entry("none"), Err("Table does not exist".to_string()));
    assert_eq!(list.drop_tpd_entry("users"), Ok(()));
    assert_eq!((list.list_size, list.num_tables), (115, 1));
    assert_eq!(list.get_tpd_entry("users"), None);
    assert_eq!(list.tpd_entries, vec![TpdEntry::new("orders", vec![])]);
}

#[test]
fn processor_works_on_the_list_it_borrows() {
    let mut list = TpdList::new();
    {
        let mut processor = SemanticProcessor::new(&mut list);
        assert_eq!(processor.process_list_tables(), vec!["No tables defined.".to_string()]);
        assert_eq!(processor.process_create_table("users", columns()), Ok(()));
        assert_eq!(processor.process_create_table("orders", vec![]), Ok(()));
        assert_eq!(
            processor.process_create_table("users", vec![]),
            Err("Duplicate table name".to_string())
        );
        assert_eq!(
            processor.process_list_tables(),
            vec!["users".to_string(), "orders".to_string()]
        );
        assert_eq!(
            processor.process_list_schema("users"),
            Ok(&TpdEntry::new("users", columns()))
        );
        assert_eq!(
            processor.process_list_schema("none"),
            Err("Table 'none' does not exist.".to_string())
        );
        assert_eq!(processor.process_drop_table("users"), Ok(()));
        assert_eq!(
            processor.process_drop_table("users"),
            Err("Table does not exist".to_string())
        );
    }
    assert_eq!(list.num_tables, 1);
    assert_eq!(list.tpd_entries, vec![TpdEntry::new("orders", vec![])]);
}

#[test]
fn parser_gives_no_tokens() {
    let mut parser = Parser::new("CREATE TABLE example (id INT NOT NULL)");
    assert_eq!(parser.parse_tokens(), vec![]);
}

#[test]
fn file_manager_keeps_the_path() {
    assert_eq!(FileManager::new("dbfile.bin").path(), "dbfile.bin");
}

#[test]
fn text_helpers() {
    assert!(same_text("abc", "abc"));
    assert!(!same_text("abc", "abd"));
    assert!(!same_text("abc", "ab"));
    assert!(same_text("", ""));
    assert_eq!(join_text("a", "bc"), "abc");
    assert_eq!(decimal_text(0), "0");
    assert_eq!(decimal_text(-1), "-1");
    assert_eq!(decimal_text(1234567890), "1234567890");
    assert_eq!(decimal_text(i64::MIN), "-9223372036854775808");
    assert_eq!(decimal_text(i64::MAX), "9223372036854775807");
    assert_eq!(pad_text("ab", 5), "ab   ");
    assert_eq!(pad_text("abcdef", 5), "abcdef");
    assert_eq!(pad_text("", 0), "");
    assert_eq!(pad_text("\u{e9}", 3), "\u{e9}  ");
}
