use tablestore::command_parser::{parse_command, Column, ColumnType, Command, Value};

fn parsed(input: &str) -> Command {
    match parse_command(input) {
        Ok(command) => command,
        Err(error) => panic!("{:?} does not parse: {:?}", input, error),
    }
}

fn remainder(input: &str) -> String {
    match parse_command(input) {
        Ok(command) => panic!("{:?} parses to {:?}", input, command),
        Err(error) => error.remainder,
    }
}

fn column(name: &str, col_type: ColumnType, not_null: bool) -> Column {
    Column { name: name.to_string(), col_type, not_null }
}

fn users_table() -> Command {
    Command::CreateTable {
        name: "users".to_string(),
        columns: vec![
            column("id", ColumnType::INT, true),
            column("name", ColumnType::STRING(20), false),
        ],
    }
}

#[test]
fn create_table_with_two_columns() {
    let command = parsed("CREATE TABLE users (id INT NOT NULL, name STRING(20))");
    assert_eq!(command, users_table());
}

#[test]
fn create_table_with_trailing_semicolon_parses_the_same() {
    let command = parsed("CREATE TABLE users (id INT NOT NULL, name STRING(20));");
    assert_eq!(command, users_table());
    assert_eq!(command, parsed("CREATE TABLE users (id INT NOT NULL, name STRING(20))"));
}

#[test]
fn create_table_without_closing_bracket_fails() {
    let input = "CREATE TABLE users (id INT NOT NULL, name STRING(20)";
    assert!(parse_command(input).is_err());
    assert_eq!(remainder(input), input);
}

#[test]
fn create_table_needs_a_column() {
    assert!(parse_command("CREATE TABLE users ()").is_err());
}

#[test]
fn create_table_tolerates_whitespace() {
    let command = parsed("CREATE TABLE \t users\n(id   INT \r\n NOT NULL)");
    assert_eq!(
        command,
        Command::CreateTable {
            name: "users".to_string(),
            columns: vec![column("id", ColumnType::INT, true)],
        }
    );
}

#[test]
fn create_table_needs_a_blank_behind_each_comma() {
    assert!(parse_command("CREATE TABLE t (a INT,b INT)").is_err());
    let command = parsed("CREATE TABLE t (a INT, b INT)");
    assert_eq!(
        command,
        Command::CreateTable {
            name: "t".to_string(),
            columns: vec![column("a", ColumnType::INT, false), column("b", ColumnType::INT, false)],
        }
    );
}

#[test]
fn keywords_are_case_sensitive() {
    assert!(parse_command("create table users (id INT)").is_err());
    assert!(parse_command("CREATE TABLE users (id int)").is_err());
}

#[test]
fn string_column_without_length_gets_256() {
    let command = parsed("CREATE TABLE t (a STRING)");
    assert_eq!(
        command,
        Command::CreateTable {
            name: "t".to_string(),
            columns: vec![column("a", ColumnType::STRING(256), false)],
        }
    );
}

#[test]
fn string_column_length_limits() {
    let command = parsed("CREATE TABLE t (a STRING(18446744073709551615) NOT NULL)");
    assert_eq!(
        command,
        Command::CreateTable {
            name: "t".to_string(),
            columns: vec![column("a", ColumnType::STRING(u64::MAX), true)],
        }
    );
    let command = parsed("CREATE TABLE t (a STRING(18446744073709551616))");
    assert_eq!(
        command,
        Command::CreateTable {
            name: "t".to_string(),
            columns: vec![column("a", ColumnType::STRING(256), false)],
        }
    );
    let command = parsed("CREATE TABLE t (a STRING(0))");
    assert_eq!(
        command,
        Command::CreateTable {
            name: "t".to_string(),
            columns: vec![column("a", ColumnType::STRING(0), false)],
        }
    );
}

#[test]
fn string_column_with_open_bracket_only_fails() {
    assert!(parse_command("CREATE TABLE t (a STRING(x))").is_err());
    assert!(parse_command("CREATE TABLE t (a STRING()").is_err());
}

#[test]
fn drop_table() {
    assert_eq!(parsed("DROP TABLE users"), Command::DropTable { name: "users".to_string() });
    assert_eq!(parsed("DROP TABLE users;"), Command::DropTable { name: "users".to_string() });
    assert!(parse_command("DROP TABLE ;").is_err());
}

#[test]
fn list_tables() {
    assert_eq!(parsed("LIST TABLES"), Command::ListTable);
    assert_eq!(parsed("LIST TABLES;"), Command::ListTable);
    assert!(parse_command("LIST TABLE").is_err());
}

#[test]
fn schema() {
    assert_eq!(parsed("SCHEMA users;"), Command::ListSchema { name: "users".to_string() });
    assert_eq!(
        parsed("SCHEMA my_table_1"),
        Command::ListSchema { name: "my_table_1".to_string() }
    );
}

#[test]
fn text_behind_a_command_is_refused() {
    assert_eq!(remainder("LIST TABLES extra"), " extra");
    assert_eq!(remainder("LIST TABLES; and more"), " and more");
    assert_eq!(remainder("DROP TABLE users cascade"), " cascade");
    assert_eq!(remainder("LIST TABLES;;"), ";");
    assert_eq!(remainder("LIST TABLES "), " ");
    assert_eq!(remainder("SCHEMA users; "), " ");
    assert_eq!(remainder("CREATE TABLE t (a INT) b"), " b");
    assert_eq!(remainder("SELECT * FROM users WHERE id"), " WHERE id");
}

#[test]
fn identifiers_take_letters_of_any_script() {
    assert_eq!(
        parsed("DROP TABLE caf\u{e9}_\u{85cf}\u{663}"),
        Command::DropTable { name: "caf\u{e9}_\u{85cf}\u{663}".to_string() }
    );
    assert_eq!(remainder("DROP TABLE a-b"), "-b");
    assert_eq!(remainder("DROP TABLE a\u{2014}b"), "\u{2014}b");
    assert_eq!(remainder("DROP TABLE a;b"), "b");
    assert_eq!(parsed("SCHEMA AZaz09_"), Command::ListSchema { name: "AZaz09_".to_string() });
    for c in ['@', '[', '`', '{', '/', ':', ' ', '\u{7f}'] {
        assert_eq!(remainder(&format!("SCHEMA a{}", c)), c.to_string());
    }
}

#[test]
fn select_star_with_join() {
    assert_eq!(
        parsed("SELECT * FROM users JOIN orders;"),
        Command::Select {
            columns: vec!["*".to_string()],
            table: "users".to_string(),
            join_table: Some("orders".to_string()),
        }
    );
}

#[test]
fn select_named_columns() {
    assert_eq!(
        parsed("SELECT id, name FROM users;"),
        Command::Select {
            columns: vec!["id".to_string(), "name".to_string()],
            table: "users".to_string(),
            join_table: None,
        }
    );
}

#[test]
fn select_with_incomplete_join_is_refused() {
    assert_eq!(remainder("SELECT * FROM users JOIN"), " JOIN");
    assert_eq!(remainder("SELECT * FROM users JOIN ;"), " JOIN ;");
}

#[test]
fn select_without_columns() {
    assert!(parse_command("SELECT FROM users").is_err());
    assert!(parse_command("SELECT , FROM users").is_err());
}

#[test]
fn a_comma_without_blank_ends_the_selected_names() {
    assert!(parse_command("SELECT id,name FROM users").is_err());
}

#[test]
fn insert_two_tuples() {
    assert_eq!(
        parsed("INSERT INTO t VALUES (1, 'a'), (2, NULL)"),
        Command::Insert {
            table: "t".to_string(),
            values: vec![
                vec![Value::Int(1), Value::Str("a".to_string())],
                vec![Value::Int(2), Value::Null],
            ],
        }
    );
}

#[test]
fn insert_with_semicolon() {
    assert_eq!(
        parsed("INSERT INTO people VALUES ('O Neil', 007);"),
        Command::Insert {
            table: "people".to_string(),
            values: vec![vec![Value::Str("O Neil".to_string()), Value::Int(7)]],
        }
    );
}

#[test]
fn insert_integer_limits() {
    assert_eq!(
        parsed("INSERT INTO t VALUES (9223372036854775807, 0)"),
        Command::Insert {
            table: "t".to_string(),
            values: vec![vec![Value::Int(i64::MAX), Value::Int(0)]],
        }
    );
    assert_eq!(remainder("INSERT INTO t VALUES (9223372036854775808)"), "9223372036854775808)");
    assert_eq!(remainder("INSERT INTO t VALUES (-1)"), "-1)");
}

#[test]
fn insert_failures_name_where_reading_stopped() {
    assert_eq!(remainder("INSERT INTO t VALUES (1, 'a"), ", 'a");
    assert_eq!(remainder("INSERT INTO t VALUES (1, 'a'"), "");
    assert_eq!(remainder("INSERT INTO t VALUES ('')"), "'')");
    assert_eq!(remainder("INSERT INTO t VALUES"), "");
    assert_eq!(remainder("INSERT INTO t SET (1)"), "SET (1)");
    assert_eq!(remainder("INSERT INTO  VALUES"), "");
    assert_eq!(remainder("INSERT INTO (1)"), "(1)");
    assert_eq!(remainder("INSERT INTO t VALUES (1,2)"), ",2)");
    assert_eq!(remainder("INSERT INTO t VALUES (null)"), "null)");
}

#[test]
fn insert_with_a_tuple_that_does_not_read_is_refused() {
    assert_eq!(remainder("INSERT INTO t VALUES (1), (x)"), ", (x)");
    assert_eq!(remainder("INSERT INTO t VALUES (1),(2)"), ",(2)");
}

#[test]
fn what_is_no_command_is_handed_back_whole() {
    assert_eq!(remainder("DELETE FROM orders;"), "DELETE FROM orders;");
    assert_eq!(remainder(""), "");
    assert_eq!(remainder(" LIST TABLES"), " LIST TABLES");
    assert_eq!(remainder("SELECT * users"), "SELECT * users");
}

#[test]
fn blanks_and_digits_are_those_of_nom() {
    let (rest, blanks) =
        nom::character::complete::multispace0::<&str, nom::error::Error<&str>>(" \t\r\n\u{a0}x").unwrap();
    assert_eq!((rest, blanks), ("\u{a0}x", " \t\r\n"));
    assert_eq!(
        parsed("DROP TABLE \t\r\nx"),
        Command::DropTable { name: "x".to_string() }
    );
    assert!(parse_command("DROP TABLE\u{a0}x").is_err());
    let (rest, digits) =
        nom::character::complete::digit1::<&str, nom::error::Error<&str>>("12\u{663}4").unwrap();
    assert_eq!((rest, digits), ("\u{663}4", "12"));
    assert_eq!(remainder("INSERT INTO t VALUES (12\u{663}4)"), "\u{663}4)");
}
