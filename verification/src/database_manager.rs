//! The store: the catalog of table schemas and the contents of each table.
//!
//! Nothing here touches a file. A caller reads the bytes of the catalog file
//! and of a table's data file, hands them in, and writes back the bytes that
//! an operation returns. Every operation works on a fresh copy decoded from
//! those bytes, so what is on disk is always a whole catalog or a whole table.

use crate::command_parser::{
    column_decl_views, literal_views, text_views, tuple_views, Column, ColumnDeclSpec, ColumnType,
    Command, CommandSpec, LiteralSpec, Value,
};
use crate::database;
use crate::database::cell_value;
use crate::database::cell_value::ValueSpec;
use crate::database::{
    cell_views, column_views, lemma_table_data_round_trip, row_views, table_data_fits,
    decode_database, decode_table_data, empty_database, encode_database, encode_table_data,
    CellValue, ColumnDefinition, ColumnSpec, Database, DatabaseSpec, Row, TableData, TableDataSpec,
    TableDefinition, TableSpec,
};
use crate::text::{decimal, decimal_text, join_text, pad_text, padded, same_text};
use vstd::prelude::*;
use vstd::string::StringExecFns;

verus! {

/// `std::io::Error`: the cause of an I/O error, which a caller hands in.
/// Nothing is read out of it but its text.
#[verifier::external_type_specification]
#[verifier::external_body]
pub struct ExIoError(std::io::Error);

/// What can go wrong in the store.
#[derive(Debug)]
pub enum DatabaseError {
    /// The catalog has a table of this name already.
    TableAlreadyExists(String),
    /// The catalog has no table of this name.
    TableDoesNotExist(String),
    /// The catalog is empty.
    NoTablesInDatabase,
    /// A file could not be read or written.
    IOError(std::io::Error),
    /// Anything else.
    UnknownError,
    /// The file of this name holds bytes that do not decode.
    CorruptFile(String),
}

/// What a `DatabaseError` stands for; of an I/O error only that it is one.
pub enum ErrorSpec {
    TableAlreadyExists(Seq<char>),
    TableDoesNotExist(Seq<char>),
    NoTablesInDatabase,
    IOError,
    UnknownError,
    CorruptFile(Seq<char>),
}

impl View for DatabaseError {
    type V = ErrorSpec;

    open spec fn view(&self) -> ErrorSpec {
        match *self {
            DatabaseError::TableAlreadyExists(name) => ErrorSpec::TableAlreadyExists(name@),
            DatabaseError::TableDoesNotExist(name) => ErrorSpec::TableDoesNotExist(name@),
            DatabaseError::NoTablesInDatabase => ErrorSpec::NoTablesInDatabase,
            DatabaseError::IOError(_) => ErrorSpec::IOError,
            DatabaseError::UnknownError => ErrorSpec::UnknownError,
            DatabaseError::CorruptFile(file) => ErrorSpec::CorruptFile(file@),
        }
    }
}

/// `std::io::Error::to_string`: the error in words, which depend on the
/// error and on the system that raised it.
#[verifier::external_body]
fn io_error_text(error: &std::io::Error) -> String {
    error.to_string()
}

/// The message of an error, but for the cause of an I/O error, which is given
/// in `cause`.
pub open spec fn message_of(e: ErrorSpec, cause: Seq<char>) -> Seq<char> {
    match e {
        ErrorSpec::TableAlreadyExists(name) => "Table '"@ + name + "' already exists."@,
        ErrorSpec::TableDoesNotExist(name) => "Table '"@ + name + "' does not exist."@,
        ErrorSpec::NoTablesInDatabase => "No tables in the database."@,
        ErrorSpec::IOError => "I/O error: "@ + cause,
        ErrorSpec::UnknownError => "An unknown error occurred."@,
        ErrorSpec::CorruptFile(file) => "File '"@ + file + "' cannot be decoded."@,
    }
}

impl DatabaseError {
    /// The error in words.
    pub fn message(&self) -> (text: String)
        ensures
            self@ !is IOError ==> text@ == message_of(self@, Seq::empty()),
            self@ is IOError ==> exists|cause: Seq<char>| text@ == message_of(self@, cause),
    {
        match self {
            DatabaseError::TableAlreadyExists(name) => {
                let mut text = join_text("Table '", name.as_str());
                text = join_text(text.as_str(), "' already exists.");
                text
            },
            DatabaseError::TableDoesNotExist(name) => {
                let mut text = join_text("Table '", name.as_str());
                text = join_text(text.as_str(), "' does not exist.");
                text
            },
            DatabaseError::NoTablesInDatabase => "No tables in the database.".to_owned(),
            DatabaseError::IOError(error) => {
                let cause = io_error_text(error);
                let text = join_text("I/O error: ", cause.as_str());
                assert(text@ == message_of(self@, cause@));
                text
            },
            DatabaseError::UnknownError => "An unknown error occurred.".to_owned(),
            DatabaseError::CorruptFile(file) => {
                let mut text = join_text("File '", file.as_str());
                text = join_text(text.as_str(), "' cannot be decoded.");
                text
            },
        }
    }
}

impl From<std::io::Error> for DatabaseError {
    fn from(error: std::io::Error) -> (e: DatabaseError) {
        DatabaseError::IOError(error)
    }
}

impl vstd::std_specs::convert::FromSpecImpl<std::io::Error> for DatabaseError {
    open spec fn obeys_from_spec() -> bool {
        true
    }

    open spec fn from_spec(error: std::io::Error) -> DatabaseError {
        DatabaseError::IOError(error)
    }
}

/// The stored form of a declared column: the type as a number, and the
/// length, cut to 32 bits, of a string column.
pub open spec fn column_of(c: ColumnDeclSpec) -> ColumnSpec {
    ColumnSpec {
        name: c.name,
        col_type: match c.col_type {
            ColumnType::INT => database::ColumnType::Int.code(),
            ColumnType::STRING(_) => database::ColumnType::String.code(),
        },
        length: match c.col_type {
            ColumnType::INT => 0,
            ColumnType::STRING(len) => len as u32,
        },
        not_null: c.not_null,
    }
}

impl From<Column> for ColumnDefinition {
    fn from(column: Column) -> (definition: ColumnDefinition) {
        ColumnDefinition {
            name: column.name,
            col_type: match column.col_type {
                ColumnType::INT => database::ColumnType::Int.to_i32(),
                ColumnType::STRING(_) => database::ColumnType::String.to_i32(),
            },
            length: match column.col_type {
                ColumnType::INT => 0,
                ColumnType::STRING(len) => len as u32,
            },
            not_null: column.not_null,
        }
    }
}

impl vstd::std_specs::convert::FromSpecImpl<Column> for ColumnDefinition {
    open spec fn obeys_from_spec() -> bool {
        true
    }

    open spec fn from_spec(column: Column) -> ColumnDefinition {
        ColumnDefinition {
            name: column.name,
            col_type: match column.col_type {
                ColumnType::INT => database::ColumnType::Int.code(),
                ColumnType::STRING(_) => database::ColumnType::String.code(),
            },
            length: match column.col_type {
                ColumnType::INT => 0,
                ColumnType::STRING(len) => len as u32,
            },
            not_null: column.not_null,
        }
    }
}

/// The stored forms of declared columns, one by one.
pub open spec fn columns_of(columns: Seq<ColumnDeclSpec>) -> Seq<ColumnSpec> {
    Seq::new(columns.len(), |i: int| column_of(columns[i]))
}

/// The index of the first table called `name`, or the number of tables where
/// there is none.
pub open spec fn index_of(tables: Seq<TableSpec>, name: Seq<char>) -> int
    decreases tables.len(),
{
    if tables.len() == 0 {
        0
    } else if tables[0].name == name {
        0
    } else {
        1 + index_of(tables.drop_first(), name)
    }
}

/// Whether the catalog holds a table called `name`.
pub open spec fn has_table(d: DatabaseSpec, name: Seq<char>) -> bool {
    exists|i: int| 0 <= i < d.tables.len() && (#[trigger] d.tables[i]).name == name
}

/// Whether no two tables of the catalog share a name.
pub open spec fn unique_names(d: DatabaseSpec) -> bool {
    forall|i: int, j: int|
        0 <= i < j < d.tables.len() ==> (#[trigger] d.tables[i]).name != (#[trigger] d.tables[j]).name
}

/// The names of the tables, in the order of the catalog.
pub open spec fn table_names(d: DatabaseSpec) -> Seq<Seq<char>> {
    Seq::new(d.tables.len(), |i: int| d.tables[i].name)
}

/// `index_of` finds the first table of that name: it is within the catalog
/// exactly when there is such a table, and no table before it has the name.
pub proof fn lemma_index_of(tables: Seq<TableSpec>, name: Seq<char>)
    ensures
        0 <= index_of(tables, name) <= tables.len(),
        index_of(tables, name) < tables.len() ==> tables[index_of(tables, name)].name == name,
        forall|j: int| 0 <= j < index_of(tables, name) ==> (#[trigger] tables[j]).name != name,
        index_of(tables, name) < tables.len() <==> has_table(DatabaseSpec { tables }, name),
    decreases tables.len(),
{
    if tables.len() > 0 && tables[0].name != name {
        let rest = tables.drop_first();
        lemma_index_of(rest, name);
        let k = index_of(rest, name);
        assert forall|j: int| 0 <= j < 1 + k implies (#[trigger] tables[j]).name != name by {
            if j > 0 {
                assert(tables[j] == rest[j - 1]);
            }
        }
        let d = DatabaseSpec { tables };
        let r = DatabaseSpec { tables: rest };
        if k < rest.len() {
            assert(tables[k + 1] == rest[k]);
            assert(d.tables[k + 1].name == name);
        }
        if has_table(d, name) {
            let i = choose|i: int| 0 <= i < d.tables.len() && (#[trigger] d.tables[i]).name == name;
            assert(r.tables[i - 1] == tables[i]);
            assert(has_table(r, name));
        }
    } else if tables.len() > 0 {
        let d = DatabaseSpec { tables };
        assert(d.tables[0].name == name);
    }
}


/// A table that has no table of its name before it, and that is called
/// `name` unless it is the end of the catalog, is where `index_of` points.
pub proof fn lemma_index_of_is(tables: Seq<TableSpec>, name: Seq<char>, i: int)
    requires
        0 <= i <= tables.len(),
        forall|j: int| 0 <= j < i ==> (#[trigger] tables[j]).name != name,
        i < tables.len() ==> tables[i].name == name,
    ensures
        index_of(tables, name) == i,
    decreases i,
{
    if i > 0 {
        let rest = tables.drop_first();
        assert forall|j: int| 0 <= j < i - 1 implies (#[trigger] rest[j]).name != name by {
            assert(rest[j] == tables[j + 1]);
        }
        assert(tables[0].name != name);
        lemma_index_of_is(rest, name, i - 1);
    }
}

/// The catalog that a catalog file holds; an absent file holds the empty one.
pub open spec fn loaded_database(file: Seq<char>, contents: Option<Seq<u8>>) -> Result<
    DatabaseSpec,
    ErrorSpec,
> {
    match contents {
        None => Ok(empty_database()),
        Some(bytes) => match decode_database(bytes) {
            Some(d) => Ok(d),
            None => Err(ErrorSpec::CorruptFile(file)),
        },
    }
}

/// The catalog with one more table at its end, unless it has one of that
/// name.
pub open spec fn created(d: DatabaseSpec, name: Seq<char>, columns: Seq<ColumnSpec>) -> Result<
    DatabaseSpec,
    ErrorSpec,
> {
    if has_table(d, name) {
        Err(ErrorSpec::TableAlreadyExists(name))
    } else {
        Ok(DatabaseSpec { tables: d.tables.push(TableSpec { name, columns }) })
    }
}

/// The catalog without its first table called `name`, if it has one.
pub open spec fn dropped(d: DatabaseSpec, name: Seq<char>) -> Result<DatabaseSpec, ErrorSpec> {
    if has_table(d, name) {
        Ok(DatabaseSpec { tables: d.tables.remove(index_of(d.tables, name)) })
    } else {
        Err(ErrorSpec::TableDoesNotExist(name))
    }
}

/// The names of the tables, unless there are none.
pub open spec fn listed(d: DatabaseSpec) -> Result<Seq<Seq<char>>, ErrorSpec> {
    if d.tables.len() == 0 {
        Err(ErrorSpec::NoTablesInDatabase)
    } else {
        Ok(table_names(d))
    }
}

/// The schema of the first table called `name`, if there is one.
pub open spec fn schema_of(d: DatabaseSpec, name: Seq<char>) -> Result<TableSpec, ErrorSpec> {
    if has_table(d, name) {
        Ok(d.tables[index_of(d.tables, name)])
    } else {
        Err(ErrorSpec::TableDoesNotExist(name))
    }
}

/// The index of the first table called `name`, or the number of tables.
fn find_table(database: &Database, name: &str) -> (i: usize)
    ensures
        i == index_of(database@.tables, name@),
        i <= database.tables@.len(),
        i < database.tables@.len() <==> has_table(database@, name@),
{
    let mut i: usize = 0;
    while i < database.tables.len()
        invariant
            i <= database.tables@.len(),
            forall|j: int| 0 <= j < i ==> (#[trigger] database@.tables[j]).name != name@,
        ensures
            i < database.tables@.len() ==> database@.tables[i as int].name == name@,
        decreases database.tables@.len() - i,
    {
        if same_text(database.tables[i].name.as_str(), name) {
            assert(database@.tables[i as int].name == database.tables@[i as int].name@);
            break ;
        }
        assert(database@.tables[i as int].name == database.tables@[i as int].name@);
        i += 1;
    }
    proof {
        lemma_index_of_is(database@.tables, name@, i as int);
        lemma_index_of(database@.tables, name@);
    }
    i
}

/// The stored forms of `columns`.
fn column_definitions(columns: Vec<Column>) -> (definitions: Vec<ColumnDefinition>)
    ensures
        column_views(definitions@) == columns_of(
            column_decl_views(columns@),
        ),
{
    let mut definitions: Vec<ColumnDefinition> = Vec::new();
    let mut i: usize = 0;
    while i < columns.len()
        invariant
            i <= columns@.len(),
            column_views(definitions@) == columns_of(
                column_decl_views(columns@.take(i as int)),
            ),
        decreases columns@.len() - i,
    {
        let column = Column {
            name: columns[i].name.clone(),
            col_type: columns[i].col_type,
            not_null: columns[i].not_null,
        };
        let definition = ColumnDefinition::from(column);
        let ghost before = column_views(definitions@);
        definitions.push(definition);
        proof {
            let decls = column_decl_views(columns@);
            assert(column@ == decls[i as int]);
            assert(definition@ == column_of(column@));
            assert(column_views(definitions@) =~= before.push(definition@));
            assert(columns_of(column_decl_views(columns@.take(i + 1)))
                =~= before.push(definition@));
        }
        i += 1;
    }
    assert(columns@.take(i as int) =~= columns@);
    definitions
}

/// The store of one database, whose catalog is kept in the file at
/// `file_path`.
pub struct DatabaseManager {
    file_path: String,
}

impl DatabaseManager {
    /// The path of the catalog file.
    pub closed spec fn path(&self) -> Seq<char> {
        self.file_path@
    }

    /// A store whose catalog file is at `file_path`.
    pub fn new(file_path: String) -> (manager: Self)
        ensures
            manager.path() == file_path@,
    {
        Self { file_path }
    }

    /// The path of the catalog file.
    pub fn file_path(&self) -> (path: &str)
        ensures
            path@ == self.path(),
    {
        self.file_path.as_str()
    }

    /// Decodes the catalog from what the catalog file holds: `None` where the
    /// file does not exist, which stands for the empty catalog.
    pub fn load_database(&self, contents: Option<&[u8]>) -> (r: Result<Database, DatabaseError>)
        ensures
            match loaded_database(
                self.path(),
                match contents {
                    Some(bytes) => Some(bytes@),
                    None => None,
                },
            ) {
                Ok(d) => r matches Ok(database) && database@ == d,
                Err(e) => r matches Err(error) && error@ == e,
            },
    {
        match contents {
            None => Ok(Database::default()),
            Some(bytes) => match Database::decode(bytes) {
                Ok(database) => Ok(database),
                Err(_) => Err(DatabaseError::CorruptFile(self.file_path.clone())),
            },
        }
    }

    /// Encodes the catalog: the bytes to write over the catalog file. Loading
    /// them gives the catalog again.
    pub fn save_database(&self, database: &Database) -> (bytes: Vec<u8>)
        ensures
            bytes@ == encode_database(database@),
            loaded_database(self.path(), Some(bytes@)) == Ok::<DatabaseSpec, ErrorSpec>(database@),
    {
        database.encode()
    }

    /// Whether the catalog holds a table called `table_name`.
    pub fn has_table(&self, database: &Database, table_name: &str) -> (found: bool)
        ensures
            found == has_table(database@, table_name@),
    {
        find_table(database, table_name) < database.tables.len()
    }

    /// Adds the table that a `CREATE TABLE` command declares at the end of
    /// the catalog. Where the catalog has a table of that name, it stays as
    /// it is and the error names the table.
    pub fn create_table(&self, database: &mut Database, command: Command) -> (r: Result<
        (),
        DatabaseError,
    >)
        requires
            command@ is CreateTable,
        ensures
            command@ matches CommandSpec::CreateTable { name, columns } && match created(
                old(database)@,
                name,
                columns_of(columns),
            ) {
                Ok(d) => r is Ok && final(database)@ == d,
                Err(e) => r matches Err(error) && error@ == e && final(database)@ == old(database)@,
            },
    {
        match command {
            Command::CreateTable { name, columns } => {
                if self.has_table(database, name.as_str()) {
                    return Err(DatabaseError::TableAlreadyExists(name));
                }
                let table = TableDefinition { name, columns: column_definitions(columns) };
                let ghost before = database@.tables;
                database.tables.push(table);
                assert(database@.tables =~= before.push(table@));
                Ok(())
            },
            _ => Err(DatabaseError::UnknownError),
        }
    }

    /// The names of the tables in the order of the catalog; an error where
    /// the catalog is empty.
    pub fn list_tables(&self, database: &Database) -> (r: Result<Vec<String>, DatabaseError>)
        ensures
            match listed(database@) {
                Ok(names) => r matches Ok(found) && text_views(found@)
                    == names,
                Err(e) => r matches Err(error) && error@ == e,
            },
    {
        if database.tables.len() == 0 {
            return Err(DatabaseError::NoTablesInDatabase);
        }
        let mut names: Vec<String> = Vec::new();
        let mut i: usize = 0;
        while i < database.tables.len()
            invariant
                i <= database.tables@.len(),
                text_views(names@) == table_names(database@).take(i as int),
            decreases database.tables@.len() - i,
        {
            let name = database.tables[i].name.clone();
            let ghost before = text_views(names@);
            names.push(name);
            proof {
                assert(name@ == database.tables@[i as int]@.name);
                assert(text_views(names@) =~= before.push(name@));
                assert(table_names(database@).take(i + 1) =~= before.push(name@));
            }
            i += 1;
        }
        assert(table_names(database@).take(i as int) =~= table_names(database@));
        Ok(names)
    }

    /// Takes the first table called `table_name` out of the catalog. Where
    /// there is none, the catalog stays as it is and the error names the
    /// table. The table's data file is not touched either way.
    pub fn drop_table(&self, database: &mut Database, table_name: &str) -> (r: Result<
        (),
        DatabaseError,
    >)
        ensures
            match dropped(old(database)@, table_name@) {
                Ok(d) => r is Ok && final(database)@ == d,
                Err(e) => r matches Err(error) && error@ == e && final(database)@ == old(database)@,
            },
    {
        let index = find_table(database, table_name);
        if index < database.tables.len() {
            let ghost before = database@.tables;
            database.tables.remove(index);
            assert(database@.tables =~= before.remove(index as int));
            Ok(())
        } else {
            Err(DatabaseError::TableDoesNotExist(table_name.to_owned()))
        }
    }

    /// The schema of the first table called `table_name`.
    pub fn display_schema<'a>(&self, database: &'a Database, table_name: &str) -> (r: Result<
        &'a TableDefinition,
        DatabaseError,
    >)
        ensures
            match schema_of(database@, table_name@) {
                Ok(t) => r matches Ok(table) && table@ == t,
                Err(e) => r matches Err(error) && error@ == e,
            },
    {
        let index = find_table(database, table_name);
        if index < database.tables.len() {
            Ok(&database.tables[index])
        } else {
            Err(DatabaseError::TableDoesNotExist(table_name.to_owned()))
        }
    }
}


/// The name of the file that holds the contents of table `name`.
pub open spec fn table_file(name: Seq<char>) -> Seq<char> {
    name + ".tab"@
}

/// The contents of a table that has not been written yet.
pub open spec fn fresh_table(name: Seq<char>) -> TableDataSpec {
    TableDataSpec { table_name: name, num_rows: 0, rows: Seq::empty() }
}

/// The contents of table `name` as its data file holds them: an error where
/// the catalog has no such table, and no rows where the file does not exist.
pub open spec fn loaded_table(d: DatabaseSpec, name: Seq<char>, contents: Option<Seq<u8>>) -> Result<
    TableDataSpec,
    ErrorSpec,
> {
    if !has_table(d, name) {
        Err(ErrorSpec::TableDoesNotExist(name))
    } else {
        match contents {
            None => Ok(fresh_table(name)),
            Some(bytes) => match decode_table_data(bytes) {
                Some(data) => Ok(data),
                None => Err(ErrorSpec::CorruptFile(table_file(name))),
            },
        }
    }
}

/// The cell that a literal is stored as.
pub open spec fn cell_of(v: LiteralSpec) -> Option<ValueSpec> {
    match v {
        LiteralSpec::Int(n) => Some(ValueSpec::IntVal(n)),
        LiteralSpec::Str(text) => Some(ValueSpec::StrVal(text)),
        LiteralSpec::Null => Some(ValueSpec::NullVal(true)),
    }
}

/// The row that a tuple of literals is stored as.
pub open spec fn row_of(tuple: Seq<LiteralSpec>) -> Seq<Option<ValueSpec>> {
    Seq::new(tuple.len(), |i: int| cell_of(tuple[i]))
}

/// The rows that tuples are stored as, one by one.
pub open spec fn rows_of(tuples: Seq<Seq<LiteralSpec>>) -> Seq<Seq<Option<ValueSpec>>> {
    Seq::new(tuples.len(), |i: int| row_of(tuples[i]))
}

/// The contents of table `table` after `values` have been added behind the
/// rows that it has. The row count is the number of rows, cut to 32 bits.
pub open spec fn inserted(
    d: DatabaseSpec,
    contents: Option<Seq<u8>>,
    table: Seq<char>,
    values: Seq<Seq<LiteralSpec>>,
) -> Result<TableDataSpec, ErrorSpec> {
    match loaded_table(d, table, contents) {
        Err(e) => Err(e),
        Ok(data) => Ok(
            TableDataSpec {
                table_name: table,
                num_rows: (data.rows.len() + values.len()) as u32,
                rows: data.rows + rows_of(values),
            },
        ),
    }
}

/// What a `SELECT` gives: the names of the table's columns and all its rows.
#[derive(Debug, Clone, PartialEq)]
pub struct Selection {
    pub columns: Vec<String>,
    pub rows: Vec<Row>,
}

/// What a `Selection` stands for.
pub struct SelectionSpec {
    pub columns: Seq<Seq<char>>,
    pub rows: Seq<Seq<Option<ValueSpec>>>,
}

impl View for Selection {
    type V = SelectionSpec;

    open spec fn view(&self) -> SelectionSpec {
        SelectionSpec { columns: text_views(self.columns@), rows: row_views(self.rows@) }
    }
}

/// The names of a table's columns, in their order.
pub open spec fn column_names(t: TableSpec) -> Seq<Seq<char>> {
    Seq::new(t.columns.len(), |i: int| t.columns[i].name)
}

/// Every column and every row of table `table`, in stored order.
pub open spec fn selected(d: DatabaseSpec, contents: Option<Seq<u8>>, table: Seq<char>) -> Result<
    SelectionSpec,
    ErrorSpec,
> {
    match loaded_table(d, table, contents) {
        Err(e) => Err(e),
        Ok(data) => Ok(
            SelectionSpec {
                columns: column_names(d.tables[index_of(d.tables, table)]),
                rows: data.rows,
            },
        ),
    }
}

/// The width to which a column of a listing is padded.
pub const COLUMN_WIDTH: usize = 30;

/// The width of the rule under the header of a listing.
pub const RULE_WIDTH: usize = 80;

/// A cell as a listing shows it, padded to the column width: a number in
/// decimal, a string as it is, a null as `NULL`, an unset cell as
/// `Matched None`. A null marker that is not set shows as nothing at all.
pub open spec fn cell_text(c: Option<ValueSpec>) -> Seq<char> {
    match c {
        Some(ValueSpec::IntVal(v)) => padded(decimal(v as int), COLUMN_WIDTH as int),
        Some(ValueSpec::StrVal(text)) => padded(text, COLUMN_WIDTH as int),
        Some(ValueSpec::NullVal(b)) => if b {
            padded("NULL"@, COLUMN_WIDTH as int)
        } else {
            Seq::empty()
        },
        None => padded("Matched None"@, COLUMN_WIDTH as int),
    }
}

/// The header of a listing: each name padded to the column width.
pub open spec fn header_line(names: Seq<Seq<char>>) -> Seq<char>
    decreases names.len(),
{
    if names.len() == 0 {
        Seq::empty()
    } else {
        header_line(names.drop_last()) + padded(names.last(), COLUMN_WIDTH as int)
    }
}

/// A row of a listing: each cell as `cell_text` shows it.
pub open spec fn row_line(cells: Seq<Option<ValueSpec>>) -> Seq<char>
    decreases cells.len(),
{
    if cells.len() == 0 {
        Seq::empty()
    } else {
        row_line(cells.drop_last()) + cell_text(cells.last())
    }
}

/// The rule under the header.
pub open spec fn rule_line() -> Seq<char> {
    Seq::new(RULE_WIDTH as nat, |i: int| '-')
}

/// The lines of a listing: the header, the rule, and a line for each row.
pub open spec fn rendered(s: SelectionSpec) -> Seq<Seq<char>> {
    seq![header_line(s.columns), rule_line()] + Seq::new(s.rows.len(), |i: int| row_line(s.rows[i]))
}

/// A cell as a listing shows it.
pub fn render_cell(cell: &CellValue) -> (text: String)
    ensures
        text@ == cell_text(cell@),
{
    match &cell.value {
        Some(cell_value::Value::IntVal(v)) => {
            let digits = decimal_text(*v);
            pad_text(digits.as_str(), COLUMN_WIDTH)
        },
        Some(cell_value::Value::StrVal(text)) => pad_text(
            text.as_str(),
            COLUMN_WIDTH,
        ),
        Some(cell_value::Value::NullVal(b)) => {
            if *b {
                pad_text("NULL", COLUMN_WIDTH)
            } else {
                String::new()
            }
        },
        None => pad_text("Matched None", COLUMN_WIDTH),
    }
}

impl Selection {
    /// The lines of the listing.
    pub fn render(&self) -> (lines: Vec<String>)
        ensures
            text_views(lines@) == rendered(self@),
    {
        let mut lines: Vec<String> = Vec::new();
        let mut header = String::new();
        let mut i: usize = 0;
        assert(self@.columns.take(0) =~= Seq::<Seq<char>>::empty());
        while i < self.columns.len()
            invariant
                i <= self.columns@.len(),
                header@ == header_line(self@.columns.take(i as int)),
            decreases self.columns@.len() - i,
        {
            let piece = pad_text(self.columns[i].as_str(), COLUMN_WIDTH);
            header.append(piece.as_str());
            proof {
                let done = self@.columns.take(i + 1);
                assert(done.drop_last() =~= self@.columns.take(i as int));
                assert(done.last() == self.columns@[i as int]@);
            }
            i += 1;
        }
        assert(self@.columns.take(i as int) =~= self@.columns);
        lines.push(header);
        let mut rule = String::new();
        let mut k: usize = 0;
        proof {
            reveal_strlit("-");
        }
        while k < RULE_WIDTH
            invariant
                k <= RULE_WIDTH,
                rule@ == Seq::new(k as nat, |i: int| '-'),
                "-"@ == seq!['-'],
            decreases RULE_WIDTH - k,
        {
            rule.append("-");
            k += 1;
            assert(rule@ =~= Seq::new(k as nat, |i: int| '-'));
        }
        lines.push(rule);
        assert(text_views(lines@) =~= seq![header_line(self@.columns), rule_line()]);
        let mut r: usize = 0;
        while r < self.rows.len()
            invariant
                r <= self.rows@.len(),
                text_views(lines@) == seq![header_line(self@.columns), rule_line()] + Seq::new(
                    r as nat,
                    |i: int| row_line(self@.rows[i]),
                ),
            decreases self.rows@.len() - r,
        {
            let row = &self.rows[r];
            let mut line = String::new();
            let mut c: usize = 0;
            assert(row@.take(0) =~= Seq::<Option<ValueSpec>>::empty());
            while c < row.cells.len()
                invariant
                    c <= row.cells@.len(),
                    line@ == row_line(row@.take(c as int)),
                decreases row.cells@.len() - c,
            {
                let piece = render_cell(&row.cells[c]);
                line.append(piece.as_str());
                proof {
                    let done = row@.take(c + 1);
                    assert(done.drop_last() =~= row@.take(c as int));
                    assert(done.last() == row.cells@[c as int]@);
                }
                c += 1;
            }
            assert(row@.take(c as int) =~= row@);
            let ghost before = text_views(lines@);
            lines.push(line);
            proof {
                assert(text_views(lines@) =~= before.push(line@));
                assert(row@ == self@.rows[r as int]);
                assert(before.push(line@) =~= seq![header_line(self@.columns), rule_line()]
                    + Seq::new((r + 1) as nat, |i: int| row_line(self@.rows[i])));
            }
            r += 1;
        }
        lines
    }
}

/// The cell that a literal is stored as.
fn cell_for(value: &Value) -> (cell: CellValue)
    ensures
        cell@ == cell_of(value@),
{
    match value {
        Value::Int(n) => CellValue { value: Some(cell_value::Value::IntVal(*n)) },
        Value::Str(text) => CellValue {
            value: Some(cell_value::Value::StrVal(text.clone())),
        },
        Value::Null => CellValue { value: Some(cell_value::Value::NullVal(true)) },
    }
}

/// The row that a tuple of literals is stored as.
fn row_for(tuple: &Vec<Value>) -> (row: Row)
    ensures
        row@ == row_of(literal_views(tuple@)),
{
    let mut cells: Vec<CellValue> = Vec::new();
    let mut i: usize = 0;
    while i < tuple.len()
        invariant
            i <= tuple@.len(),
            cell_views(cells@) == row_of(literal_views(tuple@)).take(i as int),
        decreases tuple@.len() - i,
    {
        let cell = cell_for(&tuple[i]);
        let ghost before = cell_views(cells@);
        cells.push(cell);
        proof {
            assert(cell_views(cells@) =~= before.push(cell@));
            assert(row_of(literal_views(tuple@)).take(i + 1) =~= before.push(cell@));
        }
        i += 1;
    }
    assert(row_of(literal_views(tuple@)).take(i as int) =~= row_of(literal_views(tuple@)));
    Row { cells }
}

impl DatabaseManager {
    /// The name of the file that holds the contents of table `table_name`.
    pub fn table_file(table_name: &str) -> (file: String)
        ensures
            file@ == table_file(table_name@),
    {
        join_text(table_name, ".tab")
    }

    /// Decodes the contents of table `table_name` from what its data file
    /// holds: `None` where the file does not exist, which stands for a table
    /// without rows. The catalog must hold the table.
    pub fn load_table(&self, database: &Database, table_name: &str, contents: Option<&[u8]>) -> (r:
        Result<TableData, DatabaseError>)
        ensures
            match loaded_table(
                database@,
                table_name@,
                match contents {
                    Some(bytes) => Some(bytes@),
                    None => None,
                },
            ) {
                Ok(d) => r matches Ok(data) && data@ == d,
                Err(e) => r matches Err(error) && error@ == e,
            },
    {
        if !self.has_table(database, table_name) {
            return Err(DatabaseError::TableDoesNotExist(table_name.to_owned()));
        }
        match contents {
            None => {
                let data = TableData {
                    table_name: table_name.to_owned(),
                    num_rows: 0,
                    rows: Vec::new(),
                };
                assert(data@.rows =~= Seq::empty());
                Ok(data)
            },
            Some(bytes) => match TableData::decode(bytes) {
                Ok(data) => Ok(data),
                Err(_) => Err(DatabaseError::CorruptFile(Self::table_file(table_name))),
            },
        }
    }

    /// Lists a table for a `SELECT` command: the names of all its columns and
    /// all its rows. The names that the command selects and a table that it
    /// joins play no part.
    pub fn select(&self, database: &Database, contents: Option<&[u8]>, command: Command) -> (r:
        Result<Selection, DatabaseError>)
        requires
            command@ is Select,
        ensures
            command@ matches CommandSpec::Select { columns, table, join_table } && match selected(
                database@,
                match contents {
                    Some(bytes) => Some(bytes@),
                    None => None,
                },
                table,
            ) {
                Ok(s) => r matches Ok(selection) && selection@ == s,
                Err(e) => r matches Err(error) && error@ == e,
            },
    {
        match command {
            Command::Select { columns: _, table, join_table: _ } => {
                let data = match self.load_table(database, table.as_str(), contents) {
                    Ok(data) => data,
                    Err(error) => { return Err(error); },
                };
                let index = find_table(database, table.as_str());
                let definition = &database.tables[index];
                let mut names: Vec<String> = Vec::new();
                let mut i: usize = 0;
                while i < definition.columns.len()
                    invariant
                        i <= definition.columns@.len(),
                        text_views(names@) == column_names(definition@).take(i as int),
                    decreases definition.columns@.len() - i,
                {
                    let name = definition.columns[i].name.clone();
                    let ghost before = text_views(names@);
                    names.push(name);
                    proof {
                        assert(name@ == definition.columns@[i as int]@.name);
                        assert(text_views(names@) =~= before.push(name@));
                        assert(column_names(definition@).take(i + 1) =~= before.push(name@));
                    }
                    i += 1;
                }
                assert(column_names(definition@).take(i as int) =~= column_names(definition@));
                Ok(Selection { columns: names, rows: data.rows })
            },
            _ => Err(DatabaseError::UnknownError),
        }
    }

    /// Adds the tuples of an `INSERT` command, each as one row, behind the
    /// rows that the table has, and returns the table's new contents. The
    /// literals are stored as they come: nothing holds them against the types
    /// of the table's columns, their number, or `NOT NULL`.
    pub fn insert(&self, database: &Database, contents: Option<&[u8]>, command: Command) -> (r:
        Result<TableData, DatabaseError>)
        requires
            command@ is Insert,
        ensures
            command@ matches CommandSpec::Insert { table, values } && match inserted(
                database@,
                match contents {
                    Some(bytes) => Some(bytes@),
                    None => None,
                },
                table,
                values,
            ) {
                Ok(d) => r matches Ok(data) && data@ == d,
                Err(e) => r matches Err(error) && error@ == e,
            },
    {
        match command {
            Command::Insert { table, values } => {
                let loaded = match self.load_table(database, table.as_str(), contents) {
                    Ok(data) => data,
                    Err(error) => { return Err(error); },
                };
                let mut rows = loaded.rows;
                let ghost old_rows = row_views(rows@);
                let mut i: usize = 0;
                assert(rows_of(tuple_views(values@)).take(0) =~= Seq::empty());
                while i < values.len()
                    invariant
                        i <= values@.len(),
                        row_views(rows@) == old_rows + rows_of(tuple_views(values@)).take(i as int),
                    decreases values@.len() - i,
                {
                    let row = row_for(&values[i]);
                    let ghost before = row_views(rows@);
                    rows.push(row);
                    proof {
                        assert(row_views(rows@) =~= before.push(row@));
                        assert(rows_of(tuple_views(values@)).take(i + 1) =~= rows_of(
                            tuple_views(values@),
                        ).take(i as int).push(row@));
                    }
                    i += 1;
                }
                assert(rows_of(tuple_views(values@)).take(i as int) =~= rows_of(
                    tuple_views(values@),
                ));
                let count = rows.len() as u32;
                Ok(TableData { table_name: table, num_rows: count, rows })
            },
            _ => Err(DatabaseError::UnknownError),
        }
    }
}


/// What a command comes to: something to write, or something to show.
#[derive(Debug, Clone, PartialEq)]
pub enum Outcome {
    /// The catalog has changed: `contents` go over the catalog file.
    CatalogChanged { contents: Vec<u8> },
    /// The names of the tables.
    Tables(Vec<String>),
    /// The schema of a table.
    Schema(TableDefinition),
    /// The listing of a table.
    Rows(Selection),
    /// A table has changed: `contents` go over the file `file`.
    TableChanged { file: String, contents: Vec<u8> },
}

/// What an `Outcome` stands for.
pub enum OutcomeSpec {
    CatalogChanged { contents: Seq<u8> },
    Tables(Seq<Seq<char>>),
    Schema(TableSpec),
    Rows(SelectionSpec),
    TableChanged { file: Seq<char>, contents: Seq<u8> },
}

impl View for Outcome {
    type V = OutcomeSpec;

    open spec fn view(&self) -> OutcomeSpec {
        match *self {
            Outcome::CatalogChanged { contents } => OutcomeSpec::CatalogChanged {
                contents: contents@,
            },
            Outcome::Tables(names) => OutcomeSpec::Tables(text_views(names@)),
            Outcome::Schema(table) => OutcomeSpec::Schema(table@),
            Outcome::Rows(selection) => OutcomeSpec::Rows(selection@),
            Outcome::TableChanged { file, contents } => OutcomeSpec::TableChanged {
                file: file@,
                contents: contents@,
            },
        }
    }
}

/// The data file that a command works on, if it works on one.
pub open spec fn data_file_of(command: CommandSpec) -> Option<Seq<char>> {
    match command {
        CommandSpec::Select { columns, table, join_table } => Some(table_file(table)),
        CommandSpec::Insert { table, values } => Some(table_file(table)),
        _ => None,
    }
}

/// What `command` comes to on a catalog file that holds `catalog` and a data
/// file that holds `table`, where the catalog file is called `file`.
pub open spec fn executed(
    file: Seq<char>,
    command: CommandSpec,
    catalog: Option<Seq<u8>>,
    table: Option<Seq<u8>>,
) -> Result<OutcomeSpec, ErrorSpec> {
    match loaded_database(file, catalog) {
        Err(e) => Err(e),
        Ok(d) => match command {
            CommandSpec::CreateTable { name, columns } => match created(
                d,
                name,
                columns_of(columns),
            ) {
                Ok(next) => Ok(OutcomeSpec::CatalogChanged { contents: encode_database(next) }),
                Err(e) => Err(e),
            },
            CommandSpec::DropTable { name } => match dropped(d, name) {
                Ok(next) => Ok(OutcomeSpec::CatalogChanged { contents: encode_database(next) }),
                Err(e) => Err(e),
            },
            CommandSpec::ListTable => match listed(d) {
                Ok(names) => Ok(OutcomeSpec::Tables(names)),
                Err(e) => Err(e),
            },
            CommandSpec::ListSchema { name } => match schema_of(d, name) {
                Ok(t) => Ok(OutcomeSpec::Schema(t)),
                Err(e) => Err(e),
            },
            CommandSpec::Select { columns, table: name, join_table } => match selected(
                d,
                table,
                name,
            ) {
                Ok(s) => Ok(OutcomeSpec::Rows(s)),
                Err(e) => Err(e),
            },
            CommandSpec::Insert { table: name, values } => match inserted(d, table, name, values) {
                Ok(data) => Ok(
                    OutcomeSpec::TableChanged {
                        file: table_file(name),
                        contents: encode_table_data(data),
                    },
                ),
                Err(e) => Err(e),
            },
        },
    }
}

impl DatabaseManager {
    /// The data file whose bytes `execute` wants for `command`, if it wants
    /// any.
    pub fn data_file(command: &Command) -> (file: Option<String>)
        ensures
            match data_file_of(command@) {
                Some(name) => file matches Some(found) && found@ == name,
                None => file is None,
            },
    {
        match command {
            Command::Select { columns: _, table, join_table: _ } => Some(
                Self::table_file(table.as_str()),
            ),
            Command::Insert { table, values: _ } => Some(Self::table_file(table.as_str())),
            _ => None,
        }
    }

    /// Carries out `command`. `catalog` is what the catalog file holds and
    /// `table` what the file named by `data_file` holds, each `None` where
    /// the file does not exist. Nothing is written here: an outcome that
    /// says that something has changed carries the bytes for the caller to
    /// write, and an error leaves every file as it is.
    pub fn execute(&self, command: Command, catalog: Option<&[u8]>, table: Option<&[u8]>) -> (r:
        Result<Outcome, DatabaseError>)
        ensures
            match executed(
                self.path(),
                command@,
                match catalog {
                    Some(bytes) => Some(bytes@),
                    None => None,
                },
                match table {
                    Some(bytes) => Some(bytes@),
                    None => None,
                },
            ) {
                Ok(o) => r matches Ok(outcome) && outcome@ == o,
                Err(e) => r matches Err(error) && error@ == e,
            },
    {
        let mut database = match self.load_database(catalog) {
            Ok(database) => database,
            Err(error) => { return Err(error); },
        };
        match command {
            Command::CreateTable { name, columns } => {
                match self.create_table(&mut database, Command::CreateTable { name, columns }) {
                    Ok(()) => Ok(
                        Outcome::CatalogChanged { contents: self.save_database(&database) },
                    ),
                    Err(error) => Err(error),
                }
            },
            Command::DropTable { name } => {
                match self.drop_table(&mut database, name.as_str()) {
                    Ok(()) => Ok(
                        Outcome::CatalogChanged { contents: self.save_database(&database) },
                    ),
                    Err(error) => Err(error),
                }
            },
            Command::ListTable => {
                match self.list_tables(&database) {
                    Ok(names) => Ok(Outcome::Tables(names)),
                    Err(error) => Err(error),
                }
            },
            Command::ListSchema { name } => {
                let index = find_table(&database, name.as_str());
                if index < database.tables.len() {
                    Ok(Outcome::Schema(database.tables.remove(index)))
                } else {
                    Err(DatabaseError::TableDoesNotExist(name))
                }
            },
            Command::Select { columns, table: name, join_table } => {
                match self.select(
                    &database,
                    table,
                    Command::Select { columns, table: name, join_table },
                ) {
                    Ok(selection) => Ok(Outcome::Rows(selection)),
                    Err(error) => Err(error),
                }
            },
            Command::Insert { table: name, values } => {
                let file = Self::table_file(name.as_str());
                match self.insert(&database, table, Command::Insert { table: name, values }) {
                    Ok(data) => Ok(Outcome::TableChanged { file, contents: data.encode() }),
                    Err(error) => Err(error),
                }
            },
        }
    }
}


/// How often `name` stands in `names`.
pub open spec fn occurrences(names: Seq<Seq<char>>, name: Seq<char>) -> nat
    decreases names.len(),
{
    if names.len() == 0 {
        0
    } else {
        occurrences(names.drop_last(), name) + if names.last() == name {
            1nat
        } else {
            0nat
        }
    }
}

/// A name that no table has does not stand among the names of the tables.
pub proof fn lemma_absent_name(tables: Seq<TableSpec>, name: Seq<char>)
    requires
        !has_table(DatabaseSpec { tables }, name),
    ensures
        occurrences(table_names(DatabaseSpec { tables }), name) == 0,
    decreases tables.len(),
{
    let d = DatabaseSpec { tables };
    if tables.len() > 0 {
        let shorter = DatabaseSpec { tables: tables.drop_last() };
        assert forall|i: int| 0 <= i < shorter.tables.len() implies (
        #[trigger] shorter.tables[i]).name != name by {
            assert(d.tables[i].name != name);
        }
        lemma_absent_name(tables.drop_last(), name);
        assert(table_names(d).drop_last() =~= table_names(shorter));
        assert(d.tables[tables.len() - 1].name != name);
    }
}

/// A table that has just been created is listed, and listed once.
pub proof fn lemma_created_table_is_listed_once(
    d: DatabaseSpec,
    name: Seq<char>,
    columns: Seq<ColumnSpec>,
)
    requires
        created(d, name, columns) is Ok,
    ensures
        created(d, name, columns) matches Ok(next) && listed(next) matches Ok(names) && occurrences(
            names,
            name,
        ) == 1,
{
    let next = created(d, name, columns)->Ok_0;
    let same = DatabaseSpec { tables: d.tables };
    assert forall|i: int| 0 <= i < same.tables.len() implies (#[trigger] same.tables[i]).name
        != name by {
        assert(d.tables[i].name != name);
    }
    lemma_absent_name(d.tables, name);
    assert(table_names(next).drop_last() =~= table_names(same));
}

/// Creating a table a second time fails with the table's name, whatever its
/// columns, and the catalog still holds the name once.
pub proof fn lemma_create_twice(
    d: DatabaseSpec,
    name: Seq<char>,
    first: Seq<ColumnSpec>,
    second: Seq<ColumnSpec>,
)
    requires
        created(d, name, first) is Ok,
    ensures
        created(d, name, first) matches Ok(next) && created(next, name, second) == Err::<
            DatabaseSpec,
            ErrorSpec,
        >(ErrorSpec::TableAlreadyExists(name)) && occurrences(table_names(next), name) == 1,
{
    let next = created(d, name, first)->Ok_0;
    lemma_created_table_is_listed_once(d, name, first);
    assert(next.tables[d.tables.len() as int].name == name);
}

/// Creating a table keeps the names of the catalog apart.
pub proof fn lemma_created_keeps_names_apart(
    d: DatabaseSpec,
    name: Seq<char>,
    columns: Seq<ColumnSpec>,
)
    requires
        unique_names(d),
        created(d, name, columns) is Ok,
    ensures
        created(d, name, columns) matches Ok(next) && unique_names(next),
{
    let next = created(d, name, columns)->Ok_0;
    assert forall|i: int, j: int| 0 <= i < j < next.tables.len() implies (
    #[trigger] next.tables[i]).name != (#[trigger] next.tables[j]).name by {
        assert(next.tables[i] == d.tables[i]);
        if j < d.tables.len() {
            assert(next.tables[j] == d.tables[j]);
        }
    }
}

/// Dropping a table keeps the names of the catalog apart, and where they are
/// apart the table is gone.
pub proof fn lemma_dropped_table_is_gone(d: DatabaseSpec, name: Seq<char>)
    requires
        unique_names(d),
        dropped(d, name) is Ok,
    ensures
        dropped(d, name) matches Ok(next) && unique_names(next) && !has_table(next, name),
{
    let next = dropped(d, name)->Ok_0;
    let k = index_of(d.tables, name);
    lemma_index_of(d.tables, name);
    assert forall|i: int| 0 <= i < next.tables.len() implies (#[trigger] next.tables[i]).name
        != name by {
        if i < k {
            assert(next.tables[i] == d.tables[i]);
        } else {
            assert(next.tables[i] == d.tables[i + 1]);
            assert(d.tables[k].name != d.tables[i + 1].name);
        }
    }
    assert forall|i: int, j: int| 0 <= i < j < next.tables.len() implies (
    #[trigger] next.tables[i]).name != (#[trigger] next.tables[j]).name by {
        let a = if i < k { i } else { i + 1 };
        let b = if j < k { j } else { j + 1 };
        assert(next.tables[i] == d.tables[a]);
        assert(next.tables[j] == d.tables[b]);
        assert(d.tables[a].name != d.tables[b].name);
    }
}

/// Dropping a table that the catalog does not hold fails with the table's
/// name; on the empty catalog every drop does, and there is then nothing to
/// write.
pub proof fn lemma_drop_missing(file: Seq<char>, name: Seq<char>, table: Option<Seq<u8>>)
    ensures
        dropped(empty_database(), name) == Err::<DatabaseSpec, ErrorSpec>(
            ErrorSpec::TableDoesNotExist(name),
        ),
        executed(file, CommandSpec::DropTable { name }, None, table) == Err::<
            OutcomeSpec,
            ErrorSpec,
        >(ErrorSpec::TableDoesNotExist(name)),
{
}

/// What an `INSERT` writes, a `SELECT` reads back: the rows that the table
/// had, then the inserted tuples as rows, in the order of the command.
pub proof fn lemma_insert_then_select(
    d: DatabaseSpec,
    contents: Option<Seq<u8>>,
    table: Seq<char>,
    values: Seq<Seq<LiteralSpec>>,
)
    requires
        inserted(d, contents, table, values) matches Ok(data) && table_data_fits(data),
    ensures
        loaded_table(d, table, contents) matches Ok(before) && inserted(
            d,
            contents,
            table,
            values,
        ) matches Ok(data) && selected(d, Some(encode_table_data(data)), table) matches Ok(s)
            && s.rows == before.rows + rows_of(values),
{
    let data = inserted(d, contents, table, values)->Ok_0;
    lemma_table_data_round_trip(data);
}


/// What an `INSERT` writes carries the number of its rows as its row count,
/// as long as that number fits 32 bits.
pub proof fn lemma_inserted_row_count(
    d: DatabaseSpec,
    contents: Option<Seq<u8>>,
    table: Seq<char>,
    values: Seq<Seq<LiteralSpec>>,
)
    requires
        inserted(d, contents, table, values) matches Ok(data) && data.rows.len() <= u32::MAX,
    ensures
        inserted(d, contents, table, values) matches Ok(data) && data.num_rows == data.rows.len()
            && data.table_name == table,
{
}

} // verus!
