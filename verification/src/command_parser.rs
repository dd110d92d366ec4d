//! The command language.
//!
//! A command is read from the front of a text, character by character. Every
//! reader takes the text and a position and gives either what it read with
//! the position behind it, or the position at which it could not go on. Where
//! several forms are tried in turn and none fits, the failure is that of the
//! last one tried.

use crate::text::collect_text;
use vstd::prelude::*;
use vstd::slice::slice_subrange;
use vstd::string::StrSliceExecFns;

verus! {

/// A literal in an `INSERT` command.
#[derive(Debug, Clone, PartialEq)]
pub enum Value {
    Int(i64),
    Str(String),
    Null,
}

/// The type that a column is declared with; a string column carries the
/// greatest length of its values.
#[derive(Debug, Clone, Copy, PartialEq, Eq)]
pub enum ColumnType {
    INT,
    STRING(u64),
}

/// A column as `CREATE TABLE` declares it.
#[derive(Debug, Clone, PartialEq)]
pub struct Column {
    pub name: String,
    pub col_type: ColumnType,
    pub not_null: bool,
}

/// A command.
#[derive(Debug, Clone, PartialEq)]
pub enum Command {
    CreateTable { name: String, columns: Vec<Column> },
    DropTable { name: String },
    ListTable,
    ListSchema { name: String },
    Select { columns: Vec<String>, table: String, join_table: Option<String> },
    Insert { table: String, values: Vec<Vec<Value>> },
}

/// What a `Value` stands for.
pub enum LiteralSpec {
    Int(i64),
    Str(Seq<char>),
    Null,
}

/// What a `Column` stands for.
pub struct ColumnDeclSpec {
    pub name: Seq<char>,
    pub col_type: ColumnType,
    pub not_null: bool,
}

/// What a `Command` stands for.
pub enum CommandSpec {
    CreateTable { name: Seq<char>, columns: Seq<ColumnDeclSpec> },
    DropTable { name: Seq<char> },
    ListTable,
    ListSchema { name: Seq<char> },
    Select { columns: Seq<Seq<char>>, table: Seq<char>, join_table: Option<Seq<char>> },
    Insert { table: Seq<char>, values: Seq<Seq<LiteralSpec>> },
}

impl View for Value {
    type V = LiteralSpec;

    open spec fn view(&self) -> LiteralSpec {
        match *self {
            Value::Int(v) => LiteralSpec::Int(v),
            Value::Str(text) => LiteralSpec::Str(text@),
            Value::Null => LiteralSpec::Null,
        }
    }
}

impl View for Column {
    type V = ColumnDeclSpec;

    open spec fn view(&self) -> ColumnDeclSpec {
        ColumnDeclSpec { name: self.name@, col_type: self.col_type, not_null: self.not_null }
    }
}

/// What a list of strings stands for.
pub open spec fn text_views(texts: Seq<String>) -> Seq<Seq<char>> {
    Seq::new(texts.len(), |i: int| texts[i]@)
}

/// What a list of declared columns stands for.
pub open spec fn column_decl_views(columns: Seq<Column>) -> Seq<ColumnDeclSpec> {
    Seq::new(columns.len(), |i: int| columns[i]@)
}

/// What a tuple of literals stands for.
pub open spec fn literal_views(values: Seq<Value>) -> Seq<LiteralSpec> {
    Seq::new(values.len(), |i: int| values[i]@)
}

/// What a list of tuples stands for.
pub open spec fn tuple_views(tuples: Seq<Vec<Value>>) -> Seq<Seq<LiteralSpec>> {
    Seq::new(tuples.len(), |i: int| literal_views(tuples[i]@))
}

impl View for Command {
    type V = CommandSpec;

    open spec fn view(&self) -> CommandSpec {
        match *self {
            Command::CreateTable { name, columns } => CommandSpec::CreateTable {
                name: name@,
                columns: column_decl_views(columns@),
            },
            Command::DropTable { name } => CommandSpec::DropTable { name: name@ },
            Command::ListTable => CommandSpec::ListTable,
            Command::ListSchema { name } => CommandSpec::ListSchema { name: name@ },
            Command::Select { columns, table, join_table } => CommandSpec::Select {
                columns: text_views(columns@),
                table: table@,
                join_table: match join_table {
                    Some(other) => Some(other@),
                    None => None,
                },
            },
            Command::Insert { table, values } => CommandSpec::Insert {
                table: table@,
                values: tuple_views(values@),
            },
        }
    }
}

/// Whether `c` is alphanumeric as `char::is_alphanumeric` has it: a letter or
/// a numeric character of any script.
pub uninterp spec fn is_alphanumeric(c: char) -> bool;

/// Whether `c` is one of the letters and digits of ASCII.
pub open spec fn is_ascii_alphanumeric(c: char) -> bool {
    ('0' <= c <= '9') || ('A' <= c <= 'Z') || ('a' <= c <= 'z')
}

/// Whether `c` is alphanumeric: among the characters of ASCII the letters
/// and the digits, beyond them what `is_alphanumeric` says.
pub open spec fn is_alphanumeric_char(c: char) -> bool {
    if c <= '\x7f' {
        is_ascii_alphanumeric(c)
    } else {
        is_alphanumeric(c)
    }
}

/// `char::is_alphanumeric`: a function of the character alone, true of the
/// characters that Unicode holds to be alphabetic or numeric. Among the
/// characters of ASCII those are the letters and the digits.
#[verifier::external_body]
fn alphanumeric(c: char) -> (b: bool)
    ensures
        b == is_alphanumeric(c),
        c <= '\x7f' ==> b == is_ascii_alphanumeric(c),
{
    c.is_alphanumeric()
}

/// The classes of character of which a run is read.
#[derive(Clone, Copy, PartialEq, Eq)]
pub enum CharClass {
    /// A blank, a tab, a carriage return or a line feed.
    Space,
    /// One of the ten decimal digits.
    Digit,
    /// An alphanumeric character or an underscore.
    Word,
    /// Anything but a single quote.
    Text,
}

/// Whether `c` belongs to `class`.
pub open spec fn in_class(class: CharClass, c: char) -> bool {
    match class {
        CharClass::Space => c == ' ' || c == '\t' || c == '\r' || c == '\n',
        CharClass::Digit => '0' <= c <= '9',
        CharClass::Word => is_alphanumeric_char(c) || c == '_',
        CharClass::Text => c != '\'',
    }
}

/// The position behind the longest run of characters of `class` that starts
/// at `i`.
pub open spec fn run_end(s: Seq<char>, i: int, class: CharClass) -> int
    decreases s.len() - i,
{
    if 0 <= i < s.len() && in_class(class, s[i]) {
        run_end(s, i + 1, class)
    } else {
        i
    }
}

/// Whether the characters of `tag` stand at position `i`.
pub open spec fn has_tag(s: Seq<char>, i: int, tag: Seq<char>) -> bool {
    0 <= i && i + tag.len() <= s.len() && s.subrange(i, i + tag.len()) == tag
}

/// The number that the decimal digits `d` write.
pub open spec fn digits_value(d: Seq<char>) -> nat
    decreases d.len(),
{
    if d.len() == 0 {
        0
    } else {
        digits_value(d.drop_last()) * 10 + (d.last() as nat - '0' as nat) as nat
    }
}

/// A run ends between its start and the end of the text, holds characters of
/// its class only, and stops at the first character that is not of the class.
pub proof fn lemma_run_end(s: Seq<char>, i: int, class: CharClass)
    requires
        0 <= i <= s.len(),
    ensures
        i <= run_end(s, i, class) <= s.len(),
        forall|k: int| i <= k < run_end(s, i, class) ==> in_class(class, #[trigger] s[k]),
        run_end(s, i, class) < s.len() ==> !in_class(class, s[run_end(s, i, class)]),
    decreases s.len() - i,
{
    if i < s.len() && in_class(class, s[i]) {
        lemma_run_end(s, i + 1, class);
    }
}

/// A run that is known to hold up to `k` ends where the run from `k` ends.
pub proof fn lemma_run_end_from(s: Seq<char>, i: int, k: int, class: CharClass)
    requires
        0 <= i <= k <= s.len(),
        forall|j: int| i <= j < k ==> in_class(class, #[trigger] s[j]),
    ensures
        run_end(s, i, class) == run_end(s, k, class),
    decreases k - i,
{
    if i < k {
        lemma_run_end_from(s, i + 1, k, class);
    }
}

/// More digits never write a smaller number.
pub proof fn lemma_digits_value_grows(d: Seq<char>, k: int)
    requires
        0 <= k <= d.len(),
    ensures
        digits_value(d.take(k)) <= digits_value(d),
    decreases d.len() - k,
{
    if k < d.len() {
        lemma_digits_value_grows(d, k + 1);
        assert(d.take(k + 1).drop_last() =~= d.take(k));
    } else {
        assert(d.take(k) =~= d);
    }
}

/// Whether `c` belongs to `class`.
fn class_holds(class: CharClass, c: char) -> (b: bool)
    ensures
        b == in_class(class, c),
{
    match class {
        CharClass::Space => c == ' ' || c == '\t' || c == '\r' || c == '\n',
        CharClass::Digit => '0' <= c && c <= '9',
        CharClass::Word => alphanumeric(c) || c == '_',
        CharClass::Text => c != '\'',
    }
}

/// Reads the longest run of characters of `class` that starts at `pos`.
fn scan_run(chars: &[char], pos: usize, class: CharClass) -> (end: usize)
    requires
        pos <= chars@.len(),
    ensures
        end == run_end(chars@, pos as int, class),
        pos <= end <= chars@.len(),
{
    let mut end: usize = pos;
    while end < chars.len() && class_holds(class, chars[end])
        invariant
            pos <= end <= chars@.len(),
            forall|j: int| pos <= j < end ==> in_class(class, #[trigger] chars@[j]),
        decreases chars@.len() - end,
    {
        end += 1;
    }
    proof {
        lemma_run_end_from(chars@, pos as int, end as int, class);
    }
    end
}

/// Tells whether `tag` stands at `pos`, and gives the position behind it.
fn match_tag(chars: &[char], pos: usize, tag: &str) -> (r: Option<usize>)
    requires
        pos <= chars@.len(),
    ensures
        match r {
            Some(next) => has_tag(chars@, pos as int, tag@) && next == pos + tag@.len(),
            None => !has_tag(chars@, pos as int, tag@),
        },
{
    let n = tag.unicode_len();
    if n > chars.len() - pos {
        return None;
    }
    let mut k: usize = 0;
    while k < n
        invariant
            k <= n,
            n == tag@.len(),
            pos + n <= chars@.len() <= usize::MAX,
            chars@.subrange(pos as int, pos + k) == tag@.take(k as int),
        decreases n - k,
    {
        if chars[pos + k] != tag.get_char(k) {
            assert(chars@.subrange(pos as int, pos + n)[k as int] != tag@[k as int]);
            return None;
        }
        k += 1;
        assert(chars@.subrange(pos as int, pos + k) =~= chars@.subrange(pos as int, pos + k - 1).push(
            chars@[pos + k - 1],
        ));
        assert(tag@.take(k as int) =~= tag@.take(k - 1).push(tag@[k - 1]));
    }
    assert(tag@.take(k as int) =~= tag@);
    Some(pos + n)
}

/// The characters from `from` up to `to` as a string.
fn text_between(chars: &[char], from: usize, to: usize) -> (text: String)
    requires
        from <= to <= chars@.len(),
    ensures
        text@ == chars@.subrange(from as int, to as int),
{
    collect_text(slice_subrange(chars, from, to))
}

/// The number that the digits from `from` up to `to` write, if it fits.
fn digits_number(chars: &[char], from: usize, to: usize) -> (r: Option<u64>)
    requires
        from <= to <= chars@.len(),
        forall|j: int| from <= j < to ==> in_class(CharClass::Digit, #[trigger] chars@[j]),
    ensures
        match r {
            Some(v) => v == digits_value(chars@.subrange(from as int, to as int)),
            None => digits_value(chars@.subrange(from as int, to as int)) > u64::MAX,
        },
{
    let ghost d = chars@.subrange(from as int, to as int);
    let mut v: u64 = 0;
    let mut k: usize = from;
    assert(d.take(0) =~= Seq::<char>::empty());
    while k < to
        invariant
            from <= k <= to <= chars@.len(),
            d == chars@.subrange(from as int, to as int),
            v == digits_value(d.take(k - from)),
            forall|j: int| from <= j < to ==> in_class(CharClass::Digit, #[trigger] chars@[j]),
        decreases to - k,
    {
        let c = chars[k];
        assert(in_class(CharClass::Digit, chars@[k as int]));
        let digit: u64 = (c as u32 - '0' as u32) as u64;
        proof {
            assert(d.take(k + 1 - from).drop_last() =~= d.take(k - from));
            assert(d.take(k + 1 - from).last() == c);
            lemma_digits_value_grows(d, k + 1 - from);
        }
        if v > (u64::MAX - digit) / 10 {
            return None;
        }
        v = v * 10 + digit;
        k += 1;
    }
    assert(d.take(k - from) =~= d);
    Some(v)
}


/// Whether the character `c` stands at position `i`.
pub open spec fn has_char(s: Seq<char>, i: int, c: char) -> bool {
    0 <= i < s.len() && s[i] == c
}

/// The position behind a semicolon at `i`, or `i` where there is none.
pub open spec fn past_semicolon(s: Seq<char>, i: int) -> int {
    if has_char(s, i, ';') {
        i + 1
    } else {
        i
    }
}

/// An identifier: the longest run of alphanumeric characters and underscores,
/// at least one.
pub open spec fn identifier_at(s: Seq<char>, i: int) -> Result<(Seq<char>, int), int> {
    let end = run_end(s, i, CharClass::Word);
    if end > i {
        Ok((s.subrange(i, end), end))
    } else {
        Err(i)
    }
}

/// An integer literal: the longest run of digits, at least one, that writes a
/// number no greater than `i64::MAX`.
pub open spec fn integer_at(s: Seq<char>, i: int) -> Result<(LiteralSpec, int), int> {
    let end = run_end(s, i, CharClass::Digit);
    if end > i && digits_value(s.subrange(i, end)) <= i64::MAX {
        Ok((LiteralSpec::Int(digits_value(s.subrange(i, end)) as i64), end))
    } else {
        Err(i)
    }
}

/// A string literal: a single quote, one or more characters that are not a
/// single quote, and a single quote.
pub open spec fn string_at(s: Seq<char>, i: int) -> Result<(LiteralSpec, int), int> {
    let end = run_end(s, i + 1, CharClass::Text);
    if !has_char(s, i, '\'') {
        Err(i)
    } else if end == i + 1 {
        Err(i + 1)
    } else if has_char(s, end, '\'') {
        Ok((LiteralSpec::Str(s.subrange(i + 1, end)), end + 1))
    } else {
        Err(end)
    }
}

/// The literal `NULL`.
pub open spec fn null_value_at(s: Seq<char>, i: int) -> Result<(LiteralSpec, int), int> {
    if has_tag(s, i, "NULL"@) {
        Ok((LiteralSpec::Null, i + "NULL"@.len()))
    } else {
        Err(i)
    }
}

/// A literal: an integer, else a string, else `NULL`.
pub open spec fn value_at(s: Seq<char>, i: int) -> Result<(LiteralSpec, int), int> {
    match integer_at(s, i) {
        Ok(found) => Ok(found),
        Err(_) => match string_at(s, i) {
            Ok(found) => Ok(found),
            Err(_) => null_value_at(s, i),
        },
    }
}

/// The literals that follow one that ends at `i`, each behind a comma and a
/// blank, added to `acc`; and the position behind the last of them.
pub open spec fn more_values(s: Seq<char>, i: int, acc: Seq<LiteralSpec>) -> (
    Seq<LiteralSpec>,
    int,
)
    decreases s.len() - i,
{
    if has_tag(s, i, ", "@) {
        match value_at(s, i + ", "@.len()) {
            Ok((v, next)) if i < next <= s.len() => more_values(s, next, acc.push(v)),
            _ => (acc, i),
        }
    } else {
        (acc, i)
    }
}

/// A tuple: one or more literals in round brackets.
pub open spec fn value_tuple_at(s: Seq<char>, i: int) -> Result<(Seq<LiteralSpec>, int), int> {
    if !has_char(s, i, '(') {
        Err(i)
    } else {
        match value_at(s, i + 1) {
            Err(at) => Err(at),
            Ok((first, next)) => {
                let (values, end) = more_values(s, next, seq![first]);
                if has_char(s, end, ')') {
                    Ok((values, end + 1))
                } else {
                    Err(end)
                }
            },
        }
    }
}

/// The tuples that follow one that ends at `i`, each behind a comma and a
/// blank, added to `acc`; and the position behind the last of them.
pub open spec fn more_tuples(s: Seq<char>, i: int, acc: Seq<Seq<LiteralSpec>>) -> (
    Seq<Seq<LiteralSpec>>,
    int,
)
    decreases s.len() - i,
{
    if has_tag(s, i, ", "@) {
        match value_tuple_at(s, i + ", "@.len()) {
            Ok((t, next)) if i < next <= s.len() => more_tuples(s, next, acc.push(t)),
            _ => (acc, i),
        }
    } else {
        (acc, i)
    }
}

/// The length that a string column has when none is written, or none that
/// fits.
pub const DEFAULT_STRING_LENGTH: u64 = 256;

/// A column type: `INT`, `STRING(n)` with a decimal length, or `STRING`.
pub open spec fn column_type_at(s: Seq<char>, i: int) -> Result<(ColumnType, int), int> {
    let open = i + "STRING("@.len();
    let end = run_end(s, open, CharClass::Digit);
    let length = digits_value(s.subrange(open, end));
    if has_tag(s, i, "INT"@) {
        Ok((ColumnType::INT, i + "INT"@.len()))
    } else if has_tag(s, i, "STRING("@) && end > open && has_tag(s, end, ")"@) {
        Ok(
            (
                ColumnType::STRING(
                    if length <= u64::MAX {
                        length as u64
                    } else {
                        DEFAULT_STRING_LENGTH
                    },
                ),
                end + ")"@.len(),
            ),
        )
    } else if has_tag(s, i, "STRING"@) {
        Ok((ColumnType::STRING(DEFAULT_STRING_LENGTH), i + "STRING"@.len()))
    } else {
        Err(i)
    }
}

/// A column declaration: a name, a type, and `NOT NULL` or nothing.
pub open spec fn column_at(s: Seq<char>, i: int) -> Result<(ColumnDeclSpec, int), int> {
    match identifier_at(s, i) {
        Err(at) => Err(at),
        Ok((name, a)) => match column_type_at(s, run_end(s, a, CharClass::Space)) {
            Err(at) => Err(at),
            Ok((col_type, b)) => {
                let c = run_end(s, b, CharClass::Space);
                if has_tag(s, c, "NOT NULL"@) {
                    Ok(
                        (
                            ColumnDeclSpec { name, col_type, not_null: true },
                            c + "NOT NULL"@.len(),
                        ),
                    )
                } else {
                    Ok((ColumnDeclSpec { name, col_type, not_null: false }, b))
                }
            },
        },
    }
}

/// The column declarations that follow one that ends at `i`, each behind a
/// comma and a blank, added to `acc`; and the position behind the last.
pub open spec fn more_columns(s: Seq<char>, i: int, acc: Seq<ColumnDeclSpec>) -> (
    Seq<ColumnDeclSpec>,
    int,
)
    decreases s.len() - i,
{
    if has_tag(s, i, ", "@) {
        match column_at(s, i + ", "@.len()) {
            Ok((c, next)) if i < next <= s.len() => more_columns(s, next, acc.push(c)),
            _ => (acc, i),
        }
    } else {
        (acc, i)
    }
}

/// `CREATE TABLE name (column, ...)`, with one column at least.
pub open spec fn create_table_at(s: Seq<char>, i: int) -> Result<(CommandSpec, int), int> {
    if !has_tag(s, i, "CREATE TABLE"@) {
        Err(i)
    } else {
        match identifier_at(s, run_end(s, i + "CREATE TABLE"@.len(), CharClass::Space)) {
            Err(at) => Err(at),
            Ok((name, a)) => {
                let b = run_end(s, a, CharClass::Space);
                if !has_char(s, b, '(') {
                    Err(b)
                } else {
                    match column_at(s, b + 1) {
                        Err(at) => Err(at),
                        Ok((first, c)) => {
                            let (columns, end) = more_columns(s, c, seq![first]);
                            if has_char(s, end, ')') {
                                Ok(
                                    (
                                        CommandSpec::CreateTable { name, columns },
                                        past_semicolon(s, end + 1),
                                    ),
                                )
                            } else {
                                Err(end)
                            }
                        },
                    }
                }
            },
        }
    }
}

/// `DROP TABLE name`.
pub open spec fn drop_table_at(s: Seq<char>, i: int) -> Result<(CommandSpec, int), int> {
    if !has_tag(s, i, "DROP TABLE"@) {
        Err(i)
    } else {
        match identifier_at(s, run_end(s, i + "DROP TABLE"@.len(), CharClass::Space)) {
            Err(at) => Err(at),
            Ok((name, end)) => Ok((CommandSpec::DropTable { name }, past_semicolon(s, end))),
        }
    }
}

/// `LIST TABLES`.
pub open spec fn list_table_at(s: Seq<char>, i: int) -> Result<(CommandSpec, int), int> {
    if !has_tag(s, i, "LIST TABLES"@) {
        Err(i)
    } else {
        Ok((CommandSpec::ListTable, past_semicolon(s, i + "LIST TABLES"@.len())))
    }
}

/// `SCHEMA name`.
pub open spec fn display_schema_at(s: Seq<char>, i: int) -> Result<(CommandSpec, int), int> {
    if !has_tag(s, i, "SCHEMA"@) {
        Err(i)
    } else {
        match identifier_at(s, run_end(s, i + "SCHEMA"@.len(), CharClass::Space)) {
            Err(at) => Err(at),
            Ok((name, end)) => Ok((CommandSpec::ListSchema { name }, past_semicolon(s, end))),
        }
    }
}

/// The names that follow one that ends at `i`, each behind a comma and a
/// blank, added to `acc`; and the position behind the last of them.
pub open spec fn more_names(s: Seq<char>, i: int, acc: Seq<Seq<char>>) -> (Seq<Seq<char>>, int)
    decreases s.len() - i,
{
    if has_tag(s, i, ", "@) {
        match identifier_at(s, i + ", "@.len()) {
            Ok((name, next)) if i < next <= s.len() => more_names(s, next, acc.push(name)),
            _ => (acc, i),
        }
    } else {
        (acc, i)
    }
}

/// What `SELECT` selects: a star, which stands as the one name `*`, or names
/// separated by a comma and a blank, or nothing.
pub open spec fn select_columns_at(s: Seq<char>, i: int) -> (Seq<Seq<char>>, int) {
    if has_tag(s, i, "*"@) {
        (seq!["*"@], i + "*"@.len())
    } else {
        match identifier_at(s, i) {
            Ok((first, next)) => more_names(s, next, seq![first]),
            Err(_) => (Seq::empty(), i),
        }
    }
}

/// The table that a `JOIN` behind position `i` names, and the position behind
/// it; no table and `i` itself where no complete `JOIN` follows.
pub open spec fn join_at(s: Seq<char>, i: int) -> (Option<Seq<char>>, int) {
    let a = run_end(s, i, CharClass::Space);
    if has_tag(s, a, "JOIN"@) {
        match identifier_at(s, run_end(s, a + "JOIN"@.len(), CharClass::Space)) {
            Ok((name, end)) => (Some(name), end),
            Err(_) => (None, i),
        }
    } else {
        (None, i)
    }
}

/// `SELECT names FROM table`, with `JOIN other` or without.
pub open spec fn select_statement_at(s: Seq<char>, i: int) -> Result<(CommandSpec, int), int> {
    if !has_tag(s, i, "SELECT"@) {
        Err(i)
    } else {
        let (columns, a) = select_columns_at(
            s,
            run_end(s, i + "SELECT"@.len(), CharClass::Space),
        );
        let b = run_end(s, a, CharClass::Space);
        if !has_tag(s, b, "FROM"@) {
            Err(b)
        } else {
            match identifier_at(s, run_end(s, b + "FROM"@.len(), CharClass::Space)) {
                Err(at) => Err(at),
                Ok((table, c)) => {
                    let (join_table, end) = join_at(s, c);
                    Ok(
                        (
                            CommandSpec::Select { columns, table, join_table },
                            past_semicolon(s, end),
                        ),
                    )
                },
            }
        }
    }
}

/// `INSERT INTO table VALUES (literal, ...), ...`, with one tuple at least.
pub open spec fn insert_into_at(s: Seq<char>, i: int) -> Result<(CommandSpec, int), int> {
    if !has_tag(s, i, "INSERT INTO"@) {
        Err(i)
    } else {
        match identifier_at(s, run_end(s, i + "INSERT INTO"@.len(), CharClass::Space)) {
            Err(at) => Err(at),
            Ok((table, a)) => {
                let b = run_end(s, a, CharClass::Space);
                if !has_tag(s, b, "VALUES"@) {
                    Err(b)
                } else {
                    match value_tuple_at(s, run_end(s, b + "VALUES"@.len(), CharClass::Space)) {
                        Err(at) => Err(at),
                        Ok((first, c)) => {
                            let (values, end) = more_tuples(s, c, seq![first]);
                            Ok((CommandSpec::Insert { table, values }, past_semicolon(s, end)))
                        },
                    }
                }
            },
        }
    }
}

/// The command at the front of `s` and the position behind it: the first of
/// the six forms that fits; or the position at which `INSERT`, the last form
/// tried, could not go on.
pub open spec fn command_at(s: Seq<char>) -> Result<(CommandSpec, int), int> {
    match create_table_at(s, 0) {
        Ok(found) => Ok(found),
        Err(_) => match drop_table_at(s, 0) {
            Ok(found) => Ok(found),
            Err(_) => match list_table_at(s, 0) {
                Ok(found) => Ok(found),
                Err(_) => match display_schema_at(s, 0) {
                    Ok(found) => Ok(found),
                    Err(_) => match select_statement_at(s, 0) {
                        Ok(found) => Ok(found),
                        Err(_) => insert_into_at(s, 0),
                    },
                },
            },
        },
    }
}


/// The characters of `text`, one by one.
fn to_chars(text: &str) -> (chars: Vec<char>)
    ensures
        chars@ == text@,
{
    let mut chars: Vec<char> = Vec::new();
    for c in it: text.chars()
        invariant
            chars@ == it.seq().take(it.index() as int),
            it.seq() == text@,
    {
        chars.push(c);
    }
    chars
}

/// Reads an identifier.
fn identifier(chars: &[char], pos: usize) -> (r: Result<(String, usize), usize>)
    requires
        pos <= chars@.len(),
    ensures
        match r {
            Ok((name, next)) => identifier_at(chars@, pos as int) matches Ok((n, e)) && n == name@
                && e == next && pos < next <= chars@.len(),
            Err(at) => identifier_at(chars@, pos as int) matches Err(e) && e == at && pos <= at
                <= chars@.len(),
        },
{
    let end = scan_run(chars, pos, CharClass::Word);
    if end > pos {
        Ok((text_between(chars, pos, end), end))
    } else {
        Err(pos)
    }
}

/// Reads an integer literal.
fn integer(chars: &[char], pos: usize) -> (r: Result<(Value, usize), usize>)
    requires
        pos <= chars@.len(),
    ensures
        match r {
            Ok((value, next)) => integer_at(chars@, pos as int) matches Ok((v, e)) && v == value@
                && e == next && pos < next <= chars@.len(),
            Err(at) => integer_at(chars@, pos as int) matches Err(e) && e == at && pos <= at
                <= chars@.len(),
        },
{
    let end = scan_run(chars, pos, CharClass::Digit);
    proof {
        lemma_run_end(chars@, pos as int, CharClass::Digit);
    }
    if end > pos {
        match digits_number(chars, pos, end) {
            Some(v) => {
                if v <= 0x7fff_ffff_ffff_ffff {
                    Ok((Value::Int(v as i64), end))
                } else {
                    Err(pos)
                }
            },
            None => Err(pos),
        }
    } else {
        Err(pos)
    }
}

/// Reads a string literal.
fn string(chars: &[char], pos: usize) -> (r: Result<(Value, usize), usize>)
    requires
        pos <= chars@.len(),
    ensures
        match r {
            Ok((value, next)) => string_at(chars@, pos as int) matches Ok((v, e)) && v == value@
                && e == next && pos < next <= chars@.len(),
            Err(at) => string_at(chars@, pos as int) matches Err(e) && e == at && pos <= at
                <= chars@.len(),
        },
{
    if pos < chars.len() && chars[pos] == '\'' {
        let end = scan_run(chars, pos + 1, CharClass::Text);
        if end == pos + 1 {
            Err(pos + 1)
        } else if end < chars.len() && chars[end] == '\'' {
            Ok((Value::Str(text_between(chars, pos + 1, end)), end + 1))
        } else {
            Err(end)
        }
    } else {
        Err(pos)
    }
}

/// Reads the literal `NULL`.
fn null_value(chars: &[char], pos: usize) -> (r: Result<(Value, usize), usize>)
    requires
        pos <= chars@.len(),
    ensures
        match r {
            Ok((value, next)) => null_value_at(chars@, pos as int) matches Ok((v, e)) && v
                == value@ && e == next && pos < next <= chars@.len(),
            Err(at) => null_value_at(chars@, pos as int) matches Err(e) && e == at && pos <= at
                <= chars@.len(),
        },
{
    proof {
        reveal_strlit("NULL");
    }
    match match_tag(chars, pos, "NULL") {
        Some(next) => Ok((Value::Null, next)),
        None => Err(pos),
    }
}

/// Reads a literal.
fn value(chars: &[char], pos: usize) -> (r: Result<(Value, usize), usize>)
    requires
        pos <= chars@.len(),
    ensures
        match r {
            Ok((value, next)) => value_at(chars@, pos as int) matches Ok((v, e)) && v == value@
                && e == next && pos < next <= chars@.len(),
            Err(at) => value_at(chars@, pos as int) matches Err(e) && e == at && pos <= at
                <= chars@.len(),
        },
{
    match integer(chars, pos) {
        Ok(found) => Ok(found),
        Err(_) => match string(chars, pos) {
            Ok(found) => Ok(found),
            Err(_) => null_value(chars, pos),
        },
    }
}

/// Reads a tuple of literals.
fn value_tuple(chars: &[char], pos: usize) -> (r: Result<(Vec<Value>, usize), usize>)
    requires
        pos <= chars@.len(),
    ensures
        match r {
            Ok((values, next)) => value_tuple_at(chars@, pos as int) matches Ok((v, e)) && v
                == literal_views(values@) && e == next && pos < next <= chars@.len(),
            Err(at) => value_tuple_at(chars@, pos as int) matches Err(e) && e == at && pos <= at
                <= chars@.len(),
        },
{
    if !(pos < chars.len() && chars[pos] == '(') {
        return Err(pos);
    }
    let (first, start) = match value(chars, pos + 1) {
        Ok(found) => found,
        Err(at) => { return Err(at); },
    };
    let ghost whole = more_values(chars@, start as int, seq![first@]);
    let mut values: Vec<Value> = Vec::new();
    values.push(first);
    let mut end: usize = start;
    assert(literal_views(values@) =~= seq![first@]);
    proof {
        reveal_strlit(", ");
    }
    loop
        invariant
            pos < end <= chars@.len(),
            whole == more_values(chars@, end as int, literal_views(values@)),
            ", "@.len() == 2,
        ensures
            pos < end <= chars@.len(),
            whole == (literal_views(values@), end as int),
        decreases chars@.len() - end,
    {
        let after = match match_tag(chars, end, ", ") {
            Some(after) => after,
            None => { break ; },
        };
        match value(chars, after) {
            Ok((v, next)) => {
                let ghost before = literal_views(values@);
                values.push(v);
                assert(literal_views(values@) =~= before.push(v@));
                end = next;
            },
            Err(_) => { break ; },
        }
    }
    if end < chars.len() && chars[end] == ')' {
        Ok((values, end + 1))
    } else {
        Err(end)
    }
}

/// Reads a column type.
fn column_type(chars: &[char], pos: usize) -> (r: Result<(ColumnType, usize), usize>)
    requires
        pos <= chars@.len(),
    ensures
        match r {
            Ok((col_type, next)) => column_type_at(chars@, pos as int) matches Ok((t, e)) && t
                == col_type && e == next && pos <= next <= chars@.len(),
            Err(at) => column_type_at(chars@, pos as int) matches Err(e) && e == at && pos <= at
                <= chars@.len(),
        },
{
    match match_tag(chars, pos, "INT") {
        Some(next) => { return Ok((ColumnType::INT, next)); },
        None => {},
    }
    match match_tag(chars, pos, "STRING(") {
        Some(open) => {
            let end = scan_run(chars, open, CharClass::Digit);
            proof {
                lemma_run_end(chars@, open as int, CharClass::Digit);
            }
            if end > open {
                match match_tag(chars, end, ")") {
                    Some(next) => {
                        let length = match digits_number(chars, open, end) {
                            Some(v) => v,
                            None => DEFAULT_STRING_LENGTH,
                        };
                        return Ok((ColumnType::STRING(length), next));
                    },
                    None => {},
                }
            }
        },
        None => {},
    }
    match match_tag(chars, pos, "STRING") {
        Some(next) => Ok((ColumnType::STRING(DEFAULT_STRING_LENGTH), next)),
        None => Err(pos),
    }
}

/// Reads a column declaration.
fn column(chars: &[char], pos: usize) -> (r: Result<(Column, usize), usize>)
    requires
        pos <= chars@.len(),
    ensures
        match r {
            Ok((column, next)) => column_at(chars@, pos as int) matches Ok((c, e)) && c == column@
                && e == next && pos < next <= chars@.len(),
            Err(at) => column_at(chars@, pos as int) matches Err(e) && e == at && pos <= at
                <= chars@.len(),
        },
{
    let (name, a) = match identifier(chars, pos) {
        Ok(found) => found,
        Err(at) => { return Err(at); },
    };
    let (col_type, b) = match column_type(chars, scan_run(chars, a, CharClass::Space)) {
        Ok(found) => found,
        Err(at) => { return Err(at); },
    };
    let c = scan_run(chars, b, CharClass::Space);
    match match_tag(chars, c, "NOT NULL") {
        Some(next) => Ok((Column { name, col_type, not_null: true }, next)),
        None => Ok((Column { name, col_type, not_null: false }, b)),
    }
}

/// Reads `CREATE TABLE`.
fn create_table(chars: &[char], pos: usize) -> (r: Result<(Command, usize), usize>)
    requires
        pos <= chars@.len(),
    ensures
        match r {
            Ok((command, next)) => create_table_at(chars@, pos as int) matches Ok((c, e)) && c
                == command@ && e == next && pos <= next <= chars@.len(),
            Err(at) => create_table_at(chars@, pos as int) matches Err(e) && e == at && pos <= at
                <= chars@.len(),
        },
{
    let after = match match_tag(chars, pos, "CREATE TABLE") {
        Some(after) => after,
        None => { return Err(pos); },
    };
    let (name, a) = match identifier(chars, scan_run(chars, after, CharClass::Space)) {
        Ok(found) => found,
        Err(at) => { return Err(at); },
    };
    let b = scan_run(chars, a, CharClass::Space);
    if !(b < chars.len() && chars[b] == '(') {
        return Err(b);
    }
    let (first, start) = match column(chars, b + 1) {
        Ok(found) => found,
        Err(at) => { return Err(at); },
    };
    let ghost whole = more_columns(chars@, start as int, seq![first@]);
    let mut columns: Vec<Column> = Vec::new();
    columns.push(first);
    let mut end: usize = start;
    assert(column_decl_views(columns@) =~= seq![first@]);
    proof {
        reveal_strlit(", ");
    }
    loop
        invariant
            pos < end <= chars@.len(),
            whole == more_columns(chars@, end as int, column_decl_views(columns@)),
            ", "@.len() == 2,
        ensures
            pos < end <= chars@.len(),
            whole == (column_decl_views(columns@), end as int),
        decreases chars@.len() - end,
    {
        let after = match match_tag(chars, end, ", ") {
            Some(after) => after,
            None => { break ; },
        };
        match column(chars, after) {
            Ok((c, next)) => {
                let ghost before = column_decl_views(columns@);
                columns.push(c);
                assert(column_decl_views(columns@) =~= before.push(c@));
                end = next;
            },
            Err(_) => { break ; },
        }
    }
    if !(end < chars.len() && chars[end] == ')') {
        return Err(end);
    }
    let next = skip_semicolon(chars, end + 1);
    Ok((Command::CreateTable { name, columns }, next))
}

/// Steps over a semicolon, if one stands at `pos`.
fn skip_semicolon(chars: &[char], pos: usize) -> (next: usize)
    requires
        pos <= chars@.len(),
    ensures
        next == past_semicolon(chars@, pos as int),
        pos <= next <= chars@.len(),
{
    if pos < chars.len() && chars[pos] == ';' {
        pos + 1
    } else {
        pos
    }
}

/// Reads `DROP TABLE`.
fn drop_table(chars: &[char], pos: usize) -> (r: Result<(Command, usize), usize>)
    requires
        pos <= chars@.len(),
    ensures
        match r {
            Ok((command, next)) => drop_table_at(chars@, pos as int) matches Ok((c, e)) && c
                == command@ && e == next && pos <= next <= chars@.len(),
            Err(at) => drop_table_at(chars@, pos as int) matches Err(e) && e == at && pos <= at
                <= chars@.len(),
        },
{
    let after = match match_tag(chars, pos, "DROP TABLE") {
        Some(after) => after,
        None => { return Err(pos); },
    };
    let (name, end) = match identifier(chars, scan_run(chars, after, CharClass::Space)) {
        Ok(found) => found,
        Err(at) => { return Err(at); },
    };
    Ok((Command::DropTable { name }, skip_semicolon(chars, end)))
}

/// Reads `LIST TABLES`.
fn list_table(chars: &[char], pos: usize) -> (r: Result<(Command, usize), usize>)
    requires
        pos <= chars@.len(),
    ensures
        match r {
            Ok((command, next)) => list_table_at(chars@, pos as int) matches Ok((c, e)) && c
                == command@ && e == next && pos <= next <= chars@.len(),
            Err(at) => list_table_at(chars@, pos as int) matches Err(e) && e == at && pos <= at
                <= chars@.len(),
        },
{
    match match_tag(chars, pos, "LIST TABLES") {
        Some(after) => Ok((Command::ListTable, skip_semicolon(chars, after))),
        None => Err(pos),
    }
}

/// Reads `SCHEMA`.
fn display_schema(chars: &[char], pos: usize) -> (r: Result<(Command, usize), usize>)
    requires
        pos <= chars@.len(),
    ensures
        match r {
            Ok((command, next)) => display_schema_at(chars@, pos as int) matches Ok((c, e)) && c
                == command@ && e == next && pos <= next <= chars@.len(),
            Err(at) => display_schema_at(chars@, pos as int) matches Err(e) && e == at && pos
                <= at <= chars@.len(),
        },
{
    let after = match match_tag(chars, pos, "SCHEMA") {
        Some(after) => after,
        None => { return Err(pos); },
    };
    let (name, end) = match identifier(chars, scan_run(chars, after, CharClass::Space)) {
        Ok(found) => found,
        Err(at) => { return Err(at); },
    };
    Ok((Command::ListSchema { name }, skip_semicolon(chars, end)))
}

/// Reads what `SELECT` selects.
fn select_columns(chars: &[char], pos: usize) -> (r: (Vec<String>, usize))
    requires
        pos <= chars@.len(),
    ensures
        select_columns_at(chars@, pos as int) == (text_views(r.0@), r.1 as int),
        pos <= r.1 <= chars@.len(),
{
    let mut names: Vec<String> = Vec::new();
    match match_tag(chars, pos, "*") {
        Some(next) => {
            names.push("*".to_owned());
            assert(text_views(names@) =~= seq!["*"@]);
            return (names, next);
        },
        None => {},
    }
    let (first, start) = match identifier(chars, pos) {
        Ok(found) => found,
        Err(_) => {
            assert(text_views(names@) =~= Seq::<Seq<char>>::empty());
            return (names, pos);
        },
    };
    let ghost whole = more_names(chars@, start as int, seq![first@]);
    names.push(first);
    let mut end: usize = start;
    assert(text_views(names@) =~= seq![first@]);
    proof {
        reveal_strlit(", ");
    }
    loop
        invariant
            pos < end <= chars@.len(),
            whole == more_names(chars@, end as int, text_views(names@)),
            ", "@.len() == 2,
        ensures
            pos < end <= chars@.len(),
            whole == (text_views(names@), end as int),
        decreases chars@.len() - end,
    {
        let after = match match_tag(chars, end, ", ") {
            Some(after) => after,
            None => { break ; },
        };
        match identifier(chars, after) {
            Ok((name, next)) => {
                let ghost before = text_views(names@);
                names.push(name);
                assert(text_views(names@) =~= before.push(name@));
                end = next;
            },
            Err(_) => { break ; },
        }
    }
    (names, end)
}

/// Reads a `JOIN`, if a complete one follows.
fn join(chars: &[char], pos: usize) -> (r: (Option<String>, usize))
    requires
        pos <= chars@.len(),
    ensures
        join_at(chars@, pos as int) == (
            match r.0 {
                Some(name) => Some(name@),
                None => None,
            },
            r.1 as int,
        ),
        pos <= r.1 <= chars@.len(),
{
    let a = scan_run(chars, pos, CharClass::Space);
    match match_tag(chars, a, "JOIN") {
        Some(after) => match identifier(chars, scan_run(chars, after, CharClass::Space)) {
            Ok((name, end)) => (Some(name), end),
            Err(_) => (None, pos),
        },
        None => (None, pos),
    }
}

/// Reads `SELECT`.
fn select_statement(chars: &[char], pos: usize) -> (r: Result<(Command, usize), usize>)
    requires
        pos <= chars@.len(),
    ensures
        match r {
            Ok((command, next)) => select_statement_at(chars@, pos as int) matches Ok((c, e))
                && c == command@ && e == next && pos <= next <= chars@.len(),
            Err(at) => select_statement_at(chars@, pos as int) matches Err(e) && e == at && pos
                <= at <= chars@.len(),
        },
{
    let after = match match_tag(chars, pos, "SELECT") {
        Some(after) => after,
        None => { return Err(pos); },
    };
    let (columns, a) = select_columns(chars, scan_run(chars, after, CharClass::Space));
    let b = scan_run(chars, a, CharClass::Space);
    let from = match match_tag(chars, b, "FROM") {
        Some(from) => from,
        None => { return Err(b); },
    };
    let (table, c) = match identifier(chars, scan_run(chars, from, CharClass::Space)) {
        Ok(found) => found,
        Err(at) => { return Err(at); },
    };
    let (join_table, end) = join(chars, c);
    Ok((Command::Select { columns, table, join_table }, skip_semicolon(chars, end)))
}

/// Reads `INSERT INTO`.
fn insert_into(chars: &[char], pos: usize) -> (r: Result<(Command, usize), usize>)
    requires
        pos <= chars@.len(),
    ensures
        match r {
            Ok((command, next)) => insert_into_at(chars@, pos as int) matches Ok((c, e)) && c
                == command@ && e == next && pos <= next <= chars@.len(),
            Err(at) => insert_into_at(chars@, pos as int) matches Err(e) && e == at && pos <= at
                <= chars@.len(),
        },
{
    let after = match match_tag(chars, pos, "INSERT INTO") {
        Some(after) => after,
        None => { return Err(pos); },
    };
    let (table, a) = match identifier(chars, scan_run(chars, after, CharClass::Space)) {
        Ok(found) => found,
        Err(at) => { return Err(at); },
    };
    let b = scan_run(chars, a, CharClass::Space);
    let list = match match_tag(chars, b, "VALUES") {
        Some(list) => list,
        None => { return Err(b); },
    };
    let (first, start) = match value_tuple(chars, scan_run(chars, list, CharClass::Space)) {
        Ok(found) => found,
        Err(at) => { return Err(at); },
    };
    let ghost whole = more_tuples(chars@, start as int, seq![literal_views(first@)]);
    let mut values: Vec<Vec<Value>> = Vec::new();
    values.push(first);
    let mut end: usize = start;
    assert(tuple_views(values@) =~= seq![literal_views(first@)]);
    proof {
        reveal_strlit(", ");
    }
    loop
        invariant
            pos < end <= chars@.len(),
            whole == more_tuples(chars@, end as int, tuple_views(values@)),
            ", "@.len() == 2,
        ensures
            pos < end <= chars@.len(),
            whole == (tuple_views(values@), end as int),
        decreases chars@.len() - end,
    {
        let after = match match_tag(chars, end, ", ") {
            Some(after) => after,
            None => { break ; },
        };
        match value_tuple(chars, after) {
            Ok((t, next)) => {
                let ghost before = tuple_views(values@);
                values.push(t);
                assert(tuple_views(values@) =~= before.push(literal_views(t@)));
                end = next;
            },
            Err(_) => { break ; },
        }
    }
    Ok((Command::Insert { table, values }, skip_semicolon(chars, end)))
}

/// A text that is no command: `remainder` is what stood at the position where
/// reading stopped, be it that no form fits or that text follows a command.
#[derive(Debug, Clone, PartialEq)]
pub struct ParseError {
    pub remainder: String,
}

/// Reads `input` as one command. The six forms are tried in the order
/// `CREATE TABLE`, `DROP TABLE`, `LIST TABLES`, `SCHEMA`, `SELECT`,
/// `INSERT INTO`, and the command has to take the whole of the text: where
/// none of the forms fits, and where text is left behind the command, the
/// text is refused and the error holds what was not read.
pub fn parse_command(input: &str) -> (r: Result<Command, ParseError>)
    ensures
        match r {
            Ok(command) => command_at(input@) matches Ok((c, end)) && c == command@ && end
                == input@.len(),
            Err(error) => match command_at(input@) {
                Ok((c, end)) => 0 <= end < input@.len() && error.remainder@ == input@.skip(end),
                Err(at) => 0 <= at <= input@.len() && error.remainder@ == input@.skip(at),
            },
        },
{
    let all = to_chars(input);
    let chars = all.as_slice();
    let found = match create_table(chars, 0) {
        Ok(found) => Ok(found),
        Err(_) => match drop_table(chars, 0) {
            Ok(found) => Ok(found),
            Err(_) => match list_table(chars, 0) {
                Ok(found) => Ok(found),
                Err(_) => match display_schema(chars, 0) {
                    Ok(found) => Ok(found),
                    Err(_) => match select_statement(chars, 0) {
                        Ok(found) => Ok(found),
                        Err(_) => insert_into(chars, 0),
                    },
                },
            },
        },
    };
    let at = match found {
        Ok((command, end)) => {
            if end == chars.len() {
                return Ok(command);
            }
            end
        },
        Err(at) => at,
    };
    let remainder = text_between(chars, at, chars.len());
    assert(remainder@ =~= input@.skip(at as int));
    Err(ParseError { remainder })
}

/// A text that reads as `CREATE TABLE` closes its list of columns: behind the
/// last column stands a closing bracket, and behind that at most a semicolon.
pub proof fn lemma_create_table_closes(s: Seq<char>, i: int)
    requires
        create_table_at(s, i) is Ok,
    ensures
        create_table_at(s, i) matches Ok((command, end)) && command is CreateTable && 0 < end
            <= s.len() && (s[end - 1] == ')' || (end >= 2 && s[end - 1] == ';' && s[end - 2]
            == ')')),
{
}


/// A semicolon that stands directly behind a command is read with it: behind
/// what was read stands no semicolon, unless one was read already.
pub proof fn lemma_semicolon_is_taken(s: Seq<char>)
    requires
        command_at(s) is Ok,
    ensures
        command_at(s) matches Ok((command, end)) && (!has_char(s, end, ';') || has_char(
            s,
            end - 1,
            ';',
        )),
{
}


/// A semicolon behind the text leaves a run as it is, unless the run is one
/// of a string's characters and goes on to the end of the text.
proof fn lemma_run_end_with_semicolon(s: Seq<char>, i: int, class: CharClass)
    requires
        0 <= i,
        class !is Text || run_end(s, i, class) < s.len(),
    ensures
        run_end(s.push(';'), i, class) == run_end(s, i, class),
    decreases s.len() - i,
{
    let t = s.push(';');
    if i < s.len() {
        assert(t[i] == s[i]);
        if in_class(class, s[i]) {
            lemma_run_end_with_semicolon(s, i + 1, class);
        }
    }
}

/// A semicolon behind the text does not change whether a tag stands at `i`,
/// where the tag does not end in a semicolon.
proof fn lemma_has_tag_with_semicolon(s: Seq<char>, i: int, tag: Seq<char>)
    requires
        tag.len() > 0,
        tag.last() != ';',
    ensures
        has_tag(s.push(';'), i, tag) == has_tag(s, i, tag),
{
    let t = s.push(';');
    if 0 <= i && i + tag.len() <= s.len() {
        assert(t.subrange(i, i + tag.len()) =~= s.subrange(i, i + tag.len()));
    } else if 0 <= i && i + tag.len() == s.len() + 1 {
        assert(t.subrange(i, i + tag.len())[tag.len() - 1] == ';');
    }
}

/// A column type reads behind its start and within the text.
proof fn lemma_column_type_at_bounds(s: Seq<char>, i: int)
    requires
        0 <= i,
        column_type_at(s, i) is Ok,
    ensures
        column_type_at(s, i) matches Ok((t, next)) && i <= next <= s.len(),
{
    if has_tag(s, i, "STRING("@) {
        lemma_run_end(s, i + "STRING("@.len(), CharClass::Digit);
    }
}

/// A semicolon behind the text leaves a column type as it is.
proof fn lemma_column_type_at_with_semicolon(s: Seq<char>, i: int)
    requires
        0 <= i,
    ensures
        column_type_at(s.push(';'), i) == column_type_at(s, i),
{
    reveal_strlit("INT");
    reveal_strlit("STRING(");
    reveal_strlit("STRING");
    reveal_strlit(")");
    let t = s.push(';');
    let open = i + "STRING("@.len();
    let end = run_end(s, open, CharClass::Digit);
    lemma_has_tag_with_semicolon(s, i, "INT"@);
    lemma_has_tag_with_semicolon(s, i, "STRING("@);
    lemma_has_tag_with_semicolon(s, i, "STRING"@);
    lemma_has_tag_with_semicolon(s, end, ")"@);
    lemma_run_end_with_semicolon(s, open, CharClass::Digit);
    if has_tag(s, i, "STRING("@) {
        lemma_run_end(s, open, CharClass::Digit);
        assert(t.subrange(open, end) =~= s.subrange(open, end));
    }
}

/// A column declaration reads behind its start and within the text.
proof fn lemma_column_at_bounds(s: Seq<char>, i: int)
    requires
        0 <= i <= s.len(),
        column_at(s, i) is Ok,
    ensures
        column_at(s, i) matches Ok((c, next)) && i < next <= s.len() && run_end(
            s,
            i,
            CharClass::Word,
        ) <= next,
{
    reveal_strlit("NOT NULL");
    lemma_run_end(s, i, CharClass::Word);
    let a = run_end(s, i, CharClass::Word);
    lemma_run_end(s, a, CharClass::Space);
    let b = column_type_at(s, run_end(s, a, CharClass::Space))->Ok_0.1;
    lemma_column_type_at_bounds(s, run_end(s, a, CharClass::Space));
    lemma_run_end(s, b, CharClass::Space);
}

/// A semicolon behind the text leaves a column declaration as it is, where
/// the declaration ends before the end of the text.
proof fn lemma_column_at_with_semicolon(s: Seq<char>, i: int)
    requires
        0 <= i <= s.len(),
        column_at(s, i) matches Ok((c, next)) && next < s.len(),
    ensures
        column_at(s.push(';'), i) == column_at(s, i),
{
    reveal_strlit("NOT NULL");
    let t = s.push(';');
    lemma_column_at_bounds(s, i);
    let a = run_end(s, i, CharClass::Word);
    lemma_run_end(s, i, CharClass::Word);
    lemma_run_end_with_semicolon(s, i, CharClass::Word);
    assert(t.subrange(i, a) =~= s.subrange(i, a));
    let a2 = run_end(s, a, CharClass::Space);
    lemma_run_end_with_semicolon(s, a, CharClass::Space);
    lemma_run_end(s, a, CharClass::Space);
    lemma_column_type_at_with_semicolon(s, a2);
    let b = column_type_at(s, a2)->Ok_0.1;
    lemma_column_type_at_bounds(s, a2);
    lemma_run_end_with_semicolon(s, b, CharClass::Space);
    lemma_has_tag_with_semicolon(s, run_end(s, b, CharClass::Space), "NOT NULL"@);
}

/// The columns that follow end behind the position from which they are read.
proof fn lemma_more_columns_bounds(s: Seq<char>, i: int, acc: Seq<ColumnDeclSpec>)
    ensures
        more_columns(s, i, acc).1 >= i,
    decreases s.len() - i,
{
    if has_tag(s, i, ", "@) {
        match column_at(s, i + ", "@.len()) {
            Ok((c, next)) => {
                if i < next <= s.len() {
                    lemma_more_columns_bounds(s, next, acc.push(c));
                }
            },
            _ => {},
        }
    }
}

/// A semicolon behind the text leaves the columns that follow as they are,
/// where a closing bracket stands behind them.
proof fn lemma_more_columns_with_semicolon(s: Seq<char>, i: int, acc: Seq<ColumnDeclSpec>)
    requires
        0 <= i,
        has_char(s, more_columns(s, i, acc).1, ')'),
    ensures
        more_columns(s.push(';'), i, acc) == more_columns(s, i, acc),
    decreases s.len() - i,
{
    reveal_strlit(", ");
    let t = s.push(';');
    lemma_has_tag_with_semicolon(s, i, ", "@);
    if has_tag(s, i, ", "@) {
        assert(s.subrange(i, i + 2)[0] == ',');
        match column_at(s, i + ", "@.len()) {
            Ok((c, next)) => {
                if i < next <= s.len() {
                    lemma_more_columns_bounds(s, next, acc.push(c));
                    lemma_column_at_with_semicolon(s, i + 2);
                    lemma_more_columns_with_semicolon(s, next, acc.push(c));
                }
            },
            _ => {},
        }
    }
}

/// A `CREATE TABLE` command reads the same with a semicolon behind it as
/// without: where the whole of a text that does not end in a semicolon reads
/// as `CREATE TABLE`, the text with a semicolon behind it reads as the same
/// command, whole again.
pub proof fn lemma_create_table_with_semicolon(s: Seq<char>)
    requires
        create_table_at(s, 0) matches Ok((command, end)) && end == s.len() && s[end - 1] != ';',
    ensures
        create_table_at(s, 0) matches Ok((command, end)) && command_at(s) == Ok::<
            (CommandSpec, int),
            int,
        >((command, end)) && command_at(s.push(';')) == Ok::<(CommandSpec, int), int>(
            (command, end + 1),
        ),
{
    reveal_strlit("CREATE TABLE");
    let t = s.push(';');
    lemma_has_tag_with_semicolon(s, 0, "CREATE TABLE"@);
    let start = "CREATE TABLE"@.len() as int;
    let n = run_end(s, start, CharClass::Space);
    lemma_run_end(s, start, CharClass::Space);
    lemma_run_end_with_semicolon(s, start, CharClass::Space);
    let a = run_end(s, n, CharClass::Word);
    lemma_run_end(s, n, CharClass::Word);
    let b = run_end(s, a, CharClass::Space);
    lemma_run_end(s, a, CharClass::Space);
    lemma_run_end_with_semicolon(s, n, CharClass::Word);
    assert(t.subrange(n, a) =~= s.subrange(n, a));
    lemma_run_end_with_semicolon(s, a, CharClass::Space);
    assert(t[b] == s[b]);
    let c = column_at(s, b + 1)->Ok_0.1;
    let first = column_at(s, b + 1)->Ok_0.0;
    lemma_column_at_bounds(s, b + 1);
    lemma_more_columns_bounds(s, c, seq![first]);
    let e = more_columns(s, c, seq![first]).1;
    lemma_column_at_with_semicolon(s, b + 1);
    lemma_more_columns_with_semicolon(s, c, seq![first]);
    assert(t[e] == s[e]);
    assert(e + 1 == s.len());
    assert(t[e + 1] == ';');
}


/// A text that opens with `CREATE TABLE` reads as that command or as none:
/// where its list of columns is not closed, it does not read at all, and the
/// remainder is the whole text.
pub proof fn lemma_create_table_or_nothing(s: Seq<char>)
    requires
        has_tag(s, 0, "CREATE TABLE"@),
    ensures
        match command_at(s) {
            Ok((command, end)) => create_table_at(s, 0) == Ok::<(CommandSpec, int), int>(
                (command, end),
            ) && (s[end - 1] == ')' || (end >= 2 && s[end - 1] == ';' && s[end - 2] == ')')),
            Err(at) => create_table_at(s, 0) is Err && at == 0,
        },
{
    reveal_strlit("CREATE TABLE");
    reveal_strlit("DROP TABLE");
    reveal_strlit("LIST TABLES");
    reveal_strlit("SCHEMA");
    reveal_strlit("SELECT");
    reveal_strlit("INSERT INTO");
    assert(s[0] == s.subrange(0, 12)[0]);
    if has_tag(s, 0, "DROP TABLE"@) {
        assert(s[0] == s.subrange(0, 10)[0]);
    }
    if has_tag(s, 0, "LIST TABLES"@) {
        assert(s[0] == s.subrange(0, 11)[0]);
    }
    if has_tag(s, 0, "SCHEMA"@) {
        assert(s[0] == s.subrange(0, 6)[0]);
    }
    if has_tag(s, 0, "SELECT"@) {
        assert(s[0] == s.subrange(0, 6)[0]);
    }
    if has_tag(s, 0, "INSERT INTO"@) {
        assert(s[0] == s.subrange(0, 11)[0]);
    }
    if create_table_at(s, 0) is Ok {
        lemma_create_table_closes(s, 0);
    }
}


/// A text that opens with `CREATE TABLE` and holds no closing bracket is no
/// command, whatever columns it lists: its list of columns is never closed.
pub proof fn lemma_unclosed_create_table_fails(s: Seq<char>)
    requires
        has_tag(s, 0, "CREATE TABLE"@),
        forall|k: int| 0 <= k < s.len() ==> s[k] != ')',
    ensures
        command_at(s) == Err::<(CommandSpec, int), int>(0),
{
    lemma_create_table_or_nothing(s);
    if create_table_at(s, 0) is Ok {
        lemma_create_table_closes(s, 0);
    }
}


/// A semicolon behind the text leaves an identifier as it is.
proof fn lemma_identifier_at_with_semicolon(s: Seq<char>, i: int)
    requires
        0 <= i <= s.len(),
    ensures
        identifier_at(s.push(';'), i) == identifier_at(s, i),
        identifier_at(s, i) matches Ok((name, next)) ==> i < next <= s.len(),
{
    let t = s.push(';');
    let end = run_end(s, i, CharClass::Word);
    lemma_run_end(s, i, CharClass::Word);
    lemma_run_end_with_semicolon(s, i, CharClass::Word);
    assert(t.subrange(i, end) =~= s.subrange(i, end));
}

/// A semicolon behind the text leaves the names that follow as they are.
proof fn lemma_more_names_with_semicolon(s: Seq<char>, i: int, acc: Seq<Seq<char>>)
    requires
        0 <= i <= s.len(),
    ensures
        more_names(s.push(';'), i, acc) == more_names(s, i, acc),
        i <= more_names(s, i, acc).1 <= s.len(),
    decreases s.len() - i,
{
    reveal_strlit(", ");
    lemma_has_tag_with_semicolon(s, i, ", "@);
    if has_tag(s, i, ", "@) {
        lemma_identifier_at_with_semicolon(s, i + 2);
        match identifier_at(s, i + 2) {
            Ok((name, next)) => {
                lemma_more_names_with_semicolon(s, next, acc.push(name));
            },
            _ => {},
        }
    }
}

/// A string that is not closed stays unclosed with a semicolon behind the
/// text.
proof fn lemma_open_string_with_semicolon(s: Seq<char>, i: int)
    requires
        0 <= i <= s.len(),
        run_end(s, i, CharClass::Text) == s.len(),
    ensures
        run_end(s.push(';'), i, CharClass::Text) == s.len() + 1,
    decreases s.len() - i,
{
    let t = s.push(';');
    if i < s.len() {
        assert(t[i] == s[i]);
        lemma_run_end(s, i + 1, CharClass::Text);
        lemma_open_string_with_semicolon(s, i + 1);
    } else {
        assert(t[i] == ';');
        assert(run_end(t, i + 1, CharClass::Text) == i + 1);
    }
}

/// A semicolon behind the text leaves a literal as it is.
proof fn lemma_value_at_with_semicolon(s: Seq<char>, i: int)
    requires
        0 <= i <= s.len(),
    ensures
        value_at(s.push(';'), i) == value_at(s, i),
        value_at(s, i) matches Ok((v, next)) ==> i < next <= s.len(),
{
    reveal_strlit("NULL");
    let t = s.push(';');
    let digits = run_end(s, i, CharClass::Digit);
    lemma_run_end(s, i, CharClass::Digit);
    lemma_run_end_with_semicolon(s, i, CharClass::Digit);
    assert(t.subrange(i, digits) =~= s.subrange(i, digits));
    assert(integer_at(t, i) == integer_at(s, i));
    lemma_has_tag_with_semicolon(s, i, "NULL"@);
    assert(null_value_at(t, i) == null_value_at(s, i));
    if i < s.len() {
        assert(t[i] == s[i]);
        let end = run_end(s, i + 1, CharClass::Text);
        lemma_run_end(s, i + 1, CharClass::Text);
        if end < s.len() {
            lemma_run_end_with_semicolon(s, i + 1, CharClass::Text);
            assert(t[end] == s[end]);
            assert(t.subrange(i + 1, end) =~= s.subrange(i + 1, end));
            assert(string_at(t, i) == string_at(s, i));
        } else {
            lemma_open_string_with_semicolon(s, i + 1);
            assert(string_at(s, i) is Err);
            assert(string_at(t, i) is Err);
        }
    } else {
        assert(t[i] == ';');
        assert(string_at(s, i) is Err);
        assert(string_at(t, i) is Err);
    }
}

/// A semicolon behind the text leaves the literals that follow as they are.
proof fn lemma_more_values_with_semicolon(s: Seq<char>, i: int, acc: Seq<LiteralSpec>)
    requires
        0 <= i <= s.len(),
    ensures
        more_values(s.push(';'), i, acc) == more_values(s, i, acc),
        i <= more_values(s, i, acc).1 <= s.len(),
    decreases s.len() - i,
{
    reveal_strlit(", ");
    lemma_has_tag_with_semicolon(s, i, ", "@);
    if has_tag(s, i, ", "@) {
        lemma_value_at_with_semicolon(s, i + 2);
        match value_at(s, i + 2) {
            Ok((v, next)) => {
                lemma_more_values_with_semicolon(s, next, acc.push(v));
            },
            _ => {},
        }
    }
}

/// A semicolon behind the text leaves a tuple as it is.
proof fn lemma_value_tuple_at_with_semicolon(s: Seq<char>, i: int)
    requires
        0 <= i <= s.len(),
    ensures
        value_tuple_at(s.push(';'), i) == value_tuple_at(s, i),
        value_tuple_at(s, i) matches Ok((v, next)) ==> i < next <= s.len(),
{
    let t = s.push(';');
    if i < s.len() {
        assert(t[i] == s[i]);
        if s[i] == '(' {
            lemma_value_at_with_semicolon(s, i + 1);
            match value_at(s, i + 1) {
                Ok((first, next)) => {
                    lemma_more_values_with_semicolon(s, next, seq![first]);
                    let end = more_values(s, next, seq![first]).1;
                    if end < s.len() {
                        assert(t[end] == s[end]);
                    } else {
                        assert(t[end] == ';');
                    }
                },
                _ => {},
            }
        }
    } else {
        assert(t[i] == ';');
    }
}

/// A semicolon behind the text leaves the tuples that follow as they are.
proof fn lemma_more_tuples_with_semicolon(s: Seq<char>, i: int, acc: Seq<Seq<LiteralSpec>>)
    requires
        0 <= i <= s.len(),
    ensures
        more_tuples(s.push(';'), i, acc) == more_tuples(s, i, acc),
        i <= more_tuples(s, i, acc).1 <= s.len(),
    decreases s.len() - i,
{
    reveal_strlit(", ");
    lemma_has_tag_with_semicolon(s, i, ", "@);
    if has_tag(s, i, ", "@) {
        lemma_value_tuple_at_with_semicolon(s, i + 2);
        match value_tuple_at(s, i + 2) {
            Ok((v, next)) => {
                lemma_more_tuples_with_semicolon(s, next, acc.push(v));
            },
            _ => {},
        }
    }
}

/// With a semicolon behind the text, a command that ended where the text
/// ended ends behind the semicolon.
proof fn lemma_past_semicolon_with_semicolon(s: Seq<char>, e: int)
    requires
        0 <= e <= s.len(),
        past_semicolon(s, e) == s.len(),
        s.len() > 0 ==> s.last() != ';',
    ensures
        e == s.len(),
        past_semicolon(s.push(';'), e) == s.len() + 1,
{
    let t = s.push(';');
    if e < s.len() {
        assert(t[e] == s[e]);
    }
    assert(t[s.len() as int] == ';');
}

/// `DROP TABLE` reads the same with a semicolon behind it as without.
proof fn lemma_drop_table_with_semicolon(s: Seq<char>)
    requires
        drop_table_at(s, 0) matches Ok((command, end)) && end == s.len(),
        s.len() > 0 ==> s.last() != ';',
    ensures
        drop_table_at(s, 0) matches Ok((command, end)) && drop_table_at(s.push(';'), 0) == Ok::<
            (CommandSpec, int),
            int,
        >((command, end + 1)),
{
    reveal_strlit("DROP TABLE");
    lemma_has_tag_with_semicolon(s, 0, "DROP TABLE"@);
    let a = run_end(s, 10, CharClass::Space);
    lemma_run_end(s, 10, CharClass::Space);
    lemma_run_end_with_semicolon(s, 10, CharClass::Space);
    lemma_identifier_at_with_semicolon(s, a);
    lemma_past_semicolon_with_semicolon(s, identifier_at(s, a)->Ok_0.1);
}

/// `LIST TABLES` reads the same with a semicolon behind it as without.
proof fn lemma_list_table_with_semicolon(s: Seq<char>)
    requires
        list_table_at(s, 0) matches Ok((command, end)) && end == s.len(),
        s.len() > 0 ==> s.last() != ';',
    ensures
        list_table_at(s, 0) matches Ok((command, end)) && list_table_at(s.push(';'), 0) == Ok::<
            (CommandSpec, int),
            int,
        >((command, end + 1)),
{
    reveal_strlit("LIST TABLES");
    lemma_has_tag_with_semicolon(s, 0, "LIST TABLES"@);
    lemma_past_semicolon_with_semicolon(s, 11);
}

/// `SCHEMA` reads the same with a semicolon behind it as without.
proof fn lemma_display_schema_with_semicolon(s: Seq<char>)
    requires
        display_schema_at(s, 0) matches Ok((command, end)) && end == s.len(),
        s.len() > 0 ==> s.last() != ';',
    ensures
        display_schema_at(s, 0) matches Ok((command, end)) && display_schema_at(s.push(';'), 0)
            == Ok::<(CommandSpec, int), int>((command, end + 1)),
{
    reveal_strlit("SCHEMA");
    lemma_has_tag_with_semicolon(s, 0, "SCHEMA"@);
    let a = run_end(s, 6, CharClass::Space);
    lemma_run_end(s, 6, CharClass::Space);
    lemma_run_end_with_semicolon(s, 6, CharClass::Space);
    lemma_identifier_at_with_semicolon(s, a);
    lemma_past_semicolon_with_semicolon(s, identifier_at(s, a)->Ok_0.1);
}

/// A semicolon behind the text leaves what `SELECT` selects as it is.
proof fn lemma_select_columns_at_with_semicolon(s: Seq<char>, i: int)
    requires
        0 <= i <= s.len(),
    ensures
        select_columns_at(s.push(';'), i) == select_columns_at(s, i),
        i <= select_columns_at(s, i).1 <= s.len(),
{
    reveal_strlit("*");
    lemma_has_tag_with_semicolon(s, i, "*"@);
    lemma_identifier_at_with_semicolon(s, i);
    if identifier_at(s, i) is Ok {
        let first = identifier_at(s, i)->Ok_0;
        lemma_more_names_with_semicolon(s, first.1, seq![first.0]);
    }
}

/// A semicolon behind the text leaves a `JOIN` as it is.
proof fn lemma_join_at_with_semicolon(s: Seq<char>, i: int)
    requires
        0 <= i <= s.len(),
    ensures
        join_at(s.push(';'), i) == join_at(s, i),
        i <= join_at(s, i).1 <= s.len(),
{
    reveal_strlit("JOIN");
    let a = run_end(s, i, CharClass::Space);
    lemma_run_end(s, i, CharClass::Space);
    lemma_run_end_with_semicolon(s, i, CharClass::Space);
    lemma_has_tag_with_semicolon(s, a, "JOIN"@);
    if has_tag(s, a, "JOIN"@) {
        let b = run_end(s, a + 4, CharClass::Space);
        lemma_run_end(s, a + 4, CharClass::Space);
        lemma_run_end_with_semicolon(s, a + 4, CharClass::Space);
        lemma_identifier_at_with_semicolon(s, b);
    }
}

/// `SELECT` reads the same with a semicolon behind it as without.
proof fn lemma_select_statement_with_semicolon(s: Seq<char>)
    requires
        select_statement_at(s, 0) matches Ok((command, end)) && end == s.len(),
        s.len() > 0 ==> s.last() != ';',
    ensures
        select_statement_at(s, 0) matches Ok((command, end)) && select_statement_at(
            s.push(';'),
            0,
        ) == Ok::<(CommandSpec, int), int>((command, end + 1)),
{
    reveal_strlit("SELECT");
    reveal_strlit("FROM");
    lemma_has_tag_with_semicolon(s, 0, "SELECT"@);
    let a = run_end(s, 6, CharClass::Space);
    lemma_run_end(s, 6, CharClass::Space);
    lemma_run_end_with_semicolon(s, 6, CharClass::Space);
    lemma_select_columns_at_with_semicolon(s, a);
    let b = select_columns_at(s, a).1;
    let c = run_end(s, b, CharClass::Space);
    lemma_run_end(s, b, CharClass::Space);
    lemma_run_end_with_semicolon(s, b, CharClass::Space);
    lemma_has_tag_with_semicolon(s, c, "FROM"@);
    let d = run_end(s, c + 4, CharClass::Space);
    lemma_run_end(s, c + 4, CharClass::Space);
    lemma_run_end_with_semicolon(s, c + 4, CharClass::Space);
    lemma_identifier_at_with_semicolon(s, d);
    let e = identifier_at(s, d)->Ok_0.1;
    lemma_join_at_with_semicolon(s, e);
    lemma_past_semicolon_with_semicolon(s, join_at(s, e).1);
}

/// `INSERT INTO` reads the same with a semicolon behind it as without.
proof fn lemma_insert_into_with_semicolon(s: Seq<char>)
    requires
        insert_into_at(s, 0) matches Ok((command, end)) && end == s.len(),
        s.len() > 0 ==> s.last() != ';',
    ensures
        insert_into_at(s, 0) matches Ok((command, end)) && insert_into_at(s.push(';'), 0) == Ok::<
            (CommandSpec, int),
            int,
        >((command, end + 1)),
{
    reveal_strlit("INSERT INTO");
    reveal_strlit("VALUES");
    lemma_has_tag_with_semicolon(s, 0, "INSERT INTO"@);
    let a = run_end(s, 11, CharClass::Space);
    lemma_run_end(s, 11, CharClass::Space);
    lemma_run_end_with_semicolon(s, 11, CharClass::Space);
    lemma_identifier_at_with_semicolon(s, a);
    let b = identifier_at(s, a)->Ok_0.1;
    let c = run_end(s, b, CharClass::Space);
    lemma_run_end(s, b, CharClass::Space);
    lemma_run_end_with_semicolon(s, b, CharClass::Space);
    lemma_has_tag_with_semicolon(s, c, "VALUES"@);
    let d = run_end(s, c + 6, CharClass::Space);
    lemma_run_end(s, c + 6, CharClass::Space);
    lemma_run_end_with_semicolon(s, c + 6, CharClass::Space);
    lemma_value_tuple_at_with_semicolon(s, d);
    let first = value_tuple_at(s, d)->Ok_0;
    lemma_more_tuples_with_semicolon(s, first.1, seq![first.0]);
    lemma_past_semicolon_with_semicolon(s, more_tuples(s, first.1, seq![first.0]).1);
}

/// A form whose keyword does not open the text does not read.
proof fn lemma_keyword_is_needed(s: Seq<char>)
    ensures
        !has_tag(s, 0, "CREATE TABLE"@) ==> create_table_at(s, 0) is Err,
        !has_tag(s, 0, "DROP TABLE"@) ==> drop_table_at(s, 0) is Err,
        !has_tag(s, 0, "LIST TABLES"@) ==> list_table_at(s, 0) is Err,
        !has_tag(s, 0, "SCHEMA"@) ==> display_schema_at(s, 0) is Err,
        !has_tag(s, 0, "SELECT"@) ==> select_statement_at(s, 0) is Err,
        !has_tag(s, 0, "INSERT INTO"@) ==> insert_into_at(s, 0) is Err,
{
}

/// No text opens with the keywords of two forms.
proof fn lemma_keywords_differ(s: Seq<char>)
    ensures
        has_tag(s, 0, "CREATE TABLE"@) ==> !has_tag(s, 0, "DROP TABLE"@) && !has_tag(
            s,
            0,
            "LIST TABLES"@,
        ) && !has_tag(s, 0, "SCHEMA"@) && !has_tag(s, 0, "SELECT"@) && !has_tag(
            s,
            0,
            "INSERT INTO"@,
        ),
        has_tag(s, 0, "DROP TABLE"@) ==> !has_tag(s, 0, "LIST TABLES"@) && !has_tag(
            s,
            0,
            "SCHEMA"@,
        ) && !has_tag(s, 0, "SELECT"@) && !has_tag(s, 0, "INSERT INTO"@),
        has_tag(s, 0, "LIST TABLES"@) ==> !has_tag(s, 0, "SCHEMA"@) && !has_tag(s, 0, "SELECT"@)
            && !has_tag(s, 0, "INSERT INTO"@),
        has_tag(s, 0, "SCHEMA"@) ==> !has_tag(s, 0, "SELECT"@) && !has_tag(s, 0, "INSERT INTO"@),
        has_tag(s, 0, "SELECT"@) ==> !has_tag(s, 0, "INSERT INTO"@),
{
    reveal_strlit("CREATE TABLE");
    reveal_strlit("DROP TABLE");
    reveal_strlit("LIST TABLES");
    reveal_strlit("SCHEMA");
    reveal_strlit("SELECT");
    reveal_strlit("INSERT INTO");
    if has_tag(s, 0, "CREATE TABLE"@) {
        assert(s[0] == s.subrange(0, 12)[0]);
    }
    if has_tag(s, 0, "DROP TABLE"@) {
        assert(s[0] == s.subrange(0, 10)[0]);
    }
    if has_tag(s, 0, "LIST TABLES"@) {
        assert(s[0] == s.subrange(0, 11)[0]);
    }
    if has_tag(s, 0, "SCHEMA"@) {
        assert(s[1] == s.subrange(0, 6)[1]);
    }
    if has_tag(s, 0, "SELECT"@) {
        assert(s[1] == s.subrange(0, 6)[1]);
    }
    if has_tag(s, 0, "INSERT INTO"@) {
        assert(s[0] == s.subrange(0, 11)[0]);
    }
}

/// A command reads the same with a semicolon behind it as without: where the
/// whole of a text that does not end in a semicolon reads as a command, the
/// text with a semicolon behind it reads as the same command, whole again.
pub proof fn lemma_command_with_semicolon(s: Seq<char>)
    requires
        command_at(s) matches Ok((command, end)) && end == s.len(),
        s.len() > 0 ==> s.last() != ';',
    ensures
        command_at(s) matches Ok((command, end)) && command_at(s.push(';')) == Ok::<
            (CommandSpec, int),
            int,
        >((command, end + 1)),
{
    let t = s.push(';');
    lemma_keyword_is_needed(s);
    lemma_keyword_is_needed(t);
    lemma_keywords_differ(s);
    lemma_keywords_differ(t);
    if create_table_at(s, 0) is Ok {
        assert(s.len() > 0);
        lemma_create_table_with_semicolon(s);
    } else if drop_table_at(s, 0) is Ok {
        lemma_drop_table_with_semicolon(s);
    } else if list_table_at(s, 0) is Ok {
        lemma_list_table_with_semicolon(s);
    } else if display_schema_at(s, 0) is Ok {
        lemma_display_schema_with_semicolon(s);
    } else if select_statement_at(s, 0) is Ok {
        lemma_select_statement_with_semicolon(s);
    } else {
        lemma_insert_into_with_semicolon(s);
    }
}

} // verus!
