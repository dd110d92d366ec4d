//! The persisted messages: column and table definitions, the catalog, cells,
//! rows and table contents, each with its encoding.
//!
//! Field numbers are part of the file format and never change. A scalar field
//! that holds its default (an empty string, zero, `false`) is left out when
//! written and taken as the default when absent. Fields may come in any order;
//! of a scalar that comes twice the last one counts, repeated fields add up,
//! and fields with a number that a message does not know are passed over.

use crate::wire::{
    bytes_field, lemma_parse_bytes_field, lemma_parse_field_bounds, lemma_parse_varint_field,
    lemma_repeated_field_front, lemma_repeated_field_push, parse_field, put_bytes_field,
    put_varint_field, read_field, repeated_field, varint_field, FormatError, Payload, WireValue,
    MAX_TAG,
};
use crate::text::same_text;
use vstd::prelude::*;
use vstd::utf8::*;

pub mod cell_value;

use cell_value::{Value, ValueSpec};

verus! {

broadcast use {vstd::utf8::encode_utf8_decode_utf8, vstd::utf8::encode_utf8_valid_utf8};

/// `std::str::Utf8Error`: what `std::str::from_utf8` fails with. Nothing is
/// read out of it.
#[verifier::external_type_specification]
#[verifier::external_body]
pub struct ExUtf8Error(std::str::Utf8Error);

/// `std::str::from_utf8`: the bytes as a string slice when they are valid
/// UTF-8, an error when they are not.
#[verifier::external_body]
fn utf8_text<'a>(bytes: &'a [u8]) -> (r: Result<&'a str, std::str::Utf8Error>)
    ensures
        match r {
            Ok(text) => valid_utf8(bytes@) && text@ == decode_utf8(bytes@),
            Err(_) => !valid_utf8(bytes@),
        },
{
    std::str::from_utf8(bytes)
}

/// Reads a string payload.
pub fn read_string(bytes: &[u8]) -> (r: Result<String, FormatError>)
    ensures
        match r {
            Ok(text) => valid_utf8(bytes@) && text@ == decode_utf8(bytes@),
            Err(_) => !valid_utf8(bytes@),
        },
{
    match utf8_text(bytes) {
        Ok(text) => Ok(text.to_owned()),
        Err(_) => Err(FormatError),
    }
}

/// A string field: left out when the string is empty.
pub open spec fn string_field(tag: u32, text: Seq<char>) -> Seq<u8> {
    if text.len() == 0 {
        Seq::empty()
    } else {
        bytes_field(tag, encode_utf8(text))
    }
}

/// An unsigned field: left out when it is zero.
pub open spec fn scalar_field(tag: u32, v: u64) -> Seq<u8> {
    if v == 0 {
        Seq::empty()
    } else {
        varint_field(tag, v)
    }
}

/// Appends a string field.
pub fn put_string_field(buf: &mut Vec<u8>, tag: u32, text: &str)
    requires
        1 <= tag <= MAX_TAG,
    ensures
        final(buf)@ == old(buf)@ + string_field(tag, text@),
        encode_utf8(text@).len() <= usize::MAX,
{
    let bytes = text.as_bytes();
    if bytes.len() > 0 {
        put_bytes_field(buf, tag, bytes);
    } else {
        assert(text@.len() == 0) by {
            if text@.len() > 0 {
                assert(encode_utf8(text@).len() > 0);
            }
        }
        assert(buf@ =~= old(buf)@ + string_field(tag, text@));
    }
}

/// Appends an unsigned field.
pub fn put_scalar_field(buf: &mut Vec<u8>, tag: u32, v: u64)
    requires
        1 <= tag <= MAX_TAG,
    ensures
        final(buf)@ == old(buf)@ + scalar_field(tag, v),
{
    if v != 0 {
        put_varint_field(buf, tag, v);
    } else {
        assert(buf@ =~= old(buf)@ + scalar_field(tag, v));
    }
}


/// The types of column that a table can have.
#[derive(Clone, Copy, Debug, PartialEq, Eq, Hash, PartialOrd, Ord)]
pub enum ColumnType {
    Int,
    String,
}

impl ColumnType {
    /// The number under which the type is stored.
    pub open spec fn code(self) -> i32 {
        match self {
            ColumnType::Int => 0,
            ColumnType::String => 1,
        }
    }

    /// The number under which the type is stored.
    pub fn to_i32(self) -> (code: i32)
        ensures
            code == self.code(),
    {
        match self {
            ColumnType::Int => 0,
            ColumnType::String => 1,
        }
    }

    /// The type that the command language writes as `value`, if it is one.
    pub fn from_str_name(value: &str) -> (found: Option<ColumnType>)
        ensures
            found == if value@ == "INT"@ {
                Some(ColumnType::Int)
            } else if value@ == "STRING"@ {
                Some(ColumnType::String)
            } else {
                None::<ColumnType>
            },
    {
        if same_text(value, "INT") {
            Some(ColumnType::Int)
        } else if same_text(value, "STRING") {
            Some(ColumnType::String)
        } else {
            None
        }
    }

    /// The name of the type as the command language writes it.
    pub fn as_str_name(&self) -> (name: &'static str)
        ensures
            name@ == match *self {
                ColumnType::Int => "INT"@,
                ColumnType::String => "STRING"@,
            },
    {
        match self {
            ColumnType::Int => "INT",
            ColumnType::String => "STRING",
        }
    }
}

/// One column of a table. `length` counts only for string columns and is
/// zero for the others.
#[derive(Clone, Debug, PartialEq)]
pub struct ColumnDefinition {
    pub name: String,
    pub col_type: i32,
    pub length: u32,
    pub not_null: bool,
}

/// What a `ColumnDefinition` stands for.
pub struct ColumnSpec {
    pub name: Seq<char>,
    pub col_type: i32,
    pub length: u32,
    pub not_null: bool,
}

impl View for ColumnDefinition {
    type V = ColumnSpec;

    open spec fn view(&self) -> ColumnSpec {
        ColumnSpec {
            name: self.name@,
            col_type: self.col_type,
            length: self.length,
            not_null: self.not_null,
        }
    }
}

/// The column whose every field holds its default.
pub open spec fn empty_column() -> ColumnSpec {
    ColumnSpec { name: Seq::empty(), col_type: 0, length: 0, not_null: false }
}

/// The bytes of a column definition: the name under 1, the type under 2, the
/// length under 3 and the not-null flag under 4.
#[verifier::opaque]
pub open spec fn encode_column(c: ColumnSpec) -> Seq<u8> {
    string_field(1, c.name) + scalar_field(2, c.col_type as u64) + scalar_field(3, c.length as u64)
        + scalar_field(4, if c.not_null { 1 } else { 0 })
}

/// A column definition after one more field.
pub open spec fn merge_column(acc: ColumnSpec, tag: u32, value: WireValue) -> Option<ColumnSpec> {
    if tag == 1 {
        match value {
            WireValue::Bytes(b) if valid_utf8(b) => Some(ColumnSpec { name: decode_utf8(b), ..acc }),
            _ => None,
        }
    } else if tag == 2 {
        match value {
            WireValue::Varint(v) => Some(ColumnSpec { col_type: v as i32, ..acc }),
            _ => None,
        }
    } else if tag == 3 {
        match value {
            WireValue::Varint(v) => Some(ColumnSpec { length: v as u32, ..acc }),
            _ => None,
        }
    } else if tag == 4 {
        match value {
            WireValue::Varint(v) => Some(ColumnSpec { not_null: v != 0, ..acc }),
            _ => None,
        }
    } else {
        Some(acc)
    }
}

/// The column definition that `acc` becomes when the fields in `s` are read
/// into it one after the other.
pub open spec fn column_fields(s: Seq<u8>, acc: ColumnSpec) -> Option<ColumnSpec>
    decreases s.len(),
{
    if s.len() == 0 {
        Some(acc)
    } else {
        match parse_field(s) {
            Some((tag, value, n)) if 0 < n <= s.len() => match merge_column(acc, tag, value) {
                Some(next) => column_fields(s.skip(n), next),
                None => None,
            },
            _ => None,
        }
    }
}

/// The column definition that `s` encodes, if it encodes one.
#[verifier::opaque]
pub open spec fn decode_column(s: Seq<u8>) -> Option<ColumnSpec> {
    column_fields(s, empty_column())
}

/// A column definition whose name is short enough for a length prefix.
pub open spec fn column_fits(c: ColumnSpec) -> bool {
    encode_utf8(c.name).len() <= u64::MAX
}

impl Default for ColumnDefinition {
    fn default() -> (c: ColumnDefinition)
        ensures
            c@ == empty_column(),
    {
        ColumnDefinition { name: String::new(), col_type: 0, length: 0, not_null: false }
    }
}

impl ColumnDefinition {
    /// Appends the encoding of the column definition to `buf`.
    pub fn encode_into(&self, buf: &mut Vec<u8>)
        ensures
            final(buf)@ == old(buf)@ + encode_column(self@),
            column_fits(self@),
    {
        proof {
            reveal(encode_column);
        }
        put_string_field(buf, 1, self.name.as_str());
        put_scalar_field(buf, 2, self.col_type as u64);
        put_scalar_field(buf, 3, self.length as u64);
        put_scalar_field(buf, 4, if self.not_null { 1 } else { 0 });
        assert(buf@ =~= old(buf)@ + encode_column(self@));
    }

    /// The encoding of the column definition. Decoding it gives the column
    /// definition again.
    pub fn encode(&self) -> (bytes: Vec<u8>)
        ensures
            bytes@ == encode_column(self@),
            column_fits(self@),
            decode_column(bytes@) == Some(self@),
    {
        let mut bytes: Vec<u8> = Vec::new();
        self.encode_into(&mut bytes);
        proof {
            assert(bytes@ =~= encode_column(self@));
            lemma_column_round_trip(self@);
        }
        bytes
    }

    /// Reads a column definition.
    pub fn decode(bytes: &[u8]) -> (r: Result<ColumnDefinition, FormatError>)
        ensures
            match r {
                Ok(column) => decode_column(bytes@) == Some(column@),
                Err(_) => decode_column(bytes@) is None,
            },
    {
        proof {
            reveal(decode_column);
        }
        let mut column = ColumnDefinition::default();
        let mut rest = bytes;
        while rest.len() > 0
            invariant
                decode_column(bytes@) == column_fields(rest@, column@),
            decreases rest@.len(),
        {
            let (tag, payload, next) = match read_field(rest) {
                Ok(found) => found,
                Err(e) => { return Err(e); },
            };
            proof {
                lemma_parse_field_bounds(rest@);
            }
            if tag == 1 {
                match payload {
                    Payload::Bytes(b) => match read_string(b) {
                        Ok(name) => { column.name = name; },
                        Err(e) => { return Err(e); },
                    },
                    _ => { return Err(FormatError); },
                }
            } else if tag == 2 {
                match payload {
                    Payload::Varint(v) => { column.col_type = v as i32; },
                    _ => { return Err(FormatError); },
                }
            } else if tag == 3 {
                match payload {
                    Payload::Varint(v) => { column.length = v as u32; },
                    _ => { return Err(FormatError); },
                }
            } else if tag == 4 {
                match payload {
                    Payload::Varint(v) => { column.not_null = v != 0; },
                    _ => { return Err(FormatError); },
                }
            }
            rest = next;
        }
        Ok(column)
    }
}

/// Reading a string field that was written into `acc` sets the name.
proof fn lemma_column_name(name: Seq<char>, rest: Seq<u8>, acc: ColumnSpec)
    requires
        encode_utf8(name).len() <= u64::MAX,
        acc.name.len() == 0,
    ensures
        column_fields(string_field(1, name) + rest, acc) == column_fields(
            rest,
            ColumnSpec { name: name, ..acc },
        ),
{
    let s = string_field(1, name) + rest;
    if name.len() == 0 {
        assert(s =~= rest);
        assert(acc.name =~= name);
    } else {
        let b = encode_utf8(name);
        lemma_parse_bytes_field(1, b, rest);
        let n = bytes_field(1, b).len() as int;
        assert(s.skip(n) =~= rest);
    }
}

/// Reading a scalar field that was written sets the value it was written
/// from, and leaving it out leaves the default.
proof fn lemma_column_scalar(tag: u32, v: u64, rest: Seq<u8>, acc: ColumnSpec)
    requires
        2 <= tag <= 4,
        tag == 2 ==> acc.col_type == 0,
        tag == 3 ==> acc.length == 0,
        tag == 4 ==> !acc.not_null,
    ensures
        column_fields(scalar_field(tag, v) + rest, acc) == column_fields(
            rest,
            merge_column(acc, tag, WireValue::Varint(v)).unwrap(),
        ),
{
    let s = scalar_field(tag, v) + rest;
    if v == 0 {
        assert(s =~= rest);
        assert(0u64 as i32 == 0i32) by (bit_vector);
        assert(0u64 as u32 == 0u32) by (bit_vector);
    } else {
        lemma_parse_varint_field(tag, v, rest);
        let n = varint_field(tag, v).len() as int;
        assert(s.skip(n) =~= rest);
    }
}

/// Decoding an encoded column definition gives it back.
pub proof fn lemma_column_round_trip(c: ColumnSpec)
    requires
        column_fits(c),
    ensures
        decode_column(encode_column(c)) == Some(c),
{
    reveal(encode_column);
    reveal(decode_column);
    let f2 = scalar_field(2, c.col_type as u64);
    let f3 = scalar_field(3, c.length as u64);
    let f4 = scalar_field(4, if c.not_null { 1 } else { 0 });
    let a0 = empty_column();
    let a1 = ColumnSpec { name: c.name, ..a0 };
    let a2 = ColumnSpec { col_type: c.col_type, ..a1 };
    let a3 = ColumnSpec { length: c.length, ..a2 };
    assert(encode_column(c) =~= string_field(1, c.name) + (f2 + (f3 + (f4 + Seq::empty()))));
    lemma_column_name(c.name, f2 + (f3 + (f4 + Seq::empty())), a0);
    lemma_column_scalar(2, c.col_type as u64, f3 + (f4 + Seq::empty()), a1);
    lemma_column_scalar(3, c.length as u64, f4 + Seq::empty(), a2);
    lemma_column_scalar(4, if c.not_null { 1 } else { 0 }, Seq::empty(), a3);
    let x = c.col_type;
    let y = c.length;
    assert((x as u64) as i32 == x) by (bit_vector);
    assert((y as u64) as u32 == y) by (bit_vector);
}


/// A table's schema: its name and its columns, whose order is the order of
/// the cells in each of its rows.
#[derive(Clone, Debug, PartialEq)]
pub struct TableDefinition {
    pub name: String,
    pub columns: Vec<ColumnDefinition>,
}

/// What a `TableDefinition` stands for.
pub struct TableSpec {
    pub name: Seq<char>,
    pub columns: Seq<ColumnSpec>,
}

/// What a list of column definitions stands for.
pub open spec fn column_views(columns: Seq<ColumnDefinition>) -> Seq<ColumnSpec> {
    Seq::new(columns.len(), |i: int| columns[i]@)
}

impl View for TableDefinition {
    type V = TableSpec;

    open spec fn view(&self) -> TableSpec {
        TableSpec { name: self.name@, columns: column_views(self.columns@) }
    }
}

/// The table without a name and without columns.
pub open spec fn empty_table() -> TableSpec {
    TableSpec { name: Seq::empty(), columns: Seq::empty() }
}

/// The encodings of `columns`, one by one.
pub open spec fn encode_columns(columns: Seq<ColumnSpec>) -> Seq<Seq<u8>> {
    Seq::new(columns.len(), |i: int| encode_column(columns[i]))
}

/// The bytes of a table definition: the name under 1, each column under 2.
#[verifier::opaque]
pub open spec fn encode_table(t: TableSpec) -> Seq<u8> {
    string_field(1, t.name) + repeated_field(2, encode_columns(t.columns))
}

/// A table definition after one more field.
pub open spec fn merge_table(acc: TableSpec, tag: u32, value: WireValue) -> Option<TableSpec> {
    if tag == 1 {
        match value {
            WireValue::Bytes(b) if valid_utf8(b) => Some(TableSpec { name: decode_utf8(b), ..acc }),
            _ => None,
        }
    } else if tag == 2 {
        match value {
            WireValue::Bytes(b) => match decode_column(b) {
                Some(c) => Some(TableSpec { columns: acc.columns.push(c), ..acc }),
                None => None,
            },
            _ => None,
        }
    } else {
        Some(acc)
    }
}

/// The table definition that `acc` becomes when the fields in `s` are read
/// into it one after the other.
pub open spec fn table_fields(s: Seq<u8>, acc: TableSpec) -> Option<TableSpec>
    decreases s.len(),
{
    if s.len() == 0 {
        Some(acc)
    } else {
        match parse_field(s) {
            Some((tag, value, n)) if 0 < n <= s.len() => match merge_table(acc, tag, value) {
                Some(next) => table_fields(s.skip(n), next),
                None => None,
            },
            _ => None,
        }
    }
}

/// The table definition that `s` encodes, if it encodes one.
#[verifier::opaque]
pub open spec fn decode_table(s: Seq<u8>) -> Option<TableSpec> {
    table_fields(s, empty_table())
}

/// A table definition whose name, columns and column encodings are each short
/// enough for a length prefix.
#[verifier::opaque]
pub open spec fn table_fits(t: TableSpec) -> bool {
    &&& encode_utf8(t.name).len() <= u64::MAX
    &&& forall|i: int|
        0 <= i < t.columns.len() ==> column_fits(#[trigger] t.columns[i]) && encode_column(
            t.columns[i],
        ).len() <= u64::MAX
}

impl Default for TableDefinition {
    fn default() -> (t: TableDefinition)
        ensures
            t@ == empty_table(),
    {
        let t = TableDefinition { name: String::new(), columns: Vec::new() };
        assert(t@.columns =~= Seq::empty());
        t
    }
}

impl TableDefinition {
    /// Appends the encoding of the table definition to `buf`.
    pub fn encode_into(&self, buf: &mut Vec<u8>)
        ensures
            final(buf)@ == old(buf)@ + encode_table(self@),
            table_fits(self@),
    {
        proof {
            reveal(encode_table);
            reveal(table_fits);
        }
        put_string_field(buf, 1, self.name.as_str());
        let ghost base = buf@;
        let ghost cols = self@.columns;
        let mut i: usize = 0;
        assert(encode_columns(cols.take(0)) =~= Seq::empty());
        while i < self.columns.len()
            invariant
                i <= self.columns@.len(),
                cols == self@.columns,
                buf@ == base + repeated_field(2, encode_columns(cols.take(i as int))),
                forall|j: int|
                    0 <= j < i ==> column_fits(#[trigger] cols[j]) && encode_column(cols[j]).len()
                        <= u64::MAX,
            decreases self.columns@.len() - i,
        {
            let child = self.columns[i].encode();
            put_bytes_field(buf, 2, child.as_slice());
            proof {
                let done = encode_columns(cols.take(i as int));
                assert(encode_columns(cols.take(i + 1)) =~= done.push(child@));
                lemma_repeated_field_push(2, done, child@);
                assert(cols[i as int] == self.columns@[i as int]@);
                assert(child@.len() == child.len());
            }
            i += 1;
        }
        assert(cols.take(i as int) =~= cols);
        assert(buf@ =~= old(buf)@ + encode_table(self@));
    }

    /// The encoding of the table definition. Decoding it gives the table
    /// definition again.
    pub fn encode(&self) -> (bytes: Vec<u8>)
        ensures
            bytes@ == encode_table(self@),
            table_fits(self@),
            decode_table(bytes@) == Some(self@),
    {
        let mut bytes: Vec<u8> = Vec::new();
        self.encode_into(&mut bytes);
        proof {
            assert(bytes@ =~= encode_table(self@));
            lemma_table_round_trip(self@);
        }
        bytes
    }

    /// Reads a table definition.
    pub fn decode(bytes: &[u8]) -> (r: Result<TableDefinition, FormatError>)
        ensures
            match r {
                Ok(table) => decode_table(bytes@) == Some(table@),
                Err(_) => decode_table(bytes@) is None,
            },
    {
        proof {
            reveal(decode_table);
        }
        let mut table = TableDefinition::default();
        let mut rest = bytes;
        while rest.len() > 0
            invariant
                decode_table(bytes@) == table_fields(rest@, table@),
            decreases rest@.len(),
        {
            let (tag, payload, next) = match read_field(rest) {
                Ok(found) => found,
                Err(e) => { return Err(e); },
            };
            proof {
                lemma_parse_field_bounds(rest@);
            }
            if tag == 1 {
                match payload {
                    Payload::Bytes(b) => match read_string(b) {
                        Ok(name) => { table.name = name; },
                        Err(e) => { return Err(e); },
                    },
                    _ => { return Err(FormatError); },
                }
            } else if tag == 2 {
                match payload {
                    Payload::Bytes(b) => match ColumnDefinition::decode(b) {
                        Ok(column) => {
                            let ghost before = table@.columns;
                            table.columns.push(column);
                            assert(table@.columns =~= before.push(column@));
                        },
                        Err(e) => { return Err(e); },
                    },
                    _ => { return Err(FormatError); },
                }
            }
            rest = next;
        }
        Ok(table)
    }
}

/// Reading the name that was written into a nameless table sets it.
proof fn lemma_table_name(name: Seq<char>, rest: Seq<u8>, acc: TableSpec)
    requires
        encode_utf8(name).len() <= u64::MAX,
        acc.name.len() == 0,
    ensures
        table_fields(string_field(1, name) + rest, acc) == table_fields(
            rest,
            TableSpec { name: name, ..acc },
        ),
{
    let s = string_field(1, name) + rest;
    if name.len() == 0 {
        assert(s =~= rest);
        assert(acc.name =~= name);
    } else {
        let b = encode_utf8(name);
        lemma_parse_bytes_field(1, b, rest);
        let n = bytes_field(1, b).len() as int;
        assert(s.skip(n) =~= rest);
    }
}

/// Reading the columns that were written adds them, in their order.
proof fn lemma_table_columns(columns: Seq<ColumnSpec>, rest: Seq<u8>, acc: TableSpec)
    requires
        forall|i: int|
            0 <= i < columns.len() ==> column_fits(#[trigger] columns[i]) && encode_column(
                columns[i],
            ).len() <= u64::MAX,
    ensures
        table_fields(repeated_field(2, encode_columns(columns)) + rest, acc) == table_fields(
            rest,
            TableSpec { columns: acc.columns + columns, ..acc },
        ),
    decreases columns.len(),
{
    let items = encode_columns(columns);
    let s = repeated_field(2, items) + rest;
    if columns.len() == 0 {
        assert(s =~= rest);
        assert(acc.columns + columns =~= acc.columns);
    } else {
        let first = columns[0];
        let others = columns.drop_first();
        lemma_repeated_field_front(2, items);
        assert(items.drop_first() =~= encode_columns(others));
        let tail = repeated_field(2, encode_columns(others)) + rest;
        assert(s =~= bytes_field(2, items[0]) + tail);
        lemma_parse_bytes_field(2, items[0], tail);
        let n = bytes_field(2, items[0]).len() as int;
        assert(s.skip(n) =~= tail);
        lemma_column_round_trip(first);
        let next = TableSpec { columns: acc.columns.push(first), ..acc };
        assert forall|i: int| 0 <= i < others.len() implies column_fits(#[trigger] others[i])
            && encode_column(others[i]).len() <= u64::MAX by {
            assert(others[i] == columns[i + 1]);
        }
        lemma_table_columns(others, rest, next);
        assert(next.columns + others =~= acc.columns + columns);
    }
}

/// Decoding an encoded table definition gives it back.
pub proof fn lemma_table_round_trip(t: TableSpec)
    requires
        table_fits(t),
    ensures
        decode_table(encode_table(t)) == Some(t),
{
    reveal(encode_table);
    reveal(decode_table);
    reveal(table_fits);
    let a0 = empty_table();
    let a1 = TableSpec { name: t.name, ..a0 };
    let body = repeated_field(2, encode_columns(t.columns));
    assert(encode_table(t) =~= string_field(1, t.name) + (body + Seq::empty()));
    lemma_table_name(t.name, body + Seq::empty(), a0);
    lemma_table_columns(t.columns, Seq::empty(), a1);
    assert(a1.columns + t.columns =~= t.columns);
}


/// The catalog: every table's schema, in the order in which the tables were
/// created.
#[derive(Clone, Debug, PartialEq)]
pub struct Database {
    pub tables: Vec<TableDefinition>,
}

/// What a `Database` stands for.
pub struct DatabaseSpec {
    pub tables: Seq<TableSpec>,
}

/// What a list of table definitions stands for.
pub open spec fn table_views(tables: Seq<TableDefinition>) -> Seq<TableSpec> {
    Seq::new(tables.len(), |i: int| tables[i]@)
}

impl View for Database {
    type V = DatabaseSpec;

    open spec fn view(&self) -> DatabaseSpec {
        DatabaseSpec { tables: table_views(self.tables@) }
    }
}

/// The catalog without tables.
pub open spec fn empty_database() -> DatabaseSpec {
    DatabaseSpec { tables: Seq::empty() }
}

/// The encodings of `tables`, one by one.
pub open spec fn encode_tables(tables: Seq<TableSpec>) -> Seq<Seq<u8>> {
    Seq::new(tables.len(), |i: int| encode_table(tables[i]))
}

/// The bytes of a catalog: each table definition under 1.
#[verifier::opaque]
pub open spec fn encode_database(d: DatabaseSpec) -> Seq<u8> {
    repeated_field(1, encode_tables(d.tables))
}

/// A catalog after one more field.
pub open spec fn merge_database(acc: DatabaseSpec, tag: u32, value: WireValue) -> Option<
    DatabaseSpec,
> {
    if tag == 1 {
        match value {
            WireValue::Bytes(b) => match decode_table(b) {
                Some(t) => Some(DatabaseSpec { tables: acc.tables.push(t) }),
                None => None,
            },
            _ => None,
        }
    } else {
        Some(acc)
    }
}

/// The catalog that `acc` becomes when the fields in `s` are read into it one
/// after the other.
pub open spec fn database_fields(s: Seq<u8>, acc: DatabaseSpec) -> Option<DatabaseSpec>
    decreases s.len(),
{
    if s.len() == 0 {
        Some(acc)
    } else {
        match parse_field(s) {
            Some((tag, value, n)) if 0 < n <= s.len() => match merge_database(acc, tag, value) {
                Some(next) => database_fields(s.skip(n), next),
                None => None,
            },
            _ => None,
        }
    }
}

/// The catalog that `s` encodes, if it encodes one.
#[verifier::opaque]
pub open spec fn decode_database(s: Seq<u8>) -> Option<DatabaseSpec> {
    database_fields(s, empty_database())
}

/// A catalog in which every table definition and its encoding are short
/// enough for a length prefix.
#[verifier::opaque]
pub open spec fn database_fits(d: DatabaseSpec) -> bool {
    forall|i: int|
        0 <= i < d.tables.len() ==> table_fits(#[trigger] d.tables[i]) && encode_table(
            d.tables[i],
        ).len() <= u64::MAX
}

impl Default for Database {
    fn default() -> (d: Database)
        ensures
            d@ == empty_database(),
    {
        let d = Database { tables: Vec::new() };
        assert(d@.tables =~= Seq::empty());
        d
    }
}

impl Database {
    /// Appends the encoding of the catalog to `buf`.
    pub fn encode_into(&self, buf: &mut Vec<u8>)
        ensures
            final(buf)@ == old(buf)@ + encode_database(self@),
            database_fits(self@),
    {
        proof {
            reveal(encode_database);
            reveal(database_fits);
        }
        let ghost base = buf@;
        let ghost tables = self@.tables;
        let mut i: usize = 0;
        assert(encode_tables(tables.take(0)) =~= Seq::empty());
        assert(buf@ =~= base + repeated_field(1, encode_tables(tables.take(0))));
        while i < self.tables.len()
            invariant
                i <= self.tables@.len(),
                tables == self@.tables,
                buf@ == base + repeated_field(1, encode_tables(tables.take(i as int))),
                forall|j: int|
                    0 <= j < i ==> table_fits(#[trigger] tables[j]) && encode_table(tables[j]).len()
                        <= u64::MAX,
            decreases self.tables@.len() - i,
        {
            let child = self.tables[i].encode();
            put_bytes_field(buf, 1, child.as_slice());
            proof {
                let done = encode_tables(tables.take(i as int));
                assert(encode_tables(tables.take(i + 1)) =~= done.push(child@));
                lemma_repeated_field_push(1, done, child@);
                assert(tables[i as int] == self.tables@[i as int]@);
                assert(child@.len() == child.len());
            }
            i += 1;
        }
        assert(tables.take(i as int) =~= tables);
    }

    /// The encoding of the catalog. Decoding it gives the catalog again.
    pub fn encode(&self) -> (bytes: Vec<u8>)
        ensures
            bytes@ == encode_database(self@),
            database_fits(self@),
            decode_database(bytes@) == Some(self@),
    {
        let mut bytes: Vec<u8> = Vec::new();
        self.encode_into(&mut bytes);
        proof {
            assert(bytes@ =~= encode_database(self@));
            lemma_database_round_trip(self@);
        }
        bytes
    }

    /// Reads a catalog.
    pub fn decode(bytes: &[u8]) -> (r: Result<Database, FormatError>)
        ensures
            match r {
                Ok(database) => decode_database(bytes@) == Some(database@),
                Err(_) => decode_database(bytes@) is None,
            },
    {
        proof {
            reveal(decode_database);
        }
        let mut database = Database::default();
        let mut rest = bytes;
        while rest.len() > 0
            invariant
                decode_database(bytes@) == database_fields(rest@, database@),
            decreases rest@.len(),
        {
            let (tag, payload, next) = match read_field(rest) {
                Ok(found) => found,
                Err(e) => { return Err(e); },
            };
            proof {
                lemma_parse_field_bounds(rest@);
            }
            if tag == 1 {
                match payload {
                    Payload::Bytes(b) => match TableDefinition::decode(b) {
                        Ok(table) => {
                            let ghost before = database@.tables;
                            database.tables.push(table);
                            assert(database@.tables =~= before.push(table@));
                        },
                        Err(e) => { return Err(e); },
                    },
                    _ => { return Err(FormatError); },
                }
            }
            rest = next;
        }
        Ok(database)
    }
}

/// Reading the table definitions that were written adds them, in their order.
proof fn lemma_database_tables(tables: Seq<TableSpec>, rest: Seq<u8>, acc: DatabaseSpec)
    requires
        forall|i: int|
            0 <= i < tables.len() ==> table_fits(#[trigger] tables[i]) && encode_table(
                tables[i],
            ).len() <= u64::MAX,
    ensures
        database_fields(repeated_field(1, encode_tables(tables)) + rest, acc) == database_fields(
            rest,
            DatabaseSpec { tables: acc.tables + tables },
        ),
    decreases tables.len(),
{
    let items = encode_tables(tables);
    let s = repeated_field(1, items) + rest;
    if tables.len() == 0 {
        assert(s =~= rest);
        assert(acc.tables + tables =~= acc.tables);
    } else {
        let first = tables[0];
        let others = tables.drop_first();
        lemma_repeated_field_front(1, items);
        assert(items.drop_first() =~= encode_tables(others));
        let tail = repeated_field(1, encode_tables(others)) + rest;
        assert(s =~= bytes_field(1, items[0]) + tail);
        lemma_parse_bytes_field(1, items[0], tail);
        let n = bytes_field(1, items[0]).len() as int;
        assert(s.skip(n) =~= tail);
        lemma_table_round_trip(first);
        let next = DatabaseSpec { tables: acc.tables.push(first) };
        assert forall|i: int| 0 <= i < others.len() implies table_fits(#[trigger] others[i])
            && encode_table(others[i]).len() <= u64::MAX by {
            assert(others[i] == tables[i + 1]);
        }
        lemma_database_tables(others, rest, next);
        assert(next.tables + others =~= acc.tables + tables);
    }
}

/// Decoding an encoded catalog gives it back.
pub proof fn lemma_database_round_trip(d: DatabaseSpec)
    requires
        database_fits(d),
    ensures
        decode_database(encode_database(d)) == Some(d),
{
    reveal(encode_database);
    reveal(decode_database);
    reveal(database_fits);
    let body = repeated_field(1, encode_tables(d.tables));
    assert(encode_database(d) =~= body + Seq::empty());
    lemma_database_tables(d.tables, Seq::empty(), empty_database());
    assert(empty_database().tables + d.tables =~= d.tables);
}


/// One cell of a row. A cell whose `value` is `None` holds nothing at all,
/// which is not the same as holding a null.
#[derive(Clone, Debug, PartialEq)]
pub struct CellValue {
    pub value: Option<Value>,
}

impl View for CellValue {
    type V = Option<ValueSpec>;

    open spec fn view(&self) -> Option<ValueSpec> {
        match self.value {
            Some(v) => Some(v@),
            None => None,
        }
    }
}

/// The bytes of a cell: an integer under 1, a string under 2, a null marker
/// under 3. The one that is set is always written, a default too.
#[verifier::opaque]
pub open spec fn encode_cell(c: Option<ValueSpec>) -> Seq<u8> {
    match c {
        None => Seq::empty(),
        Some(ValueSpec::IntVal(v)) => varint_field(1, v as u64),
        Some(ValueSpec::StrVal(text)) => bytes_field(2, encode_utf8(text)),
        Some(ValueSpec::NullVal(b)) => varint_field(3, if b { 1 } else { 0 }),
    }
}

/// A cell after one more field: the last of the three that comes is the one
/// that the cell holds.
pub open spec fn merge_cell(acc: Option<ValueSpec>, tag: u32, value: WireValue) -> Option<
    Option<ValueSpec>,
> {
    if tag == 1 {
        match value {
            WireValue::Varint(v) => Some(Some(ValueSpec::IntVal(v as i64))),
            _ => None,
        }
    } else if tag == 2 {
        match value {
            WireValue::Bytes(b) if valid_utf8(b) => Some(Some(ValueSpec::StrVal(decode_utf8(b)))),
            _ => None,
        }
    } else if tag == 3 {
        match value {
            WireValue::Varint(v) => Some(Some(ValueSpec::NullVal(v != 0))),
            _ => None,
        }
    } else {
        Some(acc)
    }
}

/// The cell that `acc` becomes when the fields in `s` are read into it one
/// after the other.
pub open spec fn cell_fields(s: Seq<u8>, acc: Option<ValueSpec>) -> Option<Option<ValueSpec>>
    decreases s.len(),
{
    if s.len() == 0 {
        Some(acc)
    } else {
        match parse_field(s) {
            Some((tag, value, n)) if 0 < n <= s.len() => match merge_cell(acc, tag, value) {
                Some(next) => cell_fields(s.skip(n), next),
                None => None,
            },
            _ => None,
        }
    }
}

/// The cell that `s` encodes, if it encodes one.
#[verifier::opaque]
pub open spec fn decode_cell(s: Seq<u8>) -> Option<Option<ValueSpec>> {
    cell_fields(s, None)
}

/// A cell whose string, if it holds one, is short enough for a length prefix.
pub open spec fn cell_fits(c: Option<ValueSpec>) -> bool {
    c matches Some(ValueSpec::StrVal(text)) ==> encode_utf8(text).len() <= u64::MAX
}

impl Default for CellValue {
    fn default() -> (c: CellValue)
        ensures
            c@ is None,
    {
        CellValue { value: None }
    }
}

impl CellValue {
    /// Appends the encoding of the cell to `buf`.
    pub fn encode_into(&self, buf: &mut Vec<u8>)
        ensures
            final(buf)@ == old(buf)@ + encode_cell(self@),
            cell_fits(self@),
    {
        proof {
            reveal(encode_cell);
        }
        match &self.value {
            None => {
                assert(buf@ =~= old(buf)@ + encode_cell(self@));
            },
            Some(Value::IntVal(v)) => {
                put_varint_field(buf, 1, *v as u64);
            },
            Some(Value::StrVal(text)) => {
                let bytes = text.as_str().as_bytes();
                assert(bytes@.len() == bytes.len());
                put_bytes_field(buf, 2, bytes);
            },
            Some(Value::NullVal(b)) => {
                put_varint_field(buf, 3, if *b { 1 } else { 0 });
            },
        }
    }

    /// The encoding of the cell. Decoding it gives the cell again.
    pub fn encode(&self) -> (bytes: Vec<u8>)
        ensures
            bytes@ == encode_cell(self@),
            cell_fits(self@),
            decode_cell(bytes@) == Some(self@),
    {
        let mut bytes: Vec<u8> = Vec::new();
        self.encode_into(&mut bytes);
        proof {
            assert(bytes@ =~= encode_cell(self@));
            lemma_cell_round_trip(self@);
        }
        bytes
    }

    /// Reads a cell.
    pub fn decode(bytes: &[u8]) -> (r: Result<CellValue, FormatError>)
        ensures
            match r {
                Ok(cell) => decode_cell(bytes@) == Some(cell@),
                Err(_) => decode_cell(bytes@) is None,
            },
    {
        proof {
            reveal(decode_cell);
        }
        let mut cell = CellValue::default();
        let mut rest = bytes;
        while rest.len() > 0
            invariant
                decode_cell(bytes@) == cell_fields(rest@, cell@),
            decreases rest@.len(),
        {
            let (tag, payload, next) = match read_field(rest) {
                Ok(found) => found,
                Err(e) => { return Err(e); },
            };
            proof {
                lemma_parse_field_bounds(rest@);
            }
            if tag == 1 {
                match payload {
                    Payload::Varint(v) => { cell.value = Some(Value::IntVal(v as i64)); },
                    _ => { return Err(FormatError); },
                }
            } else if tag == 2 {
                match payload {
                    Payload::Bytes(b) => match read_string(b) {
                        Ok(text) => { cell.value = Some(Value::StrVal(text)); },
                        Err(e) => { return Err(e); },
                    },
                    _ => { return Err(FormatError); },
                }
            } else if tag == 3 {
                match payload {
                    Payload::Varint(v) => { cell.value = Some(Value::NullVal(v != 0)); },
                    _ => { return Err(FormatError); },
                }
            }
            rest = next;
        }
        Ok(cell)
    }
}

/// Decoding an encoded cell gives it back.
pub proof fn lemma_cell_round_trip(c: Option<ValueSpec>)
    requires
        cell_fits(c),
    ensures
        decode_cell(encode_cell(c)) == Some(c),
{
    reveal(encode_cell);
    reveal(decode_cell);
    let s = encode_cell(c);
    let none = Seq::<u8>::empty();
    assert(cell_fields(none, c) == Some(c));
    match c {
        None => {
            assert(s.len() == 0);
        },
        Some(ValueSpec::IntVal(v)) => {
            lemma_parse_varint_field(1, v as u64, none);
            assert(s =~= varint_field(1, v as u64) + none);
            assert(s.skip(s.len() as int) =~= none);
            assert((v as u64) as i64 == v) by (bit_vector);
        },
        Some(ValueSpec::StrVal(text)) => {
            lemma_parse_bytes_field(2, encode_utf8(text), none);
            assert(s =~= bytes_field(2, encode_utf8(text)) + none);
            assert(s.skip(s.len() as int) =~= none);
        },
        Some(ValueSpec::NullVal(b)) => {
            let v: u64 = if b { 1 } else { 0 };
            lemma_parse_varint_field(3, v, none);
            assert(s =~= varint_field(3, v) + none);
            assert(s.skip(s.len() as int) =~= none);
        },
    }
}

/// A row: one cell for each column of its table, in the columns' order.
#[derive(Clone, Debug, PartialEq)]
pub struct Row {
    pub cells: Vec<CellValue>,
}

/// What a list of cells stands for.
pub open spec fn cell_views(cells: Seq<CellValue>) -> Seq<Option<ValueSpec>> {
    Seq::new(cells.len(), |i: int| cells[i]@)
}

impl View for Row {
    type V = Seq<Option<ValueSpec>>;

    open spec fn view(&self) -> Seq<Option<ValueSpec>> {
        cell_views(self.cells@)
    }
}

/// The encodings of `cells`, one by one.
pub open spec fn encode_cells(cells: Seq<Option<ValueSpec>>) -> Seq<Seq<u8>> {
    Seq::new(cells.len(), |i: int| encode_cell(cells[i]))
}

/// The bytes of a row: each cell under 1.
#[verifier::opaque]
pub open spec fn encode_row(r: Seq<Option<ValueSpec>>) -> Seq<u8> {
    repeated_field(1, encode_cells(r))
}

/// A row after one more field.
pub open spec fn merge_row(acc: Seq<Option<ValueSpec>>, tag: u32, value: WireValue) -> Option<
    Seq<Option<ValueSpec>>,
> {
    if tag == 1 {
        match value {
            WireValue::Bytes(b) => match decode_cell(b) {
                Some(c) => Some(acc.push(c)),
                None => None,
            },
            _ => None,
        }
    } else {
        Some(acc)
    }
}

/// The row that `acc` becomes when the fields in `s` are read into it one
/// after the other.
pub open spec fn row_fields(s: Seq<u8>, acc: Seq<Option<ValueSpec>>) -> Option<
    Seq<Option<ValueSpec>>,
>
    decreases s.len(),
{
    if s.len() == 0 {
        Some(acc)
    } else {
        match parse_field(s) {
            Some((tag, value, n)) if 0 < n <= s.len() => match merge_row(acc, tag, value) {
                Some(next) => row_fields(s.skip(n), next),
                None => None,
            },
            _ => None,
        }
    }
}

/// The row that `s` encodes, if it encodes one.
#[verifier::opaque]
pub open spec fn decode_row(s: Seq<u8>) -> Option<Seq<Option<ValueSpec>>> {
    row_fields(s, Seq::empty())
}

/// A row in which every cell and its encoding are short enough for a length
/// prefix.
#[verifier::opaque]
pub open spec fn row_fits(r: Seq<Option<ValueSpec>>) -> bool {
    forall|i: int|
        0 <= i < r.len() ==> cell_fits(#[trigger] r[i]) && encode_cell(r[i]).len() <= u64::MAX
}

impl Default for Row {
    fn default() -> (r: Row)
        ensures
            r@ == Seq::<Option<ValueSpec>>::empty(),
    {
        let r = Row { cells: Vec::new() };
        assert(r@ =~= Seq::empty());
        r
    }
}

impl Row {
    /// Appends the encoding of the row to `buf`.
    pub fn encode_into(&self, buf: &mut Vec<u8>)
        ensures
            final(buf)@ == old(buf)@ + encode_row(self@),
            row_fits(self@),
    {
        proof {
            reveal(encode_row);
            reveal(row_fits);
        }
        let ghost base = buf@;
        let ghost cells = self@;
        let mut i: usize = 0;
        assert(encode_cells(cells.take(0)) =~= Seq::empty());
        assert(buf@ =~= base + repeated_field(1, encode_cells(cells.take(0))));
        while i < self.cells.len()
            invariant
                i <= self.cells@.len(),
                cells == self@,
                buf@ == base + repeated_field(1, encode_cells(cells.take(i as int))),
                forall|j: int|
                    0 <= j < i ==> cell_fits(#[trigger] cells[j]) && encode_cell(cells[j]).len()
                        <= u64::MAX,
            decreases self.cells@.len() - i,
        {
            let child = self.cells[i].encode();
            put_bytes_field(buf, 1, child.as_slice());
            proof {
                let done = encode_cells(cells.take(i as int));
                assert(encode_cells(cells.take(i + 1)) =~= done.push(child@));
                lemma_repeated_field_push(1, done, child@);
                assert(cells[i as int] == self.cells@[i as int]@);
                assert(child@.len() == child.len());
            }
            i += 1;
        }
        assert(cells.take(i as int) =~= cells);
    }

    /// The encoding of the row. Decoding it gives the row again.
    pub fn encode(&self) -> (bytes: Vec<u8>)
        ensures
            bytes@ == encode_row(self@),
            row_fits(self@),
            decode_row(bytes@) == Some(self@),
    {
        let mut bytes: Vec<u8> = Vec::new();
        self.encode_into(&mut bytes);
        proof {
            assert(bytes@ =~= encode_row(self@));
            lemma_row_round_trip(self@);
        }
        bytes
    }

    /// Reads a row.
    pub fn decode(bytes: &[u8]) -> (r: Result<Row, FormatError>)
        ensures
            match r {
                Ok(row) => decode_row(bytes@) == Some(row@),
                Err(_) => decode_row(bytes@) is None,
            },
    {
        proof {
            reveal(decode_row);
        }
        let mut row = Row::default();
        let mut rest = bytes;
        while rest.len() > 0
            invariant
                decode_row(bytes@) == row_fields(rest@, row@),
            decreases rest@.len(),
        {
            let (tag, payload, next) = match read_field(rest) {
                Ok(found) => found,
                Err(e) => { return Err(e); },
            };
            proof {
                lemma_parse_field_bounds(rest@);
            }
            if tag == 1 {
                match payload {
                    Payload::Bytes(b) => match CellValue::decode(b) {
                        Ok(cell) => {
                            let ghost before = row@;
                            row.cells.push(cell);
                            assert(row@ =~= before.push(cell@));
                        },
                        Err(e) => { return Err(e); },
                    },
                    _ => { return Err(FormatError); },
                }
            }
            rest = next;
        }
        Ok(row)
    }
}

/// Reading the cells that were written adds them, in their order.
proof fn lemma_row_cells(cells: Seq<Option<ValueSpec>>, rest: Seq<u8>, acc: Seq<Option<ValueSpec>>)
    requires
        forall|i: int|
            0 <= i < cells.len() ==> cell_fits(#[trigger] cells[i]) && encode_cell(cells[i]).len()
                <= u64::MAX,
    ensures
        row_fields(repeated_field(1, encode_cells(cells)) + rest, acc) == row_fields(
            rest,
            acc + cells,
        ),
    decreases cells.len(),
{
    let items = encode_cells(cells);
    let s = repeated_field(1, items) + rest;
    if cells.len() == 0 {
        assert(s =~= rest);
        assert(acc + cells =~= acc);
    } else {
        let first = cells[0];
        let others = cells.drop_first();
        lemma_repeated_field_front(1, items);
        assert(items.drop_first() =~= encode_cells(others));
        let tail = repeated_field(1, encode_cells(others)) + rest;
        assert(s =~= bytes_field(1, items[0]) + tail);
        lemma_parse_bytes_field(1, items[0], tail);
        let n = bytes_field(1, items[0]).len() as int;
        assert(s.skip(n) =~= tail);
        lemma_cell_round_trip(first);
        let next = acc.push(first);
        assert forall|i: int| 0 <= i < others.len() implies cell_fits(#[trigger] others[i])
            && encode_cell(others[i]).len() <= u64::MAX by {
            assert(others[i] == cells[i + 1]);
        }
        lemma_row_cells(others, rest, next);
        assert(next + others =~= acc + cells);
    }
}

/// Decoding an encoded row gives it back.
pub proof fn lemma_row_round_trip(r: Seq<Option<ValueSpec>>)
    requires
        row_fits(r),
    ensures
        decode_row(encode_row(r)) == Some(r),
{
    reveal(encode_row);
    reveal(decode_row);
    reveal(row_fits);
    let body = repeated_field(1, encode_cells(r));
    assert(encode_row(r) =~= body + Seq::empty());
    lemma_row_cells(r, Seq::empty(), Seq::empty());
    assert(Seq::<Option<ValueSpec>>::empty() + r =~= r);
}


/// The stored contents of one table. `num_rows` is the number of rows when
/// the contents were last written.
#[derive(Clone, Debug, PartialEq)]
pub struct TableData {
    pub table_name: String,
    pub num_rows: u32,
    pub rows: Vec<Row>,
}

/// What a `TableData` stands for.
pub struct TableDataSpec {
    pub table_name: Seq<char>,
    pub num_rows: u32,
    pub rows: Seq<Seq<Option<ValueSpec>>>,
}

/// What a list of rows stands for.
pub open spec fn row_views(rows: Seq<Row>) -> Seq<Seq<Option<ValueSpec>>> {
    Seq::new(rows.len(), |i: int| rows[i]@)
}

impl View for TableData {
    type V = TableDataSpec;

    open spec fn view(&self) -> TableDataSpec {
        TableDataSpec {
            table_name: self.table_name@,
            num_rows: self.num_rows,
            rows: row_views(self.rows@),
        }
    }
}

/// The contents of a table without a name and without rows.
pub open spec fn empty_table_data() -> TableDataSpec {
    TableDataSpec { table_name: Seq::empty(), num_rows: 0, rows: Seq::empty() }
}

/// The encodings of `rows`, one by one.
pub open spec fn encode_rows(rows: Seq<Seq<Option<ValueSpec>>>) -> Seq<Seq<u8>> {
    Seq::new(rows.len(), |i: int| encode_row(rows[i]))
}

/// The bytes of a table's contents: the table's name under 1, the row count
/// under 2, each row under 3.
#[verifier::opaque]
pub open spec fn encode_table_data(d: TableDataSpec) -> Seq<u8> {
    string_field(1, d.table_name) + scalar_field(2, d.num_rows as u64) + repeated_field(
        3,
        encode_rows(d.rows),
    )
}

/// A table's contents after one more field.
pub open spec fn merge_table_data(acc: TableDataSpec, tag: u32, value: WireValue) -> Option<
    TableDataSpec,
> {
    if tag == 1 {
        match value {
            WireValue::Bytes(b) if valid_utf8(b) => Some(
                TableDataSpec { table_name: decode_utf8(b), ..acc },
            ),
            _ => None,
        }
    } else if tag == 2 {
        match value {
            WireValue::Varint(v) => Some(TableDataSpec { num_rows: v as u32, ..acc }),
            _ => None,
        }
    } else if tag == 3 {
        match value {
            WireValue::Bytes(b) => match decode_row(b) {
                Some(r) => Some(TableDataSpec { rows: acc.rows.push(r), ..acc }),
                None => None,
            },
            _ => None,
        }
    } else {
        Some(acc)
    }
}

/// The contents that `acc` becomes when the fields in `s` are read into it
/// one after the other.
pub open spec fn table_data_fields(s: Seq<u8>, acc: TableDataSpec) -> Option<TableDataSpec>
    decreases s.len(),
{
    if s.len() == 0 {
        Some(acc)
    } else {
        match parse_field(s) {
            Some((tag, value, n)) if 0 < n <= s.len() => match merge_table_data(acc, tag, value) {
                Some(next) => table_data_fields(s.skip(n), next),
                None => None,
            },
            _ => None,
        }
    }
}

/// The table contents that `s` encodes, if it encodes any.
#[verifier::opaque]
pub open spec fn decode_table_data(s: Seq<u8>) -> Option<TableDataSpec> {
    table_data_fields(s, empty_table_data())
}

/// Table contents whose name, rows and row encodings are each short enough
/// for a length prefix.
#[verifier::opaque]
pub open spec fn table_data_fits(d: TableDataSpec) -> bool {
    &&& encode_utf8(d.table_name).len() <= u64::MAX
    &&& forall|i: int|
        0 <= i < d.rows.len() ==> row_fits(#[trigger] d.rows[i]) && encode_row(d.rows[i]).len()
            <= u64::MAX
}

impl Default for TableData {
    fn default() -> (d: TableData)
        ensures
            d@ == empty_table_data(),
    {
        let d = TableData { table_name: String::new(), num_rows: 0, rows: Vec::new() };
        assert(d@.rows =~= Seq::empty());
        d
    }
}

impl TableData {
    /// Appends the encoding of the table contents to `buf`.
    pub fn encode_into(&self, buf: &mut Vec<u8>)
        ensures
            final(buf)@ == old(buf)@ + encode_table_data(self@),
            table_data_fits(self@),
    {
        proof {
            reveal(encode_table_data);
            reveal(table_data_fits);
        }
        put_string_field(buf, 1, self.table_name.as_str());
        put_scalar_field(buf, 2, self.num_rows as u64);
        let ghost base = buf@;
        let ghost rows = self@.rows;
        let mut i: usize = 0;
        assert(encode_rows(rows.take(0)) =~= Seq::empty());
        assert(buf@ =~= base + repeated_field(3, encode_rows(rows.take(0))));
        while i < self.rows.len()
            invariant
                i <= self.rows@.len(),
                rows == self@.rows,
                buf@ == base + repeated_field(3, encode_rows(rows.take(i as int))),
                forall|j: int|
                    0 <= j < i ==> row_fits(#[trigger] rows[j]) && encode_row(rows[j]).len()
                        <= u64::MAX,
            decreases self.rows@.len() - i,
        {
            let child = self.rows[i].encode();
            put_bytes_field(buf, 3, child.as_slice());
            proof {
                let done = encode_rows(rows.take(i as int));
                assert(encode_rows(rows.take(i + 1)) =~= done.push(child@));
                lemma_repeated_field_push(3, done, child@);
                assert(rows[i as int] == self.rows@[i as int]@);
                assert(child@.len() == child.len());
            }
            i += 1;
        }
        assert(rows.take(i as int) =~= rows);
        assert(buf@ =~= old(buf)@ + encode_table_data(self@));
    }

    /// The encoding of the table contents. Decoding it gives the contents
    /// again.
    pub fn encode(&self) -> (bytes: Vec<u8>)
        ensures
            bytes@ == encode_table_data(self@),
            table_data_fits(self@),
            decode_table_data(bytes@) == Some(self@),
    {
        let mut bytes: Vec<u8> = Vec::new();
        self.encode_into(&mut bytes);
        proof {
            assert(bytes@ =~= encode_table_data(self@));
            lemma_table_data_round_trip(self@);
        }
        bytes
    }

    /// Reads the contents of a table.
    pub fn decode(bytes: &[u8]) -> (r: Result<TableData, FormatError>)
        ensures
            match r {
                Ok(data) => decode_table_data(bytes@) == Some(data@),
                Err(_) => decode_table_data(bytes@) is None,
            },
    {
        proof {
            reveal(decode_table_data);
        }
        let mut data = TableData::default();
        let mut rest = bytes;
        while rest.len() > 0
            invariant
                decode_table_data(bytes@) == table_data_fields(rest@, data@),
            decreases rest@.len(),
        {
            let (tag, payload, next) = match read_field(rest) {
                Ok(found) => found,
                Err(e) => { return Err(e); },
            };
            proof {
                lemma_parse_field_bounds(rest@);
            }
            if tag == 1 {
                match payload {
                    Payload::Bytes(b) => match read_string(b) {
                        Ok(name) => { data.table_name = name; },
                        Err(e) => { return Err(e); },
                    },
                    _ => { return Err(FormatError); },
                }
            } else if tag == 2 {
                match payload {
                    Payload::Varint(v) => { data.num_rows = v as u32; },
                    _ => { return Err(FormatError); },
                }
            } else if tag == 3 {
                match payload {
                    Payload::Bytes(b) => match Row::decode(b) {
                        Ok(row) => {
                            let ghost before = data@.rows;
                            data.rows.push(row);
                            assert(data@.rows =~= before.push(row@));
                        },
                        Err(e) => { return Err(e); },
                    },
                    _ => { return Err(FormatError); },
                }
            }
            rest = next;
        }
        Ok(data)
    }
}

/// Reading the name that was written into nameless contents sets it.
proof fn lemma_table_data_name(name: Seq<char>, rest: Seq<u8>, acc: TableDataSpec)
    requires
        encode_utf8(name).len() <= u64::MAX,
        acc.table_name.len() == 0,
    ensures
        table_data_fields(string_field(1, name) + rest, acc) == table_data_fields(
            rest,
            TableDataSpec { table_name: name, ..acc },
        ),
{
    let s = string_field(1, name) + rest;
    if name.len() == 0 {
        assert(s =~= rest);
        assert(acc.table_name =~= name);
    } else {
        let b = encode_utf8(name);
        lemma_parse_bytes_field(1, b, rest);
        let n = bytes_field(1, b).len() as int;
        assert(s.skip(n) =~= rest);
    }
}

/// Reading the row count that was written over a count of zero sets it.
proof fn lemma_table_data_count(count: u32, rest: Seq<u8>, acc: TableDataSpec)
    requires
        acc.num_rows == 0,
    ensures
        table_data_fields(scalar_field(2, count as u64) + rest, acc) == table_data_fields(
            rest,
            TableDataSpec { num_rows: count, ..acc },
        ),
{
    let v = count as u64;
    let s = scalar_field(2, v) + rest;
    if v == 0 {
        assert(s =~= rest);
    } else {
        lemma_parse_varint_field(2, v, rest);
        let n = varint_field(2, v).len() as int;
        assert(s.skip(n) =~= rest);
        assert((count as u64) as u32 == count) by (bit_vector);
    }
}

/// Reading the rows that were written adds them, in their order.
proof fn lemma_table_data_rows(
    rows: Seq<Seq<Option<ValueSpec>>>,
    rest: Seq<u8>,
    acc: TableDataSpec,
)
    requires
        forall|i: int|
            0 <= i < rows.len() ==> row_fits(#[trigger] rows[i]) && encode_row(rows[i]).len()
                <= u64::MAX,
    ensures
        table_data_fields(repeated_field(3, encode_rows(rows)) + rest, acc) == table_data_fields(
            rest,
            TableDataSpec { rows: acc.rows + rows, ..acc },
        ),
    decreases rows.len(),
{
    let items = encode_rows(rows);
    let s = repeated_field(3, items) + rest;
    if rows.len() == 0 {
        assert(s =~= rest);
        assert(acc.rows + rows =~= acc.rows);
    } else {
        let first = rows[0];
        let others = rows.drop_first();
        lemma_repeated_field_front(3, items);
        assert(items.drop_first() =~= encode_rows(others));
        let tail = repeated_field(3, encode_rows(others)) + rest;
        assert(s =~= bytes_field(3, items[0]) + tail);
        lemma_parse_bytes_field(3, items[0], tail);
        let n = bytes_field(3, items[0]).len() as int;
        assert(s.skip(n) =~= tail);
        lemma_row_round_trip(first);
        let next = TableDataSpec { rows: acc.rows.push(first), ..acc };
        assert forall|i: int| 0 <= i < others.len() implies row_fits(#[trigger] others[i])
            && encode_row(others[i]).len() <= u64::MAX by {
            assert(others[i] == rows[i + 1]);
        }
        lemma_table_data_rows(others, rest, next);
        assert(next.rows + others =~= acc.rows + rows);
    }
}

/// Decoding encoded table contents gives them back.
pub proof fn lemma_table_data_round_trip(d: TableDataSpec)
    requires
        table_data_fits(d),
    ensures
        decode_table_data(encode_table_data(d)) == Some(d),
{
    reveal(encode_table_data);
    reveal(decode_table_data);
    reveal(table_data_fits);
    let a0 = empty_table_data();
    let a1 = TableDataSpec { table_name: d.table_name, ..a0 };
    let a2 = TableDataSpec { num_rows: d.num_rows, ..a1 };
    let f2 = scalar_field(2, d.num_rows as u64);
    let body = repeated_field(3, encode_rows(d.rows));
    assert(encode_table_data(d) =~= string_field(1, d.table_name) + (f2 + (body + Seq::empty())));
    lemma_table_data_name(d.table_name, f2 + (body + Seq::empty()), a0);
    lemma_table_data_count(d.num_rows, body + Seq::empty(), a1);
    lemma_table_data_rows(d.rows, Seq::empty(), a2);
    assert(a2.rows + d.rows =~= d.rows);
}

} // verus!
