//! Columns as a table descriptor lists them.

use vstd::prelude::*;

verus! {

/// The type of a column; the character types carry their length.
#[derive(Debug, Clone, Copy, PartialEq, Eq, Structural)]
pub enum ColumnType {
    Int,
    Varchar(usize),
    Char(usize),
}

/// A column: its name, its type, and whether it refuses nulls.
#[derive(Debug, Clone, PartialEq)]
pub struct Column {
    pub name: String,
    pub col_type: ColumnType,
    pub not_null: bool,
}

impl Column {
    /// A column with the given name and type.
    pub fn new(name: &str, col_type: ColumnType, not_null: bool) -> (column: Self)
        ensures
            column.name@ == name@,
            column.col_type == col_type,
            column.not_null == not_null,
    {
        Column { name: name.to_owned(), col_type, not_null }
    }
}

} // verus!
