//! A table as a name and a list of columns.

use crate::column_definition::Column;
use vstd::prelude::*;

verus! {

/// A table: its name and its columns in their order.
#[derive(Debug, Clone, PartialEq)]
pub struct Table {
    pub name: String,
    pub columns: Vec<Column>,
}

impl Table {
    /// A table with the given name and columns.
    pub fn new(name: &str, columns: Vec<Column>) -> (table: Self)
        ensures
            table.name@ == name@,
            table.columns == columns,
    {
        Table { name: name.to_owned(), columns }
    }

    /// Adds a column behind the ones that the table has.
    pub fn add_column(&mut self, column: Column)
        ensures
            final(self).name == old(self).name,
            final(self).columns@ == old(self).columns@.push(column),
    {
        self.columns.push(column);
    }
}

} // verus!
