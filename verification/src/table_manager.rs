//! Table descriptors and the list that holds them, one for each table name.

use crate::column_definition::Column;
use crate::text::same_text;
use vstd::prelude::*;
use vstd::utf8::encode_utf8;

verus! {

/// The number of bytes that a column takes in a descriptor.
pub const COLUMN_ENTRY_SIZE: usize = 36;

/// The number of bytes that a descriptor takes besides its name and its
/// columns: four numbers of four bytes each.
pub const ENTRY_HEADER_SIZE: usize = 16;

/// The size in bytes of the descriptor of a table called `name` that has
/// `columns` columns.
pub open spec fn entry_size(name: Seq<char>, columns: nat) -> int {
    ENTRY_HEADER_SIZE + encode_utf8(name).len() + columns * COLUMN_ENTRY_SIZE
}

/// The descriptor of a table.
#[derive(Debug, Clone, PartialEq)]
pub struct TpdEntry {
    pub tpd_size: usize,
    pub table_name: String,
    pub num_columns: usize,
    pub columns: Vec<Column>,
    pub tpd_flags: u32,
}

impl TpdEntry {
    /// The descriptor of the table `table_name` with the given columns and
    /// no flags set. Its size must fit a `usize`.
    pub fn new(table_name: &str, columns: Vec<Column>) -> (entry: Self)
        requires
            entry_size(table_name@, columns@.len()) <= usize::MAX,
        ensures
            entry.tpd_size == entry_size(table_name@, columns@.len()),
            entry.table_name@ == table_name@,
            entry.num_columns == columns@.len(),
            entry.columns == columns,
            entry.tpd_flags == 0,
    {
        let name_len = table_name.as_bytes().len();
        let tpd_size = ENTRY_HEADER_SIZE + name_len + columns.len() * COLUMN_ENTRY_SIZE;
        TpdEntry {
            tpd_size,
            table_name: table_name.to_owned(),
            num_columns: columns.len(),
            columns,
            tpd_flags: 0,
        }
    }
}

/// The descriptors of all tables. No two of them have the same table name;
/// they stand in the order in which they were added.
#[derive(Debug, Clone, PartialEq)]
pub struct TpdList {
    pub list_size: usize,
    pub num_tables: usize,
    pub tpd_entries: Vec<TpdEntry>,
}

/// Whether `i` is the index of the first descriptor for table `name`.
pub open spec fn is_entry_of(entries: Seq<TpdEntry>, name: Seq<char>, i: int) -> bool {
    &&& 0 <= i < entries.len()
    &&& entries[i].table_name@ == name
    &&& forall|j: int| 0 <= j < i ==> (#[trigger] entries[j]).table_name@ != name
}

/// Whether there is a descriptor for table `name`.
pub open spec fn has_entry(entries: Seq<TpdEntry>, name: Seq<char>) -> bool {
    exists|i: int| 0 <= i < entries.len() && (#[trigger] entries[i]).table_name@ == name
}

impl TpdList {
    /// Whether the list is as it has to be: `num_tables` counts the
    /// descriptors, and no table name comes twice.
    pub open spec fn wf(&self) -> bool {
        &&& self.num_tables == self.tpd_entries@.len()
        &&& forall|i: int, j: int|
            0 <= i < j < self.tpd_entries@.len() ==> (#[trigger] self.tpd_entries@[i]).table_name@ != (
            #[trigger] self.tpd_entries@[j]).table_name@
    }

    /// The empty list.
    pub fn new() -> (list: Self)
        ensures
            list.wf(),
            list.list_size == 0,
            list.num_tables == 0,
            list.tpd_entries@.len() == 0,
    {
        TpdList { list_size: 0, num_tables: 0, tpd_entries: Vec::new() }
    }

    /// The index of the first descriptor for table `name`, or the number of
    /// descriptors where there is none.
    fn find(&self, name: &str) -> (i: usize)
        ensures
            i <= self.tpd_entries@.len(),
            i < self.tpd_entries@.len() ==> is_entry_of(self.tpd_entries@, name@, i as int),
            i == self.tpd_entries@.len() ==> !has_entry(self.tpd_entries@, name@),
    {
        let mut i: usize = 0;
        while i < self.tpd_entries.len()
            invariant
                i <= self.tpd_entries@.len(),
                forall|j: int| 0 <= j < i ==> (#[trigger] self.tpd_entries@[j]).table_name@ != name@,
            ensures
                i <= self.tpd_entries@.len(),
                forall|j: int| 0 <= j < i ==> (#[trigger] self.tpd_entries@[j]).table_name@ != name@,
                i < self.tpd_entries@.len() ==> self.tpd_entries@[i as int].table_name@ == name@,
            decreases self.tpd_entries@.len() - i,
        {
            if same_text(self.tpd_entries[i].table_name.as_str(), name) {
                break ;
            }
            i += 1;
        }
        i
    }

    /// Adds a descriptor at the end of the list and its size to the size of
    /// the list. Where the list has a descriptor for that table, it stays as
    /// it is. Where the descriptor is added, the size of the list must stay
    /// within a `usize`.
    pub fn add_tpd_entry(&mut self, entry: TpdEntry) -> (r: Result<(), String>)
        requires
            old(self).wf(),
            !has_entry(old(self).tpd_entries@, entry.table_name@) ==> old(self).list_size
                + entry.tpd_size <= usize::MAX,
        ensures
            final(self).wf(),
            match r {
                Ok(_) => !has_entry(old(self).tpd_entries@, entry.table_name@)
                    && final(self).tpd_entries@ == old(self).tpd_entries@.push(entry)
                    && final(self).list_size == old(self).list_size + entry.tpd_size,
                Err(message) => has_entry(old(self).tpd_entries@, entry.table_name@) && message@
                    == "Duplicate table name"@ && *final(self) == *old(self),
            },
    {
        if self.find(entry.table_name.as_str()) < self.tpd_entries.len() {
            return Err("Duplicate table name".to_owned());
        }
        self.list_size += entry.tpd_size;
        self.tpd_entries.push(entry);
        self.num_tables = self.tpd_entries.len();
        Ok(())
    }

    /// Takes the descriptor for table `table_name` out of the list. The size
    /// of the list stays what it was.
    pub fn drop_tpd_entry(&mut self, table_name: &str) -> (r: Result<(), String>)
        requires
            old(self).wf(),
        ensures
            final(self).wf(),
            final(self).list_size == old(self).list_size,
            match r {
                Ok(_) => exists|i: int|
                    is_entry_of(old(self).tpd_entries@, table_name@, i) && final(self).tpd_entries@
                        == old(self).tpd_entries@.remove(i),
                Err(message) => !has_entry(old(self).tpd_entries@, table_name@) && message@
                    == "Table does not exist"@ && *final(self) == *old(self),
            },
    {
        let index = self.find(table_name);
        if index == self.tpd_entries.len() {
            return Err("Table does not exist".to_owned());
        }
        self.tpd_entries.remove(index);
        self.num_tables -= 1;
        assert(is_entry_of(old(self).tpd_entries@, table_name@, index as int));
        Ok(())
    }

    /// The descriptor for table `table_name`, if the list has one.
    pub fn get_tpd_entry(&self, table_name: &str) -> (r: Option<&TpdEntry>)
        ensures
            match r {
                Some(entry) => exists|i: int|
                    is_entry_of(self.tpd_entries@, table_name@, i) && *entry == self.tpd_entries@[i],
                None => !has_entry(self.tpd_entries@, table_name@),
            },
    {
        let index = self.find(table_name);
        if index < self.tpd_entries.len() {
            Some(&self.tpd_entries[index])
        } else {
            None
        }
    }
}

} // verus!
