//! Commands carried out on a list of table descriptors.

use crate::column_definition::Column;
use crate::table_manager::{entry_size, has_entry, is_entry_of, TpdEntry, TpdList};
use crate::text::join_text;
use vstd::prelude::*;

verus! {

/// Carries out commands on a list of table descriptors that it borrows.
pub struct SemanticProcessor<'a> {
    pub tpd_list: &'a mut TpdList,
}

/// The lines that list the tables named `names`.
pub open spec fn listing_of(names: Seq<Seq<char>>) -> Seq<Seq<char>> {
    if names.len() == 0 {
        seq!["No tables defined."@]
    } else {
        names
    }
}

/// The names of the tables that `entries` describe, in their order.
pub open spec fn entry_names(entries: Seq<TpdEntry>) -> Seq<Seq<char>> {
    Seq::new(entries.len(), |i: int| entries[i].table_name@)
}

impl<'a> SemanticProcessor<'a> {
    /// The list as the processor has it.
    pub open spec fn list(&self) -> TpdList {
        *self.tpd_list
    }

    /// A processor that works on `tpd_list`.
    pub fn new(tpd_list: &'a mut TpdList) -> (processor: Self)
        ensures
            processor.list() == *old(tpd_list),
            *final(tpd_list) == *final(processor.tpd_list),
    {
        SemanticProcessor { tpd_list }
    }

    /// Adds the descriptor of a new table to the list. Where the list has a
    /// table of that name, it stays as it is. Where the descriptor is added,
    /// the size of the list must stay within a `usize`.
    pub fn process_create_table(&mut self, table_name: &str, columns: Vec<Column>) -> (r: Result<
        (),
        String,
    >)
        requires
            old(self).list().wf(),
            !has_entry(old(self).list().tpd_entries@, table_name@) ==> old(self).list().list_size
                + entry_size(table_name@, columns@.len()) <= usize::MAX,
        ensures
            final(self).list().wf(),
            match r {
                Ok(_) => !has_entry(old(self).list().tpd_entries@, table_name@) && final(self).list().tpd_entries@.len()
                    == old(self).list().tpd_entries@.len() + 1 && final(self).list().tpd_entries@.drop_last()
                    == old(self).list().tpd_entries@ && ({
                    let entry = final(self).list().tpd_entries@.last();
                    &&& entry.table_name@ == table_name@
                    &&& entry.columns == columns
                    &&& entry.num_columns == columns@.len()
                    &&& entry.tpd_flags == 0
                    &&& entry.tpd_size == entry_size(table_name@, columns@.len())
                }) && final(self).list().list_size == old(self).list().list_size + entry_size(
                    table_name@,
                    columns@.len(),
                ),
                Err(message) => has_entry(old(self).list().tpd_entries@, table_name@) && message@
                    == "Duplicate table name"@ && final(self).list() == old(self).list(),
            },
    {
        if self.tpd_list.get_tpd_entry(table_name).is_some() {
            return Err("Duplicate table name".to_owned());
        }
        let entry = TpdEntry::new(table_name, columns);
        let r = self.tpd_list.add_tpd_entry(entry);
        proof {
            if r is Ok {
                assert(self.list().tpd_entries@.drop_last() =~= old(self).list().tpd_entries@);
            }
        }
        r
    }

    /// Takes the descriptor of table `table_name` out of the list.
    pub fn process_drop_table(&mut self, table_name: &str) -> (r: Result<(), String>)
        requires
            old(self).list().wf(),
        ensures
            final(self).list().wf(),
            final(self).list().list_size == old(self).list().list_size,
            match r {
                Ok(_) => exists|i: int|
                    is_entry_of(old(self).list().tpd_entries@, table_name@, i) && final(self).list().tpd_entries@
                        == old(self).list().tpd_entries@.remove(i),
                Err(message) => !has_entry(old(self).list().tpd_entries@, table_name@) && message@
                    == "Table does not exist"@ && final(self).list() == old(self).list(),
            },
    {
        self.tpd_list.drop_tpd_entry(table_name)
    }

    /// The lines that list the tables: their names, or one line that says
    /// that there are none.
    pub fn process_list_tables(&self) -> (lines: Vec<String>)
        requires
            self.list().wf(),
        ensures
            crate::command_parser::text_views(lines@) == listing_of(
                entry_names(self.list().tpd_entries@),
            ),
    {
        let mut lines: Vec<String> = Vec::new();
        if self.tpd_list.num_tables == 0 {
            lines.push("No tables defined.".to_owned());
            assert(crate::command_parser::text_views(lines@) =~= seq!["No tables defined."@]);
            return lines;
        }
        let mut i: usize = 0;
        let ghost names = entry_names(self.tpd_list.tpd_entries@);
        while i < self.tpd_list.tpd_entries.len()
            invariant
                i <= self.tpd_list.tpd_entries@.len(),
                names == entry_names(self.tpd_list.tpd_entries@),
                crate::command_parser::text_views(lines@) == names.take(i as int),
            decreases self.tpd_list.tpd_entries@.len() - i,
        {
            let name = self.tpd_list.tpd_entries[i].table_name.clone();
            let ghost before = crate::command_parser::text_views(lines@);
            lines.push(name);
            proof {
                assert(crate::command_parser::text_views(lines@) =~= before.push(name@));
                assert(names.take(i + 1) =~= before.push(name@));
            }
            i += 1;
        }
        assert(names.take(i as int) =~= names);
        lines
    }

    /// The descriptor of table `table_name`, whose columns make up its
    /// schema; or the line that says that there is no such table.
    pub fn process_list_schema(&self, table_name: &str) -> (r: Result<&TpdEntry, String>)
        ensures
            match r {
                Ok(entry) => exists|i: int|
                    is_entry_of(self.list().tpd_entries@, table_name@, i) && *entry
                        == self.list().tpd_entries@[i],
                Err(message) => !has_entry(self.list().tpd_entries@, table_name@) && message@
                    == "Table '"@ + table_name@ + "' does not exist."@,
            },
    {
        match self.tpd_list.get_tpd_entry(table_name) {
            Some(entry) => {
                proof {
                    let entries = self.list().tpd_entries@;
                    let i = choose|i: int|
                        is_entry_of(entries, table_name@, i) && *entry == entries[i];
                    assert(is_entry_of(entries, table_name@, i) && *entry == entries[i]);
                }
                Ok(entry)
            },
            None => {
                let text = join_text("Table '", table_name);
                Err(join_text(text.as_str(), "' does not exist."))
            },
        }
    }
}

} // verus!
