use vstd::prelude::*;
use vstd::string::StringExecFns;
pub use crate::basic::column::Column;
use crate::basic::select::Select;
use crate::column_map::{ColumnMap, columns_view};

verus! {

/// A table: its name and its columns.
pub trait Table {
    /// The table's name.
    fn table_name() -> &'static str;

    /// The table's columns.
    fn columns() -> Vec<Column>;
}

/// The queries of a table.
pub trait Queries {
    /// The `SELECT` of every column of the table.
    fn select_all() -> Select;
}

/// `s` selects, from the one table, its columns: a name and columns that
/// the table's methods can return. Its text is then
/// `SELECT <table>.<column>, ... FROM <table>;`.
pub open spec fn selects_whole_table<T: Table>(s: Select) -> bool {
    exists|table_name: &'static str, columns: Vec<Column>|
        #![trigger call_ensures(T::table_name, (), table_name), call_ensures(T::columns, (), columns)]
        {
            &&& call_ensures(T::table_name, (), table_name)
            &&& call_ensures(T::columns, (), columns)
            &&& s.columns_view() == seq![(table_name@, columns_view(columns@))]
            &&& s.tables_view() == seq![table_name@]
        }
}

impl<T: Table> Queries for T {
    fn select_all() -> (s: Select)
        ensures
            selects_whole_table::<T>(s),
    {
        let table_name = Self::table_name();
        let columns = Self::columns();
        let ghost (t, c) = (table_name, columns);
        let mut m: ColumnMap<Column> = ColumnMap::new();
        m.insert(table_name, columns);
        let mut tables: Vec<String> = Vec::new();
        tables.push(String::from_str(table_name));
        let s = Select::new(m, tables);
        assert(s.tables_view() =~= seq![t@]);
        assert(s.columns_view() =~= seq![(t@, columns_view(c@))]);
        assert(call_ensures(T::table_name, (), t) && call_ensures(T::columns, (), c));
        s
    }
}

} // verus!
