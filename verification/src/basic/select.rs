use vstd::prelude::*;
use vstd::string::StringExecFns;
use crate::basic::column::Column;
use crate::column_map::{ColumnMap, columns_view, keys_distinct};
use crate::text::{join, join_strings};

verus! {

/// `<table>.<column>`.
pub open spec fn basic_item(table: Seq<char>, column: Seq<char>) -> Seq<char> {
    table + "."@ + column
}

/// The selected items of every table, table after table.
pub open spec fn basic_items(columns: Seq<(Seq<char>, Seq<Seq<char>>)>) -> Seq<Seq<char>> {
    columns.map_values(
        |e: (Seq<char>, Seq<Seq<char>>)| e.1.map_values(|c: Seq<char>| basic_item(e.0, c)),
    ).flatten()
}

/// The text of the statement: `SELECT <items> FROM <tables>;`.
pub open spec fn basic_select_text(columns: Seq<(Seq<char>, Seq<Seq<char>>)>, tables_join: Seq<Seq<char>>) -> Seq<char> {
    "SELECT "@ + join(basic_items(columns), ", "@) + " FROM "@ + join(tables_join, " "@) + ";"@
}

/// A `SELECT` of the given columns from the joined tables.
pub struct Select {
    columns: ColumnMap<Column>,
    tables_join: Vec<String>,
}

impl Select {
    /// The selected columns, by table.
    pub closed spec fn columns_view(&self) -> Seq<(Seq<char>, Seq<Seq<char>>)> {
        self.columns@
    }

    /// The joined tables.
    pub closed spec fn tables_view(&self) -> Seq<Seq<char>> {
        self.tables_join@.map_values(|s: String| s@)
    }

    /// A statement selecting `columns` from the tables of `tables_join`.
    pub fn new(columns: ColumnMap<Column>, tables_join: Vec<String>) -> (s: Self)
        ensures
            s.columns_view() == columns@,
            s.tables_view() == tables_join@.map_values(|s: String| s@),
            keys_distinct(s.columns_view()),
    {
        // Asking for the length brings in that the keys are distinct.
        let _entries = columns.len();
        Self { columns, tables_join }
    }

    /// The text of the statement.
    pub fn to_string(&self) -> (r: String)
        ensures
            r@ == basic_select_text(self.columns_view(), self.tables_view()),
    {
        let cols = &self.columns;
        let ghost cv = cols@;
        let ghost per_table = cv.map_values(
            |e: (Seq<char>, Seq<Seq<char>>)| e.1.map_values(|c: Seq<char>| basic_item(e.0, c)),
        );
        let n = cols.len();
        let mut items: Vec<String> = Vec::new();
        let mut i: usize = 0;
        while i < n
            invariant
                n == cv.len(),
                cv == cols@,
                per_table == cv.map_values(
                    |e: (Seq<char>, Seq<Seq<char>>)| e.1.map_values(|c: Seq<char>| basic_item(e.0, c)),
                ),
                i <= n,
                items@.map_values(|s: String| s@) == per_table.take(i as int).flatten(),
            decreases n - i,
        {
            let table = cols.key(i);
            let columns = cols.columns(i);
            let m = columns.len();
            let ghost items_i = per_table[i as int];
            let ghost start = items@.map_values(|s: String| s@);
            let mut j: usize = 0;
            while j < m
                invariant
                    m == columns@.len(),
                    columns_view(columns@) == cv[i as int].1,
                    table@ == cv[i as int].0,
                    items_i == cv[i as int].1.map_values(|c: Seq<char>| basic_item(cv[i as int].0, c)),
                    j <= m,
                    items@.map_values(|s: String| s@) == start + items_i.take(j as int),
                decreases m - j,
            {
                let mut item = String::from_str(table);
                item.append(".");
                item.append(columns[j].name());
                let ghost before = items@;
                items.push(item);
                proof {
                    assert(columns_view(columns@)[j as int] == columns@[j as int]@);
                    assert(items@.map_values(|s: String| s@) =~= before.map_values(|s: String| s@).push(item@));
                    assert(items_i.take(j + 1) =~= items_i.take(j as int).push(items_i[j as int]));
                    assert(start + items_i.take(j + 1) =~= (start + items_i.take(j as int)).push(items_i[j as int]));
                }
                j = j + 1;
            }
            proof {
                assert(items_i.take(m as int) =~= items_i);
                assert(per_table.take(i + 1) =~= per_table.take(i as int).push(per_table[i as int]));
                per_table.take(i as int).lemma_flatten_push(per_table[i as int]);
            }
            i = i + 1;
        }
        proof {
            assert(per_table.take(n as int) =~= per_table);
        }
        let mut out = String::from_str("SELECT ");
        out.append(join_strings(&items, ", ").as_str());
        out.append(" FROM ");
        out.append(join_strings(&self.tables_join, " ").as_str());
        out.append(";");
        assert(out@ =~= basic_select_text(self.columns_view(), self.tables_view()));
        out
    }
}

} // verus!
