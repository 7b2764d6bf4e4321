//! A `SELECT` statement over a table and the tables it joins.
use vstd::prelude::*;
use vstd::string::StringExecFns;
use crate::column::{Column, ColumnView};
use crate::column_map::{ColumnMap, columns_view, keys_distinct};
use crate::text::{append_decimal, decimal, join, join_strings};

verus! {

/// What a `SELECT` statement holds, as plain values.
pub struct SelectView {
    pub columns: Seq<(Seq<char>, Seq<ColumnView>)>,
    pub tables_join: Seq<Seq<char>>,
    pub wheres: Option<Seq<char>>,
    pub orderbys: Option<Seq<char>>,
    pub limit: Option<usize>,
    pub offset: Option<usize>,
}

/// The view of an optional text.
pub open spec fn option_view(o: Option<String>) -> Option<Seq<char>> {
    match o {
        Some(s) => Some(s@),
        None => None,
    }
}

/// `<table>.<column> AS <table>_<column>`.
pub open spec fn column_item(table: Seq<char>, column: Seq<char>) -> Seq<char> {
    table + "."@ + column + " AS "@ + column_alias(table, column)
}

/// The name a query gives a column of a table: `<table>_<column>`.
pub open spec fn column_alias(table: Seq<char>, column: Seq<char>) -> Seq<char> {
    table + "_"@ + column
}

/// The selected items for one table.
pub open spec fn table_items(entry: (Seq<char>, Seq<ColumnView>)) -> Seq<Seq<char>> {
    entry.1.map_values(|c: ColumnView| column_item(entry.0, c.name))
}

/// The selected items of every table, table after table.
pub open spec fn select_items(columns: Seq<(Seq<char>, Seq<ColumnView>)>) -> Seq<Seq<char>> {
    columns.map_values(|e: (Seq<char>, Seq<ColumnView>)| table_items(e)).flatten()
}

/// `keyword` followed by the value, or nothing.
pub open spec fn optional_clause(keyword: Seq<char>, value: Option<Seq<char>>) -> Seq<char> {
    match value {
        Some(v) => keyword + v,
        None => seq![],
    }
}

/// The decimal notation of an optional number.
pub open spec fn optional_decimal(value: Option<usize>) -> Option<Seq<char>> {
    match value {
        Some(n) => Some(decimal(n as nat)),
        None => None,
    }
}

/// The text of the statement.
pub open spec fn select_text(v: SelectView) -> Seq<char> {
    "SELECT "@ + join(select_items(v.columns), ", "@) + " FROM "@ + join(v.tables_join, " "@)
        + optional_clause(" WHERE "@, v.wheres) + optional_clause(" ORDER BY "@, v.orderbys)
        + optional_clause(" LIMIT "@, optional_decimal(v.limit)) + optional_clause(
        " OFFSET "@,
        optional_decimal(v.offset),
    ) + ";"@
}

/// The statement with `WHERE` set to `w`.
pub open spec fn with_wheres(v: SelectView, w: Seq<char>) -> SelectView {
    SelectView { wheres: Some(w), ..v }
}

/// The statement with `ORDER BY` set to `o`.
pub open spec fn with_orderbys(v: SelectView, o: Seq<char>) -> SelectView {
    SelectView { orderbys: Some(o), ..v }
}

/// The statement with `LIMIT` set to `l`.
pub open spec fn with_limit(v: SelectView, l: usize) -> SelectView {
    SelectView { limit: Some(l), ..v }
}

/// The statement with `OFFSET` set to `o`.
pub open spec fn with_offset(v: SelectView, o: usize) -> SelectView {
    SelectView { offset: Some(o), ..v }
}

/// Setting a clause again replaces it: only the last value counts.
pub proof fn law_last_setting_counts(v: SelectView, a: Seq<char>, b: Seq<char>, m: usize, n: usize)
    ensures
        with_wheres(with_wheres(v, a), b) == with_wheres(v, b),
        with_orderbys(with_orderbys(v, a), b) == with_orderbys(v, b),
        with_limit(with_limit(v, m), n) == with_limit(v, n),
        with_offset(with_offset(v, m), n) == with_offset(v, n),
{
}

/// Setting two different clauses gives the same statement in either order,
/// and leaves the columns and the joined tables as they were.
pub proof fn law_settings_commute(v: SelectView, w: Seq<char>, o: Seq<char>, l: usize, f: usize)
    ensures
        with_limit(with_wheres(v, w), l) == with_wheres(with_limit(v, l), w),
        with_offset(with_wheres(v, w), f) == with_wheres(with_offset(v, f), w),
        with_orderbys(with_wheres(v, w), o) == with_wheres(with_orderbys(v, o), w),
        with_limit(with_orderbys(v, o), l) == with_orderbys(with_limit(v, l), o),
        with_offset(with_orderbys(v, o), f) == with_orderbys(with_offset(v, f), o),
        with_offset(with_limit(v, l), f) == with_limit(with_offset(v, f), l),
        with_offset(with_limit(with_orderbys(with_wheres(v, w), o), l), f).columns == v.columns,
        with_offset(with_limit(with_orderbys(with_wheres(v, w), o), l), f).tables_join
            == v.tables_join,
{
}

/// A statement without clauses reads `SELECT <items> FROM <tables>;`, and
/// each clause, once set, stands in its place in the text.
pub proof fn law_select_text(v: SelectView, w: Seq<char>, o: Seq<char>, l: usize, f: usize)
    requires
        v.wheres is None,
        v.orderbys is None,
        v.limit is None,
        v.offset is None,
    ensures
        select_text(v) == "SELECT "@ + join(select_items(v.columns), ", "@) + " FROM "@ + join(
            v.tables_join,
            " "@,
        ) + ";"@,
        select_text(with_offset(with_limit(with_orderbys(with_wheres(v, w), o), l), f)) == "SELECT "@
            + join(select_items(v.columns), ", "@) + " FROM "@ + join(v.tables_join, " "@)
            + " WHERE "@ + w + " ORDER BY "@ + o + " LIMIT "@ + decimal(l as nat) + " OFFSET "@
            + decimal(f as nat) + ";"@,
{
    assert(select_text(v) =~= "SELECT "@ + join(select_items(v.columns), ", "@) + " FROM "@ + join(
        v.tables_join,
        " "@,
    ) + ";"@);
    let full = with_offset(with_limit(with_orderbys(with_wheres(v, w), o), l), f);
    assert(select_text(full) =~= "SELECT "@ + join(select_items(v.columns), ", "@) + " FROM "@
        + join(v.tables_join, " "@) + " WHERE "@ + w + " ORDER BY "@ + o + " LIMIT "@ + decimal(
        l as nat,
    ) + " OFFSET "@ + decimal(f as nat) + ";"@);
}

/// Each clause stands in the text exactly when it is set, with the value it
/// holds, whatever the other clauses hold: `WHERE`, `ORDER BY`, `LIMIT` and
/// `OFFSET` each in its place, any of them possibly absent.
pub proof fn law_clauses_independent(
    v: SelectView,
    w: Option<Seq<char>>,
    o: Option<Seq<char>>,
    l: Option<usize>,
    f: Option<usize>,
)
    ensures
        select_text(SelectView { wheres: w, orderbys: o, limit: l, offset: f, ..v }) == "SELECT "@
            + join(select_items(v.columns), ", "@) + " FROM "@ + join(v.tables_join, " "@) + (if w
            is Some {
            " WHERE "@ + w->0
        } else {
            Seq::<char>::empty()
        }) + (if o is Some {
            " ORDER BY "@ + o->0
        } else {
            Seq::<char>::empty()
        }) + (if l is Some {
            " LIMIT "@ + decimal(l->0 as nat)
        } else {
            Seq::<char>::empty()
        }) + (if f is Some {
            " OFFSET "@ + decimal(f->0 as nat)
        } else {
            Seq::<char>::empty()
        }) + ";"@,
{
}

/// Setting one clause alone on a statement without clauses puts exactly
/// that clause between the tables and the closing `;`.
pub proof fn law_single_clause(v: SelectView, w: Seq<char>, o: Seq<char>, l: usize, f: usize)
    requires
        v.wheres is None,
        v.orderbys is None,
        v.limit is None,
        v.offset is None,
    ensures
        ({
            let head = "SELECT "@ + join(select_items(v.columns), ", "@) + " FROM "@ + join(
                v.tables_join,
                " "@,
            );
            &&& select_text(with_wheres(v, w)) == head + " WHERE "@ + w + ";"@
            &&& select_text(with_orderbys(v, o)) == head + " ORDER BY "@ + o + ";"@
            &&& select_text(with_limit(v, l)) == head + " LIMIT "@ + decimal(l as nat) + ";"@
            &&& select_text(with_offset(v, f)) == head + " OFFSET "@ + decimal(f as nat) + ";"@
        }),
{
    let head = "SELECT "@ + join(select_items(v.columns), ", "@) + " FROM "@ + join(
        v.tables_join,
        " "@,
    );
    assert(select_text(with_wheres(v, w)) =~= head + " WHERE "@ + w + ";"@);
    assert(select_text(with_orderbys(v, o)) =~= head + " ORDER BY "@ + o + ";"@);
    assert(select_text(with_limit(v, l)) =~= head + " LIMIT "@ + decimal(l as nat) + ";"@);
    assert(select_text(with_offset(v, f)) =~= head + " OFFSET "@ + decimal(f as nat) + ";"@);
}

/// A call of one of the clause setters, with its argument.
pub enum ClauseSetting {
    Wheres(Seq<char>),
    Orderbys(Seq<char>),
    Limit(usize),
    Offset(usize),
}

/// The statement after one setter call.
pub open spec fn apply_setting(v: SelectView, s: ClauseSetting) -> SelectView {
    match s {
        ClauseSetting::Wheres(w) => with_wheres(v, w),
        ClauseSetting::Orderbys(o) => with_orderbys(v, o),
        ClauseSetting::Limit(l) => with_limit(v, l),
        ClauseSetting::Offset(o) => with_offset(v, o),
    }
}

/// The statement after the setter calls `ss`, in order.
pub open spec fn apply_settings(v: SelectView, ss: Seq<ClauseSetting>) -> SelectView
    decreases ss.len(),
{
    if ss.len() == 0 {
        v
    } else {
        apply_setting(apply_settings(v, ss.drop_last()), ss.last())
    }
}

/// The last `WHERE` set among `ss`, else `dflt`.
pub open spec fn last_wheres(ss: Seq<ClauseSetting>, dflt: Option<Seq<char>>) -> Option<Seq<char>>
    decreases ss.len(),
{
    if ss.len() == 0 {
        dflt
    } else if let ClauseSetting::Wheres(w) = ss.last() {
        Some(w)
    } else {
        last_wheres(ss.drop_last(), dflt)
    }
}

/// The last `ORDER BY` set among `ss`, else `dflt`.
pub open spec fn last_orderbys(ss: Seq<ClauseSetting>, dflt: Option<Seq<char>>) -> Option<Seq<char>>
    decreases ss.len(),
{
    if ss.len() == 0 {
        dflt
    } else if let ClauseSetting::Orderbys(o) = ss.last() {
        Some(o)
    } else {
        last_orderbys(ss.drop_last(), dflt)
    }
}

/// The last `LIMIT` set among `ss`, else `dflt`.
pub open spec fn last_limit(ss: Seq<ClauseSetting>, dflt: Option<usize>) -> Option<usize>
    decreases ss.len(),
{
    if ss.len() == 0 {
        dflt
    } else if let ClauseSetting::Limit(l) = ss.last() {
        Some(l)
    } else {
        last_limit(ss.drop_last(), dflt)
    }
}

/// The last `OFFSET` set among `ss`, else `dflt`.
pub open spec fn last_offset(ss: Seq<ClauseSetting>, dflt: Option<usize>) -> Option<usize>
    decreases ss.len(),
{
    if ss.len() == 0 {
        dflt
    } else if let ClauseSetting::Offset(o) = ss.last() {
        Some(o)
    } else {
        last_offset(ss.drop_last(), dflt)
    }
}

/// After any setter calls, each clause holds the last value set for it, and
/// the columns and joined tables are as they were.
pub proof fn lemma_apply_settings(v: SelectView, ss: Seq<ClauseSetting>)
    ensures
        apply_settings(v, ss) == (SelectView {
            wheres: last_wheres(ss, v.wheres),
            orderbys: last_orderbys(ss, v.orderbys),
            limit: last_limit(ss, v.limit),
            offset: last_offset(ss, v.offset),
            ..v
        }),
    decreases ss.len(),
{
    if ss.len() > 0 {
        lemma_apply_settings(v, ss.drop_last());
    }
}

/// Setter calls in any order give the same statement, and the same text,
/// as long as each clause is set by both or by neither, its last value the
/// same: the clauses always come out as `WHERE`, `ORDER BY`, `LIMIT`, `OFFSET`.
pub proof fn law_setting_order_irrelevant(v: SelectView, ss1: Seq<ClauseSetting>, ss2: Seq<ClauseSetting>)
    requires
        last_wheres(ss1, v.wheres) == last_wheres(ss2, v.wheres),
        last_orderbys(ss1, v.orderbys) == last_orderbys(ss2, v.orderbys),
        last_limit(ss1, v.limit) == last_limit(ss2, v.limit),
        last_offset(ss1, v.offset) == last_offset(ss2, v.offset),
    ensures
        apply_settings(v, ss1) == apply_settings(v, ss2),
        select_text(apply_settings(v, ss1)) == select_text(apply_settings(v, ss2)),
{
    lemma_apply_settings(v, ss1);
    lemma_apply_settings(v, ss2);
}

/// A `SELECT` of the given columns from the joined tables, with optional
/// `WHERE`, `ORDER BY`, `LIMIT` and `OFFSET` clauses.
pub struct Select {
    columns: ColumnMap<Column>,
    tables_join: Vec<String>,
    wheres: Option<String>,
    orderbys: Option<String>,
    limit: Option<usize>,
    offset: Option<usize>,
}

impl View for Select {
    type V = SelectView;

    closed spec fn view(&self) -> SelectView {
        SelectView {
            columns: self.columns@,
            tables_join: self.tables_join@.map_values(|s: String| s@),
            wheres: option_view(self.wheres),
            orderbys: option_view(self.orderbys),
            limit: self.limit,
            offset: self.offset,
        }
    }
}

impl Select {
    /// A statement selecting `columns` from the tables of `tables_join`, with no other clause.
    pub fn new(columns: ColumnMap<Column>, tables_join: Vec<String>) -> (s: Self)
        ensures
            s@ == (SelectView {
                columns: columns@,
                tables_join: tables_join@.map_values(|s: String| s@),
                wheres: None,
                orderbys: None,
                limit: None,
                offset: None,
            }),
            keys_distinct(s@.columns),
    {
        // Asking for the length brings in that the keys are distinct.
        let _entries = columns.len();
        Self { columns, tables_join, wheres: None, orderbys: None, limit: None, offset: None }
    }

    /// Sets the `WHERE` condition, replacing any earlier one.
    pub fn wheres(&mut self, wheres: String) -> (r: &mut Self)
        ensures
            r@ == with_wheres(old(self)@, wheres@),
            *final(self) == *final(r),
    {
        self.wheres = Some(wheres);
        self
    }

    /// Sets the `ORDER BY` list, replacing any earlier one.
    pub fn orderbys(&mut self, orderbys: String) -> (r: &mut Self)
        ensures
            r@ == with_orderbys(old(self)@, orderbys@),
            *final(self) == *final(r),
    {
        self.orderbys = Some(orderbys);
        self
    }

    /// Sets the `LIMIT`, replacing any earlier one.
    pub fn limit(&mut self, limit: usize) -> (r: &mut Self)
        ensures
            r@ == with_limit(old(self)@, limit),
            *final(self) == *final(r),
    {
        self.limit = Some(limit);
        self
    }

    /// Sets the `OFFSET`, replacing any earlier one.
    pub fn offset(&mut self, offset: usize) -> (r: &mut Self)
        ensures
            r@ == with_offset(old(self)@, offset),
            *final(self) == *final(r),
    {
        self.offset = Some(offset);
        self
    }

    /// The selected items, table after table.
    fn items(&self) -> (r: Vec<String>)
        ensures
            r@.map_values(|s: String| s@) == select_items(self@.columns),
    {
        let cols = &self.columns;
        let ghost cv = cols@;
        let ghost per_table = cv.map_values(|e: (Seq<char>, Seq<ColumnView>)| table_items(e));
        let n = cols.len();
        let mut out: Vec<String> = Vec::new();
        let mut i: usize = 0;
        while i < n
            invariant
                n == cv.len(),
                cv == cols@,
                cv == self@.columns,
                per_table == cv.map_values(|e: (Seq<char>, Seq<ColumnView>)| table_items(e)),
                i <= n,
                out@.map_values(|s: String| s@) == per_table.take(i as int).flatten(),
            decreases n - i,
        {
            let table = cols.key(i);
            let columns = cols.columns(i);
            let m = columns.len();
            let ghost items_i = per_table[i as int];
            let ghost start = out@.map_values(|s: String| s@);
            let mut j: usize = 0;
            while j < m
                invariant
                    m == columns@.len(),
                    columns_view(columns@) == cv[i as int].1,
                    table@ == cv[i as int].0,
                    items_i == table_items(cv[i as int]),
                    j <= m,
                    out@.map_values(|s: String| s@) == start + items_i.take(j as int),
                decreases m - j,
            {
                let name = columns[j].name();
                let mut item = String::from_str(table);
                item.append(".");
                item.append(name);
                item.append(" AS ");
                item.append(table);
                item.append("_");
                item.append(name);
                assert(item@ =~= column_item(table@, name@));
                let ghost before = out@;
                out.push(item);
                proof {
                    assert(columns_view(columns@)[j as int] == columns@[j as int]@);
                    assert(items_i[j as int] == column_item(table@, name@));
                    assert(out@.map_values(|s: String| s@) =~= before.map_values(|s: String| s@).push(
                        item@,
                    ));
                    assert(items_i.take(j + 1) =~= items_i.take(j as int).push(items_i[j as int]));
                    assert(start + items_i.take(j + 1) =~= (start + items_i.take(j as int)).push(
                        items_i[j as int],
                    ));
                }
                j = j + 1;
            }
            proof {
                assert(items_i.take(m as int) =~= items_i);
                assert(per_table.take(i + 1) =~= per_table.take(i as int).push(per_table[i as int]));
                per_table.take(i as int).lemma_flatten_push(per_table[i as int]);
            }
            i = i + 1;
        }
        proof {
            assert(per_table.take(n as int) =~= per_table);
        }
        out
    }

    /// The text of the statement.
    pub fn to_string(&self) -> (r: String)
        ensures
            r@ == select_text(self@),
    {
        let items = self.items();
        let mut out = String::from_str("SELECT ");
        out.append(join_strings(&items, ", ").as_str());
        out.append(" FROM ");
        out.append(join_strings(&self.tables_join, " ").as_str());
        match &self.wheres {
            Some(w) => {
                out.append(" WHERE ");
                out.append(w.as_str());
            },
            None => {},
        }
        match &self.orderbys {
            Some(o) => {
                out.append(" ORDER BY ");
                out.append(o.as_str());
            },
            None => {},
        }
        match self.limit {
            Some(l) => {
                out.append(" LIMIT ");
                append_decimal(&mut out, l);
            },
            None => {},
        }
        match self.offset {
            Some(o) => {
                out.append(" OFFSET ");
                append_decimal(&mut out, o);
            },
            None => {},
        }
        out.append(";");
        assert(out@ =~= select_text(self@));
        out
    }
}

} // verus!
