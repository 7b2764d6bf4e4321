//! Tables, the references between them, and the queries built from them.
use vstd::prelude::*;
pub use crate::column::Column;
use crate::column::ColumnView;
use crate::column_map::ColumnMap;
pub use crate::reference::parse_reference;
use crate::text::str_eq;
use crate::joins::{collect_columns, collected_columns, references_are_ok, references_ok, refs_view, select_from, traverse};
use crate::column_map::columns_view;
use crate::query::select::{Select, SelectView};

verus! {

/// How the rows of a referenced table join the rows that refer to them.
#[derive(Debug, PartialEq, Eq, Structural, Clone, Copy)]
pub enum ReferenceJoin {
    OneOrNone,
    ExaclyOne,
    Multiple,
    MultipleOption,
    MultipleEmpty,
    MultipleOptionEmpty,
}

/// The number that stands for each kind of join: one bit each.
pub open spec fn join_code(j: ReferenceJoin) -> u8 {
    match j {
        ReferenceJoin::OneOrNone => 1,
        ReferenceJoin::ExaclyOne => 2,
        ReferenceJoin::Multiple => 4,
        ReferenceJoin::MultipleOption => 8,
        ReferenceJoin::MultipleEmpty => 16,
        ReferenceJoin::MultipleOptionEmpty => 32,
    }
}

/// The numbers that stand for a kind of join.
pub open spec fn is_join_code(value: u8) -> bool {
    value == 1 || value == 2 || value == 4 || value == 8 || value == 16 || value == 32
}

/// The joins whose referenced row must exist: an `INNER JOIN`; the others are `LEFT JOIN`s.
pub open spec fn is_inner_join(j: ReferenceJoin) -> bool {
    j is ExaclyOne || j is Multiple
}

/// Each kind of join has a number of its own, one that `from` accepts, so
/// that `ReferenceJoin::from(j.as_u8())` is `j` again; and the numbers are
/// single bits, the `INNER` joins being those of the bits 2 and 4.
pub proof fn law_join_codes(a: ReferenceJoin, b: ReferenceJoin)
    ensures
        is_join_code(join_code(a)),
        join_code(a) == join_code(b) ==> a == b,
        is_inner_join(a) <==> (join_code(a) & 6 != 0),
{
    assert(1u8 & 6u8 == 0u8) by (bit_vector);
    assert(2u8 & 6u8 != 0u8) by (bit_vector);
    assert(4u8 & 6u8 != 0u8) by (bit_vector);
    assert(8u8 & 6u8 == 0u8) by (bit_vector);
    assert(16u8 & 6u8 == 0u8) by (bit_vector);
    assert(32u8 & 6u8 == 0u8) by (bit_vector);
}

impl ReferenceJoin {
    /// The number that stands for this kind of join.
    pub fn as_u8(self) -> (v: u8)
        ensures
            v == join_code(self),
    {
        match self {
            ReferenceJoin::OneOrNone => 1,
            ReferenceJoin::ExaclyOne => 2,
            ReferenceJoin::Multiple => 4,
            ReferenceJoin::MultipleOption => 8,
            ReferenceJoin::MultipleEmpty => 16,
            ReferenceJoin::MultipleOptionEmpty => 32,
        }
    }

    /// The kind of join that `value` stands for, if any.
    pub fn from_u8(value: u8) -> (j: Option<Self>)
        ensures
            j is Some <==> is_join_code(value),
            j matches Some(k) ==> join_code(k) == value,
    {
        match value {
            1 => Some(ReferenceJoin::OneOrNone),
            2 => Some(ReferenceJoin::ExaclyOne),
            4 => Some(ReferenceJoin::Multiple),
            8 => Some(ReferenceJoin::MultipleOption),
            16 => Some(ReferenceJoin::MultipleEmpty),
            32 => Some(ReferenceJoin::MultipleOptionEmpty),
            _ => None,
        }
    }

    /// The kind of join that `value` stands for.
    pub fn from(value: u8) -> (j: Self)
        requires
            is_join_code(value),
        ensures
            join_code(j) == value,
    {
        match value {
            1 => ReferenceJoin::OneOrNone,
            2 => ReferenceJoin::ExaclyOne,
            4 => ReferenceJoin::Multiple,
            8 => ReferenceJoin::MultipleOption,
            16 => ReferenceJoin::MultipleEmpty,
            _ => ReferenceJoin::MultipleOptionEmpty,
        }
    }

    /// Whether the join is an `INNER JOIN`: the bit of `ExaclyOne` or of `Multiple` is set.
    pub fn is_inner(self) -> (r: bool)
        ensures
            r == is_inner_join(self),
            r == (join_code(self) & 6 != 0),
    {
        let code = self.as_u8();
        let r = code & 6u8 != 0;
        proof {
            law_join_codes(self, self);
        }
        r
    }
}

/// A foreign key from one table to another, with what the target table
/// brings along: its columns and its own references.
pub struct Reference {
    pub join: ReferenceJoin,
    pub from_table_name: &'static str,
    pub to_table_name: &'static str,
    pub identifiers: Vec<String>,
    pub all_columns: ColumnMap<Column>,
    pub references: Vec<Reference>,
}

/// What a reference is, as plain values; the columns as a map, whatever
/// the order of their entries.
pub struct ReferenceView {
    pub join: ReferenceJoin,
    pub from_table_name: Seq<char>,
    pub to_table_name: Seq<char>,
    pub identifiers: Seq<Seq<char>>,
    pub all_columns: Map<Seq<char>, Seq<ColumnView>>,
    pub references: Seq<ReferenceView>,
}

/// The views of a sequence of texts.
pub open spec fn strings_view(v: Seq<String>) -> Seq<Seq<char>> {
    v.map_values(|s: String| s@)
}

/// The view of a reference.
pub open spec fn reference_view(r: Reference) -> ReferenceView
    decreases r,
{
    ReferenceView {
        join: r.join,
        from_table_name: r.from_table_name@,
        to_table_name: r.to_table_name@,
        identifiers: strings_view(r.identifiers@),
        all_columns: r.all_columns.as_map(),
        references: Seq::new(
            r.references@.len(),
            |i: int|
                {
                    if 0 <= i < r.references@.len() {
                        reference_view(r.references@[i])
                    } else {
                        arbitrary()
                    }
                },
        ),
    }
}

impl View for Reference {
    type V = ReferenceView;

    open spec fn view(&self) -> ReferenceView {
        reference_view(*self)
    }
}

/// Two lists of texts hold the same texts in the same order.
pub fn strings_eq(a: &Vec<String>, b: &Vec<String>) -> (r: bool)
    ensures
        r == (strings_view(a@) == strings_view(b@)),
{
    let n = a.len();
    if n != b.len() {
        assert(strings_view(a@).len() != strings_view(b@).len());
        return false;
    }
    let mut i: usize = 0;
    while i < n
        invariant
            n == a@.len(),
            n == b@.len(),
            i <= n,
            forall|j: int| 0 <= j < i ==> a@[j]@ == b@[j]@,
        decreases n - i,
    {
        if a[i] != b[i] {
            assert(strings_view(a@)[i as int] != strings_view(b@)[i as int]);
            return false;
        }
        i = i + 1;
    }
    assert(strings_view(a@) =~= strings_view(b@));
    true
}

/// A copy of a list of texts.
pub fn copy_strings(v: &Vec<String>) -> (r: Vec<String>)
    ensures
        strings_view(r@) == strings_view(v@),
{
    let mut out: Vec<String> = Vec::new();
    let n = v.len();
    let mut i: usize = 0;
    while i < n
        invariant
            n == v@.len(),
            i <= n,
            out@.len() == i,
            forall|j: int| 0 <= j < i ==> out@[j]@ == v@[j]@,
        decreases n - i,
    {
        out.push(v[i].clone());
        i = i + 1;
    }
    assert(strings_view(out@) =~= strings_view(v@));
    out
}

/// Whether two references are equal: same join, tables, identifiers,
/// columns (as maps) and references, all the way down.
pub fn reference_eq(a: &Reference, b: &Reference) -> (r: bool)
    ensures
        r == (a@ == b@),
    decreases a,
{
    if a.join != b.join || !str_eq(a.from_table_name, b.from_table_name) || !str_eq(
        a.to_table_name,
        b.to_table_name,
    ) || !strings_eq(&a.identifiers, &b.identifiers) || !a.all_columns.same_map(&b.all_columns) {
        return false;
    }
    let n = a.references.len();
    if n != b.references.len() {
        assert(a@.references.len() != b@.references.len());
        return false;
    }
    let mut i: usize = 0;
    while i < n
        invariant
            n == a.references@.len(),
            n == b.references@.len(),
            i <= n,
            forall|j: int| 0 <= j < i ==> a@.references[j] == b@.references[j],
        decreases n - i,
    {
        assert(decreases_to!(a => a.references));
        assert(decreases_to!(a.references => a.references@));
        assert(decreases_to!(a.references@ => a.references@[i as int]));
        if !reference_eq(&a.references[i], &b.references[i]) {
            assert(a@.references[i as int] != b@.references[i as int]);
            return false;
        }
        i = i + 1;
    }
    assert(a@.references =~= b@.references);
    true
}

/// A copy of a reference, all the way down.
/// `c` holds the columns of `r` in the same order of entries, all the way down.
pub open spec fn column_order_kept(c: Reference, r: Reference) -> bool
    decreases r,
{
    &&& c.all_columns@ == r.all_columns@
    &&& column_orders_kept(c.references@, r.references@)
}

/// Each reference of `cs` keeps the column order of the one of `rs` at its place.
pub open spec fn column_orders_kept(cs: Seq<Reference>, rs: Seq<Reference>) -> bool
    decreases rs,
{
    &&& cs.len() == rs.len()
    &&& (rs.len() == 0 || (column_orders_kept(cs.drop_last(), rs.drop_last()) && column_order_kept(
        cs.last(),
        rs.last(),
    )))
}

/// `column_orders_kept` holds exactly when each reference keeps its order.
pub proof fn lemma_column_orders_kept(cs: Seq<Reference>, rs: Seq<Reference>)
    ensures
        column_orders_kept(cs, rs) <==> cs.len() == rs.len() && forall|i: int|
            0 <= i < rs.len() ==> #[trigger] column_order_kept(cs[i], rs[i]),
    decreases rs.len(),
{
    if rs.len() > 0 && cs.len() == rs.len() {
        let (pc, pr) = (cs.drop_last(), rs.drop_last());
        lemma_column_orders_kept(pc, pr);
        assert(forall|i: int| 0 <= i < pr.len() ==> pc[i] == cs[i] && pr[i] == rs[i]);
        if forall|i: int| 0 <= i < rs.len() ==> #[trigger] column_order_kept(cs[i], rs[i]) {
            assert(column_order_kept(cs[rs.len() - 1], rs[rs.len() - 1]));
        }
    }
}

pub fn copy_reference(r: &Reference) -> (c: Reference)
    ensures
        c@ == r@,
        column_order_kept(c, *r),
    decreases r,
{
    let n = r.references.len();
    let mut refs: Vec<Reference> = Vec::new();
    let mut i: usize = 0;
    while i < n
        invariant
            n == r.references@.len(),
            i <= n,
            refs@.len() == i,
            forall|j: int| 0 <= j < i ==> refs@[j]@ == r.references@[j]@,
            forall|j: int| 0 <= j < i ==> #[trigger] column_order_kept(refs@[j], r.references@[j]),
        decreases n - i,
    {
        assert(decreases_to!(r => r.references));
        assert(decreases_to!(r.references => r.references@));
        assert(decreases_to!(r.references@ => r.references@[i as int]));
        refs.push(copy_reference(&r.references[i]));
        i = i + 1;
    }
    let c = Reference {
        join: r.join,
        from_table_name: r.from_table_name,
        to_table_name: r.to_table_name,
        identifiers: copy_strings(&r.identifiers),
        all_columns: r.all_columns.duplicate(),
        references: refs,
    };
    assert(c@.references =~= r@.references);
    assert(c.all_columns@ == r.all_columns@);
    assert(forall|j: int|
        0 <= j < r.references@.len() ==> #[trigger] column_order_kept(c.references@[j], r.references@[j]));
    proof {
        lemma_column_orders_kept(c.references@, r.references@);
    }
    c
}

impl PartialEq for Reference {
    /// Whether the references are equal, all the way down.
    fn eq(&self, other: &Self) -> (r: bool) {
        reference_eq(self, other)
    }
}

impl vstd::std_specs::cmp::PartialEqSpecImpl for Reference {
    open spec fn obeys_eq_spec() -> bool {
        true
    }

    open spec fn eq_spec(&self, other: &Self) -> bool {
        self@ == other@
    }
}

impl Clone for Reference {
    /// A copy of the reference, all the way down.
    fn clone(&self) -> (c: Self)
        ensures
            c@ == self@,
            column_order_kept(c, *self),
    {
        copy_reference(self)
    }
}


/// A table: its name, its columns, which of them identify a row, and its
/// references to other tables.
pub trait Table {
    /// The columns that identify a row.
    fn identifiers() -> Vec<Column>;

    /// Whether two rows have the same identifying columns.
    fn id_eq(&self, b: &Self) -> bool;

    /// The table's name.
    fn table_name() -> &'static str;

    /// The table's columns.
    fn columns() -> Vec<Column>;

    /// The table's references to other tables.
    fn references() -> Vec<Reference>;
}

/// The queries that every table has.
pub trait Queries {
    /// The columns of the table and of every table it reaches, by table name.
    fn all_columns() -> ColumnMap<Column>;

    /// The `SELECT` of every column of the table and of the tables it
    /// reaches; `None` where a reference cannot be read.
    fn select_all() -> Option<Select>;
}

/// `m` holds the columns collected from what the table's methods can
/// return: its name, its columns and its references.
pub open spec fn columns_collected_for<T: Table>(m: ColumnMap<Column>) -> bool {
    exists|table_name: &'static str, columns: Vec<Column>, references: Vec<Reference>|
        #![trigger call_ensures(T::table_name, (), table_name), call_ensures(T::columns, (), columns), call_ensures(T::references, (), references)]
        {
            &&& call_ensures(T::table_name, (), table_name)
            &&& call_ensures(T::columns, (), columns)
            &&& call_ensures(T::references, (), references)
            &&& m@ == collected_columns(table_name@, columns_view(columns@), references@)
        }
}

/// `s` is the query built from what the table's methods can return: its
/// references (all readable), its name, and its collected columns.
pub open spec fn select_built_for<T: Table>(s: Select) -> bool {
    exists|references: Vec<Reference>, table_name: &'static str, columns: ColumnMap<Column>|
        #![trigger call_ensures(T::references, (), references), call_ensures(T::table_name, (), table_name), columns_collected_for::<T>(columns)]
        {
            &&& call_ensures(T::references, (), references)
            &&& call_ensures(T::table_name, (), table_name)
            &&& columns_collected_for::<T>(columns)
            &&& references_ok(refs_view(references@))
            &&& s@ == (SelectView {
                columns: columns@,
                tables_join: seq![table_name@] + traverse(refs_view(references@), seq![]),
                wheres: None,
                orderbys: None,
                limit: None,
                offset: None,
            })
        }
}

/// Some references the table's method can return cannot be read.
pub open spec fn unreadable_references_for<T: Table>() -> bool {
    exists|references: Vec<Reference>|
        #![trigger call_ensures(T::references, (), references)]
        call_ensures(T::references, (), references) && !references_ok(refs_view(references@))
}

impl<T: Table> Queries for T {
    fn all_columns() -> (m: ColumnMap<Column>)
        ensures
            columns_collected_for::<T>(m),
    {
        let table_name = Self::table_name();
        let columns = Self::columns();
        let references = Self::references();
        let ghost (t, c, r) = (table_name, columns, references);
        let m = collect_columns(table_name, columns, references);
        assert(call_ensures(T::table_name, (), t) && call_ensures(T::columns, (), c) && call_ensures(
            T::references,
            (),
            r,
        ));
        m
    }

    fn select_all() -> (s: Option<Select>)
        ensures
            s matches Some(q) ==> select_built_for::<T>(q),
            s is None ==> unreadable_references_for::<T>(),
    {
        let references = Self::references();
        let ghost r = references;
        if !references_are_ok(&references) {
            assert(call_ensures(T::references, (), r));
            return None;
        }
        let table_name = Self::table_name();
        let columns = Self::all_columns();
        let ghost c = columns;
        let q = select_from(table_name, references, columns);
        assert(call_ensures(T::references, (), r) && call_ensures(T::table_name, (), table_name)
            && columns_collected_for::<T>(c));
        Some(q)
    }
}

} // verus!
