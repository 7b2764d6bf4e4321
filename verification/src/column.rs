use vstd::prelude::*;

verus! {

/// A column of a table: its name, and whether it holds a foreign key.
#[derive(Clone, Copy, Debug)]
pub struct Column {
    name: &'static str,
    foreign: bool,
}

/// What a column is, as plain values.
pub struct ColumnView {
    pub name: Seq<char>,
    pub foreign: bool,
}

impl View for Column {
    type V = ColumnView;

    closed spec fn view(&self) -> ColumnView {
        ColumnView { name: self.name@, foreign: self.foreign }
    }
}

impl Column {
    /// A column named `name`; `foreign` tells whether it refers to another table.
    pub fn new(name: &'static str, foreign: bool) -> (c: Self)
        ensures
            c@ == (ColumnView { name: name@, foreign: foreign }),
    {
        Self { name, foreign }
    }

    /// The column's name.
    pub fn name(&self) -> (n: &'static str)
        ensures
            n@ == self@.name,
    {
        self.name
    }

    /// Whether the column refers to another table.
    pub fn foreign(&self) -> (f: bool)
        ensures
            f == self@.foreign,
    {
        self.foreign
    }
}

impl PartialEq for Column {
    /// Whether the columns have the same name and the same foreign flag.
    fn eq(&self, other: &Self) -> (r: bool) {
        let r = crate::text::str_eq(self.name, other.name) && self.foreign == other.foreign;
        assert(r == (self@ == other@));
        r
    }
}

impl vstd::std_specs::cmp::PartialEqSpecImpl for Column {
    open spec fn obeys_eq_spec() -> bool {
        true
    }

    open spec fn eq_spec(&self, other: &Self) -> bool {
        self@ == other@
    }
}

} // verus!
