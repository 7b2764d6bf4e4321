use vstd::prelude::*;

verus! {

/// A column, known by its name.
#[derive(Clone, Copy, Debug)]
pub struct Column {
    name: &'static str,
}

impl View for Column {
    type V = Seq<char>;

    closed spec fn view(&self) -> Seq<char> {
        self.name@
    }
}

impl Column {
    /// A column named `name`.
    pub fn new(name: &'static str) -> (c: Self)
        ensures
            c@ == name@,
    {
        Self { name }
    }

    /// The column's name.
    pub fn name(&self) -> (n: &'static str)
        ensures
            n@ == self@,
    {
        self.name
    }
}

} // verus!
