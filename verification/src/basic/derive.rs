use vstd::prelude::*;
use vstd::string::StringExecFns;
use crate::derive::{Field, fields_named, texts_view};

verus! {

/// What deriving the lighter `Table` decides: the table is named after the
/// struct, and every field is a column.
pub struct BasicTableDerive {
    pub table_name: String,
    pub columns: Vec<String>,
}

/// The names of the fields, in order.
pub open spec fn field_names(fields: Seq<Field>) -> Seq<Seq<char>> {
    fields.map_values(|f: Field| f.ident->0@)
}

/// What deriving the lighter `Table` for the struct `struct_name` decides;
/// `None` for a tuple struct.
pub fn table_derive(struct_name: &str, fields: &Vec<Field>) -> (r: Option<BasicTableDerive>)
    ensures
        r is Some <==> fields_named(fields@),
        r matches Some(d) ==> d.table_name@ == struct_name@ && texts_view(d.columns@) == field_names(
            fields@,
        ),
{
    let mut columns: Vec<String> = Vec::new();
    let n = fields.len();
    let mut i: usize = 0;
    while i < n
        invariant
            n == fields@.len(),
            i <= n,
            columns@.len() == i,
            forall|j: int| 0 <= j < i ==> (#[trigger] fields@[j]).ident is Some,
            forall|j: int| 0 <= j < i ==> #[trigger] columns@[j]@ == fields@[j].ident->0@,
        decreases n - i,
    {
        match &fields[i].ident {
            Some(name) => {
                columns.push(name.clone());
            },
            None => {
                assert(!fields_named(fields@)) by {
                    assert(fields@[i as int].ident is None);
                }
                return None;
            },
        }
        i = i + 1;
    }
    assert(texts_view(columns@) =~= field_names(fields@));
    Some(BasicTableDerive { table_name: String::from_str(struct_name), columns })
}

} // verus!
