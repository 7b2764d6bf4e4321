//! What deriving `Table` and `MySQLRow` for a struct decides, from the
//! struct's fields, attributes and field types held as plain values.
//!
//! A type is a path (`a::b::C<T, ...>`), a slice (`[T]`) or some other
//! type; an attribute is its path and what its arguments read as.
use vstd::prelude::*;
use vstd::string::StrSliceExecFns;
use vstd::string::StringExecFns;
use crate::column::ColumnView;
use crate::joins::{lemma_own_columns_keep, own_columns};
use crate::query::select::{column_alias, column_item, table_items};
use crate::table::ReferenceJoin;
use crate::text::{join, join_strings, str_eq};
use vstd::utf8::encode_utf8;

verus! {

/// The attribute that marks a column identifying a row.
pub const PRIMARY_KEY: &'static str = "PrimaryKey";

/// The attribute that marks a reference to another table.
pub const FOREIGN_KEY: &'static str = "ForeignKey";

/// The attribute that names the table.
pub const TABLE_NAME: &'static str = "table_name";

/// The full path of `Option`.
pub const OPTION: &'static str = "std::option::Option";

/// The full path of `Vec`.
pub const VEC: &'static str = "alloc::vec::Vec";

/// The type of a field.
pub enum FieldType {
    /// A path such as `a::b::C<T>`.
    Path(TypePath),
    /// A slice `[T]`.
    Slice(Box<FieldType>),
    /// Any other type.
    Other,
}

/// A path type: whether it has a qualified self (`<T as Trait>::...`), and its segments.
pub struct TypePath {
    pub qself: bool,
    pub segments: Vec<PathSegment>,
}

/// One segment of a path: its name and its arguments.
pub struct PathSegment {
    pub ident: String,
    pub arguments: PathArguments,
}

/// The arguments of a path segment.
pub enum PathArguments {
    /// No arguments.
    Bare,
    /// `<A, B, ...>`.
    AngleBracketed(Vec<GenericArgument>),
    /// `(A, B) -> C`.
    Parenthesized,
}

/// One argument between angle brackets.
pub enum GenericArgument {
    /// A type.
    Type(FieldType),
    /// A lifetime, a constant, a binding or a constraint.
    Other,
}

/// An attribute: its path, and what its arguments read as.
pub struct Attribute {
    /// Whether the path starts with `::`.
    pub leading_colon: bool,
    pub path: Vec<PathSegment>,
    /// The value, where the arguments are one string literal.
    pub lit_str: Option<String>,
    /// Each literal as written, where the arguments are literals separated by commas.
    pub literals: Option<Vec<String>>,
}

/// A field of the struct.
pub struct Field {
    /// The field's name; a field of a tuple struct has none.
    pub ident: Option<String>,
    pub attrs: Vec<Attribute>,
    pub ty: FieldType,
}

/// Whether the attribute's path is the single name `name`.
pub open spec fn is_ident(a: Attribute, name: Seq<char>) -> bool {
    &&& !a.leading_colon
    &&& a.path@.len() == 1
    &&& a.path@[0].arguments matches PathArguments::Bare
    &&& a.path@[0].ident@ == name
}

/// The first attribute named `name`.
pub open spec fn attribute_index(attrs: Seq<Attribute>, name: Seq<char>) -> Option<nat>
    decreases attrs.len(),
{
    if attrs.len() == 0 {
        None
    } else {
        match attribute_index(attrs.drop_last(), name) {
            Some(i) => Some(i),
            None => if is_ident(attrs.last(), name) {
                Some((attrs.len() - 1) as nat)
            } else {
                None
            },
        }
    }
}

/// Whether some attribute is named `name`.
pub open spec fn has_attribute(attrs: Seq<Attribute>, name: Seq<char>) -> bool {
    attribute_index(attrs, name) is Some
}

pub proof fn lemma_attribute_index(attrs: Seq<Attribute>, name: Seq<char>)
    ensures
        attribute_index(attrs, name) matches Some(i) ==> i < attrs.len() && is_ident(
            attrs[i as int],
            name,
        ) && forall|j: int| 0 <= j < i ==> !is_ident(#[trigger] attrs[j], name),
        attribute_index(attrs, name) is None ==> forall|j: int|
            0 <= j < attrs.len() ==> !is_ident(#[trigger] attrs[j], name),
    decreases attrs.len(),
{
    if attrs.len() > 0 {
        let p = attrs.drop_last();
        lemma_attribute_index(p, name);
        assert(forall|j: int| 0 <= j < p.len() ==> p[j] == attrs[j]);
    }
}

/// Whether the attribute's path is the single name `name`.
pub fn attribute_is(a: &Attribute, name: &str) -> (r: bool)
    ensures
        r == is_ident(*a, name@),
{
    if a.leading_colon || a.path.len() != 1 {
        return false;
    }
    match &a.path[0].arguments {
        PathArguments::Bare => str_eq(a.path[0].ident.as_str(), name),
        _ => false,
    }
}

/// The first attribute named `attribute`.
pub fn get_attribute<'a>(attrs: &'a [Attribute], attribute: &str) -> (r: Option<&'a Attribute>)
    ensures
        r matches Some(a) ==> attribute_index(attrs@, attribute@) matches Some(i) && *a
            == attrs@[i as int],
        r is None ==> attribute_index(attrs@, attribute@) is None,
{
    let n = attrs.len();
    let mut i: usize = 0;
    proof {
        lemma_attribute_index(attrs@, attribute@);
    }
    while i < n
        invariant
            n == attrs@.len(),
            i <= n,
            forall|j: int| 0 <= j < i ==> !is_ident(#[trigger] attrs@[j], attribute@),
        decreases n - i,
    {
        if attribute_is(&attrs[i], attribute) {
            proof {
                lemma_attribute_index(attrs@, attribute@);
            }
            return Some(&attrs[i]);
        }
        i = i + 1;
    }
    None
}

/// Whether `s` ends with `suffix`.
pub open spec fn ends_with(s: Seq<char>, suffix: Seq<char>) -> bool {
    suffix.len() <= s.len() && s.skip(s.len() - suffix.len()) == suffix
}

/// The names of the segments.
pub open spec fn segment_idents(segments: Seq<PathSegment>) -> Seq<Seq<char>> {
    segments.map_values(|s: PathSegment| s.ident@)
}

/// The type `T` of a type `X<T>` whose path ends the full path `full_name`
/// (`Option<T>` and `std::option::Option<T>` both for `std::option::Option`).
pub open spec fn inner_type(full_name: Seq<char>, ty: FieldType) -> Option<FieldType> {
    match ty {
        FieldType::Path(p) => {
            if p.qself {
                None
            } else if !ends_with(full_name, join(segment_idents(p.segments@), "::"@)) {
                None
            } else if p.segments@.len() == 0 {
                None
            } else {
                match p.segments@.last().arguments {
                    PathArguments::AngleBracketed(args) => {
                        if args@.len() != 1 {
                            None
                        } else {
                            match args@[0] {
                                GenericArgument::Type(t) => Some(t),
                                GenericArgument::Other => None,
                            }
                        }
                    },
                    _ => None,
                }
            }
        },
        _ => None,
    }
}

/// The inner type is part of the outer one.
pub proof fn lemma_inner_type_smaller(full_name: Seq<char>, ty: FieldType)
    ensures
        inner_type(full_name, ty) matches Some(t) ==> decreases_to!(ty => t),
{
    if let Some(t) = inner_type(full_name, ty) {
        if let FieldType::Path(p) = ty {
            let last = p.segments@.last();
            if let PathArguments::AngleBracketed(args) = last.arguments {
                if let GenericArgument::Type(u) = args@[0] {
                    assert(decreases_to!(ty => p));
                    assert(decreases_to!(p => p.segments));
                    assert(decreases_to!(p.segments => p.segments@));
                    assert(decreases_to!(p.segments@ => p.segments@[p.segments@.len() - 1]));
                    assert(decreases_to!(last => last.arguments));
                    assert(decreases_to!(last.arguments => args));
                    assert(decreases_to!(args => args@));
                    assert(decreases_to!(args@ => args@[0]));
                    assert(decreases_to!(args@[0] => u));
                }
            }
        }
    }
}

/// Whether `s` ends with `suffix`.
pub fn str_ends_with(s: &str, suffix: &str) -> (r: bool)
    ensures
        r == ends_with(s@, suffix@),
{
    let n = s.unicode_len();
    let m = suffix.unicode_len();
    if m > n {
        return false;
    }
    let d = n - m;
    let mut i: usize = 0;
    while i < m
        invariant
            n == s@.len(),
            m == suffix@.len(),
            d == n - m,
            i <= m,
            forall|j: int| 0 <= j < i ==> s@[d + j] == suffix@[j],
        decreases m - i,
    {
        if s.get_char(d + i) != suffix.get_char(i) {
            assert(s@.skip(d as int)[i as int] != suffix@[i as int]);
            return false;
        }
        i = i + 1;
    }
    assert(s@.skip(d as int) =~= suffix@);
    true
}

/// The names of the path's segments joined by `::`.
fn path_text(segments: &Vec<PathSegment>) -> (r: String)
    ensures
        r@ == join(segment_idents(segments@), "::"@),
{
    let mut idents: Vec<String> = Vec::new();
    let n = segments.len();
    let mut i: usize = 0;
    while i < n
        invariant
            n == segments@.len(),
            i <= n,
            idents@.len() == i,
            forall|j: int| 0 <= j < i ==> idents@[j]@ == segments@[j].ident@,
        decreases n - i,
    {
        idents.push(segments[i].ident.clone());
        i = i + 1;
    }
    assert(idents@.map_values(|s: String| s@) =~= segment_idents(segments@));
    join_strings(&idents, "::")
}

/// The type `T` of a type `X<T>` whose path ends the full path `full_name`.
pub fn get_inner_type<'a>(full_name: &str, ty: &'a FieldType) -> (r: Option<&'a FieldType>)
    ensures
        r matches Some(t) ==> inner_type(full_name@, *ty) == Some(*t),
        r is None ==> inner_type(full_name@, *ty) is None,
{
    let p = match ty {
        FieldType::Path(p) => p,
        _ => {
            return None;
        },
    };
    if p.qself {
        return None;
    }
    let found = path_text(&p.segments);
    if !str_ends_with(full_name, found.as_str()) {
        return None;
    }
    let n = p.segments.len();
    if n == 0 {
        return None;
    }
    let last = &p.segments[n - 1];
    let args = match &last.arguments {
        PathArguments::AngleBracketed(args) => args,
        _ => {
            return None;
        },
    };
    if args.len() != 1 {
        return None;
    }
    match &args[0] {
        GenericArgument::Type(inner) => Some(inner),
        GenericArgument::Other => None,
    }
}

/// The name of the table: the string of a `table_name` attribute, else the struct's name.
pub open spec fn table_name_of(struct_name: Seq<char>, attrs: Seq<Attribute>) -> Seq<char> {
    match attribute_index(attrs, TABLE_NAME@) {
        Some(i) => match attrs[i as int].lit_str {
            Some(v) => v@,
            None => struct_name,
        },
        None => struct_name,
    }
}

/// The name of the table: the string of a `table_name` attribute, else the struct's name.
pub fn table_name(struct_name: &str, attrs: &Vec<Attribute>) -> (r: String)
    ensures
        r@ == table_name_of(struct_name@, attrs@),
{
    proof {
        lemma_attribute_index(attrs@, TABLE_NAME@);
    }
    match get_attribute(attrs.as_slice(), TABLE_NAME) {
        Some(a) => match &a.lit_str {
            Some(v) => v.clone(),
            None => String::from_str(struct_name),
        },
        None => String::from_str(struct_name),
    }
}

/// A column of the struct: its name and whether it refers to another table.
pub struct ColumnDecl {
    pub name: String,
    pub foreign: bool,
}

/// The name and the foreign flag of a column.
pub open spec fn column_decl_view(c: ColumnDecl) -> (Seq<char>, bool) {
    (c.name@, c.foreign)
}

/// Whether every field has a name.
pub open spec fn fields_named(fields: Seq<Field>) -> bool {
    forall|i: int| 0 <= i < fields.len() ==> (#[trigger] fields[i]).ident is Some
}

/// The column of a named field.
pub open spec fn field_column(f: Field) -> (Seq<char>, bool) {
    (f.ident->0@, has_attribute(f.attrs@, FOREIGN_KEY@))
}

/// The columns of the fields, in order.
pub open spec fn field_columns(fields: Seq<Field>) -> Seq<(Seq<char>, bool)> {
    fields.map_values(|f: Field| field_column(f))
}

/// The columns of the fields marked as identifying a row, in order.
pub open spec fn identifier_columns(fields: Seq<Field>) -> Seq<(Seq<char>, bool)>
    decreases fields.len(),
{
    if fields.len() == 0 {
        seq![]
    } else if has_attribute(fields.last().attrs@, PRIMARY_KEY@) {
        identifier_columns(fields.drop_last()).push(field_column(fields.last()))
    } else {
        identifier_columns(fields.drop_last())
    }
}

/// The columns identifying a row are exactly the fields marked `PrimaryKey`,
/// in order, whether or not they are also marked `ForeignKey`: each gives
/// its name and whether it is marked `ForeignKey`. So every such field is
/// among them, and there are as many as such fields.
pub proof fn law_identifiers_are_primary_keys(fields: Seq<Field>)
    ensures
        identifier_columns(fields) == fields.filter(
            |f: Field| has_attribute(f.attrs@, PRIMARY_KEY@),
        ).map_values(|f: Field| (f.ident->0@, has_attribute(f.attrs@, FOREIGN_KEY@))),
        identifier_columns(fields).len() == fields.filter(
            |f: Field| has_attribute(f.attrs@, PRIMARY_KEY@),
        ).len(),
        forall|i: int|
            0 <= i < fields.len() && has_attribute(#[trigger] fields[i].attrs@, PRIMARY_KEY@)
                ==> identifier_columns(fields).contains(
                (fields[i].ident->0@, has_attribute(fields[i].attrs@, FOREIGN_KEY@)),
            ),
    decreases fields.len(),
{
    let primary = |f: Field| has_attribute(f.attrs@, PRIMARY_KEY@);
    let pair = |f: Field| (f.ident->0@, has_attribute(f.attrs@, FOREIGN_KEY@));
    if fields.len() == 0 {
        reveal(Seq::filter);
        assert(fields.filter(primary).map_values(pair) =~= Seq::empty());
    } else {
        let p = fields.drop_last();
        law_identifiers_are_primary_keys(p);
        let fp = p.filter(primary);
        reveal(Seq::filter);
        assert(fields.filter(primary) == if primary(fields.last()) {
            fp.push(fields.last())
        } else {
            fp
        });
        if primary(fields.last()) {
            assert(fp.push(fields.last()).map_values(pair) =~= fp.map_values(pair).push(
                pair(fields.last()),
            ));
        }
        assert forall|i: int|
            0 <= i < fields.len() && has_attribute(#[trigger] fields[i].attrs@, PRIMARY_KEY@)
                implies identifier_columns(fields).contains(
            (fields[i].ident->0@, has_attribute(fields[i].attrs@, FOREIGN_KEY@)),
        ) by {
            let ids = identifier_columns(fields);
            if i < fields.len() - 1 {
                assert(p[i] == fields[i]);
                assert(has_attribute(p[i].attrs@, PRIMARY_KEY@));
                let k = choose|k: int| 0 <= k < identifier_columns(p).len() && identifier_columns(p)[k]
                    == pair(p[i]);
                assert(ids[k] == identifier_columns(p)[k]);
            } else {
                assert(ids[ids.len() - 1] == pair(fields[i]));
            }
        }
    }
}

/// Whether some attribute is named `name`.
pub fn attributes_have(attrs: &Vec<Attribute>, name: &str) -> (r: bool)
    ensures
        r == has_attribute(attrs@, name@),
{
    get_attribute(attrs.as_slice(), name).is_some()
}

/// The columns identifying a row, and all columns, of a struct whose
/// fields all have names; `None` for a tuple struct.
pub fn table_columns(fields: &Vec<Field>) -> (r: Option<(Vec<ColumnDecl>, Vec<ColumnDecl>)>)
    ensures
        r is Some <==> fields_named(fields@),
        r matches Some((ids, cols)) ==> ids@.map_values(|c: ColumnDecl| column_decl_view(c))
            == identifier_columns(fields@) && cols@.map_values(|c: ColumnDecl| column_decl_view(c))
            == field_columns(fields@),
{
    let mut ids: Vec<ColumnDecl> = Vec::new();
    let mut cols: Vec<ColumnDecl> = Vec::new();
    let n = fields.len();
    let mut i: usize = 0;
    while i < n
        invariant
            n == fields@.len(),
            i <= n,
            fields_named(fields@.take(i as int)),
            ids@.map_values(|c: ColumnDecl| column_decl_view(c)) == identifier_columns(
                fields@.take(i as int),
            ),
            cols@.map_values(|c: ColumnDecl| column_decl_view(c)) == field_columns(
                fields@.take(i as int),
            ),
        decreases n - i,
    {
        let f = &fields[i];
        let name = match &f.ident {
            Some(name) => name,
            None => {
                assert(!fields_named(fields@)) by {
                    assert(fields@[i as int].ident is None);
                }
                return None;
            },
        };
        let foreign = attributes_have(&f.attrs, FOREIGN_KEY);
        let primary = attributes_have(&f.attrs, PRIMARY_KEY);
        let ghost ids_before = ids@;
        let ghost cols_before = cols@;
        proof {
            assert(fields@.take(i + 1).drop_last() =~= fields@.take(i as int));
            assert(fields@.take(i + 1).last() == *f);
            assert(field_column(*f) == (name@, foreign));
        }
        if primary {
            ids.push(ColumnDecl { name: name.clone(), foreign });
            assert(ids@.map_values(|c: ColumnDecl| column_decl_view(c)) =~= ids_before.map_values(
                |c: ColumnDecl| column_decl_view(c),
            ).push((name@, foreign)));
        }
        cols.push(ColumnDecl { name: name.clone(), foreign });
        proof {
            assert(cols@.map_values(|c: ColumnDecl| column_decl_view(c)) =~= cols_before.map_values(
                |c: ColumnDecl| column_decl_view(c),
            ).push((name@, foreign)));
            assert(field_columns(fields@.take(i + 1)) =~= field_columns(fields@.take(i as int)).push(
                (name@, foreign),
            ));
            assert forall|j: int| 0 <= j < i + 1 implies (#[trigger] fields@.take(i + 1)[j]).ident is Some by {
                if j < i {
                    assert(fields@.take(i + 1)[j] == fields@.take(i as int)[j]);
                }
            }
        }
        i = i + 1;
    }
    assert(fields@.take(n as int) =~= fields@);
    Some((ids, cols))
}


/// A literal as written, without its first character, keeping as many
/// characters as the literal has bytes less two: the value of a string literal.
pub open spec fn literal_value(lit: Seq<char>) -> Seq<char> {
    let keep = encode_utf8(lit).len() - 2;
    let rest = lit.len() - 1;
    lit.skip(1).take(if keep < rest { keep } else { rest })
}

/// A literal of at least two bytes.
pub open spec fn literal_ok(lit: Seq<char>) -> bool {
    encode_utf8(lit).len() >= 2
}

/// A `ForeignKey` list: at least one literal, each of at least two bytes.
pub open spec fn key_literals_ok(lits: Seq<Seq<char>>) -> bool {
    &&& lits.len() > 0
    &&& forall|i: int| 0 <= i < lits.len() ==> literal_ok(#[trigger] lits[i])
}

/// The identifiers of a `ForeignKey` list: the value of each literal, in order.
pub open spec fn key_identifiers(lits: Seq<Seq<char>>) -> Seq<Seq<char>> {
    lits.map_values(|l: Seq<char>| literal_value(l))
}

/// The views of a sequence of texts.
pub open spec fn texts_view(v: Seq<String>) -> Seq<Seq<char>> {
    v.map_values(|s: String| s@)
}

/// A text with no characters has no bytes.
pub proof fn lemma_empty_has_no_bytes(s: Seq<char>)
    ensures
        s.len() == 0 ==> encode_utf8(s).len() == 0,
{
}

/// The value of a literal.
pub fn literal_text(lit: &str) -> (r: String)
    requires
        literal_ok(lit@),
    ensures
        r@ == literal_value(lit@),
{
    let bytes = lit.as_bytes().len();
    let chars = lit.unicode_len();
    proof {
        lemma_empty_has_no_bytes(lit@);
    }
    let keep = bytes - 2;
    let rest = chars - 1;
    let n = if keep < rest {
        keep
    } else {
        rest
    };
    String::from_str(lit.substring_char(1, 1 + n))
}

/// The identifiers of a `ForeignKey` list, one for each literal; `None`
/// for an empty list or a literal of fewer than two bytes.
pub fn foreign_key_identifiers(lits: &Vec<String>) -> (r: Option<Vec<String>>)
    ensures
        r is Some <==> key_literals_ok(texts_view(lits@)),
        r matches Some(ids) ==> texts_view(ids@) == key_identifiers(texts_view(lits@)),
{
    let ghost lv = texts_view(lits@);
    let n = lits.len();
    if n == 0 {
        return None;
    }
    let mut ids: Vec<String> = Vec::new();
    let mut i: usize = 0;
    while i < n
        invariant
            n == lits@.len(),
            lv == texts_view(lits@),
            i <= n,
            ids@.len() == i,
            forall|j: int| 0 <= j < i ==> literal_ok(#[trigger] lv[j]),
            forall|j: int| 0 <= j < i ==> #[trigger] ids@[j]@ == literal_value(lv[j]),
        decreases n - i,
    {
        assert(lv[i as int] == lits@[i as int]@);
        if lits[i].as_str().as_bytes().len() < 2 {
            assert(!literal_ok(lv[i as int]));
            return None;
        }
        ids.push(literal_text(lits[i].as_str()));
        i = i + 1;
    }
    assert(texts_view(ids@) =~= key_identifiers(lv));
    Some(ids)
}

/// The kind of join a field of type `ty` makes, and the type of the table it reaches:
/// `Option<T>` or `[Option<T>]` reach zero or one row, `Vec<T>` many, and so on.
pub open spec fn join_and_target(ty: FieldType) -> (ReferenceJoin, FieldType) {
    match ty {
        FieldType::Slice(elem) => match inner_type(OPTION@, *elem) {
            Some(t) => (ReferenceJoin::OneOrNone, t),
            None => (ReferenceJoin::ExaclyOne, ty),
        },
        FieldType::Path(_) => match inner_type(OPTION@, ty) {
            Some(t) => match inner_type(VEC@, t) {
                Some(u) => match inner_type(OPTION@, u) {
                    Some(w) => (ReferenceJoin::MultipleOptionEmpty, w),
                    None => (ReferenceJoin::MultipleEmpty, u),
                },
                None => (ReferenceJoin::OneOrNone, t),
            },
            None => match inner_type(VEC@, ty) {
                Some(t) => match inner_type(OPTION@, t) {
                    Some(u) => (ReferenceJoin::MultipleOption, u),
                    None => (ReferenceJoin::Multiple, t),
                },
                None => (ReferenceJoin::ExaclyOne, ty),
            },
        },
        FieldType::Other => (ReferenceJoin::ExaclyOne, ty),
    }
}

/// The kind of join a field of type `ty` makes, and the type of the table it reaches.
pub fn reference_join<'a>(ty: &'a FieldType) -> (r: (ReferenceJoin, &'a FieldType))
    ensures
        (r.0, *r.1) == join_and_target(*ty),
{
    match ty {
        FieldType::Slice(elem) => match get_inner_type(OPTION, elem) {
            Some(t) => (ReferenceJoin::OneOrNone, t),
            None => (ReferenceJoin::ExaclyOne, ty),
        },
        FieldType::Path(_) => match get_inner_type(OPTION, ty) {
            Some(t) => match get_inner_type(VEC, t) {
                Some(u) => match get_inner_type(OPTION, u) {
                    Some(w) => (ReferenceJoin::MultipleOptionEmpty, w),
                    None => (ReferenceJoin::MultipleEmpty, u),
                },
                None => (ReferenceJoin::OneOrNone, t),
            },
            None => match get_inner_type(VEC, ty) {
                Some(t) => match get_inner_type(OPTION, t) {
                    Some(u) => (ReferenceJoin::MultipleOption, u),
                    None => (ReferenceJoin::Multiple, t),
                },
                None => (ReferenceJoin::ExaclyOne, ty),
            },
        },
        FieldType::Other => (ReferenceJoin::ExaclyOne, ty),
    }
}

/// A reference a derived table declares: its join, the type of the table
/// it reaches, and its identifiers.
pub struct ForeignKey<'a> {
    pub join: ReferenceJoin,
    pub target: &'a FieldType,
    pub identifiers: Vec<String>,
}

/// The fields marked `ForeignKey`, in order.
pub open spec fn foreign_fields(fields: Seq<Field>) -> Seq<Field>
    decreases fields.len(),
{
    if fields.len() == 0 {
        seq![]
    } else if has_attribute(fields.last().attrs@, FOREIGN_KEY@) {
        foreign_fields(fields.drop_last()).push(fields.last())
    } else {
        foreign_fields(fields.drop_last())
    }
}

/// The first `ForeignKey` attribute of a field.
pub open spec fn foreign_key_attribute(f: Field) -> Attribute {
    f.attrs@[attribute_index(f.attrs@, FOREIGN_KEY@)->0 as int]
}

/// A marked field whose `ForeignKey` attribute is a list of literal pairs.
pub open spec fn foreign_key_ok(f: Field) -> bool {
    &&& foreign_key_attribute(f).literals is Some
    &&& key_literals_ok(texts_view(foreign_key_attribute(f).literals->0@))
}

/// The reference a marked field declares.
pub open spec fn foreign_key_matches(k: ForeignKey, f: Field) -> bool {
    &&& (k.join, *k.target) == join_and_target(f.ty)
    &&& texts_view(k.identifiers@) == key_identifiers(texts_view(foreign_key_attribute(f).literals->0@))
}

/// The references of the struct, one for each field marked `ForeignKey`;
/// `None` where such a field's attribute is no list of literal pairs.
pub fn table_references<'a>(fields: &'a Vec<Field>) -> (r: Option<Vec<ForeignKey<'a>>>)
    ensures
        r is Some <==> forall|j: int|
            0 <= j < fields@.len() && has_attribute(#[trigger] fields@[j].attrs@, FOREIGN_KEY@)
                ==> foreign_key_ok(fields@[j]),
        r matches Some(keys) ==> keys@.len() == foreign_fields(fields@).len() && forall|j: int|
            0 <= j < keys@.len() ==> foreign_key_matches(#[trigger] keys@[j], foreign_fields(fields@)[j]),
{
    let mut keys: Vec<ForeignKey<'a>> = Vec::new();
    let n = fields.len();
    let mut i: usize = 0;
    while i < n
        invariant
            n == fields@.len(),
            i <= n,
            forall|j: int|
                0 <= j < i && has_attribute(#[trigger] fields@[j].attrs@, FOREIGN_KEY@)
                    ==> foreign_key_ok(fields@[j]),
            keys@.len() == foreign_fields(fields@.take(i as int)).len(),
            forall|j: int| 0 <= j < keys@.len() ==> foreign_key_matches(#[trigger] keys@[j], foreign_fields(fields@.take(i as int))[j]),
        decreases n - i,
    {
        let f = &fields[i];
        let ghost before = foreign_fields(fields@.take(i as int));
        proof {
            assert(fields@.take(i + 1).drop_last() =~= fields@.take(i as int));
            assert(fields@.take(i + 1).last() == *f);
        }
        match get_attribute(f.attrs.as_slice(), FOREIGN_KEY) {
            Some(attr) => {
                assert(foreign_fields(fields@.take(i + 1)) == before.push(*f));
                assert(foreign_key_attribute(*f) == *attr);
                let lits = match &attr.literals {
                    Some(l) => l,
                    None => {
                        assert(has_attribute(fields@[i as int].attrs@, FOREIGN_KEY@));
                        return None;
                    },
                };
                let identifiers = match foreign_key_identifiers(lits) {
                    Some(ids) => ids,
                    None => {
                        assert(has_attribute(fields@[i as int].attrs@, FOREIGN_KEY@));
                        return None;
                    },
                };
                let (join, target) = reference_join(&f.ty);
                keys.push(ForeignKey { join, target, identifiers });
                proof {
                    let after = foreign_fields(fields@.take(i + 1));
                    assert forall|j: int| 0 <= j < keys@.len() implies foreign_key_matches(#[trigger] keys@[j], after[j]) by {
                        if j < before.len() {
                            assert(after[j] == before[j]);
                        }
                    }
                }
            },
            None => {
                assert(foreign_fields(fields@.take(i + 1)) == before);
            },
        }
        i = i + 1;
    }
    assert(fields@.take(n as int) =~= fields@);
    Some(keys)
}


/// The type left once every `X<..>` of the full path `name` around it is taken off.
pub open spec fn strip_all(name: Seq<char>, t: FieldType) -> FieldType
    decreases t,
{
    match inner_type(name, t) {
        Some(u) => {
            proof {
                lemma_inner_type_smaller(name, t);
            }
            strip_all(name, u)
        },
        None => t,
    }
}

/// The type of the table a marked field reads: the field's type without
/// the `Option`s, then the `Vec`s, then the `Option`s around it.
pub open spec fn read_target(t: FieldType) -> FieldType {
    strip_all(OPTION@, strip_all(VEC@, strip_all(OPTION@, t)))
}

/// Whether a marked field holds many rows: a `Vec` stands under its `Option`s.
pub open spec fn read_in_vec(t: FieldType) -> bool {
    inner_type(VEC@, strip_all(OPTION@, t)) is Some
}

/// The type left once every `X<..>` of the full path `name` around it is taken off.
pub fn strip_wrappers<'a>(name: &str, t: &'a FieldType) -> (r: &'a FieldType)
    ensures
        *r == strip_all(name@, *t),
    decreases t,
{
    match get_inner_type(name, t) {
        Some(u) => {
            proof {
                lemma_inner_type_smaller(name@, *t);
            }
            strip_wrappers(name, u)
        },
        None => t,
    }
}

/// How a row fills one field: from its own column, or from the columns of
/// the table it refers to (into a `Vec` of one row, or directly).
pub enum FieldRead<'a> {
    Column(String),
    Nested { target: &'a FieldType, in_vec: bool },
}

/// The read of field `f` of table `table`.
pub open spec fn field_read_matches(r: FieldRead, table: Seq<char>, f: Field) -> bool {
    if has_attribute(f.attrs@, FOREIGN_KEY@) {
        &&& r matches FieldRead::Nested { target, in_vec }
        &&& *target == read_target(f.ty)
        &&& in_vec == read_in_vec(f.ty)
    } else {
        &&& r matches FieldRead::Column(c)
        &&& c@ == column_alias(table, f.ident->0@)
    }
}

/// The names of the marked fields that hold many rows, which merging rows
/// of the same identifiers extends.
pub open spec fn flattened_fields(fields: Seq<Field>) -> Seq<Seq<char>>
    decreases fields.len(),
{
    if fields.len() == 0 {
        seq![]
    } else if has_attribute(fields.last().attrs@, FOREIGN_KEY@) && read_in_vec(fields.last().ty) {
        flattened_fields(fields.drop_last()).push(fields.last().ident->0@)
    } else {
        flattened_fields(fields.drop_last())
    }
}

/// How a row of the table fills the struct.
pub struct RowPlan<'a> {
    pub reads: Vec<FieldRead<'a>>,
    pub flattened: Vec<String>,
}

/// How a row of table `table_name` fills a struct whose fields all have
/// names; `None` for a tuple struct.
pub fn row_plan<'a>(table_name: &str, fields: &'a Vec<Field>) -> (r: Option<RowPlan<'a>>)
    ensures
        r is Some <==> fields_named(fields@),
        r matches Some(p) ==> {
            &&& p.reads@.len() == fields@.len()
            &&& forall|i: int| 0 <= i < fields@.len() ==> field_read_matches(
                #[trigger] p.reads@[i],
                table_name@,
                fields@[i],
            )
            &&& texts_view(p.flattened@) == flattened_fields(fields@)
        },
{
    let mut reads: Vec<FieldRead<'a>> = Vec::new();
    let mut flattened: Vec<String> = Vec::new();
    let n = fields.len();
    let mut i: usize = 0;
    while i < n
        invariant
            n == fields@.len(),
            i <= n,
            reads@.len() == i,
            forall|j: int| 0 <= j < i ==> (#[trigger] fields@[j]).ident is Some,
            forall|j: int| 0 <= j < i ==> field_read_matches(#[trigger] reads@[j], table_name@, fields@[j]),
            texts_view(flattened@) == flattened_fields(fields@.take(i as int)),
        decreases n - i,
    {
        let f = &fields[i];
        let name = match &f.ident {
            Some(name) => name,
            None => {
                assert(!fields_named(fields@)) by {
                    assert(fields@[i as int].ident is None);
                }
                return None;
            },
        };
        proof {
            assert(fields@.take(i + 1).drop_last() =~= fields@.take(i as int));
            assert(fields@.take(i + 1).last() == *f);
        }
        if attributes_have(&f.attrs, FOREIGN_KEY) {
            let outer = strip_wrappers(OPTION, &f.ty);
            let in_vec = get_inner_type(VEC, outer).is_some();
            let target = strip_wrappers(OPTION, strip_wrappers(VEC, outer));
            reads.push(FieldRead::Nested { target, in_vec });
            if in_vec {
                let ghost before = flattened@;
                flattened.push(name.clone());
                assert(texts_view(flattened@) =~= texts_view(before).push(name@));
            }
        } else {
            let mut column = String::from_str(table_name);
            column.append("_");
            column.append(name.as_str());
            reads.push(FieldRead::Column(column));
        }
        i = i + 1;
    }
    assert(fields@.take(n as int) =~= fields@);
    Some(RowPlan { reads, flattened })
}


/// What deriving `Table` for a struct decides: the table's name, the
/// columns identifying a row, all columns, and the references.
pub struct TableDerive<'a> {
    pub table_name: String,
    pub identifiers: Vec<ColumnDecl>,
    pub columns: Vec<ColumnDecl>,
    pub references: Vec<ForeignKey<'a>>,
}

/// Whether every field marked `ForeignKey` carries a list of literal pairs.
pub open spec fn foreign_keys_ok(fields: Seq<Field>) -> bool {
    forall|j: int|
        0 <= j < fields.len() && has_attribute(#[trigger] fields[j].attrs@, FOREIGN_KEY@)
            ==> foreign_key_ok(fields[j])
}

/// What deriving `Table` for the struct `struct_name` decides; `None` for a
/// tuple struct or a `ForeignKey` attribute that is no list of literal pairs.
pub fn table_derive<'a>(struct_name: &str, attrs: &Vec<Attribute>, fields: &'a Vec<Field>) -> (r: Option<TableDerive<'a>>)
    ensures
        r is Some <==> fields_named(fields@) && foreign_keys_ok(fields@),
        r matches Some(d) ==> {
            &&& d.table_name@ == table_name_of(struct_name@, attrs@)
            &&& d.identifiers@.map_values(|c: ColumnDecl| column_decl_view(c)) == identifier_columns(fields@)
            &&& d.columns@.map_values(|c: ColumnDecl| column_decl_view(c)) == field_columns(fields@)
            &&& d.references@.len() == foreign_fields(fields@).len()
            &&& forall|j: int| 0 <= j < d.references@.len() ==> foreign_key_matches(
                #[trigger] d.references@[j],
                foreign_fields(fields@)[j],
            )
        },
{
    let name = table_name(struct_name, attrs);
    let (identifiers, columns) = match table_columns(fields) {
        Some(c) => c,
        None => {
            return None;
        },
    };
    let references = match table_references(fields) {
        Some(r) => r,
        None => {
            return None;
        },
    };
    Some(TableDerive { table_name: name, identifiers, columns, references })
}

/// What deriving `MySQLRow` for a struct decides: the table's name, how a
/// row fills the struct, and whether rows are merged (some marked field
/// holds many rows).
pub struct RowDerive<'a> {
    pub table_name: String,
    pub plan: RowPlan<'a>,
    pub row_flatten: bool,
}

/// What deriving `MySQLRow` for the struct `struct_name` decides; `None` for a tuple struct.
pub fn mysqlrow_derive<'a>(struct_name: &str, attrs: &Vec<Attribute>, fields: &'a Vec<Field>) -> (r: Option<RowDerive<'a>>)
    ensures
        r is Some <==> fields_named(fields@),
        r matches Some(d) ==> {
            let table = table_name_of(struct_name@, attrs@);
            &&& d.table_name@ == table
            &&& d.plan.reads@.len() == fields@.len()
            &&& forall|i: int| 0 <= i < fields@.len() ==> field_read_matches(
                #[trigger] d.plan.reads@[i],
                table,
                fields@[i],
            )
            &&& texts_view(d.plan.flattened@) == flattened_fields(fields@)
            &&& d.row_flatten == (flattened_fields(fields@).len() > 0)
        },
{
    let name = table_name(struct_name, attrs);
    let plan = match row_plan(name.as_str(), fields) {
        Some(p) => p,
        None => {
            return None;
        },
    };
    let row_flatten = plan.flattened.len() > 0;
    assert(texts_view(plan.flattened@).len() == plan.flattened@.len());
    Some(RowDerive { table_name: name, plan, row_flatten })
}


/// The columns that the derived `Table::columns` returns.
pub open spec fn declared_columns(fields: Seq<Field>) -> Seq<ColumnView> {
    field_columns(fields).map_values(|c: (Seq<char>, bool)| ColumnView { name: c.0, foreign: c.1 })
}

/// For a struct deriving both `Table` and `MySQLRow`, a field that refers to
/// no other table is read from the column the query names it by: the query
/// selects `<table>.<field> AS <table>_<field>` among the table's own
/// columns, and the row reads `<table>_<field>`, where both derives name the
/// table the same way.
pub proof fn law_row_reads_query_alias(struct_name: Seq<char>, attrs: Seq<Attribute>, fields: Seq<Field>, i: int)
    requires
        fields_named(fields),
        0 <= i < fields.len(),
        !has_attribute(fields[i].attrs@, FOREIGN_KEY@),
    ensures
        ({
            let table = table_name_of(struct_name, attrs);
            let field = fields[i].ident->0@;
            &&& table_items((table, own_columns(declared_columns(fields)))).contains(
                column_item(table, field),
            )
            &&& column_item(table, field) == table + "."@ + field + " AS "@ + column_alias(
                table,
                field,
            )
            &&& forall|r: FieldRead| #[trigger]
                field_read_matches(r, table, fields[i]) ==> (r matches FieldRead::Column(c) && c@
                    == column_alias(table, field))
        }),
{
    let table = table_name_of(struct_name, attrs);
    let field = fields[i].ident->0@;
    let cols = declared_columns(fields);
    assert(cols[i] == ColumnView { name: field, foreign: false });
    lemma_own_columns_keep(cols, i);
    let own = own_columns(cols);
    let k = choose|k: int| 0 <= k < own.len() && own[k] == cols[i];
    assert(table_items((table, own))[k] == column_item(table, field));
}

} // verus!
