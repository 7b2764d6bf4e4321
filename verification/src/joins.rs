//! The tables a query reaches through references, and the columns it selects.
//!
//! The references are visited as a queue: the first one waiting is handled,
//! then its own references wait behind the others, each only if no equal
//! reference was handled or waits already.
use vstd::prelude::*;
use vstd::string::StringExecFns;
use crate::column::{Column, ColumnView};
use crate::column_map::{
    ColumnMap, assoc_extend, assoc_insert, assoc_map, columns_view, keys_distinct,
    lemma_assoc_map_extend, lemma_assoc_map_insert, lemma_extend_distinct, lemma_insert_distinct,
};
use crate::query::select::{Select, SelectView};
use crate::reference::{join_clause, parse_reference, reference_is_well_formed, reference_well_formed, target_of};
use crate::table::{Reference, ReferenceView, copy_reference, is_inner_join, reference_eq, strings_view};

verus! {

/// The views of a sequence of references.
pub open spec fn refs_view(v: Seq<Reference>) -> Seq<ReferenceView> {
    v.map_values(|r: Reference| r@)
}

/// The number of references in a reference, itself included, all the way down.
pub open spec fn ref_size(r: ReferenceView) -> nat
    decreases r,
{
    1 + refs_size(r.references)
}

/// The number of references in a sequence of references, all the way down.
pub open spec fn refs_size(rs: Seq<ReferenceView>) -> nat
    decreases rs,
{
    if rs.len() == 0 {
        0
    } else {
        refs_size(rs.drop_last()) + ref_size(rs.last())
    }
}

/// A reference whose identifiers can all be read: at least one, each well formed,
/// and so for its own references, all the way down.
pub open spec fn reference_ok(r: ReferenceView) -> bool
    decreases r,
{
    &&& r.identifiers.len() > 0
    &&& forall|i: int| 0 <= i < r.identifiers.len() ==> reference_well_formed(#[trigger] r.identifiers[i])
    &&& references_ok(r.references)
}

/// Every reference of the sequence can be read, all the way down.
pub open spec fn references_ok(rs: Seq<ReferenceView>) -> bool
    decreases rs,
{
    rs.len() == 0 || (references_ok(rs.drop_last()) && reference_ok(rs.last()))
}

/// `INNER` or `LEFT`.
pub open spec fn join_kind(r: ReferenceView) -> Seq<char> {
    if is_inner_join(r.join) {
        "INNER"@
    } else {
        "LEFT"@
    }
}

/// The table reached before the `k`-th identifier of `r`.
pub open spec fn table_before(r: ReferenceView, k: int) -> Seq<char> {
    if k == 0 {
        r.from_table_name
    } else {
        target_of(r.to_table_name, r.identifiers[k - 1])
    }
}

/// The identifier before the `k`-th one, if any.
pub open spec fn identifier_before(r: ReferenceView, k: int) -> Option<Seq<char>> {
    if k == 0 {
        None
    } else {
        Some(r.identifiers[k - 1])
    }
}

/// One `<kind> JOIN <clause>` line for each identifier of `r`.
pub open spec fn join_lines(r: ReferenceView) -> Seq<Seq<char>> {
    Seq::new(
        r.identifiers.len(),
        |k: int|
            join_kind(r) + " JOIN "@ + join_clause(
                table_before(r, k),
                r.to_table_name,
                identifier_before(r, k),
                r.identifiers[k],
            ),
    )
}

/// `queue` with each of `children`, in order, that neither `done` holds nor the queue holds by then.
pub open spec fn enqueue(
    queue: Seq<ReferenceView>,
    done: Seq<ReferenceView>,
    children: Seq<ReferenceView>,
) -> Seq<ReferenceView>
    decreases children.len(),
{
    if children.len() == 0 {
        queue
    } else {
        let q = enqueue(queue, done, children.drop_last());
        let c = children.last();
        if done.contains(c) || q.contains(c) {
            q
        } else {
            q.push(c)
        }
    }
}

/// The join lines of the references waiting in `todo`, and of those
/// that join the queue while it is worked off, `done` being handled already.
pub open spec fn traverse(todo: Seq<ReferenceView>, done: Seq<ReferenceView>) -> Seq<Seq<char>>
    decreases refs_size(todo),
{
    if todo.len() == 0 {
        seq![]
    } else {
        let r = todo[0];
        let done2 = done.push(r);
        let next = enqueue(todo.drop_first(), done2, r.references);
        proof {
            lemma_next_smaller(todo, done);
        }
        join_lines(r) + traverse(next, done2)
    }
}

/// The size of a sequence with one more reference.
pub proof fn lemma_refs_size_push(s: Seq<ReferenceView>, x: ReferenceView)
    ensures
        refs_size(s.push(x)) == refs_size(s) + ref_size(x),
{
    assert(s.push(x).drop_last() =~= s);
}

/// The size of a sequence is that of its first reference and of the rest.
pub proof fn lemma_refs_size_first(s: Seq<ReferenceView>)
    requires
        s.len() > 0,
    ensures
        refs_size(s) == ref_size(s[0]) + refs_size(s.drop_first()),
    decreases s.len(),
{
    if s.len() == 1 {
        assert(s.drop_last() =~= Seq::<ReferenceView>::empty());
        assert(s.drop_first() =~= Seq::<ReferenceView>::empty());
    } else {
        lemma_refs_size_first(s.drop_last());
        assert(s.drop_last().drop_first() =~= s.drop_first().drop_last());
        assert(s.drop_first().last() == s.last());
    }
}

/// What `enqueue` adds weighs at most what the children weigh, and the queue stays in front.
pub proof fn lemma_enqueue(queue: Seq<ReferenceView>, done: Seq<ReferenceView>, children: Seq<ReferenceView>)
    ensures
        refs_size(enqueue(queue, done, children)) <= refs_size(queue) + refs_size(children),
        enqueue(queue, done, children).len() >= queue.len(),
        forall|i: int| 0 <= i < queue.len() ==> #[trigger] enqueue(queue, done, children)[i] == queue[i],
        forall|i: int| 0 <= i < enqueue(queue, done, children).len() ==> queue.contains(
            #[trigger] enqueue(queue, done, children)[i],
        ) || children.contains(enqueue(queue, done, children)[i]),
    decreases children.len(),
{
    if children.len() > 0 {
        let p = children.drop_last();
        let q = enqueue(queue, done, p);
        let c = children.last();
        lemma_enqueue(queue, done, p);
        lemma_refs_size_push(q, c);
        assert(children =~= p.push(c));
        lemma_refs_size_push(p, c);
        let e = enqueue(queue, done, children);
        assert forall|i: int| 0 <= i < e.len() implies queue.contains(#[trigger] e[i])
            || children.contains(e[i]) by {
            if i < q.len() {
                assert(e[i] == q[i]);
                if p.contains(q[i]) {
                    let k = choose|k: int| 0 <= k < p.len() && p[k] == q[i];
                    assert(children[k] == p[k]);
                }
            } else {
                assert(e[i] == c);
                assert(children[children.len() - 1] == c);
            }
        }
    }
}

/// The queue after handling its first reference weighs less than before.
pub proof fn lemma_next_smaller(todo: Seq<ReferenceView>, done: Seq<ReferenceView>)
    requires
        todo.len() > 0,
    ensures
        refs_size(enqueue(todo.drop_first(), done.push(todo[0]), todo[0].references)) < refs_size(
            todo,
        ),
{
    lemma_refs_size_first(todo);
    lemma_enqueue(todo.drop_first(), done.push(todo[0]), todo[0].references);
}

/// `references_ok` holds exactly when each reference is ok.
pub proof fn lemma_references_ok(rs: Seq<ReferenceView>)
    ensures
        references_ok(rs) <==> forall|i: int| 0 <= i < rs.len() ==> reference_ok(#[trigger] rs[i]),
    decreases rs.len(),
{
    if rs.len() > 0 {
        let p = rs.drop_last();
        lemma_references_ok(p);
        assert(forall|i: int| 0 <= i < p.len() ==> p[i] == rs[i]);
        if forall|i: int| 0 <= i < rs.len() ==> reference_ok(#[trigger] rs[i]) {
            assert(reference_ok(rs[rs.len() - 1]));
        }
    }
}

/// The references of a reference, seen one by one.
pub proof fn lemma_children_view(r: Reference)
    ensures
        r@.references == refs_view(r.references@),
{
    assert(r@.references =~= refs_view(r.references@));
}

/// Whether `v` holds a reference equal to `c`.
pub fn contains_reference(v: &Vec<Reference>, c: &Reference) -> (r: bool)
    ensures
        r == refs_view(v@).contains(c@),
{
    let n = v.len();
    let mut i: usize = 0;
    while i < n
        invariant
            n == v@.len(),
            i <= n,
            forall|j: int| 0 <= j < i ==> v@[j]@ != c@,
        decreases n - i,
    {
        if reference_eq(&v[i], c) {
            assert(refs_view(v@)[i as int] == c@);
            return true;
        }
        i = i + 1;
    }
    assert forall|j: int| 0 <= j < refs_view(v@).len() implies refs_view(v@)[j] != c@ by {
        assert(refs_view(v@)[j] == v@[j]@);
    }
    false
}

/// Whether the reference, and its own references all the way down, can be read.
pub fn reference_is_ok(r: &Reference) -> (b: bool)
    ensures
        b == reference_ok(r@),
    decreases r,
{
    let n = r.identifiers.len();
    if n == 0 {
        assert(r@.identifiers.len() == 0);
        return false;
    }
    let mut i: usize = 0;
    while i < n
        invariant
            n == r.identifiers@.len(),
            i <= n,
            forall|j: int| 0 <= j < i ==> reference_well_formed(#[trigger] r@.identifiers[j]),
        decreases n - i,
    {
        if !reference_is_well_formed(r.identifiers[i].as_str()) {
            assert(!reference_well_formed(r@.identifiers[i as int]));
            return false;
        }
        i = i + 1;
    }
    let m = r.references.len();
    let mut k: usize = 0;
    proof {
        lemma_children_view(*r);
        lemma_references_ok(r@.references);
    }
    while k < m
        invariant
            m == r.references@.len(),
            k <= m,
            r@.references == refs_view(r.references@),
            forall|j: int| 0 <= j < k ==> reference_ok(#[trigger] r.references@[j]@),
        decreases m - k,
    {
        assert(decreases_to!(r => r.references));
        assert(decreases_to!(r.references => r.references@));
        assert(decreases_to!(r.references@ => r.references@[k as int]));
        if !reference_is_ok(&r.references[k]) {
            proof {
                assert(r@.references[k as int] == r.references@[k as int]@);
                lemma_references_ok(r@.references);
            }
            return false;
        }
        k = k + 1;
    }
    proof {
        assert forall|j: int| 0 <= j < r@.references.len() implies reference_ok(
            #[trigger] r@.references[j],
        ) by {
            assert(r@.references[j] == r.references@[j]@);
        }
        lemma_references_ok(r@.references);
    }
    true
}

/// Whether every reference of `rs` can be read, all the way down.
pub fn references_are_ok(rs: &Vec<Reference>) -> (b: bool)
    ensures
        b == references_ok(refs_view(rs@)),
{
    let n = rs.len();
    let mut i: usize = 0;
    proof {
        lemma_references_ok(refs_view(rs@));
    }
    while i < n
        invariant
            n == rs@.len(),
            i <= n,
            forall|j: int| 0 <= j < i ==> reference_ok(#[trigger] rs@[j]@),
        decreases n - i,
    {
        if !reference_is_ok(&rs[i]) {
            proof {
                assert(refs_view(rs@)[i as int] == rs@[i as int]@);
                assert(!reference_ok(refs_view(rs@)[i as int]));
                lemma_references_ok(refs_view(rs@));
            }
            return false;
        }
        i = i + 1;
    }
    assert forall|j: int| 0 <= j < refs_view(rs@).len() implies reference_ok(
        #[trigger] refs_view(rs@)[j],
    ) by {
        assert(refs_view(rs@)[j] == rs@[j]@);
    }
    true
}

/// Appends the join lines of one reference.
fn push_join_lines(r: &Reference, results: &mut Vec<String>)
    requires
        reference_ok(r@),
    ensures
        strings_view(final(results)@) == strings_view(old(results)@) + join_lines(r@),
{
    proof {
        reveal_strlit(" JOIN ");
    }
    let kind: &str = if r.join.is_inner() {
        "INNER"
    } else {
        "LEFT"
    };
    assert(kind@ == join_kind(r@));
    let n = r.identifiers.len();
    let ghost lines = join_lines(r@);
    let ghost start = strings_view(results@);
    let mut table_name = String::from_str(r.from_table_name);
    let mut k: usize = 0;
    while k < n
        invariant
            n == r.identifiers@.len(),
            n == r@.identifiers.len(),
            reference_ok(r@),
            lines == join_lines(r@),
            kind@ == join_kind(r@),
            k <= n,
            table_name@ == table_before(r@, k as int),
            strings_view(results@) == start + lines.take(k as int),
        decreases n - k,
    {
        assert(r@.identifiers[k as int] == r.identifiers@[k as int]@);
        assert(reference_well_formed(r@.identifiers[k as int]));
        let clause = if k == 0 {
            parse_reference(&mut table_name, r.to_table_name, None, r.identifiers[0].as_str())
        } else {
            assert(r@.identifiers[k - 1] == r.identifiers@[k - 1]@);
            parse_reference(
                &mut table_name,
                r.to_table_name,
                Some(r.identifiers[k - 1].as_str()),
                r.identifiers[k].as_str(),
            )
        };
        let mut line = String::from_str(kind);
        line.append(" JOIN ");
        line.append(clause.as_str());
        let ghost before = results@;
        results.push(line);
        proof {
            assert(line@ == lines[k as int]);
            assert(strings_view(results@) =~= strings_view(before).push(line@));
            assert(lines.take(k + 1) =~= lines.take(k as int).push(lines[k as int]));
            assert(start + lines.take(k + 1) =~= (start + lines.take(k as int)).push(lines[k as int]));
        }
        k = k + 1;
    }
    assert(lines.take(n as int) =~= lines);
}

/// The table, then the join lines of every reference reached from `references`.
pub fn select_joins(table_name: &'static str, references: Vec<Reference>) -> (r: Vec<String>)
    requires
        references_ok(refs_view(references@)),
    ensures
        strings_view(r@) == seq![table_name@] + traverse(refs_view(references@), seq![]),
{
    let ghost all = refs_view(references@);
    let mut done: Vec<Reference> = Vec::new();
    let mut todo: Vec<Reference> = references;
    let mut results: Vec<String> = Vec::new();
    proof {
        lemma_references_ok(all);
        assert(refs_view(done@) =~= Seq::<ReferenceView>::empty());
        assert(strings_view(results@) =~= Seq::<Seq<char>>::empty());
        assert(strings_view(results@) + traverse(all, seq![]) =~= traverse(all, seq![]));
        assert forall|j: int| 0 <= j < todo@.len() implies reference_ok(#[trigger] todo@[j]@) by {
            assert(all[j] == todo@[j]@);
        }
    }
    while todo.len() > 0
        invariant
            traverse(all, seq![]) == strings_view(results@) + traverse(refs_view(todo@), refs_view(done@)),
            forall|j: int| 0 <= j < todo@.len() ==> reference_ok(#[trigger] todo@[j]@),
        decreases refs_size(refs_view(todo@)),
    {
        let ghost todo_view = refs_view(todo@);
        let ghost done_view = refs_view(done@);
        let ghost lines_before = strings_view(results@);
        assert(forall|j: int| 0 <= j < todo_view.len() ==> reference_ok(#[trigger] todo_view[j])) by {
            assert(forall|j: int| 0 <= j < todo_view.len() ==> todo_view[j] == todo@[j]@);
        }
        let r = todo.remove(0);
        proof {
            assert(todo_view[0] == r@);
            assert(refs_view(todo@) =~= todo_view.drop_first());
            assert(forall|j: int| 0 <= j < todo@.len() ==> todo@[j]@ == todo_view[j + 1]);
            lemma_children_view(r);
            lemma_references_ok(r@.references);
            lemma_next_smaller(todo_view, done_view);
        }
        push_join_lines(&r, &mut results);
        let ghost done2 = done_view.push(r@);
        let ghost rest = refs_view(todo@);
        let n = r.references.len();
        let mut i: usize = 0;
        assert(r@.references.take(0) =~= Seq::<ReferenceView>::empty());
        while i < n
            invariant
                n == r.references@.len(),
                r@.references == refs_view(r.references@),
                forall|j: int| 0 <= j < n ==> reference_ok(#[trigger] r@.references[j]),
                i <= n,
                done2 == refs_view(done@).push(r@),
                refs_view(todo@) == enqueue(rest, done2, r@.references.take(i as int)),
                forall|j: int| 0 <= j < todo@.len() ==> reference_ok(#[trigger] todo@[j]@),
            decreases n - i,
        {
            let c = &r.references[i];
            let ghost before = refs_view(todo@);
            assert(r@.references[i as int] == c@);
            proof {
                assert(r@.references.take(i + 1).drop_last() =~= r@.references.take(i as int));
                assert(r@.references.take(i + 1).last() == c@);
                assert(done2.contains(c@) <==> (refs_view(done@).contains(c@) || r@ == c@)) by {
                    if done2.contains(c@) {
                        let k = choose|k: int| 0 <= k < done2.len() && done2[k] == c@;
                        if k < refs_view(done@).len() {
                            assert(refs_view(done@)[k] == c@);
                        }
                    }
                    if refs_view(done@).contains(c@) {
                        let k = choose|k: int| 0 <= k < refs_view(done@).len() && refs_view(done@)[k] == c@;
                        assert(done2[k] == c@);
                    }
                    if r@ == c@ {
                        assert(done2[done2.len() - 1] == c@);
                    }
                }
            }
            if !contains_reference(&done, c) && !reference_eq(&r, c) && !contains_reference(&todo, c) {
                todo.push(copy_reference(c));
                proof {
                    assert(refs_view(todo@) =~= before.push(c@));
                }
            }
            i = i + 1;
        }
        assert(r@.references.take(n as int) =~= r@.references);
        done.push(r);
        proof {
            assert(refs_view(done@) =~= done2);
            assert(traverse(todo_view, done_view) == join_lines(r@) + traverse(refs_view(todo@), refs_view(done@)));
            assert(lines_before + (join_lines(r@) + traverse(refs_view(todo@), refs_view(done@)))
                =~= (lines_before + join_lines(r@)) + traverse(refs_view(todo@), refs_view(done@)));
        }
    }
    proof {
        assert(traverse(refs_view(todo@), refs_view(done@)) =~= Seq::<Seq<char>>::empty());
        assert(strings_view(results@) + seq![] =~= strings_view(results@));
    }
    let mut out: Vec<String> = Vec::new();
    out.push(String::from_str(table_name));
    let mut i: usize = 0;
    let n = results.len();
    while i < n
        invariant
            n == results@.len(),
            i <= n,
            strings_view(out@) == seq![table_name@] + strings_view(results@).take(i as int),
        decreases n - i,
    {
        let ghost before = strings_view(out@);
        let line = results[i].clone();
        out.push(line);
        proof {
            assert(strings_view(out@) =~= before.push(results@[i as int]@));
            assert(strings_view(results@).take(i + 1) =~= strings_view(results@).take(i as int).push(
                results@[i as int]@,
            ));
        }
        i = i + 1;
    }
    assert(strings_view(results@).take(n as int) =~= strings_view(results@));
    out
}


/// The references handled while the queue `todo` is worked off, in order.
pub open spec fn handled(todo: Seq<ReferenceView>, done: Seq<ReferenceView>) -> Seq<ReferenceView>
    decreases refs_size(todo),
{
    if todo.len() == 0 {
        seq![]
    } else {
        let r = todo[0];
        let done2 = done.push(r);
        proof {
            lemma_next_smaller(todo, done);
        }
        seq![r] + handled(enqueue(todo.drop_first(), done2, r.references), done2)
    }
}

/// No element of `s` is in `d`.
pub open spec fn disjoint(s: Seq<ReferenceView>, d: Seq<ReferenceView>) -> bool {
    forall|i: int| 0 <= i < s.len() ==> !d.contains(#[trigger] s[i])
}

/// Every reference of every element of `s` is in `t`.
pub open spec fn children_within(s: Seq<ReferenceView>, t: Seq<ReferenceView>) -> bool {
    forall|i: int, j: int|
        0 <= i < s.len() && 0 <= j < s[i].references.len() ==> t.contains(
            #[trigger] s[i].references[j],
        )
}

/// What `enqueue` adds is new: neither done nor queued already; and every
/// child ends up done or queued.
pub proof fn lemma_enqueue_fresh(queue: Seq<ReferenceView>, done: Seq<ReferenceView>, children: Seq<ReferenceView>)
    requires
        queue.no_duplicates(),
        disjoint(queue, done),
    ensures
        enqueue(queue, done, children).no_duplicates(),
        disjoint(enqueue(queue, done, children), done),
        forall|j: int| 0 <= j < children.len() ==> done.contains(#[trigger] children[j]) || enqueue(
            queue,
            done,
            children,
        ).contains(children[j]),
    decreases children.len(),
{
    if children.len() > 0 {
        let p = children.drop_last();
        let q = enqueue(queue, done, p);
        let c = children.last();
        lemma_enqueue_fresh(queue, done, p);
        let e = enqueue(queue, done, children);
        assert forall|j: int| 0 <= j < children.len() implies done.contains(#[trigger] children[j])
            || e.contains(children[j]) by {
            if j < p.len() {
                assert(children[j] == p[j]);
                if q.contains(p[j]) {
                    let k = choose|k: int| 0 <= k < q.len() && q[k] == p[j];
                    if e != q {
                        assert(e[k] == q[k]);
                    }
                }
            } else {
                if !done.contains(c) && !q.contains(c) {
                    assert(e[q.len() as int] == c);
                }
            }
        }
    }
}

/// The join lines are those of the handled references, one after the other.
pub proof fn lemma_traverse_is_handled(todo: Seq<ReferenceView>, done: Seq<ReferenceView>)
    ensures
        traverse(todo, done) == handled(todo, done).map_values(|r: ReferenceView| join_lines(r)).flatten(),
    decreases refs_size(todo),
{
    if todo.len() > 0 {
        let r = todo[0];
        let done2 = done.push(r);
        let next = enqueue(todo.drop_first(), done2, r.references);
        lemma_next_smaller(todo, done);
        lemma_traverse_is_handled(next, done2);
        let h = handled(todo, done);
        let hm = h.map_values(|r: ReferenceView| join_lines(r));
        assert(hm.drop_first() =~= handled(next, done2).map_values(|r: ReferenceView| join_lines(r)));
        assert(hm.first() == join_lines(r));
    } else {
        assert(handled(todo, done).map_values(|r: ReferenceView| join_lines(r)) =~= Seq::<Seq<Seq<char>>>::empty());
    }
}

/// Working off a queue of distinct references handles each reference at
/// most once, and none of those handled before; every queued reference is
/// handled; and every reference of a handled one is handled, before or then.
pub proof fn lemma_handled(todo: Seq<ReferenceView>, done: Seq<ReferenceView>)
    requires
        todo.no_duplicates(),
        disjoint(todo, done),
    ensures
        handled(todo, done).no_duplicates(),
        disjoint(handled(todo, done), done),
        forall|i: int| 0 <= i < todo.len() ==> handled(todo, done).contains(#[trigger] todo[i]),
        children_within(done, done + todo) ==> children_within(
            done + handled(todo, done),
            done + handled(todo, done),
        ),
    decreases refs_size(todo),
{
    let h = handled(todo, done);
    if todo.len() == 0 {
        assert(h =~= Seq::<ReferenceView>::empty());
        assert(done + h =~= done);
        assert(done + todo =~= done);
    } else {
        let r = todo[0];
        let rest = todo.drop_first();
        let done2 = done.push(r);
        let next = enqueue(rest, done2, r.references);
        lemma_next_smaller(todo, done);
        assert(rest.no_duplicates());
        assert(disjoint(rest, done2)) by {
            assert forall|i: int| 0 <= i < rest.len() implies !done2.contains(#[trigger] rest[i]) by {
                assert(rest[i] == todo[i + 1]);
                if done2.contains(rest[i]) {
                    let k = choose|k: int| 0 <= k < done2.len() && done2[k] == rest[i];
                    if k < done.len() {
                        assert(done[k] == todo[i + 1]);
                        assert(done.contains(todo[i + 1]));
                    }
                }
            }
        }
        lemma_enqueue_fresh(rest, done2, r.references);
        lemma_enqueue(rest, done2, r.references);
        lemma_handled(next, done2);
        let h2 = handled(next, done2);
        assert(h == seq![r] + h2);
        assert(!done.contains(r)) by {
            assert(todo[0] == r);
        }
        assert(h.no_duplicates()) by {
            assert forall|i: int, j: int| 0 <= i < h.len() && 0 <= j < h.len() && i != j implies h[i] != h[j] by {
                if i == 0 && j > 0 {
                    assert(h[j] == h2[j - 1]);
                    assert(!done2.contains(h2[j - 1]));
                    assert(done2[done.len() as int] == r);
                } else if j == 0 && i > 0 {
                    assert(h[i] == h2[i - 1]);
                    assert(!done2.contains(h2[i - 1]));
                    assert(done2[done.len() as int] == r);
                } else if i > 0 && j > 0 {
                    assert(h[i] == h2[i - 1]);
                    assert(h[j] == h2[j - 1]);
                }
            }
        }
        assert(disjoint(h, done)) by {
            assert forall|i: int| 0 <= i < h.len() implies !done.contains(#[trigger] h[i]) by {
                if i > 0 {
                    assert(h[i] == h2[i - 1]);
                    if done.contains(h2[i - 1]) {
                        let k = choose|k: int| 0 <= k < done.len() && done[k] == h2[i - 1];
                        assert(done2[k] == h2[i - 1]);
                    }
                }
            }
        }
        assert forall|i: int| 0 <= i < todo.len() implies h.contains(#[trigger] todo[i]) by {
            if i == 0 {
                assert(h[0] == r);
            } else {
                assert(todo[i] == rest[i - 1]);
                assert(next[i - 1] == rest[i - 1]);
                let k = choose|k: int| 0 <= k < h2.len() && h2[k] == next[i - 1];
                assert(h[k + 1] == h2[k]);
            }
        }
        assert(done + h =~= done2 + h2);
        if children_within(done, done + todo) {
            assert(children_within(done2, done2 + next)) by {
                assert forall|i: int, j: int|
                    0 <= i < done2.len() && 0 <= j < done2[i].references.len() implies (done2
                    + next).contains(#[trigger] done2[i].references[j]) by {
                    let c = done2[i].references[j];
                    if i < done.len() {
                        assert(done2[i] == done[i]);
                        assert((done + todo).contains(c));
                        let k = choose|k: int| 0 <= k < (done + todo).len() && (done + todo)[k] == c;
                        if k < done.len() {
                            assert((done2 + next)[k] == c);
                        } else if k == done.len() {
                            assert(c == r);
                            assert((done2 + next)[done.len() as int] == c);
                        } else {
                            let m = k - done.len() - 1;
                            assert(c == rest[m]);
                            assert(next[m] == rest[m]);
                            assert((done2 + next)[done2.len() + m] == c);
                        }
                    } else {
                        assert(done2[i] == r);
                        assert(r.references[j] == c);
                        if done2.contains(c) {
                            let k = choose|k: int| 0 <= k < done2.len() && done2[k] == c;
                            assert((done2 + next)[k] == c);
                        } else {
                            assert(next.contains(c));
                            let k = choose|k: int| 0 <= k < next.len() && next[k] == c;
                            assert((done2 + next)[done2.len() + k] == c);
                        }
                    }
                }
            }
        }
    }
}

/// Every reference reached from `references`, directly or through other
/// references, is joined exactly once (where the table's own references
/// are distinct): the handled references hold each given reference, hold
/// every reference of each handled one, and hold no reference twice.
pub proof fn law_each_reference_joined_once(references: Seq<ReferenceView>)
    requires
        references.no_duplicates(),
    ensures
        traverse(references, seq![]) == handled(references, seq![]).map_values(
            |r: ReferenceView| join_lines(r),
        ).flatten(),
        handled(references, seq![]).no_duplicates(),
        forall|i: int| 0 <= i < references.len() ==> handled(references, seq![]).contains(
            #[trigger] references[i],
        ),
        children_within(handled(references, seq![]), handled(references, seq![])),
{
    let none = Seq::<ReferenceView>::empty();
    lemma_traverse_is_handled(references, none);
    lemma_handled(references, none);
    assert(none + handled(references, none) =~= handled(references, none));
}

/// The columns that hold no foreign key, in order.
pub open spec fn own_columns(columns: Seq<ColumnView>) -> Seq<ColumnView>
    decreases columns.len(),
{
    if columns.len() == 0 {
        seq![]
    } else if columns.last().foreign {
        own_columns(columns.drop_last())
    } else {
        own_columns(columns.drop_last()).push(columns.last())
    }
}

/// A column that holds no foreign key is among the own columns.
pub proof fn lemma_own_columns_keep(columns: Seq<ColumnView>, i: int)
    requires
        0 <= i < columns.len(),
        !columns[i].foreign,
    ensures
        own_columns(columns).contains(columns[i]),
    decreases columns.len(),
{
    let p = columns.drop_last();
    if i < columns.len() - 1 {
        lemma_own_columns_keep(p, i);
        assert(p[i] == columns[i]);
        let k = choose|k: int| 0 <= k < own_columns(p).len() && own_columns(p)[k] == p[i];
        if !columns.last().foreign {
            assert(own_columns(columns)[k] == own_columns(p)[k]);
        }
    } else {
        assert(own_columns(columns)[own_columns(p).len() as int] == columns[i]);
    }
}

/// `entries` extended with the columns of each reference in turn.
pub open spec fn extend_with_references(
    entries: Seq<(Seq<char>, Seq<ColumnView>)>,
    references: Seq<Reference>,
) -> Seq<(Seq<char>, Seq<ColumnView>)>
    decreases references.len(),
{
    if references.len() == 0 {
        entries
    } else {
        assoc_extend(
            extend_with_references(entries, references.drop_last()),
            references.last().all_columns@,
        )
    }
}

/// The columns a query of `table_name` selects: the table's own columns,
/// then the columns each reference brings.
pub open spec fn collected_columns(
    table_name: Seq<char>,
    columns: Seq<ColumnView>,
    references: Seq<Reference>,
) -> Seq<(Seq<char>, Seq<ColumnView>)> {
    extend_with_references(
        assoc_insert(Seq::empty(), table_name, own_columns(columns)),
        references,
    )
}

/// The same columns as a map: the table's own columns, overridden by the
/// columns of each reference in turn.
pub open spec fn columns_map(
    table_name: Seq<char>,
    columns: Seq<ColumnView>,
    references: Seq<ReferenceView>,
) -> Map<Seq<char>, Seq<ColumnView>>
    decreases references.len(),
{
    if references.len() == 0 {
        Map::empty().insert(table_name, own_columns(columns))
    } else {
        columns_map(table_name, columns, references.drop_last()).union_prefer_right(
            references.last().all_columns,
        )
    }
}

/// The ordered entries describe the map of `columns_map`: a table bound
/// later wins over one bound earlier, as in a hash map.
pub proof fn lemma_collected_columns_map(
    table_name: Seq<char>,
    columns: Seq<ColumnView>,
    references: Seq<Reference>,
)
    ensures
        keys_distinct(collected_columns(table_name, columns, references)),
        assoc_map(collected_columns(table_name, columns, references)) == columns_map(
            table_name,
            columns,
            refs_view(references),
        ),
    decreases references.len(),
{
    let first = assoc_insert(Seq::empty(), table_name, own_columns(columns));
    lemma_insert_distinct(Seq::<(Seq<char>, Seq<ColumnView>)>::empty(), table_name, own_columns(columns));
    if references.len() == 0 {
        lemma_assoc_map_insert(Seq::<(Seq<char>, Seq<ColumnView>)>::empty(), table_name, own_columns(columns));
        assert(assoc_map(Seq::<(Seq<char>, Seq<ColumnView>)>::empty()) =~= Map::empty());
    } else {
        let p = references.drop_last();
        lemma_collected_columns_map(table_name, columns, p);
        let acc = collected_columns(table_name, columns, p);
        lemma_extend_distinct(acc, references.last().all_columns@);
        lemma_assoc_map_extend(acc, references.last().all_columns@);
        assert(refs_view(references).drop_last() =~= refs_view(p));
        assert(refs_view(references).last() == references.last()@);
    }
}

/// Whether some reference among `references` brings columns of `table`.
pub open spec fn brought_by_some(references: Seq<ReferenceView>, table: Seq<char>) -> bool {
    exists|i: int| 0 <= i < references.len() && (#[trigger] references[i]).all_columns.contains_key(table)
}

/// Whether no reference after the `i`-th brings columns of `table`.
pub open spec fn not_brought_after(references: Seq<ReferenceView>, i: int, table: Seq<char>) -> bool {
    forall|j: int| i < j < references.len() ==> !(#[trigger] references[j]).all_columns.contains_key(table)
}

/// What the map of collected columns holds, reference by reference.
pub proof fn lemma_columns_map_entries(
    table_name: Seq<char>,
    columns: Seq<ColumnView>,
    references: Seq<ReferenceView>,
)
    ensures
        forall|t: Seq<char>| #[trigger]
            columns_map(table_name, columns, references).contains_key(t) <==> (t == table_name
                || brought_by_some(references, t)),
        forall|i: int, t: Seq<char>|
            0 <= i < references.len() && #[trigger] references[i].all_columns.contains_key(t)
                && not_brought_after(references, i, t) ==> columns_map(
                table_name,
                columns,
                references,
            )[t] == references[i].all_columns[t],
        !brought_by_some(references, table_name) ==> columns_map(table_name, columns, references)[table_name]
            == own_columns(columns),
    decreases references.len(),
{
    if references.len() > 0 {
        let p = references.drop_last();
        let x = references.last();
        lemma_columns_map_entries(table_name, columns, p);
        let mp = columns_map(table_name, columns, p);
        let m = columns_map(table_name, columns, references);
        assert(m == mp.union_prefer_right(x.all_columns));
        assert forall|t: Seq<char>| #[trigger] m.contains_key(t) <==> (t == table_name || brought_by_some(references, t)) by {
            if brought_by_some(p, t) {
                let i = choose|i: int| 0 <= i < p.len() && (#[trigger] p[i]).all_columns.contains_key(t);
                assert(references[i] == p[i]);
            }
            if x.all_columns.contains_key(t) {
                assert(references[references.len() - 1] == x);
            }
            if brought_by_some(references, t) {
                let i = choose|i: int| 0 <= i < references.len() && (#[trigger] references[i]).all_columns.contains_key(t);
                if i < p.len() {
                    assert(references[i] == p[i]);
                }
            }
        }
        assert forall|i: int, t: Seq<char>|
            0 <= i < references.len() && #[trigger] references[i].all_columns.contains_key(t)
                && not_brought_after(references, i, t) implies m[t] == references[i].all_columns[t] by {
            if i < p.len() {
                assert(references[i] == p[i]);
                assert(!x.all_columns.contains_key(t)) by {
                    assert(references[references.len() - 1] == x);
                }
                assert forall|j: int| i < j < p.len() implies !(#[trigger] p[j]).all_columns.contains_key(t) by {
                    assert(references[j] == p[j]);
                }
                assert(p[i].all_columns.contains_key(t));
            }
        }
        if !brought_by_some(references, table_name) {
            assert(!x.all_columns.contains_key(table_name)) by {
                assert(references[references.len() - 1] == x);
            }
            assert(!brought_by_some(p, table_name)) by {
                if brought_by_some(p, table_name) {
                    let i = choose|i: int| 0 <= i < p.len() && (#[trigger] p[i]).all_columns.contains_key(table_name);
                    assert(references[i] == p[i]);
                }
            }
        }
    }
}

/// Every reference brings its columns, whatever its join: the collected
/// columns, as a map, bind the table's own name and every table some
/// reference brings, and nothing else; a table takes the columns of the
/// last reference that brings it, and the table's own name, where no
/// reference brings it, its columns that hold no foreign key.
pub proof fn law_every_reference_brings_its_columns(
    table_name: Seq<char>,
    columns: Seq<ColumnView>,
    references: Seq<Reference>,
)
    ensures
        forall|t: Seq<char>| #[trigger]
            assoc_map(collected_columns(table_name, columns, references)).contains_key(t) <==> (t
                == table_name || exists|i: int|
                0 <= i < references.len() && (#[trigger] references[i]).all_columns.as_map().contains_key(t)),
        forall|i: int, t: Seq<char>|
            0 <= i < references.len() && #[trigger] references[i].all_columns.as_map().contains_key(t)
                && (forall|j: int|
                i < j < references.len() ==> !(#[trigger] references[j]).all_columns.as_map().contains_key(
                    t,
                )) ==> assoc_map(collected_columns(table_name, columns, references))[t]
                == references[i].all_columns.as_map()[t],
        (forall|j: int|
            0 <= j < references.len() ==> !(#[trigger] references[j]).all_columns.as_map().contains_key(
                table_name,
            )) ==> assoc_map(collected_columns(table_name, columns, references))[table_name]
            == own_columns(columns),
{
    let rs = refs_view(references);
    lemma_collected_columns_map(table_name, columns, references);
    lemma_columns_map_entries(table_name, columns, rs);
    assert(forall|i: int| 0 <= i < references.len() ==> #[trigger] rs[i] == references[i]@);
    let m = assoc_map(collected_columns(table_name, columns, references));
    assert forall|t: Seq<char>| #[trigger] m.contains_key(t) <==> (t == table_name || exists|i: int|
        0 <= i < references.len() && (#[trigger] references[i]).all_columns.as_map().contains_key(t)) by {
        if brought_by_some(rs, t) {
            let i = choose|i: int| 0 <= i < rs.len() && (#[trigger] rs[i]).all_columns.contains_key(t);
            assert(references[i].all_columns.as_map().contains_key(t));
        }
        if exists|i: int| 0 <= i < references.len() && (#[trigger] references[i]).all_columns.as_map().contains_key(t) {
            let i = choose|i: int| 0 <= i < references.len() && (#[trigger] references[i]).all_columns.as_map().contains_key(t);
            assert(rs[i].all_columns.contains_key(t));
        }
    }
    assert forall|i: int, t: Seq<char>|
        0 <= i < references.len() && #[trigger] references[i].all_columns.as_map().contains_key(t)
            && (forall|j: int|
            i < j < references.len() ==> !(#[trigger] references[j]).all_columns.as_map().contains_key(
                t,
            )) implies m[t] == references[i].all_columns.as_map()[t] by {
        assert(rs[i].all_columns.contains_key(t));
        assert forall|j: int| i < j < rs.len() implies !(#[trigger] rs[j]).all_columns.contains_key(t) by {
            assert(!references[j].all_columns.as_map().contains_key(t));
        }
    }
    if forall|j: int|
        0 <= j < references.len() ==> !(#[trigger] references[j]).all_columns.as_map().contains_key(
            table_name,
        ) {
        assert(!brought_by_some(rs, table_name)) by {
            if brought_by_some(rs, table_name) {
                let i = choose|i: int| 0 <= i < rs.len() && (#[trigger] rs[i]).all_columns.contains_key(table_name);
                assert(!references[i].all_columns.as_map().contains_key(table_name));
            }
        }
    }
}

/// The columns a query of `table_name` selects.
pub fn collect_columns(table_name: &'static str, columns: Vec<Column>, references: Vec<Reference>) -> (m: ColumnMap<Column>)
    ensures
        m@ == collected_columns(table_name@, columns_view(columns@), references@),
        keys_distinct(m@),
        m.as_map() == columns_map(table_name@, columns_view(columns@), refs_view(references@)),
{
    let ghost cv = columns_view(columns@);
    let mut own: Vec<Column> = Vec::new();
    let n = columns.len();
    let mut i: usize = 0;
    while i < n
        invariant
            n == columns@.len(),
            cv == columns_view(columns@),
            i <= n,
            columns_view(own@) == own_columns(cv.take(i as int)),
        decreases n - i,
    {
        let c = columns[i];
        proof {
            assert(cv.take(i + 1).drop_last() =~= cv.take(i as int));
            assert(cv.take(i + 1).last() == c@);
            assert(own_columns(cv.take(i + 1)) == if !c@.foreign {
                own_columns(cv.take(i as int)).push(c@)
            } else {
                own_columns(cv.take(i as int))
            });
        }
        if !c.foreign() {
            let ghost before = own@;
            own.push(c);
            assert(columns_view(own@) =~= columns_view(before).push(c@));
        }
        i = i + 1;
    }
    assert(cv.take(n as int) =~= cv);
    let mut m: ColumnMap<Column> = ColumnMap::new();
    m.insert(table_name, own);
    let ghost all = references@;
    let mut rest = references;
    let total = rest.len();
    let mut k: usize = 0;
    assert(all.take(0) =~= Seq::<Reference>::empty());
    while k < total
        invariant
            total == all.len(),
            rest@ == all.skip(k as int),
            k <= total,
            m@ == extend_with_references(
                assoc_insert(Seq::empty(), table_name@, own_columns(cv)),
                all.take(k as int),
            ),
        decreases total - k,
    {
        let ghost before = rest@;
        let r = rest.remove(0);
        proof {
            assert(r == all[k as int]);
            assert(rest@ =~= all.skip(k + 1));
            assert(all.take(k + 1).drop_last() =~= all.take(k as int));
            assert(all.take(k + 1).last() == r);
        }
        m.extend(r.all_columns);
        k = k + 1;
    }
    assert(all.take(total as int) =~= all);
    proof {
        lemma_collected_columns_map(table_name@, cv, all);
    }
    m
}

/// The query of `table_name`: the given columns, from the table and every
/// table its references reach.
pub fn select_from(table_name: &'static str, references: Vec<Reference>, all_columns: ColumnMap<Column>) -> (s: Select)
    requires
        references_ok(refs_view(references@)),
    ensures
        s@ == (SelectView {
            columns: all_columns@,
            tables_join: seq![table_name@] + traverse(refs_view(references@), seq![]),
            wheres: None,
            orderbys: None,
            limit: None,
            offset: None,
        }),
{
    let joins = select_joins(table_name, references);
    Select::new(all_columns, joins)
}

} // verus!
