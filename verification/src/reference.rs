//! Turning one foreign-key description into the text of a SQL join clause.
//!
//! A description reads `"<table> ON <conditions>"` or just `"<conditions>"`;
//! the conditions are white-space separated words taken two by two
//! (`column =`, `column =`, ...) and closed by one last column.
use vstd::prelude::*;
use vstd::string::StrSliceExecFns;
use vstd::string::StringExecFns;
use crate::text::{
    contains_char, find, find_from, find_on_sep, is_word, join, lemma_find_from_bounds,
    lemma_join_push, lemma_words_of_join, occurs_at, on_sep, split_on, split_once,
    split_whitespace, words,
};

verus! {

/// The table whose columns the odd-numbered conditions name: the table
/// before " ON " in the previous description, else the current table.
pub open spec fn prev_table_of(table_name: Seq<char>, prev_reference: Option<Seq<char>>) -> Seq<char> {
    match prev_reference {
        Some(pr) => match split_once(pr, on_sep()) {
            Some((t, _)) => t,
            None => table_name,
        },
        None => table_name,
    }
}

/// The description split at " ON ".
pub open spec fn reference_pieces(reference: Seq<char>) -> Seq<Seq<char>> {
    split_on(reference, on_sep())
}

/// The target table of a description: the text before " ON ", else `to_table_name`.
pub open spec fn target_of(to_table_name: Seq<char>, reference: Seq<char>) -> Seq<char> {
    if reference_pieces(reference).len() == 1 {
        to_table_name
    } else {
        reference_pieces(reference)[0]
    }
}

/// The conditions of a description: the text after " ON ", else all of it.
pub open spec fn conditions_of(reference: Seq<char>) -> Seq<char> {
    if reference_pieces(reference).len() == 1 {
        reference
    } else {
        reference_pieces(reference)[1]
    }
}

/// A description that can be read: " ON " at most once, and an odd number
/// of words in its conditions (pairs, then one last column).
pub open spec fn reference_well_formed(reference: Seq<char>) -> bool {
    &&& reference_pieces(reference).len() <= 2
    &&& words(conditions_of(reference)).len() % 2 == 1
}

/// Words joined by spaces into a description without " ON " can be read
/// exactly when they are odd in number, however many: its conditions are
/// those words, and its target is the table referred to.
pub proof fn law_any_odd_number_of_words_readable(ws: Seq<Seq<char>>, to_table_name: Seq<char>)
    requires
        forall|i: int| 0 <= i < ws.len() ==> is_word(#[trigger] ws[i]),
        find(join(ws, seq![' ']), on_sep()) is None,
    ensures
        reference_well_formed(join(ws, seq![' '])) <==> ws.len() % 2 == 1,
        words(conditions_of(join(ws, seq![' ']))) == ws,
        target_of(to_table_name, join(ws, seq![' '])) == to_table_name,
{
    let text = join(ws, seq![' ']);
    lemma_split_on_first_two(text, on_sep());
    lemma_words_of_join(ws);
}

/// A description `<table> ON <words>`, where " ON " occurs only there, can be
/// read exactly when the words are odd in number, however many: its target
/// is the table and its conditions are the words.
pub proof fn law_target_and_odd_words_readable(table: Seq<char>, ws: Seq<Seq<char>>, to_table_name: Seq<char>)
    requires
        forall|i: int| 0 <= i < ws.len() ==> is_word(#[trigger] ws[i]),
        find(table + on_sep() + join(ws, seq![' ']), on_sep()) == Some(table.len()),
        find(join(ws, seq![' ']), on_sep()) is None,
    ensures
        reference_well_formed(table + on_sep() + join(ws, seq![' '])) <==> ws.len() % 2 == 1,
        words(conditions_of(table + on_sep() + join(ws, seq![' ']))) == ws,
        target_of(to_table_name, table + on_sep() + join(ws, seq![' '])) == table,
{
    let text = join(ws, seq![' ']);
    let r = table + on_sep() + text;
    lemma_split_on_first_two(r, on_sep());
    let m = (table.len() + 4) as nat;
    assert(r.skip(m as int) =~= text);
    assert(r.take(table.len() as int) =~= table);
    lemma_find_from_skip(r, on_sep(), m, 0);
    lemma_words_of_join(ws);
}

/// A description in which " ON " occurs twice, apart, cannot be read,
/// whatever its words.
pub proof fn law_second_on_unreadable(reference: Seq<char>, first: nat, second: nat)
    requires
        occurs_at(reference, on_sep(), first as int),
        occurs_at(reference, on_sep(), second as int),
        first + 4 <= second,
    ensures
        !reference_well_formed(reference),
{
    lemma_split_on_first_two(reference, on_sep());
    lemma_find_from_bounds(reference, on_sep(), 0);
    let i = find(reference, on_sep())->0;
    assert(i <= first);
    lemma_find_from_bounds(reference, on_sep(), i + 4);
}

/// `column` qualified by `table`, unless it already names a table.
pub open spec fn qualified(table: Seq<char>, column: Seq<char>) -> Seq<char> {
    if column.contains('.') {
        column
    } else {
        table + seq!['.'] + column
    }
}

/// The `k`-th condition `<column> <operator>`: even ones name a column of
/// `prev_table`, odd ones a column of `target`.
pub open spec fn condition_text(
    k: int,
    column: Seq<char>,
    operator: Seq<char>,
    prev_table: Seq<char>,
    target: Seq<char>,
) -> Seq<char> {
    let table = if k % 2 == 0 { prev_table } else { target };
    qualified(table, column) + seq![' '] + operator
}

/// The conditions joined by one space, all words but the last taken two by two.
pub open spec fn conditions_text(ws: Seq<Seq<char>>, prev_table: Seq<char>, target: Seq<char>) -> Seq<char> {
    join(
        Seq::new(
            (ws.len() / 2) as nat,
            |k: int| condition_text(k, ws[2 * k], ws[2 * k + 1], prev_table, target),
        ),
        seq![' '],
    )
}

/// One more pair of words after `ws` (an even number of words, so whole
/// pairs) adds one condition at the end, after a space: its column is
/// qualified by `prev_table` when the pairs before it are even in number, by
/// `target` when they are odd, however many there are; a word left over
/// after the pairs adds nothing.
pub proof fn law_condition_pairs_alternate(
    ws: Seq<Seq<char>>,
    column: Seq<char>,
    operator: Seq<char>,
    rest: Seq<char>,
    prev_table: Seq<char>,
    target: Seq<char>,
)
    requires
        ws.len() % 2 == 0,
    ensures
        conditions_text(ws + seq![column, operator], prev_table, target) == (if ws.len() == 0 {
            Seq::<char>::empty()
        } else {
            conditions_text(ws, prev_table, target) + seq![' ']
        }) + qualified(
            if (ws.len() / 2) % 2 == 0 {
                prev_table
            } else {
                target
            },
            column,
        ) + seq![' '] + operator,
        conditions_text(ws + seq![column, operator, rest], prev_table, target) == conditions_text(
            ws + seq![column, operator],
            prev_table,
            target,
        ),
{
    let n: int = (ws.len() / 2) as int;
    let longer = ws + seq![column, operator];
    let items = Seq::new(
        n as nat,
        |k: int| condition_text(k, ws[2 * k], ws[2 * k + 1], prev_table, target),
    );
    let more = Seq::new(
        (longer.len() / 2) as nat,
        |k: int| condition_text(k, longer[2 * k], longer[2 * k + 1], prev_table, target),
    );
    assert(longer.len() / 2 == n + 1);
    assert(longer[2 * n] == column);
    assert(longer[2 * n + 1] == operator);
    assert forall|k: int| 0 <= k < n implies more[k] == items[k] by {
        assert(longer[2 * k] == ws[2 * k]);
        assert(longer[2 * k + 1] == ws[2 * k + 1]);
    }
    assert(more =~= items.push(condition_text(n, column, operator, prev_table, target)));
    lemma_join_push(items, seq![' '], condition_text(n, column, operator, prev_table, target));
    assert(items.len() == 0 <==> ws.len() == 0);
    let odd = ws + seq![column, operator, rest];
    let more_odd = Seq::new(
        (odd.len() / 2) as nat,
        |k: int| condition_text(k, odd[2 * k], odd[2 * k + 1], prev_table, target),
    );
    assert(odd.len() / 2 == n + 1);
    assert forall|k: int| 0 <= k <= n implies more_odd[k] == more[k] by {
        assert(odd[2 * k] == longer[2 * k]);
        assert(odd[2 * k + 1] == longer[2 * k + 1]);
    }
    assert(more_odd =~= more);
}

/// The conditions repeat their pattern every two pairs: after a multiple
/// of four words, two more pairs add a condition on a column of
/// `prev_table`, then one on a column of `target`, however long the
/// conditions already are.
pub proof fn law_conditions_periodic(
    ws: Seq<Seq<char>>,
    column1: Seq<char>,
    operator1: Seq<char>,
    column2: Seq<char>,
    operator2: Seq<char>,
    prev_table: Seq<char>,
    target: Seq<char>,
)
    requires
        ws.len() % 4 == 0,
    ensures
        conditions_text(ws + seq![column1, operator1, column2, operator2], prev_table, target) == (
        if ws.len() == 0 {
            Seq::<char>::empty()
        } else {
            conditions_text(ws, prev_table, target) + seq![' ']
        }) + qualified(prev_table, column1) + seq![' '] + operator1 + seq![' '] + qualified(
            target,
            column2,
        ) + seq![' '] + operator2,
{
    let first = ws + seq![column1, operator1];
    law_condition_pairs_alternate(ws, column1, operator1, column1, prev_table, target);
    law_condition_pairs_alternate(first, column2, operator2, column2, prev_table, target);
    assert(first + seq![column2, operator2] =~= ws + seq![column1, operator1, column2, operator2]);
    assert(first.len() / 2 == ws.len() / 2 + 1);
    assert((ws.len() / 2) % 2 == 0);
}

/// The join clause for `reference`: `<target> ON <conditions> <last column>`.
pub open spec fn join_clause(
    table_name: Seq<char>,
    to_table_name: Seq<char>,
    prev_reference: Option<Seq<char>>,
    reference: Seq<char>,
) -> Seq<char> {
    let target = target_of(to_table_name, reference);
    let ws = words(conditions_of(reference));
    let prev_table = prev_table_of(table_name, prev_reference);
    target + on_sep() + conditions_text(ws, prev_table, target) + seq![' '] + qualified(
        target,
        ws.last(),
    )
}

/// Where `find` starts later in `s`, it finds what `find_from` finds past that point.
pub proof fn lemma_find_from_skip(s: Seq<char>, pat: Seq<char>, m: nat, j: nat)
    requires
        m <= s.len(),
    ensures
        find_from(s.skip(m as int), pat, j) == match find_from(s, pat, m + j) {
            Some(i) => Some((i - m) as nat),
            None => None,
        },
    decreases s.len() + 1 - (m + j),
{
    let t = s.skip(m as int);
    if j + pat.len() > t.len() {
    } else {
        assert(t.subrange(j as int, (j + pat.len()) as int) =~= s.subrange((m + j) as int, (m + j + pat.len()) as int));
        if occurs_at(t, pat, j as int) {
        } else {
            lemma_find_from_skip(s, pat, m, j + 1);
        }
    }
}

/// `split_on` always gives at least one piece.
pub proof fn lemma_split_on_nonempty(s: Seq<char>, pat: Seq<char>)
    requires
        pat.len() > 0,
    ensures
        split_on(s, pat).len() >= 1,
    decreases s.len(),
{
    match find(s, pat) {
        None => {},
        Some(i) => {
            lemma_find_from_bounds(s, pat, 0);
            lemma_split_on_nonempty(s.skip((i + pat.len()) as int), pat);
        },
    }
}

/// How the pieces of `split_on` arise from the first two occurrences.
pub proof fn lemma_split_on_first_two(s: Seq<char>, pat: Seq<char>)
    requires
        pat.len() > 0,
    ensures
        find(s, pat) is None ==> split_on(s, pat) == seq![s],
        find(s, pat) matches Some(i) ==> {
            &&& i + pat.len() <= s.len()
            &&& split_on(s, pat)[0] == s.take(i as int)
            &&& (find_from(s, pat, i + pat.len()) is None <==> split_on(s, pat).len() == 2)
            &&& split_on(s, pat).len() >= 2
            &&& (find_from(s, pat, i + pat.len()) is None ==> split_on(s, pat)[1] == s.skip(
                (i + pat.len()) as int,
            ))
        },
{
    match find(s, pat) {
        None => {},
        Some(i) => {
            lemma_find_from_bounds(s, pat, 0);
            let rest = s.skip((i + pat.len()) as int);
            lemma_find_from_skip(s, pat, (i + pat.len()) as nat, 0);
            lemma_split_on_nonempty(rest, pat);
            match find(rest, pat) {
                None => {},
                Some(k) => {
                    lemma_find_from_bounds(rest, pat, 0);
                    lemma_split_on_nonempty(rest.skip((k + pat.len()) as int), pat);
                },
            }
        },
    }
}

/// Builds the join clause for one foreign-key description `reference`.
///
/// `table_name` is the table reached so far; `prev_reference` is the
/// description handled just before, if any. Afterwards `table_name` holds
/// the target table of `reference`.
pub fn parse_reference(
    table_name: &mut String,
    to_table_name: &str,
    prev_reference: Option<&str>,
    reference: &str,
) -> (clause: String)
    requires
        reference_well_formed(reference@),
    ensures
        final(table_name)@ == target_of(to_table_name@, reference@),
        clause@ == join_clause(
            old(table_name)@,
            to_table_name@,
            match prev_reference {
                Some(p) => Some(p@),
                None => None,
            },
            reference@,
        ),
{
    proof {
        reveal_strlit(" ON ");
        reveal_strlit(".");
        reveal_strlit(" ");
    }
    let ghost prev_view: Option<Seq<char>> = match prev_reference {
        Some(p) => Some(p@),
        None => None,
    };
    // The table named by the even conditions.
    let prev_table: String = match prev_reference {
        Some(pr) => match find_on_sep(pr, 0) {
            Some(i) => {
                proof {
                    lemma_find_from_bounds(pr@, on_sep(), 0);
                }
                String::from_str(pr.substring_char(0, i))
            },
            None => table_name.clone(),
        },
        None => table_name.clone(),
    };
    assert(prev_table@ == prev_table_of(old(table_name)@, prev_view));
    // The target table and the conditions.
    let n = reference.unicode_len();
    proof {
        lemma_split_on_first_two(reference@, on_sep());
    }
    let (target, cols): (&str, &str) = match find_on_sep(reference, 0) {
        Some(i) => {
            proof {
                lemma_find_from_bounds(reference@, on_sep(), 0);
            }
            (reference.substring_char(0, i), reference.substring_char(i + 4, n))
        },
        None => (to_table_name, reference),
    };
    assert(target@ == target_of(to_table_name@, reference@));
    assert(cols@ == conditions_of(reference@));
    let ws = split_whitespace(cols);
    let ghost wv = ws@.map_values(|w: &str| w@);
    let count = ws.len();
    assert(wv.len() == count);
    // The closing column.
    let last = ws[count - 1];
    let mut c = String::new();
    if !contains_char(last, '.') {
        c.append(target);
        c.append(".");
    }
    c.append(last);
    assert(wv.last() == last@);
    assert(c@ =~= qualified(target@, wv.last()));
    // The conditions, two words at a time.
    let ghost items = Seq::new(
        (wv.len() / 2) as nat,
        |k: int| condition_text(k, wv[2 * k], wv[2 * k + 1], prev_table@, target@),
    );
    let pairs = count / 2;
    let mut conds = String::new();
    let mut k: usize = 0;
    while k < pairs
        invariant
            pairs == count / 2,
            count == wv.len(),
            wv == ws@.map_values(|w: &str| w@),
            items.len() == pairs,
            items == Seq::new(
                (wv.len() / 2) as nat,
                |k: int| condition_text(k, wv[2 * k], wv[2 * k + 1], prev_table@, target@),
            ),
            k <= pairs,
            conds@ == join(items.take(k as int), seq![' ']),
            " "@ == seq![' '],
            "."@ == seq!['.'],
        decreases pairs - k,
    {
        let column = ws[2 * k];
        let operator = ws[2 * k + 1];
        let ghost before = conds@;
        if k > 0 {
            conds.append(" ");
        }
        if !contains_char(column, '.') {
            if k % 2 == 0 {
                conds.append(prev_table.as_str());
            } else {
                conds.append(target);
            }
            conds.append(".");
        }
        conds.append(column);
        conds.append(" ");
        conds.append(operator);
        proof {
            assert(wv[2 * k as int] == column@);
            assert(wv[2 * k + 1] == operator@);
            assert(items.take(k + 1) =~= items.take(k as int).push(items[k as int]));
            lemma_join_push(items.take(k as int), seq![' '], items[k as int]);
            if k > 0 {
                assert(conds@ =~= before + seq![' '] + items[k as int]);
            } else {
                assert(conds@ =~= items[k as int]);
            }
        }
        k = k + 1;
    }
    assert(items.take(pairs as int) =~= items);
    let mut clause = String::from_str(target);
    clause.append(" ON ");
    clause.append(conds.as_str());
    clause.append(" ");
    clause.append(c.as_str());
    *table_name = String::from_str(target);
    assert(clause@ =~= join_clause(old(table_name)@, to_table_name@, prev_view, reference@));
    clause
}

/// Whether `reference` is a description that `parse_reference` can read.
pub fn reference_is_well_formed(reference: &str) -> (r: bool)
    ensures
        r == reference_well_formed(reference@),
{
    let n = reference.unicode_len();
    proof {
        lemma_split_on_first_two(reference@, on_sep());
    }
    let cols: &str = match find_on_sep(reference, 0) {
        Some(i) => {
            proof {
                lemma_find_from_bounds(reference@, on_sep(), 0);
            }
            if find_on_sep(reference, i + 4).is_some() {
                return false;
            }
            reference.substring_char(i + 4, n)
        },
        None => reference,
    };
    let ws = split_whitespace(cols);
    assert(ws@.map_values(|w: &str| w@).len() == ws.len());
    ws.len() % 2 == 1
}

} // verus!
