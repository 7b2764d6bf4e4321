//! Rows read from a database into structs.
use vstd::prelude::*;

verus! {

/// Merging the rows that stand for one record: rows whose identifying
/// columns are equal become one, whose many-row fields hold the rows of all.
pub trait RowFlatten<T> {
    /// The merged rows, in the order of their first row.
    fn row_flatten(&self) -> Vec<T>;
}

/// Whether `same` answered `answer` for the kept row at `k` and the row `s`.
pub open spec fn answered<T, S: Fn(&T, &T) -> bool>(same: S, kept: Seq<T>, k: int, s: T, answer: bool) -> bool {
    call_ensures(same, (&kept[k], &s), answer)
}

/// One step of merging row `s` into the rows kept so far: the first kept row
/// that `same` finds equal to `s` becomes what `merge` makes of the two; where
/// there is none, a copy of `s` is kept at the end.
pub open spec fn merge_step<T, S: Fn(&T, &T) -> bool, M: Fn(&T, &T) -> T, C: Fn(&T) -> T>(
    same: S,
    merge: M,
    copy: C,
    kept: Seq<T>,
    s: T,
    next: Seq<T>,
) -> bool {
    ||| exists|j: int, m: T|
        #![trigger call_ensures(merge, (&kept[j], &s), m)]
        {
            &&& 0 <= j < kept.len()
            &&& (forall|k: int| 0 <= k < j ==> #[trigger] answered(same, kept, k, s, false))
            &&& answered(same, kept, j, s, true)
            &&& call_ensures(merge, (&kept[j], &s), m)
            &&& next == kept.update(j, m)
        }
    ||| {
        &&& (forall|k: int| 0 <= k < kept.len() ==> #[trigger] answered(same, kept, k, s, false))
        &&& exists|c: T| #![trigger call_ensures(copy, (&s,), c)] call_ensures(copy, (&s,), c) && next == kept.push(c)
    }
}

/// Whether `states` records merging `rows` one after the other, from no rows.
pub open spec fn merge_trace<T, S: Fn(&T, &T) -> bool, M: Fn(&T, &T) -> T, C: Fn(&T) -> T>(
    same: S,
    merge: M,
    copy: C,
    rows: Seq<T>,
    states: Seq<Seq<T>>,
) -> bool {
    &&& states.len() == rows.len() + 1
    &&& states[0] == Seq::<T>::empty()
    &&& forall|i: int| 0 <= i < rows.len() ==> #[trigger] merge_step(same, merge, copy, states[i], rows[i], states[i + 1])
}

/// The rows merged as deriving `MySQLRow` merges them for `RowFlatten`: in
/// order, each row joins the first kept row with equal identifiers (`same`),
/// which becomes what `merge` makes of the two (its many-row fields extended),
/// or else a copy of it is kept.
pub fn merge_rows<T, S: Fn(&T, &T) -> bool, M: Fn(&T, &T) -> T, C: Fn(&T) -> T>(
    rows: &[T],
    same: S,
    merge: M,
    copy: C,
) -> (r: Vec<T>)
    requires
        forall|a: &T, b: &T| #[trigger] same.requires((a, b)),
        forall|a: &T, b: &T| #[trigger] merge.requires((a, b)),
        forall|a: &T| #[trigger] copy.requires((a,)),
    ensures
        exists|states: Seq<Seq<T>>|
            #![trigger merge_trace(same, merge, copy, rows@, states)]
            merge_trace(same, merge, copy, rows@, states) && states.last() == r@,
{
    let mut kept: Vec<T> = Vec::new();
    let ghost mut states: Seq<Seq<T>> = seq![Seq::<T>::empty()];
    let n = rows.len();
    let mut i: usize = 0;
    while i < n
        invariant
            n == rows@.len(),
            i <= n,
            forall|a: &T, b: &T| #[trigger] same.requires((a, b)),
            forall|a: &T, b: &T| #[trigger] merge.requires((a, b)),
            forall|a: &T| #[trigger] copy.requires((a,)),
            states.len() == i + 1,
            states[0] == Seq::<T>::empty(),
            states[i as int] == kept@,
            forall|k: int| 0 <= k < i ==> #[trigger] merge_step(same, merge, copy, states[k], rows@[k], states[k + 1]),
        decreases n - i,
    {
        let s = &rows[i];
        let m = kept.len();
        let mut j: usize = 0;
        let mut found = false;
        while j < m && !found
            invariant
                m == kept@.len(),
                j <= m,
                forall|a: &T, b: &T| #[trigger] same.requires((a, b)),
                found ==> j < m && answered(same, kept@, j as int, *s, true),
                forall|k: int| 0 <= k < j ==> #[trigger] answered(same, kept@, k, *s, false),
            decreases m - j + (if found { 0int } else { 1int }),
        {
            if same(&kept[j], s) {
                found = true;
            } else {
                j = j + 1;
            }
        }
        let ghost before = kept@;
        if found {
            let merged = merge(&kept[j], s);
            proof {
                assert(call_ensures(merge, (&before[j as int], s), merged));
            }
            kept.set(j, merged);
            proof {
                assert(kept@ == before.update(j as int, merged));
                assert(merge_step(same, merge, copy, before, *s, kept@));
            }
        } else {
            let c = copy(s);
            proof {
                assert(call_ensures(copy, (s,), c));
            }
            kept.push(c);
            proof {
                assert(kept@ == before.push(c));
                assert(merge_step(same, merge, copy, before, *s, kept@));
            }
        }
        proof {
            let old_states = states;
            states = states.push(kept@);
            assert forall|k: int| 0 <= k < i + 1 implies #[trigger] merge_step(same, merge, copy, states[k], rows@[k], states[k + 1]) by {
                if k < i {
                    assert(states[k] == old_states[k]);
                    assert(states[k + 1] == old_states[k + 1]);
                } else {
                    assert(states[k] == before);
                    assert(rows@[k] == *s);
                }
            }
        }
        i = i + 1;
    }
    assert(merge_trace(same, merge, copy, rows@, states));
    kept
}

} // verus!
