//! The columns of each table, keyed by table name.
//!
//! The entries keep the order in which their keys first came; a key that
//! comes again replaces the columns in place, as a map would.
use vstd::prelude::*;
use crate::column::Column;
use crate::text::str_eq;

verus! {

/// The first index where key `k` stands in `s`.
pub open spec fn key_index<K, V>(s: Seq<(K, V)>, k: K) -> Option<nat>
    decreases s.len(),
{
    if s.len() == 0 {
        None
    } else {
        match key_index(s.drop_last(), k) {
            Some(i) => Some(i),
            None => if s.last().0 == k {
                Some((s.len() - 1) as nat)
            } else {
                None
            },
        }
    }
}

/// No key stands twice.
pub open spec fn keys_distinct<K, V>(s: Seq<(K, V)>) -> bool {
    forall|i: int, j: int| 0 <= i < j < s.len() ==> s[i].0 != s[j].0
}

/// `s` with `k` bound to `v`: in place where `k` stands, else at the end.
pub open spec fn assoc_insert<K, V>(s: Seq<(K, V)>, k: K, v: V) -> Seq<(K, V)> {
    match key_index(s, k) {
        Some(i) => s.update(i as int, (k, v)),
        None => s.push((k, v)),
    }
}

/// `s` with each entry of `t` inserted, in the order of `t`.
pub open spec fn assoc_extend<K, V>(s: Seq<(K, V)>, t: Seq<(K, V)>) -> Seq<(K, V)>
    decreases t.len(),
{
    if t.len() == 0 {
        s
    } else {
        let e = t.last();
        assoc_insert(assoc_extend(s, t.drop_last()), e.0, e.1)
    }
}

/// The map that the entries describe (a later entry wins over an earlier one).
pub open spec fn assoc_map<K, V>(s: Seq<(K, V)>) -> Map<K, V>
    decreases s.len(),
{
    if s.len() == 0 {
        Map::empty()
    } else {
        assoc_map(s.drop_last()).insert(s.last().0, s.last().1)
    }
}

/// The views of a sequence of columns.
pub open spec fn columns_view<C: View>(v: Seq<C>) -> Seq<C::V> {
    v.map_values(|c: C| c@)
}

/// Table names with their columns, each name at most once.
pub struct ColumnMap<C: View> {
    entries: Vec<(&'static str, Vec<C>)>,
}

impl<C: View> View for ColumnMap<C> {
    type V = Seq<(Seq<char>, Seq<C::V>)>;

    closed spec fn view(&self) -> Seq<(Seq<char>, Seq<C::V>)> {
        Seq::new(
            self.entries@.len(),
            |i: int| (self.entries@[i].0@, columns_view(self.entries@[i].1@)),
        )
    }
}

pub proof fn lemma_key_index<K, V>(s: Seq<(K, V)>, k: K)
    ensures
        key_index(s, k) matches Some(i) ==> i < s.len() && s[i as int].0 == k && forall|j: int|
            0 <= j < i ==> s[j].0 != k,
        key_index(s, k) is None ==> forall|j: int| 0 <= j < s.len() ==> s[j].0 != k,
    decreases s.len(),
{
    if s.len() > 0 {
        let p = s.drop_last();
        lemma_key_index(p, k);
        assert(forall|j: int| 0 <= j < p.len() ==> p[j] == s[j]);
    }
}

/// Inserting keeps the keys distinct.
pub proof fn lemma_insert_distinct<K, V>(s: Seq<(K, V)>, k: K, v: V)
    requires
        keys_distinct(s),
    ensures
        keys_distinct(assoc_insert(s, k, v)),
        key_index(assoc_insert(s, k, v), k) is Some,
{
    lemma_key_index(s, k);
    let r = assoc_insert(s, k, v);
    lemma_key_index(r, k);
    match key_index(s, k) {
        Some(i) => {
            assert(r[i as int].0 == k);
        },
        None => {
            assert(r[s.len() as int].0 == k);
        },
    }
}

/// Extending keeps the keys distinct.
pub proof fn lemma_extend_distinct<K, V>(s: Seq<(K, V)>, t: Seq<(K, V)>)
    requires
        keys_distinct(s),
    ensures
        keys_distinct(assoc_extend(s, t)),
    decreases t.len(),
{
    if t.len() > 0 {
        lemma_extend_distinct(s, t.drop_last());
        lemma_insert_distinct(assoc_extend(s, t.drop_last()), t.last().0, t.last().1);
    }
}

/// With distinct keys, the map holds exactly the entries.
pub proof fn lemma_assoc_map_entries<K, V>(s: Seq<(K, V)>)
    requires
        keys_distinct(s),
    ensures
        forall|k: K| #[trigger]
            assoc_map(s).contains_key(k) <==> key_index(s, k) is Some,
        forall|i: int| 0 <= i < s.len() ==> #[trigger] assoc_map(s)[s[i].0] == s[i].1,
    decreases s.len(),
{
    if s.len() > 0 {
        let p = s.drop_last();
        assert(forall|j: int| 0 <= j < p.len() ==> p[j] == s[j]);
        assert(keys_distinct(p));
        lemma_assoc_map_entries(p);
        assert forall|k: K| #[trigger] assoc_map(s).contains_key(k) <==> key_index(s, k) is Some by {
            lemma_key_index(p, k);
            assert(assoc_map(s) == assoc_map(p).insert(s.last().0, s.last().1));
            assert(assoc_map(p).contains_key(k) <==> key_index(p, k) is Some);
        }
        assert forall|i: int| 0 <= i < s.len() implies #[trigger] assoc_map(s)[s[i].0] == s[i].1 by {
            if i < s.len() - 1 {
                assert(p[i] == s[i]);
                assert(s[i].0 != s.last().0);
                assert(assoc_map(p)[p[i].0] == p[i].1);
            }
        }
    }
}

/// Inserting into the entries is inserting into the map.
pub proof fn lemma_assoc_map_insert<K, V>(s: Seq<(K, V)>, k: K, v: V)
    requires
        keys_distinct(s),
    ensures
        assoc_map(assoc_insert(s, k, v)) == assoc_map(s).insert(k, v),
{
    let r = assoc_insert(s, k, v);
    lemma_insert_distinct(s, k, v);
    lemma_assoc_map_entries(s);
    lemma_assoc_map_entries(r);
    lemma_key_index(s, k);
    assert forall|key: K| #[trigger] assoc_map(r).contains_key(key) <==> assoc_map(s).insert(
        k,
        v,
    ).contains_key(key) by {
        lemma_key_index(s, key);
        lemma_key_index(r, key);
        if let Some(i) = key_index(s, key) {
            if key != k {
                assert(r[i as int] == s[i as int]);
            }
        }
        if let Some(i) = key_index(r, key) {
            if key != k {
                assert(r[i as int] == s[i as int]);
            }
        }
    }
    assert forall|key: K| #[trigger] assoc_map(r).contains_key(key) implies assoc_map(r)[key]
        == assoc_map(s).insert(k, v)[key] by {
        lemma_key_index(r, key);
        let i = key_index(r, key)->0;
        if key == k {
            assert(r[i as int] == (k, v));
        } else {
            assert(r[i as int] == s[i as int]);
        }
    }
    assert(assoc_map(r) =~= assoc_map(s).insert(k, v));
}

/// Extending the entries is taking the union of the maps, `t` winning.
pub proof fn lemma_assoc_map_extend<K, V>(s: Seq<(K, V)>, t: Seq<(K, V)>)
    requires
        keys_distinct(s),
    ensures
        assoc_map(assoc_extend(s, t)) == assoc_map(s).union_prefer_right(assoc_map(t)),
    decreases t.len(),
{
    if t.len() == 0 {
        assert(assoc_map(s).union_prefer_right(Map::empty()) =~= assoc_map(s));
    } else {
        let p = t.drop_last();
        lemma_assoc_map_extend(s, p);
        lemma_extend_distinct(s, p);
        lemma_assoc_map_insert(assoc_extend(s, p), t.last().0, t.last().1);
        assert(assoc_map(s).union_prefer_right(assoc_map(p)).insert(t.last().0, t.last().1)
            =~= assoc_map(s).union_prefer_right(assoc_map(p).insert(t.last().0, t.last().1)));
    }
}

impl<C: View> ColumnMap<C> {
    #[verifier::type_invariant]
    closed spec fn inv(self) -> bool {
        keys_distinct(self@)
    }

    /// The map that the entries describe.
    pub open spec fn as_map(&self) -> Map<Seq<char>, Seq<C::V>> {
        assoc_map(self@)
    }

    /// An empty map.
    pub fn new() -> (m: Self)
        ensures
            m@ == Seq::<(Seq<char>, Seq<C::V>)>::empty(),
            m.as_map() == Map::<Seq<char>, Seq<C::V>>::empty(),
            keys_distinct(m@),
    {
        let m = ColumnMap { entries: Vec::new() };
        assert(m@ =~= Seq::<(Seq<char>, Seq<C::V>)>::empty());
        m
    }

    /// The number of tables.
    pub fn len(&self) -> (n: usize)
        ensures
            n == self@.len(),
            keys_distinct(self@),
    {
        proof {
            use_type_invariant(self);
        }
        self.entries.len()
    }

    /// The name of the `i`-th table.
    pub fn key(&self, i: usize) -> (k: &'static str)
        requires
            i < self@.len(),
        ensures
            k@ == self@[i as int].0,
    {
        self.entries[i].0
    }

    /// The columns of the `i`-th table.
    pub fn columns(&self, i: usize) -> (c: &Vec<C>)
        requires
            i < self@.len(),
        ensures
            columns_view(c@) == self@[i as int].1,
    {
        &self.entries[i].1
    }

    /// Where the table `key` stands.
    pub fn position(&self, key: &str) -> (r: Option<usize>)
        ensures
            r matches Some(i) ==> key_index(self@, key@) == Some(i as nat),
            r is None ==> key_index(self@, key@) is None,
    {
        let n = self.entries.len();
        let mut i: usize = 0;
        while i < n
            invariant
                n == self@.len(),
                i <= n,
                forall|j: int| 0 <= j < i ==> self@[j].0 != key@,
            decreases n - i,
        {
            if str_eq(self.entries[i].0, key) {
                proof {
                    assert(self@[i as int].0 == key@);
                    lemma_key_index(self@, key@);
                }
                return Some(i);
            }
            i = i + 1;
        }
        proof {
            lemma_key_index(self@, key@);
        }
        None
    }

    /// The columns of the table `key`, if it has an entry.
    pub fn get(&self, key: &str) -> (r: Option<&Vec<C>>)
        ensures
            r matches Some(c) ==> self.as_map().contains_key(key@) && columns_view(c@)
                == self.as_map()[key@],
            r is None ==> !self.as_map().contains_key(key@),
    {
        proof {
            use_type_invariant(self);
            lemma_assoc_map_entries(self@);
            lemma_key_index(self@, key@);
        }
        match self.position(key) {
            Some(i) => Some(&self.entries[i].1),
            None => None,
        }
    }

    /// Binds `key` to `columns`, replacing the columns it had.
    pub fn insert(&mut self, key: &'static str, columns: Vec<C>)
        ensures
            final(self)@ == assoc_insert(old(self)@, key@, columns_view(columns@)),
            keys_distinct(final(self)@),
            final(self).as_map() == old(self).as_map().insert(key@, columns_view(columns@)),
    {
        proof {
            use_type_invariant(&*self);
            lemma_insert_distinct(self@, key@, columns_view(columns@));
            lemma_assoc_map_insert(self@, key@, columns_view(columns@));
        }
        let ghost target = assoc_insert(self@, key@, columns_view(columns@));
        let found = self.position(key);
        proof {
            lemma_key_index(self@, key@);
        }
        let ghost old_view = self@;
        let ghost old_entries = self.entries@;
        let mut entries: Vec<(&'static str, Vec<C>)> = Vec::new();
        std::mem::swap(&mut entries, &mut self.entries);
        match found {
            Some(i) => {
                let ghost cv = columns_view(columns@);
                entries.set(i, (key, columns));
                proof {
                    assert forall|j: int| 0 <= j < entries@.len() implies (#[trigger] entries@[j].0@,
                        columns_view(entries@[j].1@)) == target[j] by {
                        if j != i {
                            assert(entries@[j] == old_entries[j]);
                            assert(old_view[j] == (old_entries[j].0@, columns_view(
                                old_entries[j].1@,
                            )));
                        }
                    }
                }
            },
            None => {
                entries.push((key, columns));
                proof {
                    assert forall|j: int| 0 <= j < entries@.len() implies (#[trigger] entries@[j].0@,
                        columns_view(entries@[j].1@)) == target[j] by {
                        if j < old_entries.len() {
                            assert(entries@[j] == old_entries[j]);
                            assert(old_view[j] == (old_entries[j].0@, columns_view(
                                old_entries[j].1@,
                            )));
                        }
                    }
                }
            },
        }
        self.entries = entries;
        assert(self@ =~= target);
    }

    /// Inserts every entry of `other`, in its order.
    pub fn extend(&mut self, other: ColumnMap<C>)
        ensures
            final(self)@ == assoc_extend(old(self)@, other@),
            keys_distinct(final(self)@),
            final(self).as_map() == old(self).as_map().union_prefer_right(other.as_map()),
    {
        proof {
            use_type_invariant(&*self);
            lemma_extend_distinct(self@, other@);
            lemma_assoc_map_extend(self@, other@);
        }
        let ghost t = other@;
        let ColumnMap { entries: mut rest } = other;
        let ghost t_entries = rest@;
        let n = rest.len();
        let mut i: usize = 0;
        assert(t.take(0) =~= Seq::<(Seq<char>, Seq<C::V>)>::empty());
        while i < n
            invariant
                n == t.len(),
                rest@.len() == n - i,
                i <= n,
                forall|j: int|
                    0 <= j < rest@.len() ==> (#[trigger] rest@[j].0@, columns_view(rest@[j].1@))
                        == t[i + j],
                self@ == assoc_extend(old(self)@, t.take(i as int)),
            decreases n - i,
        {
            let ghost before = rest@;
            let (k, v) = rest.remove(0);
            self.insert(k, v);
            proof {
                assert(t.take(i + 1).drop_last() =~= t.take(i as int));
                assert(forall|j: int|
                    0 <= j < rest@.len() ==> (#[trigger] rest@[j].0@, columns_view(rest@[j].1@))
                        == t[i + 1 + j]) by {
                    assert forall|j: int| 0 <= j < rest@.len() implies (#[trigger] rest@[j].0@,
                        columns_view(rest@[j].1@)) == t[i + 1 + j] by {
                        assert(rest@[j] == before[j + 1]);
                    }
                }
            }
            i = i + 1;
        }
        assert(t.take(n as int) =~= t);
    }
}

/// Two lists of columns hold the same columns in the same order.
pub fn columns_eq(a: &Vec<Column>, b: &Vec<Column>) -> (r: bool)
    ensures
        r == (columns_view(a@) == columns_view(b@)),
{
    let n = a.len();
    if n != b.len() {
        assert(columns_view(a@).len() != columns_view(b@).len());
        return false;
    }
    let mut i: usize = 0;
    while i < n
        invariant
            n == a@.len(),
            n == b@.len(),
            i <= n,
            forall|j: int| 0 <= j < i ==> a@[j]@ == b@[j]@,
        decreases n - i,
    {
        if !(str_eq(a[i].name(), b[i].name()) && a[i].foreign() == b[i].foreign()) {
            assert(columns_view(a@)[i as int] != columns_view(b@)[i as int]);
            return false;
        }
        assert(a@[i as int]@ == b@[i as int]@);
        i = i + 1;
    }
    assert(columns_view(a@) =~= columns_view(b@));
    true
}

/// A copy of a list of columns.
pub fn copy_columns(v: &Vec<Column>) -> (r: Vec<Column>)
    ensures
        columns_view(r@) == columns_view(v@),
{
    let mut out: Vec<Column> = Vec::new();
    let n = v.len();
    let mut i: usize = 0;
    while i < n
        invariant
            n == v@.len(),
            i <= n,
            out@.len() == i,
            forall|j: int| 0 <= j < i ==> out@[j]@ == v@[j]@,
        decreases n - i,
    {
        out.push(v[i]);
        i = i + 1;
    }
    assert(columns_view(out@) =~= columns_view(v@));
    out
}

impl ColumnMap<Column> {
    /// A copy of the map, entries in the same order.
    pub fn duplicate(&self) -> (r: Self)
        ensures
            r@ == self@,
            keys_distinct(r@),
    {
        proof {
            use_type_invariant(self);
        }
        let n = self.entries.len();
        let mut entries: Vec<(&'static str, Vec<Column>)> = Vec::new();
        let mut i: usize = 0;
        while i < n
            invariant
                n == self.entries@.len(),
                i <= n,
                entries@.len() == i,
                forall|j: int| 0 <= j < i ==> (#[trigger] entries@[j].0@, columns_view(entries@[j].1@))
                    == self@[j],
            decreases n - i,
        {
            let key = self.entries[i].0;
            let cols = copy_columns(&self.entries[i].1);
            entries.push((key, cols));
            i = i + 1;
        }
        let r = ColumnMap { entries };
        assert(r@ =~= self@);
        r
    }

    /// Whether two maps bind the same tables to the same columns, whatever
    /// the order of their entries.
    pub fn same_map(&self, other: &ColumnMap<Column>) -> (r: bool)
        ensures
            r == (self.as_map() == other.as_map()),
    {
        proof {
            use_type_invariant(self);
            use_type_invariant(other);
            lemma_assoc_map_entries(self@);
            lemma_assoc_map_entries(other@);
        }
        let n = self.len();
        let m = other.len();
        let mut i: usize = 0;
        while i < n
            invariant
                n == self@.len(),
                i <= n,
                keys_distinct(self@),
                keys_distinct(other@),
                forall|k: Seq<char>| #[trigger]
                    self.as_map().contains_key(k) <==> key_index(self@, k) is Some,
                forall|j: int| 0 <= j < self@.len() ==> #[trigger] self.as_map()[self@[j].0] == self@[j].1,
                forall|k: Seq<char>| #[trigger]
                    other.as_map().contains_key(k) <==> key_index(other@, k) is Some,
                forall|j: int| 0 <= j < other@.len() ==> #[trigger] other.as_map()[other@[j].0] == other@[j].1,
                forall|j: int| 0 <= j < i ==> #[trigger] other.as_map().contains_key(self@[j].0)
                    && other.as_map()[self@[j].0] == self@[j].1,
            decreases n - i,
        {
            let key = self.key(i);
            match other.position(key) {
                None => {
                    proof {
                        lemma_key_index(self@, key@);
                        lemma_key_index(other@, key@);
                        assert(self@[i as int].0 == key@);
                        assert(self.as_map().contains_key(key@));
                        assert(!other.as_map().contains_key(key@));
                    }
                    return false;
                },
                Some(j) => {
                    proof {
                        lemma_key_index(other@, key@);
                    }
                    if !columns_eq(self.columns(i), other.columns(j)) {
                        proof {
                            assert(self@[i as int].0 == key@);
                            assert(other@[j as int].0 == key@);
                            assert(self.as_map()[self@[i as int].0] == self@[i as int].1);
                            assert(other.as_map()[other@[j as int].0] == other@[j as int].1);
                            assert(self.as_map()[key@] != other.as_map()[key@]);
                        }
                        return false;
                    }
                    proof {
                        assert(other.as_map()[other@[j as int].0] == other@[j as int].1);
                    }
                },
            }
            i = i + 1;
        }
        let mut j: usize = 0;
        while j < m
            invariant
                m == other@.len(),
                j <= m,
                forall|k: Seq<char>| #[trigger]
                    self.as_map().contains_key(k) <==> key_index(self@, k) is Some,
                forall|k: Seq<char>| #[trigger]
                    other.as_map().contains_key(k) <==> key_index(other@, k) is Some,
                forall|l: int| 0 <= l < j ==> #[trigger] self.as_map().contains_key(other@[l].0),
            decreases m - j,
        {
            let key = other.key(j);
            if self.position(key).is_none() {
                proof {
                    lemma_key_index(other@, key@);
                    lemma_key_index(self@, key@);
                    assert(other@[j as int].0 == key@);
                    assert(other.as_map().contains_key(key@));
                    assert(!self.as_map().contains_key(key@));
                }
                return false;
            }
            j = j + 1;
        }
        proof {
            assert forall|k: Seq<char>| #[trigger] self.as_map().contains_key(k)
                <==> other.as_map().contains_key(k) by {
                lemma_key_index(self@, k);
                lemma_key_index(other@, k);
                if self.as_map().contains_key(k) {
                    let a = key_index(self@, k)->0;
                    assert(other.as_map().contains_key(self@[a as int].0));
                }
                if other.as_map().contains_key(k) {
                    let b = key_index(other@, k)->0;
                    assert(self.as_map().contains_key(other@[b as int].0));
                }
            }
            assert forall|k: Seq<char>| #[trigger] self.as_map().contains_key(k) implies self.as_map()[k]
                == other.as_map()[k] by {
                lemma_key_index(self@, k);
                let a = key_index(self@, k)->0;
                assert(self.as_map()[self@[a as int].0] == self@[a as int].1);
            }
            assert(self.as_map() =~= other.as_map());
        }
        true
    }
}

} // verus!
