//! Maps and sets keyed by strings, kept in ascending key order (the order a
//! `BTreeMap<String, _>` walks its entries in).

use vstd::prelude::*;
use vstd::string::*;

use crate::text::chars_of;

verus! {

/// `a` sorts strictly before `b`: lexicographic order by character, which is
/// the order of `String`'s `Ord` (UTF-8 byte order agrees with code point
/// order).
pub open spec fn lex_lt(a: Seq<char>, b: Seq<char>) -> bool
    decreases a.len(),
{
    if a.len() == 0 {
        b.len() > 0
    } else if b.len() == 0 {
        false
    } else if a[0] < b[0] {
        true
    } else if a[0] > b[0] {
        false
    } else {
        lex_lt(a.drop_first(), b.drop_first())
    }
}

pub proof fn lemma_lex_irreflexive(a: Seq<char>)
    ensures
        !lex_lt(a, a),
    decreases a.len(),
{
    if a.len() > 0 {
        lemma_lex_irreflexive(a.drop_first());
    }
}

pub proof fn lemma_lex_transitive(a: Seq<char>, b: Seq<char>, c: Seq<char>)
    requires
        lex_lt(a, b),
        lex_lt(b, c),
    ensures
        lex_lt(a, c),
    decreases a.len(),
{
    if a.len() > 0 && b.len() > 0 && c.len() > 0 {
        if a[0] == b[0] && b[0] == c[0] {
            lemma_lex_transitive(a.drop_first(), b.drop_first(), c.drop_first());
        }
    }
}

pub proof fn lemma_lex_total(a: Seq<char>, b: Seq<char>)
    ensures
        a == b || lex_lt(a, b) || lex_lt(b, a),
    decreases a.len(),
{
    if a.len() > 0 && b.len() > 0 {
        if a[0] == b[0] {
            lemma_lex_total(a.drop_first(), b.drop_first());
            if a.drop_first() == b.drop_first() {
                assert(a =~= seq![a[0]] + a.drop_first());
                assert(b =~= seq![b[0]] + b.drop_first());
            }
        }
    } else if a.len() == 0 && b.len() == 0 {
        assert(a =~= b);
    }
}

pub proof fn lemma_lex_asymmetric(a: Seq<char>, b: Seq<char>)
    requires
        lex_lt(a, b),
    ensures
        !lex_lt(b, a),
{
    if lex_lt(b, a) {
        lemma_lex_transitive(a, b, a);
        lemma_lex_irreflexive(a);
    }
}

/// `String`'s `<`.
pub fn str_lt(a: &str, b: &str) -> (r: bool)
    ensures
        r == lex_lt(a@, b@),
{
    let x = chars_of(a);
    let y = chars_of(b);
    let mut i: usize = 0;
    assert(x@.skip(0) =~= x@);
    assert(y@.skip(0) =~= y@);
    while i < x.len() && i < y.len()
        invariant
            i <= x.len(),
            i <= y.len(),
            x@ == a@,
            y@ == b@,
            lex_lt(x@, y@) == lex_lt(x@.skip(i as int), y@.skip(i as int)),
        decreases x.len() - i,
    {
        let ghost xs = x@.skip(i as int);
        let ghost ys = y@.skip(i as int);
        assert(xs[0] == x@[i as int] && ys[0] == y@[i as int]);
        if x[i] < y[i] {
            return true;
        }
        if x[i] > y[i] {
            return false;
        }
        assert(xs.drop_first() =~= x@.skip(i + 1));
        assert(ys.drop_first() =~= y@.skip(i + 1));
        i += 1;
    }
    i < y.len()
}

/// Keys strictly ascending, hence distinct.
pub open spec fn strictly_sorted<V>(s: Seq<(Seq<char>, V)>) -> bool {
    forall|i: int, j: int| 0 <= i < j < s.len() ==> lex_lt(#[trigger] s[i].0, #[trigger] s[j].0)
}

/// The value stored for `k` in `s`, if any (the first entry with that key).
pub open spec fn lookup<V>(s: Seq<(Seq<char>, V)>, k: Seq<char>) -> Option<V>
    decreases s.len(),
{
    if s.len() == 0 {
        None
    } else if s[0].0 == k {
        Some(s[0].1)
    } else {
        lookup(s.drop_first(), k)
    }
}

pub proof fn lemma_lookup_index<V>(s: Seq<(Seq<char>, V)>, k: Seq<char>, i: int)
    requires
        strictly_sorted(s),
        0 <= i < s.len(),
        s[i].0 == k,
    ensures
        lookup(s, k) == Some(s[i].1),
    decreases s.len(),
{
    if i > 0 {
        if s[0].0 == k {
            assert(lex_lt(s[0].0, s[i].0));
            lemma_lex_irreflexive(k);
        }
        assert(strictly_sorted(s.drop_first())) by {
            assert forall|a: int, b: int| 0 <= a < b < s.drop_first().len() implies
                lex_lt(#[trigger] s.drop_first()[a].0, #[trigger] s.drop_first()[b].0) by {
                assert(s.drop_first()[a] == s[a + 1]);
                assert(s.drop_first()[b] == s[b + 1]);
            }
        }
        lemma_lookup_index(s.drop_first(), k, i - 1);
    }
}

pub proof fn lemma_lookup_absent<V>(s: Seq<(Seq<char>, V)>, k: Seq<char>)
    requires
        forall|i: int| 0 <= i < s.len() ==> (#[trigger] s[i]).0 != k,
    ensures
        lookup(s, k) is None,
    decreases s.len(),
{
    if s.len() > 0 {
        assert(s[0].0 != k);
        assert forall|i: int| 0 <= i < s.drop_first().len() implies (#[trigger] s.drop_first()[i]).0 != k by {
            assert(s.drop_first()[i] == s[i + 1]);
        }
        lemma_lookup_absent(s.drop_first(), k);
    }
}

pub proof fn lemma_lookup_some<V>(s: Seq<(Seq<char>, V)>, k: Seq<char>)
    ensures
        lookup(s, k) matches Some(v) ==> exists|i: int| 0 <= i < s.len() && s[i].0 == k && s[i].1 == v,
        lookup(s, k) is None ==> forall|i: int| 0 <= i < s.len() ==> (#[trigger] s[i]).0 != k,
    decreases s.len(),
{
    if s.len() > 0 {
        lemma_lookup_some(s.drop_first(), k);
        if s[0].0 != k {
            if let Some(v) = lookup(s, k) {
                let i = choose|i: int| 0 <= i < s.drop_first().len() && s.drop_first()[i].0 == k && s.drop_first()[i].1 == v;
                assert(s[i + 1] == s.drop_first()[i]);
            } else {
                assert forall|i: int| 0 <= i < s.len() implies (#[trigger] s[i]).0 != k by {
                    if i > 0 {
                        assert(s[i] == s.drop_first()[i - 1]);
                    }
                }
            }
        }
    }
}

/// A map from strings to `V`, walked in ascending key order.
#[derive(Debug)]
pub struct StrMap<V> {
    entries: Vec<(String, V)>,
}

/// The entries of `v` with keys taken by view.
pub open spec fn entry_views<V>(v: Seq<(String, V)>) -> Seq<(Seq<char>, V)> {
    v.map_values(|e: (String, V)| (e.0@, e.1))
}

impl<V> View for StrMap<V> {
    type V = Seq<(Seq<char>, V)>;

    closed spec fn view(&self) -> Seq<(Seq<char>, V)> {
        entry_views(self.entries@)
    }
}

impl<V> StrMap<V> {
    /// Entries sorted strictly by key.
    #[verifier::type_invariant]
    closed spec fn wf(self) -> bool {
        strictly_sorted(entry_views(self.entries@))
    }

    /// The value stored for `k`, if any.
    pub open spec fn get_spec(&self, k: Seq<char>) -> Option<V> {
        lookup(self@, k)
    }

    /// An empty map.
    pub fn new() -> (m: Self)
        ensures
            m@ == Seq::<(Seq<char>, V)>::empty(),
    {
        let m = StrMap { entries: Vec::new() };
        assert(entry_views(m.entries@) =~= Seq::<(Seq<char>, V)>::empty());
        m
    }

    /// Number of entries.
    pub fn len(&self) -> (n: usize)
        ensures
            n == self@.len(),
            strictly_sorted(self@),
    {
        proof {
            use_type_invariant(self);
        }
        self.entries.len()
    }

    /// Whether the map has no entries.
    pub fn is_empty(&self) -> (b: bool)
        ensures
            b == (self@.len() == 0),
    {
        self.entries.len() == 0
    }

    /// The key of entry `i` (in ascending key order).
    pub fn key_at(&self, i: usize) -> (k: &String)
        requires
            i < self@.len(),
        ensures
            k@ == self@[i as int].0,
    {
        &self.entries[i].0
    }

    /// The value of entry `i` (in ascending key order).
    pub fn value_at(&self, i: usize) -> (v: &V)
        requires
            i < self@.len(),
        ensures
            *v == self@[i as int].1,
    {
        &self.entries[i].1
    }

    /// Position of the entry for `k`, if any.
    pub fn index_of(&self, k: &str) -> (r: Option<usize>)
        ensures
            match r {
                Some(i) => i < self@.len() && self@[i as int].0 == k@,
                None => forall|i: int| 0 <= i < self@.len() ==> (#[trigger] self@[i]).0 != k@,
            },
            r is None <==> self.get_spec(k@) is None,
    {
        proof {
            use_type_invariant(self);
        }
        let kv = chars_of(k);
        let mut i: usize = 0;
        while i < self.entries.len()
            invariant
                i <= self.entries@.len(),
                kv@ == k@,
                strictly_sorted(self@),
                self@ == entry_views(self.entries@),
                forall|j: int| 0 <= j < i ==> (#[trigger] self@[j]).0 != k@,
            decreases self.entries.len() - i,
        {
            if str_eq(self.entries[i].0.as_str(), k) {
                proof {
                    lemma_lookup_index(self@, k@, i as int);
                }
                return Some(i);
            }
            i += 1;
        }
        proof {
            lemma_lookup_absent(self@, k@);
        }
        None
    }

    /// The value stored for `k`, if any.
    pub fn get(&self, k: &str) -> (r: Option<&V>)
        ensures
            match (r, self.get_spec(k@)) {
                (Some(a), Some(b)) => *a == b,
                (None, None) => true,
                _ => false,
            },
    {
        proof {
            use_type_invariant(self);
        }
        match self.index_of(k) {
            Some(i) => {
                proof {
                    lemma_lookup_index(self@, k@, i as int);
                }
                Some(&self.entries[i].1)
            },
            None => None,
        }
    }

    /// Move every entry out, in key order, leaving the map empty.
    pub fn take_entries(&mut self) -> (r: Vec<(String, V)>)
        ensures
            entry_views(r@) == old(self)@,
            strictly_sorted(old(self)@),
            final(self)@.len() == 0,
    {
        proof {
            use_type_invariant(&*self);
        }
        let mut r: Vec<(String, V)> = Vec::new();
        std::mem::swap(&mut r, &mut self.entries);
        assert(entry_views(self.entries@) =~= Seq::<(Seq<char>, V)>::empty());
        r
    }

    /// The map holding `v`, whose keys are strictly ascending.
    pub fn from_entries(v: Vec<(String, V)>) -> (m: Self)
        requires
            strictly_sorted(entry_views(v@)),
        ensures
            m@ == entry_views(v@),
    {
        StrMap { entries: v }
    }

    /// Whether `k` has an entry.
    pub fn contains_key(&self, k: &str) -> (b: bool)
        ensures
            b == (self.get_spec(k@) is Some),
    {
        self.index_of(k).is_some()
    }

    /// Store `v` for `k`, replacing any value stored before; other entries are
    /// unchanged and the key order is kept.
    pub fn insert(&mut self, k: String, v: V)
        ensures
            final(self)@ == insert_sorted(old(self)@, k@, v),
            forall|q: Seq<char>| #[trigger] final(self).get_spec(q) == if q == k@ {
                Some(v)
            } else {
                old(self).get_spec(q)
            },
    {
        proof {
            use_type_invariant(&*self);
            assert forall|q: Seq<char>| #[trigger] lookup(insert_sorted(self@, k@, v), q) == if q == k@ {
                Some(v)
            } else {
                lookup(self@, q)
            } by {
                lemma_lookup_insert(self@, k@, v, q);
            }
        }
        let ghost old_view = self@;
        let n = self.entries.len();
        let mut i: usize = 0;
        while i < n && str_lt(self.entries[i].0.as_str(), k.as_str())
            invariant
                i <= n == self.entries@.len(),
                self@ == old_view,
                strictly_sorted(old_view),
                forall|j: int| 0 <= j < i ==> lex_lt(#[trigger] old_view[j].0, k@),
            decreases n - i,
        {
            i += 1;
        }
        if i < n && str_eq(self.entries[i].0.as_str(), k.as_str()) {
            let mut entries: Vec<(String, V)> = Vec::new();
            std::mem::swap(&mut entries, &mut self.entries);
            let ghost kk = k@;
            entries.set(i, (k, v));
            proof {
                assert(entry_views(entries@) =~= old_view.update(i as int, (kk, v)));
                lemma_insert_replace(old_view, entry_views(entries@), kk, v, i as int);
            }
            self.entries = entries;
        } else {
            let mut entries: Vec<(String, V)> = Vec::new();
            std::mem::swap(&mut entries, &mut self.entries);
            let ghost kk = k@;
            entries.insert(i, (k, v));
            proof {
                assert(entry_views(entries@) =~= old_view.insert(i as int, (kk, v)));
                lemma_insert_new(old_view, entry_views(entries@), kk, v, i as int);
            }
            self.entries = entries;
        }
    }
}

impl<V: Clone> Clone for StrMap<V> {
    /// The same keys in the same order, each value cloned.
    fn clone(&self) -> (r: Self)
        ensures
            r@.len() == self@.len(),
            forall|i: int| 0 <= i < self@.len() ==> (#[trigger] r@[i]).0 == self@[i].0 && cloned(self@[i].1, r@[i].1),
    {
        proof {
            use_type_invariant(self);
        }
        let mut entries: Vec<(String, V)> = Vec::new();
        let mut i: usize = 0;
        while i < self.entries.len()
            invariant
                i <= self.entries@.len(),
                self@ == entry_views(self.entries@),
                strictly_sorted(self@),
                entries@.len() == i,
                forall|j: int| 0 <= j < i ==> (#[trigger] entry_views(entries@)[j]).0 == self@[j].0
                    && cloned(self@[j].1, entry_views(entries@)[j].1),
            decreases self.entries.len() - i,
        {
            let k = self.entries[i].0.clone();
            let v = self.entries[i].1.clone();
            let ghost before = entries@;
            entries.push((k, v));
            proof {
                assert forall|j: int| 0 <= j < i + 1 implies (#[trigger] entry_views(entries@)[j]).0 == self@[j].0
                    && cloned(self@[j].1, entry_views(entries@)[j].1) by {
                    if j < i {
                        assert(entry_views(entries@)[j] == entry_views(before)[j]);
                    }
                }
            }
            i += 1;
        }
        proof {
            assert forall|a: int, b: int| 0 <= a < b < entry_views(entries@).len() implies
                lex_lt(#[trigger] entry_views(entries@)[a].0, #[trigger] entry_views(entries@)[b].0) by {
                assert(entry_views(entries@)[a].0 == self@[a].0);
                assert(entry_views(entries@)[b].0 == self@[b].0);
            }
        }
        StrMap { entries }
    }
}

impl StrMap<String> {
    /// The map as a mathematical map from keys to values.
    pub open spec fn map_view(&self) -> Map<Seq<char>, Seq<char>> {
        Map::new(|k: Seq<char>| self.get_spec(k) is Some, |k: Seq<char>| match self.get_spec(k) {
            Some(v) => v@,
            None => Seq::empty(),
        })
    }

    /// An entry-for-entry copy.
    pub fn duplicate(&self) -> (r: Self)
        ensures
            r@ == self@,
    {
        let r = self.clone();
        assert(r@ =~= self@);
        r
    }

    /// Store every entry of `other`, replacing values already stored under the
    /// same keys (what `BTreeMap::extend` does).
    pub fn overlay(&mut self, other: &StrMap<String>)
        ensures
            forall|q: Seq<char>| #[trigger] final(self).get_spec(q) == match other.get_spec(q) {
                Some(v) => Some(v),
                None => old(self).get_spec(q),
            },
    {
        let n = other.len();
        let mut i: usize = 0;
        while i < n
            invariant
                i <= n == other@.len(),
                strictly_sorted(other@),
                forall|q: Seq<char>| #[trigger] self.get_spec(q) == match lookup(other@.take(i as int), q) {
                    Some(v) => Some(v),
                    None => old(self).get_spec(q),
                },
            decreases n - i,
        {
            let k = other.key_at(i).clone();
            let v = other.value_at(i).clone();
            let ghost kv = k@;
            let ghost vv = v;
            self.insert(k, v);
            proof {
                assert forall|q: Seq<char>| #[trigger] lookup(other@.take(i + 1), q) == if q == kv {
                    Some(vv)
                } else {
                    lookup(other@.take(i as int), q)
                } by {
                    lemma_lookup_append(other@.take(i as int), (kv, vv), q);
                    assert(other@.take(i + 1) =~= other@.take(i as int).push((kv, vv)));
                    if q == kv {
                        assert forall|j: int| 0 <= j < i implies (#[trigger] other@.take(i as int)[j]).0 != q by {
                            assert(lex_lt(other@[j].0, other@[i as int].0));
                            lemma_lex_irreflexive(q);
                        }
                        lemma_lookup_absent(other@.take(i as int), q);
                    }
                }
            }
            i += 1;
        }
        assert(other@.take(n as int) =~= other@);
    }

    /// Store `v` for `k` unless `k` already has an entry (what
    /// `entry(k).or_insert(v)` does).
    pub fn insert_absent(&mut self, k: String, v: String)
        ensures
            forall|q: Seq<char>| #[trigger] final(self).get_spec(q) == if q == k@ && old(self).get_spec(q) is None {
                Some(v)
            } else {
                old(self).get_spec(q)
            },
    {
        if !self.contains_key(k.as_str()) {
            self.insert(k, v);
        }
    }
}

/// Names in strictly ascending order.
pub open spec fn names_sorted(s: Seq<Seq<char>>) -> bool {
    forall|i: int, j: int| 0 <= i < j < s.len() ==> lex_lt(#[trigger] s[i], #[trigger] s[j])
}

/// A set of strings, walked in ascending order (a `BTreeSet<String>`).
#[derive(Debug)]
pub struct StrSet {
    names: StrMap<()>,
}

impl View for StrSet {
    type V = Seq<Seq<char>>;

    closed spec fn view(&self) -> Seq<Seq<char>> {
        self.names@.map_values(|e: (Seq<char>, ())| e.0)
    }
}

impl Clone for StrSet {
    fn clone(&self) -> (r: Self)
        ensures
            r@ == self@,
    {
        let names = self.names.clone();
        assert(names@ =~= self.names@);
        StrSet { names }
    }
}

impl StrSet {
    /// An empty set.
    pub fn new() -> (r: Self)
        ensures
            r@ == Seq::<Seq<char>>::empty(),
    {
        let r = StrSet { names: StrMap::new() };
        assert(r@ =~= Seq::<Seq<char>>::empty());
        r
    }

    /// Whether `name` is in the set.
    pub fn contains(&self, name: &str) -> (b: bool)
        ensures
            b == self@.contains(name@),
    {
        let r = self.names.index_of(name);
        proof {
            if let Some(i) = r {
                assert(self@[i as int] == name@);
            } else {
                if self@.contains(name@) {
                    let j = choose|j: int| 0 <= j < self@.len() && self@[j] == name@;
                    assert(self.names@[j].0 == name@);
                }
            }
        }
        r.is_some()
    }

    /// Add `name` to the set.
    pub fn insert(&mut self, name: String)
        ensures
            forall|q: Seq<char>| #[trigger] final(self)@.contains(q) == (q == name@ || old(self)@.contains(q)),
            names_sorted(final(self)@),
    {
        let ghost before = self.names@;
        let ghost nv = name@;
        self.names.insert(name, ());
        proof {
            assert forall|q: Seq<char>| #[trigger] self@.contains(q) == (q == nv || old(self)@.contains(q)) by {
                let ga = self.names.get_spec(q);
                let gb = old(self).names.get_spec(q);
                lemma_lookup_some(self.names@, q);
                lemma_lookup_some(before, q);
                assert(old(self).names@ == before);
                if self@.contains(q) {
                    let j = choose|j: int| 0 <= j < self@.len() && self@[j] == q;
                    assert(self.names@[j].0 == q);
                    assert(ga is Some);
                    if q != nv {
                        assert(gb is Some);
                        let i = choose|i: int| 0 <= i < before.len() && before[i].0 == q && before[i].1 == ();
                        assert(old(self)@[i] == before[i].0);
                    }
                }
                if q == nv || old(self)@.contains(q) {
                    if q != nv {
                        let j = choose|j: int| 0 <= j < old(self)@.len() && old(self)@[j] == q;
                        assert(before[j].0 == q);
                        assert(gb is Some);
                    }
                    assert(ga is Some);
                    let i = choose|i: int| 0 <= i < self.names@.len() && self.names@[i].0 == q && self.names@[i].1 == ();
                    assert(self@[i] == q);
                }
            }
        }
        let _n = self.names.len();
        proof {
            assert forall|i: int, j: int| 0 <= i < j < self@.len() implies lex_lt(#[trigger] self@[i], #[trigger] self@[j]) by {
                assert(self@[i] == self.names@[i].0);
                assert(self@[j] == self.names@[j].0);
            }
        }
    }

    /// Number of names.
    pub fn len(&self) -> (n: usize)
        ensures
            n == self@.len(),
    {
        self.names.len()
    }

    /// The `i`-th name in ascending order.
    pub fn name_at(&self, i: usize) -> (s: &String)
        requires
            i < self@.len(),
        ensures
            s@ == self@[i as int],
    {
        self.names.key_at(i)
    }
}

/// Looking a key up in `s` followed by one more entry finds it in `s` first.
pub proof fn lemma_lookup_append<V>(s: Seq<(Seq<char>, V)>, e: (Seq<char>, V), q: Seq<char>)
    ensures
        lookup(s.push(e), q) == match lookup(s, q) {
            Some(v) => Some(v),
            None => if e.0 == q {
                Some(e.1)
            } else {
                None
            },
        },
    decreases s.len(),
{
    if s.len() == 0 {
        assert(s.push(e)[0] == e);
        assert(s.push(e).drop_first() =~= Seq::<(Seq<char>, V)>::empty());
    } else {
        assert(s.push(e)[0] == s[0]);
        assert(s.push(e).drop_first() =~= s.drop_first().push(e));
        lemma_lookup_append(s.drop_first(), e, q);
    }
}

/// A map's entries as a mathematical map from keys to values.
pub open spec fn value_map<V>(m: StrMap<V>) -> Map<Seq<char>, V> {
    Map::new(|k: Seq<char>| m.get_spec(k) is Some, |k: Seq<char>| m.get_spec(k)->0)
}

/// Looking a key up after an insertion finds the inserted value for that
/// key and what was there before for every other key.
#[verifier::spinoff_prover]
pub proof fn lemma_lookup_insert<V>(s: Seq<(Seq<char>, V)>, k: Seq<char>, v: V, q: Seq<char>)
    ensures
        lookup(insert_sorted(s, k, v), q) == if q == k {
            Some(v)
        } else {
            lookup(s, q)
        },
    decreases s.len(),
{
    let t = insert_sorted(s, k, v);
    assert(lookup(t, q) == if t.len() == 0 { None } else if t[0].0 == q { Some(t[0].1) } else { lookup(t.drop_first(), q) });
    assert(lookup(s, q) == if s.len() == 0 { None } else if s[0].0 == q { Some(s[0].1) } else { lookup(s.drop_first(), q) });
    if s.len() == 0 {
        assert(t[0] == (k, v));
        assert(t.drop_first() =~= Seq::<(Seq<char>, V)>::empty());
    } else if s[0].0 == k {
        assert(t[0] == (k, v));
        assert(t.drop_first() =~= s.drop_first());
    } else if lex_lt(k, s[0].0) {
        assert(t[0] == (k, v));
        assert(t.drop_first() =~= s);
    } else {
        assert(t[0] == s[0]);
        assert(t.drop_first() =~= insert_sorted(s.drop_first(), k, v));
        lemma_lookup_insert(s.drop_first(), k, v, q);
    }
}

/// `s` with `v` stored for `k`: the entry for `k` replaced, or a new entry put
/// where it keeps the keys ascending.
pub open spec fn insert_sorted<V>(s: Seq<(Seq<char>, V)>, k: Seq<char>, v: V) -> Seq<(Seq<char>, V)>
    decreases s.len(),
{
    if s.len() == 0 {
        seq![(k, v)]
    } else if s[0].0 == k {
        s.update(0, (k, v))
    } else if lex_lt(k, s[0].0) {
        seq![(k, v)] + s
    } else {
        seq![s[0]] + insert_sorted(s.drop_first(), k, v)
    }
}

/// String equality on characters.
pub fn str_eq(a: &str, b: &str) -> (r: bool)
    ensures
        r == (a@ == b@),
{
    let x = chars_of(a);
    let y = chars_of(b);
    if x.len() != y.len() {
        return false;
    }
    let mut i: usize = 0;
    while i < x.len()
        invariant
            i <= x.len() == y.len(),
            x@ == a@,
            y@ == b@,
            forall|j: int| 0 <= j < i ==> x@[j] == y@[j],
        decreases x.len() - i,
    {
        if x[i] != y[i] {
            assert(x@[i as int] != y@[i as int]);
            return false;
        }
        i += 1;
    }
    assert(x@ =~= y@);
    true
}

proof fn lemma_insert_replace<V>(s: Seq<(Seq<char>, V)>, t: Seq<(Seq<char>, V)>, k: Seq<char>, v: V, i: int)
    requires
        strictly_sorted(s),
        0 <= i < s.len(),
        s[i].0 == k,
        forall|j: int| 0 <= j < i ==> lex_lt(#[trigger] s[j].0, k),
        t == s.update(i, (k, v)),
    ensures
        t == insert_sorted(s, k, v),
        strictly_sorted(t),
    decreases s.len(),
{
    if i == 0 {
    } else {
        assert(lex_lt(s[0].0, k));
        if s[0].0 == k {
            lemma_lex_irreflexive(k);
        }
        lemma_lex_asymmetric(s[0].0, k);
        let s1 = s.drop_first();
        assert(strictly_sorted(s1)) by {
            assert forall|a: int, b: int| 0 <= a < b < s1.len() implies
                lex_lt(#[trigger] s1[a].0, #[trigger] s1[b].0) by {
                assert(s1[a] == s[a + 1]);
                assert(s1[b] == s[b + 1]);
            }
        }
        assert forall|j: int| 0 <= j < i - 1 implies lex_lt(#[trigger] s1[j].0, k) by {
            assert(s1[j] == s[j + 1]);
        }
        lemma_insert_replace(s1, s1.update(i - 1, (k, v)), k, v, i - 1);
        assert(t =~= seq![s[0]] + s1.update(i - 1, (k, v)));
    }
    assert forall|a: int, b: int| 0 <= a < b < t.len() implies lex_lt(#[trigger] t[a].0, #[trigger] t[b].0) by {
        assert(t[a].0 == s[a].0);
        assert(t[b].0 == s[b].0);
    }
}

proof fn lemma_insert_new<V>(s: Seq<(Seq<char>, V)>, t: Seq<(Seq<char>, V)>, k: Seq<char>, v: V, i: int)
    requires
        strictly_sorted(s),
        0 <= i <= s.len(),
        forall|j: int| 0 <= j < i ==> lex_lt(#[trigger] s[j].0, k),
        i < s.len() ==> !lex_lt(s[i].0, k) && s[i].0 != k,
        t == s.insert(i, (k, v)),
    ensures
        t == insert_sorted(s, k, v),
        strictly_sorted(t),
    decreases s.len(),
{
    if i < s.len() {
        lemma_lex_total(s[i].0, k);
    }
    if s.len() == 0 {
        assert(t =~= seq![(k, v)]);
    } else if i == 0 {
        assert(lex_lt(k, s[0].0));
        if s[0].0 == k {
            lemma_lex_irreflexive(k);
        }
        assert(t =~= seq![(k, v)] + s);
    } else {
        assert(lex_lt(s[0].0, k));
        if s[0].0 == k {
            lemma_lex_irreflexive(k);
        }
        lemma_lex_asymmetric(s[0].0, k);
        let s1 = s.drop_first();
        assert(strictly_sorted(s1)) by {
            assert forall|a: int, b: int| 0 <= a < b < s1.len() implies
                lex_lt(#[trigger] s1[a].0, #[trigger] s1[b].0) by {
                assert(s1[a] == s[a + 1]);
                assert(s1[b] == s[b + 1]);
            }
        }
        assert forall|j: int| 0 <= j < i - 1 implies lex_lt(#[trigger] s1[j].0, k) by {
            assert(s1[j] == s[j + 1]);
        }
        if i - 1 < s1.len() {
            assert(s1[i - 1] == s[i]);
        }
        lemma_insert_new(s1, s1.insert(i - 1, (k, v)), k, v, i - 1);
        assert(t =~= seq![s[0]] + s1.insert(i - 1, (k, v)));
    }
    assert forall|a: int, b: int| 0 <= a < b < t.len() implies lex_lt(#[trigger] t[a].0, #[trigger] t[b].0) by {
        if b < i {
            assert(t[a] == s[a] && t[b] == s[b]);
        } else if b == i {
            assert(t[a] == s[a]);
        } else if a < i {
            assert(t[a] == s[a] && t[b] == s[b - 1]);
            lemma_lex_total(s[i].0, k);
            if i < b - 1 {
                lemma_lex_transitive(s[a].0, k, s[i].0);
                lemma_lex_transitive(s[a].0, s[i].0, s[b - 1].0);
            } else {
                lemma_lex_transitive(s[a].0, k, s[b - 1].0);
            }
        } else if a == i {
            assert(t[b] == s[b - 1]);
            lemma_lex_total(s[i].0, k);
            if i < b - 1 {
                lemma_lex_transitive(k, s[i].0, s[b - 1].0);
            }
        } else {
            assert(t[a] == s[a - 1] && t[b] == s[b - 1]);
        }
    }
}

} // verus!
