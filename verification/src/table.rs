//! Tables of values by key, in the order in which the keys were first put in.
use vstd::prelude::*;

verus! {

/// A type that tables can be keyed by: two keys are the same where their views are.
pub trait TableKey: View + Sized {
    /// Whether two keys are the same.
    fn same(&self, other: &Self) -> (r: bool)
        ensures
            r == (self@ == other@),
    ;

    /// A copy of the key.
    fn duplicate(&self) -> (r: Self)
        ensures
            r@ == self@,
    ;
}

/// Values by key.
pub struct Table<K, V> {
    pub entries: Vec<(K, V)>,
}

/// `i` is the first position of the key `k` in `s`.
pub open spec fn is_first<K, V>(s: Seq<(K, V)>, k: K, i: int) -> bool {
    &&& 0 <= i < s.len()
    &&& s[i].0 == k
    &&& forall|j: int| 0 <= j < i ==> (#[trigger] s[j]).0 != k
}

/// The key `k` occurs in `s`.
pub open spec fn occurs<K, V>(s: Seq<(K, V)>, k: K) -> bool {
    exists|i: int| #[trigger] is_first(s, k, i)
}

/// The first position of the key `k` in `s`.
pub open spec fn position<K, V>(s: Seq<(K, V)>, k: K) -> int {
    choose|i: int| #[trigger] is_first(s, k, i)
}

/// The value of the key `k`.
pub open spec fn get<K, V>(s: Seq<(K, V)>, k: K) -> Option<V> {
    if occurs(s, k) {
        Some(s[position(s, k)].1)
    } else {
        None
    }
}

/// The value of the key `k`, or `d` where it has none.
pub open spec fn get_or<K, V>(s: Seq<(K, V)>, k: K, d: V) -> V {
    if occurs(s, k) {
        s[position(s, k)].1
    } else {
        d
    }
}

/// `s` with the value `v` for the key `k`, in its place or behind all others.
pub open spec fn put<K, V>(s: Seq<(K, V)>, k: K, v: V) -> Seq<(K, V)> {
    if occurs(s, k) {
        s.update(position(s, k), (k, v))
    } else {
        s.push((k, v))
    }
}

/// No key occurs twice.
pub open spec fn unique_keys<K, V>(s: Seq<(K, V)>) -> bool {
    forall|i: int, j: int|
        0 <= i < s.len() && 0 <= j < s.len() && (#[trigger] s[i]).0 == (#[trigger] s[j]).0 ==> i
            == j
}

pub proof fn lemma_first<K, V>(s: Seq<(K, V)>, k: K, i: int)
    requires
        is_first(s, k, i),
    ensures
        occurs(s, k),
        position(s, k) == i,
{
    let p = position(s, k);
    assert(is_first(s, k, p));
    if p < i {
        assert(s[p].0 != k);
    } else if i < p {
        assert(s[i].0 != k);
    }
}

pub proof fn lemma_occurs<K, V>(s: Seq<(K, V)>, i: int)
    requires
        0 <= i < s.len(),
    ensures
        occurs(s, s[i].0),
        position(s, s[i].0) <= i,
    decreases i,
{
    if is_first(s, s[i].0, i) {
        lemma_first(s, s[i].0, i);
    } else {
        let j = choose|j: int| 0 <= j < i && (#[trigger] s[j]).0 == s[i].0;
        lemma_occurs(s, j);
    }
}

pub proof fn lemma_absent<K, V>(s: Seq<(K, V)>, k: K)
    requires
        forall|j: int| 0 <= j < s.len() ==> (#[trigger] s[j]).0 != k,
    ensures
        !occurs(s, k),
{
}

/// What was put in under a key is what the key then has.
pub proof fn law_put_get<K, V>(s: Seq<(K, V)>, k: K, v: V)
    ensures
        get(put(s, k, v), k) == Some(v),
{
    let t = put(s, k, v);
    if occurs(s, k) {
        let p = position(s, k);
        assert(is_first(s, k, p));
        assert(is_first(t, k, p));
        lemma_first(t, k, p);
    } else {
        assert forall|j: int| 0 <= j < s.len() implies (#[trigger] t[j]).0 != k by {
            assert(t[j] == s[j]);
            lemma_occurs(s, j);
        }
        assert(is_first(t, k, s.len() as int));
        lemma_first(t, k, s.len() as int);
    }
}

/// Putting in under one key leaves the values of the others as they are.
pub proof fn law_put_get_other<K, V>(s: Seq<(K, V)>, k: K, v: V, other: K)
    requires
        other != k,
    ensures
        get(put(s, k, v), other) == get(s, other),
{
    let t = put(s, k, v);
    if occurs(s, k) {
        assert(is_first(s, k, position(s, k)));
    }
    if occurs(s, other) {
        let p = position(s, other);
        assert(is_first(s, other, p));
        assert forall|j: int| 0 <= j < p implies (#[trigger] t[j]).0 != other by {
            assert(s[j].0 != other);
        }
        assert(is_first(t, other, p));
        lemma_first(t, other, p);
    } else {
        assert forall|j: int| 0 <= j < t.len() implies (#[trigger] t[j]).0 != other by {
            if j < s.len() {
                lemma_occurs(s, j);
            }
        }
        lemma_absent(t, other);
    }
}

/// Putting in keeps keys unique.
pub proof fn law_put_keeps_unique<K, V>(s: Seq<(K, V)>, k: K, v: V)
    requires
        unique_keys(s),
    ensures
        unique_keys(put(s, k, v)),
{
    let t = put(s, k, v);
    if occurs(s, k) {
        assert(is_first(s, k, position(s, k)));
        assert forall|i: int, j: int|
            0 <= i < t.len() && 0 <= j < t.len() && (#[trigger] t[i]).0 == (
            #[trigger] t[j]).0 implies i == j by {
            assert(s[i].0 == t[i].0);
            assert(s[j].0 == t[j].0);
        }
    } else {
        assert forall|i: int, j: int|
            0 <= i < t.len() && 0 <= j < t.len() && (#[trigger] t[i]).0 == (
            #[trigger] t[j]).0 implies i == j by {
            if i < s.len() {
                lemma_occurs(s, i);
                assert(t[i] == s[i]);
            }
            if j < s.len() {
                lemma_occurs(s, j);
                assert(t[j] == s[j]);
            }
        }
    }
}

pub proof fn lemma_get_push<K, V>(s: Seq<(K, V)>, e: (K, V), key: K)
    ensures
        get(s.push(e), key) == if occurs(s, key) {
            get(s, key)
        } else if e.0 == key {
            Some(e.1)
        } else {
            None
        },
{
    let t = s.push(e);
    if occurs(s, key) {
        let p = position(s, key);
        assert(is_first(s, key, p));
        assert forall|j: int| 0 <= j < p implies (#[trigger] t[j]).0 != key by {
            assert(s[j].0 != key);
        }
        assert(is_first(t, key, p));
        lemma_first(t, key, p);
    } else {
        assert forall|j: int| 0 <= j < s.len() implies (#[trigger] t[j]).0 != key by {
            lemma_occurs(s, j);
        }
        if e.0 == key {
            assert(is_first(t, key, s.len() as int));
            lemma_first(t, key, s.len() as int);
        } else {
            lemma_absent(t, key);
        }
    }
}

impl<K: TableKey, V: View> Table<K, V> {
    /// The keys and values, in order.
    pub open spec fn model(self) -> Seq<(K::V, V::V)> {
        self.entries@.map_values(|e: (K, V)| (e.0@, e.1@))
    }

    /// A table without entries.
    pub fn new() -> (t: Self)
        ensures
            t.model() == Seq::<(K::V, V::V)>::empty(),
    {
        let t = Table { entries: Vec::new() };
        assert(t.model() =~= Seq::empty());
        t
    }

    /// The position of a key.
    pub fn find(&self, key: &K) -> (r: Option<usize>)
        ensures
            r is Some <==> occurs(self.model(), key@),
            r matches Some(i) ==> is_first(self.model(), key@, i as int) && i == position(
                self.model(),
                key@,
            ) && i < self.entries@.len(),
    {
        let n = self.entries.len();
        let mut i: usize = 0;
        while i < n
            invariant
                i <= n,
                n == self.entries@.len(),
                forall|j: int| 0 <= j < i ==> (#[trigger] self.model()[j]).0 != key@,
            decreases n - i,
        {
            if self.entries[i].0.same(key) {
                proof {
                    assert(self.model()[i as int].0 == key@);
                    assert(is_first(self.model(), key@, i as int));
                    lemma_first(self.model(), key@, i as int);
                }
                return Some(i);
            }
            i += 1;
        }
        proof {
            lemma_absent(self.model(), key@);
        }
        None
    }

    /// The value of a key.
    pub fn get(&self, key: &K) -> (r: Option<&V>)
        ensures
            match r {
                Some(v) => get(self.model(), key@) == Some(v@),
                None => get(self.model(), key@) is None,
            },
    {
        match self.find(key) {
            Some(i) => Some(&self.entries[i].1),
            None => None,
        }
    }

    /// Gives a key a value.
    pub fn put(&mut self, key: K, value: V)
        ensures
            final(self).model() == put(old(self).model(), key@, value@),
    {
        match self.find(&key) {
            Some(i) => {
                self.entries[i] = (key, value);
            },
            None => {
                self.entries.push((key, value));
            },
        }
        assert(self.model() =~= put(old(self).model(), key@, value@));
    }

    /// The value of a key, to be changed in place; `default` is put in where it has none.
    pub fn slot(&mut self, key: K, default: V) -> (r: &mut V)
        ensures
            r@ == get_or(old(self).model(), key@, default@),
            final(self).model() == put(old(self).model(), key@, final(r)@),
    {
        let at = match self.find(&key) {
            Some(i) => i,
            None => {
                self.entries.push((key, default));
                self.entries.len() - 1
            },
        };
        &mut self.entries[at].1
    }
}

} // verus!
