//! Maps from strings to values, kept in key order.
//!
//! A map is modelled as the sequence of its entries in ascending key order, each
//! key once. The order makes whatever walks a map (encoders, reports)
//! deterministic.

use crate::text;
use vstd::prelude::*;
use vstd::string::*;

verus! {

/// The keys ascend strictly.
pub open spec fn sorted<W>(m: Seq<(Seq<char>, W)>) -> bool {
    forall|i: int, j: int| 0 <= i < j < m.len() ==> text::text_lt(#[trigger] m[i].0, #[trigger] m[j].0)
}

/// How many leading keys come before `k`: where `k` stands or would stand.
pub open spec fn rank<W>(m: Seq<(Seq<char>, W)>, k: Seq<char>) -> int
    decreases m.len(),
{
    if m.len() > 0 && text::text_lt(m[0].0, k) {
        1 + rank(m.skip(1), k)
    } else {
        0
    }
}

/// The value for a key.
pub open spec fn get<W>(m: Seq<(Seq<char>, W)>, k: Seq<char>) -> Option<W> {
    let i = rank(m, k);
    if i < m.len() && m[i].0 == k {
        Some(m[i].1)
    } else {
        None
    }
}

/// The map with `k` bound to `v`.
pub open spec fn insert<W>(m: Seq<(Seq<char>, W)>, k: Seq<char>, v: W) -> Seq<(Seq<char>, W)> {
    let i = rank(m, k);
    if i < m.len() && m[i].0 == k {
        m.update(i, (k, v))
    } else {
        m.insert(i, (k, v))
    }
}

pub proof fn lemma_rank<W>(m: Seq<(Seq<char>, W)>, k: Seq<char>)
    ensures
        0 <= rank(m, k) <= m.len(),
        forall|j: int| 0 <= j < rank(m, k) ==> text::text_lt(#[trigger] m[j].0, k),
        rank(m, k) < m.len() ==> !text::text_lt(m[rank(m, k)].0, k),
    decreases m.len(),
{
    if m.len() > 0 && text::text_lt(m[0].0, k) {
        lemma_rank(m.skip(1), k);
        assert forall|j: int| 0 <= j < rank(m, k) implies text::text_lt(#[trigger] m[j].0, k) by {
            if j > 0 {
                assert(m[j] == m.skip(1)[j - 1]);
            }
        }
    }
}

pub proof fn lemma_rank_unique<W>(m: Seq<(Seq<char>, W)>, k: Seq<char>, i: int)
    requires
        0 <= i <= m.len(),
        forall|j: int| 0 <= j < i ==> text::text_lt(#[trigger] m[j].0, k),
        i < m.len() ==> !text::text_lt(m[i].0, k),
    ensures
        rank(m, k) == i,
{
    lemma_rank(m, k);
    let r = rank(m, k);
    if r < i {
        assert(text::text_lt(m[r].0, k));
    } else if i < r {
        assert(text::text_lt(m[i].0, k));
    }
}

/// Inserting keeps the keys in order.
pub proof fn lemma_insert_sorted<W>(m: Seq<(Seq<char>, W)>, k: Seq<char>, v: W)
    requires
        sorted(m),
    ensures
        sorted(insert(m, k, v)),
{
    lemma_rank(m, k);
    let i = rank(m, k);
    let n = insert(m, k, v);
    if i < m.len() && m[i].0 == k {
        assert forall|a: int, b: int| 0 <= a < b < n.len() implies text::text_lt(
            #[trigger] n[a].0,
            #[trigger] n[b].0,
        ) by {
            assert(n[a].0 == m[a].0 && n[b].0 == m[b].0);
        }
    } else {
        if i < m.len() {
            text::lemma_text_lt_total(m[i].0, k);
        }
        assert forall|a: int, b: int| 0 <= a < b < n.len() implies text::text_lt(
            #[trigger] n[a].0,
            #[trigger] n[b].0,
        ) by {
            if b < i {
                assert(n[a] == m[a] && n[b] == m[b]);
            } else if b == i {
                assert(n[a] == m[a]);
            } else if a < i {
                assert(n[a] == m[a] && n[b] == m[b - 1]);
            } else if a == i {
                assert(n[b] == m[b - 1]);
                if b - 1 > i {
                    text::lemma_text_lt_transitive(k, m[i].0, m[b - 1].0);
                }
            } else {
                assert(n[a] == m[a - 1] && n[b] == m[b - 1]);
            }
        }
    }
}

/// A key of the map stands at its rank.
pub proof fn lemma_get_at<W>(m: Seq<(Seq<char>, W)>, i: int)
    requires
        sorted(m),
        0 <= i < m.len(),
    ensures
        get(m, m[i].0) == Some(m[i].1),
        rank(m, m[i].0) == i,
{
    text::lemma_text_lt_irreflexive(m[i].0);
    lemma_rank_unique(m, m[i].0, i);
}

/// A key without a value stands nowhere in the map.
pub proof fn lemma_get_none<W>(m: Seq<(Seq<char>, W)>, k: Seq<char>)
    requires
        sorted(m),
    ensures
        get(m, k) is None <==> forall|i: int| 0 <= i < m.len() ==> (#[trigger] m[i]).0 != k,
{
    if get(m, k) is None {
        assert forall|i: int| 0 <= i < m.len() implies (#[trigger] m[i]).0 != k by {
            if m[i].0 == k {
                lemma_get_at(m, i);
            }
        }
    } else {
        lemma_rank(m, k);
        assert(m[rank(m, k)].0 == k);
    }
}

/// A lookup after an insertion finds the new value for the key, and for every
/// other key what was there before.
pub proof fn get_after_insert<W>(m: Seq<(Seq<char>, W)>, k: Seq<char>, v: W, q: Seq<char>)
    requires
        sorted(m),
    ensures
        get(insert(m, k, v), q) == (if q == k {
            Some(v)
        } else {
            get(m, q)
        }),
{
    lemma_rank(m, k);
    lemma_insert_sorted(m, k, v);
    let n = insert(m, k, v);
    let i = rank(m, k);
    if q == k {
        assert(n[i] == (k, v));
        lemma_get_at(n, i);
    } else {
        lemma_get_none(m, q);
        lemma_get_none(n, q);
        if get(m, q) is Some {
            lemma_rank(m, q);
            let j = rank(m, q);
            let t = if i < m.len() && m[i].0 == k {
                j
            } else if j < i {
                j
            } else {
                j + 1
            };
            assert(n[t] == m[j]);
            lemma_get_at(n, t);
        } else if get(n, q) is Some {
            lemma_rank(n, q);
            let t = rank(n, q);
            assert(n[t].0 == q);
            if i < m.len() && m[i].0 == k {
                assert(n[t] == m[t]);
            } else if t < i {
                assert(n[t] == m[t]);
            } else if t > i {
                assert(n[t] == m[t - 1]);
            }
        }
    }
}

/// A map from strings to values.
#[derive(Debug, PartialEq, Eq)]
pub struct StringMap<V> {
    entries: Vec<(String, V)>,
}

/// The entries as plain values.
pub open spec fn entries_view<V: DeepView>(e: Seq<(String, V)>) -> Seq<(Seq<char>, V::V)> {
    e.map_values(|p: (String, V)| (p.0@, p.1.deep_view()))
}

impl<V: DeepView> DeepView for StringMap<V> {
    type V = Seq<(Seq<char>, V::V)>;

    closed spec fn deep_view(&self) -> Seq<(Seq<char>, V::V)> {
        entries_view(self.entries@)
    }
}

/// The keys ascend strictly.
spec fn keys_ascend<V>(e: Seq<(String, V)>) -> bool {
    forall|i: int, j: int| 0 <= i < j < e.len() ==> text::text_lt(#[trigger] e[i].0@, #[trigger] e[j].0@)
}

impl<V> StringMap<V> {
    #[verifier::type_invariant]
    closed spec fn inv(self) -> bool {
        keys_ascend(self.entries@)
    }
}

impl<V: DeepView> StringMap<V> {
    /// The empty map.
    pub fn new() -> (r: StringMap<V>)
        ensures
            r.deep_view() == Seq::<(Seq<char>, V::V)>::empty(),
    {
        let r = StringMap { entries: Vec::new() };
        assert(r.deep_view() =~= Seq::<(Seq<char>, V::V)>::empty());
        r
    }

    /// The number of entries.
    pub fn len(&self) -> (r: usize)
        ensures
            r == self.deep_view().len(),
            sorted(self.deep_view()),
    {
        proof {
            use_type_invariant(self);
            self.lemma_sorted();
        }
        self.entries.len()
    }

    /// True if there is no entry.
    pub fn is_empty(&self) -> (r: bool)
        ensures
            r == (self.deep_view().len() == 0),
    {
        self.entries.len() == 0
    }

    proof fn lemma_sorted(&self)
        requires
            self.inv(),
        ensures
            sorted(self.deep_view()),
    {
        let m = self.deep_view();
        assert forall|i: int, j: int| 0 <= i < j < m.len() implies text::text_lt(
            #[trigger] m[i].0,
            #[trigger] m[j].0,
        ) by {
            assert(m[i].0 == self.entries@[i].0@ && m[j].0 == self.entries@[j].0@);
        }
    }

    /// The key at position `i` in key order.
    pub fn key_at(&self, i: usize) -> (r: &String)
        requires
            i < self.deep_view().len(),
        ensures
            r@ == self.deep_view()[i as int].0,
    {
        &self.entries[i].0
    }

    /// The value at position `i` in key order.
    pub fn value_at(&self, i: usize) -> (r: &V)
        requires
            i < self.deep_view().len(),
        ensures
            r.deep_view() == self.deep_view()[i as int].1,
    {
        &self.entries[i].1
    }

    fn find(&self, k: &str) -> (r: usize)
        ensures
            r == rank(self.deep_view(), k@),
            r <= self.entries@.len(),
    {
        let ghost m = self.deep_view();
        let mut i: usize = 0;
        while i < self.entries.len() && text::is_before(self.entries[i].0.as_str(), k)
            invariant
                i <= self.entries@.len(),
                m == self.deep_view(),
                forall|j: int| 0 <= j < i ==> text::text_lt(#[trigger] m[j].0, k@),
            decreases self.entries@.len() - i,
        {
            assert(m[i as int].0 == self.entries@[i as int].0@);
            i = i + 1;
        }
        proof {
            if i < self.entries@.len() {
                assert(m[i as int].0 == self.entries@[i as int].0@);
            }
            lemma_rank_unique(m, k@, i as int);
        }
        i
    }

    /// The value for a key.
    pub fn get(&self, k: &str) -> (r: Option<&V>)
        ensures
            (match r {
                Some(v) => get(self.deep_view(), k@) == Some(v.deep_view()),
                None => get(self.deep_view(), k@) is None,
            }),
    {
        let i = self.find(k);
        if i < self.entries.len() && text::same(self.entries[i].0.as_str(), k) {
            assert(self.deep_view()[i as int].0 == k@);
            Some(&self.entries[i].1)
        } else {
            proof {
                if i < self.entries@.len() {
                    assert(self.deep_view()[i as int].0 == self.entries@[i as int].0@);
                }
            }
            None
        }
    }

    /// True if the key has a value.
    pub fn contains_key(&self, k: &str) -> (r: bool)
        ensures
            r == (get(self.deep_view(), k@) is Some),
    {
        match self.get(k) {
            Some(_) => true,
            None => false,
        }
    }

    /// Binds `k` to `v`.
    pub fn insert(&mut self, k: String, v: V)
        ensures
            final(self).deep_view() == insert(old(self).deep_view(), k@, v.deep_view()),
    {
        proof {
            use_type_invariant(&*self);
            self.lemma_sorted();
        }
        let i = self.find(k.as_str());
        let ghost m = self.deep_view();
        let ghost kv = k@;
        let ghost vv = v.deep_view();
        let found = i < self.entries.len() && text::same(self.entries[i].0.as_str(), k.as_str());
        let mut entries: Vec<(String, V)> = Vec::new();
        std::mem::swap(&mut entries, &mut self.entries);
        let ghost e0 = entries@;
        proof {
            assert(m == entries_view(e0));
            if i < e0.len() {
                assert(m[i as int].0 == e0[i as int].0@);
            }
            lemma_insert_sorted(m, kv, vv);
        }
        if found {
            entries.remove(i);
        }
        entries.insert(i, (k, v));
        proof {
            assert(entries_view(entries@) =~= insert(m, kv, vv));
            let n = insert(m, kv, vv);
            assert forall|a: int, b: int| 0 <= a < b < entries@.len() implies text::text_lt(
                #[trigger] entries@[a].0@,
                #[trigger] entries@[b].0@,
            ) by {
                assert(n[a].0 == entries@[a].0@ && n[b].0 == entries@[b].0@);
                assert(text::text_lt(n[a].0, n[b].0));
            }
        }
        self.entries = entries;
    }

    /// Takes the value of a key out of the map, if there is one.
    pub fn take(&mut self, k: &str) -> (r: Option<V>)
        ensures
            (match r {
                Some(v) => get(old(self).deep_view(), k@) == Some(v.deep_view()) && final(self).deep_view() == old(self).deep_view().remove(rank(old(self).deep_view(), k@)),
                None => get(old(self).deep_view(), k@) is None && final(self).deep_view() == old(self).deep_view(),
            }),
    {
        proof {
            use_type_invariant(&*self);
        }
        let i = self.find(k);
        let ghost m = self.deep_view();
        if i < self.entries.len() && text::same(self.entries[i].0.as_str(), k) {
            let mut entries: Vec<(String, V)> = Vec::new();
            std::mem::swap(&mut entries, &mut self.entries);
            let ghost e0 = entries@;
            assert(m[i as int].0 == e0[i as int].0@);
            let (key, value) = entries.remove(i);
            proof {
                assert(entries_view(entries@) =~= m.remove(i as int));
                assert forall|a: int, b: int| 0 <= a < b < entries@.len() implies text::text_lt(
                    #[trigger] entries@[a].0@,
                    #[trigger] entries@[b].0@,
                ) by {
                    let a0 = if a < i {
                        a
                    } else {
                        a + 1
                    };
                    let b0 = if b < i {
                        b
                    } else {
                        b + 1
                    };
                    assert(entries@[a] == e0[a0] && entries@[b] == e0[b0]);
                    assert(text::text_lt(e0[a0].0@, e0[b0].0@));
                }
            }
            self.entries = entries;
            Some(value)
        } else {
            proof {
                if i < self.entries@.len() {
                    assert(m[i as int].0 == self.entries@[i as int].0@);
                }
            }
            None
        }
    }
}

impl StringMap<String> {
    /// A copy of the map.
    pub fn copy(&self) -> (r: StringMap<String>)
        ensures
            r.deep_view() == self.deep_view(),
    {
        proof {
            use_type_invariant(self);
        }
        let mut entries: Vec<(String, String)> = Vec::new();
        let mut i: usize = 0;
        while i < self.entries.len()
            invariant
                i <= self.entries@.len(),
                keys_ascend(self.entries@),
                entries@.len() == i,
                forall|j: int|
                    0 <= j < i ==> (#[trigger] entries@[j]).0@ == self.entries@[j].0@
                        && entries@[j].1@ == self.entries@[j].1@,
            decreases self.entries@.len() - i,
        {
            entries.push((self.entries[i].0.clone(), self.entries[i].1.clone()));
            i = i + 1;
        }
        let r = StringMap { entries };
        assert(r.deep_view() =~= self.deep_view());
        r
    }
}

} // verus!
