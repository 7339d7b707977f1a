//! A string-keyed map that keeps its entries in string order, so that walking
//! it yields keys in ascending order — the order every report in this library
//! is written in.

use vstd::prelude::*;
use crate::text::{lex_le, string_views, strictly_ascending, lex_lt, compare_strs, KeyOrder, lemma_lex_total, lemma_lex_transitive,
    lemma_lex_irreflexive, lemma_lex_asymmetric};

verus! {

/// Entries whose keys strictly ascend in string order (so no key repeats).
pub open spec fn keys_ascending<V>(s: Seq<(Seq<char>, V)>) -> bool {
    forall|i: int, j: int| 0 <= i < j < s.len() ==> lex_lt(#[trigger] s[i].0, #[trigger] s[j].0)
}

/// Some entry of `s` has key `k`.
pub open spec fn has_key<V>(s: Seq<(Seq<char>, V)>, k: Seq<char>) -> bool {
    exists|i: int| 0 <= i < s.len() && #[trigger] s[i].0 == k
}

/// The map an entry sequence denotes: each key to the value stored beside it
/// (a later entry for the same key would win, though ascending entries have
/// none).
pub open spec fn entries_map<V>(s: Seq<(Seq<char>, V)>) -> Map<Seq<char>, V>
    decreases s.len(),
{
    if s.len() == 0 {
        Map::empty()
    } else {
        entries_map(s.drop_last()).insert(s.last().0, s.last().1)
    }
}

/// In an ascending entry sequence, the map holds exactly the stored pairs.
pub proof fn lemma_entries_map<V>(s: Seq<(Seq<char>, V)>)
    requires
        keys_ascending(s),
    ensures
        forall|i: int|
            0 <= i < s.len() ==> #[trigger] entries_map(s).contains_key(s[i].0)
                && entries_map(s)[s[i].0] == s[i].1,
        forall|k: Seq<char>| #[trigger] entries_map(s).contains_key(k) <==> has_key(s, k),
    decreases s.len(),
{
    if s.len() > 0 {
        let t = s.drop_last();
        assert(keys_ascending(t)) by {
            assert forall|i: int, j: int| 0 <= i < j < t.len() implies lex_lt(
                #[trigger] t[i].0,
                #[trigger] t[j].0,
            ) by {
                assert(t[i] == s[i]);
                assert(t[j] == s[j]);
            }
        }
        lemma_entries_map(t);
        let last = s.last();
        assert(entries_map(s) == entries_map(t).insert(last.0, last.1));
        assert forall|i: int| 0 <= i < s.len() implies #[trigger] entries_map(s).contains_key(
            s[i].0,
        ) && entries_map(s)[s[i].0] == s[i].1 by {
            if i < s.len() - 1 {
                assert(t[i] == s[i]);
                assert(entries_map(t).contains_key(t[i].0));
                assert(lex_lt(s[i].0, s[s.len() - 1].0));
                lemma_lex_irreflexive(s[i].0);
            }
        }
        assert forall|k: Seq<char>| #[trigger] entries_map(s).contains_key(k) <==> has_key(s, k) by {
            if entries_map(s).contains_key(k) {
                if k == last.0 {
                    assert(s[s.len() - 1].0 == k);
                } else {
                    assert(entries_map(t).contains_key(k));
                    let j = choose|j: int| 0 <= j < t.len() && #[trigger] t[j].0 == k;
                    assert(s[j].0 == k);
                }
            }
            if has_key(s, k) {
                let j = choose|j: int| 0 <= j < s.len() && #[trigger] s[j].0 == k;
                if j < s.len() - 1 {
                    assert(t[j].0 == k);
                }
            }
        }
    }
}

/// An ascending entry sequence denotes a finite map with one key per entry.
pub proof fn lemma_entries_map_len<V>(s: Seq<(Seq<char>, V)>)
    requires
        keys_ascending(s),
    ensures
        entries_map(s).dom().finite(),
        entries_map(s).dom().len() == s.len(),
    decreases s.len(),
{
    if s.len() == 0 {
        assert(entries_map(s).dom() =~= Set::<Seq<char>>::empty());
    } else {
        let t = s.drop_last();
        assert(keys_ascending(t)) by {
            assert forall|i: int, j: int| 0 <= i < j < t.len() implies lex_lt(#[trigger] t[i].0, #[trigger] t[j].0) by {
                assert(t[i] == s[i] && t[j] == s[j]);
            }
        }
        lemma_entries_map_len(t);
        lemma_entries_map(t);
        let k = s.last().0;
        if entries_map(t).contains_key(k) {
            let j = choose|j: int| 0 <= j < t.len() && #[trigger] t[j].0 == k;
            assert(s[j].0 == k);
            assert(lex_lt(s[j].0, s[s.len() - 1].0));
            lemma_lex_irreflexive(k);
        }
        assert(entries_map(s).dom() =~= entries_map(t).dom().insert(k));
    }
}

/// A map from string keys to values, stored as key-ascending entries.
///
/// It plays the part of a `BTreeMap<String, V>`: iteration is in ascending
/// key order and each key occurs once. vstd specifies `BTreeMap` only for
/// keys whose ordering obeys its comparison model, which it does not
/// establish for `String`, so the order is kept and proved here instead.
#[derive(Debug, Clone, PartialEq, Eq)]
pub struct KeyMap<V> {
    entries: Vec<(String, V)>,
}

impl<V> KeyMap<V> {
    /// The entries in stored order, keys taken as character sequences.
    pub closed spec fn entry_seq(self) -> Seq<(Seq<char>, V)> {
        self.entries@.map_values(|e: (String, V)| (e.0@, e.1))
    }

    /// The representation invariant: keys strictly ascend.
    pub open spec fn wf(self) -> bool {
        keys_ascending(self.entry_seq())
    }

    /// The map this value denotes.
    pub open spec fn map_view(self) -> Map<Seq<char>, V> {
        entries_map(self.entry_seq())
    }

    /// An empty map.
    pub fn new() -> (m: Self)
        ensures
            m.wf(),
            m.entry_seq().len() == 0,
            m.map_view() == Map::<Seq<char>, V>::empty(),
    {
        let m = KeyMap { entries: Vec::new() };
        proof {
            assert(m.entry_seq() =~= Seq::<(Seq<char>, V)>::empty());
            assert(m.map_view() =~= Map::<Seq<char>, V>::empty());
        }
        m
    }

    /// Number of entries: for a well-formed map, the number of keys.
    pub fn len(&self) -> (n: usize)
        ensures
            n == self.entry_seq().len(),
            self.wf() ==> n == self.map_view().dom().len(),
    {
        proof {
            if self.wf() {
                lemma_entries_map_len(self.entry_seq());
            }
        }
        self.entries.len()
    }

    /// Whether the map has no entries.
    pub fn is_empty(&self) -> (r: bool)
        requires
            self.wf(),
        ensures
            r == (self.entry_seq().len() == 0),
            r == (self.map_view() == Map::<Seq<char>, V>::empty()),
    {
        proof {
            lemma_entries_map(self.entry_seq());
            if self.entry_seq().len() == 0 {
                assert(self.map_view() =~= Map::<Seq<char>, V>::empty());
            } else {
                assert(self.map_view().contains_key(self.entry_seq()[0].0));
            }
        }
        self.entries.len() == 0
    }

    /// The key of the `i`-th entry.
    pub fn key_at(&self, i: usize) -> (k: &String)
        requires
            i < self.entry_seq().len(),
        ensures
            k@ == self.entry_seq()[i as int].0,
    {
        &self.entries[i].0
    }

    /// The value of the `i`-th entry.
    pub fn value_at(&self, i: usize) -> (v: &V)
        requires
            i < self.entry_seq().len(),
        ensures
            *v == self.entry_seq()[i as int].1,
    {
        &self.entries[i].1
    }

    /// Where `k` is stored, if it is.
    pub fn find(&self, k: &str) -> (r: Option<usize>)
        requires
            self.wf(),
        ensures
            match r {
                Some(i) => i < self.entry_seq().len() && self.entry_seq()[i as int].0 == k@
                    && self.map_view().contains_key(k@)
                    && self.map_view()[k@] == self.entry_seq()[i as int].1,
                None => !self.map_view().contains_key(k@),
            },
    {
        proof {
            lemma_entries_map(self.entry_seq());
        }
        let mut i: usize = 0;
        while i < self.entries.len()
            invariant
                i <= self.entry_seq().len(),
                self.entry_seq().len() == self.entries@.len(),
                self.wf(),
                forall|j: int| 0 <= j < i ==> self.entry_seq()[j].0 != k@,
            decreases self.entry_seq().len() - i,
        {
            if compare_strs(self.entries[i].0.as_str(), k) == KeyOrder::Equal {
                proof {
                    assert(self.wf());
                    lemma_entries_map(self.entry_seq());
                }
                return Some(i);
            }
            i = i + 1;
        }
        None
    }

    /// The value stored under `k`, if any.
    pub fn get(&self, k: &str) -> (r: Option<&V>)
        requires
            self.wf(),
        ensures
            match r {
                Some(v) => self.map_view().contains_key(k@) && self.map_view()[k@] == *v,
                None => !self.map_view().contains_key(k@),
            },
    {
        match self.find(k) {
            Some(i) => Some(&self.entries[i].1),
            None => None,
        }
    }

    /// Replace the value of the `i`-th entry.
    pub fn set_value(&mut self, i: usize, v: V)
        requires
            old(self).wf(),
            i < old(self).entry_seq().len(),
        ensures
            final(self).wf(),
            final(self).entry_seq().len() == old(self).entry_seq().len(),
            final(self).map_view() == old(self).map_view().insert(
                old(self).entry_seq()[i as int].0,
                v,
            ),
    {
        let ghost old_s = self.entry_seq();
        let k = self.entries[i].0.clone();
        self.entries.set(i, (k, v));
        proof {
            let s = self.entry_seq();
            assert(s =~= old_s.update(i as int, (old_s[i as int].0, v)));
            assert(keys_ascending(s)) by {
                assert forall|a: int, b: int| 0 <= a < b < s.len() implies lex_lt(
                    #[trigger] s[a].0,
                    #[trigger] s[b].0,
                ) by {
                    assert(s[a].0 == old_s[a].0);
                    assert(s[b].0 == old_s[b].0);
                }
            }
            lemma_entries_map(old_s);
            lemma_entries_map(s);
            assert(self.map_view() =~= entries_map(old_s).insert(old_s[i as int].0, v)) by {
                assert forall|key: Seq<char>| #[trigger]
                    self.map_view().contains_key(key) implies entries_map(old_s).insert(
                    old_s[i as int].0,
                    v,
                ).contains_key(key) by {
                    let j = choose|j: int| 0 <= j < s.len() && #[trigger] s[j].0 == key;
                    assert(old_s[j].0 == key);
                }
                assert forall|key: Seq<char>| #[trigger]
                    entries_map(old_s).insert(old_s[i as int].0, v).contains_key(
                        key,
                    ) implies self.map_view().contains_key(key) && self.map_view()[key]
                    == entries_map(old_s).insert(old_s[i as int].0, v)[key] by {
                    if key == old_s[i as int].0 {
                        assert(s[i as int].0 == key);
                    } else {
                        let j = choose|j: int| 0 <= j < old_s.len() && #[trigger] old_s[j].0 == key;
                        assert(s[j].0 == key);
                        assert(j != i);
                    }
                }
            }
        }
    }

    /// Put `v` in the `i`-th entry and hand back the value it held.
    pub fn replace_value(&mut self, i: usize, v: V) -> (old_v: V)
        requires
            old(self).wf(),
            i < old(self).entry_seq().len(),
        ensures
            final(self).wf(),
            old_v == old(self).entry_seq()[i as int].1,
            final(self).entry_seq().len() == old(self).entry_seq().len(),
            final(self).entry_seq() == old(self).entry_seq().update(
                i as int,
                (old(self).entry_seq()[i as int].0, v),
            ),
            final(self).map_view() == old(self).map_view().insert(
                old(self).entry_seq()[i as int].0,
                v,
            ),
    {
        let ghost old_s = self.entry_seq();
        let (k, old_v) = self.entries.remove(i);
        self.entries.insert(i, (k, v));
        proof {
            let s = self.entry_seq();
            assert(s =~= old_s.update(i as int, (old_s[i as int].0, v)));
            assert(keys_ascending(s)) by {
                assert forall|a: int, b: int| 0 <= a < b < s.len() implies lex_lt(
                    #[trigger] s[a].0,
                    #[trigger] s[b].0,
                ) by {
                    assert(s[a].0 == old_s[a].0);
                    assert(s[b].0 == old_s[b].0);
                }
            }
            lemma_entries_map(old_s);
            lemma_entries_map(s);
            let target = entries_map(old_s).insert(old_s[i as int].0, v);
            assert(self.map_view() =~= target) by {
                assert forall|key: Seq<char>| #[trigger]
                    self.map_view().contains_key(key) implies target.contains_key(key) by {
                    let j = choose|j: int| 0 <= j < s.len() && #[trigger] s[j].0 == key;
                    assert(old_s[j].0 == key);
                }
                assert forall|key: Seq<char>| #[trigger]
                    target.contains_key(key) implies self.map_view().contains_key(key)
                    && self.map_view()[key] == target[key] by {
                    if key == old_s[i as int].0 {
                        assert(s[i as int].0 == key);
                    } else {
                        let j = choose|j: int| 0 <= j < old_s.len() && #[trigger] old_s[j].0 == key;
                        assert(s[j].0 == key);
                        assert(j != i);
                    }
                }
            }
        }
        old_v
    }

    /// Store `v` under `k`, replacing any value already there.
    pub fn insert(&mut self, k: String, v: V)
        requires
            old(self).wf(),
        ensures
            final(self).wf(),
            final(self).map_view() == old(self).map_view().insert(k@, v),
    {
        let ghost old_s = self.entry_seq();
        let n = self.entries.len();
        let mut p: usize = 0;
        while p < n
            invariant
                n == self.entries@.len(),
                self.entry_seq() == old_s,
                old_s.len() == n,
                p <= n,
                forall|j: int| 0 <= j < p ==> lex_lt(#[trigger] old_s[j].0, k@),
            ensures
                p <= n,
                self.entry_seq() == old_s,
                forall|j: int| 0 <= j < p ==> lex_lt(#[trigger] old_s[j].0, k@),
                p < n ==> !lex_lt(old_s[p as int].0, k@),
            decreases n - p,
        {
            let ord = compare_strs(self.entries[p].0.as_str(), k.as_str());
            if ord != KeyOrder::Less {
                break;
            }
            p = p + 1;
        }
        if p < n && compare_strs(self.entries[p].0.as_str(), k.as_str()) == KeyOrder::Equal {
            self.set_value(p, v);
            return;
        }
        proof {
            lemma_entries_map(old_s);
            // Every key from position p on comes after k.
            assert forall|j: int| p <= j < n implies lex_lt(k@, #[trigger] old_s[j].0) by {
                lemma_lex_total(old_s[p as int].0, k@);
                if j > p {
                    assert(lex_lt(old_s[p as int].0, old_s[j].0));
                    lemma_lex_transitive(k@, old_s[p as int].0, old_s[j].0);
                }
            }
        }
        self.entries.insert(p, (k, v));
        proof {
            let s = self.entry_seq();
            let e = (k@, v);
            assert(s =~= old_s.insert(p as int, e));
            assert(keys_ascending(s)) by {
                assert forall|a: int, b: int| 0 <= a < b < s.len() implies lex_lt(
                    #[trigger] s[a].0,
                    #[trigger] s[b].0,
                ) by {
                    if b < p {
                    } else if b == p {
                    } else if a < p {
                        assert(s[b] == old_s[b - 1]);
                        lemma_lex_transitive(old_s[a].0, k@, old_s[b - 1].0);
                    } else if a == p {
                        assert(s[b] == old_s[b - 1]);
                    } else {
                        assert(s[a] == old_s[a - 1]);
                        assert(s[b] == old_s[b - 1]);
                    }
                }
            }
            lemma_entries_map(s);
            let target = entries_map(old_s).insert(k@, v);
            assert(self.map_view() =~= target) by {
                assert forall|key: Seq<char>| #[trigger]
                    self.map_view().contains_key(key) implies target.contains_key(key) by {
                    let j = choose|j: int| 0 <= j < s.len() && #[trigger] s[j].0 == key;
                    if j < p {
                        assert(old_s[j].0 == key);
                    } else if j > p {
                        assert(old_s[j - 1].0 == key);
                    }
                }
                assert forall|key: Seq<char>| #[trigger]
                    target.contains_key(key) implies self.map_view().contains_key(key)
                    && self.map_view()[key] == target[key] by {
                    if key == k@ {
                        assert(s[p as int] == e);
                        assert(self.map_view().contains_key(s[p as int].0));
                    } else {
                        assert(entries_map(old_s).contains_key(key));
                        let j = choose|j: int| 0 <= j < old_s.len() && #[trigger] old_s[j].0 == key;
                        assert(entries_map(old_s)[old_s[j].0] == old_s[j].1);
                        if j < p {
                            assert(s[j] == old_s[j]);
                            assert(self.map_view().contains_key(s[j].0));
                        } else {
                            assert(s[j + 1] == old_s[j]);
                            assert(self.map_view().contains_key(s[j + 1].0));
                        }
                    }
                }
            }
        }
    }
}


impl<V> KeyMap<V> {
    /// The keys, in ascending order.
    pub fn keys(&self) -> (r: Vec<String>)
        requires
            self.wf(),
        ensures
            r@.map_values(|s: String| s@) == self.entry_seq().map_values(|e: (Seq<char>, V)| e.0),
            strictly_ascending(r@.map_values(|s: String| s@)),
            forall|p: Seq<char>|
                r@.map_values(|s: String| s@).contains(p) <==> #[trigger] self.map_view().contains_key(p),
    {
        let ghost ks = self.entry_seq().map_values(|e: (Seq<char>, V)| e.0);
        let mut r: Vec<String> = Vec::new();
        let mut i: usize = 0;
        while i < self.entries.len()
            invariant
                i <= self.entry_seq().len(),
                self.entry_seq().len() == self.entries@.len(),
                ks == self.entry_seq().map_values(|e: (Seq<char>, V)| e.0),
                r@.map_values(|s: String| s@) == ks.take(i as int),
            decreases self.entry_seq().len() - i,
        {
            let k = self.entries[i].0.clone();
            let ghost before = r@;
            r.push(k);
            proof {
                assert(self.entry_seq()[i as int].0 == self.entries@[i as int].0@);
                assert(r@.map_values(|s: String| s@) =~= before.map_values(|s: String| s@).push(ks[i as int]));
                assert(ks.take(i + 1) =~= ks.take(i as int).push(ks[i as int]));
            }
            i = i + 1;
        }
        proof {
            assert(ks.take(ks.len() as int) =~= ks);
            lemma_entries_map(self.entry_seq());
            assert forall|p: Seq<char>|
                ks.contains(p) <==> #[trigger] self.map_view().contains_key(p) by {
                if ks.contains(p) {
                    let j = choose|j: int| 0 <= j < ks.len() && ks[j] == p;
                    assert(self.entry_seq()[j].0 == p);
                }
                if self.map_view().contains_key(p) {
                    let j = choose|j: int| 0 <= j < self.entry_seq().len() && #[trigger] self.entry_seq()[j].0 == p;
                    assert(ks[j] == p);
                }
            }
            assert forall|i: int, j: int| 0 <= i < j < ks.len() implies lex_lt(#[trigger] ks[i], #[trigger] ks[j]) by {
                assert(ks[i] == self.entry_seq()[i].0 && ks[j] == self.entry_seq()[j].0);
            }
        }
        r
    }
}

/// The distinct strings of `items`, ascending.
pub fn sorted_distinct(items: &Vec<String>) -> (r: Vec<String>)
    ensures
        strictly_ascending(string_views(r@)),
        forall|p: Seq<char>|
            #[trigger] string_views(r@).contains(p) <==> string_views(items@).contains(p),
{
    let ghost iv = items@.map_values(|s: String| s@);
    let mut m: KeyMap<()> = KeyMap::new();
    let mut i: usize = 0;
    while i < items.len()
        invariant
            i <= items@.len(),
            iv == items@.map_values(|s: String| s@),
            m.wf(),
            forall|p: Seq<char>| #[trigger] m.map_view().contains_key(p) <==> iv.take(i as int).contains(p),
        decreases items@.len() - i,
    {
        m.insert(items[i].clone(), ());
        proof {
            let a = iv.take(i as int);
            let b = iv.take(i + 1);
            assert(b =~= a.push(iv[i as int]));
            assert forall|p: Seq<char>| #[trigger] m.map_view().contains_key(p) <==> b.contains(p) by {
                if b.contains(p) && p != iv[i as int] {
                    let j = choose|j: int| 0 <= j < b.len() && #[trigger] b[j] == p;
                    assert(a[j] == p);
                }
                if a.contains(p) {
                    let j = choose|j: int| 0 <= j < a.len() && #[trigger] a[j] == p;
                    assert(b[j] == p);
                }
                if p == iv[i as int] {
                    assert(b[i as int] == p);
                }
            }
        }
        i = i + 1;
    }
    proof {
        assert(iv.take(iv.len() as int) =~= iv);
    }
    let r = m.keys();
    proof {
        assert(string_views(r@) == r@.map_values(|s: String| s@));
        assert forall|p: Seq<char>|
            #[trigger] string_views(r@).contains(p) <==> string_views(items@).contains(p) by {
            assert(r@.map_values(|s: String| s@).contains(p) <==> m.map_view().contains_key(p));
        }
    }
    r
}


/// Ascending string order, repeats allowed.
pub open spec fn sorted_views(s: Seq<Seq<char>>) -> bool {
    forall|i: int, j: int| 0 <= i < j < s.len() ==> lex_le(#[trigger] s[i], #[trigger] s[j])
}

/// The strings of `v` in ascending order, repeats kept.
pub fn sort_strings(v: Vec<String>) -> (r: Vec<String>)
    ensures
        sorted_views(string_views(r@)),
        string_views(r@).to_multiset() == string_views(v@).to_multiset(),
{
    let ghost vv = string_views(v@);
    let mut r: Vec<String> = Vec::new();
    proof {
        assert(string_views(r@) =~= vv.take(0));
    }
    let mut i: usize = 0;
    while i < v.len()
        invariant
            i <= v@.len(),
            vv == string_views(v@),
            sorted_views(string_views(r@)),
            string_views(r@).to_multiset() == vv.take(i as int).to_multiset(),
        decreases v@.len() - i,
    {
        let x = &v[i];
        let ghost rv = string_views(r@);
        let mut p: usize = 0;
        while p < r.len()
            invariant
                p <= r@.len(),
                rv == string_views(r@),
                forall|q: int| 0 <= q < p ==> lex_le(#[trigger] rv[q], x@),
            ensures
                p <= r@.len(),
                forall|q: int| 0 <= q < p ==> lex_le(#[trigger] rv[q], x@),
                p < r@.len() ==> lex_lt(x@, rv[p as int]),
            decreases r@.len() - p,
        {
            if compare_strs(x.as_str(), r[p].as_str()) == KeyOrder::Less {
                break;
            }
            proof {
                lemma_lex_total(x@, rv[p as int]);
            }
            p = p + 1;
        }
        proof {
            if p < r@.len() {
                assert(lex_lt(x@, rv[p as int]));
            }
        }
        r.insert(p, x.clone());
        proof {
            let nv = string_views(r@);
            assert(nv =~= rv.insert(p as int, x@));
            assert forall|a: int, b: int| 0 <= a < b < nv.len() implies lex_le(#[trigger] nv[a], #[trigger] nv[b]) by {
                if b < p {
                    assert(nv[a] == rv[a] && nv[b] == rv[b]);
                } else if b == p {
                    assert(nv[a] == rv[a]);
                } else if a == p {
                    assert(nv[b] == rv[b - 1]);
                    assert(lex_lt(x@, rv[p as int]));
                    if b - 1 > p {
                        if rv[p as int] != rv[b - 1] {
                            lemma_lex_transitive(x@, rv[p as int], rv[b - 1]);
                        }
                    }
                } else if a < p {
                    assert(nv[a] == rv[a] && nv[b] == rv[b - 1]);
                    if a < b - 1 {
                    } else {
                    }
                    assert(lex_le(rv[a], x@));
                    assert(lex_lt(x@, rv[p as int]));
                    if rv[a] != rv[b - 1] {
                        if p < b - 1 {
                            assert(lex_le(rv[p as int], rv[b - 1]));
                        }
                        if rv[a] == x@ {
                            if rv[p as int] == rv[b - 1] {
                            } else {
                                lemma_lex_transitive(x@, rv[p as int], rv[b - 1]);
                            }
                        } else {
                            if rv[p as int] == rv[b - 1] {
                                lemma_lex_transitive(rv[a], x@, rv[p as int]);
                            } else {
                                lemma_lex_transitive(x@, rv[p as int], rv[b - 1]);
                                lemma_lex_transitive(rv[a], x@, rv[b - 1]);
                            }
                        }
                    }
                } else {
                    assert(nv[a] == rv[a - 1] && nv[b] == rv[b - 1]);
                }
            }
            assert(vv.take(i + 1) =~= vv.take(i as int).push(x@));
            vstd::seq_lib::to_multiset_insert(rv, p as int, x@);
            vstd::seq_lib::to_multiset_build(vv.take(i as int), x@);
        }
        i = i + 1;
    }
    proof {
        assert(vv.take(vv.len() as int) =~= vv);
    }
    r
}

} // verus!
