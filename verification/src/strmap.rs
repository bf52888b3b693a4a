//! A small ordered map from strings to strings.
//!
//! Response headers and path parameters are both kept in a [`StrMap`]: no key
//! occurs twice, and entries stay in the order in which their keys were first
//! set.

use crate::text::str_eq;
use vstd::prelude::*;

verus! {

/// The mathematical content of a [`StrMap`]: its entries in order.
pub type Entries = Seq<(Seq<char>, Seq<char>)>;

/// Some entry of `s` has key `k`.
pub open spec fn has_key(s: Entries, k: Seq<char>) -> bool {
    exists|i: int| 0 <= i < s.len() && (#[trigger] s[i]).0 == k
}

/// No two entries of `s` share a key.
pub open spec fn distinct_keys(s: Entries) -> bool {
    forall|i: int, j: int| 0 <= i < j < s.len() ==> (#[trigger] s[i]).0 != (#[trigger] s[j]).0
}

/// `s` with `k` bound to `v`: the entry for `k` is overwritten where it
/// stands, or a new entry is added at the end.
pub open spec fn put(s: Entries, k: Seq<char>, v: Seq<char>) -> Entries {
    if has_key(s, k) {
        s.update(choose|i: int| 0 <= i < s.len() && (#[trigger] s[i]).0 == k, (k, v))
    } else {
        s.push((k, v))
    }
}

/// The entries read as a map; a later entry would win over an earlier one
/// with the same key.
pub open spec fn to_map(s: Entries) -> Map<Seq<char>, Seq<char>>
    decreases s.len(),
{
    if s.len() == 0 {
        Map::empty()
    } else {
        to_map(s.drop_last()).insert(s.last().0, s.last().1)
    }
}

/// The keys of the map are the keys of the entries.
pub proof fn lemma_to_map_dom(s: Entries, k: Seq<char>)
    ensures
        to_map(s).dom().contains(k) <==> has_key(s, k),
    decreases s.len(),
{
    if s.len() > 0 {
        let t = s.drop_last();
        lemma_to_map_dom(t, k);
        if has_key(s, k) {
            let i = choose|i: int| 0 <= i < s.len() && (#[trigger] s[i]).0 == k;
            if i < s.len() - 1 {
                assert(t[i].0 == k);
            }
        }
        if has_key(t, k) {
            let i = choose|i: int| 0 <= i < t.len() && (#[trigger] t[i]).0 == k;
            assert(s[i].0 == k);
        }
        if s.last().0 == k {
            assert(s[s.len() - 1].0 == k);
        }
    }
}

/// With distinct keys, each entry's key maps to that entry's value.
pub proof fn lemma_to_map_value(s: Entries, i: int)
    requires
        distinct_keys(s),
        0 <= i < s.len(),
    ensures
        to_map(s).dom().contains(s[i].0),
        to_map(s)[s[i].0] == s[i].1,
    decreases s.len(),
{
    let t = s.drop_last();
    if i < s.len() - 1 {
        assert(distinct_keys(t)) by {
            assert forall|a: int, b: int| 0 <= a < b < t.len() implies (#[trigger] t[a]).0 != (
            #[trigger] t[b]).0 by {
                assert(s[a].0 != s[b].0);
            }
        }
        lemma_to_map_value(t, i);
        assert(t[i] == s[i]);
        assert(s[i].0 != s[s.len() - 1].0);
    }
}

/// With distinct keys, the map has as many keys as there are entries.
pub proof fn lemma_to_map_len(s: Entries)
    requires
        distinct_keys(s),
    ensures
        to_map(s).dom().finite(),
        to_map(s).dom().len() == s.len(),
    decreases s.len(),
{
    if s.len() > 0 {
        let t = s.drop_last();
        assert(distinct_keys(t)) by {
            assert forall|a: int, b: int| 0 <= a < b < t.len() implies (#[trigger] t[a]).0 != (
            #[trigger] t[b]).0 by {
                assert(s[a].0 != s[b].0);
            }
        }
        lemma_to_map_len(t);
        lemma_to_map_dom(t, s.last().0);
        if has_key(t, s.last().0) {
            let i = choose|i: int| 0 <= i < t.len() && (#[trigger] t[i]).0 == s.last().0;
            assert(s[i].0 != s[s.len() - 1].0);
        }
        assert(to_map(s).dom() =~= to_map(t).dom().insert(s.last().0));
    }
}

/// Binding a key keeps the keys distinct and acts on the map as an insertion.
pub proof fn lemma_put(s: Entries, k: Seq<char>, v: Seq<char>)
    requires
        distinct_keys(s),
    ensures
        distinct_keys(put(s, k, v)),
        to_map(put(s, k, v)) == to_map(s).insert(k, v),
        has_key(s, k) ==> put(s, k, v).len() == s.len(),
        !has_key(s, k) ==> put(s, k, v).len() == s.len() + 1,
    decreases s.len(),
{
    let p = put(s, k, v);
    if has_key(s, k) {
        let i = choose|i: int| 0 <= i < s.len() && (#[trigger] s[i]).0 == k;
        assert forall|a: int, b: int| 0 <= a < b < p.len() implies (#[trigger] p[a]).0 != (
        #[trigger] p[b]).0 by {
            assert(s[a].0 != s[b].0);
        }
        let t = s.drop_last();
        assert(distinct_keys(t)) by {
            assert forall|a: int, b: int| 0 <= a < b < t.len() implies (#[trigger] t[a]).0 != (
            #[trigger] t[b]).0 by {
                assert(s[a].0 != s[b].0);
            }
        }
        if i == s.len() - 1 {
            assert(p.drop_last() =~= t);
            assert(to_map(p) =~= to_map(s).insert(k, v));
        } else {
            assert(t[i].0 == k);
            assert(has_key(t, k));
            let j = choose|j: int| 0 <= j < t.len() && (#[trigger] t[j]).0 == k;
            assert(j == i) by {
                if j != i {
                    if j < i {
                        assert(s[j].0 != s[i].0);
                    } else {
                        assert(s[i].0 != s[j].0);
                    }
                }
            }
            assert(p.drop_last() =~= put(t, k, v));
            lemma_put(t, k, v);
            assert(s[i].0 != s[s.len() - 1].0);
            assert(p.last() == s.last());
            assert(to_map(p) =~= to_map(s).insert(k, v));
        }
    } else {
        assert forall|a: int, b: int| 0 <= a < b < p.len() implies (#[trigger] p[a]).0 != (
        #[trigger] p[b]).0 by {
            if b == s.len() {
                assert(s[a].0 != k);
            } else {
                assert(s[a].0 != s[b].0);
            }
        }
        assert(p.drop_last() =~= s);
    }
}

/// Binding the same key twice leaves only the second binding.
pub proof fn lemma_put_twice(s: Entries, k: Seq<char>, v: Seq<char>, w: Seq<char>)
    requires
        distinct_keys(s),
    ensures
        put(put(s, k, v), k, w) == put(s, k, w),
{
    let p = put(s, k, v);
    lemma_put(s, k, v);
    if has_key(s, k) {
        let i = choose|i: int| 0 <= i < s.len() && (#[trigger] s[i]).0 == k;
        assert(p[i].0 == k);
        let j = choose|j: int| 0 <= j < p.len() && (#[trigger] p[j]).0 == k;
        if j != i {
            if j < i {
                assert(p[j].0 != p[i].0);
            } else {
                assert(p[i].0 != p[j].0);
            }
        }
        assert(put(p, k, w) =~= put(s, k, w));
    } else {
        assert(p[s.len() as int].0 == k);
        let j = choose|j: int| 0 <= j < p.len() && (#[trigger] p[j]).0 == k;
        if j != s.len() {
            assert(s[j].0 == k);
        }
        assert(put(p, k, w) =~= put(s, k, w));
    }
}

/// An ordered map from strings to strings, without repeated keys.
pub struct StrMap {
    entries: Vec<(String, String)>,
}

/// The views of stored entries.
spec fn entries_view(v: Seq<(String, String)>) -> Entries {
    Seq::new(v.len(), |i: int| (v[i].0@, v[i].1@))
}

impl View for StrMap {
    type V = Entries;

    closed spec fn view(&self) -> Entries {
        entries_view(self.entries@)
    }
}

impl StrMap {
    /// Every map that exists at run time has pairwise distinct keys.
    #[verifier::type_invariant]
    pub open spec fn wf(&self) -> bool {
        distinct_keys(self@)
    }

    /// The content read as a mathematical map.
    pub open spec fn as_map(&self) -> Map<Seq<char>, Seq<char>> {
        to_map(self@)
    }

    /// The empty map.
    pub fn new() -> (m: StrMap)
        ensures
            m@ == Seq::<(Seq<char>, Seq<char>)>::empty(),
    {
        let entries: Vec<(String, String)> = Vec::new();
        assert(entries_view(entries@) =~= Seq::<(Seq<char>, Seq<char>)>::empty());
        StrMap { entries }
    }

    /// The number of entries.
    pub fn len(&self) -> (n: usize)
        ensures
            n == self@.len(),
    {
        self.entries.len()
    }

    /// Whether the map has no entry.
    pub fn is_empty(&self) -> (b: bool)
        ensures
            b == (self@.len() == 0),
    {
        self.entries.len() == 0
    }

    /// The key of the `i`-th entry.
    pub fn key_at(&self, i: usize) -> (k: &str)
        requires
            i < self@.len(),
        ensures
            k@ == self@[i as int].0,
    {
        self.entries[i].0.as_str()
    }

    /// The value of the `i`-th entry.
    pub fn value_at(&self, i: usize) -> (v: &str)
        requires
            i < self@.len(),
        ensures
            v@ == self@[i as int].1,
    {
        self.entries[i].1.as_str()
    }

    /// Where the entry for `key` stands, if there is one.
    pub fn position(&self, key: &str) -> (at: Option<usize>)
        ensures
            match at {
                Some(i) => i < self@.len() && self@[i as int].0 == key@,
                None => !has_key(self@, key@),
            },
    {
        let mut i: usize = 0;
        while i < self.entries.len()
            invariant
                i <= self.entries@.len(),
                forall|j: int| 0 <= j < i ==> (#[trigger] self@[j]).0 != key@,
            decreases self.entries@.len() - i,
        {
            if str_eq(self.entries[i].0.as_str(), key) {
                return Some(i);
            }
            i = i + 1;
        }
        None
    }

    /// Whether `key` is bound.
    pub fn contains_key(&self, key: &str) -> (b: bool)
        ensures
            b == has_key(self@, key@),
            b == self.as_map().dom().contains(key@),
    {
        proof {
            lemma_to_map_dom(self@, key@);
        }
        self.position(key).is_some()
    }

    /// The value bound to `key`, if any.
    pub fn get(&self, key: &str) -> (value: Option<&str>)
        ensures
            match value {
                Some(v) => self.as_map().dom().contains(key@) && v@ == self.as_map()[key@],
                None => !self.as_map().dom().contains(key@),
            },
    {
        proof {
            use_type_invariant(self);
            lemma_to_map_dom(self@, key@);
        }
        match self.position(key) {
            Some(i) => {
                proof {
                    lemma_to_map_value(self@, i as int);
                }
                Some(self.entries[i].1.as_str())
            },
            None => None,
        }
    }

    /// Binds `key` to `value`, overwriting an earlier binding of `key`.
    pub fn set(&mut self, key: &str, value: &str)
        ensures
            final(self)@ == put(old(self)@, key@, value@),
            final(self).as_map() == old(self).as_map().insert(key@, value@),
            distinct_keys(final(self)@),
    {
        proof {
            use_type_invariant(&*self);
            lemma_put(self@, key@, value@);
        }
        let ghost before = self@;
        match self.position(key) {
            Some(i) => {
                proof {
                    let c = choose|c: int| 0 <= c < before.len() && (#[trigger] before[c]).0 == key@;
                    if c != i {
                        if c < i {
                            assert(before[c].0 != before[i as int].0);
                        } else {
                            assert(before[i as int].0 != before[c].0);
                        }
                    }
                }
                let entry = (key.to_owned(), value.to_owned());
                let mut entries: Vec<(String, String)> = Vec::new();
                assert(distinct_keys(entries_view(entries@)));
                std::mem::swap(&mut self.entries, &mut entries);
                entries.set(i, entry);
                assert(entries_view(entries@) =~= put(before, key@, value@));
                std::mem::swap(&mut self.entries, &mut entries);
            },
            None => {
                let entry = (key.to_owned(), value.to_owned());
                let mut entries: Vec<(String, String)> = Vec::new();
                assert(distinct_keys(entries_view(entries@)));
                std::mem::swap(&mut self.entries, &mut entries);
                entries.push(entry);
                assert(entries_view(entries@) =~= put(before, key@, value@));
                std::mem::swap(&mut self.entries, &mut entries);
            },
        }
    }
}

impl Clone for StrMap {
    fn clone(&self) -> (m: StrMap)
        ensures
            m@ == self@,
    {
        proof {
            use_type_invariant(self);
        }
        let mut entries: Vec<(String, String)> = Vec::new();
        let mut i: usize = 0;
        while i < self.entries.len()
            invariant
                i <= self.entries@.len(),
                entries@.len() == i,
                forall|j: int| 0 <= j < i ==> (#[trigger] entries@[j]).0@ == self.entries@[j].0@
                    && entries@[j].1@ == self.entries@[j].1@,
            decreases self.entries@.len() - i,
        {
            entries.push((self.entries[i].0.clone(), self.entries[i].1.clone()));
            i = i + 1;
        }
        assert(entries_view(entries@) =~= self@);
        StrMap { entries }
    }
}

} // verus!
