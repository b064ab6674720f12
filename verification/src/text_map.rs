//! A map with text keys.

use vstd::prelude::*;
use vstd::string::*;

use crate::text;

verus! {

/// A map from texts to values, held as a list of entries in the order of their first insertion.
#[derive(Debug, Clone)]
pub struct TextMap<V> {
    pub entries: Vec<(String, V)>,
}

/// Entry `at` is the first one with the key `key`.
pub open spec fn is_entry<V>(entries: Seq<(String, V)>, key: Seq<char>, at: int) -> bool {
    &&& 0 <= at < entries.len()
    &&& entries[at].0@ == key
    &&& forall|j: int| 0 <= j < at ==> #[trigger] entries[j].0@ != key
}

/// Some entry has the key `key`.
pub open spec fn has_key<V>(entries: Seq<(String, V)>, key: Seq<char>) -> bool {
    exists|at: int| is_entry(entries, key, at)
}

impl<V> View for TextMap<V> {
    type V = Map<Seq<char>, V>;

    open spec fn view(&self) -> Map<Seq<char>, V> {
        Map::new(
            |key: Seq<char>| has_key(self.entries@, key),
            |key: Seq<char>| self.entries@[choose|at: int| is_entry(self.entries@, key, at)].1,
        )
    }
}

proof fn lemma_entry_unique<V>(entries: Seq<(String, V)>, key: Seq<char>, a: int, b: int)
    requires
        is_entry(entries, key, a),
        is_entry(entries, key, b),
    ensures
        a == b,
{
    if a < b {
        assert(entries[a].0@ != key);
    }
    if b < a {
        assert(entries[b].0@ != key);
    }
}

impl<V> TextMap<V> {
    pub proof fn lemma_entry(self, key: Seq<char>, at: int)
        requires
            is_entry(self.entries@, key, at),
        ensures
            self@.dom().contains(key),
            self@[key] == self.entries@[at].1,
    {
        let c = choose|c: int| is_entry(self.entries@, key, c);
        lemma_entry_unique(self.entries@, key, at, c);
    }

    pub fn new() -> (r: Self)
        ensures
            r@ == Map::<Seq<char>, V>::empty(),
            r.entries@.len() == 0,
    {
        let r = TextMap { entries: Vec::new() };
        proof {
            assert forall|key: Seq<char>| !has_key(r.entries@, key) by {}
            assert(r@ =~= Map::<Seq<char>, V>::empty());
        }
        r
    }

    /// The position of the entry with the key `key`.
    fn position(&self, key: &str) -> (r: Option<usize>)
        ensures
            match r {
                Some(at) => is_entry(self.entries@, key@, at as int),
                None => forall|j: int|
                    0 <= j < self.entries@.len() ==> #[trigger] self.entries@[j].0@ != key@,
            },
    {
        let mut i: usize = 0;
        while i < self.entries.len()
            invariant
                i <= self.entries@.len(),
                forall|j: int| 0 <= j < i ==> #[trigger] self.entries@[j].0@ != key@,
            decreases self.entries@.len() - i,
        {
            if text::same_text(self.entries[i].0.as_str(), key) {
                return Some(i);
            }
            i = i + 1;
        }
        None
    }

    pub fn get(&self, key: &str) -> (r: Option<&V>)
        ensures
            match r {
                Some(v) => self@.dom().contains(key@) && *v == self@[key@],
                None => !self@.dom().contains(key@),
            },
    {
        match self.position(key) {
            Some(at) => {
                proof {
                    self.lemma_entry(key@, at as int);
                }
                Some(&self.entries[at].1)
            },
            None => None,
        }
    }

    pub fn is_empty(&self) -> (r: bool)
        ensures
            r == (self@ == Map::<Seq<char>, V>::empty()),
            r == (self.entries@.len() == 0),
    {
        proof {
            if self.entries@.len() == 0 {
                assert(self@ =~= Map::<Seq<char>, V>::empty());
            } else {
                assert(is_entry(self.entries@, self.entries@[0].0@, 0));
                assert(self@.dom().contains(self.entries@[0].0@));
                assert(!Map::<Seq<char>, V>::empty().dom().contains(self.entries@[0].0@));
            }
        }
        self.entries.len() == 0
    }

    /// Sets the value of `key`.
    pub fn insert(&mut self, key: String, value: V)
        ensures
            final(self)@ == old(self)@.insert(key@, value),
            old(self)@.dom().contains(key@) ==> final(self).entries@.len() == old(
                self,
            ).entries@.len(),
            !old(self)@.dom().contains(key@) ==> final(self).entries@.len() == old(
                self,
            ).entries@.len() + 1,
            unique_keys(old(self).entries@) ==> unique_keys(final(self).entries@),
    {
        let ghost k = key@;
        let ghost before = *self;
        match self.position(key.as_str()) {
            Some(at) => {
                proof {
                    before.lemma_entry(k, at as int);
                }
                let old_key = self.entries[at].0.clone();
                self.entries.set(at, (old_key, value));
                proof {
                    let after = self.entries@;
                    assert forall|q: Seq<char>, i: int| #[trigger] is_entry(after, q, i)
                        == is_entry(before.entries@, q, i) by {
                        assert forall|j: int| 0 <= j < after.len() implies #[trigger] after[j].0@
                            == before.entries@[j].0@ by {}
                        if is_entry(after, q, i) {
                            assert forall|j: int| 0 <= j < i implies #[trigger] before.entries@[j].0@
                                != q by {
                                assert(after[j].0@ != q);
                            }
                        }
                        if is_entry(before.entries@, q, i) {
                            assert forall|j: int| 0 <= j < i implies #[trigger] after[j].0@ != q by {
                                assert(before.entries@[j].0@ != q);
                            }
                        }
                    }
                    assert forall|q: Seq<char>| has_key(after, q) == has_key(before.entries@, q) by {
                        if has_key(after, q) {
                            let i = choose|i: int| is_entry(after, q, i);
                            assert(is_entry(before.entries@, q, i));
                        }
                        if has_key(before.entries@, q) {
                            let i = choose|i: int| is_entry(before.entries@, q, i);
                            assert(is_entry(after, q, i));
                        }
                    }
                    assert forall|q: Seq<char>| has_key(after, q) implies #[trigger] self@[q]
                        == before@.insert(k, value)[q] by {
                        let i = choose|i: int| is_entry(after, q, i);
                        assert(is_entry(before.entries@, q, i));
                        self.lemma_entry(q, i);
                        before.lemma_entry(q, i);
                        if q == k {
                            lemma_entry_unique(before.entries@, q, i, at as int);
                        }
                    }
                    assert(self@ =~= before@.insert(k, value));
                    if unique_keys(before.entries@) {
                        assert(keys_of(after) =~= keys_of(before.entries@));
                        Self::lemma_unique_after_insert(before, *self, k);
                    }
                }
            },
            None => {
                self.entries.push((key, value));
                proof {
                    let after = self.entries@;
                    let n = before.entries@.len() as int;
                    assert forall|q: Seq<char>, i: int| i < n implies #[trigger] is_entry(after, q, i)
                        == is_entry(before.entries@, q, i) by {
                        assert forall|j: int| 0 <= j < n implies #[trigger] after[j]
                            == before.entries@[j] by {}
                        if is_entry(after, q, i) {
                            assert forall|j: int| 0 <= j < i implies #[trigger] before.entries@[j].0@
                                != q by {
                                assert(after[j].0@ != q);
                            }
                        }
                        if is_entry(before.entries@, q, i) {
                            assert forall|j: int| 0 <= j < i implies #[trigger] after[j].0@ != q by {
                                assert(before.entries@[j].0@ != q);
                            }
                        }
                    }
                    assert(is_entry(after, k, n)) by {
                        assert forall|j: int| 0 <= j < n implies #[trigger] after[j].0@ != k by {
                            assert(before.entries@[j].0@ != k);
                        }
                    }
                    assert forall|q: Seq<char>| #[trigger] has_key(after, q) == (has_key(
                        before.entries@,
                        q,
                    ) || q == k) by {
                        if has_key(after, q) {
                            let i = choose|i: int| is_entry(after, q, i);
                            if i < n {
                                assert(is_entry(before.entries@, q, i));
                            }
                        }
                        if has_key(before.entries@, q) {
                            let i = choose|i: int| is_entry(before.entries@, q, i);
                            assert(is_entry(after, q, i));
                        }
                    }
                    assert forall|q: Seq<char>| has_key(after, q) implies #[trigger] self@[q]
                        == before@.insert(k, value)[q] by {
                        let i = choose|i: int| is_entry(after, q, i);
                        self.lemma_entry(q, i);
                        if q == k {
                            lemma_entry_unique(after, q, i, n);
                        } else {
                            assert(i < n);
                            before.lemma_entry(q, i);
                        }
                    }
                    assert(self@ =~= before@.insert(k, value));
                    assert(!before@.dom().contains(k)) by {
                        if has_key(before.entries@, k) {
                            let i = choose|i: int| is_entry(before.entries@, k, i);
                            assert(before.entries@[i].0@ != k);
                        }
                    }
                    if unique_keys(before.entries@) {
                        assert(keys_of(after) =~= keys_of(before.entries@).push(k));
                        Self::lemma_unique_after_insert(before, *self, k);
                    }
                }
            },
        }
    }
}

/// No two entries have the same key.
pub open spec fn unique_keys<V>(entries: Seq<(String, V)>) -> bool {
    forall|i: int, j: int|
        0 <= i < j < entries.len() ==> (#[trigger] entries[i]).0@ != (#[trigger] entries[j]).0@
}

/// The keys of the entries.
pub open spec fn keys_of<V>(entries: Seq<(String, V)>) -> Seq<Seq<char>> {
    entries.map_values(|e: (String, V)| e.0@)
}

impl<V> TextMap<V> {
    pub proof fn lemma_entry_at(self, at: int)
        requires
            unique_keys(self.entries@),
            0 <= at < self.entries@.len(),
        ensures
            self@.dom().contains(self.entries@[at].0@),
            self@[self.entries@[at].0@] == self.entries@[at].1,
    {
        assert(is_entry(self.entries@, self.entries@[at].0@, at));
        self.lemma_entry(self.entries@[at].0@, at);
    }

    pub proof fn lemma_key_has_entry(self, key: Seq<char>) -> (at: int)
        requires
            self@.dom().contains(key),
        ensures
            0 <= at < self.entries@.len(),
            self.entries@[at].0@ == key,
            self@[key] == self.entries@[at].1,
    {
        let at = choose|at: int| is_entry(self.entries@, key, at);
        self.lemma_entry(key, at);
        at
    }

    /// There are as many keys as entries.
    pub proof fn lemma_len(self)
        requires
            unique_keys(self.entries@),
        ensures
            self@.dom().finite(),
            self@.dom().len() == self.entries@.len(),
    {
        let keys = keys_of(self.entries@);
        assert(keys.no_duplicates()) by {
            assert forall|i: int, j: int|
                0 <= i < keys.len() && 0 <= j < keys.len() && i != j implies keys[i] != keys[j] by {
                if i < j {
                    assert(self.entries@[i].0@ != self.entries@[j].0@);
                } else {
                    assert(self.entries@[j].0@ != self.entries@[i].0@);
                }
            }
        }
        keys.unique_seq_to_set();
        vstd::seq_lib::seq_to_set_is_finite(keys);
        assert(self@.dom() =~= keys.to_set()) by {
            assert forall|k: Seq<char>| self@.dom().contains(k) == keys.to_set().contains(k) by {
                if self@.dom().contains(k) {
                    let at = self.lemma_key_has_entry(k);
                    assert(keys[at] == k);
                }
                if keys.to_set().contains(k) {
                    let at = choose|at: int| 0 <= at < keys.len() && keys[at] == k;
                    self.lemma_entry_at(at);
                }
            }
        }
    }

    /// Setting a value keeps the keys apart.
    pub proof fn lemma_unique_after_insert(before: Self, after: Self, key: Seq<char>)
        requires
            unique_keys(before.entries@),
            before@.dom().contains(key) ==> keys_of(after.entries@) == keys_of(before.entries@),
            !before@.dom().contains(key) ==> keys_of(after.entries@) == keys_of(
                before.entries@,
            ).push(key),
        ensures
            unique_keys(after.entries@),
    {
        let a = keys_of(after.entries@);
        let b = keys_of(before.entries@);
        assert(a.len() == after.entries@.len());
        assert(b.len() == before.entries@.len());
        assert forall|i: int, j: int| 0 <= i < j < after.entries@.len() implies (
        #[trigger] after.entries@[i]).0@ != (#[trigger] after.entries@[j]).0@ by {
            assert(a[i] == after.entries@[i].0@ && a[j] == after.entries@[j].0@);
            if j < b.len() {
                assert(b[i] == before.entries@[i].0@ && b[j] == before.entries@[j].0@);
                assert(before.entries@[i].0@ != before.entries@[j].0@);
            } else {
                assert(b[i] == before.entries@[i].0@);
                before.lemma_entry_at(i);
            }
        }
    }

    pub fn len(&self) -> (r: usize)
        requires
            unique_keys(self.entries@),
        ensures
            r == self@.dom().len(),
            r == self.entries@.len(),
            self@.dom().finite(),
    {
        proof {
            self.lemma_len();
        }
        self.entries.len()
    }

    /// Removes the entry at `at`.
    pub fn remove_at(&mut self, at: usize)
        requires
            unique_keys(old(self).entries@),
            at < old(self).entries@.len(),
        ensures
            unique_keys(final(self).entries@),
            final(self).entries@ == old(self).entries@.remove(at as int),
            final(self)@ == old(self)@.remove(old(self).entries@[at as int].0@),
    {
        let ghost before = *self;
        let ghost key = self.entries@[at as int].0@;
        self.entries.remove(at);
        proof {
            let after = self.entries@;
            assert forall|i: int, j: int| 0 <= i < j < after.len() implies (#[trigger] after[i]).0@
                != (#[trigger] after[j]).0@ by {
                let p = if i < at {
                    i
                } else {
                    i + 1
                };
                let q = if j < at {
                    j
                } else {
                    j + 1
                };
                assert(before.entries@[p].0@ != before.entries@[q].0@);
            }
            assert forall|k: Seq<char>| #[trigger] self@.dom().contains(k) == before@.remove(
                key,
            ).dom().contains(k) by {
                if self@.dom().contains(k) {
                    let i = self.lemma_key_has_entry(k);
                    let p = if i < at {
                        i
                    } else {
                        i + 1
                    };
                    before.lemma_entry_at(p);
                    if p < at {
                        assert(before.entries@[p].0@ != before.entries@[at as int].0@);
                    } else {
                        assert(before.entries@[at as int].0@ != before.entries@[p].0@);
                    }
                }
                if before@.remove(key).dom().contains(k) {
                    let p = before.lemma_key_has_entry(k);
                    let i = if p < at {
                        p
                    } else {
                        p - 1
                    };
                    assert(after[i] == before.entries@[p]);
                    self.lemma_entry_at(i);
                }
            }
            assert forall|k: Seq<char>| self@.dom().contains(k) implies #[trigger] self@[k]
                == before@.remove(key)[k] by {
                let i = self.lemma_key_has_entry(k);
                let p = if i < at {
                    i
                } else {
                    i + 1
                };
                before.lemma_entry_at(p);
            }
            assert(self@ =~= before@.remove(key));
        }
    }
}

} // verus!
