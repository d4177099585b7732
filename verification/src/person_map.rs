//! A map keyed by person, kept in insertion order.

use vstd::prelude::*;
use crate::duplicate::Duplicate;
use crate::ids::PersonId;

verus! {

/// A map from `PersonId` to values. Entries keep the order in which their keys
/// were first inserted; inserting an existing key replaces its value in place.
#[derive(Debug, PartialEq)]
pub struct PersonMap<V> {
    entries: Vec<(PersonId, V)>,
}

/// The position of the first entry of `s` whose key is `k`.
pub open spec fn key_index<W>(s: Seq<(PersonId, W)>, k: PersonId) -> Option<int>
    decreases s.len(),
{
    if s.len() == 0 {
        None
    } else {
        match key_index(s.drop_last(), k) {
            Some(i) => Some(i),
            None => if s.last().0 == k {
                Some(s.len() - 1)
            } else {
                None
            },
        }
    }
}

/// The value stored for `k`, if any.
pub open spec fn lookup<W>(s: Seq<(PersonId, W)>, k: PersonId) -> Option<W> {
    match key_index(s, k) {
        Some(i) => Some(s[i].1),
        None => None,
    }
}

/// `s` with the value for `k` set to `w`: replaced in place, or appended.
pub open spec fn store<W>(s: Seq<(PersonId, W)>, k: PersonId, w: W) -> Seq<(PersonId, W)> {
    match key_index(s, k) {
        Some(i) => s.update(i, (k, w)),
        None => s.push((k, w)),
    }
}

/// `key_index` finds the first entry with the key.
pub proof fn lemma_key_index<W>(s: Seq<(PersonId, W)>, k: PersonId)
    ensures
        match key_index(s, k) {
            Some(i) => 0 <= i < s.len() && s[i].0 == k && forall|j: int|
                0 <= j < i ==> s[j].0 != k,
            None => forall|j: int| 0 <= j < s.len() ==> s[j].0 != k,
        },
    decreases s.len(),
{
    if s.len() > 0 {
        let p = s.drop_last();
        lemma_key_index(p, k);
        assert forall|j: int| 0 <= j < p.len() implies p[j] == s[j] by {}
    }
}

/// Any position satisfying the first-entry property is the one `key_index` gives.
pub proof fn lemma_key_index_unique<W>(s: Seq<(PersonId, W)>, k: PersonId, i: int)
    requires
        0 <= i < s.len(),
        s[i].0 == k,
        forall|j: int| 0 <= j < i ==> s[j].0 != k,
    ensures
        key_index(s, k) == Some(i),
{
    lemma_key_index(s, k);
}

/// Keys are located by key alone: replacing the value of an entry keeps every
/// key's position.
pub proof fn lemma_key_index_update<W>(s: Seq<(PersonId, W)>, i: int, w: W, k: PersonId)
    requires
        0 <= i < s.len(),
    ensures
        key_index(s.update(i, (s[i].0, w)), k) == key_index(s, k),
{
    let t = s.update(i, (s[i].0, w));
    lemma_key_index(s, k);
    lemma_key_index(t, k);
    match key_index(s, k) {
        Some(a) => {
            lemma_key_index_unique(t, k, a);
        },
        None => {
            match key_index(t, k) {
                Some(b) => {
                    assert(t[b].0 == s[b].0);
                },
                None => {},
            }
        },
    }
}

/// A read after a write gives what was written, and leaves every other key as
/// it was; a write adds an entry exactly when its key was new.
pub proof fn lemma_lookup_store<W>(s: Seq<(PersonId, W)>, k: PersonId, w: W, other: PersonId)
    ensures
        lookup(store(s, k, w), k) == Some(w),
        other != k ==> lookup(store(s, k, w), other) == lookup(s, other),
        store(s, k, w).len() == if lookup(s, k) is Some { s.len() } else { s.len() + 1 },
{
    let t = store(s, k, w);
    lemma_key_index(s, k);
    lemma_key_index(s, other);
    lemma_key_index(t, k);
    lemma_key_index(t, other);
    match key_index(s, k) {
        Some(i) => {
            lemma_key_index_update(s, i, w, k);
            lemma_key_index_update(s, i, w, other);
        },
        None => {
            lemma_key_index_unique(t, k, s.len() as int);
            if other != k {
                match key_index(s, other) {
                    Some(a) => {
                        lemma_key_index_unique(t, other, a);
                    },
                    None => {},
                }
            }
        },
    }
}

impl<V: View> View for PersonMap<V> {
    type V = Seq<(PersonId, V::V)>;

    closed spec fn view(&self) -> Seq<(PersonId, V::V)> {
        self.entries@.map_values(|e: (PersonId, V)| (e.0, e.1@))
    }
}

impl<V: View> PersonMap<V> {
    pub fn new() -> (m: Self)
        ensures
            m@ == Seq::<(PersonId, V::V)>::empty(),
    {
        let m = PersonMap { entries: Vec::new() };
        assert(m@ =~= Seq::<(PersonId, V::V)>::empty());
        m
    }

    pub fn len(&self) -> (n: usize)
        ensures
            n == self@.len(),
    {
        self.entries.len()
    }

    /// The position of the entry for `k`.
    pub fn index_of(&self, k: PersonId) -> (r: Option<usize>)
        ensures
            match r {
                Some(i) => key_index(self@, k) == Some(i as int) && i < self@.len(),
                None => key_index(self@, k) is None,
            },
    {
        let n = self.entries.len();
        assert(n == self@.len());
        for i in 0..n
            invariant
                n == self@.len(),
                forall|j: int| 0 <= j < i ==> (#[trigger] self@[j]).0 != k,
        {
            if self.entries[i].0 == k {
                proof {
                    assert(self@[i as int].0 == k);
                    lemma_key_index_unique(self@, k, i as int);
                }
                return Some(i);
            }
            assert(self@[i as int].0 != k);
        }
        proof {
            lemma_key_index(self@, k);
            if key_index(self@, k) is Some {
                let i = key_index(self@, k)->0;
                assert(self@[i].0 == k);
            }
        }
        None
    }

    pub fn contains_key(&self, k: &PersonId) -> (r: bool)
        ensures
            r == (key_index(self@, *k) is Some),
    {
        self.index_of(*k).is_some()
    }

    /// The key of the entry at position `i`.
    pub fn key_at(&self, i: usize) -> (k: PersonId)
        requires
            i < self@.len(),
        ensures
            k == self@[i as int].0,
    {
        self.entries[i].0
    }

    /// The value of the entry at position `i`.
    pub fn value_at(&self, i: usize) -> (v: &V)
        requires
            i < self@.len(),
        ensures
            v@ == self@[i as int].1,
    {
        &self.entries[i].1
    }

    /// The value stored for `k`.
    pub fn get(&self, k: &PersonId) -> (r: Option<&V>)
        ensures
            match lookup(self@, *k) {
                Some(w) => r matches Some(v) && v@ == w,
                None => r is None,
            },
    {
        match self.index_of(*k) {
            Some(i) => {
                assert(self.entries@[i as int].1@ == self@[i as int].1);
                Some(&self.entries[i].1)
            },
            None => None,
        }
    }

    /// Mutable access to the value of the entry at position `i`.
    pub fn value_at_mut(&mut self, i: usize) -> (v: &mut V)
        requires
            i < old(self)@.len(),
        ensures
            (*v)@ == old(self)@[i as int].1,
            final(self)@ == old(self)@.update(i as int, (old(self)@[i as int].0, (*final(v))@)),
    {
        let ghost pre = self.entries@;
        let r = &mut self.entries[i].1;
        r
    }

    /// Sets the value for `k`, replacing an existing entry or appending a new one.
    pub fn insert(&mut self, k: PersonId, v: V)
        ensures
            final(self)@ == store(old(self)@, k, v@),
    {
        let ghost pre = self@;
        match self.index_of(k) {
            Some(i) => {
                self.entries.set(i, (k, v));
                assert(self@ =~= store(pre, k, v@));
            },
            None => {
                self.entries.push((k, v));
                assert(self@ =~= store(pre, k, v@));
            },
        }
    }
}

impl<V: Duplicate> PersonMap<V> {
    /// A copy with the same entries, in the same order.
    pub fn duplicate(&self) -> (r: Self)
        ensures
            r@ == self@,
    {
        let mut entries: Vec<(PersonId, V)> = Vec::new();
        for i in 0..self.entries.len()
            invariant
                entries@.len() == i,
                forall|j: int|
                    0 <= j < i ==> (#[trigger] entries@[j]).0 == self.entries@[j].0
                        && entries@[j].1@ == self.entries@[j].1@,
        {
            let (k, v) = (self.entries[i].0, self.entries[i].1.duplicate());
            entries.push((k, v));
        }
        let r = PersonMap { entries };
        assert(r@ =~= self@);
        r
    }
}

} // verus!
