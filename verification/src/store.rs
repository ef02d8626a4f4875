//! The shared key-value store: a map from byte-string keys to byte strings
//! holding JSON-object text.
//!
//! The store is modelled as `Map<Seq<u8>, Seq<u8>>`; the implementation is a
//! vector of entries with pairwise-distinct keys. Every operation is a single
//! atomic step over the whole map: `set` fully replaces any prior value,
//! `get` hands back an independent copy, `delete` is idempotent. Callers that
//! share the store across connections serialize these calls; each call then
//! observes and produces a fully-applied state.

use vstd::prelude::*;
use vstd::pervasive::VecAdditionalExecFns;
use crate::util::bytes_eq;
use crate::util::copy_bytes;

verus! {

/// One key-value pair of the store.
pub struct Entry {
    pub key: Vec<u8>,
    pub value: Vec<u8>,
}

/// The map denoted by a sequence of entries; later entries win.
pub open spec fn entries_map(s: Seq<Entry>) -> Map<Seq<u8>, Seq<u8>>
    decreases s.len(),
{
    if s.len() == 0 {
        Map::empty()
    } else {
        entries_map(s.drop_last()).insert(s.last().key@, s.last().value@)
    }
}

/// No two entries share a key.
pub open spec fn keys_unique(s: Seq<Entry>) -> bool {
    forall|i: int, j: int| 0 <= i < j < s.len() ==> s[i].key@ != s[j].key@
}

/// A key is in the entries' map exactly when some entry carries it.
pub proof fn lemma_entries_map_domain(s: Seq<Entry>, k: Seq<u8>)
    ensures
        entries_map(s).contains_key(k) <==> exists|i: int| 0 <= i < s.len() && s[i].key@ == k,
    decreases s.len(),
{
    if s.len() > 0 {
        lemma_entries_map_domain(s.drop_last(), k);
        if s.last().key@ == k {
            assert(s[s.len() - 1].key@ == k);
        } else if entries_map(s.drop_last()).contains_key(k) {
            let i = choose|i: int| 0 <= i < s.drop_last().len() && s.drop_last()[i].key@ == k;
            assert(s[i].key@ == k);
        } else if exists|i: int| 0 <= i < s.len() && s[i].key@ == k {
            let i = choose|i: int| 0 <= i < s.len() && s[i].key@ == k;
            assert(i < s.len() - 1);
            assert(s.drop_last()[i].key@ == k);
        }
    }
}

/// Under unique keys, the entry at `i` gives its key's value in the map.
pub proof fn lemma_entries_map_value(s: Seq<Entry>, i: int)
    requires
        keys_unique(s),
        0 <= i < s.len(),
    ensures
        entries_map(s).contains_key(s[i].key@),
        entries_map(s)[s[i].key@] == s[i].value@,
    decreases s.len(),
{
    if i == s.len() - 1 {
    } else {
        assert(keys_unique(s.drop_last()));
        assert(s.drop_last()[i] == s[i]);
        lemma_entries_map_value(s.drop_last(), i);
        assert(s[i].key@ != s.last().key@);
    }
}

/// Replacing the entry at `i` by one with the same key updates that key.
pub proof fn lemma_entries_map_update(s: Seq<Entry>, i: int, e: Entry)
    requires
        keys_unique(s),
        0 <= i < s.len(),
        e.key@ == s[i].key@,
    ensures
        entries_map(s.update(i, e)) == entries_map(s).insert(e.key@, e.value@),
    decreases s.len(),
{
    let k = e.key@;
    if i == s.len() - 1 {
        assert(s.update(i, e).drop_last() =~= s.drop_last());
        assert(s.update(i, e).last() == e);
        assert(entries_map(s.drop_last()).insert(k, e.value@) =~= entries_map(s.drop_last()).insert(
            k,
            s.last().value@,
        ).insert(k, e.value@));
    } else {
        assert(keys_unique(s.drop_last()));
        assert(s.drop_last()[i] == s[i]);
        lemma_entries_map_update(s.drop_last(), i, e);
        assert(s.update(i, e).drop_last() =~= s.drop_last().update(i, e));
        assert(s.update(i, e).last() == s.last());
        assert(s[i].key@ != s.last().key@);
        assert(entries_map(s.drop_last()).insert(k, e.value@).insert(
            s.last().key@,
            s.last().value@,
        ) =~= entries_map(s.drop_last()).insert(s.last().key@, s.last().value@).insert(
            k,
            e.value@,
        ));
    }
}

/// Removing the entry at `i` removes exactly its key from the map.
pub proof fn lemma_entries_map_remove(s: Seq<Entry>, i: int)
    requires
        keys_unique(s),
        0 <= i < s.len(),
    ensures
        entries_map(s.remove(i)) == entries_map(s).remove(s[i].key@),
    decreases s.len(),
{
    let k = s[i].key@;
    if i == s.len() - 1 {
        assert(s.remove(i) =~= s.drop_last());
        lemma_entries_map_domain(s.drop_last(), k);
        assert(forall|j: int|
            0 <= j < s.drop_last().len() ==> s.drop_last()[j] == s[j] && s[j].key@ != k);
        assert(!entries_map(s.drop_last()).contains_key(k));
        assert(entries_map(s.drop_last()).insert(k, s.last().value@).remove(k) =~= entries_map(
            s.drop_last(),
        ));
    } else {
        assert(keys_unique(s.drop_last()));
        assert(s.drop_last()[i] == s[i]);
        lemma_entries_map_remove(s.drop_last(), i);
        assert(s.remove(i).drop_last() =~= s.drop_last().remove(i));
        assert(s.remove(i).last() == s.last());
        assert(s[i].key@ != s.last().key@);
        assert(entries_map(s.drop_last()).remove(k).insert(s.last().key@, s.last().value@)
            =~= entries_map(s.drop_last()).insert(s.last().key@, s.last().value@).remove(k));
    }
}

/// Appending an entry inserts its key.
pub proof fn lemma_entries_map_push(s: Seq<Entry>, e: Entry)
    ensures
        entries_map(s.push(e)) == entries_map(s).insert(e.key@, e.value@),
{
    assert(s.push(e).drop_last() =~= s);
    assert(s.push(e).last() == e);
}

/// The shared in-memory store. Created empty; every mutation goes through
/// `set` or `delete` and is one atomic replacement or removal.
pub struct Store {
    entries: Vec<Entry>,
}

impl View for Store {
    type V = Map<Seq<u8>, Seq<u8>>;

    closed spec fn view(&self) -> Map<Seq<u8>, Seq<u8>> {
        entries_map(self.entries@)
    }
}

impl Store {
    /// Internal well-formedness: entry keys are pairwise distinct.
    pub closed spec fn wf(&self) -> bool {
        keys_unique(self.entries@)
    }

    /// Creates the empty store.
    pub fn new() -> (r: Store)
        ensures
            r.wf(),
            r@ == Map::<Seq<u8>, Seq<u8>>::empty(),
    {
        Store { entries: Vec::new() }
    }

    /// Index of the entry holding `key`, if any.
    fn find(&self, key: &[u8]) -> (r: Option<usize>)
        ensures
            r matches Some(i) ==> i < self.entries@.len() && self.entries@[i as int].key@ == key@,
            r is None ==> forall|j: int| 0 <= j < self.entries@.len()
                ==> self.entries@[j].key@ != key@,
    {
        let n = self.entries.len();
        let mut i: usize = 0;
        while i < n
            invariant
                n == self.entries@.len(),
                0 <= i <= n,
                forall|j: int| 0 <= j < i ==> self.entries@[j].key@ != key@,
            decreases n - i,
        {
            if bytes_eq(self.entries[i].key.as_slice(), key) {
                return Some(i);
            }
            i = i + 1;
        }
        None
    }

    /// Looks a key up and returns an independent copy of its value; absence
    /// is a plain `None`, never an error.
    pub fn get(&self, key: &[u8]) -> (r: Option<Vec<u8>>)
        requires
            self.wf(),
        ensures
            r matches Some(v) ==> self@.contains_key(key@) && v@ == self@[key@],
            r is None ==> !self@.contains_key(key@),
    {
        match self.find(key) {
            Some(i) => {
                proof {
                    lemma_entries_map_value(self.entries@, i as int);
                }
                Some(copy_bytes(self.entries[i].value.as_slice()))
            },
            None => {
                proof {
                    lemma_entries_map_domain(self.entries@, key@);
                }
                None
            },
        }
    }

    /// Binds `key` to `value`, fully replacing any prior value.
    pub fn set(&mut self, key: Vec<u8>, value: Vec<u8>)
        requires
            old(self).wf(),
        ensures
            final(self).wf(),
            final(self)@ == old(self)@.insert(key@, value@),
    {
        let ghost s0 = self.entries@;
        match self.find(key.as_slice()) {
            Some(i) => {
                let e = Entry { key, value };
                proof {
                    lemma_entries_map_update(s0, i as int, e);
                }
                self.entries.set(i, e);
                proof {
                    assert forall|a: int, b: int| 0 <= a < b < self.entries@.len() implies self
                        .entries@[a].key@ != self.entries@[b].key@ by {
                        assert(self.entries@[a].key@ == s0[a].key@);
                        assert(self.entries@[b].key@ == s0[b].key@);
                    }
                }
            },
            None => {
                let e = Entry { key, value };
                proof {
                    lemma_entries_map_push(s0, e);
                }
                self.entries.push(e);
            },
        }
    }

    /// Removes `key`; returns whether it was present. Deleting an absent key
    /// changes nothing and is not an error.
    pub fn delete(&mut self, key: &[u8]) -> (r: bool)
        requires
            old(self).wf(),
        ensures
            final(self).wf(),
            r == old(self)@.contains_key(key@),
            final(self)@ == old(self)@.remove(key@),
    {
        let ghost s0 = self.entries@;
        match self.find(key) {
            Some(i) => {
                proof {
                    lemma_entries_map_value(s0, i as int);
                    lemma_entries_map_remove(s0, i as int);
                }
                self.entries.remove(i);
                proof {
                    assert forall|a: int, b: int| 0 <= a < b < self.entries@.len() implies self
                        .entries@[a].key@ != self.entries@[b].key@ by {
                        let a0 = if a < i as int {
                            a
                        } else {
                            a + 1
                        };
                        let b0 = if b < i as int {
                            b
                        } else {
                            b + 1
                        };
                        assert(self.entries@[a].key@ == s0[a0].key@);
                        assert(self.entries@[b].key@ == s0[b0].key@);
                    }
                }
                true
            },
            None => {
                proof {
                    lemma_entries_map_domain(s0, key@);
                    assert(entries_map(s0).remove(key@) =~= entries_map(s0));
                }
                false
            },
        }
    }
}

/// Law: writing a key twice leaves the later value. After `set(k, v1)` then
/// `set(k, v2)`, a `get(k)` yields exactly `v2`.
pub proof fn lemma_set_twice_get(m: Map<Seq<u8>, Seq<u8>>, k: Seq<u8>, v1: Seq<u8>, v2: Seq<u8>)
    ensures
        m.insert(k, v1).insert(k, v2).contains_key(k),
        m.insert(k, v1).insert(k, v2)[k] == v2,
{
}

/// Law: a key that was never set is absent: the empty store contains no key,
/// so `get` on it returns `None` (and by its signature can never error).
pub proof fn lemma_get_never_set(k: Seq<u8>)
    ensures
        !Map::<Seq<u8>, Seq<u8>>::empty().contains_key(k),
{
}

/// Law: deleting an absent key leaves the store unchanged; deleting a
/// present key removes exactly that key and keeps every other binding.
pub proof fn lemma_delete_semantics(m: Map<Seq<u8>, Seq<u8>>, k: Seq<u8>)
    ensures
        !m.contains_key(k) ==> m.remove(k) == m,
        !m.remove(k).contains_key(k),
        forall|k2: Seq<u8>| k2 != k && m.contains_key(k2) ==> m.remove(k).contains_key(k2)
            && m.remove(k)[k2] == m[k2],
{
    if !m.contains_key(k) {
        assert(m.remove(k) =~= m);
    }
}

/// Law: two writes to one key, serialized in either order, resolve to the
/// later write's value whole. Since every `set` is one atomic map insert and
/// all operations are serialized, a `get` after two racing writes sees one
/// of the two written values exactly, never a mixture.
pub proof fn lemma_racing_sets_resolve(m: Map<Seq<u8>, Seq<u8>>, k: Seq<u8>, va: Seq<u8>, vb: Seq<
    u8,
>)
    ensures
        m.insert(k, va).insert(k, vb)[k] == vb,
        m.insert(k, vb).insert(k, va)[k] == va,
{
}

} // verus!
