//! The key store: a mapping from opaque key bytes to objects.
//!
//! Handlers inspect tombstones themselves, so lookups never filter them.
//! Mutation goes through take-and-put: a handler takes the object out, works
//! on it, and puts it back under the same key.

use vstd::prelude::*;
use crate::assoc::{amap, unique_keys, find_key_bytes, lemma_amap_dom, lemma_amap_index,
    lemma_amap_push, lemma_amap_remove, lemma_amap_update};
use crate::object::{Object, ObjectV};

verus! {

/// The mathematical image of the store's representation.
pub open spec fn store_assoc(s: Seq<(Vec<u8>, Object)>) -> Seq<(Seq<u8>, ObjectV)> {
    s.map_values(|p: (Vec<u8>, Object)| (p.0@, p.1@))
}

/// The key store.
pub struct KeyStore {
    pub entries: Vec<(Vec<u8>, Object)>,
}

impl KeyStore {
    /// The representation as a mathematical sequence.
    pub open spec fn entries_seq(&self) -> Seq<(Seq<u8>, ObjectV)> {
        store_assoc(self.entries@)
    }

    /// Structural soundness: no key appears twice and every object is sound.
    pub open spec fn wf(&self) -> bool {
        &&& unique_keys(self.entries_seq())
        &&& forall|i: int| 0 <= i < self.entries@.len() ==> (#[trigger] self.entries@[i]).1.wf()
    }

    /// The store as a map from key to object value.
    pub open spec fn view(&self) -> Map<Seq<u8>, ObjectV> {
        amap(self.entries_seq())
    }

    /// The empty store.
    pub fn new() -> (s: KeyStore)
        ensures
            s.wf(),
            s@ == Map::<Seq<u8>, ObjectV>::empty(),
            s.entries_seq() == Seq::<(Seq<u8>, ObjectV)>::empty(),
    {
        let s = KeyStore { entries: Vec::new() };
        proof {
            assert(s.entries_seq() =~= Seq::<(Seq<u8>, ObjectV)>::empty());
        }
        s
    }

    /// The number of keys, live or tombstoned.
    pub fn len(&self) -> (n: usize)
        ensures
            n == self.entries_seq().len(),
    {
        self.entries.len()
    }

    /// The key at one index of the representation.
    pub fn key_at(&self, i: usize) -> (k: &Vec<u8>)
        requires
            i < self.entries_seq().len(),
        ensures
            k@ == self.entries_seq()[i as int].0,
    {
        &self.entries[i].0
    }

    /// The object at one index of the representation.
    pub fn obj_at(&self, i: usize) -> (o: &Object)
        requires
            i < self.entries_seq().len(),
        ensures
            o@ == self.entries_seq()[i as int].1,
            self.wf() ==> o.wf(),
    {
        &self.entries[i].1
    }

    /// A read-only look at the object under a key; tombstones included.
    pub fn query(&self, key: &[u8]) -> (r: Option<&Object>)
        requires
            self.wf(),
        ensures
            match r {
                Some(o) => self@.contains_key(key@) && o@ == self@[key@] && o.wf() && exists|i: int|
                    0 <= i < self.entries@.len() && (#[trigger] self.entries@[i]).0@ == key@ && *o
                    == self.entries@[i].1,
                None => !self@.contains_key(key@),
            },
    {
        proof {
            lemma_amap_dom(self.entries_seq(), key@);
        }
        match find_key_bytes(&self.entries, key) {
            Some(i) => {
                proof {
                    assert(self.entries_seq()[i as int].0 == key@);
                    lemma_amap_index(self.entries_seq(), i as int);
                }
                Some(&self.entries[i].1)
            }
            None => None,
        }
    }

    /// Takes the object under a key out of the store for mutation.
    pub fn take(&mut self, key: &[u8]) -> (r: Option<Object>)
        requires
            old(self).wf(),
        ensures
            final(self).wf(),
            match r {
                Some(o) => old(self)@.contains_key(key@) && o@ == old(self)@[key@] && o.wf()
                    && final(self)@ == old(self)@.remove(key@) && exists|i: int|
                    0 <= i < old(self).entries@.len() && (#[trigger] old(self).entries@[i]).0@
                        == key@ && o == old(self).entries@[i].1,
                None => !old(self)@.contains_key(key@) && final(self)@ == old(self)@,
            },
    {
        proof {
            lemma_amap_dom(self.entries_seq(), key@);
        }
        match find_key_bytes(&self.entries, key) {
            Some(i) => {
                proof {
                    assert(self.entries_seq()[i as int].0 == key@);
                    lemma_amap_index(self.entries_seq(), i as int);
                    lemma_amap_remove(self.entries_seq(), i as int);
                }
                let ghost before = self.entries_seq();
                let (_, o) = self.entries.remove(i);
                proof {
                    assert(self.entries_seq() =~= before.remove(i as int));
                }
                Some(o)
            }
            None => None,
        }
    }

    /// Puts an object under a key, replacing any object already there.
    pub fn add(&mut self, key: Vec<u8>, o: Object)
        requires
            old(self).wf(),
            o.wf(),
        ensures
            final(self).wf(),
            final(self)@ == old(self)@.insert(key@, o@),
    {
        proof {
            lemma_amap_dom(self.entries_seq(), key@);
        }
        match find_key_bytes(&self.entries, key.as_slice()) {
            Some(i) => {
                let ghost before = self.entries_seq();
                proof {
                    assert(before[i as int].0 == key@);
                    lemma_amap_update(before, i as int, o@);
                }
                self.entries[i] = (key, o);
                proof {
                    assert(self.entries_seq() =~= before.update(i as int, (key@, o@)));
                }
            }
            None => {
                let ghost before = self.entries_seq();
                proof {
                    assert(forall|j: int|
                        0 <= j < before.len() ==> (#[trigger] before[j]).0 != key@);
                    lemma_amap_push(before, key@, o@);
                }
                self.entries.push((key, o));
                proof {
                    assert(self.entries_seq() =~= before.push((key@, o@)));
                }
            }
        }
    }
}

} // verus!
