//! The increment/decrement counter: one `(value, uuid)` pair per node.
//!
//! The logical value is the sum of all per-node values; a change by a node
//! replaces only that node's pair, and merge keeps, per node, the pair with
//! the greater uuid.  Sums wrap as 64-bit two's-complement arithmetic.

use vstd::prelude::*;
use vstd::arithmetic::div_mod::lemma_mod_multiples_vanish;
use vstd::wrapping::i64_specs;
use crate::assoc::{amap, unique_keys, lemma_amap_dom, lemma_amap_index, lemma_amap_push,
    lemma_amap_update};

verus! {

/// Finds the entry with the given key in an association vector.
pub fn find_key_u64<V>(entries: &Vec<(u64, V)>, key: u64) -> (r: Option<usize>)
    ensures
        match r {
            Some(i) => 0 <= i < entries@.len() && entries@[i as int].0 == key,
            None => forall|i: int| 0 <= i < entries@.len() ==> (#[trigger] entries@[i]).0 != key,
        },
{
    let mut i: usize = 0;
    while i < entries.len()
        invariant
            0 <= i <= entries@.len(),
            forall|j: int| 0 <= j < i ==> (#[trigger] entries@[j]).0 != key,
        decreases entries@.len() - i,
    {
        if entries[i].0 == key {
            return Some(i);
        }
        i = i + 1;
    }
    None
}

/// The sum of the per-node values of a counter map.
pub open spec fn sum_counter(m: Map<u64, (i64, u64)>) -> int
    decreases m.dom().len(),
{
    if m.dom().finite() && m.dom().len() > 0 {
        let k = m.dom().choose();
        m[k].0 + sum_counter(m.remove(k))
    } else {
        0
    }
}

/// Removing any present key takes its value out of the sum.
pub proof fn lemma_sum_counter_remove(m: Map<u64, (i64, u64)>, k: u64)
    requires
        m.dom().finite(),
        m.contains_key(k),
    ensures
        sum_counter(m) == m[k].0 + sum_counter(m.remove(k)),
    decreases m.dom().len(),
{
    let k0 = m.dom().choose();
    assert(m.contains_key(k0));
    if k0 != k {
        lemma_sum_counter_remove(m.remove(k0), k);
        lemma_sum_counter_remove(m.remove(k), k0);
        assert(m.remove(k0).remove(k) =~= m.remove(k).remove(k0));
    }
}

/// Inserting a fresh key adds its value to the sum.
pub proof fn lemma_sum_counter_insert(m: Map<u64, (i64, u64)>, k: u64, v: (i64, u64))
    requires
        m.dom().finite(),
        !m.contains_key(k),
    ensures
        sum_counter(m.insert(k, v)) == sum_counter(m) + v.0,
{
    lemma_sum_counter_remove(m.insert(k, v), k);
    assert(m.insert(k, v).remove(k) =~= m);
}

/// Two integers a whole number of 2^64 steps apart crop to the same 64-bit
/// value.
pub proof fn lemma_crop_congruent(a: int, b: int, d: int)
    requires
        a - b == d * 0x1_0000_0000_0000_0000,
    ensures
        i64_specs::signed_crop(a) == i64_specs::signed_crop(b),
{
    lemma_mod_multiples_vanish(d, b, 0x1_0000_0000_0000_0000);
    assert(0x1_0000_0000_0000_0000 * d + b == a) by (nonlinear_arith)
        requires
            a - b == d * 0x1_0000_0000_0000_0000,
    ;
}

/// The effect of one `change` call on the counter map: a fresh pair for an
/// unknown node; for a known node, the wrapped sum at the new uuid when that
/// uuid is newer, and a no-op otherwise.
pub open spec fn spec_counter_change(m: Map<u64, (i64, u64)>, node: u64, delta: i64, uuid: u64)
    -> Map<u64, (i64, u64)> {
    if m.contains_key(node) {
        if uuid > m[node].1 {
            m.insert(node, (i64_specs::wrapping_add(m[node].0, delta), uuid))
        } else {
            m
        }
    } else {
        m.insert(node, (delta, uuid))
    }
}

/// The merge of two counter maps: per node, the pair with the greater uuid,
/// the present one when only one side knows the node, and the left pair on a
/// uuid tie.
pub open spec fn spec_counter_merge(a: Map<u64, (i64, u64)>, b: Map<u64, (i64, u64)>)
    -> Map<u64, (i64, u64)> {
    Map::new(
        |k: u64| a.contains_key(k) || b.contains_key(k),
        |k: u64|
            if a.contains_key(k) && b.contains_key(k) {
                if b[k].1 > a[k].1 {
                    b[k]
                } else {
                    a[k]
                }
            } else if b.contains_key(k) {
                b[k]
            } else {
                a[k]
            },
    )
}

/// The per-node counter.
pub struct Counter {
    pub entries: Vec<(u64, (i64, u64))>,
}

impl Counter {
    /// The representation: one `(node, (value, uuid))` entry per node.
    pub open spec fn entries_seq(&self) -> Seq<(u64, (i64, u64))> {
        self.entries@
    }

    /// Structural soundness: no node appears twice.
    pub open spec fn wf(&self) -> bool {
        unique_keys(self.entries@)
    }

    /// The counter as a map from node to its `(value, uuid)` pair.
    pub open spec fn view(&self) -> Map<u64, (i64, u64)> {
        amap(self.entries@)
    }

    /// The empty counter.
    pub fn new() -> (c: Counter)
        ensures
            c.wf(),
            c@ == Map::<u64, (i64, u64)>::empty(),
            c.entries_seq() == Seq::<(u64, (i64, u64))>::empty(),
    {
        let c = Counter { entries: Vec::new() };
        proof {
            assert(c.entries@ =~= Seq::<(u64, (i64, u64))>::empty());
        }
        c
    }

    /// The number of node entries.
    pub fn entry_count(&self) -> (n: usize)
        ensures
            n == self.entries_seq().len(),
    {
        self.entries.len()
    }

    /// The entry at one index of the representation.
    pub fn entry_at(&self, i: usize) -> (e: (u64, (i64, u64)))
        requires
            i < self.entries_seq().len(),
        ensures
            e == self.entries_seq()[i as int],
    {
        let (n, p) = self.entries[i];
        (n, p)
    }

    /// Applies one change: adopt `(value + delta, uuid)` for the node when
    /// `uuid` is newer than the node's recorded uuid.
    pub fn change(&mut self, node: u64, delta: i64, uuid: u64)
        requires
            old(self).wf(),
        ensures
            final(self).wf(),
            final(self)@ == spec_counter_change(old(self)@, node, delta, uuid),
    {
        proof {
            lemma_amap_dom(self.entries@, node);
        }
        match find_key_u64(&self.entries, node) {
            Some(i) => {
                proof {
                    lemma_amap_index(self.entries@, i as int);
                }
                let (_, (value, cur_uuid)) = self.entries[i];
                if uuid > cur_uuid {
                    let nv = value.wrapping_add(delta);
                    proof {
                        lemma_amap_update(self.entries@, i as int, (nv, uuid));
                    }
                    self.entries[i] = (node, (nv, uuid));
                }
            }
            None => {
                proof {
                    lemma_amap_push(self.entries@, node, (delta, uuid));
                }
                self.entries.push((node, (delta, uuid)));
            }
        }
    }

    /// The logical value: the 64-bit wrapped sum of all per-node values.
    pub fn get(&self) -> (r: i64)
        requires
            self.wf(),
        ensures
            r == i64_specs::signed_crop(sum_counter(self@)),
    {
        let ghost s = self.entries@;
        let mut acc: i64 = 0;
        let mut i: usize = 0;
        proof {
            assert(s.take(0) =~= Seq::<(u64, (i64, u64))>::empty());
            assert(amap(s.take(0)) =~= Map::<u64, (i64, u64)>::empty());
            assert(amap(s.take(0)).dom() =~= Set::<u64>::empty());
            assert(i64_specs::signed_crop(0) == 0);
        }
        while i < self.entries.len()
            invariant
                self.wf(),
                s == self.entries@,
                0 <= i <= s.len(),
                amap(s.take(i as int)).dom().finite(),
                acc == i64_specs::signed_crop(sum_counter(amap(s.take(i as int)))),
            decreases s.len() - i,
        {
            let (_, (value, _)) = self.entries[i];
            proof {
                let p = amap(s.take(i as int));
                let e = s[i as int];
                assert(s.take(i as int + 1).drop_last() =~= s.take(i as int));
                assert(s.take(i as int + 1).last() == e);
                assert(forall|j: int| 0 <= j < i ==> s.take(i as int)[j] == s[j]);
                assert forall|j: int| 0 <= j < i implies (#[trigger] s.take(i as int)[j]).0
                    != e.0 by {
                    assert(s[j].0 != s[i as int].0);
                }
                lemma_amap_dom(s.take(i as int), e.0);
                assert(!p.contains_key(e.0));
                lemma_sum_counter_insert(p, e.0, e.1);
                assert(amap(s.take(i as int + 1)) == p.insert(e.0, e.1));
                // wrapping the running sum keeps it congruent to the true sum
                let a = sum_counter(p);
                let c = i64_specs::signed_crop(a);
                let r: int = 0x1_0000_0000_0000_0000;
                let am = a % r;
                assert(r * ((a - am) / r) == a - am) by {
                    vstd::arithmetic::div_mod::lemma_fundamental_div_mod(a, r);
                    assert(a == r * (a / r) + a % r);
                    assert((a - am) / r == a / r) by (nonlinear_arith)
                        requires
                            a == r * (a / r) + am,
                            r > 0,
                    ;
                }
                let d: int = if am == c {
                    (a - am) / r
                } else {
                    (a - am) / r + 1
                };
                assert((a + value) - (c + value) == d * r) by (nonlinear_arith)
                    requires
                        r * ((a - am) / r) == a - am,
                        d == if am == c {
                            (a - am) / r
                        } else {
                            (a - am) / r + 1
                        },
                        am == if am == c {
                            c as int
                        } else {
                            c + r
                        },
                ;
                lemma_crop_congruent(a + value, c + value, d);
            }
            acc = acc.wrapping_add(value);
            i = i + 1;
        }
        proof {
            assert(s.take(i as int) =~= s);
        }
        acc
    }

    /// Merges another counter in: per node, keep the pair with the greater
    /// uuid.
    pub fn merge(&mut self, other: &Counter)
        requires
            old(self).wf(),
            other.wf(),
        ensures
            final(self).wf(),
            final(self)@ == spec_counter_merge(old(self)@, other@),
    {
        let ghost a = amap(old(self).entries@);
        let ghost os = other.entries@;
        let mut i: usize = 0;
        proof {
            assert(os.take(0) =~= Seq::<(u64, (i64, u64))>::empty());
            assert(self@ =~= spec_counter_merge(a, amap(os.take(0))));
        }
        while i < other.entries.len()
            invariant
                self.wf(),
                other.wf(),
                os == other.entries@,
                0 <= i <= os.len(),
                self@ == spec_counter_merge(a, amap(os.take(i as int))),
            decreases os.len() - i,
        {
            let (node, (value, uuid)) = other.entries[i];
            let ghost p = amap(os.take(i as int));
            proof {
                let e = os[i as int];
                assert(os.take(i as int + 1).drop_last() =~= os.take(i as int));
                assert(os.take(i as int + 1).last() == e);
                assert forall|j: int| 0 <= j < i implies (#[trigger] os.take(i as int)[j]).0
                    != e.0 by {
                    assert(os.take(i as int)[j] == os[j]);
                    assert(os[j].0 != os[i as int].0);
                }
                lemma_amap_dom(os.take(i as int), e.0);
                assert(amap(os.take(i as int + 1)) == p.insert(e.0, e.1));
                lemma_amap_dom(self.entries@, node);
            }
            match find_key_u64(&self.entries, node) {
                Some(j) => {
                    proof {
                        lemma_amap_index(self.entries@, j as int);
                    }
                    let (_, (_, cur_uuid)) = self.entries[j];
                    if uuid > cur_uuid {
                        proof {
                            lemma_amap_update(self.entries@, j as int, (value, uuid));
                        }
                        self.entries[j] = (node, (value, uuid));
                    }
                    proof {
                        assert(self@ =~= spec_counter_merge(a, p.insert(node, (value, uuid))));
                    }
                }
                None => {
                    proof {
                        lemma_amap_push(self.entries@, node, (value, uuid));
                    }
                    self.entries.push((node, (value, uuid)));
                    proof {
                        assert(self@ =~= spec_counter_merge(a, p.insert(node, (value, uuid))));
                    }
                }
            }
            i = i + 1;
        }
        proof {
            assert(os.take(i as int) =~= os);
        }
    }
}

/// Merging a counter with itself changes nothing.
pub proof fn lemma_counter_merge_idempotent(a: Map<u64, (i64, u64)>)
    ensures
        spec_counter_merge(a, a) == a,
{
    assert(spec_counter_merge(a, a) =~= a);
}

/// Counter maps agree on shared uuids when every pair was tagged by a unique
/// write: that is what makes merge commutative.
pub open spec fn counter_compat(a: Map<u64, (i64, u64)>, b: Map<u64, (i64, u64)>) -> bool {
    forall|k: u64|
        a.contains_key(k) && b.contains_key(k) && (#[trigger] a[k]).1 == (#[trigger] b[k]).1
            ==> a[k] == b[k]
}

/// Merge is commutative on compatible counter maps.
pub proof fn lemma_counter_merge_commutative(a: Map<u64, (i64, u64)>, b: Map<u64, (i64, u64)>)
    requires
        counter_compat(a, b),
    ensures
        spec_counter_merge(a, b) == spec_counter_merge(b, a),
{
    assert(spec_counter_merge(a, b) =~= spec_counter_merge(b, a));
}

/// Merge is associative on counter maps.
pub proof fn lemma_counter_merge_associative(
    a: Map<u64, (i64, u64)>,
    b: Map<u64, (i64, u64)>,
    c: Map<u64, (i64, u64)>,
)
    ensures
        spec_counter_merge(spec_counter_merge(a, b), c) == spec_counter_merge(
            a,
            spec_counter_merge(b, c),
        ),
{
    assert(spec_counter_merge(spec_counter_merge(a, b), c) =~= spec_counter_merge(
        a,
        spec_counter_merge(b, c),
    ));
}

} // verus!
