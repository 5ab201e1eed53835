//! Last-writer-wins hashes: the observed-remove set and the field dictionary.
//!
//! A set member carries `(add_ts, remove_ts)` and is present exactly when
//! `add_ts > remove_ts`.  A dictionary field carries `(value, add_ts,
//! remove_ts)` and is visible on the same condition; the value accompanies
//! the winning `add_ts`.  Merge takes, per key, the maximum of each
//! timestamp (for the dictionary, the value of the larger `add_ts`).

use vstd::prelude::*;
use crate::assoc::{amap, unique_keys, find_key_bytes, lemma_amap_dom, lemma_amap_index,
    lemma_amap_push, lemma_amap_update, lemma_amap_transform};
use crate::util::{max64, max_u64};

verus! {

/// The mathematical image of the set's representation.
pub open spec fn set_assoc(s: Seq<(Vec<u8>, (u64, u64))>) -> Seq<(Seq<u8>, (u64, u64))> {
    s.map_values(|p: (Vec<u8>, (u64, u64))| (p.0@, p.1))
}

/// The timestamps recorded for a member, `(0, 0)` when it was never seen.
pub open spec fn set_ts(m: Map<Seq<u8>, (u64, u64)>, k: Seq<u8>) -> (u64, u64) {
    if m.contains_key(k) {
        m[k]
    } else {
        (0u64, 0u64)
    }
}

/// One member addition: raise the member's `add_ts` to at least `uuid`.
pub open spec fn spec_set_add(m: Map<Seq<u8>, (u64, u64)>, k: Seq<u8>, uuid: u64) -> Map<
    Seq<u8>,
    (u64, u64),
> {
    m.insert(k, (max64(set_ts(m, k).0, uuid), set_ts(m, k).1))
}

/// One member removal: raise the member's `remove_ts` to at least `uuid`.
pub open spec fn spec_set_remove(m: Map<Seq<u8>, (u64, u64)>, k: Seq<u8>, uuid: u64) -> Map<
    Seq<u8>,
    (u64, u64),
> {
    m.insert(k, (set_ts(m, k).0, max64(set_ts(m, k).1, uuid)))
}

/// Member additions, applied first to last.
pub open spec fn spec_set_add_all(
    m: Map<Seq<u8>, (u64, u64)>,
    ks: Seq<Seq<u8>>,
    uuid: u64,
) -> Map<Seq<u8>, (u64, u64)>
    decreases ks.len(),
{
    if ks.len() == 0 {
        m
    } else {
        spec_set_add(spec_set_add_all(m, ks.drop_last(), uuid), ks.last(), uuid)
    }
}

/// Member removals, applied first to last.
pub open spec fn spec_set_remove_all(
    m: Map<Seq<u8>, (u64, u64)>,
    ks: Seq<Seq<u8>>,
    uuid: u64,
) -> Map<Seq<u8>, (u64, u64)>
    decreases ks.len(),
{
    if ks.len() == 0 {
        m
    } else {
        spec_set_remove(spec_set_remove_all(m, ks.drop_last(), uuid), ks.last(), uuid)
    }
}

/// The merge of two set maps: per member, the maximum of each timestamp.
pub open spec fn spec_set_merge(a: Map<Seq<u8>, (u64, u64)>, b: Map<Seq<u8>, (u64, u64)>) -> Map<
    Seq<u8>,
    (u64, u64),
> {
    Map::new(
        |k: Seq<u8>| a.contains_key(k) || b.contains_key(k),
        |k: Seq<u8>| (max64(set_ts(a, k).0, set_ts(b, k).0), max64(set_ts(a, k).1, set_ts(b, k).1)),
    )
}

/// A member is live when its addition out-times its removal.
pub open spec fn set_live(ts: (u64, u64)) -> bool {
    ts.0 > ts.1
}

/// The live members of a representation, in representation order.
pub open spec fn live_list(s: Seq<(Seq<u8>, (u64, u64))>) -> Seq<Seq<u8>>
    decreases s.len(),
{
    if s.len() == 0 {
        Seq::empty()
    } else if set_live(s.last().1) {
        live_list(s.drop_last()).push(s.last().0)
    } else {
        live_list(s.drop_last())
    }
}

/// All members of a representation, live or tombstoned, in order.
pub open spec fn key_list<V>(s: Seq<(Seq<u8>, V)>) -> Seq<Seq<u8>> {
    s.map_values(|p: (Seq<u8>, V)| p.0)
}

/// The last-writer-wins observed-remove set.
pub struct LwwSet {
    pub entries: Vec<(Vec<u8>, (u64, u64))>,
}

impl LwwSet {
    /// The representation as a mathematical sequence.
    pub open spec fn entries_seq(&self) -> Seq<(Seq<u8>, (u64, u64))> {
        set_assoc(self.entries@)
    }

    /// Structural soundness: no member appears twice.
    pub open spec fn wf(&self) -> bool {
        unique_keys(self.entries_seq())
    }

    /// The set as a map from member to `(add_ts, remove_ts)`.
    pub open spec fn view(&self) -> Map<Seq<u8>, (u64, u64)> {
        amap(self.entries_seq())
    }

    /// The empty set.
    pub fn new() -> (s: LwwSet)
        ensures
            s.wf(),
            s@ == Map::<Seq<u8>, (u64, u64)>::empty(),
            s.entries_seq() == Seq::<(Seq<u8>, (u64, u64))>::empty(),
    {
        let s = LwwSet { entries: Vec::new() };
        proof {
            assert(s.entries_seq() =~= Seq::<(Seq<u8>, (u64, u64))>::empty());
        }
        s
    }

    /// Raises one member's `add_ts` to at least `uuid`.
    pub fn add_member(&mut self, member: &[u8], uuid: u64)
        requires
            old(self).wf(),
        ensures
            final(self).wf(),
            final(self)@ == spec_set_add(old(self)@, member@, uuid),
    {
        proof {
            lemma_amap_dom(self.entries_seq(), member@);
        }
        match find_key_bytes(&self.entries, member) {
            Some(i) => {
                proof {
                    assert(self.entries_seq()[i as int].0 == member@);
                    lemma_amap_index(self.entries_seq(), i as int);
                }
                let (add_ts, remove_ts) = self.entries[i].1;
                let na = max_u64(add_ts, uuid);
                let ghost before = self.entries_seq();
                proof {
                    lemma_amap_update(before, i as int, (na, remove_ts));
                }
                let member_copy = crate::resp::dup_bytes(&self.entries[i].0);
                self.entries[i] = (member_copy, (na, remove_ts));
                proof {
                    assert(self.entries_seq() =~= before.update(
                        i as int,
                        (member@, (na, remove_ts)),
                    ));
                }
            }
            None => {
                proof {
                    assert(forall|j: int|
                        0 <= j < self.entries_seq().len() ==> (#[trigger] self.entries_seq()[j]).0
                            != member@);
                    lemma_amap_push(self.entries_seq(), member@, (uuid, 0u64));
                }
                let ghost before = self.entries_seq();
                let mut owned: Vec<u8> = Vec::new();
                owned.extend_from_slice(member);
                proof {
                    assert(owned@ =~= member@);
                }
                self.entries.push((owned, (uuid, 0)));
                proof {
                    assert(self.entries_seq() =~= before.push((member@, (uuid, 0u64))));
                }
            }
        }
    }

    /// Raises one member's `remove_ts` to at least `uuid`.
    pub fn remove_member(&mut self, member: &[u8], uuid: u64)
        requires
            old(self).wf(),
        ensures
            final(self).wf(),
            final(self)@ == spec_set_remove(old(self)@, member@, uuid),
    {
        proof {
            lemma_amap_dom(self.entries_seq(), member@);
        }
        match find_key_bytes(&self.entries, member) {
            Some(i) => {
                proof {
                    assert(self.entries_seq()[i as int].0 == member@);
                    lemma_amap_index(self.entries_seq(), i as int);
                }
                let (add_ts, remove_ts) = self.entries[i].1;
                let nr = max_u64(remove_ts, uuid);
                let ghost before = self.entries_seq();
                proof {
                    lemma_amap_update(before, i as int, (add_ts, nr));
                }
                let member_copy = crate::resp::dup_bytes(&self.entries[i].0);
                self.entries[i] = (member_copy, (add_ts, nr));
                proof {
                    assert(self.entries_seq() =~= before.update(
                        i as int,
                        (member@, (add_ts, nr)),
                    ));
                }
            }
            None => {
                proof {
                    assert(forall|j: int|
                        0 <= j < self.entries_seq().len() ==> (#[trigger] self.entries_seq()[j]).0
                            != member@);
                    lemma_amap_push(self.entries_seq(), member@, (0u64, uuid));
                }
                let ghost before = self.entries_seq();
                let mut owned: Vec<u8> = Vec::new();
                owned.extend_from_slice(member);
                proof {
                    assert(owned@ =~= member@);
                }
                self.entries.push((owned, (0, uuid)));
                proof {
                    assert(self.entries_seq() =~= before.push((member@, (0u64, uuid))));
                }
            }
        }
    }

    /// Raises each listed member's `add_ts` to at least `uuid`.
    pub fn add_members(&mut self, members: &Vec<Vec<u8>>, uuid: u64)
        requires
            old(self).wf(),
        ensures
            final(self).wf(),
            final(self)@ == spec_set_add_all(
                old(self)@,
                members@.map_values(|b: Vec<u8>| b@),
                uuid,
            ),
    {
        let ghost m0 = self@;
        let ghost ks = members@.map_values(|b: Vec<u8>| b@);
        let mut i: usize = 0;
        proof {
            assert(ks.take(0) =~= Seq::<Seq<u8>>::empty());
        }
        while i < members.len()
            invariant
                self.wf(),
                0 <= i <= members@.len(),
                ks == members@.map_values(|b: Vec<u8>| b@),
                self@ == spec_set_add_all(m0, ks.take(i as int), uuid),
            decreases members@.len() - i,
        {
            self.add_member(members[i].as_slice(), uuid);
            proof {
                assert(ks.take(i as int + 1).drop_last() =~= ks.take(i as int));
                assert(ks.take(i as int + 1).last() == ks[i as int]);
            }
            i = i + 1;
        }
        proof {
            assert(ks.take(i as int) =~= ks);
        }
    }

    /// Raises each listed member's `remove_ts` to at least `uuid`.
    pub fn remove_members(&mut self, members: &Vec<Vec<u8>>, uuid: u64)
        requires
            old(self).wf(),
        ensures
            final(self).wf(),
            final(self)@ == spec_set_remove_all(
                old(self)@,
                members@.map_values(|b: Vec<u8>| b@),
                uuid,
            ),
    {
        let ghost m0 = self@;
        let ghost ks = members@.map_values(|b: Vec<u8>| b@);
        let mut i: usize = 0;
        proof {
            assert(ks.take(0) =~= Seq::<Seq<u8>>::empty());
        }
        while i < members.len()
            invariant
                self.wf(),
                0 <= i <= members@.len(),
                ks == members@.map_values(|b: Vec<u8>| b@),
                self@ == spec_set_remove_all(m0, ks.take(i as int), uuid),
            decreases members@.len() - i,
        {
            self.remove_member(members[i].as_slice(), uuid);
            proof {
                assert(ks.take(i as int + 1).drop_last() =~= ks.take(i as int));
                assert(ks.take(i as int + 1).last() == ks[i as int]);
            }
            i = i + 1;
        }
        proof {
            assert(ks.take(i as int) =~= ks);
        }
    }

    /// The live members, in representation order.
    pub fn iter_live(&self) -> (r: Vec<Vec<u8>>)
        requires
            self.wf(),
        ensures
            r@.map_values(|b: Vec<u8>| b@) == live_list(self.entries_seq()),
    {
        let ghost s = self.entries_seq();
        let mut out: Vec<Vec<u8>> = Vec::new();
        let mut i: usize = 0;
        proof {
            assert(s.take(0) =~= Seq::<(Seq<u8>, (u64, u64))>::empty());
            assert(out@.map_values(|b: Vec<u8>| b@) =~= live_list(s.take(0)));
        }
        while i < self.entries.len()
            invariant
                self.wf(),
                s == self.entries_seq(),
                0 <= i <= self.entries@.len(),
                s.len() == self.entries@.len(),
                out@.map_values(|b: Vec<u8>| b@) == live_list(s.take(i as int)),
            decreases self.entries@.len() - i,
        {
            let (add_ts, remove_ts) = self.entries[i].1;
            proof {
                assert(s.take(i as int + 1).drop_last() =~= s.take(i as int));
                assert(s.take(i as int + 1).last() == s[i as int]);
                assert(s[i as int] == (self.entries@[i as int].0@, self.entries@[i as int].1));
            }
            if add_ts > remove_ts {
                let m = crate::resp::dup_bytes(&self.entries[i].0);
                out.push(m);
                proof {
                    assert(out@.map_values(|b: Vec<u8>| b@) =~= live_list(s.take(i as int + 1)));
                }
            } else {
                proof {
                    assert(out@.map_values(|b: Vec<u8>| b@) =~= live_list(s.take(i as int + 1)));
                }
            }
            i = i + 1;
        }
        proof {
            assert(s.take(i as int) =~= s);
        }
        out
    }

    /// Every member, live or tombstoned, in representation order.
    pub fn iter_all(&self) -> (r: Vec<Vec<u8>>)
        ensures
            r@.map_values(|b: Vec<u8>| b@) == key_list(self.entries_seq()),
    {
        let ghost s = self.entries_seq();
        let mut out: Vec<Vec<u8>> = Vec::new();
        let mut i: usize = 0;
        while i < self.entries.len()
            invariant
                s == self.entries_seq(),
                0 <= i <= self.entries@.len(),
                s.len() == self.entries@.len(),
                out@.len() == i,
                forall|j: int| 0 <= j < i ==> out@.map_values(|b: Vec<u8>| b@)[j] == s[j].0,
            decreases self.entries@.len() - i,
        {
            let m = crate::resp::dup_bytes(&self.entries[i].0);
            out.push(m);
            i = i + 1;
        }
        proof {
            assert(out@.map_values(|b: Vec<u8>| b@) =~= key_list(s));
        }
        out
    }

    /// Raises every member's `remove_ts` to at least `uuid`, live or not.
    pub fn remove_all(&mut self, uuid: u64)
        requires
            old(self).wf(),
        ensures
            final(self).wf(),
            final(self)@ == old(self)@.map_values(
                |ts: (u64, u64)| (ts.0, max64(ts.1, uuid)),
            ),
    {
        let ghost orig = self.entries_seq();
        let mut i: usize = 0;
        while i < self.entries.len()
            invariant
                self.entries@.len() == orig.len(),
                self.entries_seq().len() == orig.len(),
                0 <= i <= orig.len(),
                forall|j: int|
                    i <= j < orig.len() ==> (#[trigger] self.entries_seq()[j]) == orig[j],
                forall|j: int|
                    0 <= j < i ==> (#[trigger] self.entries_seq()[j]) == (
                        orig[j].0,
                        (orig[j].1.0, max64(orig[j].1.1, uuid)),
                    ),
            decreases orig.len() - i,
        {
            let ghost before = self.entries_seq();
            let (add_ts, remove_ts) = self.entries[i].1;
            let member_copy = crate::resp::dup_bytes(&self.entries[i].0);
            let nr = max_u64(remove_ts, uuid);
            self.entries[i] = (member_copy, (add_ts, nr));
            proof {
                assert forall|j: int| 0 <= j < orig.len() && j != i implies (
                #[trigger] self.entries_seq()[j]) == before[j] by {
                    assert(self.entries@[j] == old(self).entries@.update(
                        i as int,
                        (self.entries@[i as int].0, (add_ts, nr)),
                    )[j] || true);
                }
                assert(self.entries_seq()[i as int] == (before[i as int].0, (add_ts, nr)));
            }
            i = i + 1;
        }
        proof {
            assert(unique_keys(self.entries_seq())) by {
                assert(forall|j: int|
                    0 <= j < orig.len() ==> (#[trigger] self.entries_seq()[j]).0 == orig[j].0);
            }
            lemma_amap_transform(
                orig,
                self.entries_seq(),
                |ts: (u64, u64)| (ts.0, max64(ts.1, uuid)),
            );
        }
    }

    /// Merges another set in: per member, the maximum of each timestamp.
    pub fn merge(&mut self, other: &LwwSet)
        requires
            old(self).wf(),
            other.wf(),
        ensures
            final(self).wf(),
            final(self)@ == spec_set_merge(old(self)@, other@),
    {
        let ghost a = old(self)@;
        let ghost os = other.entries_seq();
        let mut i: usize = 0;
        proof {
            assert(os.take(0) =~= Seq::<(Seq<u8>, (u64, u64))>::empty());
            assert(self@ =~= spec_set_merge(a, amap(os.take(0))));
        }
        while i < other.entries.len()
            invariant
                self.wf(),
                other.wf(),
                os == other.entries_seq(),
                0 <= i <= other.entries@.len(),
                os.len() == other.entries@.len(),
                self@ == spec_set_merge(a, amap(os.take(i as int))),
            decreases other.entries@.len() - i,
        {
            let (oa, orm) = other.entries[i].1;
            let ghost p = amap(os.take(i as int));
            let ghost k = os[i as int].0;
            proof {
                assert(os[i as int] == (other.entries@[i as int].0@, other.entries@[i as int].1));
                assert(os.take(i as int + 1).drop_last() =~= os.take(i as int));
                assert(os.take(i as int + 1).last() == os[i as int]);
                assert forall|j: int| 0 <= j < i implies (#[trigger] os.take(i as int)[j]).0
                    != k by {
                    assert(os.take(i as int)[j] == os[j]);
                    assert(os[j].0 != os[i as int].0);
                }
                lemma_amap_dom(os.take(i as int), k);
                assert(amap(os.take(i as int + 1)) == p.insert(k, (oa, orm)));
                lemma_amap_dom(self.entries_seq(), k);
            }
            match find_key_bytes(&self.entries, other.entries[i].0.as_slice()) {
                Some(j) => {
                    proof {
                        assert(self.entries_seq()[j as int].0 == k);
                        lemma_amap_index(self.entries_seq(), j as int);
                    }
                    let (sa, srm) = self.entries[j].1;
                    let na = max_u64(sa, oa);
                    let nr = max_u64(srm, orm);
                    let ghost before = self.entries_seq();
                    proof {
                        lemma_amap_update(before, j as int, (na, nr));
                    }
                    let member_copy = crate::resp::dup_bytes(&self.entries[j].0);
                    self.entries[j] = (member_copy, (na, nr));
                    proof {
                        assert(self.entries_seq() =~= before.update(j as int, (k, (na, nr))));
                        assert(self@ =~= spec_set_merge(a, p.insert(k, (oa, orm))));
                    }
                }
                None => {
                    proof {
                        assert(forall|j: int|
                            0 <= j < self.entries_seq().len() ==> (
                            #[trigger] self.entries_seq()[j]).0 != k);
                        lemma_amap_push(self.entries_seq(), k, (oa, orm));
                    }
                    let ghost before = self.entries_seq();
                    let member_copy = crate::resp::dup_bytes(&other.entries[i].0);
                    self.entries.push((member_copy, (oa, orm)));
                    proof {
                        assert(self.entries_seq() =~= before.push((k, (oa, orm))));
                        assert(self@ =~= spec_set_merge(a, p.insert(k, (oa, orm))));
                    }
                }
            }
            i = i + 1;
        }
        proof {
            assert(os.take(i as int) =~= os);
        }
    }
}

/// Merging a set with itself changes nothing.
pub proof fn lemma_set_merge_idempotent(a: Map<Seq<u8>, (u64, u64)>)
    ensures
        spec_set_merge(a, a) == a,
{
    assert(spec_set_merge(a, a) =~= a);
}

/// Set merge is commutative.
pub proof fn lemma_set_merge_commutative(a: Map<Seq<u8>, (u64, u64)>, b: Map<Seq<u8>, (u64, u64)>)
    ensures
        spec_set_merge(a, b) == spec_set_merge(b, a),
{
    assert(spec_set_merge(a, b) =~= spec_set_merge(b, a));
}

/// Set merge is associative.
pub proof fn lemma_set_merge_associative(
    a: Map<Seq<u8>, (u64, u64)>,
    b: Map<Seq<u8>, (u64, u64)>,
    c: Map<Seq<u8>, (u64, u64)>,
)
    ensures
        spec_set_merge(spec_set_merge(a, b), c) == spec_set_merge(a, spec_set_merge(b, c)),
{
    assert(spec_set_merge(spec_set_merge(a, b), c) =~= spec_set_merge(a, spec_set_merge(b, c)));
}

/// The mathematical image of the dictionary's representation.
pub open spec fn dict_assoc(s: Seq<(Vec<u8>, (Vec<u8>, u64, u64))>) -> Seq<
    (Seq<u8>, (Seq<u8>, u64, u64)),
> {
    s.map_values(|p: (Vec<u8>, (Vec<u8>, u64, u64))| (p.0@, (p.1.0@, p.1.1, p.1.2)))
}

/// The record held for a field: `(value, add_ts, remove_ts)`, an empty value
/// with zero timestamps when the field was never seen.
pub open spec fn dict_ts(m: Map<Seq<u8>, (Seq<u8>, u64, u64)>, k: Seq<u8>) -> (Seq<u8>, u64, u64) {
    if m.contains_key(k) {
        m[k]
    } else {
        (Seq::<u8>::empty(), 0u64, 0u64)
    }
}

/// One field write: adopt the value at `uuid` when `uuid` is newer than the
/// recorded `add_ts`.
pub open spec fn spec_dict_set(
    m: Map<Seq<u8>, (Seq<u8>, u64, u64)>,
    k: Seq<u8>,
    v: Seq<u8>,
    uuid: u64,
) -> Map<Seq<u8>, (Seq<u8>, u64, u64)> {
    let cur = dict_ts(m, k);
    if uuid > cur.1 {
        m.insert(k, (v, uuid, cur.2))
    } else {
        m
    }
}

/// One field removal: raise the field's `remove_ts` to at least `uuid`.
pub open spec fn spec_dict_del(m: Map<Seq<u8>, (Seq<u8>, u64, u64)>, k: Seq<u8>, uuid: u64) -> Map<
    Seq<u8>,
    (Seq<u8>, u64, u64),
> {
    let cur = dict_ts(m, k);
    m.insert(k, (cur.0, cur.1, max64(cur.2, uuid)))
}

/// Field writes, applied first to last.
pub open spec fn spec_dict_set_all(
    m: Map<Seq<u8>, (Seq<u8>, u64, u64)>,
    ps: Seq<(Seq<u8>, Seq<u8>)>,
    uuid: u64,
) -> Map<Seq<u8>, (Seq<u8>, u64, u64)>
    decreases ps.len(),
{
    if ps.len() == 0 {
        m
    } else {
        spec_dict_set(spec_dict_set_all(m, ps.drop_last(), uuid), ps.last().0, ps.last().1, uuid)
    }
}

/// Field removals, applied first to last.
pub open spec fn spec_dict_del_all(
    m: Map<Seq<u8>, (Seq<u8>, u64, u64)>,
    ks: Seq<Seq<u8>>,
    uuid: u64,
) -> Map<Seq<u8>, (Seq<u8>, u64, u64)>
    decreases ks.len(),
{
    if ks.len() == 0 {
        m
    } else {
        spec_dict_del(spec_dict_del_all(m, ks.drop_last(), uuid), ks.last(), uuid)
    }
}

/// The merge of two dictionary maps: per field, the value of the larger
/// `add_ts` (the left on a tie) and the maximum `remove_ts`.
pub open spec fn spec_dict_merge(
    a: Map<Seq<u8>, (Seq<u8>, u64, u64)>,
    b: Map<Seq<u8>, (Seq<u8>, u64, u64)>,
) -> Map<Seq<u8>, (Seq<u8>, u64, u64)> {
    Map::new(
        |k: Seq<u8>| a.contains_key(k) || b.contains_key(k),
        |k: Seq<u8>|
            {
                let x = dict_ts(a, k);
                let y = dict_ts(b, k);
                if y.1 > x.1 {
                    (y.0, y.1, max64(x.2, y.2))
                } else {
                    (x.0, x.1, max64(x.2, y.2))
                }
            },
    )
}

/// A field is visible when its write out-times its removal.
pub open spec fn dict_live(ts: (Seq<u8>, u64, u64)) -> bool {
    ts.1 > ts.2
}

/// The visible `(field, value)` pairs of a representation, in order.
pub open spec fn dict_live_list(s: Seq<(Seq<u8>, (Seq<u8>, u64, u64))>) -> Seq<(Seq<u8>, Seq<u8>)>
    decreases s.len(),
{
    if s.len() == 0 {
        Seq::empty()
    } else if dict_live(s.last().1) {
        dict_live_list(s.drop_last()).push((s.last().0, s.last().1.0))
    } else {
        dict_live_list(s.drop_last())
    }
}

/// The last-writer-wins field dictionary.
pub struct Dict {
    pub entries: Vec<(Vec<u8>, (Vec<u8>, u64, u64))>,
}

impl Dict {
    /// The representation as a mathematical sequence.
    pub open spec fn entries_seq(&self) -> Seq<(Seq<u8>, (Seq<u8>, u64, u64))> {
        dict_assoc(self.entries@)
    }

    /// Structural soundness: no field appears twice, and a field that was
    /// only ever tombstoned (written at time zero) holds the empty value.
    pub open spec fn wf(&self) -> bool {
        &&& unique_keys(self.entries_seq())
        &&& forall|i: int|
            0 <= i < self.entries_seq().len() && (#[trigger] self.entries_seq()[i]).1.1 == 0
                ==> self.entries_seq()[i].1.0 == Seq::<u8>::empty()
    }

    /// The dictionary as a map from field to `(value, add_ts, remove_ts)`.
    pub open spec fn view(&self) -> Map<Seq<u8>, (Seq<u8>, u64, u64)> {
        amap(self.entries_seq())
    }

    /// The empty dictionary.
    pub fn new() -> (d: Dict)
        ensures
            d.wf(),
            d@ == Map::<Seq<u8>, (Seq<u8>, u64, u64)>::empty(),
            d.entries_seq() == Seq::<(Seq<u8>, (Seq<u8>, u64, u64))>::empty(),
    {
        let d = Dict { entries: Vec::new() };
        proof {
            assert(d.entries_seq() =~= Seq::<(Seq<u8>, (Seq<u8>, u64, u64))>::empty());
        }
        d
    }

    /// Writes one field when `uuid` is newer than its recorded `add_ts`.
    pub fn set_field(&mut self, field: &[u8], value: &[u8], uuid: u64)
        requires
            old(self).wf(),
        ensures
            final(self).wf(),
            final(self)@ == spec_dict_set(old(self)@, field@, value@, uuid),
    {
        proof {
            lemma_amap_dom(self.entries_seq(), field@);
        }
        match find_key_bytes(&self.entries, field) {
            Some(i) => {
                proof {
                    assert(self.entries_seq()[i as int].0 == field@);
                    lemma_amap_index(self.entries_seq(), i as int);
                }
                let add_ts = self.entries[i].1.1;
                let remove_ts = self.entries[i].1.2;
                proof {
                    assert(self.entries_seq()[i as int].1 == (
                        self.entries@[i as int].1.0@,
                        add_ts,
                        remove_ts,
                    ));
                    assert(dict_ts(self@, field@).1 == add_ts);
                }
                if uuid > add_ts {
                    let ghost before = self.entries_seq();
                    proof {
                        lemma_amap_update(before, i as int, (value@, uuid, remove_ts));
                    }
                    let field_copy = crate::resp::dup_bytes(&self.entries[i].0);
                    let mut owned: Vec<u8> = Vec::new();
                    owned.extend_from_slice(value);
                    proof {
                        assert(owned@ =~= value@);
                    }
                    self.entries[i] = (field_copy, (owned, uuid, remove_ts));
                    proof {
                        assert(self.entries_seq() =~= before.update(
                            i as int,
                            (field@, (value@, uuid, remove_ts)),
                        ));
                    }
                }
            }
            None => {
                // an absent field counts as written at time zero, so only a
                // positive uuid takes effect
                if uuid > 0 {
                    proof {
                        assert(forall|j: int|
                            0 <= j < self.entries_seq().len() ==> (
                            #[trigger] self.entries_seq()[j]).0 != field@);
                        lemma_amap_push(self.entries_seq(), field@, (value@, uuid, 0u64));
                    }
                    let ghost before = self.entries_seq();
                    let mut fo: Vec<u8> = Vec::new();
                    fo.extend_from_slice(field);
                    let mut vo: Vec<u8> = Vec::new();
                    vo.extend_from_slice(value);
                    proof {
                        assert(fo@ =~= field@);
                        assert(vo@ =~= value@);
                    }
                    self.entries.push((fo, (vo, uuid, 0)));
                    proof {
                        assert(self.entries_seq() =~= before.push(
                            (field@, (value@, uuid, 0u64)),
                        ));
                    }
                }
            }
        }
    }

    /// Raises one field's `remove_ts` to at least `uuid`.
    pub fn del_field(&mut self, field: &[u8], uuid: u64)
        requires
            old(self).wf(),
        ensures
            final(self).wf(),
            final(self)@ == spec_dict_del(old(self)@, field@, uuid),
    {
        proof {
            lemma_amap_dom(self.entries_seq(), field@);
        }
        match find_key_bytes(&self.entries, field) {
            Some(i) => {
                proof {
                    assert(self.entries_seq()[i as int].0 == field@);
                    lemma_amap_index(self.entries_seq(), i as int);
                }
                let add_ts = self.entries[i].1.1;
                let remove_ts = self.entries[i].1.2;
                let nr = max_u64(remove_ts, uuid);
                let ghost before = self.entries_seq();
                let value_copy = crate::resp::dup_bytes(&self.entries[i].1.0);
                proof {
                    lemma_amap_update(before, i as int, (value_copy@, add_ts, nr));
                }
                let field_copy = crate::resp::dup_bytes(&self.entries[i].0);
                self.entries[i] = (field_copy, (value_copy, add_ts, nr));
                proof {
                    assert(self.entries_seq() =~= before.update(
                        i as int,
                        (field@, (before[i as int].1.0, add_ts, nr)),
                    ));
                }
            }
            None => {
                proof {
                    assert(forall|j: int|
                        0 <= j < self.entries_seq().len() ==> (#[trigger] self.entries_seq()[j]).0
                            != field@);
                    lemma_amap_push(
                        self.entries_seq(),
                        field@,
                        (Seq::<u8>::empty(), 0u64, uuid),
                    );
                }
                let ghost before = self.entries_seq();
                let mut fo: Vec<u8> = Vec::new();
                fo.extend_from_slice(field);
                proof {
                    assert(fo@ =~= field@);
                }
                let vo: Vec<u8> = Vec::new();
                proof {
                    assert(vo@ =~= Seq::<u8>::empty());
                }
                self.entries.push((fo, (vo, 0, uuid)));
                proof {
                    assert(self.entries_seq() =~= before.push(
                        (field@, (Seq::<u8>::empty(), 0u64, uuid)),
                    ));
                }
            }
        }
    }

    /// Writes each listed `(field, value)` pair at `uuid`.
    pub fn set_fields(&mut self, pairs: &Vec<(Vec<u8>, Vec<u8>)>, uuid: u64)
        requires
            old(self).wf(),
        ensures
            final(self).wf(),
            final(self)@ == spec_dict_set_all(
                old(self)@,
                pairs@.map_values(|p: (Vec<u8>, Vec<u8>)| (p.0@, p.1@)),
                uuid,
            ),
    {
        let ghost m0 = self@;
        let ghost ps = pairs@.map_values(|p: (Vec<u8>, Vec<u8>)| (p.0@, p.1@));
        let mut i: usize = 0;
        proof {
            assert(ps.take(0) =~= Seq::<(Seq<u8>, Seq<u8>)>::empty());
        }
        while i < pairs.len()
            invariant
                self.wf(),
                0 <= i <= pairs@.len(),
                ps == pairs@.map_values(|p: (Vec<u8>, Vec<u8>)| (p.0@, p.1@)),
                self@ == spec_dict_set_all(m0, ps.take(i as int), uuid),
            decreases pairs@.len() - i,
        {
            self.set_field(pairs[i].0.as_slice(), pairs[i].1.as_slice(), uuid);
            proof {
                assert(ps.take(i as int + 1).drop_last() =~= ps.take(i as int));
                assert(ps.take(i as int + 1).last() == ps[i as int]);
            }
            i = i + 1;
        }
        proof {
            assert(ps.take(i as int) =~= ps);
        }
    }

    /// Raises each listed field's `remove_ts` to at least `uuid`.
    pub fn del_fields(&mut self, fields: &Vec<Vec<u8>>, uuid: u64)
        requires
            old(self).wf(),
        ensures
            final(self).wf(),
            final(self)@ == spec_dict_del_all(
                old(self)@,
                fields@.map_values(|b: Vec<u8>| b@),
                uuid,
            ),
    {
        let ghost m0 = self@;
        let ghost ks = fields@.map_values(|b: Vec<u8>| b@);
        let mut i: usize = 0;
        proof {
            assert(ks.take(0) =~= Seq::<Seq<u8>>::empty());
        }
        while i < fields.len()
            invariant
                self.wf(),
                0 <= i <= fields@.len(),
                ks == fields@.map_values(|b: Vec<u8>| b@),
                self@ == spec_dict_del_all(m0, ks.take(i as int), uuid),
            decreases fields@.len() - i,
        {
            self.del_field(fields[i].as_slice(), uuid);
            proof {
                assert(ks.take(i as int + 1).drop_last() =~= ks.take(i as int));
                assert(ks.take(i as int + 1).last() == ks[i as int]);
            }
            i = i + 1;
        }
        proof {
            assert(ks.take(i as int) =~= ks);
        }
    }

    /// The value of a visible field.
    pub fn get_field(&self, field: &[u8]) -> (r: Option<Vec<u8>>)
        requires
            self.wf(),
        ensures
            match r {
                Some(v) => self@.contains_key(field@) && dict_live(self@[field@]) && v@
                    == self@[field@].0,
                None => !self@.contains_key(field@) || !dict_live(self@[field@]),
            },
    {
        proof {
            lemma_amap_dom(self.entries_seq(), field@);
        }
        match find_key_bytes(&self.entries, field) {
            Some(i) => {
                proof {
                    assert(self.entries_seq()[i as int].0 == field@);
                    lemma_amap_index(self.entries_seq(), i as int);
                }
                let add_ts = self.entries[i].1.1;
                let remove_ts = self.entries[i].1.2;
                if add_ts > remove_ts {
                    Some(crate::resp::dup_bytes(&self.entries[i].1.0))
                } else {
                    None
                }
            }
            None => None,
        }
    }

    /// The visible `(field, value)` pairs, in representation order.
    pub fn iter_live(&self) -> (r: Vec<(Vec<u8>, Vec<u8>)>)
        requires
            self.wf(),
        ensures
            r@.map_values(|p: (Vec<u8>, Vec<u8>)| (p.0@, p.1@)) == dict_live_list(
                self.entries_seq(),
            ),
    {
        let ghost s = self.entries_seq();
        let mut out: Vec<(Vec<u8>, Vec<u8>)> = Vec::new();
        let mut i: usize = 0;
        proof {
            assert(s.take(0) =~= Seq::<(Seq<u8>, (Seq<u8>, u64, u64))>::empty());
            assert(out@.map_values(|p: (Vec<u8>, Vec<u8>)| (p.0@, p.1@)) =~= dict_live_list(
                s.take(0),
            ));
        }
        while i < self.entries.len()
            invariant
                self.wf(),
                s == self.entries_seq(),
                0 <= i <= self.entries@.len(),
                s.len() == self.entries@.len(),
                out@.map_values(|p: (Vec<u8>, Vec<u8>)| (p.0@, p.1@)) == dict_live_list(
                    s.take(i as int),
                ),
            decreases self.entries@.len() - i,
        {
            let add_ts = self.entries[i].1.1;
            let remove_ts = self.entries[i].1.2;
            proof {
                assert(s.take(i as int + 1).drop_last() =~= s.take(i as int));
                assert(s.take(i as int + 1).last() == s[i as int]);
                assert(s[i as int] == (
                    self.entries@[i as int].0@,
                    (
                        self.entries@[i as int].1.0@,
                        self.entries@[i as int].1.1,
                        self.entries@[i as int].1.2,
                    ),
                ));
            }
            if add_ts > remove_ts {
                let f = crate::resp::dup_bytes(&self.entries[i].0);
                let v = crate::resp::dup_bytes(&self.entries[i].1.0);
                out.push((f, v));
                proof {
                    assert(out@.map_values(|p: (Vec<u8>, Vec<u8>)| (p.0@, p.1@)) =~= dict_live_list(
                        s.take(i as int + 1),
                    ));
                }
            } else {
                proof {
                    assert(out@.map_values(|p: (Vec<u8>, Vec<u8>)| (p.0@, p.1@)) =~= dict_live_list(
                        s.take(i as int + 1),
                    ));
                }
            }
            i = i + 1;
        }
        proof {
            assert(s.take(i as int) =~= s);
        }
        out
    }

    /// Every field name, visible or tombstoned, in representation order.
    pub fn iter_all(&self) -> (r: Vec<Vec<u8>>)
        ensures
            r@.map_values(|b: Vec<u8>| b@) == key_list(self.entries_seq()),
    {
        let ghost s = self.entries_seq();
        let mut out: Vec<Vec<u8>> = Vec::new();
        let mut i: usize = 0;
        while i < self.entries.len()
            invariant
                s == self.entries_seq(),
                0 <= i <= self.entries@.len(),
                s.len() == self.entries@.len(),
                out@.len() == i,
                forall|j: int| 0 <= j < i ==> out@.map_values(|b: Vec<u8>| b@)[j] == s[j].0,
            decreases self.entries@.len() - i,
        {
            let m = crate::resp::dup_bytes(&self.entries[i].0);
            out.push(m);
            i = i + 1;
        }
        proof {
            assert(out@.map_values(|b: Vec<u8>| b@) =~= key_list(s));
        }
        out
    }

    /// Raises every field's `remove_ts` to at least `uuid`, visible or not.
    pub fn del_all(&mut self, uuid: u64)
        requires
            old(self).wf(),
        ensures
            final(self).wf(),
            final(self)@ == old(self)@.map_values(
                |ts: (Seq<u8>, u64, u64)| (ts.0, ts.1, max64(ts.2, uuid)),
            ),
    {
        let ghost orig = self.entries_seq();
        let mut i: usize = 0;
        while i < self.entries.len()
            invariant
                self.entries@.len() == orig.len(),
                self.entries_seq().len() == orig.len(),
                0 <= i <= orig.len(),
                forall|j: int|
                    i <= j < orig.len() ==> (#[trigger] self.entries_seq()[j]) == orig[j],
                forall|j: int|
                    0 <= j < i ==> (#[trigger] self.entries_seq()[j]) == (
                        orig[j].0,
                        (orig[j].1.0, orig[j].1.1, max64(orig[j].1.2, uuid)),
                    ),
            decreases orig.len() - i,
        {
            let ghost before = self.entries_seq();
            let add_ts = self.entries[i].1.1;
            let remove_ts = self.entries[i].1.2;
            let field_copy = crate::resp::dup_bytes(&self.entries[i].0);
            let value_copy = crate::resp::dup_bytes(&self.entries[i].1.0);
            let nr = max_u64(remove_ts, uuid);
            self.entries[i] = (field_copy, (value_copy, add_ts, nr));
            proof {
                assert(forall|j: int|
                    0 <= j < orig.len() && j != i ==> (#[trigger] self.entries_seq()[j])
                        == before[j]);
                assert(self.entries_seq()[i as int] == (
                    before[i as int].0,
                    (before[i as int].1.0, add_ts, nr),
                ));
            }
            i = i + 1;
        }
        proof {
            assert(unique_keys(self.entries_seq())) by {
                assert(forall|j: int|
                    0 <= j < orig.len() ==> (#[trigger] self.entries_seq()[j]).0 == orig[j].0);
            }
            lemma_amap_transform(
                orig,
                self.entries_seq(),
                |ts: (Seq<u8>, u64, u64)| (ts.0, ts.1, max64(ts.2, uuid)),
            );
        }
    }

    /// Merges another dictionary in: per field, the value of the larger
    /// `add_ts` and the maximum `remove_ts`.
    pub fn merge(&mut self, other: &Dict)
        requires
            old(self).wf(),
            other.wf(),
        ensures
            final(self).wf(),
            final(self)@ == spec_dict_merge(old(self)@, other@),
    {
        let ghost a = old(self)@;
        let ghost os = other.entries_seq();
        let mut i: usize = 0;
        proof {
            assert(os.take(0) =~= Seq::<(Seq<u8>, (Seq<u8>, u64, u64))>::empty());
            assert(self@ =~= spec_dict_merge(a, amap(os.take(0))));
        }
        while i < other.entries.len()
            invariant
                self.wf(),
                other.wf(),
                os == other.entries_seq(),
                0 <= i <= other.entries@.len(),
                os.len() == other.entries@.len(),
                self@ == spec_dict_merge(a, amap(os.take(i as int))),
            decreases other.entries@.len() - i,
        {
            let ghost p = amap(os.take(i as int));
            let ghost k = os[i as int].0;
            let ghost ov = os[i as int].1;
            proof {
                assert(os[i as int] == (
                    other.entries@[i as int].0@,
                    (
                        other.entries@[i as int].1.0@,
                        other.entries@[i as int].1.1,
                        other.entries@[i as int].1.2,
                    ),
                ));
                assert(os.take(i as int + 1).drop_last() =~= os.take(i as int));
                assert(os.take(i as int + 1).last() == os[i as int]);
                assert forall|j: int| 0 <= j < i implies (#[trigger] os.take(i as int)[j]).0
                    != k by {
                    assert(os.take(i as int)[j] == os[j]);
                    assert(os[j].0 != os[i as int].0);
                }
                lemma_amap_dom(os.take(i as int), k);
                assert(amap(os.take(i as int + 1)) == p.insert(k, ov));
                lemma_amap_dom(self.entries_seq(), k);
            }
            let o_add = other.entries[i].1.1;
            let o_rem = other.entries[i].1.2;
            match find_key_bytes(&self.entries, other.entries[i].0.as_slice()) {
                Some(j) => {
                    proof {
                        assert(self.entries_seq()[j as int].0 == k);
                        lemma_amap_index(self.entries_seq(), j as int);
                    }
                    let s_add = self.entries[j].1.1;
                    let s_rem = self.entries[j].1.2;
                    proof {
                        assert(self.entries_seq()[j as int].1 == (
                            self.entries@[j as int].1.0@,
                            s_add,
                            s_rem,
                        ));
                        assert(self@[k] == (self.entries@[j as int].1.0@, s_add, s_rem));
                        assert(spec_dict_merge(a, p).contains_key(k));
                        assert(!p.contains_key(k));
                        assert(a.contains_key(k));
                        assert(self@[k] == (
                            dict_ts(a, k).0,
                            dict_ts(a, k).1,
                            max64(dict_ts(a, k).2, 0u64),
                        ));
                        assert(self@[k] == dict_ts(a, k));
                    }
                    let nr = max_u64(s_rem, o_rem);
                    let ghost before = self.entries_seq();
                    let field_copy = crate::resp::dup_bytes(&self.entries[j].0);
                    if o_add > s_add {
                        let value_copy = crate::resp::dup_bytes(&other.entries[i].1.0);
                        proof {
                            lemma_amap_update(before, j as int, (value_copy@, o_add, nr));
                        }
                        self.entries[j] = (field_copy, (value_copy, o_add, nr));
                        proof {
                            assert(self.entries_seq() =~= before.update(
                                j as int,
                                (k, (ov.0, o_add, nr)),
                            ));
                        }
                    } else {
                        let value_copy = crate::resp::dup_bytes(&self.entries[j].1.0);
                        proof {
                            lemma_amap_update(before, j as int, (value_copy@, s_add, nr));
                        }
                        self.entries[j] = (field_copy, (value_copy, s_add, nr));
                        proof {
                            assert(self.entries_seq() =~= before.update(
                                j as int,
                                (k, (before[j as int].1.0, s_add, nr)),
                            ));
                        }
                    }
                    proof {
                        let pre = amap(before);
                        let target = spec_dict_merge(a, p.insert(k, ov));
                        let nv: (Seq<u8>, u64, u64) = if o_add > s_add {
                            (ov.0, o_add, nr)
                        } else {
                            (pre[k].0, s_add, nr)
                        };
                        assert(self@ == pre.insert(k, nv));
                        assert(dict_ts(p.insert(k, ov), k) == ov);
                        assert(target[k] == nv);
                        assert forall|l: Seq<u8>| #[trigger] target.contains_key(l) && l != k
                            implies target[l] == spec_dict_merge(a, p)[l] by {
                            assert(dict_ts(p.insert(k, ov), l) == dict_ts(p, l));
                        }
                        assert(self@ =~= target);
                    }
                }
                None => {
                    proof {
                        assert(forall|j: int|
                            0 <= j < self.entries_seq().len() ==> (
                            #[trigger] self.entries_seq()[j]).0 != k);
                        lemma_amap_push(self.entries_seq(), k, ov);
                    }
                    let ghost before = self.entries_seq();
                    let field_copy = crate::resp::dup_bytes(&other.entries[i].0);
                    let value_copy = crate::resp::dup_bytes(&other.entries[i].1.0);
                    self.entries.push((field_copy, (value_copy, o_add, o_rem)));
                    proof {
                        assert(self.entries_seq() =~= before.push((k, ov)));
                        assert(self@ =~= spec_dict_merge(a, p.insert(k, ov)));
                    }
                }
            }
            i = i + 1;
        }
        proof {
            assert(os.take(i as int) =~= os);
        }
    }
}

/// Merging a dictionary with itself changes nothing.
pub proof fn lemma_dict_merge_idempotent(a: Map<Seq<u8>, (Seq<u8>, u64, u64)>)
    ensures
        spec_dict_merge(a, a) == a,
{
    assert(spec_dict_merge(a, a) =~= a);
}

/// Dictionary maps agree on shared `add_ts` stamps when every write was
/// tagged by a unique uuid: that is what makes merge commutative.
pub open spec fn dict_compat(
    a: Map<Seq<u8>, (Seq<u8>, u64, u64)>,
    b: Map<Seq<u8>, (Seq<u8>, u64, u64)>,
) -> bool {
    forall|k: Seq<u8>|
        (#[trigger] dict_ts(a, k)).1 == (#[trigger] dict_ts(b, k)).1 ==> dict_ts(a, k).0
            == dict_ts(b, k).0
}

/// Dictionary merge is commutative on compatible maps.
pub proof fn lemma_dict_merge_commutative(
    a: Map<Seq<u8>, (Seq<u8>, u64, u64)>,
    b: Map<Seq<u8>, (Seq<u8>, u64, u64)>,
)
    requires
        dict_compat(a, b),
    ensures
        spec_dict_merge(a, b) == spec_dict_merge(b, a),
{
    assert forall|k: Seq<u8>|
        spec_dict_merge(a, b).contains_key(k) implies #[trigger] spec_dict_merge(a, b)[k]
        == spec_dict_merge(b, a)[k] by {
        assert(dict_ts(a, k).1 == dict_ts(b, k).1 ==> dict_ts(a, k).0 == dict_ts(b, k).0);
    }
    assert(spec_dict_merge(a, b) =~= spec_dict_merge(b, a));
}

/// Dictionary merge is associative.
pub proof fn lemma_dict_merge_associative(
    a: Map<Seq<u8>, (Seq<u8>, u64, u64)>,
    b: Map<Seq<u8>, (Seq<u8>, u64, u64)>,
    c: Map<Seq<u8>, (Seq<u8>, u64, u64)>,
)
    ensures
        spec_dict_merge(spec_dict_merge(a, b), c) == spec_dict_merge(a, spec_dict_merge(b, c)),
{
    assert(spec_dict_merge(spec_dict_merge(a, b), c) =~= spec_dict_merge(
        a,
        spec_dict_merge(b, c),
    ));
}

} // verus!
