//! Association sequences and the maps they denote.
//!
//! The store keeps each of its mappings (counter entries, set members,
//! dictionary fields, keys, replicas) as a vector of pairs with pairwise
//! distinct keys.  Contracts speak of the denoted `Map`; the lemmas here
//! connect vector edits to map operations.

use vstd::prelude::*;

verus! {

/// The map an association sequence denotes; later entries shadow earlier
/// ones, though the store only ever builds sequences with distinct keys.
pub open spec fn amap<K, V>(s: Seq<(K, V)>) -> Map<K, V>
    decreases s.len(),
{
    if s.len() == 0 {
        Map::empty()
    } else {
        amap(s.drop_last()).insert(s.last().0, s.last().1)
    }
}

/// No two entries share a key.
pub open spec fn unique_keys<K, V>(s: Seq<(K, V)>) -> bool {
    forall|i: int, j: int| 0 <= i < j < s.len() ==> (#[trigger] s[i]).0 != (#[trigger] s[j]).0
}

/// A key is in the denoted map exactly when some entry carries it.
pub proof fn lemma_amap_dom<K, V>(s: Seq<(K, V)>, k: K)
    ensures
        amap(s).contains_key(k) <==> exists|i: int| 0 <= i < s.len() && (#[trigger] s[i]).0 == k,
    decreases s.len(),
{
    if s.len() > 0 {
        lemma_amap_dom(s.drop_last(), k);
        if s.last().0 == k {
            assert(s[s.len() - 1].0 == k);
        } else if amap(s).contains_key(k) {
            let i = choose|i: int| 0 <= i < s.len() - 1 && (#[trigger] s.drop_last()[i]).0 == k;
            assert(s[i].0 == k);
        } else {
            assert forall|i: int| 0 <= i < s.len() implies (#[trigger] s[i]).0 != k by {
                if i < s.len() - 1 {
                    assert(s.drop_last()[i] == s[i]);
                }
            }
        }
    }
}

/// With distinct keys, the entry at `i` gives the map's value at its key.
pub proof fn lemma_amap_index<K, V>(s: Seq<(K, V)>, i: int)
    requires
        unique_keys(s),
        0 <= i < s.len(),
    ensures
        amap(s).contains_key(s[i].0),
        amap(s)[s[i].0] == s[i].1,
    decreases s.len(),
{
    lemma_amap_dom(s, s[i].0);
    if i < s.len() - 1 {
        assert(s[s.len() - 1].0 != s[i].0);
        assert(s.drop_last()[i] == s[i]);
        assert(unique_keys(s.drop_last())) by {
            assert(forall|a: int, b: int|
                0 <= a < b < s.len() - 1 ==> (#[trigger] s.drop_last()[a]).0
                    != (#[trigger] s.drop_last()[b]).0);
        }
        lemma_amap_index(s.drop_last(), i);
    }
}

/// Dropping the last entry keeps the keys distinct.
pub proof fn lemma_unique_drop_last<K, V>(s: Seq<(K, V)>)
    requires
        unique_keys(s),
        s.len() > 0,
    ensures
        unique_keys(s.drop_last()),
{
    assert(forall|a: int, b: int|
        0 <= a < b < s.len() - 1 ==> (#[trigger] s.drop_last()[a]).0
            != (#[trigger] s.drop_last()[b]).0);
}

/// Updating the entry at `i` in place, keeping its key, updates the map.
pub proof fn lemma_amap_update<K, V>(s: Seq<(K, V)>, i: int, v: V)
    requires
        unique_keys(s),
        0 <= i < s.len(),
    ensures
        amap(s.update(i, (s[i].0, v))) == amap(s).insert(s[i].0, v),
        unique_keys(s.update(i, (s[i].0, v))),
    decreases s.len(),
{
    let k = s[i].0;
    let t = s.update(i, (k, v));
    assert(forall|a: int| 0 <= a < s.len() && a != i ==> t[a] == s[a]);
    assert(unique_keys(t));
    if i == s.len() - 1 {
        assert(t.drop_last() =~= s.drop_last());
        assert(amap(t) == amap(s.drop_last()).insert(k, v));
        assert(amap(s) == amap(s.drop_last()).insert(k, s[i].1));
        assert(amap(s.drop_last()).insert(k, v) =~= amap(s).insert(k, v));
    } else {
        lemma_unique_drop_last(s);
        assert(t.drop_last() =~= s.drop_last().update(i, (k, v)));
        assert(s.drop_last()[i] == s[i]);
        lemma_amap_update(s.drop_last(), i, v);
        let lk = s.last().0;
        let lv = s.last().1;
        assert(t.last() == s.last());
        assert(amap(t) == amap(s.drop_last()).insert(k, v).insert(lk, lv));
        assert(amap(s) == amap(s.drop_last()).insert(lk, lv));
        assert(lk != k);
        assert(amap(s.drop_last()).insert(k, v).insert(lk, lv) =~= amap(
            s.drop_last(),
        ).insert(lk, lv).insert(k, v));
    }
}

/// Rewriting every entry's value in place rewrites the map's values.
pub proof fn lemma_amap_transform<K, V>(s: Seq<(K, V)>, t: Seq<(K, V)>, f: spec_fn(V) -> V)
    requires
        t.len() == s.len(),
        forall|i: int| 0 <= i < s.len() ==> (#[trigger] t[i]) == ((#[trigger] s[i]).0, f(s[i].1)),
    ensures
        amap(t) == amap(s).map_values(f),
    decreases s.len(),
{
    if s.len() == 0 {
        assert(amap(t) =~= amap(s).map_values(f));
    } else {
        assert(forall|i: int|
            0 <= i < s.len() - 1 ==> (#[trigger] t.drop_last()[i]) == ((
            #[trigger] s.drop_last()[i]).0, f(s.drop_last()[i].1)));
        lemma_amap_transform(s.drop_last(), t.drop_last(), f);
        assert(t.last() == (s.last().0, f(s.last().1)));
        assert(amap(t) == amap(s.drop_last()).map_values(f).insert(s.last().0, f(s.last().1)));
        assert(amap(s.drop_last()).map_values(f).insert(s.last().0, f(s.last().1)) =~= amap(
            s,
        ).map_values(f));
    }
}

/// The map of a concatenation: the right side's entries shadow the left's.
pub proof fn lemma_amap_concat<K, V>(x: Seq<(K, V)>, y: Seq<(K, V)>)
    ensures
        amap(x + y) == amap(x).union_prefer_right(amap(y)),
    decreases y.len(),
{
    if y.len() == 0 {
        assert(x + y =~= x);
        assert(amap(x).union_prefer_right(amap(y)) =~= amap(x));
    } else {
        lemma_amap_concat(x, y.drop_last());
        assert((x + y).drop_last() =~= x + y.drop_last());
        assert((x + y).last() == y.last());
        assert(amap(x).union_prefer_right(amap(y.drop_last())).insert(y.last().0, y.last().1)
            =~= amap(x).union_prefer_right(amap(y)));
    }
}

/// Taking the entry at `i` out removes its key from the map.
pub proof fn lemma_amap_remove<K, V>(s: Seq<(K, V)>, i: int)
    requires
        unique_keys(s),
        0 <= i < s.len(),
    ensures
        amap(s.remove(i)) == amap(s).remove(s[i].0),
        unique_keys(s.remove(i)),
    decreases s.len(),
{
    let k = s[i].0;
    let t = s.remove(i);
    assert(forall|a: int| 0 <= a < i ==> t[a] == s[a]);
    assert(forall|a: int| i <= a < s.len() - 1 ==> t[a] == s[a + 1]);
    assert(unique_keys(t));
    lemma_unique_drop_last(s);
    lemma_amap_dom(s.drop_last(), k);
    if i == s.len() - 1 {
        assert(t =~= s.drop_last());
        assert(!amap(s.drop_last()).contains_key(k)) by {
            assert(forall|a: int| 0 <= a < s.len() - 1 ==> (#[trigger] s.drop_last()[a]).0 != k);
        }
        assert(amap(s) == amap(s.drop_last()).insert(k, s.last().1));
        assert(amap(s).remove(k) =~= amap(s.drop_last()));
    } else {
        assert(s.drop_last()[i] == s[i]);
        lemma_amap_remove(s.drop_last(), i);
        assert(t.drop_last() =~= s.drop_last().remove(i));
        assert(t.last() == s.last());
        assert(amap(t) == amap(s.drop_last()).remove(k).insert(s.last().0, s.last().1));
        assert(s.last().0 != k);
        assert(amap(s).remove(k) =~= amap(s.drop_last()).remove(k).insert(
            s.last().0,
            s.last().1,
        ));
    }
}

/// Finds the entry whose byte key equals `key` in an association vector.
pub fn find_key_bytes<V>(entries: &Vec<(Vec<u8>, V)>, key: &[u8]) -> (r: Option<usize>)
    ensures
        match r {
            Some(i) => 0 <= i < entries@.len() && entries@[i as int].0@ == key@,
            None => forall|i: int| 0 <= i < entries@.len() ==> (#[trigger] entries@[i]).0@ != key@,
        },
{
    let mut i: usize = 0;
    while i < entries.len()
        invariant
            0 <= i <= entries@.len(),
            forall|j: int| 0 <= j < i ==> (#[trigger] entries@[j]).0@ != key@,
        decreases entries@.len() - i,
    {
        if crate::util::slice_eq(entries[i].0.as_slice(), key) {
            return Some(i);
        }
        i = i + 1;
    }
    None
}

/// Appending an entry inserts its pair into the map; a fresh key keeps the
/// keys distinct.
pub proof fn lemma_amap_push<K, V>(s: Seq<(K, V)>, k: K, v: V)
    requires
        unique_keys(s),
        forall|i: int| 0 <= i < s.len() ==> (#[trigger] s[i]).0 != k,
    ensures
        amap(s.push((k, v))) == amap(s).insert(k, v),
        unique_keys(s.push((k, v))),
{
    let t = s.push((k, v));
    assert(t.drop_last() =~= s);
    assert(forall|i: int| 0 <= i < s.len() ==> t[i] == s[i]);
    assert(unique_keys(t));
}

} // verus!
