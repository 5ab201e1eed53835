//! Replay laws: applying one replicated record twice leaves the same state
//! as applying it once.
//!
//! Each lemma covers one record kind, over the transform its handler's
//! contract names.  Popping a set member is the one write this does not
//! hold for: a second replay pops the next live member.

use vstd::prelude::*;
use crate::cmd::{CommandName, dispatch_post, is_write, is_no_replicate, spec_set_result};
use crate::counter::spec_counter_change;
use crate::resp::{Message, MessageV};
use crate::server::{Client, Server};
use crate::CstError;
use crate::lwwhash::{spec_set_add, spec_set_remove, spec_set_add_all, spec_set_remove_all,
    spec_dict_del, spec_dict_set_all, spec_dict_del_all, set_ts, dict_ts};
use crate::object::{ObjectV, EncV, spec_updated};
use crate::type_counter::{spec_counter_change_all, spec_incr_result};
use crate::util::max64;

verus! {

/// The key-wise merge of two whole stores: per key, the object merge where
/// both sides hold the key, and the present object where only one does.  A
/// key whose variants conflict keeps the left side, as a link does when it
/// skips a conflicting record.
pub open spec fn spec_store_merge(
    a: Map<Seq<u8>, ObjectV>,
    b: Map<Seq<u8>, ObjectV>,
) -> Map<Seq<u8>, ObjectV> {
    Map::new(
        |k: Seq<u8>| a.contains_key(k) || b.contains_key(k),
        |k: Seq<u8>|
            if a.contains_key(k) && b.contains_key(k) {
                match crate::object::spec_obj_merge(a[k], b[k]) {
                    Some(m) => m,
                    None => a[k],
                }
            } else if a.contains_key(k) {
                a[k]
            } else {
                b[k]
            },
    )
}

/// Merging a store with itself changes nothing.
pub proof fn lemma_store_merge_idempotent(a: Map<Seq<u8>, ObjectV>)
    ensures
        spec_store_merge(a, a) == a,
{
    assert forall|k: Seq<u8>| a.contains_key(k) implies #[trigger] spec_store_merge(a, a)[k]
        == a[k] by {
        crate::object::lemma_obj_merge_idempotent(a[k]);
    }
    assert(spec_store_merge(a, a) =~= a);
}

/// Two nodes whose stores share no type conflict and agree on shared write
/// timestamps converge to the same store when each merges the other's keys:
/// the heart of eventual consistency.
pub proof fn lemma_store_pairwise_convergence(
    a: Map<Seq<u8>, ObjectV>,
    b: Map<Seq<u8>, ObjectV>,
)
    requires
        forall|k: Seq<u8>|
            a.contains_key(k) && b.contains_key(k) ==> crate::object::spec_obj_merge(
                #[trigger] a[k],
                b[k],
            ) is Some && crate::object::obj_compat(a[k], b[k]),
    ensures
        spec_store_merge(a, b) == spec_store_merge(b, a),
{
    assert forall|k: Seq<u8>|
        spec_store_merge(a, b).contains_key(k) implies #[trigger] spec_store_merge(a, b)[k]
        == spec_store_merge(b, a)[k] by {
        if a.contains_key(k) && b.contains_key(k) {
            crate::object::lemma_obj_merge_commutative(a[k], b[k]);
        }
    }
    assert(spec_store_merge(a, b) =~= spec_store_merge(b, a));
}

/// Raising the update time to `uuid` twice is the same as once.
pub proof fn lemma_updated_idempotent(o: ObjectV, uuid: u64)
    ensures
        spec_updated(spec_updated(o, uuid), uuid) == spec_updated(o, uuid),
{
}

/// Replaying a byte-value write at its own uuid changes nothing more.
pub proof fn lemma_set_replay_idempotent(
    db: Map<Seq<u8>, ObjectV>,
    k: Seq<u8>,
    v: Seq<u8>,
    uuid: u64,
)
    requires
        !(db.contains_key(k) && db[k].ut > uuid),
    ensures
        ({
            let db1 = db.insert(k, spec_set_result(db, k, v, uuid));
            db1.insert(k, spec_set_result(db1, k, v, uuid)) == db1
        }),
{
    let db1 = db.insert(k, spec_set_result(db, k, v, uuid));
    assert(spec_set_result(db1, k, v, uuid) == spec_set_result(db, k, v, uuid));
    assert(db1.insert(k, spec_set_result(db1, k, v, uuid)) =~= db1);
}

/// Advancing a node's counter pair at its own uuid twice is once.
pub proof fn lemma_counter_change_idempotent(
    m: Map<u64, (i64, u64)>,
    node: u64,
    delta: i64,
    uuid: u64,
)
    ensures
        spec_counter_change(spec_counter_change(m, node, delta, uuid), node, delta, uuid)
            == spec_counter_change(m, node, delta, uuid),
{
    let m1 = spec_counter_change(m, node, delta, uuid);
    if m.contains_key(node) && !(uuid > m[node].1) {
    } else {
        assert(m1.contains_key(node) && m1[node].1 == uuid);
    }
}

/// Replaying an increment at its own uuid changes nothing more.
pub proof fn lemma_incr_replay_idempotent(
    db: Map<Seq<u8>, ObjectV>,
    k: Seq<u8>,
    node: u64,
    delta: i64,
    uuid: u64,
)
    requires
        !db.contains_key(k) || db[k].enc is Counter,
    ensures
        ({
            let db1 = db.insert(k, spec_incr_result(db, k, node, delta, uuid));
            db1.insert(k, spec_incr_result(db1, k, node, delta, uuid)) == db1
        }),
{
    let r1 = spec_incr_result(db, k, node, delta, uuid);
    let db1 = db.insert(k, r1);
    lemma_counter_change_idempotent(
        (if db.contains_key(k) {
            db[k]
        } else {
            ObjectV { ct: uuid, ut: 0u64, dt: 0u64, enc: EncV::Counter(Map::empty()) }
        }).enc->Counter_0,
        node,
        delta,
        uuid,
    );
    assert(spec_incr_result(db1, k, node, delta, uuid) == r1);
    assert(db1.insert(k, spec_incr_result(db1, k, node, delta, uuid)) =~= db1);
}

/// Member additions at one uuid leave every listed member's `add_ts` at
/// least that uuid, and change nothing on a map already in that state.
pub proof fn lemma_set_add_all_absorbed(m: Map<Seq<u8>, (u64, u64)>, ks: Seq<Seq<u8>>, uuid: u64)
    requires
        forall|i: int|
            0 <= i < ks.len() ==> m.contains_key(#[trigger] ks[i]) && set_ts(m, ks[i]).0 >= uuid,
    ensures
        spec_set_add_all(m, ks, uuid) == m,
    decreases ks.len(),
{
    if ks.len() > 0 {
        assert(forall|i: int| 0 <= i < ks.len() - 1 ==> ks.drop_last()[i] == ks[i]);
        lemma_set_add_all_absorbed(m, ks.drop_last(), uuid);
        assert(ks[ks.len() - 1] == ks.last());
        assert(spec_set_add(m, ks.last(), uuid) =~= m);
    }
}

/// After one pass of additions, every listed member is present with
/// `add_ts` at least the uuid.
pub proof fn lemma_set_add_all_raises(m: Map<Seq<u8>, (u64, u64)>, ks: Seq<Seq<u8>>, uuid: u64)
    ensures
        forall|i: int|
            0 <= i < ks.len() ==> spec_set_add_all(m, ks, uuid).contains_key(#[trigger] ks[i])
                && set_ts(spec_set_add_all(m, ks, uuid), ks[i]).0 >= uuid,
    decreases ks.len(),
{
    if ks.len() > 0 {
        lemma_set_add_all_raises(m, ks.drop_last(), uuid);
        assert(forall|i: int| 0 <= i < ks.len() - 1 ==> ks.drop_last()[i] == ks[i]);
        assert forall|i: int| 0 <= i < ks.len() implies spec_set_add_all(
            m,
            ks,
            uuid,
        ).contains_key(#[trigger] ks[i]) && set_ts(spec_set_add_all(m, ks, uuid), ks[i]).0
            >= uuid by {
            if i < ks.len() - 1 {
                assert(ks.drop_last()[i] == ks[i]);
            }
        }
    }
}

/// Replaying a member addition at its own uuid changes nothing more.
pub proof fn lemma_sadd_replay_idempotent(m: Map<Seq<u8>, (u64, u64)>, ks: Seq<Seq<u8>>, uuid: u64)
    ensures
        spec_set_add_all(spec_set_add_all(m, ks, uuid), ks, uuid) == spec_set_add_all(m, ks, uuid),
{
    lemma_set_add_all_raises(m, ks, uuid);
    lemma_set_add_all_absorbed(spec_set_add_all(m, ks, uuid), ks, uuid);
}

/// Member removals at one uuid change nothing on a map where every listed
/// member already records a removal at least that recent.
pub proof fn lemma_set_remove_all_absorbed(
    m: Map<Seq<u8>, (u64, u64)>,
    ks: Seq<Seq<u8>>,
    uuid: u64,
)
    requires
        forall|i: int|
            0 <= i < ks.len() ==> m.contains_key(#[trigger] ks[i]) && set_ts(m, ks[i]).1 >= uuid,
    ensures
        spec_set_remove_all(m, ks, uuid) == m,
    decreases ks.len(),
{
    if ks.len() > 0 {
        assert(forall|i: int| 0 <= i < ks.len() - 1 ==> ks.drop_last()[i] == ks[i]);
        lemma_set_remove_all_absorbed(m, ks.drop_last(), uuid);
        assert(ks[ks.len() - 1] == ks.last());
        assert(spec_set_remove(m, ks.last(), uuid) =~= m);
    }
}

/// After one pass of removals, every listed member records a removal at
/// least as recent as the uuid.
pub proof fn lemma_set_remove_all_raises(
    m: Map<Seq<u8>, (u64, u64)>,
    ks: Seq<Seq<u8>>,
    uuid: u64,
)
    ensures
        forall|i: int|
            0 <= i < ks.len() ==> spec_set_remove_all(m, ks, uuid).contains_key(#[trigger] ks[i])
                && set_ts(spec_set_remove_all(m, ks, uuid), ks[i]).1 >= uuid,
    decreases ks.len(),
{
    if ks.len() > 0 {
        lemma_set_remove_all_raises(m, ks.drop_last(), uuid);
        assert(forall|i: int| 0 <= i < ks.len() - 1 ==> ks.drop_last()[i] == ks[i]);
        assert forall|i: int| 0 <= i < ks.len() implies spec_set_remove_all(
            m,
            ks,
            uuid,
        ).contains_key(#[trigger] ks[i]) && set_ts(spec_set_remove_all(m, ks, uuid), ks[i]).1
            >= uuid by {
            if i < ks.len() - 1 {
                assert(ks.drop_last()[i] == ks[i]);
            }
        }
    }
}

/// Replaying a member removal at its own uuid changes nothing more.
pub proof fn lemma_srem_replay_idempotent(
    m: Map<Seq<u8>, (u64, u64)>,
    ks: Seq<Seq<u8>>,
    uuid: u64,
)
    ensures
        spec_set_remove_all(spec_set_remove_all(m, ks, uuid), ks, uuid) == spec_set_remove_all(
            m,
            ks,
            uuid,
        ),
{
    lemma_set_remove_all_raises(m, ks, uuid);
    lemma_set_remove_all_absorbed(spec_set_remove_all(m, ks, uuid), ks, uuid);
}

/// Replaying a whole-set deletion at its own uuid changes nothing more.
pub proof fn lemma_delset_replay_idempotent(m: Map<Seq<u8>, (u64, u64)>, uuid: u64)
    ensures
        ({
            let f = |ts: (u64, u64)| (ts.0, max64(ts.1, uuid));
            m.map_values(f).map_values(f) == m.map_values(f)
        }),
{
    let f = |ts: (u64, u64)| (ts.0, max64(ts.1, uuid));
    assert(m.map_values(f).map_values(f) =~= m.map_values(f));
}

/// Replaying a whole-dictionary deletion at its own uuid changes nothing
/// more.
pub proof fn lemma_deldict_replay_idempotent(m: Map<Seq<u8>, (Seq<u8>, u64, u64)>, uuid: u64)
    ensures
        ({
            let f = |ts: (Seq<u8>, u64, u64)| (ts.0, ts.1, max64(ts.2, uuid));
            m.map_values(f).map_values(f) == m.map_values(f)
        }),
{
    let f = |ts: (Seq<u8>, u64, u64)| (ts.0, ts.1, max64(ts.2, uuid));
    assert(m.map_values(f).map_values(f) =~= m.map_values(f));
}

/// Field writes at one uuid change nothing on a map where every listed
/// field was already written at least that recently.
pub proof fn lemma_dict_set_all_absorbed(
    m: Map<Seq<u8>, (Seq<u8>, u64, u64)>,
    ps: Seq<(Seq<u8>, Seq<u8>)>,
    uuid: u64,
)
    requires
        forall|i: int| 0 <= i < ps.len() ==> dict_ts(m, (#[trigger] ps[i]).0).1 >= uuid,
    ensures
        spec_dict_set_all(m, ps, uuid) == m,
    decreases ps.len(),
{
    if ps.len() > 0 {
        assert(forall|i: int| 0 <= i < ps.len() - 1 ==> ps.drop_last()[i] == ps[i]);
        lemma_dict_set_all_absorbed(m, ps.drop_last(), uuid);
        assert(ps[ps.len() - 1] == ps.last());
    }
}

/// After one pass of field writes, every listed field was written at least
/// as recently as the uuid.
pub proof fn lemma_dict_set_all_raises(
    m: Map<Seq<u8>, (Seq<u8>, u64, u64)>,
    ps: Seq<(Seq<u8>, Seq<u8>)>,
    uuid: u64,
)
    ensures
        forall|i: int|
            0 <= i < ps.len() ==> dict_ts(spec_dict_set_all(m, ps, uuid), (
            #[trigger] ps[i]).0).1 >= uuid || uuid == 0,
    decreases ps.len(),
{
    if ps.len() > 0 {
        lemma_dict_set_all_raises(m, ps.drop_last(), uuid);
        assert(forall|i: int| 0 <= i < ps.len() - 1 ==> ps.drop_last()[i] == ps[i]);
        assert forall|i: int| 0 <= i < ps.len() implies dict_ts(
            spec_dict_set_all(m, ps, uuid),
            (#[trigger] ps[i]).0,
        ).1 >= uuid || uuid == 0 by {
            if i < ps.len() - 1 {
                assert(ps.drop_last()[i] == ps[i]);
            }
        }
    }
}

/// Replaying a field write at its own uuid changes nothing more.
pub proof fn lemma_hset_replay_idempotent(
    m: Map<Seq<u8>, (Seq<u8>, u64, u64)>,
    ps: Seq<(Seq<u8>, Seq<u8>)>,
    uuid: u64,
)
    requires
        uuid > 0,
    ensures
        spec_dict_set_all(spec_dict_set_all(m, ps, uuid), ps, uuid) == spec_dict_set_all(
            m,
            ps,
            uuid,
        ),
{
    lemma_dict_set_all_raises(m, ps, uuid);
    lemma_dict_set_all_absorbed(spec_dict_set_all(m, ps, uuid), ps, uuid);
}

/// Field removals at one uuid change nothing on a map where every listed
/// field already records a removal at least that recent.
pub proof fn lemma_dict_del_all_absorbed(
    m: Map<Seq<u8>, (Seq<u8>, u64, u64)>,
    ks: Seq<Seq<u8>>,
    uuid: u64,
)
    requires
        forall|i: int|
            0 <= i < ks.len() ==> m.contains_key(#[trigger] ks[i]) && dict_ts(m, ks[i]).2 >= uuid,
    ensures
        spec_dict_del_all(m, ks, uuid) == m,
    decreases ks.len(),
{
    if ks.len() > 0 {
        assert(forall|i: int| 0 <= i < ks.len() - 1 ==> ks.drop_last()[i] == ks[i]);
        lemma_dict_del_all_absorbed(m, ks.drop_last(), uuid);
        assert(ks[ks.len() - 1] == ks.last());
        assert(spec_dict_del(m, ks.last(), uuid) =~= m);
    }
}

/// After one pass of field removals, every listed field records a removal
/// at least as recent as the uuid.
pub proof fn lemma_dict_del_all_raises(
    m: Map<Seq<u8>, (Seq<u8>, u64, u64)>,
    ks: Seq<Seq<u8>>,
    uuid: u64,
)
    ensures
        forall|i: int|
            0 <= i < ks.len() ==> spec_dict_del_all(m, ks, uuid).contains_key(#[trigger] ks[i])
                && dict_ts(spec_dict_del_all(m, ks, uuid), ks[i]).2 >= uuid,
    decreases ks.len(),
{
    if ks.len() > 0 {
        lemma_dict_del_all_raises(m, ks.drop_last(), uuid);
        assert(forall|i: int| 0 <= i < ks.len() - 1 ==> ks.drop_last()[i] == ks[i]);
        assert forall|i: int| 0 <= i < ks.len() implies spec_dict_del_all(
            m,
            ks,
            uuid,
        ).contains_key(#[trigger] ks[i]) && dict_ts(spec_dict_del_all(m, ks, uuid), ks[i]).2
            >= uuid by {
            if i < ks.len() - 1 {
                assert(ks.drop_last()[i] == ks[i]);
            }
        }
    }
}

/// Replaying a field removal at its own uuid changes nothing more.
pub proof fn lemma_hdel_replay_idempotent(
    m: Map<Seq<u8>, (Seq<u8>, u64, u64)>,
    ks: Seq<Seq<u8>>,
    uuid: u64,
)
    ensures
        spec_dict_del_all(spec_dict_del_all(m, ks, uuid), ks, uuid) == spec_dict_del_all(
            m,
            ks,
            uuid,
        ),
{
    lemma_dict_del_all_raises(m, ks, uuid);
    lemma_dict_del_all_absorbed(spec_dict_del_all(m, ks, uuid), ks, uuid);
}

/// Counter deltas at one uuid change nothing on a map where every listed
/// node already records that uuid or a newer one.
pub proof fn lemma_counter_change_all_absorbed(
    m: Map<u64, (i64, u64)>,
    ps: Seq<(u64, i64)>,
    uuid: u64,
)
    requires
        forall|i: int|
            0 <= i < ps.len() ==> m.contains_key((#[trigger] ps[i]).0) && m[ps[i].0].1 >= uuid,
    ensures
        spec_counter_change_all(m, ps, uuid) == m,
    decreases ps.len(),
{
    if ps.len() > 0 {
        assert(forall|i: int| 0 <= i < ps.len() - 1 ==> ps.drop_last()[i] == ps[i]);
        lemma_counter_change_all_absorbed(m, ps.drop_last(), uuid);
        assert(ps[ps.len() - 1] == ps.last());
    }
}

/// After one pass of counter deltas, every listed node records at least the
/// uuid.
pub proof fn lemma_counter_change_all_raises(
    m: Map<u64, (i64, u64)>,
    ps: Seq<(u64, i64)>,
    uuid: u64,
)
    ensures
        forall|i: int|
            0 <= i < ps.len() ==> spec_counter_change_all(m, ps, uuid).contains_key(
                (#[trigger] ps[i]).0,
            ) && spec_counter_change_all(m, ps, uuid)[ps[i].0].1 >= uuid,
    decreases ps.len(),
{
    if ps.len() > 0 {
        lemma_counter_change_all_raises(m, ps.drop_last(), uuid);
        assert(forall|i: int| 0 <= i < ps.len() - 1 ==> ps.drop_last()[i] == ps[i]);
        assert forall|i: int| 0 <= i < ps.len() implies spec_counter_change_all(
            m,
            ps,
            uuid,
        ).contains_key((#[trigger] ps[i]).0) && spec_counter_change_all(m, ps, uuid)[ps[i].0].1
            >= uuid by {
            if i < ps.len() - 1 {
                assert(ps.drop_last()[i] == ps[i]);
            }
        }
    }
}

/// Replaying a counter deletion record at its own uuid changes nothing
/// more.
pub proof fn lemma_delcnt_replay_idempotent(
    m: Map<u64, (i64, u64)>,
    ps: Seq<(u64, i64)>,
    uuid: u64,
)
    ensures
        spec_counter_change_all(spec_counter_change_all(m, ps, uuid), ps, uuid)
            == spec_counter_change_all(m, ps, uuid),
{
    lemma_counter_change_all_raises(m, ps, uuid);
    lemma_counter_change_all_absorbed(spec_counter_change_all(m, ps, uuid), ps, uuid);
}


/// Replaying one replicated record twice through the engine leaves the key
/// store where one replay left it.  This holds for every record a peer can
/// stream except a member pop, whose second replay pops the next live
/// member.
#[verifier::rlimit(100)]
#[verifier::spinoff_prover]
pub proof fn lemma_engine_replay_idempotent(
    name: CommandName,
    pre: Server,
    mid: Server,
    post: Server,
    client: Option<Client>,
    nodeid: u64,
    uuid: u64,
    a: Seq<MessageV>,
    r1: Result<Message, CstError>,
    r2: Result<Message, CstError>,
)
    requires
        is_write(name),
        !is_no_replicate(name),
        !(name is SPop),
        uuid > 0,
        dispatch_post(name, pre, mid, client, nodeid, uuid, a, r1),
        dispatch_post(name, mid, post, client, nodeid, uuid, a, r2),
        r1 is Ok,
    ensures
        post.db@ == mid.db@,
{
    match name {
        CommandName::SetCmd => {
            let k = crate::cmd::spec_msg_bytes(a[0])->Some_0;
            let v = crate::cmd::spec_msg_bytes(a[1])->Some_0;
            let db = pre.db@;
            if db.contains_key(k) && db[k].ut > uuid {
            } else {
                lemma_set_replay_idempotent(db, k, v, uuid);
            }
        }
        CommandName::Incr | CommandName::Decr => {
            let k = crate::cmd::spec_msg_bytes(a[0])->Some_0;
            let given = if a.len() < 2 {
                1i64
            } else {
                crate::cmd::spec_msg_i64(a[1])->Some_0
            };
            let delta = if name is Decr {
                vstd::wrapping::i64_specs::wrapping_sub(0i64, given)
            } else {
                given
            };
            lemma_incr_replay_idempotent(pre.db@, k, nodeid, delta, uuid);
        }
        CommandName::SAdd | CommandName::SRem => {
            let k = crate::cmd::spec_msg_bytes(a[0])->Some_0;
            let ms = crate::type_set::spec_bytes_list(a.drop_first())->Some_0;
            let db = pre.db@;
            let removing = name is SRem;
            let r1obj = crate::type_set::spec_sadd_result(db, k, ms, uuid, removing);
            let db1 = db.insert(k, r1obj);
            let r2obj = crate::type_set::spec_sadd_result(db1, k, ms, uuid, removing);
            if removing {
                lemma_srem_replay_idempotent(
                    (if db.contains_key(k) {
                        db[k]
                    } else {
                        ObjectV { ct: uuid, ut: 0u64, dt: 0u64, enc: EncV::LWWSet(Map::empty()) }
                    }).enc->LWWSet_0,
                    ms,
                    uuid,
                );
            } else {
                lemma_sadd_replay_idempotent(
                    (if db.contains_key(k) {
                        db[k]
                    } else {
                        ObjectV { ct: uuid, ut: 0u64, dt: 0u64, enc: EncV::LWWSet(Map::empty()) }
                    }).enc->LWWSet_0,
                    ms,
                    uuid,
                );
            }
            assert(r2obj == r1obj);
            assert(db1.insert(k, r2obj) =~= db1);
        }
        CommandName::HSet => {
            let k = crate::cmd::spec_msg_bytes(a[0])->Some_0;
            let ps = crate::type_hash::spec_bytes_pairs(a.drop_first())->Some_0;
            let db = pre.db@;
            let r1obj = crate::type_hash::spec_hset_result(db, k, ps, uuid);
            let db1 = db.insert(k, r1obj);
            let r2obj = crate::type_hash::spec_hset_result(db1, k, ps, uuid);
            lemma_hset_replay_idempotent(
                (if db.contains_key(k) {
                    db[k]
                } else {
                    ObjectV { ct: uuid, ut: 0u64, dt: 0u64, enc: EncV::LWWDict(Map::empty()) }
                }).enc->LWWDict_0,
                ps,
                uuid,
            );
            assert(r2obj == r1obj);
            assert(db1.insert(k, r2obj) =~= db1);
        }
        CommandName::HDel => {
            let k = crate::cmd::spec_msg_bytes(a[0])->Some_0;
            let fs = crate::type_set::spec_bytes_list(a.drop_first())->Some_0;
            let db = pre.db@;
            let r1obj = crate::type_hash::spec_hdel_result(db, k, fs, uuid);
            let db1 = db.insert(k, r1obj);
            let r2obj = crate::type_hash::spec_hdel_result(db1, k, fs, uuid);
            lemma_hdel_replay_idempotent(
                (if db.contains_key(k) {
                    db[k]
                } else {
                    ObjectV { ct: uuid, ut: 0u64, dt: 0u64, enc: EncV::LWWDict(Map::empty()) }
                }).enc->LWWDict_0,
                fs,
                uuid,
            );
            assert(r2obj == r1obj);
            assert(db1.insert(k, r2obj) =~= db1);
        }
        CommandName::DelBytes => {
            let k = crate::cmd::spec_msg_bytes(a[0])->Some_0;
            let db = pre.db@;
            let o1 = if db.contains_key(k) {
                db[k]
            } else {
                ObjectV { ct: uuid, ut: 0u64, dt: 0u64, enc: EncV::Bytes(Seq::empty()) }
            };
            let r1obj = ObjectV {
                ct: o1.ct,
                ut: max64(o1.ut, uuid),
                dt: max64(o1.dt, uuid),
                enc: o1.enc,
            };
            let db1 = db.insert(k, r1obj);
            assert(db1.insert(
                k,
                ObjectV {
                    ct: r1obj.ct,
                    ut: max64(r1obj.ut, uuid),
                    dt: max64(r1obj.dt, uuid),
                    enc: r1obj.enc,
                },
            ) =~= db1);
        }
        CommandName::DelCnt => {
            let k = crate::cmd::spec_msg_bytes(a[0])->Some_0;
            let ps = crate::type_counter::spec_nd_pairs(a.drop_first())->Some_0;
            let db = pre.db@;
            let o1 = if db.contains_key(k) {
                db[k]
            } else {
                ObjectV { ct: uuid, ut: 0u64, dt: 0u64, enc: EncV::Counter(Map::empty()) }
            };
            let r1obj = ObjectV {
                ct: o1.ct,
                ut: max64(o1.ut, uuid),
                dt: max64(o1.dt, uuid),
                enc: EncV::Counter(spec_counter_change_all(o1.enc->Counter_0, ps, uuid)),
            };
            let db1 = db.insert(k, r1obj);
            lemma_delcnt_replay_idempotent(o1.enc->Counter_0, ps, uuid);
            let r2obj = ObjectV {
                ct: r1obj.ct,
                ut: max64(r1obj.ut, uuid),
                dt: max64(r1obj.dt, uuid),
                enc: EncV::Counter(
                    spec_counter_change_all(r1obj.enc->Counter_0, ps, uuid),
                ),
            };
            assert(r2obj == r1obj);
            assert(db1.insert(k, r2obj) =~= db1);
        }
        CommandName::DelSet => {
            let k = crate::cmd::spec_msg_bytes(a[0])->Some_0;
            let db = pre.db@;
            let o1 = if db.contains_key(k) {
                db[k]
            } else {
                ObjectV { ct: uuid, ut: 0u64, dt: 0u64, enc: EncV::LWWSet(Map::empty()) }
            };
            let f = |ts: (u64, u64)| (ts.0, max64(ts.1, uuid));
            lemma_delset_replay_idempotent(o1.enc->LWWSet_0, uuid);
            let r1obj = ObjectV {
                ct: o1.ct,
                ut: max64(o1.ut, uuid),
                dt: max64(o1.dt, uuid),
                enc: EncV::LWWSet(o1.enc->LWWSet_0.map_values(f)),
            };
            let db1 = db.insert(k, r1obj);
            let r2obj = ObjectV {
                ct: r1obj.ct,
                ut: max64(r1obj.ut, uuid),
                dt: max64(r1obj.dt, uuid),
                enc: EncV::LWWSet(r1obj.enc->LWWSet_0.map_values(f)),
            };
            assert(r2obj == r1obj);
            assert(db1.insert(k, r2obj) =~= db1);
        }
        CommandName::DelDict => {
            let k = crate::cmd::spec_msg_bytes(a[0])->Some_0;
            let db = pre.db@;
            let o1 = if db.contains_key(k) {
                db[k]
            } else {
                ObjectV { ct: uuid, ut: 0u64, dt: 0u64, enc: EncV::LWWDict(Map::empty()) }
            };
            let f = |ts: (Seq<u8>, u64, u64)| (ts.0, ts.1, max64(ts.2, uuid));
            lemma_deldict_replay_idempotent(o1.enc->LWWDict_0, uuid);
            let r1obj = ObjectV {
                ct: o1.ct,
                ut: max64(o1.ut, uuid),
                dt: max64(o1.dt, uuid),
                enc: EncV::LWWDict(o1.enc->LWWDict_0.map_values(f)),
            };
            let db1 = db.insert(k, r1obj);
            let r2obj = ObjectV {
                ct: r1obj.ct,
                ut: max64(r1obj.ut, uuid),
                dt: max64(r1obj.dt, uuid),
                enc: EncV::LWWDict(r1obj.enc->LWWDict_0.map_values(f)),
            };
            assert(r2obj == r1obj);
            assert(db1.insert(k, r2obj) =~= db1);
        }
        _ => {}
    }
}


/// Replaying one record onto two stores with the same mathematical value
/// leaves them with the same mathematical value: replicas that replay one
/// log from equal stores stay in lock-step.  Together with the engine's
/// per-command contracts this is the per-step half of log-replay
/// reproduction; popping a set member is again excluded, its outcome
/// depending on representation order.
#[verifier::rlimit(100)]
#[verifier::spinoff_prover]
pub proof fn lemma_replay_deterministic(
    name: CommandName,
    pre1: Server,
    post1: Server,
    pre2: Server,
    post2: Server,
    client: Option<Client>,
    nodeid: u64,
    uuid: u64,
    a: Seq<MessageV>,
    r1: Result<Message, CstError>,
    r2: Result<Message, CstError>,
)
    requires
        is_write(name),
        !is_no_replicate(name),
        !(name is SPop),
        pre1.db@ == pre2.db@,
        dispatch_post(name, pre1, post1, client, nodeid, uuid, a, r1),
        dispatch_post(name, pre2, post2, client, nodeid, uuid, a, r2),
    ensures
        post1.db@ == post2.db@,
        r1 is Ok <==> r2 is Ok,
{
}

} // verus!
