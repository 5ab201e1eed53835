//! Counter commands: increment, decrement, and the replicated counter
//! deletion that carries explicit negating deltas.

use vstd::prelude::*;
use crate::CstError;
use crate::cmd::{ArgIter, NextArg, argv, spec_msg_bytes, spec_msg_i64};
use crate::counter::{Counter, spec_counter_change, sum_counter};
use crate::object::{Encoding, EncV, Object, ObjectV, spec_updated};
use crate::resp::{Message, MessageV};
use crate::server::{Server, Client, opt_client, same_except_db};
use crate::util::max64;
use vstd::wrapping::i64_specs;

verus! {

/// Per-node `(node, delta)` pairs folded into a counter map, first to last.
pub open spec fn spec_counter_change_all(
    m: Map<u64, (i64, u64)>,
    ps: Seq<(u64, i64)>,
    uuid: u64,
) -> Map<u64, (i64, u64)>
    decreases ps.len(),
{
    if ps.len() == 0 {
        m
    } else {
        spec_counter_change(
            spec_counter_change_all(m, ps.drop_last(), uuid),
            ps.last().0,
            ps.last().1,
            uuid,
        )
    }
}

/// What a trailing `(node, delta)` argument list parses to, `None` when an
/// argument is not a non-negative node id followed by an integer delta.
pub open spec fn spec_nd_pairs(a: Seq<MessageV>) -> Option<Seq<(u64, i64)>>
    decreases a.len(),
{
    if a.len() == 0 {
        Some(Seq::empty())
    } else {
        match spec_msg_i64(a[0]) {
            Some(n) => if n >= 0 {
                if a.len() == 1 {
                    None
                } else {
                    match spec_msg_i64(a[1]) {
                        Some(d) => match spec_nd_pairs(a.skip(2)) {
                            Some(t) => Some(seq![(n as u64, d)] + t),
                            None => None,
                        },
                        None => None,
                    }
                }
            } else {
                None
            },
            None => None,
        }
    }
}

/// True when a `(node, delta)` list fails only by ending after a node.
pub open spec fn nd_arity_fail(a: Seq<MessageV>) -> bool
    decreases a.len(),
{
    if a.len() == 0 {
        false
    } else {
        match spec_msg_i64(a[0]) {
            Some(n) => if n >= 0 {
                if a.len() == 1 {
                    true
                } else {
                    match spec_msg_i64(a[1]) {
                        Some(_) => nd_arity_fail(a.skip(2)),
                        None => false,
                    }
                }
            } else {
                false
            },
            None => false,
        }
    }
}

/// Reads the trailing `(node, delta)` pairs of a counter-deletion record.
fn parse_node_deltas(it: &mut ArgIter) -> (r: Result<Vec<(u64, i64)>, CstError>)
    ensures
        match spec_nd_pairs(old(it).rest()) {
            Some(ps) => r matches Ok(v) && v@ == ps,
            None => r matches Err(e) && (if nd_arity_fail(old(it).rest()) {
                e is WrongArity
            } else {
                e is InvalidRequestMsg
            }),
        },
{
    let ghost a0 = it.rest();
    let mut out: Vec<(u64, i64)> = Vec::new();
    loop
        invariant
            a0 == old(it).rest(),
            spec_nd_pairs(a0) == (match spec_nd_pairs(it.rest()) {
                Some(t) => Some(out@ + t),
                None => None::<Seq<(u64, i64)>>,
            }),
            nd_arity_fail(a0) == nd_arity_fail(it.rest()),
        decreases it.rest().len(),
    {
        let ghost rest = it.rest();
        let n = match it.next_u64() {
            Err(CstError::WrongArity) => {
                proof {
                    assert(rest.len() == 0);
                    assert(out@ + Seq::<(u64, i64)>::empty() =~= out@);
                }
                return Ok(out);
            }
            Err(e) => {
                return Err(e);
            }
            Ok(n) => n,
        };
        let d = match it.next_i64() {
            Err(e) => {
                return Err(e);
            }
            Ok(d) => d,
        };
        out.push((n, d));
        proof {
            assert(it.rest() =~= rest.skip(2));
            if spec_nd_pairs(it.rest()) is Some {
                let t = spec_nd_pairs(it.rest())->Some_0;
                assert(out@ + t =~= out@.drop_last() + (seq![(n, d)] + t));
            }
        }
    }
}

/// Counter deltas touch no node they do not name.
pub proof fn lemma_change_all_frame(
    m: Map<u64, (i64, u64)>,
    ps: Seq<(u64, i64)>,
    uuid: u64,
    k: u64,
)
    requires
        forall|j: int| 0 <= j < ps.len() ==> (#[trigger] ps[j]).0 != k,
    ensures
        spec_counter_change_all(m, ps, uuid).contains_key(k) == m.contains_key(k),
        m.contains_key(k) ==> spec_counter_change_all(m, ps, uuid)[k] == m[k],
    decreases ps.len(),
{
    if ps.len() > 0 {
        assert(forall|j: int| 0 <= j < ps.len() - 1 ==> ps.drop_last()[j] == ps[j]);
        lemma_change_all_frame(m, ps.drop_last(), uuid, k);
        assert(ps[ps.len() - 1].0 != k);
    }
}

/// A counter deletion's negating deltas drive every named node to zero at
/// the deletion's uuid, provided each node's recorded uuid is older.
pub proof fn lemma_del_counter_zeroes(
    m: Map<u64, (i64, u64)>,
    es: Seq<(u64, (i64, u64))>,
    uuid: u64,
)
    requires
        crate::assoc::unique_keys(es),
        forall|j: int| 0 <= j < es.len() ==> (#[trigger] es[j]).1.1 < uuid,
        forall|j: int|
            0 <= j < es.len() ==> m.contains_key((#[trigger] es[j]).0) && m[es[j].0] == es[j].1,
    ensures
        forall|j: int|
            0 <= j < es.len() ==> spec_counter_change_all(
                m,
                crate::cmd::neg_pairs(es),
                uuid,
            ).contains_key((#[trigger] es[j]).0) && spec_counter_change_all(
                m,
                crate::cmd::neg_pairs(es),
                uuid,
            )[es[j].0] == (0i64, uuid),
    decreases es.len(),
{
    let ps = crate::cmd::neg_pairs(es);
    if es.len() > 0 {
        let e = es.last();
        let dl = es.drop_last();
        assert(forall|j: int| 0 <= j < dl.len() ==> dl[j] == es[j]);
        assert(crate::assoc::unique_keys(dl)) by {
            crate::assoc::lemma_unique_drop_last(es);
        }
        assert(ps.drop_last() =~= crate::cmd::neg_pairs(dl));
        lemma_del_counter_zeroes(m, dl, uuid);
        let rr = spec_counter_change_all(m, crate::cmd::neg_pairs(dl), uuid);
        assert(es[es.len() - 1] == e);
        assert(m.contains_key(e.0) && m[e.0] == e.1);
        assert forall|j: int| 0 <= j < dl.len() implies (#[trigger] crate::cmd::neg_pairs(
            dl,
        )[j]).0 != e.0 by {
            assert(crate::cmd::neg_pairs(dl)[j].0 == dl[j].0);
            assert(dl[j] == es[j]);
            assert(es[j].0 != es[es.len() - 1].0);
        }
        lemma_change_all_frame(m, crate::cmd::neg_pairs(dl), uuid, e.0);
        assert(rr.contains_key(e.0) && rr[e.0] == e.1);
        let v = e.1.0;
        let d = vstd::wrapping::i64_specs::wrapping_sub(0i64, v);
        assert(ps.last() == (e.0, d));
        assert(vstd::wrapping::i64_specs::wrapping_add(v, d) == 0i64);
        assert(spec_counter_change_all(m, ps, uuid) == spec_counter_change(rr, e.0, d, uuid));
        assert forall|j: int| 0 <= j < es.len() implies spec_counter_change_all(
            m,
            ps,
            uuid,
        ).contains_key((#[trigger] es[j]).0) && spec_counter_change_all(m, ps, uuid)[es[j].0]
            == (0i64, uuid) by {
            if j < es.len() - 1 {
                assert(dl[j] == es[j]);
                assert(es[j].0 != e.0);
            }
        }
    }
}

/// The object an `incr` or `decr` leaves under the key: the node's counter
/// pair advanced at `uuid` and the envelope updated.
pub open spec fn spec_incr_result(
    db: Map<Seq<u8>, ObjectV>,
    k: Seq<u8>,
    node: u64,
    delta: i64,
    uuid: u64,
) -> ObjectV {
    let o = if db.contains_key(k) {
        db[k]
    } else {
        ObjectV { ct: uuid, ut: 0u64, dt: 0u64, enc: EncV::Counter(Map::empty()) }
    };
    spec_updated(
        ObjectV {
            ct: o.ct,
            ut: o.ut,
            dt: o.dt,
            enc: EncV::Counter(spec_counter_change(o.enc->Counter_0, node, delta, uuid)),
        },
        uuid,
    )
}

/// What `incr_command` guarantees, over the states before and after the call.
pub open spec fn incr_command_post(
    pre: Server,
    post: Server,
    client: Option<Client>,
    nodeid: u64,
    uuid: u64,
    a: Seq<MessageV>,
    r: Result<Message, CstError>,
) -> bool {
        &&& (same_except_db(pre, post))
        &&& (
        ({
            let db = pre.db@;
            if a.len() < 1 {
                (r matches Err(e) && e is WrongArity) && post.db@ == db
            } else if spec_msg_bytes(a[0]) is None {
                (r matches Err(e) && e is InvalidRequestMsg) && post.db@ == db
            } else if a.len() >= 2 && spec_msg_i64(a[1]) is None {
                (r matches Err(e) && e is InvalidRequestMsg) && post.db@ == db
            } else {
                let k = spec_msg_bytes(a[0])->Some_0;
                let delta = if a.len() < 2 {
                    1i64
                } else {
                    spec_msg_i64(a[1])->Some_0
                };
                if db.contains_key(k) && !(db[k].enc is Counter) {
                    (r matches Err(e) && e is InvalidType) && post.db@ == db
                } else {
                    let res = spec_incr_result(db, k, nodeid, delta, uuid);
                    post.db@ == db.insert(k, res) && (r matches Ok(m) && m@
                        == MessageV::Integer(i64_specs::signed_crop(
                        sum_counter(res.enc->Counter_0),
                    )))
                }
            }
        })
        )
}

/// What `decr_command` guarantees, over the states before and after the call.
pub open spec fn decr_command_post(
    pre: Server,
    post: Server,
    client: Option<Client>,
    nodeid: u64,
    uuid: u64,
    a: Seq<MessageV>,
    r: Result<Message, CstError>,
) -> bool {
        &&& (same_except_db(pre, post))
        &&& (
        ({
            let db = pre.db@;
            if a.len() < 1 {
                (r matches Err(e) && e is WrongArity) && post.db@ == db
            } else if spec_msg_bytes(a[0]) is None {
                (r matches Err(e) && e is InvalidRequestMsg) && post.db@ == db
            } else if a.len() >= 2 && spec_msg_i64(a[1]) is None {
                (r matches Err(e) && e is InvalidRequestMsg) && post.db@ == db
            } else {
                let k = spec_msg_bytes(a[0])->Some_0;
                let delta = i64_specs::wrapping_sub(
                    0i64,
                    if a.len() < 2 {
                        1i64
                    } else {
                        spec_msg_i64(a[1])->Some_0
                    },
                );
                if db.contains_key(k) && !(db[k].enc is Counter) {
                    (r matches Err(e) && e is InvalidType) && post.db@ == db
                } else {
                    let res = spec_incr_result(db, k, nodeid, delta, uuid);
                    post.db@ == db.insert(k, res) && (r matches Ok(m) && m@
                        == MessageV::Integer(i64_specs::signed_crop(
                        sum_counter(res.enc->Counter_0),
                    )))
                }
            }
        })
        )
}

/// What `delcnt_command` guarantees, over the states before and after the call.
pub open spec fn delcnt_command_post(
    pre: Server,
    post: Server,
    client: Option<Client>,
    nodeid: u64,
    uuid: u64,
    a: Seq<MessageV>,
    r: Result<Message, CstError>,
) -> bool {
        &&& (same_except_db(pre, post))
        &&& (
        ({
            let db = pre.db@;
            if a.len() < 1 {
                (r matches Err(e) && e is WrongArity) && post.db@ == db
            } else if spec_msg_bytes(a[0]) is None {
                (r matches Err(e) && e is InvalidRequestMsg) && post.db@ == db
            } else if spec_nd_pairs(a.drop_first()) is None {
                (r matches Err(e) && (if nd_arity_fail(a.drop_first()) {
                    e is WrongArity
                } else {
                    e is InvalidRequestMsg
                })) && post.db@ == db
            } else {
                let k = spec_msg_bytes(a[0])->Some_0;
                let ps = spec_nd_pairs(a.drop_first())->Some_0;
                if db.contains_key(k) && !(db[k].enc is Counter) {
                    (r matches Err(e) && e is InvalidType) && post.db@ == db
                } else {
                    let o = if db.contains_key(k) {
                        db[k]
                    } else {
                        ObjectV { ct: uuid, ut: 0u64, dt: 0u64, enc: EncV::Counter(Map::empty()) }
                    };
                    let res = ObjectV {
                        ct: o.ct,
                        ut: max64(o.ut, uuid),
                        dt: max64(o.dt, uuid),
                        enc: EncV::Counter(
                            spec_counter_change_all(o.enc->Counter_0, ps, uuid),
                        ),
                    };
                    post.db@ == db.insert(k, res) && (r matches Ok(m) && m@
                        == MessageV::NoReply)
                }
            }
        })
        )
}

/// Adds `delta` (default one) to the issuing node's entry at `uuid` and
/// replies the counter's new sum.  A key of another variant is a type
/// error.
pub fn incr_command(
    server: &mut Server,
    _client: Option<&Client>,
    nodeid: u64,
    uuid: u64,
    args: &Vec<Message>,
) -> (r: Result<Message, CstError>)
    requires
        old(server).wf(),
    ensures
        final(server).wf(),
        incr_command_post(*old(server), *final(server), opt_client(_client), nodeid, uuid, argv(args), r),
{
    incr_decr(server, nodeid, uuid, args, false)
}

/// Subtracts `delta` (default one) from the issuing node's entry at `uuid`
/// and replies the counter's new sum.  The delta is negated with wrapping
/// arithmetic.
pub fn decr_command(
    server: &mut Server,
    _client: Option<&Client>,
    nodeid: u64,
    uuid: u64,
    args: &Vec<Message>,
) -> (r: Result<Message, CstError>)
    requires
        old(server).wf(),
    ensures
        final(server).wf(),
        decr_command_post(*old(server), *final(server), opt_client(_client), nodeid, uuid, argv(args), r),
{
    incr_decr(server, nodeid, uuid, args, true)
}

/// The shared body of `incr` and `decr`.
fn incr_decr(
    server: &mut Server,
    nodeid: u64,
    uuid: u64,
    args: &Vec<Message>,
    negate: bool,
) -> (r: Result<Message, CstError>)
    requires
        old(server).wf(),
    ensures
        final(server).wf(),
        same_except_db(*old(server), *final(server)),
        ({
            let a = argv(args);
            let db = old(server).db@;
            if a.len() < 1 {
                (r matches Err(e) && e is WrongArity) && final(server).db@ == db
            } else if spec_msg_bytes(a[0]) is None {
                (r matches Err(e) && e is InvalidRequestMsg) && final(server).db@ == db
            } else if a.len() >= 2 && spec_msg_i64(a[1]) is None {
                (r matches Err(e) && e is InvalidRequestMsg) && final(server).db@ == db
            } else {
                let k = spec_msg_bytes(a[0])->Some_0;
                let given = if a.len() < 2 {
                    1i64
                } else {
                    spec_msg_i64(a[1])->Some_0
                };
                let delta = if negate {
                    i64_specs::wrapping_sub(0i64, given)
                } else {
                    given
                };
                if db.contains_key(k) && !(db[k].enc is Counter) {
                    (r matches Err(e) && e is InvalidType) && final(server).db@ == db
                } else {
                    let res = spec_incr_result(db, k, nodeid, delta, uuid);
                    final(server).db@ == db.insert(k, res) && (r matches Ok(m) && m@
                        == MessageV::Integer(i64_specs::signed_crop(
                        sum_counter(res.enc->Counter_0),
                    )))
                }
            }
        }),
{
    let mut it = ArgIter::new(args);
    let key = match it.next_bytes() {
        Ok(k) => k,
        Err(e) => {
            return Err(e);
        }
    };
    let given = match it.next_i64() {
        Ok(d) => d,
        Err(CstError::WrongArity) => 1,
        Err(e) => {
            return Err(e);
        }
    };
    let delta = if negate {
        0i64.wrapping_sub(given)
    } else {
        given
    };
    let ghost db0 = server.db@;
    let mut o = match server.db.take(key.as_slice()) {
        None => Object::new(Encoding::Counter(Counter::new()), uuid, 0),
        Some(o) => o,
    };
    let is_counter = match &o.enc {
        Encoding::Counter(_) => true,
        _ => false,
    };
    if !is_counter {
        server.db.add(key, o);
        proof {
            assert(server.db@ =~= db0);
        }
        return Err(CstError::InvalidType);
    }
    let sum: i64 = match &mut o.enc {
        Encoding::Counter(c) => {
            c.change(nodeid, delta, uuid);
            c.get()
        }
        _ => {
            proof {
                assert(false);
            }
            0
        }
    };
    o.updated_at(uuid);
    server.db.add(key, o);
    proof {
        assert(server.db@ =~= db0.insert(
            key@,
            spec_incr_result(db0, key@, nodeid, delta, uuid),
        ));
    }
    Ok(Message::Integer(sum))
}

/// Replays a counter deletion: applies each carried `(node, delta)` pair at
/// the deletion's uuid and tombstones the object at that uuid.
pub fn delcnt_command(
    server: &mut Server,
    _client: Option<&Client>,
    _nodeid: u64,
    uuid: u64,
    args: &Vec<Message>,
) -> (r: Result<Message, CstError>)
    requires
        old(server).wf(),
    ensures
        final(server).wf(),
        delcnt_command_post(*old(server), *final(server), opt_client(_client), _nodeid, uuid, argv(args), r),
{
    let mut it = ArgIter::new(args);
    let key = match it.next_bytes() {
        Ok(k) => k,
        Err(e) => {
            return Err(e);
        }
    };
    let pairs = match parse_node_deltas(&mut it) {
        Ok(ps) => ps,
        Err(e) => {
            return Err(e);
        }
    };
    let ghost db0 = server.db@;
    let mut o = match server.db.take(key.as_slice()) {
        None => Object::new(Encoding::Counter(Counter::new()), uuid, 0),
        Some(o) => o,
    };
    let is_counter = match &o.enc {
        Encoding::Counter(_) => true,
        _ => false,
    };
    if !is_counter {
        server.db.add(key, o);
        proof {
            assert(server.db@ =~= db0);
        }
        return Err(CstError::InvalidType);
    }
    match &mut o.enc {
        Encoding::Counter(c) => {
            let ghost cm0 = c@;
            let mut i: usize = 0;
            proof {
                assert(pairs@.take(0) =~= Seq::<(u64, i64)>::empty());
            }
            while i < pairs.len()
                invariant
                    c.wf(),
                    0 <= i <= pairs@.len(),
                    c@ == spec_counter_change_all(cm0, pairs@.take(i as int), uuid),
                decreases pairs@.len() - i,
            {
                let (n, d) = pairs[i];
                c.change(n, d, uuid);
                proof {
                    assert(pairs@.take(i as int + 1).drop_last() =~= pairs@.take(i as int));
                    assert(pairs@.take(i as int + 1).last() == pairs@[i as int]);
                }
                i = i + 1;
            }
            proof {
                assert(pairs@.take(i as int) =~= pairs@);
            }
        }
        _ => {
            proof {
                assert(false);
            }
        }
    }
    o.delete_time = crate::util::max_u64(o.delete_time, uuid);
    o.update_time = crate::util::max_u64(o.update_time, uuid);
    server.db.add(key, o);
    proof {
        let kk = key@;
        let ov: ObjectV = if db0.contains_key(kk) {
            db0[kk]
        } else {
            ObjectV { ct: uuid, ut: 0u64, dt: 0u64, enc: EncV::Counter(Map::empty()) }
        };
        assert(server.db@ =~= db0.insert(
            kk,
            ObjectV {
                ct: ov.ct,
                ut: max64(ov.ut, uuid),
                dt: max64(ov.dt, uuid),
                enc: EncV::Counter(spec_counter_change_all(ov.enc->Counter_0, pairs@, uuid)),
            },
        ));
    }
    Ok(Message::NoReply)
}

} // verus!
