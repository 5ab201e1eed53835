//! Dictionary commands: field writes and reads, field deletion, and the
//! replicated dictionary deletion that tombstones every field.

use vstd::prelude::*;
use crate::CstError;
use crate::cmd::{ArgIter, NextArg, argv, spec_msg_bytes};
use crate::lwwhash::{Dict, spec_dict_set_all, spec_dict_del_all, dict_live, dict_live_list};
use crate::object::{Encoding, EncV, Object, ObjectV, spec_updated};
use crate::resp::{Message, MessageV, msgs_view, lemma_msgs_view};
use crate::server::{Server, Client, opt_client, same_except_db};
use crate::type_set::{spec_bytes_list, parse_bytes_list};
use crate::util::max64;

verus! {

/// What a trailing `(field, value)` argument list parses to, `None` when an
/// argument has no byte form or a field comes without a value.
pub open spec fn spec_bytes_pairs(a: Seq<MessageV>) -> Option<Seq<(Seq<u8>, Seq<u8>)>>
    decreases a.len(),
{
    if a.len() == 0 {
        Some(Seq::empty())
    } else {
        match spec_msg_bytes(a[0]) {
            Some(f) => if a.len() == 1 {
                None
            } else {
                match spec_msg_bytes(a[1]) {
                    Some(v) => match spec_bytes_pairs(a.skip(2)) {
                        Some(t) => Some(seq![(f, v)] + t),
                        None => None,
                    },
                    None => None,
                }
            },
            None => None,
        }
    }
}

/// True when a `(field, value)` list fails only by ending after a field.
pub open spec fn pairs_arity_fail(a: Seq<MessageV>) -> bool
    decreases a.len(),
{
    if a.len() == 0 {
        false
    } else {
        match spec_msg_bytes(a[0]) {
            Some(_) => if a.len() == 1 {
                true
            } else {
                match spec_msg_bytes(a[1]) {
                    Some(_) => pairs_arity_fail(a.skip(2)),
                    None => false,
                }
            },
            None => false,
        }
    }
}

/// Reads the trailing `(field, value)` pairs of a field write.
fn parse_bytes_pairs(it: &mut ArgIter) -> (r: Result<Vec<(Vec<u8>, Vec<u8>)>, CstError>)
    ensures
        match spec_bytes_pairs(old(it).rest()) {
            Some(ps) => r matches Ok(v) && v@.map_values(|p: (Vec<u8>, Vec<u8>)| (p.0@, p.1@))
                == ps,
            None => r matches Err(e) && (if pairs_arity_fail(old(it).rest()) {
                e is WrongArity
            } else {
                e is InvalidRequestMsg
            }),
        },
{
    let ghost a0 = it.rest();
    let mut out: Vec<(Vec<u8>, Vec<u8>)> = Vec::new();
    loop
        invariant
            a0 == old(it).rest(),
            spec_bytes_pairs(a0) == (match spec_bytes_pairs(it.rest()) {
                Some(t) => Some(out@.map_values(|p: (Vec<u8>, Vec<u8>)| (p.0@, p.1@)) + t),
                None => None::<Seq<(Seq<u8>, Seq<u8>)>>,
            }),
            pairs_arity_fail(a0) == pairs_arity_fail(it.rest()),
        decreases it.rest().len(),
    {
        let ghost rest = it.rest();
        let f = match it.next_bytes() {
            Err(CstError::WrongArity) => {
                proof {
                    assert(rest.len() == 0);
                    assert(out@.map_values(|p: (Vec<u8>, Vec<u8>)| (p.0@, p.1@)) + Seq::<
                        (Seq<u8>, Seq<u8>),
                    >::empty() =~= out@.map_values(|p: (Vec<u8>, Vec<u8>)| (p.0@, p.1@)));
                }
                return Ok(out);
            }
            Err(e) => {
                return Err(e);
            }
            Ok(f) => f,
        };
        let v = match it.next_bytes() {
            Err(e) => {
                return Err(e);
            }
            Ok(v) => v,
        };
        let ghost fv = f@;
        let ghost vv = v@;
        out.push((f, v));
        proof {
            assert(it.rest() =~= rest.skip(2));
            assert(out@.map_values(|p: (Vec<u8>, Vec<u8>)| (p.0@, p.1@)) =~= out@.drop_last(
            ).map_values(|p: (Vec<u8>, Vec<u8>)| (p.0@, p.1@)).push((fv, vv)));
            if spec_bytes_pairs(it.rest()) is Some {
                let t = spec_bytes_pairs(it.rest())->Some_0;
                assert(out@.map_values(|p: (Vec<u8>, Vec<u8>)| (p.0@, p.1@)) + t
                    =~= out@.drop_last().map_values(|p: (Vec<u8>, Vec<u8>)| (p.0@, p.1@)) + (
                seq![(fv, vv)] + t));
            }
        }
    }
}

/// The object a field write leaves under the key.
pub open spec fn spec_hset_result(
    db: Map<Seq<u8>, ObjectV>,
    k: Seq<u8>,
    pairs: Seq<(Seq<u8>, Seq<u8>)>,
    uuid: u64,
) -> ObjectV {
    let o = if db.contains_key(k) {
        db[k]
    } else {
        ObjectV { ct: uuid, ut: 0u64, dt: 0u64, enc: EncV::LWWDict(Map::empty()) }
    };
    spec_updated(
        ObjectV {
            ct: o.ct,
            ut: o.ut,
            dt: o.dt,
            enc: EncV::LWWDict(spec_dict_set_all(o.enc->LWWDict_0, pairs, uuid)),
        },
        uuid,
    )
}

/// The object a field deletion leaves under the key.
pub open spec fn spec_hdel_result(
    db: Map<Seq<u8>, ObjectV>,
    k: Seq<u8>,
    fields: Seq<Seq<u8>>,
    uuid: u64,
) -> ObjectV {
    let o = if db.contains_key(k) {
        db[k]
    } else {
        ObjectV { ct: uuid, ut: 0u64, dt: 0u64, enc: EncV::LWWDict(Map::empty()) }
    };
    spec_updated(
        ObjectV {
            ct: o.ct,
            ut: o.ut,
            dt: o.dt,
            enc: EncV::LWWDict(spec_dict_del_all(o.enc->LWWDict_0, fields, uuid)),
        },
        uuid,
    )
}

/// What `hset_command` guarantees, over the states before and after the call.
pub open spec fn hset_command_post(
    pre: Server,
    post: Server,
    client: Option<Client>,
    nodeid: u64,
    uuid: u64,
    a: Seq<MessageV>,
    r: Result<Message, CstError>,
) -> bool {
        &&& (same_except_db(pre, post))
        &&& (
        ({
            let db = pre.db@;
            if a.len() < 1 {
                (r matches Err(e) && e is WrongArity) && post.db@ == db
            } else if spec_msg_bytes(a[0]) is None {
                (r matches Err(e) && e is InvalidRequestMsg) && post.db@ == db
            } else if spec_bytes_pairs(a.drop_first()) is None {
                (r matches Err(e) && (if pairs_arity_fail(a.drop_first()) {
                    e is WrongArity
                } else {
                    e is InvalidRequestMsg
                })) && post.db@ == db
            } else {
                let k = spec_msg_bytes(a[0])->Some_0;
                let ps = spec_bytes_pairs(a.drop_first())->Some_0;
                if db.contains_key(k) && !(db[k].enc is LWWDict) {
                    (r matches Err(e) && e is InvalidType) && post.db@ == db
                } else {
                    post.db@ == db.insert(k, spec_hset_result(db, k, ps, uuid)) && (
                    r matches Ok(m) && m@ == MessageV::Simple(seq![79u8, 75u8]))
                }
            }
        })
        )
}

/// What `hget_command` guarantees, over the states before and after the call.
pub open spec fn hget_command_post(
    pre: Server,
    post: Server,
    client: Option<Client>,
    nodeid: u64,
    uuid: u64,
    a: Seq<MessageV>,
    r: Result<Message, CstError>,
) -> bool {
        &&& (post == pre)
        &&& (
        ({
            let db = pre.db@;
            if a.len() < 1 {
                r matches Err(e) && e is WrongArity
            } else if spec_msg_bytes(a[0]) is None {
                r matches Err(e) && e is InvalidRequestMsg
            } else if a.len() < 2 {
                r matches Err(e) && e is WrongArity
            } else if spec_msg_bytes(a[1]) is None {
                r matches Err(e) && e is InvalidRequestMsg
            } else {
                let k = spec_msg_bytes(a[0])->Some_0;
                let f = spec_msg_bytes(a[1])->Some_0;
                if !db.contains_key(k) {
                    r matches Ok(m) && m@ == MessageV::Nil
                } else if !(db[k].enc is LWWDict) {
                    r matches Err(e) && e is InvalidType
                } else {
                    let dm = db[k].enc->LWWDict_0;
                    if dm.contains_key(f) && dict_live(dm[f]) {
                        r matches Ok(m) && m@ == MessageV::Bulk(dm[f].0)
                    } else {
                        r matches Ok(m) && m@ == MessageV::Nil
                    }
                }
            }
        })
        )
}

/// What `hgetall_command` guarantees, over the states before and after the call.
pub open spec fn hgetall_command_post(
    pre: Server,
    post: Server,
    client: Option<Client>,
    nodeid: u64,
    uuid: u64,
    a: Seq<MessageV>,
    r: Result<Message, CstError>,
) -> bool {
        &&& (post == pre)
        &&& (
        ({
            let db = pre.db@;
            if a.len() < 1 {
                r matches Err(e) && e is WrongArity
            } else if spec_msg_bytes(a[0]) is None {
                r matches Err(e) && e is InvalidRequestMsg
            } else {
                let k = spec_msg_bytes(a[0])->Some_0;
                if !db.contains_key(k) {
                    r matches Ok(m) && m@ == MessageV::Array(Seq::empty())
                } else if !(db[k].enc is LWWDict) {
                    r matches Err(e) && e is InvalidType
                } else {
                    r matches Ok(m) && exists|i: int|
                        0 <= i < pre.db.entries@.len() && (#[trigger] pre.db.entries@[i]).0@ == k && m@ == MessageV::Array(
                            dict_live_list(
                                pre.db.entries@[i].1.enc->LWWDict_0.entries_seq(),
                            ).map_values(
                                |p: (Seq<u8>, Seq<u8>)| MessageV::Array(
                                    seq![MessageV::Bulk(p.0), MessageV::Bulk(p.1)],
                                ),
                            ),
                        )
                }
            }
        })
        )
}

/// What `hdel_command` guarantees, over the states before and after the call.
pub open spec fn hdel_command_post(
    pre: Server,
    post: Server,
    client: Option<Client>,
    nodeid: u64,
    uuid: u64,
    a: Seq<MessageV>,
    r: Result<Message, CstError>,
) -> bool {
        &&& (same_except_db(pre, post))
        &&& (
        ({
            let db = pre.db@;
            if a.len() < 1 {
                (r matches Err(e) && e is WrongArity) && post.db@ == db
            } else if spec_msg_bytes(a[0]) is None {
                (r matches Err(e) && e is InvalidRequestMsg) && post.db@ == db
            } else if spec_bytes_list(a.drop_first()) is None {
                (r matches Err(e) && e is InvalidRequestMsg) && post.db@ == db
            } else {
                let k = spec_msg_bytes(a[0])->Some_0;
                let fs = spec_bytes_list(a.drop_first())->Some_0;
                if db.contains_key(k) && !(db[k].enc is LWWDict) {
                    (r matches Err(e) && e is InvalidType) && post.db@ == db
                } else {
                    post.db@ == db.insert(k, spec_hdel_result(db, k, fs, uuid)) && (
                    r matches Ok(m) && m@ == MessageV::Simple(seq![79u8, 75u8]))
                }
            }
        })
        )
}

/// What `deldict_command` guarantees, over the states before and after the call.
pub open spec fn deldict_command_post(
    pre: Server,
    post: Server,
    client: Option<Client>,
    nodeid: u64,
    uuid: u64,
    a: Seq<MessageV>,
    r: Result<Message, CstError>,
) -> bool {
        &&& (same_except_db(pre, post))
        &&& (
        ({
            let db = pre.db@;
            if a.len() < 1 {
                (r matches Err(e) && e is WrongArity) && post.db@ == db
            } else if spec_msg_bytes(a[0]) is None {
                (r matches Err(e) && e is InvalidRequestMsg) && post.db@ == db
            } else {
                let k = spec_msg_bytes(a[0])->Some_0;
                if db.contains_key(k) && !(db[k].enc is LWWDict) {
                    (r matches Err(e) && e is InvalidType) && post.db@ == db
                } else {
                    let o = if db.contains_key(k) {
                        db[k]
                    } else {
                        ObjectV {
                            ct: uuid,
                            ut: 0u64,
                            dt: 0u64,
                            enc: EncV::LWWDict(Map::empty()),
                        }
                    };
                    let res = ObjectV {
                        ct: o.ct,
                        ut: max64(o.ut, uuid),
                        dt: max64(o.dt, uuid),
                        enc: EncV::LWWDict(
                            o.enc->LWWDict_0.map_values(
                                |ts: (Seq<u8>, u64, u64)| (ts.0, ts.1, max64(ts.2, uuid)),
                            ),
                        ),
                    };
                    post.db@ == db.insert(k, res) && (r matches Ok(m) && m@
                        == MessageV::NoReply)
                }
            }
        })
        )
}

/// Writes the listed `(field, value)` pairs at `uuid`, creating the
/// dictionary when the key is new.  A key of another variant is a type
/// error.
pub fn hset_command(
    server: &mut Server,
    _client: Option<&Client>,
    _nodeid: u64,
    uuid: u64,
    args: &Vec<Message>,
) -> (r: Result<Message, CstError>)
    requires
        old(server).wf(),
    ensures
        final(server).wf(),
        hset_command_post(*old(server), *final(server), opt_client(_client), _nodeid, uuid, argv(args), r),
{
    let mut it = ArgIter::new(args);
    let key = match it.next_bytes() {
        Ok(k) => k,
        Err(e) => {
            return Err(e);
        }
    };
    let pairs = match parse_bytes_pairs(&mut it) {
        Ok(ps) => ps,
        Err(e) => {
            return Err(e);
        }
    };
    let ghost db0 = server.db@;
    let mut o = match server.db.take(key.as_slice()) {
        None => Object::new(Encoding::LWWDict(Dict::new()), uuid, 0),
        Some(o) => o,
    };
    let is_dict = match &o.enc {
        Encoding::LWWDict(_) => true,
        _ => false,
    };
    if !is_dict {
        server.db.add(key, o);
        proof {
            assert(server.db@ =~= db0);
        }
        return Err(CstError::InvalidType);
    }
    match &mut o.enc {
        Encoding::LWWDict(d) => {
            d.set_fields(&pairs, uuid);
        }
        _ => {
            proof {
                assert(false);
            }
        }
    }
    o.updated_at(uuid);
    server.db.add(key, o);
    proof {
        assert(server.db@ =~= db0.insert(
            key@,
            spec_hset_result(
                db0,
                key@,
                pairs@.map_values(|p: (Vec<u8>, Vec<u8>)| (p.0@, p.1@)),
                uuid,
            ),
        ));
    }
    Ok(crate::resp::new_msg_ok())
}

/// Reads one visible field, `Nil` when the key or the field is absent or
/// tombstoned.
pub fn hget_command(
    server: &mut Server,
    _client: Option<&Client>,
    _nodeid: u64,
    _uuid: u64,
    args: &Vec<Message>,
) -> (r: Result<Message, CstError>)
    requires
        old(server).wf(),
    ensures
        final(server).wf(),
        hget_command_post(*old(server), *final(server), opt_client(_client), _nodeid, _uuid, argv(args), r),
{
    let mut it = ArgIter::new(args);
    let key = match it.next_bytes() {
        Ok(k) => k,
        Err(e) => {
            return Err(e);
        }
    };
    let field = match it.next_bytes() {
        Ok(f) => f,
        Err(e) => {
            return Err(e);
        }
    };
    match server.db.query(key.as_slice()) {
        None => Ok(Message::Nil),
        Some(o) => {
            match &o.enc {
                Encoding::LWWDict(d) => {
                    match d.get_field(field.as_slice()) {
                        Some(v) => Ok(Message::Bulk(v)),
                        None => Ok(Message::Nil),
                    }
                }
                _ => Err(CstError::InvalidType),
            }
        }
    }
}

/// Lists the visible fields and their values as alternating entries, an
/// empty array for a missing key.
pub fn hgetall_command(
    server: &mut Server,
    _client: Option<&Client>,
    _nodeid: u64,
    _uuid: u64,
    args: &Vec<Message>,
) -> (r: Result<Message, CstError>)
    requires
        old(server).wf(),
    ensures
        final(server).wf(),
        hgetall_command_post(*old(server), *final(server), opt_client(_client), _nodeid, _uuid, argv(args), r),
{
    let mut it = ArgIter::new(args);
    let key = match it.next_bytes() {
        Ok(k) => k,
        Err(e) => {
            return Err(e);
        }
    };
    match server.db.query(key.as_slice()) {
        None => Ok(Message::Array(Vec::new())),
        Some(o) => {
            match &o.enc {
                Encoding::LWWDict(d) => {
                    let live = d.iter_live();
                    let ghost lv = dict_live_list(d.entries_seq());
                    let mut items: Vec<Message> = Vec::new();
                    let mut i: usize = 0;
                    while i < live.len()
                        invariant
                            0 <= i <= live@.len(),
                            live@.map_values(|p: (Vec<u8>, Vec<u8>)| (p.0@, p.1@)) == lv,
                            items@.len() == i,
                            forall|j: int|
                                0 <= j < i ==> items@[j]@ == MessageV::Array(
                                    seq![MessageV::Bulk(lv[j].0), MessageV::Bulk(lv[j].1)],
                                ),
                        decreases live@.len() - i,
                    {
                        let mut pair: Vec<Message> = Vec::new();
                        let m0 = Message::Bulk(crate::resp::dup_bytes(&live[i].0));
                        let m1 = Message::Bulk(crate::resp::dup_bytes(&live[i].1));
                        proof {
                            assert(lv[i as int] == live@.map_values(
                                |p: (Vec<u8>, Vec<u8>)| (p.0@, p.1@),
                            )[i as int]);
                            assert(m0@ == MessageV::Bulk(lv[i as int].0));
                            assert(m1@ == MessageV::Bulk(lv[i as int].1));
                        }
                        pair.push(m0);
                        pair.push(m1);
                        proof {
                            lemma_msgs_view(pair@);
                            assert(pair@.len() == 2);
                            assert(msgs_view(pair@)[0] == pair@[0]@);
                            assert(msgs_view(pair@)[1] == pair@[1]@);
                            assert(msgs_view(pair@) =~= seq![
                                MessageV::Bulk(lv[i as int].0),
                                MessageV::Bulk(lv[i as int].1),
                            ]);
                        }
                        items.push(Message::Array(pair));
                        i = i + 1;
                    }
                    proof {
                        lemma_msgs_view(items@);
                        let target = lv.map_values(
                            |p: (Seq<u8>, Seq<u8>)| MessageV::Array(
                                seq![MessageV::Bulk(p.0), MessageV::Bulk(p.1)],
                            ),
                        );
                        assert forall|j: int| 0 <= j < lv.len() implies msgs_view(items@)[j]
                            == target[j] by {
                            assert(msgs_view(items@)[j] == items@[j]@);
                            assert(target[j] == MessageV::Array(
                                seq![MessageV::Bulk(lv[j].0), MessageV::Bulk(lv[j].1)],
                            ));
                        }
                        assert(msgs_view(items@) =~= target);
                    }
                    Ok(Message::Array(items))
                }
                _ => Err(CstError::InvalidType),
            }
        }
    }
}

/// Raises the listed fields' `remove_ts` to `uuid`; a deletion of a field
/// never seen records a tombstone for it.
pub fn hdel_command(
    server: &mut Server,
    _client: Option<&Client>,
    _nodeid: u64,
    uuid: u64,
    args: &Vec<Message>,
) -> (r: Result<Message, CstError>)
    requires
        old(server).wf(),
    ensures
        final(server).wf(),
        hdel_command_post(*old(server), *final(server), opt_client(_client), _nodeid, uuid, argv(args), r),
{
    let mut it = ArgIter::new(args);
    let key = match it.next_bytes() {
        Ok(k) => k,
        Err(e) => {
            return Err(e);
        }
    };
    let fields = match parse_bytes_list(&mut it) {
        Ok(fs) => fs,
        Err(e) => {
            return Err(e);
        }
    };
    let ghost db0 = server.db@;
    let mut o = match server.db.take(key.as_slice()) {
        None => Object::new(Encoding::LWWDict(Dict::new()), uuid, 0),
        Some(o) => o,
    };
    let is_dict = match &o.enc {
        Encoding::LWWDict(_) => true,
        _ => false,
    };
    if !is_dict {
        server.db.add(key, o);
        proof {
            assert(server.db@ =~= db0);
        }
        return Err(CstError::InvalidType);
    }
    match &mut o.enc {
        Encoding::LWWDict(d) => {
            d.del_fields(&fields, uuid);
        }
        _ => {
            proof {
                assert(false);
            }
        }
    }
    o.updated_at(uuid);
    server.db.add(key, o);
    proof {
        assert(server.db@ =~= db0.insert(
            key@,
            spec_hdel_result(db0, key@, fields@.map_values(|b: Vec<u8>| b@), uuid),
        ));
    }
    Ok(crate::resp::new_msg_ok())
}

/// Replays a dictionary deletion: tombstones every field at the deletion's
/// uuid and tombstones the object itself.
pub fn deldict_command(
    server: &mut Server,
    _client: Option<&Client>,
    _nodeid: u64,
    uuid: u64,
    args: &Vec<Message>,
) -> (r: Result<Message, CstError>)
    requires
        old(server).wf(),
    ensures
        final(server).wf(),
        deldict_command_post(*old(server), *final(server), opt_client(_client), _nodeid, uuid, argv(args), r),
{
    let mut it = ArgIter::new(args);
    let key = match it.next_bytes() {
        Ok(k) => k,
        Err(e) => {
            return Err(e);
        }
    };
    let ghost db0 = server.db@;
    let mut o = match server.db.take(key.as_slice()) {
        None => Object::new(Encoding::LWWDict(Dict::new()), uuid, 0),
        Some(o) => o,
    };
    let is_dict = match &o.enc {
        Encoding::LWWDict(_) => true,
        _ => false,
    };
    if !is_dict {
        server.db.add(key, o);
        proof {
            assert(server.db@ =~= db0);
        }
        return Err(CstError::InvalidType);
    }
    match &mut o.enc {
        Encoding::LWWDict(d) => {
            d.del_all(uuid);
        }
        _ => {
            proof {
                assert(false);
            }
        }
    }
    o.delete_time = crate::util::max_u64(o.delete_time, uuid);
    o.update_time = crate::util::max_u64(o.update_time, uuid);
    server.db.add(key, o);
    proof {
        let kk = key@;
        let ov: ObjectV = if db0.contains_key(kk) {
            db0[kk]
        } else {
            ObjectV { ct: uuid, ut: 0u64, dt: 0u64, enc: EncV::LWWDict(Map::empty()) }
        };
        assert(server.db@ =~= db0.insert(
            kk,
            ObjectV {
                ct: ov.ct,
                ut: max64(ov.ut, uuid),
                dt: max64(ov.dt, uuid),
                enc: EncV::LWWDict(
                    ov.enc->LWWDict_0.map_values(
                        |ts: (Seq<u8>, u64, u64)| (ts.0, ts.1, max64(ts.2, uuid)),
                    ),
                ),
            },
        ));
    }
    Ok(Message::NoReply)
}

} // verus!
