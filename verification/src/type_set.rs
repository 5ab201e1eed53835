//! Set commands: member addition and removal, pop, listing, and the
//! replicated set deletion that tombstones every member.

use vstd::prelude::*;
use crate::CstError;
use crate::cmd::{ArgIter, NextArg, argv, spec_msg_bytes};
use crate::lwwhash::{LwwSet, spec_set_add_all, spec_set_remove_all, spec_set_remove, live_list};
use crate::object::{Encoding, EncV, Object, ObjectV, spec_updated};
use crate::resp::{Message, MessageV, msgs_view, lemma_msgs_view};
use crate::server::{Server, Client, opt_client, same_except_db};
use crate::util::max64;

verus! {

/// What a trailing byte-string argument list parses to, `None` when an
/// argument has no byte form.
pub open spec fn spec_bytes_list(a: Seq<MessageV>) -> Option<Seq<Seq<u8>>>
    decreases a.len(),
{
    if a.len() == 0 {
        Some(Seq::empty())
    } else {
        match spec_msg_bytes(a[0]) {
            Some(b) => match spec_bytes_list(a.drop_first()) {
                Some(t) => Some(seq![b] + t),
                None => None,
            },
            None => None,
        }
    }
}

/// Reads all remaining arguments as byte strings.
pub fn parse_bytes_list(it: &mut ArgIter) -> (r: Result<Vec<Vec<u8>>, CstError>)
    ensures
        match spec_bytes_list(old(it).rest()) {
            Some(bs) => r matches Ok(v) && v@.map_values(|b: Vec<u8>| b@) == bs,
            None => r matches Err(e) && e is InvalidRequestMsg,
        },
{
    let ghost a0 = it.rest();
    let mut out: Vec<Vec<u8>> = Vec::new();
    loop
        invariant
            a0 == old(it).rest(),
            spec_bytes_list(a0) == (match spec_bytes_list(it.rest()) {
                Some(t) => Some(out@.map_values(|b: Vec<u8>| b@) + t),
                None => None::<Seq<Seq<u8>>>,
            }),
        decreases it.rest().len(),
    {
        let ghost rest = it.rest();
        let b = match it.next_bytes() {
            Err(CstError::WrongArity) => {
                proof {
                    assert(rest.len() == 0);
                    assert(out@.map_values(|b: Vec<u8>| b@) + Seq::<Seq<u8>>::empty()
                        =~= out@.map_values(|b: Vec<u8>| b@));
                }
                return Ok(out);
            }
            Err(e) => {
                return Err(e);
            }
            Ok(b) => b,
        };
        let ghost bv = b@;
        out.push(b);
        proof {
            assert(it.rest() =~= rest.drop_first());
            assert(out@.map_values(|b: Vec<u8>| b@) =~= out@.drop_last().map_values(
                |b: Vec<u8>| b@,
            ).push(bv));
            if spec_bytes_list(it.rest()) is Some {
                let t = spec_bytes_list(it.rest())->Some_0;
                assert(out@.map_values(|b: Vec<u8>| b@) + t =~= out@.drop_last().map_values(
                    |b: Vec<u8>| b@,
                ) + (seq![bv] + t));
            }
        }
    }
}

/// The object a member addition or removal leaves under the key.
pub open spec fn spec_sadd_result(
    db: Map<Seq<u8>, ObjectV>,
    k: Seq<u8>,
    members: Seq<Seq<u8>>,
    uuid: u64,
    removing: bool,
) -> ObjectV {
    let o = if db.contains_key(k) {
        db[k]
    } else {
        ObjectV { ct: uuid, ut: 0u64, dt: 0u64, enc: EncV::LWWSet(Map::empty()) }
    };
    let sm = o.enc->LWWSet_0;
    let nm = if removing {
        spec_set_remove_all(sm, members, uuid)
    } else {
        spec_set_add_all(sm, members, uuid)
    };
    spec_updated(ObjectV { ct: o.ct, ut: o.ut, dt: o.dt, enc: EncV::LWWSet(nm) }, uuid)
}

/// What `sadd_command` guarantees, over the states before and after the call.
pub open spec fn sadd_command_post(
    pre: Server,
    post: Server,
    client: Option<Client>,
    nodeid: u64,
    uuid: u64,
    a: Seq<MessageV>,
    r: Result<Message, CstError>,
) -> bool {
        &&& (same_except_db(pre, post))
        &&& (
        ({
            let db = pre.db@;
            if a.len() < 1 {
                (r matches Err(e) && e is WrongArity) && post.db@ == db
            } else if spec_msg_bytes(a[0]) is None {
                (r matches Err(e) && e is InvalidRequestMsg) && post.db@ == db
            } else if spec_bytes_list(a.drop_first()) is None {
                (r matches Err(e) && e is InvalidRequestMsg) && post.db@ == db
            } else {
                let k = spec_msg_bytes(a[0])->Some_0;
                let ms = spec_bytes_list(a.drop_first())->Some_0;
                if db.contains_key(k) && !(db[k].enc is LWWSet) {
                    (r matches Err(e) && e is InvalidType) && post.db@ == db
                } else {
                    post.db@ == db.insert(k, spec_sadd_result(db, k, ms, uuid, false))
                        && (r matches Ok(m) && m@ == MessageV::Simple(seq![79u8, 75u8]))
                }
            }
        })
        )
}

/// What `srem_command` guarantees, over the states before and after the call.
pub open spec fn srem_command_post(
    pre: Server,
    post: Server,
    client: Option<Client>,
    nodeid: u64,
    uuid: u64,
    a: Seq<MessageV>,
    r: Result<Message, CstError>,
) -> bool {
        &&& (same_except_db(pre, post))
        &&& (
        ({
            let db = pre.db@;
            if a.len() < 1 {
                (r matches Err(e) && e is WrongArity) && post.db@ == db
            } else if spec_msg_bytes(a[0]) is None {
                (r matches Err(e) && e is InvalidRequestMsg) && post.db@ == db
            } else if spec_bytes_list(a.drop_first()) is None {
                (r matches Err(e) && e is InvalidRequestMsg) && post.db@ == db
            } else {
                let k = spec_msg_bytes(a[0])->Some_0;
                let ms = spec_bytes_list(a.drop_first())->Some_0;
                if db.contains_key(k) && !(db[k].enc is LWWSet) {
                    (r matches Err(e) && e is InvalidType) && post.db@ == db
                } else {
                    post.db@ == db.insert(k, spec_sadd_result(db, k, ms, uuid, true))
                        && (r matches Ok(m) && m@ == MessageV::Simple(seq![79u8, 75u8]))
                }
            }
        })
        )
}

/// What `spop_command` guarantees, over the states before and after the call.
pub open spec fn spop_command_post(
    pre: Server,
    post: Server,
    client: Option<Client>,
    nodeid: u64,
    uuid: u64,
    a: Seq<MessageV>,
    r: Result<Message, CstError>,
) -> bool {
        &&& (same_except_db(pre, post))
        &&& (
        ({
            let db = pre.db@;
            if a.len() < 1 {
                (r matches Err(e) && e is WrongArity) && post.db@ == db
            } else if spec_msg_bytes(a[0]) is None {
                (r matches Err(e) && e is InvalidRequestMsg) && post.db@ == db
            } else {
                let k = spec_msg_bytes(a[0])->Some_0;
                if !db.contains_key(k) {
                    (r matches Ok(m) && m@ == MessageV::Nil) && post.db@ == db
                } else if !(db[k].enc is LWWSet) {
                    (r matches Err(e) && e is InvalidType) && post.db@ == db
                } else {
                    exists|i: int|
                        0 <= i < pre.db.entries@.len() && (#[trigger] pre.db.entries@[i]).0@ == k && {
                            let s = pre.db.entries@[i].1.enc->LWWSet_0;
                            let ll = live_list(s.entries_seq());
                            if ll.len() == 0 {
                                (r matches Ok(m) && m@ == MessageV::Nil) && post.db@
                                    == db
                            } else {
                                (r matches Ok(m) && m@ == MessageV::Bulk(ll[0])) && post.db@ == db.insert(
                                    k,
                                    spec_updated(
                                        ObjectV {
                                            ct: db[k].ct,
                                            ut: db[k].ut,
                                            dt: db[k].dt,
                                            enc: EncV::LWWSet(
                                                spec_set_remove(db[k].enc->LWWSet_0, ll[0], uuid),
                                            ),
                                        },
                                        uuid,
                                    ),
                                )
                            }
                        }
                }
            }
        })
        )
}

/// What `smembers_command` guarantees, over the states before and after the call.
pub open spec fn smembers_command_post(
    pre: Server,
    post: Server,
    client: Option<Client>,
    nodeid: u64,
    uuid: u64,
    a: Seq<MessageV>,
    r: Result<Message, CstError>,
) -> bool {
        &&& (post == pre)
        &&& (
        ({
            let db = pre.db@;
            if a.len() < 1 {
                r matches Err(e) && e is WrongArity
            } else if spec_msg_bytes(a[0]) is None {
                r matches Err(e) && e is InvalidRequestMsg
            } else {
                let k = spec_msg_bytes(a[0])->Some_0;
                if !db.contains_key(k) {
                    r matches Ok(m) && m@ == MessageV::Array(Seq::empty())
                } else if !(db[k].enc is LWWSet) {
                    r matches Err(e) && e is InvalidType
                } else {
                    r matches Ok(m) && exists|i: int|
                        0 <= i < pre.db.entries@.len() && (#[trigger] pre.db.entries@[i]).0@ == k && m@ == MessageV::Array(
                            live_list(
                                pre.db.entries@[i].1.enc->LWWSet_0.entries_seq(),
                            ).map_values(|b: Seq<u8>| MessageV::Bulk(b)),
                        )
                }
            }
        })
        )
}

/// What `delset_command` guarantees, over the states before and after the call.
pub open spec fn delset_command_post(
    pre: Server,
    post: Server,
    client: Option<Client>,
    nodeid: u64,
    uuid: u64,
    a: Seq<MessageV>,
    r: Result<Message, CstError>,
) -> bool {
        &&& (same_except_db(pre, post))
        &&& (
        ({
            let db = pre.db@;
            if a.len() < 1 {
                (r matches Err(e) && e is WrongArity) && post.db@ == db
            } else if spec_msg_bytes(a[0]) is None {
                (r matches Err(e) && e is InvalidRequestMsg) && post.db@ == db
            } else {
                let k = spec_msg_bytes(a[0])->Some_0;
                if db.contains_key(k) && !(db[k].enc is LWWSet) {
                    (r matches Err(e) && e is InvalidType) && post.db@ == db
                } else {
                    let o = if db.contains_key(k) {
                        db[k]
                    } else {
                        ObjectV { ct: uuid, ut: 0u64, dt: 0u64, enc: EncV::LWWSet(Map::empty()) }
                    };
                    let res = ObjectV {
                        ct: o.ct,
                        ut: max64(o.ut, uuid),
                        dt: max64(o.dt, uuid),
                        enc: EncV::LWWSet(
                            o.enc->LWWSet_0.map_values(
                                |ts: (u64, u64)| (ts.0, max64(ts.1, uuid)),
                            ),
                        ),
                    };
                    post.db@ == db.insert(k, res) && (r matches Ok(m) && m@
                        == MessageV::NoReply)
                }
            }
        })
        )
}

/// Raises the listed members' `add_ts` to `uuid`, creating the set when the
/// key is new.  A key of another variant is a type error.
pub fn sadd_command(
    server: &mut Server,
    _client: Option<&Client>,
    _nodeid: u64,
    uuid: u64,
    args: &Vec<Message>,
) -> (r: Result<Message, CstError>)
    requires
        old(server).wf(),
    ensures
        final(server).wf(),
        sadd_command_post(*old(server), *final(server), opt_client(_client), _nodeid, uuid, argv(args), r),
{
    sadd_srem(server, uuid, args, false)
}

/// Raises the listed members' `remove_ts` to `uuid`; a removal of a member
/// never seen records a tombstone for it.
pub fn srem_command(
    server: &mut Server,
    _client: Option<&Client>,
    _nodeid: u64,
    uuid: u64,
    args: &Vec<Message>,
) -> (r: Result<Message, CstError>)
    requires
        old(server).wf(),
    ensures
        final(server).wf(),
        srem_command_post(*old(server), *final(server), opt_client(_client), _nodeid, uuid, argv(args), r),
{
    sadd_srem(server, uuid, args, true)
}

/// The shared body of `sadd` and `srem`.
fn sadd_srem(server: &mut Server, uuid: u64, args: &Vec<Message>, removing: bool) -> (r: Result<
    Message,
    CstError,
>)
    requires
        old(server).wf(),
    ensures
        final(server).wf(),
        same_except_db(*old(server), *final(server)),
        ({
            let a = argv(args);
            let db = old(server).db@;
            if a.len() < 1 {
                (r matches Err(e) && e is WrongArity) && final(server).db@ == db
            } else if spec_msg_bytes(a[0]) is None {
                (r matches Err(e) && e is InvalidRequestMsg) && final(server).db@ == db
            } else if spec_bytes_list(a.drop_first()) is None {
                (r matches Err(e) && e is InvalidRequestMsg) && final(server).db@ == db
            } else {
                let k = spec_msg_bytes(a[0])->Some_0;
                let ms = spec_bytes_list(a.drop_first())->Some_0;
                if db.contains_key(k) && !(db[k].enc is LWWSet) {
                    (r matches Err(e) && e is InvalidType) && final(server).db@ == db
                } else {
                    final(server).db@ == db.insert(
                        k,
                        spec_sadd_result(db, k, ms, uuid, removing),
                    ) && (r matches Ok(m) && m@ == MessageV::Simple(seq![79u8, 75u8]))
                }
            }
        }),
{
    let mut it = ArgIter::new(args);
    let key = match it.next_bytes() {
        Ok(k) => k,
        Err(e) => {
            return Err(e);
        }
    };
    let members = match parse_bytes_list(&mut it) {
        Ok(ms) => ms,
        Err(e) => {
            return Err(e);
        }
    };
    let ghost db0 = server.db@;
    let mut o = match server.db.take(key.as_slice()) {
        None => Object::new(Encoding::LWWSet(LwwSet::new()), uuid, 0),
        Some(o) => o,
    };
    let is_set = match &o.enc {
        Encoding::LWWSet(_) => true,
        _ => false,
    };
    if !is_set {
        server.db.add(key, o);
        proof {
            assert(server.db@ =~= db0);
        }
        return Err(CstError::InvalidType);
    }
    match &mut o.enc {
        Encoding::LWWSet(s) => {
            if removing {
                s.remove_members(&members, uuid);
            } else {
                s.add_members(&members, uuid);
            }
        }
        _ => {
            proof {
                assert(false);
            }
        }
    }
    o.updated_at(uuid);
    server.db.add(key, o);
    proof {
        assert(server.db@ =~= db0.insert(
            key@,
            spec_sadd_result(db0, key@, members@.map_values(|b: Vec<u8>| b@), uuid, removing),
        ));
    }
    Ok(crate::resp::new_msg_ok())
}

/// Removes and replies the first live member in representation order, `Nil`
/// when the key is missing or the set has no live member.
pub fn spop_command(
    server: &mut Server,
    _client: Option<&Client>,
    _nodeid: u64,
    uuid: u64,
    args: &Vec<Message>,
) -> (r: Result<Message, CstError>)
    requires
        old(server).wf(),
    ensures
        final(server).wf(),
        spop_command_post(*old(server), *final(server), opt_client(_client), _nodeid, uuid, argv(args), r),
{
    let mut it = ArgIter::new(args);
    let key = match it.next_bytes() {
        Ok(k) => k,
        Err(e) => {
            return Err(e);
        }
    };
    let ghost db0 = server.db@;
    let mut o = match server.db.take(key.as_slice()) {
        None => {
            return Ok(Message::Nil);
        }
        Some(o) => o,
    };
    let is_set = match &o.enc {
        Encoding::LWWSet(_) => true,
        _ => false,
    };
    if !is_set {
        server.db.add(key, o);
        proof {
            assert(server.db@ =~= db0);
        }
        return Err(CstError::InvalidType);
    }
    let ghost witness_i = choose|i: int|
        0 <= i < old(server).db.entries@.len() && (#[trigger] old(server).db.entries@[i]).0@
            == key@ && o == old(server).db.entries@[i].1;
    let popped: Option<Vec<u8>> = match &mut o.enc {
        Encoding::LWWSet(s) => {
            let live = s.iter_live();
            if live.len() == 0 {
                None
            } else {
                let m = crate::resp::dup_bytes(&live[0]);
                proof {
                    assert(live@.map_values(|b: Vec<u8>| b@)[0] == live@[0]@);
                }
                s.remove_member(m.as_slice(), uuid);
                Some(m)
            }
        }
        _ => {
            proof {
                assert(false);
            }
            None
        }
    };
    match popped {
        None => {
            server.db.add(key, o);
            proof {
                assert(server.db@ =~= db0);
            }
            Ok(Message::Nil)
        }
        Some(m) => {
            let reply = crate::resp::dup_bytes(&m);
            o.updated_at(uuid);
            server.db.add(key, o);
            proof {
                assert(server.db@ =~= db0.insert(key@, server.db@[key@]));
            }
            Ok(Message::Bulk(reply))
        }
    }
}

/// Lists the live members in representation order; an empty array for a
/// missing key.
pub fn smembers_command(
    server: &mut Server,
    _client: Option<&Client>,
    _nodeid: u64,
    _uuid: u64,
    args: &Vec<Message>,
) -> (r: Result<Message, CstError>)
    requires
        old(server).wf(),
    ensures
        final(server).wf(),
        smembers_command_post(*old(server), *final(server), opt_client(_client), _nodeid, _uuid, argv(args), r),
{
    let mut it = ArgIter::new(args);
    let key = match it.next_bytes() {
        Ok(k) => k,
        Err(e) => {
            return Err(e);
        }
    };
    match server.db.query(key.as_slice()) {
        None => Ok(Message::Array(Vec::new())),
        Some(o) => {
            match &o.enc {
                Encoding::LWWSet(s) => {
                    let live = s.iter_live();
                    let ghost lv = live_list(s.entries_seq());
                    let mut items: Vec<Message> = Vec::new();
                    let mut i: usize = 0;
                    while i < live.len()
                        invariant
                            0 <= i <= live@.len(),
                            live@.map_values(|b: Vec<u8>| b@) == lv,
                            items@.len() == i,
                            forall|j: int| 0 <= j < i ==> items@[j]@ == MessageV::Bulk(lv[j]),
                        decreases live@.len() - i,
                    {
                        proof {
                            assert(lv[i as int] == live@.map_values(|b: Vec<u8>| b@)[i as int]);
                        }
                        items.push(Message::Bulk(crate::resp::dup_bytes(&live[i])));
                        i = i + 1;
                    }
                    proof {
                        lemma_msgs_view(items@);
                        assert forall|j: int| 0 <= j < lv.len() implies msgs_view(items@)[j]
                            == lv.map_values(|b: Seq<u8>| MessageV::Bulk(b))[j] by {
                            assert(msgs_view(items@)[j] == items@[j]@);
                        }
                        assert(msgs_view(items@) =~= lv.map_values(
                            |b: Seq<u8>| MessageV::Bulk(b),
                        ));
                    }
                    Ok(Message::Array(items))
                }
                _ => Err(CstError::InvalidType),
            }
        }
    }
}

/// Replays a set deletion: tombstones every member at the deletion's uuid
/// and tombstones the object itself.
pub fn delset_command(
    server: &mut Server,
    _client: Option<&Client>,
    _nodeid: u64,
    uuid: u64,
    args: &Vec<Message>,
) -> (r: Result<Message, CstError>)
    requires
        old(server).wf(),
    ensures
        final(server).wf(),
        delset_command_post(*old(server), *final(server), opt_client(_client), _nodeid, uuid, argv(args), r),
{
    let mut it = ArgIter::new(args);
    let key = match it.next_bytes() {
        Ok(k) => k,
        Err(e) => {
            return Err(e);
        }
    };
    let ghost db0 = server.db@;
    let mut o = match server.db.take(key.as_slice()) {
        None => Object::new(Encoding::LWWSet(LwwSet::new()), uuid, 0),
        Some(o) => o,
    };
    let is_set = match &o.enc {
        Encoding::LWWSet(_) => true,
        _ => false,
    };
    if !is_set {
        server.db.add(key, o);
        proof {
            assert(server.db@ =~= db0);
        }
        return Err(CstError::InvalidType);
    }
    match &mut o.enc {
        Encoding::LWWSet(s) => {
            s.remove_all(uuid);
        }
        _ => {
            proof {
                assert(false);
            }
        }
    }
    o.delete_time = crate::util::max_u64(o.delete_time, uuid);
    o.update_time = crate::util::max_u64(o.update_time, uuid);
    server.db.add(key, o);
    proof {
        let kk = key@;
        let ov: ObjectV = if db0.contains_key(kk) {
            db0[kk]
        } else {
            ObjectV { ct: uuid, ut: 0u64, dt: 0u64, enc: EncV::LWWSet(Map::empty()) }
        };
        assert(server.db@ =~= db0.insert(
            kk,
            ObjectV {
                ct: ov.ct,
                ut: max64(ov.ut, uuid),
                dt: max64(ov.dt, uuid),
                enc: EncV::LWWSet(
                    ov.enc->LWWSet_0.map_values(|ts: (u64, u64)| (ts.0, max64(ts.1, uuid))),
                ),
            },
        ));
    }
    Ok(Message::NoReply)
}

} // verus!
