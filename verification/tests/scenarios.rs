use cstkv::cmd::{Cmd, node_command, get_command, set_command, desc_command, del_command,
    delbytes_command, repllog_command, client_command, info_command};
use cstkv::object::{Encoding, Object};
use cstkv::resp::Message;
use cstkv::server::Server;
use cstkv::type_counter::{incr_command, decr_command, delcnt_command};
use cstkv::type_set::{sadd_command, srem_command, spop_command, smembers_command, delset_command};
use cstkv::type_hash::{hset_command, hget_command, hgetall_command, hdel_command};
use cstkv::CstError;

fn new_server(id: u64) -> Server {
    let mut s = Server::new(id, b"node-alias".to_vec(), b"127.0.0.1:4000".to_vec(), 64);
    // scenario uuids are handed in explicitly; keep the generator ahead
    s.uuid_hwm = 1000;
    s
}

fn bulk(b: &[u8]) -> Message {
    Message::Bulk(b.to_vec())
}

fn as_bulk(m: Message) -> Vec<u8> {
    match m {
        Message::Bulk(b) => b,
        Message::Simple(b) => b,
        _ => panic!("expected a byte reply"),
    }
}

fn as_int(m: Message) -> i64 {
    match m {
        Message::Integer(i) => i,
        _ => panic!("expected an integer reply"),
    }
}

fn member_list(m: Message) -> Vec<Vec<u8>> {
    match m {
        Message::Array(items) => items.into_iter().map(as_bulk).collect(),
        _ => panic!("expected an array reply"),
    }
}

/// Node A sets at uuid 10, node B at uuid 11; after merging, both hold B's
/// value and the description reports the later create time.
#[test]
fn lww_register_conflict() {
    let mut a = new_server(1);
    let mut b = new_server(2);
    set_command(&mut a, None, 1, 10, &vec![bulk(b"k"), bulk(b"x")]).unwrap();
    set_command(&mut b, None, 2, 11, &vec![bulk(b"k"), bulk(b"y")]).unwrap();

    let mut a_obj = a.db.take(b"k").unwrap();
    let mut b_obj = b.db.take(b"k").unwrap();
    let a_copy = a.db.take(b"missing").is_none();
    assert!(a_copy);

    // merge each side with the other
    let b_for_a = Object {
        create_time: b_obj.create_time,
        update_time: b_obj.update_time,
        delete_time: b_obj.delete_time,
        enc: Encoding::Bytes(match &b_obj.enc {
            Encoding::Bytes(v) => v.clone(),
            _ => panic!(),
        }),
    };
    a_obj.merge(&b_for_a).unwrap();
    b_obj.merge(&a_obj).unwrap();

    assert_eq!(a_obj.create_time, 11);
    assert_eq!(b_obj.create_time, 11);
    assert!(a_obj.alive());
    match (&a_obj.enc, &b_obj.enc) {
        (Encoding::Bytes(x), Encoding::Bytes(y)) => {
            assert_eq!(x, b"y");
            assert_eq!(y, b"y");
        }
        _ => panic!("expected byte values"),
    }

    a.db.add(b"k".to_vec(), a_obj);
    let got = get_command(&mut a, None, 1, 12, &vec![bulk(b"k")]).unwrap();
    assert_eq!(as_bulk(got), b"y".to_vec());
    // the description reports the later create time
    let d = desc_command(&mut a, None, 1, 13, &vec![bulk(b"k")]).unwrap();
    match d {
        Message::Array(items) => {
            assert_eq!(as_bulk(items[0].duplicate()), b"ct: 11".to_vec());
            assert_eq!(as_bulk(items[3].duplicate()), b"bytes".to_vec());
        }
        _ => panic!("expected a description"),
    }
}

/// A adds 3 at uuid 5, B adds 4 at uuid 6, A subtracts 1 at uuid 7; after
/// merging, both counters read 6.
#[test]
fn counter_convergence() {
    let mut a = new_server(1);
    let mut b = new_server(2);
    incr_command(&mut a, None, 1, 5, &vec![bulk(b"k"), Message::Integer(3)]).unwrap();
    incr_command(&mut b, None, 2, 6, &vec![bulk(b"k"), Message::Integer(4)]).unwrap();
    decr_command(&mut a, None, 1, 7, &vec![bulk(b"k"), Message::Integer(1)]).unwrap();

    let mut a_obj = a.db.take(b"k").unwrap();
    let mut b_obj = b.db.take(b"k").unwrap();
    a_obj.merge(&b_obj).unwrap();
    b_obj.merge(&a_obj).unwrap();
    a.db.add(b"k".to_vec(), a_obj);
    b.db.add(b"k".to_vec(), b_obj);

    let ga = get_command(&mut a, None, 1, 8, &vec![bulk(b"k")]).unwrap();
    let gb = get_command(&mut b, None, 2, 8, &vec![bulk(b"k")]).unwrap();
    assert_eq!(as_int(ga), 6);
    assert_eq!(as_int(gb), 6);
}

/// A write after a deletion restores liveness: set at 1, delete at 2, then
/// a replayed set at 3 leaves the key alive with the new value.
#[test]
fn resurrection() {
    let mut a = new_server(1);
    set_command(&mut a, None, 1, 1, &vec![bulk(b"k"), bulk(b"a")]).unwrap();
    let deleted = del_command(&mut a, None, 1, 2, &vec![bulk(b"k")]).unwrap();
    assert_eq!(as_int(deleted), 1);
    // B saw only the set and writes "b" at uuid 3; its record replays on A
    set_command(&mut a, None, 2, 3, &vec![bulk(b"k"), bulk(b"b")]).unwrap();

    let o = a.db.query(b"k").unwrap();
    assert!(o.alive());
    assert!(o.created_before(4));
    assert!(!o.created_before(3));
    assert_eq!(o.create_time, 3);
    assert_eq!(o.delete_time, 2);
    let got = get_command(&mut a, None, 1, 4, &vec![bulk(b"k")]).unwrap();
    assert_eq!(as_bulk(got), b"b".to_vec());
}

/// A tombstoned set keeps its variant: merging a byte value into it fails
/// with a type conflict and the set stays as it was.
#[test]
fn type_safety_across_tombstone() {
    let mut a = new_server(1);
    let mut b = new_server(2);
    sadd_command(&mut a, None, 1, 1, &vec![bulk(b"k"), bulk(b"x")]).unwrap();
    del_command(&mut a, None, 1, 2, &vec![bulk(b"k")]).unwrap();
    set_command(&mut b, None, 2, 3, &vec![bulk(b"k"), bulk(b"v")]).unwrap();

    let mut a_obj = a.db.take(b"k").unwrap();
    let b_obj = b.db.take(b"k").unwrap();
    let r = a_obj.merge(&b_obj);
    assert!(matches!(r, Err(CstError::TypeConflict)));
    assert!(!a_obj.alive());
    assert!(matches!(a_obj.enc, Encoding::LWWSet(_)));
}

/// Deleting a set tombstones its members and replicates as a set deletion;
/// a later add on another node survives the merge.
#[test]
fn set_delete_with_late_add() {
    let mut a = new_server(1);
    let mut b = new_server(2);
    sadd_command(&mut a, None, 1, 1, &vec![bulk(b"k"), bulk(b"x"), bulk(b"y")]).unwrap();
    del_command(&mut a, None, 1, 2, &vec![bulk(b"k")]).unwrap();
    // the deletion replicated as a delset record
    assert_eq!(a.repl_log.len(), 1);
    assert_eq!(a.repl_log.record_at(0).name, b"delset".to_vec());
    sadd_command(&mut b, None, 2, 3, &vec![bulk(b"k"), bulk(b"z")]).unwrap();

    let mut a_obj = a.db.take(b"k").unwrap();
    let b_obj = b.db.take(b"k").unwrap();
    a_obj.merge(&b_obj).unwrap();
    a.db.add(b"k".to_vec(), a_obj);

    let members = smembers_command(&mut a, None, 1, 4, &vec![bulk(b"k")]).unwrap();
    assert_eq!(member_list(members), vec![b"z".to_vec()]);
}

/// A node that meets one member of a cluster learns the others through the
/// membership gossip and links to them.
#[test]
fn transitive_join() {
    let mut c = new_server(3);
    // join through B
    let r = cstkv::replica::meet_command(
        &mut c,
        None,
        3,
        1,
        &vec![bulk(b"10.0.0.2:4000")],
    )
    .unwrap();
    assert_eq!(as_int(r), 1);
    assert_eq!(c.pending_links.len(), 1);
    assert_eq!(c.pending_links[0].addr, b"10.0.0.2:4000".to_vec());
    // B's gossip names A with the timestamp A was added at
    let meta = cstkv::replica::ReplicaMeta {
        id: 1,
        alias: b"a".to_vec(),
        addr: b"10.0.0.1:4000".to_vec(),
        uuid_i_sent: 0,
        uuid_he_sent: 0,
        last_seen: 0,
    };
    let newly = c.replicas.add_replica(b"10.0.0.1:4000", meta, 7);
    assert!(newly);
    // a second hearing of the same gossip adds nothing
    let meta2 = cstkv::replica::ReplicaMeta {
        id: 1,
        alias: b"a".to_vec(),
        addr: b"10.0.0.1:4000".to_vec(),
        uuid_i_sent: 0,
        uuid_he_sent: 0,
        last_seen: 0,
    };
    assert!(!c.replicas.add_replica(b"10.0.0.1:4000", meta2, 7));
    // a newer removal ends the membership
    assert!(c.replicas.remove_replica(b"10.0.0.1:4000", 9));
}

/// Applying the same replicated record twice leaves the same state as
/// applying it once.
#[test]
fn replay_idempotence() {
    let mut a = new_server(1);
    // a counter deletion record carrying negating deltas
    delcnt_command(
        &mut a,
        None,
        1,
        9,
        &vec![bulk(b"c"), Message::Integer(1), Message::Integer(-5)],
    )
    .unwrap();
    let first = desc_command(&mut a, None, 1, 10, &vec![bulk(b"c")]).unwrap();
    delcnt_command(
        &mut a,
        None,
        1,
        9,
        &vec![bulk(b"c"), Message::Integer(1), Message::Integer(-5)],
    )
    .unwrap();
    let second = desc_command(&mut a, None, 1, 10, &vec![bulk(b"c")]).unwrap();
    assert_eq!(render(&first), render(&second));

    // a member addition replayed at its own uuid
    sadd_command(&mut a, None, 1, 11, &vec![bulk(b"s"), bulk(b"m")]).unwrap();
    let once = member_list(smembers_command(&mut a, None, 1, 12, &vec![bulk(b"s")]).unwrap());
    sadd_command(&mut a, None, 1, 11, &vec![bulk(b"s"), bulk(b"m")]).unwrap();
    let twice = member_list(smembers_command(&mut a, None, 1, 12, &vec![bulk(b"s")]).unwrap());
    assert_eq!(once, twice);
}

fn render(m: &Message) -> String {
    match m {
        Message::Integer(i) => format!("i{}", i),
        Message::Simple(b) => format!("s{:?}", b),
        Message::Bulk(b) => format!("b{:?}", b),
        Message::Error(b) => format!("e{:?}", b),
        Message::Array(items) => {
            let mut out = String::from("[");
            for it in items {
                out.push_str(&render(it));
                out.push(',');
            }
            out.push(']');
            out
        }
        Message::Nil => String::from("nil"),
        Message::NoReply => String::from("none"),
    }
}

/// Saving a store and loading the bytes back reproduces every key, value
/// and timestamp; saving the loaded store gives the same bytes again.
#[test]
fn snapshot_round_trip() {
    let mut a = new_server(1);
    set_command(&mut a, None, 1, 1, &vec![bulk(b"b"), bulk(b"payload")]).unwrap();
    incr_command(&mut a, None, 1, 2, &vec![bulk(b"c"), Message::Integer(41)]).unwrap();
    sadd_command(&mut a, None, 1, 3, &vec![bulk(b"s"), bulk(b"m1"), bulk(b"m2")]).unwrap();
    srem_command(&mut a, None, 1, 4, &vec![bulk(b"s"), bulk(b"m2")]).unwrap();
    hset_command(&mut a, None, 1, 5, &vec![bulk(b"h"), bulk(b"f"), bulk(b"v")]).unwrap();
    del_command(&mut a, None, 1, 6, &vec![bulk(b"b")]).unwrap();

    let mut w = cstkv::snapshot::SnapshotWriter::new();
    a.db.save_snapshot(&mut w);
    let bytes = w.buf.clone();
    let loaded = cstkv::store::KeyStore::load_snapshot(bytes).unwrap();

    let mut w2 = cstkv::snapshot::SnapshotWriter::new();
    loaded.save_snapshot(&mut w2);
    assert_eq!(w.buf, w2.buf);

    let mut b = new_server(2);
    b.db = loaded;
    let got = get_command(&mut b, None, 2, 10, &vec![bulk(b"c")]).unwrap();
    assert_eq!(as_int(got), 41);
    let members = smembers_command(&mut b, None, 2, 10, &vec![bulk(b"s")]).unwrap();
    assert_eq!(member_list(members), vec![b"m1".to_vec()]);
    let hv = hget_command(&mut b, None, 2, 10, &vec![bulk(b"h"), bulk(b"f")]).unwrap();
    assert_eq!(as_bulk(hv), b"v".to_vec());
    // the tombstoned byte value survives with its variant
    let dead = get_command(&mut b, None, 2, 10, &vec![bulk(b"b")]).unwrap();
    assert!(matches!(dead, Message::Nil));
    let o = b.db.query(b"b").unwrap();
    assert!(!o.alive());
}

/// The engine draws fresh uuids, counts commands, refuses replay-only
/// commands from clients, and appends replicated records verbatim.
#[test]
fn engine_replication() {
    let mut a = new_server(1);
    a.uuid_hwm = 0;
    let cmd = Cmd::new(b"SET", vec![bulk(b"k"), bulk(b"v")]).unwrap();
    let r = cmd.exec(None, &mut a).unwrap();
    assert_eq!(as_bulk(r), b"OK".to_vec());
    assert_eq!(a.cmds_processed, 1);
    assert_eq!(a.uuid_hwm, 1);
    assert_eq!(a.repl_log.len(), 1);
    let rec = a.repl_log.record_at(0);
    assert_eq!(rec.uuid, 1);
    assert_eq!(rec.name, b"set".to_vec());

    // a replay-only command is refused from a client
    let bad = Cmd::new(b"delbytes", vec![bulk(b"k")]).unwrap();
    assert!(matches!(bad.exec(None, &mut a), Err(CstError::UnknownCmd(_))));

    // reads do not replicate
    let get = Cmd::new(b"get", vec![bulk(b"k")]).unwrap();
    let got = get.exec(None, &mut a).unwrap();
    assert_eq!(as_bulk(got), b"v".to_vec());
    assert_eq!(a.repl_log.len(), 1);

    // the repllog command serves the record back
    let at = repllog_command(
        &mut a,
        None,
        1,
        99,
        &vec![bulk(b"at"), Message::Integer(1)],
    )
    .unwrap();
    match at {
        Message::Array(items) => {
            assert_eq!(as_int(items[0].duplicate()), 1);
            assert_eq!(as_bulk(items[1].duplicate()), b"set".to_vec());
        }
        _ => panic!("expected the record"),
    }
}

/// A deleted counter replicates explicit negating deltas so that peers
/// converge to zero.
#[test]
fn counter_delete_replicates_deltas() {
    let mut a = new_server(1);
    let mut b = new_server(2);
    incr_command(&mut a, None, 1, 5, &vec![bulk(b"k"), Message::Integer(7)]).unwrap();
    incr_command(&mut b, None, 2, 6, &vec![bulk(b"k"), Message::Integer(7)]).unwrap();
    // both sides see each other's increments before the deletion
    let mut a_obj = a.db.take(b"k").unwrap();
    let mut b_obj = b.db.take(b"k").unwrap();
    a_obj.merge(&b_obj).unwrap();
    b_obj.merge(&a_obj).unwrap();
    a.db.add(b"k".to_vec(), a_obj);
    b.db.add(b"k".to_vec(), b_obj);

    let deleted = del_command(&mut a, None, 1, 8, &vec![bulk(b"k")]).unwrap();
    assert_eq!(as_int(deleted), 1);
    assert_eq!(a.repl_log.len(), 1);
    let rec = a.repl_log.record_at(0);
    assert_eq!(rec.name, b"delcnt".to_vec());
    // replay the record on B
    let args: Vec<Message> = rec.args.iter().map(|m| m.duplicate()).collect();
    delcnt_command(&mut b, None, 2, 8, &args).unwrap();
    // A had seen every increment, so the deltas drive B's counter to zero
    // and the replayed deletion tombstones the key
    let got = get_command(&mut b, None, 2, 9, &vec![bulk(b"k")]).unwrap();
    assert!(matches!(got, Message::Nil));
    let o = b.db.query(b"k").unwrap();
    assert!(!o.alive());
    assert_eq!(o.enc.as_counter().unwrap().get(), 0);
}

/// Popped members leave the set one at a time, in representation order.
#[test]
fn spop_and_srem() {
    let mut a = new_server(1);
    sadd_command(&mut a, None, 1, 1, &vec![bulk(b"s"), bulk(b"x"), bulk(b"y")]).unwrap();
    let first = spop_command(&mut a, None, 1, 2, &vec![bulk(b"s")]).unwrap();
    assert_eq!(as_bulk(first), b"x".to_vec());
    let second = spop_command(&mut a, None, 1, 3, &vec![bulk(b"s")]).unwrap();
    assert_eq!(as_bulk(second), b"y".to_vec());
    let third = spop_command(&mut a, None, 1, 4, &vec![bulk(b"s")]).unwrap();
    assert!(matches!(third, Message::Nil));
    srem_command(&mut a, None, 1, 5, &vec![bulk(b"s"), bulk(b"x")]).unwrap();
    let members = smembers_command(&mut a, None, 1, 6, &vec![bulk(b"s")]).unwrap();
    assert_eq!(member_list(members).len(), 0);
    // tombstoned members are still recorded
    match &a.db.query(b"s").unwrap().enc {
        Encoding::LWWSet(s) => assert_eq!(s.iter_all().len(), 2),
        _ => panic!("expected a set"),
    }
}

/// Dictionary fields appear, read back, and disappear under deletion.
#[test]
fn dict_fields() {
    let mut a = new_server(1);
    hset_command(
        &mut a,
        None,
        1,
        3,
        &vec![bulk(b"h"), bulk(b"f1"), bulk(b"v1"), bulk(b"f2"), bulk(b"v2")],
    )
    .unwrap();
    let v1 = hget_command(&mut a, None, 1, 4, &vec![bulk(b"h"), bulk(b"f1")]).unwrap();
    assert_eq!(as_bulk(v1), b"v1".to_vec());
    hdel_command(&mut a, None, 1, 5, &vec![bulk(b"h"), bulk(b"f1")]).unwrap();
    let gone = hget_command(&mut a, None, 1, 6, &vec![bulk(b"h"), bulk(b"f1")]).unwrap();
    assert!(matches!(gone, Message::Nil));
    let all = hgetall_command(&mut a, None, 1, 7, &vec![bulk(b"h")]).unwrap();
    match all {
        Message::Array(items) => assert_eq!(items.len(), 1),
        _ => panic!("expected an array"),
    }
    match &a.db.query(b"h").unwrap().enc {
        Encoding::LWWDict(d) => assert_eq!(d.iter_all().len(), 2),
        _ => panic!("expected a dictionary"),
    }
    // a write replayed out of order, with an older uuid, cannot win
    hset_command(&mut a, None, 1, 2, &vec![bulk(b"h"), bulk(b"f2"), bulk(b"old")]).unwrap();
    let v2 = hget_command(&mut a, None, 1, 8, &vec![bulk(b"h"), bulk(b"f2")]).unwrap();
    assert_eq!(as_bulk(v2), b"v2".to_vec());
}

/// The node command reads and sets identity, rejecting a non-positive id.
#[test]
fn node_identity() {
    let mut a = new_server(1);
    let id = node_command(&mut a, None, 1, 1, &vec![bulk(b"id")]).unwrap();
    assert_eq!(as_int(id), 1);
    let set_id = node_command(&mut a, None, 1, 1, &vec![bulk(b"id"), bulk(b"9")]).unwrap();
    assert_eq!(as_bulk(set_id), b"OK".to_vec());
    assert_eq!(a.node_id, 9);
    let bad = node_command(&mut a, None, 1, 1, &vec![bulk(b"id"), bulk(b"0")]).unwrap();
    assert!(matches!(bad, Message::Error(_)));
    let alias = node_command(&mut a, None, 1, 1, &vec![bulk(b"alias")]).unwrap();
    assert_eq!(as_bulk(alias), b"node-alias".to_vec());
    let info = info_command(&mut a, None, 1, 1, &vec![]).unwrap();
    assert!(matches!(info, Message::Array(_)));
    let tid = client_command(
        &mut a,
        Some(&cstkv::server::Client { addr: b"x".to_vec(), thread_id: 7, close: false }),
        1,
        1,
        &vec![bulk(b"threadid")],
    )
    .unwrap();
    assert_eq!(as_bulk(tid), b"7".to_vec());
}
