use cstkv::cmd::{Cmd, get_command, node_command, set_command, repllog_command};
use cstkv::replica::{meet_command, forget_command, replicas_command, sync_command, valid_addr};
use cstkv::resp::Message;
use cstkv::server::{Client, Server};
use cstkv::util::{bytes2i64, i64_to_dec, u64_to_dec, slice_eq, to_ascii_lower, max_u64};
use cstkv::CstError;
use cstkv::object::Encoding;
use cstkv::counter::Counter;

fn new_server(id: u64) -> Server {
    let mut s = Server::new(id, b"alias".to_vec(), b"127.0.0.1:4000".to_vec(), 8);
    s.uuid_hwm = 1000;
    s
}

fn bulk(b: &[u8]) -> Message {
    Message::Bulk(b.to_vec())
}

#[test]
fn decimal_parsing() {
    assert_eq!(bytes2i64(b"123"), Some(123));
    assert_eq!(bytes2i64(b"-42"), Some(-42));
    assert_eq!(bytes2i64(b"0"), Some(0));
    assert_eq!(bytes2i64(b"9223372036854775807"), Some(i64::MAX));
    assert_eq!(bytes2i64(b"-9223372036854775808"), Some(i64::MIN));
    assert_eq!(bytes2i64(b"9223372036854775808"), None);
    assert_eq!(bytes2i64(b""), None);
    assert_eq!(bytes2i64(b"-"), None);
    assert_eq!(bytes2i64(b"12a"), None);
    assert_eq!(bytes2i64(b"12345678901234567890123"), None);
}

#[test]
fn decimal_rendering() {
    assert_eq!(u64_to_dec(0), b"0".to_vec());
    assert_eq!(u64_to_dec(90217), b"90217".to_vec());
    assert_eq!(i64_to_dec(-42), b"-42".to_vec());
    assert_eq!(i64_to_dec(i64::MIN), b"-9223372036854775808".to_vec());
    assert_eq!(u64_to_dec(u64::MAX), b"18446744073709551615".to_vec());
}

#[test]
fn byte_helpers() {
    assert!(slice_eq(b"abc", b"abc"));
    assert!(!slice_eq(b"abc", b"abd"));
    assert!(!slice_eq(b"abc", b"ab"));
    assert_eq!(to_ascii_lower(b"GeT"), b"get".to_vec());
    assert_eq!(max_u64(3, 9), 9);
}

#[test]
fn address_validation() {
    assert!(valid_addr(b"127.0.0.1:4000"));
    assert!(valid_addr(b"0.0.0.0:1"));
    assert!(valid_addr(b"255.255.255.255:65535"));
    // the host must be a dotted-quad literal
    assert!(!valid_addr(b"host:1"));
    assert!(!valid_addr(b"a:65535"));
    assert!(!valid_addr(b"256.0.0.1:80"));
    assert!(!valid_addr(b"1.2.3:80"));
    assert!(!valid_addr(b"1.2.3.4.5:80"));
    assert!(!valid_addr(b"01.2.3.4:80"));
    assert!(!valid_addr(b"1..2.3:80"));
    assert!(!valid_addr(b"1.2.3.:80"));
    assert!(!valid_addr(b"no-colon"));
    assert!(!valid_addr(b":4000"));
    assert!(!valid_addr(b"1.2.3.4:"));
    assert!(!valid_addr(b"1.2.3.4:65536"));
    assert!(!valid_addr(b"1.2.3.4:12x"));
    assert!(!valid_addr(b"1.2.3.4:123456"));
}

#[test]
fn command_lookup() {
    assert!(Cmd::new(b"GET", vec![]).is_ok());
    assert!(Cmd::new(b"hGetAll", vec![]).is_ok());
    match Cmd::new(b"nope", vec![]) {
        Err(CstError::UnknownCmd(n)) => assert_eq!(n, b"nope".to_vec()),
        _ => panic!("expected an unknown-command error"),
    }
}

#[test]
fn argument_errors() {
    let mut a = new_server(1);
    // missing key
    assert!(matches!(
        get_command(&mut a, None, 1, 1, &vec![]),
        Err(CstError::WrongArity)
    ));
    // an array cannot coerce to bytes
    assert!(matches!(
        get_command(&mut a, None, 1, 1, &vec![Message::Array(vec![])]),
        Err(CstError::InvalidRequestMsg(_))
    ));
    // missing value
    assert!(matches!(
        set_command(&mut a, None, 1, 1, &vec![bulk(b"k")]),
        Err(CstError::WrongArity)
    ));
    // an integer argument coerces to its decimal bytes
    set_command(&mut a, None, 1, 1, &vec![Message::Integer(7), bulk(b"v")]).unwrap();
    match get_command(&mut a, None, 1, 2, &vec![bulk(b"7")]).unwrap() {
        Message::Bulk(b) => assert_eq!(b, b"v".to_vec()),
        _ => panic!("expected the value"),
    }
    // a wrong-typed key is a type error
    assert!(matches!(
        cstkv::type_set::smembers_command(&mut a, None, 1, 3, &vec![bulk(b"7")]),
        Err(CstError::InvalidType)
    ));
    // a value argument that cannot coerce reads the current id, as a
    // missing one does
    let r = node_command(&mut a, None, 1, 1, &vec![bulk(b"id"), Message::Array(vec![])]).unwrap();
    assert!(matches!(r, Message::Integer(1)));
    // an unknown sub-command names its parent
    match repllog_command(&mut a, None, 1, 4, &vec![bulk(b"bogus")]) {
        Err(CstError::UnknownSubCmd(s, p)) => {
            assert_eq!(s, b"bogus".to_vec());
            assert_eq!(p, b"REPLLOG".to_vec());
        }
        _ => panic!("expected an unknown-sub-command error"),
    }
}

#[test]
fn membership_commands() {
    let mut a = new_server(0);
    // no identity yet
    let refused = meet_command(&mut a, None, 0, 1, &vec![bulk(b"10.0.0.9:4000")]).unwrap();
    assert!(matches!(refused, Message::Error(_)));
    a.node_id = 1;
    let bad = meet_command(&mut a, None, 1, 2, &vec![bulk(b"not an address")]).unwrap();
    assert!(matches!(bad, Message::Error(_)));
    let ok = meet_command(&mut a, None, 1, 3, &vec![bulk(b"10.0.0.9:4000")]).unwrap();
    assert!(matches!(ok, Message::Integer(1)));
    // the membership listing carries the peer
    let listing = replicas_command(&mut a, None, 1, 4, &vec![]).unwrap();
    match listing {
        Message::Array(rows) => assert_eq!(rows.len(), 1),
        _ => panic!("expected an array"),
    }
    let forgotten = forget_command(&mut a, None, 1, 5, &vec![bulk(b"10.0.0.9:4000")]).unwrap();
    assert!(matches!(forgotten, Message::Integer(1)));
    // the removed peer stays in the gossip listing, its removal time with it
    let listing2 = replicas_command(&mut a, None, 1, 6, &vec![]).unwrap();
    match listing2 {
        Message::Array(rows) => {
            assert_eq!(rows.len(), 1);
            match rows[0].duplicate() {
                Message::Array(cols) => {
                    assert_eq!(cols.len(), 5);
                    assert!(matches!(cols[3].duplicate(), Message::Integer(3)));
                    assert!(matches!(cols[4].duplicate(), Message::Integer(5)));
                }
                _ => panic!("expected a row"),
            }
        }
        _ => panic!("expected an array"),
    }
}

#[test]
fn identity_fixed_after_joining() {
    let mut a = new_server(1);
    // before joining, the identity may change
    let ok = node_command(&mut a, None, 1, 1, &vec![bulk(b"id"), bulk(b"5")]).unwrap();
    assert!(matches!(ok, Message::Simple(_)));
    assert_eq!(a.node_id, 5);
    meet_command(&mut a, None, 5, 2, &vec![bulk(b"10.0.0.7:4000")]).unwrap();
    // after joining, setting id or alias is refused and nothing changes
    let r1 = node_command(&mut a, None, 5, 3, &vec![bulk(b"id"), bulk(b"9")]).unwrap();
    assert!(matches!(r1, Message::Error(_)));
    assert_eq!(a.node_id, 5);
    let r2 = node_command(&mut a, None, 5, 3, &vec![bulk(b"alias"), bulk(b"other")]).unwrap();
    assert!(matches!(r2, Message::Error(_)));
    assert_eq!(a.node_alias, b"alias".to_vec());
    // reads still work
    let id = node_command(&mut a, None, 5, 4, &vec![bulk(b"id")]).unwrap();
    assert!(matches!(id, Message::Integer(5)));
}

#[test]
fn unknown_snapshot_tag_is_a_type_conflict() {
    // a well-formed record whose object carries a tag outside the known set
    let mut w = cstkv::snapshot::SnapshotWriter::new();
    w.write_u64(1);
    w.write_bytes(&b"k".to_vec());
    w.write_u64(1);
    w.write_u64(2);
    w.write_u64(0);
    w.write_byte(9);
    match cstkv::store::KeyStore::load_snapshot(w.buf) {
        Err(CstError::TypeConflict) => {}
        _ => panic!("expected a type conflict"),
    }
    // a truncated stream stays an invalid-type failure
    assert!(matches!(
        cstkv::store::KeyStore::load_snapshot(vec![1, 2, 3]),
        Err(CstError::InvalidType)
    ));
}

#[test]
fn handshake_records_peer() {
    let mut a = new_server(1);
    let c = Client { addr: b"10.9.8.7:555".to_vec(), thread_id: 1, close: false };
    let r = sync_command(
        &mut a,
        Some(&c),
        1,
        2,
        &vec![
            Message::Integer(0),
            Message::Integer(42),
            bulk(b"peer-alias"),
            Message::Integer(17),
        ],
    )
    .unwrap();
    assert!(matches!(r, Message::NoReply));
    assert_eq!(a.pending_links.len(), 1);
    assert_eq!(a.pending_links[0].addr, b"10.9.8.7:555".to_vec());
    // the registry now carries the peer under its address
    let listing = replicas_command(&mut a, None, 1, 3, &vec![]).unwrap();
    match listing {
        Message::Array(rows) => assert_eq!(rows.len(), 1),
        _ => panic!("expected an array"),
    }
    // without a connected client the handshake is refused
    assert!(matches!(
        sync_command(&mut a, None, 1, 4, &vec![]),
        Err(CstError::InvalidRequestMsg(_))
    ));
}

#[test]
fn log_bounds_and_lookup() {
    let mut a = new_server(1);
    a.uuid_hwm = 0;
    // the log keeps at most its bound of records; the oldest falls off
    for i in 0..10u8 {
        let cmd = Cmd::new(
            b"set",
            vec![bulk(&[b'k', b'0' + i]), bulk(b"v")],
        )
        .unwrap();
        cmd.exec(None, &mut a).unwrap();
    }
    assert_eq!(a.repl_log.len(), 8);
    let uuids = a.repl_log.uuids();
    assert_eq!(uuids.first().copied(), Some(3));
    assert_eq!(uuids.last().copied(), Some(10));
    // a record past the horizon is gone
    let gone = repllog_command(
        &mut a,
        None,
        1,
        99,
        &vec![bulk(b"at"), Message::Integer(1)],
    )
    .unwrap();
    assert!(matches!(gone, Message::Nil));
}

#[test]
fn variant_names() {
    assert_eq!(Encoding::Counter(Counter::new()).name(), "Counter");
    assert_eq!(Encoding::Bytes(vec![]).name(), "Bytes");
}

#[test]
fn fresh_node_replays_peer_records() {
    // a fresh replica (high-water mark zero) replays a faster peer's records
    let mut b = Server::new(2, b"b".to_vec(), b"127.0.0.1:4001".to_vec(), 8);
    let cmd = Cmd::new(b"set", vec![bulk(b"k"), bulk(b"v")]).unwrap();
    let r = cmd.exec_detail(&mut b, None, 1, 50, false).unwrap();
    assert!(matches!(r, Message::Simple(_)));
    let got = get_command(&mut b, None, 2, 51, &vec![bulk(b"k")]).unwrap();
    match got {
        Message::Bulk(v) => assert_eq!(v, b"v".to_vec()),
        _ => panic!("expected the replayed value"),
    }
    // nothing was re-replicated
    assert_eq!(b.repl_log.len(), 0);
}

#[test]
fn snapshot_rejects_garbage() {
    assert!(cstkv::store::KeyStore::load_snapshot(vec![1, 2, 3]).is_err());
    // a claimed record count with no records behind it
    let mut w = cstkv::snapshot::SnapshotWriter::new();
    w.write_u64(5);
    assert!(cstkv::store::KeyStore::load_snapshot(w.buf).is_err());
}
