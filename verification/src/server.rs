//! The server: node identity, the key store, the replication log, the
//! replica registry, and the monotone uuid generator that tags every write.

use vstd::prelude::*;
use crate::repl_log::{ReplLog, RecordV};
use crate::replica::Registry;
use crate::resp::{Message, msgs_view};
use crate::store::KeyStore;

verus! {

/// What a link task is asked to do for a peer address: dial out and start a
/// handshake, or take over an accepted connection that sent `sync`.
pub enum LinkKind {
    Dial,
    TakeOver,
}

/// A request the server hands to the surrounding runtime: open a replica
/// link for this address.
pub struct LinkRequest {
    pub addr: Vec<u8>,
    pub kind: LinkKind,
}

/// One connected client, as the command layer sees it.
pub struct Client {
    pub addr: Vec<u8>,
    pub thread_id: u64,
    pub close: bool,
}

/// The server state owned by the command-processing task.
pub struct Server {
    pub node_id: u64,
    pub node_alias: Vec<u8>,
    pub addr: Vec<u8>,
    pub db: KeyStore,
    pub repl_log: ReplLog,
    pub replicas: Registry,
    pub uuid_hwm: u64,
    pub cmds_processed: u64,
    pub pending_links: Vec<LinkRequest>,
}

/// The client seen by a handler, as a value for its contract.
pub open spec fn opt_client(c: Option<&Client>) -> Option<Client> {
    match c {
        Some(x) => Some(*x),
        None => None,
    }
}

/// The two states agree outside the key store.
pub open spec fn same_except_db(a: Server, b: Server) -> bool {
    b == (Server { db: b.db, ..a })
}

/// The two states agree outside the key store and the replication log.
pub open spec fn same_except_db_log(a: Server, b: Server) -> bool {
    b == (Server { db: b.db, repl_log: b.repl_log, ..a })
}

/// The two states agree outside the node's identity.
pub open spec fn same_except_identity(a: Server, b: Server) -> bool {
    b == (Server { node_id: b.node_id, node_alias: b.node_alias, ..a })
}

/// The two states agree outside the membership state: the registry and the
/// pending link requests.
pub open spec fn same_except_membership(a: Server, b: Server) -> bool {
    b == (Server { replicas: b.replicas, pending_links: b.pending_links, ..a })
}

impl Server {
    /// Structural soundness: the parts are sound and no retained record is
    /// newer than the uuid high-water mark.
    pub open spec fn wf(&self) -> bool {
        &&& self.db.wf()
        &&& self.repl_log.wf()
        &&& self.replicas.wf()
        &&& forall|i: int|
            0 <= i < self.repl_log@.len() ==> (#[trigger] self.repl_log@[i]).uuid <= self.uuid_hwm
    }

    /// A fresh server with the given identity, an empty store, and a log
    /// bounded at `log_cap`.
    pub fn new(node_id: u64, node_alias: Vec<u8>, addr: Vec<u8>, log_cap: usize) -> (s: Server)
        requires
            log_cap >= 1,
        ensures
            s.wf(),
            s.node_id == node_id,
            s.node_alias@ == node_alias@,
            s.addr@ == addr@,
            s.db@ == Map::<Seq<u8>, crate::object::ObjectV>::empty(),
            s.repl_log@ == Seq::<RecordV>::empty(),
            s.replicas@ == Map::<Seq<u8>, crate::replica::EntryV>::empty(),
            s.uuid_hwm == 0,
            s.cmds_processed == 0,
            s.pending_links@.len() == 0,
    {
        Server {
            node_id,
            node_alias,
            addr,
            db: KeyStore::new(),
            repl_log: ReplLog::new(log_cap),
            replicas: Registry::new(),
            uuid_hwm: 0,
            cmds_processed: 0,
            pending_links: Vec::new(),
        }
    }

    /// Draws the next uuid: strictly greater than everything drawn before
    /// and never zero.  Reads draw from the same source for snapshot
    /// isolation; their values need not be retained.
    pub fn next_uuid(&mut self, is_write: bool) -> (r: u64)
        requires
            old(self).wf(),
            old(self).uuid_hwm < u64::MAX,
        ensures
            final(self).wf(),
            r == old(self).uuid_hwm + 1,
            r > 0,
            *final(self) == (Server { uuid_hwm: r, ..*old(self) }),
    {
        let _ = is_write;
        self.uuid_hwm = self.uuid_hwm + 1;
        self.uuid_hwm
    }

    /// Appends one record to the replication log for the links to stream.
    pub fn replicate_cmd(&mut self, uuid: u64, name: Vec<u8>, args: Vec<Message>)
        requires
            old(self).wf(),
            uuid <= old(self).uuid_hwm,
            forall|i: int|
                0 <= i < old(self).repl_log@.len() ==> (#[trigger] old(self).repl_log@[i]).uuid
                    < uuid,
        ensures
            final(self).wf(),
            final(self).repl_log@ == (if old(self).repl_log@.len() < old(self).repl_log.cap {
                old(self).repl_log@
            } else {
                old(self).repl_log@.drop_first()
            }).push(RecordV { uuid, name: name@, args: msgs_view(args@) }),
            final(self).repl_log.cap == old(self).repl_log.cap,
            *final(self) == (Server { repl_log: final(self).repl_log, ..*old(self) }),
    {
        self.repl_log.append(uuid, name, args);
    }

    /// The uuid of the newest record the log retains, zero when it is empty.
    pub fn get_repl_last_uuid(&self) -> (r: u64)
        requires
            self.wf(),
        ensures
            r == if self.repl_log@.len() == 0 {
                0u64
            } else {
                self.repl_log@.last().uuid
            },
    {
        self.repl_log.last_uuid()
    }
}

} // verus!
