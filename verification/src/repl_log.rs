//! The replication log: a bounded, append-only sequence of the records a
//! node has accepted locally and must disseminate, addressable by uuid.
//!
//! Uuids are strictly increasing along the log.  When the bound is reached
//! the oldest record falls off; a peer behind that horizon must bootstrap
//! from a snapshot instead.

use vstd::prelude::*;
use crate::resp::{Message, MessageV, msgs_view};

verus! {

/// One replicated record: the write's uuid, the command name, its arguments.
pub struct LogRecord {
    pub uuid: u64,
    pub name: Vec<u8>,
    pub args: Vec<Message>,
}

/// The mathematical shape of a record.
pub struct RecordV {
    pub uuid: u64,
    pub name: Seq<u8>,
    pub args: Seq<MessageV>,
}

impl LogRecord {
    /// The mathematical value of this record.
    pub open spec fn view(&self) -> RecordV {
        RecordV { uuid: self.uuid, name: self.name@, args: msgs_view(self.args@) }
    }
}

/// The mathematical image of the log's representation.
pub open spec fn log_view(s: Seq<LogRecord>) -> Seq<RecordV> {
    s.map_values(|r: LogRecord| r@)
}

/// A bounded append: the record goes on the end and the oldest record falls
/// off when the log is at its bound.
pub open spec fn log_push(log: Seq<RecordV>, cap: int, rec: RecordV) -> Seq<RecordV> {
    if log.len() < cap {
        log.push(rec)
    } else {
        log.drop_first().push(rec)
    }
}

/// The replication log.
pub struct ReplLog {
    pub records: Vec<LogRecord>,
    pub cap: usize,
}

impl ReplLog {
    /// The log as a sequence of record values, oldest first.
    pub open spec fn view(&self) -> Seq<RecordV> {
        log_view(self.records@)
    }

    /// Structural soundness: uuids strictly increase along the log, and the
    /// log respects its bound.
    pub open spec fn wf(&self) -> bool {
        &&& forall|i: int, j: int|
            0 <= i < j < self@.len() ==> (#[trigger] self@[i]).uuid < (#[trigger] self@[j]).uuid
        &&& self@.len() <= self.cap
        &&& self.cap >= 1
    }

    /// An empty log retaining at most `cap` records.
    pub fn new(cap: usize) -> (l: ReplLog)
        requires
            cap >= 1,
        ensures
            l.wf(),
            l@ == Seq::<RecordV>::empty(),
            l.cap == cap,
    {
        let l = ReplLog { records: Vec::new(), cap };
        proof {
            assert(l@ =~= Seq::<RecordV>::empty());
        }
        l
    }

    /// The number of retained records.
    pub fn len(&self) -> (n: usize)
        ensures
            n == self@.len(),
    {
        self.records.len()
    }

    /// The record at one index, oldest first.
    pub fn record_at(&self, i: usize) -> (r: &LogRecord)
        requires
            i < self@.len(),
        ensures
            r@ == self@[i as int],
    {
        &self.records[i]
    }

    /// Appends a record newer than everything retained; the oldest record
    /// falls off when the log is at its bound.
    pub fn append(&mut self, uuid: u64, name: Vec<u8>, args: Vec<Message>)
        requires
            old(self).wf(),
            forall|i: int| 0 <= i < old(self)@.len() ==> (#[trigger] old(self)@[i]).uuid < uuid,
        ensures
            final(self).wf(),
            final(self).cap == old(self).cap,
            final(self)@ == (if old(self)@.len() < old(self).cap {
                old(self)@
            } else {
                old(self)@.drop_first()
            }).push(RecordV { uuid, name: name@, args: msgs_view(args@) }),
    {
        let rec = LogRecord { uuid, name, args };
        if self.records.len() >= self.cap {
            let ghost before = self.records@;
            let _ = self.records.remove(0);
            proof {
                assert(log_view(self.records@) =~= log_view(before).drop_first());
            }
        }
        let ghost mid = self.records@;
        self.records.push(rec);
        proof {
            assert(log_view(self.records@) =~= log_view(mid).push(rec@));
        }
    }

    /// The uuid of the newest retained record, zero on an empty log.
    pub fn last_uuid(&self) -> (r: u64)
        requires
            self.wf(),
        ensures
            r == if self@.len() == 0 {
                0u64
            } else {
                self@.last().uuid
            },
    {
        if self.records.len() == 0 {
            0
        } else {
            self.records[self.records.len() - 1].uuid
        }
    }

    /// Finds the record tagged exactly `uuid`.
    pub fn find_at(&self, uuid: u64) -> (r: Option<usize>)
        ensures
            match r {
                Some(i) => 0 <= i < self@.len() && self@[i as int].uuid == uuid,
                None => forall|i: int| 0 <= i < self@.len() ==> (#[trigger] self@[i]).uuid != uuid,
            },
    {
        let mut i: usize = 0;
        while i < self.records.len()
            invariant
                0 <= i <= self@.len(),
                self@.len() == self.records@.len(),
                forall|j: int| 0 <= j < i ==> (#[trigger] self@[j]).uuid != uuid,
            decreases self@.len() - i,
        {
            if self.records[i].uuid == uuid {
                return Some(i);
            }
            i = i + 1;
        }
        None
    }

    /// The uuids of all retained records, oldest first.
    pub fn uuids(&self) -> (r: Vec<u64>)
        ensures
            r@.len() == self@.len(),
            forall|i: int| 0 <= i < self@.len() ==> r@[i] == (#[trigger] self@[i]).uuid,
    {
        let mut out: Vec<u64> = Vec::new();
        let mut i: usize = 0;
        while i < self.records.len()
            invariant
                0 <= i <= self@.len(),
                self@.len() == self.records@.len(),
                out@.len() == i,
                forall|j: int| 0 <= j < i ==> out@[j] == (#[trigger] self@[j]).uuid,
            decreases self@.len() - i,
        {
            out.push(self.records[i].uuid);
            i = i + 1;
        }
        out
    }
}

} // verus!
