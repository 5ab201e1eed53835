//! The replica registry and the replication control commands.
//!
//! The registry keeps one entry per peer address.  Membership itself is
//! last-writer-wins: an entry carries `added_at` and `removed_at` uuids and
//! the peer is a member exactly when `added_at > removed_at`.

use vstd::prelude::*;
use crate::CstError;
use crate::assoc::{amap, unique_keys, find_key_bytes, lemma_amap_dom, lemma_amap_index,
    lemma_amap_push, lemma_amap_update};
use crate::cmd::{ArgIter, NextArg, argv, spec_msg_bytes, spec_msg_i64};
use crate::resp::{Message, MessageV, msgs_view, lemma_msgs_view};
use crate::server::{Server, Client, LinkKind, LinkRequest, opt_client, same_except_membership};
use crate::util::{max64, max_u64, all_digits, dec_val};

verus! {

/// What a node knows about one peer.
pub struct ReplicaMeta {
    pub id: u64,
    pub alias: Vec<u8>,
    pub addr: Vec<u8>,
    pub uuid_i_sent: u64,
    pub uuid_he_sent: u64,
    pub last_seen: u64,
}

/// The mathematical shape of peer knowledge.
pub struct MetaV {
    pub id: u64,
    pub alias: Seq<u8>,
    pub addr: Seq<u8>,
    pub uuid_i_sent: u64,
    pub uuid_he_sent: u64,
    pub last_seen: u64,
}

impl ReplicaMeta {
    /// The mathematical value of this record.
    pub open spec fn view(&self) -> MetaV {
        MetaV {
            id: self.id,
            alias: self.alias@,
            addr: self.addr@,
            uuid_i_sent: self.uuid_i_sent,
            uuid_he_sent: self.uuid_he_sent,
            last_seen: self.last_seen,
        }
    }

    /// Structural copy of the record.
    pub fn duplicate(&self) -> (m: ReplicaMeta)
        ensures
            m@ == self@,
    {
        ReplicaMeta {
            id: self.id,
            alias: crate::resp::dup_bytes(&self.alias),
            addr: crate::resp::dup_bytes(&self.addr),
            uuid_i_sent: self.uuid_i_sent,
            uuid_he_sent: self.uuid_he_sent,
            last_seen: self.last_seen,
        }
    }
}

/// One registry entry: the peer's record and the membership timestamps.
pub struct ReplicaEntry {
    pub meta: ReplicaMeta,
    pub added_at: u64,
    pub removed_at: u64,
}

/// The mathematical shape of a registry entry.
pub struct EntryV {
    pub meta: MetaV,
    pub added_at: u64,
    pub removed_at: u64,
}

impl ReplicaEntry {
    /// The mathematical value of this entry.
    pub open spec fn view(&self) -> EntryV {
        EntryV { meta: self.meta@, added_at: self.added_at, removed_at: self.removed_at }
    }
}

/// A peer is a member exactly when its addition out-times its removal.
pub open spec fn member(e: EntryV) -> bool {
    e.added_at > e.removed_at
}

/// True when any known peer is a member: the node has joined a cluster.
pub open spec fn spec_joined(s: Seq<(Seq<u8>, EntryV)>) -> bool {
    exists|i: int| 0 <= i < s.len() && member((#[trigger] s[i]).1)
}

/// The membership timestamps known for an address, `(0, 0)` for a stranger.
pub open spec fn reg_ts(m: Map<Seq<u8>, EntryV>, addr: Seq<u8>) -> (u64, u64) {
    if m.contains_key(addr) {
        (m[addr].added_at, m[addr].removed_at)
    } else {
        (0u64, 0u64)
    }
}

/// The effect of an add: the peer's record and `added_at` are adopted when
/// `uuid` is newer than the recorded addition.
pub open spec fn spec_reg_add(m: Map<Seq<u8>, EntryV>, addr: Seq<u8>, meta: MetaV, uuid: u64)
    -> Map<Seq<u8>, EntryV> {
    let cur = reg_ts(m, addr);
    if uuid > cur.0 {
        m.insert(addr, EntryV { meta, added_at: uuid, removed_at: cur.1 })
    } else {
        m
    }
}

/// The effect of a removal: `removed_at` rises to at least `uuid`.
pub open spec fn spec_reg_remove(m: Map<Seq<u8>, EntryV>, addr: Seq<u8>, uuid: u64) -> Map<
    Seq<u8>,
    EntryV,
> {
    if m.contains_key(addr) {
        m.insert(
            addr,
            EntryV {
                meta: m[addr].meta,
                added_at: m[addr].added_at,
                removed_at: max64(m[addr].removed_at, uuid),
            },
        )
    } else {
        m
    }
}

/// The mathematical image of the registry's representation.
pub open spec fn reg_assoc(s: Seq<(Vec<u8>, ReplicaEntry)>) -> Seq<(Seq<u8>, EntryV)> {
    s.map_values(|p: (Vec<u8>, ReplicaEntry)| (p.0@, p.1@))
}

/// The registry of known peers, keyed by address.
pub struct Registry {
    pub entries: Vec<(Vec<u8>, ReplicaEntry)>,
}

impl Registry {
    /// The representation as a mathematical sequence.
    pub open spec fn entries_seq(&self) -> Seq<(Seq<u8>, EntryV)> {
        reg_assoc(self.entries@)
    }

    /// Structural soundness: no address appears twice.
    pub open spec fn wf(&self) -> bool {
        unique_keys(self.entries_seq())
    }

    /// The registry as a map from address to entry.
    pub open spec fn view(&self) -> Map<Seq<u8>, EntryV> {
        amap(self.entries_seq())
    }

    /// The empty registry.
    pub fn new() -> (r: Registry)
        ensures
            r.wf(),
            r@ == Map::<Seq<u8>, EntryV>::empty(),
            r.entries_seq() == Seq::<(Seq<u8>, EntryV)>::empty(),
    {
        let r = Registry { entries: Vec::new() };
        proof {
            assert(r.entries_seq() =~= Seq::<(Seq<u8>, EntryV)>::empty());
        }
        r
    }

    /// The number of known addresses, members or not.
    pub fn len(&self) -> (n: usize)
        ensures
            n == self.entries_seq().len(),
    {
        self.entries.len()
    }

    /// True when any known peer is currently a member: the node has joined
    /// a cluster.
    pub fn has_member(&self) -> (r: bool)
        ensures
            r == spec_joined(self.entries_seq()),
    {
        let mut i: usize = 0;
        while i < self.entries.len()
            invariant
                0 <= i <= self.entries@.len(),
                self.entries_seq().len() == self.entries@.len(),
                forall|j: int| 0 <= j < i ==> !member((#[trigger] self.entries_seq()[j]).1),
            decreases self.entries@.len() - i,
        {
            if self.entries[i].1.added_at > self.entries[i].1.removed_at {
                proof {
                    assert(member(self.entries_seq()[i as int].1));
                }
                return true;
            }
            proof {
                assert(!member(self.entries_seq()[i as int].1));
            }
            i = i + 1;
        }
        false
    }

    /// The entry at one index of the representation.
    pub fn entry_at(&self, i: usize) -> (e: &(Vec<u8>, ReplicaEntry))
        requires
            i < self.entries_seq().len(),
        ensures
            (e.0@, e.1@) == self.entries_seq()[i as int],
    {
        &self.entries[i]
    }

    /// Adopts a peer at `uuid`, last-writer-wins against any prior add or
    /// removal of the same address.  True exactly when the peer was no
    /// member before and is one now.
    pub fn add_replica(&mut self, addr: &[u8], meta: ReplicaMeta, uuid: u64) -> (r: bool)
        requires
            old(self).wf(),
        ensures
            final(self).wf(),
            final(self)@ == spec_reg_add(old(self)@, addr@, meta@, uuid),
            r == (!(old(self)@.contains_key(addr@) && member(old(self)@[addr@])) && uuid
                > reg_ts(old(self)@, addr@).0 && uuid > reg_ts(old(self)@, addr@).1),
    {
        proof {
            lemma_amap_dom(self.entries_seq(), addr@);
        }
        match find_key_bytes(&self.entries, addr) {
            Some(i) => {
                proof {
                    assert(self.entries_seq()[i as int].0 == addr@);
                    lemma_amap_index(self.entries_seq(), i as int);
                }
                let added_at = self.entries[i].1.added_at;
                let removed_at = self.entries[i].1.removed_at;
                let was_member = added_at > removed_at;
                if uuid > added_at {
                    let ghost before = self.entries_seq();
                    let ne = ReplicaEntry { meta, added_at: uuid, removed_at };
                    proof {
                        lemma_amap_update(before, i as int, ne@);
                    }
                    let addr_copy = crate::resp::dup_bytes(&self.entries[i].0);
                    self.entries[i] = (addr_copy, ne);
                    proof {
                        assert(self.entries_seq() =~= before.update(
                            i as int,
                            (addr@, EntryV { meta: meta@, added_at: uuid, removed_at }),
                        ));
                    }
                    !was_member && uuid > removed_at
                } else {
                    false
                }
            }
            None => {
                if uuid > 0 {
                    proof {
                        assert(forall|j: int|
                            0 <= j < self.entries_seq().len() ==> (
                            #[trigger] self.entries_seq()[j]).0 != addr@);
                        lemma_amap_push(
                            self.entries_seq(),
                            addr@,
                            EntryV { meta: meta@, added_at: uuid, removed_at: 0u64 },
                        );
                    }
                    let ghost before = self.entries_seq();
                    let mut owned: Vec<u8> = Vec::new();
                    owned.extend_from_slice(addr);
                    proof {
                        assert(owned@ =~= addr@);
                    }
                    self.entries.push((owned, ReplicaEntry { meta, added_at: uuid, removed_at: 0 }));
                    proof {
                        assert(self.entries_seq() =~= before.push(
                            (addr@, EntryV { meta: meta@, added_at: uuid, removed_at: 0u64 }),
                        ));
                    }
                    true
                } else {
                    false
                }
            }
        }
    }

    /// Removes a peer at `uuid`, last-writer-wins.  True exactly when the
    /// peer was a member before and is none now.
    pub fn remove_replica(&mut self, addr: &[u8], uuid: u64) -> (r: bool)
        requires
            old(self).wf(),
        ensures
            final(self).wf(),
            final(self)@ == spec_reg_remove(old(self)@, addr@, uuid),
            r == (old(self)@.contains_key(addr@) && member(old(self)@[addr@]) && uuid >= old(
                self,
            )@[addr@].added_at),
    {
        proof {
            lemma_amap_dom(self.entries_seq(), addr@);
        }
        match find_key_bytes(&self.entries, addr) {
            Some(i) => {
                proof {
                    assert(self.entries_seq()[i as int].0 == addr@);
                    lemma_amap_index(self.entries_seq(), i as int);
                }
                let added_at = self.entries[i].1.added_at;
                let removed_at = self.entries[i].1.removed_at;
                let was_member = added_at > removed_at;
                let nr = max_u64(removed_at, uuid);
                let ghost before = self.entries_seq();
                let addr_copy = crate::resp::dup_bytes(&self.entries[i].0);
                let meta = self.entries[i].1.meta.duplicate();
                let ne = ReplicaEntry { meta, added_at, removed_at: nr };
                proof {
                    lemma_amap_update(before, i as int, ne@);
                }
                self.entries[i] = (addr_copy, ne);
                proof {
                    assert(self.entries_seq() =~= before.update(i as int, (addr@, ne@)));
                }
                was_member && !(added_at > nr)
            }
            None => false,
        }
    }
}

/// The reply rows for every known peer of a registry representation, in
/// order: address, id, alias, and both membership timestamps, so that a
/// removal travels through the gossip as well as an addition.
pub open spec fn replicas_reply_list(s: Seq<(Seq<u8>, EntryV)>) -> Seq<MessageV>
    decreases s.len(),
{
    if s.len() == 0 {
        Seq::empty()
    } else {
        replicas_reply_list(s.drop_last()).push(
            MessageV::Array(
                seq![
                    MessageV::Bulk(s.last().0),
                    MessageV::Integer(s.last().1.meta.id as i64),
                    MessageV::Bulk(s.last().1.meta.alias),
                    MessageV::Integer(s.last().1.added_at as i64),
                    MessageV::Integer(s.last().1.removed_at as i64),
                ],
            ),
        )
    }
}

/// One address octet: one to three digits valued up to two hundred and
/// fifty-five, with no leading zero.
pub open spec fn valid_octet(s: Seq<u8>) -> bool {
    &&& 1 <= s.len() <= 3
    &&& all_digits(s)
    &&& dec_val(s) <= 255
    &&& (s.len() > 1 ==> s[0] != 48)
}

/// `n` remaining dotted octets of `h` starting at `start`: each segment
/// runs to the first dot, and the last to the end.
pub open spec fn valid_ipv4_from(h: Seq<u8>, start: int, n: nat) -> bool
    decreases n,
{
    if n <= 1 {
        0 <= start <= h.len() && valid_octet(h.subrange(start, h.len() as int))
    } else {
        exists|d: int|
            start < d < h.len() && (#[trigger] h[d]) == 46 && (forall|j: int|
                start <= j < d ==> h[j] != 46) && valid_octet(h.subrange(start, d))
                && valid_ipv4_from(h, d + 1, (n - 1) as nat)
    }
}

/// A dotted-quad address literal.
pub open spec fn spec_valid_ipv4(h: Seq<u8>) -> bool {
    valid_ipv4_from(h, 0, 4)
}

/// A peer address: a dotted-quad host, one colon, and a decimal port below
/// sixty-five thousand five hundred thirty-six, the colon being the last in
/// the text.
pub open spec fn spec_valid_addr(s: Seq<u8>) -> bool {
    exists|i: int|
        0 < i < s.len() - 1 && (#[trigger] s[i]) == 58 && (forall|j: int|
            i < j < s.len() ==> s[j] != 58) && spec_valid_ipv4(s.subrange(0, i)) && all_digits(
            s.skip(i + 1),
        ) && s.len() - i - 1 <= 5 && dec_val(s.skip(i + 1)) <= 65535
}

/// Checks one octet of an address literal.
fn check_octet(s: &[u8], from: usize, to: usize) -> (r: bool)
    requires
        from <= to <= s@.len(),
    ensures
        r == valid_octet(s@.subrange(from as int, to as int)),
{
    let ghost seg = s@.subrange(from as int, to as int);
    let len = to - from;
    if len < 1 || len > 3 {
        return false;
    }
    if len > 1 && s[from] == 48 {
        proof {
            assert(seg[0] == 48);
        }
        return false;
    }
    let mut val: u64 = 0;
    let mut p: usize = from;
    proof {
        assert(seg.take(0) =~= Seq::<u8>::empty());
    }
    while p < to
        invariant
            from <= p <= to,
            to <= s@.len(),
            seg == s@.subrange(from as int, to as int),
            1 <= to - from <= 3,
            all_digits(seg.take(p - from)),
            val == dec_val(seg.take(p - from)),
            val < 1000,
        decreases to - p,
    {
        let c = s[p];
        if c < 48 || c > 57 {
            proof {
                assert(seg[p - from] == c);
                assert(!all_digits(seg));
            }
            return false;
        }
        proof {
            assert(seg.take(p - from + 1).drop_last() =~= seg.take(p - from));
            assert(seg.take(p - from + 1).last() == c);
            crate::util::lemma_dec_val_bound(seg.take(p as int - from + 1));
            crate::util::lemma_pow10_mono((p + 1 - from) as nat, 3);
            assert(crate::util::pow10(3) == 1000) by {
                reveal_with_fuel(crate::util::pow10, 4);
            }
        }
        val = val * 10 + ((c - 48) as u64);
        p = p + 1;
    }
    proof {
        assert(seg.take(p - from) =~= seg);
    }
    val <= 255
}

/// Checks that the first `end` bytes of `s` form a dotted-quad literal.
fn check_ipv4(s: &[u8], end: usize) -> (r: bool)
    requires
        end <= s@.len(),
    ensures
        r == spec_valid_ipv4(s@.subrange(0, end as int)),
{
    let ghost h = s@.subrange(0, end as int);
    let mut start: usize = 0;
    let mut seg: usize = 0;
    while seg < 3
        invariant
            0 <= seg <= 3,
            0 <= start <= end,
            end <= s@.len(),
            h == s@.subrange(0, end as int),
            spec_valid_ipv4(h) == valid_ipv4_from(h, start as int, (4 - seg) as nat),
        decreases 3 - seg,
    {
        // the segment runs to the first dot
        let mut d: usize = start;
        while d < end && s[d] != 46
            invariant
                start <= d <= end,
                end <= s@.len(),
                h == s@.subrange(0, end as int),
                forall|j: int| start <= j < d ==> h[j] != 46,
            decreases end - d,
        {
            proof {
                assert(h[d as int] == s@[d as int]);
            }
            d = d + 1;
        }
        if d >= end {
            proof {
                assert(forall|j: int| start <= j < h.len() ==> h[j] != 46);
                assert(!valid_ipv4_from(h, start as int, (4 - seg) as nat));
            }
            return false;
        }
        proof {
            assert(h[d as int] == 46);
        }
        if !check_octet(s, start, d) {
            proof {
                assert forall|dd: int|
                    !(start < dd < h.len() && (#[trigger] h[dd]) == 46 && (forall|j: int|
                        start <= j < dd ==> h[j] != 46) && valid_octet(
                        h.subrange(start as int, dd),
                    ) && valid_ipv4_from(h, dd + 1, (4 - seg - 1) as nat)) by {
                    if start < dd < h.len() && h[dd] == 46 && (forall|j: int|
                        start <= j < dd ==> h[j] != 46) {
                        assert(dd == d);
                        assert(h.subrange(start as int, dd) =~= s@.subrange(
                            start as int,
                            d as int,
                        ));
                    }
                }
                assert(!valid_ipv4_from(h, start as int, (4 - seg) as nat));
            }
            return false;
        }
        proof {
            assert(h.subrange(start as int, d as int) =~= s@.subrange(start as int, d as int));
            assert forall|dd: int|
                start < dd < h.len() && (#[trigger] h[dd]) == 46 && (forall|j: int|
                    start <= j < dd ==> h[j] != 46) implies dd == d by {}
            assert(valid_ipv4_from(h, start as int, (4 - seg) as nat) == valid_ipv4_from(
                h,
                d + 1,
                (4 - seg - 1) as nat,
            )) by {
                if valid_ipv4_from(h, d + 1, (4 - seg - 1) as nat) {
                    assert(start < d < h.len() && h[d as int] == 46 && (forall|j: int|
                        start <= j < d ==> h[j] != 46) && valid_octet(
                        h.subrange(start as int, d as int),
                    ) && valid_ipv4_from(h, d as int + 1, (4 - seg - 1) as nat));
                }
            }
        }
        start = d + 1;
        seg = seg + 1;
    }
    let r = check_octet(s, start, end);
    proof {
        assert(h.subrange(start as int, h.len() as int) =~= s@.subrange(
            start as int,
            end as int,
        ));
    }
    r
}

/// Checks an address: a dotted-quad host, a colon, and a valid decimal
/// port, the grammar `spec_valid_addr` fixes.
pub fn valid_addr(s: &[u8]) -> (r: bool)
    ensures
        r == spec_valid_addr(s@),
{
    let n = s.len();
    // find the last colon
    let mut ci: usize = 0;
    let mut found = false;
    let mut j: usize = 0;
    while j < n
        invariant
            0 <= j <= n,
            n == s@.len(),
            found ==> 0 <= ci < j && s@[ci as int] == 58 && (forall|l: int|
                ci < l < j ==> s@[l] != 58),
            !found ==> forall|l: int| 0 <= l < j ==> s@[l] != 58,
        decreases n - j,
    {
        if s[j] == 58 {
            ci = j;
            found = true;
        }
        j = j + 1;
    }
    if !found {
        proof {
            assert(!spec_valid_addr(s@));
        }
        return false;
    }
    let i = ci;
    if i == 0 || i >= n - 1 {
        proof {
            lemma_only_colon(s@, i as int);
        }
        return false;
    }
    // port digits
    let plen = n - i - 1;
    if plen < 1 || plen > 5 {
        proof {
            lemma_only_colon(s@, i as int);
        }
        return false;
    }
    let mut p: usize = i + 1;
    let mut val: u64 = 0;
    while p < n
        invariant
            i + 1 <= p <= n,
            n == s@.len(),
            0 < i,
            (i as int) < n - 1,
            s@[i as int] == 58,
            forall|j: int| i < j < n ==> s@[j] != 58,
            1 <= n - i - 1 <= 5,
            all_digits(s@.skip(i as int + 1).take(p - i - 1)),
            val == dec_val(s@.skip(i as int + 1).take(p - i - 1)),
            val < 100000,
        decreases n - p,
    {
        let c = s[p];
        if c < 48 || c > 57 {
            proof {
                assert(s@.skip(i as int + 1)[p - i - 1] == c);
                assert(!all_digits(s@.skip(i as int + 1)));
                lemma_only_colon(s@, i as int);
            }
            return false;
        }
        proof {
            let port = s@.skip(i as int + 1);
            assert(port.take(p - i - 1 + 1).drop_last() =~= port.take(p - i - 1));
            assert(port.take(p - i - 1 + 1).last() == c);
        }
        val = val * 10 + ((c - 48) as u64);
        p = p + 1;
        proof {
            crate::util::lemma_dec_val_bound(s@.skip(i as int + 1).take(p as int - i - 1));
            crate::util::lemma_pow10_mono((p - i - 1) as nat, 5);
            assert(crate::util::pow10(5) == 100000) by {
                reveal_with_fuel(crate::util::pow10, 7);
            }
        }
    }
    proof {
        assert(s@.skip(i as int + 1).take(p - i - 1) =~= s@.skip(i as int + 1));
    }
    if val > 65535 {
        proof {
            lemma_only_colon(s@, i as int);
        }
        return false;
    }
    let host_ok = check_ipv4(s, i);
    if host_ok {
        proof {
            assert(spec_valid_addr(s@)) by {
                assert(0 < i && (i as int) < s@.len() - 1 && s@[i as int] == 58);
            }
        }
        true
    } else {
        proof {
            lemma_only_colon(s@, i as int);
        }
        false
    }
}

/// Any address witness must use the text's last colon; so when the parts
/// split there do not satisfy the grammar, nothing does.
proof fn lemma_only_colon(s: Seq<u8>, i: int)
    requires
        0 <= i < s.len(),
        s[i] == 58,
        forall|j: int| i < j < s.len() ==> s[j] != 58,
        !(0 < i < s.len() - 1 && spec_valid_ipv4(s.subrange(0, i)) && all_digits(s.skip(i + 1))
            && s.len() - i - 1 <= 5 && dec_val(s.skip(i + 1)) <= 65535),
    ensures
        !spec_valid_addr(s),
{
    assert forall|x: int|
        !(0 < x < s.len() - 1 && (#[trigger] s[x]) == 58 && (forall|j: int|
            x < j < s.len() ==> s[j] != 58) && spec_valid_ipv4(s.subrange(0, x)) && all_digits(
            s.skip(x + 1),
        ) && s.len() - x - 1 <= 5 && dec_val(s.skip(x + 1)) <= 65535) by {
        if 0 < x < s.len() - 1 && s[x] == 58 && (forall|j: int|
            x < j < s.len() ==> s[j] != 58) {
            assert(x == i);
        }
    }
}

/// What `sync_command` guarantees, over the states before and after the call.
pub open spec fn sync_command_post(
    pre: Server,
    post: Server,
    client: Option<Client>,
    nodeid: u64,
    uuid: u64,
    a: Seq<MessageV>,
    r: Result<Message, CstError>,
) -> bool {
        &&& (same_except_membership(pre, post))
        &&& (
        ({
            if client is None {
                (r matches Err(e) && e is InvalidRequestMsg) && post == pre
            } else if a.len() < 4 || spec_msg_i64(a[0]) is None || spec_msg_i64(a[0])->Some_0 < 0
                || spec_msg_i64(a[1]) is None || spec_msg_i64(a[1])->Some_0 < 0 || spec_msg_bytes(
                a[2],
            ) is None || spec_msg_i64(a[3]) is None || spec_msg_i64(a[3])->Some_0 < 0 {
                (r matches Err(e) && (e is WrongArity || e is InvalidRequestMsg)) && post == pre
            } else {
                let he_id = spec_msg_i64(a[1])->Some_0 as u64;
                let he_alias = spec_msg_bytes(a[2])->Some_0;
                let uuid_i_sent = spec_msg_i64(a[3])->Some_0 as u64;
                let addr = client->Some_0.addr@;
                let meta = MetaV {
                    id: he_id,
                    alias: he_alias,
                    addr,
                    uuid_i_sent,
                    uuid_he_sent: 0u64,
                    last_seen: 0u64,
                };
                (r matches Ok(m) && m@ == MessageV::NoReply) && post.replicas@
                    == spec_reg_add(pre.replicas@, addr, meta, uuid) && post.pending_links@.len() == pre.pending_links@.len() + 1 && post.pending_links@.last().addr@ == addr && post.pending_links@.last().kind is TakeOver
            }
        })
        )
}

/// What `meet_command` guarantees, over the states before and after the call.
pub open spec fn meet_command_post(
    pre: Server,
    post: Server,
    client: Option<Client>,
    nodeid: u64,
    uuid: u64,
    a: Seq<MessageV>,
    r: Result<Message, CstError>,
) -> bool {
        &&& (same_except_membership(pre, post))
        &&& (
        ({
            if pre.node_id == 0 || pre.node_alias@.len() == 0 {
                (r matches Ok(m) && m@ == MessageV::Error(
                    crate::cmd::need_identity_err_bytes(),
                )) && post == pre
            } else if a.len() < 1 {
                (r matches Err(e) && e is WrongArity) && post == pre
            } else if spec_msg_bytes(a[0]) is None {
                (r matches Err(e) && e is InvalidRequestMsg) && post == pre
            } else {
                let addr = spec_msg_bytes(a[0])->Some_0;
                if !spec_valid_addr(addr) {
                    (r matches Ok(m) && m@ == MessageV::Error(crate::cmd::bad_addr_err_bytes()))
                        && post == pre
                } else {
                    let meta = MetaV {
                        id: 0u64,
                        alias: Seq::empty(),
                        addr,
                        uuid_i_sent: if pre.repl_log@.len() == 0 {
                            0u64
                        } else {
                            pre.repl_log@.last().uuid
                        },
                        uuid_he_sent: 0u64,
                        last_seen: 0u64,
                    };
                    let added = !(pre.replicas@.contains_key(addr) && member(
                        pre.replicas@[addr],
                    )) && uuid > reg_ts(pre.replicas@, addr).0 && uuid > reg_ts(
                        pre.replicas@,
                        addr,
                    ).1;
                    (r matches Ok(m) && m@ == MessageV::Integer(
                        if added {
                            1i64
                        } else {
                            0i64
                        },
                    )) && post.replicas@ == spec_reg_add(
                        pre.replicas@,
                        addr,
                        meta,
                        uuid,
                    ) && post.pending_links@.len() == pre.pending_links@.len()
                        + 1 && post.pending_links@.last().addr@ == addr && post.pending_links@.last().kind is Dial
                }
            }
        })
        )
}

/// What `forget_command` guarantees, over the states before and after the call.
pub open spec fn forget_command_post(
    pre: Server,
    post: Server,
    client: Option<Client>,
    nodeid: u64,
    uuid: u64,
    a: Seq<MessageV>,
    r: Result<Message, CstError>,
) -> bool {
        &&& (same_except_membership(pre, post))
        &&& (post.pending_links == pre.pending_links)
        &&& (
        ({
            if a.len() < 1 {
                (r matches Err(e) && e is WrongArity) && post == pre
            } else if spec_msg_bytes(a[0]) is None {
                (r matches Err(e) && e is InvalidRequestMsg) && post == pre
            } else {
                let addr = spec_msg_bytes(a[0])->Some_0;
                let reg = pre.replicas@;
                let removed = reg.contains_key(addr) && member(reg[addr]) && uuid
                    >= reg[addr].added_at;
                post.replicas@ == spec_reg_remove(reg, addr, uuid) && (r matches Ok(m)
                    && m@ == MessageV::Integer(
                    if removed {
                        1i64
                    } else {
                        0i64
                    },
                ))
            }
        })
        )
}

/// Accepts a handshake from a peer: records the peer's identity and resume
/// point in the registry and asks the runtime to take the connection over
/// as a replica link.
pub fn sync_command(
    server: &mut Server,
    client: Option<&Client>,
    _nodeid: u64,
    uuid: u64,
    args: &Vec<Message>,
) -> (r: Result<Message, CstError>)
    requires
        old(server).wf(),
    ensures
        final(server).wf(),
        sync_command_post(*old(server), *final(server), opt_client(client), _nodeid, uuid, argv(args), r),
{
    let c = match client {
        Some(c) => c,
        None => {
            return Err(
                CstError::InvalidRequestMsg(crate::resp::dup_bytes(&vec![110u8, 111u8])),
            );
        }
    };
    let mut it = ArgIter::new(args);
    let _zero = match it.next_u64() {
        Ok(z) => z,
        Err(e) => {
            return Err(e);
        }
    };
    let he_id = match it.next_u64() {
        Ok(n) => n,
        Err(e) => {
            return Err(e);
        }
    };
    let he_alias = match it.next_string() {
        Ok(s) => s,
        Err(e) => {
            return Err(e);
        }
    };
    let uuid_i_sent = match it.next_u64() {
        Ok(u) => u,
        Err(e) => {
            return Err(e);
        }
    };
    let addr = crate::resp::dup_bytes(&c.addr);
    let meta = ReplicaMeta {
        id: he_id,
        alias: he_alias,
        addr: crate::resp::dup_bytes(&c.addr),
        uuid_i_sent,
        uuid_he_sent: 0,
        last_seen: 0,
    };
    let _ = server.replicas.add_replica(addr.as_slice(), meta, uuid);
    let link_addr = crate::resp::dup_bytes(&c.addr);
    server.pending_links.push(LinkRequest { addr: link_addr, kind: LinkKind::TakeOver });
    Ok(Message::NoReply)
}

/// Joins a cluster through one known peer: records the peer and asks the
/// runtime to dial it and start a handshake.  Refused until the node has an
/// identity; a malformed address is reported in the reply.
pub fn meet_command(
    server: &mut Server,
    _client: Option<&Client>,
    _nodeid: u64,
    uuid: u64,
    args: &Vec<Message>,
) -> (r: Result<Message, CstError>)
    requires
        old(server).wf(),
    ensures
        final(server).wf(),
        meet_command_post(*old(server), *final(server), opt_client(_client), _nodeid, uuid, argv(args), r),
{
    if server.node_id == 0 || server.node_alias.len() == 0 {
        return Ok(Message::Error(crate::cmd::need_identity_err()));
    }
    let mut it = ArgIter::new(args);
    let addr = match it.next_string() {
        Ok(s) => s,
        Err(e) => {
            return Err(e);
        }
    };
    if !valid_addr(addr.as_slice()) {
        return Ok(Message::Error(crate::cmd::bad_addr_err()));
    }
    let uuid_i_sent = server.get_repl_last_uuid();
    let meta = ReplicaMeta {
        id: 0,
        alias: Vec::new(),
        addr: crate::resp::dup_bytes(&addr),
        uuid_i_sent,
        uuid_he_sent: 0,
        last_seen: 0,
    };
    let link_addr = crate::resp::dup_bytes(&addr);
    let added = server.replicas.add_replica(addr.as_slice(), meta, uuid);
    server.pending_links.push(LinkRequest { addr: link_addr, kind: LinkKind::Dial });
    Ok(Message::Integer(
        if added {
            1
        } else {
            0
        },
    ))
}

/// Forgets a peer at `uuid`, last-writer-wins against any later re-add.
/// Replies whether the peer stopped being a member now.
pub fn forget_command(
    server: &mut Server,
    _client: Option<&Client>,
    _nodeid: u64,
    uuid: u64,
    args: &Vec<Message>,
) -> (r: Result<Message, CstError>)
    requires
        old(server).wf(),
    ensures
        final(server).wf(),
        forget_command_post(*old(server), *final(server), opt_client(_client), _nodeid, uuid, argv(args), r),
{
    let mut it = ArgIter::new(args);
    let addr = match it.next_string() {
        Ok(s) => s,
        Err(e) => {
            return Err(e);
        }
    };
    let removed = server.replicas.remove_replica(addr.as_slice(), uuid);
    Ok(Message::Integer(
        if removed {
            1
        } else {
            0
        },
    ))
}

/// What `replicas_command` guarantees, over the states before and after
/// the call.
pub open spec fn replicas_command_post(
    pre: Server,
    post: Server,
    client: Option<Client>,
    nodeid: u64,
    uuid: u64,
    a: Seq<MessageV>,
    r: Result<Message, CstError>,
) -> bool {
    &&& (post == pre)
    &&& (r matches Ok(m) && m@ == MessageV::Array(
        replicas_reply_list(pre.replicas.entries_seq()),
    ))
}

/// Lists the member peers: per member its address, id, alias and the
/// timestamp it was added at, for transitive peer learning.
pub fn replicas_command(
    server: &mut Server,
    _client: Option<&Client>,
    _nodeid: u64,
    _uuid: u64,
    _args: &Vec<Message>,
) -> (r: Result<Message, CstError>)
    requires
        old(server).wf(),
    ensures
        final(server).wf(),
        replicas_command_post(*old(server), *final(server), opt_client(_client), _nodeid, _uuid, argv(_args), r),
{
    let ghost s = server.replicas.entries_seq();
    let mut items: Vec<Message> = Vec::new();
    let n = server.replicas.len();
    let mut i: usize = 0;
    proof {
        assert(s.take(0) =~= Seq::<(Seq<u8>, EntryV)>::empty());
        assert(msgs_view(items@) =~= replicas_reply_list(s.take(0)));
    }
    while i < n
        invariant
            s == server.replicas.entries_seq(),
            *server == *old(server),
            n == s.len(),
            0 <= i <= n,
            msgs_view(items@) == replicas_reply_list(s.take(i as int)),
        decreases n - i,
    {
        let e = server.replicas.entry_at(i);
        proof {
            assert(s.take(i as int + 1).drop_last() =~= s.take(i as int));
            assert(s.take(i as int + 1).last() == s[i as int]);
            assert((e.0@, e.1@) == s[i as int]);
        }
        let added_at = e.1.added_at;
        let removed_at = e.1.removed_at;
        let mut row: Vec<Message> = Vec::new();
        let m0 = Message::Bulk(crate::resp::dup_bytes(&e.0));
        let m1 = Message::Integer(#[verifier::truncate] (e.1.meta.id as i64));
        let m2 = Message::Bulk(crate::resp::dup_bytes(&e.1.meta.alias));
        let m3 = Message::Integer(#[verifier::truncate] (added_at as i64));
        let m4 = Message::Integer(#[verifier::truncate] (removed_at as i64));
        row.push(m0);
        row.push(m1);
        row.push(m2);
        row.push(m3);
        row.push(m4);
        proof {
            lemma_msgs_view(row@);
            assert(msgs_view(row@)[0] == row@[0]@);
            assert(msgs_view(row@)[1] == row@[1]@);
            assert(msgs_view(row@)[2] == row@[2]@);
            assert(msgs_view(row@)[3] == row@[3]@);
            assert(msgs_view(row@)[4] == row@[4]@);
            assert(msgs_view(row@) =~= seq![
                MessageV::Bulk(s[i as int].0),
                MessageV::Integer(s[i as int].1.meta.id as i64),
                MessageV::Bulk(s[i as int].1.meta.alias),
                MessageV::Integer(s[i as int].1.added_at as i64),
                MessageV::Integer(s[i as int].1.removed_at as i64),
            ]);
        }
        let ghost before_items = items@;
        items.push(Message::Array(row));
        proof {
            lemma_msgs_view(items@);
            lemma_msgs_view(before_items);
            assert forall|l: int| 0 <= l < items@.len() implies msgs_view(items@)[l]
                == replicas_reply_list(s.take(i as int + 1))[l] by {
                assert(msgs_view(items@)[l] == items@[l]@);
                if l < before_items.len() {
                    assert(items@[l] == before_items[l]);
                    assert(msgs_view(before_items)[l] == before_items[l]@);
                }
            }
            assert(msgs_view(items@) =~= replicas_reply_list(s.take(i as int + 1)));
        }
        i = i + 1;
    }
    proof {
        assert(s.take(i as int) =~= s);
    }
    Ok(Message::Array(items))
}

} // verus!
