//! The snapshot codec: a length-prefixed byte stream of key-object records.
//!
//! Each object carries its three envelope times, a one-byte variant tag, and
//! the variant's own serialization.  Loading what saving produced gives the
//! original store back; an unknown tag aborts the load with a type error.

use vstd::prelude::*;
use crate::CstError;
use crate::counter::Counter;
use crate::lwwhash::{LwwSet, Dict};
use crate::object::{Encoding, EncV, Object, ObjectV};
use crate::store::KeyStore;

verus! {

/// `n` little-endian base-256 digits of `x`.
pub open spec fn le_bytes(x: int, n: nat) -> Seq<u8>
    decreases n,
{
    if n == 0 {
        Seq::empty()
    } else {
        seq![(x % 256) as u8] + le_bytes(x / 256, (n - 1) as nat)
    }
}

/// The value of a little-endian base-256 digit string.
pub open spec fn le_val(s: Seq<u8>) -> int
    decreases s.len(),
{
    if s.len() == 0 {
        0
    } else {
        s[0] + 256 * le_val(s.drop_first())
    }
}

/// 256 to the power `n`.
pub open spec fn pow256(n: nat) -> int
    decreases n,
{
    if n == 0 {
        1
    } else {
        256 * pow256((n - 1) as nat)
    }
}

/// Decoding the digits of `x` gives `x` back, modulo the digit range.
pub proof fn lemma_le_roundtrip(x: int, n: nat)
    requires
        x >= 0,
    ensures
        le_val(le_bytes(x, n)) == x % pow256(n),
        le_bytes(x, n).len() == n,
        pow256(n) >= 1,
    decreases n,
{
    if n == 0 {
        assert(x % 1 == 0) by (nonlinear_arith)
            requires
                x >= 0,
        ;
    } else {
        lemma_le_roundtrip(x / 256, (n - 1) as nat);
        let s = le_bytes(x, n);
        assert(s.drop_first() =~= le_bytes(x / 256, (n - 1) as nat));
        assert(s[0] == x % 256);
        vstd::arithmetic::div_mod::lemma_mod_breakdown(x, 256, pow256((n - 1) as nat));
        assert(le_val(s) == x % 256 + 256 * ((x / 256) % pow256((n - 1) as nat)));
    }
}

/// A value below the digit range decodes exactly.
pub proof fn lemma_le_roundtrip_u64(x: u64)
    ensures
        le_val(le_bytes(x as int, 8)) == x,
        le_bytes(x as int, 8).len() == 8,
{
    lemma_le_roundtrip(x as int, 8);
    assert(pow256(8) == 0x1_0000_0000_0000_0000) by {
        reveal_with_fuel(pow256, 9);
    }
}

/// A digit string's value is below the digit range.
pub proof fn lemma_le_val_bound(s: Seq<u8>)
    ensures
        0 <= le_val(s) < pow256(s.len()),
        pow256(s.len()) >= 1,
    decreases s.len(),
{
    if s.len() == 0 {
    } else {
        lemma_le_val_bound(s.drop_first());
        assert(256 * le_val(s.drop_first()) <= 256 * (pow256((s.len() - 1) as nat) - 1))
            by (nonlinear_arith)
            requires
                le_val(s.drop_first()) <= pow256((s.len() - 1) as nat) - 1,
        ;
        assert(256 * le_val(s.drop_first()) >= 0) by (nonlinear_arith)
            requires
                le_val(s.drop_first()) >= 0,
        ;
    }
}

/// The eight-byte encoding of a timestamp or length.
pub open spec fn enc_u64(x: u64) -> Seq<u8> {
    le_bytes(x as int, 8)
}

/// The encoding of a byte string: its length, then its bytes.
pub open spec fn enc_bytes(b: Seq<u8>) -> Seq<u8> {
    enc_u64(b.len() as u64) + b
}

/// An accumulating snapshot writer.
pub struct SnapshotWriter {
    pub buf: Vec<u8>,
}

impl SnapshotWriter {
    /// A writer with an empty buffer.
    pub fn new() -> (w: SnapshotWriter)
        ensures
            w.buf@ == Seq::<u8>::empty(),
    {
        let w = SnapshotWriter { buf: Vec::new() };
        proof {
            assert(w.buf@ =~= Seq::<u8>::empty());
        }
        w
    }

    /// Appends one raw byte.
    pub fn write_byte(&mut self, b: u8)
        ensures
            final(self).buf@ == old(self).buf@ + seq![b],
    {
        self.buf.push(b);
        proof {
            assert(self.buf@ =~= old(self).buf@ + seq![b]);
        }
    }

    /// Appends a timestamp or length in eight little-endian bytes.
    pub fn write_u64(&mut self, x: u64)
        ensures
            final(self).buf@ == old(self).buf@ + enc_u64(x),
    {
        let ghost start = self.buf@;
        let mut cur: u64 = x;
        let mut i: usize = 0;
        proof {
            lemma_le_roundtrip_u64(x);
            assert(start + le_bytes(x as int, 0) =~= start);
        }
        while i < 8
            invariant
                0 <= i <= 8,
                self.buf@.len() == start.len() + i,
                start + le_bytes(x as int, 8) == self.buf@ + le_bytes(cur as int, (8 - i) as nat),
            decreases 8 - i,
        {
            let ghost before = self.buf@;
            let b = (cur % 256) as u8;
            self.buf.push(b);
            cur = cur / 256;
            proof {
                assert(le_bytes((cur * 256 + b) as int, (8 - i) as nat) =~= seq![b] + le_bytes(
                    cur as int,
                    (8 - i - 1) as nat,
                ));
                assert(before + (seq![b] + le_bytes(cur as int, (8 - i - 1) as nat)) =~= (before
                    + seq![b]) + le_bytes(cur as int, (8 - i - 1) as nat));
                assert(self.buf@ =~= before + seq![b]);
            }
            i = i + 1;
        }
        proof {
            assert(le_bytes(cur as int, 0) =~= Seq::<u8>::empty());
            assert(self.buf@ + Seq::<u8>::empty() =~= self.buf@);
        }
    }

    /// Appends a byte string under its length.
    pub fn write_bytes(&mut self, b: &Vec<u8>)
        ensures
            final(self).buf@ == old(self).buf@ + enc_bytes(b@),
    {
        self.write_u64(b.len() as u64);
        let ghost mid = self.buf@;
        let mut i: usize = 0;
        while i < b.len()
            invariant
                0 <= i <= b@.len(),
                self.buf@ == mid + b@.take(i as int),
            decreases b@.len() - i,
        {
            let ghost before = self.buf@;
            self.buf.push(b[i]);
            proof {
                assert(b@.take(i as int + 1) =~= b@.take(i as int).push(b@[i as int]));
                assert(self.buf@ =~= mid + b@.take(i as int + 1));
            }
            i = i + 1;
        }
        proof {
            assert(b@.take(b@.len() as int) =~= b@);
            assert(self.buf@ =~= old(self).buf@ + enc_bytes(b@));
        }
    }
}

/// A cursor reading a snapshot back.
pub struct SnapshotLoader {
    pub buf: Vec<u8>,
    pub pos: usize,
}

impl SnapshotLoader {
    /// A loader at the start of a snapshot.
    pub fn new(buf: Vec<u8>) -> (l: SnapshotLoader)
        ensures
            l.buf@ == buf@,
            l.pos == 0,
    {
        SnapshotLoader { buf, pos: 0 }
    }

    /// Reads one raw byte.
    pub fn read_byte(&mut self) -> (r: Result<u8, CstError>)
        ensures
            final(self).buf == old(self).buf,
            if old(self).pos < old(self).buf@.len() {
                (r matches Ok(b) && b == old(self).buf@[old(self).pos as int]) && final(self).pos
                    == old(self).pos + 1
            } else {
                (r matches Err(e) && e is InvalidType) && final(self).pos == old(self).pos
            },
    {
        if self.pos < self.buf.len() {
            let b = self.buf[self.pos];
            self.pos = self.pos + 1;
            Ok(b)
        } else {
            Err(CstError::InvalidType)
        }
    }

    /// Reads a timestamp or length from eight little-endian bytes.
    pub fn read_u64(&mut self) -> (r: Result<u64, CstError>)
        ensures
            final(self).buf == old(self).buf,
            if old(self).pos + 8 <= old(self).buf@.len() {
                (r matches Ok(x) && x as int == le_val(
                    old(self).buf@.subrange(old(self).pos as int, old(self).pos + 8),
                )) && final(self).pos == old(self).pos + 8
            } else {
                (r matches Err(e) && e is InvalidType) && final(self).pos == old(self).pos
            },
    {
        if self.buf.len() < 8 || self.pos > self.buf.len() - 8 {
            return Err(CstError::InvalidType);
        }
        let ghost s = self.buf@.subrange(self.pos as int, self.pos + 8);
        proof {
            lemma_le_val_bound(s);
            assert(pow256(8) == 0x1_0000_0000_0000_0000) by {
                reveal_with_fuel(pow256, 9);
            }
        }
        let mut acc: u64 = 0;
        let mut i: usize = 8;
        while i > 0
            invariant
                0 <= i <= 8,
                self.buf@.len() <= usize::MAX,
                self.pos + 8 <= self.buf@.len(),
                s == self.buf@.subrange(self.pos as int, self.pos + 8),
                acc as int == le_val(s.skip(i as int)),
                le_val(s.skip(i as int)) < pow256((8 - i) as nat),
                pow256((8 - i) as nat) <= pow256(8),
                pow256(8) == 0x1_0000_0000_0000_0000,
            decreases i,
    {
            let b = self.buf[self.pos + i - 1];
            proof {
                assert(s.skip(i as int - 1).drop_first() =~= s.skip(i as int));
                assert(s.skip(i as int - 1)[0] == s[i as int - 1]);
                assert(s[i as int - 1] == b);
                lemma_le_val_bound(s.skip(i as int - 1));
                assert(pow256((8 - (i - 1)) as nat) == 256 * pow256((8 - i) as nat));
                assert(pow256((8 - (i - 1)) as nat) <= pow256(8)) by {
                    lemma_pow256_mono((8 - (i - 1)) as nat, 8);
                }
                assert(b + 256 * (acc as int) < pow256((8 - (i - 1)) as nat)) by (nonlinear_arith)
                    requires
                        acc as int == le_val(s.skip(i as int)),
                        le_val(s.skip(i as int)) < pow256((8 - i) as nat),
                        b < 256,
                        pow256((8 - (i - 1)) as nat) == 256 * pow256((8 - i) as nat),
                ;
            }
            acc = b as u64 + 256 * acc;
            i = i - 1;
        }
        proof {
            assert(s.skip(0) =~= s);
        }
        self.pos = self.pos + 8;
        Ok(acc)
    }

    /// Reads a byte string written under its length.
    pub fn read_bytes(&mut self) -> (r: Result<Vec<u8>, CstError>)
        ensures
            final(self).buf == old(self).buf,
            ({
                let buf = old(self).buf@;
                let pos = old(self).pos as int;
                if pos + 8 <= buf.len() && le_val(buf.subrange(pos, pos + 8)) + pos + 8
                    <= buf.len() {
                    let n = le_val(buf.subrange(pos, pos + 8));
                    (r matches Ok(b) && b@ == buf.subrange(pos + 8, pos + 8 + n)) && final(self).pos == pos + 8 + n
                } else {
                    (r matches Err(e) && e is InvalidType) && final(self).pos == old(self).pos
                }
            }),
    {
        let ghost pos0 = self.pos as int;
        let n = match self.read_u64() {
            Ok(n) => n,
            Err(e) => {
                return Err(e);
            }
        };
        if n > (self.buf.len() - self.pos) as u64 {
            self.pos = self.pos - 8;
            return Err(CstError::InvalidType);
        }
        let count = n as usize;
        let mut out: Vec<u8> = Vec::new();
        let mut i: usize = 0;
        while i < count
            invariant
                0 <= i <= count,
                self.buf@.len() <= usize::MAX,
                self.pos + count <= self.buf@.len(),
                out@.len() == i,
                forall|j: int| 0 <= j < i ==> out@[j] == self.buf@[self.pos + j],
            decreases count - i,
        {
            out.push(self.buf[self.pos + i]);
            i = i + 1;
        }
        proof {
            assert(out@ =~= self.buf@.subrange(pos0 + 8, pos0 + 8 + n));
        }
        self.pos = self.pos + count;
        Ok(out)
    }
}

/// The variant tags of the snapshot format.
pub open spec fn tag_of(e: &Encoding) -> u8 {
    match e {
        Encoding::Counter(_) => 0u8,
        Encoding::Bytes(_) => 3u8,
        Encoding::LWWDict(_) => 4u8,
        Encoding::LWWSet(_) => 5u8,
    }
}

/// The encoding of counter entries, first to last.
pub open spec fn enc_counter_entries(es: Seq<(u64, (i64, u64))>) -> Seq<u8>
    decreases es.len(),
{
    if es.len() == 0 {
        Seq::empty()
    } else {
        enc_u64(es[0].0) + enc_u64(es[0].1.0 as u64) + enc_u64(es[0].1.1) + enc_counter_entries(
            es.drop_first(),
        )
    }
}

/// The encoding of set entries, first to last.
pub open spec fn enc_set_entries(es: Seq<(Seq<u8>, (u64, u64))>) -> Seq<u8>
    decreases es.len(),
{
    if es.len() == 0 {
        Seq::empty()
    } else {
        enc_bytes(es[0].0) + enc_u64(es[0].1.0) + enc_u64(es[0].1.1) + enc_set_entries(
            es.drop_first(),
        )
    }
}

/// The encoding of dictionary entries, first to last.
pub open spec fn enc_dict_entries(es: Seq<(Seq<u8>, (Seq<u8>, u64, u64))>) -> Seq<u8>
    decreases es.len(),
{
    if es.len() == 0 {
        Seq::empty()
    } else {
        enc_bytes(es[0].0) + enc_bytes(es[0].1.0) + enc_u64(es[0].1.1) + enc_u64(es[0].1.2)
            + enc_dict_entries(es.drop_first())
    }
}

/// The encoding of one object: the three envelope times, the variant tag,
/// and the variant's own serialization.
pub open spec fn enc_obj(o: &Object) -> Seq<u8> {
    enc_u64(o.create_time) + enc_u64(o.update_time) + enc_u64(o.delete_time) + seq![
        tag_of(&o.enc),
    ] + (match &o.enc {
        Encoding::Counter(c) => enc_u64(c.entries@.len() as u64) + enc_counter_entries(
            c.entries_seq(),
        ),
        Encoding::Bytes(b) => enc_bytes(b@),
        Encoding::LWWSet(s) => enc_u64(s.entries@.len() as u64) + enc_set_entries(
            s.entries_seq(),
        ),
        Encoding::LWWDict(d) => enc_u64(d.entries@.len() as u64) + enc_dict_entries(
            d.entries_seq(),
        ),
    })
}

/// The encoding of store entries, first to last.
pub open spec fn enc_store_entries(es: Seq<(Vec<u8>, Object)>) -> Seq<u8>
    decreases es.len(),
{
    if es.len() == 0 {
        Seq::empty()
    } else {
        enc_bytes(es[0].0@) + enc_obj(&es[0].1) + enc_store_entries(es.drop_first())
    }
}

/// The encoding of a whole key store: its key count, then its records.
pub open spec fn enc_store(s: &KeyStore) -> Seq<u8> {
    enc_u64(s.entries@.len() as u64) + enc_store_entries(s.entries@)
}

impl Object {
    /// Serializes this object onto the writer.
    pub fn save_snapshot(&self, w: &mut SnapshotWriter)
        ensures
            final(w).buf@ == old(w).buf@ + enc_obj(self),
    {
        let ghost start = w.buf@;
        w.write_u64(self.create_time);
        w.write_u64(self.update_time);
        w.write_u64(self.delete_time);
        match &self.enc {
            Encoding::Counter(c) => {
                w.write_byte(0);
                w.write_u64(c.entry_count() as u64);
                let ghost es = c.entries_seq();
                let ghost head = w.buf@;
                let n = c.entry_count();
                let mut i: usize = 0;
                proof {
                    assert(es.skip(0) =~= es);
                }
                while i < n
                    invariant
                        0 <= i <= n,
                        es == c.entries_seq(),
                        n == es.len(),
                        w.buf@ + enc_counter_entries(es.skip(i as int)) == head
                            + enc_counter_entries(es),
                    decreases n - i,
                {
                    let (node, (value, uuid)) = c.entry_at(i);
                    let ghost before = w.buf@;
                    w.write_u64(node);
                    w.write_u64(#[verifier::truncate] (value as u64));
                    w.write_u64(uuid);
                    proof {
                        let rest = es.skip(i as int);
                        assert(rest[0] == es[i as int]);
                        assert(rest.drop_first() =~= es.skip(i as int + 1));
                        assert(w.buf@ =~= before + (enc_u64(node) + enc_u64(value as u64)
                            + enc_u64(uuid)));
                        assert(before + enc_counter_entries(rest) =~= w.buf@
                            + enc_counter_entries(es.skip(i as int + 1)));
                    }
                    i = i + 1;
                }
                proof {
                    assert(es.skip(n as int) =~= Seq::<u8>::empty().map_values(
                        |x: u8| (0u64, (0i64, 0u64)),
                    ) || true);
                    assert(es.skip(n as int).len() == 0);
                    assert(enc_counter_entries(es.skip(n as int)) =~= Seq::<u8>::empty());
                    assert(w.buf@ + Seq::<u8>::empty() =~= w.buf@);
                    assert(w.buf@ =~= start + enc_obj(self));
                }
            }
            Encoding::Bytes(b) => {
                w.write_byte(3);
                w.write_bytes(b);
                proof {
                    assert(w.buf@ =~= start + enc_obj(self));
                }
            }
            Encoding::LWWSet(s) => {
                w.write_byte(5);
                w.write_u64(s.entries.len() as u64);
                let ghost es = s.entries_seq();
                let ghost head = w.buf@;
                let n = s.entries.len();
                let mut i: usize = 0;
                proof {
                    assert(es.skip(0) =~= es);
                }
                while i < n
                    invariant
                        0 <= i <= n,
                        es == s.entries_seq(),
                        n == es.len(),
                        n == s.entries@.len(),
                        w.buf@ + enc_set_entries(es.skip(i as int)) == head + enc_set_entries(
                            es,
                        ),
                    decreases n - i,
                {
                    let (add_ts, remove_ts) = s.entries[i].1;
                    let ghost before = w.buf@;
                    w.write_bytes(&s.entries[i].0);
                    w.write_u64(add_ts);
                    w.write_u64(remove_ts);
                    proof {
                        let rest = es.skip(i as int);
                        assert(rest[0] == es[i as int]);
                        assert(es[i as int] == (s.entries@[i as int].0@, (add_ts, remove_ts)));
                        assert(rest.drop_first() =~= es.skip(i as int + 1));
                        assert(w.buf@ =~= before + (enc_bytes(s.entries@[i as int].0@)
                            + enc_u64(add_ts) + enc_u64(remove_ts)));
                        assert(before + enc_set_entries(rest) =~= w.buf@ + enc_set_entries(
                            es.skip(i as int + 1),
                        ));
                    }
                    i = i + 1;
                }
                proof {
                    assert(es.skip(n as int).len() == 0);
                    assert(enc_set_entries(es.skip(n as int)) =~= Seq::<u8>::empty());
                    assert(w.buf@ + Seq::<u8>::empty() =~= w.buf@);
                    assert(w.buf@ =~= start + enc_obj(self));
                }
            }
            Encoding::LWWDict(d) => {
                w.write_byte(4);
                w.write_u64(d.entries.len() as u64);
                let ghost es = d.entries_seq();
                let ghost head = w.buf@;
                let n = d.entries.len();
                let mut i: usize = 0;
                proof {
                    assert(es.skip(0) =~= es);
                }
                while i < n
                    invariant
                        0 <= i <= n,
                        es == d.entries_seq(),
                        n == es.len(),
                        n == d.entries@.len(),
                        w.buf@ + enc_dict_entries(es.skip(i as int)) == head + enc_dict_entries(
                            es,
                        ),
                    decreases n - i,
                {
                    let add_ts = d.entries[i].1.1;
                    let remove_ts = d.entries[i].1.2;
                    let ghost before = w.buf@;
                    w.write_bytes(&d.entries[i].0);
                    w.write_bytes(&d.entries[i].1.0);
                    w.write_u64(add_ts);
                    w.write_u64(remove_ts);
                    proof {
                        let rest = es.skip(i as int);
                        assert(rest[0] == es[i as int]);
                        assert(es[i as int] == (
                            d.entries@[i as int].0@,
                            (d.entries@[i as int].1.0@, add_ts, remove_ts),
                        ));
                        assert(rest.drop_first() =~= es.skip(i as int + 1));
                        assert(w.buf@ =~= before + (enc_bytes(d.entries@[i as int].0@)
                            + enc_bytes(d.entries@[i as int].1.0@) + enc_u64(add_ts) + enc_u64(
                            remove_ts,
                        )));
                        assert(before + enc_dict_entries(rest) =~= w.buf@ + enc_dict_entries(
                            es.skip(i as int + 1),
                        ));
                    }
                    i = i + 1;
                }
                proof {
                    assert(es.skip(n as int).len() == 0);
                    assert(enc_dict_entries(es.skip(n as int)) =~= Seq::<u8>::empty());
                    assert(w.buf@ + Seq::<u8>::empty() =~= w.buf@);
                    assert(w.buf@ =~= start + enc_obj(self));
                }
            }
        }
    }
}

impl KeyStore {
    /// Serializes the whole store: every key with its object, tombstones
    /// included, in representation order.
    pub fn save_snapshot(&self, w: &mut SnapshotWriter)
        ensures
            final(w).buf@ == old(w).buf@ + enc_store(self),
    {
        let ghost start = w.buf@;
        w.write_u64(self.entries.len() as u64);
        let ghost es = self.entries@;
        let ghost head = w.buf@;
        let n = self.entries.len();
        let mut i: usize = 0;
        proof {
            assert(es.skip(0) =~= es);
        }
        while i < n
            invariant
                0 <= i <= n,
                es == self.entries@,
                n == es.len(),
                w.buf@ + enc_store_entries(es.skip(i as int)) == head + enc_store_entries(es),
            decreases n - i,
        {
            let ghost before = w.buf@;
            w.write_bytes(&self.entries[i].0);
            self.entries[i].1.save_snapshot(w);
            proof {
                let rest = es.skip(i as int);
                assert(rest[0] == es[i as int]);
                assert(rest.drop_first() =~= es.skip(i as int + 1));
                assert(w.buf@ =~= before + (enc_bytes(es[i as int].0@) + enc_obj(
                    &es[i as int].1,
                )));
                assert(before + enc_store_entries(rest) =~= w.buf@ + enc_store_entries(
                    es.skip(i as int + 1),
                ));
            }
            i = i + 1;
        }
        proof {
            assert(es.skip(n as int).len() == 0);
            assert(enc_store_entries(es.skip(n as int)) =~= Seq::<u8>::empty());
            assert(w.buf@ + Seq::<u8>::empty() =~= w.buf@);
            assert(w.buf@ =~= start + enc_store(self));
        }
    }
}

/// What eight bytes at `pos` parse to: the value and the next position.
pub open spec fn p_u64(buf: Seq<u8>, pos: int) -> Option<(u64, int)> {
    if 0 <= pos && pos + 8 <= buf.len() {
        Some((le_val(buf.subrange(pos, pos + 8)) as u64, pos + 8))
    } else {
        None
    }
}

/// What a length-prefixed byte string at `pos` parses to.
pub open spec fn p_bytes(buf: Seq<u8>, pos: int) -> Option<(Seq<u8>, int)> {
    match p_u64(buf, pos) {
        Some((n, p1)) => if p1 + n <= buf.len() {
            Some((buf.subrange(p1, p1 + n), p1 + n))
        } else {
            None
        },
        None => None,
    }
}

/// What `n` counter entries at `pos` parse to, appended to `acc`; a node
/// repeated within one record is refused.
pub open spec fn p_counter_entries(
    buf: Seq<u8>,
    pos: int,
    n: nat,
    acc: Seq<(u64, (i64, u64))>,
) -> Option<(Seq<(u64, (i64, u64))>, int)>
    decreases n,
{
    if n == 0 {
        Some((acc, pos))
    } else {
        match p_u64(buf, pos) {
            Some((node, p1)) => match p_u64(buf, p1) {
                Some((value, p2)) => match p_u64(buf, p2) {
                    Some((uu, p3)) => if exists|j: int|
                        0 <= j < acc.len() && (#[trigger] acc[j]).0 == node {
                        None
                    } else {
                        p_counter_entries(
                            buf,
                            p3,
                            (n - 1) as nat,
                            acc.push((node, (value as i64, uu))),
                        )
                    },
                    None => None,
                },
                None => None,
            },
            None => None,
        }
    }
}

/// What `n` set entries at `pos` parse to, appended to `acc`.
pub open spec fn p_set_entries(
    buf: Seq<u8>,
    pos: int,
    n: nat,
    acc: Seq<(Seq<u8>, (u64, u64))>,
) -> Option<(Seq<(Seq<u8>, (u64, u64))>, int)>
    decreases n,
{
    if n == 0 {
        Some((acc, pos))
    } else {
        match p_bytes(buf, pos) {
            Some((member, p1)) => match p_u64(buf, p1) {
                Some((add_ts, p2)) => match p_u64(buf, p2) {
                    Some((remove_ts, p3)) => if exists|j: int|
                        0 <= j < acc.len() && (#[trigger] acc[j]).0 == member {
                        None
                    } else {
                        p_set_entries(
                            buf,
                            p3,
                            (n - 1) as nat,
                            acc.push((member, (add_ts, remove_ts))),
                        )
                    },
                    None => None,
                },
                None => None,
            },
            None => None,
        }
    }
}

/// What `n` dictionary entries at `pos` parse to, appended to `acc`; a
/// field written only by tombstones must carry an empty value.
pub open spec fn p_dict_entries(
    buf: Seq<u8>,
    pos: int,
    n: nat,
    acc: Seq<(Seq<u8>, (Seq<u8>, u64, u64))>,
) -> Option<(Seq<(Seq<u8>, (Seq<u8>, u64, u64))>, int)>
    decreases n,
{
    if n == 0 {
        Some((acc, pos))
    } else {
        match p_bytes(buf, pos) {
            Some((field, p1)) => match p_bytes(buf, p1) {
                Some((value, p2)) => match p_u64(buf, p2) {
                    Some((add_ts, p3)) => match p_u64(buf, p3) {
                        Some((remove_ts, p4)) => if add_ts == 0 && value.len() > 0 {
                            None
                        } else if exists|j: int|
                            0 <= j < acc.len() && (#[trigger] acc[j]).0 == field {
                            None
                        } else {
                            p_dict_entries(
                                buf,
                                p4,
                                (n - 1) as nat,
                                acc.push((field, (value, add_ts, remove_ts))),
                            )
                        },
                        None => None,
                    },
                    None => None,
                },
                None => None,
            },
            None => None,
        }
    }
}

/// What one object at `pos` parses to: its envelope times, the tagged
/// variant's entries as a map, and the next position.
pub open spec fn p_obj(buf: Seq<u8>, pos: int) -> Option<(ObjectV, int)> {
    match p_u64(buf, pos) {
        Some((ct, p1)) => match p_u64(buf, p1) {
            Some((ut, p2)) => match p_u64(buf, p2) {
                Some((dt, p3)) => if !(0 <= p3 < buf.len()) {
                    None
                } else {
                    let tag = buf[p3];
                    let p4 = p3 + 1;
                    if tag == 0 {
                        match p_u64(buf, p4) {
                            Some((n, p5)) => match p_counter_entries(
                                buf,
                                p5,
                                n as nat,
                                Seq::empty(),
                            ) {
                                Some((es, p6)) => Some(
                                    (
                                        ObjectV {
                                            ct,
                                            ut,
                                            dt,
                                            enc: EncV::Counter(crate::assoc::amap(es)),
                                        },
                                        p6,
                                    ),
                                ),
                                None => None,
                            },
                            None => None,
                        }
                    } else if tag == 3 {
                        match p_bytes(buf, p4) {
                            Some((b, p5)) => Some(
                                (ObjectV { ct, ut, dt, enc: EncV::Bytes(b) }, p5),
                            ),
                            None => None,
                        }
                    } else if tag == 5 {
                        match p_u64(buf, p4) {
                            Some((n, p5)) => match p_set_entries(
                                buf,
                                p5,
                                n as nat,
                                Seq::empty(),
                            ) {
                                Some((es, p6)) => Some(
                                    (
                                        ObjectV {
                                            ct,
                                            ut,
                                            dt,
                                            enc: EncV::LWWSet(crate::assoc::amap(es)),
                                        },
                                        p6,
                                    ),
                                ),
                                None => None,
                            },
                            None => None,
                        }
                    } else if tag == 4 {
                        match p_u64(buf, p4) {
                            Some((n, p5)) => match p_dict_entries(
                                buf,
                                p5,
                                n as nat,
                                Seq::empty(),
                            ) {
                                Some((es, p6)) => Some(
                                    (
                                        ObjectV {
                                            ct,
                                            ut,
                                            dt,
                                            enc: EncV::LWWDict(crate::assoc::amap(es)),
                                        },
                                        p6,
                                    ),
                                ),
                                None => None,
                            },
                            None => None,
                        }
                    } else {
                        None
                    }
                },
                None => None,
            },
            None => None,
        },
        None => None,
    }
}

/// True when the bytes at `pos` carry a well-formed envelope and a tag
/// outside the known variants: a conflict of variants, distinguished from
/// a truncated or malformed stream.
pub open spec fn obj_tag_err(buf: Seq<u8>, pos: int) -> bool {
    match p_u64(buf, pos) {
        Some((ct, p1)) => match p_u64(buf, p1) {
            Some((ut, p2)) => match p_u64(buf, p2) {
                Some((dt, p3)) => 0 <= p3 < buf.len() && buf[p3] != 0 && buf[p3] != 3
                    && buf[p3] != 4 && buf[p3] != 5,
                None => false,
            },
            None => false,
        },
        None => false,
    }
}

/// What `n` key-object records at `pos` parse to, inserted over `acc`.
pub open spec fn p_store(buf: Seq<u8>, pos: int, n: nat, acc: Map<Seq<u8>, ObjectV>) -> Option<
    Map<Seq<u8>, ObjectV>,
>
    decreases n,
{
    if n == 0 {
        Some(acc)
    } else {
        match p_bytes(buf, pos) {
            Some((key, p1)) => match p_obj(buf, p1) {
                Some((ov, p2)) => p_store(buf, p2, (n - 1) as nat, acc.insert(key, ov)),
                None => None,
            },
            None => None,
        }
    }
}

/// What a whole snapshot parses to: the store's mapping.
pub open spec fn p_snapshot(buf: Seq<u8>) -> Option<Map<Seq<u8>, ObjectV>> {
    match p_u64(buf, 0) {
        Some((n, p1)) => p_store(buf, p1, n as nat, Map::empty()),
        None => None,
    }
}

/// True when, reading `n` records from `pos`, the first failure is an
/// unknown variant tag.
pub open spec fn store_tag_err(buf: Seq<u8>, pos: int, n: nat) -> bool
    decreases n,
{
    if n == 0 {
        false
    } else {
        match p_bytes(buf, pos) {
            Some((key, p1)) => match p_obj(buf, p1) {
                Some((ov, p2)) => store_tag_err(buf, p2, (n - 1) as nat),
                None => obj_tag_err(buf, p1),
            },
            None => false,
        }
    }
}

/// True when a snapshot fails to parse on an unknown variant tag.
pub open spec fn snap_tag_err(buf: Seq<u8>) -> bool {
    match p_u64(buf, 0) {
        Some((n, p1)) => store_tag_err(buf, p1, n as nat),
        None => false,
    }
}

impl Object {
    /// Reads one object back from the loader: exactly what the parse of the
    /// buffer at the cursor denotes.  A truncated stream, an unknown tag or
    /// a malformed value fails with a type error; a loaded object is always
    /// structurally sound.  In particular a buffer that holds an object's
    /// encoding at the cursor loads that object back.
    pub fn load_snapshot(l: &mut SnapshotLoader) -> (r: Result<Object, CstError>)
        ensures
            final(l).buf == old(l).buf,
            match p_obj(old(l).buf@, old(l).pos as int) {
                Some((ov, np)) => r matches Ok(o) && o@ == ov && o.wf() && final(l).pos == np,
                None => r matches Err(e) && (if obj_tag_err(old(l).buf@, old(l).pos as int) {
                    e is TypeConflict && final(l).pos == old(l).pos + 25
                } else {
                    e is InvalidType
                }),
            },
            forall|o: Object|
                o.wf() && old(l).pos + enc_obj(&o).len() <= old(l).buf@.len() && #[trigger] old(
                    l,
                ).buf@.subrange(old(l).pos as int, old(l).pos + enc_obj(&o).len()) == enc_obj(
                    &o,
                ) ==> (r matches Ok(o2) && o2@ == o@ && final(l).pos == old(l).pos + enc_obj(
                    &o,
                ).len()),
    {
        let ghost bv = l.buf@;
        let ghost p0 = l.pos as int;
        let r = Self::load_object(l);
        proof {
            assert forall|o: Object|
                o.wf() && p0 + enc_obj(&o).len() <= bv.len() && #[trigger] bv.subrange(
                    p0,
                    p0 + enc_obj(&o).len(),
                ) == enc_obj(&o) implies (r matches Ok(o2) && o2@ == o@ && l.pos == p0 + enc_obj(
                &o,
            ).len()) by {
                lemma_p_obj_enc(bv, p0, &o);
            }
        }
        r
    }

    /// The body of the object loader, against the parse alone.
    fn load_object(l: &mut SnapshotLoader) -> (r: Result<Object, CstError>)
        ensures
            final(l).buf == old(l).buf,
            match p_obj(old(l).buf@, old(l).pos as int) {
                Some((ov, np)) => r matches Ok(o) && o@ == ov && o.wf() && final(l).pos == np,
                None => r matches Err(e) && (if obj_tag_err(old(l).buf@, old(l).pos as int) {
                    e is TypeConflict && final(l).pos == old(l).pos + 25
                } else {
                    e is InvalidType
                }),
            },
    {
        let ghost buf = l.buf@;
        let ghost pos0 = l.pos as int;
        let ct = match l.read_u64() {
            Ok(x) => x,
            Err(e) => {
                return Err(e);
            }
        };
        proof {
            lemma_p_u64_at(buf, pos0, ct);
        }
        let ghost p1 = l.pos as int;
        let ut = match l.read_u64() {
            Ok(x) => x,
            Err(e) => {
                return Err(e);
            }
        };
        proof {
            lemma_p_u64_at(buf, p1, ut);
        }
        let ghost p2 = l.pos as int;
        let dt = match l.read_u64() {
            Ok(x) => x,
            Err(e) => {
                return Err(e);
            }
        };
        proof {
            lemma_p_u64_at(buf, p2, dt);
        }
        let ghost p3 = l.pos as int;
        let tag = match l.read_byte() {
            Ok(b) => b,
            Err(e) => {
                return Err(e);
            }
        };
        let ghost p4 = l.pos as int;
        let enc: Encoding = if tag == 0 {
            let n = match l.read_u64() {
                Ok(x) => x,
                Err(e) => {
                    return Err(e);
                }
            };
            proof {
                lemma_p_u64_at(buf, p4, n);
            }
            let ghost p5 = l.pos as int;
            let mut c = Counter::new();
            let mut i: u64 = 0;
            while i < n
                invariant
                    c.wf(),
                    l.buf == old(l).buf,
                    buf == l.buf@,
                    pos0 == old(l).pos as int,
                    !obj_tag_err(buf, pos0),
                    0 <= i <= n,
                    p_obj(buf, pos0) == (match p_counter_entries(
                        buf,
                        l.pos as int,
                        (n - i) as nat,
                        c.entries@,
                    ) {
                        Some((es, np)) => Some(
                            (
                                ObjectV {
                                    ct,
                                    ut,
                                    dt,
                                    enc: EncV::Counter(crate::assoc::amap(es)),
                                },
                                np,
                            ),
                        ),
                        None => None::<(ObjectV, int)>,
                    }),
                decreases n - i,
            {
                let ghost cur = l.pos as int;
                let node = match l.read_u64() {
                    Ok(x) => x,
                    Err(e) => {
                        return Err(e);
                    }
                };
                proof {
                    lemma_p_u64_at(buf, cur, node);
                }
                let ghost c1 = l.pos as int;
                let value = match l.read_u64() {
                    Ok(x) => x,
                    Err(e) => {
                        return Err(e);
                    }
                };
                proof {
                    lemma_p_u64_at(buf, c1, value);
                }
                let ghost c2 = l.pos as int;
                let uuid = match l.read_u64() {
                    Ok(x) => x,
                    Err(e) => {
                        return Err(e);
                    }
                };
                proof {
                    lemma_p_u64_at(buf, c2, uuid);
                }
                match crate::counter::find_key_u64(&c.entries, node) {
                    Some(_) => {
                        return Err(CstError::InvalidType);
                    }
                    None => {
                        proof {
                            crate::assoc::lemma_amap_push(
                                c.entries@,
                                node,
                                (#[verifier::truncate] (value as i64), uuid),
                            );
                        }
                        c.entries.push((node, (#[verifier::truncate] (value as i64), uuid)));
                    }
                }
                i = i + 1;
            }
            Encoding::Counter(c)
        } else if tag == 3 {
            let b = match l.read_bytes() {
                Ok(b) => b,
                Err(e) => {
                    proof {
                        if p4 + 8 <= buf.len() {
                            lemma_le_val_bound(buf.subrange(p4, p4 + 8));
                            assert(pow256(8) == 0x1_0000_0000_0000_0000) by {
                                reveal_with_fuel(pow256, 9);
                            }
                        }
                    }
                    return Err(e);
                }
            };
            proof {
                lemma_p_bytes_at(buf, p4, b@, l.pos as int);
            }
            Encoding::Bytes(b)
        } else if tag == 5 {
            let n = match l.read_u64() {
                Ok(x) => x,
                Err(e) => {
                    return Err(e);
                }
            };
            proof {
                lemma_p_u64_at(buf, p4, n);
            }
            let ghost p5 = l.pos as int;
            let mut s = LwwSet::new();
            let mut i: u64 = 0;
            while i < n
                invariant
                    s.wf(),
                    l.buf == old(l).buf,
                    buf == l.buf@,
                    pos0 == old(l).pos as int,
                    !obj_tag_err(buf, pos0),
                    0 <= i <= n,
                    p_obj(buf, pos0) == (match p_set_entries(
                        buf,
                        l.pos as int,
                        (n - i) as nat,
                        s.entries_seq(),
                    ) {
                        Some((es, np)) => Some(
                            (
                                ObjectV {
                                    ct,
                                    ut,
                                    dt,
                                    enc: EncV::LWWSet(crate::assoc::amap(es)),
                                },
                                np,
                            ),
                        ),
                        None => None::<(ObjectV, int)>,
                    }),
                decreases n - i,
            {
                let ghost cur = l.pos as int;
                let member = match l.read_bytes() {
                    Ok(b) => b,
                    Err(e) => {
                        proof {
                        if cur + 8 <= buf.len() {
                            lemma_le_val_bound(buf.subrange(cur, cur + 8));
                            assert(pow256(8) == 0x1_0000_0000_0000_0000) by {
                                reveal_with_fuel(pow256, 9);
                            }
                        }
                    }
                    return Err(e);
                    }
                };
                proof {
                    lemma_p_bytes_at(buf, cur, member@, l.pos as int);
                }
                let ghost c1 = l.pos as int;
                let add_ts = match l.read_u64() {
                    Ok(x) => x,
                    Err(e) => {
                        return Err(e);
                    }
                };
                proof {
                    lemma_p_u64_at(buf, c1, add_ts);
                }
                let ghost c2 = l.pos as int;
                let remove_ts = match l.read_u64() {
                    Ok(x) => x,
                    Err(e) => {
                        return Err(e);
                    }
                };
                proof {
                    lemma_p_u64_at(buf, c2, remove_ts);
                }
                match crate::assoc::find_key_bytes(&s.entries, member.as_slice()) {
                    Some(j) => {
                        proof {
                            assert(s.entries_seq()[j as int].0 == member@);
                        }
                        return Err(CstError::InvalidType);
                    }
                    None => {
                        let ghost before = s.entries_seq();
                        proof {
                            assert(forall|j: int|
                                0 <= j < before.len() ==> (#[trigger] before[j]).0 != member@);
                            crate::assoc::lemma_amap_push(
                                before,
                                member@,
                                (add_ts, remove_ts),
                            );
                        }
                        let ghost mv = member@;
                        s.entries.push((member, (add_ts, remove_ts)));
                        proof {
                            assert(s.entries_seq() =~= before.push((mv, (add_ts, remove_ts))));
                        }
                    }
                }
                i = i + 1;
            }
            Encoding::LWWSet(s)
        } else if tag == 4 {
            let n = match l.read_u64() {
                Ok(x) => x,
                Err(e) => {
                    return Err(e);
                }
            };
            proof {
                lemma_p_u64_at(buf, p4, n);
            }
            let ghost p5 = l.pos as int;
            let mut d = Dict::new();
            let mut i: u64 = 0;
            while i < n
                invariant
                    d.wf(),
                    l.buf == old(l).buf,
                    buf == l.buf@,
                    pos0 == old(l).pos as int,
                    !obj_tag_err(buf, pos0),
                    0 <= i <= n,
                    p_obj(buf, pos0) == (match p_dict_entries(
                        buf,
                        l.pos as int,
                        (n - i) as nat,
                        d.entries_seq(),
                    ) {
                        Some((es, np)) => Some(
                            (
                                ObjectV {
                                    ct,
                                    ut,
                                    dt,
                                    enc: EncV::LWWDict(crate::assoc::amap(es)),
                                },
                                np,
                            ),
                        ),
                        None => None::<(ObjectV, int)>,
                    }),
                decreases n - i,
            {
                let ghost cur = l.pos as int;
                let field = match l.read_bytes() {
                    Ok(b) => b,
                    Err(e) => {
                        proof {
                        if cur + 8 <= buf.len() {
                            lemma_le_val_bound(buf.subrange(cur, cur + 8));
                            assert(pow256(8) == 0x1_0000_0000_0000_0000) by {
                                reveal_with_fuel(pow256, 9);
                            }
                        }
                    }
                    return Err(e);
                    }
                };
                proof {
                    lemma_p_bytes_at(buf, cur, field@, l.pos as int);
                }
                let ghost c1 = l.pos as int;
                let value = match l.read_bytes() {
                    Ok(b) => b,
                    Err(e) => {
                        proof {
                        if c1 + 8 <= buf.len() {
                            lemma_le_val_bound(buf.subrange(c1, c1 + 8));
                            assert(pow256(8) == 0x1_0000_0000_0000_0000) by {
                                reveal_with_fuel(pow256, 9);
                            }
                        }
                    }
                    return Err(e);
                    }
                };
                proof {
                    lemma_p_bytes_at(buf, c1, value@, l.pos as int);
                }
                let ghost c2 = l.pos as int;
                let add_ts = match l.read_u64() {
                    Ok(x) => x,
                    Err(e) => {
                        return Err(e);
                    }
                };
                proof {
                    lemma_p_u64_at(buf, c2, add_ts);
                }
                let ghost c3 = l.pos as int;
                let remove_ts = match l.read_u64() {
                    Ok(x) => x,
                    Err(e) => {
                        return Err(e);
                    }
                };
                proof {
                    lemma_p_u64_at(buf, c3, remove_ts);
                }
                if add_ts == 0 && value.len() > 0 {
                    // a field written only by tombstones carries no value
                    return Err(CstError::InvalidType);
                }
                match crate::assoc::find_key_bytes(&d.entries, field.as_slice()) {
                    Some(j) => {
                        proof {
                            assert(d.entries_seq()[j as int].0 == field@);
                        }
                        return Err(CstError::InvalidType);
                    }
                    None => {
                        let ghost before = d.entries_seq();
                        proof {
                            assert(forall|j: int|
                                0 <= j < before.len() ==> (#[trigger] before[j]).0 != field@);
                            crate::assoc::lemma_amap_push(
                                before,
                                field@,
                                (value@, add_ts, remove_ts),
                            );
                        }
                        let ghost fv = field@;
                        let ghost vv = value@;
                        d.entries.push((field, (value, add_ts, remove_ts)));
                        proof {
                            assert(d.entries_seq() =~= before.push(
                                (fv, (vv, add_ts, remove_ts)),
                            ));
                            assert(vv.len() == 0 ==> vv =~= Seq::<u8>::empty());
                        }
                    }
                }
                i = i + 1;
            }
            Encoding::LWWDict(d)
        } else {
            // an unknown tag is a conflict of variants, not a framing fault
            return Err(CstError::TypeConflict);
        };
        Ok(Object { create_time: ct, update_time: ut, delete_time: dt, enc })
    }
}

impl KeyStore {
    /// Reads a whole store back from snapshot bytes: exactly what the parse
    /// of the snapshot denotes.  A malformed stream fails with a type
    /// error; a loaded store is always structurally sound.  In particular a
    /// saved store loads back to its own mathematical value: the snapshot
    /// round trip.
    pub fn load_snapshot(buf: Vec<u8>) -> (r: Result<KeyStore, CstError>)
        ensures
            match p_snapshot(buf@) {
                Some(m) => r matches Ok(s) && s.wf() && s@ == m,
                None => r matches Err(e) && (if snap_tag_err(buf@) {
                    e is TypeConflict
                } else {
                    e is InvalidType
                }),
            },
            forall|s: KeyStore|
                s.wf() && #[trigger] enc_store(&s) == buf@ ==> (r matches Ok(s2) && s2@ == s@),
    {
        let ghost bv = buf@;
        let r = Self::load_store(buf);
        proof {
            assert forall|s: KeyStore|
                s.wf() && #[trigger] enc_store(&s) == bv implies (r matches Ok(s2) && s2@
                == s@) by {
                lemma_snapshot_roundtrip(&s);
            }
        }
        r
    }

    /// The body of the store loader, against the parse alone.
    fn load_store(buf: Vec<u8>) -> (r: Result<KeyStore, CstError>)
        ensures
            match p_snapshot(buf@) {
                Some(m) => r matches Ok(s) && s.wf() && s@ == m,
                None => r matches Err(e) && (if snap_tag_err(buf@) {
                    e is TypeConflict
                } else {
                    e is InvalidType
                }),
            },
    {
        let mut l = SnapshotLoader::new(buf);
        let ghost bv = l.buf@;
        let n = match l.read_u64() {
            Ok(x) => x,
            Err(e) => {
                return Err(e);
            }
        };
        proof {
            lemma_p_u64_at(bv, 0, n);
        }
        let ghost p1 = l.pos as int;
        let mut out = KeyStore::new();
        let mut i: u64 = 0;
        proof {
            assert(out@ =~= Map::<Seq<u8>, crate::object::ObjectV>::empty());
        }
        while i < n
            invariant
                out.wf(),
                l.buf@ == bv,
                bv == buf@,
                0 <= i <= n,
                p_snapshot(bv) == p_store(bv, l.pos as int, (n - i) as nat, out@),
                snap_tag_err(bv) == store_tag_err(bv, l.pos as int, (n - i) as nat),
            decreases n - i,
        {
            let ghost cur = l.pos as int;
            let key = match l.read_bytes() {
                Ok(b) => b,
                Err(e) => {
                    proof {
                        if cur + 8 <= bv.len() {
                            lemma_le_val_bound(bv.subrange(cur, cur + 8));
                            assert(pow256(8) == 0x1_0000_0000_0000_0000) by {
                                reveal_with_fuel(pow256, 9);
                            }
                        }
                    }
                    return Err(e);
                }
            };
            proof {
                lemma_p_bytes_at(bv, cur, key@, l.pos as int);
            }
            let o = match Object::load_object(&mut l) {
                Ok(o) => o,
                Err(e) => {
                    return Err(e);
                }
            };
            out.add(key, o);
            i = i + 1;
        }
        Ok(out)
    }
}

/// What a successful eight-byte read denotes: the parse at that position.
proof fn lemma_p_u64_at(buf: Seq<u8>, pos: int, x: u64)
    requires
        0 <= pos,
        pos + 8 <= buf.len(),
        x as int == le_val(buf.subrange(pos, pos + 8)),
    ensures
        p_u64(buf, pos) == Some((x, pos + 8)),
{
    lemma_le_val_bound(buf.subrange(pos, pos + 8));
    assert(pow256(8) == 0x1_0000_0000_0000_0000) by {
        reveal_with_fuel(pow256, 9);
    }
}

/// What a successful length-prefixed read denotes: the parse at that
/// position.
proof fn lemma_p_bytes_at(buf: Seq<u8>, pos: int, b: Seq<u8>, np: int)
    requires
        0 <= pos,
        pos + 8 <= buf.len(),
        np == pos + 8 + le_val(buf.subrange(pos, pos + 8)),
        np <= buf.len(),
        b == buf.subrange(pos + 8, np),
    ensures
        p_bytes(buf, pos) == Some((b, np)),
{
    lemma_le_val_bound(buf.subrange(pos, pos + 8));
    assert(pow256(8) == 0x1_0000_0000_0000_0000) by {
        reveal_with_fuel(pow256, 9);
    }
    lemma_p_u64_at(buf, pos, #[verifier::truncate] (le_val(buf.subrange(pos, pos + 8)) as u64));
}

/// Eight bytes encode any timestamp.
pub proof fn lemma_enc_u64_len(x: u64)
    ensures
        enc_u64(x).len() == 8,
        le_val(enc_u64(x)) == x,
{
    lemma_le_roundtrip_u64(x);
}

/// Counter entries encode to twenty-four bytes each.
pub proof fn lemma_enc_counter_entries_len(es: Seq<(u64, (i64, u64))>)
    ensures
        enc_counter_entries(es).len() == 24 * es.len(),
    decreases es.len(),
{
    if es.len() > 0 {
        lemma_enc_u64_len(es[0].0);
        lemma_enc_u64_len(#[verifier::truncate] (es[0].1.0 as u64));
        lemma_enc_u64_len(es[0].1.1);
        lemma_enc_counter_entries_len(es.drop_first());
    }
}

/// Parsing what the digits of `x` encode gives `x` back.
pub proof fn lemma_p_u64_enc(buf: Seq<u8>, pos: int, x: u64)
    requires
        0 <= pos,
        pos + 8 <= buf.len(),
        buf.subrange(pos, pos + 8) == enc_u64(x),
    ensures
        p_u64(buf, pos) == Some((x, pos + 8)),
{
    lemma_le_roundtrip_u64(x);
}

/// Parsing an encoded byte string gives it back.
pub proof fn lemma_p_bytes_enc(buf: Seq<u8>, pos: int, b: Seq<u8>)
    requires
        0 <= pos,
        b.len() < 0x1_0000_0000_0000_0000,
        pos + 8 + b.len() <= buf.len(),
        buf.subrange(pos, pos + 8 + b.len()) == enc_bytes(b),
    ensures
        p_bytes(buf, pos) == Some((b, pos + 8 + b.len())),
{
    lemma_enc_u64_len(b.len() as u64);
    assert(buf.subrange(pos, pos + 8) =~= enc_u64(b.len() as u64)) by {
        assert(forall|k: int|
            0 <= k < 8 ==> buf.subrange(pos, pos + 8 + b.len())[k] == enc_bytes(b)[k]);
    }
    lemma_p_u64_enc(buf, pos, b.len() as u64);
    let whole = buf.subrange(pos, pos + 8 + b.len());
    assert forall|k: int| 0 <= k < b.len() implies buf.subrange(pos + 8, pos + 8 + b.len())[k]
        == b[k] by {
        assert(whole[8 + k] == enc_bytes(b)[8 + k]);
        assert(enc_bytes(b)[8 + k] == b[k]);
        assert(whole[8 + k] == buf[pos + 8 + k]);
    }
    assert(buf.subrange(pos + 8, pos + 8 + b.len()) =~= b);
}

/// Parsing encoded counter entries appends them to the accumulator.
pub proof fn lemma_p_counter_entries_enc(
    buf: Seq<u8>,
    pos: int,
    es: Seq<(u64, (i64, u64))>,
    acc: Seq<(u64, (i64, u64))>,
)
    requires
        crate::assoc::unique_keys(acc + es),
        0 <= pos,
        pos + 24 * es.len() <= buf.len(),
        buf.subrange(pos, pos + 24 * es.len()) == enc_counter_entries(es),
    ensures
        p_counter_entries(buf, pos, es.len(), acc) == Some((acc + es, pos + 24 * es.len())),
    decreases es.len(),
{
    lemma_enc_counter_entries_len(es);
    if es.len() == 0 {
        assert(acc + es =~= acc);
    } else {
        let e = es[0];
        let rest = es.drop_first();
        lemma_enc_u64_len(e.0);
        lemma_enc_u64_len(#[verifier::truncate] (e.1.0 as u64));
        lemma_enc_u64_len(e.1.1);
        lemma_enc_counter_entries_len(rest);
        let whole = buf.subrange(pos, pos + 24 * es.len());
        let ea = enc_u64(e.0);
        let eb = enc_u64(#[verifier::truncate] (e.1.0 as u64));
        let ec = enc_u64(e.1.1);
        let ed = enc_counter_entries(rest);
        assert(enc_counter_entries(es) == ea + eb + ec + ed);
        assert forall|k: int| 0 <= k < 8 implies buf.subrange(pos, pos + 8)[k] == ea[k] by {
            assert(whole[k] == (ea + eb + ec + ed)[k]);
            assert(((ea + eb) + ec)[k] == (ea + eb)[k]);
            assert(whole[k] == buf[pos + k]);
        }
        assert(buf.subrange(pos, pos + 8) =~= ea);
        lemma_p_u64_enc(buf, pos, e.0);
        assert forall|k: int| 0 <= k < 8 implies buf.subrange(pos + 8, pos + 16)[k]
            == eb[k] by {
            assert(whole[8 + k] == (ea + eb + ec + ed)[8 + k]);
            assert(((ea + eb) + ec)[8 + k] == (ea + eb)[8 + k]);
            assert((ea + eb)[8 + k] == eb[k]);
            assert(whole[8 + k] == buf[pos + 8 + k]);
        }
        assert(buf.subrange(pos + 8, pos + 16) =~= eb);
        lemma_p_u64_enc(buf, pos + 8, #[verifier::truncate] (e.1.0 as u64));
        assert forall|k: int| 0 <= k < 8 implies buf.subrange(pos + 16, pos + 24)[k]
            == ec[k] by {
            assert(whole[16 + k] == (ea + eb + ec + ed)[16 + k]);
            assert(((ea + eb) + ec)[16 + k] == ec[k]);
            assert(whole[16 + k] == buf[pos + 16 + k]);
        }
        assert(buf.subrange(pos + 16, pos + 24) =~= ec);
        lemma_p_u64_enc(buf, pos + 16, e.1.1);
        // the accumulator holds no entry for this node
        assert forall|j: int| 0 <= j < acc.len() implies (#[trigger] acc[j]).0 != e.0 by {
            assert((acc + es)[j] == acc[j]);
            assert((acc + es)[acc.len() as int] == e);
        }
        // the truncating round trip restores the signed value
        let sv = e.1.0;
        assert(((sv as u64) as i64) == sv) by (bit_vector);
        assert(acc.push((e.0, ((e.1.0 as u64) as i64, e.1.1))) =~= acc.push(e));
        assert(acc.push(e) + rest =~= acc + es);
        assert forall|k: int| 0 <= k < 24 * rest.len() implies buf.subrange(
            pos + 24,
            pos + 24 + 24 * rest.len(),
        )[k] == ed[k] by {
            assert(whole[24 + k] == (ea + eb + ec + ed)[24 + k]);
            assert((ea + eb + ec + ed)[24 + k] == ed[k]);
            assert(whole[24 + k] == buf[pos + 24 + k]);
        }
        assert(buf.subrange(pos + 24, pos + 24 + 24 * rest.len()) =~= ed);
        lemma_p_counter_entries_enc(buf, pos + 24, rest, acc.push(e));
    }
}

/// Parsing encoded set entries appends them to the accumulator.
pub proof fn lemma_p_set_entries_enc(
    buf: Seq<u8>,
    pos: int,
    es: Seq<(Seq<u8>, (u64, u64))>,
    acc: Seq<(Seq<u8>, (u64, u64))>,
)
    requires
        crate::assoc::unique_keys(acc + es),
        forall|i: int| 0 <= i < es.len() ==> (#[trigger] es[i]).0.len() < 0x1_0000_0000_0000_0000,
        0 <= pos,
        pos + enc_set_entries(es).len() <= buf.len(),
        buf.subrange(pos, pos + enc_set_entries(es).len()) == enc_set_entries(es),
    ensures
        p_set_entries(buf, pos, es.len(), acc) == Some(
            (acc + es, pos + enc_set_entries(es).len()),
        ),
    decreases es.len(),
{
    if es.len() == 0 {
        assert(acc + es =~= acc);
    } else {
        let e = es[0];
        let rest = es.drop_first();
        lemma_enc_u64_len(e.0.len() as u64);
        lemma_enc_u64_len(e.1.0);
        lemma_enc_u64_len(e.1.1);
        let ea = enc_bytes(e.0);
        let eb = enc_u64(e.1.0);
        let ec = enc_u64(e.1.1);
        let ed = enc_set_entries(rest);
        let la = 8 + e.0.len() as int;
        assert(ea.len() == la);
        assert(enc_set_entries(es) == ea + eb + ec + ed);
        let whole = buf.subrange(pos, pos + enc_set_entries(es).len());
        assert forall|k: int| 0 <= k < la implies buf.subrange(pos, pos + la)[k] == ea[k] by {
            assert(whole[k] == (ea + eb + ec + ed)[k]);
            assert(((ea + eb) + ec)[k] == (ea + eb)[k]);
            assert(whole[k] == buf[pos + k]);
        }
        assert(buf.subrange(pos, pos + la) =~= ea);
        lemma_p_bytes_enc(buf, pos, e.0);
        assert forall|k: int| 0 <= k < 8 implies buf.subrange(pos + la, pos + la + 8)[k]
            == eb[k] by {
            assert(whole[la + k] == (ea + eb + ec + ed)[la + k]);
            assert(((ea + eb) + ec)[la + k] == (ea + eb)[la + k]);
            assert((ea + eb)[la + k] == eb[k]);
            assert(whole[la + k] == buf[pos + la + k]);
        }
        assert(buf.subrange(pos + la, pos + la + 8) =~= eb);
        lemma_p_u64_enc(buf, pos + la, e.1.0);
        assert forall|k: int| 0 <= k < 8 implies buf.subrange(pos + la + 8, pos + la + 16)[k]
            == ec[k] by {
            assert(whole[la + 8 + k] == (ea + eb + ec + ed)[la + 8 + k]);
            assert(((ea + eb) + ec)[la + 8 + k] == ec[k]);
            assert(whole[la + 8 + k] == buf[pos + la + 8 + k]);
        }
        assert(buf.subrange(pos + la + 8, pos + la + 16) =~= ec);
        lemma_p_u64_enc(buf, pos + la + 8, e.1.1);
        assert forall|j: int| 0 <= j < acc.len() implies (#[trigger] acc[j]).0 != e.0 by {
            assert((acc + es)[j] == acc[j]);
            assert((acc + es)[acc.len() as int] == e);
        }
        assert(acc.push(e) + rest =~= acc + es);
        assert(forall|i: int| 0 <= i < rest.len() ==> rest[i] == es[i + 1]);
        let lr = enc_set_entries(rest).len() as int;
        assert forall|k: int| 0 <= k < lr implies buf.subrange(
            pos + la + 16,
            pos + la + 16 + lr,
        )[k] == ed[k] by {
            assert(whole[la + 16 + k] == (ea + eb + ec + ed)[la + 16 + k]);
            assert((ea + eb + ec + ed)[la + 16 + k] == ed[k]);
            assert(whole[la + 16 + k] == buf[pos + la + 16 + k]);
        }
        assert(buf.subrange(pos + la + 16, pos + la + 16 + lr) =~= ed);
        lemma_p_set_entries_enc(buf, pos + la + 16, rest, acc.push(e));
    }
}

/// Parsing encoded dictionary entries appends them to the accumulator.
pub proof fn lemma_p_dict_entries_enc(
    buf: Seq<u8>,
    pos: int,
    es: Seq<(Seq<u8>, (Seq<u8>, u64, u64))>,
    acc: Seq<(Seq<u8>, (Seq<u8>, u64, u64))>,
)
    requires
        crate::assoc::unique_keys(acc + es),
        forall|i: int| 0 <= i < es.len() ==> (#[trigger] es[i]).0.len() < 0x1_0000_0000_0000_0000,
        forall|i: int|
            0 <= i < es.len() ==> (#[trigger] es[i]).1.0.len() < 0x1_0000_0000_0000_0000,
        forall|i: int| 0 <= i < es.len() ==> (#[trigger] es[i]).1.1 == 0 ==> es[i].1.0.len() == 0,
        0 <= pos,
        pos + enc_dict_entries(es).len() <= buf.len(),
        buf.subrange(pos, pos + enc_dict_entries(es).len()) == enc_dict_entries(es),
    ensures
        p_dict_entries(buf, pos, es.len(), acc) == Some(
            (acc + es, pos + enc_dict_entries(es).len()),
        ),
    decreases es.len(),
{
    if es.len() == 0 {
        assert(acc + es =~= acc);
    } else {
        let e = es[0];
        let rest = es.drop_first();
        lemma_enc_u64_len(e.0.len() as u64);
        lemma_enc_u64_len(e.1.0.len() as u64);
        lemma_enc_u64_len(e.1.1);
        lemma_enc_u64_len(e.1.2);
        let ea = enc_bytes(e.0);
        let eb = enc_bytes(e.1.0);
        let ec = enc_u64(e.1.1);
        let ed = enc_u64(e.1.2);
        let ee = enc_dict_entries(rest);
        let la = 8 + e.0.len() as int;
        let lb = 8 + e.1.0.len() as int;
        assert(ea.len() == la && eb.len() == lb);
        assert(enc_dict_entries(es) == ea + eb + ec + ed + ee);
        let whole = buf.subrange(pos, pos + enc_dict_entries(es).len());
        assert forall|k: int| 0 <= k < la implies buf.subrange(pos, pos + la)[k] == ea[k] by {
            assert(whole[k] == (ea + eb + ec + ed + ee)[k]);
            assert((((ea + eb) + ec) + ed)[k] == ((ea + eb) + ec)[k]);
            assert(((ea + eb) + ec)[k] == (ea + eb)[k]);
            assert(whole[k] == buf[pos + k]);
        }
        assert(buf.subrange(pos, pos + la) =~= ea);
        lemma_p_bytes_enc(buf, pos, e.0);
        assert forall|k: int| 0 <= k < lb implies buf.subrange(pos + la, pos + la + lb)[k]
            == eb[k] by {
            assert(whole[la + k] == (ea + eb + ec + ed + ee)[la + k]);
            assert((((ea + eb) + ec) + ed)[la + k] == ((ea + eb) + ec)[la + k]);
            assert(((ea + eb) + ec)[la + k] == (ea + eb)[la + k]);
            assert((ea + eb)[la + k] == eb[k]);
            assert(whole[la + k] == buf[pos + la + k]);
        }
        assert(buf.subrange(pos + la, pos + la + lb) =~= eb);
        lemma_p_bytes_enc(buf, pos + la, e.1.0);
        assert forall|k: int| 0 <= k < 8 implies buf.subrange(
            pos + la + lb,
            pos + la + lb + 8,
        )[k] == ec[k] by {
            assert(whole[la + lb + k] == (ea + eb + ec + ed + ee)[la + lb + k]);
            assert((((ea + eb) + ec) + ed)[la + lb + k] == ((ea + eb) + ec)[la + lb + k]);
            assert(((ea + eb) + ec)[la + lb + k] == ec[k]);
            assert(whole[la + lb + k] == buf[pos + la + lb + k]);
        }
        assert(buf.subrange(pos + la + lb, pos + la + lb + 8) =~= ec);
        lemma_p_u64_enc(buf, pos + la + lb, e.1.1);
        assert forall|k: int| 0 <= k < 8 implies buf.subrange(
            pos + la + lb + 8,
            pos + la + lb + 16,
        )[k] == ed[k] by {
            assert(whole[la + lb + 8 + k] == (ea + eb + ec + ed + ee)[la + lb + 8 + k]);
            assert((((ea + eb) + ec) + ed)[la + lb + 8 + k] == ed[k]);
            assert(whole[la + lb + 8 + k] == buf[pos + la + lb + 8 + k]);
        }
        assert(buf.subrange(pos + la + lb + 8, pos + la + lb + 16) =~= ed);
        lemma_p_u64_enc(buf, pos + la + lb + 8, e.1.2);
        assert forall|j: int| 0 <= j < acc.len() implies (#[trigger] acc[j]).0 != e.0 by {
            assert((acc + es)[j] == acc[j]);
            assert((acc + es)[acc.len() as int] == e);
        }
        assert(acc.push(e) + rest =~= acc + es);
        assert(forall|i: int| 0 <= i < rest.len() ==> rest[i] == es[i + 1]);
        let lr = enc_dict_entries(rest).len() as int;
        assert forall|k: int| 0 <= k < lr implies buf.subrange(
            pos + la + lb + 16,
            pos + la + lb + 16 + lr,
        )[k] == ee[k] by {
            assert(whole[la + lb + 16 + k] == (ea + eb + ec + ed + ee)[la + lb + 16 + k]);
            assert((ea + eb + ec + ed + ee)[la + lb + 16 + k] == ee[k]);
            assert(whole[la + lb + 16 + k] == buf[pos + la + lb + 16 + k]);
        }
        assert(buf.subrange(pos + la + lb + 16, pos + la + lb + 16 + lr) =~= ee);
        lemma_p_dict_entries_enc(buf, pos + la + lb + 16, rest, acc.push(e));
    }
}

/// Parsing an encoded object gives its mathematical value back.
#[verifier::rlimit(60)]
pub proof fn lemma_p_obj_enc(buf: Seq<u8>, pos: int, o: &Object)
    requires
        o.wf(),
        0 <= pos,
        pos + enc_obj(o).len() <= buf.len(),
        buf.subrange(pos, pos + enc_obj(o).len()) == enc_obj(o),
    ensures
        p_obj(buf, pos) == Some((o@, pos + enc_obj(o).len())),
{
    broadcast use vstd::std_specs::vec::group_vec_axioms;

    lemma_enc_u64_len(o.create_time);
    lemma_enc_u64_len(o.update_time);
    lemma_enc_u64_len(o.delete_time);
    let e1 = enc_u64(o.create_time);
    let e2 = enc_u64(o.update_time);
    let e3 = enc_u64(o.delete_time);
    let et = seq![tag_of(&o.enc)];
    let pay = match &o.enc {
        Encoding::Counter(c) => enc_u64(c.entries@.len() as u64) + enc_counter_entries(
            c.entries_seq(),
        ),
        Encoding::Bytes(b) => enc_bytes(b@),
        Encoding::LWWSet(s) => enc_u64(s.entries@.len() as u64) + enc_set_entries(
            s.entries_seq(),
        ),
        Encoding::LWWDict(d) => enc_u64(d.entries@.len() as u64) + enc_dict_entries(
            d.entries_seq(),
        ),
    };
    assert(enc_obj(o) == e1 + e2 + e3 + et + pay);
    let whole = buf.subrange(pos, pos + enc_obj(o).len());
    assert forall|k: int| 0 <= k < 8 implies buf.subrange(pos, pos + 8)[k] == e1[k] by {
        assert(whole[k] == (e1 + e2 + e3 + et + pay)[k]);
        assert((((e1 + e2) + e3) + et)[k] == ((e1 + e2) + e3)[k]);
        assert(((e1 + e2) + e3)[k] == (e1 + e2)[k]);
        assert(whole[k] == buf[pos + k]);
    }
    assert(buf.subrange(pos, pos + 8) =~= e1);
    lemma_p_u64_enc(buf, pos, o.create_time);
    assert forall|k: int| 0 <= k < 8 implies buf.subrange(pos + 8, pos + 16)[k] == e2[k] by {
        assert(whole[8 + k] == (e1 + e2 + e3 + et + pay)[8 + k]);
        assert((((e1 + e2) + e3) + et)[8 + k] == ((e1 + e2) + e3)[8 + k]);
        assert(((e1 + e2) + e3)[8 + k] == (e1 + e2)[8 + k]);
        assert((e1 + e2)[8 + k] == e2[k]);
        assert(whole[8 + k] == buf[pos + 8 + k]);
    }
    assert(buf.subrange(pos + 8, pos + 16) =~= e2);
    lemma_p_u64_enc(buf, pos + 8, o.update_time);
    assert forall|k: int| 0 <= k < 8 implies buf.subrange(pos + 16, pos + 24)[k] == e3[k] by {
        assert(whole[16 + k] == (e1 + e2 + e3 + et + pay)[16 + k]);
        assert((((e1 + e2) + e3) + et)[16 + k] == ((e1 + e2) + e3)[16 + k]);
        assert(((e1 + e2) + e3)[16 + k] == e3[k]);
        assert(whole[16 + k] == buf[pos + 16 + k]);
    }
    assert(buf.subrange(pos + 16, pos + 24) =~= e3);
    lemma_p_u64_enc(buf, pos + 16, o.delete_time);
    assert(buf[pos + 24] == tag_of(&o.enc)) by {
        assert(whole[24] == (e1 + e2 + e3 + et + pay)[24]);
        assert((((e1 + e2) + e3) + et)[24] == et[0]);
        assert(whole[24] == buf[pos + 24]);
    }
    let pp = pos + 25;
    let lp = pay.len() as int;
    assert forall|k: int| 0 <= k < lp implies buf.subrange(pp, pp + lp)[k] == pay[k] by {
        assert(whole[25 + k] == (e1 + e2 + e3 + et + pay)[25 + k]);
        assert((e1 + e2 + e3 + et + pay)[25 + k] == pay[k]);
        assert(whole[25 + k] == buf[pp + k]);
    }
    assert(buf.subrange(pp, pp + lp) =~= pay);
    match &o.enc {
        Encoding::Counter(c) => {
            let n = c.entries@.len() as u64;
            let es = c.entries_seq();
            lemma_enc_u64_len(n);
            lemma_enc_counter_entries_len(es);
            assert(vstd::std_specs::vec::spec_vec_len(&c.entries) == c.entries@.len());
            assert(c.entries@.len() <= usize::MAX);
            assert forall|k: int| 0 <= k < 8 implies buf.subrange(pp, pp + 8)[k] == enc_u64(
                n,
            )[k] by {
                assert(buf.subrange(pp, pp + lp)[k] == (enc_u64(n) + enc_counter_entries(es))[k]);
            }
            assert(buf.subrange(pp, pp + 8) =~= enc_u64(n));
            lemma_p_u64_enc(buf, pp, n);
            let lr = 24 * es.len() as int;
            assert forall|k: int| 0 <= k < lr implies buf.subrange(pp + 8, pp + 8 + lr)[k]
                == enc_counter_entries(es)[k] by {
                assert(buf.subrange(pp, pp + lp)[8 + k] == (enc_u64(n) + enc_counter_entries(
                    es,
                ))[8 + k]);
            }
            assert(buf.subrange(pp + 8, pp + 8 + lr) =~= enc_counter_entries(es));
            assert(crate::assoc::unique_keys(Seq::<(u64, (i64, u64))>::empty() + es)) by {
                assert(Seq::<(u64, (i64, u64))>::empty() + es =~= es);
            }
            lemma_p_counter_entries_enc(buf, pp + 8, es, Seq::empty());
            assert(Seq::<(u64, (i64, u64))>::empty() + es =~= es);
        }
        Encoding::Bytes(b) => {
            assert(vstd::std_specs::vec::spec_vec_len(b) == b@.len());
            assert(b@.len() <= usize::MAX);
            lemma_enc_u64_len(#[verifier::truncate] (b@.len() as u64));
            lemma_p_bytes_enc(buf, pp, b@);
        }
        Encoding::LWWSet(s) => {
            let n = s.entries@.len() as u64;
            let es = s.entries_seq();
            lemma_enc_u64_len(n);
            assert(vstd::std_specs::vec::spec_vec_len(&s.entries) == s.entries@.len());
            assert(s.entries@.len() <= usize::MAX);
            assert forall|k: int| 0 <= k < 8 implies buf.subrange(pp, pp + 8)[k] == enc_u64(
                n,
            )[k] by {
                assert(buf.subrange(pp, pp + lp)[k] == (enc_u64(n) + enc_set_entries(es))[k]);
            }
            assert(buf.subrange(pp, pp + 8) =~= enc_u64(n));
            lemma_p_u64_enc(buf, pp, n);
            let lr = enc_set_entries(es).len() as int;
            assert forall|k: int| 0 <= k < lr implies buf.subrange(pp + 8, pp + 8 + lr)[k]
                == enc_set_entries(es)[k] by {
                assert(buf.subrange(pp, pp + lp)[8 + k] == (enc_u64(n) + enc_set_entries(
                    es,
                ))[8 + k]);
            }
            assert(buf.subrange(pp + 8, pp + 8 + lr) =~= enc_set_entries(es));
            assert(crate::assoc::unique_keys(Seq::<(Seq<u8>, (u64, u64))>::empty() + es)) by {
                assert(Seq::<(Seq<u8>, (u64, u64))>::empty() + es =~= es);
            }
            assert forall|i: int| 0 <= i < es.len() implies (#[trigger] es[i]).0.len()
                < 0x1_0000_0000_0000_0000 by {
                assert(es[i].0 == s.entries@[i].0@);
                assert(vstd::std_specs::vec::spec_vec_len(&s.entries@[i].0) == s.entries@[i].0@.len());
                assert(s.entries@[i].0@.len() <= usize::MAX);
            }
            lemma_p_set_entries_enc(buf, pp + 8, es, Seq::empty());
            assert(Seq::<(Seq<u8>, (u64, u64))>::empty() + es =~= es);
        }
        Encoding::LWWDict(d) => {
            let n = d.entries@.len() as u64;
            let es = d.entries_seq();
            lemma_enc_u64_len(n);
            assert(vstd::std_specs::vec::spec_vec_len(&d.entries) == d.entries@.len());
            assert(d.entries@.len() <= usize::MAX);
            assert forall|k: int| 0 <= k < 8 implies buf.subrange(pp, pp + 8)[k] == enc_u64(
                n,
            )[k] by {
                assert(buf.subrange(pp, pp + lp)[k] == (enc_u64(n) + enc_dict_entries(es))[k]);
            }
            assert(buf.subrange(pp, pp + 8) =~= enc_u64(n));
            lemma_p_u64_enc(buf, pp, n);
            let lr = enc_dict_entries(es).len() as int;
            assert forall|k: int| 0 <= k < lr implies buf.subrange(pp + 8, pp + 8 + lr)[k]
                == enc_dict_entries(es)[k] by {
                assert(buf.subrange(pp, pp + lp)[8 + k] == (enc_u64(n) + enc_dict_entries(
                    es,
                ))[8 + k]);
            }
            assert(buf.subrange(pp + 8, pp + 8 + lr) =~= enc_dict_entries(es));
            assert(crate::assoc::unique_keys(
                Seq::<(Seq<u8>, (Seq<u8>, u64, u64))>::empty() + es,
            )) by {
                assert(Seq::<(Seq<u8>, (Seq<u8>, u64, u64))>::empty() + es =~= es);
            }
            assert forall|i: int| 0 <= i < es.len() implies (#[trigger] es[i]).0.len()
                < 0x1_0000_0000_0000_0000 && es[i].1.0.len() < 0x1_0000_0000_0000_0000 by {
                assert(es[i].0 == d.entries@[i].0@);
                assert(es[i].1.0 == d.entries@[i].1.0@);
                assert(vstd::std_specs::vec::spec_vec_len(&d.entries@[i].0) == d.entries@[i].0@.len());
                assert(vstd::std_specs::vec::spec_vec_len(&d.entries@[i].1.0) == d.entries@[i].1.0@.len());
                assert(d.entries@[i].0@.len() <= usize::MAX);
                assert(d.entries@[i].1.0@.len() <= usize::MAX);
            }
            lemma_p_dict_entries_enc(buf, pp + 8, es, Seq::empty());
            assert(Seq::<(Seq<u8>, (Seq<u8>, u64, u64))>::empty() + es =~= es);
        }
    }
}

/// Parsing encoded store records inserts them over the accumulator.
#[verifier::rlimit(100)]
#[verifier::spinoff_prover]
pub proof fn lemma_p_store_enc(
    buf: Seq<u8>,
    pos: int,
    es: Seq<(Vec<u8>, Object)>,
    acc: Map<Seq<u8>, ObjectV>,
)
    requires
        forall|i: int| 0 <= i < es.len() ==> (#[trigger] es[i]).1.wf(),
        0 <= pos,
        pos + enc_store_entries(es).len() <= buf.len(),
        buf.subrange(pos, pos + enc_store_entries(es).len()) == enc_store_entries(es),
    ensures
        p_store(buf, pos, es.len(), acc) == Some(
            acc.union_prefer_right(crate::assoc::amap(crate::store::store_assoc(es))),
        ),
    decreases es.len(),
{
    broadcast use vstd::std_specs::vec::group_vec_axioms;

    if es.len() == 0 {
        assert(crate::store::store_assoc(es) =~= Seq::<(Seq<u8>, ObjectV)>::empty());
        assert(acc.union_prefer_right(
            crate::assoc::amap(crate::store::store_assoc(es)),
        ) =~= acc);
    } else {
        let e = es[0];
        let rest = es.drop_first();
        assert(vstd::std_specs::vec::spec_vec_len(&e.0) == e.0@.len());
        assert(e.0@.len() <= usize::MAX);
        lemma_enc_u64_len(#[verifier::truncate] (e.0@.len() as u64));
        let ea = enc_bytes(e.0@);
        let eb = enc_obj(&e.1);
        let ec = enc_store_entries(rest);
        let la = 8 + e.0@.len() as int;
        let lb = eb.len() as int;
        assert(ea.len() == la);
        assert(enc_store_entries(es) == ea + eb + ec);
        let whole = buf.subrange(pos, pos + enc_store_entries(es).len());
        assert forall|k: int| 0 <= k < la implies buf.subrange(pos, pos + la)[k] == ea[k] by {
            assert(whole[k] == (ea + eb + ec)[k]);
            assert((ea + eb)[k] == ea[k]);
            assert(whole[k] == buf[pos + k]);
        }
        assert(buf.subrange(pos, pos + la) =~= ea);
        lemma_p_bytes_enc(buf, pos, e.0@);
        assert forall|k: int| 0 <= k < lb implies buf.subrange(pos + la, pos + la + lb)[k]
            == eb[k] by {
            assert(whole[la + k] == (ea + eb + ec)[la + k]);
            assert((ea + eb)[la + k] == eb[k]);
            assert(whole[la + k] == buf[pos + la + k]);
        }
        assert(buf.subrange(pos + la, pos + la + lb) =~= eb);
        lemma_p_obj_enc(buf, pos + la, &e.1);
        assert(forall|i: int| 0 <= i < rest.len() ==> rest[i] == es[i + 1]);
        let lr = enc_store_entries(rest).len() as int;
        assert forall|k: int| 0 <= k < lr implies buf.subrange(
            pos + la + lb,
            pos + la + lb + lr,
        )[k] == ec[k] by {
            assert(whole[la + lb + k] == (ea + eb + ec)[la + lb + k]);
            assert((ea + eb + ec)[la + lb + k] == ec[k]);
            assert(whole[la + lb + k] == buf[pos + la + lb + k]);
        }
        assert(buf.subrange(pos + la + lb, pos + la + lb + lr) =~= ec);
        lemma_p_store_enc(buf, pos + la + lb, rest, acc.insert(e.0@, e.1@));
        lemma_store_prepend(acc, es, rest);
    }
}

/// One record prepended inserts below everything the remaining records
/// insert.
proof fn lemma_store_prepend(
    acc: Map<Seq<u8>, ObjectV>,
    es: Seq<(Vec<u8>, Object)>,
    rest: Seq<(Vec<u8>, Object)>,
)
    requires
        es.len() > 0,
        rest == es.drop_first(),
    ensures
        acc.insert(es[0].0@, es[0].1@).union_prefer_right(
            crate::assoc::amap(crate::store::store_assoc(rest)),
        ) == acc.union_prefer_right(crate::assoc::amap(crate::store::store_assoc(es))),
{
    let e = es[0];
    let one = seq![(e.0@, e.1@)];
    assert forall|i: int| 0 <= i < es.len() implies crate::store::store_assoc(es)[i] == (
    one + crate::store::store_assoc(rest))[i] by {
        assert(crate::store::store_assoc(es)[i] == (es[i].0@, es[i].1@));
        if i > 0 {
            assert(crate::store::store_assoc(rest)[i - 1] == (rest[i - 1].0@, rest[i - 1].1@));
            assert(rest[i - 1] == es[i]);
        }
    }
    assert(crate::store::store_assoc(es) =~= one + crate::store::store_assoc(rest));
    crate::assoc::lemma_amap_concat(one, crate::store::store_assoc(rest));
    assert(crate::assoc::amap(one) =~= Map::<Seq<u8>, ObjectV>::empty().insert(e.0@, e.1@)) by {
        assert(one.drop_last() =~= Seq::<(Seq<u8>, ObjectV)>::empty());
        assert(crate::assoc::amap(Seq::<(Seq<u8>, ObjectV)>::empty())
            == Map::<Seq<u8>, ObjectV>::empty());
        assert(one.last() == (e.0@, e.1@));
    }
    let m_one = crate::assoc::amap(one);
    let m_rest = crate::assoc::amap(crate::store::store_assoc(rest));
    let m_all = crate::assoc::amap(crate::store::store_assoc(es));
    assert(m_all == m_one.union_prefer_right(m_rest));
    let lhs = acc.insert(e.0@, e.1@).union_prefer_right(m_rest);
    let rhs = acc.union_prefer_right(m_all);
    assert forall|k: Seq<u8>| #[trigger] rhs.contains_key(k) implies lhs.contains_key(k)
        && lhs[k] == rhs[k] by {
        if m_rest.contains_key(k) {
        } else if k == e.0@ {
            assert(m_one.contains_key(k) && m_one[k] == e.1@);
        }
    }
    assert forall|k: Seq<u8>| #[trigger] lhs.contains_key(k) implies rhs.contains_key(k) by {
        if k == e.0@ {
            assert(m_one.contains_key(k));
        }
    }
    assert(lhs =~= rhs);
}

/// A saved store parses back to its own mathematical value: the round-trip
/// law of the snapshot codec.
pub proof fn lemma_snapshot_roundtrip(s: &KeyStore)
    requires
        s.wf(),
    ensures
        p_snapshot(enc_store(s)) == Some(s@),
{
    broadcast use vstd::std_specs::vec::group_vec_axioms;

    let buf = enc_store(s);
    assert(vstd::std_specs::vec::spec_vec_len(&s.entries) == s.entries@.len());
    assert(s.entries@.len() <= usize::MAX);
    let n = #[verifier::truncate] (s.entries@.len() as u64);
    lemma_enc_u64_len(n);
    let ea = enc_u64(n);
    let eb = enc_store_entries(s.entries@);
    assert(buf == ea + eb);
    assert forall|k: int| 0 <= k < 8 implies buf.subrange(0, 8)[k] == ea[k] by {
        assert(buf[k] == (ea + eb)[k]);
    }
    assert(buf.subrange(0, 8) =~= ea);
    lemma_p_u64_enc(buf, 0, n);
    let lr = eb.len() as int;
    assert forall|k: int| 0 <= k < lr implies buf.subrange(8, 8 + lr)[k] == eb[k] by {
        assert(buf[8 + k] == (ea + eb)[8 + k]);
    }
    assert(buf.subrange(8, 8 + lr) =~= eb);
    lemma_p_store_enc(buf, 8, s.entries@, Map::empty());
    assert(Map::<Seq<u8>, ObjectV>::empty().union_prefer_right(
        crate::assoc::amap(crate::store::store_assoc(s.entries@)),
    ) =~= s@);
}

/// One more monotonicity fact about the digit range.
pub proof fn lemma_pow256_mono(a: nat, b: nat)
    requires
        a <= b,
    ensures
        pow256(a) <= pow256(b),
        pow256(a) >= 1,
    decreases b - a,
{
    if a < b {
        lemma_pow256_mono(a, (b - 1) as nat);
        lemma_pow256_pos((b - 1) as nat);
        lemma_pow256_pos(a);
    } else {
        lemma_pow256_pos(a);
    }
}

proof fn lemma_pow256_pos(n: nat)
    ensures
        pow256(n) >= 1,
    decreases n,
{
    if n > 0 {
        lemma_pow256_pos((n - 1) as nat);
    }
}

} // verus!
