//! The object envelope: one CRDT value with create/update/delete times.
//!
//! An object is alive exactly when `create_time >= delete_time`; otherwise
//! it is a tombstone, kept indefinitely with its variant so that a write of
//! the wrong type after a deletion still fails with a type error.  Merge
//! works only across equal variants, defers to the value's own merge, and
//! takes the maximum of each envelope timestamp.

use vstd::prelude::*;
use crate::CstError;
use crate::resp::{Message, MessageV};
use crate::counter::{Counter, spec_counter_merge, counter_compat, lemma_counter_merge_commutative};
use crate::lwwhash::{LwwSet, Dict, spec_set_merge, spec_dict_merge, dict_compat,
    lemma_dict_merge_commutative};
use crate::util::{max64, max_u64};

verus! {

/// The CRDT variant an object holds.
pub enum Encoding {
    Counter(Counter),
    Bytes(Vec<u8>),
    LWWSet(LwwSet),
    LWWDict(Dict),
}

/// The mathematical shape of a variant.
pub enum EncV {
    Counter(Map<u64, (i64, u64)>),
    Bytes(Seq<u8>),
    LWWSet(Map<Seq<u8>, (u64, u64)>),
    LWWDict(Map<Seq<u8>, (Seq<u8>, u64, u64)>),
}

impl Encoding {
    /// The mathematical value of this variant.
    pub open spec fn view(&self) -> EncV {
        match self {
            Encoding::Counter(c) => EncV::Counter(c@),
            Encoding::Bytes(b) => EncV::Bytes(b@),
            Encoding::LWWSet(s) => EncV::LWWSet(s@),
            Encoding::LWWDict(d) => EncV::LWWDict(d@),
        }
    }

    /// Structural soundness of the held value.
    pub open spec fn wf(&self) -> bool {
        match self {
            Encoding::Counter(c) => c.wf(),
            Encoding::Bytes(b) => true,
            Encoding::LWWSet(s) => s.wf(),
            Encoding::LWWDict(d) => d.wf(),
        }
    }

    /// The variant's name.
    pub fn name(&self) -> (r: &'static str)
        ensures
            match self {
                Encoding::Counter(_) => r@ == "Counter"@,
                Encoding::Bytes(_) => r@ == "Bytes"@,
                Encoding::LWWSet(_) => r@ == "LWWSet"@,
                Encoding::LWWDict(_) => r@ == "LWWDict"@,
            },
    {
        match self {
            Encoding::Counter(_) => "Counter",
            Encoding::Bytes(_) => "Bytes",
            Encoding::LWWSet(_) => "LWWSet",
            Encoding::LWWDict(_) => "LWWDict",
        }
    }

    /// The held counter, or a type error.
    pub fn as_counter(&self) -> (r: Result<&Counter, CstError>)
        ensures
            match r {
                Ok(c) => self is Counter && c == self->Counter_0,
                Err(e) => !(self is Counter) && e is InvalidType,
            },
    {
        match self {
            Encoding::Counter(c) => Ok(c),
            _ => Err(CstError::InvalidType),
        }
    }

    /// The held counter for mutation, or a type error.
    pub fn as_mut_counter(&mut self) -> (r: Result<&mut Counter, CstError>)
        ensures
            match r {
                Ok(c) => *old(self) is Counter && *c == (*old(self))->Counter_0 && *final(self)
                    == Encoding::Counter(*final(c)),
                Err(e) => !(*old(self) is Counter) && e is InvalidType && *final(self)
                    == *old(self),
            },
    {
        match self {
            Encoding::Counter(c) => Ok(c),
            _ => Err(CstError::InvalidType),
        }
    }

    /// The held set, or a type error.
    pub fn as_set(&self) -> (r: Result<&LwwSet, CstError>)
        ensures
            match r {
                Ok(s) => self is LWWSet && s == self->LWWSet_0,
                Err(e) => !(self is LWWSet) && e is InvalidType,
            },
    {
        match self {
            Encoding::LWWSet(s) => Ok(s),
            _ => Err(CstError::InvalidType),
        }
    }

    /// The held set for mutation, or a type error.
    pub fn as_mut_set(&mut self) -> (r: Result<&mut LwwSet, CstError>)
        ensures
            match r {
                Ok(s) => *old(self) is LWWSet && *s == (*old(self))->LWWSet_0 && *final(self)
                    == Encoding::LWWSet(*final(s)),
                Err(e) => !(*old(self) is LWWSet) && e is InvalidType && *final(self)
                    == *old(self),
            },
    {
        match self {
            Encoding::LWWSet(s) => Ok(s),
            _ => Err(CstError::InvalidType),
        }
    }

    /// The held dictionary, or a type error.
    pub fn as_dict(&self) -> (r: Result<&Dict, CstError>)
        ensures
            match r {
                Ok(d) => self is LWWDict && d == self->LWWDict_0,
                Err(e) => !(self is LWWDict) && e is InvalidType,
            },
    {
        match self {
            Encoding::LWWDict(d) => Ok(d),
            _ => Err(CstError::InvalidType),
        }
    }

    /// The held dictionary for mutation, or a type error.
    pub fn as_mut_dict(&mut self) -> (r: Result<&mut Dict, CstError>)
        ensures
            match r {
                Ok(d) => *old(self) is LWWDict && *d == (*old(self))->LWWDict_0 && *final(self)
                    == Encoding::LWWDict(*final(d)),
                Err(e) => !(*old(self) is LWWDict) && e is InvalidType && *final(self)
                    == *old(self),
            },
    {
        match self {
            Encoding::LWWDict(d) => Ok(d),
            _ => Err(CstError::InvalidType),
        }
    }
}

/// The mathematical shape of an object.
pub struct ObjectV {
    pub ct: u64,
    pub ut: u64,
    pub dt: u64,
    pub enc: EncV,
}

/// One key's value with its envelope timestamps.
pub struct Object {
    pub create_time: u64,
    pub update_time: u64,
    pub delete_time: u64,
    pub enc: Encoding,
}

/// The merge of two object values: `None` across mismatched variants, the
/// variant-wise merge under the maximum of each envelope timestamp
/// otherwise.  A bytes value keeps the side with the larger `create_time`,
/// the left side on a tie.
pub open spec fn spec_obj_merge(a: ObjectV, b: ObjectV) -> Option<ObjectV> {
    let ct = max64(a.ct, b.ct);
    let ut = max64(a.ut, b.ut);
    let dt = max64(a.dt, b.dt);
    match (a.enc, b.enc) {
        (EncV::Counter(x), EncV::Counter(y)) => Some(
            ObjectV { ct, ut, dt, enc: EncV::Counter(spec_counter_merge(x, y)) },
        ),
        (EncV::Bytes(x), EncV::Bytes(y)) => Some(
            ObjectV {
                ct,
                ut,
                dt,
                enc: EncV::Bytes(
                    if a.ct < b.ct {
                        y
                    } else {
                        x
                    },
                ),
            },
        ),
        (EncV::LWWSet(x), EncV::LWWSet(y)) => Some(
            ObjectV { ct, ut, dt, enc: EncV::LWWSet(spec_set_merge(x, y)) },
        ),
        (EncV::LWWDict(x), EncV::LWWDict(y)) => Some(
            ObjectV { ct, ut, dt, enc: EncV::LWWDict(spec_dict_merge(x, y)) },
        ),
        _ => None,
    }
}

/// What the update hook leaves of an object value: the update time raised
/// to at least `uuid`, and a tombstone whose deletion is not newer than
/// `uuid` created again at `uuid`.
pub open spec fn spec_updated(o: ObjectV, uuid: u64) -> ObjectV {
    ObjectV {
        ct: if o.ct < o.dt && uuid >= o.dt {
            uuid
        } else {
            o.ct
        },
        ut: max64(o.ut, uuid),
        dt: o.dt,
        enc: o.enc,
    }
}

impl Object {
    /// The mathematical value of this object.
    pub open spec fn view(&self) -> ObjectV {
        ObjectV {
            ct: self.create_time,
            ut: self.update_time,
            dt: self.delete_time,
            enc: self.enc@,
        }
    }

    /// Structural soundness of the held value.
    pub open spec fn wf(&self) -> bool {
        self.enc.wf()
    }

    /// A fresh object created at `ct`, with `dt` carried over from any
    /// tombstone it replaces.
    pub fn new(enc: Encoding, ct: u64, dt: u64) -> (o: Object)
        ensures
            o@ == (ObjectV { ct, ut: 0u64, dt, enc: enc@ }),
            o.wf() == enc.wf(),
    {
        Object { create_time: ct, update_time: 0, delete_time: dt, enc }
    }

    /// Records that a mutation with `uuid` was applied: the update time
    /// rises to at least `uuid`, and a tombstoned object whose deletion is
    /// not newer than `uuid` is created again at `uuid`.  All three
    /// timestamps are monotone under this operation.
    pub fn updated_at(&mut self, uuid: u64)
        ensures
            final(self).update_time == max64(old(self).update_time, uuid),
            final(self).delete_time == old(self).delete_time,
            final(self).create_time == if old(self).create_time < old(self).delete_time && uuid
                >= old(self).delete_time {
                uuid
            } else {
                old(self).create_time
            },
            final(self).enc == old(self).enc,
            final(self).create_time >= old(self).create_time,
            final(self).update_time >= old(self).update_time,
            final(self)@ == spec_updated(old(self)@, uuid),
    {
        if self.update_time < uuid {
            self.update_time = uuid;
        }
        if self.create_time < self.delete_time {
            if uuid >= self.delete_time {
                self.create_time = uuid;  // created again
            }
        }
    }

    /// An object is alive exactly when its creation out-times its deletion.
    pub fn alive(&self) -> (r: bool)
        ensures
            r <==> self.create_time >= self.delete_time,
    {
        self.create_time >= self.delete_time
    }

    /// True when the object was created before time `t`.
    pub fn created_before(&self, t: u64) -> (r: bool)
        ensures
            r <==> self.create_time < t,
    {
        self.create_time < t
    }

    /// Applies the data of another object into this one.  Fails, changing
    /// nothing, when the variants differ.  On success every envelope
    /// timestamp is the maximum of the two sides, so all three are monotone.
    pub fn merge(&mut self, other: &Object) -> (r: Result<(), CstError>)
        requires
            old(self).wf(),
            other.wf(),
        ensures
            final(self).wf(),
            match spec_obj_merge(old(self)@, other@) {
                Some(m) => r is Ok && final(self)@ == m,
                None => r matches Err(e) && e is TypeConflict && final(self)@ == old(self)@,
            },
    {
        let type_ok: bool = match (&mut self.enc, &other.enc) {
            (Encoding::Counter(c), Encoding::Counter(oc)) => {
                c.merge(oc);
                true
            }
            (Encoding::Bytes(b), Encoding::Bytes(ob)) => {
                if self.create_time < other.create_time {
                    let nv = crate::resp::dup_bytes(ob);
                    *b = nv;
                }
                true
            }
            (Encoding::LWWSet(s), Encoding::LWWSet(os)) => {
                s.merge(os);
                true
            }
            (Encoding::LWWDict(d), Encoding::LWWDict(od)) => {
                d.merge(od);
                true
            }
            _ => false,
        };
        if !type_ok {
            return Err(CstError::TypeConflict);
        }
        self.create_time = max_u64(self.create_time, other.create_time);
        self.update_time = max_u64(self.update_time, other.update_time);
        self.delete_time = max_u64(self.delete_time, other.delete_time);
        Ok(())
    }
}

/// The label bytes of each envelope line in a description: `ct: `, `mt: `
/// and `dt: `.
pub open spec fn desc_ct_label() -> Seq<u8> {
    seq![99u8, 116u8, 58u8, 32u8]
}

pub open spec fn desc_mt_label() -> Seq<u8> {
    seq![109u8, 116u8, 58u8, 32u8]
}

pub open spec fn desc_dt_label() -> Seq<u8> {
    seq![100u8, 116u8, 58u8, 32u8]
}

/// The name bytes of each variant, as the description reports them:
/// `counter`, `bytes`, `lwwset` and `lwwdict`.
pub open spec fn enc_name_bytes(e: EncV) -> Seq<u8> {
    match e {
        EncV::Counter(_) => seq![99u8, 111u8, 117u8, 110u8, 116u8, 101u8, 114u8],
        EncV::Bytes(_) => seq![98u8, 121u8, 116u8, 101u8, 115u8],
        EncV::LWWSet(_) => seq![108u8, 119u8, 119u8, 115u8, 101u8, 116u8],
        EncV::LWWDict(_) => seq![108u8, 119u8, 119u8, 100u8, 105u8, 99u8, 116u8],
    }
}

/// What a description reports of the held value: the counter's sum, the
/// bytes themselves, the live members, or the visible field-value pairs.
pub open spec fn spec_value_desc(o: &Object) -> MessageV {
    match o.enc {
        Encoding::Counter(c) => MessageV::Integer(
            vstd::wrapping::i64_specs::signed_crop(crate::counter::sum_counter(c@)),
        ),
        Encoding::Bytes(b) => MessageV::Simple(b@),
        Encoding::LWWSet(s) => MessageV::Array(
            crate::lwwhash::live_list(s.entries_seq()).map_values(|m: Seq<u8>| MessageV::Bulk(m)),
        ),
        Encoding::LWWDict(d) => MessageV::Array(
            crate::lwwhash::dict_live_list(d.entries_seq()).map_values(
                |p: (Seq<u8>, Seq<u8>)| MessageV::Array(
                    seq![MessageV::Bulk(p.0), MessageV::Bulk(p.1)],
                ),
            ),
        ),
    }
}

/// The full description of an object: its three envelope times in decimal
/// under their labels, the variant's name, and the value's description.
pub open spec fn spec_describe(o: &Object) -> MessageV {
    MessageV::Array(
        seq![
            MessageV::Bulk(desc_ct_label() + crate::util::u64_dec(o.create_time as int)),
            MessageV::Bulk(desc_mt_label() + crate::util::u64_dec(o.update_time as int)),
            MessageV::Bulk(desc_dt_label() + crate::util::u64_dec(o.delete_time as int)),
            MessageV::Bulk(enc_name_bytes(o.enc@)),
            spec_value_desc(o),
        ],
    )
}

/// Builds one labelled decimal line of a description.
fn desc_line(l0: u8, l1: u8, n: u64) -> (r: Vec<u8>)
    ensures
        r@ == seq![l0, l1, 58u8, 32u8] + crate::util::u64_dec(n as int),
{
    let mut v: Vec<u8> = Vec::new();
    v.push(l0);
    v.push(l1);
    v.push(58);
    v.push(32);
    let digits = crate::util::u64_to_dec(n);
    let mut i: usize = 0;
    while i < digits.len()
        invariant
            0 <= i <= digits@.len(),
            v@.len() == 4 + i,
            v@[0] == l0 && v@[1] == l1 && v@[2] == 58u8 && v@[3] == 32u8,
            forall|j: int| 0 <= j < i ==> v@[j + 4] == digits@[j],
        decreases digits@.len() - i,
    {
        v.push(digits[i]);
        i = i + 1;
    }
    proof {
        assert(v@ =~= seq![l0, l1, 58u8, 32u8] + digits@);
    }
    v
}

impl Object {
    /// Reports the envelope times, the variant's name and the value.
    pub fn describe(&self) -> (r: Message)
        requires
            self.wf(),
        ensures
            r@ == spec_describe(self),
    {
        let ct_line = desc_line(99, 116, self.create_time);
        let mt_line = desc_line(109, 116, self.update_time);
        let dt_line = desc_line(100, 116, self.delete_time);
        let mut name: Vec<u8> = Vec::new();
        let value: Message = match &self.enc {
            Encoding::Counter(c) => {
                name.push(99); name.push(111); name.push(117); name.push(110); name.push(116);
                name.push(101); name.push(114);
                Message::Integer(c.get())
            }
            Encoding::Bytes(b) => {
                name.push(98); name.push(121); name.push(116); name.push(101); name.push(115);
                Message::Simple(crate::resp::dup_bytes(b))
            }
            Encoding::LWWSet(s) => {
                name.push(108); name.push(119); name.push(119); name.push(115); name.push(101);
                name.push(116);
                let live = s.iter_live();
                let ghost lv = crate::lwwhash::live_list(s.entries_seq());
                let mut items: Vec<Message> = Vec::new();
                let mut i: usize = 0;
                while i < live.len()
                    invariant
                        0 <= i <= live@.len(),
                        live@.map_values(|b: Vec<u8>| b@) == lv,
                        items@.len() == i,
                        forall|j: int| 0 <= j < i ==> items@[j]@ == MessageV::Bulk(lv[j]),
                    decreases live@.len() - i,
                {
                    proof {
                        assert(lv[i as int] == live@.map_values(|b: Vec<u8>| b@)[i as int]);
                    }
                    items.push(Message::Bulk(crate::resp::dup_bytes(&live[i])));
                    i = i + 1;
                }
                proof {
                    crate::resp::lemma_msgs_view(items@);
                    assert(crate::resp::msgs_view(items@) =~= lv.map_values(
                        |m: Seq<u8>| MessageV::Bulk(m),
                    ));
                }
                Message::Array(items)
            }
            Encoding::LWWDict(d) => {
                name.push(108); name.push(119); name.push(119); name.push(100); name.push(105);
                name.push(99); name.push(116);
                let live = d.iter_live();
                let ghost lv = crate::lwwhash::dict_live_list(d.entries_seq());
                let mut items: Vec<Message> = Vec::new();
                let mut i: usize = 0;
                while i < live.len()
                    invariant
                        0 <= i <= live@.len(),
                        live@.map_values(|p: (Vec<u8>, Vec<u8>)| (p.0@, p.1@)) == lv,
                        items@.len() == i,
                        forall|j: int|
                            0 <= j < i ==> items@[j]@ == MessageV::Array(
                                seq![MessageV::Bulk(lv[j].0), MessageV::Bulk(lv[j].1)],
                            ),
                    decreases live@.len() - i,
                {
                    proof {
                        assert(lv[i as int] == live@.map_values(
                            |p: (Vec<u8>, Vec<u8>)| (p.0@, p.1@),
                        )[i as int]);
                    }
                    let mut pair: Vec<Message> = Vec::new();
                    let m0 = Message::Bulk(crate::resp::dup_bytes(&live[i].0));
                    let m1 = Message::Bulk(crate::resp::dup_bytes(&live[i].1));
                    proof {
                        assert(lv[i as int].0 == live@[i as int].0@);
                        assert(lv[i as int].1 == live@[i as int].1@);
                        assert(m0@ == MessageV::Bulk(lv[i as int].0));
                        assert(m1@ == MessageV::Bulk(lv[i as int].1));
                    }
                    pair.push(m0);
                    pair.push(m1);
                    proof {
                        crate::resp::lemma_msgs_view(pair@);
                        assert(pair@.len() == 2);
                        assert(crate::resp::msgs_view(pair@)[0] == pair@[0]@);
                        assert(crate::resp::msgs_view(pair@)[1] == pair@[1]@);
                        assert(crate::resp::msgs_view(pair@) =~= seq![
                            MessageV::Bulk(lv[i as int].0),
                            MessageV::Bulk(lv[i as int].1),
                        ]);
                    }
                    items.push(Message::Array(pair));
                    i = i + 1;
                }
                proof {
                    crate::resp::lemma_msgs_view(items@);
                    let target = lv.map_values(
                        |p: (Seq<u8>, Seq<u8>)| MessageV::Array(
                            seq![MessageV::Bulk(p.0), MessageV::Bulk(p.1)],
                        ),
                    );
                    assert forall|j: int| 0 <= j < lv.len() implies crate::resp::msgs_view(
                        items@,
                    )[j] == target[j] by {
                        assert(crate::resp::msgs_view(items@)[j] == items@[j]@);
                        assert(target[j] == MessageV::Array(
                            seq![MessageV::Bulk(lv[j].0), MessageV::Bulk(lv[j].1)],
                        ));
                    }
                    assert(crate::resp::msgs_view(items@) =~= target);
                }
                Message::Array(items)
            }
        };
        proof {
            assert(name@ =~= enc_name_bytes(self.enc@));
        }
        let mut parts: Vec<Message> = Vec::new();
        parts.push(Message::Bulk(ct_line));
        parts.push(Message::Bulk(mt_line));
        parts.push(Message::Bulk(dt_line));
        parts.push(Message::Bulk(name));
        parts.push(value);
        let r = Message::Array(parts);
        proof {
            crate::resp::lemma_msgs_view(parts@);
            assert(parts@.len() == 5);
            assert(crate::resp::msgs_view(parts@)[0] == parts@[0]@);
            assert(crate::resp::msgs_view(parts@)[1] == parts@[1]@);
            assert(crate::resp::msgs_view(parts@)[2] == parts@[2]@);
            assert(crate::resp::msgs_view(parts@)[3] == parts@[3]@);
            assert(crate::resp::msgs_view(parts@)[4] == parts@[4]@);
            assert(crate::resp::msgs_view(parts@) =~= spec_describe(self)->Array_0);
        }
        r
    }
}

/// Merging an object value with itself changes nothing.
pub proof fn lemma_obj_merge_idempotent(a: ObjectV)
    ensures
        spec_obj_merge(a, a) == Some(a),
{
    match a.enc {
        EncV::Counter(x) => {
            crate::counter::lemma_counter_merge_idempotent(x);
        }
        EncV::Bytes(x) => {}
        EncV::LWWSet(x) => {
            crate::lwwhash::lemma_set_merge_idempotent(x);
        }
        EncV::LWWDict(x) => {
            crate::lwwhash::lemma_dict_merge_idempotent(x);
        }
    }
}

/// Object values agree wherever both carry the same write timestamp: per
/// counter node, per dictionary field, and on the byte value when the
/// create times tie.  Writes tagged by cluster-unique uuids always agree.
pub open spec fn obj_compat(a: ObjectV, b: ObjectV) -> bool {
    match (a.enc, b.enc) {
        (EncV::Counter(x), EncV::Counter(y)) => counter_compat(x, y),
        (EncV::Bytes(x), EncV::Bytes(y)) => a.ct == b.ct ==> x == y,
        (EncV::LWWDict(x), EncV::LWWDict(y)) => dict_compat(x, y),
        _ => true,
    }
}

/// Merge is commutative on compatible object values.
pub proof fn lemma_obj_merge_commutative(a: ObjectV, b: ObjectV)
    requires
        obj_compat(a, b),
    ensures
        spec_obj_merge(a, b) == spec_obj_merge(b, a),
{
    match (a.enc, b.enc) {
        (EncV::Counter(x), EncV::Counter(y)) => {
            lemma_counter_merge_commutative(x, y);
        }
        (EncV::Bytes(x), EncV::Bytes(y)) => {}
        (EncV::LWWSet(x), EncV::LWWSet(y)) => {
            crate::lwwhash::lemma_set_merge_commutative(x, y);
        }
        (EncV::LWWDict(x), EncV::LWWDict(y)) => {
            lemma_dict_merge_commutative(x, y);
        }
        _ => {}
    }
}

/// Merge is associative on object values of one variant.
pub proof fn lemma_obj_merge_associative(a: ObjectV, b: ObjectV, c: ObjectV)
    requires
        spec_obj_merge(a, b) is Some,
        spec_obj_merge(b, c) is Some,
    ensures
        spec_obj_merge(spec_obj_merge(a, b)->Some_0, c) == spec_obj_merge(
            a,
            spec_obj_merge(b, c)->Some_0,
        ),
{
    match (a.enc, b.enc, c.enc) {
        (EncV::Counter(x), EncV::Counter(y), EncV::Counter(z)) => {
            crate::counter::lemma_counter_merge_associative(x, y, z);
        }
        (EncV::Bytes(x), EncV::Bytes(y), EncV::Bytes(z)) => {}
        (EncV::LWWSet(x), EncV::LWWSet(y), EncV::LWWSet(z)) => {
            crate::lwwhash::lemma_set_merge_associative(x, y, z);
        }
        (EncV::LWWDict(x), EncV::LWWDict(y), EncV::LWWDict(z)) => {
            crate::lwwhash::lemma_dict_merge_associative(x, y, z);
        }
        _ => {}
    }
}

/// No envelope timestamp moves backward under merge.
pub proof fn lemma_merge_monotone(a: ObjectV, b: ObjectV)
    requires
        spec_obj_merge(a, b) is Some,
    ensures
        spec_obj_merge(a, b)->Some_0.ct >= a.ct,
        spec_obj_merge(a, b)->Some_0.ut >= a.ut,
        spec_obj_merge(a, b)->Some_0.dt >= a.dt,
{
}

/// Two nodes that exchange and merge each other's object converge to the
/// same value, whatever the interleaving that produced the two sides.
pub proof fn lemma_pairwise_convergence(a: ObjectV, b: ObjectV)
    requires
        obj_compat(a, b),
        spec_obj_merge(a, b) is Some,
    ensures
        spec_obj_merge(a, b) == spec_obj_merge(b, a),
{
    lemma_obj_merge_commutative(a, b);
}

} // verus!
