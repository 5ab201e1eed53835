//! Wire protocol message kinds.
//!
//! Requests are arrays of bulk strings with the command name first; replies
//! reuse the same message kinds.  Framing and byte encoding belong to an
//! outside codec collaborator and are not modelled here.

use vstd::prelude::*;
use crate::util::{i64_to_dec, slice_eq};

verus! {

/// One wire message.  `Simple` is the protocol's plain string kind,
/// `NoReply` the synthetic kind whose reply is suppressed.
pub enum Message {
    Integer(i64),
    Simple(Vec<u8>),
    Bulk(Vec<u8>),
    Array(Vec<Message>),
    Error(Vec<u8>),
    Nil,
    NoReply,
}

/// The mathematical shape of a message: byte vectors as sequences.
pub enum MessageV {
    Integer(i64),
    Simple(Seq<u8>),
    Bulk(Seq<u8>),
    Array(Seq<MessageV>),
    Error(Seq<u8>),
    Nil,
    NoReply,
}

/// The mathematical values of a sequence of messages, element-wise.
pub open spec fn msgs_view(s: Seq<Message>) -> Seq<MessageV>
    decreases s,
{
    if s.len() == 0 {
        Seq::empty()
    } else {
        msgs_view(s.drop_last()).push(s.last().view())
    }
}

/// `msgs_view` maps the view over the sequence, index by index.
pub proof fn lemma_msgs_view(s: Seq<Message>)
    ensures
        msgs_view(s).len() == s.len(),
        forall|i: int| 0 <= i < s.len() ==> msgs_view(s)[i] == (#[trigger] s[i]).view(),
    decreases s.len(),
{
    if s.len() > 0 {
        lemma_msgs_view(s.drop_last());
        assert(forall|i: int| 0 <= i < s.len() - 1 ==> s.drop_last()[i] == s[i]);
    }
}

impl Message {
    /// The mathematical value of this message.
    pub open spec fn view(self) -> MessageV
        decreases self,
    {
        match self {
            Message::Integer(i) => MessageV::Integer(i),
            Message::Simple(b) => MessageV::Simple(b@),
            Message::Bulk(b) => MessageV::Bulk(b@),
            Message::Array(v) => MessageV::Array(msgs_view(v@)),
            Message::Error(b) => MessageV::Error(b@),
            Message::Nil => MessageV::Nil,
            Message::NoReply => MessageV::NoReply,
        }
    }

    /// Structural copy of a message.
    pub fn duplicate(&self) -> (r: Message)
        ensures
            r.view() == self.view(),
        decreases *self,
    {
        match self {
            Message::Integer(i) => Message::Integer(*i),
            Message::Simple(b) => Message::Simple(dup_bytes(b)),
            Message::Bulk(b) => Message::Bulk(dup_bytes(b)),
            Message::Error(b) => Message::Error(dup_bytes(b)),
            Message::Nil => Message::Nil,
            Message::NoReply => Message::NoReply,
            Message::Array(v) => {
                let mut out: Vec<Message> = Vec::new();
                let mut i: usize = 0;
                while i < v.len()
                    invariant
                        0 <= i <= v@.len(),
                        out@.len() == i,
                        *self == Message::Array(*v),
                        forall|j: int| 0 <= j < i ==> out@[j].view() == v@[j].view(),
                    decreases v@.len() - i,
                {
                    proof {
                        assert(decreases_to!(*self => v@[i as int])) by {
                            broadcast use vstd::seq::axiom_seq_index_decreases;

                            assert(decreases_to!(*self => self->Array_0));
                            assert(decreases_to!(self->Array_0 => v@));
                            assert(decreases_to!(v@ => v@[i as int]));
                        }
                    }
                    let e = v[i].duplicate();
                    out.push(e);
                    i = i + 1;
                }
                proof {
                    lemma_msgs_view(out@);
                    lemma_msgs_view(v@);
                    assert forall|j: int| 0 <= j < v@.len() implies msgs_view(out@)[j]
                        == msgs_view(v@)[j] by {
                        assert(msgs_view(out@)[j] == out@[j].view());
                        assert(msgs_view(v@)[j] == v@[j].view());
                    }
                    assert(msgs_view(out@) =~= msgs_view(v@));
                }
                Message::Array(out)
            }
        }
    }
}

/// Structural copy of a byte vector.
pub fn dup_bytes(b: &Vec<u8>) -> (r: Vec<u8>)
    ensures
        r@ == b@,
{
    let mut out: Vec<u8> = Vec::new();
    let mut i: usize = 0;
    while i < b.len()
        invariant
            0 <= i <= b@.len(),
            out@.len() == i,
            forall|j: int| 0 <= j < i ==> out@[j] == b@[j],
        decreases b@.len() - i,
    {
        out.push(b[i]);
        i = i + 1;
    }
    assert(out@ =~= b@);
    out
}

/// The conventional success reply.
pub fn new_msg_ok() -> (r: Message)
    ensures
        r@ == MessageV::Simple(seq![79u8, 75u8]),
{
    let mut b: Vec<u8> = Vec::new();
    b.push(79);
    b.push(75);
    assert(b@ =~= seq![79u8, 75u8]);
    Message::Simple(b)
}

/// The decimal byte rendering of an integer argument.
pub fn get_int_bytes(i: i64) -> (r: Vec<u8>)
    ensures
        r@ == crate::util::i64_dec(i as int),
{
    i64_to_dec(i)
}

} // verus!
