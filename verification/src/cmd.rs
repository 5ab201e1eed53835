//! The command engine: the name-to-command table, the argument iterator
//! with its coercions, and command execution with replication emission.
//!
//! A user-issued command draws a fresh uuid; a record replayed from a peer
//! carries the peer's uuid and is never replicated again.  A successful
//! write that does not replicate its own effects is appended verbatim to
//! the replication log.

use vstd::prelude::*;
use crate::CstError;
use crate::resp::{Message, MessageV, msgs_view, lemma_msgs_view};
use crate::util::{lower_bytes, parse_i64_spec, i64_dec, to_ascii_lower};
use crate::object::{Encoding, EncV, Object, ObjectV};
use crate::server::{Server, Client, opt_client, same_except_db, same_except_db_log, same_except_identity};

verus! {

/// Compares a byte slice with a fixed-size pattern.
pub fn eq_arr<const N: usize>(a: &[u8], b: &[u8; N]) -> (r: bool)
    ensures
        r <==> a@ == b@,
{
    if a.len() != N {
        assert(a@.len() != b@.len());
        return false;
    }
    let mut i: usize = 0;
    while i < N
        invariant
            0 <= i <= N,
            a@.len() == N,
            b@.len() == N,
            forall|j: int| 0 <= j < i ==> a@[j] == b@[j],
        decreases N - i,
    {
        if a[i] != b[i] {
            assert(a@[i as int] != b@[i as int]);
            return false;
        }
        i = i + 1;
    }
    assert(a@ =~= b@);
    true
}

/// Every command a node understands.
#[derive(Clone, Copy, PartialEq, Eq, Structural)]
pub enum CommandName {
    Node,
    Replicas,
    Sync,
    Meet,
    ClientCtl,
    Repllog,
    Info,
    Get,
    SetCmd,
    Desc,
    Del,
    DelBytes,
    Incr,
    Decr,
    DelCnt,
    SAdd,
    SRem,
    SPop,
    SMembers,
    DelSet,
    HSet,
    HGet,
    HGetAll,
    HDel,
    DelDict,
}

/// The wire name of each command, lower case.
pub open spec fn cmd_name_bytes(c: CommandName) -> Seq<u8> {
    match c {
        CommandName::Node => seq![110u8, 111u8, 100u8, 101u8],
        CommandName::Replicas => seq![114u8, 101u8, 112u8, 108u8, 105u8, 99u8, 97u8, 115u8],
        CommandName::Sync => seq![115u8, 121u8, 110u8, 99u8],
        CommandName::Meet => seq![109u8, 101u8, 101u8, 116u8],
        CommandName::ClientCtl => seq![99u8, 108u8, 105u8, 101u8, 110u8, 116u8],
        CommandName::Repllog => seq![114u8, 101u8, 112u8, 108u8, 108u8, 111u8, 103u8],
        CommandName::Info => seq![105u8, 110u8, 102u8, 111u8],
        CommandName::Get => seq![103u8, 101u8, 116u8],
        CommandName::SetCmd => seq![115u8, 101u8, 116u8],
        CommandName::Desc => seq![100u8, 101u8, 115u8, 99u8],
        CommandName::Del => seq![100u8, 101u8, 108u8],
        CommandName::DelBytes => seq![100u8, 101u8, 108u8, 98u8, 121u8, 116u8, 101u8, 115u8],
        CommandName::Incr => seq![105u8, 110u8, 99u8, 114u8],
        CommandName::Decr => seq![100u8, 101u8, 99u8, 114u8],
        CommandName::DelCnt => seq![100u8, 101u8, 108u8, 99u8, 110u8, 116u8],
        CommandName::SAdd => seq![115u8, 97u8, 100u8, 100u8],
        CommandName::SRem => seq![115u8, 114u8, 101u8, 109u8],
        CommandName::SPop => seq![115u8, 112u8, 111u8, 112u8],
        CommandName::SMembers => seq![115u8, 109u8, 101u8, 109u8, 98u8, 101u8, 114u8, 115u8],
        CommandName::DelSet => seq![100u8, 101u8, 108u8, 115u8, 101u8, 116u8],
        CommandName::HSet => seq![104u8, 115u8, 101u8, 116u8],
        CommandName::HGet => seq![104u8, 103u8, 101u8, 116u8],
        CommandName::HGetAll => seq![104u8, 103u8, 101u8, 116u8, 97u8, 108u8, 108u8],
        CommandName::HDel => seq![104u8, 100u8, 101u8, 108u8],
        CommandName::DelDict => seq![100u8, 101u8, 108u8, 100u8, 105u8, 99u8, 116u8],
    }
}

/// The command a lower-case name denotes, if any.
pub open spec fn command_of(s: Seq<u8>) -> Option<CommandName> {
    if s == cmd_name_bytes(CommandName::Node) {
        Some(CommandName::Node)
    } else if s == cmd_name_bytes(CommandName::Replicas) {
        Some(CommandName::Replicas)
    } else if s == cmd_name_bytes(CommandName::Sync) {
        Some(CommandName::Sync)
    } else if s == cmd_name_bytes(CommandName::Meet) {
        Some(CommandName::Meet)
    } else if s == cmd_name_bytes(CommandName::ClientCtl) {
        Some(CommandName::ClientCtl)
    } else if s == cmd_name_bytes(CommandName::Repllog) {
        Some(CommandName::Repllog)
    } else if s == cmd_name_bytes(CommandName::Info) {
        Some(CommandName::Info)
    } else if s == cmd_name_bytes(CommandName::Get) {
        Some(CommandName::Get)
    } else if s == cmd_name_bytes(CommandName::SetCmd) {
        Some(CommandName::SetCmd)
    } else if s == cmd_name_bytes(CommandName::Desc) {
        Some(CommandName::Desc)
    } else if s == cmd_name_bytes(CommandName::Del) {
        Some(CommandName::Del)
    } else if s == cmd_name_bytes(CommandName::DelBytes) {
        Some(CommandName::DelBytes)
    } else if s == cmd_name_bytes(CommandName::Incr) {
        Some(CommandName::Incr)
    } else if s == cmd_name_bytes(CommandName::Decr) {
        Some(CommandName::Decr)
    } else if s == cmd_name_bytes(CommandName::DelCnt) {
        Some(CommandName::DelCnt)
    } else if s == cmd_name_bytes(CommandName::SAdd) {
        Some(CommandName::SAdd)
    } else if s == cmd_name_bytes(CommandName::SRem) {
        Some(CommandName::SRem)
    } else if s == cmd_name_bytes(CommandName::SPop) {
        Some(CommandName::SPop)
    } else if s == cmd_name_bytes(CommandName::SMembers) {
        Some(CommandName::SMembers)
    } else if s == cmd_name_bytes(CommandName::DelSet) {
        Some(CommandName::DelSet)
    } else if s == cmd_name_bytes(CommandName::HSet) {
        Some(CommandName::HSet)
    } else if s == cmd_name_bytes(CommandName::HGet) {
        Some(CommandName::HGet)
    } else if s == cmd_name_bytes(CommandName::HGetAll) {
        Some(CommandName::HGetAll)
    } else if s == cmd_name_bytes(CommandName::HDel) {
        Some(CommandName::HDel)
    } else if s == cmd_name_bytes(CommandName::DelDict) {
        Some(CommandName::DelDict)
    } else {
        None
    }
}

/// Commands that mutate the key store; replicated unless they replicate
/// their own effects.
pub open spec fn is_write(c: CommandName) -> bool {
    match c {
        CommandName::SetCmd | CommandName::Del | CommandName::DelBytes | CommandName::Incr
            | CommandName::Decr | CommandName::DelCnt | CommandName::SAdd | CommandName::SRem
            | CommandName::SPop | CommandName::DelSet | CommandName::HSet | CommandName::HDel
            | CommandName::DelDict => true,
        _ => false,
    }
}

/// Writes that emit their own replication records instead of the verbatim
/// command.
pub open spec fn is_no_replicate(c: CommandName) -> bool {
    c is Del
}

/// Commands only valid as replay from a peer, never from a client.
pub open spec fn is_repl_only(c: CommandName) -> bool {
    match c {
        CommandName::DelBytes | CommandName::DelCnt | CommandName::DelSet
            | CommandName::DelDict => true,
        _ => false,
    }
}

/// One entry of the command table.
pub struct Command {
    pub name: CommandName,
}

impl Command {
    /// The wire name of this command, for the replication log.
    pub fn name_vec(&self) -> (r: Vec<u8>)
        ensures
            r@ == cmd_name_bytes(self.name),
    {
        let mut v: Vec<u8> = Vec::new();
        match self.name {
            CommandName::Node => { v.push(110); v.push(111); v.push(100); v.push(101); }
            CommandName::Replicas => { v.push(114); v.push(101); v.push(112); v.push(108); v.push(105); v.push(99); v.push(97); v.push(115); }
            CommandName::Sync => { v.push(115); v.push(121); v.push(110); v.push(99); }
            CommandName::Meet => { v.push(109); v.push(101); v.push(101); v.push(116); }
            CommandName::ClientCtl => { v.push(99); v.push(108); v.push(105); v.push(101); v.push(110); v.push(116); }
            CommandName::Repllog => { v.push(114); v.push(101); v.push(112); v.push(108); v.push(108); v.push(111); v.push(103); }
            CommandName::Info => { v.push(105); v.push(110); v.push(102); v.push(111); }
            CommandName::Get => { v.push(103); v.push(101); v.push(116); }
            CommandName::SetCmd => { v.push(115); v.push(101); v.push(116); }
            CommandName::Desc => { v.push(100); v.push(101); v.push(115); v.push(99); }
            CommandName::Del => { v.push(100); v.push(101); v.push(108); }
            CommandName::DelBytes => { v.push(100); v.push(101); v.push(108); v.push(98); v.push(121); v.push(116); v.push(101); v.push(115); }
            CommandName::Incr => { v.push(105); v.push(110); v.push(99); v.push(114); }
            CommandName::Decr => { v.push(100); v.push(101); v.push(99); v.push(114); }
            CommandName::DelCnt => { v.push(100); v.push(101); v.push(108); v.push(99); v.push(110); v.push(116); }
            CommandName::SAdd => { v.push(115); v.push(97); v.push(100); v.push(100); }
            CommandName::SRem => { v.push(115); v.push(114); v.push(101); v.push(109); }
            CommandName::SPop => { v.push(115); v.push(112); v.push(111); v.push(112); }
            CommandName::SMembers => { v.push(115); v.push(109); v.push(101); v.push(109); v.push(98); v.push(101); v.push(114); v.push(115); }
            CommandName::DelSet => { v.push(100); v.push(101); v.push(108); v.push(115); v.push(101); v.push(116); }
            CommandName::HSet => { v.push(104); v.push(115); v.push(101); v.push(116); }
            CommandName::HGet => { v.push(104); v.push(103); v.push(101); v.push(116); }
            CommandName::HGetAll => { v.push(104); v.push(103); v.push(101); v.push(116); v.push(97); v.push(108); v.push(108); }
            CommandName::HDel => { v.push(104); v.push(100); v.push(101); v.push(108); }
            CommandName::DelDict => { v.push(100); v.push(101); v.push(108); v.push(100); v.push(105); v.push(99); v.push(116); }
        }
        proof {
            assert(v@ =~= cmd_name_bytes(self.name));
        }
        v
    }

    /// True when this command mutates the key store.
    pub fn write_flag(&self) -> (r: bool)
        ensures
            r == is_write(self.name),
    {
        match self.name {
            CommandName::SetCmd | CommandName::Del | CommandName::DelBytes | CommandName::Incr
                | CommandName::Decr | CommandName::DelCnt | CommandName::SAdd | CommandName::SRem
                | CommandName::SPop | CommandName::DelSet | CommandName::HSet | CommandName::HDel
                | CommandName::DelDict => true,
            _ => false,
        }
    }

    /// True when this write replicates its own effects.
    pub fn no_replicate_flag(&self) -> (r: bool)
        ensures
            r == is_no_replicate(self.name),
    {
        match self.name {
            CommandName::Del => true,
            _ => false,
        }
    }

    /// True when this command may only be replayed from a peer.
    pub fn repl_only_flag(&self) -> (r: bool)
        ensures
            r == is_repl_only(self.name),
    {
        match self.name {
            CommandName::DelBytes | CommandName::DelCnt | CommandName::DelSet
                | CommandName::DelDict => true,
            _ => false,
        }
    }
}

/// Looks a lower-case command name up in the table.
fn lookup_command(lower: &Vec<u8>) -> (r: Option<CommandName>)
    ensures
        r == command_of(lower@),
{
    if eq_arr(lower.as_slice(), &[110, 111, 100, 101]) {
        proof { assert(lower@ =~= cmd_name_bytes(CommandName::Node)); }
        return Some(CommandName::Node);
    }
    if eq_arr(lower.as_slice(), &[114, 101, 112, 108, 105, 99, 97, 115]) {
        proof { assert(lower@ =~= cmd_name_bytes(CommandName::Replicas)); }
        return Some(CommandName::Replicas);
    }
    if eq_arr(lower.as_slice(), &[115, 121, 110, 99]) {
        proof { assert(lower@ =~= cmd_name_bytes(CommandName::Sync)); }
        return Some(CommandName::Sync);
    }
    if eq_arr(lower.as_slice(), &[109, 101, 101, 116]) {
        proof { assert(lower@ =~= cmd_name_bytes(CommandName::Meet)); }
        return Some(CommandName::Meet);
    }
    if eq_arr(lower.as_slice(), &[99, 108, 105, 101, 110, 116]) {
        proof { assert(lower@ =~= cmd_name_bytes(CommandName::ClientCtl)); }
        return Some(CommandName::ClientCtl);
    }
    if eq_arr(lower.as_slice(), &[114, 101, 112, 108, 108, 111, 103]) {
        proof { assert(lower@ =~= cmd_name_bytes(CommandName::Repllog)); }
        return Some(CommandName::Repllog);
    }
    if eq_arr(lower.as_slice(), &[105, 110, 102, 111]) {
        proof { assert(lower@ =~= cmd_name_bytes(CommandName::Info)); }
        return Some(CommandName::Info);
    }
    if eq_arr(lower.as_slice(), &[103, 101, 116]) {
        proof { assert(lower@ =~= cmd_name_bytes(CommandName::Get)); }
        return Some(CommandName::Get);
    }
    if eq_arr(lower.as_slice(), &[115, 101, 116]) {
        proof { assert(lower@ =~= cmd_name_bytes(CommandName::SetCmd)); }
        return Some(CommandName::SetCmd);
    }
    if eq_arr(lower.as_slice(), &[100, 101, 115, 99]) {
        proof { assert(lower@ =~= cmd_name_bytes(CommandName::Desc)); }
        return Some(CommandName::Desc);
    }
    if eq_arr(lower.as_slice(), &[100, 101, 108]) {
        proof { assert(lower@ =~= cmd_name_bytes(CommandName::Del)); }
        return Some(CommandName::Del);
    }
    if eq_arr(lower.as_slice(), &[100, 101, 108, 98, 121, 116, 101, 115]) {
        proof { assert(lower@ =~= cmd_name_bytes(CommandName::DelBytes)); }
        return Some(CommandName::DelBytes);
    }
    if eq_arr(lower.as_slice(), &[105, 110, 99, 114]) {
        proof { assert(lower@ =~= cmd_name_bytes(CommandName::Incr)); }
        return Some(CommandName::Incr);
    }
    if eq_arr(lower.as_slice(), &[100, 101, 99, 114]) {
        proof { assert(lower@ =~= cmd_name_bytes(CommandName::Decr)); }
        return Some(CommandName::Decr);
    }
    if eq_arr(lower.as_slice(), &[100, 101, 108, 99, 110, 116]) {
        proof { assert(lower@ =~= cmd_name_bytes(CommandName::DelCnt)); }
        return Some(CommandName::DelCnt);
    }
    if eq_arr(lower.as_slice(), &[115, 97, 100, 100]) {
        proof { assert(lower@ =~= cmd_name_bytes(CommandName::SAdd)); }
        return Some(CommandName::SAdd);
    }
    if eq_arr(lower.as_slice(), &[115, 114, 101, 109]) {
        proof { assert(lower@ =~= cmd_name_bytes(CommandName::SRem)); }
        return Some(CommandName::SRem);
    }
    if eq_arr(lower.as_slice(), &[115, 112, 111, 112]) {
        proof { assert(lower@ =~= cmd_name_bytes(CommandName::SPop)); }
        return Some(CommandName::SPop);
    }
    if eq_arr(lower.as_slice(), &[115, 109, 101, 109, 98, 101, 114, 115]) {
        proof { assert(lower@ =~= cmd_name_bytes(CommandName::SMembers)); }
        return Some(CommandName::SMembers);
    }
    if eq_arr(lower.as_slice(), &[100, 101, 108, 115, 101, 116]) {
        proof { assert(lower@ =~= cmd_name_bytes(CommandName::DelSet)); }
        return Some(CommandName::DelSet);
    }
    if eq_arr(lower.as_slice(), &[104, 115, 101, 116]) {
        proof { assert(lower@ =~= cmd_name_bytes(CommandName::HSet)); }
        return Some(CommandName::HSet);
    }
    if eq_arr(lower.as_slice(), &[104, 103, 101, 116]) {
        proof { assert(lower@ =~= cmd_name_bytes(CommandName::HGet)); }
        return Some(CommandName::HGet);
    }
    if eq_arr(lower.as_slice(), &[104, 103, 101, 116, 97, 108, 108]) {
        proof { assert(lower@ =~= cmd_name_bytes(CommandName::HGetAll)); }
        return Some(CommandName::HGetAll);
    }
    if eq_arr(lower.as_slice(), &[104, 100, 101, 108]) {
        proof { assert(lower@ =~= cmd_name_bytes(CommandName::HDel)); }
        return Some(CommandName::HDel);
    }
    if eq_arr(lower.as_slice(), &[100, 101, 108, 100, 105, 99, 116]) {
        proof { assert(lower@ =~= cmd_name_bytes(CommandName::DelDict)); }
        return Some(CommandName::DelDict);
    }
    None
}

/// What the byte coercion of an argument yields: integers render in
/// decimal, the string kinds hand their bytes over, arrays and the empty
/// kinds have no byte form.
pub open spec fn spec_msg_bytes(m: MessageV) -> Option<Seq<u8>> {
    match m {
        MessageV::Integer(i) => Some(i64_dec(i as int)),
        MessageV::Simple(b) => Some(b),
        MessageV::Bulk(b) => Some(b),
        MessageV::Error(b) => Some(b),
        _ => None,
    }
}

/// What the integer coercion of an argument yields: integers pass through,
/// the string kinds parse as decimal.
pub open spec fn spec_msg_i64(m: MessageV) -> Option<i64> {
    match m {
        MessageV::Integer(i) => Some(i),
        MessageV::Simple(b) => parse_i64_spec(b),
        MessageV::Bulk(b) => parse_i64_spec(b),
        _ => None,
    }
}

/// A cursor over a command's arguments.
pub struct ArgIter<'a> {
    pub args: &'a Vec<Message>,
    pub pos: usize,
}

impl<'a> ArgIter<'a> {
    /// A cursor at the first argument.
    pub fn new(args: &'a Vec<Message>) -> (r: ArgIter<'a>)
        ensures
            r.rest() == msgs_view(args@),
    {
        let it = ArgIter { args, pos: 0 };
        proof {
            lemma_msgs_view(args@);
            assert(it.rest() =~= msgs_view(args@));
        }
        it
    }
}

/// The argument cursor: each coercion consumes one argument, failing with
/// `WrongArity` when none is left and `InvalidRequestMsg` when the argument
/// has no value of the asked kind.
pub trait NextArg {
    /// The arguments not yet consumed.
    spec fn rest(&self) -> Seq<MessageV>;

    /// Takes the next argument as it stands.
    fn next_arg(&mut self) -> (r: Result<Message, CstError>)
        ensures
            match r {
                Ok(m) => old(self).rest().len() > 0 && m@ == old(self).rest()[0] && final(self).rest() == old(self).rest().drop_first(),
                Err(e) => old(self).rest().len() == 0 && e is WrongArity && final(self).rest()
                    == old(self).rest(),
            },
    ;

    /// Takes the next argument as bytes.
    fn next_bytes(&mut self) -> (r: Result<Vec<u8>, CstError>)
        ensures
            old(self).rest().len() == 0 ==> (r matches Err(e) && e is WrongArity && final(self).rest() == old(self).rest()),
            old(self).rest().len() > 0 ==> final(self).rest() == old(self).rest().drop_first()
                && (match spec_msg_bytes(old(self).rest()[0]) {
                Some(b) => r matches Ok(v) && v@ == b,
                None => r matches Err(e) && e is InvalidRequestMsg,
            }),
    ;

    /// Takes the next argument as a signed integer.
    fn next_i64(&mut self) -> (r: Result<i64, CstError>)
        ensures
            old(self).rest().len() == 0 ==> (r matches Err(e) && e is WrongArity && final(self).rest() == old(self).rest()),
            old(self).rest().len() > 0 ==> final(self).rest() == old(self).rest().drop_first()
                && (match spec_msg_i64(old(self).rest()[0]) {
                Some(i) => r == Ok::<i64, CstError>(i),
                None => r matches Err(e) && e is InvalidRequestMsg,
            }),
    ;

    /// Takes the next argument as an unsigned integer.
    fn next_u64(&mut self) -> (r: Result<u64, CstError>)
        ensures
            old(self).rest().len() == 0 ==> (r matches Err(e) && e is WrongArity && final(self).rest() == old(self).rest()),
            old(self).rest().len() > 0 ==> final(self).rest() == old(self).rest().drop_first()
                && (match spec_msg_i64(old(self).rest()[0]) {
                Some(i) => if i >= 0 {
                    r == Ok::<u64, CstError>(i as u64)
                } else {
                    r matches Err(e) && e is InvalidRequestMsg
                },
                None => r matches Err(e) && e is InvalidRequestMsg,
            }),
    ;

    /// Takes the next argument as text bytes.
    fn next_string(&mut self) -> (r: Result<Vec<u8>, CstError>)
        ensures
            old(self).rest().len() == 0 ==> (r matches Err(e) && e is WrongArity && final(self).rest() == old(self).rest()),
            old(self).rest().len() > 0 ==> final(self).rest() == old(self).rest().drop_first()
                && (match spec_msg_bytes(old(self).rest()[0]) {
                Some(b) => r matches Ok(v) && v@ == b,
                None => r matches Err(e) && e is InvalidRequestMsg,
            }),
    ;
}

impl<'a> NextArg for ArgIter<'a> {
    open spec fn rest(&self) -> Seq<MessageV> {
        if self.pos <= self.args@.len() {
            msgs_view(self.args@).skip(self.pos as int)
        } else {
            Seq::empty()
        }
    }

    fn next_arg(&mut self) -> (r: Result<Message, CstError>) {
        proof {
            lemma_msgs_view(self.args@);
        }
        if self.pos < self.args.len() {
            let ghost p = self.pos as int;
            let m = self.args[self.pos].duplicate();
            self.pos = self.pos + 1;
            proof {
                let s = msgs_view(self.args@);
                assert(s.skip(p + 1) =~= s.skip(p).drop_first());
                assert(s[p] == self.args@[p].view());
                assert(m@ == s[p]);
                assert(s.skip(p)[0] == s[p]);
            }
            Ok(m)
        } else {
            Err(CstError::WrongArity)
        }
    }

    fn next_bytes(&mut self) -> (r: Result<Vec<u8>, CstError>) {
        let m = match self.next_arg() {
            Ok(m) => m,
            Err(e) => {
                return Err(e);
            }
        };
        match m {
            Message::Integer(i) => Ok(crate::resp::get_int_bytes(i)),
            Message::Error(e) => Ok(e),
            Message::Simple(s) => Ok(s),
            Message::Bulk(b) => Ok(b),
            _ => Err(
                CstError::InvalidRequestMsg(crate::resp::dup_bytes(&vec![110u8, 111u8, 116u8])),
            ),
        }
    }

    fn next_i64(&mut self) -> (r: Result<i64, CstError>) {
        let m = match self.next_arg() {
            Ok(m) => m,
            Err(e) => {
                return Err(e);
            }
        };
        match m {
            Message::Integer(i) => Ok(i),
            Message::Simple(s) => match crate::util::bytes2i64(s.as_slice()) {
                Some(i) => Ok(i),
                None => Err(
                    CstError::InvalidRequestMsg(
                        crate::resp::dup_bytes(&vec![110u8, 97u8, 110u8]),
                    ),
                ),
            },
            Message::Bulk(b) => match crate::util::bytes2i64(b.as_slice()) {
                Some(i) => Ok(i),
                None => Err(
                    CstError::InvalidRequestMsg(
                        crate::resp::dup_bytes(&vec![110u8, 97u8, 110u8]),
                    ),
                ),
            },
            _ => Err(
                CstError::InvalidRequestMsg(crate::resp::dup_bytes(&vec![110u8, 111u8, 116u8])),
            ),
        }
    }

    fn next_u64(&mut self) -> (r: Result<u64, CstError>) {
        match self.next_i64() {
            Ok(i) => {
                if i >= 0 {
                    Ok(i as u64)
                } else {
                    Err(
                        CstError::InvalidRequestMsg(
                            crate::resp::dup_bytes(&vec![110u8, 101u8, 103u8]),
                        ),
                    )
                }
            }
            Err(e) => Err(e),
        }
    }

    fn next_string(&mut self) -> (r: Result<Vec<u8>, CstError>) {
        self.next_bytes()
    }
}

/// The argument views of a request.
pub open spec fn argv(args: &Vec<Message>) -> Seq<MessageV> {
    msgs_view(args@)
}

/// Structural copy of an argument list.
pub fn dup_msgs(args: &Vec<Message>) -> (r: Vec<Message>)
    ensures
        msgs_view(r@) == msgs_view(args@),
{
    let mut out: Vec<Message> = Vec::new();
    let mut i: usize = 0;
    while i < args.len()
        invariant
            0 <= i <= args@.len(),
            out@.len() == i,
            forall|j: int| 0 <= j < i ==> out@[j]@ == (#[trigger] args@[j])@,
        decreases args@.len() - i,
    {
        let m = args[i].duplicate();
        out.push(m);
        i = i + 1;
    }
    proof {
        lemma_msgs_view(out@);
        lemma_msgs_view(args@);
        assert forall|j: int| 0 <= j < args@.len() implies msgs_view(out@)[j] == msgs_view(
            args@,
        )[j] by {
            assert(msgs_view(out@)[j] == out@[j]@);
            assert(msgs_view(args@)[j] == args@[j]@);
        }
        assert(msgs_view(out@) =~= msgs_view(args@));
    }
    out
}

/// What the dispatched handler of each command guarantees: the named
/// command's own postcondition, over the state before the handler ran and
/// the state it left.
pub open spec fn dispatch_post(
    name: CommandName,
    pre: Server,
    post: Server,
    client: Option<Client>,
    nodeid: u64,
    uuid: u64,
    a: Seq<MessageV>,
    r: Result<Message, CstError>,
) -> bool {
    match name {
        CommandName::Node => node_command_post(pre, post, client, nodeid, uuid, a, r),
        CommandName::Replicas => crate::replica::replicas_command_post(pre, post, client, nodeid, uuid, a, r),
        CommandName::Sync => crate::replica::sync_command_post(pre, post, client, nodeid, uuid, a, r),
        CommandName::Meet => crate::replica::meet_command_post(pre, post, client, nodeid, uuid, a, r),
        CommandName::ClientCtl => client_command_post(pre, post, client, nodeid, uuid, a, r),
        CommandName::Repllog => repllog_command_post(pre, post, client, nodeid, uuid, a, r),
        CommandName::Info => info_command_post(pre, post, client, nodeid, uuid, a, r),
        CommandName::Get => get_command_post(pre, post, client, nodeid, uuid, a, r),
        CommandName::SetCmd => set_command_post(pre, post, client, nodeid, uuid, a, r),
        CommandName::Desc => desc_command_post(pre, post, client, nodeid, uuid, a, r),
        CommandName::Del => del_command_post(pre, post, client, nodeid, uuid, a, r),
        CommandName::DelBytes => delbytes_command_post(pre, post, client, nodeid, uuid, a, r),
        CommandName::Incr => crate::type_counter::incr_command_post(pre, post, client, nodeid, uuid, a, r),
        CommandName::Decr => crate::type_counter::decr_command_post(pre, post, client, nodeid, uuid, a, r),
        CommandName::DelCnt => crate::type_counter::delcnt_command_post(pre, post, client, nodeid, uuid, a, r),
        CommandName::SAdd => crate::type_set::sadd_command_post(pre, post, client, nodeid, uuid, a, r),
        CommandName::SRem => crate::type_set::srem_command_post(pre, post, client, nodeid, uuid, a, r),
        CommandName::SPop => crate::type_set::spop_command_post(pre, post, client, nodeid, uuid, a, r),
        CommandName::SMembers => crate::type_set::smembers_command_post(pre, post, client, nodeid, uuid, a, r),
        CommandName::DelSet => crate::type_set::delset_command_post(pre, post, client, nodeid, uuid, a, r),
        CommandName::HSet => crate::type_hash::hset_command_post(pre, post, client, nodeid, uuid, a, r),
        CommandName::HGet => crate::type_hash::hget_command_post(pre, post, client, nodeid, uuid, a, r),
        CommandName::HGetAll => crate::type_hash::hgetall_command_post(pre, post, client, nodeid, uuid, a, r),
        CommandName::HDel => crate::type_hash::hdel_command_post(pre, post, client, nodeid, uuid, a, r),
        CommandName::DelDict => crate::type_hash::deldict_command_post(pre, post, client, nodeid, uuid, a, r),
    }
}

/// One named command with its arguments, ready to execute.
pub struct Cmd {
    pub args: Vec<Message>,
    pub command: Command,
}

impl Cmd {
    /// Looks the name up, case-insensitively, and binds the arguments.
    /// Fails with `UnknownCmd` for a name outside the table.
    pub fn new(name: &[u8], args: Vec<Message>) -> (r: Result<Cmd, CstError>)
        ensures
            match r {
                Ok(c) => command_of(lower_bytes(name@)) == Some(c.command.name) && c.args == args,
                Err(e) => command_of(lower_bytes(name@)) is None && (e matches
                CstError::UnknownCmd(n) && n@ == name@),
            },
    {
        let lower = to_ascii_lower(name);
        match lookup_command(&lower) {
            Some(c) => Ok(Cmd { args, command: Command { name: c } }),
            None => {
                let mut owned: Vec<u8> = Vec::new();
                owned.extend_from_slice(name);
                proof {
                    assert(owned@ =~= name@);
                }
                Err(CstError::UnknownCmd(owned))
            }
        }
    }

    /// Executes a user-issued command: counts it, refuses replay-only
    /// commands, draws a fresh uuid, runs the handler, and appends the
    /// verbatim record to the replication log for a successful write that
    /// does not replicate its own effects.
    pub fn exec(&self, client: Option<&Client>, server: &mut Server) -> (r: Result<
        Message,
        CstError,
    >)
        requires
            old(server).wf(),
            old(server).uuid_hwm < u64::MAX,
        ensures
            final(server).wf(),
            final(server).cmds_processed == vstd::wrapping::u64_specs::wrapping_add(
                old(server).cmds_processed,
                1,
            ),
            is_repl_only(self.command.name) ==> (r matches Err(e) && e matches
            CstError::UnknownCmd(n) && n@ == cmd_name_bytes(self.command.name)) && final(server).uuid_hwm == old(server).uuid_hwm && final(server).db@ == old(server).db@ && final(server).repl_log@ == old(server).repl_log@,
            !is_repl_only(self.command.name) ==> final(server).uuid_hwm == old(server).uuid_hwm
                + 1,
            !is_repl_only(self.command.name) ==> dispatch_post(
                self.command.name,
                (Server {
                    uuid_hwm: (old(server).uuid_hwm + 1) as u64,
                    cmds_processed: vstd::wrapping::u64_specs::wrapping_add(
                        old(server).cmds_processed,
                        1,
                    ),
                    ..*old(server)
                }),
                if is_write(self.command.name) && !is_no_replicate(self.command.name) && r is Ok {
                    (Server { repl_log: old(server).repl_log, ..*final(server) })
                } else {
                    *final(server)
                },
                opt_client(client),
                old(server).node_id,
                (old(server).uuid_hwm + 1) as u64,
                msgs_view(self.args@),
                r,
            ),
            is_write(self.command.name) && !is_no_replicate(self.command.name) && r is Ok ==>
                final(server).repl_log@ == crate::repl_log::log_push(
                old(server).repl_log@,
                old(server).repl_log.cap as int,
                crate::repl_log::RecordV {
                    uuid: (old(server).uuid_hwm + 1) as u64,
                    name: cmd_name_bytes(self.command.name),
                    args: msgs_view(self.args@),
                },
            ),
            r is Err ==> final(server).repl_log@ == old(server).repl_log@,
            !is_write(self.command.name) ==> final(server).repl_log@ == old(server).repl_log@,
    {
        server.cmds_processed = server.cmds_processed.wrapping_add(1);
        if self.command.repl_only_flag() {
            return Err(CstError::UnknownCmd(self.command.name_vec()));
        }
        let is_write_cmd = self.command.write_flag();
        let nodeid = server.node_id;
        let uuid = server.next_uuid(is_write_cmd);
        let repl = is_write_cmd && !self.command.no_replicate_flag();
        self.exec_detail(server, client, nodeid, uuid, repl)
    }

    /// Executes a command with a given uuid, as replay from a peer does.
    /// With `repl` the record is appended verbatim to the replication log on
    /// success; a record replayed from a peer passes `repl` false so it is
    /// not disseminated again.
    pub fn exec_detail(
        &self,
        server: &mut Server,
        client: Option<&Client>,
        nodeid: u64,
        uuid: u64,
        repl: bool,
    ) -> (r: Result<Message, CstError>)
        requires
            old(server).wf(),
            repl || self.command.name is Del ==> uuid <= old(server).uuid_hwm && forall|i: int|
                0 <= i < old(server).repl_log@.len() ==> (#[trigger] old(server).repl_log@[i]).uuid < uuid,
            repl ==> is_write(self.command.name) && !is_no_replicate(self.command.name),
        ensures
            final(server).wf(),
            final(server).cmds_processed == old(server).cmds_processed,
            final(server).uuid_hwm == old(server).uuid_hwm,
            repl && r is Ok ==> final(server).repl_log@ == crate::repl_log::log_push(
                old(server).repl_log@,
                old(server).repl_log.cap as int,
                crate::repl_log::RecordV {
                    uuid,
                    name: cmd_name_bytes(self.command.name),
                    args: msgs_view(self.args@),
                },
            ),
            r is Err ==> final(server).repl_log@ == old(server).repl_log@,
            !repl && !(self.command.name is Del) ==> final(server).repl_log@ == old(server).repl_log@,
            dispatch_post(
                self.command.name,
                *old(server),
                if repl && r is Ok {
                    (Server { repl_log: old(server).repl_log, ..*final(server) })
                } else {
                    *final(server)
                },
                opt_client(client),
                nodeid,
                uuid,
                msgs_view(self.args@),
                r,
            ),
    {
        let r = match self.command.name {
            CommandName::Node => node_command(server, client, nodeid, uuid, &self.args),
            CommandName::Replicas => crate::replica::replicas_command(
                server,
                client,
                nodeid,
                uuid,
                &self.args,
            ),
            CommandName::Sync => crate::replica::sync_command(
                server,
                client,
                nodeid,
                uuid,
                &self.args,
            ),
            CommandName::Meet => crate::replica::meet_command(
                server,
                client,
                nodeid,
                uuid,
                &self.args,
            ),
            CommandName::ClientCtl => client_command(server, client, nodeid, uuid, &self.args),
            CommandName::Repllog => repllog_command(server, client, nodeid, uuid, &self.args),
            CommandName::Info => info_command(server, client, nodeid, uuid, &self.args),
            CommandName::Get => get_command(server, client, nodeid, uuid, &self.args),
            CommandName::SetCmd => set_command(server, client, nodeid, uuid, &self.args),
            CommandName::Desc => desc_command(server, client, nodeid, uuid, &self.args),
            CommandName::Del => del_command(server, client, nodeid, uuid, &self.args),
            CommandName::DelBytes => delbytes_command(server, client, nodeid, uuid, &self.args),
            CommandName::Incr => crate::type_counter::incr_command(
                server,
                client,
                nodeid,
                uuid,
                &self.args,
            ),
            CommandName::Decr => crate::type_counter::decr_command(
                server,
                client,
                nodeid,
                uuid,
                &self.args,
            ),
            CommandName::DelCnt => crate::type_counter::delcnt_command(
                server,
                client,
                nodeid,
                uuid,
                &self.args,
            ),
            CommandName::SAdd => crate::type_set::sadd_command(
                server,
                client,
                nodeid,
                uuid,
                &self.args,
            ),
            CommandName::SRem => crate::type_set::srem_command(
                server,
                client,
                nodeid,
                uuid,
                &self.args,
            ),
            CommandName::SPop => crate::type_set::spop_command(
                server,
                client,
                nodeid,
                uuid,
                &self.args,
            ),
            CommandName::SMembers => crate::type_set::smembers_command(
                server,
                client,
                nodeid,
                uuid,
                &self.args,
            ),
            CommandName::DelSet => crate::type_set::delset_command(
                server,
                client,
                nodeid,
                uuid,
                &self.args,
            ),
            CommandName::HSet => crate::type_hash::hset_command(
                server,
                client,
                nodeid,
                uuid,
                &self.args,
            ),
            CommandName::HGet => crate::type_hash::hget_command(
                server,
                client,
                nodeid,
                uuid,
                &self.args,
            ),
            CommandName::HGetAll => crate::type_hash::hgetall_command(
                server,
                client,
                nodeid,
                uuid,
                &self.args,
            ),
            CommandName::HDel => crate::type_hash::hdel_command(
                server,
                client,
                nodeid,
                uuid,
                &self.args,
            ),
            CommandName::DelDict => crate::type_hash::deldict_command(
                server,
                client,
                nodeid,
                uuid,
                &self.args,
            ),
        };
        let ghost mid = *server;
        if r.is_ok() && repl {
            let name = self.command.name_vec();
            let args_copy = dup_msgs(&self.args);
            server.replicate_cmd(uuid, name, args_copy);
            proof {
                assert((Server { repl_log: old(server).repl_log, ..*server }) == mid);
            }
        }
        r
    }
}

/// `id must be greater than 0`
pub open spec fn node_id_err_bytes() -> Seq<u8> {
    seq![105u8, 100u8, 32u8, 109u8, 117u8, 115u8, 116u8, 32u8, 98u8, 101u8, 32u8, 103u8, 114u8,
        101u8, 97u8, 116u8, 101u8, 114u8, 32u8, 116u8, 104u8, 97u8, 110u8, 32u8, 48u8]
}

fn node_id_err() -> (r: Vec<u8>)
    ensures
        r@ == node_id_err_bytes(),
{
    let mut v: Vec<u8> = Vec::new();
    v.push(105); v.push(100); v.push(32); v.push(109); v.push(117); v.push(115); v.push(116);
    v.push(32); v.push(98); v.push(101); v.push(32); v.push(103); v.push(114); v.push(101);
    v.push(97); v.push(116); v.push(101); v.push(114); v.push(32); v.push(116); v.push(104);
    v.push(97); v.push(110); v.push(32); v.push(48);
    proof {
        assert(v@ =~= node_id_err_bytes());
    }
    v
}

/// `identity is fixed after joining a cluster`
pub open spec fn identity_fixed_err_bytes() -> Seq<u8> {
    seq![105u8, 100u8, 101u8, 110u8, 116u8, 105u8, 116u8, 121u8, 32u8, 105u8, 115u8, 32u8, 102u8,
        105u8, 120u8, 101u8, 100u8, 32u8, 97u8, 102u8, 116u8, 101u8, 114u8, 32u8, 106u8, 111u8,
        105u8, 110u8, 105u8, 110u8, 103u8, 32u8, 97u8, 32u8, 99u8, 108u8, 117u8, 115u8, 116u8,
        101u8, 114u8]
}

fn identity_fixed_err() -> (r: Vec<u8>)
    ensures
        r@ == identity_fixed_err_bytes(),
{
    let mut v: Vec<u8> = Vec::new();
    v.push(105); v.push(100); v.push(101); v.push(110); v.push(116); v.push(105); v.push(116);
    v.push(121); v.push(32); v.push(105); v.push(115); v.push(32); v.push(102); v.push(105);
    v.push(120); v.push(101); v.push(100); v.push(32); v.push(97); v.push(102); v.push(116);
    v.push(101); v.push(114); v.push(32); v.push(106); v.push(111); v.push(105); v.push(110);
    v.push(105); v.push(110); v.push(103); v.push(32); v.push(97); v.push(32); v.push(99);
    v.push(108); v.push(117); v.push(115); v.push(116); v.push(101); v.push(114);
    proof {
        assert(v@ =~= identity_fixed_err_bytes());
    }
    v
}

/// `unsupported command`
pub open spec fn unsupported_err_bytes() -> Seq<u8> {
    seq![117u8, 110u8, 115u8, 117u8, 112u8, 112u8, 111u8, 114u8, 116u8, 101u8, 100u8, 32u8, 99u8,
        111u8, 109u8, 109u8, 97u8, 110u8, 100u8]
}

fn unsupported_err() -> (r: Vec<u8>)
    ensures
        r@ == unsupported_err_bytes(),
{
    let mut v: Vec<u8> = Vec::new();
    v.push(117); v.push(110); v.push(115); v.push(117); v.push(112); v.push(112); v.push(111);
    v.push(114); v.push(116); v.push(101); v.push(100); v.push(32); v.push(99); v.push(111);
    v.push(109); v.push(109); v.push(97); v.push(110); v.push(100);
    proof {
        assert(v@ =~= unsupported_err_bytes());
    }
    v
}

/// `invalid socket address`
pub open spec fn bad_addr_err_bytes() -> Seq<u8> {
    seq![105u8, 110u8, 118u8, 97u8, 108u8, 105u8, 100u8, 32u8, 115u8, 111u8, 99u8, 107u8, 101u8,
        116u8, 32u8, 97u8, 100u8, 100u8, 114u8, 101u8, 115u8, 115u8]
}

pub fn bad_addr_err() -> (r: Vec<u8>)
    ensures
        r@ == bad_addr_err_bytes(),
{
    let mut v: Vec<u8> = Vec::new();
    v.push(105); v.push(110); v.push(118); v.push(97); v.push(108); v.push(105); v.push(100);
    v.push(32); v.push(115); v.push(111); v.push(99); v.push(107); v.push(101); v.push(116);
    v.push(32); v.push(97); v.push(100); v.push(100); v.push(114); v.push(101); v.push(115);
    v.push(115);
    proof {
        assert(v@ =~= bad_addr_err_bytes());
    }
    v
}

/// `Should set my node_id and node_alias first`
pub open spec fn need_identity_err_bytes() -> Seq<u8> {
    seq![83u8, 104u8, 111u8, 117u8, 108u8, 100u8, 32u8, 115u8, 101u8, 116u8, 32u8, 109u8, 121u8,
        32u8, 110u8, 111u8, 100u8, 101u8, 95u8, 105u8, 100u8, 32u8, 97u8, 110u8, 100u8, 32u8,
        110u8, 111u8, 100u8, 101u8, 95u8, 97u8, 108u8, 105u8, 97u8, 115u8, 32u8, 102u8, 105u8,
        114u8, 115u8, 116u8]
}

pub fn need_identity_err() -> (r: Vec<u8>)
    ensures
        r@ == need_identity_err_bytes(),
{
    let mut v: Vec<u8> = Vec::new();
    v.push(83); v.push(104); v.push(111); v.push(117); v.push(108); v.push(100); v.push(32);
    v.push(115); v.push(101); v.push(116); v.push(32); v.push(109); v.push(121); v.push(32);
    v.push(110); v.push(111); v.push(100); v.push(101); v.push(95); v.push(105); v.push(100);
    v.push(32); v.push(97); v.push(110); v.push(100); v.push(32); v.push(110); v.push(111);
    v.push(100); v.push(101); v.push(95); v.push(97); v.push(108); v.push(105); v.push(97);
    v.push(115); v.push(32); v.push(102); v.push(105); v.push(114); v.push(115); v.push(116);
    proof {
        assert(v@ =~= need_identity_err_bytes());
    }
    v
}

/// `REPLLOG`
pub open spec fn repllog_parent_bytes() -> Seq<u8> {
    seq![82u8, 69u8, 80u8, 76u8, 76u8, 79u8, 71u8]
}

fn repllog_parent() -> (r: Vec<u8>)
    ensures
        r@ == repllog_parent_bytes(),
{
    let mut v: Vec<u8> = Vec::new();
    v.push(82); v.push(69); v.push(80); v.push(76); v.push(76); v.push(79); v.push(71);
    proof {
        assert(v@ =~= repllog_parent_bytes());
    }
    v
}

/// `CLIENT`
pub open spec fn client_parent_bytes() -> Seq<u8> {
    seq![67u8, 76u8, 73u8, 69u8, 78u8, 84u8]
}

fn client_parent() -> (r: Vec<u8>)
    ensures
        r@ == client_parent_bytes(),
{
    let mut v: Vec<u8> = Vec::new();
    v.push(67); v.push(76); v.push(73); v.push(69); v.push(78); v.push(84);
    proof {
        assert(v@ =~= client_parent_bytes());
    }
    v
}

/// What `node_command` guarantees, over the states before and after the call.
pub open spec fn node_command_post(
    pre: Server,
    post: Server,
    client: Option<Client>,
    nodeid: u64,
    uuid: u64,
    a: Seq<MessageV>,
    r: Result<Message, CstError>,
) -> bool {
        &&& (same_except_identity(pre, post))
        &&& (
        ({
            if a.len() < 1 {
                (r matches Err(e) && e is WrongArity) && post == pre
            } else if spec_msg_bytes(a[0]) is None {
                (r matches Err(e) && e is InvalidRequestMsg) && post == pre
            } else {
                let sub = spec_msg_bytes(a[0])->Some_0;
                if sub == seq![105u8, 100u8] {
                    if a.len() < 2 || spec_msg_bytes(a[1]) is None {
                        (r matches Ok(m) && m@ == MessageV::Integer(pre.node_id as i64))
                            && post == pre
                    } else if crate::replica::spec_joined(pre.replicas.entries_seq()) {
                        (r matches Ok(m) && m@ == MessageV::Error(identity_fixed_err_bytes()))
                            && post == pre
                    } else {
                        match parse_i64_spec(spec_msg_bytes(a[1])->Some_0) {
                            Some(i) => if i > 0 {
                                (r matches Ok(m) && m@ == MessageV::Simple(seq![79u8, 75u8]))
                                    && post.node_id == i as u64 && post.node_alias == pre.node_alias
                            } else {
                                (r matches Ok(m) && m@ == MessageV::Error(node_id_err_bytes()))
                                    && post == pre
                            },
                            None => (r matches Ok(m) && m@ == MessageV::Error(
                                node_id_err_bytes(),
                            )) && post == pre,
                        }
                    }
                } else if sub == seq![97u8, 108u8, 105u8, 97u8, 115u8] {
                    if a.len() < 2 || spec_msg_bytes(a[1]) is None {
                        (r matches Ok(m) && m@ == MessageV::Bulk(pre.node_alias@))
                            && post == pre
                    } else if crate::replica::spec_joined(pre.replicas.entries_seq()) {
                        (r matches Ok(m) && m@ == MessageV::Error(identity_fixed_err_bytes()))
                            && post == pre
                    } else {
                        (r matches Ok(m) && m@ == MessageV::Simple(seq![79u8, 75u8])) && post.node_alias@ == spec_msg_bytes(a[1])->Some_0 && post.node_id
                            == pre.node_id
                    }
                } else {
                    (r matches Ok(m) && m@ == MessageV::Error(unsupported_err_bytes()))
                        && post == pre
                }
            }
        })
        )
}

/// What `get_command` guarantees, over the states before and after the call.
pub open spec fn get_command_post(
    pre: Server,
    post: Server,
    client: Option<Client>,
    nodeid: u64,
    uuid: u64,
    a: Seq<MessageV>,
    r: Result<Message, CstError>,
) -> bool {
        &&& (post == pre)
        &&& (
        ({
            if a.len() < 1 {
                r matches Err(e) && e is WrongArity
            } else if spec_msg_bytes(a[0]) is None {
                r matches Err(e) && e is InvalidRequestMsg
            } else {
                let k = spec_msg_bytes(a[0])->Some_0;
                let db = pre.db@;
                if !db.contains_key(k) {
                    r matches Ok(m) && m@ == MessageV::Nil
                } else if db[k].ct < db[k].dt {
                    r matches Ok(m) && m@ == MessageV::Nil
                } else {
                    match db[k].enc {
                        EncV::Counter(cm) => r matches Ok(m) && m@ == MessageV::Integer(
                            vstd::wrapping::i64_specs::signed_crop(
                                crate::counter::sum_counter(cm),
                            ),
                        ),
                        EncV::Bytes(b) => r matches Ok(m) && m@ == MessageV::Bulk(b),
                        _ => r matches Err(e) && e is InvalidType,
                    }
                }
            }
        })
        )
}

/// What `set_command` guarantees, over the states before and after the call.
pub open spec fn set_command_post(
    pre: Server,
    post: Server,
    client: Option<Client>,
    nodeid: u64,
    uuid: u64,
    a: Seq<MessageV>,
    r: Result<Message, CstError>,
) -> bool {
        &&& (same_except_db(pre, post))
        &&& (
        ({
            let db = pre.db@;
            if a.len() < 1 {
                (r matches Err(e) && e is WrongArity) && post.db@ == db
            } else if spec_msg_bytes(a[0]) is None {
                (r matches Err(e) && e is InvalidRequestMsg) && post.db@ == db
            } else if a.len() < 2 {
                (r matches Err(e) && e is WrongArity) && post.db@ == db
            } else if spec_msg_bytes(a[1]) is None {
                (r matches Err(e) && e is InvalidRequestMsg) && post.db@ == db
            } else {
                let k = spec_msg_bytes(a[0])->Some_0;
                let v = spec_msg_bytes(a[1])->Some_0;
                if db.contains_key(k) && db[k].ut > uuid {
                    (r matches Ok(m) && m@ == MessageV::Integer(0)) && post.db@ == db
                } else if db.contains_key(k) && !(db[k].enc is Bytes) {
                    (r matches Err(e) && e is InvalidType) && post.db@ == db
                } else {
                    (r matches Ok(m) && m@ == MessageV::Simple(seq![79u8, 75u8])) && post.db@ == db.insert(k, spec_set_result(db, k, v, uuid))
                }
            }
        })
        )
}

/// What `desc_command` guarantees, over the states before and after the call.
pub open spec fn desc_command_post(
    pre: Server,
    post: Server,
    client: Option<Client>,
    nodeid: u64,
    uuid: u64,
    a: Seq<MessageV>,
    r: Result<Message, CstError>,
) -> bool {
        &&& (post == pre)
        &&& (
        ({
            if a.len() < 1 {
                r matches Err(e) && e is WrongArity
            } else if spec_msg_bytes(a[0]) is None {
                r matches Err(e) && e is InvalidRequestMsg
            } else {
                let k = spec_msg_bytes(a[0])->Some_0;
                if !pre.db@.contains_key(k) {
                    r matches Ok(m) && m@ == MessageV::Nil
                } else {
                    r matches Ok(m) && exists|i: int|
                        0 <= i < pre.db.entries@.len() && (#[trigger] pre.db.entries@[i]).0@ == k && m@ == crate::object::spec_describe(
                            &pre.db.entries@[i].1,
                        )
                }
            }
        })
        )
}

/// What `client_command` guarantees, over the states before and after the call.
pub open spec fn client_command_post(
    pre: Server,
    post: Server,
    client: Option<Client>,
    nodeid: u64,
    uuid: u64,
    a: Seq<MessageV>,
    r: Result<Message, CstError>,
) -> bool {
        &&& (post == pre)
        &&& (
        ({
            if a.len() < 1 {
                r matches Err(e) && e is WrongArity
            } else if spec_msg_bytes(a[0]) is None {
                r matches Err(e) && e is InvalidRequestMsg
            } else {
                let sub = lower_bytes(spec_msg_bytes(a[0])->Some_0);
                if sub == seq![116u8, 104u8, 114u8, 101u8, 97u8, 100u8, 105u8, 100u8] {
                    match client {
                        Some(c) => r matches Ok(m) && m@ == MessageV::Bulk(
                            crate::util::u64_dec(c.thread_id as int),
                        ),
                        None => r matches Err(e) && e is InvalidRequestMsg,
                    }
                } else {
                    r matches Err(e) && e matches CstError::UnknownSubCmd(s, p) && s@ == sub
                        && p@ == client_parent_bytes()
                }
            }
        })
        )
}

/// What `repllog_command` guarantees, over the states before and after the call.
pub open spec fn repllog_command_post(
    pre: Server,
    post: Server,
    client: Option<Client>,
    nodeid: u64,
    uuid: u64,
    a: Seq<MessageV>,
    r: Result<Message, CstError>,
) -> bool {
        &&& (post == pre)
        &&& (
        ({
            let log = pre.repl_log@;
            if a.len() < 1 {
                r matches Err(e) && e is WrongArity
            } else if spec_msg_bytes(a[0]) is None {
                r matches Err(e) && e is InvalidRequestMsg
            } else {
                let sub = lower_bytes(spec_msg_bytes(a[0])->Some_0);
                if sub == seq![97u8, 116u8] {
                    if a.len() < 2 {
                        r matches Err(e) && e is WrongArity
                    } else {
                        match spec_msg_i64(a[1]) {
                            Some(i) => if i >= 0 {
                                if exists|j: int|
                                    0 <= j < log.len() && (#[trigger] log[j]).uuid == i as u64 {
                                    r matches Ok(m) && exists|j: int|
                                        0 <= j < log.len() && (#[trigger] log[j]).uuid
                                            == i as u64 && m@ == spec_record_msg(log[j])
                                } else {
                                    r matches Ok(m) && m@ == MessageV::Nil
                                }
                            } else {
                                r matches Err(e) && e is InvalidRequestMsg
                            },
                            None => r matches Err(e) && e is InvalidRequestMsg,
                        }
                    }
                } else if sub == seq![117u8, 117u8, 105u8, 100u8, 115u8] {
                    r matches Ok(m) && m@ matches MessageV::Array(us) && us.len() == log.len()
                        && forall|j: int|
                        0 <= j < log.len() ==> us[j] == MessageV::Integer(
                            (#[trigger] log[j]).uuid as i64,
                        )
                } else {
                    r matches Err(e) && e matches CstError::UnknownSubCmd(s, p) && s@ == sub
                        && p@ == repllog_parent_bytes()
                }
            }
        })
        )
}

/// What `del_command` guarantees, over the states before and after the call.
pub open spec fn del_command_post(
    pre: Server,
    post: Server,
    client: Option<Client>,
    nodeid: u64,
    uuid: u64,
    a: Seq<MessageV>,
    r: Result<Message, CstError>,
) -> bool {
        &&& (same_except_db_log(pre, post))
        &&& (post.repl_log.cap == pre.repl_log.cap)
        &&& (
        ({
            let db = pre.db@;
            let log = pre.repl_log@;
            let cap = pre.repl_log.cap as int;
            if a.len() < 1 {
                (r matches Err(e) && e is WrongArity) && post.db@ == db && post.repl_log@ == log
            } else if spec_msg_bytes(a[0]) is None {
                (r matches Err(e) && e is InvalidRequestMsg) && post.db@ == db
                    && post.repl_log@ == log
            } else {
                let k = spec_msg_bytes(a[0])->Some_0;
                if !db.contains_key(k) {
                    (r matches Ok(m) && m@ == MessageV::Integer(0)) && post.db@ == db
                        && post.repl_log@ == log
                } else {
                    exists|i: int|
                        0 <= i < pre.db.entries@.len() && (#[trigger] pre.db.entries@[i]).0@ == k && {
                            let o = db[k];
                            match pre.db.entries@[i].1.enc {
                                Encoding::Counter(c) => if o.ut <= uuid && o.ct >= o.dt {
                                    (r matches Ok(m) && m@ == MessageV::Integer(1)) && post.db@ == db.insert(
                                        k,
                                        ObjectV {
                                            ct: o.ct,
                                            ut: uuid,
                                            dt: uuid,
                                            enc: EncV::Counter(
                                                crate::type_counter::spec_counter_change_all(
                                                    o.enc->Counter_0,
                                                    neg_pairs(c.entries_seq()),
                                                    uuid,
                                                ),
                                            ),
                                        },
                                    ) && post.repl_log@ == crate::repl_log::log_push(
                                        log,
                                        cap,
                                        crate::repl_log::RecordV {
                                            uuid,
                                            name: cmd_name_bytes(CommandName::DelCnt),
                                            args: seq![MessageV::Bulk(k)] + neg_pair_msgs(
                                                c.entries_seq(),
                                            ),
                                        },
                                    ) && ((forall|j: int|
                                        0 <= j < c.entries_seq().len() ==> (
                                        #[trigger] c.entries_seq()[j]).1.1 < uuid) ==> (
                                    forall|node: u64|
                                        #[trigger] crate::type_counter::spec_counter_change_all(
                                            o.enc->Counter_0,
                                            neg_pairs(c.entries_seq()),
                                            uuid,
                                        ).contains_key(node)
                                            ==> crate::type_counter::spec_counter_change_all(
                                            o.enc->Counter_0,
                                            neg_pairs(c.entries_seq()),
                                            uuid,
                                        )[node] == (0i64, uuid)))
                                } else {
                                    (r matches Ok(m) && m@ == MessageV::Integer(0)) && post.db@ == db && post.repl_log@ == log
                                },
                                Encoding::Bytes(_) => if o.ut <= uuid && o.ct >= o.dt {
                                    (r matches Ok(m) && m@ == MessageV::Integer(1)) && post.db@ == db.insert(
                                        k,
                                        ObjectV { ct: o.ct, ut: uuid, dt: uuid, enc: o.enc },
                                    ) && post.repl_log@ == crate::repl_log::log_push(
                                        log,
                                        cap,
                                        crate::repl_log::RecordV {
                                            uuid,
                                            name: cmd_name_bytes(CommandName::DelBytes),
                                            args: seq![MessageV::Bulk(k)],
                                        },
                                    )
                                } else {
                                    (r matches Ok(m) && m@ == MessageV::Integer(0)) && post.db@ == db && post.repl_log@ == log
                                },
                                Encoding::LWWSet(_) => {
                                    let deleted: i64 = if o.ct >= o.dt && uuid > o.ct {
                                        1
                                    } else {
                                        0
                                    };
                                    (r matches Ok(m) && m@ == MessageV::Integer(
                                        deleted as i64,
                                    )) && post.db@ == db.insert(
                                        k,
                                        ObjectV {
                                            ct: o.ct,
                                            ut: crate::util::max64(o.ut, uuid),
                                            dt: crate::util::max64(o.dt, uuid),
                                            enc: EncV::LWWSet(
                                                o.enc->LWWSet_0.map_values(
                                                    |ts: (u64, u64)| (
                                                        ts.0,
                                                        crate::util::max64(ts.1, uuid),
                                                    ),
                                                ),
                                            ),
                                        },
                                    ) && post.repl_log@ == crate::repl_log::log_push(
                                        log,
                                        cap,
                                        crate::repl_log::RecordV {
                                            uuid,
                                            name: cmd_name_bytes(CommandName::DelSet),
                                            args: seq![MessageV::Bulk(k)],
                                        },
                                    )
                                },
                                Encoding::LWWDict(_) => {
                                    let deleted: i64 = if o.ct >= o.dt && uuid > o.ct {
                                        1
                                    } else {
                                        0
                                    };
                                    (r matches Ok(m) && m@ == MessageV::Integer(
                                        deleted as i64,
                                    )) && post.db@ == db.insert(
                                        k,
                                        ObjectV {
                                            ct: o.ct,
                                            ut: crate::util::max64(o.ut, uuid),
                                            dt: crate::util::max64(o.dt, uuid),
                                            enc: EncV::LWWDict(
                                                o.enc->LWWDict_0.map_values(
                                                    |ts: (Seq<u8>, u64, u64)| (
                                                        ts.0,
                                                        ts.1,
                                                        crate::util::max64(ts.2, uuid),
                                                    ),
                                                ),
                                            ),
                                        },
                                    ) && post.repl_log@ == crate::repl_log::log_push(
                                        log,
                                        cap,
                                        crate::repl_log::RecordV {
                                            uuid,
                                            name: cmd_name_bytes(CommandName::DelDict),
                                            args: seq![MessageV::Bulk(k)],
                                        },
                                    )
                                },
                            }
                        }
                }
            }
        })
        )
}

/// What `delbytes_command` guarantees, over the states before and after the call.
pub open spec fn delbytes_command_post(
    pre: Server,
    post: Server,
    client: Option<Client>,
    nodeid: u64,
    uuid: u64,
    a: Seq<MessageV>,
    r: Result<Message, CstError>,
) -> bool {
        &&& (same_except_db(pre, post))
        &&& (
        ({
            let db = pre.db@;
            if a.len() < 1 {
                (r matches Err(e) && e is WrongArity) && post.db@ == db
            } else if spec_msg_bytes(a[0]) is None {
                (r matches Err(e) && e is InvalidRequestMsg) && post.db@ == db
            } else {
                let k = spec_msg_bytes(a[0])->Some_0;
                if db.contains_key(k) && !(db[k].enc is Bytes) {
                    (r matches Err(e) && e is InvalidType) && post.db@ == db
                } else {
                    let o = if db.contains_key(k) {
                        db[k]
                    } else {
                        ObjectV {
                            ct: uuid,
                            ut: 0u64,
                            dt: 0u64,
                            enc: EncV::Bytes(Seq::empty()),
                        }
                    };
                    post.db@ == db.insert(
                        k,
                        ObjectV {
                            ct: o.ct,
                            ut: crate::util::max64(o.ut, uuid),
                            dt: crate::util::max64(o.dt, uuid),
                            enc: o.enc,
                        },
                    ) && (r matches Ok(m) && m@ == MessageV::NoReply)
                }
            }
        })
        )
}

/// Reads or sets the node identity.  `id` replies the node id or, given a
/// positive integer, adopts it; `alias` replies the alias or adopts the
/// given one.  Anything else is reported as unsupported.
pub fn node_command(
    server: &mut Server,
    _client: Option<&Client>,
    _nodeid: u64,
    _uuid: u64,
    args: &Vec<Message>,
) -> (r: Result<Message, CstError>)
    requires
        old(server).wf(),
    ensures
        final(server).wf(),
        node_command_post(*old(server), *final(server), opt_client(_client), _nodeid, _uuid, argv(args), r),
{
    let mut it = ArgIter::new(args);
    let sub = match it.next_bytes() {
        Ok(b) => b,
        Err(e) => {
            return Err(e);
        }
    };
    let value = it.next_bytes();
    if eq_arr(sub.as_slice(), &[105, 100]) {
        match value {
            Err(_) => Ok(Message::Integer(server.node_id as i64)),
            Ok(v) => {
                // the identity may change only before joining a cluster
                if server.replicas.has_member() {
                    return Ok(Message::Error(identity_fixed_err()));
                }
                match crate::util::bytes2i64(v.as_slice()) {
                    Some(i) => {
                        if i > 0 {
                            server.node_id = i as u64;
                            Ok(crate::resp::new_msg_ok())
                        } else {
                            Ok(Message::Error(node_id_err()))
                        }
                    }
                    None => Ok(Message::Error(node_id_err())),
                }
            }
        }
    } else if eq_arr(sub.as_slice(), &[97, 108, 105, 97, 115]) {
        match value {
            Err(_) => Ok(Message::Bulk(crate::resp::dup_bytes(&server.node_alias))),
            Ok(v) => {
                if server.replicas.has_member() {
                    return Ok(Message::Error(identity_fixed_err()));
                }
                server.node_alias = v;
                Ok(crate::resp::new_msg_ok())
            }
        }
    } else {
        Ok(Message::Error(unsupported_err()))
    }
}

/// Reads one key: the counter sum or the byte value of a live object, `Nil`
/// for a missing or tombstoned key, and a type error for a set or
/// dictionary.
pub fn get_command(
    server: &mut Server,
    _client: Option<&Client>,
    _nodeid: u64,
    _uuid: u64,
    args: &Vec<Message>,
) -> (r: Result<Message, CstError>)
    requires
        old(server).wf(),
    ensures
        final(server).wf(),
        get_command_post(*old(server), *final(server), opt_client(_client), _nodeid, _uuid, argv(args), r),
{
    let mut it = ArgIter::new(args);
    let key = match it.next_bytes() {
        Ok(k) => k,
        Err(e) => {
            return Err(e);
        }
    };
    match server.db.query(key.as_slice()) {
        Some(o) => {
            if o.create_time < o.delete_time {
                return Ok(Message::Nil);
            }
            match &o.enc {
                Encoding::Counter(c) => Ok(Message::Integer(c.get())),
                Encoding::Bytes(b) => Ok(Message::Bulk(crate::resp::dup_bytes(b))),
                _ => Err(CstError::InvalidType),
            }
        }
        None => Ok(Message::Nil),
    }
}

/// The object a `set` leaves under the key: the byte value adopted at
/// `uuid`, the update time raised, and a stale tombstone resurrected.
pub open spec fn spec_set_result(
    db: Map<Seq<u8>, ObjectV>,
    k: Seq<u8>,
    v: Seq<u8>,
    uuid: u64,
) -> ObjectV {
    let o = if db.contains_key(k) {
        db[k]
    } else {
        ObjectV { ct: uuid, ut: 0u64, dt: 0u64, enc: EncV::Bytes(v) }
    };
    ObjectV {
        ct: if o.ct < o.dt && uuid >= o.dt {
            uuid
        } else {
            o.ct
        },
        ut: crate::util::max64(o.ut, uuid),
        dt: o.dt,
        enc: EncV::Bytes(v),
    }
}

/// Writes a byte value under a key at `uuid`.  A later write wins: when the
/// object's update time is already past `uuid` nothing changes; a key of
/// another variant is a type error.
pub fn set_command(
    server: &mut Server,
    _client: Option<&Client>,
    _nodeid: u64,
    uuid: u64,
    args: &Vec<Message>,
) -> (r: Result<Message, CstError>)
    requires
        old(server).wf(),
    ensures
        final(server).wf(),
        set_command_post(*old(server), *final(server), opt_client(_client), _nodeid, uuid, argv(args), r),
{
    let mut it = ArgIter::new(args);
    let key = match it.next_bytes() {
        Ok(k) => k,
        Err(e) => {
            return Err(e);
        }
    };
    let value = match it.next_bytes() {
        Ok(v) => v,
        Err(e) => {
            return Err(e);
        }
    };
    let ghost db0 = server.db@;
    match server.db.take(key.as_slice()) {
        None => {
            let mut o = crate::object::Object::new(Encoding::Bytes(value), uuid, 0);
            let ghost vv = value@;
            o.updated_at(uuid);
            server.db.add(key, o);
            proof {
                assert(server.db@ =~= db0.insert(key@, spec_set_result(db0, key@, vv, uuid)));
            }
            Ok(crate::resp::new_msg_ok())
        }
        Some(mut o) => {
            if o.update_time > uuid {
                server.db.add(key, o);
                proof {
                    assert(server.db@ =~= db0);
                }
                return Ok(Message::Integer(0));
            }
            let is_bytes = match &o.enc {
                Encoding::Bytes(_) => true,
                _ => false,
            };
            if !is_bytes {
                server.db.add(key, o);
                proof {
                    assert(server.db@ =~= db0);
                }
                return Err(CstError::InvalidType);
            }
            o.enc = Encoding::Bytes(value);
            let ghost vv = o.enc->Bytes_0@;
            o.updated_at(uuid);
            server.db.add(key, o);
            proof {
                assert(server.db@ =~= db0.insert(key@, spec_set_result(db0, key@, vv, uuid)));
            }
            Ok(crate::resp::new_msg_ok())
        }
    }
}

/// Reports a key's envelope times, variant and value, `Nil` when absent.
pub fn desc_command(
    server: &mut Server,
    _client: Option<&Client>,
    _nodeid: u64,
    _uuid: u64,
    args: &Vec<Message>,
) -> (r: Result<Message, CstError>)
    requires
        old(server).wf(),
    ensures
        final(server).wf(),
        desc_command_post(*old(server), *final(server), opt_client(_client), _nodeid, _uuid, argv(args), r),
{
    let mut it = ArgIter::new(args);
    let key = match it.next_bytes() {
        Ok(k) => k,
        Err(e) => {
            return Err(e);
        }
    };
    match server.db.query(key.as_slice()) {
        None => Ok(Message::Nil),
        Some(o) => Ok(o.describe()),
    }
}

/// What `info_command` guarantees, over the states before and after the
/// call.
pub open spec fn info_command_post(
    pre: Server,
    post: Server,
    client: Option<Client>,
    nodeid: u64,
    uuid: u64,
    a: Seq<MessageV>,
    r: Result<Message, CstError>,
) -> bool {
    &&& (post == pre)
    &&& (r matches Ok(m) && m@ == MessageV::Array(
        seq![
            MessageV::Integer(pre.node_id as i64),
            MessageV::Bulk(pre.node_alias@),
            MessageV::Integer(pre.cmds_processed as i64),
            MessageV::Integer(pre.uuid_hwm as i64),
        ],
    ))
}

/// Reports the node's identity and counters.
pub fn info_command(
    server: &mut Server,
    _client: Option<&Client>,
    _nodeid: u64,
    _uuid: u64,
    _args: &Vec<Message>,
) -> (r: Result<Message, CstError>)
    requires
        old(server).wf(),
    ensures
        final(server).wf(),
        info_command_post(*old(server), *final(server), opt_client(_client), _nodeid, _uuid, argv(_args), r),
{
    let mut parts: Vec<Message> = Vec::new();
    parts.push(Message::Integer(#[verifier::truncate] (server.node_id as i64)));
    parts.push(Message::Bulk(crate::resp::dup_bytes(&server.node_alias)));
    parts.push(Message::Integer(#[verifier::truncate] (server.cmds_processed as i64)));
    parts.push(Message::Integer(#[verifier::truncate] (server.uuid_hwm as i64)));
    proof {
        lemma_msgs_view(parts@);
        assert(msgs_view(parts@)[0] == parts@[0]@);
        assert(msgs_view(parts@)[1] == parts@[1]@);
        assert(msgs_view(parts@)[2] == parts@[2]@);
        assert(msgs_view(parts@)[3] == parts@[3]@);
        assert(msgs_view(parts@) =~= seq![
            MessageV::Integer(server.node_id as i64),
            MessageV::Bulk(server.node_alias@),
            MessageV::Integer(server.cmds_processed as i64),
            MessageV::Integer(server.uuid_hwm as i64),
        ]);
    }
    Ok(Message::Array(parts))
}

/// Reports connection facts to the asking client: `threadid` replies the
/// serving thread in decimal.
pub fn client_command(
    server: &mut Server,
    client: Option<&Client>,
    _nodeid: u64,
    _uuid: u64,
    args: &Vec<Message>,
) -> (r: Result<Message, CstError>)
    ensures
        client_command_post(*old(server), *final(server), opt_client(client), _nodeid, _uuid, argv(args), r),
{
    let mut it = ArgIter::new(args);
    let sub = match it.next_string() {
        Ok(b) => b,
        Err(e) => {
            return Err(e);
        }
    };
    let lower = to_ascii_lower(sub.as_slice());
    if eq_arr(lower.as_slice(), &[116, 104, 114, 101, 97, 100, 105, 100]) {
        match client {
            Some(c) => Ok(Message::Bulk(crate::util::u64_to_dec(c.thread_id))),
            None => Err(CstError::InvalidRequestMsg(node_id_err())),
        }
    } else {
        Err(CstError::UnknownSubCmd(lower, client_parent()))
    }
}

/// Each counter entry negated at the deletion: the pair that drives the
/// node's value to zero on every peer that saw the same history.
pub open spec fn neg_pairs(es: Seq<(u64, (i64, u64))>) -> Seq<(u64, i64)> {
    es.map_values(
        |e: (u64, (i64, u64))| (e.0, vstd::wrapping::i64_specs::wrapping_sub(0i64, e.1.0)),
    )
}

/// The trailing arguments of a counter-deletion record: per entry, the node
/// id and the negating delta.
pub open spec fn neg_pair_msgs(es: Seq<(u64, (i64, u64))>) -> Seq<MessageV>
    decreases es.len(),
{
    if es.len() == 0 {
        Seq::empty()
    } else {
        neg_pair_msgs(es.drop_last()) + seq![
            MessageV::Integer(es.last().0 as i64),
            MessageV::Integer(vstd::wrapping::i64_specs::wrapping_sub(0i64, es.last().1.0)),
        ]
    }
}

/// Deletes a key at `uuid`.  A counter or byte value is refused when a
/// later write was already observed and tombstoned otherwise, with its
/// effects replicated as an explicit record (`delcnt` with negating deltas,
/// or `delbytes`); a set or dictionary has every member tombstoned and
/// replicates as `delset` or `deldict`.  Replies how many keys died.
pub fn del_command(
    server: &mut Server,
    _client: Option<&Client>,
    _nodeid: u64,
    uuid: u64,
    args: &Vec<Message>,
) -> (r: Result<Message, CstError>)
    requires
        old(server).wf(),
        uuid <= old(server).uuid_hwm,
        forall|i: int|
            0 <= i < old(server).repl_log@.len() ==> (#[trigger] old(server).repl_log@[i]).uuid
                < uuid,
    ensures
        final(server).wf(),
        del_command_post(*old(server), *final(server), opt_client(_client), _nodeid, uuid, argv(args), r),
{
    let mut it = ArgIter::new(args);
    let key = match it.next_bytes() {
        Ok(k) => k,
        Err(e) => {
            return Err(e);
        }
    };
    let ghost db0 = server.db@;
    let ghost log0 = server.repl_log@;
    let mut o = match server.db.take(key.as_slice()) {
        None => {
            return Ok(Message::Integer(0));
        }
        Some(o) => o,
    };
    let ghost witness_i = choose|i: int|
        0 <= i < old(server).db.entries@.len() && (#[trigger] old(server).db.entries@[i]).0@
            == key@ && o == old(server).db.entries@[i].1;
    match &mut o.enc {
        Encoding::Counter(c) => {
            if o.update_time <= uuid && o.create_time >= o.delete_time {
                let ghost es = c.entries_seq();
                let mut rec_args: Vec<Message> = Vec::new();
                rec_args.push(Message::Bulk(crate::resp::dup_bytes(&key)));
                let n = c.entry_count();
                let mut snapshot: Vec<(u64, i64)> = Vec::new();
                let mut i: usize = 0;
                while i < n
                    invariant
                        c.wf(),
                        es == c.entries_seq(),
                        n == es.len(),
                        0 <= i <= n,
                        snapshot@.len() == i,
                        forall|j: int|
                            0 <= j < i ==> snapshot@[j] == ((#[trigger] es[j]).0, es[j].1.0),
                    decreases n - i,
                {
                    let (node, (value, _)) = c.entry_at(i);
                    snapshot.push((node, value));
                    i = i + 1;
                }
                let mut j: usize = 0;
                proof {
                    assert(es.take(0) =~= Seq::<(u64, (i64, u64))>::empty());
                    assert(rec_args@.len() == 1 && rec_args@[0]@ == MessageV::Bulk(key@));
                    assert(msgs_view(rec_args@) =~= seq![MessageV::Bulk(key@)] + neg_pair_msgs(
                        es.take(0),
                    )) by {
                        lemma_msgs_view(rec_args@);
                    }
                    assert(neg_pairs(es).take(0) =~= neg_pairs(es.take(0)));
                    assert(crate::type_counter::spec_counter_change_all(
                        amap_of(es),
                        neg_pairs(es).take(0),
                        uuid,
                    ) == amap_of(es));
                }
                while j < snapshot.len()
                    invariant
                        c.wf(),
                        0 <= j <= snapshot@.len(),
                        snapshot@.len() == es.len(),
                        forall|l: int|
                            0 <= l < es.len() ==> snapshot@[l] == ((#[trigger] es[l]).0,
                            es[l].1.0),
                        c@ == crate::type_counter::spec_counter_change_all(
                            amap_of(es),
                            neg_pairs(es.take(j as int)),
                            uuid,
                        ),
                        msgs_view(rec_args@) == seq![MessageV::Bulk(key@)] + neg_pair_msgs(
                            es.take(j as int),
                        ),
                    decreases snapshot@.len() - j,
                {
                    let (node, value) = snapshot[j];
                    let delta = 0i64.wrapping_sub(value);
                    c.change(node, delta, uuid);
                    let ghost before_args = rec_args@;
                    let m1 = Message::Integer(#[verifier::truncate] (node as i64));
                    let m2 = Message::Integer(delta);
                    rec_args.push(m1);
                    rec_args.push(m2);
                    proof {
                        assert(es.take(j as int + 1).drop_last() =~= es.take(j as int));
                        assert(es.take(j as int + 1).last() == es[j as int]);
                        assert(neg_pairs(es.take(j as int + 1)).drop_last() =~= neg_pairs(
                            es.take(j as int),
                        ));
                        assert(neg_pairs(es.take(j as int + 1)).last() == (node, delta));
                        lemma_msgs_view(rec_args@);
                        lemma_msgs_view(before_args);
                        assert forall|l: int| 0 <= l < rec_args@.len() implies msgs_view(
                            rec_args@,
                        )[l] == (msgs_view(before_args) + seq![
                            MessageV::Integer(node as i64),
                            MessageV::Integer(delta),
                        ])[l] by {
                            assert(msgs_view(rec_args@)[l] == rec_args@[l]@);
                            if l < before_args.len() {
                                assert(rec_args@[l] == before_args[l]);
                                assert(msgs_view(before_args)[l] == before_args[l]@);
                            }
                        }
                        assert(msgs_view(rec_args@) =~= msgs_view(before_args) + seq![
                            MessageV::Integer(node as i64),
                            MessageV::Integer(delta),
                        ]);
                        assert(msgs_view(rec_args@) =~= seq![MessageV::Bulk(key@)]
                            + neg_pair_msgs(es.take(j as int + 1)));
                    }
                    j = j + 1;
                }
                proof {
                    assert(es.take(snapshot@.len() as int) =~= es);
                    assert(neg_pairs(es.take(snapshot@.len() as int)) =~= neg_pairs(es));
                }
                o.delete_time = uuid;
                o.update_time = uuid;
                server.db.add(key, o);
                let cmd = Command { name: CommandName::DelCnt };
                server.replicate_cmd(uuid, cmd.name_vec(), rec_args);
                proof {
                    assert(server.db@ =~= db0.insert(key@, server.db@[key@]));
                    // nodes recorded strictly before the deletion all go to zero
                    if forall|j: int|
                        0 <= j < es.len() ==> (#[trigger] es[j]).1.1 < uuid {
                        assert forall|j: int|
                            0 <= j < es.len() implies crate::assoc::amap(es).contains_key(
                            (#[trigger] es[j]).0,
                        ) && crate::assoc::amap(es)[es[j].0] == es[j].1 by {
                            crate::assoc::lemma_amap_index(es, j);
                        }
                        crate::type_counter::lemma_del_counter_zeroes(
                            crate::assoc::amap(es),
                            es,
                            uuid,
                        );
                        assert forall|node: u64|
                            #[trigger] crate::type_counter::spec_counter_change_all(
                                crate::assoc::amap(es),
                                neg_pairs(es),
                                uuid,
                            ).contains_key(node)
                                implies crate::type_counter::spec_counter_change_all(
                                crate::assoc::amap(es),
                                neg_pairs(es),
                                uuid,
                            )[node] == (0i64, uuid) by {
                            crate::assoc::lemma_amap_dom(es, node);
                            if forall|j: int|
                                0 <= j < es.len() ==> (#[trigger] es[j]).0 != node {
                                assert(forall|j: int|
                                    0 <= j < es.len() ==> (#[trigger] neg_pairs(es)[j]).0
                                        != node);
                                crate::type_counter::lemma_change_all_frame(
                                    crate::assoc::amap(es),
                                    neg_pairs(es),
                                    uuid,
                                    node,
                                );
                                assert(false);
                            } else {
                                let j = choose|j: int|
                                    0 <= j < es.len() && (#[trigger] es[j]).0 == node;
                            }
                        }
                    }
                }
                Ok(Message::Integer(1))
            } else {
                server.db.add(key, o);
                proof {
                    assert(server.db@ =~= db0);
                }
                Ok(Message::Integer(0))
            }
        }
        Encoding::Bytes(_) => {
            if o.update_time <= uuid && o.create_time >= o.delete_time {
                o.delete_time = uuid;
                o.update_time = uuid;
                let mut rec_args: Vec<Message> = Vec::new();
                rec_args.push(Message::Bulk(crate::resp::dup_bytes(&key)));
                server.db.add(key, o);
                proof {
                    lemma_msgs_view(rec_args@);
                    assert(msgs_view(rec_args@) =~= seq![MessageV::Bulk(key@)]);
                    assert(server.db@ =~= db0.insert(key@, server.db@[key@]));
                }
                let cmd = Command { name: CommandName::DelBytes };
                server.replicate_cmd(uuid, cmd.name_vec(), rec_args);
                Ok(Message::Integer(1))
            } else {
                server.db.add(key, o);
                proof {
                    assert(server.db@ =~= db0);
                }
                Ok(Message::Integer(0))
            }
        }
        Encoding::LWWSet(s) => {
            let deleted: i64 = if o.create_time >= o.delete_time && uuid > o.create_time {
                1
            } else {
                0
            };
            s.remove_all(uuid);
            o.delete_time = crate::util::max_u64(o.delete_time, uuid);
            o.update_time = crate::util::max_u64(o.update_time, uuid);
            let mut rec_args: Vec<Message> = Vec::new();
            rec_args.push(Message::Bulk(crate::resp::dup_bytes(&key)));
            server.db.add(key, o);
            proof {
                lemma_msgs_view(rec_args@);
                assert(msgs_view(rec_args@) =~= seq![MessageV::Bulk(key@)]);
                assert(server.db@ =~= db0.insert(key@, server.db@[key@]));
            }
            let cmd = Command { name: CommandName::DelSet };
            server.replicate_cmd(uuid, cmd.name_vec(), rec_args);
            Ok(Message::Integer(deleted))
        }
        Encoding::LWWDict(d) => {
            let deleted: i64 = if o.create_time >= o.delete_time && uuid > o.create_time {
                1
            } else {
                0
            };
            d.del_all(uuid);
            o.delete_time = crate::util::max_u64(o.delete_time, uuid);
            o.update_time = crate::util::max_u64(o.update_time, uuid);
            let mut rec_args: Vec<Message> = Vec::new();
            rec_args.push(Message::Bulk(crate::resp::dup_bytes(&key)));
            server.db.add(key, o);
            proof {
                lemma_msgs_view(rec_args@);
                assert(msgs_view(rec_args@) =~= seq![MessageV::Bulk(key@)]);
                assert(server.db@ =~= db0.insert(key@, server.db@[key@]));
            }
            let cmd = Command { name: CommandName::DelDict };
            server.replicate_cmd(uuid, cmd.name_vec(), rec_args);
            Ok(Message::Integer(deleted))
        }
    }
}

/// The counter map an association sequence denotes.
pub open spec fn amap_of(es: Seq<(u64, (i64, u64))>) -> Map<u64, (i64, u64)> {
    crate::assoc::amap(es)
}

/// Replays a byte-value deletion: tombstones the key at the deletion's
/// uuid, creating an empty byte value when the key is new.
pub fn delbytes_command(
    server: &mut Server,
    _client: Option<&Client>,
    _nodeid: u64,
    uuid: u64,
    args: &Vec<Message>,
) -> (r: Result<Message, CstError>)
    requires
        old(server).wf(),
    ensures
        final(server).wf(),
        delbytes_command_post(*old(server), *final(server), opt_client(_client), _nodeid, uuid, argv(args), r),
{
    let mut it = ArgIter::new(args);
    let key = match it.next_bytes() {
        Ok(k) => k,
        Err(e) => {
            return Err(e);
        }
    };
    let ghost db0 = server.db@;
    let mut o = match server.db.take(key.as_slice()) {
        None => Object::new(Encoding::Bytes(Vec::new()), uuid, 0),
        Some(o) => o,
    };
    let is_bytes = match &o.enc {
        Encoding::Bytes(_) => true,
        _ => false,
    };
    if !is_bytes {
        server.db.add(key, o);
        proof {
            assert(server.db@ =~= db0);
        }
        return Err(CstError::InvalidType);
    }
    o.delete_time = crate::util::max_u64(o.delete_time, uuid);
    o.update_time = crate::util::max_u64(o.update_time, uuid);
    server.db.add(key, o);
    proof {
        assert(server.db@ =~= db0.insert(key@, server.db@[key@]));
    }
    Ok(Message::NoReply)
}

/// The wire rendering of one replication record: its uuid, the command
/// name, then the arguments.
pub open spec fn spec_record_msg(rec: crate::repl_log::RecordV) -> MessageV {
    MessageV::Array(
        seq![MessageV::Integer(rec.uuid as i64), MessageV::Bulk(rec.name)] + rec.args,
    )
}

/// Reads the replication log: `at <uuid>` replies the record tagged with
/// that uuid or `Nil`, `uuids` the list of retained uuids.
pub fn repllog_command(
    server: &mut Server,
    _client: Option<&Client>,
    _nodeid: u64,
    _uuid: u64,
    args: &Vec<Message>,
) -> (r: Result<Message, CstError>)
    requires
        old(server).wf(),
    ensures
        final(server).wf(),
        repllog_command_post(*old(server), *final(server), opt_client(_client), _nodeid, _uuid, argv(args), r),
{
    let mut it = ArgIter::new(args);
    let sub = match it.next_string() {
        Ok(b) => b,
        Err(e) => {
            return Err(e);
        }
    };
    let lower = to_ascii_lower(sub.as_slice());
    if eq_arr(lower.as_slice(), &[97, 116]) {
        let at = match it.next_u64() {
            Ok(u) => u,
            Err(e) => {
                return Err(e);
            }
        };
        match server.repl_log.find_at(at) {
            Some(i) => {
                let rec = server.repl_log.record_at(i);
                let mut parts: Vec<Message> = Vec::new();
                parts.push(Message::Integer(rec.uuid as i64));
                parts.push(Message::Bulk(crate::resp::dup_bytes(&rec.name)));
                let mut j: usize = 0;
                proof {
                    lemma_msgs_view(rec.args@);
                }
                while j < rec.args.len()
                    invariant
                        0 <= j <= rec.args@.len(),
                        parts@.len() == 2 + j,
                        parts@[0]@ == MessageV::Integer(rec.uuid as i64),
                        parts@[1]@ == MessageV::Bulk(rec.name@),
                        forall|l: int| 0 <= l < j ==> parts@[l + 2]@ == msgs_view(rec.args@)[l],
                        forall|l: int|
                            0 <= l < rec.args@.len() ==> msgs_view(rec.args@)[l] == (
                            #[trigger] rec.args@[l])@,
                        msgs_view(rec.args@).len() == rec.args@.len(),
                    decreases rec.args@.len() - j,
                {
                    let m = rec.args[j].duplicate();
                    parts.push(m);
                    j = j + 1;
                }
                proof {
                    lemma_msgs_view(parts@);
                    assert(msgs_view(parts@) =~= seq![
                        MessageV::Integer(rec@.uuid as i64),
                        MessageV::Bulk(rec@.name),
                    ] + rec@.args);
                }
                Ok(Message::Array(parts))
            }
            None => Ok(Message::Nil),
        }
    } else if eq_arr(lower.as_slice(), &[117, 117, 105, 100, 115]) {
        let us = server.repl_log.uuids();
        let mut parts: Vec<Message> = Vec::new();
        let mut j: usize = 0;
        while j < us.len()
            invariant
                0 <= j <= us@.len(),
                us@.len() == old(server).repl_log@.len(),
                *server == *old(server),
                forall|l: int|
                    0 <= l < us@.len() ==> us@[l] == (#[trigger] old(server).repl_log@[l]).uuid,
                parts@.len() == j,
                forall|l: int|
                    0 <= l < j ==> parts@[l]@ == MessageV::Integer(
                        (#[trigger] old(server).repl_log@[l]).uuid as i64,
                    ),
            decreases us@.len() - j,
        {
            parts.push(Message::Integer(us[j] as i64));
            j = j + 1;
        }
        proof {
            lemma_msgs_view(parts@);
        }
        Ok(Message::Array(parts))
    } else {
        Err(CstError::UnknownSubCmd(lower, repllog_parent()))
    }
}

} // verus!
