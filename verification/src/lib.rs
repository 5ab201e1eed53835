//! A multi-active, eventually-consistent in-memory key-value store.
//!
//! Values are conflict-free replicated data types (an increment/decrement
//! counter, a last-writer-wins byte blob, a last-writer-wins observed-remove
//! set and a last-writer-wins field dictionary), wrapped in an object
//! envelope that carries create/update/delete timestamps for soft deletion.
//! A command engine dispatches client commands, tags writes with monotone
//! hybrid identifiers and emits replication records that peers replay.

use vstd::prelude::*;

pub mod assoc;
pub mod cmd;
pub mod counter;
pub mod laws;
pub mod lwwhash;
pub mod object;
pub mod repl_log;
pub mod replica;
pub mod server;
pub mod snapshot;
pub mod store;
pub mod type_counter;
pub mod type_hash;
pub mod type_set;
pub mod resp;
pub mod util;

verus! {

/// Error taxonomy of the store, distinguishable at the wire level.
#[derive(Debug)]
pub enum CstError {
    /// No such command, or a replay-only command attempted by a client.
    UnknownCmd(Vec<u8>),
    /// Unknown sub-command of a parent command.
    UnknownSubCmd(Vec<u8>, Vec<u8>),
    /// The argument iterator was exhausted prematurely.
    WrongArity,
    /// A request argument could not be coerced to the expected type.
    InvalidRequestMsg(Vec<u8>),
    /// The operation was applied to an object whose variant cannot support it.
    InvalidType,
    /// A merge was attempted across mismatched variants.
    TypeConflict,
}

} // verus!
