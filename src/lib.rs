//! A peer-to-peer blockchain node: the binary wire protocol and its handshake, the
//! block and transaction model with hashing, merkle roots and validity rules, and
//! the mempool of pending and orphan transactions.
//!
//! Every encoding has a specification (`Wire::wire`, `Wire::parse`) and the
//! functions that write and read bytes are proved to follow it; the laws that tie
//! them together (a value sent and read back is the same value) are proved too.
use vstd::prelude::*;

pub mod block;
pub mod cli;
pub mod codec;
pub mod error;
pub mod hash;
pub mod keyed;
pub mod locator;
pub mod matrix;
pub mod mempool;
pub mod merkle;
pub mod message;
pub mod peer;
pub mod script;
pub mod transaction;
pub mod types;
pub mod utxo;

verus! {

} // verus!
