//! The gossip wire layer: the limits that bound a peer's use of our memory, the reaction each
//! violation calls for, and when a message is valid on a connection.
//!
//! Messages are decoded by the `bitcoin` crate; what the checks here read of one is held in
//! [`Message`].

pub mod limits;
pub mod serialize;
pub mod validate;
pub mod window;

pub use serialize::{block_without_witness, transaction_without_witness};
pub use validate::{Overflow, WireError, check, requests_unoffered_service};
pub use window::{Window, window};

use vstd::prelude::*;

verus! {

/// What a peer does about a violation.
#[derive(Debug, Clone, Copy, PartialEq, Eq, Structural)]
pub enum Reaction {
    /// Drop the message and continue.
    Discard,
    /// Close the connection.
    Terminate,
    /// Close the connection and avoid the address for a bounded period, because the peer made
    /// us spend memory or bandwidth it had no reason to.
    TerminateAndRecord,
}

/// A message of the peer-to-peer protocol, as far as the wire checks read it: its command,
/// and for the messages that carry a list, the length of the list.
#[derive(Debug, Clone, Copy, PartialEq, Eq, Structural)]
pub enum Message {
    Version,
    Verack,
    WtxidRelay,
    SendAddrV2,
    Feature,
    SendTxRcnCl,
    SendHeaders,
    SendCmpct,
    /// Address records.
    Addr(usize),
    /// Address records.
    AddrV2(usize),
    /// Inventory vectors.
    Inv(usize),
    /// Inventory vectors.
    GetData(usize),
    /// Inventory vectors.
    NotFound(usize),
    /// Headers.
    Headers(usize),
    /// Locator hashes.
    GetHeaders(usize),
    /// Locator hashes.
    GetBlocks(usize),
    FilterLoad,
    FilterAdd,
    FilterClear,
    MemPool,
    GetCFilters,
    GetCFHeaders,
    GetCFCheckpt,
    GetAddr,
    Ping(u64),
    Pong(u64),
    /// Any other message.
    Other,
}

} // verus!
