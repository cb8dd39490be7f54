//! Limits a peer must respect, and what we do when it does not.
//!
//! Decoding does not bound how much a peer may send in one message, so these checks run on
//! every decoded message before it is acted on.

use vstd::prelude::*;

use super::limits::{MAX_ADDR_RECORDS, MAX_HEADERS, MAX_INV_VECTORS, MAX_LOCATOR_HASHES};
use super::{Message, Reaction};

verus! {

/// What a peer sent too many of.
#[derive(Debug, Clone, Copy, PartialEq, Eq, Structural)]
pub enum Overflow {
    AddressRecords,
    InventoryVectors,
    Headers,
    LocatorHashes,
}

impl Overflow {
    pub open spec fn spec_limit(self) -> usize {
        match self {
            Overflow::AddressRecords => MAX_ADDR_RECORDS,
            Overflow::InventoryVectors => MAX_INV_VECTORS,
            Overflow::Headers => MAX_HEADERS,
            Overflow::LocatorHashes => MAX_LOCATOR_HASHES,
        }
    }

    /// The most of this a message may hold.
    pub fn limit(self) -> (r: usize)
        ensures
            r == self.spec_limit(),
    {
        match self {
            Overflow::AddressRecords => MAX_ADDR_RECORDS,
            Overflow::InventoryVectors => MAX_INV_VECTORS,
            Overflow::Headers => MAX_HEADERS,
            Overflow::LocatorHashes => MAX_LOCATOR_HASHES,
        }
    }

    pub open spec fn spec_name(self) -> Seq<char> {
        match self {
            Overflow::AddressRecords => "address records"@,
            Overflow::InventoryVectors => "inventory vectors"@,
            Overflow::Headers => "headers"@,
            Overflow::LocatorHashes => "locator hashes"@,
        }
    }

    /// What it is called in messages.
    pub fn name(self) -> (r: &'static str)
        ensures
            r@ == self.spec_name(),
    {
        match self {
            Overflow::AddressRecords => "address records",
            Overflow::InventoryVectors => "inventory vectors",
            Overflow::Headers => "headers",
            Overflow::LocatorHashes => "locator hashes",
        }
    }
}

/// A message that breaks a limit.
#[derive(Debug, Clone, Copy, PartialEq, Eq, Structural)]
pub enum WireError {
    TooMany { kind: Overflow, count: usize, limit: usize },
}

/// Decimal digits of a number, most significant first, with no leading zeros.
pub open spec fn decimal(n: nat) -> Seq<char>
    decreases n,
{
    if n < 10 {
        seq![(('0' as u8) + n) as char]
    } else {
        decimal(n / 10).push((('0' as u8) + (n % 10)) as char)
    }
}

/// `format!` of the too-many message: the count and the limit in decimal, as `Display` writes
/// integers.
#[verifier::external_body]
fn too_many_message(count: usize, kind: &str, limit: usize) -> (r: String)
    ensures
        r@ == decimal(count as nat) + " "@ + kind@ + " exceed the limit of "@ + decimal(limit as nat),
{
    format!("{count} {kind} exceed the limit of {limit}")
}

impl WireError {
    pub open spec fn spec_reaction(self) -> Reaction {
        match self {
            WireError::TooMany { kind: Overflow::LocatorHashes, .. } => Reaction::Terminate,
            WireError::TooMany { .. } => Reaction::TerminateAndRecord,
        }
    }

    /// What a peer does about this violation.
    ///
    /// Oversized vectors cost us memory the peer had no reason to make us spend, so its
    /// address is remembered. An oversized locator only costs us the message.
    pub fn reaction(&self) -> (r: Reaction)
        ensures
            r == self.spec_reaction(),
    {
        match self {
            WireError::TooMany { kind: Overflow::LocatorHashes, .. } => Reaction::Terminate,
            WireError::TooMany { .. } => Reaction::TerminateAndRecord,
        }
    }

    /// The error in words: "{count} {kind} exceed the limit of {limit}".
    pub fn message(&self) -> (r: String)
        ensures
            match *self {
                WireError::TooMany { kind, count, limit } => r@ == decimal(count as nat) + " "@
                    + kind.spec_name() + " exceed the limit of "@ + decimal(limit as nat),
            },
    {
        match self {
            WireError::TooMany { kind, count, limit } => too_many_message(*count, kind.name(), *limit),
        }
    }
}

/// The list a message carries that has a limit, and its length.
pub open spec fn counted(message: Message) -> Option<(Overflow, usize)> {
    match message {
        Message::Addr(n) | Message::AddrV2(n) => Some((Overflow::AddressRecords, n)),
        Message::Inv(n) | Message::GetData(n) | Message::NotFound(n) => Some((Overflow::InventoryVectors, n)),
        Message::Headers(n) => Some((Overflow::Headers, n)),
        Message::GetHeaders(n) | Message::GetBlocks(n) => Some((Overflow::LocatorHashes, n)),
        _ => None,
    }
}

/// Checks a decoded message against the limits that bound our memory. Fails exactly when the
/// message carries a list longer than its limit.
pub fn check(message: &Message) -> (r: Result<(), WireError>)
    ensures
        match counted(*message) {
            None => r is Ok,
            Some((kind, count)) => if count <= kind.spec_limit() {
                r is Ok
            } else {
                r == Err::<(), WireError>(WireError::TooMany { kind, count, limit: kind.spec_limit() })
            },
        },
{
    let (kind, count) = match message {
        Message::Addr(n) => (Overflow::AddressRecords, *n),
        Message::AddrV2(n) => (Overflow::AddressRecords, *n),
        Message::Inv(n) | Message::GetData(n) | Message::NotFound(n) => (Overflow::InventoryVectors, *n),
        Message::Headers(n) => (Overflow::Headers, *n),
        Message::GetHeaders(n) => (Overflow::LocatorHashes, *n),
        Message::GetBlocks(n) => (Overflow::LocatorHashes, *n),
        _ => return Ok(()),
    };
    let limit = kind.limit();
    if count <= limit {
        Ok(())
    } else {
        Err(WireError::TooMany { kind, count, limit })
    }
}

/// Whether a message asks for a service we do not offer: connection bloom filtering or
/// compact block filters, both gated on a service bit.
pub open spec fn spec_requests_unoffered_service(message: Message) -> bool {
    message is FilterLoad || message is FilterAdd || message is FilterClear || message is MemPool
        || message is GetCFilters || message is GetCFHeaders || message is GetCFCheckpt
}

/// True when a peer tries to use a service we do not advertise.
pub fn requests_unoffered_service(message: &Message) -> (r: bool)
    ensures
        r == spec_requests_unoffered_service(*message),
{
    match message {
        Message::FilterLoad | Message::FilterAdd | Message::FilterClear | Message::MemPool
        | Message::GetCFilters | Message::GetCFHeaders | Message::GetCFCheckpt => true,
        _ => false,
    }
}

/// A message asks for a service we do not offer exactly when it is a bloom-filter request
/// (filterload, filteradd, filterclear, mempool) or a compact-filter request (getcfilters,
/// getcfheaders, getcfcheckpt); no other message, whatever it carries, is flagged.
pub proof fn lemma_unoffered_service_requests(message: Message)
    ensures
        spec_requests_unoffered_service(message) == (message == Message::FilterLoad || message == Message::FilterAdd
            || message == Message::FilterClear || message == Message::MemPool || message == Message::GetCFilters
            || message == Message::GetCFHeaders || message == Message::GetCFCheckpt),
        spec_requests_unoffered_service(Message::FilterLoad),
        spec_requests_unoffered_service(Message::FilterAdd),
        spec_requests_unoffered_service(Message::FilterClear),
        spec_requests_unoffered_service(Message::MemPool),
        spec_requests_unoffered_service(Message::GetCFilters),
        spec_requests_unoffered_service(Message::GetCFHeaders),
        spec_requests_unoffered_service(Message::GetCFCheckpt),
{
}

/// Every message that breaks a limit is one the connection is closed over.
pub proof fn lemma_violations_close_the_connection(message: Message, e: WireError)
    requires
        counted(message) matches Some((kind, count)) && count > kind.spec_limit(),
        e == (WireError::TooMany { kind: counted(message)->Some_0.0, count: counted(message)->Some_0.1, limit: counted(message)->Some_0.0.spec_limit() }),
    ensures
        e.spec_reaction() != Reaction::Discard,
        (e.spec_reaction() == Reaction::TerminateAndRecord) <==> !(counted(message)->Some_0.0 is LocatorHashes),
{
}

} // verus!
