//! Consensus validation hooks.
//!
//! The networking code already calls validation at the right points; the rules themselves
//! (difficulty schedule, median time past, future time limit, version rules, the stateless
//! and contextual block checks) come with the consensus module. Until then both hooks accept
//! everything, and only the cheap checks in `HeaderChain` apply.

use vstd::prelude::*;

use crate::primitives::Header;
use crate::transaction::Block;
use crate::storage::HeaderEntry;

verus! {

#[derive(Debug, Clone, PartialEq, Eq)]
pub enum ValidationError {
    /// An invalid header, with the reason.
    Header(String),
    /// An invalid block, with the reason.
    Block(String),
}

impl ValidationError {
    /// A copy of the error.
    pub fn copy(&self) -> (r: ValidationError)
        ensures
            r == *self,
    {
        match self {
            ValidationError::Header(s) => ValidationError::Header(s.clone()),
            ValidationError::Block(s) => ValidationError::Block(s.clone()),
        }
    }
}

/// Contextual header checks against the parent entry. No rule is enforced yet.
pub fn check_header(header: &Header, parent: &HeaderEntry) -> (r: Result<(), ValidationError>)
    ensures
        r is Ok,
{
    Ok(())
}

/// Full block validation against the chain state. No rule is enforced yet; the storage layer
/// already connects and disconnects blocks with undo data.
pub fn check_block(block: &Block, entry: &HeaderEntry) -> (r: Result<(), ValidationError>)
    ensures
        r is Ok,
{
    Ok(())
}

} // verus!
