use vstd::prelude::*;

use crate::primitives::BlockHash;
use crate::wire::validate::decimal;

verus! {

pub type Result<T> = core::result::Result<T, StorageError>;

/// Why a storage operation failed.
#[derive(Debug)]
pub enum StorageError {
    /// The engine reported an error, in its own words.
    Engine(String),
    /// Stored bytes that do not decode as what the table holds.
    Corrupted { what: &'static str, reason: String },
    /// A block connected on top of something other than the tip.
    NotExtendingTip { block: BlockHash, tip: Option<BlockHash> },
    /// A block disconnected that is not the tip.
    NotTip { block: BlockHash, tip: Option<BlockHash> },
    /// The undo data a disconnect needs is not stored.
    MissingUndo(BlockHash),
    /// The spent coins given do not match the inputs the block spends.
    SpentCoinsMismatch { expected: usize, actual: usize },
}

impl StorageError {
    pub fn corrupted(what: &'static str, reason: String) -> (r: StorageError)
        ensures
            r matches StorageError::Corrupted { what: w, reason: s } && w == what && s == reason,
    {
        StorageError::Corrupted { what, reason }
    }
}

/// `format!` of a length mismatch: "expected {expected} bytes, got {got}", the numbers in
/// decimal as `Display` writes them.
#[verifier::external_body]
pub(crate) fn length_mismatch(expected: usize, got: usize) -> (r: String)
    ensures
        r@ == "expected "@ + decimal(expected as nat) + " bytes, got "@ + decimal(got as nat),
{
    format!("expected {expected} bytes, got {got}")
}

} // verus!
