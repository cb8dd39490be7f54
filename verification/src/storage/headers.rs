use vstd::prelude::*;
use vstd::bytes::*;

use crate::pow::{U256, Work, lemma_be_bytes_roundtrip};
use crate::primitives::{
    BlockHash, Header, lemma_header_roundtrip, spec_block_hash, spec_decode_header,
    spec_encode_header,
};
use super::error::{Result, StorageError, length_mismatch};

verus! {

broadcast use vstd::seq_lib::group_seq_properties;

/// Validation progress of a block, as bit flags.
#[derive(Debug, Clone, Copy, PartialEq, Eq, Structural)]
pub struct BlockStatus(pub u8);

impl Default for BlockStatus {
    fn default() -> (r: BlockStatus)
        ensures
            r.0 == 0,
    {
        BlockStatus(0)
    }
}

impl BlockStatus {
    /// Header passed context-free and contextual header checks.
    pub fn header_valid() -> (r: BlockStatus)
        ensures
            r.0 == 1,
    {
        BlockStatus(1)
    }

    /// Block body is present in the block store.
    pub fn have_data() -> (r: BlockStatus)
        ensures
            r.0 == 2,
    {
        BlockStatus(2)
    }

    /// Block was fully validated and connected at least once.
    pub fn block_valid() -> (r: BlockStatus)
        ensures
            r.0 == 4,
    {
        BlockStatus(4)
    }

    /// Block or one of its ancestors failed validation.
    pub fn failed() -> (r: BlockStatus)
        ensures
            r.0 == 8,
    {
        BlockStatus(8)
    }

    pub fn bits(self) -> (r: u8)
        ensures
            r == self.0,
    {
        self.0
    }

    pub fn from_bits(bits: u8) -> (r: BlockStatus)
        ensures
            r.0 == bits,
    {
        BlockStatus(bits)
    }

    /// Whether every flag of `other` is set here.
    pub open spec fn spec_contains(self, other: BlockStatus) -> bool {
        self.0 & other.0 == other.0
    }

    pub fn contains(self, other: BlockStatus) -> (r: bool)
        ensures
            r == self.spec_contains(other),
    {
        self.0 & other.0 == other.0
    }

    pub fn insert(&mut self, other: BlockStatus)
        ensures
            final(self).0 == old(self).0 | other.0,
    {
        self.0 = self.0 | other.0;
    }

    pub fn remove(&mut self, other: BlockStatus)
        ensures
            final(self).0 == old(self).0 & !other.0,
    {
        self.0 = self.0 & !other.0;
    }
}

/// After inserting flags they are all set, and flags set before stay set.
pub proof fn lemma_status_insert(s: BlockStatus, x: BlockStatus, y: BlockStatus)
    ensures
        BlockStatus(s.0 | x.0).spec_contains(x),
        s.spec_contains(y) ==> BlockStatus(s.0 | x.0).spec_contains(y),
{
    let (a, b, c) = (s.0, x.0, y.0);
    assert((a | b) & b == b) by (bit_vector);
    assert(a & c == c ==> (a | b) & c == c) by (bit_vector);
}

/// After removing a non-empty set of flags, the set is no longer contained, and flags
/// disjoint from it are untouched.
pub proof fn lemma_status_remove(s: BlockStatus, x: BlockStatus, y: BlockStatus)
    ensures
        x.0 != 0 ==> !BlockStatus(s.0 & !x.0).spec_contains(x),
        x.0 & y.0 == 0 && s.spec_contains(y) ==> BlockStatus(s.0 & !x.0).spec_contains(y),
{
    let (a, b, c) = (s.0, x.0, y.0);
    assert(b != 0 ==> (a & !b) & b != b) by (bit_vector);
    assert(b & c == 0 && a & c == c ==> (a & !b) & c == c) by (bit_vector);
}

/// Stored size of a [`HeaderEntry`]: header, height, chain work, status.
pub const ENTRY_LEN: usize = 117;

/// A header plus the chain metadata derived when it was accepted.
#[derive(Debug, Clone, Copy, PartialEq, Eq, Structural)]
pub struct HeaderEntry {
    pub header: Header,
    pub height: u32,
    /// Cumulative proof of work from genesis up to and including this block.
    pub chain_work: Work,
    pub status: BlockStatus,
}

/// Layout: header (80 bytes), height (u32 LE), chain work (32 bytes BE), status (u8).
pub open spec fn spec_entry_bytes(e: HeaderEntry) -> Seq<u8> {
    spec_encode_header(e.header) + spec_u32_to_le_bytes(e.height) + e.chain_work.spec_to_be_bytes()
        + seq![e.status.0]
}

/// Reading `ENTRY_LEN` bytes as an entry.
pub open spec fn spec_decode_entry(b: Seq<u8>) -> HeaderEntry {
    HeaderEntry {
        header: spec_decode_header(b.subrange(0, 80)),
        height: spec_u32_from_le_bytes(b.subrange(80, 84)),
        chain_work: U256::spec_from_be_bytes(b.subrange(84, 116)),
        status: BlockStatus(b[116]),
    }
}

/// An entry read back from its bytes is the entry.
pub proof fn lemma_entry_roundtrip(e: HeaderEntry)
    ensures
        spec_entry_bytes(e).len() == ENTRY_LEN,
        spec_decode_entry(spec_entry_bytes(e)) == e,
{
    lemma_header_roundtrip(e.header);
    lemma_auto_spec_u32_to_from_le_bytes();
    lemma_be_bytes_roundtrip(e.chain_work);
    let b = spec_entry_bytes(e);
    assert(b.subrange(0, 80) =~= spec_encode_header(e.header));
    assert(b.subrange(80, 84) =~= spec_u32_to_le_bytes(e.height));
    assert(b.subrange(84, 116) =~= e.chain_work.spec_to_be_bytes());
}

/// Any `ENTRY_LEN` bytes read as an entry write back as themselves.
pub proof fn lemma_entry_decode_encode(b: Seq<u8>)
    requires
        b.len() == ENTRY_LEN,
    ensures
        spec_entry_bytes(spec_decode_entry(b)) == b,
{
    crate::primitives::lemma_header_decode_encode(b.subrange(0, 80));
    lemma_auto_spec_u32_to_from_le_bytes();
    crate::pow::lemma_be_bytes_decode_encode(b.subrange(84, 116));
    assert(spec_entry_bytes(spec_decode_entry(b)) =~= b.subrange(0, 80) + b.subrange(80, 84)
        + b.subrange(84, 116) + seq![b[116]]);
    assert(b =~= b.subrange(0, 80) + b.subrange(80, 84) + b.subrange(84, 116) + seq![b[116]]);
}

impl HeaderEntry {
    pub fn block_hash(&self) -> (r: BlockHash)
        ensures
            r == spec_block_hash(self.header),
    {
        self.header.block_hash()
    }

    /// Layout: header (80 bytes), height (u32 LE), chain work (32 bytes BE), status (u8).
    pub fn to_bytes(&self) -> (r: Vec<u8>)
        ensures
            r@ == spec_entry_bytes(*self),
            r@.len() == ENTRY_LEN,
    {
        proof { lemma_entry_roundtrip(*self); }
        let mut bytes = self.header.encode();
        let height = u32_to_le_bytes(self.height);
        bytes.extend_from_slice(height.as_slice());
        let work = self.chain_work.to_be_bytes();
        bytes.extend_from_slice(work.as_slice());
        bytes.push(self.status.bits());
        bytes
    }

    /// Fails, with a `Corrupted` error, exactly when the length is not `ENTRY_LEN`.
    pub fn from_bytes(bytes: &[u8]) -> (r: Result<HeaderEntry>)
        ensures
            bytes@.len() == ENTRY_LEN ==> r == Ok::<HeaderEntry, StorageError>(spec_decode_entry(bytes@)),
            bytes@.len() != ENTRY_LEN ==> (r matches Err(StorageError::Corrupted { what, .. })
                && what@ == "header entry"@),
    {
        if bytes.len() != ENTRY_LEN {
            return Err(StorageError::Corrupted {
                what: "header entry",
                reason: length_mismatch(ENTRY_LEN, bytes.len()),
            });
        }
        let header = Header::decode(vstd::slice::slice_subrange(bytes, 0, 80));
        let height = u32_from_le_bytes(vstd::slice::slice_subrange(bytes, 80, 84));
        let chain_work = U256::from_be_bytes(vstd::slice::slice_subrange(bytes, 84, 116));
        Ok(HeaderEntry { header, height, chain_work, status: BlockStatus::from_bits(bytes[116]) })
    }
}

} // verus!
