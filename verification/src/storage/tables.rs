//! The tables of the node database, and the codecs their keys use.
//!
//! Every table is declared here. Which database holds which table is decided where the node
//! is wired together, by opening an engine with the tables it should hold.

use vstd::prelude::*;
use vstd::bytes::*;

use crate::primitives::{lemma_hash_bytes, BlockHash, Hash256};
use crate::transaction::{block_encodable, lemma_block_encodable, spec_block_bytes, Block, OutPoint};
use super::coin::{coin_storable, spec_coin_bytes, spec_undo_bytes, undo_storable, BlockUndo, Coin};
use crate::bytes::{bytes_lt, lemma_bytes_lt_skip};
use super::db::table::{lemma_u32_be_injective, lemma_u32_be_order, Decode, Encode, Profile, Table};
use super::error::{length_mismatch, Result, StorageError};
use super::headers::{lemma_entry_decode_encode, lemma_entry_roundtrip, spec_decode_entry, spec_entry_bytes, HeaderEntry, ENTRY_LEN};

verus! {

/// Unspent outputs. Keys are an outpoint, and a scan by transaction identifier answers
/// whether a transaction still has unspent outputs.
#[derive(Debug, Clone, Copy, PartialEq, Eq)]
pub struct Coins;

impl Table for Coins {
    type Key = OutPoint;
    type Value = Coin;
    type Prefix = Hash256;

    open spec fn spec_name() -> Seq<char> {
        "coins"@
    }

    fn name() -> (r: &'static str) {
        "coins"
    }

    open spec fn spec_profile() -> Profile {
        Profile::PointLookup
    }

    fn profile() -> Profile {
        Profile::PointLookup
    }

    proof fn lemma_key_injective(a: OutPoint, b: OutPoint) {
        lemma_auto_spec_u32_to_from_le_bytes();
        lemma_hash_bytes(a.txid, Seq::empty());
        lemma_hash_bytes(b.txid, Seq::empty());
        if a.spec_encode() == b.spec_encode() {
            let ea = a.spec_encode();
            let eb = b.spec_encode();
            lemma_hash_bytes(a.txid, ea.subrange(0, 32));
            lemma_hash_bytes(b.txid, eb.subrange(0, 32));
            assert(ea.subrange(0, 32) =~= a.txid.spec_bytes());
            assert(eb.subrange(0, 32) =~= b.txid.spec_bytes());
            assert(ea.subrange(32, 36) =~= a.vout.spec_encode());
            assert(eb.subrange(32, 36) =~= b.vout.spec_encode());
            lemma_u32_be_injective(a.vout, b.vout);
        }
    }
}

/// The coins each block spent, which is what a disconnect restores.
#[derive(Debug, Clone, Copy, PartialEq, Eq)]
pub struct Undo;

impl Table for Undo {
    type Key = BlockHash;
    type Value = BlockUndo;
    type Prefix = ();

    open spec fn spec_name() -> Seq<char> {
        "undo"@
    }

    fn name() -> (r: &'static str) {
        "undo"
    }

    open spec fn spec_profile() -> Profile {
        Profile::LargeValues
    }

    fn profile() -> Profile {
        Profile::LargeValues
    }

    proof fn lemma_key_injective(a: BlockHash, b: BlockHash) {
        lemma_hash_bytes(a, Seq::empty());
        lemma_hash_bytes(b, Seq::empty());
        if a.spec_encode() == b.spec_encode() {
            assert(Hash256::spec_from_bytes(a.spec_bytes()) == Hash256::spec_from_bytes(b.spec_bytes()));
        }
    }
}

/// Block bodies, as received, on any branch.
#[derive(Debug, Clone, Copy, PartialEq, Eq)]
pub struct Blocks;

impl Table for Blocks {
    type Key = BlockHash;
    type Value = Block;
    type Prefix = ();

    open spec fn spec_name() -> Seq<char> {
        "blocks"@
    }

    fn name() -> (r: &'static str) {
        "blocks"
    }

    open spec fn spec_profile() -> Profile {
        Profile::LargeValues
    }

    fn profile() -> Profile {
        Profile::LargeValues
    }

    proof fn lemma_key_injective(a: BlockHash, b: BlockHash) {
        lemma_hash_bytes(a, Seq::empty());
        lemma_hash_bytes(b, Seq::empty());
        if a.spec_encode() == b.spec_encode() {
            assert(Hash256::spec_from_bytes(a.spec_bytes()) == Hash256::spec_from_bytes(b.spec_bytes()));
        }
    }
}

/// Every known header with the metadata derived when it was accepted.
#[derive(Debug, Clone, Copy, PartialEq, Eq)]
pub struct Headers;

impl Table for Headers {
    type Key = BlockHash;
    type Value = HeaderEntry;
    type Prefix = ();

    open spec fn spec_name() -> Seq<char> {
        "headers"@
    }

    fn name() -> (r: &'static str) {
        "headers"
    }

    open spec fn spec_profile() -> Profile {
        Profile::PointLookup
    }

    fn profile() -> Profile {
        Profile::PointLookup
    }

    proof fn lemma_key_injective(a: BlockHash, b: BlockHash) {
        lemma_hash_bytes(a, Seq::empty());
        lemma_hash_bytes(b, Seq::empty());
        if a.spec_encode() == b.spec_encode() {
            assert(Hash256::spec_from_bytes(a.spec_bytes()) == Hash256::spec_from_bytes(b.spec_bytes()));
        }
    }
}

/// Hash of the active chain's block at a height.
#[derive(Debug, Clone, Copy, PartialEq, Eq)]
pub struct HeightIndex;

impl Table for HeightIndex {
    type Key = u32;
    type Value = BlockHash;
    type Prefix = ();

    open spec fn spec_name() -> Seq<char> {
        "height_index"@
    }

    fn name() -> (r: &'static str) {
        "height_index"
    }

    open spec fn spec_profile() -> Profile {
        Profile::Sequential
    }

    fn profile() -> Profile {
        Profile::Sequential
    }

    proof fn lemma_key_injective(a: u32, b: u32) {
        lemma_u32_be_injective(a, b);
    }
}

/// Single values that describe the database as a whole.
#[derive(Debug, Clone, Copy, PartialEq, Eq)]
pub struct Meta;

impl Table for Meta {
    type Key = MetaKey;
    type Value = BlockHash;
    type Prefix = ();

    open spec fn spec_name() -> Seq<char> {
        "meta"@
    }

    fn name() -> (r: &'static str) {
        "meta"
    }

    open spec fn spec_profile() -> Profile {
        Profile::Sequential
    }

    fn profile() -> Profile {
        Profile::Sequential
    }

    proof fn lemma_key_injective(a: MetaKey, b: MetaKey) {
    }
}

/// Keys of the `meta` table.
#[derive(Debug, Clone, Copy, PartialEq, Eq, Structural)]
pub enum MetaKey {
    /// The block whose state the unspent output set represents.
    Tip,
}

impl Encode for MetaKey {
    open spec fn spec_encode(&self) -> Seq<u8> {
        seq![0x74u8, 0x69u8, 0x70u8]
    }

    open spec fn encodable(&self) -> bool {
        true
    }

    /// `b"tip"`.
    fn encode(&self) -> (r: Vec<u8>) {
        vec![0x74u8, 0x69u8, 0x70u8]
    }
}

/// An outpoint is the transaction identifier followed by the output index, big-endian, so a
/// transaction's outputs sit together and in order.
impl Encode for OutPoint {
    open spec fn spec_encode(&self) -> Seq<u8> {
        self.txid.spec_bytes() + self.vout.spec_encode()
    }

    open spec fn encodable(&self) -> bool {
        true
    }

    fn encode(&self) -> (r: Vec<u8>) {
        let mut key = self.txid.to_bytes();
        let vout = self.vout.encode();
        key.extend_from_slice(vout.as_slice());
        key
    }
}

/// An outpoint's key starts with its transaction's identifier, and the outputs of one
/// transaction sort by index: a scan by identifier finds all of them, in order.
pub proof fn lemma_outpoint_key_order(a: OutPoint, b: OutPoint)
    ensures
        a.spec_encode().len() == 36,
        a.spec_encode().subrange(0, 32) == a.txid.spec_bytes(),
        a.txid == b.txid ==> (a.vout < b.vout <==> bytes_lt(a.spec_encode(), b.spec_encode())),
{
    lemma_hash_bytes(a.txid, Seq::empty());
    lemma_hash_bytes(b.txid, Seq::empty());
    let ea = a.spec_encode();
    let eb = b.spec_encode();
    assert(ea.subrange(0, 32) =~= a.txid.spec_bytes());
    assert(ea.subrange(32, 36) =~= a.vout.spec_encode());
    if a.txid == b.txid {
        assert(eb.subrange(0, 32) =~= b.txid.spec_bytes());
        assert(eb.subrange(32, 36) =~= b.vout.spec_encode());
        lemma_bytes_lt_skip(ea, eb, 32);
        lemma_u32_be_order(a.vout, b.vout);
    }
}

/// A hash is its 32 bytes.
impl Encode for Hash256 {
    open spec fn spec_encode(&self) -> Seq<u8> {
        self.spec_bytes()
    }

    open spec fn encodable(&self) -> bool {
        true
    }

    fn encode(&self) -> (r: Vec<u8>) {
        self.to_bytes()
    }
}

impl Decode for Hash256 {
    open spec fn spec_same(&self, other: &Hash256) -> bool {
        *self == *other
    }

    /// Fails exactly when there are not 32 bytes.
    fn decode(bytes: &[u8]) -> (r: Result<Hash256>)
        ensures
            r is Ok <==> bytes@.len() == 32,
    {
        proof {
            assert forall|v: Hash256| #[trigger] v.spec_encode() == bytes@ implies bytes@.len() == 32
                && Hash256::spec_from_bytes(bytes@) == v by {
                lemma_hash_bytes(v, bytes@);
            }
        }
        if bytes.len() != 32 {
            return Err(StorageError::corrupted("block hash", "expected 32 bytes".to_owned()));
        }
        let h = Hash256::from_slice(bytes);
        proof {
            lemma_hash_bytes(h, bytes@);
        }
        Ok(h)
    }
}

impl Encode for HeaderEntry {
    open spec fn spec_encode(&self) -> Seq<u8> {
        spec_entry_bytes(*self)
    }

    open spec fn encodable(&self) -> bool {
        true
    }

    fn encode(&self) -> (r: Vec<u8>) {
        self.to_bytes()
    }
}

impl Decode for HeaderEntry {
    open spec fn spec_same(&self, other: &HeaderEntry) -> bool {
        *self == *other
    }

    /// Fails exactly when there are not `ENTRY_LEN` bytes.
    fn decode(bytes: &[u8]) -> (r: Result<HeaderEntry>)
        ensures
            r is Ok <==> bytes@.len() == ENTRY_LEN,
    {
        let r = HeaderEntry::from_bytes(bytes);
        proof {
            if bytes@.len() == ENTRY_LEN {
                lemma_entry_decode_encode(bytes@);
            }
            assert forall|v: HeaderEntry| #[trigger] v.spec_encode() == bytes@ implies bytes@.len() == ENTRY_LEN
                && spec_decode_entry(bytes@) == v by {
                lemma_entry_roundtrip(v);
            }
        }
        r
    }
}

impl Encode for Coin {
    open spec fn spec_encode(&self) -> Seq<u8> {
        spec_coin_bytes(self@)
    }

    /// The packed code keeps 31 bits of height.
    open spec fn encodable(&self) -> bool {
        self.height < 0x8000_0000
    }

    fn encode(&self) -> (r: Vec<u8>) {
        self.to_bytes()
    }
}

impl Decode for Coin {
    open spec fn spec_same(&self, other: &Coin) -> bool {
        self@ == other@
    }

    fn decode(bytes: &[u8]) -> (r: Result<Coin>) {
        proof {
            assert forall|v: Coin| v.encodable() && #[trigger] v.spec_encode() == bytes@ implies coin_storable(v@) by {
                assert(v.output.script_pubkey.len() == v.output.script_pubkey@.len());
            }
        }
        Coin::from_bytes(bytes)
    }
}

impl Encode for BlockUndo {
    open spec fn spec_encode(&self) -> Seq<u8> {
        spec_undo_bytes(self@)
    }

    open spec fn encodable(&self) -> bool {
        undo_storable(self@)
    }

    fn encode(&self) -> (r: Vec<u8>) {
        self.to_bytes()
    }
}

impl Decode for BlockUndo {
    open spec fn spec_same(&self, other: &BlockUndo) -> bool {
        self@ == other@
    }

    fn decode(bytes: &[u8]) -> (r: Result<BlockUndo>) {
        BlockUndo::from_bytes(bytes)
    }
}

impl Encode for Block {
    open spec fn spec_encode(&self) -> Seq<u8> {
        spec_block_bytes(self@)
    }

    open spec fn encodable(&self) -> bool {
        true
    }

    fn encode(&self) -> (r: Vec<u8>) {
        Block::encode(self)
    }
}

impl Decode for Block {
    /// The consensus encoding does not tell every block from every other: a transaction
    /// without inputs can read back as one with a witness. Two blocks read back alike when
    /// their bytes agree.
    open spec fn spec_same(&self, other: &Block) -> bool {
        self.spec_encode() == other.spec_encode()
    }

    fn decode(bytes: &[u8]) -> (r: Result<Block>) {
        proof {
            assert forall|v: Block| #[trigger] v.spec_encode() == bytes@ implies block_encodable(v@) by {
                lemma_block_encodable(v);
            }
        }
        match Block::decode(bytes) {
            Some(b) => Ok(b),
            None => Err(StorageError::corrupted("block", "the bytes do not decode as a block".to_owned())),
        }
    }
}

} // verus!
