//! Block headers and hashes as plain values, and the calls into the `bitcoin` crate that
//! hash them and read their proof-of-work fields.

use vstd::prelude::*;
use vstd::bytes::*;
use bitcoin::hashes::Hash as _;

use crate::chain_params::Chain;
use crate::pow::{lemma_from_value, two128, two256, U256};
use vstd::arithmetic::power2::pow2;

verus! {

broadcast use vstd::seq_lib::group_seq_properties;

/// A 32-byte hash in internal byte order, held as two little-endian halves: `lo` is bytes
/// 0..16, `hi` bytes 16..32. Read as a little-endian number it is `hi * 2^128 + lo`.
#[derive(Debug, Clone, Copy, PartialEq, Eq, Structural)]
pub struct Hash256 {
    pub lo: u128,
    pub hi: u128,
}

pub type BlockHash = Hash256;
pub type Txid = Hash256;

impl Hash256 {
    pub open spec fn spec_bytes(self) -> Seq<u8> {
        spec_u128_to_le_bytes(self.lo) + spec_u128_to_le_bytes(self.hi)
    }

    pub open spec fn spec_from_bytes(b: Seq<u8>) -> Hash256 {
        Hash256 {
            lo: spec_u128_from_le_bytes(b.subrange(0, 16)),
            hi: spec_u128_from_le_bytes(b.subrange(16, 32)),
        }
    }

    /// The key a hash is filed under in ordered maps.
    pub open spec fn spec_key(self) -> (u128, u128) {
        (self.hi, self.lo)
    }

    /// All zeros, which the protocol uses for "no block".
    pub fn zero() -> (r: Hash256)
        ensures
            r == (Hash256 { lo: 0, hi: 0 }),
    {
        Hash256 { lo: 0, hi: 0 }
    }

    pub fn key(&self) -> (r: (u128, u128))
        ensures
            r == self.spec_key(),
    {
        (self.hi, self.lo)
    }

    /// The hash read as a little-endian 256-bit number, as proof of work compares it.
    pub open spec fn spec_number(self) -> U256 {
        U256 { hi: self.hi, lo: self.lo }
    }

    /// The hash read as a little-endian 256-bit number, as proof of work compares it.
    pub fn as_number(&self) -> (r: U256)
        ensures
            r == (U256 { hi: self.hi, lo: self.lo }),
    {
        U256 { hi: self.hi, lo: self.lo }
    }

    pub fn to_bytes(&self) -> (r: Vec<u8>)
        ensures
            r@ == self.spec_bytes(),
            r@.len() == 32,
    {
        let mut out = u128_to_le_bytes(self.lo);
        let hi = u128_to_le_bytes(self.hi);
        out.extend_from_slice(hi.as_slice());
        out
    }

    pub fn from_slice(b: &[u8]) -> (r: Hash256)
        requires
            b@.len() == 32,
        ensures
            r == Hash256::spec_from_bytes(b@),
    {
        let lo = u128_from_le_bytes(vstd::slice::slice_subrange(b, 0, 16));
        let hi = u128_from_le_bytes(vstd::slice::slice_subrange(b, 16, 32));
        Hash256 { lo, hi }
    }
}

/// Bytes of a hash read back give the hash, and 32 bytes read as a hash give the bytes back.
pub proof fn lemma_hash_bytes(h: Hash256, b: Seq<u8>)
    ensures
        Hash256::spec_from_bytes(h.spec_bytes()) == h,
        h.spec_bytes().len() == 32,
        b.len() == 32 ==> Hash256::spec_from_bytes(b).spec_bytes() == b,
{
    lemma_auto_spec_u128_to_from_le_bytes();
    let s = h.spec_bytes();
    assert(s.subrange(0, 16) =~= spec_u128_to_le_bytes(h.lo));
    assert(s.subrange(16, 32) =~= spec_u128_to_le_bytes(h.hi));
    if b.len() == 32 {
        assert(b =~= b.subrange(0, 16) + b.subrange(16, 32));
    }
}

/// Distinct hashes are filed under distinct keys.
pub proof fn lemma_key_injective(a: Hash256, b: Hash256)
    ensures
        a.spec_key() == b.spec_key() <==> a == b,
{
}

/// A block header: the 80 bytes a block's hash is computed over.
#[derive(Debug, Clone, Copy, PartialEq, Eq, Structural)]
pub struct Header {
    /// Block version, now repurposed for soft fork signalling.
    pub version: i32,
    /// Hash of the previous block.
    pub prev_blockhash: BlockHash,
    /// Root of the merkle tree of the block's transactions.
    pub merkle_root: Hash256,
    /// Timestamp claimed by the miner.
    pub time: u32,
    /// The target in compact form.
    pub bits: u32,
    pub nonce: u32,
}

/// Size of an encoded header.
pub const HEADER_SIZE: usize = 80;

/// Consensus encoding of a header: version, previous hash, merkle root, time, bits, nonce,
/// integers little-endian.
pub open spec fn spec_encode_header(h: Header) -> Seq<u8> {
    spec_u32_to_le_bytes(h.version as u32) + h.prev_blockhash.spec_bytes()
        + h.merkle_root.spec_bytes() + spec_u32_to_le_bytes(h.time)
        + spec_u32_to_le_bytes(h.bits) + spec_u32_to_le_bytes(h.nonce)
}

/// Reading 80 bytes as a header. Every 80-byte string is some header.
pub open spec fn spec_decode_header(b: Seq<u8>) -> Header {
    Header {
        version: spec_u32_from_le_bytes(b.subrange(0, 4)) as i32,
        prev_blockhash: Hash256::spec_from_bytes(b.subrange(4, 36)),
        merkle_root: Hash256::spec_from_bytes(b.subrange(36, 68)),
        time: spec_u32_from_le_bytes(b.subrange(68, 72)),
        bits: spec_u32_from_le_bytes(b.subrange(72, 76)),
        nonce: spec_u32_from_le_bytes(b.subrange(76, 80)),
    }
}

pub proof fn lemma_header_roundtrip(h: Header)
    ensures
        spec_encode_header(h).len() == 80,
        spec_decode_header(spec_encode_header(h)) == h,
{
    lemma_auto_spec_u32_to_from_le_bytes();
    lemma_hash_bytes(h.prev_blockhash, Seq::empty());
    lemma_hash_bytes(h.merkle_root, Seq::empty());
    let b = spec_encode_header(h);
    assert(b.subrange(0, 4) =~= spec_u32_to_le_bytes(h.version as u32));
    assert(b.subrange(4, 36) =~= h.prev_blockhash.spec_bytes());
    assert(b.subrange(36, 68) =~= h.merkle_root.spec_bytes());
    assert(b.subrange(68, 72) =~= spec_u32_to_le_bytes(h.time));
    assert(b.subrange(72, 76) =~= spec_u32_to_le_bytes(h.bits));
    assert(b.subrange(76, 80) =~= spec_u32_to_le_bytes(h.nonce));
    let v = h.version;
    assert(((v as u32) as i32) == v) by (bit_vector);
}

/// Any 80 bytes read as a header encode back to themselves.
pub proof fn lemma_header_decode_encode(b: Seq<u8>)
    requires
        b.len() == 80,
    ensures
        spec_encode_header(spec_decode_header(b)) == b,
{
    lemma_auto_spec_u32_to_from_le_bytes();
    lemma_hash_bytes(Hash256 { lo: 0, hi: 0 }, b.subrange(4, 36));
    lemma_hash_bytes(Hash256 { lo: 0, hi: 0 }, b.subrange(36, 68));
    let h = spec_decode_header(b);
    let v = spec_u32_from_le_bytes(b.subrange(0, 4));
    assert(((v as i32) as u32) == v) by (bit_vector);
    assert(spec_encode_header(h) =~= b.subrange(0, 4) + b.subrange(4, 36) + b.subrange(36, 68)
        + b.subrange(68, 72) + b.subrange(72, 76) + b.subrange(76, 80));
    assert(b =~= b.subrange(0, 4) + b.subrange(4, 36) + b.subrange(36, 68) + b.subrange(68, 72)
        + b.subrange(72, 76) + b.subrange(76, 80));
}

impl Header {
    pub fn encode(&self) -> (r: Vec<u8>)
        ensures
            r@ == spec_encode_header(*self),
            r@.len() == 80,
    {
        proof { lemma_header_roundtrip(*self); }
        let mut out = u32_to_le_bytes(self.version as u32);
        let prev = self.prev_blockhash.to_bytes();
        out.extend_from_slice(prev.as_slice());
        let merkle = self.merkle_root.to_bytes();
        out.extend_from_slice(merkle.as_slice());
        let time = u32_to_le_bytes(self.time);
        out.extend_from_slice(time.as_slice());
        let bits = u32_to_le_bytes(self.bits);
        out.extend_from_slice(bits.as_slice());
        let nonce = u32_to_le_bytes(self.nonce);
        out.extend_from_slice(nonce.as_slice());
        out
    }

    pub fn decode(b: &[u8]) -> (r: Header)
        requires
            b@.len() == 80,
        ensures
            r == spec_decode_header(b@),
    {
        Header {
            version: u32_from_le_bytes(vstd::slice::slice_subrange(b, 0, 4)) as i32,
            prev_blockhash: Hash256::from_slice(vstd::slice::slice_subrange(b, 4, 36)),
            merkle_root: Hash256::from_slice(vstd::slice::slice_subrange(b, 36, 68)),
            time: u32_from_le_bytes(vstd::slice::slice_subrange(b, 68, 72)),
            bits: u32_from_le_bytes(vstd::slice::slice_subrange(b, 72, 76)),
            nonce: u32_from_le_bytes(vstd::slice::slice_subrange(b, 76, 80)),
        }
    }

    /// The block hash: double SHA-256 of the encoded header, as `bitcoin`'s
    /// `Header::block_hash` computes it.
    pub fn block_hash(&self) -> (r: BlockHash)
        ensures
            r == spec_block_hash(*self),
    {
        let bytes = self.encode();
        let digest = sha256d(bytes.as_slice());
        Hash256::from_slice(digest.as_slice())
    }

    /// The target this header claims, decoded from its compact `bits`.
    pub fn target(&self) -> (r: U256)
        ensures
            r == spec_target(self.bits),
    {
        let b = target_be_bytes(self.bits);
        let r = U256::from_be_bytes(b.as_slice());
        proof {
            lemma_target_values_fit(self.bits);
            vstd::arithmetic::div_mod::lemma_small_mod(compact_target_value(self.bits), two256());
            lemma_from_value(compact_target_value(self.bits), r);
        }
        r
    }

    /// The work a block with this header represents.
    pub fn work(&self) -> (r: U256)
        ensures
            r == spec_work(self.bits),
    {
        let b = work_be_bytes(self.bits);
        let r = U256::from_be_bytes(b.as_slice());
        proof {
            lemma_target_values_fit(self.bits);
            vstd::arithmetic::div_mod::lemma_small_mod(target_work_value(compact_target_value(self.bits)), two256());
            lemma_from_value(target_work_value(compact_target_value(self.bits)), r);
        }
        r
    }
}

pub open spec fn spec_block_hash(h: Header) -> BlockHash {
    Hash256::spec_from_bytes(spec_sha256d(spec_encode_header(h)))
}

/// The target compact `bits` decode to: a 24-bit mantissa times 256 to the power of the top
/// byte less 3, where a top byte of 3 or less shifts the mantissa right instead. A mantissa
/// with its sign bit set decodes to zero; the shift takes its count modulo 256 and drops what
/// passes the 256th bit.
pub open spec fn compact_target_value(bits: u32) -> nat {
    let e = (bits >> 24u32) as nat;
    let m = (bits & 0xff_ffffu32) as nat;
    let (mant, shift) = if e <= 3 {
        (m / pow2((8 * (3 - e)) as nat), 0nat)
    } else {
        (m, (8 * (e - 3)) as nat)
    };
    if mant > 0x7f_ffff {
        0
    } else {
        (mant * pow2(shift % 256)) % two256()
    }
}

/// The work of a target: 2^256 over one more than the target, except that a target of 0 or 1
/// has the largest work, `2^256 - 1`.
pub open spec fn target_work_value(target: nat) -> nat {
    if target <= 1 {
        (two256() - 1) as nat
    } else {
        two256() / (target + 1)
    }
}

/// A decoded target and its work both fit in 256 bits.
pub proof fn lemma_target_values_fit(bits: u32)
    ensures
        compact_target_value(bits) < two256(),
        target_work_value(compact_target_value(bits)) < two256(),
{
    let t = compact_target_value(bits);
    assert(two256() > 0) by {
        assert(two128() > 0);
        vstd::arithmetic::mul::lemma_mul_strictly_positive(two128() as int, two128() as int);
    }
    let e = (bits >> 24u32) as nat;
    let m = (bits & 0xff_ffffu32) as nat;
    let (mant, shift) = if e <= 3 {
        (m / pow2((8 * (3 - e)) as nat), 0nat)
    } else {
        (m, (8 * (e - 3)) as nat)
    };
    if mant <= 0x7f_ffff {
        vstd::arithmetic::div_mod::lemma_mod_pos_bound((mant * pow2(shift % 256)) as int, two256() as int);
    }
    if t > 1 {
        vstd::arithmetic::div_mod::lemma_div_is_strictly_smaller(two256() as int, (t + 1) as int);
    }
}

pub open spec fn spec_target(bits: u32) -> U256 {
    U256::spec_from_value(compact_target_value(bits))
}

pub open spec fn spec_work(bits: u32) -> U256 {
    U256::spec_from_value(target_work_value(compact_target_value(bits)))
}

/// Double SHA-256 of a byte string.
pub uninterp spec fn spec_sha256d(data: Seq<u8>) -> Seq<u8>;




/// `bitcoin::hashes::sha256d::Hash::hash`: double SHA-256, which is 32 bytes long. The
/// digest itself is left to the name `spec_sha256d`.
#[verifier::external_body]
pub(crate) fn sha256d(data: &[u8]) -> (r: Vec<u8>)
    ensures
        r@ == spec_sha256d(data@),
        r@.len() == 32,
{
    bitcoin::hashes::sha256d::Hash::hash(data).to_byte_array().to_vec()
}

/// `bitcoin::pow::Target::from_compact`, as big-endian bytes (`Target::to_be_bytes`, 32 of
/// them): the value `compact_target_value` states, as `from_compact` and `U256`'s wrapping
/// left shift compute it.
#[verifier::external_body]
fn target_be_bytes(bits: u32) -> (r: Vec<u8>)
    ensures
        r@.len() == 32,
        U256::spec_from_be_bytes(r@).value() == compact_target_value(bits),
{
    let compact = bitcoin::CompactTarget::from_consensus(bits);
    bitcoin::pow::Target::from_compact(compact).to_be_bytes().to_vec()
}

/// `bitcoin::pow::Target::to_work` of the target that `bits` decode to, as big-endian bytes
/// (`Work::to_be_bytes`, 32 of them): `U256::inverse` of the target, which is
/// `!t / (t + 1) + 1`, that is 2^256 over `t + 1`, with 0 and 1 sent to the largest value.
#[verifier::external_body]
fn work_be_bytes(bits: u32) -> (r: Vec<u8>)
    ensures
        r@.len() == 32,
        U256::spec_from_be_bytes(r@).value() == target_work_value(compact_target_value(bits)),
{
    let compact = bitcoin::CompactTarget::from_consensus(bits);
    bitcoin::pow::Target::from_compact(compact).to_work().to_be_bytes().to_vec()
}

/// `bitcoin::blockdata::constants::genesis_block(network).header`, consensus encoded: the
/// header `spec_genesis_header` gives for the chain, in 80 bytes.
#[verifier::external_body]
fn genesis_bytes(chain: Chain) -> (r: Vec<u8>)
    ensures
        r@ == spec_encode_header(spec_genesis_header(chain)),
        r@.len() == 80,
{
    let header = bitcoin::blockdata::constants::genesis_block(chain.network()).header;
    bitcoin::consensus::encode::serialize(&header)
}

/// `bitcoin::consensus::Params::new(network).max_attainable_target`, as big-endian bytes
/// (32 of them): the constant `spec_max_target` gives for the chain.
#[verifier::external_body]
fn max_target_be_bytes(chain: Chain) -> (r: Vec<u8>)
    ensures
        r@.len() == 32,
        U256::spec_from_be_bytes(r@) == spec_max_target(chain),
{
    bitcoin::consensus::Params::new(chain.network()).max_attainable_target.to_be_bytes().to_vec()
}

/// The merkle root of the genesis block on main, signet and regtest: the txid of the coinbase
/// that pays 50 coins to Satoshi's key ("The Times 03/Jan/2009 ...").
pub open spec fn genesis_merkle_root() -> Hash256 {
    Hash256 { lo: 0x618f_7667_3e2c_c77a_b212_7b7a_fded_a33bu128, hi: 0x4a5e_1e4b_aab8_9f3a_3251_8a88_c31b_c87fu128 }
}

/// The merkle root of the testnet4 genesis block, whose coinbase quotes block 840000's hash.
pub open spec fn testnet4_genesis_merkle_root() -> Hash256 {
    Hash256 { lo: 0xb718_e42a_af93_06db_9102_fe28_912b_7b4eu128, hi: 0x7aa0_a7ae_1e22_3414_cb80_7e40_cd57_e667u128 }
}

/// The genesis header of a chain: version 1, no parent, the genesis coinbase's txid as merkle
/// root, and the chain's time, bits and nonce.
pub open spec fn spec_genesis_header(chain: Chain) -> Header {
    let zero = Hash256 { lo: 0, hi: 0 };
    match chain {
        Chain::Main => Header {
            version: 1,
            prev_blockhash: zero,
            merkle_root: genesis_merkle_root(),
            time: 1231006505,
            bits: 0x1d00_ffff,
            nonce: 2083236893,
        },
        Chain::Testnet4 => Header {
            version: 1,
            prev_blockhash: zero,
            merkle_root: testnet4_genesis_merkle_root(),
            time: 1714777860,
            bits: 0x1d00_ffff,
            nonce: 393743547,
        },
        Chain::Signet => Header {
            version: 1,
            prev_blockhash: zero,
            merkle_root: genesis_merkle_root(),
            time: 1598918400,
            bits: 0x1e03_77ae,
            nonce: 52613770,
        },
        Chain::Regtest => Header {
            version: 1,
            prev_blockhash: zero,
            merkle_root: genesis_merkle_root(),
            time: 1296688602,
            bits: 0x207f_ffff,
            nonce: 2,
        },
    }
}

pub fn genesis_header(chain: Chain) -> (r: Header)
    ensures
        r == spec_genesis_header(chain),
{
    let b = genesis_bytes(chain);
    proof {
        lemma_header_roundtrip(spec_genesis_header(chain));
    }
    Header::decode(b.as_slice())
}

/// The easiest target a chain allows: `0xffff << 208` on main and testnet4,
/// `0x0377ae00 << 208` on signet, `0x7fffff00 << 224` on regtest.
pub open spec fn spec_max_target(chain: Chain) -> U256 {
    match chain {
        Chain::Main | Chain::Testnet4 => U256 { hi: 0xffff_0000_0000_0000_0000_0000u128, lo: 0 },
        Chain::Signet => U256 { hi: 0x0377_ae00_0000_0000_0000_0000_0000u128, lo: 0 },
        Chain::Regtest => U256 { hi: 0x7fff_ff00_0000_0000_0000_0000_0000_0000u128, lo: 0 },
    }
}

pub fn max_target(chain: Chain) -> (r: U256)
    ensures
        r == spec_max_target(chain),
{
    let b = max_target_be_bytes(chain);
    U256::from_be_bytes(b.as_slice())
}

} // verus!
