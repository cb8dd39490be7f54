//! What a table is, and the codecs its keys and values use.

use vstd::prelude::*;

use crate::bytes::bytes_lt;

use crate::storage::error::Result;

verus! {

/// How a table's data is used. An engine may turn this into storage settings, or ignore it.
#[derive(Debug, Clone, Copy, PartialEq, Eq, Structural)]
pub enum Profile {
    /// Small values, read in ranges as often as by key.
    Sequential,
    /// Small values looked up by key, often for keys that are absent.
    PointLookup,
    /// Large values, where copying them around is the dominant cost.
    LargeValues,
}

/// A key, value or key prefix that can be written as bytes.
pub trait Encode {
    /// The bytes this value is written as.
    spec fn spec_encode(&self) -> Seq<u8>;

    /// Whether the value can be written: its lengths fit the fields that record them.
    spec fn encodable(&self) -> bool;

    fn encode(&self) -> (r: Vec<u8>)
        requires
            self.encodable(),
        ensures
            r@ == self.spec_encode(),
    ;
}

/// A value that can be read back from bytes.
pub trait Decode: Encode + Sized {
    /// Whether two values read back alike: what a read gives back of a write is the same as
    /// what was written.
    spec fn spec_same(&self, other: &Self) -> bool;

    /// Decoding gives back a value that encodes to the bytes read. It fails, with `Corrupted`,
    /// only when no value that can be written encodes to them; what it reads is the same as
    /// each value that can be written and encodes to them.
    fn decode(bytes: &[u8]) -> (r: Result<Self>)
        ensures
            r is Ok ==> r->Ok_0.spec_encode() == bytes@ && r->Ok_0.encodable(),
            r is Err ==> r->Err_0 is Corrupted,
            forall|v: Self| v.encodable() && #[trigger] v.spec_encode() == bytes@ ==> r is Ok && r->Ok_0.spec_same(&v),
    ;
}

/// One table: its name, how it is used, and the types it stores.
pub trait Table {
    type Key: Encode;
    type Value: Encode + Decode;
    /// The leading part of a key a scan may select on. Tables that are never scanned by
    /// prefix use `()`, which selects the whole table.
    type Prefix: Encode;

    /// The table's name.
    spec fn spec_name() -> Seq<char>;

    fn name() -> (r: &'static str)
        ensures
            r@ == Self::spec_name(),
    ;

    /// How the table is used.
    spec fn spec_profile() -> Profile;

    fn profile() -> (r: Profile)
        ensures
            r == Self::spec_profile(),
    ;

    /// Distinct keys are written as distinct bytes, so a write to one key leaves the others
    /// alone.
    proof fn lemma_key_injective(a: Self::Key, b: Self::Key)
        ensures
            a.spec_encode() == b.spec_encode() ==> a == b,
    ;
}

/// An empty prefix matches every key, so `()` scans a whole table.
impl Encode for () {
    open spec fn spec_encode(&self) -> Seq<u8> {
        Seq::empty()
    }

    open spec fn encodable(&self) -> bool {
        true
    }

    fn encode(&self) -> (r: Vec<u8>) {
        Vec::new()
    }
}

/// The four bytes of a number, most significant first.
pub open spec fn be_bytes(x: u32) -> Seq<u8> {
    seq![(x >> 24u32) as u8, (x >> 16u32) as u8, (x >> 8u32) as u8, x as u8]
}

/// Heights are big-endian so that a scan walks the chain in order.
impl Encode for u32 {
    open spec fn spec_encode(&self) -> Seq<u8> {
        be_bytes(*self)
    }

    open spec fn encodable(&self) -> bool {
        true
    }

    fn encode(&self) -> (r: Vec<u8>) {
        let x = *self;
        let r = vec![
            #[verifier::truncate] ((x >> 24u32) as u8),
            #[verifier::truncate] ((x >> 16u32) as u8),
            #[verifier::truncate] ((x >> 8u32) as u8),
            #[verifier::truncate] (x as u8),
        ];
        assert(r@ =~= be_bytes(x));
        r
    }
}

/// Big-endian bytes of two heights are equal only for equal heights.
pub proof fn lemma_u32_be_injective(a: u32, b: u32)
    ensures
        a.spec_encode() == b.spec_encode() ==> a == b,
{
    if a.spec_encode() == b.spec_encode() {
        assert(be_bytes(a)[0] == be_bytes(b)[0] && be_bytes(a)[1] == be_bytes(b)[1] && be_bytes(a)[2]
            == be_bytes(b)[2] && be_bytes(a)[3] == be_bytes(b)[3]);
        assert(((a >> 24u32) as u8 == (b >> 24u32) as u8 && (a >> 16u32) as u8 == (b >> 16u32) as u8 && (a
            >> 8u32) as u8 == (b >> 8u32) as u8 && a as u8 == b as u8) ==> a == b) by (bit_vector);
    }
}

/// Heights sort as their keys do, so a scan of the height index walks the chain in order.
pub proof fn lemma_u32_be_order(a: u32, b: u32)
    ensures
        a < b <==> bytes_lt(a.spec_encode(), b.spec_encode()),
{
    let ea = be_bytes(a);
    let eb = be_bytes(b);
    reveal_with_fuel(bytes_lt, 5);
    assert(ea.drop_first() =~= seq![(a >> 16u32) as u8, (a >> 8u32) as u8, a as u8]);
    assert(eb.drop_first() =~= seq![(b >> 16u32) as u8, (b >> 8u32) as u8, b as u8]);
    assert(ea.drop_first().drop_first() =~= seq![(a >> 8u32) as u8, a as u8]);
    assert(eb.drop_first().drop_first() =~= seq![(b >> 8u32) as u8, b as u8]);
    assert(ea.drop_first().drop_first().drop_first() =~= seq![a as u8]);
    assert(eb.drop_first().drop_first().drop_first() =~= seq![b as u8]);
    assert(ea.drop_first().drop_first().drop_first().drop_first() =~= Seq::<u8>::empty());
    assert(eb.drop_first().drop_first().drop_first().drop_first() =~= Seq::<u8>::empty());
    assert((a as u64) == ((a >> 24u32) as u8) as u64 * 0x100_0000u64 + ((a >> 16u32) as u8) as u64 * 0x1_0000u64
        + ((a >> 8u32) as u8) as u64 * 0x100u64 + (a as u8) as u64) by (bit_vector);
    assert((b as u64) == ((b >> 24u32) as u8) as u64 * 0x100_0000u64 + ((b >> 16u32) as u8) as u64 * 0x1_0000u64
        + ((b >> 8u32) as u8) as u64 * 0x100u64 + (b as u8) as u64) by (bit_vector);
}

} // verus!
