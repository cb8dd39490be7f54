//! Coins, the unspent outputs the chainstate holds, and the undo data a block leaves behind.

use vstd::prelude::*;
use vstd::bytes::*;

use crate::encoding::{
    compact_size, concat, lemma_compact_size_len, lemma_compact_size_prefix, lemma_concat_take_prefix, var_bytes,
    write_u32,
};
use crate::transaction::{read_txout, spec_txout_bytes, TxOut, TxOutView};
use super::error::{Result, StorageError};

verus! {

broadcast use vstd::seq_lib::group_seq_properties;

/// Bitcoin Core `MAX_SCRIPT_SIZE`.
pub const MAX_SCRIPT_SIZE: usize = 10_000;

/// An unspent transaction output together with the context needed to spend it.
///
/// `height` and `is_coinbase` are required for coinbase maturity and BIP68 relative locks.
#[derive(Debug, Clone, PartialEq, Eq)]
pub struct Coin {
    pub output: TxOut,
    pub height: u32,
    pub is_coinbase: bool,
}

pub struct CoinView {
    pub output: TxOutView,
    pub height: u32,
    pub is_coinbase: bool,
}

impl View for Coin {
    type V = CoinView;

    open spec fn view(&self) -> CoinView {
        CoinView { output: self.output@, height: self.height, is_coinbase: self.is_coinbase }
    }
}

/// The packed `height << 1 | is_coinbase` code at the start of a stored coin. A height from
/// 2^31 on loses its top bit.
pub open spec fn coin_code(height: u32, is_coinbase: bool) -> u32 {
    (height << 1u32) | (if is_coinbase { 1u32 } else { 0u32 })
}

/// Layout: the code as u32 LE, then the consensus-encoded output.
pub open spec fn spec_coin_bytes(c: CoinView) -> Seq<u8> {
    spec_u32_to_le_bytes(coin_code(c.height, c.is_coinbase)) + spec_txout_bytes(c.output)
}

/// Whether an output can never be spent: its script starts with `OP_RETURN` or is longer
/// than `MAX_SCRIPT_SIZE`. Mirrors Bitcoin Core `CScript::IsUnspendable`.
pub open spec fn spec_is_unspendable(o: TxOutView) -> bool {
    (o.script_pubkey.len() > 0 && o.script_pubkey[0] == 0x6a) || o.script_pubkey.len() > MAX_SCRIPT_SIZE
}

/// An output whose script begins with `OP_RETURN` (0x6a), whatever follows it, can never be
/// spent; nor can one whose script is longer than `MAX_SCRIPT_SIZE`. An output that is
/// neither can be.
pub proof fn lemma_op_return_unspendable(o: TxOutView)
    ensures
        o.script_pubkey.len() >= 1 && o.script_pubkey[0] == 0x6a ==> spec_is_unspendable(o),
        o.script_pubkey.len() > 10_000 ==> spec_is_unspendable(o),
        spec_is_unspendable(o) ==> o.script_pubkey.len() > 10_000 || o.script_pubkey.first() == 0x6a,
{
}

/// A height below 2^31 and a flag survive packing into a code and back.
pub proof fn lemma_code(height: u32, is_coinbase: bool)
    ensures
        coin_code(height, is_coinbase) >> 1u32 == height % 0x8000_0000,
        (coin_code(height, is_coinbase) & 1u32 == 1u32) == is_coinbase,
{
    let h = height;
    if is_coinbase {
        assert(((h << 1u32) | 1u32) >> 1u32 == h % 0x8000_0000 && ((h << 1u32) | 1u32) & 1u32 == 1u32) by (bit_vector);
    } else {
        assert(((h << 1u32) | 0u32) >> 1u32 == h % 0x8000_0000 && ((h << 1u32) | 0u32) & 1u32 != 1u32) by (bit_vector);
    }
}

/// A code split into its height and flag packs back into itself.
pub proof fn lemma_code_split(code: u32)
    ensures
        coin_code(code >> 1u32, code & 1u32 == 1u32) == code,
        code >> 1u32 < 0x8000_0000,
{
    let c = code;
    if c & 1u32 == 1u32 {
        assert(c & 1u32 == 1u32 ==> ((c >> 1u32) << 1u32) | 1u32 == c) by (bit_vector);
    } else {
        assert(c & 1u32 != 1u32 ==> ((c >> 1u32) << 1u32) | 0u32 == c) by (bit_vector);
    }
    assert(c >> 1u32 < 0x8000_0000) by (bit_vector);
}

/// Two outputs encoded at the same place are the same output.
pub proof fn lemma_txout_prefix_unique(b: Seq<u8>, pos: int, o1: TxOutView, o2: TxOutView)
    requires
        0 <= pos,
        o1.script_pubkey.len() <= u64::MAX,
        o2.script_pubkey.len() <= u64::MAX,
        pos + spec_txout_bytes(o1).len() <= b.len(),
        b.subrange(pos, pos + spec_txout_bytes(o1).len()) == spec_txout_bytes(o1),
        pos + spec_txout_bytes(o2).len() <= b.len(),
        b.subrange(pos, pos + spec_txout_bytes(o2).len()) == spec_txout_bytes(o2),
    ensures
        o1 == o2,
{
    lemma_auto_spec_u64_to_from_le_bytes();
    let e1 = spec_txout_bytes(o1);
    let e2 = spec_txout_bytes(o2);
    let n1 = o1.script_pubkey.len();
    let n2 = o2.script_pubkey.len();
    let c1 = compact_size(n1);
    let c2 = compact_size(n2);
    lemma_compact_size_len(n1);
    lemma_compact_size_len(n2);
    assert(b.subrange(pos, pos + 8) =~= e1.subrange(0, 8));
    assert(b.subrange(pos, pos + 8) =~= e2.subrange(0, 8));
    assert(e1.subrange(0, 8) =~= spec_u64_to_le_bytes(o1.amount));
    assert(e2.subrange(0, 8) =~= spec_u64_to_le_bytes(o2.amount));
    assert(b.subrange(pos + 8, pos + 8 + c1.len()) =~= e1.subrange(8, 8 + c1.len() as int));
    assert(e1.subrange(8, 8 + c1.len() as int) =~= c1);
    assert(b.subrange(pos + 8, pos + 8 + c2.len()) =~= e2.subrange(8, 8 + c2.len() as int));
    assert(e2.subrange(8, 8 + c2.len() as int) =~= c2);
    lemma_compact_size_prefix(b, pos + 8, n1, n2);
    assert(o1.script_pubkey =~= e1.subrange(8 + c1.len() as int, e1.len() as int));
    assert(o2.script_pubkey =~= e2.subrange(8 + c2.len() as int, e2.len() as int));
    assert(e1.subrange(8 + c1.len() as int, e1.len() as int) =~= b.subrange(pos + 8 + c1.len(), pos + e1.len()));
    assert(e2.subrange(8 + c2.len() as int, e2.len() as int) =~= b.subrange(pos + 8 + c2.len(), pos + e2.len()));
}

/// Reads an output that fills `bytes[pos..]` exactly: `None` when the bytes there do not
/// encode one output.
fn decode_output(bytes: &[u8], pos: usize) -> (r: Option<TxOut>)
    ensures
        match r {
            Some(o) => pos <= bytes@.len() && bytes@.subrange(pos as int, bytes@.len() as int)
                == spec_txout_bytes(o@) && o@.script_pubkey.len() <= u64::MAX,
            None => forall|o: TxOutView|
                pos <= bytes@.len() && o.script_pubkey.len() <= u64::MAX ==> #[trigger] spec_txout_bytes(o)
                    != bytes@.subrange(pos as int, bytes@.len() as int),
        },
{
    match read_txout(bytes, pos) {
        Some((o, end)) => {
            if end == bytes.len() {
                Some(o)
            } else {
                proof {
                    assert forall|o2: TxOutView|
                        pos <= bytes@.len() && o2.script_pubkey.len() <= u64::MAX implies #[trigger] spec_txout_bytes(o2)
                            != bytes@.subrange(pos as int, bytes@.len() as int) by {
                        if spec_txout_bytes(o2) == bytes@.subrange(pos as int, bytes@.len() as int) {
                            assert(bytes@.subrange(pos as int, pos + spec_txout_bytes(o2).len()) =~= spec_txout_bytes(o2));
                            lemma_txout_prefix_unique(bytes@, pos as int, o@, o2);
                        }
                    }
                }
                None
            }
        },
        None => {
            proof {
                assert forall|o2: TxOutView|
                    pos <= bytes@.len() && o2.script_pubkey.len() <= u64::MAX implies #[trigger] spec_txout_bytes(o2)
                        != bytes@.subrange(pos as int, bytes@.len() as int) by {
                    if spec_txout_bytes(o2) == bytes@.subrange(pos as int, bytes@.len() as int) {
                        assert(bytes@.subrange(pos as int, pos + spec_txout_bytes(o2).len()) =~= spec_txout_bytes(o2));
                    }
                }
            }
            None
        },
    }
}

impl Coin {
    /// Outputs that can never be spent do not enter the coin set.
    pub fn is_unspendable(output: &TxOut) -> (r: bool)
        ensures
            r == spec_is_unspendable(output@),
    {
        (output.script_pubkey.len() > 0 && output.script_pubkey[0] == 0x6a)
            || output.script_pubkey.len() > MAX_SCRIPT_SIZE
    }

    /// Layout: `height << 1 | is_coinbase` as u32 LE, then the encoded output.
    pub fn to_bytes(&self) -> (r: Vec<u8>)
        ensures
            r@ == spec_coin_bytes(self@),
    {
        let code: u32 = (self.height << 1u32) | (if self.is_coinbase { 1u32 } else { 0u32 });
        let mut bytes: Vec<u8> = Vec::new();
        write_u32(&mut bytes, code);
        self.output.write(&mut bytes);
        proof {
            assert(bytes@ =~= spec_coin_bytes(self@));
        }
        bytes
    }

    /// Fails, with a `Corrupted` error, exactly when the bytes do not encode a coin.
    pub fn from_bytes(bytes: &[u8]) -> (r: Result<Coin>)
        ensures
            r is Ok ==> spec_coin_bytes(r->Ok_0@) == bytes@ && r->Ok_0@.height < 0x8000_0000,
            forall|c: CoinView|
                c.height < 0x8000_0000 && c.output.script_pubkey.len() <= u64::MAX
                    && #[trigger] spec_coin_bytes(c) == bytes@ ==> r is Ok && r->Ok_0@ == c,
            r is Err ==> r->Err_0 is Corrupted,
    {
        proof {
            lemma_auto_spec_u32_to_from_le_bytes();
        }
        if bytes.len() < 4 {
            return Err(StorageError::corrupted("coin", "shorter than its height code".to_owned()));
        }
        let code = u32_from_le_bytes(vstd::slice::slice_subrange(bytes, 0, 4));
        proof {
            lemma_code_split(code);
        }
        match decode_output(bytes, 4) {
            Some(output) => {
                let coin = Coin { output, height: code >> 1u32, is_coinbase: code & 1u32 == 1u32 };
                proof {
                    assert(bytes@ =~= bytes@.subrange(0, 4) + bytes@.subrange(4, bytes@.len() as int));
                    assert forall|c: CoinView|
                        c.height < 0x8000_0000 && c.output.script_pubkey.len() <= u64::MAX
                            && #[trigger] spec_coin_bytes(c) == bytes@ implies coin@ == c by {
                        lemma_code(c.height, c.is_coinbase);
                        let e = spec_coin_bytes(c);
                        assert(e.subrange(0, 4) =~= spec_u32_to_le_bytes(coin_code(c.height, c.is_coinbase)));
                        assert(e.subrange(4, e.len() as int) =~= spec_txout_bytes(c.output));
                        assert(bytes@.subrange(4, 4 + spec_txout_bytes(output@).len() as int) =~= spec_txout_bytes(output@));
                        assert(bytes@.subrange(4, 4 + spec_txout_bytes(c.output).len() as int) =~= spec_txout_bytes(c.output));
                        lemma_txout_prefix_unique(bytes@, 4, output@, c.output);
                    }
                }
                Ok(coin)
            },
            None => {
                proof {
                    assert forall|c: CoinView|
                        !(c.height < 0x8000_0000 && c.output.script_pubkey.len() <= u64::MAX
                            && #[trigger] spec_coin_bytes(c) == bytes@) by {
                        if c.height < 0x8000_0000 && c.output.script_pubkey.len() <= u64::MAX
                            && spec_coin_bytes(c) == bytes@ {
                            let e = spec_coin_bytes(c);
                            assert(e.subrange(4, e.len() as int) =~= spec_txout_bytes(c.output));
                        }
                    }
                }
                Err(StorageError::corrupted("coin", "the output does not decode".to_owned()))
            },
        }
    }

    pub fn copy(&self) -> (r: Coin)
        ensures
            r@ == self@,
    {
        Coin { output: self.output.copy(), height: self.height, is_coinbase: self.is_coinbase }
    }
}

/// Coins spent by a block, in the order of its non-coinbase inputs.
///
/// Outpoints are not stored: they are recovered from the block's inputs, as Bitcoin Core does.
#[derive(Debug, Clone, PartialEq, Eq, Default)]
pub struct BlockUndo(pub Vec<Coin>);

impl View for BlockUndo {
    type V = Seq<CoinView>;

    open spec fn view(&self) -> Seq<CoinView> {
        self.0@.map_values(|c: Coin| c@)
    }
}

/// One coin of undo data: its code, the length of its encoded output, and the output.
pub open spec fn spec_undo_coin_bytes(c: CoinView) -> Seq<u8> {
    spec_u32_to_le_bytes(coin_code(c.height, c.is_coinbase)) + spec_u32_to_le_bytes(
        spec_txout_bytes(c.output).len() as u32,
    ) + spec_txout_bytes(c.output)
}

/// Layout: coin count as u32 LE, then each coin.
pub open spec fn spec_undo_bytes(coins: Seq<CoinView>) -> Seq<u8> {
    spec_u32_to_le_bytes(coins.len() as u32) + concat(
        coins.map_values(|c: CoinView| spec_undo_coin_bytes(c)),
    )
}

/// Undo data can be written when its count and every output length fit in 32 bits.
pub open spec fn undo_encodable(coins: Seq<CoinView>) -> bool {
    &&& coins.len() <= u32::MAX
    &&& forall|i: int| 0 <= i < coins.len() ==> spec_txout_bytes(#[trigger] coins[i].output).len() <= u32::MAX
}

/// A coin the packed code keeps whole: its height is below 2^31. Its script's length fits a
/// compact size, as that of any script held in memory does.
pub open spec fn coin_storable(c: CoinView) -> bool {
    c.height < 0x8000_0000 && c.output.script_pubkey.len() <= u64::MAX
}

/// Undo data that reads back as itself: it can be written, and every coin's height is below
/// 2^31.
pub open spec fn undo_storable(coins: Seq<CoinView>) -> bool {
    &&& undo_encodable(coins)
    &&& forall|i: int| 0 <= i < coins.len() ==> (#[trigger] coins[i]).height < 0x8000_0000
}

/// Two storable coins with the same bytes are the same coin.
pub proof fn lemma_coin_bytes_injective(c1: CoinView, c2: CoinView)
    requires
        coin_storable(c1),
        coin_storable(c2),
        spec_coin_bytes(c1) == spec_coin_bytes(c2),
    ensures
        c1 == c2,
{
    lemma_auto_spec_u32_to_from_le_bytes();
    lemma_code(c1.height, c1.is_coinbase);
    lemma_code(c2.height, c2.is_coinbase);
    let b = spec_coin_bytes(c1);
    assert(b.subrange(0, 4) =~= spec_u32_to_le_bytes(coin_code(c1.height, c1.is_coinbase)));
    assert(spec_coin_bytes(c2).subrange(0, 4) =~= spec_u32_to_le_bytes(coin_code(c2.height, c2.is_coinbase)));
    assert(b.subrange(4, 4 + spec_txout_bytes(c1.output).len() as int) =~= spec_txout_bytes(c1.output));
    assert(spec_coin_bytes(c2).subrange(4, 4 + spec_txout_bytes(c2.output).len() as int) =~= spec_txout_bytes(c2.output));
    lemma_txout_prefix_unique(b, 4, c1.output, c2.output);
}

/// No coin's bytes are a proper prefix of another's: an encoding cut short or with bytes
/// added reads as no coin.
pub proof fn lemma_coin_bytes_prefix_free(c1: CoinView, c2: CoinView)
    requires
        c1.output.script_pubkey.len() <= u64::MAX,
        c2.output.script_pubkey.len() <= u64::MAX,
        spec_coin_bytes(c1).len() <= spec_coin_bytes(c2).len(),
        spec_coin_bytes(c2).subrange(0, spec_coin_bytes(c1).len() as int) == spec_coin_bytes(c1),
    ensures
        spec_coin_bytes(c1).len() == spec_coin_bytes(c2).len(),
{
    lemma_auto_spec_u32_to_from_le_bytes();
    let b = spec_coin_bytes(c2);
    let e1 = spec_coin_bytes(c1);
    let t1 = spec_txout_bytes(c1.output);
    let t2 = spec_txout_bytes(c2.output);
    assert(e1.subrange(4, e1.len() as int) =~= t1);
    assert(b.subrange(4, b.len() as int) =~= t2);
    assert(b.subrange(4, 4 + t1.len() as int) =~= e1.subrange(4, e1.len() as int));
    assert(b.subrange(4, 4 + t2.len() as int) =~= t2);
    lemma_txout_prefix_unique(b, 4, c1.output, c2.output);
}

/// Two storable undo data with the same bytes hold the same coins.
pub proof fn lemma_undo_bytes_injective(u1: Seq<CoinView>, u2: Seq<CoinView>)
    requires
        undo_storable(u1),
        undo_storable(u2),
        spec_undo_bytes(u1) == spec_undo_bytes(u2),
    ensures
        u1 == u2,
{
    lemma_undo_coins_unique(u1, u2);
    assert forall|i: int| 0 <= i < u1.len() implies #[trigger] u1[i] == u2[i] by {
        assert(spec_txout_bytes(u1[i].output).len() <= u32::MAX);
        assert(spec_txout_bytes(u2[i].output).len() <= u32::MAX);
        assert(u1[i].output.script_pubkey.len() <= spec_txout_bytes(u1[i].output).len());
        assert(u2[i].output.script_pubkey.len() <= spec_txout_bytes(u2[i].output).len());
        assert(spec_coin_bytes(u1[i]) == spec_coin_bytes(u2[i]));
        lemma_coin_bytes_injective(u1[i], u2[i]);
    }
    assert(u1 =~= u2);
}

/// A concatenation starts with its first part.
pub proof fn lemma_concat_first(parts: Seq<Seq<u8>>)
    requires
        parts.len() > 0,
    ensures
        concat(parts) == parts[0] + concat(parts.drop_first()),
    decreases parts.len(),
{
    if parts.len() == 1 {
        assert(parts.drop_first() =~= Seq::<Seq<u8>>::empty());
        assert(parts.drop_last() =~= Seq::<Seq<u8>>::empty());
        assert(concat(parts.drop_last()) =~= Seq::<u8>::empty());
        assert(concat(parts) =~= parts[0]);
        assert(parts[0] + concat(parts.drop_first()) =~= parts[0]);
    } else {
        lemma_concat_first(parts.drop_last());
        assert(parts.drop_last().drop_first() =~= parts.drop_first().drop_last());
        assert(parts.drop_last()[0] == parts[0]);
        assert(parts.drop_first().last() == parts.last());
        assert(concat(parts) =~= parts[0] + concat(parts.drop_first()));
    }
}

/// Undo coins laid end to end come apart one way only: each starts with its length.
proof fn lemma_undo_chunks_unique(u1: Seq<CoinView>, u2: Seq<CoinView>)
    requires
        u1.len() == u2.len(),
        undo_encodable(u1),
        undo_encodable(u2),
        concat(u1.map_values(|c: CoinView| spec_undo_coin_bytes(c))) == concat(
            u2.map_values(|c: CoinView| spec_undo_coin_bytes(c)),
        ),
    ensures
        forall|i: int| 0 <= i < u1.len() ==> spec_undo_coin_bytes(#[trigger] u1[i]) == spec_undo_coin_bytes(u2[i]),
    decreases u1.len(),
{
    if u1.len() > 0 {
        lemma_auto_spec_u32_to_from_le_bytes();
        let m1 = u1.map_values(|c: CoinView| spec_undo_coin_bytes(c));
        let m2 = u2.map_values(|c: CoinView| spec_undo_coin_bytes(c));
        lemma_concat_first(m1);
        lemma_concat_first(m2);
        let whole = concat(m1);
        let a = m1[0];
        let x = m2[0];
        let l1 = spec_txout_bytes(u1[0].output).len();
        let l2 = spec_txout_bytes(u2[0].output).len();
        assert(spec_txout_bytes(u1[0].output).len() <= u32::MAX);
        assert(spec_txout_bytes(u2[0].output).len() <= u32::MAX);
        assert(a.subrange(4, 8) =~= spec_u32_to_le_bytes(l1 as u32));
        assert(x.subrange(4, 8) =~= spec_u32_to_le_bytes(l2 as u32));
        assert(whole.subrange(4, 8) =~= a.subrange(4, 8));
        assert(whole.subrange(4, 8) =~= x.subrange(4, 8));
        assert(l1 == l2);
        assert(a.len() == x.len());
        assert(whole.subrange(0, a.len() as int) =~= a);
        assert(whole.subrange(0, x.len() as int) =~= x);
        assert(whole.subrange(a.len() as int, whole.len() as int) =~= concat(m1.drop_first()));
        assert(whole.subrange(x.len() as int, whole.len() as int) =~= concat(m2.drop_first()));
        let r1 = u1.drop_first();
        let r2 = u2.drop_first();
        assert(m1.drop_first() =~= r1.map_values(|c: CoinView| spec_undo_coin_bytes(c)));
        assert(m2.drop_first() =~= r2.map_values(|c: CoinView| spec_undo_coin_bytes(c)));
        assert forall|i: int| 0 <= i < r1.len() implies spec_txout_bytes(#[trigger] r1[i].output).len() <= u32::MAX by {
            assert(r1[i] == u1[i + 1]);
        }
        assert forall|i: int| 0 <= i < r2.len() implies spec_txout_bytes(#[trigger] r2[i].output).len() <= u32::MAX by {
            assert(r2[i] == u2[i + 1]);
        }
        lemma_undo_chunks_unique(r1, r2);
        assert forall|i: int| 0 <= i < u1.len() implies spec_undo_coin_bytes(#[trigger] u1[i]) == spec_undo_coin_bytes(u2[i]) by {
            if i > 0 {
                assert(r1[i - 1] == u1[i] && r2[i - 1] == u2[i]);
            }
        }
    }
}

/// Undo coins laid end to end are prefix-free: where one run of as many coins starts another,
/// they have the same length.
proof fn lemma_undo_chunks_prefix(u1: Seq<CoinView>, u2: Seq<CoinView>)
    requires
        u1.len() == u2.len(),
        undo_encodable(u1),
        undo_encodable(u2),
        concat(u1.map_values(|c: CoinView| spec_undo_coin_bytes(c))).len() <= concat(
            u2.map_values(|c: CoinView| spec_undo_coin_bytes(c)),
        ).len(),
        concat(u2.map_values(|c: CoinView| spec_undo_coin_bytes(c))).subrange(
            0,
            concat(u1.map_values(|c: CoinView| spec_undo_coin_bytes(c))).len() as int,
        ) == concat(u1.map_values(|c: CoinView| spec_undo_coin_bytes(c))),
    ensures
        concat(u1.map_values(|c: CoinView| spec_undo_coin_bytes(c))).len() == concat(
            u2.map_values(|c: CoinView| spec_undo_coin_bytes(c)),
        ).len(),
    decreases u1.len(),
{
    let m1 = u1.map_values(|c: CoinView| spec_undo_coin_bytes(c));
    let m2 = u2.map_values(|c: CoinView| spec_undo_coin_bytes(c));
    if u1.len() == 0 {
        assert(m1 =~= Seq::<Seq<u8>>::empty());
        assert(m2 =~= Seq::<Seq<u8>>::empty());
    } else {
        lemma_auto_spec_u32_to_from_le_bytes();
        lemma_concat_first(m1);
        lemma_concat_first(m2);
        let w1 = concat(m1);
        let w2 = concat(m2);
        let a = m1[0];
        let x = m2[0];
        let l1 = spec_txout_bytes(u1[0].output).len();
        let l2 = spec_txout_bytes(u2[0].output).len();
        assert(spec_txout_bytes(u1[0].output).len() <= u32::MAX);
        assert(spec_txout_bytes(u2[0].output).len() <= u32::MAX);
        assert(a.subrange(4, 8) =~= spec_u32_to_le_bytes(l1 as u32));
        assert(x.subrange(4, 8) =~= spec_u32_to_le_bytes(l2 as u32));
        assert(w1.subrange(4, 8) =~= a.subrange(4, 8));
        assert(w2.subrange(4, 8) =~= x.subrange(4, 8));
        assert(a.len() >= 8);
        assert(w1.subrange(0, a.len() as int) =~= a);
        assert(w1.subrange(4, 8) =~= w2.subrange(0, w1.len() as int).subrange(4, 8));
        assert(w2.subrange(0, w1.len() as int).subrange(4, 8) =~= w2.subrange(4, 8));
        assert(spec_u32_to_le_bytes(l1 as u32) == spec_u32_to_le_bytes(l2 as u32));
        assert(spec_u32_from_le_bytes(spec_u32_to_le_bytes(l1 as u32)) == l1 as u32);
        assert(spec_u32_from_le_bytes(spec_u32_to_le_bytes(l2 as u32)) == l2 as u32);
        assert(l1 == l2);
        assert(a.len() == x.len());
        let r1 = u1.drop_first();
        let r2 = u2.drop_first();
        assert(m1.drop_first() =~= r1.map_values(|c: CoinView| spec_undo_coin_bytes(c)));
        assert(m2.drop_first() =~= r2.map_values(|c: CoinView| spec_undo_coin_bytes(c)));
        assert(w1.subrange(a.len() as int, w1.len() as int) =~= concat(m1.drop_first()));
        assert(w2.subrange(x.len() as int, w2.len() as int) =~= concat(m2.drop_first()));
        let c1 = concat(m1.drop_first());
        let c2 = concat(m2.drop_first());
        assert(c2.subrange(0, c1.len() as int) =~= w2.subrange(0, w1.len() as int).subrange(a.len() as int, w1.len() as int));
        assert forall|i: int| 0 <= i < r1.len() implies spec_txout_bytes(#[trigger] r1[i].output).len() <= u32::MAX by {
            assert(r1[i] == u1[i + 1]);
        }
        assert forall|i: int| 0 <= i < r2.len() implies spec_txout_bytes(#[trigger] r2[i].output).len() <= u32::MAX by {
            assert(r2[i] == u2[i + 1]);
        }
        lemma_undo_chunks_prefix(r1, r2);
    }
}

/// No undo data's bytes are a proper prefix of another's: undo data cut short or with bytes
/// added reads as no undo data.
pub proof fn lemma_undo_bytes_prefix_free(u1: Seq<CoinView>, u2: Seq<CoinView>)
    requires
        undo_encodable(u1),
        undo_encodable(u2),
        spec_undo_bytes(u1).len() <= spec_undo_bytes(u2).len(),
        spec_undo_bytes(u2).subrange(0, spec_undo_bytes(u1).len() as int) == spec_undo_bytes(u1),
    ensures
        spec_undo_bytes(u1).len() == spec_undo_bytes(u2).len(),
{
    lemma_auto_spec_u32_to_from_le_bytes();
    let b1 = spec_undo_bytes(u1);
    let b2 = spec_undo_bytes(u2);
    assert(b1.subrange(0, 4) =~= spec_u32_to_le_bytes(u1.len() as u32));
    assert(b2.subrange(0, 4) =~= spec_u32_to_le_bytes(u2.len() as u32));
    assert(b1.subrange(0, 4) =~= b2.subrange(0, b1.len() as int).subrange(0, 4));
    assert(b2.subrange(0, b1.len() as int).subrange(0, 4) =~= b2.subrange(0, 4));
    assert(spec_u32_from_le_bytes(spec_u32_to_le_bytes(u1.len() as u32)) == u1.len() as u32);
    assert(spec_u32_from_le_bytes(spec_u32_to_le_bytes(u2.len() as u32)) == u2.len() as u32);
    assert(u1.len() == u2.len());
    let c1 = concat(u1.map_values(|c: CoinView| spec_undo_coin_bytes(c)));
    let c2 = concat(u2.map_values(|c: CoinView| spec_undo_coin_bytes(c)));
    assert(b1.subrange(4, b1.len() as int) =~= c1);
    assert(b2.subrange(4, b2.len() as int) =~= c2);
    assert(c2.subrange(0, c1.len() as int) =~= b2.subrange(0, b1.len() as int).subrange(4, b1.len() as int));
    lemma_undo_chunks_prefix(u1, u2);
}

/// Undo data that reads the same holds coins that are stored the same, one for one.
pub proof fn lemma_undo_coins_unique(u1: Seq<CoinView>, u2: Seq<CoinView>)
    requires
        undo_encodable(u1),
        undo_encodable(u2),
        spec_undo_bytes(u1) == spec_undo_bytes(u2),
    ensures
        u1.len() == u2.len(),
        forall|i: int| 0 <= i < u1.len() ==> spec_coin_bytes(#[trigger] u1[i]) == spec_coin_bytes(u2[i]),
{
    lemma_auto_spec_u32_to_from_le_bytes();
    let b = spec_undo_bytes(u1);
    assert(b.subrange(0, 4) =~= spec_u32_to_le_bytes(u1.len() as u32));
    assert(b.subrange(0, 4) =~= spec_u32_to_le_bytes(u2.len() as u32));
    assert(u1.len() == u2.len());
    assert(b.subrange(4, b.len() as int) =~= concat(u1.map_values(|c: CoinView| spec_undo_coin_bytes(c))));
    assert(b.subrange(4, b.len() as int) =~= concat(u2.map_values(|c: CoinView| spec_undo_coin_bytes(c))));
    lemma_undo_chunks_unique(u1, u2);
    assert forall|i: int| 0 <= i < u1.len() implies spec_coin_bytes(#[trigger] u1[i]) == spec_coin_bytes(u2[i]) by {
        let e1 = spec_undo_coin_bytes(u1[i]);
        let e2 = spec_undo_coin_bytes(u2[i]);
        assert(e1 == e2);
        assert(e1.subrange(0, 4) =~= spec_u32_to_le_bytes(coin_code(u1[i].height, u1[i].is_coinbase)));
        assert(e2.subrange(0, 4) =~= spec_u32_to_le_bytes(coin_code(u2[i].height, u2[i].is_coinbase)));
        assert(e1.subrange(8, e1.len() as int) =~= spec_txout_bytes(u1[i].output));
        assert(e2.subrange(8, e2.len() as int) =~= spec_txout_bytes(u2[i].output));
        assert(spec_coin_bytes(u1[i]) =~= e1.subrange(0, 4) + e1.subrange(8, e1.len() as int));
        assert(spec_coin_bytes(u2[i]) =~= e2.subrange(0, 4) + e2.subrange(8, e2.len() as int));
    }
}

/// Where the first `i` coins of some undo data end, the next coin's bytes begin.
proof fn lemma_undo_chunk_at(b: Seq<u8>, chunks: Seq<Seq<u8>>, i: int, pos: int)
    requires
        0 <= i < chunks.len(),
        4 <= pos <= b.len(),
        b.subrange(4, b.len() as int) == concat(chunks),
        b.subrange(4, pos) == concat(chunks.take(i)),
    ensures
        pos + chunks[i].len() <= b.len(),
        b.subrange(pos, pos + chunks[i].len()) == chunks[i],
{
    lemma_concat_take_prefix(chunks, i + 1);
    assert(chunks.take(i + 1).drop_last() =~= chunks.take(i));
    assert(chunks.take(i + 1).last() == chunks[i]);
    let whole = concat(chunks);
    let pre = concat(chunks.take(i));
    assert(concat(chunks.take(i + 1)) == pre + chunks[i]);
    assert(pre.len() == pos - 4);
    assert(b.subrange(pos, pos + chunks[i].len()) =~= whole.subrange(pos - 4, pos - 4 + chunks[i].len()));
    assert(whole.subrange(pos - 4, pos - 4 + chunks[i].len()) =~= (pre + chunks[i]).subrange(
        pre.len() as int,
        (pre.len() + chunks[i].len()) as int,
    ));
}

impl BlockUndo {
    /// Layout: coin count as u32 LE, then each coin as its height code, the length of its
    /// encoded output, and the output itself.
    pub fn to_bytes(&self) -> (r: Vec<u8>)
        requires
            undo_encodable(self@),
        ensures
            r@ == spec_undo_bytes(self@),
    {
        let ghost coins = self@;
        let mut bytes: Vec<u8> = Vec::new();
        write_u32(&mut bytes, self.0.len() as u32);
        let mut i: usize = 0;
        while i < self.0.len()
            invariant
                coins == self@,
                undo_encodable(coins),
                i <= coins.len(),
                bytes@ == spec_u32_to_le_bytes(coins.len() as u32) + concat(
                    coins.take(i as int).map_values(|c: CoinView| spec_undo_coin_bytes(c)),
                ),
            decreases coins.len() - i,
        {
            let coin = &self.0[i];
            let code: u32 = (coin.height << 1u32) | (if coin.is_coinbase { 1u32 } else { 0u32 });
            let output = coin.output.encode();
            proof {
                assert(coins[i as int] == coin@);
                crate::transaction::lemma_concat_push(coins, |c: CoinView| spec_undo_coin_bytes(c), i as int);
            }
            write_u32(&mut bytes, code);
            write_u32(&mut bytes, output.len() as u32);
            bytes.extend_from_slice(output.as_slice());
            i = i + 1;
        }
        proof {
            assert(coins.take(coins.len() as int) =~= coins);
        }
        bytes
    }

    /// Fails, with a `Corrupted` error, when the bytes are not undo data. Decoded data encodes
    /// back to the bytes read, and every height it holds is below 2^31, so it is the one undo
    /// data of such heights with those bytes.
    pub fn from_bytes(bytes: &[u8]) -> (r: Result<BlockUndo>)
        ensures
            r is Ok ==> spec_undo_bytes(r->Ok_0@) == bytes@ && undo_storable(r->Ok_0@),
            r is Err ==> r->Err_0 is Corrupted,
            (exists|u: Seq<CoinView>| undo_encodable(u) && spec_undo_bytes(u) == bytes@) ==> r is Ok,
            forall|u: Seq<CoinView>| undo_storable(u) && #[trigger] spec_undo_bytes(u) == bytes@ ==> r is Ok && r->Ok_0@ == u,
    {
        proof {
            lemma_auto_spec_u32_to_from_le_bytes();
        }
        let ghost has = exists|u: Seq<CoinView>| undo_encodable(u) && spec_undo_bytes(u) == bytes@;
        let ghost target = choose|u: Seq<CoinView>| undo_encodable(u) && spec_undo_bytes(u) == bytes@;
        let ghost tchunks = target.map_values(|c: CoinView| spec_undo_coin_bytes(c));
        if bytes.len() < 4 {
            return Err(StorageError::corrupted("undo data", "shorter than its coin count".to_owned()));
        }
        let count = u32_from_le_bytes(vstd::slice::slice_subrange(bytes, 0, 4));
        proof {
            if has {
                assert(bytes@.subrange(0, 4) =~= spec_u32_to_le_bytes(target.len() as u32));
                assert(bytes@.subrange(4, bytes@.len() as int) =~= concat(tchunks));
                assert(tchunks.take(0) =~= Seq::<Seq<u8>>::empty());
            }
        }
        let mut coins: Vec<Coin> = Vec::new();
        let mut pos: usize = 4;
        let mut i: u32 = 0;
        proof {
            assert(bytes@.subrange(4, 4) =~= Seq::<u8>::empty());
        }
        while i < count
            invariant
                4 <= pos <= bytes@.len(),
                bytes@.subrange(0, 4) == spec_u32_to_le_bytes(count),
                i <= count,
                coins@.len() == i,
                forall|j: int| 0 <= j < i ==> spec_txout_bytes(#[trigger] coins@[j]@.output).len() <= u32::MAX,
                forall|j: int| 0 <= j < i ==> (#[trigger] coins@[j])@.height < 0x8000_0000,
                bytes@.subrange(4, pos as int) == concat(
                    coins@.map_values(|c: Coin| c@).map_values(|c: CoinView| spec_undo_coin_bytes(c)),
                ),
                tchunks == target.map_values(|c: CoinView| spec_undo_coin_bytes(c)),
                has == exists|u: Seq<CoinView>| undo_encodable(u) && spec_undo_bytes(u) == bytes@,
                has ==> {
                    &&& undo_encodable(target)
                    &&& count == target.len()
                    &&& bytes@.subrange(4, bytes@.len() as int) == concat(tchunks)
                    &&& coins@.map_values(|c: Coin| c@).map_values(|c: CoinView| spec_undo_coin_bytes(c))
                        == tchunks.take(i as int)
                },
            decreases count - i,
        {
            proof {
                if has {
                    lemma_auto_spec_u32_to_from_le_bytes();
                    lemma_undo_chunk_at(bytes@, tchunks, i as int, pos as int);
                    let chunk = tchunks[i as int];
                    let o = target[i as int].output;
                    assert(chunk == spec_undo_coin_bytes(target[i as int]));
                    assert(spec_txout_bytes(o).len() <= u32::MAX);
                    assert(o.script_pubkey.len() <= spec_txout_bytes(o).len());
                    assert(chunk.len() == 8 + spec_txout_bytes(o).len());
                }
            }
            if bytes.len() - pos < 8 {
                return Err(StorageError::corrupted("undo data", "a coin is truncated".to_owned()));
            }
            let code = u32_from_le_bytes(vstd::slice::slice_subrange(bytes, pos, pos + 4));
            let len = u32_from_le_bytes(vstd::slice::slice_subrange(bytes, pos + 4, pos + 8));
            let start = pos + 8;
            proof {
                if has {
                    lemma_auto_spec_u32_to_from_le_bytes();
                    let chunk = tchunks[i as int];
                    let o = target[i as int].output;
                    assert(chunk == spec_undo_coin_bytes(target[i as int]));
                    assert(chunk.subrange(4, 8) =~= bytes@.subrange(pos + 4, pos + 8));
                    assert(chunk.subrange(4, 8) =~= spec_u32_to_le_bytes(spec_txout_bytes(o).len() as u32));
                    assert(len == spec_txout_bytes(o).len());
                }
            }
            if ((bytes.len() - start) as u64) < len as u64 {
                return Err(StorageError::corrupted("undo data", "an output is truncated".to_owned()));
            }
            let end = start + len as usize;
            let slice = vstd::slice::slice_subrange(bytes, start, end);
            proof {
                if has {
                    let chunk = tchunks[i as int];
                    let o = target[i as int].output;
                    assert(chunk.subrange(8, chunk.len() as int) =~= spec_txout_bytes(o));
                    assert(slice@.subrange(0, slice@.len() as int) =~= spec_txout_bytes(o));
                }
            }
            let output = match decode_output(slice, 0) {
                Some(o) => o,
                None => return Err(StorageError::corrupted("undo data", "an output does not decode".to_owned())),
            };
            proof {
                lemma_code_split(code);
            }
            let coin = Coin { output, height: code >> 1u32, is_coinbase: code & 1u32 == 1u32 };
            let ghost before = coins@;
            coins.push(coin);
            proof {
                assert(slice@.subrange(0, slice@.len() as int) =~= slice@);
                assert(spec_txout_bytes(coin@.output).len() == len);
                let vs = coins@.map_values(|c: Coin| c@).map_values(|c: CoinView| spec_undo_coin_bytes(c));
                assert(vs.drop_last() =~= before.map_values(|c: Coin| c@).map_values(|c: CoinView| spec_undo_coin_bytes(c)));
                assert(bytes@.subrange(pos as int, end as int) =~= bytes@.subrange(pos as int, pos + 4)
                    + bytes@.subrange(pos + 4, pos + 8) + slice@);
                lemma_auto_spec_u32_to_from_le_bytes();
                assert(bytes@.subrange(pos as int, pos + 4) == spec_u32_to_le_bytes(code));
                assert(bytes@.subrange(pos + 4, pos + 8) == spec_u32_to_le_bytes(len));
                assert(bytes@.subrange(pos as int, end as int) == spec_undo_coin_bytes(coin@));
                assert(bytes@.subrange(4, end as int) =~= bytes@.subrange(4, pos as int) + bytes@.subrange(pos as int, end as int));
                if has {
                    let chunk = tchunks[i as int];
                    assert(bytes@.subrange(pos as int, end as int) =~= chunk);
                    assert(tchunks.take(i + 1) =~= tchunks.take(i as int).push(chunk));
                    assert(vs =~= tchunks.take(i + 1));
                }
            }
            pos = end;
            i = i + 1;
        }
        proof {
            if has {
                assert(tchunks.take(count as int) =~= tchunks);
                lemma_concat_take_prefix(tchunks, count as int);
            }
        }
        if pos != bytes.len() {
            return Err(StorageError::corrupted("undo data", "trailing bytes".to_owned()));
        }
        let undo = BlockUndo(coins);
        proof {
            assert(undo@.len() == count);
            assert(bytes@ =~= bytes@.subrange(0, 4) + bytes@.subrange(4, pos as int));
            assert(undo_storable(undo@)) by {
                assert forall|j: int| 0 <= j < undo@.len() implies (#[trigger] undo@[j]).height < 0x8000_0000 by {
                    assert(undo@[j] == undo.0@[j]@);
                }
                assert forall|j: int| 0 <= j < undo@.len() implies spec_txout_bytes(#[trigger] undo@[j].output).len()
                    <= u32::MAX by {
                    assert(undo@[j] == undo.0@[j]@);
                }
            }
            assert forall|u: Seq<CoinView>| undo_storable(u) && #[trigger] spec_undo_bytes(u) == bytes@ implies undo@
                == u by {
                lemma_undo_bytes_injective(undo@, u);
            }
        }
        Ok(undo)
    }

    pub fn copy(&self) -> (r: BlockUndo)
        ensures
            r@ == self@,
    {
        BlockUndo(copy_coins(self.0.as_slice()))
    }
}

/// A copy of some coins.
pub fn copy_coins(coins: &[Coin]) -> (r: Vec<Coin>)
    ensures
        r@.map_values(|c: Coin| c@) == coins@.map_values(|c: Coin| c@),
{
    let mut out: Vec<Coin> = Vec::new();
    let mut i: usize = 0;
    while i < coins.len()
        invariant
            i <= coins@.len(),
            out@.len() == i,
            forall|j: int| 0 <= j < i ==> (#[trigger] out@[j])@ == coins@[j]@,
        decreases coins@.len() - i,
    {
        out.push(coins[i].copy());
        i = i + 1;
    }
    proof {
        assert(out@.map_values(|c: Coin| c@) =~= coins@.map_values(|c: Coin| c@));
    }
    out
}

} // verus!
