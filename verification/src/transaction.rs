//! Transactions and blocks as plain values, with Bitcoin's consensus encoding of them.

use vstd::prelude::*;
use vstd::bytes::*;

use crate::bytes::copy_bytes;
use crate::encoding::{
    compact_size, concat, lemma_chunk_at, lemma_compact_size_len, lemma_compact_size_prefix, lemma_prefix_part,
    lemma_var_bytes_unique, prefix_at, read_bytes, read_compact_size, read_u32, read_u64, read_var_bytes, var_bytes,
    var_list, write_compact_size, write_u32, write_u64, write_var_bytes,
};
use crate::primitives::{
    lemma_header_decode_encode, lemma_header_roundtrip, sha256d, spec_block_hash, spec_decode_header, spec_encode_header,
    spec_sha256d, BlockHash, Hash256, Header, Txid,
};

verus! {

broadcast use vstd::seq_lib::group_seq_properties;

/// A reference to an output of a transaction.
#[derive(Debug, Clone, Copy, PartialEq, Eq, Structural)]
pub struct OutPoint {
    pub txid: Txid,
    pub vout: u32,
}

impl OutPoint {
    /// The outpoint a coinbase input names: all-zero txid, index `u32::MAX`.
    pub open spec fn spec_null() -> OutPoint {
        OutPoint { txid: Hash256 { lo: 0, hi: 0 }, vout: 0xffff_ffff }
    }

    pub fn null() -> (r: OutPoint)
        ensures
            r == OutPoint::spec_null(),
    {
        OutPoint { txid: Hash256::zero(), vout: 0xffff_ffff }
    }

    pub fn is_null(&self) -> (r: bool)
        ensures
            r == (*self == OutPoint::spec_null()),
    {
        self.txid.lo == 0 && self.txid.hi == 0 && self.vout == 0xffff_ffff
    }
}

/// Consensus encoding of an outpoint: the txid, then the index little-endian.
pub open spec fn spec_outpoint_bytes(o: OutPoint) -> Seq<u8> {
    o.txid.spec_bytes() + spec_u32_to_le_bytes(o.vout)
}

/// An output: an amount in satoshis and the script that locks it.
#[derive(Debug, Clone, PartialEq, Eq)]
pub struct TxOut {
    pub amount: u64,
    pub script_pubkey: Vec<u8>,
}

pub struct TxOutView {
    pub amount: u64,
    pub script_pubkey: Seq<u8>,
}

impl View for TxOut {
    type V = TxOutView;

    open spec fn view(&self) -> TxOutView {
        TxOutView { amount: self.amount, script_pubkey: self.script_pubkey@ }
    }
}

/// Consensus encoding of an output: the amount little-endian, then the script with its length.
pub open spec fn spec_txout_bytes(o: TxOutView) -> Seq<u8> {
    spec_u64_to_le_bytes(o.amount) + var_bytes(o.script_pubkey)
}

/// An input: the output it spends, its unlocking script, sequence and witness.
#[derive(Debug, Clone, PartialEq, Eq)]
pub struct TxIn {
    pub previous_output: OutPoint,
    pub script_sig: Vec<u8>,
    pub sequence: u32,
    pub witness: Vec<Vec<u8>>,
}

pub struct TxInView {
    pub previous_output: OutPoint,
    pub script_sig: Seq<u8>,
    pub sequence: u32,
    pub witness: Seq<Seq<u8>>,
}

impl View for TxIn {
    type V = TxInView;

    open spec fn view(&self) -> TxInView {
        TxInView {
            previous_output: self.previous_output,
            script_sig: self.script_sig@,
            sequence: self.sequence,
            witness: self.witness@.map_values(|w: Vec<u8>| w@),
        }
    }
}

/// Consensus encoding of an input, without its witness.
pub open spec fn spec_txin_bytes(i: TxInView) -> Seq<u8> {
    spec_outpoint_bytes(i.previous_output) + var_bytes(i.script_sig) + spec_u32_to_le_bytes(
        i.sequence,
    )
}

#[derive(Debug, Clone, PartialEq, Eq)]
pub struct Transaction {
    pub version: i32,
    pub lock_time: u32,
    pub inputs: Vec<TxIn>,
    pub outputs: Vec<TxOut>,
}

pub struct TransactionView {
    pub version: i32,
    pub lock_time: u32,
    pub inputs: Seq<TxInView>,
    pub outputs: Seq<TxOutView>,
}

impl View for Transaction {
    type V = TransactionView;

    open spec fn view(&self) -> TransactionView {
        TransactionView {
            version: self.version,
            lock_time: self.lock_time,
            inputs: self.inputs@.map_values(|i: TxIn| i@),
            outputs: self.outputs@.map_values(|o: TxOut| o@),
        }
    }
}

pub open spec fn spec_inputs_bytes(ins: Seq<TxInView>) -> Seq<u8> {
    compact_size(ins.len()) + concat(ins.map_values(|i: TxInView| spec_txin_bytes(i)))
}

pub open spec fn spec_outputs_bytes(outs: Seq<TxOutView>) -> Seq<u8> {
    compact_size(outs.len()) + concat(outs.map_values(|o: TxOutView| spec_txout_bytes(o)))
}

pub open spec fn spec_witnesses_bytes(ins: Seq<TxInView>) -> Seq<u8> {
    concat(ins.map_values(|i: TxInView| var_list(i.witness)))
}

/// Whether the encoding carries witnesses: some input has one, or there are no inputs, which
/// the legacy form could not tell apart from the witness marker.
pub open spec fn uses_segwit(t: TransactionView) -> bool {
    t.inputs.len() == 0 || exists|i: int| 0 <= i < t.inputs.len() && (#[trigger] t.inputs[i]).witness.len() > 0
}

/// The legacy encoding, without witnesses: what the txid is the hash of.
pub open spec fn spec_tx_base_bytes(t: TransactionView) -> Seq<u8> {
    spec_u32_to_le_bytes(t.version as u32) + spec_inputs_bytes(t.inputs) + spec_outputs_bytes(
        t.outputs,
    ) + spec_u32_to_le_bytes(t.lock_time)
}

/// The consensus encoding: the legacy one, or with the marker and flag after the version and
/// the witnesses before the lock time when `uses_segwit`.
pub open spec fn spec_tx_bytes(t: TransactionView) -> Seq<u8> {
    if uses_segwit(t) {
        spec_u32_to_le_bytes(t.version as u32) + seq![0u8, 1u8] + spec_inputs_bytes(t.inputs)
            + spec_outputs_bytes(t.outputs) + spec_witnesses_bytes(t.inputs) + spec_u32_to_le_bytes(
            t.lock_time,
        )
    } else {
        spec_tx_base_bytes(t)
    }
}

/// A transaction's identifier: the double SHA-256 of its legacy encoding.
pub open spec fn spec_txid(t: TransactionView) -> Txid {
    Hash256::spec_from_bytes(spec_sha256d(spec_tx_base_bytes(t)))
}

/// Whether a transaction is a coinbase: one input, spending the null outpoint.
pub open spec fn spec_is_coinbase(t: TransactionView) -> bool {
    t.inputs.len() == 1 && t.inputs[0].previous_output == OutPoint::spec_null()
}

#[derive(Debug, Clone, PartialEq, Eq)]
pub struct Block {
    pub header: Header,
    pub transactions: Vec<Transaction>,
}

pub struct BlockView {
    pub header: Header,
    pub transactions: Seq<TransactionView>,
}

impl View for Block {
    type V = BlockView;

    open spec fn view(&self) -> BlockView {
        BlockView {
            header: self.header,
            transactions: self.transactions@.map_values(|t: Transaction| t@),
        }
    }
}

/// Consensus encoding of a block: the header, then the transactions with their number.
pub open spec fn spec_block_bytes(b: BlockView) -> Seq<u8> {
    spec_encode_header(b.header) + compact_size(b.transactions.len()) + concat(
        b.transactions.map_values(|t: TransactionView| spec_tx_bytes(t)),
    )
}

/// One more part at the end of a concatenation.
pub proof fn lemma_concat_push<A>(s: Seq<A>, f: spec_fn(A) -> Seq<u8>, i: int)
    requires
        0 <= i < s.len(),
    ensures
        concat(s.take(i + 1).map_values(f)) == concat(s.take(i).map_values(f)) + f(s[i]),
{
    assert(s.take(i + 1).map_values(f).drop_last() =~= s.take(i).map_values(f));
    assert(s.take(i + 1).map_values(f).last() == f(s[i]));
}

impl TxOut {
    pub fn write(&self, out: &mut Vec<u8>)
        ensures
            final(out)@ == old(out)@ + spec_txout_bytes(self@),
    {
        write_u64(out, self.amount);
        write_var_bytes(out, self.script_pubkey.as_slice());
    }

    /// The consensus encoding.
    pub fn encode(&self) -> (r: Vec<u8>)
        ensures
            r@ == spec_txout_bytes(self@),
    {
        let mut out: Vec<u8> = Vec::new();
        self.write(&mut out);
        out
    }

    pub fn copy(&self) -> (r: TxOut)
        ensures
            r@ == self@,
    {
        TxOut { amount: self.amount, script_pubkey: copy_bytes(self.script_pubkey.as_slice()) }
    }
}

/// Reads an output at `pos`. Reads one exactly when the bytes there encode one.
pub fn read_txout(b: &[u8], pos: usize) -> (r: Option<(TxOut, usize)>)
    ensures
        match r {
            Some((o, end)) => pos < end <= b@.len() && b@.subrange(pos as int, end as int)
                == spec_txout_bytes(o@) && o@.script_pubkey.len() <= u64::MAX,
            None => forall|o: TxOutView|
                !(pos + spec_txout_bytes(o).len() <= b@.len() && #[trigger] b@.subrange(
                    pos as int,
                    pos + spec_txout_bytes(o).len(),
                ) == spec_txout_bytes(o) && o.script_pubkey.len() <= u64::MAX),
        },
{
    proof {
        lemma_auto_spec_u64_to_from_le_bytes();
    }
    let (amount, mid) = match read_u64(b, pos) {
        Some(x) => x,
        None => {
            return None;
        },
    };
    match read_var_bytes(b, mid) {
        Some((script, end)) => {
            proof {
                assert(b@.subrange(pos as int, end as int) =~= b@.subrange(pos as int, mid as int)
                    + b@.subrange(mid as int, end as int));
            }
            Some((TxOut { amount, script_pubkey: script }, end))
        },
        None => {
            proof {
                assert forall|o: TxOutView|
                    !(pos + spec_txout_bytes(o).len() <= b@.len() && #[trigger] b@.subrange(
                        pos as int,
                        pos + spec_txout_bytes(o).len(),
                    ) == spec_txout_bytes(o) && o.script_pubkey.len() <= u64::MAX) by {
                    let e = spec_txout_bytes(o);
                    let vb = var_bytes(o.script_pubkey);
                    if pos + e.len() <= b@.len() && b@.subrange(pos as int, pos + e.len()) == e
                        && o.script_pubkey.len() <= u64::MAX {
                        assert(b@.subrange(mid as int, mid + vb.len()) =~= e.subrange(8, e.len() as int));
                        assert(e.subrange(8, e.len() as int) =~= vb);
                    }
                }
            }
            None
        },
    }
}

impl TxIn {
    pub fn write(&self, out: &mut Vec<u8>)
        ensures
            final(out)@ == old(out)@ + spec_txin_bytes(self@),
    {
        out.extend_from_slice(self.previous_output.txid.to_bytes().as_slice());
        write_u32(out, self.previous_output.vout);
        write_var_bytes(out, self.script_sig.as_slice());
        write_u32(out, self.sequence);
    }

    pub fn write_witness(&self, out: &mut Vec<u8>)
        ensures
            final(out)@ == old(out)@ + var_list(self@.witness),
    {
        let ghost start = out@;
        let ghost w = self@.witness;
        write_compact_size(out, self.witness.len() as u64);
        let mut i: usize = 0;
        while i < self.witness.len()
            invariant
                w == self@.witness,
                i <= w.len(),
                out@ == start + compact_size(w.len()) + concat(w.take(i as int).map_values(|b: Seq<u8>| var_bytes(b))),
            decreases w.len() - i,
        {
            proof {
                lemma_concat_push(w, |b: Seq<u8>| var_bytes(b), i as int);
            }
            write_var_bytes(out, self.witness[i].as_slice());
            i = i + 1;
        }
        proof {
            assert(w.take(w.len() as int) =~= w);
        }
    }
}

/// Whether an input's script can be written with its length.
pub open spec fn txin_ok(i: TxInView) -> bool {
    i.script_sig.len() <= u64::MAX
}

/// Reads an input, without its witness, at `pos`. Any input that stands there is read, and
/// takes the same bytes.
fn read_txin(b: &[u8], pos: usize) -> (r: Option<(TxIn, usize)>)
    ensures
        match r {
            Some((i, end)) => {
                &&& pos < end <= b@.len()
                &&& b@.subrange(pos as int, end as int) == spec_txin_bytes(i@)
                &&& i@.witness.len() == 0
                &&& txin_ok(i@)
                &&& forall|y: TxInView|
                    txin_ok(y) && #[trigger] prefix_at(b@, pos as int, spec_txin_bytes(y)) ==> spec_txin_bytes(y)
                        == b@.subrange(pos as int, end as int)
            },
            None => forall|y: TxInView| txin_ok(y) ==> !#[trigger] prefix_at(b@, pos as int, spec_txin_bytes(y)),
        },
{
    proof {
        lemma_auto_spec_u32_to_from_le_bytes();
    }
    let (txid_bytes, p1) = match read_bytes(b, pos, 32) {
        Some(x) => x,
        None => {
            proof {
                assert forall|y: TxInView| txin_ok(y) implies !#[trigger] prefix_at(b@, pos as int, spec_txin_bytes(y)) by {
                    lemma_txin_len(y);
                }
            }
            return None;
        },
    };
    let txid = Hash256::from_slice(txid_bytes.as_slice());
    let (vout, p2) = match read_u32(b, p1) {
        Some(x) => x,
        None => {
            proof {
                assert forall|y: TxInView| txin_ok(y) implies !#[trigger] prefix_at(b@, pos as int, spec_txin_bytes(y)) by {
                    lemma_txin_len(y);
                }
            }
            return None;
        },
    };
    let (script_sig, p3) = match read_var_bytes(b, p2) {
        Some(x) => x,
        None => {
            proof {
                assert forall|y: TxInView| txin_ok(y) implies !#[trigger] prefix_at(b@, pos as int, spec_txin_bytes(y)) by {
                    if prefix_at(b@, pos as int, spec_txin_bytes(y)) {
                        lemma_txin_parts(b@, pos as int, y);
                    }
                }
            }
            return None;
        },
    };
    proof {
        assert forall|y: TxInView| txin_ok(y) && #[trigger] prefix_at(b@, pos as int, spec_txin_bytes(y)) implies y.script_sig
            == script_sig@ by {
            lemma_txin_parts(b@, pos as int, y);
            lemma_var_bytes_unique(b@, p2 as int, y.script_sig, script_sig@);
        }
    }
    let (sequence, p4) = match read_u32(b, p3) {
        Some(x) => x,
        None => {
            proof {
                assert forall|y: TxInView| txin_ok(y) implies !#[trigger] prefix_at(b@, pos as int, spec_txin_bytes(y)) by {
                    if prefix_at(b@, pos as int, spec_txin_bytes(y)) {
                        lemma_txin_parts(b@, pos as int, y);
                    }
                }
            }
            return None;
        },
    };
    let input = TxIn {
        previous_output: OutPoint { txid, vout },
        script_sig,
        sequence,
        witness: Vec::new(),
    };
    proof {
        crate::primitives::lemma_hash_bytes(txid, txid_bytes@);
        assert(b@.subrange(pos as int, p4 as int) =~= b@.subrange(pos as int, p1 as int)
            + b@.subrange(p1 as int, p2 as int) + b@.subrange(p2 as int, p3 as int) + b@.subrange(
            p3 as int,
            p4 as int,
        ));
        assert(input@.witness =~= Seq::<Seq<u8>>::empty());
        assert forall|y: TxInView| txin_ok(y) && #[trigger] prefix_at(b@, pos as int, spec_txin_bytes(y)) implies spec_txin_bytes(y)
            == b@.subrange(pos as int, p4 as int) by {
            lemma_txin_parts(b@, pos as int, y);
            lemma_txin_len(y);
        }
    }
    Some((input, p4))
}

/// An input's encoding is 40 bytes around its script with its length.
proof fn lemma_txin_len(y: TxInView)
    ensures
        spec_txin_bytes(y).len() == 40 + var_bytes(y.script_sig).len(),
        spec_txin_bytes(y).len() >= 41,
{
    lemma_auto_spec_u32_to_from_le_bytes();
    lemma_compact_size_len(y.script_sig.len());
    crate::primitives::lemma_hash_bytes(y.previous_output.txid, y.previous_output.txid.spec_bytes());
}

/// The fields of an input standing at `pos` stand at their offsets.
proof fn lemma_txin_parts(b: Seq<u8>, pos: int, y: TxInView)
    requires
        prefix_at(b, pos, spec_txin_bytes(y)),
    ensures
        pos + 36 + var_bytes(y.script_sig).len() + 4 <= b.len(),
        prefix_at(b, pos + 36, var_bytes(y.script_sig)),
        b.subrange(pos, pos + 32) == y.previous_output.txid.spec_bytes(),
        b.subrange(pos + 32, pos + 36) == spec_u32_to_le_bytes(y.previous_output.vout),
        b.subrange(pos + 36 + var_bytes(y.script_sig).len(), pos + 36 + var_bytes(y.script_sig).len() + 4)
            == spec_u32_to_le_bytes(y.sequence),
{
    lemma_txin_len(y);
    lemma_auto_spec_u32_to_from_le_bytes();
    crate::primitives::lemma_hash_bytes(y.previous_output.txid, y.previous_output.txid.spec_bytes());
    let e = spec_txin_bytes(y);
    let v = var_bytes(y.script_sig).len() as int;
    let t = y.previous_output.txid.spec_bytes();
    let o = spec_u32_to_le_bytes(y.previous_output.vout);
    let q = spec_u32_to_le_bytes(y.sequence);
    assert(e =~= t + o + var_bytes(y.script_sig) + q);
    lemma_prefix_part(b, pos, e, 0, 32);
    lemma_prefix_part(b, pos, e, 32, 36);
    lemma_prefix_part(b, pos, e, 36, 36 + v);
    lemma_prefix_part(b, pos, e, 36 + v, 40 + v);
    assert(e.subrange(0, 32) =~= y.previous_output.txid.spec_bytes());
    assert(e.subrange(32, 36) =~= spec_u32_to_le_bytes(y.previous_output.vout));
    assert(e.subrange(36, 36 + v) =~= var_bytes(y.script_sig));
    assert(e.subrange(36 + v, 40 + v) =~= spec_u32_to_le_bytes(y.sequence));
}

/// Whether a witness can be written: its number of items and each item's length fit a
/// compact size.
pub open spec fn witness_ok(w: Seq<Seq<u8>>) -> bool {
    w.len() <= u64::MAX && forall|j: int| 0 <= j < w.len() ==> #[trigger] w[j].len() <= u64::MAX
}

/// The items of a list, each with its length in front.
pub open spec fn var_chunks(items: Seq<Seq<u8>>) -> Seq<Seq<u8>> {
    items.map_values(|x: Seq<u8>| var_bytes(x))
}

/// A list of byte strings is its number, then its items with their lengths.
proof fn lemma_var_list_parts(b: Seq<u8>, pos: int, y: Seq<Seq<u8>>)
    requires
        prefix_at(b, pos, var_list(y)),
    ensures
        var_list(y) == compact_size(y.len()) + concat(var_chunks(y)),
        prefix_at(b, pos, compact_size(y.len())),
        prefix_at(b, pos + compact_size(y.len()).len(), concat(var_chunks(y))),
{
    let e = var_list(y);
    let c = compact_size(y.len());
    assert(y.map_values(|b: Seq<u8>| var_bytes(b)) =~= var_chunks(y));
    assert(e == c + concat(var_chunks(y)));
    lemma_prefix_part(b, pos, e, 0, c.len() as int);
    lemma_prefix_part(b, pos, e, c.len() as int, e.len() as int);
    assert(e.subrange(0, c.len() as int) =~= c);
    assert(e.subrange(c.len() as int, e.len() as int) =~= concat(var_chunks(y)));
}

/// Reads a witness: a list of byte strings. Any witness that stands there is read, and takes
/// the same bytes.
fn read_witness(b: &[u8], pos: usize) -> (r: Option<(Vec<Vec<u8>>, usize)>)
    ensures
        match r {
            Some((w, end)) => {
                &&& pos < end <= b@.len()
                &&& b@.subrange(pos as int, end as int) == var_list(w@.map_values(|x: Vec<u8>| x@))
                &&& witness_ok(w@.map_values(|x: Vec<u8>| x@))
                &&& forall|y: Seq<Seq<u8>>|
                    witness_ok(y) && #[trigger] prefix_at(b@, pos as int, var_list(y)) ==> var_list(y)
                        == b@.subrange(pos as int, end as int)
            },
            None => forall|y: Seq<Seq<u8>>| witness_ok(y) ==> !#[trigger] prefix_at(b@, pos as int, var_list(y)),
        },
{
    let ghost has = exists|y: Seq<Seq<u8>>| witness_ok(y) && prefix_at(b@, pos as int, var_list(y));
    let ghost target = choose|y: Seq<Seq<u8>>| witness_ok(y) && prefix_at(b@, pos as int, var_list(y));
    let (n, start) = match read_compact_size(b, pos) {
        Some(x) => x,
        None => {
            proof {
                assert forall|y: Seq<Seq<u8>>| witness_ok(y) implies !#[trigger] prefix_at(b@, pos as int, var_list(y)) by {
                    if prefix_at(b@, pos as int, var_list(y)) {
                        lemma_var_list_parts(b@, pos as int, y);
                        let k = y.len() as u64;
                        assert(b@.subrange(pos as int, pos + compact_size(k as nat).len()) == compact_size(k as nat));
                    }
                }
            }
            return None;
        },
    };
    proof {
        assert forall|y: Seq<Seq<u8>>| witness_ok(y) && #[trigger] prefix_at(b@, pos as int, var_list(y)) implies y.len() == n
            && start == pos + compact_size(y.len()).len() by {
            lemma_var_list_parts(b@, pos as int, y);
            lemma_compact_size_prefix(b@, pos as int, n as nat, y.len());
        }
        assert(var_chunks(target).take(0) =~= Seq::<Seq<u8>>::empty());
    }
    let mut items: Vec<Vec<u8>> = Vec::new();
    let mut p = start;
    let mut i: u64 = 0;
    while i < n
        invariant
            pos < start <= p <= b@.len(),
            b@.subrange(pos as int, start as int) == compact_size(n as nat),
            i <= n,
            items@.len() == i,
            forall|j: int| 0 <= j < i ==> (#[trigger] items@[j])@.len() <= u64::MAX,
            b@.subrange(start as int, p as int) == concat(
                items@.map_values(|x: Vec<u8>| x@).map_values(|v: Seq<u8>| var_bytes(v)),
            ),
            has == exists|y: Seq<Seq<u8>>| witness_ok(y) && prefix_at(b@, pos as int, var_list(y)),
            has ==> witness_ok(target) && prefix_at(b@, pos as int, var_list(target)),
            forall|y: Seq<Seq<u8>>|
                witness_ok(y) && #[trigger] prefix_at(b@, pos as int, var_list(y)) ==> y.len() == n && start == pos
                    + compact_size(y.len()).len() && p == start + concat(var_chunks(y).take(i as int)).len(),
        decreases n - i,
    {
        proof {
            if has {
                lemma_var_list_parts(b@, pos as int, target);
                lemma_chunk_at(b@, start as int, var_chunks(target), i as int);
                assert(var_chunks(target)[i as int] == var_bytes(target[i as int]));
                assert(target[i as int].len() <= u64::MAX);
            }
        }
        let (item, next) = match read_var_bytes(b, p) {
            Some(x) => x,
            None => return None,
        };
        let ghost before = items@;
        items.push(item);
        proof {
            let vs = items@.map_values(|x: Vec<u8>| x@).map_values(|v: Seq<u8>| var_bytes(v));
            assert(vs.drop_last() =~= before.map_values(|x: Vec<u8>| x@).map_values(|v: Seq<u8>| var_bytes(v)));
            assert(b@.subrange(start as int, next as int) =~= b@.subrange(start as int, p as int)
                + b@.subrange(p as int, next as int));
            assert forall|j: int| 0 <= j < i + 1 implies (#[trigger] items@[j])@.len() <= u64::MAX by {
                if j < i {
                    assert(items@[j] == before[j]);
                }
            }
            assert forall|y: Seq<Seq<u8>>| witness_ok(y) && #[trigger] prefix_at(b@, pos as int, var_list(y)) implies y.len()
                == n && start == pos + compact_size(y.len()).len() && next == start + concat(
                var_chunks(y).take(i + 1),
            ).len() by {
                lemma_var_list_parts(b@, pos as int, y);
                lemma_chunk_at(b@, start as int, var_chunks(y), i as int);
                assert(var_chunks(y)[i as int] == var_bytes(y[i as int]));
                assert(y[i as int].len() <= u64::MAX);
                lemma_var_bytes_unique(b@, p as int, y[i as int], item@);
            }
        }
        p = next;
        i = i + 1;
    }
    proof {
        assert(b@.subrange(pos as int, p as int) =~= b@.subrange(pos as int, start as int) + b@.subrange(
            start as int,
            p as int,
        ));
        let wv = items@.map_values(|x: Vec<u8>| x@);
        assert(wv.len() == n);
        assert forall|j: int| 0 <= j < wv.len() implies #[trigger] wv[j].len() <= u64::MAX by {
            assert(items@[j]@.len() <= u64::MAX);
        }
        assert forall|y: Seq<Seq<u8>>| witness_ok(y) && #[trigger] prefix_at(b@, pos as int, var_list(y)) implies var_list(y)
            == b@.subrange(pos as int, p as int) by {
            lemma_var_list_parts(b@, pos as int, y);
            assert(var_chunks(y).take(n as int) =~= var_chunks(y));
        }
    }
    Some((items, p))
}

/// A copy of a witness.
fn copy_witness(w: &Vec<Vec<u8>>) -> (r: Vec<Vec<u8>>)
    ensures
        r@.map_values(|x: Vec<u8>| x@) == w@.map_values(|x: Vec<u8>| x@),
{
    let mut out: Vec<Vec<u8>> = Vec::new();
    let mut i: usize = 0;
    while i < w.len()
        invariant
            i <= w@.len(),
            out@.len() == i,
            forall|j: int| 0 <= j < i ==> (#[trigger] out@[j])@ == w@[j]@,
        decreases w@.len() - i,
    {
        out.push(copy_bytes(w[i].as_slice()));
        i = i + 1;
    }
    proof {
        assert(out@.map_values(|x: Vec<u8>| x@) =~= w@.map_values(|x: Vec<u8>| x@));
    }
    out
}

impl Transaction {
    /// Whether the encoding carries witnesses.
    pub fn uses_segwit(&self) -> (r: bool)
        ensures
            r == uses_segwit(self@),
    {
        if self.inputs.len() == 0 {
            return true;
        }
        let mut i: usize = 0;
        while i < self.inputs.len()
            invariant
                i <= self.inputs@.len(),
                forall|j: int| 0 <= j < i ==> self@.inputs[j].witness.len() == 0,
            decreases self.inputs@.len() - i,
        {
            if self.inputs[i].witness.len() > 0 {
                proof {
                    assert(self@.inputs[i as int].witness.len() > 0);
                }
                return true;
            }
            i = i + 1;
        }
        false
    }

    fn write_inputs(&self, out: &mut Vec<u8>)
        ensures
            final(out)@ == old(out)@ + spec_inputs_bytes(self@.inputs),
    {
        let ghost start = out@;
        let ghost ins = self@.inputs;
        write_compact_size(out, self.inputs.len() as u64);
        let mut i: usize = 0;
        while i < self.inputs.len()
            invariant
                ins == self@.inputs,
                i <= ins.len(),
                out@ == start + compact_size(ins.len()) + concat(ins.take(i as int).map_values(|x: TxInView| spec_txin_bytes(x))),
            decreases ins.len() - i,
        {
            proof {
                lemma_concat_push(ins, |x: TxInView| spec_txin_bytes(x), i as int);
            }
            self.inputs[i].write(out);
            i = i + 1;
        }
        proof {
            assert(ins.take(ins.len() as int) =~= ins);
        }
    }

    fn write_outputs(&self, out: &mut Vec<u8>)
        ensures
            final(out)@ == old(out)@ + spec_outputs_bytes(self@.outputs),
    {
        let ghost start = out@;
        let ghost outs = self@.outputs;
        write_compact_size(out, self.outputs.len() as u64);
        let mut i: usize = 0;
        while i < self.outputs.len()
            invariant
                outs == self@.outputs,
                i <= outs.len(),
                out@ == start + compact_size(outs.len()) + concat(outs.take(i as int).map_values(|x: TxOutView| spec_txout_bytes(x))),
            decreases outs.len() - i,
        {
            proof {
                lemma_concat_push(outs, |x: TxOutView| spec_txout_bytes(x), i as int);
            }
            self.outputs[i].write(out);
            i = i + 1;
        }
        proof {
            assert(outs.take(outs.len() as int) =~= outs);
        }
    }

    fn write_witnesses(&self, out: &mut Vec<u8>)
        ensures
            final(out)@ == old(out)@ + spec_witnesses_bytes(self@.inputs),
    {
        let ghost start = out@;
        let ghost ins = self@.inputs;
        let mut i: usize = 0;
        while i < self.inputs.len()
            invariant
                ins == self@.inputs,
                i <= ins.len(),
                out@ == start + concat(ins.take(i as int).map_values(|x: TxInView| var_list(x.witness))),
            decreases ins.len() - i,
        {
            proof {
                lemma_concat_push(ins, |x: TxInView| var_list(x.witness), i as int);
            }
            self.inputs[i].write_witness(out);
            i = i + 1;
        }
        proof {
            assert(ins.take(ins.len() as int) =~= ins);
        }
    }

    /// Appends the consensus encoding.
    pub fn write(&self, out: &mut Vec<u8>)
        ensures
            final(out)@ == old(out)@ + spec_tx_bytes(self@),
    {
        write_u32(out, self.version as u32);
        if self.uses_segwit() {
            out.push(0);
            out.push(1);
            self.write_inputs(out);
            self.write_outputs(out);
            self.write_witnesses(out);
        } else {
            self.write_inputs(out);
            self.write_outputs(out);
        }
        write_u32(out, self.lock_time);
        proof {
            if uses_segwit(self@) {
                assert(final(out)@ =~= old(out)@ + spec_tx_bytes(self@));
            } else {
                assert(final(out)@ =~= old(out)@ + spec_tx_bytes(self@));
            }
        }
    }

    /// The consensus encoding.
    pub fn encode(&self) -> (r: Vec<u8>)
        ensures
            r@ == spec_tx_bytes(self@),
    {
        let mut out: Vec<u8> = Vec::new();
        self.write(&mut out);
        proof {
            assert(out@ =~= spec_tx_bytes(self@));
        }
        out
    }

    /// The legacy encoding, without witnesses.
    pub fn encode_base(&self) -> (r: Vec<u8>)
        ensures
            r@ == spec_tx_base_bytes(self@),
    {
        let mut out: Vec<u8> = Vec::new();
        write_u32(&mut out, self.version as u32);
        self.write_inputs(&mut out);
        self.write_outputs(&mut out);
        write_u32(&mut out, self.lock_time);
        proof {
            assert(out@ =~= spec_tx_base_bytes(self@));
        }
        out
    }

    /// The transaction's identifier, `bitcoin`'s `Transaction::compute_txid`.
    pub fn compute_txid(&self) -> (r: Txid)
        ensures
            r == spec_txid(self@),
    {
        let base = self.encode_base();
        let digest = sha256d(base.as_slice());
        Hash256::from_slice(digest.as_slice())
    }

    pub fn is_coinbase(&self) -> (r: bool)
        ensures
            r == spec_is_coinbase(self@),
    {
        self.inputs.len() == 1 && self.inputs[0].previous_output.is_null()
    }
}

/// Every input's script can be written with its length.
pub open spec fn txins_ok(ys: Seq<TxInView>) -> bool {
    forall|j: int| 0 <= j < ys.len() ==> #[trigger] txin_ok(ys[j])
}

/// The encodings of some inputs, without witnesses.
pub open spec fn txin_chunks(ys: Seq<TxInView>) -> Seq<Seq<u8>> {
    ys.map_values(|x: TxInView| spec_txin_bytes(x))
}

/// Reads `n` inputs, without witnesses, at `pos`. Any `n` inputs that stand there are read,
/// and take the same bytes.
fn read_inputs(b: &[u8], pos: usize, n: u64) -> (r: Option<(Vec<TxIn>, usize)>)
    ensures
        match r {
            Some((ins, end)) => {
                &&& pos <= end <= b@.len()
                &&& ins@.len() == n
                &&& b@.subrange(pos as int, end as int) == concat(
                    ins@.map_values(|i: TxIn| i@).map_values(|x: TxInView| spec_txin_bytes(x)),
                )
                &&& forall|j: int| 0 <= j < ins@.len() ==> (#[trigger] ins@[j])@.witness.len() == 0 && txin_ok(ins@[j]@)
                &&& forall|ys: Seq<TxInView>|
                    ys.len() == n && txins_ok(ys) && #[trigger] prefix_at(b@, pos as int, concat(txin_chunks(ys)))
                        ==> concat(txin_chunks(ys)) == b@.subrange(pos as int, end as int)
            },
            None => forall|ys: Seq<TxInView>|
                ys.len() == n && txins_ok(ys) ==> !#[trigger] prefix_at(b@, pos as int, concat(txin_chunks(ys))),
        },
{
    let ghost has = exists|ys: Seq<TxInView>|
        ys.len() == n && txins_ok(ys) && prefix_at(b@, pos as int, concat(txin_chunks(ys)));
    let ghost target = choose|ys: Seq<TxInView>|
        ys.len() == n && txins_ok(ys) && prefix_at(b@, pos as int, concat(txin_chunks(ys)));
    if pos > b.len() {
        return None;
    }
    let mut ins: Vec<TxIn> = Vec::new();
    let mut p = pos;
    let mut i: u64 = 0;
    proof {
        assert(b@.subrange(pos as int, pos as int) =~= Seq::<u8>::empty());
        assert forall|ys: Seq<TxInView>| ys.len() == n && txins_ok(ys) && #[trigger] prefix_at(
            b@,
            pos as int,
            concat(txin_chunks(ys)),
        ) implies p == pos + concat(txin_chunks(ys).take(0)).len() by {
            assert(txin_chunks(ys).take(0) =~= Seq::<Seq<u8>>::empty());
        }
    }
    while i < n
        invariant
            pos <= p <= b@.len(),
            i <= n,
            ins@.len() == i,
            b@.subrange(pos as int, p as int) == concat(
                ins@.map_values(|i: TxIn| i@).map_values(|x: TxInView| spec_txin_bytes(x)),
            ),
            forall|j: int| 0 <= j < ins@.len() ==> (#[trigger] ins@[j])@.witness.len() == 0 && txin_ok(ins@[j]@),
            has == exists|ys: Seq<TxInView>|
                ys.len() == n && txins_ok(ys) && prefix_at(b@, pos as int, concat(txin_chunks(ys))),
            has ==> target.len() == n && txins_ok(target) && prefix_at(b@, pos as int, concat(txin_chunks(target))),
            forall|ys: Seq<TxInView>|
                ys.len() == n && txins_ok(ys) && #[trigger] prefix_at(b@, pos as int, concat(txin_chunks(ys))) ==> p
                    == pos + concat(txin_chunks(ys).take(i as int)).len(),
        decreases n - i,
    {
        proof {
            if has {
                lemma_chunk_at(b@, pos as int, txin_chunks(target), i as int);
                assert(txin_chunks(target)[i as int] == spec_txin_bytes(target[i as int]));
                assert(txin_ok(target[i as int]));
            }
        }
        let (input, next) = match read_txin(b, p) {
            Some(x) => x,
            None => return None,
        };
        let ghost before = ins@;
        ins.push(input);
        proof {
            let vs = ins@.map_values(|i: TxIn| i@).map_values(|x: TxInView| spec_txin_bytes(x));
            assert(vs.drop_last() =~= before.map_values(|i: TxIn| i@).map_values(|x: TxInView| spec_txin_bytes(x)));
            assert(b@.subrange(pos as int, next as int) =~= b@.subrange(pos as int, p as int)
                + b@.subrange(p as int, next as int));
            assert forall|j: int| 0 <= j < ins@.len() implies (#[trigger] ins@[j])@.witness.len() == 0 && txin_ok(ins@[j]@) by {
                if j < i {
                    assert(ins@[j] == before[j]);
                }
            }
            assert forall|ys: Seq<TxInView>| ys.len() == n && txins_ok(ys) && #[trigger] prefix_at(
                b@,
                pos as int,
                concat(txin_chunks(ys)),
            ) implies next == pos + concat(txin_chunks(ys).take(i + 1)).len() by {
                lemma_chunk_at(b@, pos as int, txin_chunks(ys), i as int);
                assert(txin_chunks(ys)[i as int] == spec_txin_bytes(ys[i as int]));
                assert(txin_ok(ys[i as int]));
            }
        }
        p = next;
        i = i + 1;
    }
    proof {
        assert forall|ys: Seq<TxInView>| ys.len() == n && txins_ok(ys) && #[trigger] prefix_at(
            b@,
            pos as int,
            concat(txin_chunks(ys)),
        ) implies concat(txin_chunks(ys)) == b@.subrange(pos as int, p as int) by {
            assert(txin_chunks(ys).take(n as int) =~= txin_chunks(ys));
        }
    }
    Some((ins, p))
}

/// Every output's script can be written with its length.
pub open spec fn txouts_ok(ys: Seq<TxOutView>) -> bool {
    ys.len() <= u64::MAX && forall|j: int| 0 <= j < ys.len() ==> #[trigger] ys[j].script_pubkey.len() <= u64::MAX
}

/// The encodings of some outputs.
pub open spec fn txout_chunks(ys: Seq<TxOutView>) -> Seq<Seq<u8>> {
    ys.map_values(|x: TxOutView| spec_txout_bytes(x))
}

/// Outputs with their number in front are the number, then the outputs.
proof fn lemma_outputs_parts(b: Seq<u8>, pos: int, y: Seq<TxOutView>)
    requires
        prefix_at(b, pos, spec_outputs_bytes(y)),
    ensures
        spec_outputs_bytes(y) == compact_size(y.len()) + concat(txout_chunks(y)),
        prefix_at(b, pos, compact_size(y.len())),
        prefix_at(b, pos + compact_size(y.len()).len(), concat(txout_chunks(y))),
{
    let e = spec_outputs_bytes(y);
    let c = compact_size(y.len());
    assert(y.map_values(|o: TxOutView| spec_txout_bytes(o)) =~= txout_chunks(y));
    assert(e == c + concat(txout_chunks(y)));
    lemma_prefix_part(b, pos, e, 0, c.len() as int);
    lemma_prefix_part(b, pos, e, c.len() as int, e.len() as int);
    assert(e.subrange(0, c.len() as int) =~= c);
    assert(e.subrange(c.len() as int, e.len() as int) =~= concat(txout_chunks(y)));
}

/// Reads outputs with their number in front at `pos`. Any outputs that stand there are read,
/// and take the same bytes.
fn read_outputs(b: &[u8], pos: usize) -> (r: Option<(Vec<TxOut>, usize)>)
    ensures
        match r {
            Some((outs, end)) => {
                &&& pos < end <= b@.len()
                &&& b@.subrange(pos as int, end as int) == spec_outputs_bytes(outs@.map_values(|o: TxOut| o@))
                &&& txouts_ok(outs@.map_values(|o: TxOut| o@))
                &&& forall|ys: Seq<TxOutView>|
                    txouts_ok(ys) && #[trigger] prefix_at(b@, pos as int, spec_outputs_bytes(ys)) ==> spec_outputs_bytes(ys)
                        == b@.subrange(pos as int, end as int)
            },
            None => forall|ys: Seq<TxOutView>| txouts_ok(ys) ==> !#[trigger] prefix_at(b@, pos as int, spec_outputs_bytes(ys)),
        },
{
    let ghost has = exists|ys: Seq<TxOutView>| txouts_ok(ys) && prefix_at(b@, pos as int, spec_outputs_bytes(ys));
    let ghost target = choose|ys: Seq<TxOutView>| txouts_ok(ys) && prefix_at(b@, pos as int, spec_outputs_bytes(ys));
    let (n, start) = match read_compact_size(b, pos) {
        Some(x) => x,
        None => {
            proof {
                assert forall|ys: Seq<TxOutView>| txouts_ok(ys) implies !#[trigger] prefix_at(b@, pos as int, spec_outputs_bytes(ys)) by {
                    if prefix_at(b@, pos as int, spec_outputs_bytes(ys)) {
                        lemma_outputs_parts(b@, pos as int, ys);
                        let k = ys.len() as u64;
                        assert(b@.subrange(pos as int, pos + compact_size(k as nat).len()) == compact_size(k as nat));
                    }
                }
            }
            return None;
        },
    };
    proof {
        assert forall|ys: Seq<TxOutView>| txouts_ok(ys) && #[trigger] prefix_at(b@, pos as int, spec_outputs_bytes(ys)) implies ys.len()
            == n && start == pos + compact_size(ys.len()).len() by {
            lemma_outputs_parts(b@, pos as int, ys);
            lemma_compact_size_prefix(b@, pos as int, n as nat, ys.len());
        }
        assert forall|ys: Seq<TxOutView>| txouts_ok(ys) && #[trigger] prefix_at(b@, pos as int, spec_outputs_bytes(ys)) implies start
            == start + concat(txout_chunks(ys).take(0)).len() by {
            assert(txout_chunks(ys).take(0) =~= Seq::<Seq<u8>>::empty());
        }
    }
    let mut outs: Vec<TxOut> = Vec::new();
    let mut p = start;
    let mut i: u64 = 0;
    proof {
        assert(b@.subrange(start as int, start as int) =~= Seq::<u8>::empty());
    }
    while i < n
        invariant
            pos < start <= p <= b@.len(),
            b@.subrange(pos as int, start as int) == compact_size(n as nat),
            i <= n,
            outs@.len() == i,
            forall|j: int| 0 <= j < i ==> (#[trigger] outs@[j])@.script_pubkey.len() <= u64::MAX,
            b@.subrange(start as int, p as int) == concat(
                outs@.map_values(|o: TxOut| o@).map_values(|x: TxOutView| spec_txout_bytes(x)),
            ),
            has == exists|ys: Seq<TxOutView>| txouts_ok(ys) && prefix_at(b@, pos as int, spec_outputs_bytes(ys)),
            has ==> txouts_ok(target) && prefix_at(b@, pos as int, spec_outputs_bytes(target)),
            forall|ys: Seq<TxOutView>|
                txouts_ok(ys) && #[trigger] prefix_at(b@, pos as int, spec_outputs_bytes(ys)) ==> ys.len() == n && start
                    == pos + compact_size(ys.len()).len() && p == start + concat(txout_chunks(ys).take(i as int)).len(),
        decreases n - i,
    {
        proof {
            if has {
                lemma_outputs_parts(b@, pos as int, target);
                lemma_chunk_at(b@, start as int, txout_chunks(target), i as int);
                assert(txout_chunks(target)[i as int] == spec_txout_bytes(target[i as int]));
                assert(target[i as int].script_pubkey.len() <= u64::MAX);
                let e = spec_txout_bytes(target[i as int]);
                assert(b@.subrange(p as int, p + e.len()) == e);
            }
        }
        let (output, next) = match read_txout(b, p) {
            Some(x) => x,
            None => return None,
        };
        let ghost before = outs@;
        outs.push(output);
        proof {
            let vs = outs@.map_values(|o: TxOut| o@).map_values(|x: TxOutView| spec_txout_bytes(x));
            assert(vs.drop_last() =~= before.map_values(|o: TxOut| o@).map_values(|x: TxOutView| spec_txout_bytes(x)));
            assert(b@.subrange(start as int, next as int) =~= b@.subrange(start as int, p as int)
                + b@.subrange(p as int, next as int));
            assert forall|j: int| 0 <= j < i + 1 implies (#[trigger] outs@[j])@.script_pubkey.len() <= u64::MAX by {
                if j < i {
                    assert(outs@[j] == before[j]);
                }
            }
            assert forall|ys: Seq<TxOutView>| txouts_ok(ys) && #[trigger] prefix_at(b@, pos as int, spec_outputs_bytes(ys)) implies ys.len()
                == n && start == pos + compact_size(ys.len()).len() && next == start + concat(
                txout_chunks(ys).take(i + 1),
            ).len() by {
                lemma_outputs_parts(b@, pos as int, ys);
                lemma_chunk_at(b@, start as int, txout_chunks(ys), i as int);
                assert(txout_chunks(ys)[i as int] == spec_txout_bytes(ys[i as int]));
                assert(ys[i as int].script_pubkey.len() <= u64::MAX);
                crate::storage::coin::lemma_txout_prefix_unique(b@, p as int, ys[i as int], output@);
            }
        }
        p = next;
        i = i + 1;
    }
    proof {
        assert(b@.subrange(pos as int, p as int) =~= b@.subrange(pos as int, start as int) + b@.subrange(
            start as int,
            p as int,
        ));
        assert(outs@.map_values(|o: TxOut| o@).map_values(|x: TxOutView| spec_txout_bytes(x))
            =~= outs@.map_values(|o: TxOut| o@).map_values(|x: TxOutView| spec_txout_bytes(x)));
        let ov = outs@.map_values(|o: TxOut| o@);
        assert forall|j: int| 0 <= j < ov.len() implies #[trigger] ov[j].script_pubkey.len() <= u64::MAX by {
            assert(outs@[j]@.script_pubkey.len() <= u64::MAX);
        }
        assert forall|ys: Seq<TxOutView>| txouts_ok(ys) && #[trigger] prefix_at(b@, pos as int, spec_outputs_bytes(ys)) implies spec_outputs_bytes(ys)
            == b@.subrange(pos as int, p as int) by {
            lemma_outputs_parts(b@, pos as int, ys);
            assert(txout_chunks(ys).take(n as int) =~= txout_chunks(ys));
        }
    }
    Some((outs, p))
}

/// The low 32 bits of a version read back as themselves.
proof fn lemma_version_bits(v: u32)
    ensures
        ((v as i32) as u32) == v,
{
    assert(((v as i32) as u32) == v) by (bit_vector);
}

/// Whether a transaction can be written: its counts, scripts and witness items fit compact
/// sizes.
pub open spec fn tx_encodable(t: TransactionView) -> bool {
    &&& t.inputs.len() <= u64::MAX
    &&& txins_ok(t.inputs)
    &&& forall|j: int| 0 <= j < t.inputs.len() ==> #[trigger] witness_ok(t.inputs[j].witness)
    &&& txouts_ok(t.outputs)
}

/// The witnesses of some inputs, each as a list.
pub open spec fn witness_chunks(ins: Seq<TxInView>) -> Seq<Seq<u8>> {
    ins.map_values(|x: TxInView| var_list(x.witness))
}

/// Inputs with their number in front are the number, then the inputs.
proof fn lemma_inputs_parts(b: Seq<u8>, pos: int, y: Seq<TxInView>)
    requires
        prefix_at(b, pos, spec_inputs_bytes(y)),
    ensures
        spec_inputs_bytes(y) == compact_size(y.len()) + concat(txin_chunks(y)),
        prefix_at(b, pos, compact_size(y.len())),
        prefix_at(b, pos + compact_size(y.len()).len(), concat(txin_chunks(y))),
{
    let e = spec_inputs_bytes(y);
    let c = compact_size(y.len());
    assert(y.map_values(|i: TxInView| spec_txin_bytes(i)) =~= txin_chunks(y));
    assert(e == c + concat(txin_chunks(y)));
    lemma_prefix_part(b, pos, e, 0, c.len() as int);
    lemma_prefix_part(b, pos, e, c.len() as int, e.len() as int);
    assert(e.subrange(0, c.len() as int) =~= c);
    assert(e.subrange(c.len() as int, e.len() as int) =~= concat(txin_chunks(y)));
}

/// The parts of a transaction standing at `pos` stand one after the other.
proof fn lemma_tx_parts(b: Seq<u8>, pos: int, y: TransactionView)
    requires
        prefix_at(b, pos, spec_tx_bytes(y)),
    ensures
        ({
            let v = spec_u32_to_le_bytes(y.version as u32);
            let ii = spec_inputs_bytes(y.inputs);
            let oo = spec_outputs_bytes(y.outputs);
            let ww = spec_witnesses_bytes(y.inputs);
            let l = spec_u32_to_le_bytes(y.lock_time);
            &&& v.len() == 4 && l.len() == 4
            &&& b.subrange(pos, pos + 4) == v
            &&& uses_segwit(y) ==> {
                &&& spec_tx_bytes(y).len() == 10 + ii.len() + oo.len() + ww.len()
                &&& prefix_at(b, pos + 4, compact_size(0))
                &&& b[pos + 5] == 1
                &&& prefix_at(b, pos + 6, ii)
                &&& prefix_at(b, pos + 6 + ii.len(), oo)
                &&& prefix_at(b, pos + 6 + ii.len() + oo.len(), ww)
                &&& b.subrange(pos + 6 + ii.len() + oo.len() + ww.len(), pos + 10 + ii.len() + oo.len() + ww.len()) == l
            }
            &&& !uses_segwit(y) ==> {
                &&& spec_tx_bytes(y).len() == 8 + ii.len() + oo.len()
                &&& prefix_at(b, pos + 4, ii)
                &&& prefix_at(b, pos + 4 + ii.len(), oo)
                &&& b.subrange(pos + 4 + ii.len() + oo.len(), pos + 8 + ii.len() + oo.len()) == l
            }
        }),
{
    lemma_auto_spec_u32_to_from_le_bytes();
    let v = spec_u32_to_le_bytes(y.version as u32);
    let ii = spec_inputs_bytes(y.inputs);
    let oo = spec_outputs_bytes(y.outputs);
    let ww = spec_witnesses_bytes(y.inputs);
    let l = spec_u32_to_le_bytes(y.lock_time);
    let e = spec_tx_bytes(y);
    lemma_prefix_part(b, pos, e, 0, 4);
    if uses_segwit(y) {
        let m = seq![0u8, 1u8];
        assert(e =~= v + m + ii + oo + ww + l);
        assert(e.subrange(0, 4) =~= v);
        lemma_prefix_part(b, pos, e, 4, 5);
        assert(e.subrange(4, 5) =~= compact_size(0));
        lemma_prefix_part(b, pos, e, 5, 6);
        assert(e.subrange(5, 6) =~= seq![1u8]);
        assert(b.subrange(pos + 5, pos + 6)[0] == b[pos + 5]);
        let a: int = 6 + ii.len() as int;
        let c: int = a + oo.len();
        let d: int = c + ww.len();
        lemma_prefix_part(b, pos, e, 6, a as int);
        assert(e.subrange(6, a as int) =~= ii);
        lemma_prefix_part(b, pos, e, a as int, c as int);
        assert(e.subrange(a as int, c as int) =~= oo);
        lemma_prefix_part(b, pos, e, c as int, d as int);
        assert(e.subrange(c as int, d as int) =~= ww);
        lemma_prefix_part(b, pos, e, d as int, d + 4);
        assert(e.subrange(d as int, d + 4) =~= l);
    } else {
        assert(e =~= v + ii + oo + l);
        assert(e.subrange(0, 4) =~= v);
        let a: int = 4 + ii.len() as int;
        let c: int = a + oo.len();
        lemma_prefix_part(b, pos, e, 4, a as int);
        assert(e.subrange(4, a as int) =~= ii);
        lemma_prefix_part(b, pos, e, a as int, c as int);
        assert(e.subrange(a as int, c as int) =~= oo);
        lemma_prefix_part(b, pos, e, c as int, c + 4);
        assert(e.subrange(c as int, c + 4) =~= l);
    }
}

/// Two witnesses written the same have as many items.
proof fn lemma_var_list_len_eq(x: Seq<Seq<u8>>, y: Seq<Seq<u8>>)
    requires
        var_list(x) == var_list(y),
        x.len() <= u64::MAX,
        y.len() <= u64::MAX,
    ensures
        x.len() == y.len(),
{
    let e = var_list(x);
    assert(e.subrange(0, e.len() as int) =~= e);
    lemma_var_list_parts(e, 0, x);
    lemma_var_list_parts(e, 0, y);
    lemma_compact_size_prefix(e, 0, x.len(), y.len());
}

/// Reads a transaction at `pos`, in either encoding. Any transaction that can be written and
/// stands there is read, and takes the same bytes.
#[verifier::rlimit(100)]
#[verifier::spinoff_prover]
pub fn read_tx(b: &[u8], pos: usize) -> (r: Option<(Transaction, usize)>)
    ensures
        match r {
            Some((t, end)) => {
                &&& pos < end <= b@.len()
                &&& b@.subrange(pos as int, end as int) == spec_tx_bytes(t@)
                &&& forall|y: TransactionView|
                    tx_encodable(y) && #[trigger] prefix_at(b@, pos as int, spec_tx_bytes(y)) ==> spec_tx_bytes(y)
                        == b@.subrange(pos as int, end as int)
            },
            None => forall|y: TransactionView| tx_encodable(y) ==> !#[trigger] prefix_at(b@, pos as int, spec_tx_bytes(y)),
        },
{
    let ghost has = exists|y: TransactionView| tx_encodable(y) && prefix_at(b@, pos as int, spec_tx_bytes(y));
    let ghost target = choose|y: TransactionView| tx_encodable(y) && prefix_at(b@, pos as int, spec_tx_bytes(y));
    proof {
        lemma_auto_spec_u32_to_from_le_bytes();
        if has {
            lemma_tx_parts(b@, pos as int, target);
        }
    }
    let (version, p1) = match read_u32(b, pos) {
        Some(x) => x,
        None => return None,
    };
    proof {
        lemma_version_bits(version);
    }
    proof {
        if has {
            if uses_segwit(target) {
                assert(b@.subrange(p1 as int, p1 + compact_size(0).len()) == compact_size(0));
            } else {
                lemma_inputs_parts(b@, p1 as int, target.inputs);
                let k = target.inputs.len() as u64;
                assert(b@.subrange(p1 as int, p1 + compact_size(k as nat).len()) == compact_size(k as nat));
            }
        }
    }
    let (n_in, p2) = match read_compact_size(b, p1) {
        Some(x) => x,
        None => return None,
    };
    proof {
        // Which form a transaction standing here has: the count read tells.
        assert forall|y: TransactionView| tx_encodable(y) && #[trigger] prefix_at(b@, pos as int, spec_tx_bytes(y)) implies (
        uses_segwit(y) <==> n_in == 0) by {
            lemma_tx_parts(b@, pos as int, y);
            if uses_segwit(y) {
                lemma_compact_size_prefix(b@, p1 as int, n_in as nat, 0);
            } else {
                lemma_inputs_parts(b@, p1 as int, y.inputs);
                lemma_compact_size_prefix(b@, p1 as int, n_in as nat, y.inputs.len());
            }
        }
    }
    if n_in == 0 {
        proof {
            assert(b@.subrange(p1 as int, p2 as int) == compact_size(0));
            assert(compact_size(0) =~= seq![0u8]);
        }
        if p2 >= b.len() || b[p2] != 1 {
            return None;
        }
        let p3 = p2 + 1;
        proof {
            if has {
                lemma_inputs_parts(b@, p3 as int, target.inputs);
                let k = target.inputs.len() as u64;
                assert(b@.subrange(p3 as int, p3 + compact_size(k as nat).len()) == compact_size(k as nat));
            }
        }
        let (n, p4) = match read_compact_size(b, p3) {
            Some(x) => x,
            None => return None,
        };
        proof {
            assert forall|y: TransactionView| tx_encodable(y) && #[trigger] prefix_at(b@, pos as int, spec_tx_bytes(y)) implies y.inputs.len()
                == n && prefix_at(b@, p4 as int, concat(txin_chunks(y.inputs))) by {
                lemma_tx_parts(b@, pos as int, y);
                lemma_inputs_parts(b@, p3 as int, y.inputs);
                lemma_compact_size_prefix(b@, p3 as int, n as nat, y.inputs.len());
            }
            if has {
                assert(prefix_at(b@, p4 as int, concat(txin_chunks(target.inputs))));
            }
        }
        let (parts, p5) = match read_inputs(b, p4, n) {
            Some(x) => x,
            None => return None,
        };
        proof {
            assert forall|y: TransactionView| tx_encodable(y) && #[trigger] prefix_at(b@, pos as int, spec_tx_bytes(y)) implies p5
                == p3 + spec_inputs_bytes(y.inputs).len() && prefix_at(b@, p5 as int, spec_outputs_bytes(y.outputs)) by {
                lemma_tx_parts(b@, pos as int, y);
                lemma_inputs_parts(b@, p3 as int, y.inputs);
                assert(prefix_at(b@, p4 as int, concat(txin_chunks(y.inputs))));
            }
            if has {
                assert(prefix_at(b@, p5 as int, spec_outputs_bytes(target.outputs)));
            }
        }
        let (outputs, p6) = match read_outputs(b, p5) {
            Some(x) => x,
            None => return None,
        };
        proof {
            assert forall|y: TransactionView| tx_encodable(y) && #[trigger] prefix_at(b@, pos as int, spec_tx_bytes(y)) implies p6
                == p5 + spec_outputs_bytes(y.outputs).len() && prefix_at(
                b@,
                p6 as int,
                concat(witness_chunks(y.inputs)),
            ) && p6 + concat(witness_chunks(y.inputs).take(0)).len() == p6 by {
                lemma_tx_parts(b@, pos as int, y);
                assert(prefix_at(b@, p5 as int, spec_outputs_bytes(y.outputs)));
                assert(y.inputs.map_values(|i: TxInView| var_list(i.witness)) =~= witness_chunks(y.inputs));
                assert(witness_chunks(y.inputs).take(0) =~= Seq::<Seq<u8>>::empty());
            }
        }
        let mut inputs: Vec<TxIn> = Vec::new();
        let mut p = p6;
        let mut any = false;
        let mut i: usize = 0;
        proof {
            assert(b@.subrange(p6 as int, p6 as int) =~= Seq::<u8>::empty());
        }
        while i < parts.len()
            invariant
                p6 <= p <= b@.len(),
                i <= parts@.len(),
                parts@.len() == n,
                inputs@.len() == i,
                forall|j: int|
                    0 <= j < i ==> {
                        &&& (#[trigger] inputs@[j])@.previous_output == parts@[j]@.previous_output
                        &&& inputs@[j]@.script_sig == parts@[j]@.script_sig
                        &&& inputs@[j]@.sequence == parts@[j]@.sequence
                        &&& witness_ok(inputs@[j]@.witness)
                    },
                any == exists|j: int| 0 <= j < i && (#[trigger] inputs@[j])@.witness.len() > 0,
                b@.subrange(p6 as int, p as int) == concat(
                    inputs@.map_values(|x: TxIn| x@).map_values(|v: TxInView| var_list(v.witness)),
                ),
                has == exists|y: TransactionView| tx_encodable(y) && prefix_at(b@, pos as int, spec_tx_bytes(y)),
                has ==> tx_encodable(target) && prefix_at(b@, pos as int, spec_tx_bytes(target)),
                forall|y: TransactionView|
                    tx_encodable(y) && #[trigger] prefix_at(b@, pos as int, spec_tx_bytes(y)) ==> {
                        &&& uses_segwit(y)
                        &&& y.inputs.len() == n
                        &&& prefix_at(b@, p6 as int, concat(witness_chunks(y.inputs)))
                        &&& p == p6 + concat(witness_chunks(y.inputs).take(i as int)).len()
                        &&& forall|j: int| 0 <= j < i ==> (#[trigger] inputs@[j])@.witness.len() == y.inputs[j].witness.len()
                    },
            decreases parts@.len() - i,
        {
            proof {
                if has {
                    lemma_chunk_at(b@, p6 as int, witness_chunks(target.inputs), i as int);
                    assert(witness_chunks(target.inputs)[i as int] == var_list(target.inputs[i as int].witness));
                    assert(witness_ok(target.inputs[i as int].witness));
                }
            }
            let (w, next) = match read_witness(b, p) {
                Some(x) => x,
                None => return None,
            };
            if w.len() > 0 {
                any = true;
            }
            let ghost before = inputs@;
            let input = TxIn {
                previous_output: parts[i].previous_output,
                script_sig: copy_bytes(parts[i].script_sig.as_slice()),
                sequence: parts[i].sequence,
                witness: w,
            };
            inputs.push(input);
            proof {
                let vs = inputs@.map_values(|x: TxIn| x@).map_values(|v: TxInView| var_list(v.witness));
                assert(vs.drop_last() =~= before.map_values(|x: TxIn| x@).map_values(|v: TxInView| var_list(v.witness)));
                assert(vs.last() == var_list(input@.witness));
                assert(b@.subrange(p6 as int, next as int) =~= b@.subrange(p6 as int, p as int)
                    + b@.subrange(p as int, next as int));
                assert(input@.witness.len() == w@.len());
                assert(input@.witness == w@.map_values(|x: Vec<u8>| x@));
                assert forall|j: int|
                    0 <= j < i + 1 implies {
                        &&& (#[trigger] inputs@[j])@.previous_output == parts@[j]@.previous_output
                        &&& inputs@[j]@.script_sig == parts@[j]@.script_sig
                        &&& inputs@[j]@.sequence == parts@[j]@.sequence
                        &&& witness_ok(inputs@[j]@.witness)
                    } by {
                    if j < i {
                        assert(inputs@[j] == before[j]);
                    }
                }
                if any {
                    if w@.len() > 0 {
                        assert(inputs@[i as int]@.witness.len() > 0);
                    } else {
                        let j = choose|j: int| 0 <= j < i && (#[trigger] before[j])@.witness.len() > 0;
                        assert(inputs@[j] == before[j]);
                    }
                } else {
                    assert forall|j: int| 0 <= j < i + 1 implies !((#[trigger] inputs@[j])@.witness.len() > 0) by {
                        if j < i {
                            assert(inputs@[j] == before[j]);
                        }
                    }
                }
                assert forall|y: TransactionView| tx_encodable(y) && #[trigger] prefix_at(b@, pos as int, spec_tx_bytes(y)) implies {
                    &&& uses_segwit(y)
                    &&& y.inputs.len() == n
                    &&& prefix_at(b@, p6 as int, concat(witness_chunks(y.inputs)))
                    &&& next == p6 + concat(witness_chunks(y.inputs).take(i + 1)).len()
                    &&& forall|j: int| 0 <= j < i + 1 ==> (#[trigger] inputs@[j])@.witness.len() == y.inputs[j].witness.len()
                } by {
                    lemma_chunk_at(b@, p6 as int, witness_chunks(y.inputs), i as int);
                    assert(witness_chunks(y.inputs)[i as int] == var_list(y.inputs[i as int].witness));
                    assert(witness_ok(y.inputs[i as int].witness));
                    lemma_var_list_len_eq(y.inputs[i as int].witness, input@.witness);
                    assert forall|j: int| 0 <= j < i + 1 implies (#[trigger] inputs@[j])@.witness.len()
                        == y.inputs[j].witness.len() by {
                        if j < i {
                            assert(inputs@[j] == before[j]);
                        }
                    }
                }
            }
            p = next;
            i = i + 1;
        }
        proof {
            if has && parts@.len() > 0 {
                lemma_tx_parts(b@, pos as int, target);
                let j = choose|j: int| 0 <= j < target.inputs.len() && (#[trigger] target.inputs[j]).witness.len() > 0;
                assert(inputs@[j]@.witness.len() == target.inputs[j].witness.len());
            }
        }
        if parts.len() > 0 && !any {
            return None;
        }
        proof {
            if has {
                lemma_tx_parts(b@, pos as int, target);
                assert(witness_chunks(target.inputs).take(n as int) =~= witness_chunks(target.inputs));
                assert(target.inputs.map_values(|i: TxInView| var_list(i.witness)) =~= witness_chunks(target.inputs));
            }
        }
        let (lock_time, p7) = match read_u32(b, p) {
            Some(x) => x,
            None => return None,
        };
        let t = Transaction { version: #[verifier::truncate] (version as i32), lock_time, inputs, outputs };
        proof {
            let tv = t@;
            assert(tv.inputs.map_values(|x: TxInView| spec_txin_bytes(x)) =~= parts@.map_values(
                |x: TxIn| x@,
            ).map_values(|x: TxInView| spec_txin_bytes(x)));
            assert(b@.subrange(p3 as int, p5 as int) =~= b@.subrange(p3 as int, p4 as int) + b@.subrange(p4 as int, p5 as int));
            assert(spec_inputs_bytes(tv.inputs) == b@.subrange(p3 as int, p5 as int));
            assert(b@.subrange(p1 as int, p3 as int) =~= seq![0u8, 1u8]) by {
                assert(b@.subrange(p1 as int, p3 as int) =~= b@.subrange(p1 as int, p2 as int) + seq![b@[p2 as int]]);
            }
            if tv.inputs.len() > 0 {
                let j = choose|j: int| 0 <= j < parts@.len() && (#[trigger] inputs@[j])@.witness.len() > 0;
                assert(tv.inputs[j].witness.len() > 0);
            }
            assert(uses_segwit(tv));
            assert(spec_witnesses_bytes(tv.inputs) == b@.subrange(p6 as int, p as int));
            assert(b@.subrange(pos as int, p7 as int) =~= b@.subrange(pos as int, p1 as int) + b@.subrange(p1 as int, p3 as int)
                + b@.subrange(p3 as int, p5 as int) + b@.subrange(p5 as int, p6 as int) + b@.subrange(p6 as int, p as int)
                + b@.subrange(p as int, p7 as int));
            assert forall|y: TransactionView| tx_encodable(y) && #[trigger] prefix_at(b@, pos as int, spec_tx_bytes(y)) implies spec_tx_bytes(y)
                == b@.subrange(pos as int, p7 as int) by {
                lemma_tx_parts(b@, pos as int, y);
                lemma_inputs_parts(b@, p3 as int, y.inputs);
                assert(witness_chunks(y.inputs).take(n as int) =~= witness_chunks(y.inputs));
                assert(y.inputs.map_values(|i: TxInView| var_list(i.witness)) =~= witness_chunks(y.inputs));
            }
        }
        Some((t, p7))
    } else {
        proof {
            assert forall|y: TransactionView| tx_encodable(y) && #[trigger] prefix_at(b@, pos as int, spec_tx_bytes(y)) implies y.inputs.len()
                == n_in && prefix_at(b@, p2 as int, concat(txin_chunks(y.inputs))) by {
                lemma_tx_parts(b@, pos as int, y);
                lemma_inputs_parts(b@, p1 as int, y.inputs);
                lemma_compact_size_prefix(b@, p1 as int, n_in as nat, y.inputs.len());
            }
            if has {
                assert(prefix_at(b@, p2 as int, concat(txin_chunks(target.inputs))));
            }
        }
        let (inputs, p3) = match read_inputs(b, p2, n_in) {
            Some(x) => x,
            None => return None,
        };
        proof {
            assert forall|y: TransactionView| tx_encodable(y) && #[trigger] prefix_at(b@, pos as int, spec_tx_bytes(y)) implies p3
                == p1 + spec_inputs_bytes(y.inputs).len() && prefix_at(b@, p3 as int, spec_outputs_bytes(y.outputs)) by {
                lemma_tx_parts(b@, pos as int, y);
                lemma_inputs_parts(b@, p1 as int, y.inputs);
                assert(prefix_at(b@, p2 as int, concat(txin_chunks(y.inputs))));
            }
            if has {
                assert(prefix_at(b@, p3 as int, spec_outputs_bytes(target.outputs)));
            }
        }
        let (outputs, p4) = match read_outputs(b, p3) {
            Some(x) => x,
            None => return None,
        };
        proof {
            if has {
                lemma_tx_parts(b@, pos as int, target);
                assert(prefix_at(b@, p3 as int, spec_outputs_bytes(target.outputs)));
            }
        }
        let (lock_time, p5) = match read_u32(b, p4) {
            Some(x) => x,
            None => return None,
        };
        let t = Transaction { version: #[verifier::truncate] (version as i32), lock_time, inputs, outputs };
        proof {
            let tv = t@;
            assert(!uses_segwit(tv)) by {
                assert forall|j: int| 0 <= j < tv.inputs.len() implies !((#[trigger] tv.inputs[j]).witness.len() > 0) by {
                    assert(tv.inputs[j] == inputs@[j]@);
                }
            }
            assert(b@.subrange(p1 as int, p3 as int) =~= b@.subrange(p1 as int, p2 as int) + b@.subrange(p2 as int, p3 as int));
            assert(b@.subrange(pos as int, p5 as int) =~= b@.subrange(pos as int, p1 as int) + b@.subrange(p1 as int, p3 as int)
                + b@.subrange(p3 as int, p4 as int) + b@.subrange(p4 as int, p5 as int));
            assert forall|y: TransactionView| tx_encodable(y) && #[trigger] prefix_at(b@, pos as int, spec_tx_bytes(y)) implies spec_tx_bytes(y)
                == b@.subrange(pos as int, p5 as int) by {
                lemma_tx_parts(b@, pos as int, y);
                assert(prefix_at(b@, p3 as int, spec_outputs_bytes(y.outputs)));
            }
        }
        Some((t, p5))
    }
}

/// Every list held in memory has at most `usize::MAX` items, so a transaction in memory can be
/// written.
pub proof fn lemma_tx_encodable(t: Transaction)
    ensures
        tx_encodable(t@),
{
    let v = t@;
    assert(t.inputs.len() == t.inputs@.len());
    assert(t.outputs.len() == t.outputs@.len());
    assert forall|j: int| 0 <= j < v.inputs.len() implies #[trigger] txin_ok(v.inputs[j]) by {
        let i = t.inputs@[j];
        assert(i.script_sig.len() == i.script_sig@.len());
    }
    assert forall|j: int| 0 <= j < v.inputs.len() implies #[trigger] witness_ok(v.inputs[j].witness) by {
        let i = t.inputs@[j];
        assert(i.witness.len() == i.witness@.len());
        assert forall|k: int| 0 <= k < v.inputs[j].witness.len() implies #[trigger] v.inputs[j].witness[k].len()
            <= u64::MAX by {
            let w = i.witness@[k];
            assert(w.len() == w@.len());
        }
    }
    assert forall|j: int| 0 <= j < v.outputs.len() implies #[trigger] v.outputs[j].script_pubkey.len() <= u64::MAX by {
        let o = t.outputs@[j];
        assert(o.script_pubkey.len() == o.script_pubkey@.len());
    }
}

/// A block in memory can be written.
pub proof fn lemma_block_encodable(b: Block)
    ensures
        block_encodable(b@),
{
    assert(b.transactions.len() == b.transactions@.len());
    assert forall|j: int| 0 <= j < b@.transactions.len() implies #[trigger] tx_encodable(b@.transactions[j]) by {
        lemma_tx_encodable(b.transactions@[j]);
    }
}

/// Whether a block can be written: its number of transactions fits a compact size, and each
/// transaction can be written.
pub open spec fn block_encodable(b: BlockView) -> bool {
    &&& b.transactions.len() <= u64::MAX
    &&& forall|j: int| 0 <= j < b.transactions.len() ==> #[trigger] tx_encodable(b.transactions[j])
}

/// The encodings of some transactions, one after the other.
pub open spec fn tx_chunks(txs: Seq<TransactionView>) -> Seq<Seq<u8>> {
    txs.map_values(|t: TransactionView| spec_tx_bytes(t))
}

/// The parts of a block's encoding: 80 bytes of header, the count, then the transactions.
proof fn lemma_block_parts(b: Seq<u8>, blk: BlockView)
    requires
        spec_block_bytes(blk) == b,
    ensures
        b.len() >= 80int + compact_size(blk.transactions.len()).len(),
        b.subrange(80, 80int + compact_size(blk.transactions.len()).len()) == compact_size(blk.transactions.len()),
        prefix_at(b, 80int + compact_size(blk.transactions.len()).len(), concat(tx_chunks(blk.transactions))),
        b.len() == 80int + compact_size(blk.transactions.len()).len() + concat(tx_chunks(blk.transactions)).len(),
{
    lemma_header_roundtrip(blk.header);
    let c = compact_size(blk.transactions.len());
    let x = concat(tx_chunks(blk.transactions));
    assert(blk.transactions.map_values(|t: TransactionView| spec_tx_bytes(t)) =~= tx_chunks(blk.transactions));
    assert(b.subrange(0, b.len() as int) =~= b);
    lemma_prefix_part(b, 0, b, 80, 80int + c.len());
    assert(b.subrange(80, 80int + c.len()) =~= c);
    lemma_prefix_part(b, 0, b, 80int + c.len(), b.len() as int);
    assert(b.subrange(80int + c.len(), b.len() as int) =~= x);
}

impl Block {
    pub fn block_hash(&self) -> (r: BlockHash)
        ensures
            r == spec_block_hash(self.header),
    {
        self.header.block_hash()
    }

    /// The consensus encoding.
    pub fn encode(&self) -> (r: Vec<u8>)
        ensures
            r@ == spec_block_bytes(self@),
    {
        let mut out = self.header.encode();
        let ghost start = out@;
        let ghost txs = self@.transactions;
        write_compact_size(&mut out, self.transactions.len() as u64);
        let mut i: usize = 0;
        while i < self.transactions.len()
            invariant
                txs == self@.transactions,
                start == spec_encode_header(self.header),
                i <= txs.len(),
                out@ == start + compact_size(txs.len()) + concat(
                    txs.take(i as int).map_values(|t: TransactionView| spec_tx_bytes(t)),
                ),
            decreases txs.len() - i,
        {
            proof {
                lemma_concat_push(txs, |t: TransactionView| spec_tx_bytes(t), i as int);
            }
            self.transactions[i].write(&mut out);
            i = i + 1;
        }
        proof {
            assert(txs.take(txs.len() as int) =~= txs);
        }
        out
    }

    /// Reads a block that fills `bytes` exactly. Any block that can be written and whose
    /// encoding is `bytes` is read.
    pub fn decode(bytes: &[u8]) -> (r: Option<Block>)
        ensures
            r is Some ==> spec_block_bytes(r->Some_0@) == bytes@,
            forall|blk: BlockView| block_encodable(blk) && #[trigger] spec_block_bytes(blk) == bytes@ ==> r is Some,
    {
        let ghost has = exists|blk: BlockView| block_encodable(blk) && spec_block_bytes(blk) == bytes@;
        let ghost target = choose|blk: BlockView| block_encodable(blk) && spec_block_bytes(blk) == bytes@;
        proof {
            if has {
                lemma_block_parts(bytes@, target);
            }
        }
        if bytes.len() < 80 {
            return None;
        }
        let header = Header::decode(vstd::slice::slice_subrange(bytes, 0, 80));
        proof {
            lemma_header_decode_encode(bytes@.subrange(0, 80));
            if has {
                let k = target.transactions.len() as u64;
                assert(bytes@.subrange(80, 80int + compact_size(k as nat).len()) == compact_size(k as nat));
            }
        }
        let (n, start) = match read_compact_size(bytes, 80) {
            Some(x) => x,
            None => return None,
        };
        proof {
            if has {
                lemma_compact_size_prefix(bytes@, 80, n as nat, target.transactions.len());
            }
        }
        let mut transactions: Vec<Transaction> = Vec::new();
        let mut p = start;
        let mut i: u64 = 0;
        proof {
            assert(bytes@.subrange(start as int, start as int) =~= Seq::<u8>::empty());
            if has {
                assert(tx_chunks(target.transactions).take(0) =~= Seq::<Seq<u8>>::empty());
            }
        }
        while i < n
            invariant
                80 < start <= p <= bytes@.len(),
                bytes@.subrange(80, start as int) == compact_size(n as nat),
                i <= n,
                transactions@.len() == i,
                bytes@.subrange(start as int, p as int) == concat(
                    transactions@.map_values(|t: Transaction| t@).map_values(
                        |t: TransactionView| spec_tx_bytes(t),
                    ),
                ),
                has == exists|blk: BlockView| block_encodable(blk) && spec_block_bytes(blk) == bytes@,
                has ==> {
                    &&& block_encodable(target)
                    &&& spec_block_bytes(target) == bytes@
                    &&& target.transactions.len() == n
                    &&& prefix_at(bytes@, start as int, concat(tx_chunks(target.transactions)))
                    &&& p == start + concat(tx_chunks(target.transactions).take(i as int)).len()
                },
            decreases n - i,
        {
            proof {
                if has {
                    lemma_chunk_at(bytes@, start as int, tx_chunks(target.transactions), i as int);
                    assert(tx_chunks(target.transactions)[i as int] == spec_tx_bytes(target.transactions[i as int]));
                    assert(tx_encodable(target.transactions[i as int]));
                    assert(prefix_at(bytes@, p as int, spec_tx_bytes(target.transactions[i as int])));
                }
            }
            let (t, next) = match read_tx(bytes, p) {
                Some(x) => x,
                None => return None,
            };
            let ghost before = transactions@;
            transactions.push(t);
            proof {
                let vs = transactions@.map_values(|t: Transaction| t@).map_values(
                    |t: TransactionView| spec_tx_bytes(t),
                );
                assert(vs.drop_last() =~= before.map_values(|t: Transaction| t@).map_values(
                    |t: TransactionView| spec_tx_bytes(t),
                ));
                assert(bytes@.subrange(start as int, next as int) =~= bytes@.subrange(start as int, p as int)
                    + bytes@.subrange(p as int, next as int));
                if has {
                    let c = spec_tx_bytes(target.transactions[i as int]);
                    assert(prefix_at(bytes@, p as int, c));
                    assert(c == bytes@.subrange(p as int, next as int));
                }
            }
            p = next;
            i = i + 1;
        }
        proof {
            if has {
                assert(tx_chunks(target.transactions).take(n as int) =~= tx_chunks(target.transactions));
            }
        }
        if p != bytes.len() {
            return None;
        }
        let block = Block { header, transactions };
        proof {
            assert(bytes@.subrange(0, p as int) =~= bytes@.subrange(0, 80) + bytes@.subrange(80, start as int)
                + bytes@.subrange(start as int, p as int));
            assert(bytes@.subrange(0, p as int) =~= bytes@);
            assert(block@.transactions.len() == n);
        }
        Some(block)
    }
}

} // verus!
