//! Serialisation choices the protocol leaves to the sender.
//!
//! A `getdata` for a plain transaction or block selects the form without witnesses, while the
//! witness inventory types select the form with them (BIP 144). The encoder writes whatever
//! the value carries, so stripping is ours to do.

use vstd::prelude::*;

use crate::bytes::copy_bytes;
use crate::transaction::{
    spec_tx_base_bytes, spec_tx_bytes, spec_txid, spec_txin_bytes, uses_segwit, Block, BlockView,
    Transaction, TransactionView, TxIn, TxInView, TxOut,
};

verus! {

/// An input with its witness dropped.
pub open spec fn spec_strip_input(i: TxInView) -> TxInView {
    TxInView { witness: Seq::empty(), ..i }
}

/// A transaction whose inputs carry no witnesses.
pub open spec fn spec_without_witness(t: TransactionView) -> TransactionView {
    TransactionView { inputs: t.inputs.map_values(|i: TxInView| spec_strip_input(i)), ..t }
}

/// A block whose transactions carry no witnesses.
pub open spec fn spec_block_without_witness(b: BlockView) -> BlockView {
    BlockView { transactions: b.transactions.map_values(|t: TransactionView| spec_without_witness(t)), ..b }
}

/// A copy without witnesses, which encodes in the non-witness form.
pub fn transaction_without_witness(transaction: &Transaction) -> (r: Transaction)
    ensures
        r@ == spec_without_witness(transaction@),
{
    let ghost t = transaction@;
    let mut inputs: Vec<TxIn> = Vec::new();
    let mut i: usize = 0;
    while i < transaction.inputs.len()
        invariant
            t == transaction@,
            i <= t.inputs.len(),
            inputs@.map_values(|x: TxIn| x@) == t.inputs.take(i as int).map_values(|x: TxInView| spec_strip_input(x)),
        decreases t.inputs.len() - i,
    {
        let input = &transaction.inputs[i];
        let stripped = TxIn {
            previous_output: input.previous_output,
            script_sig: copy_bytes(input.script_sig.as_slice()),
            sequence: input.sequence,
            witness: Vec::new(),
        };
        proof {
            assert(stripped@.witness =~= Seq::<Seq<u8>>::empty());
        }
        let ghost before = inputs@;
        inputs.push(stripped);
        proof {
            assert(inputs@.map_values(|x: TxIn| x@) =~= before.map_values(|x: TxIn| x@).push(stripped@));
            assert(t.inputs.take(i + 1).map_values(|x: TxInView| spec_strip_input(x)) =~= t.inputs.take(
                i as int,
            ).map_values(|x: TxInView| spec_strip_input(x)).push(spec_strip_input(t.inputs[i as int])));
        }
        i = i + 1;
    }
    let mut outputs: Vec<TxOut> = Vec::new();
    let mut k: usize = 0;
    while k < transaction.outputs.len()
        invariant
            t == transaction@,
            k <= t.outputs.len(),
            outputs@.map_values(|x: TxOut| x@) == t.outputs.take(k as int),
        decreases t.outputs.len() - k,
    {
        let ghost before = outputs@;
        outputs.push(transaction.outputs[k].copy());
        proof {
            assert(outputs@.map_values(|x: TxOut| x@) =~= before.map_values(|x: TxOut| x@).push(
                t.outputs[k as int],
            ));
            assert(t.outputs.take(k + 1) =~= t.outputs.take(k as int).push(t.outputs[k as int]));
        }
        k = k + 1;
    }
    proof {
        assert(t.inputs.take(t.inputs.len() as int) =~= t.inputs);
        assert(t.outputs.take(t.outputs.len() as int) =~= t.outputs);
    }
    Transaction { version: transaction.version, lock_time: transaction.lock_time, inputs, outputs }
}

/// A copy of a block whose transactions carry no witnesses.
pub fn block_without_witness(block: &Block) -> (r: Block)
    ensures
        r@ == spec_block_without_witness(block@),
{
    let ghost b = block@;
    let mut transactions: Vec<Transaction> = Vec::new();
    let mut i: usize = 0;
    while i < block.transactions.len()
        invariant
            b == block@,
            i <= b.transactions.len(),
            transactions@.map_values(|x: Transaction| x@) == b.transactions.take(i as int).map_values(
                |x: TransactionView| spec_without_witness(x),
            ),
        decreases b.transactions.len() - i,
    {
        let stripped = transaction_without_witness(&block.transactions[i]);
        let ghost before = transactions@;
        transactions.push(stripped);
        proof {
            assert(transactions@.map_values(|x: Transaction| x@) =~= before.map_values(|x: Transaction| x@).push(
                stripped@,
            ));
            assert(b.transactions.take(i + 1).map_values(|x: TransactionView| spec_without_witness(x))
                =~= b.transactions.take(i as int).map_values(|x: TransactionView| spec_without_witness(x)).push(
                spec_without_witness(b.transactions[i as int]),
            ));
        }
        i = i + 1;
    }
    proof {
        assert(b.transactions.take(b.transactions.len() as int) =~= b.transactions);
    }
    Block { header: block.header, transactions }
}

/// Stripping witnesses leaves the legacy encoding, and so the txid, as it was.
pub proof fn lemma_stripping_keeps_txid(t: TransactionView)
    ensures
        spec_tx_base_bytes(spec_without_witness(t)) == spec_tx_base_bytes(t),
        spec_txid(spec_without_witness(t)) == spec_txid(t),
{
    let s = spec_without_witness(t);
    assert(s.inputs.map_values(|i: TxInView| spec_txin_bytes(i)) =~= t.inputs.map_values(
        |i: TxInView| spec_txin_bytes(i),
    ));
}

/// After stripping, no input carries a witness; a transaction with inputs then encodes in the
/// legacy form.
pub proof fn lemma_stripped_has_no_witness(t: TransactionView)
    ensures
        forall|i: int|
            0 <= i < spec_without_witness(t).inputs.len() ==> (#[trigger] spec_without_witness(t).inputs[i]).witness.len()
                == 0,
        t.inputs.len() > 0 ==> !uses_segwit(spec_without_witness(t)),
        t.inputs.len() > 0 ==> spec_tx_bytes(spec_without_witness(t)) == spec_tx_base_bytes(t),
{
    lemma_stripping_keeps_txid(t);
}

/// A transaction that carries a witness encodes differently once stripped.
pub proof fn lemma_stripping_changes_witness_bytes(t: TransactionView)
    requires
        exists|i: int| 0 <= i < t.inputs.len() && (#[trigger] t.inputs[i]).witness.len() > 0,
    ensures
        spec_tx_bytes(spec_without_witness(t)) != spec_tx_bytes(t),
{
    lemma_stripped_has_no_witness(t);
    assert(uses_segwit(t));
    assert(spec_tx_bytes(t).len() > spec_tx_base_bytes(t).len());
}

/// Stripping a block keeps its header, and so its hash, and its transactions in order.
pub proof fn lemma_block_stripping_keeps_header_and_order(b: BlockView)
    ensures
        spec_block_without_witness(b).header == b.header,
        spec_block_without_witness(b).transactions.len() == b.transactions.len(),
        forall|i: int|
            0 <= i < b.transactions.len() ==> spec_txid(#[trigger] spec_block_without_witness(b).transactions[i])
                == spec_txid(b.transactions[i]),
{
    assert forall|i: int| 0 <= i < b.transactions.len() implies spec_txid(
        #[trigger] spec_block_without_witness(b).transactions[i],
    ) == spec_txid(b.transactions[i]) by {
        lemma_stripping_keeps_txid(b.transactions[i]);
    }
}

} // verus!
