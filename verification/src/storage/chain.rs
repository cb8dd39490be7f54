//! The chainstate: the tables that must move together.
//!
//! Coins, undo data, the height index and the tip share one database, because a block changes
//! all four and the coin set means nothing without the tip that explains it. Anything that
//! does not need that, such as block bodies, lives elsewhere.

use vstd::prelude::*;

use crate::primitives::{spec_block_hash, BlockHash, Hash256, Txid};
use crate::transaction::{
    spec_is_coinbase, spec_txid, spec_txout_bytes, Block, BlockView, OutPoint, TransactionView, TxInView,
};
use super::coin::{
    copy_coins, lemma_txout_prefix_unique, lemma_undo_coins_unique, spec_coin_bytes, MAX_SCRIPT_SIZE, spec_is_unspendable, spec_undo_bytes, undo_encodable,
    undo_storable,
    BlockUndo, Coin, CoinView,
};
use super::db::{
    apply, apply_all, has_prefix, lemma_apply_all_concat, lemma_apply_all_settles, lemma_apply_all_untouched, lookup,
    read_error, read, read_ok, decodable, not_hosted, not_hosted_message, touches, written, Batch, Contents, Database, Encode, Profile, Store, Table, WriteView,
};
use super::error::{Result, StorageError};
use super::tables::{Coins, HeightIndex, Meta, MetaKey, Undo};

verus! {

broadcast use vstd::seq_lib::group_seq_properties;

/// The tables that belong to the chainstate. Only these can be written in one of its
/// transactions, which is checked when this code is compiled.
pub trait InChainstate: Table {}

impl InChainstate for Coins {}

impl InChainstate for Undo {}

impl InChainstate for HeightIndex {}

impl InChainstate for Meta {}

/// The write that files a coin under an outpoint.
pub open spec fn put_coin(op: OutPoint, c: CoinView) -> WriteView {
    WriteView::Put(Coins::spec_name(), op.spec_encode(), spec_coin_bytes(c))
}

/// The write that removes the coin under an outpoint.
pub open spec fn delete_coin(op: OutPoint) -> WriteView {
    WriteView::Delete(Coins::spec_name(), op.spec_encode())
}

/// The coins the first `n` outputs of a transaction create at `height`: every output but
/// those that can never be spent.
pub open spec fn created_by_tx(t: TransactionView, height: u32, n: nat) -> Seq<WriteView>
    decreases n,
{
    if n == 0 {
        seq![]
    } else {
        let prior = created_by_tx(t, height, (n - 1) as nat);
        let o = t.outputs[n - 1];
        if spec_is_unspendable(o) {
            prior
        } else {
            prior.push(
                put_coin(
                    OutPoint { txid: spec_txid(t), vout: (n - 1) as u32 },
                    CoinView { output: o, height, is_coinbase: spec_is_coinbase(t) },
                ),
            )
        }
    }
}

/// The coins the first `k` transactions of a block create.
pub open spec fn created_by_block(txs: Seq<TransactionView>, height: u32, k: nat) -> Seq<WriteView>
    decreases k,
{
    if k == 0 {
        seq![]
    } else {
        created_by_block(txs, height, (k - 1) as nat) + created_by_tx(
            txs[k - 1],
            height,
            txs[k - 1].outputs.len(),
        )
    }
}

/// The outpoints the inputs of the first `k` transactions spend, skipping the coinbase.
pub open spec fn spent_by(txs: Seq<TransactionView>, k: nat) -> Seq<OutPoint>
    decreases k,
{
    if k <= 1 {
        seq![]
    } else {
        spent_by(txs, (k - 1) as nat) + txs[k - 1].inputs.map_values(|i: TxInView| i.previous_output)
    }
}

/// The outpoints a block's inputs spend: every input except the coinbase's, in block order.
pub open spec fn spending(b: BlockView) -> Seq<OutPoint> {
    spent_by(b.transactions, b.transactions.len())
}

/// Removals of every output of the first `n` outputs of a transaction.
pub open spec fn deleted_by_tx(t: TransactionView, n: nat) -> Seq<WriteView> {
    Seq::new(n, |v: int| delete_coin(OutPoint { txid: spec_txid(t), vout: v as u32 }))
}

/// Removals of every output of the first `k` transactions of a block.
pub open spec fn deleted_by_block(txs: Seq<TransactionView>, k: nat) -> Seq<WriteView>
    decreases k,
{
    if k == 0 {
        seq![]
    } else {
        deleted_by_block(txs, (k - 1) as nat) + deleted_by_tx(txs[k - 1], txs[k - 1].outputs.len())
    }
}

/// The writes that connect a block at `height` on top of the tip: its new coins, then the
/// removal of the coins it spends, then its undo data, its height and the new tip. An output
/// created and spent in the same block ends up absent.
pub open spec fn connect_writes(b: BlockView, height: u32, spent: Seq<CoinView>) -> Seq<WriteView> {
    let hash = spec_block_hash(b.header);
    created_by_block(b.transactions, height, b.transactions.len()) + spending(b).map_values(
        |op: OutPoint| delete_coin(op),
    ) + seq![
        WriteView::Put(Undo::spec_name(), hash.spec_bytes(), spec_undo_bytes(spent)),
        WriteView::Put(HeightIndex::spec_name(), height.spec_encode(), hash.spec_bytes()),
        WriteView::Put(Meta::spec_name(), MetaKey::Tip.spec_encode(), hash.spec_bytes()),
    ]
}

/// The writes that disconnect the tip block: the spent coins restored under the outpoints they
/// were spent from, then the removal of every output the block created, of its undo data and
/// its height, and the parent as the new tip.
pub open spec fn disconnect_writes(b: BlockView, height: u32, undo: Seq<CoinView>) -> Seq<WriteView> {
    let hash = spec_block_hash(b.header);
    let ops = spending(b);
    Seq::new(ops.len(), |i: int| put_coin(ops[i], undo[i])) + deleted_by_block(
        b.transactions,
        b.transactions.len(),
    ) + seq![
        WriteView::Delete(Undo::spec_name(), hash.spec_bytes()),
        WriteView::Delete(HeightIndex::spec_name(), height.spec_encode()),
        WriteView::Put(Meta::spec_name(), MetaKey::Tip.spec_encode(), b.header.prev_blockhash.spec_bytes()),
    ]
}

/// The coin key of output `v` of a transaction.
pub open spec fn output_key(t: TransactionView, v: int) -> Seq<u8> {
    (OutPoint { txid: spec_txid(t), vout: v as u32 }).spec_encode()
}

/// The undo data a connect writes is what a lookup finds after it.
proof fn lemma_connect_files_undo(c: Contents, b: BlockView, height: u32, spent: Seq<CoinView>)
    ensures
        lookup(apply_all(c, connect_writes(b, height, spent)), Undo::spec_name(), spec_block_hash(b.header).spec_bytes())
            == Some(spec_undo_bytes(spent)),
{
    reveal_strlit("undo");
    reveal_strlit("height_index");
    reveal_strlit("meta");
    assert(Undo::spec_name().len() == 4 && HeightIndex::spec_name().len() == 12);
    assert(Meta::spec_name()[0] == 'm' && Undo::spec_name()[0] == 'u');
    let hash = spec_block_hash(b.header);
    let a = created_by_block(b.transactions, height, b.transactions.len()) + spending(b).map_values(
        |op: OutPoint| delete_coin(op),
    );
    let w0 = WriteView::Put(Undo::spec_name(), hash.spec_bytes(), spec_undo_bytes(spent));
    let w1 = WriteView::Put(HeightIndex::spec_name(), height.spec_encode(), hash.spec_bytes());
    let w2 = WriteView::Put(Meta::spec_name(), MetaKey::Tip.spec_encode(), hash.spec_bytes());
    let t = seq![w0, w1, w2];
    assert(connect_writes(b, height, spent) == a + t);
    lemma_apply_all_concat(c, a, t);
    let x = apply_all(c, a);
    let t1 = seq![w0, w1];
    let t0 = seq![w0];
    assert(t.drop_last() =~= t1);
    assert(t1.drop_last() =~= t0);
    assert(t0.drop_last() =~= Seq::<WriteView>::empty());
    assert(apply_all(x, Seq::<WriteView>::empty()) == x);
    assert(apply_all(x, t0) == apply(x, w0));
    assert(apply_all(x, t1) == apply(apply(x, w0), w1));
    assert(apply_all(x, t) == apply(apply(apply(x, w0), w1), w2));
}

/// Connecting a block and then disconnecting it, each in its own call and each succeeding,
/// gives back the chainstate as it was: the undo data the disconnect reads is what the
/// connect wrote.
pub proof fn lemma_connect_then_disconnect(
    c0: Contents,
    c1: Contents,
    c2: Contents,
    b: BlockView,
    height: u32,
    spent: Seq<CoinView>,
    undo: Seq<CoinView>,
)
    requires
        tip_bytes(c0) == Some(b.header.prev_blockhash.spec_bytes()),
        spending(b).len() == spent.len(),
        undo_encodable(spent),
        lookup(c0, Undo::spec_name(), spec_block_hash(b.header).spec_bytes()) is None,
        lookup(c0, HeightIndex::spec_name(), height.spec_encode()) is None,
        forall|key: Seq<u8>| #[trigger] created_key(b.transactions, key) ==> lookup(c0, Coins::spec_name(), key) is None,
        forall|i: int|
            0 <= i < spent.len() && !created_key(b.transactions, #[trigger] spending(b)[i].spec_encode()) ==> lookup(
                c0,
                Coins::spec_name(),
                spending(b)[i].spec_encode(),
            ) == Some(spec_coin_bytes(spent[i])),
        c1 == apply_all(c0, connect_writes(b, height, spent)),
        lookup(c1, Undo::spec_name(), spec_block_hash(b.header).spec_bytes()) == Some(spec_undo_bytes(undo)),
        undo_encodable(undo),
        c2 == apply_all(c1, disconnect_writes(b, height, undo)),
    ensures
        c2 == c0,
{
    lemma_connect_files_undo(c0, b, height, spent);
    lemma_disconnect_undoes_connect(c0, b, height, spent, undo);
}

/// Whether a write puts a coin whose output can be spent, or is no coin put at all.
spec fn spendable_put(w: WriteView) -> bool {
    (w is Put && w->Put_0 == Coins::spec_name()) ==> exists|op: OutPoint, c: CoinView|
        #[trigger] put_coin(op, c) == w && !spec_is_unspendable(c.output)
}

proof fn lemma_created_by_tx_spendable(t: TransactionView, height: u32, n: nat)
    requires
        n <= t.outputs.len(),
    ensures
        forall|j: int| 0 <= j < created_by_tx(t, height, n).len() ==> spendable_put(#[trigger] created_by_tx(t, height, n)[j]),
    decreases n,
{
    if n > 0 {
        lemma_created_by_tx_spendable(t, height, (n - 1) as nat);
        let prior = created_by_tx(t, height, (n - 1) as nat);
        let w = created_by_tx(t, height, n);
        let o = t.outputs[n - 1];
        if !spec_is_unspendable(o) {
            let op = OutPoint { txid: spec_txid(t), vout: (n - 1) as u32 };
            let c = CoinView { output: o, height, is_coinbase: spec_is_coinbase(t) };
            assert(w == prior.push(put_coin(op, c)));
            assert forall|j: int| 0 <= j < w.len() implies spendable_put(#[trigger] w[j]) by {
                if j < prior.len() {
                    assert(w[j] == prior[j]);
                } else {
                    assert(w[j] == put_coin(op, c));
                }
            }
        }
    }
}

proof fn lemma_created_by_block_spendable(txs: Seq<TransactionView>, height: u32, k: nat)
    requires
        k <= txs.len(),
    ensures
        forall|j: int| 0 <= j < created_by_block(txs, height, k).len() ==> spendable_put(#[trigger] created_by_block(txs, height, k)[j]),
    decreases k,
{
    if k > 0 {
        lemma_created_by_block_spendable(txs, height, (k - 1) as nat);
        let t = txs[k - 1];
        lemma_created_by_tx_spendable(t, height, t.outputs.len());
        let prior = created_by_block(txs, height, (k - 1) as nat);
        let last = created_by_tx(t, height, t.outputs.len());
        let w = created_by_block(txs, height, k);
        assert(w == prior + last);
        assert forall|j: int| 0 <= j < w.len() implies spendable_put(#[trigger] w[j]) by {
            if j < prior.len() {
                assert(w[j] == prior[j]);
            } else {
                assert(w[j] == last[j - prior.len()]);
            }
        }
    }
}

/// Connecting a block puts no coin for an output that can never be spent: every coin among
/// its writes holds an output whose script neither begins with `OP_RETURN` (0x6a) nor is
/// longer than `MAX_SCRIPT_SIZE`. OP_RETURN data outputs, such as a witness commitment, stay
/// out of the coin set.
pub proof fn lemma_connect_puts_no_unspendable(b: BlockView, height: u32, spent: Seq<CoinView>, j: int, op: OutPoint, c: CoinView)
    requires
        0 <= j < connect_writes(b, height, spent).len(),
        connect_writes(b, height, spent)[j] == put_coin(op, c),
        c.output.script_pubkey.len() <= u64::MAX,
    ensures
        c.output.script_pubkey.len() == 0 || c.output.script_pubkey[0] != 0x6a,
        c.output.script_pubkey.len() <= MAX_SCRIPT_SIZE,
{
    reveal_strlit("coins");
    reveal_strlit("undo");
    reveal_strlit("height_index");
    reveal_strlit("meta");
    assert(Coins::spec_name()[0] == 'c');
    assert(Undo::spec_name()[0] == 'u' && HeightIndex::spec_name()[0] == 'h' && Meta::spec_name()[0] == 'm');
    let txs = b.transactions;
    let hash = spec_block_hash(b.header);
    let created = created_by_block(txs, height, txs.len());
    let dels = spending(b).map_values(|o: OutPoint| delete_coin(o));
    let tail = seq![
        WriteView::Put(Undo::spec_name(), hash.spec_bytes(), spec_undo_bytes(spent)),
        WriteView::Put(HeightIndex::spec_name(), height.spec_encode(), hash.spec_bytes()),
        WriteView::Put(Meta::spec_name(), MetaKey::Tip.spec_encode(), hash.spec_bytes()),
    ];
    let ws = connect_writes(b, height, spent);
    assert(ws == created + dels + tail);
    let w = ws[j];
    if j < created.len() {
        assert(w == created[j]);
        lemma_created_by_block_spendable(txs, height, txs.len());
        assert(spendable_put(w));
        let (op2, c2) = choose|op2: OutPoint, c2: CoinView| #[trigger] put_coin(op2, c2) == w && !spec_is_unspendable(c2.output);
        let e = spec_coin_bytes(c);
        assert(e == spec_coin_bytes(c2));
        vstd::bytes::lemma_auto_spec_u32_to_from_le_bytes();
        assert(e.subrange(4, 4 + spec_txout_bytes(c.output).len() as int) =~= spec_txout_bytes(c.output));
        assert(e.subrange(4, 4 + spec_txout_bytes(c2.output).len() as int) =~= spec_txout_bytes(c2.output));
        lemma_txout_prefix_unique(e, 4, c.output, c2.output);
    } else if j < created.len() + dels.len() {
        assert(w == dels[j - created.len()]);
    } else {
        let i = j - created.len() - dels.len();
        assert(w == tail[i]);
    }
}

/// Whether `key` is the coin key of some output of the transactions.
pub open spec fn created_key(txs: Seq<TransactionView>, key: Seq<u8>) -> bool {
    exists|k: int, v: int| 0 <= k < txs.len() && 0 <= v < txs[k].outputs.len() && key == #[trigger] output_key(txs[k], v)
}

/// The coins a transaction creates are filed under its output keys.
proof fn lemma_created_by_tx_targets(t: TransactionView, height: u32, n: nat, table: Seq<char>, key: Seq<u8>)
    requires
        n <= t.outputs.len(),
    ensures
        forall|j: int|
            0 <= j < created_by_tx(t, height, n).len() && touches(#[trigger] created_by_tx(t, height, n)[j], table, key)
                ==> table == Coins::spec_name() && exists|v: int| 0 <= v < n && key == #[trigger] output_key(t, v),
    decreases n,
{
    if n > 0 {
        lemma_created_by_tx_targets(t, height, (n - 1) as nat, table, key);
        let prior = created_by_tx(t, height, (n - 1) as nat);
        let w = created_by_tx(t, height, n);
        assert forall|j: int| 0 <= j < w.len() && touches(#[trigger] w[j], table, key) implies table
            == Coins::spec_name() && exists|v: int| 0 <= v < n && key == #[trigger] output_key(t, v) by {
            if j < prior.len() {
                assert(w[j] == prior[j]);
                let v = choose|v: int| 0 <= v < n - 1 && key == #[trigger] output_key(t, v);
                assert(output_key(t, v) == key);
            } else {
                assert(key == output_key(t, n - 1));
            }
        }
    }
}

/// The coins a block creates are filed under the output keys of its transactions.
proof fn lemma_created_by_block_targets(txs: Seq<TransactionView>, height: u32, n: nat, table: Seq<char>, key: Seq<u8>)
    requires
        n <= txs.len(),
    ensures
        forall|j: int|
            0 <= j < created_by_block(txs, height, n).len() && touches(#[trigger] created_by_block(txs, height, n)[j], table, key)
                ==> table == Coins::spec_name() && created_key(txs, key),
    decreases n,
{
    if n > 0 {
        lemma_created_by_block_targets(txs, height, (n - 1) as nat, table, key);
        let t = txs[n - 1];
        lemma_created_by_tx_targets(t, height, t.outputs.len(), table, key);
        let prior = created_by_block(txs, height, (n - 1) as nat);
        let last = created_by_tx(t, height, t.outputs.len());
        let w = created_by_block(txs, height, n);
        assert(w == prior + last);
        assert forall|j: int| 0 <= j < w.len() && touches(#[trigger] w[j], table, key) implies table == Coins::spec_name()
            && created_key(txs, key) by {
            if j < prior.len() {
                assert(w[j] == prior[j]);
            } else {
                assert(w[j] == last[j - prior.len()]);
                let v = choose|v: int| 0 <= v < t.outputs.len() && key == #[trigger] output_key(t, v);
                assert(output_key(txs[n - 1], v) == key);
            }
        }
    }
}

/// Disconnecting removes every output key of the block, and nothing else.
proof fn lemma_deleted_by_block_targets(txs: Seq<TransactionView>, n: nat, table: Seq<char>, key: Seq<u8>)
    requires
        n <= txs.len(),
    ensures
        forall|j: int|
            0 <= j < deleted_by_block(txs, n).len() && touches(#[trigger] deleted_by_block(txs, n)[j], table, key)
                ==> table == Coins::spec_name() && created_key(txs, key) && written(deleted_by_block(txs, n)[j]) is None,
        forall|k: int, v: int|
            0 <= k < n && 0 <= v < txs[k].outputs.len() && table == Coins::spec_name() && key == #[trigger] output_key(txs[k], v)
                ==> exists|j: int| 0 <= j < deleted_by_block(txs, n).len() && touches(#[trigger] deleted_by_block(txs, n)[j], table, key),
    decreases n,
{
    if n > 0 {
        lemma_deleted_by_block_targets(txs, (n - 1) as nat, table, key);
        let t = txs[n - 1];
        let prior = deleted_by_block(txs, (n - 1) as nat);
        let last = deleted_by_tx(t, t.outputs.len());
        let w = deleted_by_block(txs, n);
        assert(w == prior + last);
        assert forall|j: int| 0 <= j < w.len() && touches(#[trigger] w[j], table, key) implies table == Coins::spec_name()
            && created_key(txs, key) && written(w[j]) is None by {
            if j < prior.len() {
                assert(w[j] == prior[j]);
            } else {
                let v = j - prior.len();
                assert(w[j] == last[v]);
                assert(key == output_key(txs[n - 1], v));
            }
        }
        assert forall|k: int, v: int|
            0 <= k < n && 0 <= v < txs[k].outputs.len() && table == Coins::spec_name() && key == #[trigger] output_key(txs[k], v)
                implies exists|j: int| 0 <= j < w.len() && touches(#[trigger] w[j], table, key) by {
            if k < n - 1 {
                let j = choose|j: int| 0 <= j < prior.len() && touches(#[trigger] prior[j], table, key);
                assert(w[j] == prior[j]);
            } else {
                assert(w[prior.len() + v] == last[v]);
                assert(touches(w[prior.len() + v], table, key));
            }
        }
    }
}

/// Disconnecting a block undoes connecting it. With the block's parent as the stored tip,
/// none of its outputs in the coin set, no undo data or height entry of its own yet, and each
/// coin it spends from before the block stored as given, connecting it and then disconnecting
/// it with the undo data read back leaves the database exactly as it was.
pub proof fn lemma_disconnect_undoes_connect(
    c: Contents,
    b: BlockView,
    height: u32,
    spent: Seq<CoinView>,
    undo: Seq<CoinView>,
)
    requires
        tip_bytes(c) == Some(b.header.prev_blockhash.spec_bytes()),
        spending(b).len() == spent.len(),
        undo_encodable(spent),
        undo_encodable(undo),
        spec_undo_bytes(undo) == spec_undo_bytes(spent),
        lookup(c, Undo::spec_name(), spec_block_hash(b.header).spec_bytes()) is None,
        lookup(c, HeightIndex::spec_name(), height.spec_encode()) is None,
        forall|key: Seq<u8>| #[trigger] created_key(b.transactions, key) ==> lookup(c, Coins::spec_name(), key) is None,
        forall|i: int|
            0 <= i < spent.len() && !created_key(b.transactions, #[trigger] spending(b)[i].spec_encode()) ==> lookup(
                c,
                Coins::spec_name(),
                spending(b)[i].spec_encode(),
            ) == Some(spec_coin_bytes(spent[i])),
    ensures
        apply_all(apply_all(c, connect_writes(b, height, spent)), disconnect_writes(b, height, undo)) == c,
{
    reveal_strlit("coins");
    reveal_strlit("undo");
    reveal_strlit("height_index");
    reveal_strlit("meta");
    assert(Undo::spec_name().len() == 4 && HeightIndex::spec_name().len() == 12 && Coins::spec_name().len() == 5);
    assert(Meta::spec_name()[0] == 'm' && Undo::spec_name()[0] == 'u');
    lemma_undo_coins_unique(undo, spent);
    let txs = b.transactions;
    let hash = spec_block_hash(b.header);
    let ops = spending(b);
    let cw = created_by_block(txs, height, txs.len());
    let sw = ops.map_values(|op: OutPoint| delete_coin(op));
    let t1 = seq![
        WriteView::Put(Undo::spec_name(), hash.spec_bytes(), spec_undo_bytes(spent)),
        WriteView::Put(HeightIndex::spec_name(), height.spec_encode(), hash.spec_bytes()),
        WriteView::Put(Meta::spec_name(), MetaKey::Tip.spec_encode(), hash.spec_bytes()),
    ];
    let rw = Seq::new(ops.len(), |i: int| put_coin(ops[i], undo[i]));
    let dw = deleted_by_block(txs, txs.len());
    let t2 = seq![
        WriteView::Delete(Undo::spec_name(), hash.spec_bytes()),
        WriteView::Delete(HeightIndex::spec_name(), height.spec_encode()),
        WriteView::Put(Meta::spec_name(), MetaKey::Tip.spec_encode(), b.header.prev_blockhash.spec_bytes()),
    ];
    let w1 = connect_writes(b, height, spent);
    let w2 = disconnect_writes(b, height, undo);
    assert(w1 == cw + sw + t1);
    assert(w2 == rw + dw + t2);
    let c1 = apply_all(c, w1);
    let c2 = apply_all(c1, w2);
    lemma_apply_all_concat(c1, rw + dw, t2);
    lemma_apply_all_concat(c1, rw, dw);
    assert forall|t: Seq<char>, k: Seq<u8>| lookup(c2, t, k) == lookup(c, t, k) by {
        lemma_created_by_block_targets(txs, height, txs.len(), t, k);
        lemma_deleted_by_block_targets(txs, txs.len(), t, k);
        let tip_key = MetaKey::Tip.spec_encode();
        if t == Meta::spec_name() && k == tip_key {
            assert(w2.drop_last() == (rw + dw) + t2.drop_last());
            assert(c2 == apply(apply_all(c1, w2.drop_last()), w2.last()));
        } else if (t == Undo::spec_name() && k == hash.spec_bytes()) || (t == HeightIndex::spec_name() && k
            == height.spec_encode()) {
            if t == Undo::spec_name() {
                assert(t2[0] == WriteView::Delete(Undo::spec_name(), hash.spec_bytes()));
                assert(t != HeightIndex::spec_name());
                assert(k == hash.spec_bytes());
                assert(touches(t2[0], t, k));
            } else {
                assert(touches(t2[1], t, k));
            }
            lemma_apply_all_settles(apply_all(c1, rw + dw), t2, t, k, None);
        } else if t == Coins::spec_name() && created_key(txs, k) {
            let (kk, v) = choose|kk: int, v: int| 0 <= kk < txs.len() && 0 <= v < txs[kk].outputs.len() && k == #[trigger] output_key(txs[kk], v);
            lemma_apply_all_settles(apply_all(c1, rw), dw, t, k, None);
            lemma_apply_all_untouched(apply_all(c1, rw + dw), t2, t, k);
        } else if t == Coins::spec_name() && exists|i: int| 0 <= i < ops.len() && k == #[trigger] ops[i].spec_encode() {
            let i = choose|i: int| 0 <= i < ops.len() && k == #[trigger] ops[i].spec_encode();
            let val = lookup(c, t, k);
            assert(touches(rw[i], t, k));
            assert forall|j: int| 0 <= j < rw.len() && touches(#[trigger] rw[j], t, k) implies written(rw[j]) == val by {
                assert(k == ops[j].spec_encode());
                assert(spec_coin_bytes(undo[j]) == spec_coin_bytes(spent[j]));
            }
            lemma_apply_all_settles(c1, rw, t, k, val);
            assert(forall|j: int| 0 <= j < dw.len() ==> !touches(#[trigger] dw[j], t, k));
            lemma_apply_all_untouched(apply_all(c1, rw), dw, t, k);
            lemma_apply_all_untouched(apply_all(c1, rw + dw), t2, t, k);
        } else {
            lemma_apply_all_concat(c, cw + sw, t1);
            lemma_apply_all_concat(c, cw, sw);
            assert(forall|j: int| 0 <= j < cw.len() ==> !touches(#[trigger] cw[j], t, k));
            assert forall|j: int| 0 <= j < sw.len() implies !touches(#[trigger] sw[j], t, k) by {
                if touches(sw[j], t, k) {
                    assert(k == ops[j].spec_encode());
                }
            }
            assert forall|j: int| 0 <= j < rw.len() implies !touches(#[trigger] rw[j], t, k) by {
                if touches(rw[j], t, k) {
                    assert(k == ops[j].spec_encode());
                }
            }
            assert(forall|j: int| 0 <= j < dw.len() ==> !touches(#[trigger] dw[j], t, k));
            assert(forall|j: int| 0 <= j < t1.len() ==> !touches(#[trigger] t1[j], t, k));
            assert(forall|j: int| 0 <= j < t2.len() ==> !touches(#[trigger] t2[j], t, k));
            lemma_apply_all_untouched(c, cw, t, k);
            lemma_apply_all_untouched(apply_all(c, cw), sw, t, k);
            lemma_apply_all_untouched(apply_all(c, cw + sw), t1, t, k);
            lemma_apply_all_untouched(c1, rw, t, k);
            lemma_apply_all_untouched(apply_all(c1, rw), dw, t, k);
            lemma_apply_all_untouched(apply_all(c1, rw + dw), t2, t, k);
        }
    }
    assert forall|p: (Seq<char>, Seq<u8>)| #[trigger] c2.contains_key(p) <==> c.contains_key(p) by {
        assert(lookup(c2, p.0, p.1) == lookup(c, p.0, p.1));
    }
    assert forall|p: (Seq<char>, Seq<u8>)| #[trigger] c2.contains_key(p) implies c2[p] == c[p] by {
        assert(lookup(c2, p.0, p.1) == lookup(c, p.0, p.1));
    }
    assert(c2 =~= c);
}

/// The stored tip, as bytes.
pub open spec fn tip_bytes(c: Contents) -> Option<Seq<u8>> {
    lookup(c, Meta::spec_name(), MetaKey::Tip.spec_encode())
}

/// Whether the stored tip, if there is one, is the 32 bytes of a hash.
pub open spec fn tip_readable(c: Contents) -> bool {
    match tip_bytes(c) {
        Some(b) => b.len() == 32,
        None => true,
    }
}

/// The stored tip read as a hash, if one is stored.
pub open spec fn recorded_tip(c: Contents) -> Option<BlockHash> {
    match tip_bytes(c) {
        Some(b) => Some(Hash256::spec_from_bytes(b)),
        None => None,
    }
}

/// With a readable tip, a block extends it exactly when its parent is the recorded tip, or
/// the all-zero hash where none is recorded.
pub proof fn lemma_extends_recorded(c: Contents, prev: BlockHash)
    requires
        tip_readable(c),
    ensures
        extends_tip(c, prev) <==> prev == (match recorded_tip(c) {
            Some(t) => t,
            None => Hash256 { lo: 0, hi: 0 },
        }),
{
    crate::primitives::lemma_hash_bytes(prev, Seq::empty());
    if let Some(b) = tip_bytes(c) {
        crate::primitives::lemma_hash_bytes(prev, b);
        crate::primitives::lemma_hash_bytes(Hash256::spec_from_bytes(b), Seq::empty());
        crate::primitives::lemma_key_injective(prev, Hash256::spec_from_bytes(b));
    }
}

/// Whether a block whose parent is `prev` extends the stored tip; with no tip stored, only a
/// block on the all-zero hash does.
pub open spec fn extends_tip(c: Contents, prev: BlockHash) -> bool {
    tip_bytes(c) == Some(prev.spec_bytes()) || (tip_bytes(c) is None && prev == Hash256 {
        lo: 0,
        hi: 0,
    })
}

/// Writes collected for one step of the chainstate. Only chainstate tables are reachable.
pub struct ChainWrite {
    batch: Batch,
}

impl ChainWrite {
    pub closed spec fn writes(&self) -> Seq<WriteView> {
        self.batch.writes()
    }

    pub fn new() -> (r: ChainWrite)
        ensures
            r.writes() == Seq::<WriteView>::empty(),
    {
        ChainWrite { batch: Batch::new() }
    }

    pub fn put<T: InChainstate>(&mut self, key: &T::Key, value: &T::Value) -> (r: Result<()>)
        requires
            key.encodable(),
            value.encodable(),
        ensures
            r is Ok,
            final(self).writes() == old(self).writes().push(
                WriteView::Put(T::spec_name(), key.spec_encode(), value.spec_encode()),
            ),
    {
        self.batch.put::<T>(key, value)
    }

    pub fn delete<T: InChainstate>(&mut self, key: &T::Key) -> (r: Result<()>)
        requires
            key.encodable(),
        ensures
            r is Ok,
            final(self).writes() == old(self).writes().push(
                WriteView::Delete(T::spec_name(), key.spec_encode()),
            ),
    {
        self.batch.delete::<T>(key)
    }
}

/// Tables that share one database, and the writes that move them together.
pub struct Chainstate<D: Database> {
    coins: Store<Coins, D>,
}

/// The outpoints a block's inputs spend, in block order.
fn spending_outpoints(block: &Block) -> (r: Vec<OutPoint>)
    ensures
        r@ == spending(block@),
{
    let ghost txs = block@.transactions;
    let mut out: Vec<OutPoint> = Vec::new();
    let mut t: usize = 1;
    while t < block.transactions.len()
        invariant
            txs == block@.transactions,
            1 <= t <= txs.len() || (txs.len() == 0 && t == 1),
            out@ == spent_by(txs, t as nat),
        decreases txs.len() - t,
    {
        let inputs = &block.transactions[t].inputs;
        let ghost start = out@;
        let mut i: usize = 0;
        while i < inputs.len()
            invariant
                txs == block@.transactions,
                t < txs.len(),
                inputs@.map_values(|x: crate::transaction::TxIn| x@) == txs[t as int].inputs,
                i <= inputs@.len(),
                out@ == start + txs[t as int].inputs.take(i as int).map_values(|x: TxInView| x.previous_output),
            decreases inputs@.len() - i,
        {
            out.push(inputs[i].previous_output);
            proof {
                assert(txs[t as int].inputs.take(i + 1).map_values(|x: TxInView| x.previous_output)
                    =~= txs[t as int].inputs.take(i as int).map_values(|x: TxInView| x.previous_output).push(
                    inputs@[i as int].previous_output,
                ));
            }
            i = i + 1;
        }
        proof {
            assert(txs[t as int].inputs.take(inputs@.len() as int) =~= txs[t as int].inputs);
            assert(spent_by(txs, (t + 1) as nat) == spent_by(txs, t as nat) + txs[t as int].inputs.map_values(
                |x: TxInView| x.previous_output,
            ));
        }
        t = t + 1;
    }
    proof {
        if txs.len() == 0 {
            assert(out@ =~= spending(block@));
        }
    }
    out
}

/// Fails, with `SpentCoinsMismatch`, exactly when `actual` is not the number of coins the
/// block spends.
fn check_spent_count(block: &Block, actual: usize) -> (r: Result<()>)
    ensures
        r is Ok <==> spending(block@).len() == actual,
        r matches Err(StorageError::SpentCoinsMismatch { expected, actual: a }) && expected
            == spending(block@).len() && a == actual || r is Ok,
{
    let expected = spending_outpoints(block).len();
    if expected == actual {
        Ok(())
    } else {
        Err(StorageError::SpentCoinsMismatch { expected, actual })
    }
}

impl<D: Database> Chainstate<D> {
    /// The database the chainstate lives in.
    pub closed spec fn spec_db(&self) -> D {
        self.coins.spec_db()
    }

    /// Everything the chainstate's database holds.
    pub open spec fn contents(&self) -> Contents {
        self.spec_db().contents()
    }

    /// The names of the chainstate's tables.
    pub open spec fn spec_tables() -> Set<Seq<char>> {
        set![Coins::spec_name(), Undo::spec_name(), HeightIndex::spec_name(), Meta::spec_name()]
    }

    /// The first of the chainstate's tables, in the order coins, undo, height index, meta, that
    /// a database lacks.
    pub open spec fn first_missing(tables: Set<Seq<char>>) -> Seq<char> {
        if !tables.contains(Coins::spec_name()) {
            Coins::spec_name()
        } else if !tables.contains(Undo::spec_name()) {
            Undo::spec_name()
        } else if !tables.contains(HeightIndex::spec_name()) {
            HeightIndex::spec_name()
        } else {
            Meta::spec_name()
        }
    }

    /// Every table must live in the given database, which is checked here so a wiring mistake
    /// fails at startup, with an engine error naming the first table missing.
    pub fn open(db: D) -> (r: Result<Chainstate<D>>)
        ensures
            r is Ok <==> Chainstate::<D>::spec_tables().subset_of(db.tables()),
            r is Ok ==> r->Ok_0.spec_db() == db,
            r is Err ==> (r matches Err(StorageError::Engine(m)) && m@ == not_hosted_message(
                Chainstate::<D>::first_missing(db.tables()),
            )),
    {
        if !db.hosts(Coins::name()) {
            return Err(StorageError::Engine(not_hosted(Coins::name())));
        }
        if !db.hosts(Undo::name()) {
            return Err(StorageError::Engine(not_hosted(Undo::name())));
        }
        if !db.hosts(HeightIndex::name()) {
            return Err(StorageError::Engine(not_hosted(HeightIndex::name())));
        }
        if !db.hosts(Meta::name()) {
            return Err(StorageError::Engine(not_hosted(Meta::name())));
        }
        match Store::<Coins, D>::open(db) {
            Ok(coins) => Ok(Chainstate { coins }),
            Err(e) => Err(e),
        }
    }

    /// The tables the node needs to declare when opening the database.
    pub fn tables() -> (r: Vec<(&'static str, Profile)>)
        ensures
            r@.len() == 4,
            r@[0].0@ == Coins::spec_name(),
            r@[1].0@ == Undo::spec_name(),
            r@[2].0@ == HeightIndex::spec_name(),
            r@[3].0@ == Meta::spec_name(),
    {
        vec![
            (Coins::name(), Coins::profile()),
            (Undo::name(), Undo::profile()),
            (HeightIndex::name(), HeightIndex::profile()),
            (Meta::name(), Meta::profile()),
        ]
    }

    /// Read access to the unspent output set. Writes go through [`Chainstate::write`].
    pub fn coins(&self) -> (r: &Store<Coins, D>)
        ensures
            r.spec_db() == self.spec_db(),
    {
        &self.coins
    }

    /// The block whose state the unspent output set represents.
    pub fn tip(&self) -> (r: Result<Option<BlockHash>>)
        ensures
            r is Ok ==> tip_readable(self.contents()) && r->Ok_0 == recorded_tip(self.contents()),
            r is Ok ==> match r->Ok_0 {
                Some(h) => tip_bytes(self.contents()) == Some(h.spec_bytes()),
                None => tip_bytes(self.contents()) is None,
            },
            r matches Err(e) ==> e is Engine || (e is Corrupted && !tip_readable(self.contents())),
    {
        let r = read::<Meta, D>(self.coins.database(), &MetaKey::Tip);
        proof {
            match r {
                Ok(Some(h)) => {
                    crate::primitives::lemma_hash_bytes(h, Seq::empty());
                },
                Err(_) => {
                    if let Some(b) = tip_bytes(self.contents()) {
                        if b.len() == 32 {
                            let h = Hash256::spec_from_bytes(b);
                            crate::primitives::lemma_hash_bytes(h, b);
                            assert(h.spec_encode() == b);
                        }
                    }
                },
                _ => {},
            }
        }
        r
    }

    /// Hash of the active chain's block at `height`.
    pub fn block_hash_at(&self, height: u32) -> (r: Result<Option<BlockHash>>)
        ensures
            read_ok::<HeightIndex>(self.contents(), height, r),
            r is Ok ==> match r->Ok_0 {
                Some(h) => lookup(self.contents(), HeightIndex::spec_name(), height.spec_encode())
                    == Some(h.spec_bytes()),
                None => lookup(self.contents(), HeightIndex::spec_name(), height.spec_encode()) is None,
            },
    {
        read::<HeightIndex, D>(self.coins.database(), &height)
    }

    pub fn undo(&self, hash: &BlockHash) -> (r: Result<Option<BlockUndo>>)
        ensures
            read_ok::<Undo>(self.contents(), *hash, r),
            r is Ok ==> match r->Ok_0 {
                Some(u) => lookup(self.contents(), Undo::spec_name(), hash.spec_bytes()) == Some(
                    spec_undo_bytes(u@),
                ) && undo_storable(u@),
                None => lookup(self.contents(), Undo::spec_name(), hash.spec_bytes()) is None,
            },
    {
        read::<Undo, D>(self.coins.database(), hash)
    }

    /// Whether any output of `txid` is still unspent.
    pub fn has_unspent_outputs(&self, txid: &Txid) -> (r: Result<bool>)
        ensures
            r is Err ==> r->Err_0 is Engine,
            r is Ok ==> r->Ok_0 == has_prefix(self.contents(), Coins::spec_name(), txid.spec_bytes()),
    {
        self.coins.exists_prefix(txid)
    }

    /// Applies prepared chainstate writes in one step: all of them or, on an engine error,
    /// none.
    pub fn commit(&mut self, write: ChainWrite) -> (r: Result<()>)
        ensures
            r is Err ==> r->Err_0 is Engine,
            r is Ok ==> final(self).contents() == apply_all(old(self).contents(), write.writes()),
            r is Err ==> final(self).contents() == old(self).contents(),
            final(self).spec_db().tables() == old(self).spec_db().tables(),
    {
        self.coins.commit(write.batch)
    }

    /// What a write does once its changes have run on `write`: an error of theirs is returned
    /// and nothing is written; otherwise their writes are committed in one step and their
    /// value returned, unless the commit fails.
    pub fn commit_outcome<R>(&mut self, write: ChainWrite, outcome: Result<R>) -> (r: Result<R>)
        ensures
            final(self).spec_db().tables() == old(self).spec_db().tables(),
            match outcome {
                Err(e) => r == Err::<R, StorageError>(e) && final(self).contents() == old(self).contents(),
                Ok(v) => match r {
                    Ok(w) => w == v && final(self).contents() == apply_all(old(self).contents(), write.writes()),
                    Err(e) => e is Engine && final(self).contents() == old(self).contents(),
                },
            },
    {
        match outcome {
            Err(e) => Err(e),
            Ok(v) => match self.commit(write) {
                Ok(()) => Ok(v),
                Err(e) => Err(e),
            },
        }
    }

    /// Writes several tables of the chainstate in one step. The changes run on an empty set of
    /// writes; if they return an error, it is returned and nothing is written; if they return
    /// a value, the writes they made, in order, are committed together and the value is
    /// returned, unless the commit fails with an engine error and writes nothing.
    pub fn write<R, F: FnOnce(&mut ChainWrite) -> Result<R>>(&mut self, changes: F) -> (r: Result<R>)
        requires
            forall|w: &mut ChainWrite| changes.requires((w,)),
        ensures
            final(self).spec_db().tables() == old(self).spec_db().tables(),
            r is Err ==> final(self).contents() == old(self).contents(),
            r is Ok ==> exists|ws: Seq<WriteView>| final(self).contents() == apply_all(old(self).contents(), ws),
            exists|w: &mut ChainWrite, o: Result<R>|
                {
                    &&& (*w).writes() == Seq::<WriteView>::empty()
                    &&& call_ensures(changes, (w,), o)
                    &&& match o {
                        Err(e) => r == Err::<R, StorageError>(e) && final(self).contents() == old(self).contents(),
                        Ok(v) => (r == Ok::<R, StorageError>(v) && final(self).contents() == apply_all(
                            old(self).contents(),
                            final(w).writes(),
                        )) || (r matches Err(StorageError::Engine(_)) && final(self).contents() == old(self).contents()),
                    }
                },
    {
        let mut write = ChainWrite::new();
        let outcome = changes(&mut write);
        self.commit_outcome(write, outcome)
    }

    /// Applies a validated block on top of the current tip in one write.
    ///
    /// `spent` holds the coins the block consumed, one per non-coinbase input, in block order.
    /// They become the block's undo data.
    ///
    /// New outputs are written before spent ones are deleted, so an output created and spent
    /// inside the same block ends up absent.
    pub fn connect_block(&mut self, block: &Block, height: u32, spent: &[Coin]) -> (r: Result<()>)
        requires
            height < 0x8000_0000,
            undo_storable(spent@.map_values(|c: Coin| c@)),
        ensures
            !tip_readable(old(self).contents()) ==> r is Err && read_error(r->Err_0),
            r matches Err(StorageError::Corrupted { .. }) ==> !tip_readable(old(self).contents()),
            tip_readable(old(self).contents()) ==> {
                let n = spending(block@).len();
                if !extends_tip(old(self).contents(), block.header.prev_blockhash) {
                    r == Err::<(), StorageError>(StorageError::NotExtendingTip {
                        block: spec_block_hash(block.header),
                        tip: recorded_tip(old(self).contents()),
                    }) || (r matches Err(StorageError::Engine(_)))
                } else if n != spent@.len() {
                    r == Err::<(), StorageError>(StorageError::SpentCoinsMismatch {
                        expected: #[verifier::truncate] (n as usize),
                        actual: #[verifier::truncate] (spent@.len() as usize),
                    }) || (r matches Err(StorageError::Engine(_)))
                } else {
                    r is Ok || (r matches Err(StorageError::Engine(_)))
                }
            },
            final(self).spec_db().tables() == old(self).spec_db().tables(),
            r is Ok ==> {
                &&& extends_tip(old(self).contents(), block.header.prev_blockhash)
                &&& spending(block@).len() == spent@.len()
                &&& final(self).contents() == apply_all(
                    old(self).contents(),
                    connect_writes(block@, height, spent@.map_values(|c: Coin| c@)),
                )
            },
            r is Err ==> final(self).contents() == old(self).contents(),
            r matches Err(StorageError::NotExtendingTip { block: b, tip }) ==> b == spec_block_hash(
                block.header,
            ) && !extends_tip(old(self).contents(), block.header.prev_blockhash),
            r matches Err(StorageError::SpentCoinsMismatch { expected, actual }) ==> expected
                == spending(block@).len() && actual == spent@.len() && expected != actual,
    {
        let hash = block.block_hash();
        let tip = match self.tip() {
            Ok(t) => t,
            Err(e) => return Err(e),
        };
        proof {
            lemma_extends_recorded(self.contents(), block.header.prev_blockhash);
        }
        let zero = Hash256::zero();
        let base = match tip {
            Some(t) => t,
            None => zero,
        };
        if base != block.header.prev_blockhash {
            proof {
                crate::primitives::lemma_hash_bytes(base, Seq::empty());
                crate::primitives::lemma_hash_bytes(block.header.prev_blockhash, Seq::empty());
            }
            return Err(StorageError::NotExtendingTip { block: hash, tip });
        }
        match check_spent_count(block, spent.len()) {
            Ok(()) => {},
            Err(e) => return Err(e),
        }
        let ghost txs = block@.transactions;
        let mut write = ChainWrite::new();
        let mut t: usize = 0;
        while t < block.transactions.len()
            invariant
                txs == block@.transactions,
                height < 0x8000_0000,
                t <= txs.len(),
                write.writes() == created_by_block(txs, height, t as nat),
            decreases txs.len() - t,
        {
            let transaction = &block.transactions[t];
            let txid = transaction.compute_txid();
            let is_coinbase = transaction.is_coinbase();
            let ghost start = write.writes();
            let mut v: usize = 0;
            while v < transaction.outputs.len()
                invariant
                    txs == block@.transactions,
                    height < 0x8000_0000,
                    t < txs.len(),
                    transaction@ == txs[t as int],
                    txid == spec_txid(transaction@),
                    is_coinbase == spec_is_coinbase(transaction@),
                    v <= transaction.outputs@.len(),
                    write.writes() == start + created_by_tx(transaction@, height, v as nat),
                decreases transaction.outputs@.len() - v,
            {
                let output = &transaction.outputs[v];
                proof {
                    assert(transaction@.outputs[v as int] == output@);
                }
                if !Coin::is_unspendable(output) {
                    let outpoint = OutPoint { txid, vout: #[verifier::truncate] (v as u32) };
                    let coin = Coin { output: output.copy(), height, is_coinbase };
                    let _ = write.put::<Coins>(&outpoint, &coin);
                }
                v = v + 1;
            }
            proof {
                assert(created_by_block(txs, height, (t + 1) as nat) == created_by_block(txs, height, t as nat)
                    + created_by_tx(txs[t as int], height, txs[t as int].outputs.len()));
            }
            t = t + 1;
        }
        let spends = spending_outpoints(block);
        let ghost created = write.writes();
        let mut i: usize = 0;
        while i < spends.len()
            invariant
                created == created_by_block(txs, height, txs.len()),
                i <= spends@.len(),
                write.writes() == created + spends@.take(i as int).map_values(|op: OutPoint| delete_coin(op)),
            decreases spends@.len() - i,
        {
            let _ = write.delete::<Coins>(&spends[i]);
            proof {
                assert(spends@.take(i + 1).map_values(|op: OutPoint| delete_coin(op)) =~= spends@.take(
                    i as int,
                ).map_values(|op: OutPoint| delete_coin(op)).push(delete_coin(spends@[i as int])));
            }
            i = i + 1;
        }
        proof {
            assert(spends@.take(spends@.len() as int) =~= spends@);
        }
        let undo = BlockUndo(copy_coins(spent));
        let _ = write.put::<Undo>(&hash, &undo);
        let _ = write.put::<HeightIndex>(&height, &hash);
        let _ = write.put::<Meta>(&MetaKey::Tip, &hash);
        proof {
            assert(write.writes() =~= connect_writes(block@, height, spent@.map_values(|c: Coin| c@)));
        }
        let r = self.commit(write);
        proof {
            if tip is None {
                assert(tip_bytes(old(self).contents()) is None);
            }
        }
        r
    }

    /// Reverts the current tip block in one write, restoring the coins it spent.
    ///
    /// Spent coins are restored before created outputs are deleted, so an output created and
    /// spent inside the same block ends up absent.
    pub fn disconnect_block(&mut self, block: &Block, height: u32) -> (r: Result<()>)
        ensures
            !tip_readable(old(self).contents()) ==> r is Err && read_error(r->Err_0),
            tip_readable(old(self).contents()) && recorded_tip(old(self).contents()) != Some(spec_block_hash(block.header))
                ==> r == Err::<(), StorageError>(StorageError::NotTip {
                block: spec_block_hash(block.header),
                tip: recorded_tip(old(self).contents()),
            }) || (r matches Err(StorageError::Engine(_))),
            tip_readable(old(self).contents()) && recorded_tip(old(self).contents()) == Some(spec_block_hash(block.header))
                ==> {
                let stored = lookup(old(self).contents(), Undo::spec_name(), spec_block_hash(block.header).spec_bytes());
                let n = spending(block@).len();
                &&& stored is None ==> r == Err::<(), StorageError>(StorageError::MissingUndo(spec_block_hash(block.header)))
                    || (r matches Err(StorageError::Engine(_)))
                &&& (stored is Some && !decodable::<BlockUndo>(stored->Some_0)) ==> r is Err && read_error(r->Err_0)
                &&& forall|u: BlockUndo| #![trigger u.spec_encode()]
                    u.encodable() && stored == Some(u.spec_encode()) ==> if u@.len() != n {
                        r == Err::<(), StorageError>(StorageError::SpentCoinsMismatch {
                            expected: #[verifier::truncate] (n as usize),
                            actual: #[verifier::truncate] (u@.len() as usize),
                        }) || (r matches Err(StorageError::Engine(_)))
                    } else {
                        r is Ok || (r matches Err(StorageError::Engine(_)))
                    }
            },
            final(self).spec_db().tables() == old(self).spec_db().tables(),
            r is Ok ==> exists|undo: Seq<CoinView>|
                {
                    &&& tip_bytes(old(self).contents()) == Some(spec_block_hash(block.header).spec_bytes())
                    &&& lookup(old(self).contents(), Undo::spec_name(), spec_block_hash(block.header).spec_bytes())
                        == Some(spec_undo_bytes(undo))
                    &&& undo.len() == spending(block@).len()
                    &&& undo_encodable(undo)
                    &&& final(self).contents() == apply_all(
                        old(self).contents(),
                        disconnect_writes(block@, height, undo),
                    )
                },
            r is Err ==> final(self).contents() == old(self).contents(),
            r matches Err(StorageError::NotTip { block: b, tip }) ==> b == spec_block_hash(block.header)
                && tip_bytes(old(self).contents()) != Some(spec_block_hash(block.header).spec_bytes()),
            r matches Err(StorageError::MissingUndo(b)) ==> b == spec_block_hash(block.header) && lookup(
                old(self).contents(),
                Undo::spec_name(),
                spec_block_hash(block.header).spec_bytes(),
            ) is None,
    {
        let hash = block.block_hash();
        let tip = match self.tip() {
            Ok(t) => t,
            Err(e) => return Err(e),
        };
        let on_tip = match tip {
            Some(t) => t == hash,
            None => false,
        };
        if !on_tip {
            proof {
                if tip is Some {
                    crate::primitives::lemma_hash_bytes(tip->Some_0, Seq::empty());
                    crate::primitives::lemma_hash_bytes(hash, Seq::empty());
                    crate::primitives::lemma_key_injective(tip->Some_0, hash);
                }
            }
            return Err(StorageError::NotTip { block: hash, tip });
        }
        let undo = match self.undo(&hash) {
            Ok(Some(u)) => u,
            Ok(None) => return Err(StorageError::MissingUndo(hash)),
            Err(e) => return Err(e),
        };
        proof {
            assert(undo@.len() == undo.0@.len());
        }
        match check_spent_count(block, undo.0.len()) {
            Ok(()) => {},
            Err(e) => return Err(e),
        }
        let ghost txs = block@.transactions;
        let ghost coins = undo@;
        let spends = spending_outpoints(block);
        let mut write = ChainWrite::new();
        let mut i: usize = 0;
        while i < spends.len()
            invariant
                coins == undo@,
                undo_storable(coins),
                coins.len() == spends@.len(),
                i <= spends@.len(),
                write.writes() == Seq::new(i as nat, |j: int| put_coin(spends@[j], coins[j])),
            decreases spends@.len() - i,
        {
            proof {
                assert(undo.0@[i as int]@ == coins[i as int]);
            }
            let _ = write.put::<Coins>(&spends[i], &undo.0[i]);
            proof {
                assert(undo.0@[i as int]@ == coins[i as int]);
                assert(write.writes() =~= Seq::new((i + 1) as nat, |j: int| put_coin(spends@[j], coins[j])));
            }
            i = i + 1;
        }
        let ghost restored = write.writes();
        let mut t: usize = 0;
        while t < block.transactions.len()
            invariant
                txs == block@.transactions,
                restored == Seq::new(spends@.len(), |j: int| put_coin(spends@[j], coins[j])),
                t <= txs.len(),
                write.writes() == restored + deleted_by_block(txs, t as nat),
            decreases txs.len() - t,
        {
            let transaction = &block.transactions[t];
            let txid = transaction.compute_txid();
            let ghost start = write.writes();
            let mut v: usize = 0;
            while v < transaction.outputs.len()
                invariant
                    txs == block@.transactions,
                    t < txs.len(),
                    transaction@ == txs[t as int],
                    txid == spec_txid(transaction@),
                    v <= transaction.outputs@.len(),
                    write.writes() == start + deleted_by_tx(transaction@, v as nat),
                decreases transaction.outputs@.len() - v,
            {
                let _ = write.delete::<Coins>(&OutPoint { txid, vout: #[verifier::truncate] (v as u32) });
                proof {
                    assert(deleted_by_tx(transaction@, (v + 1) as nat) =~= deleted_by_tx(transaction@, v as nat).push(
                        delete_coin(OutPoint { txid, vout: #[verifier::truncate] (v as u32) }),
                    ));
                }
                v = v + 1;
            }
            proof {
                assert(deleted_by_block(txs, (t + 1) as nat) == deleted_by_block(txs, t as nat) + deleted_by_tx(
                    txs[t as int],
                    txs[t as int].outputs.len(),
                ));
            }
            t = t + 1;
        }
        let _ = write.delete::<Undo>(&hash);
        let _ = write.delete::<HeightIndex>(&height);
        let _ = write.put::<Meta>(&MetaKey::Tip, &block.header.prev_blockhash);
        proof {
            assert(write.writes() =~= disconnect_writes(block@, height, coins));
            assert(tip_bytes(old(self).contents()) == Some(hash.spec_bytes()));
        }
        self.commit(write)
    }
}

} // verus!
