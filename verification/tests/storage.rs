use rust_btcd::primitives::{BlockHash, Hash256, Header};
use rust_btcd::storage::coin::MAX_SCRIPT_SIZE;
use rust_btcd::storage::db::table::Profile;
use rust_btcd::storage::{
    BlockStatus, BlockUndo, Blocks, Chainstate, Coin, Coins, HeaderEntry, Headers, HeightIndex, MemoryDb,
    Meta, MetaKey, Storage, Store, StorageError, Table, Undo,
};
use rust_btcd::transaction::{Block, OutPoint, Transaction, TxIn, TxOut};

fn output(sats: u64) -> TxOut {
    TxOut { amount: sats, script_pubkey: vec![0x51] }
}

/// `tag` makes otherwise identical coinbases have different txids.
fn coinbase(tag: u8, outputs: Vec<TxOut>) -> Transaction {
    tx(vec![(OutPoint::null(), vec![tag, tag])], outputs)
}

fn spend(prevouts: &[OutPoint], outputs: Vec<TxOut>) -> Transaction {
    tx(prevouts.iter().map(|p| (*p, vec![])).collect(), outputs)
}

fn tx(inputs: Vec<(OutPoint, Vec<u8>)>, outputs: Vec<TxOut>) -> Transaction {
    Transaction {
        version: 2,
        lock_time: 0,
        inputs: inputs
            .into_iter()
            .map(|(previous_output, sig)| TxIn {
                previous_output,
                script_sig: sig,
                sequence: 0xffff_ffff,
                witness: vec![],
            })
            .collect(),
        outputs,
    }
}

fn block(prev: BlockHash, nonce: u32, transactions: Vec<Transaction>) -> Block {
    let header = Header {
        version: 1,
        prev_blockhash: prev,
        merkle_root: Hash256::zero(),
        time: 0,
        bits: 0x207f_ffff,
        nonce,
    };
    Block { header, transactions }
}

fn null_hash() -> BlockHash {
    Hash256::zero()
}

fn open_memory() -> Storage<MemoryDb> {
    let chainstate = MemoryDb::new(&Chainstate::<MemoryDb>::tables());
    let blocks = MemoryDb::new(&[(Blocks::name(), Blocks::profile())]);
    let headers = MemoryDb::new(&[(Headers::name(), Headers::profile())]);
    Storage::new(chainstate, blocks, headers).expect("open storage")
}

fn op(transaction: &Transaction, vout: u32) -> OutPoint {
    OutPoint { txid: transaction.compute_txid(), vout }
}

fn entry(nonce: u32, height: u32) -> HeaderEntry {
    let header = block(null_hash(), nonce, vec![]).header;
    let mut status = BlockStatus::header_valid();
    status.insert(BlockStatus::have_data());
    HeaderEntry { chain_work: header.work(), header, height, status }
}

fn coin(height: u32, is_coinbase: bool) -> Coin {
    Coin { output: TxOut { amount: 12_345, script_pubkey: vec![0x51] }, height, is_coinbase }
}

#[test]
fn put_get_delete() {
    let mut storage = open_memory();
    let blocks = storage.blocks_mut();
    let block = block(null_hash(), 7, vec![coinbase(1, vec![output(50)])]);

    let hash = block.block_hash();
    blocks.put(&hash, &block).unwrap();
    assert!(blocks.exists_key(&hash).unwrap());
    assert_eq!(blocks.get(&hash).unwrap(), Some(block));

    blocks.delete(&hash).unwrap();
    assert!(!blocks.exists_key(&hash).unwrap());
    assert_eq!(blocks.get(&hash).unwrap(), None);
}

#[test]
fn blocks_are_stored_and_deleted() {
    let mut storage = open_memory();
    let blocks = storage.blocks_mut();
    let block = block(null_hash(), 7, vec![coinbase(1, vec![output(50)])]);
    let hash = block.block_hash();

    blocks.put(&hash, &block).unwrap();
    assert!(blocks.exists_key(&hash).unwrap());
    assert_eq!(blocks.get(&hash).unwrap(), Some(block));

    blocks.delete(&hash).unwrap();
    assert!(!blocks.exists_key(&hash).unwrap());
}

#[test]
fn headers_are_written_together_and_read_back() {
    let mut storage = open_memory();
    let headers = storage.headers_mut();
    let a = entry(1, 10);
    let b = entry(2, 11);

    headers
        .write(|batch| {
            batch.put::<Headers>(&a.block_hash(), &a)?;
            batch.put::<Headers>(&b.block_hash(), &b)
        })
        .unwrap();

    assert_eq!(headers.get(&a.block_hash()).unwrap(), Some(a));
    let mut all: Vec<HeaderEntry> = headers.scan(&()).unwrap();
    all.sort_by_key(|entry| entry.height);
    assert_eq!(all, vec![a, b]);
}

#[test]
fn a_store_refuses_a_database_without_its_table() {
    let db = MemoryDb::new(&[(Blocks::name(), Blocks::profile())]);
    let wrong = Store::<Headers, MemoryDb>::open(db);
    assert!(wrong.is_err(), "the headers table is not in this database");
}

#[test]
fn storage_refuses_miswired_databases() {
    let chainstate = MemoryDb::new(&[(Blocks::name(), Blocks::profile())]);
    let blocks = MemoryDb::new(&[(Blocks::name(), Blocks::profile())]);
    let headers = MemoryDb::new(&[(Headers::name(), Headers::profile())]);
    assert!(Storage::new(chainstate, blocks, headers).is_err());
    assert_eq!(Blocks::profile(), Profile::LargeValues);
}

#[test]
fn connect_and_disconnect_restore_state() {
    let mut storage = open_memory();
    let chain = storage.chainstate_mut();

    // Block 0: a coinbase with two spendable outputs and one that can never be spent.
    let op_return = TxOut { amount: 0, script_pubkey: vec![0x6a] };
    let cb0 = coinbase(0, vec![output(50), output(25), op_return]);
    let b0 = block(null_hash(), 0, vec![cb0.clone()]);
    chain.connect_block(&b0, 0, &[]).unwrap();

    assert_eq!(chain.tip().unwrap(), Some(b0.block_hash()));
    assert_eq!(chain.block_hash_at(0).unwrap(), Some(b0.block_hash()));
    let coin0 = chain.coins().get(&op(&cb0, 0)).unwrap().unwrap();
    assert_eq!(coin0, Coin { output: output(50), height: 0, is_coinbase: true });
    assert!(chain.coins().get(&op(&cb0, 2)).unwrap().is_none(), "an unspendable output is not stored");

    // Block 1 spends one coin, and one of its transactions spends another's output.
    let cb1 = coinbase(1, vec![output(50)]);
    let tx_a = spend(&[op(&cb0, 0)], vec![output(40)]);
    let tx_b = spend(&[op(&tx_a, 0)], vec![output(30)]);
    let b1 = block(b0.block_hash(), 1, vec![cb1.clone(), tx_a.clone(), tx_b.clone()]);
    let spent = vec![coin0.clone(), Coin { output: output(40), height: 1, is_coinbase: false }];
    chain.connect_block(&b1, 1, &spent).unwrap();

    assert_eq!(chain.tip().unwrap(), Some(b1.block_hash()));
    assert!(chain.coins().get(&op(&cb0, 0)).unwrap().is_none());
    assert!(chain.coins().get(&op(&tx_a, 0)).unwrap().is_none(), "created and spent in one block");
    assert!(chain.coins().get(&op(&tx_b, 0)).unwrap().is_some());
    assert_eq!(chain.undo(&b1.block_hash()).unwrap(), Some(BlockUndo(spent)));

    chain.disconnect_block(&b1, 1).unwrap();

    assert_eq!(chain.tip().unwrap(), Some(b0.block_hash()));
    assert_eq!(chain.block_hash_at(1).unwrap(), None);
    assert_eq!(chain.undo(&b1.block_hash()).unwrap(), None);
    assert_eq!(chain.coins().get(&op(&cb0, 0)).unwrap(), Some(coin0));
    assert!(chain.coins().get(&op(&cb0, 1)).unwrap().is_some());
    assert!(chain.coins().get(&op(&tx_b, 0)).unwrap().is_none());
    assert!(chain.coins().get(&op(&cb1, 0)).unwrap().is_none());
}

#[test]
fn get_many_and_prefix_lookup() {
    let mut storage = open_memory();
    let chain = storage.chainstate_mut();
    let cb = coinbase(0, vec![output(1), output(2), output(3)]);
    let b0 = block(null_hash(), 0, vec![cb.clone()]);
    chain.connect_block(&b0, 0, &[]).unwrap();

    let missing = OutPoint { txid: cb.compute_txid(), vout: 9 };
    let found = chain.coins().get_many(&[op(&cb, 2), missing, op(&cb, 0)]).unwrap();
    assert_eq!(found[0].as_ref().map(|c| c.output.amount), Some(3));
    assert!(found[1].is_none());
    assert_eq!(found[2].as_ref().map(|c| c.output.amount), Some(1));

    assert!(chain.has_unspent_outputs(&cb.compute_txid()).unwrap());
    let other = coinbase(7, vec![output(1)]).compute_txid();
    assert!(!chain.has_unspent_outputs(&other).unwrap());
}

#[test]
fn rejects_blocks_not_on_tip() {
    let mut storage = open_memory();
    let chain = storage.chainstate_mut();
    let b0 = block(null_hash(), 0, vec![coinbase(0, vec![output(1)])]);
    let orphan = block(b0.block_hash(), 5, vec![coinbase(5, vec![output(1)])]);

    assert!(matches!(chain.connect_block(&orphan, 1, &[]), Err(StorageError::NotExtendingTip { .. })));
    chain.connect_block(&b0, 0, &[]).unwrap();
    assert!(matches!(chain.disconnect_block(&orphan, 1), Err(StorageError::NotTip { .. })));
}

#[test]
fn rejects_wrong_spent_count() {
    let mut storage = open_memory();
    let cb = coinbase(0, vec![output(1)]);
    let b0 = block(null_hash(), 0, vec![cb.clone(), spend(&[op(&cb, 0)], vec![output(1)])]);
    assert!(matches!(
        storage.chainstate_mut().connect_block(&b0, 0, &[]),
        Err(StorageError::SpentCoinsMismatch { expected: 1, actual: 0 })
    ));
}

#[test]
fn a_failed_write_changes_nothing() {
    let mut storage = open_memory();
    let chain = storage.chainstate_mut();
    let hash = null_hash();

    let outcome: Result<(), StorageError> = chain.write(|write| {
        write.put::<Meta>(&MetaKey::Tip, &hash)?;
        Err(StorageError::MissingUndo(hash))
    });

    assert!(matches!(outcome, Err(StorageError::MissingUndo(h)) if h == hash));
    assert_eq!(chain.tip().unwrap(), None, "nothing is written when the closure fails");
}

#[test]
fn a_committed_write_is_read_back() {
    let mut storage = open_memory();
    let chain = storage.chainstate_mut();
    let hash = Hash256::from_slice(&[3u8; 32]);
    let value = chain.write(|write| {
        write.put::<Meta>(&MetaKey::Tip, &hash)?;
        Ok(7)
    });
    assert_eq!(value.unwrap(), 7);
    assert_eq!(chain.tip().unwrap(), Some(hash));
}

#[test]
fn disconnect_without_undo_is_refused() {
    let mut storage = open_memory();
    let chain = storage.chainstate_mut();
    let b0 = block(null_hash(), 0, vec![coinbase(0, vec![output(1)])]);
    let hash = b0.block_hash();
    chain.write(|write| write.put::<Meta>(&MetaKey::Tip, &hash)).unwrap();
    assert!(matches!(chain.disconnect_block(&b0, 0), Err(StorageError::MissingUndo(h)) if h == hash));
}

#[test]
fn coin_roundtrip() {
    for c in [coin(0, false), coin(840_000, true), coin((1 << 31) - 1, true)] {
        assert_eq!(Coin::from_bytes(&c.to_bytes()).unwrap(), c);
    }
}

#[test]
fn coin_rejects_truncated_and_trailing_bytes() {
    let bytes = coin(7, false).to_bytes();
    assert!(Coin::from_bytes(&bytes[..bytes.len() - 1]).is_err());
    assert!(Coin::from_bytes(&bytes[..2]).is_err());
    assert!(Coin::from_bytes(&[bytes.as_slice(), &[0]].concat()).is_err());
}

#[test]
fn undo_roundtrip() {
    for undo in [BlockUndo::default(), BlockUndo(vec![coin(1, true), coin(2, false)])] {
        assert_eq!(BlockUndo::from_bytes(&undo.to_bytes()).unwrap(), undo);
    }
}

#[test]
fn undo_rejects_bad_count_and_trailing_bytes() {
    let bytes = BlockUndo(vec![coin(1, true), coin(2, false)]).to_bytes();
    assert!(BlockUndo::from_bytes(&bytes[..bytes.len() - 1]).is_err());
    assert!(BlockUndo::from_bytes(&[bytes.as_slice(), &[0]].concat()).is_err());

    let mut huge_count = bytes.clone();
    huge_count[..4].copy_from_slice(&u32::MAX.to_le_bytes());
    assert!(BlockUndo::from_bytes(&huge_count).is_err());
}

#[test]
fn unspendable_outputs() {
    let op_return = TxOut { amount: 0, script_pubkey: vec![0x6a] };
    let too_big = TxOut { amount: 0, script_pubkey: vec![0x51; MAX_SCRIPT_SIZE + 1] };
    assert!(Coin::is_unspendable(&op_return));
    assert!(Coin::is_unspendable(&too_big));
    assert!(!Coin::is_unspendable(&coin(0, false).output));
}

#[test]
fn coin_bytes_have_the_documented_layout() {
    let bytes = coin(3, true).to_bytes();
    // Height code 3 << 1 | 1, then amount 12_345 LE, then a one-byte script.
    assert_eq!(bytes, vec![7, 0, 0, 0, 0x39, 0x30, 0, 0, 0, 0, 0, 0, 1, 0x51]);
}

#[test]
fn entry_roundtrip() {
    let e = entry(3, 840_000);
    let bytes = e.to_bytes();
    assert_eq!(bytes.len(), 117);
    assert_eq!(HeaderEntry::from_bytes(&bytes).unwrap(), e);
}

#[test]
fn entry_rejects_wrong_length() {
    let bytes = entry(3, 1).to_bytes();
    assert!(HeaderEntry::from_bytes(&bytes[..117 - 1]).is_err());
    assert!(HeaderEntry::from_bytes(&[bytes.as_slice(), &[0]].concat()).is_err());
}

#[test]
fn status_flags() {
    let mut status = BlockStatus::from_bits(0);
    status.insert(BlockStatus::header_valid());
    status.insert(BlockStatus::failed());
    assert!(status.contains(BlockStatus::failed()));
    status.remove(BlockStatus::failed());
    assert!(!status.contains(BlockStatus::failed()));
    assert!(status.contains(BlockStatus::header_valid()));
    assert_eq!(status.bits(), 1);
}

#[test]
fn read_after_write_sees_the_latest_value() {
    let mut store = Store::<Headers, MemoryDb>::open(MemoryDb::new(&[(Headers::name(), Headers::profile())])).unwrap();
    let a = entry(1, 1);
    let mut b = a;
    b.height = 2;
    let key = a.block_hash();
    store.put(&key, &a).unwrap();
    store.put(&key, &b).unwrap();
    assert_eq!(store.get(&key).unwrap(), Some(b));
    assert!(store.exists_prefix(&()).unwrap());
    store.delete(&key).unwrap();
    assert_eq!(store.get(&key).unwrap(), None);
    assert!(!store.exists_prefix(&()).unwrap());
}

#[test]
fn a_store_names_the_missing_table() {
    let db = MemoryDb::new(&[(Blocks::name(), Blocks::profile())]);
    match Store::<Headers, MemoryDb>::open(db) {
        Err(StorageError::Engine(message)) => {
            assert_eq!(message, "this database does not host the `headers` table");
        }
        _ => panic!("the headers table is not in this database"),
    }
}

#[test]
fn chainstate_names_the_first_missing_table() {
    let db = MemoryDb::new(&[(Coins::name(), Coins::profile()), (HeightIndex::name(), HeightIndex::profile())]);
    match Chainstate::open(db) {
        Err(StorageError::Engine(message)) => {
            assert_eq!(message, format!("this database does not host the `{}` table", Undo::name()));
        }
        _ => panic!("the undo table is not in this database"),
    }
    assert!(Chainstate::open(MemoryDb::new(&Chainstate::<MemoryDb>::tables())).is_ok());
}

#[test]
fn a_read_gives_back_the_value_written() {
    let db = MemoryDb::new(&[(Coins::name(), Coins::profile())]);
    let mut coins = Store::<Coins, MemoryDb>::open(db).unwrap();
    let key = OutPoint { txid: Hash256::zero(), vout: 3 };
    let coin = Coin { output: output(77), height: 12, is_coinbase: true };
    coins.put(&key, &coin).unwrap();
    assert_eq!(coins.get(&key).unwrap(), Some(coin.clone()));
    let other = OutPoint { txid: Hash256::zero(), vout: 4 };
    assert_eq!(coins.get_many(&[other, key]).unwrap(), vec![None, Some(coin)]);
}

#[test]
fn undo_heights_come_back_below_two_to_the_31() {
    let high = Coin { output: output(5), height: 0x8000_0005, is_coinbase: false };
    let bytes = BlockUndo(vec![high]).to_bytes();
    let read = BlockUndo::from_bytes(&bytes).unwrap();
    assert_eq!(read.0[0].height, 5);
    assert_eq!(read.to_bytes(), bytes);
}

#[test]
fn connect_block_reports_the_tip_and_the_spent_count() {
    let mut storage = open_memory();
    let chain = storage.chainstate_mut();
    let b0 = block(null_hash(), 0, vec![coinbase(0, vec![output(50)])]);
    let orphan = block(b0.block_hash(), 1, vec![coinbase(1, vec![output(50)])]);
    let orphan_hash = orphan.block_hash();
    assert!(matches!(
        chain.connect_block(&orphan, 1, &[]),
        Err(StorageError::NotExtendingTip { block, tip: None }) if block == orphan_hash
    ));
    chain.connect_block(&b0, 0, &[]).unwrap();
    let spender = block(
        b0.block_hash(),
        2,
        vec![coinbase(2, vec![output(1)]), spend(&[OutPoint { txid: b0.transactions[0].compute_txid(), vout: 0 }], vec![output(2)])],
    );
    assert!(matches!(
        chain.connect_block(&spender, 1, &[]),
        Err(StorageError::SpentCoinsMismatch { expected: 1, actual: 0 })
    ));
    assert_eq!(chain.tip().unwrap(), Some(b0.block_hash()));
}

#[test]
fn a_later_delete_in_one_write_wins() {
    let mut storage = open_memory();
    let chain = storage.chainstate_mut();
    let hash = Hash256::from_slice(&[5u8; 32]);
    chain
        .write(|write| {
            write.put::<Meta>(&MetaKey::Tip, &hash)?;
            write.delete::<Meta>(&MetaKey::Tip)
        })
        .unwrap();
    assert_eq!(chain.tip().unwrap(), None);
}
