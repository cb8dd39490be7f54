use rust_btcd::primitives::{genesis_header, Hash256};
use rust_btcd::chain_params::Chain;
use rust_btcd::transaction::{Block, OutPoint, Transaction, TxIn, TxOut};
use rust_btcd::wire::limits::{MAX_ADDR_RECORDS, MAX_HEADERS, MAX_INV_VECTORS, MAX_LOCATOR_HASHES};
use rust_btcd::wire::{
    block_without_witness, check, requests_unoffered_service, transaction_without_witness, window, Message, Overflow,
    Reaction, WireError, Window,
};

#[test]
fn windows_follow_the_message_catalogue() {
    assert_eq!(window(&Message::Version), Window::Handshake);
    assert_eq!(window(&Message::Verack), Window::Handshake);
    assert_eq!(window(&Message::WtxidRelay), Window::Negotiation);
    assert_eq!(window(&Message::SendAddrV2), Window::Negotiation);
    assert_eq!(window(&Message::Feature), Window::Negotiation);
    assert_eq!(window(&Message::SendHeaders), Window::NegotiationOrEstablished);
    assert_eq!(window(&Message::GetAddr), Window::Established);
    assert_eq!(window(&Message::Ping(1)), Window::Established);
}

#[test]
fn negotiation_messages_are_allowed_before_verack() {
    assert!(Window::Negotiation.allowed_during_negotiation());
    assert!(Window::NegotiationOrEstablished.allowed_during_negotiation());
    assert!(!Window::Established.allowed_during_negotiation());
    assert!(!Window::Handshake.allowed_during_negotiation());
}

#[test]
fn remaining_windows() {
    assert_eq!(window(&Message::SendTxRcnCl), Window::Negotiation);
    assert_eq!(window(&Message::SendCmpct), Window::NegotiationOrEstablished);
    assert_eq!(window(&Message::Inv(3)), Window::Established);
    assert_eq!(window(&Message::Other), Window::Established);
}

#[test]
fn messages_within_their_limits_pass() {
    assert!(check(&Message::Addr(MAX_ADDR_RECORDS)).is_ok());
    assert!(check(&Message::Inv(10)).is_ok());
    assert!(check(&Message::Headers(MAX_HEADERS)).is_ok());
    assert!(check(&Message::GetHeaders(MAX_LOCATOR_HASHES)).is_ok());
    assert!(check(&Message::Verack).is_ok());
}

#[test]
fn oversized_address_messages_are_recorded() {
    let message = Message::Addr(MAX_ADDR_RECORDS + 1);
    let err = check(&message).unwrap_err();
    assert_eq!(
        err,
        WireError::TooMany {
            kind: Overflow::AddressRecords,
            count: MAX_ADDR_RECORDS + 1,
            limit: MAX_ADDR_RECORDS,
        }
    );
    assert_eq!(err.reaction(), Reaction::TerminateAndRecord);
    assert_eq!(err.message(), "1001 address records exceed the limit of 1000");
}

#[test]
fn oversized_inventory_messages_are_recorded() {
    let message = Message::Inv(MAX_INV_VECTORS + 1);
    let err = check(&message).unwrap_err();
    assert!(matches!(
        err,
        WireError::TooMany {
            kind: Overflow::InventoryVectors,
            ..
        }
    ));
    assert_eq!(err.reaction(), Reaction::TerminateAndRecord);

    let message = Message::NotFound(MAX_INV_VECTORS + 1);
    assert!(check(&message).is_err());
}

#[test]
fn oversized_header_messages_are_recorded() {
    let message = Message::Headers(MAX_HEADERS + 1);
    let err = check(&message).unwrap_err();
    assert!(matches!(
        err,
        WireError::TooMany {
            kind: Overflow::Headers,
            ..
        }
    ));
    assert_eq!(err.reaction(), Reaction::TerminateAndRecord);
}

#[test]
fn oversized_locators_terminate_without_being_recorded() {
    let err = check(&Message::GetHeaders(MAX_LOCATOR_HASHES + 1)).unwrap_err();
    assert!(matches!(
        err,
        WireError::TooMany {
            kind: Overflow::LocatorHashes,
            ..
        }
    ));
    assert_eq!(err.reaction(), Reaction::Terminate);
}

#[test]
fn requests_for_services_we_do_not_offer_are_recognised() {
    assert!(requests_unoffered_service(&Message::MemPool));
    assert!(requests_unoffered_service(&Message::FilterClear));

    assert!(!requests_unoffered_service(&Message::GetAddr));
    assert!(!requests_unoffered_service(&Message::Verack));
    assert!(!requests_unoffered_service(&Message::Inv(1)));
}

#[test]
fn every_limit_violation_closes_the_connection() {
    for message in [
        Message::Addr(MAX_ADDR_RECORDS + 5),
        Message::AddrV2(MAX_ADDR_RECORDS + 1),
        Message::GetData(MAX_INV_VECTORS + 1),
        Message::Headers(MAX_HEADERS + 2),
        Message::GetBlocks(MAX_LOCATOR_HASHES + 1),
    ] {
        let err = check(&message).unwrap_err();
        assert_ne!(err.reaction(), Reaction::Discard);
    }
    assert_eq!(Overflow::LocatorHashes.limit(), 101);
    assert_eq!(Overflow::InventoryVectors.name(), "inventory vectors");
}

/// The mainnet genesis coinbase with a witness added to its only input.
fn witness_transaction() -> Transaction {
    let mut transaction = genesis_coinbase();
    transaction.inputs[0].witness = vec![vec![1u8; 32]];
    transaction
}

fn genesis_coinbase() -> Transaction {
    let mut script_sig = vec![0x04, 0xff, 0xff, 0x00, 0x1d, 0x01, 0x04, 0x45];
    script_sig.extend_from_slice(b"The Times 03/Jan/2009 Chancellor on brink of second bailout for banks");
    let mut script_pubkey = vec![0x41];
    script_pubkey.extend_from_slice(&[
        0x04, 0x67, 0x8a, 0xfd, 0xb0, 0xfe, 0x55, 0x48, 0x27, 0x19, 0x67, 0xf1, 0xa6, 0x71, 0x30, 0xb7, 0x10, 0x5c,
        0xd6, 0xa8, 0x28, 0xe0, 0x39, 0x09, 0xa6, 0x79, 0x62, 0xe0, 0xea, 0x1f, 0x61, 0xde, 0xb6, 0x49, 0xf6, 0xbc,
        0x3f, 0x4c, 0xef, 0x38, 0xc4, 0xf3, 0x55, 0x04, 0xe5, 0x1e, 0xc1, 0x12, 0xde, 0x5c, 0x38, 0x4d, 0xf7, 0xba,
        0x0b, 0x8d, 0x57, 0x8a, 0x4c, 0x70, 0x2b, 0x6b, 0xf1, 0x1d, 0x5f,
    ]);
    script_pubkey.push(0xac);
    Transaction {
        version: 1,
        lock_time: 0,
        inputs: vec![TxIn {
            previous_output: OutPoint::null(),
            script_sig,
            sequence: 0xffff_ffff,
            witness: vec![],
        }],
        outputs: vec![TxOut { amount: 50 * 100_000_000, script_pubkey }],
    }
}

#[test]
fn genesis_coinbase_txid_is_the_merkle_root() {
    let genesis = genesis_header(Chain::Main);
    assert_eq!(genesis_coinbase().compute_txid(), genesis.merkle_root);
}

#[test]
fn stripping_changes_the_bytes_but_not_the_txid() {
    let transaction = witness_transaction();
    let stripped = transaction_without_witness(&transaction);

    assert_ne!(transaction.encode(), stripped.encode());
    assert_eq!(stripped.compute_txid(), transaction.compute_txid());
    assert!(stripped.inputs[0].witness.is_empty());
}

#[test]
fn a_block_keeps_its_header_and_transaction_order() {
    let block = Block { header: genesis_header(Chain::Main), transactions: vec![genesis_coinbase()] };
    let stripped = block_without_witness(&block);
    assert_eq!(stripped.block_hash(), block.block_hash());
    assert_eq!(stripped.transactions.len(), block.transactions.len());
}

#[test]
fn stripping_a_transaction_without_witness_changes_nothing() {
    let transaction = genesis_coinbase();
    let stripped = transaction_without_witness(&transaction);
    assert_eq!(stripped, transaction);
    assert_eq!(stripped.encode(), transaction.encode_base());
    let zero = Hash256::zero();
    assert_ne!(stripped.compute_txid(), zero);
}
