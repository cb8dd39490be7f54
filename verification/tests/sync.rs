use bitcoin::blockdata::constants::genesis_block;
use bitcoin::transaction::Version;
use bitcoin::{Amount, Network, OutPoint, ScriptBuf, Sequence, Transaction, TxIn, TxOut, Txid, Witness};
use rust_btcd::chain_params::Chain;
use rust_btcd::header_chain::{HeaderChain, HeaderError};
use rust_btcd::primitives::{genesis_header, BlockHash, Hash256, Header};
use rust_btcd::p2p::sync::{
    check_block_body, BlockDownload, BlockRequest, BodyFault, HeaderSync, HeadersFault, MAX_BLOCKS_IN_FLIGHT_PER_PEER,
    MAX_HEADERS_RESULTS,
};
use rust_btcd::transaction::Block;

const WITNESS_COMMITMENT_PREFIX: [u8; 6] = [0x6a, 0x24, 0xaa, 0x21, 0xa9, 0xed];

/// A block of the `bitcoin` crate, in this library's form.
fn ours(block: &bitcoin::Block) -> Block {
    Block::decode(&bitcoin::consensus::serialize(block)).unwrap()
}

fn body_check(block: &bitcoin::Block) -> Result<(), &'static str> {
    check_block_body(&ours(block)).map_err(|fault| fault.reason())
}

/// A block with one SegWit spend and a valid witness commitment.
fn segwit_block() -> bitcoin::Block {
    let input = |previous_output, script_sig: Vec<u8>, witness: Witness| TxIn {
        previous_output,
        script_sig: ScriptBuf::from_bytes(script_sig),
        sequence: Sequence::MAX,
        witness,
    };
    let tx = |input: TxIn, value| Transaction {
        version: Version::TWO,
        lock_time: bitcoin::absolute::LockTime::ZERO,
        input: vec![input],
        output: vec![TxOut { value: Amount::from_sat(value), script_pubkey: ScriptBuf::new() }],
    };
    let reserved = [0u8; 32];
    let coinbase = tx(input(OutPoint::null(), vec![1, 1], Witness::from_slice(&[reserved])), 50_0000_0000);
    let spend_from = OutPoint { txid: <Txid as bitcoin::hashes::Hash>::all_zeros(), vout: 0 };
    let spend = tx(input(spend_from, vec![], Witness::from_slice(&[[7u8; 72]])), 1_000);

    let mut block = bitcoin::Block { header: genesis_block(Network::Regtest).header, txdata: vec![coinbase, spend] };
    let witness_root = block.witness_root().unwrap();
    let commitment = bitcoin::Block::compute_witness_commitment(&witness_root, &reserved);
    let mut script = WITNESS_COMMITMENT_PREFIX.to_vec();
    script.extend_from_slice(&commitment[..]);
    block.txdata[0].output.push(bitcoin::TxOut {
        value: bitcoin::Amount::ZERO,
        script_pubkey: bitcoin::ScriptBuf::from_bytes(script),
    });
    block.header.merkle_root = block.compute_merkle_root().unwrap();
    block
}

#[test]
fn genesis_block_body_is_accepted() {
    assert_eq!(body_check(&genesis_block(Network::Bitcoin)), Ok(()));
}

#[test]
fn detects_blocks_that_do_not_match_their_header() {
    let mut block = genesis_block(Network::Bitcoin);
    block.txdata[0].output[0].value = bitcoin::Amount::from_sat(1);
    assert!(body_check(&block).is_err());
}

#[test]
fn detects_stripped_witness_data() {
    let block = segwit_block();
    assert_eq!(body_check(&block), Ok(()));

    let mut stripped = block.clone();
    for tx in &mut stripped.txdata {
        for input in &mut tx.input {
            input.witness = Witness::new();
        }
    }
    assert_eq!(body_check(&stripped), Err("is missing its witness data"));

    let mut wrong_witness = block;
    wrong_witness.txdata[1].input[0].witness = Witness::from_slice(&[[8u8; 72]]);
    assert_eq!(body_check(&wrong_witness), Err("does not match its witness commitment"));
}

#[test]
fn a_changed_transaction_breaks_the_merkle_root() {
    let mut block = genesis_block(Network::Bitcoin);
    block.txdata[0].output[0].value = bitcoin::Amount::from_sat(1);
    assert_eq!(check_block_body(&ours(&block)), Err(BodyFault::MerkleRoot));
    assert_eq!(BodyFault::MerkleRoot.reason(), "does not match its header's merkle root");
}

fn hash(tag: u8) -> BlockHash {
    Hash256::from_slice(&[tag; 32])
}

fn regtest_chain() -> HeaderChain {
    HeaderChain::new(Chain::Regtest, vec![]).unwrap()
}

#[test]
fn blocks_go_to_the_least_busy_peer() {
    let chain = regtest_chain();
    let mut download = BlockDownload::new();
    download.queue(&[hash(1), hash(2), hash(3)]);
    let requests = download.request_blocks(&[7, 3], &chain, 100);
    assert_eq!(
        requests,
        vec![
            BlockRequest { hash: hash(1), peer: 3, since: 100 },
            BlockRequest { hash: hash(2), peer: 7, since: 100 },
            BlockRequest { hash: hash(3), peer: 3, since: 100 },
        ]
    );
    assert_eq!(download.load_of(3), 2);
    assert_eq!(download.load_of(7), 1);
    assert!(download.is_in_flight(&hash(2)));
    assert!(!download.is_wanted(&hash(2)));

    // Asked for already: queueing the block again sends nothing new.
    download.queue(&[hash(2)]);
    assert!(download.request_blocks(&[7, 3], &chain, 200).is_empty());
    assert!(!download.is_wanted(&hash(2)));
}

#[test]
fn without_peers_blocks_keep_waiting_in_order() {
    let chain = regtest_chain();
    let mut download = BlockDownload::new();
    download.queue(&[hash(1), hash(2)]);
    assert!(download.request_blocks(&[], &chain, 5).is_empty());
    assert!(download.is_wanted(&hash(1)));
    assert!(download.is_wanted(&hash(2)));
    assert_eq!(download.pick_peer(&[], &[]), None);
}

#[test]
fn a_peer_gets_at_most_its_share_of_blocks() {
    let chain = regtest_chain();
    let mut download = BlockDownload::new();
    let hashes: Vec<BlockHash> = (0..(MAX_BLOCKS_IN_FLIGHT_PER_PEER as u8 + 2)).map(hash).collect();
    download.queue(&hashes);
    let requests = download.request_blocks(&[1], &chain, 0);
    assert_eq!(requests.len(), MAX_BLOCKS_IN_FLIGHT_PER_PEER);
    assert_eq!(download.pick_peer(&[1], &[]), None);
    assert!(download.is_wanted(&hashes[MAX_BLOCKS_IN_FLIGHT_PER_PEER]));
    assert_eq!(download.pick_peer(&[1, 2], &[]), Some(2));
    assert_eq!(download.pick_peer(&[1, 2], &[2]), None);
}

#[test]
fn only_the_asked_peer_completes_a_request() {
    let chain = regtest_chain();
    let mut download = BlockDownload::new();
    download.queue(&[hash(9)]);
    download.request_blocks(&[4], &chain, 10);
    assert!(!download.block_arrived(5, &hash(9)));
    assert!(download.is_in_flight(&hash(9)));
    assert!(download.block_arrived(4, &hash(9)));
    assert!(!download.is_in_flight(&hash(9)));
    assert!(!download.block_arrived(4, &hash(9)));
}

#[test]
fn stalled_requests_go_back_to_the_front_of_the_queue() {
    let chain = regtest_chain();
    let mut download = BlockDownload::new();
    download.queue(&[hash(1), hash(2), hash(3)]);
    download.request_blocks(&[1, 2], &chain, 1_000);
    download.queue(&[hash(4)]);

    assert!(download.stalled_peers(1_500, 1_000).is_empty());
    let mut stalled = download.stalled_peers(2_500, 1_000);
    stalled.sort();
    assert_eq!(stalled, vec![1, 2]);

    download.requeue_from(1);
    assert!(!download.is_in_flight(&hash(1)));
    assert!(!download.is_in_flight(&hash(3)));
    assert!(download.is_in_flight(&hash(2)));
    // Peer 1 had blocks 1 and 3: they come back first, the last request first.
    let requests = download.request_blocks(&[2], &chain, 3_000);
    let order: Vec<BlockHash> = requests.iter().map(|r| r.hash).collect();
    assert_eq!(order, vec![hash(3), hash(1), hash(4)]);
}

#[test]
fn a_block_is_not_asked_again_of_a_peer_that_lacks_it() {
    let chain = regtest_chain();
    let mut download = BlockDownload::new();
    download.queue(&[hash(1)]);
    download.request_blocks(&[1, 2], &chain, 0);
    assert_eq!(download.finish_request(&hash(2)), None);

    download.on_not_found(1, &[hash(1)]);
    assert!(!download.is_in_flight(&hash(1)));
    let requests = download.request_blocks(&[1, 2], &chain, 50);
    assert_eq!(requests, vec![BlockRequest { hash: hash(1), peer: 2, since: 50 }]);

    download.push_front(hash(5));
    assert!(download.is_wanted(&hash(5)));
    assert_eq!(
        download.finish_request(&hash(1)),
        Some(BlockRequest { hash: hash(1), peer: 2, since: 50 })
    );
}

/// A header on top of `prev` with valid regtest proof of work.
fn mined(prev: &Header, tag: u8) -> Header {
    let mut header = Header {
        prev_blockhash: prev.block_hash(),
        merkle_root: Hash256::from_slice(&[tag; 32]),
        time: prev.time + 600,
        nonce: 0,
        ..*prev
    };
    while !header.block_hash().as_number().le(&header.target()) {
        header.nonce += 1;
    }
    header
}

fn mined_chain(from: &Header, len: usize) -> Vec<Header> {
    let mut headers: Vec<Header> = Vec::new();
    for _ in 0..len {
        let prev = *headers.last().unwrap_or(from);
        headers.push(mined(&prev, 1));
    }
    headers
}

#[test]
fn a_short_headers_message_from_the_sync_peer_completes_the_sync() {
    let mut chain = regtest_chain();
    let mut sync = HeaderSync::new();
    sync.start(3);
    sync.note_request(3, 1_000);
    assert_eq!(sync.requested_at, Some(1_000));

    let headers = mined_chain(&genesis_header(Chain::Regtest), 4);
    let outcome = sync.on_headers(&mut chain, 3, &headers);
    assert!(outcome.fault.is_none());
    assert_eq!(outcome.result.unwrap().unwrap().len(), 4);
    assert!(!outcome.request_more);
    assert!(!outcome.fetch_blocks);
    assert_eq!(outcome.completed, Some(4));
    assert!(sync.is_synced());
    assert_eq!(sync.requested_at, None);
    assert_eq!(chain.height(), 4);

    // Once synced, new headers fetch their blocks.
    let more = mined_chain(&headers[3], 1);
    let outcome = sync.on_headers(&mut chain, 8, &more);
    assert!(outcome.fetch_blocks);
    assert!(!outcome.request_more);
    assert_eq!(outcome.completed, None);
}

#[test]
fn oversized_and_refused_headers_are_misbehaviour() {
    let mut chain = regtest_chain();
    let mut sync = HeaderSync::new();
    let genesis = genesis_header(Chain::Regtest);
    let too_many = vec![genesis; MAX_HEADERS_RESULTS + 1];
    let outcome = sync.on_headers(&mut chain, 1, &too_many);
    assert_eq!(outcome.fault, Some(HeadersFault::TooMany(MAX_HEADERS_RESULTS + 1)));
    assert!(outcome.result.is_none());

    let twice = mined_chain(&genesis, 1);
    let outcome = sync.on_headers(&mut chain, 1, &[twice[0], twice[0]]);
    assert_eq!(
        outcome.fault,
        Some(HeadersFault::Rejected(HeaderError::NotContinuous(twice[0].block_hash())))
    );
    assert_eq!(chain.height(), 0);

    let mut bad = mined_chain(&genesis, 1)[0];
    while bad.block_hash().as_number().le(&bad.target()) {
        bad.nonce += 1;
    }
    let outcome = sync.on_headers(&mut chain, 1, &[bad]);
    assert_eq!(outcome.fault, Some(HeadersFault::Rejected(HeaderError::BadProofOfWork(bad.block_hash()))));
    assert_eq!(chain.height(), 0);
}

#[test]
fn headers_without_a_known_parent_ask_for_the_gap_once_synced() {
    let mut chain = regtest_chain();
    let mut sync = HeaderSync { sync_peer: Some(2), requested_at: None, synced_height: Some(0) };
    let headers = mined_chain(&genesis_header(Chain::Regtest), 2);
    let outcome = sync.on_headers(&mut chain, 2, &headers[1..]);
    assert!(outcome.fault.is_none());
    assert!(outcome.request_more);
    assert!(matches!(outcome.result, Some(Err(HeaderError::UnknownParent(_)))));
}

#[test]
fn a_silent_sync_peer_is_given_up_on() {
    let mut sync = HeaderSync::new();
    sync.start(6);
    sync.note_request(6, 100);
    assert_eq!(sync.stalled(150, 100), None);
    assert_eq!(sync.stalled(300, 100), Some(6));
    assert_eq!(sync.requested_at, None);
    assert!(sync.drop_peer(6));
    assert_eq!(sync.sync_peer, None);
    assert!(!sync.drop_peer(6));
}

#[test]
fn missing_best_chain_blocks_are_queued_lowest_first() {
    let mut chain = regtest_chain();
    let headers = mined_chain(&genesis_header(Chain::Regtest), 4);
    chain.accept(&headers).unwrap();

    let mut download = BlockDownload::new();
    download.queue_missing_blocks(&chain, 1);
    let requests = download.request_blocks(&[1], &chain, 0);
    let order: Vec<BlockHash> = requests.iter().map(|r| r.hash).collect();
    assert_eq!(order, vec![headers[1].block_hash(), headers[2].block_hash(), headers[3].block_hash()]);
    for hash in &order {
        assert!(download.block_arrived(1, hash));
    }

    // The walk back from the tip stops at the first stored block.
    let more = mined_chain(&headers[3], 2);
    chain.accept(&more).unwrap();
    chain.mark_have_data(&headers[3].block_hash()).unwrap();
    download.queue_missing_blocks(&chain, 0);
    let requests = download.request_blocks(&[1], &chain, 0);
    let order: Vec<BlockHash> = requests.iter().map(|r| r.hash).collect();
    assert_eq!(order, vec![more[0].block_hash(), more[1].block_hash()]);

    // Asked for already: nothing is queued twice.
    download.queue_missing_blocks(&chain, 0);
    assert!(download.request_blocks(&[1], &chain, 0).is_empty());
}
