use rust_btcd::chain_params::Chain;
use rust_btcd::header_chain::{HeaderChain, HeaderError};
use rust_btcd::primitives::{genesis_header, BlockHash, Hash256, Header};
use rust_btcd::storage::HeaderEntry;

const REGTEST: Chain = Chain::Regtest;

fn genesis(chain: Chain) -> Header {
    genesis_header(chain)
}

fn meets_target(header: &Header) -> bool {
    header.block_hash().as_number().le(&header.target())
}

/// A header on top of `prev` with valid regtest proof of work. `tag` separates forks.
fn mine(prev: &Header, tag: u8) -> Header {
    let mut header = Header {
        prev_blockhash: prev.block_hash(),
        merkle_root: Hash256::from_slice(&[tag; 32]),
        time: prev.time + 600,
        nonce: 0,
        ..*prev
    };
    while !meets_target(&header) {
        header.nonce += 1;
    }
    header
}

fn mine_chain(from: &Header, len: usize, tag: u8) -> Vec<Header> {
    let mut headers: Vec<Header> = Vec::new();
    for _ in 0..len {
        let prev = *headers.last().unwrap_or(from);
        headers.push(mine(&prev, tag));
    }
    headers
}

#[test]
fn empty_store_starts_at_genesis() {
    let chain = HeaderChain::new(REGTEST, vec![]).unwrap();
    let genesis_hash = genesis(REGTEST).block_hash();
    assert_eq!(chain.height(), 0);
    assert_eq!(chain.tip().block_hash(), genesis_hash);
    assert_eq!(chain.locator(), vec![genesis_hash]);
}

#[test]
fn accepts_a_chain_and_tracks_work() {
    let mut chain = HeaderChain::new(REGTEST, vec![]).unwrap();
    let headers = mine_chain(&genesis(REGTEST), 5, 1);

    let new = chain.accept(&headers).unwrap();
    assert_eq!(new.len(), 5);
    assert_eq!(chain.height(), 5);
    assert_eq!(chain.tip().block_hash(), headers[4].block_hash());
    let expected_work = headers
        .iter()
        .fold(genesis(REGTEST).work(), |work, h| work.wrapping_add(&h.work()));
    assert_eq!(chain.tip().chain_work, expected_work);

    assert!(chain.accept(&headers).unwrap().is_empty(), "known headers are not new");
}

#[test]
fn rejects_whole_message_on_error() {
    let mut chain = HeaderChain::new(REGTEST, vec![]).unwrap();
    let headers = mine_chain(&genesis(REGTEST), 3, 1);

    let orphan = &headers[1..];
    assert_eq!(chain.accept(orphan), Err(HeaderError::UnknownParent(headers[1].block_hash())));

    let gap = [headers[0], headers[2]];
    assert_eq!(chain.accept(&gap), Err(HeaderError::NotContinuous(headers[2].block_hash())));

    let mut bad_pow = headers.clone();
    while meets_target(&bad_pow[2]) {
        bad_pow[2].nonce += 1;
    }
    assert_eq!(chain.accept(&bad_pow), Err(HeaderError::BadProofOfWork(bad_pow[2].block_hash())));

    assert_eq!(chain.height(), 0, "nothing from failed messages is kept");
}

#[test]
fn rejects_targets_easier_than_the_chain_allows() {
    let mut chain = HeaderChain::new(Chain::Main, vec![]).unwrap();
    let parent = genesis(Chain::Main);
    // The target check runs before proof of work, so no mining is needed.
    let header = Header {
        prev_blockhash: parent.block_hash(),
        bits: 0x207f_ffff,
        ..parent
    };
    assert_eq!(chain.accept(&[header]), Err(HeaderError::TargetTooEasy(header.block_hash())));
}

#[test]
fn follows_the_most_work_fork() {
    let mut chain = HeaderChain::new(REGTEST, vec![]).unwrap();
    let root = genesis(REGTEST);
    let branch_a = mine_chain(&root, 3, 1);
    let branch_b = mine_chain(&root, 4, 2);

    chain.accept(&branch_a).unwrap();
    chain.accept(&branch_b).unwrap();
    assert_eq!(chain.tip().block_hash(), branch_b[3].block_hash());
    assert!(chain.is_on_best_chain(&branch_b[0].block_hash()));
    assert!(!chain.is_on_best_chain(&branch_a[0].block_hash()));

    let extension = mine_chain(&branch_a[2], 2, 1);
    chain.accept(&extension).unwrap();
    assert_eq!(chain.height(), 5);
    assert!(chain.is_on_best_chain(&branch_a[0].block_hash()));
    assert!(!chain.is_on_best_chain(&branch_b[3].block_hash()));
}

#[test]
fn locator_doubles_gaps_and_ends_at_genesis() {
    let mut chain = HeaderChain::new(REGTEST, vec![]).unwrap();
    let headers = mine_chain(&genesis(REGTEST), 40, 1);
    chain.accept(&headers).unwrap();

    let heights: Vec<u32> = chain.locator().iter().map(|h| chain.get(h).unwrap().height).collect();
    assert_eq!(heights, vec![40, 39, 38, 37, 36, 35, 34, 33, 32, 31, 29, 25, 17, 1, 0]);
}

#[test]
fn rebuilds_best_chain_from_stored_entries() {
    let mut chain = HeaderChain::new(REGTEST, vec![]).unwrap();
    let root = genesis(REGTEST);
    let side = mine_chain(&root, 2, 1);
    chain.accept(&side).unwrap();
    let main = mine_chain(&root, 3, 2);
    chain.accept(&main).unwrap();
    let hashes: Vec<BlockHash> = std::iter::once(root.block_hash())
        .chain(side.iter().map(|h| h.block_hash()))
        .chain(main.iter().map(|h| h.block_hash()))
        .collect();
    let stored: Vec<HeaderEntry> = hashes.iter().map(|h| *chain.get(h).unwrap()).collect();

    let reloaded = HeaderChain::new(REGTEST, stored).unwrap();
    assert_eq!(reloaded.tip().block_hash(), main[2].block_hash());
    assert_eq!(reloaded.locator(), chain.locator());
}

#[test]
fn refuses_headers_from_another_chain() {
    let signet = HeaderChain::new(Chain::Signet, vec![]).unwrap();
    let stored = vec![*signet.tip()];
    assert_eq!(
        HeaderChain::new(REGTEST, stored).err(),
        Some(HeaderError::ForeignChain(genesis(REGTEST).block_hash()))
    );
}

#[test]
fn accepting_again_adds_nothing_and_keeps_the_tip() {
    let mut chain = HeaderChain::new(REGTEST, vec![]).unwrap();
    let headers = mine_chain(&genesis(REGTEST), 4, 3);
    chain.accept(&headers).unwrap();
    let tip = *chain.tip();
    assert!(chain.accept(&headers[1..]).unwrap().is_empty());
    assert_eq!(*chain.tip(), tip);
    assert!(chain.can_accept(&headers));
    assert_eq!(chain.max_height(), 4);
}

#[test]
fn marking_data_sets_the_status_flag() {
    let mut chain = HeaderChain::new(REGTEST, vec![]).unwrap();
    let headers = mine_chain(&genesis(REGTEST), 1, 4);
    chain.accept(&headers).unwrap();
    let hash = headers[0].block_hash();
    let entry = chain.mark_have_data(&hash).unwrap();
    assert!(entry.status.contains(rust_btcd::storage::BlockStatus::have_data()));
    assert!(chain.contains(&hash));
    let unknown = Hash256::from_slice(&[9u8; 32]);
    assert!(chain.mark_have_data(&unknown).is_none());
    assert!(!chain.contains(&unknown));
}

#[test]
fn genesis_hashes_match_the_known_values() {
    // Mainnet genesis: 000000000019d6689c085ae165831e934ff763ae46a2a6c172b3f1b60a8ce26f.
    let hash = genesis(Chain::Main).block_hash();
    let mut expected = [
        0x00u8, 0x00, 0x00, 0x00, 0x00, 0x19, 0xd6, 0x68, 0x9c, 0x08, 0x5a, 0xe1, 0x65, 0x83, 0x1e, 0x93, 0x4f, 0xf7,
        0x63, 0xae, 0x46, 0xa2, 0xa6, 0xc1, 0x72, 0xb3, 0xf1, 0xb6, 0x0a, 0x8c, 0xe2, 0x6f,
    ];
    expected.reverse();
    assert_eq!(hash, Hash256::from_slice(&expected));
    assert_eq!(hash.to_bytes(), expected.to_vec());
}

#[test]
fn a_repeated_header_is_not_continuous_and_changes_nothing() {
    let mut chain = HeaderChain::new(REGTEST, vec![]).unwrap();
    let headers = mine_chain(&genesis(REGTEST), 2, 7);
    let repeated = vec![headers[0], headers[1], headers[0]];
    assert_eq!(chain.accept(&repeated).err(), Some(HeaderError::NotContinuous(headers[0].block_hash())));
    assert_eq!(chain.height(), 0);
    assert!(!chain.contains(&headers[0].block_hash()));

    let twice = vec![headers[0], headers[0]];
    assert_eq!(chain.accept(&twice).err(), Some(HeaderError::NotContinuous(headers[0].block_hash())));
    assert_eq!(chain.height(), 0);
}

#[test]
fn genesis_headers_are_the_stated_constants() {
    let main_root = Hash256 { lo: 0x618f_7667_3e2c_c77a_b212_7b7a_fded_a33b, hi: 0x4a5e_1e4b_aab8_9f3a_3251_8a88_c31b_c87f };
    let testnet4_root =
        Hash256 { lo: 0xb718_e42a_af93_06db_9102_fe28_912b_7b4e, hi: 0x7aa0_a7ae_1e22_3414_cb80_7e40_cd57_e667 };
    let expected = [
        (Chain::Main, main_root, 1231006505, 0x1d00_ffff, 2083236893),
        (Chain::Testnet4, testnet4_root, 1714777860, 0x1d00_ffff, 393743547),
        (Chain::Signet, main_root, 1598918400, 0x1e03_77ae, 52613770),
        (Chain::Regtest, main_root, 1296688602, 0x207f_ffff, 2),
    ];
    for (chain, merkle_root, time, bits, nonce) in expected {
        let header = Header { version: 1, prev_blockhash: Hash256::zero(), merkle_root, time, bits, nonce };
        assert_eq!(genesis_header(chain), header);
    }
}
