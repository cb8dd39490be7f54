use rust_btcd::chain_params::Chain;
use rust_btcd::header_chain::HeaderChain;
use rust_btcd::net::IpAddress;
use rust_btcd::p2p::addrman::AddressManager;
use rust_btcd::p2p::banman::BanManager;
use rust_btcd::p2p::events::{
    fill_connections, misbehaving, open_feeler, peer_closed, verack_step, Misbehaviour, VerackStep,
};
use rust_btcd::p2p::peers::{Closed, PeerTable, VersionStep};
use rust_btcd::p2p::permissions::{PermissionTable, Permissions, Subnet};
use rust_btcd::p2p::protocol::{ConnectionKind, Phase, VersionVerdict, NODE_NETWORK, NODE_WITNESS};
use rust_btcd::p2p::sync::{expire_requests, wants_headers, BlockDownload, BlockOutcome, HeaderSync};
use rust_btcd::p2p::transport::TransportKind;
use rust_btcd::primitives::{genesis_header, Hash256};
use rust_btcd::storage::PeerAddr;
use rust_btcd::transaction::Block;

fn at(a: u8, b: u8) -> PeerAddr {
    PeerAddr { ip: IpAddress::V4(u32::from_be_bytes([10, a, b, 1])), port: 8333 }
}

/// A table with one peer through its handshake, and one connection still being opened.
fn table_with_peer(kind: ConnectionKind, permissions: &PermissionTable) -> (PeerTable, u64) {
    let mut table = PeerTable::new();
    let id = table.connect_to(at(0, 1), kind);
    assert_eq!(table.on_connected(id, TransportKind::V1, permissions, 1_000, 120_000), Some(at(0, 1)));
    (table, id)
}

#[test]
fn connections_move_from_connecting_to_connected() {
    let permissions = PermissionTable::new();
    let mut table = PeerTable::new();
    let a = table.connect_to(at(0, 1), ConnectionKind::Automatic);
    let b = table.connect_to(at(1, 1), ConnectionKind::Manual);
    assert_eq!((a, b), (0, 1));
    assert_eq!(table.next_id(), 2);
    assert!(table.is_connected_to(at(0, 1)));
    assert_eq!(table.automatic_count(), 1);
    assert_eq!(table.len(), 0);

    assert_eq!(table.on_connected(b, TransportKind::V1, &permissions, 500, 60_000), Some(at(1, 1)));
    assert_eq!(table.on_connected(b, TransportKind::V1, &permissions, 500, 60_000), None);
    let peer = table.get(b).unwrap();
    assert_eq!(peer.phase, Phase::AwaitingVersion);
    assert_eq!(peer.next_ping, 60_500);
    assert_eq!(peer.connected_at, 500);
    assert_eq!(table.order(), vec![b]);

    assert_eq!(table.on_closed(a), Closed::NeverConnected(at(0, 1)));
    assert!(!table.is_connected_to(at(0, 1)));
    assert_eq!(
        table.on_closed(b),
        Closed::Peer { addr: at(1, 1), kind: ConnectionKind::Manual, handshake_done: false }
    );
    assert_eq!(table.on_closed(b), Closed::Unknown);
    assert!(table.addresses_in_use().is_empty());
}

#[test]
fn the_handshake_is_judged_on_the_version_message() {
    let permissions = PermissionTable::new();
    let (mut table, id) = table_with_peer(ConnectionKind::Automatic, &permissions);
    table.set_nonce(id, 77);
    assert_eq!(
        table.on_version(id, 77, 70016, NODE_NETWORK | NODE_WITNESS, 5),
        VersionStep::Refused { verdict: VersionVerdict::SelfConnection, addr: at(0, 1) }
    );
    assert!(table.get(id).unwrap().disconnecting);

    let (mut table, id) = table_with_peer(ConnectionKind::Automatic, &permissions);
    assert_eq!(table.on_version(id, 5, 70016, NODE_NETWORK | NODE_WITNESS, 12), VersionStep::Accepted);
    let peer = table.get(id).unwrap();
    assert_eq!(peer.phase, Phase::AwaitingVerack);
    assert_eq!(peer.start_height, 12);
    assert_eq!(table.on_version(99, 5, 70016, 0, 0), VersionStep::Unknown);
}

#[test]
fn the_first_peer_to_finish_its_handshake_syncs_headers() {
    let permissions = PermissionTable::new();
    let (mut table, id) = table_with_peer(ConnectionKind::Automatic, &permissions);
    let mut addrman = AddressManager::new(vec![], 100);
    addrman.add(at(0, 1), 0, 1);
    let mut sync = HeaderSync::new();
    table.on_version(id, 5, 70016, NODE_NETWORK | NODE_WITNESS, 0);
    assert_eq!(verack_step(&mut table, &mut addrman, &mut sync, id, 10), VerackStep::Ready { addr: at(0, 1), start_sync: true });
    assert_eq!(sync.sync_peer, Some(id));
    assert_eq!(addrman.tried_count(), 1);
    assert_eq!(table.first_ready(), Some(id));
    assert_eq!(table.ready_ids(), vec![id]);

    // A feeler only tests the address.
    let (mut feeler_table, feeler) = table_with_peer(ConnectionKind::Feeler, &permissions);
    assert_eq!(verack_step(&mut feeler_table, &mut addrman, &mut sync, feeler, 10), VerackStep::Feeler(at(0, 1)));
    assert!(feeler_table.get(feeler).unwrap().disconnecting);
}

#[test]
fn misbehaving_peers_are_discouraged_unless_protected() {
    let mut bans = BanManager::new(vec![], vec![], 86_400, 3_600);
    let (mut table, id) = table_with_peer(ConnectionKind::Automatic, &PermissionTable::new());
    assert_eq!(misbehaving(&mut table, &mut bans, id, 100), Misbehaviour::Punished(at(0, 1)));
    assert!(bans.is_discouraged(at(0, 1).ip, 200));
    assert!(table.get(id).unwrap().disconnecting);
    assert_eq!(misbehaving(&mut table, &mut bans, 42, 100), Misbehaviour::Unknown);

    let mut permissions = PermissionTable::new();
    permissions.grant(Subnet::new(at(0, 1).ip, Some(32)).unwrap(), Permissions::no_ban());
    let mut bans = BanManager::new(vec![], vec![], 86_400, 3_600);
    let (mut table, id) = table_with_peer(ConnectionKind::Automatic, &permissions);
    assert_eq!(misbehaving(&mut table, &mut bans, id, 100), Misbehaviour::Protected(at(0, 1)));
    assert!(!bans.is_discouraged(at(0, 1).ip, 200));
    assert!(!table.get(id).unwrap().disconnecting);
}

#[test]
fn a_leaving_sync_peer_hands_sync_to_the_next_ready_peer() {
    let permissions = PermissionTable::new();
    let mut table = PeerTable::new();
    let mut addrman = AddressManager::new(vec![], 100);
    let mut sync = HeaderSync::new();
    let mut download = BlockDownload::new();
    let chain = HeaderChain::new(Chain::Regtest, vec![]).unwrap();
    let mut ids = Vec::new();
    for n in 0..2u8 {
        let id = table.connect_to(at(n, 1), ConnectionKind::Automatic);
        table.on_connected(id, TransportKind::V1, &permissions, 0, 1_000);
        table.on_version(id, 5, 70016, NODE_NETWORK | NODE_WITNESS, 0);
        verack_step(&mut table, &mut addrman, &mut sync, id, 0);
        ids.push(id);
    }
    assert_eq!(sync.sync_peer, Some(ids[0]));

    let block = Hash256::from_slice(&[3; 32]);
    download.queue(&[block]);
    download.request_blocks(&table.ready_ids(), &chain, 0);
    assert!(download.is_in_flight(&block));

    let step = peer_closed(&mut table, &mut addrman, &mut download, &mut sync, ids[0], 50);
    assert_eq!(step.closed, Closed::Peer { addr: at(0, 1), kind: ConnectionKind::Automatic, handshake_done: true });
    assert_eq!(step.next_sync, Some(ids[1]));
    assert_eq!(sync.sync_peer, Some(ids[1]));
    assert!(!download.is_in_flight(&block));
    assert!(download.is_wanted(&block));
}

#[test]
fn outbound_slots_are_filled_from_manual_peers_then_the_book() {
    let mut table = PeerTable::new();
    let mut addrman = AddressManager::new(vec![], 100);
    for n in 1..5u8 {
        addrman.add(at(n, 1), 0, 1);
    }
    // Same network group as the first: never two automatic connections in one group.
    addrman.add(at(1, 2), 0, 1);
    let bans = BanManager::new(vec![], vec![], 86_400, 3_600);
    let manual = [at(9, 9)];

    let opened = fill_connections(&mut table, &mut addrman, &bans, &manual, 3, 100);
    assert_eq!(opened.len(), 4);
    assert_eq!(opened[0], (0, at(9, 9), ConnectionKind::Manual));
    assert!(opened[1..].iter().all(|o| o.2 == ConnectionKind::Automatic));
    assert_eq!(table.automatic_count(), 3);
    let groups = table.groups_in_use();
    assert_eq!(groups.len(), 3);

    // Nothing more to do while the slots are full and the manual peer is being connected to.
    assert!(fill_connections(&mut table, &mut addrman, &bans, &manual, 3, 100).is_empty());
}

#[test]
fn feelers_run_once_per_interval_on_untried_addresses() {
    let mut table = PeerTable::new();
    let mut addrman = AddressManager::new(vec![], 100);
    addrman.add(at(1, 1), 0, 1);
    let bans = BanManager::new(vec![], vec![], 86_400, 3_600);
    let early = open_feeler(&mut table, &mut addrman, &bans, 8, 1_000, 120_000, 60_000, 100);
    assert!(!early.due);
    assert!(early.opened.is_none());
    let step = open_feeler(&mut table, &mut addrman, &bans, 8, 1_000, 120_000, 121_000, 100);
    assert!(step.due);
    assert_eq!(step.opened, Some((0, at(1, 1), ConnectionKind::Feeler)));
    assert_eq!(open_feeler(&mut table, &mut addrman, &bans, 0, 0, 0, 121_000, 100).due, false);
}

#[test]
fn stalled_peers_are_found_and_their_blocks_requeued() {
    let chain = HeaderChain::new(Chain::Regtest, vec![]).unwrap();
    let mut download = BlockDownload::new();
    let mut sync = HeaderSync::new();
    sync.start(4);
    sync.note_request(4, 0);
    let hashes = [Hash256::from_slice(&[1; 32]), Hash256::from_slice(&[2; 32])];
    download.queue(&hashes);
    download.request_blocks(&[4, 5], &chain, 0);

    let expired = expire_requests(&mut sync, &mut download, 10_000, 5_000);
    assert_eq!(expired.sync_peer, Some(4));
    let mut peers = expired.block_peers.clone();
    peers.sort();
    assert_eq!(peers, vec![4, 5]);
    assert!(hashes.iter().all(|h| download.is_wanted(h) && !download.is_in_flight(h)));
    assert_eq!(sync.requested_at, None);
}

#[test]
fn announcements_of_unknown_blocks_ask_for_headers_once_synced() {
    let chain = HeaderChain::new(Chain::Regtest, vec![]).unwrap();
    let genesis = genesis_header(Chain::Regtest).block_hash();
    let unknown = Hash256::from_slice(&[7; 32]);
    let mut sync = HeaderSync::new();
    assert!(!wants_headers(&sync, &chain, &[unknown]));
    sync.synced_height = Some(0);
    assert!(wants_headers(&sync, &chain, &[genesis, unknown]));
    assert!(!wants_headers(&sync, &chain, &[genesis]));
}

#[test]
fn arriving_blocks_are_checked_and_marked_as_stored() {
    let mut chain = HeaderChain::new(Chain::Regtest, vec![]).unwrap();
    let genesis = bitcoin::blockdata::constants::genesis_block(bitcoin::Network::Regtest);
    let block = Block::decode(&bitcoin::consensus::serialize(&genesis)).unwrap();
    let hash = block.block_hash();
    let mut download = BlockDownload::new();

    assert!(matches!(download.on_block(&mut chain, 1, &block), BlockOutcome::Unrequested));

    download.queue(&[hash]);
    download.push_front(hash);
    // The genesis block is not stored yet, so it can be asked for.
    let requests = download.request_blocks(&[1], &chain, 0);
    assert_eq!(requests.len(), 1);
    match download.on_block(&mut chain, 1, &block) {
        BlockOutcome::Stored(entry) => assert_eq!(entry.height, 0),
        other => panic!("expected the block to be stored, got {other:?}"),
    }
    assert!(!download.is_in_flight(&hash));
}
