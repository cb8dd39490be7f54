use rust_btcd::p2p::discovery::{interleave, seed_lookup_due, wants_more_addresses, MIN_ADDRESSES};
use rust_btcd::p2p::protocol::{
    judge_version, oversized_addr, ping_plan, pong_matches, route, serves_witness_blocks, ConnectionKind, Phase,
    PingState, Route, VersionVerdict, MAX_ADDR_PER_MESSAGE, MIN_PEER_VERSION, NODE_NETWORK, NODE_NETWORK_LIMITED,
    NODE_WITNESS, PROTOCOL_VERSION,
};
use rust_btcd::net::IpAddress;
use rust_btcd::storage::PeerAddr;
use rust_btcd::wire::Message;

const FULL_NODE: u64 = NODE_NETWORK | NODE_WITNESS;

#[test]
fn handshake_succeeds() {
    assert_eq!(PROTOCOL_VERSION, 70016);
    assert_eq!(judge_version(ConnectionKind::Automatic, 5, 6, 70016, FULL_NODE), VersionVerdict::Accept);
    assert_eq!(route(Phase::AwaitingVersion, false, &Message::Version), Route::Version);
    assert_eq!(route(Phase::AwaitingVerack, false, &Message::WtxidRelay), Route::Ignore);
    assert_eq!(route(Phase::AwaitingVerack, false, &Message::SendAddrV2), Route::Ignore);
    assert_eq!(route(Phase::AwaitingVerack, false, &Message::Verack), Route::Verack);
}

#[test]
fn rejects_connecting_to_ourselves() {
    assert_eq!(judge_version(ConnectionKind::Automatic, 5, 5, 70016, FULL_NODE), VersionVerdict::SelfConnection);
}

#[test]
fn rejects_peers_without_witness_blocks() {
    assert_eq!(
        judge_version(ConnectionKind::Automatic, 5, 6, 70016, NODE_NETWORK),
        VersionVerdict::MissingServices(NODE_NETWORK)
    );
    // A feeler only tests the address, so services do not matter.
    assert_eq!(judge_version(ConnectionKind::Feeler, 5, 6, 70016, NODE_NETWORK), VersionVerdict::Accept);
    assert!(serves_witness_blocks(NODE_NETWORK_LIMITED | NODE_WITNESS));
    assert!(!serves_witness_blocks(NODE_WITNESS));
}

#[test]
fn rejects_old_protocol_versions() {
    assert_eq!(judge_version(ConnectionKind::Manual, 5, 6, 70011, FULL_NODE), VersionVerdict::TooOld(70011));
    assert_eq!(judge_version(ConnectionKind::Manual, 5, 6, MIN_PEER_VERSION, FULL_NODE), VersionVerdict::Accept);
}

#[test]
fn messages_out_of_handshake_order_are_ignored() {
    assert_eq!(route(Phase::AwaitingVersion, false, &Message::Verack), Route::Ignore);
    assert_eq!(route(Phase::AwaitingVersion, false, &Message::Ping(1)), Route::Ignore);
    assert_eq!(route(Phase::AwaitingVersion, false, &Message::Version), Route::Version);
    assert_eq!(route(Phase::AwaitingVerack, false, &Message::Version), Route::Ignore);
    assert_eq!(route(Phase::AwaitingVerack, false, &Message::Verack), Route::Verack);
    assert_eq!(route(Phase::Ready, false, &Message::Ping(1)), Route::Established);
    assert_eq!(route(Phase::Ready, true, &Message::Ping(1)), Route::Ignore);
}

#[test]
fn address_messages_over_the_limit_are_flagged() {
    assert!(!oversized_addr(MAX_ADDR_PER_MESSAGE));
    assert!(oversized_addr(MAX_ADDR_PER_MESSAGE + 1));
}

#[test]
fn silent_peers_are_dropped_and_due_peers_pinged() {
    let peers = [
        PingState { peer: 1, ready: true, ping_sent: Some((9, 100)), next_ping: 0 },
        PingState { peer: 2, ready: true, ping_sent: None, next_ping: 500 },
        PingState { peer: 3, ready: true, ping_sent: None, next_ping: 2_000 },
        PingState { peer: 4, ready: false, ping_sent: None, next_ping: 0 },
        PingState { peer: 5, ready: true, ping_sent: Some((1, 900)), next_ping: 0 },
    ];
    let plan = ping_plan(&peers, 1_000, 500);
    assert_eq!(plan.silent, vec![1]);
    assert_eq!(plan.due, vec![2]);
    assert!(pong_matches(Some((9, 100)), 9));
    assert!(!pong_matches(Some((9, 100)), 8));
    assert!(!pong_matches(None, 9));
}

fn at(last: u8) -> PeerAddr {
    PeerAddr { ip: IpAddress::V4(u32::from_be_bytes([10, 0, 0, last])), port: 8333 }
}

#[test]
fn resolved_addresses_are_interleaved_across_hosts() {
    let per_host = vec![vec![at(1), at(2), at(3)], vec![at(4)], vec![at(5), at(1)]];
    assert_eq!(interleave(&per_host), vec![at(1), at(4), at(5), at(2), at(3)]);
    assert!(interleave(&vec![]).is_empty());
}

#[test]
fn dns_seeds_are_asked_when_the_book_is_small_and_not_too_often() {
    assert!(wants_more_addresses(true, MIN_ADDRESSES - 1, 0, 8));
    assert!(!wants_more_addresses(true, MIN_ADDRESSES, 0, 8));
    assert!(!wants_more_addresses(true, 0, 8, 8));
    assert!(!wants_more_addresses(false, 0, 0, 8));

    assert!(seed_lookup_due(true, 3, None, 0, 30_000));
    assert!(!seed_lookup_due(true, 3, Some(10_000), 20_000, 30_000));
    assert!(seed_lookup_due(true, 3, Some(10_000), 40_000, 30_000));
    assert!(!seed_lookup_due(true, 0, None, 0, 30_000));
    assert!(!seed_lookup_due(false, 3, None, 0, 30_000));
}
