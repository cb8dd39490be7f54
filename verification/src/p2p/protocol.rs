//! Protocol decisions: the version handshake, what a message means in each phase of a
//! connection, and keepalive pings.
//!
//! This is Bitcoin Core's `net_processing` role. The handshake is a state machine driven by
//! messages, so its decisions need no socket: the connection manager feeds them what arrived
//! and carries out what they decide.

use vstd::prelude::*;

use crate::wire::Message;

verus! {

/// Protocol version we speak. 70016 allows `wtxidrelay` (BIP339), which we accept and ignore.
pub const PROTOCOL_VERSION: u32 = 70016;

/// Oldest peer version we accept. 70012 added `sendheaders` (BIP130), which we rely on.
pub const MIN_PEER_VERSION: u32 = 70012;

/// Service bit: the peer serves the full block chain.
pub const NODE_NETWORK: u64 = 1;

/// Service bit: the peer serves witness data.
pub const NODE_WITNESS: u64 = 8;

/// Service bit: the peer serves the most recent blocks.
pub const NODE_NETWORK_LIMITED: u64 = 1024;

/// We understand witness data but serve nothing.
pub const OUR_SERVICES: u64 = 8;

/// Bitcoin Core `MAX_ADDR_TO_SEND`: the most addresses one message may carry.
pub const MAX_ADDR_PER_MESSAGE: usize = 1000;

/// Why a connection was opened.
#[derive(Debug, Clone, Copy, PartialEq, Eq, Structural)]
pub enum ConnectionKind {
    /// Configured peer, always reconnected. Bitcoin Core's `-addnode`.
    Manual,
    /// Chosen from the address book.
    Automatic,
    /// Short connection that only tests whether an untried address works.
    Feeler,
}

/// Where a peer is in the version handshake.
#[derive(Debug, Clone, Copy, PartialEq, Eq, Structural)]
pub enum Phase {
    AwaitingVersion,
    AwaitingVerack,
    Ready,
}

/// Whether a peer with these service bits serves the blocks we download: the full or the
/// recent chain, with witnesses.
pub open spec fn spec_serves_witness_blocks(services: u64) -> bool {
    (services & NODE_NETWORK != 0 || services & NODE_NETWORK_LIMITED != 0) && services & NODE_WITNESS != 0
}

pub fn serves_witness_blocks(services: u64) -> (r: bool)
    ensures
        r == spec_serves_witness_blocks(services),
{
    (services & NODE_NETWORK != 0 || services & NODE_NETWORK_LIMITED != 0) && services & NODE_WITNESS != 0
}

/// A peer serves witness blocks exactly when it sets the witness bit (8) and at least one of
/// the block-serving bits, the full chain (1) or the recent chain (1024); both at once serve
/// too. Setting more bits never takes that away.
pub proof fn lemma_witness_service_bits(services: u64, more: u64)
    ensures
        spec_serves_witness_blocks(services) == (services & 8 != 0 && (services & 1 != 0 || services & 1024 != 0)),
        spec_serves_witness_blocks(services) ==> spec_serves_witness_blocks(services | more),
{
    let s = services;
    let m = more;
    assert(s & 8 != 0 ==> (s | m) & 8 != 0) by (bit_vector);
    assert(s & 1 != 0 ==> (s | m) & 1 != 0) by (bit_vector);
    assert(s & 1024 != 0 ==> (s | m) & 1024 != 0) by (bit_vector);
}

/// What to make of a peer's version message.
#[derive(Debug, Clone, Copy, PartialEq, Eq, Structural)]
pub enum VersionVerdict {
    /// The nonce is ours: we connected to ourselves.
    SelfConnection,
    /// The peer speaks a protocol older than we accept.
    TooOld(u32),
    /// The peer does not serve witness blocks; these are its service bits.
    MissingServices(u64),
    /// Carry on with the handshake.
    Accept,
}

/// The verdict on a version message, the checks in Bitcoin Core's order: our own nonce back
/// means a connection to ourselves; then the protocol version; then, except on a feeler,
/// which only tests that the address works, the services.
pub open spec fn spec_judge_version(
    kind: ConnectionKind,
    our_nonce: u64,
    nonce: u64,
    version: u32,
    services: u64,
) -> VersionVerdict {
    if nonce == our_nonce {
        VersionVerdict::SelfConnection
    } else if version < MIN_PEER_VERSION {
        VersionVerdict::TooOld(version)
    } else if kind != ConnectionKind::Feeler && !spec_serves_witness_blocks(services) {
        VersionVerdict::MissingServices(services)
    } else {
        VersionVerdict::Accept
    }
}

pub fn judge_version(kind: ConnectionKind, our_nonce: u64, nonce: u64, version: u32, services: u64) -> (r:
    VersionVerdict)
    ensures
        r == spec_judge_version(kind, our_nonce, nonce, version, services),
{
    if nonce == our_nonce {
        VersionVerdict::SelfConnection
    } else if version < MIN_PEER_VERSION {
        VersionVerdict::TooOld(version)
    } else if kind != ConnectionKind::Feeler && !serves_witness_blocks(services) {
        VersionVerdict::MissingServices(services)
    } else {
        VersionVerdict::Accept
    }
}

/// A peer that is not ourselves and speaks a recent enough protocol is accepted on every kind
/// of connection when it serves witness blocks; and a peer accepted with some service bits is
/// still accepted when it advertises more.
pub proof fn lemma_judge_accepts_witness_peers(
    kind: ConnectionKind,
    our_nonce: u64,
    nonce: u64,
    version: u32,
    services: u64,
    more: u64,
)
    ensures
        nonce != our_nonce && version >= 70012 && services & 8 != 0 && (services & 1 != 0 || services & 1024 != 0)
            ==> spec_judge_version(kind, our_nonce, nonce, version, services) == VersionVerdict::Accept,
        spec_judge_version(kind, our_nonce, nonce, version, services) == VersionVerdict::Accept
            ==> spec_judge_version(kind, our_nonce, nonce, version, services | more) == VersionVerdict::Accept,
{
    lemma_witness_service_bits(services, more);
}

/// What a message means for a connection in a given phase.
#[derive(Debug, Clone, Copy, PartialEq, Eq, Structural)]
pub enum Route {
    /// The connection is closing, or the message has no meaning in this phase: anything
    /// before the peer's version, a second version, or a feature announcement.
    Ignore,
    /// The peer's version: judge it.
    Version,
    /// The peer's verack: the handshake is complete.
    Verack,
    /// A message on an established connection.
    Established,
}

pub open spec fn spec_route(phase: Phase, disconnecting: bool, message: Message) -> Route {
    if disconnecting {
        Route::Ignore
    } else {
        match phase {
            Phase::AwaitingVersion => if message is Version {
                Route::Version
            } else {
                Route::Ignore
            },
            Phase::AwaitingVerack => if message is Verack {
                Route::Verack
            } else {
                Route::Ignore
            },
            Phase::Ready => Route::Established,
        }
    }
}

/// Where a message goes: a closing connection reads nothing; before the peer's version only
/// the version counts, and anything else is ignored; between version and verack only the
/// verack counts, so feature announcements such as `wtxidrelay` and `sendaddrv2`, and a
/// second version, are ignored.
pub fn route(phase: Phase, disconnecting: bool, message: &Message) -> (r: Route)
    ensures
        r == spec_route(phase, disconnecting, *message),
{
    if disconnecting {
        return Route::Ignore;
    }
    match phase {
        Phase::AwaitingVersion => match message {
            Message::Version => Route::Version,
            _ => Route::Ignore,
        },
        Phase::AwaitingVerack => match message {
            Message::Verack => Route::Verack,
            _ => Route::Ignore,
        },
        Phase::Ready => Route::Established,
    }
}

/// Whether an address message carries more addresses than one may.
pub fn oversized_addr(count: usize) -> (r: bool)
    ensures
        r == (count > MAX_ADDR_PER_MESSAGE),
{
    count > MAX_ADDR_PER_MESSAGE
}

/// A peer's keepalive state, with times in milliseconds of one monotonic clock.
#[derive(Debug, Clone, Copy)]
pub struct PingState {
    pub peer: u64,
    /// Handshake complete and not disconnecting.
    pub ready: bool,
    /// The nonce of the ping awaiting its pong, and when it was sent.
    pub ping_sent: Option<(u64, u64)>,
    /// When the next ping is due.
    pub next_ping: u64,
}

/// A peer that has not answered its ping within `timeout`.
pub open spec fn is_silent(p: PingState, now: u64, timeout: u64) -> bool {
    &&& p.ready
    &&& p.ping_sent is Some
    &&& now > p.ping_sent->Some_0.1
    &&& now - p.ping_sent->Some_0.1 > timeout
}

/// A peer with no ping outstanding whose next ping is due.
pub open spec fn is_ping_due(p: PingState, now: u64) -> bool {
    p.ready && p.ping_sent is None && now >= p.next_ping
}

/// Which peers to ping now and which to drop for not answering, each in the order given.
pub struct PingPlan {
    pub silent: Vec<u64>,
    pub due: Vec<u64>,
}

/// The peer a keepalive state belongs to.
pub open spec fn peer_of() -> spec_fn(PingState) -> u64 {
    |p: PingState| p.peer
}

/// Sends keepalive pings and drops peers that stop answering: a ready peer whose ping is older
/// than `timeout` is silent; one with no ping outstanding is pinged once its time comes.
pub fn ping_plan(peers: &[PingState], now: u64, timeout: u64) -> (r: PingPlan)
    ensures
        r.silent@ == peers@.filter(|p: PingState| is_silent(p, now, timeout)).map_values(peer_of()),
        r.due@ == peers@.filter(|p: PingState| is_ping_due(p, now)).map_values(peer_of()),
{
    let ghost s = peers@;
    let mut silent: Vec<u64> = Vec::new();
    let mut due: Vec<u64> = Vec::new();
    let mut i: usize = 0;
    while i < peers.len()
        invariant
            s == peers@,
            i <= s.len(),
            silent@ == s.take(i as int).filter(|p: PingState| is_silent(p, now, timeout)).map_values(peer_of()),
            due@ == s.take(i as int).filter(|p: PingState| is_ping_due(p, now)).map_values(peer_of()),
        decreases s.len() - i,
    {
        let p = peers[i];
        proof {
            reveal(Seq::filter);
            assert(s.take(i + 1).drop_last() =~= s.take(i as int));
            assert(s.take(i + 1).last() == p);
        }
        let ghost before_silent = silent@;
        let ghost before_due = due@;
        if p.ready {
            match p.ping_sent {
                Some((_, sent)) => {
                    if now > sent && now - sent > timeout {
                        silent.push(p.peer);
                    }
                },
                None => {
                    if now >= p.next_ping {
                        due.push(p.peer);
                    }
                },
            }
        }
        proof {
            let fs = s.take(i as int).filter(|q: PingState| is_silent(q, now, timeout));
            let fd = s.take(i as int).filter(|q: PingState| is_ping_due(q, now));
            if is_silent(p, now, timeout) {
                assert(fs.push(p).map_values(peer_of()) =~= fs.map_values(peer_of()).push(p.peer));
            }
            if is_ping_due(p, now) {
                assert(fd.push(p).map_values(peer_of()) =~= fd.map_values(peer_of()).push(p.peer));
            }
        }
        i = i + 1;
    }
    proof {
        assert(s.take(s.len() as int) =~= s);
    }
    PingPlan { silent, due }
}

/// Whether a pong answers the ping we sent: an unsolicited or mismatched pong is ignored, as
/// Bitcoin Core does.
pub fn pong_matches(ping_sent: Option<(u64, u64)>, nonce: u64) -> (r: bool)
    ensures
        r == (ping_sent is Some && ping_sent->Some_0.0 == nonce),
{
    match ping_sent {
        Some((sent_nonce, _)) => sent_nonce == nonce,
        None => false,
    }
}

} // verus!
