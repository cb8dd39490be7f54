//! The connection table: connections being opened, connected peers in the order their
//! messages are handled, and where each peer is in the handshake. This is the bookkeeping of
//! Bitcoin Core's `CConnman`; the sockets themselves belong to whoever runs the event loop.

use vstd::prelude::*;

use crate::p2p::addrman::{spec_group_of, group_of, Group};
use crate::p2p::permissions::{granted, PermissionTable, Permissions};
use crate::p2p::protocol::{judge_version, spec_judge_version, ConnectionKind, Phase, PingState, VersionVerdict};
use crate::p2p::transport::TransportKind;
use crate::pairs::{lemma_to_map_push, lemma_to_map_remove, lemma_to_map_unique, lemma_to_map_update, to_map, unique_keys};
use crate::storage::PeerAddr;

verus! {

/// A connection being opened.
#[derive(Debug, Clone, Copy, PartialEq, Eq, Structural)]
pub struct Connecting {
    pub addr: PeerAddr,
    pub kind: ConnectionKind,
}

/// A connected peer, with times in milliseconds of one monotonic clock.
#[derive(Debug, Clone, Copy)]
pub struct PeerInfo {
    pub addr: PeerAddr,
    pub kind: ConnectionKind,
    pub transport: TransportKind,
    pub permissions: Permissions,
    pub phase: Phase,
    /// The nonce of our version message, to detect connecting to ourselves.
    pub nonce: u64,
    pub connected_at: u64,
    /// From the peer's version message.
    pub version: u32,
    pub services: u64,
    pub start_height: i32,
    pub next_ping: u64,
    /// The nonce of the ping awaiting its pong, and when it was sent.
    pub ping_sent: Option<(u64, u64)>,
    /// How long the last pong took.
    pub latency: Option<u64>,
    pub disconnecting: bool,
}

/// Handshake complete and not on the way out.
pub open spec fn spec_is_ready(p: PeerInfo) -> bool {
    p.phase == Phase::Ready && !p.disconnecting
}

impl PeerInfo {
    pub fn is_ready(&self) -> (r: bool)
        ensures
            r == spec_is_ready(*self),
    {
        self.phase == Phase::Ready && !self.disconnecting
    }
}

/// A peer just connected, before its version: what `on_connected` records, but for the
/// permissions, which come from the permission table.
pub open spec fn is_fresh(p: PeerInfo, c: Connecting, transport: TransportKind, now: u64, ping_interval: u64) -> bool {
    &&& p.addr == c.addr
    &&& p.kind == c.kind
    &&& p.transport == transport
    &&& p.phase == Phase::AwaitingVersion
    &&& p.nonce == 0
    &&& p.connected_at == now
    &&& p.version == 0
    &&& p.services == 0
    &&& p.start_height == 0
    &&& p.next_ping == (if now + ping_interval <= u64::MAX { (now + ping_interval) as u64 } else { u64::MAX })
    &&& p.ping_sent is None
    &&& p.latency is None
    &&& !p.disconnecting
}

/// How a connection ended.
#[derive(Debug, Clone, Copy, PartialEq, Eq, Structural)]
pub enum Closed {
    /// It never got established: the address failed.
    NeverConnected(PeerAddr),
    /// A peer left; `handshake_done` says whether it had completed the handshake.
    Peer { addr: PeerAddr, kind: ConnectionKind, handshake_done: bool },
    /// Nothing was known of it.
    Unknown,
}

/// The ids of entries, in order.
pub open spec fn ids_of<V>(s: Seq<(u64, V)>) -> Seq<u64> {
    s.map_values(|e: (u64, V)| e.0)
}

pub struct PeerTable {
    peers: Vec<(u64, PeerInfo)>,
    connecting: Vec<(u64, Connecting)>,
    next_id: u64,
}

impl PeerTable {
    #[verifier::type_invariant]
    spec fn consistent(self) -> bool {
        &&& unique_keys(self.peers@)
        &&& unique_keys(self.connecting@)
        &&& forall|i: int| 0 <= i < self.peers@.len() ==> (#[trigger] self.peers@[i]).0 < self.next_id
        &&& forall|i: int| 0 <= i < self.connecting@.len() ==> (#[trigger] self.connecting@[i]).0 < self.next_id
        &&& forall|k: u64| !(#[trigger] to_map(self.peers@).contains_key(k) && to_map(self.connecting@).contains_key(k))
    }

    /// Connected peers by id.
    pub closed spec fn spec_peers(self) -> Map<u64, PeerInfo> {
        to_map(self.peers@)
    }

    /// Connections being opened, by id.
    pub closed spec fn spec_connecting(self) -> Map<u64, Connecting> {
        to_map(self.connecting@)
    }

    /// Connected peers in the order their messages are handled.
    pub closed spec fn spec_order(self) -> Seq<u64> {
        ids_of(self.peers@)
    }

    /// The id the next connection gets.
    pub closed spec fn spec_next_id(self) -> u64 {
        self.next_id
    }

    /// Every id in use was handed out before the next one, and the order lists each peer once.
    proof fn lemma_ids(self)
        requires
            self.consistent(),
        ensures
            forall|k: u64| #[trigger] self.spec_peers().contains_key(k) ==> k < self.spec_next_id(),
            forall|k: u64| #[trigger] self.spec_connecting().contains_key(k) ==> k < self.spec_next_id(),
            forall|k: u64| !(#[trigger] self.spec_peers().contains_key(k) && self.spec_connecting().contains_key(k)),
            self.spec_order().no_duplicates(),
            forall|k: u64| #[trigger] self.spec_order().contains(k) <==> self.spec_peers().contains_key(k),
    {
        lemma_to_map_unique(self.peers@);
        lemma_to_map_unique(self.connecting@);
        let o = ids_of(self.peers@);
        assert forall|k: u64| #[trigger] self.spec_peers().contains_key(k) implies k < self.spec_next_id() by {
            let i = choose|i: int| 0 <= i < self.peers@.len() && (#[trigger] self.peers@[i]).0 == k;
        }
        assert forall|k: u64| #[trigger] self.spec_connecting().contains_key(k) implies k < self.spec_next_id() by {
            let i = choose|i: int| 0 <= i < self.connecting@.len() && (#[trigger] self.connecting@[i]).0 == k;
        }
        assert forall|a: int, b: int| 0 <= a < o.len() && 0 <= b < o.len() && a != b implies o[a] != o[b] by {
            if a < b {
                assert(self.peers@[a].0 != self.peers@[b].0);
            } else {
                assert(self.peers@[b].0 != self.peers@[a].0);
            }
        }
        assert forall|k: u64| #[trigger] o.contains(k) <==> self.spec_peers().contains_key(k) by {
            if o.contains(k) {
                let i = choose|i: int| 0 <= i < o.len() && o[i] == k;
                assert(self.peers@[i].0 == k);
            }
            if self.spec_peers().contains_key(k) {
                let i = choose|i: int| 0 <= i < self.peers@.len() && (#[trigger] self.peers@[i]).0 == k;
                assert(o[i] == k);
            }
        }
    }

    pub fn new() -> (r: PeerTable)
        ensures
            r.spec_peers() == Map::<u64, PeerInfo>::empty(),
            r.spec_connecting() == Map::<u64, Connecting>::empty(),
            r.spec_order() == Seq::<u64>::empty(),
            r.spec_next_id() == 0,
    {
        let r = PeerTable { peers: Vec::new(), connecting: Vec::new(), next_id: 0 };
        proof {
            assert(to_map(r.peers@) =~= Map::<u64, PeerInfo>::empty());
            assert(to_map(r.connecting@) =~= Map::<u64, Connecting>::empty());
            assert(ids_of(r.peers@) =~= Seq::<u64>::empty());
        }
        r
    }

    /// The id the next connection gets.
    pub fn next_id(&self) -> (r: u64)
        ensures
            r == self.spec_next_id(),
    {
        self.next_id
    }

    /// How many peers are connected.
    pub fn len(&self) -> (r: usize)
        ensures
            r == self.spec_order().len(),
    {
        self.peers.len()
    }

    /// Connected peers in the order their messages are handled.
    pub fn order(&self) -> (r: Vec<u64>)
        ensures
            r@ == self.spec_order(),
    {
        let mut r: Vec<u64> = Vec::new();
        let mut i: usize = 0;
        while i < self.peers.len()
            invariant
                i <= self.peers@.len(),
                r@ == ids_of(self.peers@.take(i as int)),
            decreases self.peers@.len() - i,
        {
            r.push(self.peers[i].0);
            proof {
                assert(ids_of(self.peers@.take(i + 1)) =~= ids_of(self.peers@.take(i as int)).push(self.peers@[i as int].0));
            }
            i = i + 1;
        }
        proof {
            assert(self.peers@.take(self.peers@.len() as int) =~= self.peers@);
        }
        r
    }

    fn find_peer(&self, id: u64) -> (r: Option<usize>)
        ensures
            match r {
                Some(i) => i < self.peers@.len() && self.peers@[i as int].0 == id && self.spec_peers().contains_key(id)
                    && self.spec_peers()[id] == self.peers@[i as int].1,
                None => !self.spec_peers().contains_key(id),
            },
    {
        proof {
            use_type_invariant(self);
            lemma_to_map_unique(self.peers@);
        }
        let mut i: usize = 0;
        while i < self.peers.len()
            invariant
                i <= self.peers@.len(),
                forall|j: int| 0 <= j < i ==> (#[trigger] self.peers@[j]).0 != id,
            decreases self.peers@.len() - i,
        {
            if self.peers[i].0 == id {
                proof {
                    use_type_invariant(self);
                    lemma_to_map_unique(self.peers@);
                }
                return Some(i);
            }
            i = i + 1;
        }
        proof {
            if self.spec_peers().contains_key(id) {
                let j = choose|j: int| 0 <= j < self.peers@.len() && (#[trigger] self.peers@[j]).0 == id;
            }
        }
        None
    }

    fn find_connecting(&self, id: u64) -> (r: Option<usize>)
        ensures
            match r {
                Some(i) => i < self.connecting@.len() && self.connecting@[i as int].0 == id
                    && self.spec_connecting().contains_key(id) && self.spec_connecting()[id]
                    == self.connecting@[i as int].1,
                None => !self.spec_connecting().contains_key(id),
            },
    {
        proof {
            use_type_invariant(self);
            lemma_to_map_unique(self.connecting@);
        }
        let mut i: usize = 0;
        while i < self.connecting.len()
            invariant
                i <= self.connecting@.len(),
                forall|j: int| 0 <= j < i ==> (#[trigger] self.connecting@[j]).0 != id,
            decreases self.connecting@.len() - i,
        {
            if self.connecting[i].0 == id {
                proof {
                    use_type_invariant(self);
                    lemma_to_map_unique(self.connecting@);
                }
                return Some(i);
            }
            i = i + 1;
        }
        proof {
            if self.spec_connecting().contains_key(id) {
                let j = choose|j: int| 0 <= j < self.connecting@.len() && (#[trigger] self.connecting@[j]).0 == id;
            }
        }
        None
    }

    /// The peer with this id, if connected.
    pub fn get(&self, id: u64) -> (r: Option<PeerInfo>)
        ensures
            r == if self.spec_peers().contains_key(id) {
                Some(self.spec_peers()[id])
            } else {
                None::<PeerInfo>
            },
    {
        match self.find_peer(id) {
            Some(i) => Some(self.peers[i].1),
            None => None,
        }
    }

    /// Registers a connection about to be opened, under a fresh id.
    pub fn connect_to(&mut self, addr: PeerAddr, kind: ConnectionKind) -> (id: u64)
        requires
            old(self).spec_next_id() < u64::MAX,
        ensures
            id == old(self).spec_next_id(),
            final(self).spec_next_id() == id + 1,
            !old(self).spec_connecting().contains_key(id) && !old(self).spec_peers().contains_key(id),
            final(self).spec_connecting() == old(self).spec_connecting().insert(id, Connecting { addr, kind }),
            final(self).spec_peers() == old(self).spec_peers(),
            final(self).spec_order() == old(self).spec_order(),
    {
        proof {
            use_type_invariant(&*self);
            self.lemma_ids();
            assert(!self.spec_connecting().contains_key(self.next_id));
            assert(!self.spec_peers().contains_key(self.next_id));
        }
        let id = self.next_id;
        let ghost before = self.connecting@;
        let mut connecting = Vec::new();
        std::mem::swap(&mut connecting, &mut self.connecting);
        connecting.push((id, Connecting { addr, kind }));
        proof {
            lemma_to_map_push(before, id, Connecting { addr, kind });
            lemma_to_map_unique(self.peers@);
            lemma_to_map_unique(connecting@);
        }
        self.next_id = id + 1;
        self.connecting = connecting;
        id
    }

    /// The connection opened: the peer joins the table, last in the order, before its version.
    /// Gives its address, to send it our version; nothing happens for an unknown id.
    pub fn on_connected(
        &mut self,
        id: u64,
        transport: TransportKind,
        permissions: &PermissionTable,
        now: u64,
        ping_interval: u64,
    ) -> (r: Option<PeerAddr>)
        ensures
            old(self).spec_connecting().contains_key(id) ==> {
                let c = old(self).spec_connecting()[id];
                let p = final(self).spec_peers()[id];
                &&& r == Some(c.addr)
                &&& final(self).spec_connecting() == old(self).spec_connecting().remove(id)
                &&& final(self).spec_peers() == old(self).spec_peers().insert(id, p)
                &&& is_fresh(p, c, transport, now, ping_interval)
                &&& p.permissions.spec_bits() == granted(permissions.spec_entries(), c.addr.ip)
                &&& final(self).spec_order() == old(self).spec_order().push(id)
            },
            !old(self).spec_connecting().contains_key(id) ==> r is None && final(self).spec_connecting() == old(
                self,
            ).spec_connecting() && final(self).spec_peers() == old(self).spec_peers() && final(self).spec_order()
                == old(self).spec_order(),
            final(self).spec_next_id() == old(self).spec_next_id(),
    {
        proof {
            use_type_invariant(&*self);
        }
        let i = match self.find_connecting(id) {
            Some(i) => i,
            None => return None,
        };
        let ghost c0 = self.connecting@;
        let ghost p0 = self.peers@;
        proof {
            lemma_to_map_unique(c0);
            assert(!to_map(p0).contains_key(id));
        }
        let mut connecting = Vec::new();
        std::mem::swap(&mut connecting, &mut self.connecting);
        let (_, c) = connecting.remove(i);
        let next_ping = now.saturating_add(ping_interval);
        let info = PeerInfo {
            addr: c.addr,
            kind: c.kind,
            transport,
            permissions: permissions.for_peer(c.addr.ip),
            phase: Phase::AwaitingVersion,
            nonce: 0,
            connected_at: now,
            version: 0,
            services: 0,
            start_height: 0,
            next_ping,
            ping_sent: None,
            latency: None,
            disconnecting: false,
        };
        let mut peers = Vec::new();
        std::mem::swap(&mut peers, &mut self.peers);
        peers.push((id, info));
        proof {
            lemma_to_map_remove(c0, i as int);
            lemma_to_map_push(p0, id, info);
            lemma_to_map_unique(connecting@);
            lemma_to_map_unique(peers@);
            assert forall|k: u64| !(#[trigger] to_map(peers@).contains_key(k) && to_map(connecting@).contains_key(k)) by {
                if k != id {
                    assert(!(to_map(p0).contains_key(k) && to_map(c0).contains_key(k)));
                }
            }
            assert forall|j: int| 0 <= j < connecting@.len() implies (#[trigger] connecting@[j]).0 < self.next_id by {
                let j2 = if j < i { j } else { j + 1 };
                assert(connecting@[j] == c0[j2]);
            }
            assert forall|j: int| 0 <= j < peers@.len() implies (#[trigger] peers@[j]).0 < self.next_id by {
                if j < p0.len() {
                    assert(peers@[j] == p0[j]);
                } else {
                    assert(c0[i as int].0 < self.next_id);
                }
            }
            assert(ids_of(peers@) =~= ids_of(p0).push(id));
        }
        self.connecting = connecting;
        self.peers = peers;
        Some(c.addr)
    }
}


/// A peer still in the handshake after `limit` at `now`.
pub open spec fn handshake_stuck(p: PeerInfo, now: u64, limit: u64) -> bool {
    p.phase != Phase::Ready && now > p.connected_at && now - p.connected_at > limit
}

/// A live automatic connection.
pub open spec fn counts_as_automatic(p: PeerInfo) -> bool {
    p.kind == ConnectionKind::Automatic && !p.disconnecting
}

/// The keepalive state of a peer.
pub open spec fn ping_state_of(id: u64, p: PeerInfo) -> PingState {
    PingState { peer: id, ready: spec_is_ready(p), ping_sent: p.ping_sent, next_ping: p.next_ping }
}

/// Where a version message leaves a connection.
#[derive(Debug, Clone, Copy, PartialEq, Eq, Structural)]
pub enum VersionStep {
    /// No such peer.
    Unknown,
    /// The peer is dropped, for this reason; `addr` is its address.
    Refused { verdict: VersionVerdict, addr: PeerAddr },
    /// The handshake goes on: send our verack.
    Accepted,
}

impl PeerTable {
    /// Connections being opened, in the order they were started.
    pub closed spec fn spec_pending(self) -> Seq<u64> {
        ids_of(self.connecting@)
    }

    /// Whether an address is connected or being connected to.
    pub open spec fn spec_in_use(self, a: PeerAddr) -> bool {
        ||| exists|k: u64| #[trigger] self.spec_connecting().contains_key(k) && self.spec_connecting()[k].addr == a
        ||| exists|k: u64| #[trigger] self.spec_peers().contains_key(k) && self.spec_peers()[k].addr == a
    }

    /// Whether an automatic connection, opened or being opened, is in a network group.
    pub open spec fn spec_group_in_use(self, g: Group) -> bool {
        ||| exists|k: u64|
            #[trigger] self.spec_connecting().contains_key(k) && self.spec_connecting()[k].kind == ConnectionKind::Automatic
                && spec_group_of(self.spec_connecting()[k].addr.ip) == g
        ||| exists|k: u64|
            #[trigger] self.spec_peers().contains_key(k) && self.spec_peers()[k].kind == ConnectionKind::Automatic
                && spec_group_of(self.spec_peers()[k].addr.ip) == g
    }

    /// The ready peers, in order.
    pub open spec fn spec_ready(self) -> Seq<u64> {
        self.spec_order().filter(|k: u64| spec_is_ready(self.spec_peers()[k]))
    }

    /// Each entry of the order is the peer in that slot.
    proof fn lemma_slots(self)
        requires
            self.consistent(),
        ensures
            self.spec_order().len() == self.peers@.len(),
            forall|i: int|
                0 <= i < self.peers@.len() ==> #[trigger] self.spec_order()[i] == self.peers@[i].0
                    && self.spec_peers().contains_key(self.peers@[i].0) && self.spec_peers()[self.peers@[i].0]
                    == self.peers@[i].1,
            self.spec_pending().len() == self.connecting@.len(),
            forall|i: int|
                0 <= i < self.connecting@.len() ==> #[trigger] self.spec_pending()[i] == self.connecting@[i].0
                    && self.spec_connecting().contains_key(self.connecting@[i].0) && self.spec_connecting()[self.connecting@[i].0]
                    == self.connecting@[i].1,
    {
        lemma_to_map_unique(self.peers@);
        lemma_to_map_unique(self.connecting@);
    }

    /// Replaces the record of the peer in slot `i`.
    fn set_slot(&mut self, i: usize, info: PeerInfo)
        requires
            i < old(self).peers@.len(),
        ensures
            final(self).spec_peers() == old(self).spec_peers().insert(old(self).peers@[i as int].0, info),
            final(self).peers@ == old(self).peers@.update(i as int, (old(self).peers@[i as int].0, info)),
            final(self).spec_order() == old(self).spec_order(),
            final(self).spec_connecting() == old(self).spec_connecting(),
            final(self).spec_pending() == old(self).spec_pending(),
            final(self).spec_next_id() == old(self).spec_next_id(),
    {
        proof {
            use_type_invariant(&*self);
        }
        let ghost p0 = self.peers@;
        let mut peers = Vec::new();
        std::mem::swap(&mut peers, &mut self.peers);
        let id = peers[i].0;
        peers.set(i, (id, info));
        proof {
            lemma_to_map_update(p0, i as int, info);
            lemma_to_map_unique(p0);
            assert(to_map(peers@).dom() =~= to_map(p0).dom());
            assert forall|j: int| 0 <= j < peers@.len() implies (#[trigger] peers@[j]).0 < self.next_id by {
                assert(peers@[j].0 == p0[j].0);
            }
            assert(ids_of(peers@) =~= ids_of(p0));
        }
        self.peers = peers;
    }

    /// What `on_closed` does: `after` is this table once the connection `id` ended as `r` says.
    pub open spec fn closes(self, after: PeerTable, id: u64, r: Closed) -> bool {
        &&& after.spec_next_id() == self.spec_next_id()
        &&& match r {
            Closed::NeverConnected(a) => {
                &&& self.spec_connecting().contains_key(id)
                &&& a == self.spec_connecting()[id].addr
                &&& after.spec_connecting() == self.spec_connecting().remove(id)
                &&& after.spec_peers() == self.spec_peers()
                &&& after.spec_order() == self.spec_order()
            },
            Closed::Peer { addr, kind, handshake_done } => {
                let p = self.spec_peers()[id];
                &&& !self.spec_connecting().contains_key(id)
                &&& self.spec_peers().contains_key(id)
                &&& addr == p.addr && kind == p.kind && handshake_done == (p.phase == Phase::Ready)
                &&& after.spec_connecting() == self.spec_connecting()
                &&& after.spec_peers() == self.spec_peers().remove(id)
                &&& exists|i: int|
                    0 <= i < self.spec_order().len() && self.spec_order()[i] == id
                        && after.spec_order() == self.spec_order().remove(i)
            },
            Closed::Unknown => {
                &&& !self.spec_connecting().contains_key(id)
                &&& !self.spec_peers().contains_key(id)
                &&& after.spec_connecting() == self.spec_connecting()
                &&& after.spec_peers() == self.spec_peers()
                &&& after.spec_order() == self.spec_order()
            },
        }
    }

    /// A connection ended. One being opened failed; a peer leaves the table and the order.
    pub fn on_closed(&mut self, id: u64) -> (r: Closed)
        ensures
            old(self).closes(*final(self), id, r),
    {
        proof {
            use_type_invariant(&*self);
        }
        if let Some(i) = self.find_connecting(id) {
            let ghost c0 = self.connecting@;
            let mut connecting = Vec::new();
            std::mem::swap(&mut connecting, &mut self.connecting);
            let (_, c) = connecting.remove(i);
            proof {
                lemma_to_map_remove(c0, i as int);
                lemma_to_map_unique(connecting@);
                assert forall|j: int| 0 <= j < connecting@.len() implies (#[trigger] connecting@[j]).0 < self.next_id by {
                    let j2 = if j < i { j } else { j + 1 };
                    assert(connecting@[j] == c0[j2]);
                }
                assert forall|k: u64| !(#[trigger] to_map(self.peers@).contains_key(k) && to_map(connecting@).contains_key(k)) by {
                    assert(!(to_map(self.peers@).contains_key(k) && to_map(c0).contains_key(k)));
                }
            }
            self.connecting = connecting;
            return Closed::NeverConnected(c.addr);
        }
        if let Some(i) = self.find_peer(id) {
            let ghost p0 = self.peers@;
            let mut peers = Vec::new();
            std::mem::swap(&mut peers, &mut self.peers);
            let (_, p) = peers.remove(i);
            proof {
                lemma_to_map_remove(p0, i as int);
                lemma_to_map_unique(peers@);
                assert forall|j: int| 0 <= j < peers@.len() implies (#[trigger] peers@[j]).0 < self.next_id by {
                    let j2 = if j < i { j } else { j + 1 };
                    assert(peers@[j] == p0[j2]);
                }
                assert forall|k: u64| !(#[trigger] to_map(peers@).contains_key(k) && to_map(self.connecting@).contains_key(k)) by {
                    assert(!(to_map(p0).contains_key(k) && to_map(self.connecting@).contains_key(k)));
                }
                assert(ids_of(peers@) =~= ids_of(p0).remove(i as int));
                assert(ids_of(p0)[i as int] == id);
            }
            self.peers = peers;
            proof {
                assert(old(self).spec_order()[i as int] == id);
                assert(self.spec_order() == old(self).spec_order().remove(i as int));
            }
            return Closed::Peer { addr: p.addr, kind: p.kind, handshake_done: p.phase == Phase::Ready };
        }
        Closed::Unknown
    }

    /// Marks a peer as on the way out; false for an unknown id.
    pub fn disconnect(&mut self, id: u64) -> (r: bool)
        ensures
            r == old(self).spec_peers().contains_key(id),
            r ==> final(self).spec_peers() == old(self).spec_peers().insert(
                id,
                PeerInfo { disconnecting: true, ..old(self).spec_peers()[id] },
            ),
            !r ==> final(self).spec_peers() == old(self).spec_peers(),
            final(self).spec_order() == old(self).spec_order(),
            final(self).spec_connecting() == old(self).spec_connecting(),
            final(self).spec_next_id() == old(self).spec_next_id(),
    {
        match self.find_peer(id) {
            Some(i) => {
                let p = self.peers[i].1;
                self.set_slot(i, PeerInfo { disconnecting: true, ..p });
                true
            },
            None => false,
        }
    }

    /// Records the nonce of the version message we sent.
    pub fn set_nonce(&mut self, id: u64, nonce: u64)
        ensures
            old(self).spec_peers().contains_key(id) ==> final(self).spec_peers() == old(self).spec_peers().insert(
                id,
                PeerInfo { nonce, ..old(self).spec_peers()[id] },
            ),
            !old(self).spec_peers().contains_key(id) ==> final(self).spec_peers() == old(self).spec_peers(),
            final(self).spec_order() == old(self).spec_order(),
            final(self).spec_connecting() == old(self).spec_connecting(),
            final(self).spec_next_id() == old(self).spec_next_id(),
    {
        if let Some(i) = self.find_peer(id) {
            let p = self.peers[i].1;
            self.set_slot(i, PeerInfo { nonce, ..p });
        }
    }
}


impl PeerTable {
    /// The peers still in the handshake after `limit` at `now`, in order.
    pub fn handshake_timeouts(&self, now: u64, limit: u64) -> (r: Vec<u64>)
        ensures
            r@ == self.spec_order().filter(|k: u64| handshake_stuck(self.spec_peers()[k], now, limit)),
    {
        proof {
            use_type_invariant(self);
            self.lemma_slots();
        }
        let ghost o = self.spec_order();
        let ghost f = |k: u64| handshake_stuck(self.spec_peers()[k], now, limit);
        let mut r: Vec<u64> = Vec::new();
        let mut i: usize = 0;
        while i < self.peers.len()
            invariant
                i <= self.peers@.len(),
                o == self.spec_order(),
                o.len() == self.peers@.len(),
                forall|j: int|
                    0 <= j < self.peers@.len() ==> #[trigger] o[j] == self.peers@[j].0 && self.spec_peers()[self.peers@[j].0]
                        == self.peers@[j].1,
                f == (|k: u64| handshake_stuck(self.spec_peers()[k], now, limit)),
                r@ == o.take(i as int).filter(f),
            decreases self.peers@.len() - i,
        {
            let (id, p) = self.peers[i];
            proof {
                reveal(Seq::filter);
                assert(o.take(i + 1).drop_last() =~= o.take(i as int));
                assert(o.take(i + 1).last() == id);
                assert(o[i as int] == id);
            }
            if p.phase != Phase::Ready && now > p.connected_at && now - p.connected_at > limit {
                r.push(id);
            }
            i = i + 1;
        }
        proof {
            assert(o.take(o.len() as int) =~= o);
        }
        r
    }

    /// The ready peers, in order.
    pub fn ready_ids(&self) -> (r: Vec<u64>)
        ensures
            r@ == self.spec_ready(),
    {
        proof {
            use_type_invariant(self);
            self.lemma_slots();
        }
        let ghost o = self.spec_order();
        let ghost f = |k: u64| spec_is_ready(self.spec_peers()[k]);
        let mut r: Vec<u64> = Vec::new();
        let mut i: usize = 0;
        while i < self.peers.len()
            invariant
                i <= self.peers@.len(),
                o == self.spec_order(),
                o.len() == self.peers@.len(),
                forall|j: int|
                    0 <= j < self.peers@.len() ==> #[trigger] o[j] == self.peers@[j].0 && self.spec_peers()[self.peers@[j].0]
                        == self.peers@[j].1,
                f == (|k: u64| spec_is_ready(self.spec_peers()[k])),
                r@ == o.take(i as int).filter(f),
            decreases self.peers@.len() - i,
        {
            let (id, p) = self.peers[i];
            proof {
                reveal(Seq::filter);
                assert(o.take(i + 1).drop_last() =~= o.take(i as int));
                assert(o.take(i + 1).last() == id);
                assert(o[i as int] == id);
            }
            if p.is_ready() {
                r.push(id);
            }
            i = i + 1;
        }
        proof {
            assert(o.take(o.len() as int) =~= o);
        }
        r
    }

    /// The first ready peer in the order: whom to sync headers from next.
    pub fn first_ready(&self) -> (r: Option<u64>)
        ensures
            r == if self.spec_ready().len() > 0 {
                Some(self.spec_ready()[0])
            } else {
                None::<u64>
            },
    {
        let ready = self.ready_ids();
        if ready.len() > 0 {
            Some(ready[0])
        } else {
            None
        }
    }

    /// A peer is among the ready peers (what `ready_ids` lists, and whom `first_ready` picks
    /// from) exactly when it is connected, has completed the handshake and is not on its way
    /// out: a peer marked disconnecting is never listed nor picked, whatever its phase.
    pub proof fn lemma_ready_peers(self, k: u64)
        ensures
            self.spec_ready().contains(k) ==> self.spec_order().contains(k) && self.spec_peers()[k].phase == Phase::Ready
                && !self.spec_peers()[k].disconnecting,
            self.spec_order().contains(k) && self.spec_peers()[k].phase == Phase::Ready && !self.spec_peers()[k].disconnecting
                ==> self.spec_ready().contains(k),
            self.spec_ready().len() > 0 ==> self.spec_peers()[self.spec_ready()[0]].phase == Phase::Ready
                && !self.spec_peers()[self.spec_ready()[0]].disconnecting,
    {
        broadcast use vstd::seq_lib::group_filter_ensures;
        let f = |j: u64| spec_is_ready(self.spec_peers()[j]);
        let o = self.spec_order();
        let r = self.spec_ready();
        assert(r == o.filter(f));
        if r.contains(k) {
            let i = choose|i: int| 0 <= i < r.len() && r[i] == k;
            assert(f(r[i]));
            o.lemma_filter_contains_rev(f, k);
        }
        if o.contains(k) && f(k) {
            let i = choose|i: int| 0 <= i < o.len() && o[i] == k;
            o.lemma_filter_contains(f, i);
        }
        if r.len() > 0 {
            assert(f(r[0]));
        }
    }

    /// The keepalive state of every peer, in order.
    pub fn ping_states(&self) -> (r: Vec<PingState>)
        ensures
            r@ == self.spec_order().map_values(|k: u64| ping_state_of(k, self.spec_peers()[k])),
    {
        proof {
            use_type_invariant(self);
            self.lemma_slots();
        }
        let ghost o = self.spec_order();
        let mut r: Vec<PingState> = Vec::new();
        let mut i: usize = 0;
        while i < self.peers.len()
            invariant
                i <= self.peers@.len(),
                o == self.spec_order(),
                o.len() == self.peers@.len(),
                forall|j: int|
                    0 <= j < self.peers@.len() ==> #[trigger] o[j] == self.peers@[j].0 && self.spec_peers()[self.peers@[j].0]
                        == self.peers@[j].1,
                r@ == o.take(i as int).map_values(|k: u64| ping_state_of(k, self.spec_peers()[k])),
            decreases self.peers@.len() - i,
        {
            let (id, p) = self.peers[i];
            proof {
                assert(o[i as int] == id);
            }
            r.push(PingState { peer: id, ready: p.is_ready(), ping_sent: p.ping_sent, next_ping: p.next_ping });
            proof {
                assert(o.take(i + 1).map_values(|k: u64| ping_state_of(k, self.spec_peers()[k])) =~= o.take(
                    i as int,
                ).map_values(|k: u64| ping_state_of(k, self.spec_peers()[k])).push(ping_state_of(id, p)));
            }
            i = i + 1;
        }
        proof {
            assert(o.take(o.len() as int) =~= o);
        }
        r
    }

    /// How many automatic connections are open or being opened, not counting peers on the way
    /// out.
    pub open spec fn spec_automatic_count(self) -> nat {
        self.spec_pending().filter(|k: u64| self.spec_connecting()[k].kind == ConnectionKind::Automatic).len()
            + self.spec_order().filter(|k: u64| counts_as_automatic(self.spec_peers()[k])).len()
    }

    /// `spec_automatic_count`, saturating at `usize::MAX`.
    pub fn automatic_count(&self) -> (r: usize)
        ensures
            r == if self.spec_automatic_count() <= usize::MAX {
                self.spec_automatic_count()
            } else {
                usize::MAX as nat
            },
    {
        proof {
            use_type_invariant(self);
            self.lemma_slots();
        }
        let ghost q = self.spec_pending();
        let ghost fq = |k: u64| self.spec_connecting()[k].kind == ConnectionKind::Automatic;
        let mut pending: usize = 0;
        let mut i: usize = 0;
        while i < self.connecting.len()
            invariant
                i <= self.connecting@.len(),
                q == self.spec_pending(),
                q.len() == self.connecting@.len(),
                forall|j: int|
                    0 <= j < self.connecting@.len() ==> #[trigger] q[j] == self.connecting@[j].0
                        && self.spec_connecting()[self.connecting@[j].0] == self.connecting@[j].1,
                fq == (|k: u64| self.spec_connecting()[k].kind == ConnectionKind::Automatic),
                pending == q.take(i as int).filter(fq).len(),
                pending <= i,
            decreases self.connecting@.len() - i,
        {
            proof {
                reveal(Seq::filter);
                assert(q.take(i + 1).drop_last() =~= q.take(i as int));
                assert(q[i as int] == self.connecting@[i as int].0);
            }
            if self.connecting[i].1.kind == ConnectionKind::Automatic {
                pending = pending + 1;
            }
            i = i + 1;
        }
        proof {
            assert(q.take(q.len() as int) =~= q);
        }
        let ghost o = self.spec_order();
        let ghost fo = |k: u64| counts_as_automatic(self.spec_peers()[k]);
        let mut live: usize = 0;
        let mut i: usize = 0;
        while i < self.peers.len()
            invariant
                i <= self.peers@.len(),
                o == self.spec_order(),
                o.len() == self.peers@.len(),
                forall|j: int|
                    0 <= j < self.peers@.len() ==> #[trigger] o[j] == self.peers@[j].0 && self.spec_peers()[self.peers@[j].0]
                        == self.peers@[j].1,
                fo == (|k: u64| counts_as_automatic(self.spec_peers()[k])),
                live == o.take(i as int).filter(fo).len(),
                live <= i,
            decreases self.peers@.len() - i,
        {
            proof {
                reveal(Seq::filter);
                assert(o.take(i + 1).drop_last() =~= o.take(i as int));
                assert(o[i as int] == self.peers@[i as int].0);
            }
            let p = self.peers[i].1;
            if p.kind == ConnectionKind::Automatic && !p.disconnecting {
                live = live + 1;
            }
            i = i + 1;
        }
        proof {
            assert(o.take(o.len() as int) =~= o);
        }
        pending.saturating_add(live)
    }

    /// The addresses connected or being connected to, each listed at least once.
    pub fn addresses_in_use(&self) -> (r: Vec<PeerAddr>)
        ensures
            forall|a: PeerAddr| #[trigger] r@.contains(a) <==> self.spec_in_use(a),
    {
        proof {
            use_type_invariant(self);
            self.lemma_slots();
            lemma_to_map_unique(self.peers@);
            lemma_to_map_unique(self.connecting@);
        }
        let mut r: Vec<PeerAddr> = Vec::new();
        let mut i: usize = 0;
        while i < self.connecting.len()
            invariant
                i <= self.connecting@.len(),
                forall|a: PeerAddr| #[trigger] r@.contains(a) <==> exists|j: int| 0 <= j < i && self.connecting@[j].1.addr == a,
            decreases self.connecting@.len() - i,
        {
            let ghost before = r@;
            r.push(self.connecting[i].1.addr);
            proof {
                assert forall|a: PeerAddr| #[trigger] r@.contains(a) <==> exists|j: int| 0 <= j < i + 1 && self.connecting@[j].1.addr == a by {
                    if r@.contains(a) && a != self.connecting@[i as int].1.addr {
                        let k = choose|k: int| 0 <= k < r@.len() && r@[k] == a;
                        assert(before[k] == a);
                    }
                    if exists|j: int| 0 <= j < i + 1 && self.connecting@[j].1.addr == a {
                        let j = choose|j: int| 0 <= j < i + 1 && self.connecting@[j].1.addr == a;
                        if j < i {
                            assert(before.contains(a));
                            let k = choose|k: int| 0 <= k < before.len() && before[k] == a;
                            assert(r@[k] == a);
                        } else {
                            assert(r@[before.len() as int] == a);
                        }
                    }
                }
            }
            i = i + 1;
        }
        let mut i: usize = 0;
        while i < self.peers.len()
            invariant
                i <= self.peers@.len(),
                forall|a: PeerAddr| #[trigger] r@.contains(a) <==> (exists|j: int|
                    0 <= j < self.connecting@.len() && self.connecting@[j].1.addr == a) || (exists|j: int|
                    0 <= j < i && self.peers@[j].1.addr == a),
            decreases self.peers@.len() - i,
        {
            let ghost before = r@;
            r.push(self.peers[i].1.addr);
            proof {
                assert forall|a: PeerAddr| #[trigger] r@.contains(a) <==> (exists|j: int|
                    0 <= j < self.connecting@.len() && self.connecting@[j].1.addr == a) || (exists|j: int|
                    0 <= j < i + 1 && self.peers@[j].1.addr == a) by {
                    if r@.contains(a) && a != self.peers@[i as int].1.addr {
                        let k = choose|k: int| 0 <= k < r@.len() && r@[k] == a;
                        assert(before[k] == a);
                    }
                    if exists|j: int| 0 <= j < i + 1 && self.peers@[j].1.addr == a {
                        let j = choose|j: int| 0 <= j < i + 1 && self.peers@[j].1.addr == a;
                        if j < i {
                            assert(before.contains(a));
                            let k = choose|k: int| 0 <= k < before.len() && before[k] == a;
                            assert(r@[k] == a);
                        } else {
                            assert(r@[before.len() as int] == a);
                        }
                    }
                    if exists|j: int| 0 <= j < self.connecting@.len() && self.connecting@[j].1.addr == a {
                        assert(before.contains(a));
                        let k = choose|k: int| 0 <= k < before.len() && before[k] == a;
                        assert(r@[k] == a);
                    }
                }
            }
            i = i + 1;
        }
        proof {
            assert forall|a: PeerAddr| #[trigger] r@.contains(a) <==> self.spec_in_use(a) by {
                if exists|j: int| 0 <= j < self.connecting@.len() && self.connecting@[j].1.addr == a {
                    let j = choose|j: int| 0 <= j < self.connecting@.len() && self.connecting@[j].1.addr == a;
                    assert(self.spec_connecting().contains_key(self.connecting@[j].0));
                }
                if exists|j: int| 0 <= j < self.peers@.len() && self.peers@[j].1.addr == a {
                    let j = choose|j: int| 0 <= j < self.peers@.len() && self.peers@[j].1.addr == a;
                    assert(self.spec_peers().contains_key(self.peers@[j].0));
                }
                if exists|k: u64| #[trigger] self.spec_connecting().contains_key(k) && self.spec_connecting()[k].addr == a {
                    let k = choose|k: u64| #[trigger] self.spec_connecting().contains_key(k) && self.spec_connecting()[k].addr == a;
                    let j = choose|j: int| 0 <= j < self.connecting@.len() && (#[trigger] self.connecting@[j]).0 == k;
                    assert(self.connecting@[j].1.addr == a);
                }
                if exists|k: u64| #[trigger] self.spec_peers().contains_key(k) && self.spec_peers()[k].addr == a {
                    let k = choose|k: u64| #[trigger] self.spec_peers().contains_key(k) && self.spec_peers()[k].addr == a;
                    let j = choose|j: int| 0 <= j < self.peers@.len() && (#[trigger] self.peers@[j]).0 == k;
                    assert(self.peers@[j].1.addr == a);
                }
            }
        }
        r
    }

    /// Whether an address is connected or being connected to.
    pub fn is_connected_to(&self, addr: PeerAddr) -> (r: bool)
        ensures
            r == self.spec_in_use(addr),
    {
        let in_use = self.addresses_in_use();
        let mut i: usize = 0;
        while i < in_use.len()
            invariant
                i <= in_use@.len(),
                forall|j: int| 0 <= j < i ==> in_use@[j] != addr,
                forall|a: PeerAddr| #[trigger] in_use@.contains(a) <==> self.spec_in_use(a),
            decreases in_use@.len() - i,
        {
            if in_use[i] == addr {
                assert(in_use@.contains(addr));
                return true;
            }
            i = i + 1;
        }
        assert(!in_use@.contains(addr));
        false
    }
}


impl PeerTable {
    /// The network groups of automatic connections, opened or being opened, each listed at
    /// least once: new automatic connections go elsewhere.
    pub fn groups_in_use(&self) -> (r: Vec<Group>)
        ensures
            forall|g: Group| #[trigger] r@.contains(g) <==> self.spec_group_in_use(g),
    {
        proof {
            use_type_invariant(self);
            lemma_to_map_unique(self.peers@);
            lemma_to_map_unique(self.connecting@);
        }
        let mut r: Vec<Group> = Vec::new();
        let mut i: usize = 0;
        while i < self.connecting.len()
            invariant
                i <= self.connecting@.len(),
                forall|g: Group| #[trigger] r@.contains(g) <==> exists|j: int|
                    0 <= j < i && self.connecting@[j].1.kind == ConnectionKind::Automatic && spec_group_of(
                        self.connecting@[j].1.addr.ip,
                    ) == g,
            decreases self.connecting@.len() - i,
        {
            let c = self.connecting[i].1;
            if c.kind == ConnectionKind::Automatic {
                let ghost before = r@;
                r.push(group_of(c.addr.ip));
                proof {
                    assert forall|g: Group| #[trigger] r@.contains(g) <==> exists|j: int|
                        0 <= j < i + 1 && self.connecting@[j].1.kind == ConnectionKind::Automatic && spec_group_of(
                            self.connecting@[j].1.addr.ip,
                        ) == g by {
                        if r@.contains(g) && g != spec_group_of(c.addr.ip) {
                            let k = choose|k: int| 0 <= k < r@.len() && r@[k] == g;
                            assert(before[k] == g);
                            assert(before.contains(g));
                        }
                        if g == spec_group_of(c.addr.ip) {
                            assert(self.connecting@[i as int].1 == c);
                        }
                        if exists|j: int|
                            0 <= j < i + 1 && self.connecting@[j].1.kind == ConnectionKind::Automatic && spec_group_of(
                                self.connecting@[j].1.addr.ip,
                            ) == g {
                            let j = choose|j: int|
                                0 <= j < i + 1 && self.connecting@[j].1.kind == ConnectionKind::Automatic && spec_group_of(
                                    self.connecting@[j].1.addr.ip,
                                ) == g;
                            if j < i {
                                assert(before.contains(g));
                                let k = choose|k: int| 0 <= k < before.len() && before[k] == g;
                                assert(r@[k] == g);
                            } else {
                                assert(r@[before.len() as int] == g);
                            }
                        }
                    }
                }
            }
            i = i + 1;
        }
        let mut i: usize = 0;
        while i < self.peers.len()
            invariant
                i <= self.peers@.len(),
                forall|g: Group| #[trigger] r@.contains(g) <==> (exists|j: int|
                    0 <= j < self.connecting@.len() && self.connecting@[j].1.kind == ConnectionKind::Automatic
                        && spec_group_of(self.connecting@[j].1.addr.ip) == g) || (exists|j: int|
                    0 <= j < i && self.peers@[j].1.kind == ConnectionKind::Automatic && spec_group_of(
                        self.peers@[j].1.addr.ip,
                    ) == g),
            decreases self.peers@.len() - i,
        {
            let p = self.peers[i].1;
            if p.kind == ConnectionKind::Automatic {
                let ghost before = r@;
                r.push(group_of(p.addr.ip));
                proof {
                    assert forall|g: Group| #[trigger] r@.contains(g) <==> (exists|j: int|
                        0 <= j < self.connecting@.len() && self.connecting@[j].1.kind == ConnectionKind::Automatic
                            && spec_group_of(self.connecting@[j].1.addr.ip) == g) || (exists|j: int|
                        0 <= j < i + 1 && self.peers@[j].1.kind == ConnectionKind::Automatic && spec_group_of(
                            self.peers@[j].1.addr.ip,
                        ) == g) by {
                        if r@.contains(g) && g != spec_group_of(p.addr.ip) {
                            let k = choose|k: int| 0 <= k < r@.len() && r@[k] == g;
                            assert(before[k] == g);
                            assert(before.contains(g));
                        }
                        if g == spec_group_of(p.addr.ip) {
                            assert(self.peers@[i as int].1 == p);
                        }
                        if exists|j: int|
                            0 <= j < i + 1 && self.peers@[j].1.kind == ConnectionKind::Automatic && spec_group_of(
                                self.peers@[j].1.addr.ip,
                            ) == g {
                            let j = choose|j: int|
                                0 <= j < i + 1 && self.peers@[j].1.kind == ConnectionKind::Automatic && spec_group_of(
                                    self.peers@[j].1.addr.ip,
                                ) == g;
                            if j < i {
                                assert(before.contains(g));
                                let k = choose|k: int| 0 <= k < before.len() && before[k] == g;
                                assert(r@[k] == g);
                            } else {
                                assert(r@[before.len() as int] == g);
                            }
                        }
                        if exists|j: int|
                            0 <= j < self.connecting@.len() && self.connecting@[j].1.kind == ConnectionKind::Automatic
                                && spec_group_of(self.connecting@[j].1.addr.ip) == g {
                            assert(before.contains(g));
                            let k = choose|k: int| 0 <= k < before.len() && before[k] == g;
                            assert(r@[k] == g);
                        }
                    }
                }
            } else {
                proof {
                    assert forall|g: Group| #[trigger] r@.contains(g) <==> (exists|j: int|
                        0 <= j < self.connecting@.len() && self.connecting@[j].1.kind == ConnectionKind::Automatic
                            && spec_group_of(self.connecting@[j].1.addr.ip) == g) || (exists|j: int|
                        0 <= j < i + 1 && self.peers@[j].1.kind == ConnectionKind::Automatic && spec_group_of(
                            self.peers@[j].1.addr.ip,
                        ) == g) by {
                        if exists|j: int|
                            0 <= j < i + 1 && self.peers@[j].1.kind == ConnectionKind::Automatic && spec_group_of(
                                self.peers@[j].1.addr.ip,
                            ) == g {
                            let j = choose|j: int|
                                0 <= j < i + 1 && self.peers@[j].1.kind == ConnectionKind::Automatic && spec_group_of(
                                    self.peers@[j].1.addr.ip,
                                ) == g;
                            assert(j < i);
                        }
                    }
                }
            }
            i = i + 1;
        }
        proof {
            assert forall|g: Group| #[trigger] r@.contains(g) <==> self.spec_group_in_use(g) by {
                if exists|j: int|
                    0 <= j < self.connecting@.len() && self.connecting@[j].1.kind == ConnectionKind::Automatic
                        && spec_group_of(self.connecting@[j].1.addr.ip) == g {
                    let j = choose|j: int|
                        0 <= j < self.connecting@.len() && self.connecting@[j].1.kind == ConnectionKind::Automatic
                            && spec_group_of(self.connecting@[j].1.addr.ip) == g;
                    assert(self.spec_connecting().contains_key(self.connecting@[j].0));
                }
                if exists|j: int|
                    0 <= j < self.peers@.len() && self.peers@[j].1.kind == ConnectionKind::Automatic && spec_group_of(
                        self.peers@[j].1.addr.ip,
                    ) == g {
                    let j = choose|j: int|
                        0 <= j < self.peers@.len() && self.peers@[j].1.kind == ConnectionKind::Automatic && spec_group_of(
                            self.peers@[j].1.addr.ip,
                        ) == g;
                    assert(self.spec_peers().contains_key(self.peers@[j].0));
                }
                if exists|k: u64|
                    #[trigger] self.spec_connecting().contains_key(k) && self.spec_connecting()[k].kind
                        == ConnectionKind::Automatic && spec_group_of(self.spec_connecting()[k].addr.ip) == g {
                    let k = choose|k: u64|
                        #[trigger] self.spec_connecting().contains_key(k) && self.spec_connecting()[k].kind
                            == ConnectionKind::Automatic && spec_group_of(self.spec_connecting()[k].addr.ip) == g;
                    let j = choose|j: int| 0 <= j < self.connecting@.len() && (#[trigger] self.connecting@[j]).0 == k;
                    assert(self.connecting@[j].1 == self.spec_connecting()[k]);
                }
                if exists|k: u64|
                    #[trigger] self.spec_peers().contains_key(k) && self.spec_peers()[k].kind == ConnectionKind::Automatic
                        && spec_group_of(self.spec_peers()[k].addr.ip) == g {
                    let k = choose|k: u64|
                        #[trigger] self.spec_peers().contains_key(k) && self.spec_peers()[k].kind
                            == ConnectionKind::Automatic && spec_group_of(self.spec_peers()[k].addr.ip) == g;
                    let j = choose|j: int| 0 <= j < self.peers@.len() && (#[trigger] self.peers@[j]).0 == k;
                    assert(self.peers@[j].1 == self.spec_peers()[k]);
                }
            }
        }
        r
    }

    /// A ping was sent: its nonce and time are recorded and the next one is due after
    /// `interval`.
    pub fn record_ping(&mut self, id: u64, nonce: u64, now: u64, interval: u64)
        ensures
            old(self).spec_peers().contains_key(id) ==> final(self).spec_peers() == old(self).spec_peers().insert(
                id,
                PeerInfo {
                    ping_sent: Some((nonce, now)),
                    next_ping: if now + interval <= u64::MAX { (now + interval) as u64 } else { u64::MAX },
                    ..old(self).spec_peers()[id]
                },
            ),
            !old(self).spec_peers().contains_key(id) ==> final(self).spec_peers() == old(self).spec_peers(),
            final(self).spec_order() == old(self).spec_order(),
            final(self).spec_connecting() == old(self).spec_connecting(),
            final(self).spec_next_id() == old(self).spec_next_id(),
    {
        if let Some(i) = self.find_peer(id) {
            let p = self.peers[i].1;
            self.set_slot(i, PeerInfo { ping_sent: Some((nonce, now)), next_ping: now.saturating_add(interval), ..p });
        }
    }

    /// A pong arrived. If it answers the ping we sent, the round trip is recorded as the
    /// peer's latency and the ping is settled; any other pong is ignored.
    pub fn on_pong(&mut self, id: u64, nonce: u64, now: u64) -> (r: bool)
        ensures
            ({
                let p = old(self).spec_peers()[id];
                &&& r == (old(self).spec_peers().contains_key(id) && p.ping_sent is Some && p.ping_sent->Some_0.0
                    == nonce)
                &&& r ==> final(self).spec_peers() == old(self).spec_peers().insert(
                    id,
                    PeerInfo {
                        latency: Some(
                            if now >= p.ping_sent->Some_0.1 { (now - p.ping_sent->Some_0.1) as u64 } else { 0 },
                        ),
                        ping_sent: None,
                        ..p
                    },
                )
                &&& !r ==> final(self).spec_peers() == old(self).spec_peers()
            }),
            final(self).spec_order() == old(self).spec_order(),
            final(self).spec_connecting() == old(self).spec_connecting(),
            final(self).spec_next_id() == old(self).spec_next_id(),
    {
        if let Some(i) = self.find_peer(id) {
            let p = self.peers[i].1;
            if let Some((sent_nonce, sent_at)) = p.ping_sent {
                if sent_nonce == nonce {
                    self.set_slot(i, PeerInfo { latency: Some(now.saturating_sub(sent_at)), ping_sent: None, ..p });
                    return true;
                }
            }
        }
        false
    }

    /// The peer's version message: the verdict of `judge_version` on it. A refused peer is
    /// marked as on the way out; an accepted one has its version, services and height
    /// recorded and awaits our verack's answer.
    pub fn on_version(&mut self, id: u64, nonce: u64, version: u32, services: u64, start_height: i32) -> (r:
        VersionStep)
        ensures
            !old(self).spec_peers().contains_key(id) ==> r == VersionStep::Unknown && final(self).spec_peers() == old(
                self,
            ).spec_peers(),
            old(self).spec_peers().contains_key(id) ==> {
                let p = old(self).spec_peers()[id];
                let verdict = spec_judge_version(p.kind, p.nonce, nonce, version, services);
                if verdict == VersionVerdict::Accept {
                    &&& r == VersionStep::Accepted
                    &&& final(self).spec_peers() == old(self).spec_peers().insert(
                        id,
                        PeerInfo { version, services, start_height, phase: Phase::AwaitingVerack, ..p },
                    )
                } else {
                    &&& r == (VersionStep::Refused { verdict, addr: p.addr })
                    &&& final(self).spec_peers() == old(self).spec_peers().insert(id, PeerInfo { disconnecting: true, ..p })
                }
            },
            final(self).spec_order() == old(self).spec_order(),
            final(self).spec_connecting() == old(self).spec_connecting(),
            final(self).spec_next_id() == old(self).spec_next_id(),
    {
        let i = match self.find_peer(id) {
            Some(i) => i,
            None => return VersionStep::Unknown,
        };
        let p = self.peers[i].1;
        let verdict = judge_version(p.kind, p.nonce, nonce, version, services);
        match verdict {
            VersionVerdict::Accept => {
                self.set_slot(i, PeerInfo { version, services, start_height, phase: Phase::AwaitingVerack, ..p });
                VersionStep::Accepted
            },
            _ => {
                self.set_slot(i, PeerInfo { disconnecting: true, ..p });
                VersionStep::Refused { verdict, addr: p.addr }
            },
        }
    }

    /// The peer's verack: the handshake is complete. Gives the peer as it now stands.
    pub fn on_verack(&mut self, id: u64) -> (r: Option<PeerInfo>)
        ensures
            old(self).spec_peers().contains_key(id) ==> {
                let p = PeerInfo { phase: Phase::Ready, ..old(self).spec_peers()[id] };
                &&& r == Some(p)
                &&& final(self).spec_peers() == old(self).spec_peers().insert(id, p)
            },
            !old(self).spec_peers().contains_key(id) ==> r is None && final(self).spec_peers() == old(
                self,
            ).spec_peers(),
            final(self).spec_order() == old(self).spec_order(),
            final(self).spec_connecting() == old(self).spec_connecting(),
            final(self).spec_next_id() == old(self).spec_next_id(),
    {
        match self.find_peer(id) {
            Some(i) => {
                let p = PeerInfo { phase: Phase::Ready, ..self.peers[i].1 };
                self.set_slot(i, p);
                Some(p)
            },
            None => None,
        }
    }
}

} // verus!
