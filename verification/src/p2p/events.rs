//! What the connection manager decides when a peer misbehaves, completes its handshake or
//! leaves: the changes to the connection table, the address book, the ban list, the block
//! download and header sync. Whoever runs the event loop sends the messages that follow.

use vstd::prelude::*;

use crate::net::IpAddress;
use crate::p2p::addrman::{attempted, failed, selectable, spec_group_of, spec_retry_ready, succeeded, AddressManager, Group};
use crate::p2p::banman::BanManager;
use crate::p2p::peers::{Closed, Connecting, PeerInfo, PeerTable};
use crate::p2p::protocol::{ConnectionKind, Phase};
use crate::p2p::sync::{by_peer, hashes_of, lacking, BlockDownload, BlockRequest, HeaderSync};
use crate::primitives::BlockHash;
use crate::storage::{AddressRecord, PeerAddr};

verus! {

/// What came of a peer's misbehaviour.
#[derive(Debug, Clone, Copy, PartialEq, Eq, Structural)]
pub enum Misbehaviour {
    /// No such peer.
    Unknown,
    /// The peer has the `noban` permission: it stays.
    Protected(PeerAddr),
    /// The peer's address is discouraged and the peer is on the way out.
    Punished(PeerAddr),
}

/// One strike, as in Bitcoin Core: a misbehaving peer is dropped and its address
/// discouraged, unless it has the `noban` permission.
pub fn misbehaving(table: &mut PeerTable, bans: &mut BanManager, id: u64, now: i64) -> (r: Misbehaviour)
    ensures
        !old(table).spec_peers().contains_key(id) ==> r == Misbehaviour::Unknown && *final(table) == *old(table)
            && *final(bans) == *old(bans),
        old(table).spec_peers().contains_key(id) ==> {
            let p = old(table).spec_peers()[id];
            if p.permissions.spec_bits() & 1 == 1 {
                &&& r == Misbehaviour::Protected(p.addr)
                &&& *final(table) == *old(table)
                &&& *final(bans) == *old(bans)
            } else {
                &&& r == Misbehaviour::Punished(p.addr)
                &&& old(bans).discourages(*final(bans), p.addr.ip, now)
                &&& final(table).spec_peers() == old(table).spec_peers().insert(
                    id,
                    PeerInfo { disconnecting: true, ..p },
                )
                &&& final(table).spec_order() == old(table).spec_order()
                &&& final(table).spec_connecting() == old(table).spec_connecting()
                &&& final(table).spec_next_id() == old(table).spec_next_id()
            }
        },
{
    let p = match table.get(id) {
        Some(p) => p,
        None => return Misbehaviour::Unknown,
    };
    if p.permissions.bits() & 1 == 1 {
        return Misbehaviour::Protected(p.addr);
    }
    bans.discourage(p.addr.ip, now);
    table.disconnect(id);
    Misbehaviour::Punished(p.addr)
}

/// Where a completed handshake leads.
#[derive(Debug, Clone, Copy, PartialEq, Eq, Structural)]
pub enum VerackStep {
    /// No such peer.
    Unknown,
    /// A feeler did its job: the address works. The connection is closed.
    Feeler(PeerAddr),
    /// A peer to keep: ask it for header announcements and addresses; with `start_sync`, it
    /// is now the header sync peer and is asked for headers.
    Ready { addr: PeerAddr, start_sync: bool },
}

/// The peer's verack: the handshake is complete and the address counts as good. A feeler is
/// closed; otherwise the first peer to get here while nobody syncs headers becomes the sync
/// peer.
pub fn verack_step(table: &mut PeerTable, addrman: &mut AddressManager, sync: &mut HeaderSync, id: u64, now: i64) -> (r:
    VerackStep)
    ensures
        !old(table).spec_peers().contains_key(id) ==> {
            &&& r == VerackStep::Unknown
            &&& final(table).spec_peers() == old(table).spec_peers()
            &&& final(table).spec_order() == old(table).spec_order()
            &&& final(table).spec_connecting() == old(table).spec_connecting()
            &&& final(table).spec_next_id() == old(table).spec_next_id()
            &&& *final(addrman) == *old(addrman)
            &&& *final(sync) == *old(sync)
        },
        old(table).spec_peers().contains_key(id) ==> {
            let p = old(table).spec_peers()[id];
            let feeler = p.kind == ConnectionKind::Feeler;
            let start = !feeler && old(sync).synced_height is None && old(sync).sync_peer is None;
            &&& old(addrman).updates(*final(addrman), p.addr, |a: AddressRecord| succeeded(a, p.services, now))
            &&& final(table).spec_peers() == old(table).spec_peers().insert(
                id,
                PeerInfo { phase: Phase::Ready, disconnecting: p.disconnecting || feeler, ..p },
            )
            &&& final(table).spec_order() == old(table).spec_order()
            &&& final(table).spec_connecting() == old(table).spec_connecting()
            &&& final(table).spec_next_id() == old(table).spec_next_id()
            &&& r == if feeler {
                VerackStep::Feeler(p.addr)
            } else {
                VerackStep::Ready { addr: p.addr, start_sync: start }
            }
            &&& *final(sync) == if start {
                HeaderSync { sync_peer: Some(id), ..*old(sync) }
            } else {
                *old(sync)
            }
        },
{
    let p = match table.on_verack(id) {
        Some(p) => p,
        None => return VerackStep::Unknown,
    };
    addrman.mark_good(p.addr, p.services, now);
    if p.kind == ConnectionKind::Feeler {
        table.disconnect(id);
        return VerackStep::Feeler(p.addr);
    }
    let start = sync.synced_height.is_none() && sync.sync_peer.is_none();
    if start {
        sync.start(id);
    }
    VerackStep::Ready { addr: p.addr, start_sync: start }
}

/// What follows a closed connection.
#[derive(Debug, Clone, Copy, PartialEq, Eq, Structural)]
pub struct ClosedStep {
    pub closed: Closed,
    /// The peer headers are synced from now, to be asked for headers.
    pub next_sync: Option<u64>,
}

/// A connection ended. A connection that never opened, or a peer that left before finishing
/// its handshake, counts as a failed attempt for its address. The blocks asked of a peer that
/// left go back to the front of the queue, and it no longer counts as lacking any block. If it
/// was the sync peer, header sync moves to the first ready peer while the first sync runs.
/// The caller then requests blocks and fills the free connection slots.
pub fn peer_closed(
    table: &mut PeerTable,
    addrman: &mut AddressManager,
    download: &mut BlockDownload,
    sync: &mut HeaderSync,
    id: u64,
    now: i64,
) -> (r: ClosedStep)
    ensures
        old(table).closes(*final(table), id, r.closed),
        match r.closed {
            Closed::NeverConnected(addr) => {
                &&& old(addrman).updates(*final(addrman), addr, |a: AddressRecord| failed(a, now))
                &&& *final(download) == *old(download)
                &&& *final(sync) == *old(sync)
                &&& r.next_sync is None
            },
            Closed::Peer { addr, kind, handshake_done } => {
                let ready = final(table).spec_ready();
                let next = if ready.len() > 0 { Some(ready[0]) } else { None::<u64> };
                &&& !handshake_done ==> old(addrman).updates(*final(addrman), addr, |a: AddressRecord| failed(a, now))
                &&& handshake_done ==> *final(addrman) == *old(addrman)
                &&& final(download).spec_in_flight() == old(download).spec_in_flight().filter(
                    |q: BlockRequest| q.peer != id,
                )
                &&& final(download).spec_wanted() == hashes_of(old(download).spec_in_flight().filter(by_peer(id))).reverse()
                    + old(download).spec_wanted()
                &&& forall|h: BlockHash, q: u64|
                    lacking(final(download).spec_not_found(), h).contains(q) <==> lacking(
                        old(download).spec_not_found(),
                        h,
                    ).contains(q) && q != id
                &&& if old(sync).sync_peer == Some(id) {
                    &&& r.next_sync == if old(sync).synced_height is None { next } else { None::<u64> }
                    &&& *final(sync) == (HeaderSync { sync_peer: r.next_sync, requested_at: None, ..*old(sync) })
                } else {
                    &&& r.next_sync is None
                    &&& *final(sync) == *old(sync)
                }
            },
            Closed::Unknown => {
                &&& *final(addrman) == *old(addrman)
                &&& *final(download) == *old(download)
                &&& *final(sync) == *old(sync)
                &&& r.next_sync is None
            },
        },
{
    let closed = table.on_closed(id);
    match closed {
        Closed::NeverConnected(addr) => {
            addrman.mark_failed(addr, now);
            ClosedStep { closed, next_sync: None }
        },
        Closed::Unknown => ClosedStep { closed, next_sync: None },
        Closed::Peer { addr, kind: _, handshake_done } => {
            if !handshake_done {
                addrman.mark_failed(addr, now);
            }
            download.requeue_from(id);
            download.forget_peer(id);
            let mut next_sync = None;
            if sync.drop_peer(id) {
                if sync.synced_height.is_none() {
                    next_sync = table.first_ready();
                    if let Some(next) = next_sync {
                        sync.start(next);
                    }
                }
            }
            ClosedStep { closed, next_sync }
        },
    }
}

/// A connection to open: its id, the address and why.
pub type Opened = (u64, PeerAddr, ConnectionKind);

/// Whether an address is among those opened.
pub open spec fn opens(r: Seq<Opened>, a: PeerAddr) -> bool {
    exists|i: int| 0 <= i < r.len() && (#[trigger] r[i]).1 == a
}

/// The address book after a connection attempt to each address opened: those records are
/// marked as tried now, the rest stay as they were.
pub open spec fn attempted_all(before: AddressManager, after: AddressManager, r: Seq<Opened>, now: i64) -> bool {
    &&& after.spec_records().dom() == before.spec_records().dom()
    &&& forall|a: PeerAddr|
        #[trigger] after.spec_records().contains_key(a) ==> after.spec_records()[a] == if opens(r, a) {
            attempted(before.spec_records()[a], now)
        } else {
            before.spec_records()[a]
        }
    &&& forall|a: PeerAddr|
        #[trigger] after.spec_dirty().contains(a) <==> before.spec_dirty().contains(a) || (opens(r, a)
            && before.spec_records().contains_key(a))
    &&& after.spec_removed() == before.spec_removed()
    &&& after.spec_max_records() == before.spec_max_records()
}

/// The table after registering the connections opened, under fresh ids in order.
pub open spec fn registered(before: PeerTable, after: PeerTable, r: Seq<Opened>) -> bool {
    &&& after.spec_next_id() == before.spec_next_id() + r.len()
    &&& forall|i: int| 0 <= i < r.len() ==> (#[trigger] r[i]).0 == before.spec_next_id() + i
    &&& forall|i: int|
        0 <= i < r.len() ==> after.spec_connecting().contains_key((#[trigger] r[i]).0) && after.spec_connecting()[r[i].0]
            == (Connecting { addr: r[i].1, kind: r[i].2 })
    &&& forall|k: u64|
        #[trigger] after.spec_connecting().contains_key(k) <==> before.spec_connecting().contains_key(k) || (exists|i: int|
            0 <= i < r.len() && r[i].0 == k)
    &&& forall|k: u64| #[trigger] before.spec_connecting().contains_key(k) ==> after.spec_connecting()[k] == before.spec_connecting()[k]
    &&& after.spec_peers() == before.spec_peers()
    &&& after.spec_order() == before.spec_order()
}

/// Keeps the outbound connections up: every manual peer not connected or being connected to
/// is dialled again, then addresses from the book until `max_outbound` automatic connections
/// are open or being opened. Each address picked is in use by no connection, in a network
/// group no automatic connection uses, ready for another attempt and not blocked; its attempt
/// is recorded in the book. Gives the connections to open, in order.
pub fn fill_connections(
    table: &mut PeerTable,
    addrman: &mut AddressManager,
    bans: &BanManager,
    manual: &[PeerAddr],
    max_outbound: usize,
    now: i64,
) -> (r: Vec<Opened>)
    requires
        bans.spec_checkable(now),
    ensures
        registered(*old(table), *final(table), r@),
        attempted_all(*old(addrman), *final(addrman), r@, now),
        forall|i: int|
            0 <= i < r@.len() ==> !old(table).spec_in_use((#[trigger] r@[i]).1) && (r@[i].2 == ConnectionKind::Manual
                || r@[i].2 == ConnectionKind::Automatic),
        forall|i: int, j: int| 0 <= i < j < r@.len() ==> (#[trigger] r@[i]).1 != (#[trigger] r@[j]).1,
        forall|i: int| 0 <= i < r@.len() && (#[trigger] r@[i]).2 == ConnectionKind::Manual ==> manual@.contains(r@[i].1),
        forall|a: PeerAddr|
            manual@.contains(a) && final(table).spec_next_id() < u64::MAX ==> #[trigger] final(table).spec_in_use(a),
        forall|i: int|
            0 <= i < r@.len() && (#[trigger] r@[i]).2 == ConnectionKind::Automatic ==> {
                let a = r@[i].1;
                &&& old(addrman).spec_records().contains_key(a)
                &&& spec_retry_ready(old(addrman).spec_records()[a], now)
                &&& !bans.spec_is_blocked(a.ip, now)
                &&& !old(table).spec_group_in_use(spec_group_of(a.ip))
            },
        final(table).spec_next_id() < u64::MAX && final(table).spec_automatic_count() < max_outbound ==> forall|
            a: PeerAddr,
        |
            #[trigger] final(addrman).spec_records().contains_key(a) && !final(table).spec_in_use(a)
                && !final(table).spec_group_in_use(spec_group_of(a.ip)) && spec_retry_ready(
                final(addrman).spec_records()[a],
                now,
            ) ==> bans.spec_is_blocked(a.ip, now),
{
    let mut r: Vec<Opened> = Vec::new();
    let mut i: usize = 0;
    while i < manual.len()
        invariant
            i <= manual@.len(),
            registered(*old(table), *table, r@),
            attempted_all(*old(addrman), *addrman, r@, now),
            forall|j: int|
                0 <= j < r@.len() ==> !old(table).spec_in_use((#[trigger] r@[j]).1) && r@[j].2 == ConnectionKind::Manual
                    && manual@.contains(r@[j].1),
            forall|j: int, k: int| 0 <= j < k < r@.len() ==> (#[trigger] r@[j]).1 != (#[trigger] r@[k]).1,
            forall|j: int| 0 <= j < r@.len() ==> table.spec_in_use((#[trigger] r@[j]).1),
            forall|j: int| 0 <= j < i && table.spec_next_id() < u64::MAX ==> table.spec_in_use(#[trigger] manual@[j]),
            forall|a: PeerAddr| #[trigger] old(table).spec_in_use(a) ==> table.spec_in_use(a),
        decreases manual@.len() - i,
    {
        let a = manual[i];
        if table.next_id() < u64::MAX && !table.is_connected_to(a) {
            let ghost t0 = *table;
            let ghost m0 = *addrman;
            let id = table.connect_to(a, ConnectionKind::Manual);
            addrman.mark_attempt(a, now);
            let ghost r0 = r@;
            r.push((id, a, ConnectionKind::Manual));
            proof {
                lemma_register(*old(table), t0, *table, r0, id, a, ConnectionKind::Manual);
                lemma_attempt(*old(addrman), m0, *addrman, r0, a, id, ConnectionKind::Manual, now);
                assert(r@[r0.len() as int] == (id, a, ConnectionKind::Manual));
                assert forall|j: int| 0 <= j < r@.len() implies table.spec_in_use((#[trigger] r@[j]).1) by {
                    lemma_in_use_kept(t0, *table, r@[j].1);
                    if j == r0.len() {
                        assert(table.spec_connecting().contains_key(id));
                    }
                }
                assert forall|a2: PeerAddr| #[trigger] old(table).spec_in_use(a2) implies table.spec_in_use(a2) by {
                    lemma_in_use_kept(t0, *table, a2);
                }
                assert forall|j: int| 0 <= j < i + 1 && table.spec_next_id() < u64::MAX implies table.spec_in_use(
                    #[trigger] manual@[j],
                ) by {
                    lemma_in_use_kept(t0, *table, manual@[j]);
                    if j == i {
                        assert(table.spec_connecting().contains_key(id));
                    }
                }
                assert forall|j: int, k: int| 0 <= j < k < r@.len() implies (#[trigger] r@[j]).1 != (#[trigger] r@[k]).1 by {
                    if k == r0.len() {
                        assert(t0.spec_in_use(r0[j].1));
                    }
                }
            }
        }
        i = i + 1;
    }
    let ghost manual_opened = r@.len();
    loop
        invariant_except_break
            bans.spec_checkable(now),
            registered(*old(table), *table, r@),
            attempted_all(*old(addrman), *addrman, r@, now),
            forall|j: int|
                0 <= j < r@.len() ==> !old(table).spec_in_use((#[trigger] r@[j]).1) && (r@[j].2 == ConnectionKind::Manual
                    || r@[j].2 == ConnectionKind::Automatic),
            forall|j: int, k: int| 0 <= j < k < r@.len() ==> (#[trigger] r@[j]).1 != (#[trigger] r@[k]).1,
            forall|j: int| 0 <= j < r@.len() && (#[trigger] r@[j]).2 == ConnectionKind::Manual ==> manual@.contains(r@[j].1),
            forall|j: int| 0 <= j < r@.len() ==> table.spec_in_use((#[trigger] r@[j]).1),
            forall|a: PeerAddr| manual@.contains(a) && table.spec_next_id() < u64::MAX ==> #[trigger] table.spec_in_use(a),
            forall|a: PeerAddr| #[trigger] old(table).spec_in_use(a) ==> table.spec_in_use(a),
            forall|j: int|
                0 <= j < r@.len() && (#[trigger] r@[j]).2 == ConnectionKind::Automatic ==> {
                    let a = r@[j].1;
                    &&& old(addrman).spec_records().contains_key(a)
                    &&& spec_retry_ready(old(addrman).spec_records()[a], now)
                    &&& !bans.spec_is_blocked(a.ip, now)
                    &&& !old(table).spec_group_in_use(spec_group_of(a.ip))
                },
        ensures
            registered(*old(table), *table, r@),
            attempted_all(*old(addrman), *addrman, r@, now),
            forall|j: int|
                0 <= j < r@.len() ==> !old(table).spec_in_use((#[trigger] r@[j]).1) && (r@[j].2 == ConnectionKind::Manual
                    || r@[j].2 == ConnectionKind::Automatic),
            forall|j: int, k: int| 0 <= j < k < r@.len() ==> (#[trigger] r@[j]).1 != (#[trigger] r@[k]).1,
            forall|j: int| 0 <= j < r@.len() && (#[trigger] r@[j]).2 == ConnectionKind::Manual ==> manual@.contains(r@[j].1),
            forall|a: PeerAddr| manual@.contains(a) && table.spec_next_id() < u64::MAX ==> #[trigger] table.spec_in_use(a),
            forall|j: int|
                0 <= j < r@.len() && (#[trigger] r@[j]).2 == ConnectionKind::Automatic ==> {
                    let a = r@[j].1;
                    &&& old(addrman).spec_records().contains_key(a)
                    &&& spec_retry_ready(old(addrman).spec_records()[a], now)
                    &&& !bans.spec_is_blocked(a.ip, now)
                    &&& !old(table).spec_group_in_use(spec_group_of(a.ip))
                },
            table.spec_next_id() < u64::MAX && table.spec_automatic_count() < max_outbound ==> forall|a: PeerAddr|
                #[trigger] addrman.spec_records().contains_key(a) && !table.spec_in_use(a) && !table.spec_group_in_use(
                    spec_group_of(a.ip),
                ) && spec_retry_ready(addrman.spec_records()[a], now) ==> bans.spec_is_blocked(a.ip, now),
        decreases u64::MAX - table.spec_next_id(),
    {
        if table.next_id() == u64::MAX {
            break;
        }
        if table.automatic_count() >= max_outbound {
            break;
        }
        let in_use = table.addresses_in_use();
        let groups = table.groups_in_use();
        let blocked = (|ip: IpAddress| -> (b: bool)
            requires
                bans.spec_checkable(now),
            ensures
                b == bans.spec_is_blocked(ip, now),
            { bans.is_blocked(ip, now) });
        let selected = addrman.select(false, now, in_use.as_slice(), groups.as_slice(), blocked);
        match selected {
            None => {
                proof {
                    assert forall|a: PeerAddr|
                        #[trigger] addrman.spec_records().contains_key(a) && !table.spec_in_use(a)
                            && !table.spec_group_in_use(spec_group_of(a.ip)) && spec_retry_ready(
                            addrman.spec_records()[a],
                            now,
                        ) implies bans.spec_is_blocked(a.ip, now) by {
                        assert(selectable(addrman.spec_records(), a, false, now, in_use@, groups@));
                    }
                }
                break;
            },
            Some(a) => {
                let ghost t0 = *table;
                let ghost m0 = *addrman;
                proof {
                    assert(!t0.spec_in_use(a));
                    assert(!t0.spec_group_in_use(spec_group_of(a.ip)));
                }
                let id = table.connect_to(a, ConnectionKind::Automatic);
                addrman.mark_attempt(a, now);
                let ghost r0 = r@;
                r.push((id, a, ConnectionKind::Automatic));
                proof {
                    lemma_register(*old(table), t0, *table, r0, id, a, ConnectionKind::Automatic);
                    lemma_attempt(*old(addrman), m0, *addrman, r0, a, id, ConnectionKind::Automatic, now);
                    assert(r@[r0.len() as int] == (id, a, ConnectionKind::Automatic));
                    lemma_not_opened_keeps_record(*old(addrman), m0, r0, a, now);
                    assert(!old(table).spec_in_use(a)) by {
                        if old(table).spec_in_use(a) {
                            assert(t0.spec_in_use(a));
                        }
                    }
                    assert(!old(table).spec_group_in_use(spec_group_of(a.ip))) by {
                        if old(table).spec_group_in_use(spec_group_of(a.ip)) {
                            lemma_groups_kept(*old(table), t0, r0, spec_group_of(a.ip));
                        }
                    }
                    assert forall|j: int| 0 <= j < r@.len() implies table.spec_in_use((#[trigger] r@[j]).1) by {
                        lemma_in_use_kept(t0, *table, r@[j].1);
                        if j == r0.len() {
                            assert(table.spec_connecting().contains_key(id));
                        }
                    }
                    assert forall|a2: PeerAddr| manual@.contains(a2) && table.spec_next_id() < u64::MAX implies #[trigger] table.spec_in_use(a2) by {
                        lemma_in_use_kept(t0, *table, a2);
                    }
                    assert forall|a2: PeerAddr| #[trigger] old(table).spec_in_use(a2) implies table.spec_in_use(a2) by {
                        lemma_in_use_kept(t0, *table, a2);
                    }
                    assert forall|j: int, k: int| 0 <= j < k < r@.len() implies (#[trigger] r@[j]).1 != (#[trigger] r@[k]).1 by {
                        if k == r0.len() {
                            assert(t0.spec_in_use(r0[j].1));
                        }
                    }
                }
            },
        }
    }
    r
}

/// Registering one more connection keeps `registered`.
proof fn lemma_register(
    start: PeerTable,
    before: PeerTable,
    after: PeerTable,
    r: Seq<Opened>,
    id: u64,
    a: PeerAddr,
    kind: ConnectionKind,
)
    requires
        registered(start, before, r),
        id == before.spec_next_id(),
        after.spec_next_id() == id + 1,
        !before.spec_connecting().contains_key(id),
        after.spec_connecting() == before.spec_connecting().insert(id, Connecting { addr: a, kind }),
        after.spec_peers() == before.spec_peers(),
        after.spec_order() == before.spec_order(),
    ensures
        registered(start, after, r.push((id, a, kind))),
{
    let r2 = r.push((id, a, kind));
    assert forall|i: int| 0 <= i < r2.len() implies (#[trigger] r2[i]).0 == start.spec_next_id() + i by {
        if i < r.len() {
            assert(r2[i] == r[i]);
        }
    }
    assert forall|i: int|
        0 <= i < r2.len() implies after.spec_connecting().contains_key((#[trigger] r2[i]).0) && after.spec_connecting()[r2[i].0]
            == (Connecting { addr: r2[i].1, kind: r2[i].2 }) by {
        if i < r.len() {
            assert(r2[i] == r[i]);
            assert(r[i].0 != id);
        }
    }
    assert forall|k: u64|
        #[trigger] after.spec_connecting().contains_key(k) <==> start.spec_connecting().contains_key(k) || (exists|i: int|
            0 <= i < r2.len() && r2[i].0 == k) by {
        assert(after.spec_connecting().contains_key(k) <==> before.spec_connecting().contains_key(k) || k == id);
        assert(before.spec_connecting().contains_key(k) <==> start.spec_connecting().contains_key(k) || exists|i: int|
            0 <= i < r.len() && r[i].0 == k);
        if k == id {
            assert(r2[r.len() as int].0 == k);
        }
        if exists|i: int| 0 <= i < r.len() && r[i].0 == k {
            let i = choose|i: int| 0 <= i < r.len() && r[i].0 == k;
            assert(r2[i] == r[i]);
        }
        if exists|i: int| 0 <= i < r2.len() && r2[i].0 == k {
            let i = choose|i: int| 0 <= i < r2.len() && r2[i].0 == k;
            if i < r.len() {
                assert(r2[i] == r[i]);
            } else {
                assert(k == id);
            }
        }
    }
    assert forall|k: u64| #[trigger] start.spec_connecting().contains_key(k) implies after.spec_connecting()[k]
        == start.spec_connecting()[k] by {
        assert(before.spec_connecting().contains_key(k));
    }
}

/// Recording one more attempt keeps `attempted_all`.
proof fn lemma_attempt(
    start: AddressManager,
    before: AddressManager,
    after: AddressManager,
    r: Seq<Opened>,
    a: PeerAddr,
    id: u64,
    kind: ConnectionKind,
    now: i64,
)
    requires
        attempted_all(start, before, r, now),
        !opens(r, a),
        before.updates(after, a, |x: AddressRecord| attempted(x, now)),
    ensures
        attempted_all(start, after, r.push((id, a, kind)), now),
{
    let r2 = r.push((id, a, kind));
    assert(opens(r2, a)) by {
        assert(r2[r.len() as int].1 == a);
    }
    assert forall|b: PeerAddr| opens(r2, b) <==> opens(r, b) || b == a by {
        if opens(r2, b) {
            let i = choose|i: int| 0 <= i < r2.len() && (#[trigger] r2[i]).1 == b;
            if i < r.len() {
                assert(r2[i] == r[i]);
            }
        }
        if opens(r, b) {
            let i = choose|i: int| 0 <= i < r.len() && (#[trigger] r[i]).1 == b;
            assert(r2[i] == r[i]);
        }
    }
    if start.spec_records().contains_key(a) {
        assert(before.spec_records()[a] == start.spec_records()[a]);
    }
    assert(after.spec_records().dom() =~= start.spec_records().dom());
}

/// An address not opened yet has its record as it was.
proof fn lemma_not_opened_keeps_record(start: AddressManager, now_book: AddressManager, r: Seq<Opened>, a: PeerAddr, now: i64)
    requires
        attempted_all(start, now_book, r, now),
        !opens(r, a),
        now_book.spec_records().contains_key(a),
    ensures
        start.spec_records().contains_key(a),
        start.spec_records()[a] == now_book.spec_records()[a],
{
}

/// Opening a connection keeps every address in use.
proof fn lemma_in_use_kept(before: PeerTable, after: PeerTable, a: PeerAddr)
    requires
        forall|k: u64| #[trigger] before.spec_connecting().contains_key(k) ==> after.spec_connecting().contains_key(k)
            && after.spec_connecting()[k] == before.spec_connecting()[k],
        after.spec_peers() == before.spec_peers(),
    ensures
        before.spec_in_use(a) ==> after.spec_in_use(a),
{
    if exists|k: u64| #[trigger] before.spec_connecting().contains_key(k) && before.spec_connecting()[k].addr == a {
        let k = choose|k: u64| #[trigger] before.spec_connecting().contains_key(k) && before.spec_connecting()[k].addr == a;
        assert(after.spec_connecting().contains_key(k));
    }
}

/// A group used by an automatic connection before the new ones is still used after.
proof fn lemma_groups_kept(start: PeerTable, now_table: PeerTable, r: Seq<Opened>, g: Group)
    requires
        registered(start, now_table, r),
        start.spec_group_in_use(g),
    ensures
        now_table.spec_group_in_use(g),
{
    if exists|k: u64|
        #[trigger] start.spec_connecting().contains_key(k) && start.spec_connecting()[k].kind == ConnectionKind::Automatic
            && spec_group_of(start.spec_connecting()[k].addr.ip) == g {
        let k = choose|k: u64|
            #[trigger] start.spec_connecting().contains_key(k) && start.spec_connecting()[k].kind
                == ConnectionKind::Automatic && spec_group_of(start.spec_connecting()[k].addr.ip) == g;
        assert(now_table.spec_connecting().contains_key(k));
    }
}

/// Whether a feeler is due: feelers run only when outbound connections do, at most once per
/// interval, with times in milliseconds of one monotonic clock.
pub open spec fn feeler_due(max_outbound: usize, last_feeler: u64, interval: u64, now_ms: u64) -> bool {
    max_outbound != 0 && (if now_ms >= last_feeler { now_ms - last_feeler } else { 0 }) >= interval
}

/// What the feeler timer decided.
#[derive(Debug, Clone, Copy, PartialEq, Eq)]
pub struct FeelerStep {
    /// The interval has passed: the feeler clock restarts now.
    pub due: bool,
    /// The feeler connection to open.
    pub opened: Option<Opened>,
}

/// Opens a feeler, Bitcoin Core's short connection that tests whether an untried address
/// works. Feelers ignore network groups: they test addresses, not sync.
pub fn open_feeler(
    table: &mut PeerTable,
    addrman: &mut AddressManager,
    bans: &BanManager,
    max_outbound: usize,
    last_feeler: u64,
    interval: u64,
    now_ms: u64,
    now: i64,
) -> (r: FeelerStep)
    requires
        bans.spec_checkable(now),
    ensures
        r.due == feeler_due(max_outbound, last_feeler, interval, now_ms),
        match r.opened {
            Some(o) => {
                let a = o.1;
                &&& r.due
                &&& o.2 == ConnectionKind::Feeler
                &&& registered(*old(table), *final(table), seq![o])
                &&& attempted_all(*old(addrman), *final(addrman), seq![o], now)
                &&& old(addrman).spec_records().contains_key(a)
                &&& !old(addrman).spec_records()[a].tried
                &&& spec_retry_ready(old(addrman).spec_records()[a], now)
                &&& !old(table).spec_in_use(a)
                &&& !bans.spec_is_blocked(a.ip, now)
            },
            None => {
                &&& *final(table) == *old(table)
                &&& *final(addrman) == *old(addrman)
                &&& r.due && old(table).spec_next_id() < u64::MAX ==> forall|a: PeerAddr|
                    #[trigger] old(addrman).spec_records().contains_key(a) && !old(addrman).spec_records()[a].tried
                        && !old(table).spec_in_use(a) && spec_retry_ready(old(addrman).spec_records()[a], now)
                        ==> bans.spec_is_blocked(a.ip, now)
            },
        },
{
    let elapsed = now_ms.saturating_sub(last_feeler);
    if max_outbound == 0 || elapsed < interval {
        return FeelerStep { due: false, opened: None };
    }
    if table.next_id() == u64::MAX {
        return FeelerStep { due: true, opened: None };
    }
    let in_use = table.addresses_in_use();
    let no_groups: Vec<Group> = Vec::new();
    let blocked = (|ip: IpAddress| -> (b: bool)
        requires
            bans.spec_checkable(now),
        ensures
            b == bans.spec_is_blocked(ip, now),
        { bans.is_blocked(ip, now) });
    match addrman.select(true, now, in_use.as_slice(), no_groups.as_slice(), blocked) {
        None => {
            proof {
                assert forall|a: PeerAddr|
                    #[trigger] old(addrman).spec_records().contains_key(a) && !old(addrman).spec_records()[a].tried
                        && !old(table).spec_in_use(a) && spec_retry_ready(old(addrman).spec_records()[a], now)
                        implies bans.spec_is_blocked(a.ip, now) by {
                    assert(selectable(addrman.spec_records(), a, true, now, in_use@, no_groups@));
                }
            }
            FeelerStep { due: true, opened: None }
        },
        Some(a) => {
            let ghost t0 = *table;
            let ghost m0 = *addrman;
            let id = table.connect_to(a, ConnectionKind::Feeler);
            addrman.mark_attempt(a, now);
            let o = (id, a, ConnectionKind::Feeler);
            proof {
                assert(registered(t0, t0, Seq::<Opened>::empty()));
                lemma_register(t0, t0, *table, Seq::<Opened>::empty(), id, a, ConnectionKind::Feeler);
                assert(Seq::<Opened>::empty().push(o) =~= seq![o]);
                assert(attempted_all(m0, m0, Seq::<Opened>::empty(), now));
                lemma_attempt(m0, m0, *addrman, Seq::<Opened>::empty(), a, id, ConnectionKind::Feeler, now);
            }
            FeelerStep { due: true, opened: Some(o) }
        },
    }
}

} // verus!
