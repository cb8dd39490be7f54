//! Header sync and block download decisions.
//!
//! Headers are synced from one peer at a time with repeated `getheaders`. Once that finishes,
//! blocks on the best chain that are not stored yet are fetched, at most a few at a time from
//! each peer, from the least busy peers first. The connection manager carries out what these
//! decide: it sends the requests and stores what arrives.

use vstd::prelude::*;

use crate::header_chain::{best_ok, linked, HeaderChain, HeaderError};
use crate::primitives::{spec_block_hash, Header};
use crate::pairs::{lemma_to_map_push, lemma_to_map_remove, lemma_to_map_unique, lemma_to_map_update, to_map, unique_keys};
use crate::primitives::BlockHash;
use crate::storage::{BlockStatus, HeaderEntry};
use crate::transaction::{spec_block_bytes, Block, BlockView};
use crate::validation::{check_block, ValidationError};

verus! {

/// Bitcoin Core `MAX_HEADERS_RESULTS`. A full reply means more headers may follow.
pub const MAX_HEADERS_RESULTS: usize = 2000;

/// Bitcoin Core `MAX_BLOCKS_IN_TRANSIT_PER_PEER`.
pub const MAX_BLOCKS_IN_FLIGHT_PER_PEER: usize = 16;

/// A block asked of a peer, and when, in milliseconds of the manager's monotonic clock.
#[derive(Debug, Clone, Copy, PartialEq, Eq, Structural)]
pub struct BlockRequest {
    pub hash: BlockHash,
    pub peer: u64,
    pub since: u64,
}

/// The requests made of one peer.
pub open spec fn by_peer(peer: u64) -> spec_fn(BlockRequest) -> bool {
    |r: BlockRequest| r.peer == peer
}

/// How many blocks a peer has been asked for and not yet delivered.
pub open spec fn peer_load(in_flight: Seq<BlockRequest>, peer: u64) -> nat {
    in_flight.filter(by_peer(peer)).len()
}

/// Whether some request is for this block.
pub open spec fn requested(in_flight: Seq<BlockRequest>, hash: BlockHash) -> bool {
    exists|i: int| 0 <= i < in_flight.len() && (#[trigger] in_flight[i]).hash == hash
}

/// A peer that can be asked for a block: ready, not known to lack it, and not already
/// asked for as many blocks as a peer may be.
pub open spec fn eligible(in_flight: Seq<BlockRequest>, ready: Seq<u64>, excluded: Seq<u64>, peer: u64) -> bool {
    &&& ready.contains(peer)
    &&& !excluded.contains(peer)
    &&& peer_load(in_flight, peer) < MAX_BLOCKS_IN_FLIGHT_PER_PEER
}

/// `p` is less busy than `q`, or as busy with a lower identifier.
pub open spec fn less_busy(in_flight: Seq<BlockRequest>, p: u64, q: u64) -> bool {
    peer_load(in_flight, p) < peer_load(in_flight, q) || (peer_load(in_flight, p) == peer_load(in_flight, q) && p < q)
}

/// The eligible peer that no other eligible peer is less busy than.
pub open spec fn least_busy(in_flight: Seq<BlockRequest>, ready: Seq<u64>, excluded: Seq<u64>, peer: u64) -> bool {
    &&& eligible(in_flight, ready, excluded, peer)
    &&& forall|q: u64| #[trigger] eligible(in_flight, ready, excluded, q) ==> !less_busy(in_flight, q, peer)
}

/// At most one peer is the least busy.
pub proof fn lemma_least_busy_unique(
    in_flight: Seq<BlockRequest>,
    ready: Seq<u64>,
    excluded: Seq<u64>,
    p: u64,
    q: u64,
)
    requires
        least_busy(in_flight, ready, excluded, p),
        least_busy(in_flight, ready, excluded, q),
    ensures
        p == q,
{
    assert(!less_busy(in_flight, q, p));
    assert(!less_busy(in_flight, p, q));
}

/// Whether the block's body is stored.
pub open spec fn stored(headers: HeaderChain, hash: BlockHash) -> bool {
    headers.knows(hash) && headers.entry(hash).status.spec_contains(BlockStatus(2))
}

/// The peers known to lack a block.
pub open spec fn lacking(not_found: Map<BlockHash, Vec<u64>>, hash: BlockHash) -> Seq<u64> {
    if not_found.contains_key(hash) {
        not_found[hash]@
    } else {
        Seq::empty()
    }
}

/// Working through the queue front to back: a block already stored or already requested
/// leaves the queue; one that some peer can be asked for goes to the least busy such peer;
/// the rest wait, in order. Gives the requests after, and what still waits.
pub open spec fn schedule(
    queue: Seq<BlockHash>,
    in_flight: Seq<BlockRequest>,
    waiting: Seq<BlockHash>,
    ready: Seq<u64>,
    not_found: Map<BlockHash, Vec<u64>>,
    headers: HeaderChain,
    now: u64,
) -> (Seq<BlockRequest>, Seq<BlockHash>)
    decreases queue.len(),
{
    if queue.len() == 0 {
        (in_flight, waiting)
    } else {
        let hash = queue[0];
        let rest = queue.drop_first();
        let excluded = lacking(not_found, hash);
        if stored(headers, hash) || requested(in_flight, hash) {
            schedule(rest, in_flight, waiting, ready, not_found, headers, now)
        } else if exists|p: u64| #[trigger] eligible(in_flight, ready, excluded, p) {
            let p = choose|p: u64| least_busy(in_flight, ready, excluded, p);
            schedule(rest, in_flight.push(BlockRequest { hash, peer: p, since: now }), waiting, ready, not_found, headers, now)
        } else {
            schedule(rest, in_flight, waiting.push(hash), ready, not_found, headers, now)
        }
    }
}

/// One more request adds one to its peer's load and nothing to the others'.
proof fn lemma_load_push(in_flight: Seq<BlockRequest>, r: BlockRequest, q: u64)
    ensures
        peer_load(in_flight.push(r), q) == peer_load(in_flight, q) + if r.peer == q { 1nat } else { 0nat },
{
    reveal(Seq::filter);
    assert(in_flight.push(r).drop_last() =~= in_flight);
}

/// Scheduling never asks a peer for more blocks than `MAX_BLOCKS_IN_FLIGHT_PER_PEER`: if no
/// peer was over the limit before, none is after.
pub proof fn lemma_schedule_respects_limit(
    queue: Seq<BlockHash>,
    in_flight: Seq<BlockRequest>,
    waiting: Seq<BlockHash>,
    ready: Seq<u64>,
    not_found: Map<BlockHash, Vec<u64>>,
    headers: HeaderChain,
    now: u64,
)
    requires
        forall|p: u64| #[trigger] peer_load(in_flight, p) <= MAX_BLOCKS_IN_FLIGHT_PER_PEER,
    ensures
        forall|p: u64|
            #[trigger] peer_load(schedule(queue, in_flight, waiting, ready, not_found, headers, now).0, p)
                <= MAX_BLOCKS_IN_FLIGHT_PER_PEER,
    decreases queue.len(),
{
    if queue.len() > 0 {
        let hash = queue[0];
        let rest = queue.drop_first();
        let excluded = lacking(not_found, hash);
        if stored(headers, hash) || requested(in_flight, hash) {
            lemma_schedule_respects_limit(rest, in_flight, waiting, ready, not_found, headers, now);
            assert(schedule(queue, in_flight, waiting, ready, not_found, headers, now) == schedule(
                rest,
                in_flight,
                waiting,
                ready,
                not_found,
                headers,
                now,
            ));
        } else if exists|p: u64| #[trigger] eligible(in_flight, ready, excluded, p) {
            let q0 = choose|q: u64| #[trigger] eligible(in_flight, ready, excluded, q);
            lemma_least_busy_exists(in_flight, ready, excluded, q0);
            let p = choose|p: u64| least_busy(in_flight, ready, excluded, p);
            assert(least_busy(in_flight, ready, excluded, p));
            assert(eligible(in_flight, ready, excluded, p));
            let next = in_flight.push(BlockRequest { hash, peer: p, since: now });
            assert forall|x: u64| #[trigger] peer_load(next, x) <= MAX_BLOCKS_IN_FLIGHT_PER_PEER by {
                lemma_load_push(in_flight, BlockRequest { hash, peer: p, since: now }, x);
                assert(peer_load(in_flight, x) <= MAX_BLOCKS_IN_FLIGHT_PER_PEER);
            }
            lemma_schedule_respects_limit(rest, next, waiting, ready, not_found, headers, now);
            assert(schedule(queue, in_flight, waiting, ready, not_found, headers, now) == schedule(
                rest,
                next,
                waiting,
                ready,
                not_found,
                headers,
                now,
            ));
        } else {
            lemma_schedule_respects_limit(rest, in_flight, waiting.push(hash), ready, not_found, headers, now);
            assert(schedule(queue, in_flight, waiting, ready, not_found, headers, now) == schedule(
                rest,
                in_flight,
                waiting.push(hash),
                ready,
                not_found,
                headers,
                now,
            ));
        }
    }
}

/// When some peer is eligible to be asked for a block, one of them is the least busy: the
/// choice `schedule` makes always exists.
pub proof fn lemma_least_busy_exists(in_flight: Seq<BlockRequest>, ready: Seq<u64>, excluded: Seq<u64>, q: u64)
    requires
        eligible(in_flight, ready, excluded, q),
    ensures
        exists|p: u64| least_busy(in_flight, ready, excluded, p),
{
    let k = choose|k: int| 0 <= k < ready.len() && ready[k] == q;
    let m = min_over(in_flight, ready, excluded, ready.len() as int, k);
    lemma_min_over(in_flight, ready, excluded, ready.len() as int, k, 0);
    assert(least_busy(in_flight, ready, excluded, m)) by {
        assert forall|x: u64| #[trigger] eligible(in_flight, ready, excluded, x) implies !less_busy(in_flight, x, m) by {
            let j = choose|j: int| 0 <= j < ready.len() && ready[j] == x;
            lemma_min_over(in_flight, ready, excluded, ready.len() as int, k, j);
        }
    }
}

/// The least busy eligible peer among the first `n` of `ready`, starting from the one at `k`.
spec fn min_over(in_flight: Seq<BlockRequest>, ready: Seq<u64>, excluded: Seq<u64>, n: int, k: int) -> u64
    decreases n,
{
    if n <= 0 {
        ready[k]
    } else {
        let m = min_over(in_flight, ready, excluded, n - 1, k);
        let c = ready[n - 1];
        if eligible(in_flight, ready, excluded, c) && less_busy(in_flight, c, m) {
            c
        } else {
            m
        }
    }
}

proof fn lemma_min_over(in_flight: Seq<BlockRequest>, ready: Seq<u64>, excluded: Seq<u64>, n: int, k: int, j: int)
    requires
        0 <= k < ready.len(),
        0 <= n <= ready.len(),
        eligible(in_flight, ready, excluded, ready[k]),
    ensures
        eligible(in_flight, ready, excluded, min_over(in_flight, ready, excluded, n, k)),
        0 <= j < n && eligible(in_flight, ready, excluded, ready[j]) ==> !less_busy(
            in_flight,
            ready[j],
            min_over(in_flight, ready, excluded, n, k),
        ),
    decreases n,
{
    if n > 0 {
        lemma_min_over(in_flight, ready, excluded, n - 1, k, j);
    }
}

pub struct BlockDownload {
    /// Blocks to fetch, in order.
    wanted: Vec<BlockHash>,
    /// Blocks asked for and not yet delivered, each once.
    in_flight: Vec<BlockRequest>,
    /// Peers that answered `notfound` for a block, by block.
    not_found: Vec<(BlockHash, Vec<u64>)>,
}

impl BlockDownload {
    #[verifier::type_invariant]
    spec fn consistent(self) -> bool {
        &&& forall|i: int, j: int|
            0 <= i < j < self.in_flight@.len() ==> (#[trigger] self.in_flight@[i]).hash != (#[trigger] self.in_flight@[j]).hash
        &&& unique_keys(self.not_found@)
    }

    pub closed spec fn spec_wanted(self) -> Seq<BlockHash> {
        self.wanted@
    }

    pub closed spec fn spec_in_flight(self) -> Seq<BlockRequest> {
        self.in_flight@
    }

    pub closed spec fn spec_not_found(self) -> Map<BlockHash, Vec<u64>> {
        to_map(self.not_found@)
    }

    pub fn new() -> (r: BlockDownload)
        ensures
            r.spec_wanted().len() == 0,
            r.spec_in_flight().len() == 0,
            r.spec_not_found() == Map::<BlockHash, Vec<u64>>::empty(),
    {
        let r = BlockDownload { wanted: Vec::new(), in_flight: Vec::new(), not_found: Vec::new() };
        proof {
            assert(to_map(r.not_found@) =~= Map::<BlockHash, Vec<u64>>::empty());
        }
        r
    }

    /// How many blocks a peer has been asked for and not yet delivered.
    pub fn load_of(&self, peer: u64) -> (r: usize)
        ensures
            r == peer_load(self.spec_in_flight(), peer),
    {
        load_in(&self.in_flight, peer)
    }

    /// The least busy ready peer that can be asked for one more block, skipping `excluded`;
    /// between peers equally busy, the lower identifier.
    pub fn pick_peer(&self, ready: &[u64], excluded: &[u64]) -> (r: Option<u64>)
        ensures
            match r {
                Some(p) => least_busy(self.spec_in_flight(), ready@, excluded@, p),
                None => forall|q: u64| !#[trigger] eligible(self.spec_in_flight(), ready@, excluded@, q),
            },
    {
        pick_peer_in(&self.in_flight, ready, excluded)
    }
}

fn load_in(in_flight: &Vec<BlockRequest>, peer: u64) -> (r: usize)
    ensures
        r == peer_load(in_flight@, peer),
{
    let ghost s = in_flight@;
    let mut count: usize = 0;
    let mut i: usize = 0;
    while i < in_flight.len()
        invariant
            s == in_flight@,
            i <= s.len(),
            count == s.take(i as int).filter(by_peer(peer)).len(),
            count <= i,
        decreases s.len() - i,
    {
        proof {
            reveal(Seq::filter);
            assert(s.take(i + 1).drop_last() =~= s.take(i as int));
            assert(s.take(i + 1).last() == s[i as int]);
        }
        if in_flight[i].peer == peer {
            count = count + 1;
        }
        i = i + 1;
    }
    proof {
        assert(s.take(s.len() as int) =~= s);
    }
    count
}

fn pick_peer_in(in_flight: &Vec<BlockRequest>, ready: &[u64], excluded: &[u64]) -> (r: Option<u64>)
    ensures
        match r {
            Some(p) => least_busy(in_flight@, ready@, excluded@, p),
            None => forall|q: u64| !#[trigger] eligible(in_flight@, ready@, excluded@, q),
        },
{
    let ghost f = in_flight@;
    let mut best: Option<(u64, usize)> = None;
    let mut i: usize = 0;
    while i < ready.len()
        invariant
            f == in_flight@,
            i <= ready@.len(),
            match best {
                Some((p, load)) => {
                    &&& eligible(f, ready@, excluded@, p)
                    &&& load == peer_load(f, p)
                    &&& forall|j: int|
                        0 <= j < i && eligible(f, ready@, excluded@, #[trigger] ready@[j]) ==> !less_busy(f, ready@[j], p)
                },
                None => forall|j: int| 0 <= j < i ==> !eligible(f, ready@, excluded@, #[trigger] ready@[j]),
            },
        decreases ready@.len() - i,
    {
        let p = ready[i];
        proof {
            assert(ready@.contains(ready@[i as int]));
        }
        if !contains_u64(excluded, p) {
            let load = load_in(in_flight, p);
            if load < MAX_BLOCKS_IN_FLIGHT_PER_PEER {
                match best {
                    None => {
                        best = Some((p, load));
                    },
                    Some((b, best_load)) => {
                        if load < best_load || (load == best_load && p < b) {
                            best = Some((p, load));
                        }
                    },
                }
            }
        }
        i = i + 1;
    }
    match best {
        Some((p, _)) => {
            proof {
                assert forall|q: u64| #[trigger] eligible(f, ready@, excluded@, q) implies !less_busy(f, q, p) by {
                    let j = choose|j: int| 0 <= j < ready@.len() && ready@[j] == q;
                }
            }
            Some(p)
        },
        None => {
            proof {
                assert forall|q: u64| !#[trigger] eligible(f, ready@, excluded@, q) by {
                    if eligible(f, ready@, excluded@, q) {
                        let j = choose|j: int| 0 <= j < ready@.len() && ready@[j] == q;
                    }
                }
            }
            None
        },
    }
}

/// Whether the block's body is stored, by its header's status.
fn is_stored(headers: &HeaderChain, hash: &BlockHash) -> (r: bool)
    ensures
        r == stored(*headers, *hash),
{
    match headers.get(hash) {
        Some(e) => e.status.contains(BlockStatus::have_data()),
        None => false,
    }
}

fn is_requested(in_flight: &Vec<BlockRequest>, hash: &BlockHash) -> (r: bool)
    ensures
        r == requested(in_flight@, *hash),
{
    let mut i: usize = 0;
    while i < in_flight.len()
        invariant
            i <= in_flight@.len(),
            forall|j: int| 0 <= j < i ==> (#[trigger] in_flight@[j]).hash != *hash,
        decreases in_flight@.len() - i,
    {
        if in_flight[i].hash == *hash {
            return true;
        }
        i = i + 1;
    }
    false
}

/// Where a block's entry sits among the not-found records, if it has one.
fn find_key(not_found: &Vec<(BlockHash, Vec<u64>)>, hash: &BlockHash) -> (r: Option<usize>)
    ensures
        match r {
            Some(k) => k < not_found@.len() && not_found@[k as int].0 == *hash,
            None => forall|k: int| 0 <= k < not_found@.len() ==> (#[trigger] not_found@[k]).0 != *hash,
        },
{
    let mut i: usize = 0;
    while i < not_found.len()
        invariant
            i <= not_found@.len(),
            forall|k: int| 0 <= k < i ==> (#[trigger] not_found@[k]).0 != *hash,
        decreases not_found@.len() - i,
    {
        if not_found[i].0 == *hash {
            return Some(i);
        }
        i = i + 1;
    }
    None
}

/// No block is asked for twice.
pub open spec fn distinct_requests(s: Seq<BlockRequest>) -> bool {
    forall|i: int, j: int| 0 <= i < j < s.len() ==> (#[trigger] s[i]).hash != (#[trigger] s[j]).hash
}

impl BlockDownload {
    /// Sends what can be sent of the queue: a block already stored or already requested
    /// leaves the queue; one that some peer can be asked for is requested from the least busy
    /// such peer; the rest keep waiting, in order. Gives the requests made, to be sent as
    /// `getdata` for the witness block.
    pub fn request_blocks(&mut self, ready: &[u64], headers: &HeaderChain, now: u64) -> (r: Vec<BlockRequest>)
        ensures
            ({
                let (f, w) = schedule(
                    old(self).spec_wanted(),
                    old(self).spec_in_flight(),
                    Seq::empty(),
                    ready@,
                    old(self).spec_not_found(),
                    *headers,
                    now,
                );
                &&& final(self).spec_in_flight() == f
                &&& final(self).spec_wanted() == w
                &&& r@ == f.subrange(old(self).spec_in_flight().len() as int, f.len() as int)
            }),
            final(self).spec_not_found() == old(self).spec_not_found(),
            (forall|p: u64| #[trigger] peer_load(old(self).spec_in_flight(), p) <= MAX_BLOCKS_IN_FLIGHT_PER_PEER)
                ==> forall|p: u64| #[trigger] peer_load(final(self).spec_in_flight(), p) <= MAX_BLOCKS_IN_FLIGHT_PER_PEER,
    {
        proof {
            use_type_invariant(&*self);
        }
        let mut queue = Vec::new();
        std::mem::swap(&mut queue, &mut self.wanted);
        let mut in_flight = Vec::new();
        std::mem::swap(&mut in_flight, &mut self.in_flight);
        let ghost f0 = in_flight@;
        let ghost q = queue@;
        let ghost nf = to_map(self.not_found@);
        proof {
            lemma_to_map_unique(self.not_found@);
            assert(q.skip(0) =~= q);
        }
        let mut waiting: Vec<BlockHash> = Vec::new();
        let mut sent: Vec<BlockRequest> = Vec::new();
        let mut i: usize = 0;
        while i < queue.len()
            invariant
                q == queue@,
                i <= q.len(),
                unique_keys(self.not_found@),
                nf == to_map(self.not_found@),
                forall|k: int| 0 <= k < self.not_found@.len() ==> #[trigger] nf.contains_key(self.not_found@[k].0)
                    && nf[self.not_found@[k].0] == self.not_found@[k].1,
                distinct_requests(in_flight@),
                in_flight@ == f0 + sent@,
                schedule(q, f0, Seq::empty(), ready@, nf, *headers, now) == schedule(
                    q.skip(i as int),
                    in_flight@,
                    waiting@,
                    ready@,
                    nf,
                    *headers,
                    now,
                ),
            decreases q.len() - i,
        {
            let hash = queue[i];
            proof {
                assert(q.skip(i as int).drop_first() =~= q.skip(i + 1));
                assert(q.skip(i as int)[0] == hash);
            }
            if is_stored(headers, &hash) || is_requested(&in_flight, &hash) {
            } else {
                let ghost excl = lacking(nf, hash);
                let choice = match find_key(&self.not_found, &hash) {
                    Some(k) => {
                        proof {
                            assert(excl == self.not_found@[k as int].1@);
                        }
                        pick_peer_in(&in_flight, ready, self.not_found[k].1.as_slice())
                    },
                    None => {
                        proof {
                            lemma_to_map_unique(self.not_found@);
                            if nf.contains_key(hash) {
                                let k = choose|k: int| 0 <= k < self.not_found@.len() && (#[trigger] self.not_found@[k]).0 == hash;
                            }
                        }
                        let none: Vec<u64> = Vec::new();
                        proof {
                            assert(excl =~= none@);
                        }
                        pick_peer_in(&in_flight, ready, none.as_slice())
                    },
                };
                match choice {
                    Some(p) => {
                        proof {
                            let c = choose|x: u64| least_busy(in_flight@, ready@, excl, x);
                            lemma_least_busy_unique(in_flight@, ready@, excl, c, p);
                        }
                        let request = BlockRequest { hash, peer: p, since: now };
                        let ghost before = in_flight@;
                        in_flight.push(request);
                        sent.push(request);
                        proof {
                            assert(in_flight@ =~= f0 + sent@);
                            assert forall|a: int, b: int| 0 <= a < b < in_flight@.len() implies (#[trigger] in_flight@[a]).hash
                                != (#[trigger] in_flight@[b]).hash by {
                                if b == before.len() {
                                    assert(in_flight@[a] == before[a]);
                                } else {
                                    assert(in_flight@[a] == before[a] && in_flight@[b] == before[b]);
                                }
                            }
                        }
                    },
                    None => {
                        waiting.push(hash);
                    },
                }
            }
            i = i + 1;
        }
        proof {
            assert(q.skip(q.len() as int) =~= Seq::<BlockHash>::empty());
            assert(sent@ =~= in_flight@.subrange(f0.len() as int, in_flight@.len() as int));
            assert(q == old(self).spec_wanted());
            assert(nf == old(self).spec_not_found());
            assert(f0 == old(self).spec_in_flight());
            assert(in_flight@ == schedule(q, f0, Seq::empty(), ready@, nf, *headers, now).0);
            if forall|p: u64| #[trigger] peer_load(f0, p) <= MAX_BLOCKS_IN_FLIGHT_PER_PEER {
                lemma_schedule_respects_limit(q, f0, Seq::empty(), ready@, nf, *headers, now);
                assert(forall|p: u64| #[trigger] peer_load(in_flight@, p) <= MAX_BLOCKS_IN_FLIGHT_PER_PEER);
            }
        }
        self.in_flight = in_flight;
        self.wanted = waiting;
        sent
    }
}

/// A request older than `limit` at `now`.
pub open spec fn is_stale(r: BlockRequest, now: u64, limit: u64) -> bool {
    now > r.since && now - r.since > limit
}

/// The hashes of some requests, in order.
pub open spec fn hashes_of(s: Seq<BlockRequest>) -> Seq<BlockHash> {
    s.map_values(|r: BlockRequest| r.hash)
}

/// The best-chain blocks from `height` down that the download still lacks, lowest first: the
/// walk from the tip stops at the first block at or below `floor` or already stored, and skips
/// blocks already requested or queued.
pub open spec fn missing_below(
    headers: HeaderChain,
    height: int,
    floor: u32,
    in_flight: Seq<BlockRequest>,
    wanted: Seq<BlockHash>,
) -> Seq<BlockHash>
    decreases height,
{
    if height <= floor || height < 0 || height >= headers.spec_best().len() {
        Seq::empty()
    } else {
        let h = headers.spec_best()[height];
        if stored(headers, h) {
            Seq::empty()
        } else {
            let rest = missing_below(headers, height - 1, floor, in_flight, wanted);
            if requested(in_flight, h) || wanted.contains(h) {
                rest
            } else {
                rest.push(h)
            }
        }
    }
}

impl BlockDownload {
    /// Whether a block is asked for.
    pub fn is_in_flight(&self, hash: &BlockHash) -> (r: bool)
        ensures
            r == requested(self.spec_in_flight(), *hash),
    {
        is_requested(&self.in_flight, hash)
    }

    /// Whether a block waits to be asked for.
    pub fn is_wanted(&self, hash: &BlockHash) -> (r: bool)
        ensures
            r == self.spec_wanted().contains(*hash),
    {
        let mut i: usize = 0;
        while i < self.wanted.len()
            invariant
                i <= self.wanted@.len(),
                forall|j: int| 0 <= j < i ==> self.wanted@[j] != *hash,
            decreases self.wanted@.len() - i,
        {
            if self.wanted[i] == *hash {
                assert(self.wanted@[i as int] == *hash);
                return true;
            }
            i = i + 1;
        }
        false
    }

    /// Puts a block at the front of the queue, to be asked for first.
    pub fn push_front(&mut self, hash: BlockHash)
        ensures
            final(self).spec_wanted() == seq![hash] + old(self).spec_wanted(),
            final(self).spec_in_flight() == old(self).spec_in_flight(),
            final(self).spec_not_found() == old(self).spec_not_found(),
    {
        proof {
            use_type_invariant(&*self);
        }
        let mut wanted = Vec::new();
        std::mem::swap(&mut wanted, &mut self.wanted);
        wanted.insert(0, hash);
        proof {
            assert(wanted@ =~= seq![hash] + old(self).spec_wanted());
        }
        self.wanted = wanted;
    }

    /// Ends the request for a block, if there is one, and gives it back.
    pub fn finish_request(&mut self, hash: &BlockHash) -> (r: Option<BlockRequest>)
        ensures
            match r {
                Some(q) => q.hash == *hash && exists|i: int|
                    0 <= i < old(self).spec_in_flight().len() && old(self).spec_in_flight()[i] == q
                        && final(self).spec_in_flight() == old(self).spec_in_flight().remove(i),
                None => !requested(old(self).spec_in_flight(), *hash) && final(self).spec_in_flight() == old(
                    self,
                ).spec_in_flight(),
            },
            final(self).spec_wanted() == old(self).spec_wanted(),
            final(self).spec_not_found() == old(self).spec_not_found(),
    {
        proof {
            use_type_invariant(&*self);
        }
        let mut i: usize = 0;
        while i < self.in_flight.len()
            invariant
                i <= self.in_flight@.len(),
                *self == *old(self),
                distinct_requests(self.in_flight@),
                unique_keys(self.not_found@),
                forall|j: int| 0 <= j < i ==> (#[trigger] self.in_flight@[j]).hash != *hash,
            decreases self.in_flight@.len() - i,
        {
            if self.in_flight[i].hash == *hash {
                let mut in_flight = Vec::new();
                std::mem::swap(&mut in_flight, &mut self.in_flight);
                let ghost before = in_flight@;
                let q = in_flight.remove(i);
                proof {
                    assert forall|a: int, b: int| 0 <= a < b < in_flight@.len() implies (#[trigger] in_flight@[a]).hash
                        != (#[trigger] in_flight@[b]).hash by {
                        let a2 = if a < i { a } else { a + 1 };
                        let b2 = if b < i { b } else { b + 1 };
                        assert(in_flight@[a] == before[a2] && in_flight@[b] == before[b2]);
                    }
                }
                proof {
                    assert(before == old(self).spec_in_flight());
                    assert(before[i as int] == q);
                    assert(in_flight@ == before.remove(i as int));
                }
                self.in_flight = in_flight;
                return Some(q);
            }
            i = i + 1;
        }
        None
    }

    /// A block arrived from a peer: if it was asked of that peer, the request ends and the
    /// answer is true; any other block is unrequested and changes nothing.
    pub fn block_arrived(&mut self, peer: u64, hash: &BlockHash) -> (r: bool)
        ensures
            r == exists|i: int|
                0 <= i < old(self).spec_in_flight().len() && (#[trigger] old(self).spec_in_flight()[i]).hash == *hash
                    && old(self).spec_in_flight()[i].peer == peer,
            r ==> exists|i: int|
                0 <= i < old(self).spec_in_flight().len() && old(self).spec_in_flight()[i].hash == *hash
                    && final(self).spec_in_flight() == old(self).spec_in_flight().remove(i),
            !r ==> final(self).spec_in_flight() == old(self).spec_in_flight(),
            final(self).spec_wanted() == old(self).spec_wanted(),
            final(self).spec_not_found() == old(self).spec_not_found(),
    {
        proof {
            use_type_invariant(&*self);
        }
        let mut i: usize = 0;
        while i < self.in_flight.len()
            invariant
                i <= self.in_flight@.len(),
                *self == *old(self),
                distinct_requests(self.in_flight@),
                forall|j: int| 0 <= j < i ==> (#[trigger] self.in_flight@[j]).hash != *hash,
            decreases self.in_flight@.len() - i,
        {
            if self.in_flight[i].hash == *hash {
                if self.in_flight[i].peer != peer {
                    proof {
                        assert forall|j: int| 0 <= j < self.in_flight@.len() && (#[trigger] self.in_flight@[j]).hash == *hash
                            implies self.in_flight@[j].peer != peer by {
                            if j != i {
                                assert(self.in_flight@[j].hash != self.in_flight@[i as int].hash);
                            }
                        }
                    }
                    return false;
                }
                let _ = self.finish_request(hash);
                return true;
            }
            i = i + 1;
        }
        false
    }

    /// The peers with a request older than `limit` at `now`, each once.
    pub fn stalled_peers(&self, now: u64, limit: u64) -> (r: Vec<u64>)
        ensures
            r@.no_duplicates(),
            forall|p: u64| r@.contains(p) <==> exists|i: int|
                0 <= i < self.spec_in_flight().len() && (#[trigger] self.spec_in_flight()[i]).peer == p && is_stale(
                    self.spec_in_flight()[i],
                    now,
                    limit,
                ),
    {
        let ghost f = self.in_flight@;
        let mut r: Vec<u64> = Vec::new();
        let mut i: usize = 0;
        while i < self.in_flight.len()
            invariant
                f == self.in_flight@,
                i <= f.len(),
                r@.no_duplicates(),
                forall|p: u64| r@.contains(p) <==> exists|j: int|
                    0 <= j < i && (#[trigger] f[j]).peer == p && is_stale(f[j], now, limit),
            decreases f.len() - i,
        {
            let q = self.in_flight[i];
            if now > q.since && now - q.since > limit && !contains_u64(r.as_slice(), q.peer) {
                let ghost before = r@;
                r.push(q.peer);
                proof {
                    assert forall|a: int, b: int| 0 <= a < r@.len() && 0 <= b < r@.len() && a != b implies r@[a] != r@[b] by {
                        if a < before.len() && b < before.len() {
                        } else if a < before.len() {
                            assert(before.contains(before[a]));
                        } else {
                            assert(before.contains(before[b]));
                        }
                    }
                    assert forall|p: u64| r@.contains(p) <==> exists|j: int|
                        0 <= j < i + 1 && (#[trigger] f[j]).peer == p && is_stale(f[j], now, limit) by {
                        if r@.contains(p) && p != q.peer {
                            let k = choose|k: int| 0 <= k < r@.len() && r@[k] == p;
                            assert(before[k] == p);
                        }
                        if before.contains(p) {
                            let k = choose|k: int| 0 <= k < before.len() && before[k] == p;
                            assert(r@[k] == p);
                        }
                        if p == q.peer {
                            assert(r@[before.len() as int] == p);
                            assert(f[i as int].peer == p);
                        }
                    }
                }
            } else {
                proof {
                    assert forall|p: u64| r@.contains(p) <==> exists|j: int|
                        0 <= j < i + 1 && (#[trigger] f[j]).peer == p && is_stale(f[j], now, limit) by {
                        if exists|j: int| 0 <= j < i + 1 && (#[trigger] f[j]).peer == p && is_stale(f[j], now, limit) {
                            let j = choose|j: int| 0 <= j < i + 1 && (#[trigger] f[j]).peer == p && is_stale(f[j], now, limit);
                            if j == i {
                                assert(r@.contains(q.peer));
                            }
                        }
                    }
                }
            }
            i = i + 1;
        }
        proof {
            assert forall|p: u64| r@.contains(p) <==> exists|j: int|
                0 <= j < self.spec_in_flight().len() && (#[trigger] self.spec_in_flight()[j]).peer == p && is_stale(
                    self.spec_in_flight()[j],
                    now,
                    limit,
                ) by {
                if r@.contains(p) {
                    let j = choose|j: int| 0 <= j < f.len() && (#[trigger] f[j]).peer == p && is_stale(f[j], now, limit);
                    assert(self.spec_in_flight()[j] == f[j]);
                }
            }
        }
        r
    }

    /// Ends every request made of a peer, putting the blocks back at the front of the queue,
    /// the last request first.
    pub fn requeue_from(&mut self, peer: u64)
        ensures
            final(self).spec_in_flight() == old(self).spec_in_flight().filter(|r: BlockRequest| r.peer != peer),
            final(self).spec_wanted() == hashes_of(old(self).spec_in_flight().filter(by_peer(peer))).reverse()
                + old(self).spec_wanted(),
            final(self).spec_not_found() == old(self).spec_not_found(),
    {
        proof {
            use_type_invariant(&*self);
        }
        let ghost f = self.in_flight@;
        let mut kept: Vec<BlockRequest> = Vec::new();
        let mut back: Vec<BlockHash> = Vec::new();
        let ghost mut src: Seq<int> = Seq::empty();
        let mut i: usize = 0;
        while i < self.in_flight.len()
            invariant
                f == self.in_flight@,
                distinct_requests(f),
                i <= f.len(),
                kept@ == f.take(i as int).filter(|r: BlockRequest| r.peer != peer),
                back@ == hashes_of(f.take(i as int).filter(by_peer(peer))),
                src.len() == kept@.len(),
                forall|a: int| 0 <= a < src.len() ==> 0 <= #[trigger] src[a] < i && kept@[a] == f[src[a]],
                forall|a: int, b: int| 0 <= a < b < src.len() ==> #[trigger] src[a] < #[trigger] src[b],
                distinct_requests(kept@),
            decreases f.len() - i,
        {
            let q = self.in_flight[i];
            proof {
                reveal(Seq::filter);
                assert(f.take(i + 1).drop_last() =~= f.take(i as int));
                assert(f.take(i + 1).last() == q);
            }
            if q.peer != peer {
                let ghost before = kept@;
                kept.push(q);
                proof {
                    src = src.push(i as int);
                    assert forall|a: int, b: int| 0 <= a < b < kept@.len() implies (#[trigger] kept@[a]).hash
                        != (#[trigger] kept@[b]).hash by {
                        if b == before.len() {
                            assert(kept@[a] == f[src[a]]);
                            assert(src[a] < i);
                        } else {
                            assert(kept@[a] == before[a] && kept@[b] == before[b]);
                        }
                    }
                }
            } else {
                let ghost before = back@;
                back.push(q.hash);
                proof {
                    let t = f.take(i as int).filter(by_peer(peer));
                    assert(hashes_of(t.push(q)) =~= hashes_of(t).push(q.hash));
                }
            }
            i = i + 1;
        }
        proof {
            assert(f.take(f.len() as int) =~= f);
            reveal(Seq::filter);
            f.lemma_filter_len(|r: BlockRequest| r.peer != peer);
        }
        let mut wanted: Vec<BlockHash> = Vec::new();
        let mut k: usize = back.len();
        while k > 0
            invariant
                k <= back@.len(),
                wanted@ == back@.subrange(k as int, back@.len() as int).reverse(),
            decreases k,
        {
            k = k - 1;
            wanted.push(back[k]);
            proof {
                assert(wanted@ =~= back@.subrange(k as int, back@.len() as int).reverse());
            }
        }
        let mut j: usize = 0;
        let ghost front = wanted@;
        while j < self.wanted.len()
            invariant
                j <= self.wanted@.len(),
                self.wanted@ == old(self).spec_wanted(),
                wanted@ == front + self.wanted@.take(j as int),
            decreases self.wanted@.len() - j,
        {
            wanted.push(self.wanted[j]);
            proof {
                assert(self.wanted@.take(j + 1) =~= self.wanted@.take(j as int).push(self.wanted@[j as int]));
                assert(wanted@ =~= front + self.wanted@.take(j + 1));
            }
            j = j + 1;
        }
        proof {
            assert(back@.subrange(0, back@.len() as int) =~= back@);
            assert(self.wanted@.take(self.wanted@.len() as int) =~= self.wanted@);
        }
        self.in_flight = kept;
        self.wanted = wanted;
    }

    /// Adds blocks at the back of the queue, in order.
    pub fn queue(&mut self, hashes: &[BlockHash])
        ensures
            final(self).spec_wanted() == old(self).spec_wanted() + hashes@,
            final(self).spec_in_flight() == old(self).spec_in_flight(),
            final(self).spec_not_found() == old(self).spec_not_found(),
    {
        proof {
            use_type_invariant(&*self);
        }
        let mut wanted = Vec::new();
        std::mem::swap(&mut wanted, &mut self.wanted);
        let ghost start = wanted@;
        let mut i: usize = 0;
        while i < hashes.len()
            invariant
                i <= hashes@.len(),
                wanted@ == start + hashes@.take(i as int),
            decreases hashes@.len() - i,
        {
            wanted.push(hashes[i]);
            proof {
                assert(hashes@.take(i + 1) =~= hashes@.take(i as int).push(hashes@[i as int]));
                assert(wanted@ =~= start + hashes@.take(i + 1));
            }
            i = i + 1;
        }
        proof {
            assert(hashes@.take(hashes@.len() as int) =~= hashes@);
        }
        self.wanted = wanted;
    }

    /// Queues the best-chain blocks above `floor` that are not stored yet, lowest first.
    ///
    /// Walking back from the tip also covers reorgs: blocks of the new branch that arrived
    /// earlier, while that branch was not the best chain, get queued too.
    pub fn queue_missing_blocks(&mut self, headers: &HeaderChain, floor: u32)
        requires
            headers.wf(),
        ensures
            final(self).spec_wanted() == old(self).spec_wanted() + missing_below(
                *headers,
                headers.spec_best().len() - 1,
                floor,
                old(self).spec_in_flight(),
                old(self).spec_wanted(),
            ),
            final(self).spec_in_flight() == old(self).spec_in_flight(),
            final(self).spec_not_found() == old(self).spec_not_found(),
    {
        proof {
            headers.lemma_wf();
        }
        let ghost best = headers.spec_best();
        let ghost m = headers.spec_entries();
        let ghost f = self.spec_in_flight();
        let ghost w = self.spec_wanted();
        let ghost top = best.len() - 1;
        let tip = headers.tip();
        let mut entry: HeaderEntry = *tip;
        let ghost mut height: int = top;
        let mut missing: Vec<BlockHash> = Vec::new();
        loop
            invariant
                best == headers.spec_best(),
                m == headers.spec_entries(),
                f == self.spec_in_flight(),
                w == self.spec_wanted(),
                best_ok(m, best),
                linked(m),
                top == best.len() - 1,
                0 <= height < best.len(),
                entry == headers.entry(best[height]),
                spec_block_hash(entry.header) == best[height],
                entry.height == height,
                missing_below(*headers, top, floor, f, w) == missing_below(*headers, height, floor, f, w)
                    + missing@.reverse(),
            ensures
                missing_below(*headers, top, floor, f, w) == missing@.reverse(),
            decreases height,
        {
            if entry.height <= floor || entry.status.contains(BlockStatus::have_data()) {
                proof {
                    assert(missing_below(*headers, height, floor, f, w) =~= Seq::<BlockHash>::empty());
                    assert(missing@.reverse() =~= Seq::<BlockHash>::empty() + missing@.reverse());
                }
                break;
            }
            let hash = entry.block_hash();
            let ghost before = missing@;
            if !self.is_in_flight(&hash) && !self.is_wanted(&hash) {
                missing.push(hash);
                proof {
                    assert(missing@.reverse() =~= seq![hash] + before.reverse());
                }
            }
            proof {
                assert(height >= 1);
                assert(m[best[height].spec_key()].header.prev_blockhash == best[height - 1]);
                assert(m.contains_key(best[height - 1].spec_key()));
                let rest = missing_below(*headers, height - 1, floor, f, w);
                if requested(f, hash) || w.contains(hash) {
                    assert(missing_below(*headers, height, floor, f, w) == rest);
                } else {
                    assert(missing_below(*headers, height, floor, f, w) == rest.push(hash));
                    assert(rest.push(hash) + before.reverse() =~= rest + missing@.reverse());
                }
            }
            match headers.get(&entry.header.prev_blockhash) {
                Some(parent) => {
                    proof {
                        crate::primitives::lemma_key_injective(spec_block_hash(parent.header), best[height - 1]);
                        assert(linked(m));
                        assert(m.contains_key(best[height - 1].spec_key()));
                        assert(spec_block_hash(m[best[height - 1].spec_key()].header).spec_key() == best[height - 1].spec_key());
                    }
                    entry = *parent;
                    proof {
                        height = height - 1;
                    }
                },
                None => {
                    proof {
                        assert(false);
                    }
                    break;
                },
            }
        }
        let mut back: Vec<BlockHash> = Vec::new();
        let mut k: usize = missing.len();
        while k > 0
            invariant
                k <= missing@.len(),
                back@ == missing@.subrange(k as int, missing@.len() as int).reverse(),
            decreases k,
        {
            k = k - 1;
            back.push(missing[k]);
            proof {
                assert(back@ =~= missing@.subrange(k as int, missing@.len() as int).reverse());
            }
        }
        proof {
            assert(missing@.subrange(0, missing@.len() as int) =~= missing@);
        }
        self.queue(back.as_slice());
    }
}

/// Whether a peer has been asked for a block.
pub open spec fn asked_of(in_flight: Seq<BlockRequest>, peer: u64, hash: BlockHash) -> bool {
    exists|i: int| 0 <= i < in_flight.len() && (#[trigger] in_flight[i]).hash == hash && in_flight[i].peer == peer
}

/// The blocks of a `notfound` answer that were asked of that peer, each once, in the order of
/// the answer.
pub open spec fn returned(in_flight: Seq<BlockRequest>, peer: u64, hashes: Seq<BlockHash>) -> Seq<BlockHash>
    decreases hashes.len(),
{
    if hashes.len() == 0 {
        Seq::empty()
    } else {
        let prior = returned(in_flight, peer, hashes.drop_last());
        let h = hashes.last();
        if asked_of(in_flight, peer, h) && !prior.contains(h) {
            prior.push(h)
        } else {
            prior
        }
    }
}

impl BlockDownload {
    /// Notes that a peer lacks a block: its request, if it was asked of this peer, ends; the
    /// block goes back to the front of the queue, and the peer is not asked for it again.
    fn note_not_found(&mut self, peer: u64, hash: BlockHash) -> (r: bool)
        ensures
            r == asked_of(old(self).spec_in_flight(), peer, hash),
            final(self).spec_in_flight() == old(self).spec_in_flight().filter(
                |q: BlockRequest| !(q.peer == peer && q.hash == hash),
            ),
            final(self).spec_wanted() == if r {
                seq![hash] + old(self).spec_wanted()
            } else {
                old(self).spec_wanted()
            },
            forall|h: BlockHash, q: u64|
                lacking(final(self).spec_not_found(), h).contains(q) <==> lacking(old(self).spec_not_found(), h).contains(q)
                    || (r && q == peer && h == hash),
    {
        proof {
            use_type_invariant(&*self);
        }
        let ghost f = self.in_flight@;
        let mut i: usize = 0;
        while i < self.in_flight.len()
            invariant
                i <= self.in_flight@.len(),
                *self == *old(self),
                f == self.in_flight@,
                distinct_requests(f),
                forall|j: int| 0 <= j < i ==> (#[trigger] f[j]).hash != hash,
            decreases self.in_flight@.len() - i,
        {
            if self.in_flight[i].hash == hash {
                if self.in_flight[i].peer != peer {
                    proof {
                        assert forall|j: int| 0 <= j < f.len() && (#[trigger] f[j]).hash == hash implies f[j].peer != peer by {
                            if j != i {
                                assert(f[j].hash != f[i as int].hash);
                            }
                        }
                        assert(f.filter(|q: BlockRequest| !(q.peer == peer && q.hash == hash)) =~= f) by {
                            lemma_filter_keeps_all(f, |q: BlockRequest| !(q.peer == peer && q.hash == hash));
                        }
                    }
                    return false;
                }
                let _ = self.finish_request(&hash);
                self.push_front(hash);
                self.add_lacking(hash, peer);
                proof {
                    assert(self.spec_in_flight() =~= f.filter(|q: BlockRequest| !(q.peer == peer && q.hash == hash))) by {
                        lemma_filter_drops_one(f, i as int, |q: BlockRequest| !(q.peer == peer && q.hash == hash));
                    }
                }
                return true;
            }
            i = i + 1;
        }
        proof {
            assert(f.filter(|q: BlockRequest| !(q.peer == peer && q.hash == hash)) =~= f) by {
                lemma_filter_keeps_all(f, |q: BlockRequest| !(q.peer == peer && q.hash == hash));
            }
        }
        false
    }

    /// Records that a peer lacks a block.
    fn add_lacking(&mut self, hash: BlockHash, peer: u64)
        ensures
            forall|h: BlockHash, q: u64|
                lacking(final(self).spec_not_found(), h).contains(q) <==> lacking(old(self).spec_not_found(), h).contains(q)
                    || (q == peer && h == hash),
            final(self).spec_in_flight() == old(self).spec_in_flight(),
            final(self).spec_wanted() == old(self).spec_wanted(),
    {
        proof {
            use_type_invariant(&*self);
            lemma_to_map_unique(self.not_found@);
        }
        let mut not_found = Vec::new();
        std::mem::swap(&mut not_found, &mut self.not_found);
        let ghost before = not_found@;
        let ghost m = to_map(before);
        match find_key(&not_found, &hash) {
            Some(k) => {
                let mut peers = not_found[k].1.clone();
                proof {
                    assert(peers@ =~= before[k as int].1@);
                }
                let ghost old_peers = peers@;
                if !contains_u64(peers.as_slice(), peer) {
                    peers.push(peer);
                }
                proof {
                    assert forall|q: u64| peers@.contains(q) <==> old_peers.contains(q) || q == peer by {
                        if peers@.contains(q) && q != peer && peers@.len() > old_peers.len() {
                            let j = choose|j: int| 0 <= j < peers@.len() && peers@[j] == q;
                            assert(j < old_peers.len());
                            assert(old_peers[j] == q);
                        }
                        if old_peers.contains(q) {
                            let j = choose|j: int| 0 <= j < old_peers.len() && old_peers[j] == q;
                            assert(peers@[j] == q);
                        }
                        if q == peer && peers@.len() > old_peers.len() {
                            assert(peers@[old_peers.len() as int] == q);
                        }
                    }
                    lemma_to_map_update(before, k as int, peers);
                    assert(before.update(k as int, (hash, peers)) == before.update(k as int, (before[k as int].0, peers)));
                }
                not_found.set(k, (hash, peers));
                proof {
                    let m2 = to_map(not_found@);
                    assert(m2 == m.insert(hash, peers));
                    assert(m.contains_key(hash) && m[hash] == before[k as int].1);
                }
            },
            None => {
                let mut peers: Vec<u64> = Vec::new();
                peers.push(peer);
                proof {
                    if m.contains_key(hash) {
                        let j = choose|j: int| 0 <= j < before.len() && (#[trigger] before[j]).0 == hash;
                    }
                    lemma_to_map_push(before, hash, peers);
                    assert forall|q: u64| peers@.contains(q) <==> q == peer by {
                        if peers@.contains(q) {
                            let j = choose|j: int| 0 <= j < peers@.len() && peers@[j] == q;
                        }
                        if q == peer {
                            assert(peers@[0] == q);
                        }
                    }
                }
                not_found.push((hash, peers));
            },
        }
        self.not_found = not_found;
    }

    /// A peer answered `notfound`: each listed block that was asked of it goes back to the front
    /// of the queue, the last listed first, and that peer is not asked for it again.
    pub fn on_not_found(&mut self, peer: u64, hashes: &[BlockHash])
        ensures
            final(self).spec_in_flight() == old(self).spec_in_flight().filter(
                |q: BlockRequest| !(q.peer == peer && hashes@.contains(q.hash)),
            ),
            final(self).spec_wanted() == returned(old(self).spec_in_flight(), peer, hashes@).reverse() + old(
                self,
            ).spec_wanted(),
            forall|h: BlockHash, q: u64|
                lacking(final(self).spec_not_found(), h).contains(q) <==> lacking(old(self).spec_not_found(), h).contains(q)
                    || (q == peer && returned(old(self).spec_in_flight(), peer, hashes@).contains(h)),
    {
        let ghost f0 = self.spec_in_flight();
        let ghost w0 = self.spec_wanted();
        let ghost n0 = self.spec_not_found();
        let mut i: usize = 0;
        proof {
            assert(hashes@.take(0) =~= Seq::<BlockHash>::empty());
            assert(f0.filter(|q: BlockRequest| !(q.peer == peer && hashes@.take(0).contains(q.hash))) =~= f0) by {
                lemma_filter_keeps_all(f0, |q: BlockRequest| !(q.peer == peer && hashes@.take(0).contains(q.hash)));
            }
        }
        while i < hashes.len()
            invariant
                i <= hashes@.len(),
                f0 == old(self).spec_in_flight(),
                w0 == old(self).spec_wanted(),
                n0 == old(self).spec_not_found(),
                self.spec_in_flight() == f0.filter(|q: BlockRequest| !(q.peer == peer && hashes@.take(i as int).contains(q.hash))),
                self.spec_wanted() == returned(f0, peer, hashes@.take(i as int)).reverse() + w0,
                forall|h: BlockHash, q: u64|
                    lacking(self.spec_not_found(), h).contains(q) <==> lacking(n0, h).contains(q) || (q == peer
                        && returned(f0, peer, hashes@.take(i as int)).contains(h)),
            decreases hashes@.len() - i,
        {
            let h = hashes[i];
            let ghost f_before = self.spec_in_flight();
            let ghost prior = returned(f0, peer, hashes@.take(i as int));
            let ghost n_mid = self.spec_not_found();
            assert(forall|hh: BlockHash, q: u64|
                lacking(n_mid, hh).contains(q) <==> lacking(n0, hh).contains(q) || (q == peer && prior.contains(hh)));
            let found = self.note_not_found(peer, h);
            proof {
                let t = hashes@.take(i + 1);
                assert(t.drop_last() =~= hashes@.take(i as int));
                assert(t.last() == h);
                // Asked of the peer now exactly when asked before and not yet returned.
                assert(asked_of(f_before, peer, h) == (asked_of(f0, peer, h) && !prior.contains(h))) by {
                    lemma_asked_after_returns(f0, peer, hashes@.take(i as int), h);
                }
                lemma_filter_twice(f0, peer, hashes@.take(i as int), h);
                assert(t =~= hashes@.take(i as int).push(h));
                if found {
                    assert(returned(f0, peer, t) == prior.push(h));
                    assert(prior.push(h).reverse() + w0 =~= seq![h] + (prior.reverse() + w0));
                } else {
                    assert(returned(f0, peer, t) == prior);
                }
                assert forall|hh: BlockHash| returned(f0, peer, t).contains(hh) <==> prior.contains(hh) || (found && hh == h) by {
                    broadcast use vstd::seq_lib::group_seq_properties;
                }
                assert forall|hh: BlockHash, q: u64|
                    lacking(self.spec_not_found(), hh).contains(q) <==> lacking(n0, hh).contains(q) || (q == peer
                        && returned(f0, peer, t).contains(hh)) by {
                    assert(lacking(self.spec_not_found(), hh).contains(q) <==> lacking(n_mid, hh).contains(q) || (found
                        && q == peer && hh == h));
                    assert(lacking(n_mid, hh).contains(q) <==> lacking(n0, hh).contains(q) || (q == peer && prior.contains(hh)));
                    assert(returned(f0, peer, t).contains(hh) <==> prior.contains(hh) || (found && hh == h));
                }
            }
            i = i + 1;
        }
        proof {
            let all = hashes@.take(hashes@.len() as int);
            assert(all =~= hashes@);
            assert forall|h: BlockHash, q: u64|
                lacking(self.spec_not_found(), h).contains(q) <==> lacking(old(self).spec_not_found(), h).contains(q)
                    || (q == peer && returned(old(self).spec_in_flight(), peer, hashes@).contains(h)) by {
                assert(lacking(self.spec_not_found(), h).contains(q) <==> lacking(n0, h).contains(q) || (q == peer
                    && returned(f0, peer, all).contains(h)));
            }
        }
    }
}

/// A filter that keeps every element keeps the sequence.
pub proof fn lemma_filter_keeps_all<A>(s: Seq<A>, f: spec_fn(A) -> bool)
    requires
        forall|i: int| 0 <= i < s.len() ==> f(#[trigger] s[i]),
    ensures
        s.filter(f) == s,
    decreases s.len(),
{
    reveal(Seq::filter);
    if s.len() > 0 {
        assert forall|i: int| 0 <= i < s.drop_last().len() implies f(#[trigger] s.drop_last()[i]) by {
            assert(s.drop_last()[i] == s[i]);
        }
        lemma_filter_keeps_all(s.drop_last(), f);
        assert(f(s[s.len() - 1]));
        assert(s.drop_last().push(s.last()) =~= s);
    }
}

/// A filter that drops exactly the element at `k` removes it.
pub proof fn lemma_filter_drops_one<A>(s: Seq<A>, k: int, f: spec_fn(A) -> bool)
    requires
        0 <= k < s.len(),
        !f(s[k]),
        forall|i: int| 0 <= i < s.len() && i != k ==> f(#[trigger] s[i]),
    ensures
        s.filter(f) == s.remove(k),
    decreases s.len(),
{
    reveal(Seq::filter);
    let p = s.drop_last();
    if k == s.len() - 1 {
        assert forall|i: int| 0 <= i < p.len() implies f(#[trigger] p[i]) by {
            assert(p[i] == s[i]);
        }
        lemma_filter_keeps_all(p, f);
        assert(s.remove(k) =~= p);
    } else {
        assert forall|i: int| 0 <= i < p.len() && i != k implies f(#[trigger] p[i]) by {
            assert(p[i] == s[i]);
        }
        assert(p[k] == s[k]);
        lemma_filter_drops_one(p, k, f);
        assert(f(s.last()));
        assert(p.remove(k).push(s.last()) =~= s.remove(k));
    }
}

/// What a filter keeps: the elements that pass.
pub proof fn lemma_filter_members<A>(s: Seq<A>, f: spec_fn(A) -> bool)
    ensures
        forall|x: A| #[trigger] s.filter(f).contains(x) <==> s.contains(x) && f(x),
    decreases s.len(),
{
    reveal(Seq::filter);
    if s.len() > 0 {
        let p = s.drop_last();
        lemma_filter_members(p, f);
        assert forall|x: A| #[trigger] s.filter(f).contains(x) <==> s.contains(x) && f(x) by {
            if p.contains(x) {
                let j = choose|j: int| 0 <= j < p.len() && p[j] == x;
                assert(s[j] == x);
            }
            if s.contains(x) {
                let j = choose|j: int| 0 <= j < s.len() && s[j] == x;
                if j < s.len() - 1 {
                    assert(p[j] == x);
                }
            }
            if f(s.last()) {
                let fp = p.filter(f);
                assert(fp.push(s.last())[fp.len() as int] == s.last());
                if fp.push(s.last()).contains(x) {
                    let j = choose|j: int| 0 <= j < fp.len() + 1 && fp.push(s.last())[j] == x;
                    if j < fp.len() {
                        assert(fp[j] == x);
                    }
                }
                if fp.contains(x) {
                    let j = choose|j: int| 0 <= j < fp.len() && fp[j] == x;
                    assert(fp.push(s.last())[j] == x);
                }
            }
        }
    }
}

/// Filtering twice is filtering by both.
pub proof fn lemma_filter_filter<A>(s: Seq<A>, a: spec_fn(A) -> bool, b: spec_fn(A) -> bool)
    ensures
        s.filter(a).filter(b) == s.filter(|x: A| a(x) && b(x)),
    decreases s.len(),
{
    reveal(Seq::filter);
    if s.len() > 0 {
        lemma_filter_filter(s.drop_last(), a, b);
        let fa = s.drop_last().filter(a);
        if a(s.last()) {
            assert(fa.push(s.last()).drop_last() =~= fa);
        }
    }
}

/// A block is among those returned exactly when the answer lists it and it was asked of the
/// peer.
pub proof fn lemma_returned_contains(in_flight: Seq<BlockRequest>, peer: u64, hashes: Seq<BlockHash>, h: BlockHash)
    ensures
        returned(in_flight, peer, hashes).contains(h) <==> hashes.contains(h) && asked_of(in_flight, peer, h),
    decreases hashes.len(),
{
    if hashes.len() > 0 {
        let p = hashes.drop_last();
        lemma_returned_contains(in_flight, peer, p, h);
        let prior = returned(in_flight, peer, p);
        let last = hashes.last();
        if hashes.contains(h) && !p.contains(h) {
            let j = choose|j: int| 0 <= j < hashes.len() && hashes[j] == h;
            if j < hashes.len() - 1 {
                assert(p[j] == h);
            }
        }
        if p.contains(h) {
            let j = choose|j: int| 0 <= j < p.len() && p[j] == h;
            assert(hashes[j] == h);
        }
        if asked_of(in_flight, peer, last) && !prior.contains(last) {
            assert(prior.push(last)[prior.len() as int] == last);
            if prior.push(last).contains(h) {
                let j = choose|j: int| 0 <= j < prior.len() + 1 && prior.push(last)[j] == h;
                if j < prior.len() {
                    assert(prior[j] == h);
                }
            }
            if prior.contains(h) {
                let j = choose|j: int| 0 <= j < prior.len() && prior[j] == h;
                assert(prior.push(last)[j] == h);
            }
        }
    }
}

/// After the first blocks of an answer are handled, a block is still asked of the peer
/// exactly when it was and is not among those already returned.
proof fn lemma_asked_after_returns(in_flight: Seq<BlockRequest>, peer: u64, prefix: Seq<BlockHash>, h: BlockHash)
    ensures
        asked_of(in_flight.filter(|q: BlockRequest| !(q.peer == peer && prefix.contains(q.hash))), peer, h) == (
        asked_of(in_flight, peer, h) && !returned(in_flight, peer, prefix).contains(h)),
{
    let f = |q: BlockRequest| !(q.peer == peer && prefix.contains(q.hash));
    let kept = in_flight.filter(f);
    lemma_filter_members(in_flight, f);
    lemma_returned_contains(in_flight, peer, prefix, h);
    if asked_of(kept, peer, h) {
        let i = choose|i: int| 0 <= i < kept.len() && (#[trigger] kept[i]).hash == h && kept[i].peer == peer;
        assert(kept.contains(kept[i]));
        let j = choose|j: int| 0 <= j < in_flight.len() && in_flight[j] == kept[i];
        assert(in_flight[j].hash == h);
    }
    if asked_of(in_flight, peer, h) && !prefix.contains(h) {
        let i = choose|i: int| 0 <= i < in_flight.len() && (#[trigger] in_flight[i]).hash == h && in_flight[i].peer == peer;
        assert(in_flight.contains(in_flight[i]));
        assert(kept.contains(in_flight[i]));
        let j = choose|j: int| 0 <= j < kept.len() && kept[j] == in_flight[i];
        assert(kept[j].hash == h);
    }
}

/// Handling one more block of an answer filters the requests by the longer list.
proof fn lemma_filter_twice(in_flight: Seq<BlockRequest>, peer: u64, prefix: Seq<BlockHash>, h: BlockHash)
    ensures
        in_flight.filter(|q: BlockRequest| !(q.peer == peer && prefix.contains(q.hash))).filter(
            |q: BlockRequest| !(q.peer == peer && q.hash == h),
        ) == in_flight.filter(|q: BlockRequest| !(q.peer == peer && prefix.push(h).contains(q.hash))),
{
    let a = |q: BlockRequest| !(q.peer == peer && prefix.contains(q.hash));
    let b = |q: BlockRequest| !(q.peer == peer && q.hash == h);
    lemma_filter_filter(in_flight, a, b);
    let t = prefix.push(h);
    assert forall|x: BlockHash| t.contains(x) <==> prefix.contains(x) || x == h by {
        if t.contains(x) {
            let j = choose|j: int| 0 <= j < t.len() && t[j] == x;
            if j < prefix.len() {
                assert(prefix[j] == x);
            }
        }
        if prefix.contains(x) {
            let j = choose|j: int| 0 <= j < prefix.len() && prefix[j] == x;
            assert(t[j] == x);
        }
        if x == h {
            assert(t[prefix.len() as int] == x);
        }
    }
    assert((|x: BlockRequest| a(x) && b(x)) =~= (|q: BlockRequest| !(q.peer == peer && t.contains(q.hash))));
}

impl BlockDownload {
    /// A peer left: it no longer counts as lacking any block.
    pub fn forget_peer(&mut self, peer: u64)
        ensures
            forall|h: BlockHash, q: u64|
                lacking(final(self).spec_not_found(), h).contains(q) <==> lacking(old(self).spec_not_found(), h).contains(q)
                    && q != peer,
            final(self).spec_not_found().dom() == old(self).spec_not_found().dom(),
            final(self).spec_in_flight() == old(self).spec_in_flight(),
            final(self).spec_wanted() == old(self).spec_wanted(),
    {
        proof {
            use_type_invariant(&*self);
        }
        let ghost n0 = self.not_found@;
        let mut not_found = Vec::new();
        std::mem::swap(&mut not_found, &mut self.not_found);
        let mut kept: Vec<(BlockHash, Vec<u64>)> = Vec::new();
        let mut i: usize = 0;
        while i < not_found.len()
            invariant
                not_found@ == n0,
                i <= n0.len(),
                kept@.len() == i,
                forall|j: int| 0 <= j < i ==> (#[trigger] kept@[j]).0 == n0[j].0,
                forall|j: int, q: u64|
                    0 <= j < i ==> (#[trigger] kept@[j].1@.contains(q) <==> n0[j].1@.contains(q) && q != peer),
            decreases n0.len() - i,
        {
            let hash = not_found[i].0;
            let list = &not_found[i].1;
            let mut others: Vec<u64> = Vec::new();
            let mut k: usize = 0;
            while k < list.len()
                invariant
                    k <= list@.len(),
                    forall|q: u64| #[trigger] others@.contains(q) <==> exists|j: int| 0 <= j < k && list@[j] == q && q != peer,
                decreases list@.len() - k,
            {
                let q = list[k];
                if q != peer {
                    let ghost before = others@;
                    others.push(q);
                    proof {
                        assert forall|x: u64| #[trigger] others@.contains(x) <==> exists|j: int|
                            0 <= j < k + 1 && list@[j] == x && x != peer by {
                            if others@.contains(x) && x != q {
                                let m = choose|m: int| 0 <= m < others@.len() && others@[m] == x;
                                assert(before[m] == x);
                                assert(before.contains(x));
                            }
                            if exists|j: int| 0 <= j < k + 1 && list@[j] == x && x != peer {
                                let j = choose|j: int| 0 <= j < k + 1 && list@[j] == x && x != peer;
                                if j < k {
                                    assert(before.contains(x));
                                    let m = choose|m: int| 0 <= m < before.len() && before[m] == x;
                                    assert(others@[m] == x);
                                } else {
                                    assert(others@[before.len() as int] == x);
                                }
                            }
                            if x == q {
                                assert(list@[k as int] == q);
                            }
                        }
                    }
                } else {
                    proof {
                        assert forall|x: u64| #[trigger] others@.contains(x) <==> exists|j: int|
                            0 <= j < k + 1 && list@[j] == x && x != peer by {
                            if exists|j: int| 0 <= j < k + 1 && list@[j] == x && x != peer {
                                let j = choose|j: int| 0 <= j < k + 1 && list@[j] == x && x != peer;
                                assert(j < k);
                            }
                        }
                    }
                }
                k = k + 1;
            }
            proof {
                assert forall|q: u64| #[trigger] others@.contains(q) <==> n0[i as int].1@.contains(q) && q != peer by {
                    if n0[i as int].1@.contains(q) && q != peer {
                        let j = choose|j: int| 0 <= j < list@.len() && list@[j] == q;
                    }
                }
            }
            kept.push((hash, others));
            i = i + 1;
        }
        proof {
            assert(unique_keys(kept@)) by {
                assert forall|a: int, b: int| 0 <= a < b < kept@.len() implies (#[trigger] kept@[a]).0 != (#[trigger] kept@[b]).0 by {
                    assert(n0[a].0 != n0[b].0);
                }
            }
            lemma_to_map_unique(n0);
            lemma_to_map_unique(kept@);
            assert(to_map(kept@).dom() =~= to_map(n0).dom()) by {
                assert forall|h: BlockHash| to_map(kept@).contains_key(h) implies to_map(n0).contains_key(h) by {
                    let j = choose|j: int| 0 <= j < kept@.len() && (#[trigger] kept@[j]).0 == h;
                    assert(n0[j].0 == h);
                }
                assert forall|h: BlockHash| to_map(n0).contains_key(h) implies to_map(kept@).contains_key(h) by {
                    let j = choose|j: int| 0 <= j < n0.len() && (#[trigger] n0[j]).0 == h;
                    assert(kept@[j].0 == h);
                }
            }
            assert forall|h: BlockHash, q: u64|
                lacking(to_map(kept@), h).contains(q) <==> lacking(to_map(n0), h).contains(q) && q != peer by {
                if to_map(n0).contains_key(h) {
                    let j = choose|j: int| 0 <= j < n0.len() && (#[trigger] n0[j]).0 == h;
                    assert(kept@[j].0 == h);
                    assert(to_map(kept@)[h] == kept@[j].1);
                    assert(kept@[j].1@.contains(q) <==> n0[j].1@.contains(q) && q != peer);
                }
            }
        }
        self.not_found = kept;
    }

    /// A block is stored: which peers lacked it no longer matters.
    pub fn block_stored(&mut self, hash: &BlockHash)
        ensures
            final(self).spec_not_found() == old(self).spec_not_found().remove(*hash),
            final(self).spec_in_flight() == old(self).spec_in_flight(),
            final(self).spec_wanted() == old(self).spec_wanted(),
    {
        proof {
            use_type_invariant(&*self);
            lemma_to_map_unique(self.not_found@);
        }
        let mut i: usize = 0;
        while i < self.not_found.len()
            invariant
                i <= self.not_found@.len(),
                *self == *old(self),
                unique_keys(self.not_found@),
                forall|j: int| 0 <= j < i ==> (#[trigger] self.not_found@[j]).0 != *hash,
            decreases self.not_found@.len() - i,
        {
            if self.not_found[i].0 == *hash {
                proof {
                    use_type_invariant(&*self);
                }
                let ghost n0 = self.not_found@;
                let mut not_found = Vec::new();
                std::mem::swap(&mut not_found, &mut self.not_found);
                let _ = not_found.remove(i);
                proof {
                    lemma_to_map_remove(n0, i as int);
                }
                self.not_found = not_found;
                return;
            }
            i = i + 1;
        }
        proof {
            lemma_to_map_unique(self.not_found@);
            if to_map(self.not_found@).contains_key(*hash) {
                let j = choose|j: int| 0 <= j < self.not_found@.len() && (#[trigger] self.not_found@[j]).0 == *hash;
            }
            assert(to_map(self.not_found@).remove(*hash) =~= to_map(self.not_found@));
        }
    }
}

/// What became of a block that arrived.
#[derive(Debug)]
pub enum BlockOutcome {
    /// It was not asked of this peer: ignored.
    Unrequested,
    /// Its body is not what its header announced: the peer misbehaved, and the block waits at
    /// the front of the queue to be asked of another.
    BadBody(BodyFault),
    /// No header is known for it: dropped.
    UnknownHeader,
    /// It breaks a validation rule: the peer misbehaved.
    Invalid(ValidationError),
    /// It is stored: write the block and this updated header entry to the database.
    Stored(HeaderEntry),
}

/// A block was asked of `peer` and not delivered yet.
pub open spec fn asked_for(in_flight: Seq<BlockRequest>, peer: u64, hash: BlockHash) -> bool {
    exists|i: int| 0 <= i < in_flight.len() && (#[trigger] in_flight[i]).hash == hash && in_flight[i].peer == peer
}

impl BlockDownload {
    /// A block arrived from `peer`. A block not asked of that peer is ignored. Otherwise its
    /// request ends and its body is checked against its header; a body that does not match
    /// puts the block back at the front of the queue. A block whose header is known and that
    /// passes validation is marked as stored in the tree, and which peers lacked it is
    /// forgotten.
    pub fn on_block(&mut self, chain: &mut HeaderChain, peer: u64, block: &Block) -> (r: BlockOutcome)
        requires
            old(chain).wf(),
        ensures
            final(chain).wf(),
            ({
                let hash = spec_block_hash(block.header);
                let bytes = spec_block_bytes(block@);
                let verdict = spec_body_verdict(
                    spec_merkle_root_matches(bytes),
                    spec_witness_commitment_matches(bytes),
                    block@,
                );
                if !asked_for(old(self).spec_in_flight(), peer, hash) {
                    &&& r is Unrequested
                    &&& final(self).spec_in_flight() == old(self).spec_in_flight()
                    &&& final(self).spec_wanted() == old(self).spec_wanted()
                    &&& final(self).spec_not_found() == old(self).spec_not_found()
                    &&& *final(chain) == *old(chain)
                } else {
                    &&& exists|i: int|
                        0 <= i < old(self).spec_in_flight().len() && old(self).spec_in_flight()[i].hash == hash
                            && final(self).spec_in_flight() == old(self).spec_in_flight().remove(i)
                    &&& match verdict {
                        Err(fault) => {
                            &&& r == BlockOutcome::BadBody(fault)
                            &&& final(self).spec_wanted() == seq![hash] + old(self).spec_wanted()
                            &&& final(self).spec_not_found() == old(self).spec_not_found()
                            &&& *final(chain) == *old(chain)
                        },
                        Ok(_) => {
                            &&& final(self).spec_wanted() == old(self).spec_wanted()
                            &&& if old(chain).knows(hash) {
                                let prior = old(chain).entry(hash);
                                let e = HeaderEntry { status: BlockStatus(prior.status.0 | 2), ..prior };
                                &&& r == BlockOutcome::Stored(e)
                                &&& final(chain).spec_entries() == old(chain).spec_entries().insert(hash.spec_key(), e)
                                &&& final(chain).spec_best() == old(chain).spec_best()
                                &&& final(chain).spec_chain() == old(chain).spec_chain()
                                &&& final(self).spec_not_found() == old(self).spec_not_found().remove(hash)
                            } else {
                                &&& r is UnknownHeader
                                &&& final(self).spec_not_found() == old(self).spec_not_found()
                                &&& *final(chain) == *old(chain)
                            }
                        },
                    }
                }
            }),
    {
        let hash = block.block_hash();
        let ghost f0 = self.spec_in_flight();
        if !self.block_arrived(peer, &hash) {
            return BlockOutcome::Unrequested;
        }
        match check_block_body(block) {
            Err(fault) => {
                self.push_front(hash);
                return BlockOutcome::BadBody(fault);
            },
            Ok(()) => {},
        }
        let entry = match chain.get(&hash) {
            Some(e) => *e,
            None => return BlockOutcome::UnknownHeader,
        };
        match check_block(block, &entry) {
            Err(e) => return BlockOutcome::Invalid(e),
            Ok(()) => {},
        }
        match chain.mark_have_data(&hash) {
            Some(e) => {
                self.block_stored(&hash);
                BlockOutcome::Stored(e)
            },
            None => BlockOutcome::UnknownHeader,
        }
    }
}

/// Whether a block announcement calls for `getheaders`: once synced, an announced block whose
/// header we lack, as Bitcoin Core does.
pub fn wants_headers(sync: &HeaderSync, chain: &HeaderChain, announced: &[BlockHash]) -> (r: bool)
    ensures
        r == (sync.synced_height is Some && exists|i: int| 0 <= i < announced@.len() && !chain.knows(#[trigger] announced@[i])),
{
    if sync.synced_height.is_none() {
        return false;
    }
    let mut i: usize = 0;
    while i < announced.len()
        invariant
            i <= announced@.len(),
            sync.synced_height is Some,
            forall|j: int| 0 <= j < i ==> chain.knows(#[trigger] announced@[j]),
        decreases announced@.len() - i,
    {
        if !chain.contains(&announced[i]) {
            assert(!chain.knows(announced@[i as int]));
            return true;
        }
        i = i + 1;
    }
    false
}

/// Requeues, one peer after another, every request of each peer: the requests left and the
/// queue after.
pub open spec fn requeue_all(in_flight: Seq<BlockRequest>, wanted: Seq<BlockHash>, peers: Seq<u64>) -> (
    Seq<BlockRequest>,
    Seq<BlockHash>,
)
    decreases peers.len(),
{
    if peers.len() == 0 {
        (in_flight, wanted)
    } else {
        let (f, w) = requeue_all(in_flight, wanted, peers.drop_last());
        let p = peers.last();
        (f.filter(|q: BlockRequest| q.peer != p), hashes_of(f.filter(by_peer(p))).reverse() + w)
    }
}

/// Who to drop for stalling.
#[derive(Debug)]
pub struct Expired {
    /// The sync peer, if it did not answer for headers in time.
    pub sync_peer: Option<u64>,
    /// Peers with a block request older than the limit, each once; their requests are
    /// back in the queue.
    pub block_peers: Vec<u64>,
}

/// Finds the peers that did not answer a header or block request within `limit` at `now`:
/// the sync peer is no longer waited for, and the blocks asked of a stalled peer go back to
/// the front of the queue. The caller disconnects them and requests blocks again.
pub fn expire_requests(sync: &mut HeaderSync, download: &mut BlockDownload, now: u64, limit: u64) -> (r: Expired)
    ensures
        r.sync_peer == if old(sync).sync_peer is Some && old(sync).requested_at is Some && now
            > old(sync).requested_at->Some_0 && now - old(sync).requested_at->Some_0 > limit {
            old(sync).sync_peer
        } else {
            None::<u64>
        },
        r.sync_peer is Some ==> *final(sync) == (HeaderSync { requested_at: None, ..*old(sync) }),
        r.sync_peer is None ==> *final(sync) == *old(sync),
        r.block_peers@.no_duplicates(),
        forall|p: u64| r.block_peers@.contains(p) <==> exists|i: int|
            0 <= i < old(download).spec_in_flight().len() && (#[trigger] old(download).spec_in_flight()[i]).peer == p
                && is_stale(old(download).spec_in_flight()[i], now, limit),
        (final(download).spec_in_flight(), final(download).spec_wanted()) == requeue_all(
            old(download).spec_in_flight(),
            old(download).spec_wanted(),
            r.block_peers@,
        ),
        final(download).spec_not_found() == old(download).spec_not_found(),
{
    let sync_peer = sync.stalled(now, limit);
    let stalled = download.stalled_peers(now, limit);
    let mut i: usize = 0;
    while i < stalled.len()
        invariant
            i <= stalled@.len(),
            (download.spec_in_flight(), download.spec_wanted()) == requeue_all(
                old(download).spec_in_flight(),
                old(download).spec_wanted(),
                stalled@.take(i as int),
            ),
            download.spec_not_found() == old(download).spec_not_found(),
        decreases stalled@.len() - i,
    {
        proof {
            assert(stalled@.take(i + 1).drop_last() =~= stalled@.take(i as int));
            assert(stalled@.take(i + 1).last() == stalled@[i as int]);
        }
        download.requeue_from(stalled[i]);
        i = i + 1;
    }
    proof {
        assert(stalled@.take(stalled@.len() as int) =~= stalled@);
    }
    Expired { sync_peer, block_peers: stalled }
}

/// Where header sync stands: the peer headers are synced from, when it was last asked, and the
/// height at which the first sync completed.
#[derive(Debug, Clone, Copy, PartialEq, Eq, Structural)]
pub struct HeaderSync {
    pub sync_peer: Option<u64>,
    /// When the sync peer was last asked for headers, in milliseconds.
    pub requested_at: Option<u64>,
    /// Set once the first sync is complete; blocks are fetched from then on.
    pub synced_height: Option<u32>,
}

/// Why a `headers` message counts as misbehaviour.
#[derive(Debug, Clone, PartialEq, Eq)]
pub enum HeadersFault {
    /// More headers than a message may carry.
    TooMany(usize),
    /// More headers than heights remain below the largest a `u32` holds.
    HeightsExhausted,
    /// A header the tree refuses.
    Rejected(HeaderError),
}

/// What to do after a `headers` message.
#[derive(Debug)]
pub struct HeadersOutcome {
    /// What accepting the headers gave, when they were offered to the tree.
    pub result: Option<Result<Vec<HeaderEntry>, HeaderError>>,
    /// Misbehaviour to punish.
    pub fault: Option<HeadersFault>,
    /// Ask the same peer for more headers.
    pub request_more: bool,
    /// Queue the best-chain blocks that are missing and request what can be requested.
    pub fetch_blocks: bool,
    /// Header sync has just completed, at this height.
    pub completed: Option<u32>,
}

/// The sync state once a message from `peer` has arrived: the sync peer is no longer waited for.
pub open spec fn answered(s: HeaderSync, peer: u64) -> HeaderSync {
    if s.sync_peer == Some(peer) {
        HeaderSync { requested_at: None, ..s }
    } else {
        s
    }
}

impl HeaderSync {
    pub fn new() -> (r: HeaderSync)
        ensures
            r == (HeaderSync { sync_peer: None, requested_at: None, synced_height: None }),
    {
        HeaderSync { sync_peer: None, requested_at: None, synced_height: None }
    }

    /// Whether the first sync is complete.
    pub fn is_synced(&self) -> (r: bool)
        ensures
            r == self.synced_height is Some,
    {
        self.synced_height.is_some()
    }

    /// Headers are synced from `peer` from now on.
    pub fn start(&mut self, peer: u64)
        ensures
            *final(self) == (HeaderSync { sync_peer: Some(peer), ..*old(self) }),
    {
        self.sync_peer = Some(peer);
    }

    /// `peer` was just asked for headers: while the first sync runs, the sync peer's answer is
    /// now awaited.
    pub fn note_request(&mut self, peer: u64, now: u64)
        ensures
            *final(self) == if old(self).sync_peer == Some(peer) && old(self).synced_height is None {
                HeaderSync { requested_at: Some(now), ..*old(self) }
            } else {
                *old(self)
            },
    {
        if self.sync_peer == Some(peer) && self.synced_height.is_none() {
            self.requested_at = Some(now);
        }
    }

    /// The sync peer is gone: nobody is synced from until another is chosen.
    pub fn drop_peer(&mut self, peer: u64) -> (r: bool)
        ensures
            r == (old(self).sync_peer == Some(peer)),
            *final(self) == if r {
                HeaderSync { sync_peer: None, requested_at: None, ..*old(self) }
            } else {
                *old(self)
            },
    {
        if self.sync_peer == Some(peer) {
            self.sync_peer = None;
            self.requested_at = None;
            true
        } else {
            false
        }
    }

    /// The sync peer has not answered within `limit` at `now`: it is given up on.
    pub fn stalled(&mut self, now: u64, limit: u64) -> (r: Option<u64>)
        ensures
            r == if old(self).sync_peer is Some && old(self).requested_at is Some && now
                > old(self).requested_at->Some_0 && now - old(self).requested_at->Some_0 > limit {
                old(self).sync_peer
            } else {
                None::<u64>
            },
            r is Some ==> *final(self) == (HeaderSync { requested_at: None, ..*old(self) }),
            r is None ==> *final(self) == *old(self),
    {
        match (self.sync_peer, self.requested_at) {
            (Some(peer), Some(since)) => {
                if now > since && now - since > limit {
                    self.requested_at = None;
                    Some(peer)
                } else {
                    None
                }
            },
            _ => None,
        }
    }

    /// A `headers` message from `peer`. A message over the limit is misbehaviour and changes
    /// nothing. Otherwise the headers are offered to the tree: headers whose parent we lack
    /// are ignored, except that once synced we ask the peer for the gap; a header the tree
    /// refuses is misbehaviour. Accepted headers are handed back for storage. Once synced, the
    /// missing blocks are fetched and a full message asks for more; during the first sync, a
    /// full message from the sync peer asks for more and a shorter one completes the sync.
    pub fn on_headers(&mut self, chain: &mut HeaderChain, peer: u64, headers: &[Header]) -> (r: HeadersOutcome)
        requires
            old(chain).wf(),
        ensures
            final(chain).wf(),
            headers@.len() > MAX_HEADERS_RESULTS ==> {
                &&& r.result is None
                &&& r.fault == Some(HeadersFault::TooMany(headers@.len() as usize))
                &&& !r.request_more && !r.fetch_blocks && r.completed is None
                &&& *final(self) == *old(self)
                &&& *final(chain) == *old(chain)
            },
            headers@.len() <= MAX_HEADERS_RESULTS && !(old(chain).spec_max_height() + headers@.len() < u32::MAX) ==> {
                &&& r.result is None
                &&& r.fault == Some(HeadersFault::HeightsExhausted)
                &&& !r.request_more && !r.fetch_blocks && r.completed is None
                &&& *final(self) == answered(*old(self), peer)
                &&& *final(chain) == *old(chain)
            },
            headers@.len() <= MAX_HEADERS_RESULTS && old(chain).spec_max_height() + headers@.len() < u32::MAX ==> {
                let full = headers@.len() == MAX_HEADERS_RESULTS;
                let s = answered(*old(self), peer);
                &&& r.result is Some
                &&& old(chain).accepted(*final(chain), headers@, r.result->Some_0)
                &&& match r.result->Some_0 {
                    Err(HeaderError::UnknownParent(_)) => {
                        &&& r.fault is None
                        &&& r.request_more == old(self).synced_height is Some
                        &&& !r.fetch_blocks && r.completed is None
                        &&& *final(self) == s
                    },
                    Err(e) => {
                        &&& r.fault == Some(HeadersFault::Rejected(e))
                        &&& !r.request_more && !r.fetch_blocks && r.completed is None
                        &&& *final(self) == s
                    },
                    Ok(_) => {
                        &&& r.fault is None
                        &&& old(self).synced_height is Some ==> r.fetch_blocks && r.request_more == full
                            && r.completed is None && *final(self) == s
                        &&& old(self).synced_height is None && old(self).sync_peer == Some(peer) ==> {
                            let h = final(chain).entry(final(chain).tip_hash()).height;
                            &&& !r.fetch_blocks
                            &&& r.request_more == full
                            &&& r.completed == if full { None } else { Some(h) }
                            &&& *final(self) == if full {
                                s
                            } else {
                                HeaderSync { synced_height: Some(h), ..s }
                            }
                        }
                        &&& old(self).synced_height is None && old(self).sync_peer != Some(peer) ==> !r.fetch_blocks
                            && !r.request_more && r.completed is None && *final(self) == s
                    },
                }
            },
    {
        if headers.len() > MAX_HEADERS_RESULTS {
            return HeadersOutcome {
                result: None,
                fault: Some(HeadersFault::TooMany(headers.len())),
                request_more: false,
                fetch_blocks: false,
                completed: None,
            };
        }
        let full = headers.len() == MAX_HEADERS_RESULTS;
        if self.sync_peer == Some(peer) {
            self.requested_at = None;
        }
        let result = match chain.accept_checked(headers) {
            None => {
                return HeadersOutcome {
                    result: None,
                    fault: Some(HeadersFault::HeightsExhausted),
                    request_more: false,
                    fetch_blocks: false,
                    completed: None,
                };
            },
            Some(res) => res,
        };
        match &result {
            Err(HeaderError::UnknownParent(_)) => {
                let request_more = self.synced_height.is_some();
                HeadersOutcome { result: Some(result), fault: None, request_more, fetch_blocks: false, completed: None }
            },
            Err(e) => {
                let fault = Some(HeadersFault::Rejected(e.copy()));
                HeadersOutcome { result: Some(result), fault, request_more: false, fetch_blocks: false, completed: None }
            },
            Ok(_) => {
                if self.synced_height.is_some() {
                    HeadersOutcome { result: Some(result), fault: None, request_more: full, fetch_blocks: true, completed: None }
                } else if self.sync_peer == Some(peer) {
                    if full {
                        HeadersOutcome { result: Some(result), fault: None, request_more: true, fetch_blocks: false, completed: None }
                    } else {
                        let h = chain.height();
                        self.synced_height = Some(h);
                        HeadersOutcome { result: Some(result), fault: None, request_more: false, fetch_blocks: false, completed: Some(h) }
                    }
                } else {
                    HeadersOutcome { result: Some(result), fault: None, request_more: false, fetch_blocks: false, completed: None }
                }
            },
        }
    }
}

/// The start of a BIP141 witness commitment output: `OP_RETURN`, a 36-byte push, `0xaa21a9ed`.
pub open spec fn commitment_prefix() -> Seq<u8> {
    seq![0x6au8, 0x24u8, 0xaau8, 0x21u8, 0xa9u8, 0xedu8]
}

/// A block that commits to witness data must carry the 32-byte witness reserved value in its
/// coinbase; without it, the witnesses were stripped. Mirrors Bitcoin Core's
/// `CheckWitnessMalleation`.
pub open spec fn spec_is_witness_stripped(b: BlockView) -> bool {
    b.transactions.len() > 0 && {
        let coinbase = b.transactions[0];
        let has_commitment = exists|o: int|
            0 <= o < coinbase.outputs.len() && commitment_prefix().is_prefix_of(#[trigger] coinbase.outputs[o].script_pubkey);
        let has_reserved = coinbase.inputs.len() > 0 && coinbase.inputs[0].witness.len() == 1
            && coinbase.inputs[0].witness[0].len() == 32;
        has_commitment && !has_reserved
    }
}

fn starts_with_commitment(script: &Vec<u8>) -> (r: bool)
    ensures
        r == commitment_prefix().is_prefix_of(script@),
{
    let r = script.len() >= 6 && script[0] == 0x6a && script[1] == 0x24 && script[2] == 0xaa && script[3] == 0x21
        && script[4] == 0xa9 && script[5] == 0xed;
    proof {
        if r {
            assert(script@.subrange(0, 6) =~= commitment_prefix());
        }
        if commitment_prefix().is_prefix_of(script@) {
            assert(script@.subrange(0, 6) == commitment_prefix());
            assert(script@[0] == script@.subrange(0, 6)[0]);
            assert(script@[5] == script@.subrange(0, 6)[5]);
        }
    }
    r
}

/// Whether a block's witnesses were stripped: see `spec_is_witness_stripped`.
pub fn is_witness_stripped(block: &Block) -> (r: bool)
    ensures
        r == spec_is_witness_stripped(block@),
{
    if block.transactions.len() == 0 {
        return false;
    }
    let coinbase = &block.transactions[0];
    let mut has_commitment = false;
    let mut o: usize = 0;
    while o < coinbase.outputs.len()
        invariant
            coinbase@ == block@.transactions[0],
            o <= coinbase.outputs@.len(),
            has_commitment == exists|j: int|
                0 <= j < o && commitment_prefix().is_prefix_of(#[trigger] coinbase@.outputs[j].script_pubkey),
        decreases coinbase.outputs@.len() - o,
    {
        let found = starts_with_commitment(&coinbase.outputs[o].script_pubkey);
        proof {
            assert(coinbase@.outputs[o as int] == coinbase.outputs@[o as int]@);
            if found {
                assert(commitment_prefix().is_prefix_of(coinbase@.outputs[o as int].script_pubkey));
            }
        }
        if found {
            has_commitment = true;
        }
        o = o + 1;
    }
    let has_reserved = coinbase.inputs.len() > 0 && coinbase.inputs[0].witness.len() == 1
        && coinbase.inputs[0].witness[0].len() == 32;
    has_commitment && !has_reserved
}

/// `Block::check_merkle_root` of the `bitcoin` crate on the block these bytes encode: whether
/// the header's merkle root is the root of the transactions. Bytes that do not decode give
/// false.
pub uninterp spec fn spec_merkle_root_matches(block: Seq<u8>) -> bool;

/// `Block::check_witness_commitment` of the `bitcoin` crate on the block these bytes encode:
/// whether the coinbase commits to the transactions' witnesses, when any has one. Bytes that
/// do not decode give false.
pub uninterp spec fn spec_witness_commitment_matches(block: Seq<u8>) -> bool;

/// Decodes the block with `bitcoin::consensus::deserialize` and asks `check_merkle_root`.
#[verifier::external_body]
fn merkle_root_matches(block: &[u8]) -> (r: bool)
    ensures
        r == spec_merkle_root_matches(block@),
{
    match bitcoin::consensus::deserialize::<bitcoin::Block>(block) {
        Ok(b) => b.check_merkle_root(),
        Err(_) => false,
    }
}

/// Decodes the block with `bitcoin::consensus::deserialize` and asks
/// `check_witness_commitment`.
#[verifier::external_body]
fn witness_commitment_matches(block: &[u8]) -> (r: bool)
    ensures
        r == spec_witness_commitment_matches(block@),
{
    match bitcoin::consensus::deserialize::<bitcoin::Block>(block) {
        Ok(b) => b.check_witness_commitment(),
        Err(_) => false,
    }
}

/// Why a block body cannot be what its header announced.
#[derive(Debug, Clone, Copy, PartialEq, Eq, Structural)]
pub enum BodyFault {
    MerkleRoot,
    WitnessCommitment,
    WitnessStripped,
}

impl BodyFault {
    pub open spec fn spec_reason(self) -> Seq<char> {
        match self {
            BodyFault::MerkleRoot => "does not match its header's merkle root"@,
            BodyFault::WitnessCommitment => "does not match its witness commitment"@,
            BodyFault::WitnessStripped => "is missing its witness data"@,
        }
    }

    /// The fault in words, completing "block ... ".
    pub fn reason(self) -> (r: &'static str)
        ensures
            r@ == self.spec_reason(),
    {
        match self {
            BodyFault::MerkleRoot => "does not match its header's merkle root",
            BodyFault::WitnessCommitment => "does not match its witness commitment",
            BodyFault::WitnessStripped => "is missing its witness data",
        }
    }
}

/// The verdict on a block body, given whether its merkle root and its witness commitment
/// match: those first, in that order, then stripped witnesses.
pub open spec fn spec_body_verdict(merkle_ok: bool, commitment_ok: bool, b: BlockView) -> Result<(), BodyFault> {
    if !merkle_ok {
        Err(BodyFault::MerkleRoot)
    } else if !commitment_ok {
        Err(BodyFault::WitnessCommitment)
    } else if spec_is_witness_stripped(b) {
        Err(BodyFault::WitnessStripped)
    } else {
        Ok(())
    }
}

pub fn body_verdict(merkle_ok: bool, commitment_ok: bool, block: &Block) -> (r: Result<(), BodyFault>)
    ensures
        r == spec_body_verdict(merkle_ok, commitment_ok, block@),
{
    if !merkle_ok {
        Err(BodyFault::MerkleRoot)
    } else if !commitment_ok {
        Err(BodyFault::WitnessCommitment)
    } else if is_witness_stripped(block) {
        Err(BodyFault::WitnessStripped)
    } else {
        Ok(())
    }
}

/// Checks that a block body matches its header and still carries its witness data, so a peer
/// cannot hand us a different or stripped block. Full validation comes later.
pub fn check_block_body(block: &Block) -> (r: Result<(), BodyFault>)
    ensures
        r == spec_body_verdict(
            spec_merkle_root_matches(spec_block_bytes(block@)),
            spec_witness_commitment_matches(spec_block_bytes(block@)),
            block@,
        ),
{
    let bytes = block.encode();
    let merkle_ok = merkle_root_matches(bytes.as_slice());
    let commitment_ok = witness_commitment_matches(bytes.as_slice());
    body_verdict(merkle_ok, commitment_ok, block)
}

fn contains_u64(list: &[u64], x: u64) -> (r: bool)
    ensures
        r == list@.contains(x),
{
    let mut i: usize = 0;
    while i < list.len()
        invariant
            i <= list@.len(),
            forall|j: int| 0 <= j < i ==> list@[j] != x,
        decreases list@.len() - i,
    {
        if list[i] == x {
            assert(list@[i as int] == x);
            return true;
        }
        i = i + 1;
    }
    false
}

} // verus!
