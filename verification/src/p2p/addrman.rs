//! The address book, modelled on Bitcoin Core's `AddrMan`.
//!
//! Addresses come from the database, the config file, DNS seeds and `addr` messages. They
//! start in a "new" table and move to "tried" once a connection succeeds. Selection prefers
//! tried addresses, backs off from repeated failures, and keeps one address per network group
//! so a single network cannot fill our connection slots.
//!
//! Simplifications compared with Core: it spreads addresses over fixed bucket sets keyed by a
//! secret, with precise collision and eviction rules, and can group by autonomous system. We
//! keep a flat table, uniform random choice among eligible addresses, and group by address
//! prefix.

use bitcoin::secp256k1::rand::seq::IteratorRandom;
use bitcoin::secp256k1::rand::{thread_rng, Rng};
use vstd::prelude::*;

use crate::net::IpAddress;
use crate::pairs::{
    lemma_to_map_filter, lemma_to_map_len, lemma_to_map_push, lemma_to_map_remove, lemma_to_map_unique,
    lemma_to_map_update, to_map, unique_keys,
};
use crate::storage::{AddressRecord, PeerAddr};

verus! {

/// Shortest wait before retrying an address that failed, in seconds.
pub const RETRY_BASE_SECS: i64 = 60;

/// Longest wait between retries, in seconds.
pub const RETRY_MAX_SECS: i64 = 3600;

/// A network group: Bitcoin Core's `GetGroup`, simplified to address prefixes.
/// IPv4 is grouped by its first 16 bits, IPv6 by its first 32.
#[derive(Debug, Clone, Copy, PartialEq, Eq, Hash, Structural)]
pub struct Group {
    /// 4 or 6.
    pub family: u8,
    /// The leading bits the group keeps.
    pub prefix: u32,
}

/// The group of an address: an IPv4 address, mapped or not, by its first 16 bits; an IPv6
/// address by its first 32.
pub open spec fn spec_group_of(ip: IpAddress) -> Group {
    match ip {
        IpAddress::V4(a) => Group { family: 4, prefix: a >> 16u32 },
        IpAddress::V6(b) => if b >> 32u128 == 0xffffu128 {
            Group { family: 4, prefix: ((b as u32) >> 16u32) }
        } else {
            Group { family: 6, prefix: (b >> 96u128) as u32 }
        },
    }
}

pub fn group_of(ip: IpAddress) -> (r: Group)
    ensures
        r == spec_group_of(ip),
{
    match ip {
        IpAddress::V4(a) => Group { family: 4, prefix: a >> 16u32 },
        IpAddress::V6(b) => if b >> 32u128 == 0xffff {
            Group { family: 4, prefix: (#[verifier::truncate] (b as u32)) >> 16u32 }
        } else {
            Group { family: 6, prefix: #[verifier::truncate] ((b >> 96u128) as u32) }
        },
    }
}

/// Two IPv6 addresses, neither of them IPv4-mapped, fall in the same group exactly when their
/// first 32 bits agree; and such an address never shares a group with an IPv4 address.
pub proof fn lemma_v6_groups(a: u128, b: u128, c: u32)
    requires
        a >> 32u128 != 0xffffu128,
        b >> 32u128 != 0xffffu128,
    ensures
        (spec_group_of(IpAddress::V6(a)) == spec_group_of(IpAddress::V6(b))) == (a >> 96u128 == b >> 96u128),
        spec_group_of(IpAddress::V6(a)) != spec_group_of(IpAddress::V4(c)),
{
    assert(a >> 96u128 <= 0xffff_ffffu128) by (bit_vector);
    assert(b >> 96u128 <= 0xffff_ffffu128) by (bit_vector);
}

/// Two IPv4 addresses fall in the same group exactly when their first 16 bits agree, and an
/// IPv4-mapped IPv6 address falls in the group of the IPv4 address it carries.
pub proof fn lemma_v4_groups(a: u32, b: u32, m: u128)
    requires
        m >> 32u128 == 0xffffu128,
    ensures
        (spec_group_of(IpAddress::V4(a)) == spec_group_of(IpAddress::V4(b))) == (a / 0x1_0000 == b / 0x1_0000),
        spec_group_of(IpAddress::V6(m)) == spec_group_of(IpAddress::V4((m % 0x1_0000_0000) as u32)),
{
    assert(a >> 16u32 == a / 0x1_0000) by (bit_vector);
    assert(b >> 16u32 == b / 0x1_0000) by (bit_vector);
    assert(m as u32 == (m % 0x1_0000_0000) as u32) by (bit_vector);
}

/// The wait after `attempts` failures: 60 seconds doubled per failure, at most six times, and
/// never more than an hour.
pub open spec fn retry_wait(attempts: u32) -> i64 {
    let shift: u32 = if attempts < 6 { attempts } else { 6 };
    let wait = 60 * vstd::arithmetic::power2::pow2(shift as nat);
    if wait < 3600 { wait as i64 } else { 3600 }
}

/// `a - b`, held to the range of `i64`.
pub open spec fn saturating_sub(a: i64, b: i64) -> i64 {
    let d = a - b;
    if d < i64::MIN { i64::MIN } else if d > i64::MAX { i64::MAX } else { d as i64 }
}

/// Waits longer after each failed attempt, so dead addresses are retried rarely.
pub open spec fn spec_retry_ready(record: AddressRecord, now: i64) -> bool {
    record.attempts == 0 || saturating_sub(now, record.last_try) >= retry_wait(record.attempts)
}

pub fn retry_ready(record: &AddressRecord, now: i64) -> (r: bool)
    ensures
        r == spec_retry_ready(*record, now),
{
    if record.attempts == 0 {
        return true;
    }
    let shift: u32 = if record.attempts < 6 { record.attempts } else { 6 };
    proof {
        vstd::arithmetic::power2::lemma2_to64();
    }
    let factor: i64 = if shift == 0 { 1 } else if shift == 1 { 2 } else if shift == 2 { 4 } else if shift == 3 { 8 } else if shift == 4 { 16 } else if shift == 5 { 32 } else { 64 };
    let wait: i64 = if RETRY_BASE_SECS * factor < RETRY_MAX_SECS { RETRY_BASE_SECS * factor } else { RETRY_MAX_SECS };
    let elapsed: i64 = if record.last_try >= 0 {
        if now >= i64::MIN + record.last_try { now - record.last_try } else { i64::MIN }
    } else {
        if now <= i64::MAX + record.last_try { now - record.last_try } else { i64::MAX }
    };
    elapsed >= wait
}

/// Whether an address can be dialled at all: a port other than 0, and an address that is not
/// unspecified, multicast or, for IPv4, the broadcast address. Private ranges stay allowed
/// so regtest and local networks work.
pub open spec fn spec_is_routable(addr: PeerAddr) -> bool {
    addr.port != 0 && match addr.ip {
        IpAddress::V4(a) => a != 0 && (a >> 28u32) != 0xe && a != 0xffff_ffff,
        IpAddress::V6(b) => b != 0 && (b >> 120u128) != 0xff,
    }
}

pub fn is_routable(addr: PeerAddr) -> (r: bool)
    ensures
        r == spec_is_routable(addr),
{
    if addr.port == 0 {
        return false;
    }
    match addr.ip {
        IpAddress::V4(a) => a != 0 && (a >> 28u32) != 0xe && a != 0xffff_ffff,
        IpAddress::V6(b) => b != 0 && (b >> 120u128) != 0xff,
    }
}

/// A fresh record: seen now, never tried.
pub open spec fn new_record(addr: PeerAddr, services: u64, now: i64) -> AddressRecord {
    AddressRecord { addr, services, last_seen: now, last_try: 0, last_success: 0, attempts: 0, tried: false }
}

/// The record an address becomes when it is announced again: seen now, and with the newly
/// announced services unless they are none.
pub open spec fn seen_again(r: AddressRecord, services: u64, now: i64) -> AddressRecord {
    AddressRecord { last_seen: now, services: if services != 0 { services } else { r.services }, ..r }
}

/// The record after a connection attempt starts.
pub open spec fn attempted(r: AddressRecord, now: i64) -> AddressRecord {
    AddressRecord { last_try: now, ..r }
}

/// The record after a connection succeeds: tried, with its failures forgotten.
pub open spec fn succeeded(r: AddressRecord, services: u64, now: i64) -> AddressRecord {
    AddressRecord {
        last_success: now,
        last_seen: now,
        attempts: 0,
        tried: true,
        services: if services != 0 { services } else { r.services },
        ..r
    }
}

/// The record after a connection attempt fails.
pub open spec fn failed(r: AddressRecord, now: i64) -> AddressRecord {
    AddressRecord { attempts: if r.attempts < u32::MAX { (r.attempts + 1) as u32 } else { u32::MAX }, last_try: now, ..r }
}

/// The address book's records as stored: each record under its address, a later record
/// replacing an earlier one for the same address.
pub open spec fn stored_addresses(records: Seq<AddressRecord>) -> Map<PeerAddr, AddressRecord>
    decreases records.len(),
{
    if records.len() == 0 {
        Map::empty()
    } else {
        stored_addresses(records.drop_last()).insert(records.last().addr, records.last())
    }
}

/// `r` is no more useful than `other`: seen earlier, or seen at the same time after at least
/// as many failures.
pub open spec fn no_more_useful(r: AddressRecord, other: AddressRecord) -> bool {
    r.last_seen < other.last_seen || (r.last_seen == other.last_seen && r.attempts >= other.attempts)
}

/// `victim` is an untried address no more useful than any other untried one: what eviction
/// drops.
pub open spec fn is_eviction_victim(records: Map<PeerAddr, AddressRecord>, victim: PeerAddr) -> bool {
    &&& records.contains_key(victim)
    &&& !records[victim].tried
    &&& forall|a: PeerAddr| #[trigger] records.contains_key(a) && !records[a].tried ==> no_more_useful(
        records[victim],
        records[a],
    )
}

/// The addresses that selection may return, apart from the ban check: known, not in use, not
/// in an excluded group, due for a retry, and untried when `feeler` asks for a feeler.
pub open spec fn selectable(
    records: Map<PeerAddr, AddressRecord>,
    a: PeerAddr,
    feeler: bool,
    now: i64,
    in_use: Seq<PeerAddr>,
    excluded_groups: Seq<Group>,
) -> bool {
    &&& records.contains_key(a)
    &&& feeler ==> !records[a].tried
    &&& !in_use.contains(a)
    &&& !excluded_groups.contains(spec_group_of(a.ip))
    &&& spec_retry_ready(records[a], now)
}

/// `IteratorRandom::choose` over `0..n` with the thread's generator: an index below `n`, or
/// none when `n` is 0. Which index comes back is chance; nothing more is stated of it.
#[verifier::external_body]
fn random_index(n: usize) -> (r: Option<usize>)
    ensures
        r is Some <==> n > 0,
        r matches Some(i) ==> i < n,
{
    (0..n).choose(&mut thread_rng())
}

/// `Rng::gen::<bool>` with the thread's generator: a fair coin. Which side comes up is chance.
#[verifier::external_body]
fn random_coin() -> (r: bool) {
    thread_rng().gen::<bool>()
}

fn find_addr(list: &[PeerAddr], a: PeerAddr) -> (r: Option<usize>)
    ensures
        match r {
            Some(i) => i < list@.len() && list@[i as int] == a,
            None => !list@.contains(a),
        },
{
    let mut i: usize = 0;
    while i < list.len()
        invariant
            i <= list@.len(),
            forall|j: int| 0 <= j < i ==> list@[j] != a,
        decreases list@.len() - i,
    {
        if list[i] == a {
            return Some(i);
        }
        i = i + 1;
    }
    None
}

fn contains_addr(list: &[PeerAddr], a: PeerAddr) -> (r: bool)
    ensures
        r == list@.contains(a),
{
    let mut i: usize = 0;
    while i < list.len()
        invariant
            i <= list@.len(),
            forall|j: int| 0 <= j < i ==> list@[j] != a,
        decreases list@.len() - i,
    {
        if list[i] == a {
            assert(list@[i as int] == a);
            return true;
        }
        i = i + 1;
    }
    false
}

fn contains_group(list: &[Group], g: Group) -> (r: bool)
    ensures
        r == list@.contains(g),
{
    let mut i: usize = 0;
    while i < list.len()
        invariant
            i <= list@.len(),
            forall|j: int| 0 <= j < i ==> list@[j] != g,
        decreases list@.len() - i,
    {
        if list[i] == g {
            assert(list@[i as int] == g);
            return true;
        }
        i = i + 1;
    }
    false
}

pub struct AddressManager {
    records: Vec<(PeerAddr, AddressRecord)>,
    max_records: usize,
    /// Addresses whose records changed since the last save, each once.
    dirty: Vec<PeerAddr>,
    /// Addresses dropped since the last save.
    removed: Vec<PeerAddr>,
}

impl AddressManager {
    #[verifier::type_invariant]
    spec fn consistent(self) -> bool {
        &&& unique_keys(self.records@)
        &&& forall|i: int| 0 <= i < self.records@.len() ==> (#[trigger] self.records@[i]).1.addr == self.records@[i].0
        &&& self.dirty@.no_duplicates()
        &&& self.max_records >= 1
    }

    /// `after` is this book with the record of `addr`, if there is one, changed by `change`
    /// and marked for saving; nothing else changes.
    pub open spec fn updates(
        self,
        after: AddressManager,
        addr: PeerAddr,
        change: spec_fn(AddressRecord) -> AddressRecord,
    ) -> bool {
        &&& self.spec_records().contains_key(addr) ==> after.spec_records() == self.spec_records().insert(
            addr,
            change(self.spec_records()[addr]),
        ) && after.spec_dirty() == self.spec_dirty().insert(addr)
        &&& !self.spec_records().contains_key(addr) ==> after.spec_records() == self.spec_records()
            && after.spec_dirty() == self.spec_dirty()
        &&& after.spec_removed() == self.spec_removed()
        &&& after.spec_max_records() == self.spec_max_records()
    }

    /// The records, by address.
    pub closed spec fn spec_records(self) -> Map<PeerAddr, AddressRecord> {
        to_map(self.records@)
    }

    pub closed spec fn spec_max_records(self) -> usize {
        self.max_records
    }

    /// Addresses whose records changed since the last `take_dirty`.
    pub closed spec fn spec_dirty(self) -> Set<PeerAddr> {
        self.dirty@.to_set()
    }

    /// Addresses dropped since the last `take_removed`.
    pub closed spec fn spec_removed(self) -> Seq<PeerAddr> {
        self.removed@
    }

    /// Where an address's record sits, if it has one.
    fn find(&self, addr: PeerAddr) -> (r: Option<usize>)
        ensures
            match r {
                Some(i) => i < self.records@.len() && self.records@[i as int].0 == addr,
                None => !self.spec_records().contains_key(addr),
            },
    {
        let mut i: usize = 0;
        while i < self.records.len()
            invariant
                i <= self.records@.len(),
                forall|j: int| 0 <= j < i ==> (#[trigger] self.records@[j]).0 != addr,
            decreases self.records@.len() - i,
        {
            if self.records[i].0 == addr {
                return Some(i);
            }
            i = i + 1;
        }
        proof {
            use_type_invariant(self);
            lemma_to_map_unique(self.records@);
            if self.spec_records().contains_key(addr) {
                let j = choose|j: int| 0 <= j < self.records@.len() && (#[trigger] self.records@[j]).0 == addr;
            }
        }
        None
    }

    /// Files `record` under its address, replacing what was there.
    fn put(&mut self, record: AddressRecord)
        ensures
            final(self).spec_records() == old(self).spec_records().insert(record.addr, record),
            final(self).max_records == old(self).max_records,
            final(self).dirty == old(self).dirty,
            final(self).removed == old(self).removed,
    {
        proof {
            use_type_invariant(&*self);
        }
        let found = self.find(record.addr);
        let mut records = Vec::new();
        std::mem::swap(&mut records, &mut self.records);
        let ghost before = records@;
        match found {
            Some(i) => {
                proof {
                    lemma_to_map_update(before, i as int, record);
                    assert(before.update(i as int, (record.addr, record)) == before.update(
                        i as int,
                        (before[i as int].0, record),
                    ));
                }
                records.set(i, (record.addr, record));
            },
            None => {
                proof {
                    lemma_to_map_push(before, record.addr, record);
                }
                records.push((record.addr, record));
            },
        }
        proof {
            assert forall|j: int| 0 <= j < records@.len() implies (#[trigger] records@[j]).1.addr == records@[j].0 by {
                if records@[j].0 != record.addr {
                    assert(records@[j] == before[j]);
                }
            }
        }
        self.records = records;
    }

    /// Notes that an address's record changed.
    fn mark_dirty(&mut self, addr: PeerAddr)
        ensures
            final(self).spec_dirty() == old(self).spec_dirty().insert(addr),
            final(self).records == old(self).records,
            final(self).max_records == old(self).max_records,
            final(self).removed == old(self).removed,
    {
        proof {
            use_type_invariant(&*self);
        }
        if !contains_addr(self.dirty.as_slice(), addr) {
            let mut dirty = Vec::new();
            std::mem::swap(&mut dirty, &mut self.dirty);
            let ghost before = dirty@;
            dirty.push(addr);
            proof {
                assert forall|i: int, j: int| 0 <= i < dirty@.len() && 0 <= j < dirty@.len() && i != j implies dirty@[i]
                    != dirty@[j] by {
                    if i < before.len() && j < before.len() {
                        assert(dirty@[i] == before[i] && dirty@[j] == before[j]);
                    } else if i < before.len() {
                        assert(dirty@[i] == before[i]);
                        assert(before.contains(before[i]));
                    } else {
                        assert(dirty@[j] == before[j]);
                        assert(before.contains(before[j]));
                    }
                }
                assert(dirty@.to_set() =~= before.to_set().insert(addr)) by {
                    assert forall|x: PeerAddr| dirty@.to_set().contains(x) <==> before.to_set().insert(addr).contains(x) by {
                        if dirty@.contains(x) && x != addr {
                            let k = choose|k: int| 0 <= k < dirty@.len() && dirty@[k] == x;
                            assert(before[k] == x);
                        }
                        if before.contains(x) {
                            let k = choose|k: int| 0 <= k < before.len() && before[k] == x;
                            assert(dirty@[k] == x);
                        }
                        if x == addr {
                            assert(dirty@[before.len() as int] == x);
                        }
                    }
                }
            }
            self.dirty = dirty;
        } else {
            proof {
                assert(self.dirty@.to_set() =~= self.dirty@.to_set().insert(addr));
            }
        }
    }

    pub fn new(stored: Vec<AddressRecord>, max_records: usize) -> (r: AddressManager)
        ensures
            r.spec_records() == stored_addresses(stored@),
            r.spec_records().dom().finite(),
            r.spec_max_records() == if max_records < 1 { 1 } else { max_records },
            r.spec_dirty().is_empty(),
            r.spec_removed().len() == 0,
    {
        let mut manager = AddressManager {
            records: Vec::new(),
            max_records: if max_records < 1 { 1 } else { max_records },
            dirty: Vec::new(),
            removed: Vec::new(),
        };
        let mut i: usize = 0;
        while i < stored.len()
            invariant
                i <= stored@.len(),
                manager.spec_records() == stored_addresses(stored@.take(i as int)),
                manager.max_records == if max_records < 1 { 1 } else { max_records },
                manager.dirty@.len() == 0,
                manager.removed@.len() == 0,
            decreases stored@.len() - i,
        {
            proof {
                assert(stored@.take(i + 1).drop_last() =~= stored@.take(i as int));
                assert(stored@.take(i + 1).last() == stored@[i as int]);
            }
            manager.put(stored[i]);
            i = i + 1;
        }
        proof {
            assert(stored@.take(stored@.len() as int) =~= stored@);
            assert(manager.dirty@.to_set() =~= Set::<PeerAddr>::empty());
            use_type_invariant(&manager);
            lemma_to_map_len(manager.records@);
        }
        manager
    }

    pub fn len(&self) -> (r: usize)
        ensures
            r == self.spec_records().len(),
            self.spec_records().dom().finite(),
    {
        proof {
            use_type_invariant(self);
            lemma_to_map_len(self.records@);
        }
        self.records.len()
    }

    pub fn is_empty(&self) -> (r: bool)
        ensures
            r == (self.spec_records().len() == 0),
    {
        self.len() == 0
    }

    /// How many addresses are in the tried table.
    pub fn tried_count(&self) -> (r: usize)
        ensures
            r == self.spec_records().dom().filter(|a: PeerAddr| self.spec_records()[a].tried).len(),
    {
        proof {
            use_type_invariant(self);
        }
        let ghost s = self.records@;
        let mut count: usize = 0;
        let mut i: usize = 0;
        while i < self.records.len()
            invariant
                s == self.records@,
                i <= s.len(),
                count == s.take(i as int).filter(record_tried()).len(),
                count <= i,
            decreases s.len() - i,
        {
            proof {
                reveal(Seq::filter);
                assert(s.take(i + 1).drop_last() =~= s.take(i as int));
                assert(s.take(i + 1).last() == s[i as int]);
            }
            if self.records[i].1.tried {
                count = count + 1;
            }
            i = i + 1;
        }
        proof {
            assert(s.take(s.len() as int) =~= s);
            lemma_to_map_filter(s, record_tried());
            lemma_to_map_len(s.filter(record_tried()));
            let m = to_map(s);
            let kept = m.dom().filter(|a: PeerAddr| record_tried()((a, m[a])));
            assert(kept =~= m.dom().filter(|a: PeerAddr| m[a].tried));
            assert(m.restrict(kept).dom() =~= kept);
        }
        count
    }

    /// Adds an address we learned about. Returns true if it was not known before. An address
    /// that cannot be dialled is ignored. When the book is full, the least useful untried
    /// address makes room; if every address is tried, the new one is not added.
    pub fn add(&mut self, addr: PeerAddr, services: u64, now: i64) -> (r: bool)
        ensures
            !spec_is_routable(addr) ==> !r && final(self).spec_records() == old(self).spec_records()
                && final(self).spec_dirty() == old(self).spec_dirty() && final(self).spec_removed()
                == old(self).spec_removed(),
            spec_is_routable(addr) && old(self).spec_records().contains_key(addr) ==> {
                &&& !r
                &&& final(self).spec_records() == old(self).spec_records().insert(
                    addr,
                    seen_again(old(self).spec_records()[addr], services, now),
                )
                &&& final(self).spec_dirty() == old(self).spec_dirty().insert(addr)
                &&& final(self).spec_removed() == old(self).spec_removed()
            },
            spec_is_routable(addr) && !old(self).spec_records().contains_key(addr) && old(self).spec_records().len()
                < old(self).spec_max_records() ==> {
                &&& r
                &&& final(self).spec_records() == old(self).spec_records().insert(
                    addr,
                    new_record(addr, services, now),
                )
                &&& final(self).spec_dirty() == old(self).spec_dirty().insert(addr)
                &&& final(self).spec_removed() == old(self).spec_removed()
            },
            spec_is_routable(addr) && !old(self).spec_records().contains_key(addr) && old(self).spec_records().len()
                >= old(self).spec_max_records() ==> {
                &&& r <==> exists|a: PeerAddr| #[trigger] old(self).spec_records().contains_key(a) && !old(self).spec_records()[a].tried
                &&& !r ==> final(self).spec_records() == old(self).spec_records() && final(self).spec_dirty()
                    == old(self).spec_dirty() && final(self).spec_removed() == old(self).spec_removed()
                &&& r ==> {
                    let victim = final(self).spec_removed().last();
                    &&& is_eviction_victim(old(self).spec_records(), victim)
                    &&& final(self).spec_records() == old(self).spec_records().remove(victim).insert(
                        addr,
                        new_record(addr, services, now),
                    )
                    &&& final(self).spec_dirty() == old(self).spec_dirty().remove(victim).insert(addr)
                    &&& final(self).spec_removed() == old(self).spec_removed().push(victim)
                }
            },
            final(self).spec_max_records() == old(self).spec_max_records(),
            old(self).spec_records().dom().finite(),
            final(self).spec_records().dom().finite(),
    {
        proof {
            use_type_invariant(&*self);
            lemma_to_map_len(self.records@);
        }
        if !is_routable(addr) {
            return false;
        }
        match self.find(addr) {
            Some(i) => {
                let old_record = self.records[i].1;
                proof {
                    use_type_invariant(&*self);
                    lemma_to_map_unique(self.records@);
                }
                let record = AddressRecord {
                    last_seen: now,
                    services: if services != 0 { services } else { old_record.services },
                    ..old_record
                };
                self.put(record);
                self.mark_dirty(addr);
                false
            },
            None => {
                proof {
                    use_type_invariant(&*self);
                    lemma_to_map_len(self.records@);
                }
                if self.records.len() >= self.max_records {
                    if !self.evict_one() {
                        return false;
                    }
                }
                proof {
                    use_type_invariant(&*self);
                }
                let ghost mid = self.spec_records();
                assert(!mid.contains_key(addr));
                self.put(AddressRecord::new(addr, services, now));
                self.mark_dirty(addr);
                true
            },
        }
    }

    /// Drops the least useful untried address. Tried addresses are kept. Returns whether one
    /// was dropped.
    fn evict_one(&mut self) -> (r: bool)
        ensures
            r <==> exists|a: PeerAddr| #[trigger] old(self).spec_records().contains_key(a) && !old(self).spec_records()[a].tried,
            !r ==> *final(self) == *old(self),
            r ==> {
                let victim = final(self).spec_removed().last();
                &&& is_eviction_victim(old(self).spec_records(), victim)
                &&& final(self).spec_records() == old(self).spec_records().remove(victim)
                &&& final(self).spec_dirty() == old(self).spec_dirty().remove(victim)
                &&& final(self).spec_removed() == old(self).spec_removed().push(victim)
            },
            final(self).max_records == old(self).max_records,
    {
        proof {
            use_type_invariant(&*self);
            lemma_to_map_unique(self.records@);
        }
        let ghost s = self.records@;
        let mut best: Option<usize> = None;
        let mut i: usize = 0;
        while i < self.records.len()
            invariant
                s == self.records@,
                i <= s.len(),
                match best {
                    Some(b) => b < i && !s[b as int].1.tried && forall|j: int|
                        0 <= j < i && !(#[trigger] s[j]).1.tried ==> no_more_useful(s[b as int].1, s[j].1),
                    None => forall|j: int| 0 <= j < i ==> (#[trigger] s[j]).1.tried,
                },
            decreases s.len() - i,
        {
            let candidate = self.records[i].1;
            if !candidate.tried {
                match best {
                    None => {
                        best = Some(i);
                    },
                    Some(b) => {
                        let current = self.records[b].1;
                        if candidate.last_seen < current.last_seen || (candidate.last_seen == current.last_seen
                            && candidate.attempts > current.attempts) {
                            best = Some(i);
                        }
                    },
                }
            }
            i = i + 1;
        }
        match best {
            None => {
                proof {
                    let m = self.spec_records();
                    if exists|a: PeerAddr| #[trigger] m.contains_key(a) && !m[a].tried {
                        let a = choose|a: PeerAddr| #[trigger] m.contains_key(a) && !m[a].tried;
                        let j = choose|j: int| 0 <= j < s.len() && (#[trigger] s[j]).0 == a;
                        assert(s[j].1.tried);
                    }
                }
                false
            },
            Some(b) => {
                let victim = self.records[b].0;
                let ghost m = self.spec_records();
                proof {
                    assert(m.contains_key(victim) && m[victim] == s[b as int].1);
                    assert forall|a: PeerAddr| #[trigger] m.contains_key(a) && !m[a].tried implies no_more_useful(
                        m[victim],
                        m[a],
                    ) by {
                        let j = choose|j: int| 0 <= j < s.len() && (#[trigger] s[j]).0 == a;
                        assert(m[a] == s[j].1);
                    }
                }
                let mut records = Vec::new();
                std::mem::swap(&mut records, &mut self.records);
                proof {
                    lemma_to_map_remove(s, b as int);
                }
                let _ = records.remove(b);
                proof {
                    assert forall|j: int| 0 <= j < records@.len() implies (#[trigger] records@[j]).1.addr == records@[j].0 by {
                        if j < b {
                            assert(records@[j] == s[j]);
                        } else {
                            assert(records@[j] == s[j + 1]);
                        }
                    }
                }
                self.records = records;
                self.forget_dirty(victim);
                proof {
                    use_type_invariant(&*self);
                }
                let mut removed = Vec::new();
                std::mem::swap(&mut removed, &mut self.removed);
                removed.push(victim);
                self.removed = removed;
                proof {
                    assert(self.removed@.last() == victim);
                }
                true
            },
        }
    }

    /// Drops an address from the changed ones.
    fn forget_dirty(&mut self, addr: PeerAddr)
        ensures
            final(self).spec_dirty() == old(self).spec_dirty().remove(addr),
            final(self).records == old(self).records,
            final(self).max_records == old(self).max_records,
            final(self).removed == old(self).removed,
    {
        proof {
            use_type_invariant(&*self);
        }
        match find_addr(self.dirty.as_slice(), addr) {
            Some(i) => {
                let mut dirty = Vec::new();
                std::mem::swap(&mut dirty, &mut self.dirty);
                let ghost before = dirty@;
                let _ = dirty.remove(i);
                proof {
                    assert forall|a: int, b: int| 0 <= a < dirty@.len() && 0 <= b < dirty@.len() && a != b implies dirty@[a]
                        != dirty@[b] by {
                        let a2 = if a < i { a } else { a + 1 };
                        let b2 = if b < i { b } else { b + 1 };
                        assert(dirty@[a] == before[a2] && dirty@[b] == before[b2]);
                    }
                    assert forall|x: PeerAddr| dirty@.to_set().contains(x) <==> before.to_set().remove(addr).contains(x) by {
                        if dirty@.contains(x) {
                            let k = choose|k: int| 0 <= k < dirty@.len() && dirty@[k] == x;
                            let k2 = if k < i { k } else { k + 1 };
                            assert(before[k2] == x);
                            assert(k2 != i);
                        }
                        if before.contains(x) && x != addr {
                            let k = choose|k: int| 0 <= k < before.len() && before[k] == x;
                            if k < i {
                                assert(dirty@[k] == x);
                            } else {
                                assert(dirty@[k - 1] == x);
                            }
                        }
                    }
                    assert(dirty@.to_set() =~= before.to_set().remove(addr));
                }
                self.dirty = dirty;
            },
            None => {
                proof {
                    assert(self.dirty@.to_set() =~= self.dirty@.to_set().remove(addr));
                }
            },
        }
    }

    /// A connection attempt starts.
    pub fn mark_attempt(&mut self, addr: PeerAddr, now: i64)
        ensures
            old(self).updates(*final(self), addr, |r: AddressRecord| attempted(r, now)),
    {
        if let Some(i) = self.find(addr) {
            proof {
                use_type_invariant(&*self);
                lemma_to_map_unique(self.records@);
            }
            let record = AddressRecord { last_try: now, ..self.records[i].1 };
            self.put(record);
            self.mark_dirty(addr);
        }
    }

    /// A connection succeeded: the address moves to the tried table.
    pub fn mark_good(&mut self, addr: PeerAddr, services: u64, now: i64)
        ensures
            old(self).updates(*final(self), addr, |r: AddressRecord| succeeded(r, services, now)),
    {
        if let Some(i) = self.find(addr) {
            proof {
                use_type_invariant(&*self);
                lemma_to_map_unique(self.records@);
            }
            let current = self.records[i].1;
            let record = AddressRecord {
                last_success: now,
                last_seen: now,
                attempts: 0,
                tried: true,
                services: if services != 0 { services } else { current.services },
                ..current
            };
            self.put(record);
            self.mark_dirty(addr);
        }
    }

    /// A connection attempt failed.
    pub fn mark_failed(&mut self, addr: PeerAddr, now: i64)
        ensures
            old(self).updates(*final(self), addr, |r: AddressRecord| failed(r, now)),
    {
        if let Some(i) = self.find(addr) {
            proof {
                use_type_invariant(&*self);
                lemma_to_map_unique(self.records@);
            }
            let current = self.records[i].1;
            let attempts: u32 = if current.attempts < u32::MAX { current.attempts + 1 } else { u32::MAX };
            let record = AddressRecord { attempts, last_try: now, ..current };
            self.put(record);
            self.mark_dirty(addr);
        }
    }

    /// Picks an address to connect to.
    ///
    /// `feeler` selects only untried addresses, which is what Core's feeler connections test.
    /// `excluded_groups` holds the network groups we are already connected to. Among the
    /// eligible addresses, the tried and the new ones are chosen from with even odds when
    /// both have some; within the chosen table every address is equally likely.
    pub fn select(
        &self,
        feeler: bool,
        now: i64,
        in_use: &[PeerAddr],
        excluded_groups: &[Group],
        is_banned: impl Fn(IpAddress) -> bool,
    ) -> (r: Option<PeerAddr>)
        requires
            forall|ip: IpAddress| is_banned.requires((ip,)),
        ensures
            r matches Some(a) ==> selectable(self.spec_records(), a, feeler, now, in_use@, excluded_groups@)
                && is_banned.ensures((a.ip,), false),
            r is None ==> forall|a: PeerAddr|
                #[trigger] selectable(self.spec_records(), a, feeler, now, in_use@, excluded_groups@)
                    ==> is_banned.ensures((a.ip,), true),
    {
        proof {
            use_type_invariant(self);
            lemma_to_map_unique(self.records@);
        }
        let ghost s = self.records@;
        let ghost m = self.spec_records();
        let mut tried: Vec<usize> = Vec::new();
        let mut fresh: Vec<usize> = Vec::new();
        let mut i: usize = 0;
        while i < self.records.len()
            invariant
                s == self.records@,
                i <= s.len(),
                forall|ip: IpAddress| is_banned.requires((ip,)),
                forall|t: int|
                    0 <= t < tried@.len() ==> #[trigger] tried@[t] < i && s[tried@[t] as int].1.tried
                        && eligible_at(s, tried@[t] as int, now, in_use@, excluded_groups@, is_banned),
                forall|t: int|
                    0 <= t < fresh@.len() ==> #[trigger] fresh@[t] < i && !s[fresh@[t] as int].1.tried
                        && eligible_at(s, fresh@[t] as int, now, in_use@, excluded_groups@, is_banned),
                forall|j: int|
                    0 <= j < i ==> rejected_at(s, j, now, in_use@, excluded_groups@, is_banned) || ((
                    #[trigger] s[j]).1.tried && tried@.len() > 0) || (!s[j].1.tried && fresh@.len() > 0),
            decreases s.len() - i,
        {
            let a = self.records[i].0;
            let record = self.records[i].1;
            let usable = !contains_addr(in_use, a) && !contains_group(excluded_groups, group_of(a.ip)) && !is_banned(a.ip)
                && retry_ready(&record, now);
            if usable {
                if record.tried {
                    tried.push(i);
                } else {
                    fresh.push(i);
                }
            }
            i = i + 1;
        }
        let pool = if feeler || tried.len() == 0 {
            fresh
        } else if fresh.len() == 0 || random_coin() {
            tried
        } else {
            fresh
        };
        proof {
            assert forall|t: int| 0 <= t < pool@.len() implies #[trigger] pool@[t] < s.len() && (feeler ==> !s[pool@[t] as int].1.tried)
                && eligible_at(s, pool@[t] as int, now, in_use@, excluded_groups@, is_banned) by {}
        }
        match random_index(pool.len()) {
            Some(k) => {
                let j = pool[k];
                proof {
                    assert(m.contains_key(s[j as int].0) && m[s[j as int].0] == s[j as int].1);
                }
                Some(self.records[j].0)
            },
            None => {
                proof {
                    assert forall|a: PeerAddr| #[trigger] selectable(m, a, feeler, now, in_use@, excluded_groups@) implies is_banned.ensures(
                        (a.ip,),
                        true,
                    ) by {
                        let j = choose|j: int| 0 <= j < s.len() && (#[trigger] s[j]).0 == a;
                        assert(m[a] == s[j].1);
                        assert(rejected_at(s, j, now, in_use@, excluded_groups@, is_banned) || (s[j].1.tried && tried@.len() > 0) || (!s[j].1.tried && fresh@.len() > 0));
                    }
                }
                None
            },
        }
    }

    /// The records changed since the last call, for persisting; an address dropped since is
    /// left out. The order is unspecified.
    pub fn take_dirty(&mut self) -> (r: Vec<AddressRecord>)
        ensures
            forall|i: int|
                0 <= i < r@.len() ==> old(self).spec_dirty().contains((#[trigger] r@[i]).addr)
                    && old(self).spec_records().contains_key(r@[i].addr) && old(self).spec_records()[r@[i].addr] == r@[i],
            forall|a: PeerAddr|
                old(self).spec_dirty().contains(a) && #[trigger] old(self).spec_records().contains_key(a) ==> exists|i: int|
                    0 <= i < r@.len() && r@[i] == old(self).spec_records()[a],
            forall|i: int, j: int| 0 <= i < j < r@.len() ==> (#[trigger] r@[i]).addr != (#[trigger] r@[j]).addr,
            final(self).spec_dirty().is_empty(),
            final(self).spec_records() == old(self).spec_records(),
            final(self).spec_removed() == old(self).spec_removed(),
            final(self).spec_max_records() == old(self).spec_max_records(),
    {
        proof {
            use_type_invariant(&*self);
            lemma_to_map_unique(self.records@);
        }
        let mut dirty = Vec::new();
        std::mem::swap(&mut dirty, &mut self.dirty);
        let ghost d = dirty@;
        let ghost m = self.spec_records();
        proof {
            assert forall|a: PeerAddr| #[trigger] m.contains_key(a) implies m[a].addr == a by {
                let j = choose|j: int| 0 <= j < self.records@.len() && (#[trigger] self.records@[j]).0 == a;
            }
        }
        let mut out: Vec<AddressRecord> = Vec::new();
        let ghost mut source: Seq<int> = Seq::empty();
        let mut k: usize = 0;
        while k < dirty.len()
            invariant
                dirty@ == d,
                d.no_duplicates(),
                m == self.spec_records(),
                forall|a: PeerAddr| #[trigger] m.contains_key(a) ==> m[a].addr == a,
                k <= d.len(),
                source.len() == out@.len(),
                forall|t: int| 0 <= t < source.len() ==> 0 <= #[trigger] source[t] < k,
                forall|t: int|
                    0 <= t < source.len() ==> m.contains_key(d[#[trigger] source[t]]) && out@[t] == m[d[source[t]]],
                forall|t: int, u: int| 0 <= t < u < source.len() ==> #[trigger] source[t] < #[trigger] source[u],
                forall|j: int|
                    0 <= j < k && #[trigger] m.contains_key(d[j]) ==> exists|t: int| 0 <= t < out@.len() && out@[t] == m[d[j]],
            decreases d.len() - k,
        {
            let a = dirty[k];
            match self.find(a) {
                Some(i) => {
                    let ghost before = out@;
                    out.push(self.records[i].1);
                    proof {
                        use_type_invariant(&*self);
                        lemma_to_map_unique(self.records@);
                        assert(m.contains_key(a) && m[a] == self.records@[i as int].1);
                        source = source.push(k as int);
                        assert forall|j: int| 0 <= j < k + 1 && #[trigger] m.contains_key(d[j]) implies exists|t: int|
                            0 <= t < out@.len() && out@[t] == m[d[j]] by {
                            if j < k {
                                let t = choose|t: int| 0 <= t < before.len() && before[t] == m[d[j]];
                                assert(out@[t] == before[t]);
                            } else {
                                assert(out@[out@.len() - 1] == m[d[j]]);
                            }
                        }
                    }
                },
                None => {},
            }
            k = k + 1;
        }
        proof {
            assert forall|i: int| 0 <= i < out@.len() implies d.to_set().contains((#[trigger] out@[i]).addr)
                && m.contains_key(out@[i].addr) && m[out@[i].addr] == out@[i] by {
                assert(d.contains(d[source[i]]));
            }
            assert forall|a: PeerAddr| d.to_set().contains(a) && #[trigger] m.contains_key(a) implies exists|i: int|
                0 <= i < out@.len() && out@[i] == m[a] by {
                let j = choose|j: int| 0 <= j < d.len() && d[j] == a;
                assert(m.contains_key(d[j]));
            }
            assert forall|i: int, j: int| 0 <= i < j < out@.len() implies (#[trigger] out@[i]).addr != (#[trigger] out@[j]).addr by {
                assert(source[i] < source[j]);
            }
            assert(self.dirty@.to_set() =~= Set::<PeerAddr>::empty());
        }
        out
    }

    /// Addresses dropped since the last call, for deleting.
    pub fn take_removed(&mut self) -> (r: Vec<PeerAddr>)
        ensures
            r@ == old(self).spec_removed(),
            final(self).spec_removed().len() == 0,
            final(self).spec_records() == old(self).spec_records(),
            final(self).spec_dirty() == old(self).spec_dirty(),
            final(self).spec_max_records() == old(self).spec_max_records(),
    {
        proof {
            use_type_invariant(&*self);
        }
        let mut removed = Vec::new();
        std::mem::swap(&mut removed, &mut self.removed);
        removed
    }
}

spec fn record_tried() -> spec_fn((PeerAddr, AddressRecord)) -> bool {
    |p: (PeerAddr, AddressRecord)| p.1.tried
}

/// The record at `j` passed every test of selection.
spec fn eligible_at<F: Fn(IpAddress) -> bool>(
    s: Seq<(PeerAddr, AddressRecord)>,
    j: int,
    now: i64,
    in_use: Seq<PeerAddr>,
    excluded_groups: Seq<Group>,
    is_banned: F,
) -> bool {
    let a = s[j].0;
    &&& !in_use.contains(a)
    &&& !excluded_groups.contains(spec_group_of(a.ip))
    &&& is_banned.ensures((a.ip,), false)
    &&& spec_retry_ready(s[j].1, now)
}

/// The record at `j` failed a test of selection.
spec fn rejected_at<F: Fn(IpAddress) -> bool>(
    s: Seq<(PeerAddr, AddressRecord)>,
    j: int,
    now: i64,
    in_use: Seq<PeerAddr>,
    excluded_groups: Seq<Group>,
    is_banned: F,
) -> bool {
    let a = s[j].0;
    ||| in_use.contains(a)
    ||| excluded_groups.contains(spec_group_of(a.ip))
    ||| is_banned.ensures((a.ip,), true)
    ||| !spec_retry_ready(s[j].1, now)
}

} // verus!
