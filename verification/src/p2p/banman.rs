//! Bans and discouragement, following Bitcoin Core's split.
//!
//! A ban is manual, covers a subnet, has an expiry and is stored in the database. Config
//! entries act as bans that last while they stay in the config. Discouragement is automatic
//! from misbehaviour, applies to a single address, and is kept in memory only.
//!
//! Core's ban list was once unbounded, which became a memory issue, so both collections here
//! are capped and swept.

use vstd::prelude::*;

use crate::net::IpAddress;
use crate::storage::BanRecord;
use super::permissions::{lemma_subnet_roundtrip, Subnet};
use crate::pairs::{
    lemma_to_map_filter, lemma_to_map_len, lemma_to_map_push, lemma_to_map_remove, lemma_to_map_unique,
    lemma_to_map_update, to_map, unique_keys,
};

verus! {

/// Upper bound on remembered discouraged addresses.
pub const MAX_DISCOURAGED: usize = 50_000;

/// `a + b`, held to the range of `i64`.
pub open spec fn saturating_add(a: i64, b: i64) -> i64 {
    let s = a + b;
    if s < i64::MIN { i64::MIN } else if s > i64::MAX { i64::MAX } else { s as i64 }
}

fn sat_add(a: i64, b: i64) -> (r: i64)
    ensures
        r == saturating_add(a, b),
{
    if b > 0 && a > i64::MAX - b {
        i64::MAX
    } else if b < 0 && a < i64::MIN - b {
        i64::MIN
    } else {
        a + b
    }
}

pub struct BanManager {
    /// Bans from the config file: active while configured, never stored.
    configured: Vec<Subnet>,
    /// Stored bans, by subnet.
    bans: Vec<(Subnet, BanRecord)>,
    /// Addresses discouraged after misbehaviour, with their expiry.
    discouraged: Vec<(IpAddress, i64)>,
    default_duration: i64,
    discourage_duration: i64,
    dirty: Vec<BanRecord>,
    removed: Vec<[u8; 17]>,
}

impl BanManager {
    #[verifier::type_invariant]
    spec fn consistent(self) -> bool {
        &&& unique_keys(self.bans@)
        &&& unique_keys(self.discouraged@)
        &&& forall|i: int| 0 <= i < self.bans@.len() ==> (#[trigger] self.bans@[i]).1.subnet@ == self.bans@[i].0.spec_bytes()
        &&& self.discouraged@.len() <= MAX_DISCOURAGED
    }

    /// Stored bans, by subnet.
    pub closed spec fn spec_bans(self) -> Map<Subnet, BanRecord> {
        to_map(self.bans@)
    }

    pub closed spec fn spec_configured(self) -> Seq<Subnet> {
        self.configured@
    }

    /// Discouraged addresses and when each discouragement ends.
    pub closed spec fn spec_discouraged(self) -> Map<IpAddress, i64> {
        to_map(self.discouraged@)
    }

    pub closed spec fn spec_default_duration(self) -> i64 {
        self.default_duration
    }

    pub closed spec fn spec_discourage_duration(self) -> i64 {
        self.discourage_duration
    }

    /// Bans added since the last `take_dirty`.
    pub closed spec fn spec_dirty(self) -> Seq<BanRecord> {
        self.dirty@
    }

    /// Keys of bans dropped since the last `take_removed`.
    pub closed spec fn spec_removed(self) -> Seq<[u8; 17]> {
        self.removed@
    }

    /// Whether a stored ban covers an address at `now`.
    pub open spec fn spec_ban_covers(self, ip: IpAddress, now: i64) -> bool {
        exists|s: Subnet| #[trigger] self.spec_bans().contains_key(s) && self.spec_bans()[s].until > now && s.spec_contains(ip)
    }

    /// Whether a configured ban covers an address.
    pub open spec fn spec_configured_covers(self, ip: IpAddress) -> bool {
        exists|i: int| 0 <= i < self.spec_configured().len() && (#[trigger] self.spec_configured()[i]).spec_contains(ip)
    }

    /// Where a subnet's ban sits, if it has one.
    fn find_ban(&self, subnet: Subnet) -> (r: Option<usize>)
        ensures
            match r {
                Some(i) => i < self.bans@.len() && self.bans@[i as int].0 == subnet,
                None => !self.spec_bans().contains_key(subnet),
            },
    {
        let mut i: usize = 0;
        while i < self.bans.len()
            invariant
                i <= self.bans@.len(),
                forall|j: int| 0 <= j < i ==> (#[trigger] self.bans@[j]).0 != subnet,
            decreases self.bans@.len() - i,
        {
            if self.bans[i].0 == subnet {
                return Some(i);
            }
            i = i + 1;
        }
        proof {
            use_type_invariant(self);
            lemma_to_map_unique(self.bans@);
            if self.spec_bans().contains_key(subnet) {
                let j = choose|j: int| 0 <= j < self.bans@.len() && (#[trigger] self.bans@[j]).0 == subnet;
            }
        }
        None
    }

    /// Where an address's discouragement sits, if it has one.
    fn find_discouraged(&self, ip: IpAddress) -> (r: Option<usize>)
        ensures
            match r {
                Some(i) => i < self.discouraged@.len() && self.discouraged@[i as int].0 == ip,
                None => !self.spec_discouraged().contains_key(ip),
            },
    {
        let mut i: usize = 0;
        while i < self.discouraged.len()
            invariant
                i <= self.discouraged@.len(),
                forall|j: int| 0 <= j < i ==> (#[trigger] self.discouraged@[j]).0 != ip,
            decreases self.discouraged@.len() - i,
        {
            if self.discouraged[i].0 == ip {
                return Some(i);
            }
            i = i + 1;
        }
        proof {
            use_type_invariant(self);
            lemma_to_map_unique(self.discouraged@);
            if self.spec_discouraged().contains_key(ip) {
                let j = choose|j: int| 0 <= j < self.discouraged@.len() && (#[trigger] self.discouraged@[j]).0 == ip;
            }
        }
        None
    }

    /// Files `record` under `subnet`, replacing what was there.
    fn put_ban(&mut self, subnet: Subnet, record: BanRecord)
        requires
            record.subnet@ == subnet.spec_bytes(),
        ensures
            final(self).spec_bans() == old(self).spec_bans().insert(subnet, record),
            final(self).configured == old(self).configured,
            final(self).discouraged == old(self).discouraged,
            final(self).default_duration == old(self).default_duration,
            final(self).discourage_duration == old(self).discourage_duration,
            final(self).dirty == old(self).dirty,
            final(self).removed == old(self).removed,
    {
        proof {
            use_type_invariant(&*self);
        }
        let found = self.find_ban(subnet);
        let mut bans = Vec::new();
        std::mem::swap(&mut bans, &mut self.bans);
        let ghost old_bans = bans@;
        match found {
            Some(i) => {
                proof {
                    lemma_to_map_update(old_bans, i as int, record);
                    assert(old_bans.update(i as int, (subnet, record)) == old_bans.update(i as int, (old_bans[i as int].0, record)));
                }
                bans.set(i, (subnet, record));
            },
            None => {
                proof {
                    lemma_to_map_push(old_bans, subnet, record);
                }
                bans.push((subnet, record));
            },
        }
        proof {
            assert forall|i: int| 0 <= i < bans@.len() implies (#[trigger] bans@[i]).1.subnet@ == bans@[i].0.spec_bytes() by {
                if bans@[i].0 != subnet {
                    assert(bans@[i] == old_bans[i]);
                }
            }
        }
        self.bans = bans;
    }

    /// Removes the ban at `i`.
    fn drop_ban(&mut self, i: usize) -> (r: [u8; 17])
        requires
            i < old(self).bans@.len(),
        ensures
            final(self).spec_bans() == old(self).spec_bans().remove(old(self).bans@[i as int].0),
            r@ == old(self).bans@[i as int].0.spec_bytes(),
            final(self).configured == old(self).configured,
            final(self).discouraged == old(self).discouraged,
            final(self).default_duration == old(self).default_duration,
            final(self).discourage_duration == old(self).discourage_duration,
            final(self).dirty == old(self).dirty,
            final(self).removed == old(self).removed,
    {
        proof {
            use_type_invariant(&*self);
        }
        let mut bans = Vec::new();
        std::mem::swap(&mut bans, &mut self.bans);
        let ghost old_bans = bans@;
        proof {
            lemma_to_map_remove(old_bans, i as int);
        }
        let (subnet, _record) = bans.remove(i);
        proof {
            assert forall|j: int| 0 <= j < bans@.len() implies (#[trigger] bans@[j]).1.subnet@ == bans@[j].0.spec_bytes() by {
                if j < i {
                    assert(bans@[j] == old_bans[j]);
                } else {
                    assert(bans@[j] == old_bans[j + 1]);
                }
            }
        }
        self.bans = bans;
        subnet.to_bytes()
    }

    pub fn new(
        stored: Vec<BanRecord>,
        configured: Vec<Subnet>,
        default_duration: i64,
        discourage_duration: i64,
    ) -> (r: BanManager)
        ensures
            r.spec_bans() == stored_bans(stored@),
            r.spec_configured() == configured@,
            r.spec_discouraged() == Map::<IpAddress, i64>::empty(),
            r.spec_default_duration() == default_duration,
            r.spec_discourage_duration() == discourage_duration,
            r.spec_dirty().len() == 0,
            r.spec_removed().len() == 0,
    {
        let mut manager = BanManager {
            configured,
            bans: Vec::new(),
            discouraged: Vec::new(),
            default_duration,
            discourage_duration,
            dirty: Vec::new(),
            removed: Vec::new(),
        };
        let mut i: usize = 0;
        while i < stored.len()
            invariant
                i <= stored@.len(),
                manager.spec_bans() == stored_bans(stored@.take(i as int)),
                manager.spec_configured() == configured@,
                manager.spec_discouraged() == Map::<IpAddress, i64>::empty(),
                manager.spec_default_duration() == default_duration,
                manager.spec_discourage_duration() == discourage_duration,
                manager.spec_dirty().len() == 0,
                manager.spec_removed().len() == 0,
            decreases stored@.len() - i,
        {
            let record = stored[i].copy();
            proof {
                assert(stored@.take(i + 1).drop_last() =~= stored@.take(i as int));
                assert(stored@.take(i + 1).last() == stored@[i as int]);
            }
            match Subnet::from_bytes(record.subnet.as_slice()) {
                Some(subnet) => {
                    proof {
                        assert(record.subnet@.subrange(0, 17) =~= record.subnet@);
                    }
                    manager.put_ban(subnet, record);
                },
                None => {},
            }
            i = i + 1;
        }
        proof {
            assert(stored@.take(stored@.len() as int) =~= stored@);
        }
        manager
    }

    /// Bans a subnet until `now + duration`, or the default duration, held to the range of
    /// `i64`.
    pub fn ban(&mut self, subnet: Subnet, reason: String, now: i64, duration: Option<i64>)
        ensures
            ({
                let d = match duration { Some(d) => d, None => old(self).spec_default_duration() };
                let record = BanRecord {
                    subnet: final(self).spec_bans()[subnet].subnet,
                    created: now,
                    until: saturating_add(now, d),
                    reason,
                };
                &&& final(self).spec_bans() == old(self).spec_bans().insert(subnet, record)
                &&& final(self).spec_bans()[subnet].subnet@ == subnet.spec_bytes()
                &&& final(self).spec_dirty() == old(self).spec_dirty().push(record)
            }),
            final(self).spec_configured() == old(self).spec_configured(),
            final(self).spec_discouraged() == old(self).spec_discouraged(),
            final(self).spec_removed() == old(self).spec_removed(),
            final(self).spec_default_duration() == old(self).spec_default_duration(),
            final(self).spec_discourage_duration() == old(self).spec_discourage_duration(),
    {
        let d = match duration {
            Some(d) => d,
            None => self.default_duration,
        };
        let record = BanRecord { subnet: subnet.to_bytes(), created: now, until: sat_add(now, d), reason };
        proof {
            use_type_invariant(&*self);
        }
        let mut dirty = Vec::new();
        std::mem::swap(&mut dirty, &mut self.dirty);
        dirty.push(record.copy());
        self.dirty = dirty;
        self.put_ban(subnet, record);
    }

    /// Lifts a subnet's ban. Returns whether it had one.
    pub fn unban(&mut self, subnet: Subnet) -> (r: bool)
        ensures
            r == old(self).spec_bans().contains_key(subnet),
            final(self).spec_bans() == old(self).spec_bans().remove(subnet),
            final(self).spec_removed() == if r {
                old(self).spec_removed().push(final(self).spec_removed().last())
            } else {
                old(self).spec_removed()
            },
            r ==> final(self).spec_removed().last()@ == subnet.spec_bytes(),
            final(self).spec_configured() == old(self).spec_configured(),
            final(self).spec_discouraged() == old(self).spec_discouraged(),
            final(self).spec_dirty() == old(self).spec_dirty(),
    {
        match self.find_ban(subnet) {
            Some(i) => {
                proof {
                    use_type_invariant(&*self);
                    lemma_to_map_unique(self.bans@);
                }
                let key = self.drop_ban(i);
                proof {
                    use_type_invariant(&*self);
                }
                let mut removed = Vec::new();
                std::mem::swap(&mut removed, &mut self.removed);
                removed.push(key);
                self.removed = removed;
                true
            },
            None => {
                proof {
                    assert(self.spec_bans().remove(subnet) =~= self.spec_bans());
                }
                false
            },
        }
    }

    /// Lifts every stored ban; their keys join the removed ones.
    pub fn clear(&mut self)
        ensures
            final(self).spec_bans() == Map::<Subnet, BanRecord>::empty(),
            final(self).spec_removed().len() == old(self).spec_removed().len() + old(self).spec_bans().len(),
            final(self).spec_configured() == old(self).spec_configured(),
            final(self).spec_discouraged() == old(self).spec_discouraged(),
            final(self).spec_dirty() == old(self).spec_dirty(),
    {
        proof {
            use_type_invariant(&*self);
            lemma_to_map_len(self.bans@);
        }
        let mut removed = Vec::new();
        std::mem::swap(&mut removed, &mut self.removed);
        let mut i: usize = 0;
        while i < self.bans.len()
            invariant
                i <= self.bans@.len(),
                removed@.len() == old(self).removed@.len() + i,
                self.bans == old(self).bans,
            decreases self.bans@.len() - i,
        {
            let key = self.bans[i].0.to_bytes();
            removed.push(key);
            i = i + 1;
        }
        self.removed = removed;
        self.bans = Vec::new();
        proof {
            assert(to_map(self.bans@) =~= Map::<Subnet, BanRecord>::empty());
        }
    }

    /// Whether every subnet an address is matched against at `now` has a prefix that fits an
    /// address: the configured ones, and the stored bans still in force. A ban read back from
    /// stored bytes may hold a longer prefix, and matching against it is refused.
    pub open spec fn spec_checkable(&self, now: i64) -> bool {
        &&& forall|i: int| 0 <= i < self.spec_configured().len() ==> (#[trigger] self.spec_configured()[i]).spec_prefix_fits()
        &&& forall|s: Subnet| #[trigger] self.spec_bans().contains_key(s) && self.spec_bans()[s].until > now ==> s.spec_prefix_fits()
    }

    /// Tests `spec_checkable`.
    pub fn checkable(&self, now: i64) -> (r: bool)
        ensures
            r == self.spec_checkable(now),
    {
        proof {
            use_type_invariant(self);
            lemma_to_map_unique(self.bans@);
        }
        let mut i: usize = 0;
        while i < self.configured.len()
            invariant
                i <= self.configured@.len(),
                forall|j: int| 0 <= j < i ==> (#[trigger] self.configured@[j]).spec_prefix_fits(),
            decreases self.configured@.len() - i,
        {
            if self.configured[i].prefix() > 128 {
                proof {
                    assert(!self.spec_configured()[i as int].spec_prefix_fits());
                }
                return false;
            }
            i = i + 1;
        }
        let mut k: usize = 0;
        while k < self.bans.len()
            invariant
                k <= self.bans@.len(),
                forall|j: int| 0 <= j < k ==> (#[trigger] self.bans@[j]).1.until > now ==> self.bans@[j].0.spec_prefix_fits(),
            decreases self.bans@.len() - k,
        {
            if self.bans[k].1.until > now && self.bans[k].0.prefix() > 128 {
                proof {
                    use_type_invariant(self);
                    lemma_to_map_unique(self.bans@);
                    let s = self.bans@[k as int].0;
                    assert(self.spec_bans().contains_key(s) && self.spec_bans()[s] == self.bans@[k as int].1);
                }
                return false;
            }
            k = k + 1;
        }
        proof {
            use_type_invariant(self);
            lemma_to_map_unique(self.bans@);
            assert forall|s: Subnet| #[trigger] self.spec_bans().contains_key(s) && self.spec_bans()[s].until > now implies s.spec_prefix_fits() by {
                let j = choose|j: int| 0 <= j < self.bans@.len() && (#[trigger] self.bans@[j]).0 == s;
            }
        }
        true
    }

    pub fn is_banned(&self, ip: IpAddress, now: i64) -> (r: bool)
        requires
            self.spec_checkable(now),
        ensures
            r == (self.spec_configured_covers(ip) || self.spec_ban_covers(ip, now)),
    {
        proof {
            use_type_invariant(self);
            lemma_to_map_unique(self.bans@);
        }
        let mut i: usize = 0;
        while i < self.configured.len()
            invariant
                i <= self.configured@.len(),
                self.spec_checkable(now),
                forall|j: int| 0 <= j < i ==> !(#[trigger] self.configured@[j]).spec_contains(ip),
            decreases self.configured@.len() - i,
        {
            assert(self.spec_configured()[i as int].spec_prefix_fits());
            if self.configured[i].contains(ip) {
                proof {
                    assert(self.spec_configured()[i as int].spec_contains(ip));
                }
                return true;
            }
            i = i + 1;
        }
        let mut k: usize = 0;
        while k < self.bans.len()
            invariant
                k <= self.bans@.len(),
                self.spec_checkable(now),
                forall|j: int| 0 <= j < k ==> !((#[trigger] self.bans@[j]).1.until > now && self.bans@[j].0.spec_contains(ip)),
            decreases self.bans@.len() - k,
        {
            proof {
                use_type_invariant(self);
                lemma_to_map_unique(self.bans@);
                let s = self.bans@[k as int].0;
                assert(self.spec_bans().contains_key(s) && self.spec_bans()[s] == self.bans@[k as int].1);
            }
            if self.bans[k].1.until > now && self.bans[k].0.contains(ip) {
                proof {
                    use_type_invariant(self);
                    lemma_to_map_unique(self.bans@);
                    let s = self.bans@[k as int].0;
                    assert(self.spec_bans().contains_key(s) && self.spec_bans()[s] == self.bans@[k as int].1);
                }
                return true;
            }
            k = k + 1;
        }
        proof {
            use_type_invariant(self);
            lemma_to_map_unique(self.bans@);
            assert forall|s: Subnet| #[trigger] self.spec_bans().contains_key(s) implies !(self.spec_bans()[s].until > now && s.spec_contains(ip)) by {
                let j = choose|j: int| 0 <= j < self.bans@.len() && (#[trigger] self.bans@[j]).0 == s;
            }
        }
        false
    }

    /// What a sweep does to the stored bans and the removed keys: expired bans go, and each
    /// one's key is appended to the removed keys.
    pub open spec fn spec_sweeps_bans(self, after: BanManager, now: i64) -> bool {
        let before_removed = self.spec_removed();
        let after_removed = after.spec_removed();
        &&& after.spec_bans() == live_bans(self.spec_bans(), now)
        &&& after_removed.len() == before_removed.len() + self.spec_bans().len() - after.spec_bans().len()
        &&& after_removed.subrange(0, before_removed.len() as int) == before_removed
        &&& forall|j: int|
            before_removed.len() <= j < after_removed.len() ==> expired_key(
                self.spec_bans(),
                now,
                #[trigger] after_removed[j],
            )
        &&& forall|i: int, j: int|
            before_removed.len() <= i < j < after_removed.len() ==> #[trigger] after_removed[i] != #[trigger] after_removed[j]
        &&& forall|s: Subnet|
            #[trigger] self.spec_bans().contains_key(s) && self.spec_bans()[s].until <= now ==> exists|j: int|
                before_removed.len() <= j < after_removed.len() && (#[trigger] after_removed[j])@ == s.spec_bytes()
    }

    /// Banned, or discouraged until after `now`: no connection is made to the address.
    pub open spec fn spec_is_blocked(self, ip: IpAddress, now: i64) -> bool {
        self.spec_configured_covers(ip) || self.spec_ban_covers(ip, now) || (self.spec_discouraged().contains_key(ip)
            && self.spec_discouraged()[ip] > now)
    }

    /// What `discourage` does to the lists.
    pub open spec fn discourages(self, after: BanManager, ip: IpAddress, now: i64) -> bool {
        let until = saturating_add(now, self.spec_discourage_duration());
        let full = self.spec_discouraged().len() >= MAX_DISCOURAGED;
        let base = if full {
            live_discouraged(self.spec_discouraged(), now)
        } else {
            self.spec_discouraged()
        };
        &&& after.spec_discouraged() == if base.len() < MAX_DISCOURAGED {
            base.insert(ip, until)
        } else {
            base
        }
        &&& full ==> self.spec_sweeps_bans(after, now)
        &&& !full ==> after.spec_bans() == self.spec_bans() && after.spec_removed() == self.spec_removed()
        &&& after.spec_configured() == self.spec_configured()
        &&& after.spec_dirty() == self.spec_dirty()
        &&& after.spec_default_duration() == self.spec_default_duration()
        &&& after.spec_discourage_duration() == self.spec_discourage_duration()
    }

    /// Marks an address as misbehaving until `now` plus the discouragement duration. Bitcoin
    /// Core discourages in one strike, with no score. When the list is full, expired entries
    /// are swept first; if it is still full, nothing is recorded.
    pub fn discourage(&mut self, ip: IpAddress, now: i64)
        ensures
            old(self).discourages(*final(self), ip, now),
    {
        proof {
            use_type_invariant(&*self);
            lemma_to_map_len(self.discouraged@);
        }
        if self.discouraged.len() >= MAX_DISCOURAGED {
            self.sweep(now);
        }
        proof {
            use_type_invariant(&*self);
            lemma_to_map_len(self.discouraged@);
        }
        if self.discouraged.len() < MAX_DISCOURAGED {
            let until = sat_add(now, self.discourage_duration);
            match self.find_discouraged(ip) {
                Some(i) => {
                    let mut list = Vec::new();
                    std::mem::swap(&mut list, &mut self.discouraged);
                    proof {
                        lemma_to_map_update(list@, i as int, until);
                        assert(list@.update(i as int, (ip, until)) == list@.update(
                            i as int,
                            (list@[i as int].0, until),
                        ));
                    }
                    list.set(i, (ip, until));
                    self.discouraged = list;
                },
                None => {
                    let mut list = Vec::new();
                    std::mem::swap(&mut list, &mut self.discouraged);
                    proof {
                        lemma_to_map_push(list@, ip, until);
                    }
                    list.push((ip, until));
                    self.discouraged = list;
                },
            }
        }
    }

    pub fn is_discouraged(&self, ip: IpAddress, now: i64) -> (r: bool)
        ensures
            r == (self.spec_discouraged().contains_key(ip) && self.spec_discouraged()[ip] > now),
    {
        proof {
            use_type_invariant(self);
            lemma_to_map_unique(self.discouraged@);
        }
        match self.find_discouraged(ip) {
            Some(i) => self.discouraged[i].1 > now,
            None => false,
        }
    }

    /// True if we should avoid connecting to this address at all.
    pub fn is_blocked(&self, ip: IpAddress, now: i64) -> (r: bool)
        requires
            self.spec_checkable(now),
        ensures
            r == self.spec_is_blocked(ip, now),
    {
        self.is_banned(ip, now) || self.is_discouraged(ip, now)
    }

    /// Drops expired entries. Expired stored bans join the removed ones, to be deleted from
    /// the database.
    #[verifier::rlimit(80)]
    #[verifier::spinoff_prover]
    pub fn sweep(&mut self, now: i64)
        ensures
            final(self).spec_discouraged() == live_discouraged(old(self).spec_discouraged(), now),
            old(self).spec_sweeps_bans(*final(self), now),
            final(self).spec_configured() == old(self).spec_configured(),
            final(self).spec_dirty() == old(self).spec_dirty(),
            final(self).spec_default_duration() == old(self).spec_default_duration(),
            final(self).spec_discourage_duration() == old(self).spec_discourage_duration(),
    {
        proof {
            use_type_invariant(&*self);
        }
        let ghost d = self.discouraged@;
        let mut kept_discouraged: Vec<(IpAddress, i64)> = Vec::new();
        let mut i: usize = 0;
        while i < self.discouraged.len()
            invariant
                self.discouraged@ == d,
                i <= d.len(),
                kept_discouraged@ == d.take(i as int).filter(discouragement_live(now)),
            decreases d.len() - i,
        {
            proof {
                reveal(Seq::filter);
                assert(d.take(i + 1).drop_last() =~= d.take(i as int));
                assert(d.take(i + 1).last() == d[i as int]);
            }
            if self.discouraged[i].1 > now {
                kept_discouraged.push(self.discouraged[i]);
            }
            i = i + 1;
        }
        proof {
            assert(d.take(d.len() as int) =~= d);
            lemma_to_map_filter(d, discouragement_live(now));
            d.lemma_filter_len(discouragement_live(now));
            let m = to_map(d);
            assert(m.dom().filter(|k: IpAddress| discouragement_live(now)((k, m[k]))) =~= m.dom().filter(
                |ip: IpAddress| m[ip] > now,
            ));
        }
        self.discouraged = kept_discouraged;

        let ghost b = self.bans@;
        let ghost removed0 = self.removed@;
        let mut removed = Vec::new();
        std::mem::swap(&mut removed, &mut self.removed);
        let mut kept_bans: Vec<(Subnet, BanRecord)> = Vec::new();
        let ghost mut origin: Seq<int> = Seq::empty();
        let mut k: usize = 0;
        while k < self.bans.len()
            invariant
                self.bans@ == b,
                k <= b.len(),
                kept_bans@ == b.take(k as int).filter(ban_live(now)),
                forall|a: int| 0 <= a < b.len() ==> (#[trigger] b[a]).1.subnet@ == b[a].0.spec_bytes(),
                forall|a: int| 0 <= a < kept_bans@.len() ==> (#[trigger] kept_bans@[a]).1.subnet@ == kept_bans@[a].0.spec_bytes(),
                removed@.len() + kept_bans@.len() == removed0.len() + k,
                removed0.len() <= removed@.len(),
                removed@.subrange(0, removed0.len() as int) == removed0,
                origin.len() + removed0.len() == removed@.len(),
                forall|t: int|
                    0 <= t < origin.len() ==> 0 <= #[trigger] origin[t] < k && b[origin[t]].1.until <= now
                        && removed@[removed0.len() + t]@ == b[origin[t]].0.spec_bytes(),
                forall|t1: int, t2: int| 0 <= t1 < t2 < origin.len() ==> #[trigger] origin[t1] < #[trigger] origin[t2],
                forall|a: int|
                    0 <= a < k && (#[trigger] b[a]).1.until <= now ==> exists|t: int| 0 <= t < origin.len() && origin[t] == a,
            decreases b.len() - k,
        {
            proof {
                reveal(Seq::filter);
                assert(b.take(k + 1).drop_last() =~= b.take(k as int));
                assert(b.take(k + 1).last() == b[k as int]);
            }
            if self.bans[k].1.until > now {
                let record = self.bans[k].1.copy();
                kept_bans.push((self.bans[k].0, record));
                proof {
                    assert forall|a: int| 0 <= a < k + 1 && (#[trigger] b[a]).1.until <= now implies exists|t: int|
                        0 <= t < origin.len() && origin[t] == a by {}
                }
            } else {
                let key = self.bans[k].0.to_bytes();
                let ghost before = removed@;
                removed.push(key);
                proof {
                    assert(removed@.subrange(0, removed0.len() as int) =~= before.subrange(0, removed0.len() as int));
                    let ghost o0 = origin;
                    origin = origin.push(k as int);
                    assert forall|t: int| 0 <= t < origin.len() implies 0 <= #[trigger] origin[t] < k + 1
                        && b[origin[t]].1.until <= now && removed@[removed0.len() + t]@ == b[origin[t]].0.spec_bytes() by {
                        if t < origin.len() - 1 {
                            assert(removed@[removed0.len() + t] == before[removed0.len() + t]);
                        }
                    }
                    assert forall|t1: int, t2: int| 0 <= t1 < t2 < origin.len() implies #[trigger] origin[t1]
                        < #[trigger] origin[t2] by {
                        if t2 < origin.len() - 1 {
                            assert(origin[t1] == o0[t1] && origin[t2] == o0[t2]);
                        } else {
                            assert(origin[t1] == o0[t1]);
                        }
                    }
                    assert forall|a: int| 0 <= a < k + 1 && (#[trigger] b[a]).1.until <= now implies exists|t: int|
                        0 <= t < origin.len() && origin[t] == a by {
                        if a < k {
                            let t = choose|t: int| 0 <= t < o0.len() && o0[t] == a;
                            assert(origin[t] == o0[t]);
                        } else {
                            assert(origin[origin.len() - 1] == a);
                        }
                    }
                }
            }
            k = k + 1;
        }
        proof {
            assert(b.take(b.len() as int) =~= b);
            lemma_to_map_filter(b, ban_live(now));
            lemma_to_map_len(b);
            lemma_to_map_len(kept_bans@);
            lemma_to_map_unique(b);
            let m = to_map(b);
            assert(m.dom().filter(|s: Subnet| ban_live(now)((s, m[s]))) =~= m.dom().filter(
                |s: Subnet| m[s].until > now,
            ));
        }
        self.removed = removed;
        self.bans = kept_bans;
        proof {
            assert(old(self).spec_bans() == to_map(b));
            assert(old(self).spec_removed() == removed0);
            assert(self.spec_bans() == live_bans(to_map(b), now));
            assert(self.spec_removed().len() == removed0.len() + to_map(b).len() - self.spec_bans().len());
            assert(self.spec_removed().subrange(0, removed0.len() as int) == removed0);
            let m = to_map(b);
            assert forall|j: int|
                old(self).spec_removed().len() <= j < self.spec_removed().len() implies expired_key(
                    old(self).spec_bans(),
                    now,
                    #[trigger] self.spec_removed()[j],
                ) by {
                let a = origin[j - removed0.len()];
                assert(m.contains_key(b[a].0) && m[b[a].0] == b[a].1);
            }
            let rs = self.spec_removed();
            assert forall|i: int, j: int| removed0.len() <= i < j < rs.len() implies #[trigger] rs[i] != #[trigger] rs[j] by {
                let a1 = origin[i - removed0.len()];
                let a2 = origin[j - removed0.len()];
                assert(a1 < a2);
                assert(b[a1].0 != b[a2].0);
                if rs[i] == rs[j] {
                    lemma_subnet_roundtrip(b[a1].0, b[a2].0);
                }
            }
            assert forall|s: Subnet| #[trigger] m.contains_key(s) && m[s].until <= now implies exists|j: int|
                removed0.len() <= j < rs.len() && (#[trigger] rs[j])@ == s.spec_bytes() by {
                let a = choose|a: int| 0 <= a < b.len() && (#[trigger] b[a]).0 == s;
                assert(m[b[a].0] == b[a].1);
                let t = choose|t: int| 0 <= t < origin.len() && origin[t] == a;
                assert(rs[removed0.len() + t]@ == s.spec_bytes());
            }
        }
    }

    /// Every stored ban, in no particular order.
    pub fn list(&self) -> (r: Vec<BanRecord>)
        ensures
            r@.len() == self.spec_bans().len(),
            forall|i: int| #![trigger r@[i]] 0 <= i < r@.len() ==> exists|s: Subnet|
                #![trigger self.spec_bans()[s]]
                self.spec_bans().contains_key(s) && self.spec_bans()[s] == r@[i],
            forall|s: Subnet| #[trigger] self.spec_bans().contains_key(s) ==> exists|i: int|
                0 <= i < r@.len() && r@[i] == self.spec_bans()[s],
    {
        proof {
            use_type_invariant(self);
            lemma_to_map_unique(self.bans@);
            lemma_to_map_len(self.bans@);
        }
        let mut r: Vec<BanRecord> = Vec::new();
        let mut i: usize = 0;
        while i < self.bans.len()
            invariant
                i <= self.bans@.len(),
                r@.len() == i,
                forall|j: int| 0 <= j < i ==> r@[j] == (#[trigger] self.bans@[j]).1,
            decreases self.bans@.len() - i,
        {
            r.push(self.bans[i].1.copy());
            i = i + 1;
        }
        proof {
            let m = self.spec_bans();
            assert forall|i: int| #![trigger r@[i]] 0 <= i < r@.len() implies exists|s: Subnet|
                #![trigger m[s]]
                m.contains_key(s) && m[s] == r@[i] by {
                assert(m.contains_key(self.bans@[i].0) && m[self.bans@[i].0] == self.bans@[i].1);
            }
            assert forall|s: Subnet| #[trigger] m.contains_key(s) implies exists|i: int|
                0 <= i < r@.len() && r@[i] == m[s] by {
                let j = choose|j: int| 0 <= j < self.bans@.len() && (#[trigger] self.bans@[j]).0 == s;
                assert(r@[j] == self.bans@[j].1);
            }
        }
        r
    }

    /// Bans added since the last call, to be written to the database.
    pub fn take_dirty(&mut self) -> (r: Vec<BanRecord>)
        ensures
            r@ == old(self).spec_dirty(),
            final(self).spec_dirty().len() == 0,
            final(self).spec_bans() == old(self).spec_bans(),
            final(self).spec_removed() == old(self).spec_removed(),
            final(self).spec_discouraged() == old(self).spec_discouraged(),
            final(self).spec_configured() == old(self).spec_configured(),
    {
        proof {
            use_type_invariant(&*self);
        }
        let mut dirty = Vec::new();
        std::mem::swap(&mut dirty, &mut self.dirty);
        dirty
    }

    /// Keys of bans dropped since the last call, to be deleted from the database.
    pub fn take_removed(&mut self) -> (r: Vec<[u8; 17]>)
        ensures
            r@ == old(self).spec_removed(),
            final(self).spec_removed().len() == 0,
            final(self).spec_bans() == old(self).spec_bans(),
            final(self).spec_dirty() == old(self).spec_dirty(),
            final(self).spec_discouraged() == old(self).spec_discouraged(),
            final(self).spec_configured() == old(self).spec_configured(),
    {
        proof {
            use_type_invariant(&*self);
        }
        let mut removed = Vec::new();
        std::mem::swap(&mut removed, &mut self.removed);
        removed
    }
}

/// Whether `key` is the encoding of a subnet whose ban has run out at `now`.
pub open spec fn expired_key(bans: Map<Subnet, BanRecord>, now: i64, key: [u8; 17]) -> bool {
    exists|s: Subnet| #[trigger] bans.contains_key(s) && bans[s].until <= now && key@ == s.spec_bytes()
}

/// Discouragements still in force at `now`.
pub open spec fn live_discouraged(m: Map<IpAddress, i64>, now: i64) -> Map<IpAddress, i64> {
    m.restrict(m.dom().filter(|ip: IpAddress| m[ip] > now))
}

/// Stored bans still in force at `now`.
pub open spec fn live_bans(m: Map<Subnet, BanRecord>, now: i64) -> Map<Subnet, BanRecord> {
    m.restrict(m.dom().filter(|s: Subnet| m[s].until > now))
}

spec fn discouragement_live(now: i64) -> spec_fn((IpAddress, i64)) -> bool {
    |p: (IpAddress, i64)| p.1 > now
}

spec fn ban_live(now: i64) -> spec_fn((Subnet, BanRecord)) -> bool {
    |p: (Subnet, BanRecord)| p.1.until > now
}

/// The bans stored records give: each record whose subnet decodes, under that subnet, a later
/// record replacing an earlier one for the same subnet.
pub open spec fn stored_bans(records: Seq<BanRecord>) -> Map<Subnet, BanRecord>
    decreases records.len(),
{
    if records.len() == 0 {
        Map::empty()
    } else {
        let prior = stored_bans(records.drop_last());
        let r = records.last();
        if Subnet::spec_decodable(r.subnet@) {
            prior.insert(Subnet::spec_from_bytes(r.subnet@), r)
        } else {
            prior
        }
    }
}

} // verus!
