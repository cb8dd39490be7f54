//! In-memory tree of every known block header, with the most-work chain indexed by height.
//!
//! Only cheap checks run here: headers must connect, carry valid proof of work for the target
//! they claim, and not claim a target easier than the chain allows. Contextual rules such as
//! the difficulty adjustment and timestamps come with the consensus module.

use std::collections::BTreeMap;
use vstd::prelude::*;

use crate::chain_params::Chain;
use crate::pow::U256;
use crate::primitives::{
    BlockHash, Header, lemma_key_injective, genesis_header, max_target, spec_block_hash, spec_genesis_header,
    spec_max_target, spec_target, spec_work,
};
use crate::storage::{BlockStatus, HeaderEntry};
use crate::validation::{self, ValidationError};

verus! {

broadcast use {vstd::std_specs::btree::group_btree_axioms, vstd::laws_cmp::group_laws_cmp};

#[derive(Debug, Clone, PartialEq, Eq)]
pub enum HeaderError {
    /// The first header does not connect to a known header.
    UnknownParent(BlockHash),
    /// A header does not follow the previous header in the message.
    NotContinuous(BlockHash),
    /// A header does not meet its own proof-of-work target.
    BadProofOfWork(BlockHash),
    /// A header claims a target easier than the chain allows.
    TargetTooEasy(BlockHash),
    /// Stored headers belong to another chain: its genesis is missing.
    ForeignChain(BlockHash),
    /// A header fails a consensus rule.
    Invalid { hash: BlockHash, source: ValidationError },
}

/// Key of a map of entries.
impl HeaderError {
    /// A copy of the error.
    pub fn copy(&self) -> (r: HeaderError)
        ensures
            r == *self,
    {
        match self {
            HeaderError::UnknownParent(h) => HeaderError::UnknownParent(*h),
            HeaderError::NotContinuous(h) => HeaderError::NotContinuous(*h),
            HeaderError::BadProofOfWork(h) => HeaderError::BadProofOfWork(*h),
            HeaderError::TargetTooEasy(h) => HeaderError::TargetTooEasy(*h),
            HeaderError::ForeignChain(h) => HeaderError::ForeignChain(*h),
            HeaderError::Invalid { hash, source } => HeaderError::Invalid { hash: *hash, source: source.copy() },
        }
    }
}

pub type EntryKey = (u128, u128);

/// The hash an entry is filed under.
pub open spec fn entry_hash(e: HeaderEntry) -> BlockHash {
    spec_block_hash(e.header)
}

/// An entry whose parent, if it has one, is in `m` one height below it.
pub open spec fn parent_ok(m: Map<EntryKey, HeaderEntry>, e: HeaderEntry) -> bool {
    e.height > 0 ==> {
        &&& m.contains_key(e.header.prev_blockhash.spec_key())
        &&& m[e.header.prev_blockhash.spec_key()].height + 1 == e.height
    }
}

/// Every entry is filed under its own hash and connects to its parent.
pub open spec fn linked(m: Map<EntryKey, HeaderEntry>) -> bool {
    &&& forall|k: EntryKey| #[trigger] m.contains_key(k) ==> entry_hash(m[k]).spec_key() == k
    &&& forall|k: EntryKey| #[trigger] m.contains_key(k) ==> parent_ok(m, m[k])
}

/// No entry is higher than `max_height`.
pub open spec fn bounded(m: Map<EntryKey, HeaderEntry>, max_height: int) -> bool {
    forall|k: EntryKey| #[trigger] m.contains_key(k) ==> m[k].height <= max_height
}

/// Every entry is filed under its own hash, below the height bound, and connects to its
/// parent.
pub open spec fn entries_ok(m: Map<EntryKey, HeaderEntry>, max_height: u32) -> bool {
    &&& linked(m)
    &&& bounded(m, max_height as int)
}

/// `best` is a chain of entries from height 0 up, each the parent of the next, and the only
/// entry at height 0 is its first.
pub open spec fn best_ok(m: Map<EntryKey, HeaderEntry>, best: Seq<BlockHash>) -> bool {
    &&& best.len() >= 1
    &&& forall|i: int| 0 <= i < best.len() ==> #[trigger] m.contains_key(best[i].spec_key())
    &&& forall|i: int| 0 <= i < best.len() ==> m[#[trigger] best[i].spec_key()].height == i
    &&& forall|i: int|
        0 < i < best.len() ==> m[#[trigger] best[i].spec_key()].header.prev_blockhash == best[i - 1]
    &&& forall|k: EntryKey|
        #[trigger] m.contains_key(k) && m[k].height == 0 ==> k == best[0].spec_key()
}

/// The map after filing each entry of `s` under its hash, in order.
pub open spec fn insert_all(m: Map<EntryKey, HeaderEntry>, s: Seq<HeaderEntry>) -> Map<
    EntryKey,
    HeaderEntry,
>
    decreases s.len(),
{
    if s.len() == 0 {
        m
    } else {
        insert_all(m, s.drop_last()).insert(entry_hash(s.last()).spec_key(), s.last())
    }
}

/// The tip hash and its work after offering each entry of `s` in order: an entry becomes the
/// tip when it has strictly more work than the tip at that moment.
pub open spec fn tip_after(tip: BlockHash, work: U256, s: Seq<HeaderEntry>) -> (BlockHash, U256)
    decreases s.len(),
{
    if s.len() == 0 {
        (tip, work)
    } else {
        let (t, w) = tip_after(tip, work, s.drop_last());
        if w.value() < s.last().chain_work.value() {
            (entry_hash(s.last()), s.last().chain_work)
        } else {
            (t, w)
        }
    }
}

/// Heights a block locator visits, starting at `height`, with `taken` hashes already taken
/// and the current gap `step`: one block at a time for the first ten, then doubling gaps,
/// always ending at 0.
pub open spec fn locator_heights(height: nat, step: nat, taken: nat) -> Seq<nat>
    decreases height,
{
    if height == 0 {
        seq![0nat]
    } else {
        let next_step = if taken + 1 >= 10 { step * 2 } else { step };
        let next = if height > next_step && next_step > 0 { (height - next_step) as nat } else { 0nat };
        seq![height].add(locator_heights(next, next_step, taken + 1))
    }
}

/// The hashes of `best` at the heights `locator_heights` visits.
pub open spec fn locator_hashes(best: Seq<BlockHash>, height: nat, step: nat, taken: nat) -> Seq<
    BlockHash,
>
    decreases height,
{
    if height == 0 {
        seq![best[0]]
    } else {
        let next_step = if taken + 1 >= 10 { step * 2 } else { step };
        let next = if height > next_step && next_step > 0 { (height - next_step) as nat } else { 0nat };
        seq![best[height as int]].add(locator_hashes(best, next, next_step, taken + 1))
    }
}

/// The locator's hashes are the best chain's hashes at the locator's heights.
pub proof fn lemma_locator_hashes(best: Seq<BlockHash>, height: nat, step: nat, taken: nat)
    ensures
        locator_hashes(best, height, step, taken).len() == locator_heights(height, step, taken).len(),
        forall|i: int|
            0 <= i < locator_heights(height, step, taken).len() ==> locator_hashes(best, height, step, taken)[i]
                == best[#[trigger] locator_heights(height, step, taken)[i] as int],
    decreases height,
{
    if height > 0 {
        let next_step = if taken + 1 >= 10 { step * 2 } else { step };
        let next = if height > next_step && next_step > 0 { (height - next_step) as nat } else { 0nat };
        lemma_locator_hashes(best, next, next_step, taken + 1);
    }
}

pub struct HeaderChain {
    max_target: U256,
    entries: BTreeMap<EntryKey, HeaderEntry>,
    /// Hashes of the most-work chain, indexed by height. `best[0]` is always genesis.
    best: Vec<BlockHash>,
    /// No entry is higher than this.
    max_height: u32,
    chain: Ghost<Chain>,
}

impl HeaderChain {
    /// Every entry, filed under the key of its hash.
    pub closed spec fn spec_entries(self) -> Map<EntryKey, HeaderEntry> {
        self.entries@
    }

    /// Hashes of the best chain, by height.
    pub closed spec fn spec_best(self) -> Seq<BlockHash> {
        self.best@
    }

    /// No entry is higher than this.
    pub closed spec fn spec_max_height(self) -> u32 {
        self.max_height
    }

    /// The easiest target the chain allows.
    pub closed spec fn spec_max_target(self) -> U256 {
        self.max_target
    }

    /// The chain this tree was built for.
    pub closed spec fn spec_chain(self) -> Chain {
        self.chain@
    }

    pub open spec fn knows(self, h: BlockHash) -> bool {
        self.spec_entries().contains_key(h.spec_key())
    }

    pub open spec fn entry(self, h: BlockHash) -> HeaderEntry {
        self.spec_entries()[h.spec_key()]
    }

    pub open spec fn tip_hash(self) -> BlockHash {
        self.spec_best().last()
    }

    /// The tree is consistent: see `entries_ok` and `best_ok`. The best chain starts at the
    /// chain's genesis and the target bound is the chain's.
    pub closed spec fn wf(self) -> bool {
        &&& entries_ok(self.entries@, self.max_height)
        &&& best_ok(self.entries@, self.best@)
        &&& self.best@[0] == spec_block_hash(spec_genesis_header(self.chain@))
        &&& self.max_target == spec_max_target(self.chain@)
    }

    pub proof fn lemma_wf(self)
        requires
            self.wf(),
        ensures
            entries_ok(self.spec_entries(), self.spec_max_height()),
            best_ok(self.spec_entries(), self.spec_best()),
            self.spec_best()[0] == spec_block_hash(spec_genesis_header(self.spec_chain())),
            self.spec_max_target() == spec_max_target(self.spec_chain()),
    {
    }

    /// The entry a tree starts from when nothing is stored: the chain's genesis header.
    pub open spec fn genesis_entry(chain: Chain) -> HeaderEntry {
        let g = spec_genesis_header(chain);
        HeaderEntry { header: g, height: 0, chain_work: spec_work(g.bits), status: BlockStatus(0) }
    }

    /// Stored entries the tree can be rebuilt from: they connect, and the only one at height 0
    /// is the chain's genesis.
    pub open spec fn stored_ok(chain: Chain, stored: Seq<HeaderEntry>) -> bool {
        let m = insert_all(Map::empty(), stored);
        let g = spec_block_hash(spec_genesis_header(chain)).spec_key();
        &&& linked(m)
        &&& forall|k: EntryKey| #[trigger] m.contains_key(k) && m[k].height == 0 ==> k == g
        &&& m.contains_key(g) ==> m[g].height == 0
    }

    /// Whether the chain's genesis is among stored entries.
    pub open spec fn stored_has_genesis(chain: Chain, stored: Seq<HeaderEntry>) -> bool {
        insert_all(Map::empty(), stored).contains_key(spec_block_hash(spec_genesis_header(chain)).spec_key())
    }

    /// What building the tree from stored entries gives: `ForeignChain` exactly when entries
    /// are stored and the chain's genesis is not among them; else the tree of the stored
    /// entries, or of genesis alone when none are stored, with the most work at its tip.
    pub open spec fn built(chain: Chain, stored: Seq<HeaderEntry>, r: Result<HeaderChain, HeaderError>) -> bool {
        let m = insert_all(Map::empty(), stored);
        let g = spec_block_hash(spec_genesis_header(chain));
        match r {
            Err(e) => stored.len() > 0 && !m.contains_key(g.spec_key()) && e == HeaderError::ForeignChain(g),
            Ok(c) => {
                &&& stored.len() == 0 || m.contains_key(g.spec_key())
                &&& c.wf()
                &&& c.spec_chain() == chain
                &&& c.spec_entries() == if stored.len() == 0 {
                    map![g.spec_key() => HeaderChain::genesis_entry(chain)]
                } else {
                    m
                }
                &&& forall|k: EntryKey| #[trigger]
                    c.spec_entries().contains_key(k) ==> c.spec_entries()[k].chain_work.value()
                        <= c.entry(c.tip_hash()).chain_work.value()
            },
        }
    }

    /// Builds the tree from stored entries. With no stored entries, the tree holds only the
    /// genesis header, which the caller should persist. Entries that hold no genesis of this
    /// chain are refused as a foreign chain; entries that do must form a tree.
    pub fn new(chain: Chain, stored: Vec<HeaderEntry>) -> (r: Result<HeaderChain, HeaderError>)
        requires
            HeaderChain::stored_has_genesis(chain, stored@) ==> HeaderChain::stored_ok(chain, stored@),
        ensures
            HeaderChain::built(chain, stored@, r),
    {
        let genesis = genesis_header(chain);
        let genesis_hash = genesis.block_hash();
        let ghost gk = genesis_hash.spec_key();
        let (mut entries, max_height) = file_entries(&stored);
        let ghost m = entries@;
        let mut best_tip = genesis_hash;
        if stored.len() == 0 {
            let entry = HeaderEntry {
                header: genesis,
                height: 0,
                chain_work: genesis.work(),
                status: BlockStatus::default(),
            };
            entries.insert(genesis_hash.key(), entry);
            proof {
                assert(m =~= Map::<EntryKey, HeaderEntry>::empty());
                assert(entries@ =~= map![gk => entry]);
            }
        } else {
            if !entries.contains_key(&genesis_hash.key()) {
                return Err(HeaderError::ForeignChain(genesis_hash));
            }
            best_tip = most_work(&entries, &stored);
        }
        let c0 = HeaderChain {
            max_target: max_target(chain),
            entries,
            best: vec![genesis_hash],
            max_height,
            chain: Ghost(chain),
        };
        let mut c = c0;
        proof {
            let m = c.entries@;
            assert(c.best@[0] == genesis_hash);
            assert(m.contains_key(gk));
            assert(m[gk].height == 0);
            assert(linked(m));
            assert(best_ok(m, c.best@));
            assert(c.wf());
        }
        c.set_best_tip(best_tip);
        Ok(c)
    }

    /// `new` on entries that have not been checked yet: returns `None` when they hold this
    /// chain's genesis and do not form a tree.
    pub fn new_checked(chain: Chain, stored: Vec<HeaderEntry>) -> (r: Option<
        Result<HeaderChain, HeaderError>,
    >)
        ensures
            match r {
                None => HeaderChain::stored_has_genesis(chain, stored@) && !HeaderChain::stored_ok(chain, stored@),
                Some(res) => HeaderChain::built(chain, stored@, res),
            },
    {
        let genesis_hash = genesis_header(chain).block_hash();
        let (entries, _) = file_entries(&stored);
        if !entries.contains_key(&genesis_hash.key()) || HeaderChain::check_stored(chain, &stored) {
            Some(HeaderChain::new(chain, stored))
        } else {
            None
        }
    }

    /// Whether `stored_ok` holds of the entries.
    pub fn check_stored(chain: Chain, stored: &Vec<HeaderEntry>) -> (r: bool)
        ensures
            r == HeaderChain::stored_ok(chain, stored@),
    {
        let genesis_hash = genesis_header(chain).block_hash();
        let (entries, _) = file_entries(stored);
        let ghost m = entries@;
        let ghost gk = genesis_hash.spec_key();
        proof {
            lemma_insert_all_hashed(Map::empty(), stored@);
        }
        let mut t: usize = 0;
        while t < stored.len()
            invariant
                m == entries@,
                m == insert_all(Map::empty(), stored@),
                gk == genesis_hash.spec_key(),
                gk == spec_block_hash(spec_genesis_header(chain)).spec_key(),
                forall|k: EntryKey| #[trigger] m.contains_key(k) ==> entry_hash(m[k]).spec_key() == k,
                t <= stored@.len(),
                forall|u: int|
                    0 <= u < t ==> {
                        let k = entry_hash(#[trigger] stored@[u]).spec_key();
                        &&& parent_ok(m, m[k])
                        &&& m[k].height == 0 ==> k == gk
                        &&& k == gk ==> m[k].height == 0
                    },
            decreases stored@.len() - t,
        {
            let hash = stored[t].block_hash();
            proof {
                lemma_insert_all_keys(Map::empty(), stored@, hash.spec_key());
                assert(entry_hash(stored@[t as int]).spec_key() == hash.spec_key());
            }
            let e = *entries.get(&hash.key()).unwrap();
            if e.height == 0 {
                if hash != genesis_hash {
                    return false;
                }
            } else {
                if hash == genesis_hash {
                    return false;
                }
                match entries.get(&e.header.prev_blockhash.key()) {
                    Some(p) => {
                        if p.height != e.height - 1 {
                            return false;
                        }
                    },
                    None => return false,
                }
            }
            t = t + 1;
        }
        proof {
            assert forall|k: EntryKey| #[trigger] m.contains_key(k) implies parent_ok(m, m[k])
                && (m[k].height == 0 ==> k == gk) by {
                lemma_insert_all_keys(Map::empty(), stored@, k);
                let u = choose|u: int|
                    0 <= u < stored@.len() && entry_hash(#[trigger] stored@[u]).spec_key() == k;
            }
            if m.contains_key(gk) {
                lemma_insert_all_keys(Map::empty(), stored@, gk);
                let u = choose|u: int|
                    0 <= u < stored@.len() && entry_hash(#[trigger] stored@[u]).spec_key() == gk;
            }
        }
        true
    }

    /// The entry at the end of the best chain.
    pub fn tip(&self) -> (r: &HeaderEntry)
        requires
            self.wf(),
        ensures
            *r == self.entry(self.tip_hash()),
            self.knows(self.tip_hash()),
            entry_hash(*r) == self.tip_hash(),
            r.height + 1 == self.spec_best().len(),
    {
        let hash = self.best[self.best.len() - 1];
        proof {
            lemma_key_injective(entry_hash(self.entries@[hash.spec_key()]), hash);
        }
        self.entries.get(&hash.key()).unwrap()
    }

    /// Height of the best chain's tip.
    pub fn height(&self) -> (r: u32)
        requires
            self.wf(),
        ensures
            r == self.entry(self.tip_hash()).height,
            r + 1 == self.spec_best().len(),
    {
        self.tip().height
    }

    pub fn get(&self, hash: &BlockHash) -> (r: Option<&HeaderEntry>)
        ensures
            match r {
                Some(e) => self.knows(*hash) && *e == self.entry(*hash),
                None => !self.knows(*hash),
            },
    {
        self.entries.get(&hash.key())
    }

    pub fn contains(&self, hash: &BlockHash) -> (r: bool)
        ensures
            r == self.knows(*hash),
    {
        self.entries.contains_key(&hash.key())
    }

    /// Whether `hash` is on the best chain.
    pub open spec fn on_best(self, hash: BlockHash) -> bool {
        &&& self.knows(hash)
        &&& self.entry(hash).height < self.spec_best().len()
        &&& self.spec_best()[self.entry(hash).height as int] == hash
    }

    pub fn is_on_best_chain(&self, hash: &BlockHash) -> (r: bool)
        ensures
            r == self.on_best(*hash),
    {
        match self.entries.get(&hash.key()) {
            Some(e) => {
                let height = e.height as usize;
                height < self.best.len() && self.best[height] == *hash
            },
            None => false,
        }
    }

    /// Highest entry the tree may hold, a bound on every stored height.
    pub fn max_height(&self) -> (r: u32)
        ensures
            r == self.spec_max_height(),
    {
        self.max_height
    }

    /// Marks a header as having its block stored. Returns the updated entry to persist.
    pub fn mark_have_data(&mut self, hash: &BlockHash) -> (r: Option<HeaderEntry>)
        requires
            old(self).wf(),
        ensures
            final(self).wf(),
            final(self).spec_best() == old(self).spec_best(),
            final(self).spec_chain() == old(self).spec_chain(),
            match r {
                None => !old(self).knows(*hash) && *final(self) == *old(self),
                Some(e) => {
                    let prior = old(self).entry(*hash);
                    &&& old(self).knows(*hash)
                    &&& e == (HeaderEntry { status: BlockStatus(prior.status.0 | 2), ..prior })
                    &&& final(self).spec_entries() == old(self).spec_entries().insert(
                        hash.spec_key(),
                        e,
                    )
                },
            },
    {
        let key = hash.key();
        let mut entry = match self.entries.get(&key) {
            Some(e) => *e,
            None => return None,
        };
        entry.status.insert(BlockStatus::have_data());
        self.entries.insert(key, entry);
        proof {
            let m0 = old(self).spec_entries();
            let m = self.entries@;
            assert forall|k: EntryKey| #[trigger] m.contains_key(k) implies entry_hash(m[k]).spec_key()
                == k && parent_ok(m, m[k]) && m[k].height <= self.max_height by {
                assert(m0.contains_key(k));
                assert(parent_ok(m0, m0[k]));
            }
            assert(best_ok(m, self.best@));
        }
        Some(entry)
    }

    /// The target checks a header not yet in the tree must pass.
    fn check_pow(&self, header: &Header, hash: BlockHash) -> (r: Result<(), HeaderError>)
        ensures
            match r {
                Ok(()) => !(self.spec_max_target().value() < spec_target(header.bits).value())
                    && !(spec_target(header.bits).value() < hash.spec_number().value()),
                Err(e) => if self.spec_max_target().value() < spec_target(header.bits).value() {
                    e == HeaderError::TargetTooEasy(hash)
                } else {
                    spec_target(header.bits).value() < hash.spec_number().value()
                        && e == HeaderError::BadProofOfWork(hash)
                },
            },
    {
        let target = header.target();
        if self.max_target.lt(&target) {
            return Err(HeaderError::TargetTooEasy(hash));
        }
        if target.lt(&hash.as_number()) {
            Err(HeaderError::BadProofOfWork(hash))
        } else {
            Ok(())
        }
    }

    /// The blocks from `tip` back to the best chain, newest first, and the best-chain block
    /// they fork from.
    pub open spec fn branch_ok(self, tip: BlockHash, branch: Seq<BlockHash>, fork: BlockHash) -> bool {
        let tip_height = self.entry(tip).height as int;
        &&& self.knows(fork)
        &&& (self.entry(fork).height as int) < self.spec_best().len()
        &&& self.spec_best()[self.entry(fork).height as int] == fork
        &&& branch.len() + self.entry(fork).height == tip_height
        &&& branch.len() == 0 ==> fork == tip
        &&& branch.len() > 0 ==> branch[0] == tip
        &&& forall|k: int|
            0 <= k < branch.len() ==> #[trigger] self.knows(branch[k]) && self.entry(branch[k]).height
                == tip_height - k
        &&& forall|k: int|
            0 <= k < branch.len() - 1 ==> self.entry(#[trigger] branch[k]).header.prev_blockhash
                == branch[k + 1]
        &&& branch.len() > 0 ==> self.entry(branch.last()).header.prev_blockhash == fork
    }

    /// Walks back from `tip` to the first block on the best chain.
    fn branch_from(&self, tip: BlockHash) -> (r: (Vec<BlockHash>, BlockHash))
        requires
            self.wf(),
            self.knows(tip),
        ensures
            self.branch_ok(tip, r.0@, r.1),
    {
        let ghost m = self.entries@;
        let ghost tip_height = m[tip.spec_key()].height as int;
        let mut branch: Vec<BlockHash> = Vec::new();
        let mut hash = tip;
        loop
            invariant
                self.wf(),
                m == self.entries@,
                tip_height == self.entry(tip).height,
                self.knows(hash),
                branch@.len() + self.entry(hash).height == tip_height,
                branch@.len() == 0 ==> hash == tip,
                branch@.len() > 0 ==> branch@[0] == tip,
                forall|k: int|
                    0 <= k < branch@.len() ==> #[trigger] self.knows(branch@[k]) && self.entry(
                        branch@[k],
                    ).height == tip_height - k,
                forall|k: int|
                    0 <= k < branch@.len() - 1 ==> self.entry(#[trigger] branch@[k]).header.prev_blockhash
                        == branch@[k + 1],
                branch@.len() > 0 ==> self.entry(branch@.last()).header.prev_blockhash == hash,
            ensures
                self.branch_ok(tip, branch@, hash),
            decreases self.entry(hash).height,
        {
            let entry = self.entries.get(&hash.key()).unwrap();
            let height = entry.height as usize;
            if height < self.best.len() && self.best[height] == hash {
                break;
            }
            proof {
                assert(parent_ok(m, m[hash.spec_key()]));
                if entry.height == 0 {
                    assert(hash.spec_key() == self.best@[0].spec_key());
                }
            }
            branch.push(hash);
            hash = entry.header.prev_blockhash;
        }
        (branch, hash)
    }

    /// Makes `tip` the end of the best chain, replacing the old branch above the fork point.
    #[verifier::rlimit(40)]
    fn set_best_tip(&mut self, tip: BlockHash)
        requires
            old(self).wf(),
            old(self).knows(tip),
        ensures
            final(self).wf(),
            final(self).tip_hash() == tip,
            final(self).spec_entries() == old(self).spec_entries(),
            final(self).spec_chain() == old(self).spec_chain(),
            final(self).spec_max_height() == old(self).spec_max_height(),
            final(self).spec_max_target() == old(self).spec_max_target(),
    {
        let (branch, fork) = self.branch_from(tip);
        let ghost m = self.entries@;
        let fork_entry = self.entries.get(&fork.key()).unwrap();
        let fork_height = fork_entry.height as usize;
        let ghost old_best = self.best@;
        let best_len = self.best.len();
        assert(fork_height < best_len);
        self.best.truncate(fork_height + 1);
        let mut k = branch.len();
        while k > 0
            invariant
                self.entries@ == m,
                self.chain == old(self).chain,
                self.max_height == old(self).max_height,
                self.max_target == old(self).max_target,
                k <= branch@.len(),
                fork_height + 1 <= old_best.len(),
                self.best@.len() == fork_height + 1 + (branch@.len() - k),
                forall|t: int| 0 <= t <= fork_height ==> #[trigger] self.best@[t] == old_best[t],
                forall|i: int|
                    fork_height < i < self.best@.len() ==> #[trigger] self.best@[i] == branch@[branch@.len()
                        + fork_height - i],
            decreases k,
        {
            k = k - 1;
            self.best.push(branch[k]);
        }
        proof {
            self.lemma_splice(*old(self), tip, branch@, fork, old_best);
        }
    }

    /// The best chain cut at the fork point and extended with the branch is consistent.
    #[verifier::rlimit(40)]
    proof fn lemma_splice(
        self,
        prior: HeaderChain,
        tip: BlockHash,
        branch: Seq<BlockHash>,
        fork: BlockHash,
        old_best: Seq<BlockHash>,
    )
        requires
            prior.wf(),
            prior.branch_ok(tip, branch, fork),
            old_best == prior.spec_best(),
            self.entries@ == prior.entries@,
            self.chain == prior.chain,
            self.max_height == prior.max_height,
            self.max_target == prior.max_target,
            ({
                let f = prior.entry(fork).height as int;
                &&& self.best@.len() == f + 1 + branch.len()
                &&& forall|t: int| 0 <= t <= f ==> #[trigger] self.best@[t] == old_best[t]
                &&& forall|i: int|
                    f < i < self.best@.len() ==> #[trigger] self.best@[i] == branch[branch.len() + f - i]
            }),
        ensures
            self.wf(),
            self.tip_hash() == tip,
    {
        let m = self.entries@;
        let b = self.best@;
        let n = branch.len();
        let f = prior.entry(fork).height as int;
        prior.lemma_wf();
        assert forall|i: int| 0 <= i < b.len() implies m.contains_key(#[trigger] b[i].spec_key())
            && m[b[i].spec_key()].height == i by {
            if i > f {
                assert(prior.knows(branch[n + f - i]));
            } else {
                assert(m.contains_key(old_best[i].spec_key()));
            }
        }
        assert forall|i: int| 0 < i < b.len() implies m[#[trigger] b[i].spec_key()].header.prev_blockhash
            == b[i - 1] by {
            if i > f + 1 {
                assert(b[i] == branch[n + f - i]);
                assert(b[i - 1] == branch[n + f - i + 1]);
                assert(prior.entry(branch[n + f - i]).header.prev_blockhash == branch[n + f - i + 1]);
            } else if i == f + 1 {
                assert(b[i] == branch[n - 1]);
            } else {
                assert(m[old_best[i].spec_key()].header.prev_blockhash == old_best[i - 1]);
            }
        }
        assert(b[0] == old_best[0]);
        assert(b.len() >= 1);
        assert(forall|i: int| 0 <= i < b.len() ==> #[trigger] m.contains_key(b[i].spec_key()));
        assert(forall|i: int| 0 <= i < b.len() ==> m[#[trigger] b[i].spec_key()].height == i);
        assert(forall|k: EntryKey| #[trigger] m.contains_key(k) && m[k].height == 0 ==> k == b[0].spec_key());
        assert(best_ok(m, b));
        if n > 0 {
            assert(b[b.len() - 1] == branch[0]);
        }
    }

    /// Files a new entry and moves the best chain to it when it has more work than the tip.
    fn insert(&mut self, entry: HeaderEntry)
        requires
            old(self).wf(),
            !old(self).knows(entry_hash(entry)),
            entry.height > 0,
            linked(old(self).spec_entries().insert(entry_hash(entry).spec_key(), entry)),
        ensures
            final(self).wf(),
            final(self).spec_entries() == old(self).spec_entries().insert(
                entry_hash(entry).spec_key(),
                entry,
            ),
            final(self).spec_chain() == old(self).spec_chain(),
            final(self).spec_max_target() == old(self).spec_max_target(),
            final(self).spec_max_height() == if entry.height > old(self).spec_max_height() {
                entry.height
            } else {
                old(self).spec_max_height()
            },
            ({
                let tip0 = old(self).tip_hash();
                let work0 = old(self).entry(tip0).chain_work;
                let (t, w) = if work0.value() < entry.chain_work.value() {
                    (entry_hash(entry), entry.chain_work)
                } else {
                    (tip0, work0)
                };
                &&& final(self).tip_hash() == t
                &&& final(self).entry(t).chain_work == w
            }),
    {
        let hash = entry.block_hash();
        let more_work = self.tip().chain_work.lt(&entry.chain_work);
        let ghost m0 = self.entries@;
        self.entries.insert(hash.key(), entry);
        if entry.height > self.max_height {
            self.max_height = entry.height;
        }
        proof {
            let m = self.entries@;
            old(self).lemma_wf();
            assert forall|i: int| 0 <= i < self.best@.len() implies #[trigger] m.contains_key(
                self.best@[i].spec_key(),
            ) && m[self.best@[i].spec_key()] == m0[self.best@[i].spec_key()] by {
                assert(m0.contains_key(self.best@[i].spec_key()));
            }
            assert(best_ok(m, self.best@));
        }
        if more_work {
            self.set_best_tip(hash);
        }
    }

    /// What `accept` did, from the tree before the call to the tree after it.
    pub open spec fn accepted(
        self,
        next: HeaderChain,
        headers: Seq<Header>,
        r: Result<Vec<HeaderEntry>, HeaderError>,
    ) -> bool {
        let n = headers.len();
        &&& next.wf()
        &&& next.spec_chain() == self.spec_chain()
        &&& next.spec_max_target() == self.spec_max_target()
        &&& match r {
            Err(e) => self.first_fault(headers, n) == Some(e) && next == self,
            Ok(new) => {
                let t0 = self.tip_hash();
                let (t, w) = tip_after(t0, self.entry(t0).chain_work, new@);
                &&& self.first_fault(headers, n) is None
                &&& new@ == self.new_entries(headers, n)
                &&& next.spec_entries() == insert_all(self.spec_entries(), new@)
                &&& next.tip_hash() == t
                &&& next.entry(t).chain_work == w
            },
        }
    }

    /// Validates a `headers` message and adds its new headers to the tree.
    ///
    /// Either every header is accepted or none is. Returns the entries that were not known
    /// before, in message order, so the caller can persist them.
    #[verifier::rlimit(80)]
    #[verifier::spinoff_prover]
    pub fn accept(&mut self, headers: &[Header]) -> (r: Result<Vec<HeaderEntry>, HeaderError>)
        requires
            old(self).wf(),
            old(self).spec_max_height() + headers@.len() < u32::MAX,
        ensures
            old(self).accepted(*final(self), headers@, r),
    {
        let ghost s0 = *self;
        let mut new: Vec<HeaderEntry> = Vec::new();
        let mut prev: Option<HeaderEntry> = None;
        let mut hashes: Vec<BlockHash> = Vec::new();
        let mut i: usize = 0;
        while i < headers.len()
            invariant
                *self == s0,
                accept_pre(s0, headers@),
                i <= headers@.len(),
                hashes@.len() == i,
                forall|t: int| 0 <= t < i ==> hashes@[t] == spec_block_hash(#[trigger] headers@[t]),
                s0.first_fault(headers@, i as nat) is None,
                new@ == s0.new_entries(headers@, i as nat),
                i == 0 ==> prev is None,
                i > 0 ==> prev == Some(
                    HeaderEntry {
                        header: headers@[i - 1],
                        height: s0.position(headers@, (i - 1) as nat).0,
                        chain_work: s0.position(headers@, (i - 1) as nat).1,
                        status: BlockStatus(0),
                    },
                ),
            decreases headers@.len() - i,
        {
            let header = headers[i];
            let hash = header.block_hash();
            proof {
                lemma_accept_prefix(s0, headers@, i as nat);
                s0.lemma_wf();
                reveal(prefix_ok);
                if i > 0 {
                    let im = insert_all(s0.spec_entries(), s0.new_entries(headers@, i as nat));
                    assert(s0.placed(im, headers@, i - 1));
                }
            }
            let parent = match prev {
                Some(entry) => {
                    if header.prev_blockhash == entry.block_hash() {
                        entry
                    } else {
                        proof {
                            lemma_first_fault_stable(s0, headers@, (i + 1) as nat, headers@.len());
                        }
                        return Err(HeaderError::NotContinuous(hash));
                    }
                },
                None => match self.entries.get(&header.prev_blockhash.key()) {
                    Some(p) => *p,
                    None => {
                        proof {
                            lemma_first_fault_stable(s0, headers@, (i + 1) as nat, headers@.len());
                        }
                        return Err(HeaderError::UnknownParent(hash));
                    },
                },
            };
            if hash_among(&hashes, hash) {
                proof {
                    let k = choose|k: int| 0 <= k < i && hashes@[k] == hash;
                    assert(spec_block_hash(headers@[k]) == spec_block_hash(headers@[i as int]));
                    assert(repeats(headers@, i as int));
                    lemma_first_fault_stable(s0, headers@, (i + 1) as nat, headers@.len());
                }
                return Err(HeaderError::NotContinuous(hash));
            }
            proof {
                assert forall|k: int| 0 <= k < i implies #[trigger] spec_block_hash(headers@[k]) != spec_block_hash(
                    headers@[i as int],
                ) by {
                    assert(hashes@[k] == spec_block_hash(headers@[k]));
                }
            }
            let (height, chain_work) = match self.entries.get(&hash.key()) {
                Some(known) => (known.height, known.chain_work),
                None => {
                    match self.check_pow(&header, hash) {
                        Ok(()) => {},
                        Err(e) => {
                            proof {
                                lemma_first_fault_stable(
                                    s0,
                                    headers@,
                                    (i + 1) as nat,
                                    headers@.len(),
                                );
                            }
                            return Err(e);
                        },
                    }
                    let entry = HeaderEntry {
                        header,
                        height: parent.height + 1,
                        chain_work: parent.chain_work.wrapping_add(&header.work()),
                        status: BlockStatus::default(),
                    };
                    match validation::check_header(&header, &parent) {
                        Ok(()) => {},
                        Err(source) => return Err(HeaderError::Invalid { hash, source }),
                    }
                    let key = (entry.height, entry.chain_work);
                    new.push(entry);
                    key
                },
            };
            prev = Some(
                HeaderEntry { header, height, chain_work, status: BlockStatus::default() },
            );
            hashes.push(hash);
            i = i + 1;
        }
        let ghost m0 = s0.spec_entries();
        let ghost t0 = s0.tip_hash();
        let ghost w0 = s0.entry(t0).chain_work;
        proof {
            lemma_accept_prefix(s0, headers@, headers@.len());
            assert(new@.take(0) =~= Seq::<HeaderEntry>::empty());
        }
        let mut j: usize = 0;
        while j < new.len()
            invariant
                self.wf(),
                s0.wf(),
                j <= new@.len(),
                new@ == s0.new_entries(headers@, headers@.len()),
                prefix_ok(s0, headers@, headers@.len()),
                m0 == s0.spec_entries(),
                t0 == s0.tip_hash(),
                w0 == s0.entry(t0).chain_work,
                self.spec_entries() == insert_all(m0, new@.take(j as int)),
                self.tip_hash() == tip_after(t0, w0, new@.take(j as int)).0,
                self.entry(self.tip_hash()).chain_work == tip_after(t0, w0, new@.take(j as int)).1,
                self.spec_chain() == s0.spec_chain(),
                self.spec_max_target() == s0.spec_max_target(),
            decreases new@.len() - j,
        {
            proof {
                lemma_insert_step(s0, headers@, new@, j as int);
            }
            self.insert(new[j]);
            j = j + 1;
        }
        proof {
            assert(new@.take(new@.len() as int) =~= new@);
        }
        Ok(new)
    }

    /// Whether `accept` may be called with `headers`: the heights they could reach fit in
    /// `u32`.
    pub fn can_accept(&self, headers: &[Header]) -> (r: bool)
        ensures
            r == (self.spec_max_height() + headers@.len() < u32::MAX),
    {
        let room: u32 = 0xffff_ffffu32 - self.max_height;
        headers.len() < room as usize
    }

    /// `accept` on a message of any length: returns `None`, and changes nothing, when the
    /// heights it could reach do not fit in `u32`.
    pub fn accept_checked(&mut self, headers: &[Header]) -> (r: Option<
        Result<Vec<HeaderEntry>, HeaderError>,
    >)
        requires
            old(self).wf(),
        ensures
            match r {
                None => !(old(self).spec_max_height() + headers@.len() < u32::MAX) && *final(self) == *old(self),
                Some(res) => old(self).spec_max_height() + headers@.len() < u32::MAX
                    && old(self).accepted(*final(self), headers@, res),
            },
    {
        if self.can_accept(headers) {
            Some(self.accept(headers))
        } else {
            None
        }
    }

    /// Block locator for `getheaders`: the tip, then hashes further back with doubling gaps,
    /// always ending at genesis. Mirrors Bitcoin Core `LocatorEntries`.
    pub fn locator(&self) -> (r: Vec<BlockHash>)
        requires
            self.wf(),
        ensures
            r@ == locator_hashes(self.spec_best(), (self.spec_best().len() - 1) as nat, 1, 0),
    {
        let ghost best = self.best@;
        let ghost full = locator_hashes(best, (best.len() - 1) as nat, 1, 0);
        let mut hashes: Vec<BlockHash> = Vec::new();
        let best_len = self.best.len();
        proof {
            self.lemma_wf();
            let top = self.best@[best.len() - 1];
            assert(self.entries@.contains_key(top.spec_key()));
            assert(self.entries@[top.spec_key()].height == best.len() - 1);
        }
        let mut height: u64 = (best_len - 1) as u64;
        let mut step: u64 = 1;
        loop
            invariant
                best == self.best@,
                full == locator_hashes(best, (best.len() - 1) as nat, 1, 0),
                best_len == best.len(),
                best.len() <= 0x1_0000_0000,
                (height as int) < best.len(),
                1 <= step <= 2 * best.len(),
                height > 0 ==> step <= best.len(),
                full == hashes@ + locator_hashes(best, height as nat, step as nat, hashes@.len()),
            decreases height,
        {
            let ghost rest = locator_hashes(best, height as nat, step as nat, hashes@.len());
            hashes.push(self.best[height as usize]);
            if height == 0 {
                proof {
                    assert(full =~= hashes@);
                }
                return hashes;
            }
            if hashes.len() >= 10 {
                step = step * 2;
            }
            let next = if height > step { height - step } else { 0 };
            proof {
                assert(full =~= hashes@ + locator_hashes(best, next as nat, step as nat, hashes@.len()));
            }
            height = next;
        }
    }

    // The accept specification.

    /// The violation header `i` of a message commits, if any.
    pub open spec fn fault(self, headers: Seq<Header>, i: int) -> Option<HeaderError> {
        let h = headers[i];
        let hash = spec_block_hash(h);
        if i == 0 && !self.knows(h.prev_blockhash) {
            Some(HeaderError::UnknownParent(hash))
        } else if i > 0 && h.prev_blockhash != spec_block_hash(headers[i - 1]) {
            Some(HeaderError::NotContinuous(hash))
        } else if repeats(headers, i) {
            Some(HeaderError::NotContinuous(hash))
        } else if self.knows(hash) {
            None
        } else if self.spec_max_target().value() < spec_target(h.bits).value() {
            Some(HeaderError::TargetTooEasy(hash))
        } else if spec_target(h.bits).value() < (U256 { hi: hash.hi, lo: hash.lo }).value() {
            Some(HeaderError::BadProofOfWork(hash))
        } else {
            None
        }
    }

    /// The violation of the first faulty header among the first `n`.
    pub open spec fn first_fault(self, headers: Seq<Header>, n: nat) -> Option<HeaderError>
        decreases n,
    {
        if n == 0 {
            None
        } else {
            match self.first_fault(headers, (n - 1) as nat) {
                Some(e) => Some(e),
                None => self.fault(headers, n - 1),
            }
        }
    }

    /// Height and cumulative work of header `i` of a message: those stored for a known header,
    /// else one above its parent's, with the header's own work added.
    pub open spec fn position(self, headers: Seq<Header>, i: nat) -> (u32, U256)
        decreases i, 1nat,
    {
        let h = headers[i as int];
        let hash = spec_block_hash(h);
        if self.knows(hash) {
            (self.entry(hash).height, self.entry(hash).chain_work)
        } else {
            let (ph, pw) = self.parent_position(headers, i);
            ((ph + 1) as u32, pw.spec_add(spec_work(h.bits)))
        }
    }

    /// Height and cumulative work of the parent of header `i` of a message.
    pub open spec fn parent_position(self, headers: Seq<Header>, i: nat) -> (u32, U256)
        decreases i, 0nat,
    {
        if i == 0 {
            let p = headers[0].prev_blockhash;
            (self.entry(p).height, self.entry(p).chain_work)
        } else {
            self.position(headers, (i - 1) as nat)
        }
    }

    /// Entries for the headers among the first `n` that were not known, in message order.
    pub open spec fn new_entries(self, headers: Seq<Header>, n: nat) -> Seq<HeaderEntry>
        decreases n,
    {
        if n == 0 {
            seq![]
        } else {
            let prev = self.new_entries(headers, (n - 1) as nat);
            let h = headers[n - 1];
            if self.knows(spec_block_hash(h)) {
                prev
            } else {
                let (height, work) = self.position(headers, (n - 1) as nat);
                prev.push(HeaderEntry { header: h, height, chain_work: work, status: BlockStatus(0) })
            }
        }
    }

    /// Header `i` of a message is filed in `m` at its height and work.
    pub open spec fn placed(self, m: Map<EntryKey, HeaderEntry>, headers: Seq<Header>, i: int) -> bool {
        let k = spec_block_hash(headers[i]).spec_key();
        let (height, work) = self.position(headers, i as nat);
        &&& m.contains_key(k)
        &&& m[k].height == height
        &&& m[k].chain_work == work
    }
}

/// Whether a hash is among some hashes.
fn hash_among(hashes: &Vec<BlockHash>, hash: BlockHash) -> (r: bool)
    ensures
        r == exists|k: int| 0 <= k < hashes@.len() && hashes@[k] == hash,
{
    let mut k: usize = 0;
    while k < hashes.len()
        invariant
            k <= hashes@.len(),
            forall|t: int| 0 <= t < k ==> hashes@[t] != hash,
        decreases hashes@.len() - k,
    {
        if hashes[k] == hash {
            return true;
        }
        k = k + 1;
    }
    false
}

/// `to` is reached from `from` by following parents `k` times, each step one height down.
pub open spec fn reaches(c: HeaderChain, from: BlockHash, to: BlockHash, k: nat) -> bool
    decreases k,
{
    c.knows(from) && if k == 0 {
        from == to
    } else {
        c.entry(from).height > 0 && reaches(c, c.entry(from).header.prev_blockhash, to, (k - 1) as nat)
    }
}

/// Each block of the best chain reaches every one below it.
proof fn lemma_best_reaches(c: HeaderChain, i: int, k: nat)
    requires
        c.wf(),
        0 <= i,
        i + k < c.spec_best().len(),
    ensures
        reaches(c, c.spec_best()[i + k], c.spec_best()[i], k),
    decreases k,
{
    c.lemma_wf();
    let b = c.spec_best();
    assert(c.knows(b[i + k]));
    if k > 0 {
        assert(c.entry(b[i + k]).height == i + k);
        assert(c.entry(b[i + k]).header.prev_blockhash == b[i + k - 1]);
        lemma_best_reaches(c, i, (k - 1) as nat);
    }
}

/// What a block of the best chain reaches is the best chain below it.
proof fn lemma_reaches_best(c: HeaderChain, j: int, x: BlockHash, k: nat)
    requires
        c.wf(),
        0 <= j < c.spec_best().len(),
        reaches(c, c.spec_best()[j], x, k),
    ensures
        k <= j,
        x == c.spec_best()[j - k],
    decreases k,
{
    c.lemma_wf();
    let b = c.spec_best();
    if k > 0 {
        assert(c.entry(b[j]).height == j);
        assert(j > 0);
        assert(c.entry(b[j]).header.prev_blockhash == b[j - 1]);
        lemma_reaches_best(c, j - 1, x, (k - 1) as nat);
    }
}

/// A block is on the best chain exactly when it is the tip or one of the tip's ancestors;
/// genesis always is.
pub proof fn lemma_best_chain_is_tip_ancestry(c: HeaderChain, x: BlockHash)
    requires
        c.wf(),
    ensures
        c.on_best(x) <==> exists|k: nat| #[trigger] reaches(c, c.tip_hash(), x, k),
        c.on_best(c.spec_best()[0]),
{
    c.lemma_wf();
    let b = c.spec_best();
    let n = b.len() as int;
    if c.on_best(x) {
        let h = c.entry(x).height as int;
        lemma_best_reaches(c, h, (n - 1 - h) as nat);
        assert(reaches(c, c.tip_hash(), x, (n - 1 - h) as nat));
    }
    if exists|k: nat| #[trigger] reaches(c, c.tip_hash(), x, k) {
        let k = choose|k: nat| #[trigger] reaches(c, c.tip_hash(), x, k);
        lemma_reaches_best(c, n - 1, x, k);
        assert(c.knows(b[n - 1 - k]));
        assert(c.entry(b[n - 1 - k]).height == n - 1 - k);
    }
    assert(c.knows(b[0]));
    assert(c.entry(b[0]).height == 0);
}

/// Following parents depends on the entries alone.
proof fn lemma_reaches_entries(a: HeaderChain, b: HeaderChain, from: BlockHash, to: BlockHash, k: nat)
    requires
        a.spec_entries() == b.spec_entries(),
    ensures
        reaches(a, from, to, k) == reaches(b, from, to, k),
    decreases k,
{
    if k > 0 {
        lemma_reaches_entries(a, b, a.entry(from).header.prev_blockhash, to, (k - 1) as nat);
    }
}

/// Two trees with the same entries and the same tip have the same best chain.
pub proof fn lemma_same_tip_same_best(a: HeaderChain, b: HeaderChain)
    requires
        a.wf(),
        b.wf(),
        a.spec_entries() == b.spec_entries(),
        a.tip_hash() == b.tip_hash(),
    ensures
        a.spec_best() == b.spec_best(),
{
    a.lemma_wf();
    b.lemma_wf();
    let ba = a.spec_best();
    let bb = b.spec_best();
    assert(a.entry(ba[ba.len() - 1]).height == ba.len() - 1);
    assert(b.entry(bb[bb.len() - 1]).height == bb.len() - 1);
    assert(ba.len() == bb.len());
    let n = ba.len() as int;
    assert forall|i: int| 0 <= i < n implies #[trigger] ba[i] == bb[i] by {
        let k = (n - 1 - i) as nat;
        lemma_best_reaches(a, i, k);
        lemma_reaches_entries(a, b, a.tip_hash(), ba[i], k);
        lemma_reaches_best(b, n - 1, ba[i], k);
    }
    assert(ba =~= bb);
}

/// Rebuilding a tree from its stored entries gives it back: where one entry has more work
/// than every other, a tree built from entries that file to the same map has the same
/// entries, the same tip and the same best chain, so the same height and locator.
pub proof fn lemma_rebuild_from_stored(c: HeaderChain, stored: Seq<HeaderEntry>, r: HeaderChain)
    requires
        c.wf(),
        forall|k: EntryKey|
            #[trigger] c.spec_entries().contains_key(k) && k != c.tip_hash().spec_key() ==> c.spec_entries()[k].chain_work.value()
                < c.entry(c.tip_hash()).chain_work.value(),
        insert_all(Map::empty(), stored) == c.spec_entries(),
        HeaderChain::built(c.spec_chain(), stored, Ok(r)),
    ensures
        r.spec_entries() == c.spec_entries(),
        r.tip_hash() == c.tip_hash(),
        r.spec_best() == c.spec_best(),
{
    c.lemma_wf();
    r.lemma_wf();
    let m = c.spec_entries();
    let t = c.tip_hash();
    assert(m.contains_key(t.spec_key()));
    if stored.len() == 0 {
        assert(insert_all(Map::empty(), stored) == Map::<EntryKey, HeaderEntry>::empty());
        assert(false);
    }
    assert(r.spec_entries() == m);
    let rt = r.tip_hash();
    assert(r.knows(rt));
    assert(m[t.spec_key()].chain_work.value() <= r.entry(rt).chain_work.value());
    if rt.spec_key() != t.spec_key() {
        assert(m[rt.spec_key()].chain_work.value() < m[t.spec_key()].chain_work.value());
        assert(false);
    }
    crate::primitives::lemma_key_injective(rt, t);
    lemma_same_tip_same_best(r, c);
}

/// Header `i` of a message has the hash of an earlier one. Where every header links to the
/// one before, such a repeat closes a cycle of hashes, and the message is not a chain: it is
/// refused as not continuous at the first repeat.
pub open spec fn repeats(headers: Seq<Header>, i: int) -> bool {
    exists|k: int| 0 <= k < i && #[trigger] spec_block_hash(headers[k]) == spec_block_hash(headers[i])
}

/// Some header among the first `n` of a message is filed under `k`.
pub open spec fn from_message(headers: Seq<Header>, n: nat, k: EntryKey) -> bool {
    exists|i: int| 0 <= i < n && #[trigger] spec_block_hash(headers[i]).spec_key() == k
}

/// The entries filed under their hashes, later ones replacing earlier ones with the same hash,
/// and the greatest height among them.
fn file_entries(stored: &Vec<HeaderEntry>) -> (r: (BTreeMap<EntryKey, HeaderEntry>, u32))
    ensures
        r.0@ == insert_all(Map::empty(), stored@),
        bounded(r.0@, r.1 as int),
{
    let mut entries: BTreeMap<EntryKey, HeaderEntry> = BTreeMap::new();
    let mut max_height: u32 = 0;
    let mut i: usize = 0;
    while i < stored.len()
        invariant
            i <= stored@.len(),
            entries@ == insert_all(Map::empty(), stored@.take(i as int)),
            bounded(entries@, max_height as int),
        decreases stored@.len() - i,
    {
        let e = stored[i];
        entries.insert(e.block_hash().key(), e);
        if e.height > max_height {
            max_height = e.height;
        }
        proof {
            let next = stored@.take(i + 1);
            assert(next.drop_last() =~= stored@.take(i as int));
            assert(next.last() == e);
        }
        i = i + 1;
    }
    proof {
        assert(stored@.take(stored@.len() as int) =~= stored@);
    }
    (entries, max_height)
}

/// The hash of a stored entry with the most work: the last such entry of `stored`.
fn most_work(entries: &BTreeMap<EntryKey, HeaderEntry>, stored: &Vec<HeaderEntry>) -> (r: BlockHash)
    requires
        stored@.len() > 0,
        entries@ == insert_all(Map::empty(), stored@),
    ensures
        entries@.contains_key(r.spec_key()),
        entry_hash(entries@[r.spec_key()]) == r,
        forall|k: EntryKey| #[trigger]
            entries@.contains_key(k) ==> entries@[k].chain_work.value()
                <= entries@[r.spec_key()].chain_work.value(),
{
    proof {
        lemma_insert_all_hashed(Map::empty(), stored@);
    }
    let mut best = stored[0].block_hash();
    proof {
        lemma_insert_all_keys(Map::empty(), stored@, best.spec_key());
        assert(entry_hash(stored@[0]).spec_key() == best.spec_key());
    }
    let mut best_work = entries.get(&best.key()).unwrap().chain_work;
    let mut t: usize = 1;
    while t < stored.len()
        invariant
            1 <= t <= stored@.len(),
            entries@ == insert_all(Map::empty(), stored@),
            forall|k: EntryKey| #[trigger] entries@.contains_key(k) ==> entry_hash(entries@[k]).spec_key() == k,
            entries@.contains_key(best.spec_key()),
            entries@[best.spec_key()].chain_work == best_work,
            forall|u: int|
                0 <= u < t ==> entries@[entry_hash(#[trigger] stored@[u]).spec_key()].chain_work.value()
                    <= best_work.value(),
        decreases stored@.len() - t,
    {
        let hash = stored[t].block_hash();
        proof {
            lemma_insert_all_keys(Map::empty(), stored@, hash.spec_key());
            assert(entry_hash(stored@[t as int]).spec_key() == hash.spec_key());
        }
        let work = entries.get(&hash.key()).unwrap().chain_work;
        if best_work.le(&work) {
            best = hash;
            best_work = work;
        }
        t = t + 1;
    }
    proof {
        assert forall|k: EntryKey| #[trigger] entries@.contains_key(k) implies entries@[k].chain_work.value()
            <= best_work.value() by {
            lemma_insert_all_keys(Map::empty(), stored@, k);
            let u = choose|u: int|
                0 <= u < stored@.len() && entry_hash(#[trigger] stored@[u]).spec_key() == k;
        }
        lemma_key_injective(entry_hash(entries@[best.spec_key()]), best);
    }
    best
}

/// A key is filed after `s` exactly when it was filed before or some entry of `s` hashes to it.
pub proof fn lemma_insert_all_keys(m: Map<EntryKey, HeaderEntry>, s: Seq<HeaderEntry>, k: EntryKey)
    ensures
        insert_all(m, s).contains_key(k) <==> (m.contains_key(k) || exists|u: int|
            0 <= u < s.len() && entry_hash(#[trigger] s[u]).spec_key() == k),
    decreases s.len(),
{
    if s.len() > 0 {
        lemma_insert_all_keys(m, s.drop_last(), k);
        if exists|u: int| 0 <= u < s.len() - 1 && entry_hash(#[trigger] s.drop_last()[u]).spec_key() == k {
            let u = choose|u: int| 0 <= u < s.len() - 1 && entry_hash(#[trigger] s.drop_last()[u]).spec_key() == k;
            assert(s[u] == s.drop_last()[u]);
        }
        if exists|u: int| 0 <= u < s.len() && entry_hash(#[trigger] s[u]).spec_key() == k {
            let u = choose|u: int| 0 <= u < s.len() && entry_hash(#[trigger] s[u]).spec_key() == k;
            if u < s.len() - 1 {
                assert(s.drop_last()[u] == s[u]);
            }
        }
    }
}

/// Once a prefix of a message holds a fault, every longer prefix reports the same one.
pub proof fn lemma_first_fault_stable(c: HeaderChain, headers: Seq<Header>, a: nat, b: nat)
    requires
        a <= b,
        c.first_fault(headers, a) is Some,
    ensures
        c.first_fault(headers, b) == c.first_fault(headers, a),
    decreases b - a,
{
    if a < b {
        lemma_first_fault_stable(c, headers, a, (b - 1) as nat);
    }
}

/// What a fault-free prefix of `n` headers does to the tree: the new entries connect, are
/// fresh and distinct, sit above height 0 and below the bound, every header of the prefix is
/// filed at its position, and every prefix of the new entries keeps the tree linked.
#[verifier::opaque]
pub open spec fn prefix_ok(c: HeaderChain, headers: Seq<Header>, n: nat) -> bool {
    let m = c.spec_entries();
    let ne = c.new_entries(headers, n);
    let im = insert_all(m, ne);
    &&& linked(im)
    &&& bounded(im, c.spec_max_height() + n)
    &&& forall|i: int| 0 <= i < n ==> #[trigger] c.placed(im, headers, i)
    &&& forall|k: EntryKey| #[trigger]
        im.contains_key(k) <==> (m.contains_key(k) || from_message(headers, n, k))
    &&& forall|k: EntryKey| m.contains_key(k) ==> #[trigger] im[k] == m[k]
    &&& forall|j: int| 0 <= j < ne.len() ==> linked(#[trigger] insert_all(m, ne.take(j)))
    &&& forall|j: int|
        0 <= j < ne.len() ==> !insert_all(m, ne.take(j)).contains_key(
            entry_hash(#[trigger] ne[j]).spec_key(),
        )
    &&& forall|j: int|
        0 <= j < ne.len() ==> 1 <= (#[trigger] ne[j]).height <= c.spec_max_height() + n
}

/// The conditions under which a prefix of a message is examined.
pub open spec fn accept_pre(c: HeaderChain, headers: Seq<Header>) -> bool {
    &&& c.wf()
    &&& c.spec_max_height() + headers.len() < u32::MAX
}

/// Every fault-free prefix of a message satisfies `prefix_ok`.
pub proof fn lemma_accept_prefix(c: HeaderChain, headers: Seq<Header>, n: nat)
    requires
        accept_pre(c, headers),
        n <= headers.len(),
        c.first_fault(headers, n) is None,
    ensures
        prefix_ok(c, headers, n),
    decreases n,
{
    if n == 0 {
        lemma_prefix_empty(c, headers);
    } else {
        let p = (n - 1) as nat;
        lemma_accept_prefix(c, headers, p);
        assert(c.fault(headers, p as int) is None);
        if c.knows(spec_block_hash(headers[p as int])) {
            lemma_prefix_known(c, headers, p);
        } else {
            lemma_prefix_new(c, headers, p);
        }
    }
}

proof fn lemma_prefix_empty(c: HeaderChain, headers: Seq<Header>)
    requires
        accept_pre(c, headers),
    ensures
        prefix_ok(c, headers, 0),
{
    reveal(prefix_ok);
    let m = c.spec_entries();
    c.lemma_wf();
    assert(c.new_entries(headers, 0) =~= Seq::<HeaderEntry>::empty());
    assert forall|k: EntryKey| #[trigger]
        m.contains_key(k) <==> (m.contains_key(k) || from_message(headers, 0, k)) by {}
}

/// A message header already in the tree adds nothing.
#[verifier::rlimit(40)]
#[verifier::spinoff_prover]
proof fn lemma_prefix_known(c: HeaderChain, headers: Seq<Header>, p: nat)
    requires
        accept_pre(c, headers),
        p < headers.len(),
        prefix_ok(c, headers, p),
        c.knows(spec_block_hash(headers[p as int])),
    ensures
        prefix_ok(c, headers, p + 1),
{
    reveal(prefix_ok);
    let n = p + 1;
    let m = c.spec_entries();
    let ne0 = c.new_entries(headers, p);
    let ne = c.new_entries(headers, n);
    let im = insert_all(m, ne);
    assert(ne == ne0);
    assert(c.placed(im, headers, p as int));
    assert forall|k: EntryKey| #[trigger]
        im.contains_key(k) <==> (m.contains_key(k) || from_message(headers, n, k)) by {
        if from_message(headers, n, k) && !m.contains_key(k) {
            let i = choose|i: int|
                0 <= i < n && #[trigger] spec_block_hash(headers[i]).spec_key() == k;
            if i == p {
                assert(false);
            }
            assert(from_message(headers, p, k));
        }
        if from_message(headers, p, k) {
            let i = choose|i: int|
                0 <= i < p && #[trigger] spec_block_hash(headers[i]).spec_key() == k;
            assert(0 <= i < n && spec_block_hash(headers[i]).spec_key() == k);
        }
    }
}

/// A header not yet in the tree is filed under a fresh key, one above its parent.
#[verifier::rlimit(40)]
#[verifier::spinoff_prover]
proof fn lemma_prefix_new(c: HeaderChain, headers: Seq<Header>, p: nat)
    requires
        accept_pre(c, headers),
        p < headers.len(),
        prefix_ok(c, headers, p),
        c.fault(headers, p as int) is None,
        !c.knows(spec_block_hash(headers[p as int])),
    ensures
        prefix_ok(c, headers, p + 1),
{
    reveal(prefix_ok);
    let n = p + 1;
    let m = c.spec_entries();
    let ne0 = c.new_entries(headers, p);
    let im0 = insert_all(m, ne0);
    let ne = c.new_entries(headers, n);
    let im = insert_all(m, ne);
    let h = headers[p as int];
    let hash = spec_block_hash(h);
    let key = hash.spec_key();
    let (height, work) = c.position(headers, p);
    let e = HeaderEntry { header: h, height, chain_work: work, status: BlockStatus(0) };
    assert(ne == ne0.push(e));
    assert(ne.drop_last() =~= ne0);
    assert(im == im0.insert(key, e));
    lemma_fresh_key(c, headers, p);
    lemma_parent_filed(c, headers, p);
    assert(parent_ok(im, e));
    assert forall|k: EntryKey| #[trigger] im.contains_key(k) implies entry_hash(im[k]).spec_key()
        == k && parent_ok(im, im[k]) by {
        if k != key {
            assert(im0.contains_key(k));
            assert(parent_ok(im0, im0[k]));
            let q = im0[k].header.prev_blockhash.spec_key();
            if im0[k].height > 0 {
                assert(im0.contains_key(q));
            }
        }
    }
    assert(linked(im));
    assert forall|i: int| 0 <= i < n implies #[trigger] c.placed(im, headers, i) by {
        if i < p {
            assert(c.placed(im0, headers, i));
            if spec_block_hash(headers[i]) == hash {
                assert(repeats(headers, p as int));
            }
        }
    }
    assert forall|k: EntryKey| #[trigger]
        im.contains_key(k) <==> (m.contains_key(k) || from_message(headers, n, k)) by {
        if from_message(headers, n, k) && !m.contains_key(k) && k != key {
            let i = choose|i: int|
                0 <= i < n && #[trigger] spec_block_hash(headers[i]).spec_key() == k;
            assert(from_message(headers, p, k));
        }
        if from_message(headers, p, k) {
            let i = choose|i: int|
                0 <= i < p && #[trigger] spec_block_hash(headers[i]).spec_key() == k;
            assert(0 <= i < n && spec_block_hash(headers[i]).spec_key() == k);
        }
        if k == key {
            assert(0 <= p < n && spec_block_hash(headers[p as int]).spec_key() == k);
        }
    }
    assert forall|k: EntryKey| m.contains_key(k) implies #[trigger] im[k] == m[k] by {
        assert(im0.contains_key(k));
    }
    assert forall|j: int| 0 <= j < ne.len() implies linked(#[trigger] insert_all(m, ne.take(j))) by {
        if j < ne0.len() {
            assert(ne.take(j) =~= ne0.take(j));
        } else {
            assert(ne.take(j) =~= ne0);
        }
    }
    assert forall|j: int|
        0 <= j < ne.len() implies !insert_all(m, ne.take(j)).contains_key(
        entry_hash(#[trigger] ne[j]).spec_key(),
    ) by {
        if j < ne0.len() {
            assert(ne.take(j) =~= ne0.take(j));
        } else {
            assert(ne.take(j) =~= ne0);
        }
    }
}

/// The key of a header not yet in the tree is not among the entries of the prefix before it.
proof fn lemma_fresh_key(c: HeaderChain, headers: Seq<Header>, p: nat)
    requires
        accept_pre(c, headers),
        p < headers.len(),
        prefix_ok(c, headers, p),
        c.fault(headers, p as int) is None,
        !c.knows(spec_block_hash(headers[p as int])),
    ensures
        !insert_all(c.spec_entries(), c.new_entries(headers, p)).contains_key(
            spec_block_hash(headers[p as int]).spec_key(),
        ),
{
    reveal(prefix_ok);
    let key = spec_block_hash(headers[p as int]).spec_key();
    let im0 = insert_all(c.spec_entries(), c.new_entries(headers, p));
    if im0.contains_key(key) {
        assert(from_message(headers, p, key));
        let i = choose|i: int| 0 <= i < p && #[trigger] spec_block_hash(headers[i]).spec_key() == key;
        assert(spec_block_hash(headers[i]) == spec_block_hash(headers[p as int]));
        assert(repeats(headers, p as int));
        assert(false);
    }
}

/// The parent of a fault-free header is filed one height below the header's position, under
/// another key.
proof fn lemma_parent_filed(c: HeaderChain, headers: Seq<Header>, p: nat)
    requires
        accept_pre(c, headers),
        p < headers.len(),
        prefix_ok(c, headers, p),
        c.fault(headers, p as int) is None,
        !c.knows(spec_block_hash(headers[p as int])),
    ensures
        ({
            let im0 = insert_all(c.spec_entries(), c.new_entries(headers, p));
            let h = headers[p as int];
            let pk = h.prev_blockhash.spec_key();
            &&& im0.contains_key(pk)
            &&& im0[pk].height + 1 == c.position(headers, p).0
            &&& im0[pk].height <= c.spec_max_height() + p
            &&& pk != spec_block_hash(h).spec_key()
            &&& 1 <= c.position(headers, p).0 <= c.spec_max_height() + p + 1
        }),
{
    reveal(prefix_ok);
    c.lemma_wf();
    let m = c.spec_entries();
    let im0 = insert_all(m, c.new_entries(headers, p));
    let h = headers[p as int];
    let pk = h.prev_blockhash.spec_key();
    if p == 0 {
        assert(c.knows(h.prev_blockhash));
        assert(im0[pk] == m[pk]);
    } else {
        assert(c.placed(im0, headers, p - 1));
        assert(h.prev_blockhash == spec_block_hash(headers[p - 1]));
    }
    assert(im0.contains_key(pk));
}

/// The facts each insertion of `accept` needs about the entry it files.
proof fn lemma_insert_step(c: HeaderChain, headers: Seq<Header>, ne: Seq<HeaderEntry>, j: int)
    requires
        prefix_ok(c, headers, headers.len()),
        ne == c.new_entries(headers, headers.len()),
        0 <= j < ne.len(),
    ensures
        ({
            let m = c.spec_entries();
            let cur = insert_all(m, ne.take(j));
            &&& insert_all(m, ne.take(j + 1)) == cur.insert(entry_hash(ne[j]).spec_key(), ne[j])
            &&& linked(cur.insert(entry_hash(ne[j]).spec_key(), ne[j]))
            &&& !cur.contains_key(entry_hash(ne[j]).spec_key())
            &&& 1 <= ne[j].height
            &&& ne.take(j + 1).drop_last() == ne.take(j)
            &&& ne.take(j + 1).last() == ne[j]
        }),
{
    reveal(prefix_ok);
    let m = c.spec_entries();
    let next = ne.take(j + 1);
    assert(next.drop_last() =~= ne.take(j));
    assert(next.last() == ne[j]);
    if j + 1 == ne.len() {
        assert(next =~= ne);
    } else {
        assert(linked(insert_all(m, ne.take(j + 1))));
    }
    assert(!insert_all(m, ne.take(j)).contains_key(entry_hash(ne[j]).spec_key()));
    assert(1 <= ne[j].height);
}

/// Filing entries under their hashes keeps every entry of an empty or linked-keyed map under
/// its own hash.
pub proof fn lemma_insert_all_hashed(m: Map<EntryKey, HeaderEntry>, s: Seq<HeaderEntry>)
    requires
        forall|k: EntryKey| #[trigger] m.contains_key(k) ==> entry_hash(m[k]).spec_key() == k,
    ensures
        forall|k: EntryKey| #[trigger]
            insert_all(m, s).contains_key(k) ==> entry_hash(insert_all(m, s)[k]).spec_key() == k,
    decreases s.len(),
{
    if s.len() > 0 {
        lemma_insert_all_hashed(m, s.drop_last());
        let prior = insert_all(m, s.drop_last());
        let key = entry_hash(s.last()).spec_key();
        assert forall|k: EntryKey| #[trigger] insert_all(m, s).contains_key(k) implies entry_hash(
            insert_all(m, s)[k],
        ).spec_key() == k by {
            if k != key {
                assert(prior.contains_key(k));
            }
        }
    }
}

/// The locator of a chain whose tip is at `height` starts at the tip, ends at genesis, walks
/// strictly down, and holds at most 101 hashes (Bitcoin Core's `MAX_LOCATOR_SZ`) for any
/// height a `u32` can hold.
pub proof fn lemma_locator_shape(height: nat)
    requires
        height <= u32::MAX,
    ensures
        ({
            let s = locator_heights(height, 1, 0);
            &&& s.len() >= 1
            &&& s[0] == height
            &&& s.last() == 0
            &&& forall|i: int| 0 < i < s.len() ==> #[trigger] s[i] < s[i - 1]
            &&& s.len() <= 101
        }),
{
    lemma_locator_walk(height, 1, 0);
    lemma_locator_len_early(height, 0);
}

/// Any locator walk starts where it is, ends at 0 and walks strictly down.
proof fn lemma_locator_walk(height: nat, step: nat, taken: nat)
    requires
        step >= 1,
    ensures
        ({
            let s = locator_heights(height, step, taken);
            &&& s.len() >= 1
            &&& s[0] == height
            &&& s.last() == 0
            &&& forall|i: int| 0 < i < s.len() ==> #[trigger] s[i] < s[i - 1]
        }),
    decreases height,
{
    if height > 0 {
        let next_step = if taken + 1 >= 10 { step * 2 } else { step };
        let next = if height > next_step && next_step > 0 { (height - next_step) as nat } else { 0nat };
        lemma_locator_walk(next, next_step, taken + 1);
        let s = locator_heights(height, step, taken);
        let rest = locator_heights(next, next_step, taken + 1);
        assert(s == seq![height].add(rest));
        assert forall|i: int| 0 < i < s.len() implies #[trigger] s[i] < s[i - 1] by {
            if i > 1 {
                assert(s[i] == rest[i - 1] && s[i - 1] == rest[i - 2]);
            }
        }
    }
}

/// Once the gaps double, a walk from below `step * 2^k` takes at most `k + 2` hashes.
proof fn lemma_locator_len_doubling(height: nat, step: nat, taken: nat, k: nat)
    requires
        step >= 1,
        taken >= 9,
        height < step * vstd::arithmetic::power2::pow2(k),
    ensures
        locator_heights(height, step, taken).len() <= k + 2,
    decreases height,
{
    vstd::arithmetic::power2::lemma_pow2_pos(k);
    if height > 0 && k == 0 {
        vstd::arithmetic::power2::lemma2_to64();
        let next = locator_heights(0, step * 2, taken + 1);
        assert(next.len() == 1);
    } else if height > 0 {
        let next_step = step * 2;
        let next = if height > next_step { (height - next_step) as nat } else { 0nat };
        let k1 = (k - 1) as nat;
        vstd::arithmetic::power2::lemma_pow2_unfold(k);
        assert(step * vstd::arithmetic::power2::pow2(k) == next_step * vstd::arithmetic::power2::pow2(k1))
            by (nonlinear_arith)
            requires
                vstd::arithmetic::power2::pow2(k) == 2 * vstd::arithmetic::power2::pow2(k1),
                next_step == step * 2,
        ;
        lemma_locator_len_doubling(next, next_step, taken + 1, k1);
    }
}

/// The first ten hashes go one block at a time; the rest double.
proof fn lemma_locator_len_early(height: nat, taken: nat)
    requires
        height <= u32::MAX,
        taken <= 9,
    ensures
        locator_heights(height, 1, taken).len() <= 9 - taken + 35,
    decreases 9 - taken,
{
    if height > 0 {
        let next_step: nat = if taken + 1 >= 10 { 2 } else { 1 };
        let next = if height > next_step { (height - next_step) as nat } else { 0nat };
        if taken == 9 {
            vstd::arithmetic::power2::lemma2_to64();
            lemma_locator_len_doubling(next, 2, 10, 32);
        } else {
            lemma_locator_len_early(next, taken + 1);
        }
    }
}

/// The work of the tip after offering entries is at least the tip's work before, and at least
/// that of every entry offered.
pub proof fn lemma_tip_after_most(tip: BlockHash, work: U256, s: Seq<HeaderEntry>)
    ensures
        tip_after(tip, work, s).1.value() >= work.value(),
        forall|i: int| 0 <= i < s.len() ==> tip_after(tip, work, s).1.value() >= (#[trigger] s[i]).chain_work.value(),
    decreases s.len(),
{
    if s.len() > 0 {
        lemma_tip_after_most(tip, work, s.drop_last());
        assert forall|i: int| 0 <= i < s.len() implies tip_after(tip, work, s).1.value() >= (#[trigger] s[i]).chain_work.value() by {
            if i < s.len() - 1 {
                assert(s[i] == s.drop_last()[i]);
            }
        }
    }
}

/// If the tip had the most work before a message was accepted, it has the most work after.
pub proof fn lemma_accept_keeps_most_work(
    c: HeaderChain,
    next: HeaderChain,
    headers: Seq<Header>,
    new: Vec<HeaderEntry>,
)
    requires
        c.wf(),
        c.accepted(next, headers, Ok(new)),
        forall|k: EntryKey| #[trigger]
            c.spec_entries().contains_key(k) ==> c.spec_entries()[k].chain_work.value()
                <= c.entry(c.tip_hash()).chain_work.value(),
    ensures
        forall|k: EntryKey| #[trigger]
            next.spec_entries().contains_key(k) ==> next.spec_entries()[k].chain_work.value()
                <= next.entry(next.tip_hash()).chain_work.value(),
{
    let t0 = c.tip_hash();
    let w0 = c.entry(t0).chain_work;
    lemma_tip_after_most(t0, w0, new@);
    assert forall|k: EntryKey| #[trigger] next.spec_entries().contains_key(k) implies next.spec_entries()[k].chain_work.value()
        <= next.entry(next.tip_hash()).chain_work.value() by {
        lemma_insert_all_value(c.spec_entries(), new@, k);
    }
}

/// The value filed under a key after `s` is the last entry of `s` hashing to it, or the value
/// it had before.
pub proof fn lemma_insert_all_value(m: Map<EntryKey, HeaderEntry>, s: Seq<HeaderEntry>, k: EntryKey)
    requires
        insert_all(m, s).contains_key(k),
    ensures
        (m.contains_key(k) && insert_all(m, s)[k] == m[k]) || exists|u: int|
            0 <= u < s.len() && #[trigger] s[u] == insert_all(m, s)[k],
    decreases s.len(),
{
    if s.len() > 0 {
        let key = entry_hash(s.last()).spec_key();
        if k != key {
            lemma_insert_all_value(m, s.drop_last(), k);
            if exists|u: int| 0 <= u < s.len() - 1 && #[trigger] s.drop_last()[u] == insert_all(m, s)[k] {
                let u = choose|u: int| 0 <= u < s.len() - 1 && #[trigger] s.drop_last()[u] == insert_all(m, s)[k];
                assert(s[u] == s.drop_last()[u]);
            }
        } else {
            assert(s[s.len() - 1] == insert_all(m, s)[k]);
        }
    }
}

/// Accepting a message twice: the second accept succeeds, returns no new entries, and leaves
/// the entries and the tip as the first left them.
pub proof fn lemma_accept_twice(
    c: HeaderChain,
    next: HeaderChain,
    headers: Seq<Header>,
    new: Vec<HeaderEntry>,
    again: HeaderChain,
    r: Result<Vec<HeaderEntry>, HeaderError>,
)
    requires
        c.wf(),
        c.spec_max_height() + headers.len() < u32::MAX,
        c.accepted(next, headers, Ok(new)),
        next.accepted(again, headers, r),
    ensures
        r is Ok,
        r->Ok_0@.len() == 0,
        again.spec_entries() == next.spec_entries(),
        again.tip_hash() == next.tip_hash(),
{
    lemma_accept_again_adds_nothing(c, next, headers, new);
    let v = r->Ok_0;
    assert(v@ =~= Seq::<HeaderEntry>::empty());
    assert(insert_all(next.spec_entries(), v@) == next.spec_entries());
    assert(tip_after(next.tip_hash(), next.entry(next.tip_hash()).chain_work, v@) == (
        next.tip_hash(),
        next.entry(next.tip_hash()).chain_work,
    ));
}

/// A message accepted once is accepted again without fault, and adds nothing the second
/// time.
pub proof fn lemma_accept_again_adds_nothing(
    c: HeaderChain,
    next: HeaderChain,
    headers: Seq<Header>,
    new: Vec<HeaderEntry>,
)
    requires
        c.wf(),
        c.spec_max_height() + headers.len() < u32::MAX,
        c.accepted(next, headers, Ok(new)),
    ensures
        next.first_fault(headers, headers.len()) is None,
        next.new_entries(headers, headers.len()) == Seq::<HeaderEntry>::empty(),
{
    lemma_accept_prefix(c, headers, headers.len());
    reveal(prefix_ok);
    let im = insert_all(c.spec_entries(), new@);
    assert forall|i: int| 0 <= i < headers.len() implies #[trigger] next.knows(spec_block_hash(headers[i])) by {
        assert(c.placed(im, headers, i));
    }
    lemma_known_prefix(c, next, headers, headers.len());
}

/// When every header of a message is known, a prefix that was fault-free before is fault-free
/// now and adds nothing.
proof fn lemma_known_prefix(c: HeaderChain, next: HeaderChain, headers: Seq<Header>, n: nat)
    requires
        n <= headers.len(),
        c.first_fault(headers, n) is None,
        forall|k: EntryKey| c.spec_entries().contains_key(k) ==> #[trigger] next.spec_entries().contains_key(k),
        forall|i: int| 0 <= i < headers.len() ==> #[trigger] next.knows(spec_block_hash(headers[i])),
    ensures
        next.first_fault(headers, n) is None,
        next.new_entries(headers, n) == Seq::<HeaderEntry>::empty(),
    decreases n,
{
    if n > 0 {
        let p = (n - 1) as nat;
        lemma_known_prefix(c, next, headers, p);
        assert(c.fault(headers, p as int) is None);
        assert(next.knows(spec_block_hash(headers[p as int])));
        if p == 0 {
            assert(c.knows(headers[0].prev_blockhash));
        }
    }
}

/// Keys of the tree, in key order, are those of the map of entries.
pub proof fn lemma_insert_all_keeps(m: Map<EntryKey, HeaderEntry>, s: Seq<HeaderEntry>, k: EntryKey)
    requires
        m.contains_key(k),
    ensures
        insert_all(m, s).contains_key(k),
    decreases s.len(),
{
    if s.len() > 0 {
        lemma_insert_all_keeps(m, s.drop_last(), k);
    }
}

} // verus!
