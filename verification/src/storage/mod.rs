//! Persistent node storage.
//!
//! Tables are declared in [`tables`], engines implement [`db::Database`], and the interface
//! between them is [`db`]. Which table lives in which database is decided here, in the wiring:
//! the chainstate tables share one database because a block moves them together, while block
//! bodies and headers each get their own.

pub mod chain;
pub mod coin;
pub mod db;
pub mod engine;
pub mod error;
pub mod headers;
pub mod network;
pub mod tables;

pub use chain::{ChainWrite, Chainstate, InChainstate};
pub use coin::{BlockUndo, Coin};
pub use db::{Batch, Database, Store, Table};
pub use engine::MemoryDb;
pub use error::{Result, StorageError};
pub use headers::{BlockStatus, HeaderEntry};
pub use network::{AddressRecord, BanRecord, PeerAddr};
pub use tables::{Blocks, Coins, Headers, HeightIndex, Meta, MetaKey, Undo};

use vstd::prelude::*;

verus! {

/// The node's storage: one database for the chainstate, one for block bodies, one for headers.
pub struct Storage<D: Database> {
    chainstate: Chainstate<D>,
    blocks: Store<Blocks, D>,
    headers: Store<Headers, D>,
}

impl<D: Database> Storage<D> {
    pub closed spec fn spec_chainstate(&self) -> Chainstate<D> {
        self.chainstate
    }

    pub closed spec fn spec_blocks(&self) -> Store<Blocks, D> {
        self.blocks
    }

    pub closed spec fn spec_headers(&self) -> Store<Headers, D> {
        self.headers
    }

    /// Wires the three databases together, checking that each hosts the tables it is given.
    pub fn new(chainstate_db: D, blocks_db: D, headers_db: D) -> (r: Result<Storage<D>>)
        ensures
            r is Ok <==> {
                &&& Chainstate::<D>::spec_tables().subset_of(chainstate_db.tables())
                &&& blocks_db.tables().contains(Blocks::spec_name())
                &&& headers_db.tables().contains(Headers::spec_name())
            },
            r is Ok ==> {
                &&& r->Ok_0.spec_chainstate().spec_db() == chainstate_db
                &&& r->Ok_0.spec_blocks().spec_db() == blocks_db
                &&& r->Ok_0.spec_headers().spec_db() == headers_db
            },
    {
        let chainstate = match Chainstate::open(chainstate_db) {
            Ok(c) => c,
            Err(e) => return Err(e),
        };
        let blocks = match Store::<Blocks, D>::open(blocks_db) {
            Ok(s) => s,
            Err(e) => return Err(e),
        };
        let headers = match Store::<Headers, D>::open(headers_db) {
            Ok(s) => s,
            Err(e) => return Err(e),
        };
        Ok(Storage { chainstate, blocks, headers })
    }

    /// Coins, undo data, the height index and the tip, which move together.
    pub fn chainstate(&self) -> (r: &Chainstate<D>)
        ensures
            *r == self.spec_chainstate(),
    {
        &self.chainstate
    }

    pub fn chainstate_mut(&mut self) -> (r: &mut Chainstate<D>)
        ensures
            *r == old(self).spec_chainstate(),
            final(self).spec_chainstate() == *final(r),
            final(self).spec_blocks() == old(self).spec_blocks(),
            final(self).spec_headers() == old(self).spec_headers(),
    {
        &mut self.chainstate
    }

    /// Block bodies, on any branch.
    pub fn blocks(&self) -> (r: &Store<Blocks, D>)
        ensures
            *r == self.spec_blocks(),
    {
        &self.blocks
    }

    pub fn blocks_mut(&mut self) -> (r: &mut Store<Blocks, D>)
        ensures
            *r == old(self).spec_blocks(),
            final(self).spec_blocks() == *final(r),
            final(self).spec_chainstate() == old(self).spec_chainstate(),
            final(self).spec_headers() == old(self).spec_headers(),
    {
        &mut self.blocks
    }

    /// Every known header.
    pub fn headers(&self) -> (r: &Store<Headers, D>)
        ensures
            *r == self.spec_headers(),
    {
        &self.headers
    }

    pub fn headers_mut(&mut self) -> (r: &mut Store<Headers, D>)
        ensures
            *r == old(self).spec_headers(),
            final(self).spec_headers() == *final(r),
            final(self).spec_chainstate() == old(self).spec_chainstate(),
            final(self).spec_blocks() == old(self).spec_blocks(),
    {
        &mut self.headers
    }
}

} // verus!
