//! A Bitcoin node library: header chain, chainstate storage codecs, peer bookkeeping and
//! wire-level checks, with their contracts proved by Verus.

pub mod bytes;
pub mod chain_params;
pub mod encoding;
pub mod pow;
pub mod primitives;
pub mod storage;
pub mod transaction;
pub mod validation;
pub mod wire;
pub mod header_chain;
pub mod net;
pub mod pairs;
pub mod p2p;
