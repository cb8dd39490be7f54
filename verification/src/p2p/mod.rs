//! Bitcoin peer-to-peer networking: the address book, bans, per-peer permissions and the
//! settings the connection manager runs with.

pub mod addrman;
pub mod banman;
pub mod config;
pub mod discovery;
pub mod events;
pub mod peers;
pub mod permissions;
pub mod protocol;
pub mod sync;
pub mod transport;

pub use config::P2pConfig;
pub use permissions::{PermissionTable, Permissions, Subnet, SubnetError};
