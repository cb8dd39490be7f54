//! Storage engines that live in the library. An engine implements
//! [`Database`](super::db::Database); a node opens as many as it likes, each with the tables it
//! should hold.

pub mod memory;

pub use memory::MemoryDb;
