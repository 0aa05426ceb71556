//! A collaborative text-editing engine built on a YATA-family CRDT.
//!
//! Several replicas, each owned by one client, edit a shared document
//! concurrently. Every edit becomes an immutable-identity [`block::Block`];
//! remote blocks are integrated deterministically from their origin anchors,
//! so replicas that have seen the same blocks render the same string.

pub mod block;
pub mod block_store;
pub mod codec;
pub mod doc;
pub mod sync_txn;
pub mod utils;

pub use crate::block::Block;
pub use crate::block::BlockID;
pub use crate::block_store::BlockStore;
