//! A distributed, erasure-coded, content-addressed object store.
//!
//! - [`types`], [`block`], [`error`]: what objects, blocks and rings are.
//! - [`erasure`], [`codec`]: payloads to shards and back.
//! - [`placement`], [`membership`]: which node owns which shard, and which nodes
//!   there are.
//! - [`gossip`], [`gossip_loop`], [`repair`]: failure detection and what follows
//!   from it.
//! - [`storage`], [`server`], [`mem_store`]: a data node.
//! - [`client`], [`cluster`]: objects on a list of nodes.
//! - [`rpc`], [`wire`]: messages.
//! - [`hash`], [`ids`], [`text`]: digests, node ids, and renderings of numbers.
//!
//! Everything here decides and computes. Networks, disks and tasks are the
//! caller's: operations that need them are values, plans or sessions for the
//! caller to carry out.

pub mod block;
pub mod client;
pub mod cluster;
pub mod codec;
pub mod erasure;
pub mod error;
pub mod gossip;
pub mod gossip_loop;
pub mod hash;
pub mod ids;
pub mod mem_store;
pub mod membership;
pub mod placement;
pub mod repair;
pub mod rpc;
pub mod server;
pub mod storage;
pub mod text;
pub mod types;
pub mod wire;
