//! The data-node service.
//!
//! What each request is answered, given what the disk and the swimmer say. The
//! transport and the disk are the caller's.

use vstd::prelude::*;

use crate::block::{BlockId, BlockMeta, Shard};
use crate::gossip::{Swimmer, SwimmerView};
use crate::ids;
use crate::ids::parse_uuid;
use crate::membership::NodeHealth;
use crate::rpc;
use crate::rpc::{ProtoBlockMeta, ProtoRing, ProtoShard, RpcError};
use crate::storage;
use crate::storage::StorageError;
use crate::text;
use crate::text::to_be_bytes;
use crate::types::{NodeId, Ring, RingView};

verus! {

/// The block ID that a request names.
pub fn block_id_from_proto(raw: &str) -> (res: BlockId)
    ensures
        res@ == raw@,
{
    BlockId(raw.to_owned())
}

/// A failure of the storage layer, as the requester sees it.
pub fn storage_failure(e: StorageError) -> (res: RpcError)
    ensures
        res matches RpcError::Internal(msg) && msg@ == e.text(),
{
    RpcError::Internal(e.to_string())
}

/// The shard and the metadata that a put request asks to store.
///
/// # Errors
/// - [`RpcError::InvalidArgument`] if either is missing.
pub fn put_block(shard: Option<ProtoShard>, meta: Option<ProtoBlockMeta>) -> (res: Result<
    (Shard, BlockMeta),
    RpcError,
>)
    ensures
        match res {
            Ok((s, m)) => {
                &&& shard is Some && s@ == rpc::shard_from_proto(shard.unwrap()@)
                &&& meta is Some && m@ == rpc::meta_from_proto(meta.unwrap()@)
            },
            Err(e) => if shard is None {
                e matches RpcError::InvalidArgument(msg) && msg@ == "missing shard"@
            } else {
                meta is None && (e matches RpcError::InvalidArgument(msg) && msg@ == "missing meta"@)
            },
        },
{
    let shard = match shard {
        Some(s) => Shard::from(s),
        None => {
            return Err(RpcError::InvalidArgument("missing shard".to_owned()));
        },
    };
    let meta = match meta {
        Some(m) => BlockMeta::from(m),
        None => {
            return Err(RpcError::InvalidArgument("missing meta".to_owned()));
        },
    };
    Ok((shard, meta))
}

/// The answer to a get request, given what reading the block gave.
pub fn get_block(read: storage::Result<(Shard, BlockMeta)>) -> (res: Result<
    (ProtoShard, ProtoBlockMeta),
    RpcError,
>)
    ensures
        match read {
            Ok((shard, meta)) => res matches Ok((s, m)) && s@ == rpc::shard_to_proto(shard@) && m@
                == rpc::meta_to_proto(meta@),
            Err(e) => res matches Err(RpcError::Internal(msg)) && msg@ == e.text(),
        },
{
    match read {
        Ok((shard, meta)) => Ok((ProtoShard::from(shard), ProtoBlockMeta::from(meta))),
        Err(e) => Err(storage_failure(e)),
    }
}

/// The answer to a list request, given what listing the blocks gave.
pub fn list_blocks(listed: storage::Result<Vec<BlockId>>) -> (res: Result<Vec<String>, RpcError>)
    ensures
        match listed {
            Ok(block_ids) => res matches Ok(out) && storage::name_views(out@) == storage::id_views(
                block_ids@,
            ) && out@.len() == block_ids@.len() && forall|i: int|
                0 <= i < out@.len() ==> (#[trigger] out@[i])@ == block_ids@[i].0@,
            Err(e) => res matches Err(RpcError::Internal(msg)) && msg@ == e.text(),
        },
{
    match listed {
        Ok(block_ids) => {
            let mut out: Vec<String> = Vec::new();
            let mut i: usize = 0;
            while i < block_ids.len()
                invariant
                    i <= block_ids@.len(),
                    out@.len() == i,
                    forall|j: int| 0 <= j < i ==> (#[trigger] out@[j])@ == block_ids@[j]@,
                decreases block_ids.len() - i,
            {
                out.push(block_ids[i].to_string());
                i = i + 1;
            }
            assert(storage::name_views(out@) =~= storage::id_views(block_ids@));
            Ok(out)
        },
        Err(e) => Err(storage_failure(e)),
    }
}

/// The answer to a count request, given what counting the blocks gave.
pub fn block_count(counted: storage::Result<usize>) -> (res: Result<u64, RpcError>)
    ensures
        match counted {
            Ok(n) => res == Ok::<u64, RpcError>(n as u64),
            Err(e) => res matches Err(RpcError::Internal(msg)) && msg@ == e.text(),
        },
{
    match counted {
        Ok(n) => Ok(n as u64),
        Err(e) => Err(storage_failure(e)),
    }
}

/// The answer to a stat request, given what reading the metadata gave.
pub fn stat_block(read: storage::Result<BlockMeta>) -> (res: Result<ProtoBlockMeta, RpcError>)
    ensures
        match read {
            Ok(meta) => res matches Ok(m) && m@ == rpc::meta_to_proto(meta@),
            Err(e) => res matches Err(RpcError::Internal(msg)) && msg@ == e.text(),
        },
{
    match read {
        Ok(meta) => Ok(ProtoBlockMeta::from(meta)),
        Err(e) => Err(storage_failure(e)),
    }
}

/// The swimmer after the node `id` at `addr` joined: the address is recorded, and
/// the node is in the membership, so that it is probed.
pub open spec fn joined(s: SwimmerView, id: NodeId, addr: Seq<char>) -> SwimmerView {
    SwimmerView {
        peers: s.peers.insert(id, addr),
        membership: s.membership.with_node(id),
        ..s
    }
}

/// Lets a node into the ring, and answers with the ring that it is then in.
///
/// # Errors
/// - [`RpcError::InvalidArgument`] if `node_id` is not a UUID.
pub fn join(swimmer: &mut Swimmer, node_id: &str, listen_addr: String) -> (res: Result<
    ProtoRing,
    RpcError,
>)
    requires
        old(swimmer)@.membership.ring.version < u64::MAX,
    ensures
        final(swimmer).epoch == old(swimmer).epoch,
        ids::parsed_uuid(node_id@) matches Some(id) ==> {
            &&& final(swimmer).membership.ring.version == old(swimmer).membership.ring.version + 1
            &&& final(swimmer).membership.ring.nodes@ == if old(swimmer).membership.ring.nodes@.contains(id) {
                old(swimmer).membership.ring.nodes@
            } else {
                old(swimmer).membership.ring.nodes@.push(id)
            }
            &&& final(swimmer).membership.health@ == old(swimmer).membership.health@.insert(
                id,
                NodeHealth::Alive,
            )
            &&& final(swimmer)@.peers == old(swimmer)@.peers.insert(id, listen_addr@)
            &&& final(swimmer).my_id == old(swimmer).my_id
            &&& final(swimmer).pending == old(swimmer).pending
            &&& final(swimmer).tick_count == old(swimmer).tick_count
        },
        match ids::parsed_uuid(node_id@) {
            Some(id) => {
                &&& final(swimmer)@ == joined(old(swimmer)@, id, listen_addr@)
                &&& res is Ok
                &&& rpc::describes_ring(res.unwrap(), final(swimmer)@.membership.ring)
            },
            None => {
                &&& final(swimmer)@ == old(swimmer)@
                &&& (res matches Err(RpcError::InvalidArgument(msg)) && msg@ == "bad node id"@)
            },
        },
{
    match parse_uuid(node_id) {
        Some(id) => {
            swimmer.add_peer(id, listen_addr);
            let ring = swimmer.membership.add_node(id);
            Ok(ProtoRing::from(&ring))
        },
        None => Err(RpcError::InvalidArgument("bad node id".to_owned())),
    }
}

/// The answer to a join request at a node without a swimmer: a ring of that node
/// alone, given its id.
///
/// # Errors
/// - [`RpcError::InvalidArgument`] if `node_id` is not a UUID.
/// - [`RpcError::Internal`] if the node's own id could not be read.
pub fn join_alone(own: storage::Result<NodeId>, node_id: &str) -> (res: Result<ProtoRing, RpcError>)
    ensures
        if ids::parsed_uuid(node_id@) is None {
            res matches Err(RpcError::InvalidArgument(msg)) && msg@ == "bad node id"@
        } else {
            match own {
                Ok(id) => res is Ok && rpc::describes_ring(
                    res.unwrap(),
                    (RingView { nodes: seq![id], version: 1 }),
                ),
                Err(e) => res matches Err(RpcError::Internal(msg)) && msg@ == e.text(),
            }
        },
{
    if parse_uuid(node_id).is_none() {
        return Err(RpcError::InvalidArgument("bad node id".to_owned()));
    }
    match own {
        Ok(id) => {
            let mut nodes: Vec<NodeId> = Vec::new();
            nodes.push(id);
            assert(nodes@ =~= seq![id]);
            Ok(ProtoRing::from(&Ring::new(nodes)))
        },
        Err(e) => Err(storage_failure(e)),
    }
}

/// The answer to a health check.
#[derive(Debug, PartialEq, Eq)]
pub struct HealthReport {
    /// How many blocks the node stores.
    pub block_count: u64,
    /// The disk usage: the block count as eight bytes, highest first.
    pub disk_used: Vec<u8>,
}

/// The answer to a health check, given what counting the blocks gave.
pub fn health_check(counted: storage::Result<usize>) -> (res: Result<HealthReport, RpcError>)
    ensures
        match counted {
            Ok(n) => {
                &&& res is Ok
                &&& res.unwrap().block_count == n
                &&& res.unwrap().disk_used@ == text::be_bytes(n as nat, 8)
            },
            Err(e) => res matches Err(RpcError::Internal(msg)) && msg@ == e.text(),
        },
{
    match counted {
        Ok(n) => Ok(HealthReport { block_count: n as u64, disk_used: to_be_bytes(n as u128, 8) }),
        Err(e) => Err(storage_failure(e)),
    }
}

/// A node that joins is on the ring and alive, at the address that it gave, and the
/// ring is one version on. Everything else that the swimmer holds stays.
pub proof fn law_joined_node_is_a_member(s: SwimmerView, id: NodeId, addr: Seq<char>, other: NodeId)
    requires
        s.membership.ring.version < u64::MAX,
        other != id,
    ensures
        ({
            let after = joined(s, id, addr);
            &&& after.membership.ring.version == s.membership.ring.version + 1
            &&& after.membership.ring.nodes.contains(id)
            &&& after.membership.ring.nodes.contains(other) <==> s.membership.ring.nodes.contains(other)
            &&& after.membership.health.contains_key(id)
            &&& after.membership.health[id] == NodeHealth::Alive
            &&& after.membership.health.contains_key(other) <==> s.membership.health.contains_key(other)
            &&& s.membership.health.contains_key(other) ==> after.membership.health[other]
                == s.membership.health[other]
            &&& after.peers.contains_key(id)
            &&& after.peers[id] == addr
            &&& after.peers.contains_key(other) <==> s.peers.contains_key(other)
            &&& s.peers.contains_key(other) ==> after.peers[other] == s.peers[other]
            &&& after.my_id == s.my_id
            &&& after.config == s.config
            &&& after.pending == s.pending
            &&& after.tick_count == s.tick_count
            &&& after.luck == s.luck
        }),
{
    let nodes = s.membership.ring.nodes;
    let after = joined(s, id, addr).membership.ring.nodes;
    if !nodes.contains(id) {
        assert(after[nodes.len() as int] == id);
        if nodes.contains(other) {
            let i = choose|i: int| 0 <= i < nodes.len() && nodes[i] == other;
            assert(after[i] == other);
        }
        if after.contains(other) {
            let i = choose|i: int| 0 <= i < after.len() && after[i] == other;
            assert(nodes[i] == other);
        }
    }
}

} // verus!
