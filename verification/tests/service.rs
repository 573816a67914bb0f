//! The data-node service and the in-memory store.

use dfs::block::{BlockId, BlockMeta, Shard};
use dfs::gossip::Swimmer;
use dfs::mem_store::MemStorage;
use dfs::membership::NodeHealth;
use dfs::rpc::{endpoint, ring_from_proto, ProtoBlockMeta, ProtoRing, ProtoShard, RpcError};
use dfs::server::{
    block_count, block_id_from_proto, get_block, health_check, join, join_alone, list_blocks,
    put_block, stat_block,
};
use dfs::storage::StorageError;
use dfs::types::Ring;

fn sample() -> (Shard, BlockMeta) {
    let shard = Shard { index: 2, data: b"data".to_vec() };
    let meta = BlockMeta::new("obj", 2, 7, b"data");
    (shard, meta)
}

#[test]
fn messages_round_trip() {
    let (shard, meta) = sample();
    assert_eq!(Shard::from(ProtoShard::from(shard.clone())), shard);
    assert_eq!(BlockMeta::from(ProtoBlockMeta::from(meta.clone())), meta);
}

#[test]
fn odd_messages_are_read_leniently() {
    let shard = Shard::from(ProtoShard { index: 258, data: vec![1] });
    assert_eq!(shard, Shard { index: 2, data: vec![1] });
    let mut msg = ProtoBlockMeta::from(sample().1);
    msg.shard_index = 256 + 9;
    msg.checksum = vec![1; 31];
    let meta = BlockMeta::from(msg);
    assert_eq!(meta.shard_index, 9);
    assert_eq!(meta.checksum, [0; 32]);
}

#[test]
fn endpoints_are_urls() {
    assert_eq!(endpoint("127.0.0.1:9001"), "http://127.0.0.1:9001");
}

#[test]
fn put_requests_are_checked() {
    let (shard, meta) = sample();
    let s = ProtoShard::from(shard.clone());
    let m = ProtoBlockMeta::from(meta.clone());
    assert_eq!(put_block(Some(s.clone()), Some(m.clone())), Ok((shard, meta)));
    let missing_shard = Err(RpcError::InvalidArgument("missing shard".to_string()));
    assert_eq!(put_block(None, Some(m)), missing_shard);
    assert_eq!(put_block(None, None), missing_shard);
    assert_eq!(
        put_block(Some(s), None),
        Err(RpcError::InvalidArgument("missing meta".to_string()))
    );
}

#[test]
fn answers_follow_the_storage() {
    let (shard, meta) = sample();
    let got = get_block(Ok((shard.clone(), meta.clone()))).unwrap();
    assert_eq!(got, (ProtoShard::from(shard), ProtoBlockMeta::from(meta.clone())));
    assert_eq!(stat_block(Ok(meta.clone())), Ok(ProtoBlockMeta::from(meta)));
    assert_eq!(block_count(Ok(258)), Ok(258));
    let health = health_check(Ok(258)).unwrap();
    assert_eq!(health.block_count, 258);
    assert_eq!(health.disk_used, vec![0, 0, 0, 0, 0, 0, 1, 2]);
    let ids = vec![BlockId::new("a", 0, 1), block_id_from_proto("b")];
    assert_eq!(list_blocks(Ok(ids)), Ok(vec!["a-00-v1".to_string(), "b".to_string()]));
}

#[test]
fn storage_failures_are_internal_errors() {
    let fault = || StorageError::Io("gone".to_string());
    let want = RpcError::Internal("io error: gone".to_string());
    assert_eq!(get_block(Err(fault())).unwrap_err(), want);
    assert_eq!(stat_block(Err(fault())).unwrap_err(), want);
    assert_eq!(block_count(Err(fault())).unwrap_err(), want);
    assert_eq!(health_check(Err(fault())).unwrap_err(), want);
    assert_eq!(list_blocks(Err(fault())).unwrap_err(), want);
    let id = "00000000-0000-0000-0000-000000000009";
    assert_eq!(join_alone(Err(fault()), id).unwrap_err(), want);
}

#[test]
fn a_node_joins() {
    let mut swimmer = Swimmer::new_seeded(1, vec![1], 42);
    let id = "00000000-0000-0000-0000-000000000009";
    let ring = join(&mut swimmer, id, "addr:1".to_string()).unwrap();
    assert_eq!(
        ring,
        ProtoRing {
            node_ids: vec!["00000000-0000-0000-0000-000000000001".to_string(), id.to_string()],
            version: 2,
        }
    );
    assert_eq!(swimmer.peers[&9], "addr:1");
    assert_eq!(swimmer.membership.health[&9], NodeHealth::Alive);
    assert_eq!(swimmer.membership.ring, Ring { nodes: vec![1, 9], version: 2 });
}

#[test]
fn a_joining_node_adopts_the_ring() {
    let mut seed = Swimmer::new_seeded(1, vec![1, 2], 42);
    let mut joining = Swimmer::new_seeded(9, vec![9], 42);
    let id = "00000000-0000-0000-0000-000000000009";
    let msg = join(&mut seed, id, "addr:1".to_string()).unwrap();
    let ring = ring_from_proto(&msg).unwrap();
    assert_eq!(ring, Ring { nodes: vec![1, 2, 9], version: 2 });
    joining.membership.health.insert(2, NodeHealth::Suspect(0));
    joining.membership.adopt_ring(ring.clone());
    assert_eq!(joining.membership.ring, ring);
    assert_eq!(joining.membership.health[&1], NodeHealth::Alive);
    assert_eq!(joining.membership.health[&2], NodeHealth::Suspect(0));
    assert_eq!(joining.membership.health[&9], NodeHealth::Alive);

    let bad = ProtoRing { node_ids: vec![id.to_string(), "x".to_string()], version: 2 };
    assert_eq!(
        ring_from_proto(&bad),
        Err(RpcError::InvalidArgument("bad node id".to_string()))
    );
}

#[test]
fn a_bad_node_id_does_not_join() {
    let mut swimmer = Swimmer::new_seeded(1, vec![1], 42);
    let refused = Err(RpcError::InvalidArgument("bad node id".to_string()));
    assert_eq!(join(&mut swimmer, "nobody", "addr:1".to_string()), refused);
    assert_eq!(swimmer.membership.ring, Ring { nodes: vec![1], version: 1 });
    assert!(swimmer.peers.is_empty());
    assert_eq!(join_alone(Ok(1), "nobody"), refused);
}

#[test]
fn a_single_node_answers_with_itself() {
    let ring = join_alone(Ok(5), "00000000-0000-0000-0000-000000000009").unwrap();
    assert_eq!(ring.node_ids, vec!["00000000-0000-0000-0000-000000000005".to_string()]);
    assert_eq!(ring.version, 1);
}

#[test]
fn the_memory_store_keeps_blocks() {
    let (shard, meta) = sample();
    let id = meta.block_id.to_string();
    let mut store = MemStorage::new();
    assert_eq!(store.get_block(id.clone()), Err(RpcError::NotFound(id.clone())));
    assert_eq!(store.stat_block(id.clone()), Err(RpcError::NotFound(id.clone())));
    let s = ProtoShard::from(shard);
    let m = ProtoBlockMeta::from(meta);
    store.put_block(Some(s.clone()), Some(m.clone())).unwrap();
    assert_eq!(store.get_block(id.clone()), Ok((s.clone(), m.clone())));
    assert_eq!(store.stat_block(id.clone()), Ok(m.clone()));
    assert_eq!(store.block_count(), 1);

    // A second put replaces the block.
    let other = ProtoShard { index: 9, data: vec![5] };
    store.put_block(Some(other), Some(m.clone())).unwrap();
    assert_eq!(store.block_count(), 1);
    let (got, _) = store.get_block(id.clone()).unwrap();
    assert_eq!(got, ProtoShard { index: 2, data: vec![5] });

    let mut m2 = m;
    m2.block_id = "another".to_string();
    store.put_block(Some(s), Some(m2)).unwrap();
    let mut ids = store.list_blocks();
    ids.sort();
    assert_eq!(ids, vec!["another".to_string(), id.clone()]);

    store.delete_block(&id);
    store.delete_block(&id);
    assert_eq!(store.list_blocks(), vec!["another".to_string()]);
}

#[test]
fn the_memory_store_checks_requests() {
    let mut store = MemStorage::default();
    let m = ProtoBlockMeta::from(sample().1);
    assert_eq!(
        store.put_block(None, None),
        Err(RpcError::InvalidArgument("no meta".to_string()))
    );
    assert_eq!(
        store.put_block(None, Some(m)),
        Err(RpcError::InvalidArgument("no shard".to_string()))
    );
    assert_eq!(store.block_count(), 0);
    assert_eq!(store.join(), ProtoRing { node_ids: vec![], version: 1 });
    let health = store.health_check();
    assert_eq!(health.block_count, 0);
    assert!(health.disk_used.is_empty());
}
