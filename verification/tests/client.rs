//! The client, against nodes in memory.

use dfs::block::{BlockId, BlockMeta, Shard};
use dfs::client::{grpc_failure, ClientError, DfsClient, ObjectMetadata, Result};
use dfs::erasure;
use dfs::gossip::Swimmer;
use dfs::mem_store::MemStorage;
use dfs::membership::NodeHealth;
use dfs::rpc::{ProtoBlockMeta, ProtoShard, RpcError};
use dfs::types::ErasureConfig;

/// A cluster of in-memory nodes, some of them unreachable.
struct Cluster {
    nodes: Vec<MemStorage>,
    down: Vec<bool>,
}

fn start_nodes(count: usize) -> (Cluster, Vec<String>) {
    let nodes = (0..count).map(|_| MemStorage::new()).collect();
    let addrs = (0..count).map(|i| format!("127.0.0.1:{}", 19601 + i)).collect();
    (Cluster { nodes, down: vec![false; count] }, addrs)
}

impl Cluster {
    fn put(&mut self, client: &DfsClient, data: &[u8]) -> Result<ObjectMetadata> {
        let mut session = client.put(data)?;
        while let Some(req) = session.request() {
            let ok = !self.down[req.node]
                && self.nodes[req.node].put_block(Some(req.shard), Some(req.meta)).is_ok();
            session.reply(ok);
        }
        session.finish()
    }

    fn fetch(&self, node: usize, block_id: &BlockId) -> Option<ProtoShard> {
        if self.down[node] {
            return None;
        }
        self.nodes[node].get_block(block_id.to_string()).ok().map(|(shard, _)| shard)
    }

    fn get(&self, client: &DfsClient, object_id: &str) -> Result<Vec<u8>> {
        let mut session = client.get(object_id);
        while let Some(req) = session.request() {
            let shard = self.fetch(req.node, &req.block_id);
            session.reply(shard);
        }
        session.finish()
    }

    fn delete(&mut self, client: &DfsClient, object_id: &str) {
        for req in client.delete(object_id) {
            self.nodes[req.node].delete_block(&req.block_id.to_string());
        }
    }

    fn stat(&self, client: &DfsClient, object_id: &str) -> Result<ObjectMetadata> {
        let req = client.stat(object_id);
        let meta = self.nodes[req.node].stat_block(req.block_id.to_string());
        DfsClient::stat_reply(Some(meta.map_err(ClientError::Grpc)?))
    }
}

#[test]
fn put_get_roundtrip() {
    let (mut cluster, addrs) = start_nodes(3);
    let client = DfsClient::new(addrs);
    let payload = b"integration-test-payload";
    let meta = cluster.put(&client, payload).unwrap();
    println!("put: {} bytes, id {}", meta.size, &meta.object_id[..8]);
    let data = cluster.get(&client, &meta.object_id).unwrap();
    assert_eq!(&data[..], payload);
    println!("get: OK");
}

#[test]
fn objects_are_content_addressed() {
    let (mut cluster, addrs) = start_nodes(3);
    let client = DfsClient::new(addrs);
    let meta = cluster.put(&client, b"hello").unwrap();
    let digest = blake3::hash(b"hello");
    assert_eq!(meta.object_id, hex::encode(digest.as_bytes()));
    assert_eq!(meta.checksum, *digest.as_bytes());
    assert_eq!(meta.size, 5);
    // A second put stores nothing new.
    let before: Vec<u64> = cluster.nodes.iter().map(|n| n.block_count()).collect();
    assert_eq!(before, vec![2, 2, 1]);
    cluster.put(&client, b"hello").unwrap();
    let after: Vec<u64> = cluster.nodes.iter().map(|n| n.block_count()).collect();
    assert_eq!(before, after);
}

#[test]
fn stat_roundtrip() {
    let (mut cluster, addrs) = start_nodes(3);
    let client = DfsClient::new(addrs);
    let meta = cluster.put(&client, b"stat-me").unwrap();
    let info = cluster.stat(&client, &meta.object_id).unwrap();
    // stat returns shard-level meta; checksum is the key field.
    assert!(info.size > 0);
    assert_eq!(info.size, 3);
    assert_eq!(info.object_id, meta.object_id);
    assert_eq!(info.checksum, *blake3::hash(b"sta").as_bytes());
}

#[test]
fn stat_without_metadata_is_an_error() {
    assert_eq!(
        DfsClient::stat_reply(None),
        Err(ClientError::Grpc(RpcError::Internal("empty meta in response".to_string())))
    );
}

#[test]
fn delete_then_not_found() {
    let (mut cluster, addrs) = start_nodes(3);
    let client = DfsClient::new(addrs);
    let meta = cluster.put(&client, b"delete-me").unwrap();
    cluster.delete(&client, &meta.object_id);
    assert!(cluster.get(&client, &meta.object_id).is_err());
    assert_eq!(
        cluster.get(&client, &meta.object_id),
        Err(ClientError::NotFound("insufficient shards for get: got 0, need 3".to_string()))
    );
    assert!(cluster.nodes.iter().all(|n| n.block_count() == 0));
}

#[test]
fn delete_finds_shards_that_took_another_place() {
    let (mut cluster, addrs) = start_nodes(3);
    let client = DfsClient::new(addrs);
    let kept = cluster.put(&client, b"keep-me").unwrap();
    cluster.down[1] = true;
    let meta = cluster.put(&client, b"delete-me").unwrap();
    cluster.down[1] = false;
    assert_eq!(&cluster.get(&client, &meta.object_id).unwrap()[..], b"delete-me");
    cluster.delete(&client, &meta.object_id);
    assert_eq!(
        cluster.get(&client, &meta.object_id),
        Err(ClientError::NotFound("insufficient shards for get: got 0, need 3".to_string()))
    );
    // Only the shards of the other object are left.
    assert_eq!(cluster.nodes.iter().map(|n| n.block_count()).sum::<u64>(), 5);
    assert_eq!(&cluster.get(&client, &kept.object_id).unwrap()[..], b"keep-me");
}

#[test]
fn the_first_failure_of_a_delete_counts() {
    assert_eq!(DfsClient::delete_outcome::<u8>(vec![]), Ok(()));
    assert_eq!(DfsClient::delete_outcome::<u8>(vec![Ok(()), Ok(())]), Ok(()));
    assert_eq!(DfsClient::delete_outcome(vec![Ok(()), Err(7), Ok(()), Err(8)]), Err(7));
}

#[test]
fn objects_survive_failed_nodes() {
    for (count, tolerance) in [(3usize, 1u32), (4, 1), (5, 2), (6, 2)] {
        let (mut cluster, addrs) = start_nodes(count);
        let client = DfsClient::new(addrs);
        let meta = cluster.put(&client, b"still here").unwrap();
        for failed in 0..1u32 << count {
            for j in 0..count {
                cluster.down[j] = failed >> j & 1 == 1;
            }
            let got = cluster.get(&client, &meta.object_id);
            if failed.count_ones() <= tolerance {
                assert_eq!(&got.unwrap()[..], b"still here");
            } else if count == 3 {
                assert!(got.is_err());
            }
        }
    }
}

#[test]
fn client_error_texts() {
    let text = |e: ClientError| e.to_string();
    assert_eq!(text(ClientError::Transport("gone".to_string())), "transport: gone");
    assert_eq!(text(ClientError::Encoding("bad".to_string())), "encoding: bad");
    assert_eq!(text(ClientError::NotFound("x".to_string())), "object not found: x");
    assert_eq!(grpc_failure("refused"), "gRPC: refused");
    let refused = [
        (RpcError::InvalidArgument("why".to_string()), tonic::Status::invalid_argument("why")),
        (RpcError::NotFound("why".to_string()), tonic::Status::not_found("why")),
        (RpcError::Internal("why".to_string()), tonic::Status::internal("why")),
    ];
    for (e, status) in refused {
        assert_eq!(e.to_string(), status.to_string());
        assert_eq!(text(ClientError::Grpc(e)), format!("gRPC: {status}"));
    }
}

#[test]
fn multipart_transient() {
    let (mut cluster, addrs) = start_nodes(1);
    let client = DfsClient::new(addrs);

    let chunks = [b"abc", b"def", b"ghi"];
    let mut parts = Vec::new();
    for (i, chunk) in chunks.iter().enumerate() {
        let (part, requests) = client.put_part("mpu-1", (i as u32) + 1, *chunk);
        for req in requests {
            cluster.nodes[req.node].put_block(Some(req.shard), Some(req.meta)).unwrap();
        }
        parts.push(part);
    }
    let mut assembled = Vec::new();
    for p in &parts {
        let mut session = client.get_part(&p.part_object_id);
        loop {
            let reply = match session.request() {
                Some(req) => cluster.fetch(req.node, &req.block_id),
                None => break,
            };
            session.reply(reply);
        }
        assembled.extend_from_slice(&session.finish().unwrap());
    }
    assert_eq!(&assembled[..], b"abcdefghi");
    for p in &parts {
        for req in client.delete_part(&p.part_object_id) {
            cluster.nodes[req.node].delete_block(&req.block_id.to_string());
        }
    }
    assert_eq!(cluster.nodes[0].block_count(), 0);
}

#[test]
fn parts_are_full_replicas() {
    let (mut cluster, addrs) = start_nodes(3);
    let client = DfsClient::new(addrs);
    let (part, requests) = client.put_part("mpu-demo", 1, b"chunk");
    assert_eq!(part.part_object_id, "mpu-demo-part-00001");
    assert_eq!(part.checksum, *blake3::hash(b"chunk").as_bytes());
    assert_eq!(part.size, 5);
    assert_eq!(requests.len(), 3);
    for req in requests {
        assert_eq!(req.meta.block_id, "mpu-demo-part-00001-00-v1");
        cluster.nodes[req.node].put_block(Some(req.shard), Some(req.meta)).unwrap();
    }
    // The first node that responds gives the part.
    cluster.down[0] = true;
    cluster.down[1] = true;
    let mut session = client.get_part(&part.part_object_id);
    let mut asked = Vec::new();
    loop {
        let reply = match session.request() {
            Some(req) => {
                asked.push(req.node);
                cluster.fetch(req.node, &req.block_id)
            }
            None => break,
        };
        session.reply(reply);
    }
    assert_eq!(asked, vec![0, 1, 2]);
    assert_eq!(session.finish(), Ok(b"chunk".to_vec()));
}

#[test]
fn a_missing_part_is_not_found() {
    let client = DfsClient::new(vec!["a".to_string()]);
    let mut session = client.get_part("mpu-part-00007");
    assert!(session.request().is_some());
    session.reply(None);
    assert!(session.request().is_none());
    assert_eq!(session.finish(), Err(ClientError::NotFound("mpu-part-00007".to_string())));
}

#[test]
fn part_ids_are_padded() {
    let client = DfsClient::new(vec![]);
    for (n, want) in [
        (0, "u-part-00000"),
        (42, "u-part-00042"),
        (999, "u-part-00999"),
        (12345, "u-part-12345"),
        (u32::MAX, "u-part-4294967295"),
    ] {
        assert_eq!(client.put_part("u", n, b"").0.part_object_id, want);
    }
}

#[test]
fn shards_go_round_robin_and_fall_back() {
    let (mut cluster, addrs) = start_nodes(3);
    let client = DfsClient::new(addrs);
    cluster.down[1] = true;
    let mut session = client.put(b"fall back").unwrap();
    let mut tried = Vec::new();
    while let Some(req) = session.request() {
        tried.push((req.shard.index, req.node));
        let ok = !cluster.down[req.node];
        if ok {
            cluster.nodes[req.node].put_block(Some(req.shard), Some(req.meta)).unwrap();
        }
        session.reply(ok);
    }
    assert_eq!(tried, vec![(0, 0), (1, 1), (1, 2), (2, 2), (3, 0), (4, 1), (4, 2)]);
    let meta = session.finish().unwrap();
    assert_eq!(&cluster.get(&client, &meta.object_id).unwrap()[..], b"fall back");
}

#[test]
fn a_put_needs_one_more_than_k_shards() {
    let client = DfsClient::new(vec!["a".to_string(), "b".to_string()]);
    for acked in 0..=5usize {
        let mut session = client.put(b"quorum").unwrap();
        while let Some(req) = session.request() {
            session.reply((req.shard.index as usize) < acked);
        }
        let res = session.finish();
        if acked >= 4 {
            assert_eq!(res.unwrap().size, 6);
        } else {
            assert_eq!(
                res,
                Err(ClientError::Encoding(format!("put: only {acked}/5 shards written")))
            );
        }
    }
}

#[test]
fn a_get_survives_the_loss_of_two_shards() {
    let (mut cluster, addrs) = start_nodes(5);
    let client = DfsClient::new(addrs);
    let payload = b"two nodes may be lost";
    let meta = cluster.put(&client, payload).unwrap();
    for a in 0..5usize {
        for b in a + 1..5 {
            cluster.down = vec![false; 5];
            cluster.down[a] = true;
            cluster.down[b] = true;
            assert_eq!(&cluster.get(&client, &meta.object_id).unwrap()[..], payload);
        }
    }
    cluster.down = vec![true, true, true, false, false];
    assert_eq!(
        cluster.get(&client, &meta.object_id),
        Err(ClientError::NotFound("insufficient shards for get: got 2, need 3".to_string()))
    );
}

#[test]
fn a_get_stops_when_it_has_enough() {
    let (mut cluster, addrs) = start_nodes(5);
    let client = DfsClient::new(addrs);
    let meta = cluster.put(&client, b"enough").unwrap();
    let mut session = client.get(&meta.object_id);
    let mut asked = Vec::new();
    while let Some(req) = session.request() {
        asked.push((req.node, req.block_id.to_string()));
        let shard = cluster.fetch(req.node, &req.block_id);
        session.reply(shard);
    }
    let id = &meta.object_id;
    assert_eq!(
        asked,
        vec![(0, format!("{id}-00-v1")), (1, format!("{id}-01-v1")), (2, format!("{id}-02-v1"))]
    );
}

#[test]
fn broken_shards_are_not_decoded() {
    let client = DfsClient::new(vec!["a".to_string()]);
    let mut session = client.get("obj");
    while session.request().is_some() {
        let len = if session.shard == 0 { 2 } else { 3 };
        session.reply(Some(ProtoShard { index: 0, data: vec![1; len] }));
    }
    assert_eq!(
        session.finish(),
        Err(ClientError::NotFound(
            "decoding failed: At least one of the provided shards is not of the correct size"
                .to_string()
        ))
    );
}

#[test]
fn large_objects_are_refused() {
    let client = DfsClient::new(vec!["a".to_string()]);
    let too_large = vec![1u8; 20 * 1024 * 1024 + 1];
    assert_eq!(
        client.put(&too_large).map(|_| ()),
        Err(ClientError::Encoding("object too large for single put (>20MB)".to_string()))
    );
    assert!(client.put(&too_large[1..]).is_ok());
}

#[test]
fn an_impossible_code_is_refused() {
    let client =
        DfsClient::with_config(vec!["a".to_string()], ErasureConfig { k: 200, m: 100 });
    assert_eq!(
        client.put(b"x").map(|_| ()),
        Err(ClientError::Encoding(
            "encoding failed: The number of provided shards is greater than the one in codec"
                .to_string()
        ))
    );
}

#[test]
fn the_configured_code_is_used() {
    let (mut cluster, addrs) = start_nodes(2);
    let client = DfsClient::with_config(addrs, ErasureConfig { k: 1, m: 3 });
    assert_eq!(client.addr(1), "127.0.0.1:19602");
    let meta = cluster.put(&client, b"copies").unwrap();
    assert_eq!(cluster.nodes[0].block_count(), 2);
    assert_eq!(cluster.nodes[1].block_count(), 2);
    // Each of the 4 shards is deleted at each of the 2 nodes.
    let requests: Vec<(usize, String)> = client
        .delete(&meta.object_id)
        .into_iter()
        .map(|req| (req.node, req.block_id.to_string()))
        .collect();
    assert_eq!(requests.len(), 8);
    for i in 0..4u8 {
        for j in 0..2usize {
            assert_eq!(
                requests[2 * i as usize + j],
                (j, BlockId::new(&meta.object_id, i, 1).to_string())
            );
        }
    }
    cluster.down[0] = true;
    assert_eq!(&cluster.get(&client, &meta.object_id).unwrap()[..], b"copies");
}

#[test]
fn gossip_detects_failure_and_data_survives() {
    let config = ErasureConfig { k: 2, m: 1 };
    let payload = b"the quick brown fox jumps over the lazy dog";
    let ids: Vec<u128> = (0..3).map(|_| uuid::Uuid::new_v4().as_u128()).collect();
    let mut swimmer = Swimmer::new(ids[0], ids.clone(), None);
    let (mut cluster, _) = start_nodes(3);

    let shards = erasure::encode(payload, &config).unwrap();
    let object_id = hex::encode(blake3::hash(payload).as_bytes());
    for (i, shard) in shards.iter().enumerate() {
        let meta = BlockMeta::new(&object_id, i as u8, 1, &shard.data);
        let shard = ProtoShard::from(shard.clone());
        cluster.nodes[i].put_block(Some(shard), Some(ProtoBlockMeta::from(meta))).unwrap();
    }

    // Kill node 3, and detect the death.
    cluster.down[2] = true;
    swimmer.membership.health.insert(ids[2], NodeHealth::Dead(1));
    let new_ring = swimmer.membership.rebalance_dead_nodes(&[ids[2]]).unwrap();
    assert_eq!(new_ring.version, 2);
    assert_eq!(new_ring.nodes, vec![ids[0], ids[1]]);

    // Reconstruct from surviving nodes (k=2 from nodes 1+2).
    let fetch = |i: usize| {
        let id = BlockId::new(&object_id, i as u8, 1);
        cluster.fetch(i, &id).map(Shard::from)
    };
    let set: Vec<Option<Shard>> = vec![fetch(0), fetch(1), fetch(2)];
    assert_eq!(set[2], None);
    let decoded = erasure::decode(set, &config).unwrap();
    assert_eq!(&decoded[..], &payload[..]);
}
