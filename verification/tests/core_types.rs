//! Types, blocks and errors.

use std::collections::HashSet;

use dfs::block::{BlockId, BlockMeta, Shard};
use dfs::error::CoreError;
use dfs::types::{ErasureConfig, Ring, StorageClass};

#[test]
fn erasure_config_default() {
    let c = ErasureConfig::default();
    assert_eq!(c.k, 3);
    assert_eq!(c.m, 2);
    assert_eq!(c.total_shards(), 5);
    assert_eq!(c.min_read(), 3);
    assert_eq!(c.max_faults(), 2);
    assert!(c.has_redundancy());
}

#[test]
fn erasure_config_no_redundancy() {
    let c = ErasureConfig::new(1, 0).unwrap();
    assert_eq!(c.total_shards(), 1);
    assert_eq!(c.min_read(), 1);
    assert_eq!(c.max_faults(), 0);
    assert!(!c.has_redundancy());
}

#[test]
fn erasure_config_invalid_k_zero() {
    assert!(ErasureConfig::new(0, 2).is_err());
}

#[test]
fn erasure_config_too_large() {
    assert!(ErasureConfig::new(200, 100).is_err());
}

#[test]
fn erasure_config_limits() {
    assert_eq!(ErasureConfig::new(0, 2), Err("k must be at least 1"));
    assert_eq!(ErasureConfig::new(255, 1), Err("k + m must not exceed 255"));
    assert_eq!(ErasureConfig::new(254, 1), Ok(ErasureConfig { k: 254, m: 1 }));
}

#[test]
fn ring_new_and_versioning() {
    let nodes = vec![
        uuid::Uuid::new_v4().as_u128(),
        uuid::Uuid::new_v4().as_u128(),
        uuid::Uuid::new_v4().as_u128(),
    ];
    let ring = Ring::new(nodes.clone());
    assert_eq!(ring.len(), 3);
    assert!(!ring.is_empty());
    assert_eq!(ring.version, 1);

    let ring2 = ring.with_nodes(nodes.clone());
    assert_eq!(ring2.version, 2);
    assert_eq!(ring2.nodes, nodes);
}

#[test]
fn storage_class_new() {
    let sc = StorageClass::new(3, 2);
    assert_eq!(sc.ec.k, 3);
    assert_eq!(sc.ec.m, 2);
}

#[test]
fn block_id_format() {
    let id = BlockId::new("obj-42", 0, 1);
    assert_eq!(id.to_string(), "obj-42-00-v1");

    let id = BlockId::new("long-id", 15, 999);
    assert_eq!(id.to_string(), "long-id-15-v999");
}

#[test]
fn block_id_examples() {
    assert_eq!(BlockId::new("b3aead2514a1ad00", 0, 1).as_str(), "b3aead2514a1ad00-00-v1");
    assert_eq!(BlockId::new("b3aead2514a1ad00", 3, 2).as_str(), "b3aead2514a1ad00-03-v2");
    assert_eq!(BlockId::new("o", 200, u64::MAX).as_str(), "o-200-v18446744073709551615");
    let id = BlockId::new("o", 1, 1);
    let text: &str = id.as_ref();
    assert_eq!(text, "o-01-v1");
}

#[test]
fn block_id_eq_and_hash() {
    let a = BlockId::new("obj", 0, 1);
    let b = BlockId::new("obj", 0, 1);
    assert_eq!(a, b);

    let mut set = HashSet::new();
    set.insert(a.clone());
    assert!(set.contains(&b));
}

#[test]
fn block_ids_of_different_origin_differ() {
    // The parts run together in the text, and still tell the origin.
    let a = BlockId::new("obj-01-v1", 2, 3);
    let b = BlockId::new("obj", 1, 1);
    let c = BlockId::new("obj-01", 1, 12);
    assert_ne!(a, b);
    assert_ne!(a, c);
    assert_ne!(b, c);
}

#[test]
fn block_meta_verify() {
    let data = b"hello shard";
    let meta = BlockMeta::new("test-obj", 3, 5, data);
    assert!(meta.verify(data));
    assert!(!meta.verify(b"corrupted"));
}

#[test]
fn block_meta_fields() {
    let meta = BlockMeta::new("my-obj", 2, 7, b"hello shard");
    assert_eq!(meta.object_id, "my-obj");
    assert_eq!(meta.shard_index, 2);
    assert_eq!(meta.ring_version, 7);
    assert_eq!(meta.size, 11);
    assert_eq!(meta.checksum, *blake3::hash(b"hello shard").as_bytes());
}

#[test]
fn shard_equality() {
    let a = Shard { index: 0, data: vec![1, 2, 3] };
    let b = Shard { index: 0, data: vec![1, 2, 3] };
    let c = Shard { index: 1, data: vec![1, 2, 3] };
    assert_eq!(a, b);
    assert_ne!(a, c);
}

#[test]
fn display_formats() {
    let s = CoreError::InvalidErasureConfig { k: 1, m: 2 }.to_string();
    assert!(s.contains("k=1"));
    assert!(s.contains("m=2"));

    let s = CoreError::InsufficientShards { have: 2, need: 3 }.to_string();
    assert!(s.contains("have 2"));
    assert!(s.contains("need 3"));

    let s = CoreError::ChecksumMismatch { expected: [0xAA; 32], actual: [0xBB; 32] }.to_string();
    assert!(s.contains("checksum mismatch"));
}

#[test]
fn error_messages() {
    assert_eq!(
        CoreError::InvalidErasureConfig { k: 1, m: 20 }.to_string(),
        "invalid erasure coding config: k=1, m=20"
    );
    assert_eq!(CoreError::Encoding("e".to_string()).to_string(), "encoding failed: e");
    assert_eq!(CoreError::Decoding("d".to_string()).to_string(), "decoding failed: d");
    assert_eq!(
        CoreError::ChecksumMismatch { expected: [0xAA; 32], actual: [0x0B; 32] }.to_string(),
        format!("checksum mismatch: expected {}, got {}", "aa".repeat(32), "0b".repeat(32))
    );
    assert_eq!(CoreError::StorageIo("x".to_string()).to_string(), "storage I/O error: x");
    assert_eq!(CoreError::Serialization("x".to_string()).to_string(), "serialization error: x");
    assert_eq!(CoreError::NoNodesLeft.to_string(), "ring has no nodes left");
    assert_eq!(
        CoreError::InsufficientNodes { needed: 5, available: 3 }.to_string(),
        "need 5 nodes but only 3 available"
    );
}

#[test]
fn error_is_std_error() {
    // The message of an error serves as a standard error.
    fn _takes_error(_: &dyn std::error::Error) {}
    let e: Box<dyn std::error::Error> = String::from(CoreError::NoNodesLeft).into();
    _takes_error(e.as_ref());
    assert_eq!(e.to_string(), CoreError::NoNodesLeft.to_string());
}

#[test]
fn partial_eq_works() {
    assert_eq!(CoreError::NoNodesLeft, CoreError::NoNodesLeft);
    assert_ne!(
        CoreError::InsufficientShards { have: 2, need: 3 },
        CoreError::InsufficientShards { have: 3, need: 3 },
    );
}
