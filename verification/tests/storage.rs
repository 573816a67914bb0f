//! The storage engine, with a map in place of the disk.

use std::collections::BTreeMap;

use dfs::block::{BlockId, BlockMeta};
use dfs::storage::{cleanup_stale_tmp, FileOp, FsStorage, StorageError};

type Disk = BTreeMap<String, Vec<u8>>;

fn carry_out(disk: &mut Disk, ops: Vec<FileOp>) {
    for op in ops {
        match op {
            FileOp::Write { path, bytes } => {
                disk.insert(path, bytes);
            }
            FileOp::Rename { from, to } => {
                let bytes = disk.remove(&from).unwrap();
                disk.insert(to, bytes);
            }
            FileOp::Remove { path } => {
                disk.remove(&path);
            }
        }
    }
}

/// The names of the files in the blocks directory.
fn names(storage: &FsStorage, disk: &Disk) -> Vec<String> {
    let prefix = format!("{}/", storage.blocks_dir());
    disk.keys().filter_map(|path| path.strip_prefix(&prefix)).map(str::to_string).collect()
}

#[test]
fn layout_of_the_data_directory() {
    let s = FsStorage::new("/tmp/node1".to_string());
    assert_eq!(s.node_id_file, "/tmp/node1/node.id");
    assert_eq!(s.blocks_dir(), "/tmp/node1/blocks");
    let id = BlockId::new("obj", 3, 2);
    assert_eq!(s.blob_path(&id), "/tmp/node1/blocks/obj-03-v2.blob");
    assert_eq!(s.meta_path(&id), "/tmp/node1/blocks/obj-03-v2.meta");
}

#[test]
fn paths_join_as_the_standard_library_joins_them() {
    for dir in ["data", "data/", "/", ""] {
        let s = FsStorage::new(dir.to_string());
        let blocks = std::path::Path::new(dir).join("blocks");
        assert_eq!(s.blocks_dir(), blocks.to_str().unwrap());
        for id in ["plain", "/absolute", "../up"] {
            let want = blocks.join(format!("{id}.blob"));
            assert_eq!(s.blob_path(&BlockId(id.to_string())), want.to_str().unwrap());
        }
    }
}

#[test]
fn write_then_read_block_roundtrip() {
    let s = FsStorage::new("d".to_string());
    let (node, record) = FsStorage::read_or_create_node_id(None).unwrap();
    assert_ne!(node, 0);
    assert_eq!(uuid::Uuid::from_u128(node).get_version_num(), 4);
    assert!(record.is_some());

    let mut disk = Disk::new();
    let data = b"hello-from-storage-test";
    let meta = BlockMeta::new("obj-1", 2, 7, data);
    carry_out(&mut disk, s.write_block(&meta, b"encoded meta", data));
    assert_eq!(disk[&s.meta_path(&meta.block_id)], b"encoded meta".to_vec());

    let stored = disk[&s.blob_path(&meta.block_id)].clone();
    let (shard, loaded) = FsStorage::read_block(meta.clone(), stored).unwrap();
    assert_eq!(&shard.data[..], data);
    assert_eq!(loaded.checksum, meta.checksum);
    assert_eq!(loaded.shard_index, 2);
    assert_eq!(shard.index, 2);
}

#[test]
fn checksum_mismatch_detected() {
    let meta = BlockMeta::new("corrupt-me", 0, 1, b"original");
    // Tampered data (simulating bit-rot).
    let err = FsStorage::read_block(meta.clone(), b"tampered!".to_vec()).unwrap_err();
    assert!(matches!(err, StorageError::ChecksumMismatch(_)));
    assert_eq!(err, StorageError::ChecksumMismatch(meta.block_id));
    assert_eq!(err.to_string(), "checksum mismatch for block corrupt-me-00-v1");
}

#[test]
fn delete_then_read_returns_not_found() {
    let s = FsStorage::new("d".to_string());
    let mut disk = Disk::new();
    let meta = BlockMeta::new("del-me", 0, 1, b"tmp");
    carry_out(&mut disk, s.write_block(&meta, b"m", b"tmp"));
    carry_out(&mut disk, s.delete_block(&meta.block_id));
    assert!(!disk.contains_key(&s.blob_path(&meta.block_id)));
    assert!(!disk.contains_key(&s.meta_path(&meta.block_id)));
}

#[test]
fn list_blocks_after_writing() {
    let s = FsStorage::new("d".to_string());
    let mut disk = Disk::new();
    for i in 0..5u8 {
        let meta = BlockMeta::new(&format!("obj-{i}"), i, 1, b"x");
        carry_out(&mut disk, s.write_block(&meta, b"m", b"x"));
    }
    let files = names(&s, &disk);
    assert_eq!(files.len(), 10);
    let ids = FsStorage::list_blocks(&files);
    assert_eq!(ids.len(), 5);
    assert_eq!(FsStorage::block_count(&files), 5);
    assert_eq!(ids[3], BlockId::new("obj-3", 3, 1));
}

#[test]
fn only_metadata_files_are_listed() {
    let files: Vec<String> =
        ["a.meta", "b.blob", "c.meta.tmp", ".meta", "meta", "d.meta.meta", "\u{e9}.meta"]
            .iter()
            .map(|s| s.to_string())
            .collect();
    let ids: Vec<String> = FsStorage::list_blocks(&files).into_iter().map(|id| id.0).collect();
    assert_eq!(ids, vec!["a", "", "d.meta", "\u{e9}"]);
}

#[test]
fn node_id_persists_across_restarts() {
    let (id1, record) = FsStorage::read_or_create_node_id(None).unwrap();
    let file = record.unwrap().into_bytes();
    let (id2, again) = FsStorage::read_or_create_node_id(Some(file)).unwrap();
    assert_eq!(id1, id2);
    assert_eq!(again, None);
}

#[test]
fn node_id_file_formats() {
    let id = 0xa1a2a3a4_b1b2_c1c2_d1d2_d3d4d5d6d7d8u128;
    assert_eq!(FsStorage::node_id_record(id), "a1a2a3a4-b1b2-c1c2-d1d2-d3d4d5d6d7d8");
    let padded = "\u{2003} \tA1A2A3A4-B1B2-C1C2-D1D2-D3D4D5D6D7D8\r\n\u{a0}";
    assert_eq!(FsStorage::parse_node_id(padded.as_bytes().to_vec()), Ok(id));
    let simple = b"a1a2a3a4b1b2c1c2d1d2d3d4d5d6d7d8".to_vec();
    assert_eq!(FsStorage::parse_node_id(simple), Ok(id));
}

#[test]
fn a_corrupt_node_id_file_is_an_error() {
    for bytes in [&b"not a uuid"[..], &b""[..], &[0xff, 0xfe][..]] {
        assert_eq!(FsStorage::parse_node_id(bytes.to_vec()), Err(StorageError::CorruptNodeId));
        assert_eq!(
            FsStorage::read_or_create_node_id(Some(bytes.to_vec())),
            Err(StorageError::CorruptNodeId)
        );
    }
}

#[test]
fn white_space_is_trimmed_as_the_standard_library_trims_it() {
    let id = "00000000-0000-0000-0000-000000000007";
    for u in 0..0x3100u32 {
        if let Some(c) = char::from_u32(u) {
            let parsed = FsStorage::parse_node_id(format!("{c}{id}{c}").into_bytes());
            if c.is_whitespace() {
                assert_eq!(parsed, Ok(7));
            }
        }
    }
}

#[test]
fn cleanup_stale_tmp_files() {
    let files: Vec<String> = vec!["stale.blob.tmp".to_string(), "kept.blob".to_string()];
    let removed = cleanup_stale_tmp(&files);
    assert_eq!(removed.len(), 1);
    assert_eq!(removed, vec!["stale.blob.tmp"]);
}

#[test]
fn atomic_write_no_partial_state() {
    let s = FsStorage::new("d".to_string());
    let mut disk = Disk::new();
    let meta = BlockMeta::new("atomic", 0, 1, b"ok");
    carry_out(&mut disk, s.write_block(&meta, b"m", b"ok"));

    // No temporary file is left: the renames were successful.
    assert!(disk.keys().all(|path| !path.ends_with(".tmp")));

    // Both final files exist.
    assert!(disk.contains_key(&s.blob_path(&meta.block_id)));
    assert!(disk.contains_key(&s.meta_path(&meta.block_id)));
}

#[test]
fn the_steps_of_a_write() {
    let s = FsStorage::new("d".to_string());
    let meta = BlockMeta::new("a", 0, 1, b"data");
    let ops = s.write_block(&meta, b"m", b"data");
    let blob = "d/blocks/a-00-v1.blob".to_string();
    let blob_tmp = "d/blocks/a-00-v1.blob.tmp".to_string();
    let meta_file = "d/blocks/a-00-v1.meta".to_string();
    let meta_tmp = "d/blocks/a-00-v1.meta.tmp".to_string();
    assert_eq!(
        ops,
        vec![
            FileOp::Write { path: blob_tmp.clone(), bytes: b"data".to_vec() },
            FileOp::Rename { from: blob_tmp.clone(), to: blob },
            FileOp::Write { path: meta_tmp.clone(), bytes: b"m".to_vec() },
            FileOp::Rename { from: meta_tmp.clone(), to: meta_file },
        ]
    );
    let leftovers: Vec<&String> = ops.iter().map(|op| op.leftover()).collect();
    assert_eq!(leftovers, vec![&blob_tmp, &blob_tmp, &meta_tmp, &meta_tmp]);
}

#[test]
fn an_interrupted_write_keeps_the_old_block() {
    let s = FsStorage::new("d".to_string());
    let old = BlockMeta::new("o", 0, 1, b"old");
    let mut before = Disk::new();
    carry_out(&mut before, s.write_block(&old, b"old meta", b"old"));
    let blob = s.blob_path(&old.block_id);
    let meta = s.meta_path(&old.block_id);
    for cut in 0..=4usize {
        let mut disk = before.clone();
        let mut ops = s.write_block(&old, b"new meta", b"new");
        ops.truncate(cut);
        carry_out(&mut disk, ops);
        assert_eq!(disk[&blob], if cut < 2 { b"old".to_vec() } else { b"new".to_vec() });
        assert_eq!(disk[&meta], if cut < 4 { b"old meta".to_vec() } else { b"new meta".to_vec() });
        let stale = cleanup_stale_tmp(&names(&s, &disk));
        assert_eq!(stale.len(), cut % 2);
        assert_eq!(FsStorage::list_blocks(&names(&s, &disk)).len(), 1);
    }
}

#[test]
fn a_failed_step_leaves_no_trace() {
    let s = FsStorage::new("d".to_string());
    let old = BlockMeta::new("o", 0, 1, b"old");
    let mut before = Disk::new();
    carry_out(&mut before, s.write_block(&old, b"old meta", b"old"));
    for failing in 0..2usize {
        let mut disk = before.clone();
        let mut ops = s.write_block(&old, b"new meta", b"new");
        let leftover = ops[failing].leftover().clone();
        ops.truncate(failing);
        carry_out(&mut disk, ops);
        if failing == 0 {
            disk.insert(leftover.clone(), b"ne".to_vec());
        }
        disk.remove(&leftover);
        assert_eq!(disk, before);
    }
}

#[test]
fn error_texts() {
    let id = BlockId("b".to_string());
    assert_eq!(StorageError::NotFound(id).to_string(), "block not found: b");
    assert_eq!(StorageError::Io("gone".to_string()).to_string(), "io error: gone");
    assert_eq!(
        StorageError::Serialization("bad".to_string()).to_string(),
        "serialization error: bad"
    );
    assert_eq!(StorageError::CorruptNodeId.to_string(), "node id file corrupted");
}
