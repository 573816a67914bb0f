//! The wire protocol.

use dfs::block::{BlockId, BlockMeta, Shard};
use dfs::types::Ring;
use dfs::wire::{frame, frame_len, frame_payload, kind_byte, Message, WireError, MAX_FRAME};

/// A put message, as its encoding has it: variant, shard, metadata.
type Encoded = (u32, (u8, Vec<u8>), (String, String, u8, u64, [u8; 32], u64));

fn encoded(shard: &Shard, meta: &BlockMeta) -> Encoded {
    (
        0,
        (shard.index, shard.data.clone()),
        (
            meta.block_id.to_string(),
            meta.object_id.clone(),
            meta.shard_index,
            meta.ring_version,
            meta.checksum,
            meta.size,
        ),
    )
}

#[test]
fn frame_roundtrip() {
    let shard = Shard { index: 2, data: b"test data".to_vec() };
    let meta = BlockMeta::new("obj", 2, 3, b"test data");
    let plain = encoded(&shard, &meta);
    let payload = bincode::serialize(&plain).unwrap();
    let msg = Message::PutBlock { shard, meta };
    let f = frame(&msg, &payload);
    // parse the frame
    let len = u32::from_be_bytes(f.0[..4].try_into().unwrap()) as usize;
    assert_eq!(len, f.0.len() - 4);
    assert_eq!(frame_len(f.0[..4].try_into().unwrap()), Ok(len));
    assert_eq!(f.0[4], kind_byte(&msg));
    assert_eq!(frame_payload(&f.0[4..]), &f.0[5..]);
    let decoded: Encoded = bincode::deserialize(&f.0[5..]).unwrap();
    assert_eq!(plain, decoded);
}

#[test]
fn empty_put_block() {
    let shard = Shard { index: 0, data: vec![0u8; 0] };
    let meta = BlockMeta::new("empty", 0, 1, b"");
    let payload = bincode::serialize(&encoded(&shard, &meta)).unwrap();
    let msg = Message::PutBlock { shard, meta };
    let f = frame(&msg, &payload);
    assert!(f.0.len() > 5);
}

#[test]
fn bytes_of_a_frame() {
    let f = frame(&Message::Ping, &[7, 8, 9]);
    assert_eq!(f.0, vec![0, 0, 0, 4, 0x20, 7, 8, 9]);
    let f = frame(&Message::Ack, &[0; 0x10203]);
    assert_eq!(f.0[..5], [0, 1, 2, 4, 0x81]);
}

#[test]
fn kind_bytes() {
    let id = BlockId("b".to_string());
    let shard = Shard { index: 0, data: vec![] };
    let meta = BlockMeta::new("o", 0, 1, b"");
    let ring = Ring { nodes: vec![], version: 1 };
    let text = "t".to_string();
    let all = vec![
        (Message::PutBlock { shard: shard.clone(), meta: meta.clone() }, 0x01),
        (Message::GetBlock { block_id: id.clone() }, 0x02),
        (Message::DelBlock { block_id: id.clone() }, 0x03),
        (Message::ListBlocks, 0x04),
        (Message::BlockCount, 0x05),
        (Message::StatBlock { block_id: id.clone() }, 0x06),
        (Message::Join { node_id: 1, listen_addr: text.clone() }, 0x10),
        (Message::JoinAck { ring }, 0x11),
        (Message::Gossip(text.clone()), 0x12),
        (Message::Ping, 0x20),
        (Message::Pong, 0x21),
        (Message::Ack, 0x81),
        (Message::Error(text), 0x82),
        (Message::BlockList(vec![id]), 0x83),
        (Message::BlockCountIs(3), 0x84),
        (Message::BlockData { shard, meta: meta.clone() }, 0x85),
        (Message::BlockMeta(meta), 0x86),
    ];
    for (msg, kind) in &all {
        assert_eq!(kind_byte(msg), *kind);
    }
}

#[test]
fn headers_that_are_refused() {
    assert_eq!(frame_len(&[0, 0, 0, 0]), Err(WireError::Incomplete { expected: 0, got: 0 }));
    let max = (MAX_FRAME as u32).to_be_bytes();
    assert_eq!(frame_len(&max), Ok(512 * 1024 * 1024));
    let over = (MAX_FRAME as u32 + 1).to_be_bytes();
    assert_eq!(
        frame_len(&over),
        Err(WireError::Incomplete { expected: 536_870_913, got: 0 })
    );
}

#[test]
fn error_texts_of_the_wire() {
    assert_eq!(WireError::Io("eof".to_string()).to_string(), "io error: eof");
    assert_eq!(WireError::Bincode("bad".to_string()).to_string(), "bincode error: bad");
    assert_eq!(
        WireError::Incomplete { expected: 10, got: 0 }.to_string(),
        "incomplete frame: expected 10 bytes, got 0"
    );
    assert_eq!(WireError::UnknownKind(10).to_string(), "unknown kind byte: 0x0a");
    assert_eq!(WireError::UnknownKind(0xfe).to_string(), format!("unknown kind byte: {:#04x}", 0xfe));
}
