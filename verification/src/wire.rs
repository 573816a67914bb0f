//! Wire protocol for inter-node communication.
//!
//! All messages are length-prefixed frames over a raw stream.
//! Format (big-endian):
//!
//! ```text
//! +---------+----------+-----------+
//! | len:u32 | kind:u8  | payload   |
//! | (BE)    |          |           |
//! +---------+----------+-----------+
//! ```
//!
//! Messages up to 2^32-1 bytes are supported (4 GiB frame limit: enough
//! for a few MB shard at a time; larger payloads would need streaming).
//! The payload is the encoded message, and the caller's to encode.
//!
//! The `kind` byte uniquely identifies the request/response type, which makes a
//! hexdump legible.

use vstd::prelude::*;
use vstd::slice::slice_subrange;
use vstd::string::*;

use crate::block::{BlockId, BlockMeta, Shard};
use crate::hash;
use crate::hash::hex_encode;
use crate::text;
use crate::text::{from_be_bytes4, push_decimal, to_be_bytes};
use crate::types::{NodeId, Ring};

verus! {

/// Every message sent between nodes or between client and node.
#[derive(Debug, Clone, PartialEq, Eq)]
pub enum Message {
    /// Store a shard with its metadata. Answered by [`Message::Ack`] or
    /// [`Message::Error`].
    PutBlock { shard: Shard, meta: BlockMeta },
    /// Request a shard by ID. Answered by [`Message::BlockData`].
    GetBlock { block_id: BlockId },
    /// Delete a block. Answered by [`Message::Ack`].
    DelBlock { block_id: BlockId },
    /// List all block IDs on this node.
    ListBlocks,
    /// Request block count only (lightweight).
    BlockCount,
    /// Request block metadata only (no data transfer).
    StatBlock { block_id: BlockId },
    /// Join the cluster. The source node tells the target its own id
    /// and asks for the current ring.
    Join { node_id: NodeId, listen_addr: String },
    /// Response to [`Message::Join`]: the current ring.
    JoinAck { ring: Ring },
    /// Gossip message for SWIM membership.
    Gossip(String),
    /// Ping for liveness check.
    Ping,
    /// Response to [`Message::Ping`].
    Pong,
    /// The request succeeded.
    Ack,
    /// The request failed.
    Error(String),
    /// Response to [`Message::ListBlocks`].
    BlockList(Vec<BlockId>),
    /// Response to [`Message::BlockCount`].
    BlockCountIs(u64),
    /// Response to [`Message::GetBlock`].
    BlockData { shard: Shard, meta: BlockMeta },
    /// Response to [`Message::StatBlock`].
    BlockMeta(BlockMeta),
}

/// Kind byte of [`Message::PutBlock`].
pub const KIND_PUT_BLOCK: u8 = 0x01;

/// Kind byte of [`Message::GetBlock`].
pub const KIND_GET_BLOCK: u8 = 0x02;

/// Kind byte of [`Message::DelBlock`].
pub const KIND_DEL_BLOCK: u8 = 0x03;

/// Kind byte of [`Message::ListBlocks`].
pub const KIND_LIST_BLOCKS: u8 = 0x04;

/// Kind byte of [`Message::BlockCount`].
pub const KIND_BLOCK_COUNT: u8 = 0x05;

/// Kind byte of [`Message::StatBlock`].
pub const KIND_STAT_BLOCK: u8 = 0x06;

/// Kind byte of [`Message::Join`].
pub const KIND_JOIN: u8 = 0x10;

/// Kind byte of [`Message::JoinAck`].
pub const KIND_JOIN_ACK: u8 = 0x11;

/// Kind byte of [`Message::Gossip`].
pub const KIND_GOSSIP: u8 = 0x12;

/// Kind byte of [`Message::Ping`].
pub const KIND_PING: u8 = 0x20;

/// Kind byte of [`Message::Pong`].
pub const KIND_PONG: u8 = 0x21;

/// Kind byte of [`Message::Ack`].
pub const KIND_RESP_OK: u8 = 0x81;

/// Kind byte of [`Message::Error`].
pub const KIND_RESP_ERR: u8 = 0x82;

/// Kind byte of [`Message::BlockList`].
pub const KIND_RESP_BLOCK_LIST: u8 = 0x83;

/// Kind byte of [`Message::BlockCountIs`].
pub const KIND_RESP_BLOCK_COUNT: u8 = 0x84;

/// Kind byte of [`Message::BlockData`].
pub const KIND_RESP_BLOCK_DATA: u8 = 0x85;

/// Kind byte of [`Message::BlockMeta`].
pub const KIND_RESP_BLOCK_META: u8 = 0x86;

/// The byte that stands for the type of a message.
pub open spec fn kind_of(msg: Message) -> u8 {
    match msg {
        Message::PutBlock { .. } => KIND_PUT_BLOCK,
        Message::GetBlock { .. } => KIND_GET_BLOCK,
        Message::DelBlock { .. } => KIND_DEL_BLOCK,
        Message::ListBlocks => KIND_LIST_BLOCKS,
        Message::BlockCount => KIND_BLOCK_COUNT,
        Message::StatBlock { .. } => KIND_STAT_BLOCK,
        Message::Join { .. } => KIND_JOIN,
        Message::JoinAck { .. } => KIND_JOIN_ACK,
        Message::Gossip(_) => KIND_GOSSIP,
        Message::Ping => KIND_PING,
        Message::Pong => KIND_PONG,
        Message::Ack => KIND_RESP_OK,
        Message::Error(_) => KIND_RESP_ERR,
        Message::BlockList(_) => KIND_RESP_BLOCK_LIST,
        Message::BlockCountIs(_) => KIND_RESP_BLOCK_COUNT,
        Message::BlockData { .. } => KIND_RESP_BLOCK_DATA,
        Message::BlockMeta(_) => KIND_RESP_BLOCK_META,
    }
}

/// The byte that stands for the type of a message.
pub fn kind_byte(msg: &Message) -> (res: u8)
    ensures
        res == kind_of(*msg),
{
    match msg {
        Message::PutBlock { .. } => KIND_PUT_BLOCK,
        Message::GetBlock { .. } => KIND_GET_BLOCK,
        Message::DelBlock { .. } => KIND_DEL_BLOCK,
        Message::ListBlocks => KIND_LIST_BLOCKS,
        Message::BlockCount => KIND_BLOCK_COUNT,
        Message::StatBlock { .. } => KIND_STAT_BLOCK,
        Message::Join { .. } => KIND_JOIN,
        Message::JoinAck { .. } => KIND_JOIN_ACK,
        Message::Gossip(_) => KIND_GOSSIP,
        Message::Ping => KIND_PING,
        Message::Pong => KIND_PONG,
        Message::Ack => KIND_RESP_OK,
        Message::Error(_) => KIND_RESP_ERR,
        Message::BlockList(_) => KIND_RESP_BLOCK_LIST,
        Message::BlockCountIs(_) => KIND_RESP_BLOCK_COUNT,
        Message::BlockData { .. } => KIND_RESP_BLOCK_DATA,
        Message::BlockMeta(_) => KIND_RESP_BLOCK_META,
    }
}

/// A framed message ready to be written to a stream.
#[derive(Debug)]
pub struct Frame(pub Vec<u8>);

/// Errors during framing or transmission.
#[derive(Debug, PartialEq, Eq)]
pub enum WireError {
    /// I/O error from the stream.
    Io(String),
    /// The payload could not be encoded or decoded.
    Bincode(String),
    /// The frame is not all there, or is not one that is accepted.
    Incomplete { expected: usize, got: usize },
    /// No message has this kind byte.
    UnknownKind(u8),
}

impl WireError {
    /// The message that describes the error.
    pub open spec fn text(self) -> Seq<char> {
        match self {
            WireError::Io(msg) => "io error: "@ + msg@,
            WireError::Bincode(msg) => "bincode error: "@ + msg@,
            WireError::Incomplete { expected, got } => "incomplete frame: expected "@ + text::decimal(
                expected as nat,
            ) + " bytes, got "@ + text::decimal(got as nat),
            WireError::UnknownKind(kind) => "unknown kind byte: 0x"@ + hash::hex_text(seq![kind]),
        }
    }

    /// The error as a human-readable message.
    pub fn to_string(&self) -> (res: String)
        ensures
            res@ == self.text(),
    {
        let mut out = String::new();
        match self {
            WireError::Io(msg) => {
                out.append("io error: ");
                out.append(msg.as_str());
            },
            WireError::Bincode(msg) => {
                out.append("bincode error: ");
                out.append(msg.as_str());
            },
            WireError::Incomplete { expected, got } => {
                out.append("incomplete frame: expected ");
                push_decimal(&mut out, *expected as u64);
                out.append(" bytes, got ");
                push_decimal(&mut out, *got as u64);
            },
            WireError::UnknownKind(kind) => {
                out.append("unknown kind byte: 0x");
                let mut one: Vec<u8> = Vec::new();
                one.push(*kind);
                assert(one@ =~= seq![*kind]);
                out.append(hex_encode(one.as_slice()).as_str());
            },
        }
        assert(out@ =~= self.text());
        out
    }
}

/// The bytes of a frame: the number of bytes that follow, in four bytes, then
/// the kind byte and the payload.
pub open spec fn frame_bytes(kind: u8, payload: Seq<u8>) -> Seq<u8> {
    text::be_bytes(1 + payload.len(), 4) + seq![kind] + payload
}

/// Create a length-prefixed frame from a [`Message`] and its encoding.
pub fn frame(msg: &Message, payload: &[u8]) -> (res: Frame)
    requires
        payload@.len() < usize::MAX,
    ensures
        res.0@ == frame_bytes(kind_of(*msg), payload@),
{
    let total: usize = 1 + payload.len();
    let mut frame = to_be_bytes(total as u128, 4);
    frame.push(kind_byte(msg));
    frame.extend_from_slice(payload);
    assert(frame@ =~= frame_bytes(kind_of(*msg), payload@));
    Frame(frame)
}

/// The largest frame that is accepted: 512 MiB (single shard limit).
pub const MAX_FRAME: usize = 536_870_912;

/// How many bytes follow a header, if the frame is accepted.
pub open spec fn accepted_len(header: Seq<u8>) -> Option<nat> {
    let total = text::be_value(header);
    if total == 0 || total > MAX_FRAME {
        None
    } else {
        Some(total)
    }
}

/// How many bytes follow the given header.
///
/// # Errors
/// - [`WireError::Incomplete`] if none do, or too many for one frame.
pub fn frame_len(header: &[u8; 4]) -> (res: Result<usize, WireError>)
    ensures
        match res {
            Ok(total) => accepted_len(header@) == Some(total as nat),
            Err(e) => accepted_len(header@) is None && (e matches WireError::Incomplete { expected, got }
                && expected == text::be_value(header@) && got == 0),
        },
        ({
            let total = header@[0] * 0x100_0000 + header@[1] * 0x1_0000 + header@[2] * 0x100 + header@[3];
            match res {
                Ok(n) => n == total && 1 <= total <= 536_870_912,
                Err(_) => total == 0 || total > 536_870_912,
            }
        }),
{
    proof {
        lemma_be_value4(header@);
    }
    let total: usize = from_be_bytes4(header) as usize;
    if total == 0 || total > MAX_FRAME {
        return Err(WireError::Incomplete { expected: total, got: 0 });
    }
    Ok(total)
}

/// The payload in the bytes that follow a header: all but the kind byte.
pub fn frame_payload(body: &[u8]) -> (res: &[u8])
    requires
        body@.len() >= 1,
    ensures
        res@ == body@.skip(1),
{
    let res = slice_subrange(body, 1, body.len());
    assert(res@ =~= body@.skip(1));
    res
}

/// Whether two messages are of the same type.
pub open spec fn same_type(a: Message, b: Message) -> bool {
    &&& a is PutBlock == b is PutBlock
    &&& a is GetBlock == b is GetBlock
    &&& a is DelBlock == b is DelBlock
    &&& a is ListBlocks == b is ListBlocks
    &&& a is BlockCount == b is BlockCount
    &&& a is StatBlock == b is StatBlock
    &&& a is Join == b is Join
    &&& a is JoinAck == b is JoinAck
    &&& a is Gossip == b is Gossip
    &&& a is Ping == b is Ping
    &&& a is Pong == b is Pong
    &&& a is Ack == b is Ack
    &&& a is Error == b is Error
    &&& a is BlockList == b is BlockList
    &&& a is BlockCountIs == b is BlockCountIs
    &&& a is BlockData == b is BlockData
    &&& a is BlockMeta == b is BlockMeta
}

/// The kind byte identifies the type of a message.
pub proof fn law_kind_byte_identifies_type(a: Message, b: Message)
    ensures
        kind_of(a) == kind_of(b) <==> same_type(a, b),
{
}

/// A frame is read as it was written: its first four bytes announce the rest, and
/// the rest holds the kind byte and the payload. This holds up to the largest
/// frame that is accepted.
pub proof fn law_frame_round_trip(kind: u8, payload: Seq<u8>)
    requires
        1 + payload.len() <= MAX_FRAME,
    ensures
        ({
            let bytes = frame_bytes(kind, payload);
            let body = bytes.skip(4);
            &&& bytes.len() == 4 + 1 + payload.len()
            &&& accepted_len(bytes.take(4)) == Some(body.len())
            &&& body[0] == kind
            &&& body.skip(1) == payload
        }),
{
    let n = 1 + payload.len();
    assert(vstd::arithmetic::power::pow(256, 4) == 0x1_0000_0000) by {
        reveal_with_fuel(vstd::arithmetic::power::pow, 5);
    }
    text::lemma_be_roundtrip(n, 4);
    let bytes = frame_bytes(kind, payload);
    assert(bytes.take(4) =~= text::be_bytes(n, 4));
    assert(bytes.skip(4) =~= seq![kind] + payload);
    assert(bytes.skip(4).skip(1) =~= payload);
}

/// A frame that is too large for one frame is refused by the reader, as long as
/// its length fits the header.
pub proof fn law_oversized_frame_is_refused(kind: u8, payload: Seq<u8>)
    requires
        MAX_FRAME < 1 + payload.len() < 0x1_0000_0000,
    ensures
        accepted_len(frame_bytes(kind, payload).take(4)) is None,
{
    let n = 1 + payload.len();
    assert(vstd::arithmetic::power::pow(256, 4) == 0x1_0000_0000) by {
        reveal_with_fuel(vstd::arithmetic::power::pow, 5);
    }
    text::lemma_be_roundtrip(n, 4);
    assert(frame_bytes(kind, payload).take(4) =~= text::be_bytes(n, 4));
}

proof fn lemma_be_value4(s: Seq<u8>)
    requires
        s.len() == 4,
    ensures
        text::be_value(s) == s[0] * 0x100_0000 + s[1] * 0x1_0000 + s[2] * 0x100 + s[3],
{
    reveal_with_fuel(text::be_value, 5);
    assert(s.drop_last().drop_last().drop_last().drop_last() =~= Seq::<u8>::empty());
}

/// A frame is laid out as four bytes with the number of bytes that follow them, the
/// highest byte first, the kind byte, and the payload.
pub proof fn law_frame_layout(kind: u8, payload: Seq<u8>)
    requires
        1 + payload.len() < 0x1_0000_0000,
    ensures
        ({
            let bytes = frame_bytes(kind, payload);
            &&& bytes.len() == 5 + payload.len()
            &&& bytes[0] * 0x100_0000 + bytes[1] * 0x1_0000 + bytes[2] * 0x100 + bytes[3] == 1
                + payload.len()
            &&& bytes[4] == kind
            &&& bytes.skip(5) == payload
        }),
{
    let n = 1 + payload.len();
    let head = text::be_bytes(n, 4);
    assert(vstd::arithmetic::power::pow(256, 4) == 0x1_0000_0000) by {
        reveal_with_fuel(vstd::arithmetic::power::pow, 5);
    }
    text::lemma_be_roundtrip(n, 4);
    lemma_be_value4(head);
    assert(frame_bytes(kind, payload).skip(5) =~= payload);
}

/// A frame is accepted if the four bytes of its header, read highest first, announce
/// at least one byte and at most 512 MiB.
pub proof fn law_which_frames_are_accepted(header: Seq<u8>)
    requires
        header.len() == 4,
    ensures
        ({
            let total = header[0] * 0x100_0000 + header[1] * 0x1_0000 + header[2] * 0x100 + header[3];
            accepted_len(header) == if 1 <= total <= 536_870_912 {
                Some(total as nat)
            } else {
                None
            }
        }),
{
    lemma_be_value4(header);
}

/// Requests have kind bytes below 0x80 and responses above it.
pub proof fn law_kind_bytes(msg: Message)
    ensures
        ({
            let response = msg is Ack || msg is Error || msg is BlockList || msg is BlockCountIs
                || msg is BlockData || msg is BlockMeta;
            kind_of(msg) >= 0x80 <==> response
        }),
        kind_of(msg) == 0x01 <==> msg is PutBlock,
        kind_of(msg) == 0x02 <==> msg is GetBlock,
        kind_of(msg) == 0x03 <==> msg is DelBlock,
        kind_of(msg) == 0x04 <==> msg is ListBlocks,
        kind_of(msg) == 0x05 <==> msg is BlockCount,
        kind_of(msg) == 0x06 <==> msg is StatBlock,
        kind_of(msg) == 0x10 <==> msg is Join,
        kind_of(msg) == 0x11 <==> msg is JoinAck,
        kind_of(msg) == 0x12 <==> msg is Gossip,
        kind_of(msg) == 0x20 <==> msg is Ping,
        kind_of(msg) == 0x21 <==> msg is Pong,
        kind_of(msg) == 0x81 <==> msg is Ack,
        kind_of(msg) == 0x82 <==> msg is Error,
        kind_of(msg) == 0x83 <==> msg is BlockList,
        kind_of(msg) == 0x84 <==> msg is BlockCountIs,
        kind_of(msg) == 0x85 <==> msg is BlockData,
        kind_of(msg) == 0x86 <==> msg is BlockMeta,
{
}

/// Errors say what went wrong, with the numbers in decimal and a kind byte in two
/// hexadecimal digits.
pub proof fn law_wire_error_texts(msg: String, expected: usize, got: usize, kind: u8)
    ensures
        WireError::Io(msg).text() == "io error: "@ + msg@,
        WireError::Bincode(msg).text() == "bincode error: "@ + msg@,
        exists|a: Seq<char>, b: Seq<char>|
            #[trigger] text::is_numeral(a, expected as nat, 1) && #[trigger] text::is_numeral(
                b,
                got as nat,
                1,
            ) && (WireError::Incomplete { expected, got }).text() == "incomplete frame: expected "@ + a
                + " bytes, got "@ + b,
        WireError::UnknownKind(kind).text() == "unknown kind byte: 0x"@ + seq![
            hash::hex_digit(kind as nat / 16),
            hash::hex_digit(kind as nat % 16),
        ],
{
    text::law_renderings_are_numerals(expected as nat, 1);
    text::law_renderings_are_numerals(got as nat, 1);
    assert(hash::hex_text(seq![kind]) =~= seq![
        hash::hex_digit(kind as nat / 16),
        hash::hex_digit(kind as nat % 16),
    ]);
}

} // verus!
