//! Messages between clients and nodes, as plain values.

use vstd::prelude::*;
use vstd::string::*;

use crate::block::{BlockId, BlockMeta, BlockMetaView, Shard, ShardView};
use crate::ids;
use crate::ids::{format_uuid, parse_uuid};
use crate::types::{NodeId, Ring, RingView};

verus! {

/// The reason for which a request is refused.
#[derive(Debug, PartialEq, Eq)]
pub enum RpcError {
    /// The request itself is wrong.
    InvalidArgument(String),
    /// What was asked for is not there.
    NotFound(String),
    /// The node failed.
    Internal(String),
}

/// The text of a gRPC status with the given code and message, and no details or
/// metadata.
pub uninterp spec fn status_text(code: i32, message: Seq<char>) -> Seq<char>;

/// `tonic::Status::new` and the `Display` of the status, for the code that
/// `tonic::Code::from_i32` gives: a function of the code and the message.
#[verifier::external_body]
fn status_to_string(code: i32, message: &str) -> (res: String)
    ensures
        res@ == status_text(code, message@),
{
    tonic::Status::new(tonic::Code::from_i32(code), message).to_string()
}

impl RpcError {
    /// The gRPC status code that stands for the reason.
    pub open spec fn code(self) -> i32 {
        match self {
            RpcError::InvalidArgument(_) => 3,
            RpcError::NotFound(_) => 5,
            RpcError::Internal(_) => 13,
        }
    }

    /// What the node says of it.
    pub open spec fn message(self) -> Seq<char> {
        match self {
            RpcError::InvalidArgument(msg) => msg@,
            RpcError::NotFound(msg) => msg@,
            RpcError::Internal(msg) => msg@,
        }
    }

    /// The text of the error: that of its gRPC status.
    pub open spec fn text(self) -> Seq<char> {
        status_text(self.code(), self.message())
    }

    /// The error as a human-readable message.
    pub fn to_string(&self) -> (res: String)
        ensures
            res@ == self.text(),
    {
        match self {
            RpcError::InvalidArgument(msg) => status_to_string(3, msg.as_str()),
            RpcError::NotFound(msg) => status_to_string(5, msg.as_str()),
            RpcError::Internal(msg) => status_to_string(13, msg.as_str()),
        }
    }
}

/// The URL at which the node at `addr` is reached.
pub open spec fn endpoint_text(addr: Seq<char>) -> Seq<char> {
    "http://"@ + addr
}

/// The URL at which the node at `addr` is reached.
pub fn endpoint(addr: &str) -> (res: String)
    ensures
        res@ == endpoint_text(addr@),
        res@ == "http://"@ + addr@,
{
    "http://".to_owned().concat(addr)
}

/// What a shard in a message holds.
#[verifier::ext_equal]
pub struct ProtoShardView {
    /// Position in the stripe.
    pub index: u32,
    /// The shard data.
    pub data: Seq<u8>,
}

/// A shard in a message.
#[derive(Debug, PartialEq, Eq)]
pub struct ProtoShard {
    /// Position in the stripe.
    pub index: u32,
    /// The shard data.
    pub data: Vec<u8>,
}

impl View for ProtoShard {
    type V = ProtoShardView;

    open spec fn view(&self) -> ProtoShardView {
        ProtoShardView { index: self.index, data: self.data@ }
    }
}

impl Clone for ProtoShard {
    fn clone(&self) -> (res: Self)
        ensures
            res@ == self@,
    {
        let data = self.data.clone();
        assert(data@ =~= self.data@);
        ProtoShard { index: self.index, data }
    }
}

/// What block metadata in a message holds.
#[verifier::ext_equal]
pub struct ProtoBlockMetaView {
    /// Unique block identifier.
    pub block_id: Seq<char>,
    /// The object this block belongs to.
    pub object_id: Seq<char>,
    /// Which shard in the stripe.
    pub shard_index: u32,
    /// The ring version at which this block was placed.
    pub ring_version: u64,
    /// Checksum of the shard data.
    pub checksum: Seq<u8>,
    /// Size of the shard data in bytes.
    pub size: u64,
}

/// Block metadata in a message.
#[derive(Debug, PartialEq, Eq)]
pub struct ProtoBlockMeta {
    /// Unique block identifier.
    pub block_id: String,
    /// The object this block belongs to.
    pub object_id: String,
    /// Which shard in the stripe.
    pub shard_index: u32,
    /// The ring version at which this block was placed.
    pub ring_version: u64,
    /// Checksum of the shard data.
    pub checksum: Vec<u8>,
    /// Size of the shard data in bytes.
    pub size: u64,
}

impl View for ProtoBlockMeta {
    type V = ProtoBlockMetaView;

    open spec fn view(&self) -> ProtoBlockMetaView {
        ProtoBlockMetaView {
            block_id: self.block_id@,
            object_id: self.object_id@,
            shard_index: self.shard_index,
            ring_version: self.ring_version,
            checksum: self.checksum@,
            size: self.size,
        }
    }
}

impl Clone for ProtoBlockMeta {
    fn clone(&self) -> (res: Self)
        ensures
            res@ == self@,
    {
        let checksum = self.checksum.clone();
        assert(checksum@ =~= self.checksum@);
        ProtoBlockMeta {
            block_id: self.block_id.clone(),
            object_id: self.object_id.clone(),
            shard_index: self.shard_index,
            ring_version: self.ring_version,
            checksum,
            size: self.size,
        }
    }
}

/// A ring in a message.
#[derive(Debug, PartialEq, Eq)]
pub struct ProtoRing {
    /// The ids of the nodes, as text.
    pub node_ids: Vec<String>,
    /// The version number.
    pub version: u64,
}

/// Whether `msg` is the message for `ring`: its ids are the texts of the nodes, and
/// read as them.
pub open spec fn describes_ring(msg: ProtoRing, ring: RingView) -> bool {
    &&& msg.version == ring.version
    &&& msg.node_ids@.len() == ring.nodes.len()
    &&& forall|i: int|
        0 <= i < ring.nodes.len() ==> (#[trigger] msg.node_ids@[i])@ == ids::uuid_text(ring.nodes[i])
    &&& reads_as(msg, ring)
}

/// Whether the ids of `msg` read as the nodes of `ring`, and the versions agree.
pub open spec fn reads_as(msg: ProtoRing, ring: RingView) -> bool {
    &&& msg.version == ring.version
    &&& msg.node_ids@.len() == ring.nodes.len()
    &&& forall|i: int|
        0 <= i < ring.nodes.len() ==> ids::parsed_uuid((#[trigger] msg.node_ids@[i])@) == Some(
            ring.nodes[i],
        )
}

/// The message for a shard.
pub open spec fn shard_to_proto(s: ShardView) -> ProtoShardView {
    ProtoShardView { index: s.index as u32, data: s.data }
}

/// The shard that a message holds. Only the lowest eight bits of the index count.
pub open spec fn shard_from_proto(s: ProtoShardView) -> ShardView {
    ShardView { index: (s.index % 256) as u8, data: s.data }
}

/// The message for block metadata.
pub open spec fn meta_to_proto(m: BlockMetaView) -> ProtoBlockMetaView {
    ProtoBlockMetaView {
        block_id: m.block_id,
        object_id: m.object_id,
        shard_index: m.shard_index as u32,
        ring_version: m.ring_version,
        checksum: m.checksum,
        size: m.size,
    }
}

/// The block metadata that a message holds. Only the lowest eight bits of the
/// index count, and a checksum of the wrong length reads as zeros.
pub open spec fn meta_from_proto(m: ProtoBlockMetaView) -> BlockMetaView {
    BlockMetaView {
        block_id: m.block_id,
        object_id: m.object_id,
        shard_index: (m.shard_index % 256) as u8,
        ring_version: m.ring_version,
        checksum: digest_or_zeros(m.checksum),
        size: m.size,
    }
}

/// `bytes` if there are 32 of them, else 32 zeros.
pub open spec fn digest_or_zeros(bytes: Seq<u8>) -> Seq<u8> {
    if bytes.len() == 32 {
        bytes
    } else {
        Seq::new(32, |i: int| 0u8)
    }
}

fn digest_from(bytes: &Vec<u8>) -> (res: [u8; 32])
    ensures
        res@ == digest_or_zeros(bytes@),
{
    let mut res: [u8; 32] = [0u8; 32];
    if bytes.len() == 32 {
        let mut i: usize = 0;
        while i < 32
            invariant
                i <= 32,
                bytes@.len() == 32,
                forall|j: int| 0 <= j < i ==> res@[j] == bytes@[j],
            decreases 32 - i,
        {
            res[i] = bytes[i];
            i = i + 1;
        }
    }
    assert(res@ =~= digest_or_zeros(bytes@));
    res
}

impl From<Shard> for ProtoShard {
    fn from(s: Shard) -> (res: Self)
        ensures
            res@ == shard_to_proto(s@),
            res.index == s.index,
            res.data@ == s.data@,
    {
        Self { index: s.index as u32, data: s.data }
    }
}

impl vstd::std_specs::convert::FromSpecImpl<Shard> for ProtoShard {
    open spec fn obeys_from_spec() -> bool {
        true
    }

    open spec fn from_spec(s: Shard) -> ProtoShard {
        ProtoShard { index: s.index as u32, data: s.data }
    }
}

impl From<ProtoShard> for Shard {
    fn from(s: ProtoShard) -> (res: Self)
        ensures
            res@ == shard_from_proto(s@),
            res.index == s.index % 256,
            res.data@ == s.data@,
    {
        let index = s.index;
        assert(index as u8 == index % 256) by (bit_vector);
        Self { index: s.index as u8, data: s.data }
    }
}

impl vstd::std_specs::convert::FromSpecImpl<ProtoShard> for Shard {
    open spec fn obeys_from_spec() -> bool {
        true
    }

    open spec fn from_spec(s: ProtoShard) -> Shard {
        Shard { index: s.index as u8, data: s.data }
    }
}

impl From<BlockMeta> for ProtoBlockMeta {
    fn from(m: BlockMeta) -> (res: Self)
        ensures
            res@ == meta_to_proto(m@),
            res.block_id@ == m.block_id@,
            res.object_id@ == m.object_id@,
            res.shard_index == m.shard_index,
            res.ring_version == m.ring_version,
            res.checksum@ == m.checksum@,
            res.size == m.size,
    {
        let checksum = vstd::slice::slice_to_vec(m.checksum.as_slice());
        Self {
            block_id: m.block_id.0,
            object_id: m.object_id,
            shard_index: m.shard_index as u32,
            ring_version: m.ring_version,
            checksum,
            size: m.size,
        }
    }
}

impl vstd::std_specs::convert::FromSpecImpl<BlockMeta> for ProtoBlockMeta {
    open spec fn obeys_from_spec() -> bool {
        false
    }

    open spec fn from_spec(m: BlockMeta) -> ProtoBlockMeta {
        arbitrary()
    }
}

impl From<ProtoBlockMeta> for BlockMeta {
    fn from(m: ProtoBlockMeta) -> (res: Self)
        ensures
            res@ == meta_from_proto(m@),
            res.block_id@ == m.block_id@,
            res.object_id@ == m.object_id@,
            res.shard_index == m.shard_index % 256,
            res.ring_version == m.ring_version,
            m.checksum@.len() == 32 ==> res.checksum@ == m.checksum@,
            m.checksum@.len() != 32 ==> forall|i: int| 0 <= i < 32 ==> res.checksum@[i] == 0,
            res.size == m.size,
    {
        let index = m.shard_index;
        assert(index as u8 == index % 256) by (bit_vector);
        let checksum = digest_from(&m.checksum);
        Self {
            block_id: BlockId(m.block_id),
            object_id: m.object_id,
            shard_index: m.shard_index as u8,
            ring_version: m.ring_version,
            checksum,
            size: m.size,
        }
    }
}

impl vstd::std_specs::convert::FromSpecImpl<ProtoBlockMeta> for BlockMeta {
    open spec fn obeys_from_spec() -> bool {
        false
    }

    open spec fn from_spec(m: ProtoBlockMeta) -> BlockMeta {
        arbitrary()
    }
}

impl From<&Ring> for ProtoRing {
    fn from(ring: &Ring) -> (res: Self)
        ensures
            describes_ring(res, ring@),
            res.version == ring.version,
            res.node_ids@.len() == ring.nodes@.len(),
            forall|i: int|
                0 <= i < ring.nodes@.len() ==> (#[trigger] res.node_ids@[i])@ == ids::uuid_text(
                    ring.nodes@[i],
                ) && ids::parsed_uuid(res.node_ids@[i]@) == Some(ring.nodes@[i]),
    {
        let mut node_ids: Vec<String> = Vec::new();
        let mut i: usize = 0;
        while i < ring.nodes.len()
            invariant
                i <= ring.nodes@.len(),
                node_ids@.len() == i,
                forall|j: int|
                    0 <= j < i ==> (#[trigger] node_ids@[j])@ == ids::uuid_text(ring.nodes@[j])
                        && ids::parsed_uuid(node_ids@[j]@) == Some(ring.nodes@[j]),
            decreases ring.nodes.len() - i,
        {
            node_ids.push(format_uuid(ring.nodes[i]));
            i = i + 1;
        }
        Self { node_ids, version: ring.version }
    }
}

impl vstd::std_specs::convert::FromSpecImpl<&Ring> for ProtoRing {
    open spec fn obeys_from_spec() -> bool {
        false
    }

    open spec fn from_spec(ring: &Ring) -> ProtoRing {
        arbitrary()
    }
}

/// The ring that a message holds.
///
/// # Errors
/// - [`RpcError::InvalidArgument`] if one of the ids is not a UUID.
pub fn ring_from_proto(msg: &ProtoRing) -> (res: Result<Ring, RpcError>)
    ensures
        match res {
            Ok(ring) => {
                &&& reads_as(*msg, ring@)
                &&& ring.version == msg.version
                &&& ring.nodes@.len() == msg.node_ids@.len()
                &&& forall|i: int|
                    0 <= i < msg.node_ids@.len() ==> ids::parsed_uuid((#[trigger] msg.node_ids@[i])@)
                        == Some(ring.nodes@[i])
            },
            Err(e) => {
                &&& exists|i: int|
                    0 <= i < msg.node_ids@.len() && ids::parsed_uuid((#[trigger] msg.node_ids@[i])@) is None
                &&& (e matches RpcError::InvalidArgument(text) && text@ == "bad node id"@)
            },
        },
{
    let mut nodes: Vec<NodeId> = Vec::new();
    let mut i: usize = 0;
    while i < msg.node_ids.len()
        invariant
            i <= msg.node_ids@.len(),
            nodes@.len() == i,
            forall|j: int|
                0 <= j < i ==> ids::parsed_uuid((#[trigger] msg.node_ids@[j])@) == Some(nodes@[j]),
        decreases msg.node_ids.len() - i,
    {
        match parse_uuid(msg.node_ids[i].as_str()) {
            Some(id) => {
                nodes.push(id);
            },
            None => {
                assert(ids::parsed_uuid(msg.node_ids@[i as int]@) is None);
                return Err(RpcError::InvalidArgument("bad node id".to_owned()));
            },
        }
        i = i + 1;
    }
    Ok(Ring { nodes, version: msg.version })
}

/// A ring survives being sent: the message for a ring reads as that ring and no
/// other.
pub proof fn law_ring_message_round_trips(msg: ProtoRing, sent: RingView, read: RingView)
    requires
        describes_ring(msg, sent),
        reads_as(msg, read),
    ensures
        read == sent,
{
    assert forall|i: int| 0 <= i < sent.nodes.len() implies read.nodes[i] == sent.nodes[i] by {
        assert(ids::parsed_uuid(msg.node_ids@[i]@) == Some(sent.nodes[i]));
    }
    assert(read.nodes =~= sent.nodes);
}

/// A shard and its metadata survive being sent.
pub proof fn law_messages_round_trip(s: ShardView, m: BlockMetaView)
    requires
        m.checksum.len() == 32,
    ensures
        shard_from_proto(shard_to_proto(s)) == s,
        meta_from_proto(meta_to_proto(m)) == m,
{
}

/// A message carries every field as it is. Of an index that does not fit, the lowest
/// eight bits are read, and a checksum that is not 32 bytes long is read as zeros.
pub proof fn law_messages_carry_every_field(
    s: ShardView,
    m: BlockMetaView,
    ps: ProtoShardView,
    pm: ProtoBlockMetaView,
)
    ensures
        shard_to_proto(s).index == s.index,
        shard_to_proto(s).data == s.data,
        meta_to_proto(m).block_id == m.block_id,
        meta_to_proto(m).object_id == m.object_id,
        meta_to_proto(m).shard_index == m.shard_index,
        meta_to_proto(m).ring_version == m.ring_version,
        meta_to_proto(m).checksum == m.checksum,
        meta_to_proto(m).size == m.size,
        shard_from_proto(ps).index == ps.index % 256,
        shard_from_proto(ps).data == ps.data,
        meta_from_proto(pm).block_id == pm.block_id,
        meta_from_proto(pm).object_id == pm.object_id,
        meta_from_proto(pm).shard_index == pm.shard_index % 256,
        meta_from_proto(pm).ring_version == pm.ring_version,
        meta_from_proto(pm).size == pm.size,
        pm.checksum.len() == 32 ==> meta_from_proto(pm).checksum == pm.checksum,
        pm.checksum.len() != 32 ==> meta_from_proto(pm).checksum.len() == 32 && forall|i: int|
            0 <= i < 32 ==> meta_from_proto(pm).checksum[i] == 0,
{
}

/// A ring's message has its version and the text of each of its nodes, in order.
pub proof fn law_ring_message(msg: ProtoRing, ring: RingView, i: int)
    requires
        describes_ring(msg, ring),
        0 <= i < ring.nodes.len(),
    ensures
        msg.version == ring.version,
        msg.node_ids@.len() == ring.nodes.len(),
        msg.node_ids@[i]@ == ids::uuid_text(ring.nodes[i]),
        ids::parsed_uuid(msg.node_ids@[i]@) == Some(ring.nodes[i]),
{
    assert(msg.node_ids@[i]@ == ids::uuid_text(ring.nodes[i]));
}

/// A refusal has the text of the gRPC status with its code and its message.
pub proof fn law_refusal_texts(msg: String)
    ensures
        RpcError::InvalidArgument(msg).text() == status_text(3, msg@),
        RpcError::NotFound(msg).text() == status_text(5, msg@),
        RpcError::Internal(msg).text() == status_text(13, msg@),
{
}

} // verus!
