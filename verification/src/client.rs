//! DFS client for S3 frontend integration.
//!
//! Erasure-coding, shard placement, and node communication are
//! encapsulated behind simple `put`/`get`/`delete`/`stat` methods.
//! Your application works with byte payloads, not shards.
//!
//! The network is the caller's. An operation that talks to several nodes is a
//! session: it says which request goes to which node, takes the reply, and in
//! the end gives the result.

use vstd::prelude::*;
use vstd::string::*;

use crate::block;
use crate::block::{BlockId, BlockMeta, BlockMetaView, Shard, ShardView};
use crate::codec;
use crate::erasure;
use crate::hash;
use crate::hash::{blake3_hash, hex_encode};
use crate::rpc;
use crate::rpc::{ProtoBlockMeta, ProtoShard, RpcError};
use crate::text;
use crate::text::{push_decimal, push_decimal5};
use crate::types::ErasureConfig;

verus! {

/// Errors of client operations.
#[derive(Debug, PartialEq, Eq)]
pub enum ClientError {
    /// A node refused a request.
    Grpc(RpcError),
    /// A node could not be reached.
    Transport(String),
    /// The object could not be encoded or stored.
    Encoding(String),
    /// The object could not be found or recovered.
    NotFound(String),
}

impl ClientError {
    /// The text of the error.
    pub open spec fn text(self) -> Seq<char> {
        match self {
            ClientError::Grpc(e) => grpc_text(e.text()),
            ClientError::Transport(msg) => "transport: "@ + msg@,
            ClientError::Encoding(msg) => "encoding: "@ + msg@,
            ClientError::NotFound(msg) => "object not found: "@ + msg@,
        }
    }

    /// The error as a human-readable message.
    pub fn to_string(&self) -> (res: String)
        ensures
            res@ == self.text(),
    {
        let res = match self {
            ClientError::Grpc(e) => grpc_failure(e.to_string().as_str()),
            ClientError::Transport(msg) => "transport: ".to_owned().concat(msg.as_str()),
            ClientError::Encoding(msg) => "encoding: ".to_owned().concat(msg.as_str()),
            ClientError::NotFound(msg) => "object not found: ".to_owned().concat(msg.as_str()),
        };
        res
    }
}

/// The text of the error for a request that a node refused with a status of the
/// given text.
pub open spec fn grpc_text(status: Seq<char>) -> Seq<char> {
    "gRPC: "@ + status
}

/// The text of the error for a request that a node refused, given the text of the
/// status.
pub fn grpc_failure(status: &str) -> (res: String)
    ensures
        res@ == grpc_text(status@),
{
    "gRPC: ".to_owned().concat(status)
}

/// Shorthand for `Result` with [`ClientError`].
pub type Result<T> = std::result::Result<T, ClientError>;

/// What is known of an object.
#[derive(Debug, PartialEq, Eq)]
pub struct ObjectMetadata {
    /// The ID under which the object is stored.
    pub object_id: String,
    /// Blake3 checksum.
    pub checksum: [u8; 32],
    /// Size in bytes.
    pub size: u64,
}

/// What object metadata holds.
#[verifier::ext_equal]
pub struct ObjectMetadataView {
    /// The ID under which the object is stored.
    pub object_id: Seq<char>,
    /// Blake3 checksum.
    pub checksum: Seq<u8>,
    /// Size in bytes.
    pub size: u64,
}

impl View for ObjectMetadata {
    type V = ObjectMetadataView;

    open spec fn view(&self) -> ObjectMetadataView {
        ObjectMetadataView {
            object_id: self.object_id@,
            checksum: self.checksum@,
            size: self.size,
        }
    }
}

impl Clone for ObjectMetadata {
    fn clone(&self) -> (res: Self)
        ensures
            res@ == self@,
    {
        ObjectMetadata {
            object_id: self.object_id.clone(),
            checksum: self.checksum,
            size: self.size,
        }
    }
}

impl ObjectMetadataView {
    /// The metadata of the object with the given contents. Its ID is the
    /// hexadecimal text of its checksum.
    pub open spec fn describing(data: Seq<u8>) -> ObjectMetadataView {
        ObjectMetadataView {
            object_id: hash::hex_text(hash::blake3_digest(data)),
            checksum: hash::blake3_digest(data),
            size: data.len() as u64,
        }
    }
}

/// The ring version at which the client places blocks.
pub const RING_VERSION: u64 = 1;

/// The largest object that a single put accepts: 20 MB.
pub const MAX_OBJECT: usize = 20_971_520;

/// A put request to one node.
#[derive(Debug)]
pub struct PutRequest {
    /// The position of the node in the address list.
    pub node: usize,
    /// The shard to store.
    pub shard: ProtoShard,
    /// Its metadata.
    pub meta: ProtoBlockMeta,
}

/// A request to one node about one block.
#[derive(Debug)]
pub struct BlockRequest {
    /// The position of the node in the address list.
    pub node: usize,
    /// The block.
    pub block_id: BlockId,
}

/// The node that is tried for shard `i` after `offset` failures: each shard
/// starts at its own node, and goes round.
pub open spec fn rotation(i: nat, offset: nat, nodes: nat) -> nat
    recommends
        nodes > 0,
{
    (i % nodes + offset) % nodes
}

fn rotate(i: usize, offset: usize, nodes: usize) -> (res: usize)
    requires
        nodes > 0,
        offset < nodes,
    ensures
        res == rotation(i as nat, offset as nat, nodes as nat),
        res < nodes,
{
    let preferred: usize = i % nodes;
    proof {
        let x = preferred + offset;
        if x < nodes {
            vstd::arithmetic::div_mod::lemma_small_mod(x as nat, nodes as nat);
        } else {
            vstd::arithmetic::div_mod::lemma_mod_add_multiples_vanish(x - nodes, nodes as int);
            vstd::arithmetic::div_mod::lemma_small_mod((x - nodes) as nat, nodes as nat);
        }
    }
    if offset < nodes - preferred {
        preferred + offset
    } else {
        offset - (nodes - preferred)
    }
}

/// A block to be stored: the shard and its metadata.
pub type Block = (ShardView, BlockMetaView);

/// The blocks of an object: its shards, each with the metadata that describes it.
pub open spec fn blocks_of(object_id: Seq<char>, code: Seq<Seq<u8>>) -> Seq<Block> {
    Seq::new(
        code.len(),
        |i: int|
            (
                ShardView { index: i as u8, data: code[i] },
                BlockMetaView::describing(object_id, i as u8, RING_VERSION, code[i]),
            ),
    )
}

/// How far a put has come.
#[verifier::ext_equal]
pub struct PutView {
    /// How many nodes there are.
    pub nodes: nat,
    /// How many blocks make the object recoverable.
    pub k: nat,
    /// What is returned on success.
    pub object: ObjectMetadataView,
    /// The blocks to store.
    pub blocks: Seq<Block>,
    /// The block that is being stored.
    pub shard: nat,
    /// How many nodes have failed to store it.
    pub offset: nat,
    /// How many blocks have been stored.
    pub written: nat,
}

impl PutView {
    /// The start of a put.
    pub open spec fn starting(nodes: nat, k: nat, m: nat, data: Seq<u8>) -> PutView {
        let object = ObjectMetadataView::describing(data);
        PutView {
            nodes,
            k,
            object,
            blocks: blocks_of(object.object_id, erasure::code_shards(data, k, m)),
            shard: 0,
            offset: 0,
            written: 0,
        }
    }

    /// Whether every block has been stored or given up.
    pub open spec fn done(self) -> bool {
        self.shard >= self.blocks.len()
    }

    /// The node that the next request goes to.
    pub open spec fn node(self) -> nat {
        rotation(self.shard, self.offset, self.nodes)
    }

    /// What a reply does: an acknowledged block is counted, and the next one is
    /// its turn; a failed one goes to the next node, until all have failed.
    pub open spec fn after(self, ok: bool) -> PutView {
        if ok {
            PutView { shard: self.shard + 1, offset: 0, written: self.written + 1, ..self }
        } else if self.offset + 1 < self.nodes {
            PutView { offset: self.offset + 1, ..self }
        } else {
            PutView { shard: self.shard + 1, offset: 0, ..self }
        }
    }

    /// Whether enough blocks have been stored: one more than are needed to
    /// recover the object.
    pub open spec fn has_quorum(self) -> bool {
        self.written >= self.k + 1
    }

    /// The message when there is no quorum.
    pub open spec fn shortfall(self) -> Seq<char> {
        "put: only "@ + text::decimal(self.written) + "/"@ + text::decimal(self.blocks.len())
            + " shards written"@
    }
}

/// A put in progress.
#[derive(Debug)]
pub struct PutSession {
    /// How many nodes there are.
    pub nodes: usize,
    /// How many blocks make the object recoverable.
    pub k: usize,
    /// What is returned on success.
    pub object: ObjectMetadata,
    /// The blocks to store.
    pub blocks: Vec<(Shard, BlockMeta)>,
    /// The block that is being stored.
    pub shard: usize,
    /// How many nodes have failed to store it.
    pub offset: usize,
    /// How many blocks have been stored.
    pub written: usize,
}

impl View for PutSession {
    type V = PutView;

    open spec fn view(&self) -> PutView {
        PutView {
            nodes: self.nodes as nat,
            k: self.k as nat,
            object: self.object@,
            blocks: self.blocks@.map_values(|b: (Shard, BlockMeta)| (b.0@, b.1@)),
            shard: self.shard as nat,
            offset: self.offset as nat,
            written: self.written as nat,
        }
    }
}

impl PutSession {
    /// A session that requests and replies have led to.
    pub open spec fn well_formed(self) -> bool {
        &&& self.k <= 255
        &&& self.offset < self.nodes
        &&& self.written <= self.shard <= self.blocks@.len() <= 256
    }

    /// The next request, unless the session is done.
    pub fn request(&self) -> (res: Option<PutRequest>)
        requires
            self.well_formed(),
        ensures
            match res {
                Some(req) => {
                    &&& !self@.done()
                    &&& req.node == self@.node()
                    &&& req.node < self.nodes
                    &&& req.shard@ == rpc::shard_to_proto(self@.blocks[self@.shard as int].0)
                    &&& req.meta@ == rpc::meta_to_proto(self@.blocks[self@.shard as int].1)
                },
                None => self@.done(),
            },
            res is Some <==> self.shard < self.blocks@.len(),
            res matches Some(req) ==> {
                let (shard, meta) = self.blocks@[self.shard as int];
                &&& req.node == (self.shard as int % self.nodes as int + self.offset) % self.nodes as int
                &&& req.shard.index == shard.index
                &&& req.shard.data@ == shard.data@
                &&& req.meta.block_id@ == meta.block_id@
                &&& req.meta.object_id@ == meta.object_id@
                &&& req.meta.shard_index == meta.shard_index
                &&& req.meta.ring_version == meta.ring_version
                &&& req.meta.checksum@ == meta.checksum@
                &&& req.meta.size == meta.size
            },
    {
        if self.shard >= self.blocks.len() {
            return None;
        }
        let node = rotate(self.shard, self.offset, self.nodes);
        let shard = ProtoShard::from(self.blocks[self.shard].0.clone());
        let meta = ProtoBlockMeta::from(self.blocks[self.shard].1.clone());
        Some(PutRequest { node, shard, meta })
    }

    /// Takes the reply to the request: whether the node stored the block.
    pub fn reply(&mut self, ok: bool)
        requires
            old(self).well_formed(),
            !old(self)@.done(),
        ensures
            final(self).well_formed(),
            final(self)@ == old(self)@.after(ok),
            final(self).nodes == old(self).nodes,
            final(self).k == old(self).k,
            final(self).object == old(self).object,
            final(self).blocks == old(self).blocks,
            final(self).written == old(self).written + if ok {
                1int
            } else {
                0
            },
            ok || old(self).offset + 1 == old(self).nodes ==> final(self).shard == old(self).shard + 1
                && final(self).offset == 0,
            !ok && old(self).offset + 1 < old(self).nodes ==> final(self).shard == old(self).shard
                && final(self).offset == old(self).offset + 1,
    {
        if ok {
            self.written = self.written + 1;
            self.shard = self.shard + 1;
            self.offset = 0;
        } else if self.offset < self.nodes - 1 {
            self.offset = self.offset + 1;
        } else {
            self.shard = self.shard + 1;
            self.offset = 0;
        }
    }

    /// The result of the put.
    ///
    /// # Errors
    /// - [`ClientError::Encoding`] if fewer than `k + 1` blocks were stored.
    pub fn finish(self) -> (res: Result<ObjectMetadata>)
        requires
            self.well_formed(),
            self@.done(),
        ensures
            match res {
                Ok(object) => self@.has_quorum() && object@ == self@.object,
                Err(e) => !self@.has_quorum() && (e matches ClientError::Encoding(msg) && msg@
                    == self@.shortfall()),
            },
            match res {
                Ok(object) => self.written >= self.k + 1 && object == self.object,
                Err(e) => self.written <= self.k && (e matches ClientError::Encoding(msg) && msg@
                    == "put: only "@ + text::decimal(self.written as nat) + "/"@ + text::decimal(
                    self.blocks@.len(),
                ) + " shards written"@),
            },
    {
        if self.written < self.k + 1 {
            let mut msg = "put: only ".to_owned();
            push_decimal(&mut msg, self.written as u64);
            msg.append("/");
            push_decimal(&mut msg, self.blocks.len() as u64);
            msg.append(" shards written");
            assert(msg@ =~= self@.shortfall());
            return Err(ClientError::Encoding(msg));
        }
        Ok(self.object)
    }
}

/// How far a get has come.
#[verifier::ext_equal]
pub struct GetView {
    /// How many nodes there are.
    pub nodes: nat,
    /// How many shards are needed.
    pub k: nat,
    /// How many parity shards there are beyond them.
    pub m: nat,
    /// The object that is fetched.
    pub object_id: Seq<char>,
    /// The shard that is being fetched.
    pub shard: nat,
    /// How many nodes have failed to give it.
    pub offset: nat,
    /// The shards that have been fetched.
    pub slots: codec::Slots,
    /// How many have been fetched.
    pub got: nat,
}

impl GetView {
    /// The start of a get.
    pub open spec fn starting(nodes: nat, k: nat, m: nat, object_id: Seq<char>) -> GetView {
        GetView {
            nodes,
            k,
            m,
            object_id,
            shard: 0,
            offset: 0,
            slots: Seq::new(k + m, |i: int| None),
            got: 0,
        }
    }

    /// Whether enough shards have been fetched, or all have been tried.
    pub open spec fn done(self) -> bool {
        self.got >= self.k || self.shard >= self.k + self.m
    }

    /// The node that the next request goes to.
    pub open spec fn node(self) -> nat {
        rotation(self.shard, self.offset, self.nodes)
    }

    /// The block that the next request is for.
    pub open spec fn block_id(self) -> Seq<char> {
        block::block_id_text(self.object_id, self.shard, RING_VERSION as nat)
    }

    /// What a reply does: a shard that came is kept, and the next one is its turn;
    /// one that did not is asked of the next node, until all have failed.
    pub open spec fn after(self, reply: Option<Seq<u8>>) -> GetView {
        if reply is Some {
            GetView {
                shard: self.shard + 1,
                offset: 0,
                slots: self.slots.update(self.shard as int, reply),
                got: self.got + 1,
                ..self
            }
        } else if self.offset + 1 < self.nodes {
            GetView { offset: self.offset + 1, ..self }
        } else {
            GetView { shard: self.shard + 1, offset: 0, ..self }
        }
    }

    /// The message when too few shards were fetched.
    pub open spec fn shortfall(self) -> Seq<char> {
        "insufficient shards for get: got "@ + text::decimal(self.got) + ", need "@ + text::decimal(
            self.k,
        )
    }

    /// Whether `k` shards have been fetched, and they are shards of `data`.
    pub open spec fn recovers(self, data: Seq<u8>) -> bool {
        &&& self.got >= self.k
        &&& erasure::holds_shards_of(self.slots, data, self.k, self.m)
    }
}

/// What the bytes of a shard in a reply are.
pub open spec fn reply_bytes(reply: Option<ProtoShard>) -> Option<Seq<u8>> {
    match reply {
        Some(s) => Some(s.data@),
        None => None,
    }
}

/// A get in progress.
#[derive(Debug)]
pub struct GetSession {
    /// How many nodes there are.
    pub nodes: usize,
    /// The erasure coding of the object.
    pub ec: ErasureConfig,
    /// The object that is fetched.
    pub object_id: String,
    /// The shard that is being fetched.
    pub shard: usize,
    /// How many nodes have failed to give it.
    pub offset: usize,
    /// The shards that have been fetched.
    pub collected: Vec<Option<Shard>>,
    /// How many have been fetched.
    pub got: usize,
}

impl View for GetSession {
    type V = GetView;

    open spec fn view(&self) -> GetView {
        GetView {
            nodes: self.nodes as nat,
            k: self.ec.k as nat,
            m: self.ec.m as nat,
            object_id: self.object_id@,
            shard: self.shard as nat,
            offset: self.offset as nat,
            slots: erasure::slots_of(self.collected@, (self.ec.k + self.ec.m) as nat),
            got: self.got as nat,
        }
    }
}

impl GetSession {
    /// A session that requests and replies have led to.
    pub open spec fn well_formed(self) -> bool {
        &&& self.ec.k + self.ec.m <= 255
        &&& self.ec.k > 0 ==> self.offset < self.nodes
        &&& self.collected@.len() == self.ec.k + self.ec.m
        &&& self.got <= self.shard <= self.collected@.len()
        &&& self.got == codec::present(self@.slots)
        &&& forall|i: int| self.shard <= i < self.collected@.len() ==> self.collected@[i] is None
    }

    /// The next request, unless the session is done.
    pub fn request(&self) -> (res: Option<BlockRequest>)
        requires
            self.well_formed(),
        ensures
            match res {
                Some(req) => {
                    &&& !self@.done()
                    &&& req.node == self@.node()
                    &&& req.node < self.nodes
                    &&& req.block_id@ == self@.block_id()
                },
                None => self@.done(),
            },
            res is Some <==> self.got < self.ec.k && self.shard < self.ec.k + self.ec.m,
            res matches Some(req) ==> {
                &&& req.node == (self.shard as int % self.nodes as int + self.offset) % self.nodes as int
                &&& req.block_id@ == block::block_id_text(self.object_id@, self.shard as nat, 1)
            },
    {
        if self.got >= self.ec.k as usize || self.shard >= self.ec.total_shards() as usize {
            return None;
        }
        let node = rotate(self.shard, self.offset, self.nodes);
        let block_id = BlockId::new(self.object_id.as_str(), self.shard as u8, RING_VERSION);
        Some(BlockRequest { node, block_id })
    }

    /// Takes the reply to the request: the shard, if the node gave one.
    pub fn reply(&mut self, reply: Option<ProtoShard>)
        requires
            old(self).well_formed(),
            !old(self)@.done(),
        ensures
            final(self).well_formed(),
            final(self)@ == old(self)@.after(reply_bytes(reply)),
            final(self).nodes == old(self).nodes,
            final(self).ec == old(self).ec,
            final(self).object_id == old(self).object_id,
            final(self).got == old(self).got + if reply is Some {
                1int
            } else {
                0
            },
            reply is Some || old(self).offset + 1 == old(self).nodes ==> final(self).shard == old(self).shard
                + 1 && final(self).offset == 0,
            reply is None && old(self).offset + 1 < old(self).nodes ==> final(self).shard
                == old(self).shard && final(self).offset == old(self).offset + 1,
            reply matches Some(s) ==> {
                let at = old(self).shard as int;
                &&& final(self).collected@[at] is Some
                &&& final(self).collected@[at].unwrap().data@ == s.data@
            },
            final(self).collected@.len() == old(self).collected@.len(),
            forall|i: int|
                0 <= i < old(self).collected@.len() && (i != old(self).shard || reply is None)
                    ==> #[trigger] final(self).collected@[i] == old(self).collected@[i],
    {
        let ghost before = *self;
        match reply {
            Some(s) => {
                let shard = Shard::from(s);
                self.collected.set(self.shard, Some(shard));
                self.got = self.got + 1;
                self.shard = self.shard + 1;
                self.offset = 0;
                proof {
                    assert(self@.slots =~= before@.slots.update(before.shard as int, Some(s.data@)));
                    lemma_present_update(before@.slots, before.shard as int, s.data@);
                }
            },
            None => {
                if self.offset < self.nodes - 1 {
                    self.offset = self.offset + 1;
                } else {
                    self.shard = self.shard + 1;
                    self.offset = 0;
                }
            },
        }
    }

    /// The result of the get.
    ///
    /// # Errors
    /// - [`ClientError::NotFound`] if fewer than `k` shards were fetched, or the
    ///   object could not be decoded from them.
    pub fn finish(self) -> (res: Result<Vec<u8>>)
        requires
            self.well_formed(),
            self@.done(),
        ensures
            match res {
                Ok(data) => {
                    &&& self@.got >= self@.k
                    &&& erasure::decode_value(self@.k, self@.m, self@.slots) == Some(data@)
                },
                Err(e) => {
                    &&& e is NotFound
                    &&& if self@.got < self@.k {
                        e->NotFound_0@ == self@.shortfall()
                    } else {
                        &&& erasure::decoding_fault(self@.k, self@.m, self@.slots) is Some
                        &&& e->NotFound_0@ == "decoding failed: "@ + erasure::decoding_fault(
                            self@.k,
                            self@.m,
                            self@.slots,
                        ).unwrap()
                    }
                },
            },
            self.ec.valid() ==> forall|data: Seq<u8>| #[trigger]
                self@.recovers(data) ==> (res matches Ok(out) && out@ == erasure::unpadded(data) && (
                erasure::no_trailing_zero(data) ==> out@ == data)),
            self.got < self.ec.k ==> (res matches Err(ClientError::NotFound(msg)) && msg@
                == "insufficient shards for get: got "@ + text::decimal(self.got as nat) + ", need "@
                + text::decimal(self.ec.k as nat)),
            self.got >= self.ec.k >= 1 ==> forall|data: Seq<u8>| #[trigger]
                erasure::made_of(self.collected@, data, self.ec.k as nat, self.ec.m as nat) && (data.len()
                    > 0 ==> data[data.len() - 1] != 0) ==> (res matches Ok(out) && out@ == data),
    {
        let k = self.ec.k as usize;
        if self.got < k {
            let mut msg = "insufficient shards for get: got ".to_owned();
            push_decimal(&mut msg, self.got as u64);
            msg.append(", need ");
            push_decimal(&mut msg, k as u64);
            assert(msg@ =~= self@.shortfall());
            return Err(ClientError::NotFound(msg));
        }
        match erasure::decode(self.collected, &self.ec) {
            Ok(data) => Ok(data),
            Err(e) => Err(ClientError::NotFound(e.to_string())),
        }
    }
}

/// Filling an empty slot counts one more.
proof fn lemma_present_update(slots: codec::Slots, i: int, data: Seq<u8>)
    requires
        0 <= i < slots.len(),
        slots[i] is None,
    ensures
        codec::present(slots.update(i, Some(data))) == codec::present(slots) + 1,
    decreases slots.len(),
{
    let after = slots.update(i, Some(data));
    if i == slots.len() - 1 {
        assert(after.drop_last() =~= slots.drop_last());
    } else {
        assert(after.drop_last() =~= slots.drop_last().update(i, Some(data)));
        lemma_present_update(slots.drop_last(), i, data);
    }
}

/// Access to an object store on a list of nodes.
#[derive(Debug)]
pub struct DfsClient {
    /// The addresses of the nodes.
    pub node_addrs: Vec<String>,
    /// The erasure coding of permanent objects.
    pub ec: ErasureConfig,
}

impl DfsClient {
    /// A client of the given nodes, with three data and two parity shards.
    pub fn new(node_addrs: Vec<String>) -> (res: Self)
        ensures
            res.node_addrs == node_addrs,
            res.ec == (ErasureConfig { k: 3, m: 2 }),
    {
        Self { node_addrs, ec: ErasureConfig { k: 3, m: 2 } }
    }

    /// A client of the given nodes, with the given erasure coding.
    pub fn with_config(node_addrs: Vec<String>, ec: ErasureConfig) -> (res: Self)
        ensures
            res.node_addrs == node_addrs,
            res.ec == ec,
    {
        Self { node_addrs, ec }
    }

    /// Starts to store an object under the ID that its contents give.
    ///
    /// # Errors
    /// - [`ClientError::Encoding`] if the object is too large for a single put, or
    ///   cannot be encoded.
    pub fn put(&self, data: &[u8]) -> (res: Result<PutSession>)
        requires
            data@.len() <= MAX_OBJECT ==> self.ec.k >= 1 || data@.len() == 0,
            data@.len() <= MAX_OBJECT && erasure::coding_fault(self.ec.k as nat, self.ec.m as nat) is None
                ==> self.node_addrs@.len() > 0,
        ensures
            match res {
                Ok(session) => {
                    &&& data@.len() <= 20 * 1024 * 1024
                    &&& session.object.checksum@ == hash::blake3_digest(data@)
                    &&& session.object.object_id@ == hash::hex_text(hash::blake3_digest(data@))
                    &&& session.object.size == data@.len()
                    &&& session.nodes == self.node_addrs@.len()
                    &&& session.k == self.ec.k
                    &&& session.shard == 0 && session.offset == 0 && session.written == 0
                    &&& session.blocks@.len() == self.ec.k + self.ec.m
                    &&& forall|i: int|
                        0 <= i < session.blocks@.len() ==> {
                            let (shard, meta) = #[trigger] session.blocks@[i];
                            &&& shard.index == i
                            &&& shard.data@ == erasure::code_shards(
                                data@,
                                self.ec.k as nat,
                                self.ec.m as nat,
                            )[i]
                            &&& meta.object_id@ == session.object.object_id@
                            &&& meta.block_id@ == block::block_id_text(
                                session.object.object_id@,
                                i as nat,
                                1,
                            )
                            &&& meta.shard_index == i
                            &&& meta.ring_version == 1
                            &&& meta.checksum@ == hash::blake3_digest(shard.data@)
                            &&& meta.size == shard.data@.len()
                        }
                    &&& data@.len() <= MAX_OBJECT
                    &&& erasure::coding_fault(self.ec.k as nat, self.ec.m as nat) is None
                    &&& session.well_formed()
                    &&& session@.blocks.len() == self.ec.k + self.ec.m
                    &&& session@ == PutView::starting(
                        self.node_addrs@.len(),
                        self.ec.k as nat,
                        self.ec.m as nat,
                        data@,
                    )
                },
                Err(e) => {
                    &&& e is Encoding
                    &&& data@.len() > 20 * 1024 * 1024 || self.ec.k == 0 || self.ec.k + self.ec.m > 256
                    &&& if data@.len() > MAX_OBJECT {
                        e->Encoding_0@ == "object too large for single put (>20MB)"@
                    } else {
                        &&& erasure::coding_fault(self.ec.k as nat, self.ec.m as nat) is Some
                        &&& e->Encoding_0@ == "encoding failed: "@ + erasure::coding_fault(
                            self.ec.k as nat,
                            self.ec.m as nat,
                        ).unwrap()
                    }
                },
            },
    {
        if data.len() > MAX_OBJECT {
            return Err(
                ClientError::Encoding("object too large for single put (>20MB)".to_owned()),
            );
        }
        let checksum = blake3_hash(data);
        let object_id = hex_encode(checksum.as_slice());
        proof {
            if self.ec.k >= 1 {
                erasure::lemma_shard_len(data@.len(), self.ec.k as nat);
            }
        }
        let shards = match erasure::encode(data, &self.ec) {
            Ok(shards) => shards,
            Err(e) => {
                return Err(ClientError::Encoding(e.to_string()));
            },
        };
        let ghost code = erasure::code_shards(data@, self.ec.k as nat, self.ec.m as nat);
        let mut blocks: Vec<(Shard, BlockMeta)> = Vec::new();
        let mut i: usize = 0;
        while i < shards.len()
            invariant
                i <= shards@.len(),
                shards@.len() == code.len() <= 510,
                erasure::numbered(shards@, code),
                blocks@.len() == i,
                forall|j: int|
                    0 <= j < i ==> ((#[trigger] blocks@[j]).0@, blocks@[j].1@) == blocks_of(
                        object_id@,
                        code,
                    )[j],
                forall|j: int|
                    0 <= j < i ==> (#[trigger] blocks@[j]).1.size == blocks@[j].0.data@.len(),
            decreases shards.len() - i,
        {
            let meta = BlockMeta::new(
                object_id.as_str(),
                i as u8,
                RING_VERSION,
                shards[i].data.as_slice(),
            );
            let shard = shards[i].clone();
            assert(shard@ =~= ShardView { index: i as u8, data: code[i as int] });
            blocks.push((shard, meta));
            i = i + 1;
        }
        let session = PutSession {
            nodes: self.node_addrs.len(),
            k: self.ec.k as usize,
            object: ObjectMetadata { object_id, checksum, size: data.len() as u64 },
            blocks,
            shard: 0,
            offset: 0,
            written: 0,
        };
        proof {
            assert(session@.blocks =~= blocks_of(object_id@, code));
            assert forall|i: int| 0 <= i < session.blocks@.len() implies {
                let (shard, meta) = #[trigger] session.blocks@[i];
                &&& shard.index == i
                &&& shard.data@ == code[i]
                &&& meta@ == BlockMetaView::describing(object_id@, i as u8, 1, shard.data@)
                &&& meta.size == shard.data@.len()
            } by {
                assert(session@.blocks[i] == blocks_of(object_id@, code)[i]);
            }
        }
        Ok(session)
    }

    /// Starts to fetch an object.
    pub fn get(&self, object_id: &str) -> (res: GetSession)
        requires
            self.ec.k > 0 ==> self.node_addrs@.len() > 0,
            self.ec.k + self.ec.m <= 255,
        ensures
            res.well_formed(),
            res.ec == self.ec,
            res.nodes == self.node_addrs@.len(),
            res.object_id@ == object_id@,
            res.shard == 0 && res.offset == 0 && res.got == 0,
            forall|i: int| 0 <= i < res.collected@.len() ==> (#[trigger] res.collected@[i]) is None,
            res@ == GetView::starting(
                self.node_addrs@.len(),
                self.ec.k as nat,
                self.ec.m as nat,
                object_id@,
            ),
    {
        let total = self.ec.total_shards() as usize;
        let mut collected: Vec<Option<Shard>> = Vec::new();
        while collected.len() < total
            invariant
                collected@.len() <= total,
                forall|i: int| 0 <= i < collected@.len() ==> collected@[i] is None,
            decreases total - collected.len(),
        {
            collected.push(None);
        }
        let session = GetSession {
            nodes: self.node_addrs.len(),
            ec: self.ec,
            object_id: object_id.to_owned(),
            shard: 0,
            offset: 0,
            collected,
            got: 0,
        };
        proof {
            assert(session@.slots =~= Seq::new(total as nat, |i: int| None));
            lemma_none_present(session@.slots);
        }
        session
    }
}

/// Empty slots count nothing.
proof fn lemma_none_present(slots: codec::Slots)
    requires
        forall|i: int| 0 <= i < slots.len() ==> (#[trigger] slots[i]) is None,
    ensures
        codec::present(slots) == 0,
    decreases slots.len(),
{
    if slots.len() > 0 {
        assert(slots.last() == slots[slots.len() - 1]);
        assert forall|i: int| 0 <= i < slots.drop_last().len() implies (#[trigger] slots.drop_last()[i]) is None by {
            assert(slots.drop_last()[i] == slots[i]);
        }
        lemma_none_present(slots.drop_last());
    }
}

/// What is known of a part of a multipart upload.
#[derive(Debug, PartialEq, Eq)]
pub struct PartMetadata {
    /// The ID under which the part is stored.
    pub part_object_id: String,
    /// Blake3 checksum of the part.
    pub checksum: [u8; 32],
    /// Size of the part in bytes.
    pub size: u64,
}

/// The ID of a part: `{upload_id}-part-{part_number:05}`.
pub open spec fn part_id_text(upload_id: Seq<char>, part_number: nat) -> Seq<char> {
    upload_id + "-part-"@ + text::decimal_padded(part_number, 5)
}

/// The block ID under which a part is stored on every node.
pub open spec fn part_block_id(part_object_id: Seq<char>) -> Seq<char> {
    block::block_id_text(part_object_id, 0, RING_VERSION as nat)
}

/// The node and the block ID of each request.
pub open spec fn request_views(requests: Seq<BlockRequest>) -> Seq<(nat, Seq<char>)> {
    requests.map_values(|r: BlockRequest| (r.node as nat, r.block_id@))
}

/// The requests that delete an object of `total` shards: each shard at every node.
pub open spec fn delete_requests(object_id: Seq<char>, nodes: nat, total: nat) -> Seq<(nat, Seq<char>)> {
    Seq::new(
        total * nodes,
        |x: int|
            (
                (x % nodes as int) as nat,
                block::block_id_text(object_id, (x / nodes as int) as nat, RING_VERSION as nat),
            ),
    )
}

/// The request for shard `i` of an object at node `j`.
pub open spec fn at_node(j: nat, object_id: Seq<char>, i: nat) -> (nat, Seq<char>) {
    (j, block::block_id_text(object_id, i, RING_VERSION as nat))
}

/// Whether a request is for some shard of the object at some node.
pub open spec fn asks_for_a_shard(
    request: (nat, Seq<char>),
    object_id: Seq<char>,
    nodes: nat,
    total: nat,
) -> bool {
    exists|i: nat, j: nat| i < total && j < nodes && request == #[trigger] at_node(j, object_id, i)
}

/// The ID of the block that holds shard `i` of an object, at whichever node `j`.
pub open spec fn block_name(object_id: Seq<char>, i: nat, j: nat) -> Seq<char> {
    block::block_id_text(object_id, i, 1)
}

/// Shard `i` is deleted at node `j` by the request at `i * nodes + j`.
proof fn lemma_request_at(i: nat, j: nat, nodes: nat, total: nat)
    requires
        i < total,
        j < nodes,
    ensures
        i * nodes + j < total * nodes,
        (i * nodes + j) as int / nodes as int == i,
        (i * nodes + j) as int % nodes as int == j,
{
    assert(i * nodes + j < total * nodes) by (nonlinear_arith)
        requires
            i < total,
            j < nodes,
    ;
    vstd::arithmetic::div_mod::lemma_fundamental_div_mod_converse(
        (i * nodes + j) as int,
        nodes as int,
        i as int,
        j as int,
    );
}

impl DfsClient {
    /// The address of a node.
    pub fn addr(&self, node: usize) -> (res: &str)
        requires
            node < self.node_addrs@.len(),
        ensures
            res@ == self.node_addrs@[node as int]@,
    {
        self.node_addrs[node].as_str()
    }

    /// The requests that delete an object: each shard at every node, for a put may
    /// have turned to any of them.
    pub fn delete(&self, object_id: &str) -> (res: Vec<BlockRequest>)
        requires
            self.ec.k + self.ec.m > 0 ==> self.node_addrs@.len() > 0,
            self.ec.k + self.ec.m <= 255,
        ensures
            request_views(res@) == delete_requests(
                object_id@,
                self.node_addrs@.len(),
                (self.ec.k + self.ec.m) as nat,
            ),
            forall|i: nat, j: nat|
                i < self.ec.k + self.ec.m && j < self.node_addrs@.len() ==> request_views(res@).contains(
                    (j, #[trigger] block_name(object_id@, i, j)),
                ),
    {
        let total = self.ec.total_shards();
        let nodes = self.node_addrs.len();
        let ghost n = nodes as int;
        let ghost wanted = delete_requests(object_id@, nodes as nat, total as nat);
        let mut res: Vec<BlockRequest> = Vec::new();
        let mut i: u8 = 0;
        assert(0 * n == 0) by (nonlinear_arith);
        while i < total
            invariant
                i <= total,
                n == nodes,
                wanted == delete_requests(object_id@, nodes as nat, total as nat),
                res@.len() == i * n,
                forall|x: int| 0 <= x < res@.len() ==> (#[trigger] request_views(res@)[x]) == wanted[x],
            decreases total - i,
        {
            let mut j: usize = 0;
            while j < nodes
                invariant
                    i < total,
                    j <= nodes,
                    n == nodes,
                    wanted == delete_requests(object_id@, nodes as nat, total as nat),
                    res@.len() == i * n + j,
                    forall|x: int|
                        0 <= x < res@.len() ==> (#[trigger] request_views(res@)[x]) == wanted[x],
                decreases nodes - j,
            {
                let ghost before = res@;
                let block_id = BlockId::new(object_id, i, RING_VERSION);
                res.push(BlockRequest { node: j, block_id });
                proof {
                    let x = i * n + j;
                    lemma_request_at(i as nat, j as nat, nodes as nat, total as nat);
                    assert forall|y: int| 0 <= y < res@.len() implies (#[trigger] request_views(res@)[y])
                        == wanted[y] by {
                        if y < x {
                            assert(request_views(before)[y] == wanted[y]);
                        }
                    }
                }
                j = j + 1;
            }
            assert((i + 1) * n == i * n + n) by (nonlinear_arith);
            i = i + 1;
        }
        assert(request_views(res@) =~= wanted);
        proof {
            if nodes > 0 {
                law_delete_reaches_every_shard_everywhere(object_id@, nodes as nat, total as nat);
            }
            assert forall|i: nat, j: nat| i < total && j < nodes implies request_views(res@).contains(
                (j, #[trigger] block_name(object_id@, i, j)),
            ) by {
                assert(at_node(j, object_id@, i) == (j, block_name(object_id@, i, j)));
                assert(wanted.contains(at_node(j, object_id@, i)));
            }
        }
        res
    }

    /// What a delete gives in the end, given what came of each of its requests, in
    /// order: success if all of them succeeded, and else the first failure.
    pub fn delete_outcome<E>(replies: Vec<std::result::Result<(), E>>) -> (res: std::result::Result<
        (),
        E,
    >)
        ensures
            match res {
                Ok(_) => forall|i: int| 0 <= i < replies@.len() ==> #[trigger] replies@[i] is Ok,
                Err(e) => exists|i: int|
                    {
                        &&& 0 <= i < replies@.len()
                        &&& #[trigger] replies@[i] == Err::<(), E>(e)
                        &&& forall|j: int| 0 <= j < i ==> #[trigger] replies@[j] is Ok
                    },
            },
    {
        let ghost given = replies@;
        for reply in iter: replies
            invariant
                iter.seq() == given,
                forall|j: int| 0 <= j < iter.index() ==> #[trigger] given[j] is Ok,
        {
            let ghost i = iter.index();
            assert(reply == given[i]);
            match reply {
                Ok(_) => {},
                Err(e) => {
                    return Err(e);
                },
            }
        }
        Ok(())
    }

    /// The request for the metadata of an object: that of its first shard, at the
    /// first node.
    pub fn stat(&self, object_id: &str) -> (res: BlockRequest)
        requires
            self.node_addrs@.len() > 0,
        ensures
            res.node == 0,
            res.block_id@ == block::block_id_text(object_id@, 0, RING_VERSION as nat),
            res.block_id@ == block::block_id_text(object_id@, 0, 1),
    {
        BlockRequest { node: 0, block_id: BlockId::new(object_id, 0, RING_VERSION) }
    }

    /// What the reply to a stat request says: the checksum and the size are those
    /// of the shard.
    ///
    /// # Errors
    /// - [`ClientError::Grpc`] if the reply holds no metadata.
    pub fn stat_reply(meta: Option<ProtoBlockMeta>) -> (res: Result<ObjectMetadata>)
        ensures
            match meta {
                Some(m) => res matches Ok(object) && object@ == (ObjectMetadataView {
                    object_id: m@.object_id,
                    checksum: rpc::meta_from_proto(m@).checksum,
                    size: m@.size,
                }),
                None => res matches Err(ClientError::Grpc(RpcError::Internal(msg))) && msg@
                    == "empty meta in response"@,
            },
            meta matches Some(m) ==> (res matches Ok(object) && object.object_id@ == m.object_id@
                && object.size == m.size && object.checksum@ == if m.checksum@.len() == 32 {
                m.checksum@
            } else {
                Seq::new(32, |i: int| 0u8)
            }),
    {
        match meta {
            Some(m) => {
                let meta = BlockMeta::from(m);
                Ok(
                    ObjectMetadata {
                        object_id: meta.object_id,
                        checksum: meta.checksum,
                        size: meta.size,
                    },
                )
            },
            None => Err(
                ClientError::Grpc(RpcError::Internal("empty meta in response".to_owned())),
            ),
        }
    }

    /// The requests that store a part of a multipart upload: a full replica on
    /// every node. The part is stored if each of them succeeds.
    pub fn put_part(&self, upload_id: &str, part_number: u32, data: &[u8]) -> (res: (
        PartMetadata,
        Vec<PutRequest>,
    ))
        ensures
            res.0.part_object_id@ == part_id_text(upload_id@, part_number as nat),
            res.0.checksum@ == hash::blake3_digest(data@),
            res.0.size == data@.len(),
            res.1@.len() == self.node_addrs@.len(),
            forall|i: int|
                0 <= i < res.1@.len() ==> {
                    &&& (#[trigger] res.1@[i]).node == i
                    &&& res.1@[i].shard@ == rpc::shard_to_proto((ShardView { index: 0, data: data@ }))
                    &&& res.1@[i].meta@ == rpc::meta_to_proto(
                        BlockMetaView::describing(res.0.part_object_id@, 0, RING_VERSION, data@),
                    )
                },
            forall|i: int|
                0 <= i < res.1@.len() ==> {
                    let req = #[trigger] res.1@[i];
                    &&& req.shard.index == 0
                    &&& req.shard.data@ == data@
                    &&& req.meta.block_id@ == block::block_id_text(res.0.part_object_id@, 0, 1)
                    &&& req.meta.object_id@ == res.0.part_object_id@
                    &&& req.meta.shard_index == 0
                    &&& req.meta.ring_version == 1
                    &&& req.meta.checksum@ == hash::blake3_digest(data@)
                    &&& req.meta.size == data@.len()
                },
    {
        let mut part_object_id = upload_id.to_owned();
        part_object_id.append("-part-");
        push_decimal5(&mut part_object_id, part_number as u64);
        let checksum = blake3_hash(data);
        let shard = Shard { index: 0, data: vstd::slice::slice_to_vec(data) };
        let meta = BlockMeta::new(part_object_id.as_str(), 0, RING_VERSION, data);
        let nodes = self.node_addrs.len();
        let mut requests: Vec<PutRequest> = Vec::new();
        let mut i: usize = 0;
        while i < nodes
            invariant
                i <= nodes == self.node_addrs@.len(),
                requests@.len() == i,
                shard@ == (ShardView { index: 0, data: data@ }),
                meta@ == BlockMetaView::describing(part_object_id@, 0, RING_VERSION, data@),
                forall|j: int|
                    0 <= j < i ==> {
                        &&& (#[trigger] requests@[j]).node == j
                        &&& requests@[j].shard@ == rpc::shard_to_proto(shard@)
                        &&& requests@[j].meta@ == rpc::meta_to_proto(meta@)
                    },
            decreases nodes - i,
        {
            let shard_msg = ProtoShard::from(shard.clone());
            let meta_msg = ProtoBlockMeta::from(meta.clone());
            requests.push(PutRequest { node: i, shard: shard_msg, meta: meta_msg });
            i = i + 1;
        }
        let size = data.len() as u64;
        (PartMetadata { part_object_id, checksum, size }, requests)
    }

    /// The same request to every node, in order.
    fn ask_all(&self, part_object_id: &str) -> (res: Vec<BlockRequest>)
        ensures
            res@.len() == self.node_addrs@.len(),
            forall|i: int|
                0 <= i < res@.len() ==> (#[trigger] res@[i]).node == i && res@[i].block_id@
                    == part_block_id(part_object_id@),
    {
        let nodes = self.node_addrs.len();
        let mut res: Vec<BlockRequest> = Vec::new();
        let mut i: usize = 0;
        while i < nodes
            invariant
                i <= nodes == self.node_addrs@.len(),
                res@.len() == i,
                forall|j: int|
                    0 <= j < i ==> (#[trigger] res@[j]).node == j && res@[j].block_id@ == part_block_id(
                        part_object_id@,
                    ),
            decreases nodes - i,
        {
            let block_id = BlockId::new(part_object_id, 0, RING_VERSION);
            res.push(BlockRequest { node: i, block_id });
            i = i + 1;
        }
        res
    }

    /// Starts to fetch a part: the nodes are asked in order, until one responds.
    pub fn get_part(&self, part_object_id: &str) -> (res: PartSession)
        ensures
            res.part_object_id@ == part_object_id@,
            res.requests@.len() == self.node_addrs@.len(),
            forall|i: int|
                0 <= i < res.requests@.len() ==> (#[trigger] res.requests@[i]).node == i
                    && res.requests@[i].block_id@ == part_block_id(part_object_id@),
            res@ == (PartView { nodes: self.node_addrs@.len(), asked: 0, data: None }),
            res.well_formed(),
    {
        PartSession {
            part_object_id: part_object_id.to_owned(),
            requests: self.ask_all(part_object_id),
            asked: 0,
            data: None,
        }
    }

    /// The requests that delete a part from all nodes.
    pub fn delete_part(&self, part_object_id: &str) -> (res: Vec<BlockRequest>)
        ensures
            res@.len() == self.node_addrs@.len(),
            forall|i: int|
                0 <= i < res@.len() ==> (#[trigger] res@[i]).node == i && res@[i].block_id@
                    == part_block_id(part_object_id@),
    {
        self.ask_all(part_object_id)
    }
}

/// How far the fetch of a part has come.
#[verifier::ext_equal]
pub struct PartView {
    /// How many nodes there are.
    pub nodes: nat,
    /// How many have been asked.
    pub asked: nat,
    /// What the first that responded gave.
    pub data: Option<Seq<u8>>,
}

impl PartView {
    /// Whether a node has responded, or all have been asked.
    pub open spec fn done(self) -> bool {
        self.data is Some || self.asked >= self.nodes
    }

    /// What a reply does.
    pub open spec fn after(self, reply: Option<Seq<u8>>) -> PartView {
        PartView { asked: self.asked + 1, data: reply, ..self }
    }
}

/// The fetch of a part in progress.
#[derive(Debug)]
pub struct PartSession {
    /// The part that is fetched.
    pub part_object_id: String,
    /// The request to each node.
    pub requests: Vec<BlockRequest>,
    /// How many nodes have been asked.
    pub asked: usize,
    /// What the first that responded gave.
    pub data: Option<Vec<u8>>,
}

impl View for PartSession {
    type V = PartView;

    open spec fn view(&self) -> PartView {
        PartView {
            nodes: self.requests@.len(),
            asked: self.asked as nat,
            data: match self.data {
                Some(d) => Some(d@),
                None => None,
            },
        }
    }
}

impl PartSession {
    /// A session that requests and replies have led to.
    pub open spec fn well_formed(self) -> bool {
        self.asked <= self.requests@.len()
    }

    /// The next request, unless the session is done.
    pub fn request(&self) -> (res: Option<&BlockRequest>)
        requires
            self.well_formed(),
        ensures
            match res {
                Some(req) => !self@.done() && *req == self.requests@[self.asked as int],
                None => self@.done(),
            },
            res is Some <==> self.data is None && self.asked < self.requests@.len(),
    {
        if self.data.is_some() || self.asked >= self.requests.len() {
            return None;
        }
        Some(&self.requests[self.asked])
    }

    /// Takes the reply to the request: the shard, if the node gave one.
    pub fn reply(&mut self, reply: Option<ProtoShard>)
        requires
            old(self).well_formed(),
            !old(self)@.done(),
        ensures
            final(self).well_formed(),
            final(self).part_object_id == old(self).part_object_id,
            final(self).requests == old(self).requests,
            final(self)@ == old(self)@.after(reply_bytes(reply)),
            final(self).asked == old(self).asked + 1,
            match reply {
                Some(s) => final(self).data is Some && final(self).data.unwrap()@ == s.data@,
                None => final(self).data is None,
            },
    {
        let total: usize = self.requests.len();
        assert(self.asked < total);
        self.asked = self.asked + 1;
        self.data = match reply {
            Some(s) => Some(s.data),
            None => None,
        };
    }

    /// The result of the fetch.
    ///
    /// # Errors
    /// - [`ClientError::NotFound`] if no node responded.
    pub fn finish(self) -> (res: Result<Vec<u8>>)
        requires
            self@.done(),
        ensures
            match res {
                Ok(data) => self@.data == Some(data@),
                Err(e) => self@.data is None && (e matches ClientError::NotFound(msg) && msg@
                    == self.part_object_id@),
            },
            match self.data {
                Some(data) => res == Ok::<Vec<u8>, ClientError>(data),
                None => res is Err,
            },
    {
        match self.data {
            Some(data) => Ok(data),
            None => Err(ClientError::NotFound(self.part_object_id)),
        }
    }
}

/// Whether some node acknowledges block `i`.
pub open spec fn stored_somewhere(acks: spec_fn(nat, nat) -> bool, nodes: nat) -> spec_fn(nat) -> bool {
    |i: nat| exists|j: nat| j < nodes && #[trigger] acks(i, j)
}

/// Whether some node gives shard `i`.
pub open spec fn available_somewhere(
    fetch: spec_fn(nat, nat) -> Option<Seq<u8>>,
    nodes: nat,
) -> spec_fn(nat) -> bool {
    |i: nat| exists|j: nat| j < nodes && (#[trigger] fetch(i, j)) is Some
}

/// How many numbers from `lo` up to `hi` pass.
pub open spec fn tally(p: spec_fn(nat) -> bool, lo: nat, hi: nat) -> nat
    decreases hi - lo,
{
    if lo >= hi {
        0
    } else {
        tally(p, lo + 1, hi) + if p(lo) {
            1nat
        } else {
            0nat
        }
    }
}

/// A put carried to its end, where `acks` says which node acknowledges which
/// block.
pub open spec fn put_run(v: PutView, acks: spec_fn(nat, nat) -> bool) -> PutView
    decreases v.blocks.len() - v.shard, v.nodes - v.offset,
{
    if v.done() {
        v
    } else {
        put_run(v.after(acks(v.shard, v.node())), acks)
    }
}

/// A get carried to its end, where `fetch` says which node gives which shard.
pub open spec fn get_run(v: GetView, fetch: spec_fn(nat, nat) -> Option<Seq<u8>>) -> GetView
    decreases v.k + v.m - v.shard, v.nodes - v.offset,
{
    if v.done() {
        v
    } else {
        get_run(v.after(fetch(v.shard, v.node())), fetch)
    }
}

/// Going round from any start meets every node.
pub(crate) proof fn lemma_rotation_covers(i: nat, j: nat, nodes: nat) -> (offset: nat)
    requires
        j < nodes,
    ensures
        offset < nodes,
        rotation(i, offset, nodes) == j,
{
    let p = i % nodes;
    if j >= p {
        vstd::arithmetic::div_mod::lemma_small_mod(j, nodes);
        (j - p) as nat
    } else {
        let offset = (j + nodes - p) as nat;
        vstd::arithmetic::div_mod::lemma_mod_add_multiples_vanish(j as int, nodes as int);
        vstd::arithmetic::div_mod::lemma_small_mod(j, nodes);
        assert(p + offset == nodes + j);
        offset
    }
}

proof fn lemma_rotation_in_range(i: nat, offset: nat, nodes: nat)
    requires
        nodes > 0,
    ensures
        rotation(i, offset, nodes) < nodes,
{
}

proof fn lemma_put_run(v: PutView, acks: spec_fn(nat, nat) -> bool)
    requires
        v.offset < v.nodes,
        v.shard <= v.blocks.len(),
        forall|o: nat| o < v.offset ==> !#[trigger] acks(v.shard, rotation(v.shard, o, v.nodes)),
    ensures
        ({
            let end = put_run(v, acks);
            &&& end.done()
            &&& end.k == v.k
            &&& end.object == v.object
            &&& end.blocks == v.blocks
            &&& end.written == v.written + tally(
                stored_somewhere(acks, v.nodes),
                v.shard,
                v.blocks.len(),
            )
        }),
    decreases v.blocks.len() - v.shard, v.nodes - v.offset,
{
    let stored = stored_somewhere(acks, v.nodes);
    if !v.done() {
        let ok = acks(v.shard, v.node());
        lemma_rotation_in_range(v.shard, v.offset, v.nodes);
        if ok {
            assert(stored(v.shard));
        } else if v.offset + 1 >= v.nodes {
            assert(!stored(v.shard)) by {
                if stored(v.shard) {
                    let j = choose|j: nat| j < v.nodes && #[trigger] acks(v.shard, j);
                    let o = lemma_rotation_covers(v.shard, j, v.nodes);
                    assert(acks(v.shard, rotation(v.shard, o, v.nodes)));
                }
            }
        }
        lemma_put_run(v.after(ok), acks);
    }
}

proof fn lemma_get_run(v: GetView, fetch: spec_fn(nat, nat) -> Option<Seq<u8>>)
    requires
        v.offset < v.nodes,
        v.shard <= v.k + v.m,
        v.slots.len() == v.k + v.m,
        v.got <= v.k,
        forall|o: nat| o < v.offset ==> (#[trigger] fetch(v.shard, rotation(v.shard, o, v.nodes))) is None,
    ensures
        ({
            let end = get_run(v, fetch);
            let found = v.got + tally(available_somewhere(fetch, v.nodes), v.shard, v.k + v.m);
            &&& end.done()
            &&& end.k == v.k && end.m == v.m && end.object_id == v.object_id
            &&& end.slots.len() == v.slots.len()
            &&& end.got == if found < v.k {
                found
            } else {
                v.k
            }
            &&& forall|i: int|
                0 <= i < v.slots.len() && (#[trigger] end.slots[i]) is Some ==> end.slots[i] == v.slots[i]
                    || exists|j: nat| j < v.nodes && #[trigger] fetch(i as nat, j) == end.slots[i]
        }),
    decreases v.k + v.m - v.shard, v.nodes - v.offset,
{
    let available = available_somewhere(fetch, v.nodes);
    if !v.done() {
        let reply = fetch(v.shard, v.node());
        lemma_rotation_in_range(v.shard, v.offset, v.nodes);
        if reply is Some {
            assert(available(v.shard));
        } else if v.offset + 1 >= v.nodes {
            assert(!available(v.shard)) by {
                if available(v.shard) {
                    let j = choose|j: nat| j < v.nodes && (#[trigger] fetch(v.shard, j)) is Some;
                    let o = lemma_rotation_covers(v.shard, j, v.nodes);
                    assert(fetch(v.shard, rotation(v.shard, o, v.nodes)) is Some);
                }
            }
        }
        let next = v.after(reply);
        lemma_get_run(next, fetch);
        let end = get_run(v, fetch);
        assert forall|i: int|
            0 <= i < v.slots.len() && (#[trigger] end.slots[i]) is Some implies end.slots[i] == v.slots[i]
            || exists|j: nat| j < v.nodes && #[trigger] fetch(i as nat, j) == end.slots[i] by {
            if reply is Some && i == v.shard && end.slots[i] == next.slots[i] {
                assert(fetch(i as nat, v.node()) == end.slots[i]);
            }
        }
    } else if v.got < v.k {
        assert(tally(available, v.shard, v.k + v.m) == 0);
    }
}

pub(crate) proof fn lemma_tally_monotone(p: spec_fn(nat) -> bool, q: spec_fn(nat) -> bool, lo: nat, hi: nat)
    requires
        forall|i: nat| lo <= i < hi && #[trigger] p(i) ==> q(i),
    ensures
        tally(p, lo, hi) <= tally(q, lo, hi),
    decreases hi - lo,
{
    if lo < hi {
        lemma_tally_monotone(p, q, lo + 1, hi);
    }
}

pub(crate) proof fn lemma_tally_split(p: spec_fn(nat) -> bool, lo: nat, hi: nat)
    requires
        lo <= hi,
    ensures
        tally(p, lo, hi) + tally(|i: nat| !p(i), lo, hi) == hi - lo,
    decreases hi - lo,
{
    if lo < hi {
        lemma_tally_split(p, lo + 1, hi);
    }
}

/// A put succeeds exactly when at least `k + 1` of the blocks find a node that
/// stores them: each block is offered to every node before it is given up, and
/// is stored once.
pub proof fn law_put_counts_stored_blocks(
    nodes: nat,
    k: nat,
    m: nat,
    data: Seq<u8>,
    acks: spec_fn(nat, nat) -> bool,
)
    requires
        nodes > 0,
    ensures
        ({
            let start = PutView::starting(nodes, k, m, data);
            let end = put_run(start, acks);
            let stored = tally(stored_somewhere(acks, nodes), 0, start.blocks.len());
            &&& end.done()
            &&& end.written == stored
            &&& end.has_quorum() <==> stored >= k + 1
            &&& end.object == ObjectMetadataView::describing(data)
        }),
{
    lemma_put_run(PutView::starting(nodes, k, m, data), acks);
}

/// A get recovers an object from any `k` of its shards: if no node gives a wrong
/// shard, and at least `k` shards can be had from some node, then what was
/// fetched recovers the object.
pub proof fn law_get_recovers_from_any_k_shards(
    nodes: nat,
    k: nat,
    m: nat,
    data: Seq<u8>,
    object_id: Seq<char>,
    fetch: spec_fn(nat, nat) -> Option<Seq<u8>>,
)
    requires
        nodes > 0,
        forall|i: nat, j: nat|
            i < k + m && (#[trigger] fetch(i, j)) is Some ==> fetch(i, j) == Some(
                erasure::code_shards(data, k, m)[i as int],
            ),
        tally(available_somewhere(fetch, nodes), 0, k + m) >= k,
    ensures
        get_run(GetView::starting(nodes, k, m, object_id), fetch).done(),
        get_run(GetView::starting(nodes, k, m, object_id), fetch).recovers(data),
{
    let start = GetView::starting(nodes, k, m, object_id);
    lemma_get_run(start, fetch);
    let end = get_run(start, fetch);
    assert forall|i: int| 0 <= i < k + m && (#[trigger] end.slots[i]) is Some implies end.slots[i] == Some(
        erasure::code_shards(data, k, m)[i],
    ) by {
        let j = choose|j: nat| j < nodes && #[trigger] fetch(i as nat, j) == end.slots[i];
        assert(fetch(i as nat, j) is Some);
    }
}

/// What was put is got back: if a put reached its quorum, every block that a node
/// acknowledged can be had from some node, and no node gives a wrong shard, then
/// a get recovers the object.
pub proof fn law_get_recovers_what_put_stored(
    nodes: nat,
    k: nat,
    m: nat,
    data: Seq<u8>,
    acks: spec_fn(nat, nat) -> bool,
    fetch: spec_fn(nat, nat) -> Option<Seq<u8>>,
)
    requires
        nodes > 0,
        PutView::starting(nodes, k, m, data).blocks.len() == k + m,
        put_run(PutView::starting(nodes, k, m, data), acks).has_quorum(),
        forall|i: nat|
            i < k + m && #[trigger] stored_somewhere(acks, nodes)(i) ==> available_somewhere(
                fetch,
                nodes,
            )(i),
        forall|i: nat, j: nat|
            i < k + m && (#[trigger] fetch(i, j)) is Some ==> fetch(i, j) == Some(
                erasure::code_shards(data, k, m)[i as int],
            ),
    ensures
        get_run(
            GetView::starting(nodes, k, m, ObjectMetadataView::describing(data).object_id),
            fetch,
        ).recovers(data),
{
    law_put_counts_stored_blocks(nodes, k, m, data, acks);
    lemma_tally_monotone(
        stored_somewhere(acks, nodes),
        available_somewhere(fetch, nodes),
        0,
        k + m,
    );
    law_get_recovers_from_any_k_shards(
        nodes,
        k,
        m,
        data,
        ObjectMetadataView::describing(data).object_id,
        fetch,
    );
}

/// An object survives the loss of any `m` of its shards.
pub proof fn law_get_survives_m_losses(
    nodes: nat,
    k: nat,
    m: nat,
    data: Seq<u8>,
    object_id: Seq<char>,
    fetch: spec_fn(nat, nat) -> Option<Seq<u8>>,
)
    requires
        nodes > 0,
        forall|i: nat, j: nat|
            i < k + m && (#[trigger] fetch(i, j)) is Some ==> fetch(i, j) == Some(
                erasure::code_shards(data, k, m)[i as int],
            ),
        tally(|i: nat| !available_somewhere(fetch, nodes)(i), 0, k + m) <= m,
    ensures
        get_run(GetView::starting(nodes, k, m, object_id), fetch).recovers(data),
{
    lemma_tally_split(available_somewhere(fetch, nodes), 0, k + m);
    law_get_recovers_from_any_k_shards(nodes, k, m, data, object_id, fetch);
}

/// An object of which fewer than `k` shards can be had is not found: the get ends
/// with as many shards as there are.
pub proof fn law_get_needs_k_shards(
    nodes: nat,
    k: nat,
    m: nat,
    object_id: Seq<char>,
    fetch: spec_fn(nat, nat) -> Option<Seq<u8>>,
)
    requires
        nodes > 0,
        tally(available_somewhere(fetch, nodes), 0, k + m) < k,
    ensures
        ({
            let end = get_run(GetView::starting(nodes, k, m, object_id), fetch);
            &&& end.done()
            &&& end.got == tally(available_somewhere(fetch, nodes), 0, k + m)
            &&& end.got < end.k
        }),
{
    lemma_get_run(GetView::starting(nodes, k, m, object_id), fetch);
}

/// A delete asks for every shard at every node, so also where a put ended up that
/// found the first node down. It asks for nothing but shards of the object.
pub proof fn law_delete_reaches_every_shard_everywhere(object_id: Seq<char>, nodes: nat, total: nat)
    requires
        nodes > 0,
    ensures
        forall|i: nat, j: nat|
            i < total && j < nodes ==> delete_requests(object_id, nodes, total).contains(
                #[trigger] at_node(j, object_id, i),
            ),
        forall|x: int|
            0 <= x < delete_requests(object_id, nodes, total).len() ==> asks_for_a_shard(
                #[trigger] delete_requests(object_id, nodes, total)[x],
                object_id,
                nodes,
                total,
            ),
{
    let requests = delete_requests(object_id, nodes, total);
    assert forall|i: nat, j: nat| i < total && j < nodes implies requests.contains(
        #[trigger] at_node(j, object_id, i),
    ) by {
        lemma_request_at(i, j, nodes, total);
        assert(requests[(i * nodes + j) as int] == at_node(j, object_id, i));
    }
    assert forall|x: int| 0 <= x < requests.len() implies asks_for_a_shard(
        #[trigger] requests[x],
        object_id,
        nodes,
        total,
    ) by {
        let i = x / nodes as int;
        let j = x % nodes as int;
        vstd::arithmetic::div_mod::lemma_fundamental_div_mod(x, nodes as int);
        assert(0 <= i < total) by (nonlinear_arith)
            requires
                x == nodes * i + j,
                0 <= j < nodes,
                0 <= x < total * nodes,
        ;
        assert(requests[x] == at_node(j as nat, object_id, i as nat));
    }
}

/// Two parts of an upload with different numbers have different IDs.
pub proof fn law_part_ids_differ(upload_id: Seq<char>, a: nat, b: nat)
    requires
        a != b,
    ensures
        part_id_text(upload_id, a) != part_id_text(upload_id, b),
{
    let prefix = upload_id + "-part-"@;
    text::lemma_decimal_padded_value(a, 5);
    text::lemma_decimal_padded_value(b, 5);
    assert(part_id_text(upload_id, a).skip(prefix.len() as int) =~= text::decimal_padded(a, 5));
    assert(part_id_text(upload_id, b).skip(prefix.len() as int) =~= text::decimal_padded(b, 5));
}

/// The fetch of a part carried to its end, where `fetch` says what each node
/// gives.
pub open spec fn part_run(v: PartView, fetch: spec_fn(nat) -> Option<Seq<u8>>) -> PartView
    decreases v.nodes - v.asked,
{
    if v.done() {
        v
    } else {
        part_run(v.after(fetch(v.asked)), fetch)
    }
}

/// A part that every node stored is got back as long as one of them responds.
pub proof fn law_part_is_got_from_any_node(
    nodes: nat,
    data: Seq<u8>,
    fetch: spec_fn(nat) -> Option<Seq<u8>>,
    alive: nat,
)
    requires
        alive < nodes,
        fetch(alive) is Some,
        forall|j: nat| (#[trigger] fetch(j)) is Some ==> fetch(j) == Some(data),
    ensures
        part_run((PartView { nodes, asked: 0, data: None }), fetch).data == Some(data),
{
    lemma_part_run(PartView { nodes, asked: 0, data: None }, data, fetch, alive);
}

proof fn lemma_part_run(
    v: PartView,
    data: Seq<u8>,
    fetch: spec_fn(nat) -> Option<Seq<u8>>,
    alive: nat,
)
    requires
        v.data is None,
        v.asked <= alive < v.nodes,
        fetch(alive) is Some,
        forall|j: nat| (#[trigger] fetch(j)) is Some ==> fetch(j) == Some(data),
    ensures
        part_run(v, fetch).data == Some(data),
    decreases v.nodes - v.asked,
{
    let next = v.after(fetch(v.asked));
    if fetch(v.asked) is None {
        assert(v.asked != alive);
        lemma_part_run(next, data, fetch, alive);
    } else {
        assert(part_run(next, fetch) == next);
    }
}

/// An object is named by its contents: its checksum is the digest of all of them, its
/// ID the hexadecimal text of that, and its size their length. Two objects share an
/// ID only if the digests of all of their contents are equal.
pub proof fn law_object_is_named_by_its_digest(a: Seq<u8>, b: Seq<u8>)
    requires
        a.len() <= u64::MAX,
    ensures
        ObjectMetadataView::describing(a).checksum == hash::blake3_digest(a),
        ObjectMetadataView::describing(a).object_id == hash::hex_text(hash::blake3_digest(a)),
        ObjectMetadataView::describing(a).size == a.len(),
        ObjectMetadataView::describing(a).object_id == ObjectMetadataView::describing(b).object_id
            <==> hash::blake3_digest(a) == hash::blake3_digest(b),
{
    if ObjectMetadataView::describing(a).object_id == ObjectMetadataView::describing(b).object_id {
        hash::law_hex_text_is_unique(hash::blake3_digest(a), hash::blake3_digest(b));
    }
}

/// A finished put returns the digest, the ID and the size of the whole payload,
/// whichever nodes stored its blocks.
pub proof fn law_put_returns_the_digest(
    nodes: nat,
    k: nat,
    m: nat,
    data: Seq<u8>,
    acks: spec_fn(nat, nat) -> bool,
)
    requires
        nodes > 0,
        data.len() <= u64::MAX,
    ensures
        ({
            let object = put_run(PutView::starting(nodes, k, m, data), acks).object;
            &&& object.checksum == hash::blake3_digest(data)
            &&& object.object_id == hash::hex_text(hash::blake3_digest(data))
            &&& object.size == data.len()
        }),
{
    law_put_counts_stored_blocks(nodes, k, m, data, acks);
    law_object_is_named_by_its_digest(data, data);
}

/// Each block of a put holds one shard of the payload, numbered in order, with the
/// digest and the length of that shard, under the ID that its object, its number and
/// the first ring version give. So blocks of objects with different digests never
/// replace each other.
pub proof fn law_put_stores_the_shards(nodes: nat, k: nat, m: nat, data: Seq<u8>, i: int)
    requires
        0 <= i < erasure::code_shards(data, k, m).len() <= 256,
        erasure::code_shards(data, k, m)[i].len() <= u64::MAX,
    ensures
        ({
            let blocks = PutView::starting(nodes, k, m, data).blocks;
            let shard = erasure::code_shards(data, k, m)[i];
            let (sent, meta) = blocks[i];
            &&& blocks.len() == erasure::code_shards(data, k, m).len()
            &&& sent.index == i
            &&& sent.data == shard
            &&& meta.object_id == hash::hex_text(hash::blake3_digest(data))
            &&& meta.block_id == block::block_id_text(
                hash::hex_text(hash::blake3_digest(data)),
                i as nat,
                1,
            )
            &&& meta.shard_index == i
            &&& meta.ring_version == 1
            &&& meta.checksum == hash::blake3_digest(shard)
            &&& meta.size == shard.len()
        }),
{
}

/// Blocks of objects with different digests have different IDs, so neither replaces
/// the other.
pub proof fn law_objects_do_not_share_blocks(a: Seq<u8>, b: Seq<u8>, i: nat, j: nat)
    requires
        a.len() <= u64::MAX,
        hash::blake3_digest(a) != hash::blake3_digest(b),
    ensures
        block::block_id_text(ObjectMetadataView::describing(a).object_id, i, 1) != block::block_id_text(
            ObjectMetadataView::describing(b).object_id,
            j,
            1,
        ),
{
    let ia = ObjectMetadataView::describing(a).object_id;
    let ib = ObjectMetadataView::describing(b).object_id;
    law_object_is_named_by_its_digest(a, b);
    if block::block_id_text(ia, i, 1) == block::block_id_text(ib, j, 1) {
        block::law_block_id_is_unique(ia, i, 1, ib, j, 1);
    }
}

/// Shard `i` is tried at node `i` modulo the number of nodes first, then at the
/// following ones in turn, and at none of them twice.
pub proof fn law_shards_go_round(i: nat, a: nat, b: nat, nodes: nat)
    requires
        a < nodes,
        b < nodes,
    ensures
        rotation(i, 0, nodes) == i % nodes,
        rotation(i, a, nodes) < nodes,
        a + 1 < nodes ==> rotation(i, a + 1, nodes) == if rotation(i, a, nodes) + 1 < nodes {
            rotation(i, a, nodes) + 1
        } else {
            0
        },
        rotation(i, a, nodes) == rotation(i, b, nodes) ==> a == b,
{
    let p = i % nodes;
    vstd::arithmetic::div_mod::lemma_mod_twice(i as int, nodes as int);
    if a + 1 < nodes {
        lemma_wrapped(p, a + 1, nodes);
    }
    lemma_wrapped(p, a, nodes);
    lemma_wrapped(p, b, nodes);
}

proof fn lemma_wrapped(p: nat, a: nat, nodes: nat)
    requires
        p < nodes,
        a < nodes,
    ensures
        (p + a) % nodes == if p + a < nodes {
            p + a
        } else {
            (p + a - nodes) as nat
        },
{
    if p + a < nodes {
        vstd::arithmetic::div_mod::lemma_small_mod(p + a, nodes);
    } else {
        vstd::arithmetic::div_mod::lemma_mod_add_multiples_vanish(p + a - nodes, nodes as int);
        vstd::arithmetic::div_mod::lemma_small_mod((p + a - nodes) as nat, nodes);
    }
}

/// The ID of a part is that of the upload, `-part-`, and the number of the part in
/// at least five digits.
pub proof fn law_part_id_format(upload_id: Seq<char>, part_number: nat)
    ensures
        exists|d: Seq<char>| #[trigger]
            text::is_numeral(d, part_number, 5) && part_id_text(upload_id, part_number) == upload_id
                + "-part-"@ + d,
{
    text::law_renderings_are_numerals(part_number, 5);
}

/// The messages that tell of too few shards name both numbers.
pub proof fn law_shortfalls_name_the_numbers(put: PutView, get: GetView)
    ensures
        exists|a: Seq<char>, b: Seq<char>|
            #[trigger] text::is_numeral(a, put.written, 1) && #[trigger] text::is_numeral(
                b,
                put.blocks.len(),
                1,
            ) && put.shortfall() == "put: only "@ + a + "/"@ + b + " shards written"@,
        exists|a: Seq<char>, b: Seq<char>|
            #[trigger] text::is_numeral(a, get.got, 1) && #[trigger] text::is_numeral(b, get.k, 1)
                && get.shortfall() == "insufficient shards for get: got "@ + a + ", need "@ + b,
{
    text::law_renderings_are_numerals(put.written, 1);
    text::law_renderings_are_numerals(put.blocks.len(), 1);
    text::law_renderings_are_numerals(get.got, 1);
    text::law_renderings_are_numerals(get.k, 1);
}

/// Errors say what went wrong.
pub proof fn law_client_error_texts(e: RpcError, msg: String)
    ensures
        ClientError::Grpc(e).text() == "gRPC: "@ + e.text(),
        ClientError::Transport(msg).text() == "transport: "@ + msg@,
        ClientError::Encoding(msg).text() == "encoding: "@ + msg@,
        ClientError::NotFound(msg).text() == "object not found: "@ + msg@,
{
}

/// A part is asked for and deleted under the ID that it is stored under.
pub proof fn law_parts_are_found_where_they_are_put(part_object_id: Seq<char>, data: Seq<u8>)
    ensures
        part_block_id(part_object_id) == block::block_id_text(part_object_id, 0, 1),
        part_block_id(part_object_id) == BlockMetaView::describing(
            part_object_id,
            0,
            RING_VERSION,
            data,
        ).block_id,
{
}

/// Parts of uploads with different IDs, or with different numbers, have different
/// blocks.
pub proof fn law_parts_do_not_share_blocks(a: Seq<char>, b: Seq<char>)
    requires
        a != b,
    ensures
        part_block_id(a) != part_block_id(b),
{
    if part_block_id(a) == part_block_id(b) {
        block::law_block_id_is_unique(a, 0, 1, b, 0, 1);
    }
}

/// Requests are seen one by one, with their nodes and the whole of their block IDs.
pub proof fn law_requests_are_seen_in_full(requests: Seq<BlockRequest>, i: int)
    requires
        0 <= i < requests.len(),
    ensures
        request_views(requests).len() == requests.len(),
        request_views(requests)[i].0 == requests[i].node,
        request_views(requests)[i].1 == requests[i].block_id.0@,
{
}

/// A session is seen with all that it holds.
pub proof fn law_sessions_are_seen_in_full(put: PutSession, get: GetSession, i: int, j: int)
    requires
        0 <= i < put.blocks@.len(),
        get.collected@.len() == get.ec.k + get.ec.m,
        0 <= j < get.collected@.len(),
    ensures
        put@.nodes == put.nodes && put@.k == put.k && put@.shard == put.shard,
        put@.offset == put.offset && put@.written == put.written,
        put@.object.object_id == put.object.object_id@,
        put@.object.checksum == put.object.checksum@,
        put@.object.size == put.object.size,
        put@.blocks.len() == put.blocks@.len(),
        put@.blocks[i].0.index == put.blocks@[i].0.index,
        put@.blocks[i].0.data == put.blocks@[i].0.data@,
        put@.blocks[i].1.block_id == put.blocks@[i].1.block_id.0@,
        put@.blocks[i].1.checksum == put.blocks@[i].1.checksum@,
        get@.nodes == get.nodes && get@.k == get.ec.k && get@.m == get.ec.m,
        get@.object_id == get.object_id@,
        get@.shard == get.shard && get@.offset == get.offset && get@.got == get.got,
        get@.slots.len() == get.collected@.len(),
        get@.slots[j] is Some <==> get.collected@[j] is Some,
        get.collected@[j] is Some ==> get@.slots[j].unwrap() == get.collected@[j].unwrap().data@,
{
}

} // verus!
