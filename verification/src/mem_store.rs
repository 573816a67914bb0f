//! In-memory block store.
//!
//! Minimal key-value store that answers the requests of a data node. No
//! filesystem required: it serves to exercise the client without external
//! data-node processes.

use vstd::prelude::*;

use crate::block::{BlockMeta, BlockMetaView, Shard};
use crate::rpc;
use crate::rpc::{ProtoBlockMeta, ProtoRing, ProtoShard, RpcError};
use crate::server::HealthReport;
use crate::storage;

verus! {

/// A stored block.
#[derive(Debug)]
pub struct Entry {
    /// The ID under which the block is stored.
    pub block_id: String,
    /// The shard data.
    pub data: Vec<u8>,
    /// The metadata.
    pub meta: BlockMeta,
}

/// What the store holds, by block ID.
pub type Blocks = Map<Seq<char>, (Seq<u8>, BlockMetaView)>;

/// The store after a put request with the given shard and metadata.
pub open spec fn stored(
    blocks: Blocks,
    shard: rpc::ProtoShardView,
    meta: rpc::ProtoBlockMetaView,
) -> Blocks {
    blocks.insert(meta.block_id, (shard.data, rpc::meta_from_proto(meta)))
}

/// What a get request for `id` is answered, if the block is there.
pub open spec fn answer(blocks: Blocks, id: Seq<char>) -> Option<
    (rpc::ProtoShardView, rpc::ProtoBlockMetaView),
> {
    if blocks.contains_key(id) {
        let (data, meta) = blocks[id];
        Some(
            (
                rpc::ProtoShardView { index: meta.shard_index as u32, data },
                rpc::meta_to_proto(meta),
            ),
        )
    } else {
        None
    }
}

/// Minimal in-memory key-value store.
#[derive(Debug)]
pub struct MemStorage {
    /// The blocks, no two of them with the same ID.
    pub blocks: Vec<Entry>,
}

/// The position of the entry with the given ID.
pub open spec fn position(entries: Seq<Entry>, id: Seq<char>) -> int {
    choose|i: int| 0 <= i < entries.len() && (#[trigger] entries[i]).block_id@ == id
}

/// Whether there is an entry with the given ID.
pub open spec fn has(entries: Seq<Entry>, id: Seq<char>) -> bool {
    exists|i: int| 0 <= i < entries.len() && (#[trigger] entries[i]).block_id@ == id
}

impl View for MemStorage {
    type V = Blocks;

    open spec fn view(&self) -> Blocks {
        Map::new(
            |id: Seq<char>| has(self.blocks@, id),
            |id: Seq<char>|
                {
                    let e = self.blocks@[position(self.blocks@, id)];
                    (e.data@, e.meta@)
                },
        )
    }
}

impl MemStorage {
    /// No two entries share an ID.
    pub open spec fn well_formed(self) -> bool {
        forall|i: int, j: int|
            0 <= i < j < self.blocks@.len() ==> (#[trigger] self.blocks@[i]).block_id@ != (
            #[trigger] self.blocks@[j]).block_id@
    }

    proof fn lemma_entry(self, i: int)
        requires
            self.well_formed(),
            0 <= i < self.blocks@.len(),
        ensures
            self@.contains_key(self.blocks@[i].block_id@),
            self@[self.blocks@[i].block_id@] == (self.blocks@[i].data@, self.blocks@[i].meta@),
            position(self.blocks@, self.blocks@[i].block_id@) == i,
    {
        let id = self.blocks@[i].block_id@;
        let p = position(self.blocks@, id);
        assert(has(self.blocks@, id));
        assert(0 <= p < self.blocks@.len() && self.blocks@[p].block_id@ == id);
        if p < i {
            assert(self.blocks@[p].block_id@ != self.blocks@[i].block_id@);
        } else if i < p {
            assert(self.blocks@[i].block_id@ != self.blocks@[p].block_id@);
        }
    }

    /// An empty store.
    pub fn new() -> (res: Self)
        ensures
            res.well_formed(),
            res@ == Map::<Seq<char>, (Seq<u8>, BlockMetaView)>::empty(),
    {
        let res = Self { blocks: Vec::new() };
        assert(res@ =~= Map::empty());
        res
    }

    /// The position of the entry with the given ID, or the number of entries.
    fn find(&self, block_id: &String) -> (res: usize)
        requires
            self.well_formed(),
        ensures
            if self@.contains_key(block_id@) {
                res < self.blocks@.len() && self.blocks@[res as int].block_id@ == block_id@
            } else {
                res == self.blocks@.len()
            },
    {
        let mut i: usize = 0;
        while i < self.blocks.len()
            invariant
                i <= self.blocks@.len(),
                self.well_formed(),
                forall|j: int| 0 <= j < i ==> (#[trigger] self.blocks@[j]).block_id@ != block_id@,
            decreases self.blocks.len() - i,
        {
            if self.blocks[i].block_id == *block_id {
                proof {
                    self.lemma_entry(i as int);
                }
                return i;
            }
            i = i + 1;
        }
        i
    }

    /// Stores a block, in place of one with the same ID.
    fn insert(&mut self, data: Vec<u8>, meta: BlockMeta)
        requires
            old(self).well_formed(),
        ensures
            final(self).well_formed(),
            final(self)@ == old(self)@.insert(meta@.block_id, (data@, meta@)),
    {
        let block_id = meta.block_id.to_string();
        let at = self.find(&block_id);
        let entry = Entry { block_id, data, meta };
        let ghost before = *self;
        if at < self.blocks.len() {
            self.blocks.set(at, entry);
        } else {
            self.blocks.push(entry);
        }
        proof {
            let after = *self;
            let id = entry.block_id@;
            assert(after.well_formed());
            after.lemma_entry(at as int);
            assert(after.blocks@[at as int] == entry);
            assert(after@[id] == (data@, meta@));
            assert forall|x: Seq<char>| x != id implies (#[trigger] after@.contains_key(x) <==> before@.contains_key(
                x,
            )) && (before@.contains_key(x) ==> after@[x] == before@[x]) by {
                if before@.contains_key(x) {
                    let p = position(before.blocks@, x);
                    assert(before.blocks@[p].block_id@ == x);
                    assert(after.blocks@[p] == before.blocks@[p]);
                    after.lemma_entry(p);
                    before.lemma_entry(p);
                }
                if after@.contains_key(x) {
                    let p = position(after.blocks@, x);
                    assert(after.blocks@[p].block_id@ == x);
                    assert(p != at);
                    assert(after.blocks@[p] == before.blocks@[p]);
                    before.lemma_entry(p);
                }
            }
            let want = before@.insert(id, (data@, meta@));
            assert forall|x: Seq<char>| after@.contains_key(x) <==> want.contains_key(x) by {
                assert(x == id || x != id);
            }
            assert forall|x: Seq<char>| after@.contains_key(x) implies after@[x] == want[x] by {
                assert(x == id || before@.contains_key(x));
            }
            assert(after@ =~= want);
        }
    }

    /// Answers a put request.
    ///
    /// # Errors
    /// - [`RpcError::InvalidArgument`] if the metadata or the shard is missing.
    pub fn put_block(&mut self, shard: Option<ProtoShard>, meta: Option<ProtoBlockMeta>) -> (res: Result<
        (),
        RpcError,
    >)
        requires
            old(self).well_formed(),
        ensures
            final(self).well_formed(),
            match res {
                Ok(_) => {
                    &&& meta is Some && shard is Some
                    &&& final(self)@ == stored(old(self)@, shard.unwrap()@, meta.unwrap()@)
                },
                Err(e) => {
                    &&& final(self)@ == old(self)@
                    &&& if meta is None {
                        e matches RpcError::InvalidArgument(msg) && msg@ == "no meta"@
                    } else {
                        shard is None && (e matches RpcError::InvalidArgument(msg) && msg@ == "no shard"@)
                    }
                },
            },
    {
        let meta = match meta {
            Some(m) => BlockMeta::from(m),
            None => {
                return Err(RpcError::InvalidArgument("no meta".to_owned()));
            },
        };
        let shard = match shard {
            Some(s) => Shard::from(s),
            None => {
                return Err(RpcError::InvalidArgument("no shard".to_owned()));
            },
        };
        self.insert(shard.data, meta);
        Ok(())
    }

    /// Answers a get request.
    ///
    /// # Errors
    /// - [`RpcError::NotFound`] if there is no such block.
    pub fn get_block(&self, id: String) -> (res: Result<(ProtoShard, ProtoBlockMeta), RpcError>)
        requires
            self.well_formed(),
        ensures
            match res {
                Ok((s, m)) => answer(self@, id@) == Some((s@, m@)),
                Err(e) => answer(self@, id@) is None && (e matches RpcError::NotFound(msg) && msg@ == id@),
            },
    {
        let at = self.find(&id);
        if at == self.blocks.len() {
            return Err(RpcError::NotFound(id));
        }
        proof {
            self.lemma_entry(at as int);
        }
        let entry = &self.blocks[at];
        let data = entry.data.clone();
        assert(data@ =~= entry.data@);
        let shard = ProtoShard { index: entry.meta.shard_index as u32, data };
        Ok((shard, ProtoBlockMeta::from(entry.meta.clone())))
    }

    /// Answers a delete request. A block that is not there is no error.
    pub fn delete_block(&mut self, id: &String)
        requires
            old(self).well_formed(),
        ensures
            final(self).well_formed(),
            final(self)@ == old(self)@.remove(id@),
    {
        let at = self.find(id);
        let ghost before = *self;
        if at < self.blocks.len() {
            self.blocks.remove(at);
        }
        proof {
            let after = *self;
            assert forall|x: Seq<char>|
                after@.contains_key(x) <==> (before@.contains_key(x) && x != id@) by {
                lemma_removed(before, after, at as int, id@, x);
            }
            assert forall|x: Seq<char>| after@.contains_key(x) implies after@[x] == before@[x] by {
                lemma_removed(before, after, at as int, id@, x);
            }
            assert(after@ =~= before@.remove(id@));
        }
    }

    /// Answers a list request: the ID of every block, once each.
    pub fn list_blocks(&self) -> (res: Vec<String>)
        requires
            self.well_formed(),
        ensures
            storage::name_views(res@).no_duplicates(),
            storage::name_views(res@).to_set() == self@.dom(),
    {
        let mut res: Vec<String> = Vec::new();
        let mut i: usize = 0;
        while i < self.blocks.len()
            invariant
                i <= self.blocks@.len(),
                res@.len() == i,
                forall|j: int| 0 <= j < i ==> (#[trigger] res@[j])@ == self.blocks@[j].block_id@,
            decreases self.blocks.len() - i,
        {
            res.push(self.blocks[i].block_id.clone());
            i = i + 1;
        }
        proof {
            let names = storage::name_views(res@);
            assert forall|a: int, b: int| 0 <= a < names.len() && 0 <= b < names.len() && a != b implies names[a]
                != names[b] by {
                assert(names[a] == res@[a]@ && names[b] == res@[b]@);
                if a < b {
                    assert(self.blocks@[a].block_id@ != self.blocks@[b].block_id@);
                } else {
                    assert(self.blocks@[b].block_id@ != self.blocks@[a].block_id@);
                }
            }
            assert forall|x: Seq<char>| names.to_set().contains(x) <==> self@.dom().contains(x) by {
                if names.contains(x) {
                    let j = choose|j: int| 0 <= j < names.len() && names[j] == x;
                    assert(res@[j]@ == x);
                    self.lemma_entry(j);
                }
                if has(self.blocks@, x) {
                    let p = position(self.blocks@, x);
                    assert(self.blocks@[p].block_id@ == x);
                    assert(res@[p]@ == x);
                    assert(names[p] == x);
                }
            }
            assert(names.to_set() =~= self@.dom());
        }
        res
    }

    /// Answers a count request.
    pub fn block_count(&self) -> (res: u64)
        requires
            self.well_formed(),
        ensures
            res == self@.dom().len(),
    {
        let names = self.list_blocks();
        proof {
            storage::name_views(names@).unique_seq_to_set();
        }
        names.len() as u64
    }

    /// Answers a stat request.
    ///
    /// # Errors
    /// - [`RpcError::NotFound`] if there is no such block.
    pub fn stat_block(&self, id: String) -> (res: Result<ProtoBlockMeta, RpcError>)
        requires
            self.well_formed(),
        ensures
            match res {
                Ok(m) => self@.contains_key(id@) && m@ == rpc::meta_to_proto(self@[id@].1),
                Err(e) => !self@.contains_key(id@) && (e matches RpcError::NotFound(msg) && msg@ == id@),
            },
    {
        let at = self.find(&id);
        if at == self.blocks.len() {
            return Err(RpcError::NotFound(id));
        }
        proof {
            self.lemma_entry(at as int);
        }
        Ok(ProtoBlockMeta::from(self.blocks[at].meta.clone()))
    }

    /// Answers a join request: an empty ring at version 1.
    pub fn join(&self) -> (res: ProtoRing)
        ensures
            res.node_ids@.len() == 0,
            res.version == 1,
    {
        ProtoRing { node_ids: Vec::new(), version: 1 }
    }

    /// Answers a health check: nothing is counted.
    pub fn health_check(&self) -> (res: HealthReport)
        ensures
            res.block_count == 0,
            res.disk_used@.len() == 0,
    {
        HealthReport { block_count: 0, disk_used: Vec::new() }
    }
}

proof fn lemma_removed(before: MemStorage, after: MemStorage, at: int, id: Seq<char>, x: Seq<char>)
    requires
        before.well_formed(),
        after.well_formed(),
        if before@.contains_key(id) {
            &&& 0 <= at < before.blocks@.len()
            &&& before.blocks@[at].block_id@ == id
            &&& after.blocks@ == before.blocks@.remove(at)
        } else {
            after.blocks@ == before.blocks@
        },
    ensures
        after@.contains_key(x) <==> before@.contains_key(x) && x != id,
        after@.contains_key(x) ==> after@[x] == before@[x],
{
    if before@.contains_key(id) {
        let b = before.blocks@;
        let a = after.blocks@;
        if has(b, x) && x != id {
            let p = position(b, x);
            assert(b[p].block_id@ == x);
            let q = if p < at { p } else { p - 1 };
            assert(a[q] == b[p]);
            after.lemma_entry(q);
            before.lemma_entry(p);
        }
        if has(a, x) {
            let q = position(a, x);
            assert(a[q].block_id@ == x);
            let p = if q < at { q } else { q + 1 };
            assert(a[q] == b[p]);
            before.lemma_entry(p);
            if p < at {
                assert(b[p].block_id@ != b[at].block_id@);
            } else {
                assert(b[at].block_id@ != b[p].block_id@);
            }
        }
    }
}

impl Default for MemStorage {
    fn default() -> (res: Self)
        ensures
            res.well_formed(),
            res@ == Map::<Seq<char>, (Seq<u8>, BlockMetaView)>::empty(),
    {
        Self::new()
    }
}

/// A block that was put is got back, whatever was stored before: the data that was
/// sent, at the index that its metadata gives. Other blocks are answered as
/// before.
pub proof fn law_put_then_get(
    blocks: Blocks,
    shard: rpc::ProtoShardView,
    meta: rpc::ProtoBlockMetaView,
    other: Seq<char>,
)
    requires
        other != meta.block_id,
    ensures
        answer(stored(blocks, shard, meta), meta.block_id) == Some(
            (
                (rpc::ProtoShardView {
                    index: rpc::meta_from_proto(meta).shard_index as u32,
                    data: shard.data,
                }),
                rpc::meta_to_proto(rpc::meta_from_proto(meta)),
            ),
        ),
        answer(stored(blocks, shard, meta), other) == answer(blocks, other),
{
}

/// A block that was deleted is gone, and other blocks are answered as before.
pub proof fn law_delete_then_get(blocks: Blocks, id: Seq<char>, other: Seq<char>)
    requires
        other != id,
    ensures
        answer(blocks.remove(id), id) is None,
        answer(blocks.remove(id), other) == answer(blocks, other),
{
}

/// A block that was put is got back as it was sent, metadata included, if its metadata
/// is of the usual form.
pub proof fn law_block_comes_back_as_sent(
    blocks: Blocks,
    shard: rpc::ProtoShardView,
    meta: rpc::ProtoBlockMetaView,
)
    requires
        meta.checksum.len() == 32,
        meta.shard_index < 256,
        shard.index == meta.shard_index,
    ensures
        answer(stored(blocks, shard, meta), meta.block_id) == Some((shard, meta)),
{
}

/// A block is answered exactly if it is there.
pub proof fn law_answers_what_is_there(blocks: Blocks, id: Seq<char>)
    ensures
        answer(blocks, id) is Some <==> blocks.contains_key(id),
        blocks.contains_key(id) ==> answer(blocks, id).unwrap().0.data == blocks[id].0,
{
}

/// A store is seen with each of its blocks, under its whole ID, and no others.
pub proof fn law_store_is_seen_in_full(store: MemStorage, i: int, id: Seq<char>)
    requires
        store.well_formed(),
        0 <= i < store.blocks@.len(),
    ensures
        store@.contains_key(store.blocks@[i].block_id@),
        store@[store.blocks@[i].block_id@].0 == store.blocks@[i].data@,
        store@[store.blocks@[i].block_id@].1 == store.blocks@[i].meta@,
        store@.contains_key(id) ==> exists|j: int|
            0 <= j < store.blocks@.len() && (#[trigger] store.blocks@[j]).block_id@ == id,
{
    store.lemma_entry(i);
}

} // verus!
