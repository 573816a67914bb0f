//! Repair after ring changes.
//!
//! When the ring changes, blocks that carry an older ring version are stored
//! again with the current one, so that their placement matches the ring.

use vstd::prelude::*;

use crate::block::{BlockMeta, BlockMetaView, Shard};
use crate::hash;
use crate::types::{NodeId, RingVersion};

verus! {

/// Notice of a ring change (consumed by the repair loop).
#[derive(Debug)]
pub struct RingChange {
    /// The version before the change.
    pub old_version: RingVersion,
    /// The version after the change.
    pub new_version: RingVersion,
    /// The nodes that left, as far as the sender names them. The gossip loop names
    /// none: what is to be repaired follows from the versions.
    pub dead_nodes: Vec<NodeId>,
}

/// What a ring change says.
#[verifier::ext_equal]
pub struct RingChangeView {
    /// The version before the change.
    pub old_version: RingVersion,
    /// The version after the change.
    pub new_version: RingVersion,
    /// The nodes that left, as far as the sender names them. The gossip loop names
    /// none: what is to be repaired follows from the versions.
    pub dead_nodes: Seq<NodeId>,
}

impl View for RingChange {
    type V = RingChangeView;

    open spec fn view(&self) -> RingChangeView {
        RingChangeView {
            old_version: self.old_version,
            new_version: self.new_version,
            dead_nodes: self.dead_nodes@,
        }
    }
}

impl Clone for RingChange {
    fn clone(&self) -> (res: Self)
        ensures
            res@ == self@,
    {
        let dead_nodes = self.dead_nodes.clone();
        assert(dead_nodes@ =~= self.dead_nodes@);
        RingChange { old_version: self.old_version, new_version: self.new_version, dead_nodes }
    }
}

impl RingChangeView {
    /// Whether a block was placed before the change.
    pub open spec fn outdates(self, meta: BlockMetaView) -> bool {
        meta.ring_version < self.new_version
    }

    /// The metadata under which an outdated block is stored again.
    pub open spec fn retagged(self, meta: BlockMetaView) -> BlockMetaView {
        BlockMetaView { ring_version: self.new_version, ..meta }
    }
}

impl RingChange {
    /// Whether a block was placed on an older ring: it may be orphaned, and is to
    /// be read, retagged and written again.
    pub fn outdates(&self, meta: &BlockMeta) -> (res: bool)
        ensures
            res <==> meta.ring_version < self.new_version,
            res == self@.outdates(meta@),
    {
        meta.ring_version < self.new_version
    }

    /// The metadata under which an outdated block is stored again: the same but
    /// for the ring version, so that it replaces the block.
    pub fn retag(&self, meta: BlockMeta) -> (res: BlockMeta)
        ensures
            res@ == self@.retagged(meta@),
            res.ring_version == self.new_version,
            res.block_id@ == meta.block_id@,
            res.object_id@ == meta.object_id@,
            res.shard_index == meta.shard_index,
            res.checksum@ == meta.checksum@,
            res.size == meta.size,
    {
        let mut meta = meta;
        meta.ring_version = self.new_version;
        meta
    }

    /// What a repair stores again of a block, given its metadata and its data: an
    /// outdated block whose data is intact, retagged. Any other is left alone.
    pub fn repair(&self, meta: BlockMeta, data: Vec<u8>) -> (res: Option<(BlockMeta, Shard)>)
        ensures
            match res {
                Some((new, shard)) => {
                    &&& self@.outdates(meta@)
                    &&& meta@.matches(data@)
                    &&& new@ == self@.retagged(meta@)
                    &&& shard.index == meta.shard_index
                    &&& shard.data@ == data@
                },
                None => !self@.outdates(meta@) || !meta@.matches(data@),
            },
            res is Some <==> meta.ring_version < self.new_version && hash::blake3_digest(data@)
                == meta.checksum@,
            res matches Some((new, shard)) ==> {
                &&& new.ring_version == self.new_version
                &&& new.block_id@ == meta.block_id@
                &&& new.object_id@ == meta.object_id@
                &&& new.shard_index == meta.shard_index
                &&& new.checksum@ == meta.checksum@
                &&& new.size == meta.size
                &&& shard.index == meta.shard_index
                &&& shard.data@ == data@
            },
    {
        if !self.outdates(&meta) || !meta.verify(data.as_slice()) {
            return None;
        }
        let shard = Shard { index: meta.shard_index, data };
        Some((self.retag(meta), shard))
    }
}

/// A repaired block is up to date, so a second run of the same repair leaves it
/// alone. It keeps its id, and the checksum still matches what it matched.
pub proof fn law_repair_settles(change: RingChangeView, meta: BlockMetaView)
    ensures
        !change.outdates(change.retagged(meta)),
        change.retagged(change.retagged(meta)) == change.retagged(meta),
        change.retagged(meta).block_id == meta.block_id,
        forall|data: Seq<u8>| #[trigger]
            change.retagged(meta).matches(data) == meta.matches(data),
{
}

/// Every block of a version below the new one is stored again, by however many
/// versions it is behind, and no other block is. What the version was before the
/// change, and who left, play no part.
pub proof fn law_every_older_block_is_repaired(change: RingChangeView, meta: BlockMetaView)
    ensures
        change.outdates(meta) <==> meta.ring_version < change.new_version,
        change.retagged(meta).ring_version == change.new_version,
        change.retagged(meta).block_id == meta.block_id,
        change.retagged(meta).object_id == meta.object_id,
        change.retagged(meta).shard_index == meta.shard_index,
        change.retagged(meta).checksum == meta.checksum,
        change.retagged(meta).size == meta.size,
{
}

/// A block that one change outdates is outdated by every change to a later version,
/// and so is every block of a still older version.
pub proof fn law_older_blocks_stay_outdated(
    change: RingChangeView,
    later: RingChangeView,
    meta: BlockMetaView,
    older: BlockMetaView,
)
    requires
        change.outdates(meta),
        later.new_version >= change.new_version,
        older.ring_version <= meta.ring_version,
    ensures
        later.outdates(meta),
        later.outdates(older),
{
}

} // verus!
