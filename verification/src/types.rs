//! Core types for the distributed file system.
//!
//! Node and object identification, ring state, erasure coding configuration
//! and storage class definitions.

use vstd::prelude::*;

verus! {

/// Unique identifier for a storage node in the cluster: the 128 bits of its
/// UUID, read as one number with the first byte highest.
pub type NodeId = u128;

/// Unique identifier for an object stored in the DFS.
pub type ObjectId = String;

/// Index of a shard within an erasure-coded stripe.
/// Range: `0..(k+m-1)` where data shards are `0..k-1` and parity shards are `k..k+m-1`.
pub type ShardIndex = u8;

/// Monotonically increasing ring version.
///
/// Incremented on every membership change (node added, removed, or failed).
/// Used to detect stale ring caches and prevent split-brain operations.
pub type RingVersion = u64;

/// Configuration for erasure coding.
///
/// A `(k, m)` configuration splits data into `k` data shards and generates
/// `m` parity shards. Any `k` shards are sufficient to reconstruct the original
/// data. The system can tolerate up to `m` simultaneous shard losses.
///
/// # Constraints
/// - `k >= 1`: at least one data shard.
/// - `m >= 0`: zero or more parity shards (`m = 0` means no redundancy, just splitting).
/// - `k + m <= 255`.
#[derive(Debug, Clone, Copy, PartialEq, Eq, Structural)]
pub struct ErasureConfig {
    /// Number of data shards.
    pub k: u8,
    /// Number of parity shards.
    pub m: u8,
}

impl ErasureConfig {
    /// The constraints that a usable configuration meets.
    pub open spec fn valid(self) -> bool {
        &&& self.k >= 1
        &&& self.k + self.m <= 255
    }

    /// Create a new erasure coding configuration.
    ///
    /// Returns `Err` if `k == 0` or `k + m` exceeds 255.
    pub fn new(k: u8, m: u8) -> (res: Result<Self, &'static str>)
        ensures
            match res {
                Ok(c) => c == (ErasureConfig { k, m }) && c.valid(),
                Err(e) => if k == 0 {
                    e@ == "k must be at least 1"@
                } else {
                    k + m > 255 && e@ == "k + m must not exceed 255"@
                },
            },
            res is Ok <==> k >= 1 && k + m <= 255,
    {
        if k == 0 {
            return Err("k must be at least 1");
        }
        if (k as u16) + (m as u16) > 255 {
            return Err("k + m must not exceed 255");
        }
        Ok(Self { k, m })
    }

    /// Total number of shards (data + parity).
    #[inline]
    pub fn total_shards(&self) -> (res: u8)
        requires
            self.k + self.m <= 255,
        ensures
            res == self.k + self.m,
    {
        self.k + self.m
    }

    /// Minimum shards needed for decoding.
    #[inline]
    pub fn min_read(&self) -> (res: u8)
        ensures
            res == self.k,
    {
        self.k
    }

    /// Maximum number of shard failures the system can tolerate.
    #[inline]
    pub fn max_faults(&self) -> (res: u8)
        ensures
            res == self.m,
    {
        self.m
    }

    /// Whether this config applies erasure coding at all.
    /// `m == 0` means just data splitting with no redundancy.
    #[inline]
    pub fn has_redundancy(&self) -> (res: bool)
        ensures
            res == (self.m > 0),
    {
        self.m > 0
    }
}

impl Default for ErasureConfig {
    fn default() -> (res: Self)
        ensures
            res == (ErasureConfig { k: 3, m: 2 }),
    {
        Self { k: 3, m: 2 }
    }
}

/// What a ring holds.
#[verifier::ext_equal]
pub struct RingView {
    /// The node ids, in ring order.
    pub nodes: Seq<NodeId>,
    /// The version number.
    pub version: RingVersion,
}

/// The membership ring: an ordered list of currently healthy nodes.
///
/// The ring is versioned: every membership change (node added, removed,
/// failed) produces a new ring with an incremented `version`. Rendezvous
/// hashing is used to deterministically map objects to nodes given a
/// ring at a specific version.
#[derive(Debug, PartialEq, Eq)]
pub struct Ring {
    /// Ordered list of node IDs in the ring.
    pub nodes: Vec<NodeId>,
    /// Monotonically increasing version number.
    pub version: RingVersion,
}

impl View for Ring {
    type V = RingView;

    open spec fn view(&self) -> RingView {
        RingView { nodes: self.nodes@, version: self.version }
    }
}

impl Clone for Ring {
    fn clone(&self) -> (res: Self)
        ensures
            res@ == self@,
    {
        let nodes = self.nodes.clone();
        assert(nodes@ =~= self.nodes@);
        Ring { nodes, version: self.version }
    }
}

impl RingView {
    /// The ring with the same history, one change later.
    pub open spec fn with_nodes(self, nodes: Seq<NodeId>) -> RingView {
        RingView { nodes, version: (self.version + 1) as u64 }
    }
}

impl Ring {
    /// Create a new ring with the given nodes and version 1.
    pub fn new(nodes: Vec<NodeId>) -> (res: Self)
        requires
            nodes@.len() > 0,
        ensures
            res@ == (RingView { nodes: nodes@, version: 1 }),
            res.nodes@ == nodes@,
            res.version == 1,
    {
        Self { nodes, version: 1 }
    }

    /// Number of nodes in the ring.
    #[inline]
    pub fn len(&self) -> (res: usize)
        ensures
            res == self@.nodes.len(),
    {
        self.nodes.len()
    }

    /// Whether the ring is empty.
    #[inline]
    pub fn is_empty(&self) -> (res: bool)
        ensures
            res == (self@.nodes.len() == 0),
    {
        self.nodes.len() == 0
    }

    /// Create a new ring with an incremented version and updated node list.
    pub fn with_nodes(&self, nodes: Vec<NodeId>) -> (res: Self)
        requires
            self.version < u64::MAX,
        ensures
            res@ == self@.with_nodes(nodes@),
            res.version == self.version + 1,
            res.nodes@ == nodes@,
    {
        Self { nodes, version: self.version + 1 }
    }
}

/// Specifies how data is stored across nodes.
///
/// All objects use erasure coding for space-efficient durability.
#[derive(Debug, Clone, Copy, PartialEq, Eq, Structural)]
pub struct StorageClass {
    /// Erasure coding configuration.
    pub ec: ErasureConfig,
}

impl StorageClass {
    /// Create a storage class with the given EC configuration.
    pub fn new(k: u8, m: u8) -> (res: Self)
        ensures
            res == (StorageClass { ec: ErasureConfig { k, m } }),
    {
        Self { ec: ErasureConfig { k, m } }
    }
}

/// A configuration is usable with at least one data shard and at most 255 shards.
pub proof fn law_which_configurations_are_usable(c: ErasureConfig)
    ensures
        c.valid() <==> c.k >= 1 && c.k + c.m <= 255,
{
}

/// A change of the ring raises its version by one and gives it the new nodes.
pub proof fn law_ring_change_raises_the_version(ring: RingView, nodes: Seq<NodeId>)
    requires
        ring.version < u64::MAX,
    ensures
        ring.with_nodes(nodes).version == ring.version + 1,
        ring.with_nodes(nodes).nodes == nodes,
{
}

} // verus!
