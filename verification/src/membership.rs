//! Membership and ring management.
//!
//! Tracks the health of every node in the cluster and manages ring
//! version transitions. On failure detection, produces a new ring
//! (with bumped version).
//!
//! This module is **pure logic**: it does not perform network calls,
//! gossip, or health checks.

use std::collections::HashMap;
use vstd::prelude::*;

use crate::error::{CoreError, Result};
use crate::placement;
use crate::types::{NodeId, Ring, RingView};

verus! {

broadcast use vstd::std_specs::hash::group_hash_axioms;

/// Health status of a single node.
#[derive(Debug, Clone, Copy, PartialEq, Eq, Structural)]
pub enum NodeHealth {
    /// Node is up and participating.
    Alive,
    /// Currently being probed: may be a transient failure.
    Suspect(u64),
    /// Confirmed dead at generation `N`.
    Dead(u64),
}

/// What a membership holds.
#[verifier::ext_equal]
pub struct MembershipView {
    /// The current ring.
    pub ring: RingView,
    /// The health of every known node.
    pub health: Map<NodeId, NodeHealth>,
}

/// Cluster membership state.
///
/// Tracks the ring and health of every known node. The ring version
/// increments on every membership change.
#[derive(Debug, PartialEq, Eq)]
pub struct Membership {
    /// Current ring (ordered, versioned node list).
    pub ring: Ring,
    /// Health of every node known to the cluster.
    pub health: HashMap<NodeId, NodeHealth>,
}

impl View for Membership {
    type V = MembershipView;

    open spec fn view(&self) -> MembershipView {
        MembershipView { ring: self.ring@, health: self.health@ }
    }
}

impl Clone for Membership {
    fn clone(&self) -> (res: Self)
        ensures
            res@ == self@,
    {
        Membership { ring: self.ring.clone(), health: self.health.clone() }
    }
}

/// Whether a node is alive, as far as `health` knows.
pub open spec fn alive_in(health: Map<NodeId, NodeHealth>) -> spec_fn(NodeId) -> bool {
    |n: NodeId| health.contains_key(n) && health[n] == NodeHealth::Alive
}

/// Whether a node is alive or under suspicion, as far as `health` knows.
pub open spec fn survivor_in(health: Map<NodeId, NodeHealth>) -> spec_fn(NodeId) -> bool {
    |n: NodeId| health.contains_key(n) && !(health[n] is Dead)
}

impl MembershipView {
    /// A membership of `nodes`, all of them alive, at version 1.
    pub open spec fn starting(nodes: Seq<NodeId>) -> MembershipView {
        MembershipView {
            ring: RingView { nodes, version: 1 },
            health: Map::new(|n: NodeId| nodes.contains(n), |n: NodeId| NodeHealth::Alive),
        }
    }

    /// The nodes of the ring that are alive, in ring order.
    pub open spec fn alive_nodes(self) -> Seq<NodeId> {
        self.ring.nodes.filter(alive_in(self.health))
    }

    /// The nodes of the ring that are not dead, in ring order.
    pub open spec fn surviving_nodes(self) -> Seq<NodeId> {
        self.ring.nodes.filter(survivor_in(self.health))
    }

    /// The membership once `dead` have been marked dead at the current ring
    /// version. The ring is still the old one.
    pub open spec fn mark_dead(self, dead: Set<NodeId>) -> MembershipView {
        MembershipView {
            ring: self.ring,
            health: Map::new(
                |n: NodeId| self.health.contains_key(n) || dead.contains(n),
                |n: NodeId|
                    if dead.contains(n) {
                        NodeHealth::Dead(self.ring.version)
                    } else {
                        self.health[n]
                    },
            ),
        }
    }

    /// The membership with its ring reduced to the nodes that are not dead, one
    /// version on.
    pub open spec fn drop_dead(self) -> MembershipView {
        MembershipView { ring: self.ring.with_nodes(self.surviving_nodes()), health: self.health }
    }

    /// The membership with `node` in its ring and alive, one version on.
    pub open spec fn with_node(self, node: NodeId) -> MembershipView {
        MembershipView {
            ring: self.ring.with_nodes(
                if self.ring.nodes.contains(node) {
                    self.ring.nodes
                } else {
                    self.ring.nodes.push(node)
                },
            ),
            health: self.health.insert(node, NodeHealth::Alive),
        }
    }

    /// The membership with the ring of a cluster that it joins in place of its own.
    /// Nodes that were not known are taken for alive.
    pub open spec fn adopting(self, ring: RingView) -> MembershipView {
        MembershipView {
            ring,
            health: Map::new(
                |n: NodeId| self.health.contains_key(n) || ring.nodes.contains(n),
                |n: NodeId|
                    if self.health.contains_key(n) {
                        self.health[n]
                    } else {
                        NodeHealth::Alive
                    },
            ),
        }
    }

    /// Every node of the ring has a health entry.
    pub open spec fn tracks_ring(self) -> bool {
        forall|n: NodeId| #[trigger] self.ring.nodes.contains(n) ==> self.health.contains_key(n)
    }
}

impl Membership {
    /// Create a new membership with every node marked [`NodeHealth::Alive`].
    pub fn new(nodes: Vec<NodeId>) -> (res: Self)
        requires
            nodes@.len() > 0,
        ensures
            res@ == MembershipView::starting(nodes@),
            res@.tracks_ring(),
            res.ring.nodes@ == nodes@,
            res.ring.version == 1,
            forall|n: NodeId| #[trigger] res.health@.contains_key(n) <==> nodes@.contains(n),
            forall|n: NodeId|
                nodes@.contains(n) ==> #[trigger] res.health@[n] == NodeHealth::Alive,
    {
        let mut health: HashMap<NodeId, NodeHealth> = HashMap::new();
        let mut i: usize = 0;
        while i < nodes.len()
            invariant
                i <= nodes@.len(),
                health@ == MembershipView::starting(nodes@.take(i as int)).health,
            decreases nodes.len() - i,
        {
            health.insert(nodes[i], NodeHealth::Alive);
            proof {
                let before = nodes@.take(i as int);
                let after = nodes@.take(i + 1);
                assert(after =~= before.push(nodes@[i as int]));
                assert forall|n: NodeId| after.contains(n) <==> before.contains(n) || n == nodes@[i as int] by {
                    if before.contains(n) {
                        let j = choose|j: int| 0 <= j < before.len() && before[j] == n;
                        assert(after[j] == n);
                    }
                    assert(after[i as int] == nodes@[i as int]);
                }
                assert(health@ =~= MembershipView::starting(after).health);
            }
            i = i + 1;
        }
        assert(nodes@.take(i as int) =~= nodes@);
        Self { ring: Ring::new(nodes), health }
    }

    /// The nodes with a health entry, each once, in no particular order.
    pub(crate) fn known_nodes(&self) -> (res: Vec<NodeId>)
        ensures
            res@.no_duplicates(),
            res@.to_set() == self@.health.dom(),
    {
        let mut res: Vec<NodeId> = Vec::new();
        for key in iter: self.health.keys()
            invariant
                iter.seq().unref().to_set() == self.health@.dom(),
                iter.seq().no_duplicates(),
                res@.len() == iter.index(),
                forall|j: int| 0 <= j < res@.len() ==> res@[j] == *iter.seq()[j],
        {
            res.push(*key);
        }
        proof {
            let keys = vstd::std_specs::iter::IteratorSpec::remaining(
                &vstd::std_specs::hash::spec_keys_iter(&self.health),
            );
            assert(res@ =~= keys.unref());
            assert forall|a: int, b: int| 0 <= a < b < res@.len() implies res@[a] != res@[b] by {
                assert(keys[a] != keys[b]);
            }
        }
        res
    }

    /// Whether `node` is alive.
    pub(crate) fn is_alive(&self, node: NodeId) -> (res: bool)
        ensures
            res == alive_in(self@.health)(node),
    {
        match self.health.get(&node) {
            Some(NodeHealth::Alive) => true,
            _ => false,
        }
    }

    /// Number of alive nodes.
    pub fn alive_count(&self) -> (res: usize)
        ensures
            res == self@.health.dom().filter(alive_in(self@.health)).len(),
    {
        let known = self.known_nodes();
        let ghost alive = alive_in(self@.health);
        let mut count: usize = 0;
        let mut i: usize = 0;
        while i < known.len()
            invariant
                i <= known@.len(),
                alive == alive_in(self@.health),
                count == known@.take(i as int).filter(alive).len(),
                count <= i,
            decreases known.len() - i,
        {
            proof {
                assert(known@.take(i + 1) =~= known@.take(i as int).push(known@[i as int]));
                known@.take(i as int).lemma_filter_push(known@[i as int], alive);
            }
            if self.is_alive(known[i]) {
                count = count + 1;
            }
            i = i + 1;
        }
        proof {
            assert(known@.take(i as int) =~= known@);
            lemma_filter_to_set(known@, alive);
        }
        count
    }

    /// List of currently alive nodes.
    pub fn alive_nodes(&self) -> (res: Vec<NodeId>)
        ensures
            res@ == self@.alive_nodes(),
    {
        let mut res: Vec<NodeId> = Vec::new();
        let ghost alive = alive_in(self@.health);
        let nodes = &self.ring.nodes;
        let mut i: usize = 0;
        while i < nodes.len()
            invariant
                i <= nodes@.len(),
                nodes@ == self.ring@.nodes,
                alive == alive_in(self@.health),
                res@ == nodes@.take(i as int).filter(alive),
            decreases nodes.len() - i,
        {
            proof {
                assert(nodes@.take(i + 1) =~= nodes@.take(i as int).push(nodes@[i as int]));
                nodes@.take(i as int).lemma_filter_push(nodes@[i as int], alive);
            }
            if self.is_alive(nodes[i]) {
                res.push(nodes[i]);
            }
            i = i + 1;
        }
        assert(nodes@.take(i as int) =~= nodes@);
        res
    }

    /// The nodes of the ring that are not dead.
    fn surviving_nodes(&self) -> (res: Vec<NodeId>)
        ensures
            res@ == self@.surviving_nodes(),
    {
        let mut res: Vec<NodeId> = Vec::new();
        let ghost survives = survivor_in(self@.health);
        let nodes = &self.ring.nodes;
        let mut i: usize = 0;
        while i < nodes.len()
            invariant
                i <= nodes@.len(),
                nodes@ == self.ring@.nodes,
                survives == survivor_in(self@.health),
                res@ == nodes@.take(i as int).filter(survives),
            decreases nodes.len() - i,
        {
            proof {
                assert(nodes@.take(i + 1) =~= nodes@.take(i as int).push(nodes@[i as int]));
                nodes@.take(i as int).lemma_filter_push(nodes@[i as int], survives);
            }
            match self.health.get(&nodes[i]) {
                Some(NodeHealth::Alive) | Some(NodeHealth::Suspect(_)) => {
                    res.push(nodes[i]);
                },
                _ => {},
            }
            i = i + 1;
        }
        assert(nodes@.take(i as int) =~= nodes@);
        res
    }

    /// Mark nodes as dead and produce a new ring.
    ///
    /// All dead nodes are removed from the ring; the version is bumped. A node
    /// that is only under suspicion stays.
    /// Returns the **new** [`Ring`].
    ///
    /// # Errors
    /// - [`CoreError::NoNodesLeft`] if every node of the ring is dead. The
    ///   health entries are then updated and the ring is kept.
    pub fn rebalance_dead_nodes(&mut self, dead: &[NodeId]) -> (res: Result<Ring>)
        requires
            old(self)@.mark_dead(dead@.to_set()).surviving_nodes().len() > 0 ==> old(self).ring.version
                < u64::MAX,
        ensures
            match res {
                Ok(ring) => {
                    &&& old(self)@.mark_dead(dead@.to_set()).surviving_nodes().len() > 0
                    &&& final(self)@ == old(self)@.mark_dead(dead@.to_set()).drop_dead()
                    &&& ring@ == final(self)@.ring
                },
                Err(e) => {
                    &&& old(self)@.mark_dead(dead@.to_set()).surviving_nodes().len() == 0
                    &&& final(self)@ == old(self)@.mark_dead(dead@.to_set())
                    &&& e == CoreError::NoNodesLeft
                },
            },
            forall|n: NodeId| #[trigger]
                final(self).health@.contains_key(n) <==> old(self).health@.contains_key(n) || dead@.contains(n),
            forall|n: NodeId|
                dead@.contains(n) ==> #[trigger] final(self).health@[n] == NodeHealth::Dead(
                    old(self).ring.version,
                ),
            forall|n: NodeId|
                old(self).health@.contains_key(n) && !dead@.contains(n) ==> #[trigger] final(self).health@[n]
                    == old(self).health@[n],
            match res {
                Ok(ring) => {
                    &&& ring@ == final(self).ring@
                    &&& ring.version == old(self).ring.version + 1
                    &&& ring.nodes@.len() > 0
                    &&& forall|n: NodeId| #[trigger]
                        ring.nodes@.contains(n) <==> old(self).ring.nodes@.contains(n)
                            && !dead@.contains(n) && old(self).health@.contains_key(n)
                            && !(old(self).health@[n] is Dead)
                },
                Err(_) => {
                    &&& final(self).ring@ == old(self).ring@
                    &&& forall|n: NodeId| #[trigger]
                        old(self).ring.nodes@.contains(n) ==> dead@.contains(n)
                            || !old(self).health@.contains_key(n) || old(self).health@[n] is Dead
                },
            },
    {
        let version = self.ring.version;
        let mut i: usize = 0;
        assert(self@ =~= old(self)@.mark_dead(dead@.take(0).to_set()));
        while i < dead.len()
            invariant
                i <= dead@.len(),
                version == old(self)@.ring.version,
                self@ == old(self)@.mark_dead(dead@.take(i as int).to_set()),
            decreases dead.len() - i,
        {
            self.health.insert(dead[i], NodeHealth::Dead(version));
            proof {
                let before = dead@.take(i as int);
                let after = dead@.take(i + 1);
                assert(after =~= before.push(dead@[i as int]));
                assert forall|n: NodeId| after.contains(n) <==> before.contains(n) || n == dead@[i as int] by {
                    if before.contains(n) {
                        let j = choose|j: int| 0 <= j < before.len() && before[j] == n;
                        assert(after[j] == n);
                    }
                    assert(after[i as int] == dead@[i as int]);
                }
                assert(self@.health =~= old(self)@.mark_dead(after.to_set()).health);
            }
            i = i + 1;
        }
        assert(dead@.take(i as int) =~= dead@);

        let new_nodes = self.surviving_nodes();
        proof {
            let m = old(self)@;
            let d = dead@.to_set();
            assert forall|n: NodeId| #[trigger] new_nodes@.contains(n) <==> m.ring.nodes.contains(n)
                && !dead@.contains(n) && m.health.contains_key(n) && !(m.health[n] is Dead) by {
                lemma_filter_holds(m.ring.nodes, survivor_in(m.mark_dead(d).health), n);
            }
            if new_nodes@.len() == 0 {
                assert forall|n: NodeId| #[trigger] m.ring.nodes.contains(n) implies dead@.contains(n)
                    || !m.health.contains_key(n) || m.health[n] is Dead by {
                    assert(!new_nodes@.contains(n));
                }
            }
        }
        if new_nodes.len() == 0 {
            return Err(CoreError::NoNodesLeft);
        }
        let new_ring = self.ring.with_nodes(new_nodes);
        self.ring = new_ring.clone();
        Ok(new_ring)
    }

    /// Add a healthy node to the ring (and its health entry). A node that was
    /// taken for dead or suspected is alive again.
    ///
    /// Returns the new ring.
    pub fn add_node(&mut self, node: NodeId) -> (res: Ring)
        requires
            old(self).ring.version < u64::MAX,
        ensures
            final(self)@ == old(self)@.with_node(node),
            res@ == final(self)@.ring,
            res.version == old(self).ring.version + 1,
            res.nodes@ == if old(self).ring.nodes@.contains(node) {
                old(self).ring.nodes@
            } else {
                old(self).ring.nodes@.push(node)
            },
            final(self).health@ == old(self).health@.insert(node, NodeHealth::Alive),
    {
        let mut nodes = self.ring.nodes.clone();
        assert(nodes@ =~= self.ring.nodes@);
        if !contains_node(&nodes, node) {
            nodes.push(node);
        }
        self.health.insert(node, NodeHealth::Alive);
        let new_ring = self.ring.with_nodes(nodes);
        self.ring = new_ring.clone();
        new_ring
    }
}

impl Membership {
    /// Take over the ring of a cluster that was joined, version included.
    pub fn adopt_ring(&mut self, ring: Ring)
        ensures
            final(self)@ == old(self)@.adopting(ring@),
            final(self)@.tracks_ring(),
            final(self).ring == ring,
            forall|n: NodeId| #[trigger]
                final(self).health@.contains_key(n) <==> old(self).health@.contains_key(n)
                    || ring.nodes@.contains(n),
            forall|n: NodeId|
                old(self).health@.contains_key(n) ==> #[trigger] final(self).health@[n]
                    == old(self).health@[n],
            forall|n: NodeId|
                ring.nodes@.contains(n) && !old(self).health@.contains_key(n)
                    ==> #[trigger] final(self).health@[n] == NodeHealth::Alive,
    {
        let mut i: usize = 0;
        assert(self@.health =~= self@.adopting(RingView { nodes: ring@.nodes.take(0), ..ring@ }).health);
        while i < ring.nodes.len()
            invariant
                i <= ring.nodes@.len(),
                self@.health == old(self)@.adopting(
                    RingView { nodes: ring@.nodes.take(i as int), ..ring@ },
                ).health,
            decreases ring.nodes.len() - i,
        {
            let node = ring.nodes[i];
            proof {
                let before = ring@.nodes.take(i as int);
                let after = ring@.nodes.take(i + 1);
                assert(after =~= before.push(node));
                assert forall|n: NodeId| after.contains(n) <==> before.contains(n) || n == node by {
                    if before.contains(n) {
                        let j = choose|j: int| 0 <= j < before.len() && before[j] == n;
                        assert(after[j] == n);
                    }
                    assert(after[i as int] == node);
                }
            }
            if !self.health.contains_key(&node) {
                self.health.insert(node, NodeHealth::Alive);
            }
            i = i + 1;
            assert(self@.health =~= old(self)@.adopting(
                RingView { nodes: ring@.nodes.take(i as int), ..ring@ },
            ).health);
        }
        assert(ring@.nodes.take(i as int) =~= ring@.nodes);
        self.ring = ring;
    }
}

/// Whether `nodes` holds `node`.
pub(crate) fn contains_node(nodes: &Vec<NodeId>, node: NodeId) -> (res: bool)
    ensures
        res == nodes@.contains(node),
{
    let mut i: usize = 0;
    while i < nodes.len()
        invariant
            i <= nodes@.len(),
            forall|j: int| 0 <= j < i ==> nodes@[j] != node,
        decreases nodes.len() - i,
    {
        if nodes[i] == node {
            assert(nodes@[i as int] == node);
            return true;
        }
        i = i + 1;
    }
    false
}

/// Filtering a sequence without duplicates and then counting is counting the
/// members of the set that pass.
proof fn lemma_filter_to_set(s: Seq<NodeId>, p: spec_fn(NodeId) -> bool)
    requires
        s.no_duplicates(),
    ensures
        s.filter(p).len() == s.to_set().filter(p).len(),
    decreases s.len(),
{
    reveal(Seq::filter);
    if s.len() == 0 {
        assert(s.to_set().filter(p) =~= Set::empty());
    } else {
        let rest = s.drop_last();
        let last = s.last();
        assert forall|a: int, b: int| 0 <= a < b < rest.len() implies rest[a] != rest[b] by {
            assert(s[a] != s[b]);
        }
        lemma_filter_to_set(rest, p);
        assert(!rest.contains(last)) by {
            if rest.contains(last) {
                let j = choose|j: int| 0 <= j < rest.len() && rest[j] == last;
                assert(s[j] == s[s.len() - 1]);
            }
        }
        assert(s.to_set() =~= rest.to_set().insert(last)) by {
            assert forall|x: NodeId| s.contains(x) <==> rest.contains(x) || x == last by {
                if s.contains(x) && x != last {
                    let j = choose|j: int| 0 <= j < s.len() && s[j] == x;
                    assert(rest[j] == x);
                }
                if rest.contains(x) {
                    let j = choose|j: int| 0 <= j < rest.len() && rest[j] == x;
                    assert(s[j] == x);
                }
                assert(s[s.len() - 1] == last);
            }
        }
        vstd::seq_lib::seq_to_set_is_finite(rest);
        if p(last) {
            assert(s.to_set().filter(p) =~= rest.to_set().filter(p).insert(last));
            assert(!rest.to_set().filter(p).contains(last));
        } else {
            assert(s.to_set().filter(p) =~= rest.to_set().filter(p));
        }
    }
}

/// A node that was marked dead is not in the new ring, and every node of the old
/// ring that is alive or only under suspicion stays. The version grows by one.
pub proof fn law_rebalanced_ring(m: MembershipView, dead: Set<NodeId>)
    requires
        m.ring.version < u64::MAX,
    ensures
        ({
            let after = m.mark_dead(dead).drop_dead();
            &&& after.ring.version == m.ring.version + 1
            &&& after.tracks_ring()
            &&& forall|n: NodeId| #[trigger]
                after.ring.nodes.contains(n) <==> m.ring.nodes.contains(n) && !dead.contains(n)
                    && survivor_in(m.health)(n)
        }),
{
    let marked = m.mark_dead(dead);
    let after = marked.drop_dead();
    let p = survivor_in(marked.health);
    assert forall|n: NodeId| #[trigger]
        after.ring.nodes.contains(n) <==> m.ring.nodes.contains(n) && !dead.contains(n) && survivor_in(
            m.health,
        )(n) by {
        lemma_filter_holds(m.ring.nodes, p, n);
    }
}

/// An element is in the filtered sequence exactly when it is in the sequence
/// and passes.
pub(crate) proof fn lemma_filter_holds(s: Seq<NodeId>, p: spec_fn(NodeId) -> bool, n: NodeId)
    ensures
        s.filter(p).contains(n) <==> s.contains(n) && p(n),
{
    broadcast use {Seq::lemma_filter_pred, Seq::lemma_filter_contains};

    if s.filter(p).contains(n) {
        let i = choose|i: int| 0 <= i < s.filter(p).len() && s.filter(p)[i] == n;
        assert(p(s.filter(p)[i]));
        s.lemma_filter_contains_rev(p, n);
    }
    if s.contains(n) && p(n) {
        let i = choose|i: int| 0 <= i < s.len() && s[i] == n;
        assert(s.filter(p).contains(s[i]));
    }
}

/// A node that was added is in the ring and alive, whatever was known of it. The
/// nodes before it keep their place, and the others their health. The version
/// grows by one.
pub proof fn law_added_node(m: MembershipView, node: NodeId)
    requires
        m.ring.version < u64::MAX,
        m.tracks_ring(),
    ensures
        ({
            let after = m.with_node(node);
            &&& after.ring.version == m.ring.version + 1
            &&& after.tracks_ring()
            &&& after.ring.nodes.contains(node)
            &&& after.ring.nodes.take(m.ring.nodes.len() as int) == m.ring.nodes
            &&& after.ring.nodes == if m.ring.nodes.contains(node) {
                m.ring.nodes
            } else {
                m.ring.nodes.push(node)
            }
            &&& alive_in(after.health)(node)
            &&& after.alive_nodes().contains(node)
            &&& after.health.remove(node) == m.health.remove(node)
            &&& m.ring.nodes.no_duplicates() ==> after.ring.nodes.no_duplicates()
        }),
{
    let after = m.with_node(node);
    if !m.ring.nodes.contains(node) {
        assert(after.ring.nodes.last() == node);
        assert forall|n: NodeId| #[trigger] after.ring.nodes.contains(n) implies n == node
            || m.ring.nodes.contains(n) by {
            let i = choose|i: int| 0 <= i < after.ring.nodes.len() && after.ring.nodes[i] == n;
            if i < m.ring.nodes.len() {
                assert(m.ring.nodes[i] == n);
            }
        }
        if m.ring.nodes.no_duplicates() {
            assert forall|a: int, b: int|
                0 <= a < after.ring.nodes.len() && 0 <= b < after.ring.nodes.len() && a != b implies after.ring.nodes[a]
                != after.ring.nodes[b] by {
                if a < m.ring.nodes.len() {
                    assert(m.ring.nodes.contains(m.ring.nodes[a]));
                }
                if b < m.ring.nodes.len() {
                    assert(m.ring.nodes.contains(m.ring.nodes[b]));
                }
            }
        }
    }
    assert(after.ring.nodes.take(m.ring.nodes.len() as int) =~= m.ring.nodes);
    assert(after.health.remove(node) =~= m.health.remove(node));
    lemma_filter_holds(after.ring.nodes, alive_in(after.health), node);
}

/// When nodes die, only the shards that they owned, or that a node already dead
/// owned, get a new owner.
pub proof fn law_rebalance_moves_only_lost_shards(
    m: MembershipView,
    dead: Set<NodeId>,
    object_key: Seq<char>,
    shard_index: nat,
)
    requires
        m.ring.nodes.len() > 0,
        !dead.contains(placement::owner(object_key, shard_index, m.ring.nodes)),
        survivor_in(m.health)(placement::owner(object_key, shard_index, m.ring.nodes)),
    ensures
        placement::owner(
            object_key,
            shard_index,
            m.mark_dead(dead).drop_dead().ring.nodes,
        ) == placement::owner(object_key, shard_index, m.ring.nodes),
{
    placement::law_leaving_nodes_only_lose(
        object_key,
        shard_index,
        m.ring.nodes,
        survivor_in(m.mark_dead(dead).health),
    );
}

/// When a node joins, a shard moves to it or stays where it was.
pub proof fn law_join_moves_shards_only_to_newcomer(
    m: MembershipView,
    node: NodeId,
    object_key: Seq<char>,
    shard_index: nat,
)
    requires
        m.ring.nodes.len() > 0,
    ensures
        ({
            let after = placement::owner(object_key, shard_index, m.with_node(node).ring.nodes);
            after == node || after == placement::owner(object_key, shard_index, m.ring.nodes)
        }),
{
    placement::law_joining_node_only_takes(object_key, shard_index, m.ring.nodes, node);
}

/// A new membership has the given ring at version 1, and knows its nodes, all of them
/// alive, and no others.
pub proof fn law_new_membership(nodes: Seq<NodeId>, n: NodeId)
    ensures
        MembershipView::starting(nodes).ring.nodes == nodes,
        MembershipView::starting(nodes).ring.version == 1,
        MembershipView::starting(nodes).health.contains_key(n) <==> nodes.contains(n),
        nodes.contains(n) ==> MembershipView::starting(nodes).health[n] == NodeHealth::Alive,
{
}

/// Nodes that are marked dead are dead as of the current ring version. What is known of
/// the others stays, and so does the ring.
pub proof fn law_marking_touches_only_the_dead(m: MembershipView, dead: Set<NodeId>, n: NodeId)
    ensures
        m.mark_dead(dead).ring == m.ring,
        m.mark_dead(dead).health.contains_key(n) <==> m.health.contains_key(n) || dead.contains(n),
        dead.contains(n) ==> m.mark_dead(dead).health[n] == NodeHealth::Dead(m.ring.version),
        !dead.contains(n) && m.health.contains_key(n) ==> m.mark_dead(dead).health[n] == m.health[n],
{
}

/// The nodes that stay on the ring stay in order: they are those that were known, not
/// dead before, and not declared dead now.
pub proof fn law_rebalance_keeps_the_order(
    m: MembershipView,
    dead: Set<NodeId>,
    keep: spec_fn(NodeId) -> bool,
)
    requires
        m.ring.version < u64::MAX,
        forall|n: NodeId| #[trigger]
            keep(n) <==> m.health.contains_key(n) && !(m.health[n] is Dead) && !dead.contains(n),
    ensures
        m.mark_dead(dead).surviving_nodes() == m.ring.nodes.filter(keep),
        m.mark_dead(dead).drop_dead().ring.nodes == m.ring.nodes.filter(keep),
        m.mark_dead(dead).drop_dead().ring.version == m.ring.version + 1,
        m.mark_dead(dead).drop_dead().health == m.mark_dead(dead).health,
{
    let p = survivor_in(m.mark_dead(dead).health);
    assert(p =~= keep);
}

/// The alive nodes are those of the ring that are known to be alive, in ring order.
pub proof fn law_alive_nodes(m: MembershipView, alive: spec_fn(NodeId) -> bool)
    requires
        forall|n: NodeId| #[trigger]
            alive(n) <==> m.health.contains_key(n) && m.health[n] == NodeHealth::Alive,
    ensures
        m.alive_nodes() == m.ring.nodes.filter(alive),
        m.health.dom().filter(alive_in(m.health)) == m.health.dom().filter(alive),
{
    assert(alive_in(m.health) =~= alive);
}

/// A cluster's ring is taken over as it is, version included. What is known of a node
/// stays, and a node that was not known is taken for alive.
pub proof fn law_adopted_ring(m: MembershipView, ring: RingView, n: NodeId)
    ensures
        m.adopting(ring).ring == ring,
        m.adopting(ring).health.contains_key(n) <==> m.health.contains_key(n) || ring.nodes.contains(n),
        m.health.contains_key(n) ==> m.adopting(ring).health[n] == m.health[n],
        ring.nodes.contains(n) && !m.health.contains_key(n) ==> m.adopting(ring).health[n]
            == NodeHealth::Alive,
{
}

} // verus!
