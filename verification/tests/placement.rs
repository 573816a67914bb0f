//! Placement and membership.

use dfs::error::CoreError;
use dfs::membership::{Membership, NodeHealth};
use dfs::placement::{assign_node, place};
use dfs::types::{NodeId, Ring, StorageClass};

fn node_ids(n: u8) -> Vec<NodeId> {
    (0..n).map(|_| uuid::Uuid::new_v4().as_u128()).collect()
}

fn ring_5() -> Ring {
    Ring::new(node_ids(5))
}

#[test]
fn assign_deterministic() {
    let ring = ring_5();
    let first = assign_node("obj", 0, &ring);
    for _ in 0..100 {
        assert_eq!(assign_node("obj", 0, &ring), first);
    }
}

#[test]
fn assign_is_the_highest_score() {
    let ring = Ring::new(vec![11, 22, 33, 44]);
    let score = |node: NodeId| {
        let mut input = b"obj-7".to_vec();
        input.extend_from_slice(&node.to_be_bytes());
        let hash = blake3::hash(&input);
        u64::from_le_bytes(hash.as_bytes()[..8].try_into().unwrap())
    };
    let owner = assign_node("obj", 7, &ring);
    for node in &ring.nodes {
        assert!(score(*node) <= score(owner));
    }
}

#[test]
fn different_keys_different_assignments() {
    let ring = ring_5();
    let mut counts = std::collections::HashMap::new();
    for i in 0..1000u32 {
        let n = assign_node(&i.to_string(), 0, &ring);
        *counts.entry(n).or_insert(0) += 1;
    }
    for (_, c) in counts {
        assert!(c > 100, "node had {c} assignments, expected spread");
        assert!(c < 300, "node had {c} assignments, expected spread");
    }
}

#[test]
fn place_returns_k_plus_m_assignments() {
    let ring = ring_5();
    let assignments = place("obj", StorageClass::new(3, 2), &ring).unwrap();
    assert_eq!(assignments.len(), 5);
    // Each entry is (ShardIndex, NodeId)
    for (i, (_shard, _node)) in assignments.iter().enumerate() {
        assert_eq!(*_shard, i as u8);
        assert_eq!(*_node, assign_node("obj", i as u8, &ring));
    }
}

#[test]
fn place_empty_ring_fails() {
    let ring = Ring { nodes: vec![], version: 1 };
    let e = place("obj", StorageClass::new(3, 2), &ring).unwrap_err();
    assert_eq!(e, CoreError::NoNodesLeft);
}

#[test]
fn adding_node_preserves_most_mappings() {
    let mut ids: Vec<NodeId> = node_ids(5);
    let ring5 = Ring::new(ids.clone());
    ids.push(uuid::Uuid::new_v4().as_u128());
    let ring6 = ring5.with_nodes(ids);

    let mut changed = 0u32;
    for object in 0..1000u32 {
        let n5 = assign_node(&object.to_string(), 0, &ring5);
        let n6 = assign_node(&object.to_string(), 0, &ring6);
        if n5 != n6 {
            changed += 1;
        }
    }

    let pct = (changed as f64 / 1000.0) * 100.0;
    assert!(pct > 5.0 && pct < 30.0, "expected remap ~16%, got {pct:.1}%");
}

#[test]
fn a_newcomer_only_takes() {
    let ring5 = Ring::new(vec![1, 2, 3, 4, 5]);
    let ring6 = ring5.with_nodes(vec![1, 2, 3, 4, 5, 6]);
    for object in 0..200u32 {
        let before = assign_node(&object.to_string(), 0, &ring5);
        let after = assign_node(&object.to_string(), 0, &ring6);
        assert!(after == before || after == 6);
    }
}

#[test]
fn a_leaver_only_loses() {
    let ring5 = Ring::new(vec![1, 2, 3, 4, 5]);
    let ring4 = ring5.with_nodes(vec![1, 2, 4, 5]);
    for object in 0..200u32 {
        let before = assign_node(&object.to_string(), 0, &ring5);
        let after = assign_node(&object.to_string(), 0, &ring4);
        assert!(before == 3 || after == before);
    }
}

#[test]
fn new_membership_all_alive() {
    let ids = node_ids(5);
    let m = Membership::new(ids.clone());
    assert_eq!(m.ring.version, 1);
    assert_eq!(m.ring.len(), 5);
    assert_eq!(m.alive_count(), 5);
    for id in &ids {
        assert_eq!(m.health[id], NodeHealth::Alive);
    }
}

#[test]
fn rebalance_removes_dead_nodes() {
    let mut m = Membership::new(node_ids(5));
    let dead = vec![m.ring.nodes[1], m.ring.nodes[3]];
    let new_ring = m.rebalance_dead_nodes(&dead).unwrap();

    assert_eq!(new_ring.version, 2);
    assert_eq!(new_ring.len(), 3);
    for node in &dead {
        assert_eq!(m.health[node], NodeHealth::Dead(1));
    }
    assert!(!new_ring.nodes.contains(&dead[0]));
    assert!(!new_ring.nodes.contains(&dead[1]));
}

#[test]
fn rebalance_all_dead_fails() {
    let ids = node_ids(3);
    let mut m = Membership::new(ids.clone());
    let result = m.rebalance_dead_nodes(&ids);
    assert_eq!(result, Err(CoreError::NoNodesLeft));
    // The health is updated, and the ring is kept.
    assert_eq!(m.alive_count(), 0);
    assert_eq!(m.ring, Ring { nodes: ids, version: 1 });
}

#[test]
fn rebalance_keeps_suspects() {
    let mut m = Membership::new(vec![1, 2, 3]);
    m.health.insert(2, NodeHealth::Suspect(9));
    let ring = m.rebalance_dead_nodes(&[1]).unwrap();
    assert_eq!(ring, Ring { nodes: vec![2, 3], version: 2 });
    assert_eq!(m.health[&2], NodeHealth::Suspect(9));
    assert_eq!(m.alive_nodes(), vec![3]);
}

#[test]
fn a_ring_of_suspects_is_still_a_ring() {
    let mut m = Membership::new(vec![1, 2]);
    m.health.insert(1, NodeHealth::Suspect(1));
    let ring = m.rebalance_dead_nodes(&[2]).unwrap();
    assert_eq!(ring, Ring { nodes: vec![1], version: 2 });
    assert_eq!(m.ring, ring);
    // A suspect that is declared dead goes.
    assert_eq!(m.rebalance_dead_nodes(&[1]), Err(CoreError::NoNodesLeft));
}

#[test]
fn the_last_version_is_enough_to_lose_every_node() {
    let mut m = Membership::new(vec![1]);
    m.ring.version = u64::MAX;
    assert_eq!(m.rebalance_dead_nodes(&[1]), Err(CoreError::NoNodesLeft));
    assert_eq!(m.health[&1], NodeHealth::Dead(u64::MAX));
}

#[test]
fn add_node_bumps_version() {
    let mut m = Membership::new(node_ids(3));
    let new_id = uuid::Uuid::new_v4().as_u128();
    let new_ring = m.add_node(new_id);

    assert_eq!(new_ring.version, 2);
    assert_eq!(new_ring.len(), 4);
    assert!(new_ring.nodes.contains(&new_id));
    assert_eq!(m.health[&new_id], NodeHealth::Alive);
}

#[test]
fn add_duplicate_node_no_effect() {
    let ids = node_ids(3);
    let mut m = Membership::new(ids.clone());
    let new_ring = m.add_node(ids[0]);
    assert_eq!(new_ring.len(), 3);
    assert_eq!(new_ring.version, 2); // still bumped (changed semantics)
    // Health stays Alive.
    assert_eq!(m.health[&ids[0]], NodeHealth::Alive);
}

#[test]
fn a_node_that_died_is_alive_when_added_again() {
    let mut m = Membership::new(vec![1, 2]);
    m.rebalance_dead_nodes(&[2]).unwrap();
    let ring = m.add_node(2);
    assert_eq!(ring, Ring { nodes: vec![1, 2], version: 3 });
    assert_eq!(m.health[&2], NodeHealth::Alive);
    assert_eq!(m.alive_nodes(), vec![1, 2]);
}

#[test]
fn alive_nodes_filtering() {
    let mut m = Membership::new(node_ids(4));
    let dead_id = m.ring.nodes[2];
    m.rebalance_dead_nodes(&[dead_id]).unwrap();
    let alive = m.alive_nodes();
    assert_eq!(alive.len(), 3);
    assert!(!alive.contains(&dead_id));
}
