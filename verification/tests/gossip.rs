//! The failure detector, what its events have a node send, and repair.

use dfs::block::BlockMeta;
use dfs::gossip::{MembershipEvent, ProbeState, SwimConfig, Swimmer};
use dfs::gossip_loop::{dispatch, peer_lookup, Action};
use dfs::membership::NodeHealth;
use dfs::repair::RingChange;
use dfs::types::{NodeId, Ring};
use rand::rngs::StdRng;
use rand::{RngCore, SeedableRng};

fn node_ids(n: u8) -> Vec<NodeId> {
    (0..n).map(|_| uuid::Uuid::new_v4().as_u128()).collect()
}

/// A swimmer of node 1 whose clock readings and draws the test chooses.
fn swimmer(nodes: Vec<NodeId>) -> Swimmer {
    Swimmer::new_seeded(1, nodes, 42)
}

#[test]
fn default_configuration() {
    let c = SwimConfig::default();
    assert_eq!(c.probe_interval, 1_000_000_000);
    assert_eq!(c.probe_timeout, 1_000_000_000);
    assert_eq!(c.num_indirect, 2);
    assert_eq!(c.suspicion_timeout, 3_000_000_000);
}

#[test]
fn tick_produces_ping_when_idle() {
    let ids = node_ids(5);
    let my = ids[0];
    let mut s = Swimmer::new_seeded(my, ids.clone(), 42);

    let events = s.tick();
    assert!(events.iter().any(|e| matches!(e, MembershipEvent::Ping(_))));
}

#[test]
fn no_ping_when_only_self() {
    let my = uuid::Uuid::new_v4().as_u128();
    let mut s = Swimmer::new_seeded(my, vec![my], 42);
    let events = s.tick();
    assert!(events.is_empty());
}

#[test]
fn dead_node_removed_from_ring() {
    let ids = node_ids(5);
    let mut s = Swimmer::new_seeded(ids[0], ids.clone(), 42);

    s.membership.health.insert(ids[2], NodeHealth::Dead(0));
    let result = s.membership.rebalance_dead_nodes(&[ids[2]]);
    assert!(result.is_ok());
    assert_eq!(s.membership.ring.len(), 4);
    assert!(!s.membership.alive_nodes().contains(&ids[2]));
}

#[test]
fn one_seed_gives_one_sequence_of_targets() {
    let ids = node_ids(5);
    let mut a = Swimmer::new_seeded(ids[0], ids.clone(), 7);
    let mut b = Swimmer::new_seeded(ids[0], ids.clone(), 7);
    for _ in 0..20 {
        let events = a.tick();
        assert_eq!(events, b.tick());
        for e in events {
            if let MembershipEvent::Ping(n) = e {
                a.on_pong(n);
                b.on_pong(n);
            }
        }
    }
}

#[test]
fn targets_come_from_the_seeded_generator() {
    // This node is not in the ring, so every draw gives a target.
    let nodes: Vec<NodeId> = (10..20).collect();
    for seed in 0..20u64 {
        let mut s = Swimmer::new_seeded(1, nodes.clone(), seed);
        let mut rng = StdRng::seed_from_u64(seed);
        for _ in 0..5 {
            let target = nodes[rng.next_u64() as usize % nodes.len()];
            assert_eq!(s.tick(), vec![MembershipEvent::Ping(target)]);
            s.on_pong(target);
        }
    }
}

#[test]
fn a_tick_counts_and_a_seed_from_the_system_works() {
    let mut s = Swimmer::new(1, vec![1, 2], Some(42));
    for _ in 0..3 {
        let _events = s.tick();
    }
    assert_eq!(s.tick_count, 3);
}

#[test]
fn a_draw_selects_the_target() {
    let mut s = swimmer(vec![1, 2, 3]);
    // The candidates are 2 and 3: this node does not probe itself.
    assert_eq!(s.start_probe(5, 9), Some(MembershipEvent::Ping(3)));
    assert_eq!(
        s.pending,
        Some(ProbeState { target: 3, deadline: 1_000_000_005, indirect_sent: false })
    );
    // A probe is pending, so no other starts.
    assert_eq!(s.start_probe(6, 8), None);
    s.on_pong(3);
    assert_eq!(s.start_probe(6, 8), Some(MembershipEvent::Ping(2)));
}

#[test]
fn every_idle_tick_pings_one_alive_peer() {
    for seed in 0..50u64 {
        let mut s = Swimmer::new_seeded(1, vec![1, 2, 3], seed);
        s.membership.health.insert(3, NodeHealth::Dead(1));
        for _ in 0..5 {
            assert_eq!(s.tick(), vec![MembershipEvent::Ping(2)]);
            s.on_pong(2);
        }
    }
}

#[test]
fn a_pong_ends_only_its_own_probe() {
    let mut s = swimmer(vec![1, 2, 3]);
    s.start_probe(0, 0);
    s.on_pong(3);
    assert!(s.pending.is_some());
    s.on_pong(2);
    assert_eq!(s.pending, None);
    assert_eq!(s.check_probe(u128::MAX, &[]), None);
}

#[test]
fn a_probe_in_time_is_left_alone() {
    let mut s = swimmer(vec![1, 2, 3]);
    s.start_probe(0, 0);
    assert_eq!(s.draws_needed(999_999_999), 0);
    assert_eq!(s.check_probe(999_999_999, &[]), None);
    assert_eq!(s.draws_needed(1_000_000_000), 1);
}

#[test]
fn an_overdue_probe_goes_to_proxies_then_to_suspicion() {
    let mut s = swimmer(vec![1, 2, 3, 4, 5]);
    s.tick_count = 10;
    s.start_probe(0, 0);
    let now = 1_000_000_000;
    assert_eq!(s.draws_needed(now), 2);
    // The candidates are 3, 4 and 5, and then, 4 being taken, 3 and 5.
    let event = s.check_probe(now, &[4, 2]);
    assert_eq!(event, Some(MembershipEvent::PingReq { target: 2, via: vec![4, 3] }));
    assert_eq!(s.draws_needed(now), 0);
    assert_eq!(s.check_probe(now, &[]), Some(MembershipEvent::Suspect(2)));
    assert_eq!(s.pending, None);
    assert_eq!(s.membership.health[&2], NodeHealth::Suspect(10));
}

#[test]
fn no_proxy_is_asked_twice() {
    for draw in 0..12u64 {
        let mut s = swimmer(vec![1, 2, 3, 4, 5]);
        s.config.num_indirect = 3;
        s.pending = Some(ProbeState { target: 2, deadline: 0, indirect_sent: false });
        assert_eq!(s.draws_needed(0), 3);
        let mut asked = match s.check_probe(0, &[draw, draw, draw]) {
            Some(MembershipEvent::PingReq { target: 2, via }) => via,
            other => panic!("unexpected {other:?}"),
        };
        asked.sort();
        assert_eq!(asked, vec![3, 4, 5]);
    }
}

#[test]
fn a_death_leaves_suspects_on_the_ring() {
    let mut s = swimmer(vec![1, 2, 3]);
    s.membership.health.insert(2, NodeHealth::Suspect(0));
    s.membership.health.insert(3, NodeHealth::Suspect(2));
    s.tick_count = 3;
    assert_eq!(
        s.expire_suspects(),
        vec![
            MembershipEvent::Dead(2),
            MembershipEvent::RingChanged(Ring { nodes: vec![1, 3], version: 2 }),
        ]
    );
}

#[test]
fn a_suspicion_lasts_three_ticks() {
    let mut s = swimmer(vec![1, 2, 3]);
    s.membership.health.insert(2, NodeHealth::Suspect(10));
    s.tick_count = 12;
    assert!(s.expire_suspects().is_empty());
    s.tick_count = 13;
    let events = s.expire_suspects();
    assert_eq!(
        events,
        vec![
            MembershipEvent::Dead(2),
            MembershipEvent::RingChanged(Ring { nodes: vec![1, 3], version: 2 }),
        ]
    );
    assert_eq!(s.membership.health[&2], NodeHealth::Dead(1));
    assert!(s.expire_suspects().is_empty());
}

#[test]
fn the_last_death_keeps_the_ring() {
    let mut s = swimmer(vec![2]);
    s.membership.health.insert(2, NodeHealth::Suspect(0));
    s.tick_count = 3;
    assert_eq!(s.expire_suspects(), vec![MembershipEvent::Dead(2)]);
    assert_eq!(s.membership.ring, Ring { nodes: vec![2], version: 1 });
}

#[test]
fn a_silent_peer_is_dead_within_five_ticks() {
    let mut s = swimmer(vec![1, 2, 3]);
    s.config.probe_timeout = 0;
    s.pending = Some(ProbeState { target: 2, deadline: 0, indirect_sent: false });
    let first = s.tick();
    assert!(matches!(first[0], MembershipEvent::PingReq { target: 2, .. }));
    let second = s.tick();
    assert_eq!(second[0], MembershipEvent::Suspect(2));
    let mut died = false;
    for _ in 0..3 {
        assert!(!died);
        // The other peer answers.
        s.on_pong(3);
        died = s.tick().contains(&MembershipEvent::Dead(2));
    }
    assert!(died);
    assert!(!s.membership.ring.nodes.contains(&2));
    assert_eq!(s.membership.ring.version, 2);
}

#[test]
fn the_latest_address_of_a_peer_counts() {
    let mut s = swimmer(vec![1]);
    s.add_peer(2, "a:1".to_string());
    s.add_peer(2, "b:2".to_string());
    assert_eq!(s.peers[&2], "b:2");
}

fn gossip_messages(actions: Vec<Action>) -> Vec<(String, String)> {
    let mut out: Vec<(String, String)> = actions
        .into_iter()
        .map(|a| match a {
            Action::Gossip { addr, payload } => (addr, payload),
            other => panic!("unexpected {other:?}"),
        })
        .collect();
    out.sort();
    out
}

#[test]
fn events_become_messages() {
    let peers = peer_lookup(vec![
        (2, "old".to_string()),
        (3, "c:3".to_string()),
        (2, "b:2".to_string()),
    ]);
    assert_eq!(peers.len(), 2);

    let actions = dispatch(MembershipEvent::Ping(2), &peers);
    assert!(matches!(&actions[..], [Action::Ping { target: 2, addr }] if addr == "b:2"));
    assert!(dispatch(MembershipEvent::Ping(9), &peers).is_empty());

    let three = "00000000-0000-0000-0000-000000000003";
    let actions = dispatch(MembershipEvent::PingReq { target: 3, via: vec![9, 2] }, &peers);
    assert_eq!(gossip_messages(actions), vec![("b:2".to_string(), format!("ping-req:{three}"))]);

    let actions = dispatch(MembershipEvent::Suspect(3), &peers);
    assert_eq!(
        gossip_messages(actions),
        vec![
            ("b:2".to_string(), format!("suspect:{three}")),
            ("c:3".to_string(), format!("suspect:{three}")),
        ]
    );

    let id = 0xa1a2a3a4_b1b2_c1c2_d1d2_d3d4d5d6d7d8u128;
    let actions = dispatch(MembershipEvent::Dead(id), &peers);
    assert_eq!(
        gossip_messages(actions)[0],
        ("b:2".to_string(), "dead:a1a2a3a4-b1b2-c1c2-d1d2-d3d4d5d6d7d8".to_string())
    );

    let actions =
        dispatch(MembershipEvent::RingChanged(Ring { nodes: vec![2], version: 5 }), &peers);
    assert!(matches!(
        &actions[..],
        [Action::Notify(RingChange { old_version: 4, new_version: 5, dead_nodes })]
            if dead_nodes.is_empty()
    ));
}

#[test]
fn repair_stores_outdated_intact_blocks_again() {
    let change = RingChange { old_version: 4, new_version: 5, dead_nodes: vec![] };
    let meta = BlockMeta::new("obj", 2, 4, b"data");
    let (new, shard) = change.repair(meta.clone(), b"data".to_vec()).unwrap();
    assert_eq!(new.ring_version, 5);
    assert_eq!(new.block_id, meta.block_id);
    assert_eq!((shard.index, &shard.data[..]), (2, &b"data"[..]));
    // It is up to date now.
    assert!(change.repair(new, shard.data).is_none());
    // A corrupt block is left alone.
    assert!(change.repair(meta, b"dats".to_vec()).is_none());
    assert!(change.repair(BlockMeta::new("obj", 2, 6, b"data"), b"data".to_vec()).is_none());
}

#[test]
fn the_clock_keeps_its_start() {
    let mut s = swimmer(vec![1, 2, 3]);
    let epoch = s.epoch;
    s.pending = Some(ProbeState { target: 2, deadline: 0, indirect_sent: false });
    for _ in 0..6 {
        let _events = s.tick();
    }
    s.on_pong(3);
    s.add_peer(2, "a:1".to_string());
    assert_eq!(s.epoch, epoch);
}

#[test]
fn repair_retags_older_blocks_once() {
    let change = RingChange { old_version: 4, new_version: 5, dead_nodes: vec![] };
    let meta = BlockMeta::new("obj", 2, 4, b"data");
    assert!(change.outdates(&meta));
    let id = meta.block_id.clone();
    let new = change.retag(meta);
    assert_eq!(new.ring_version, 5);
    assert_eq!(new.block_id, id);
    assert!(new.verify(b"data"));
    assert!(!change.outdates(&new));
    assert!(!change.outdates(&BlockMeta::new("obj", 2, 6, b"data")));
}
