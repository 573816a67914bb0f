//! Background SWIM gossip: what each membership event has a node send.
//!
//! - `Ping(id)`: a ping to `id`
//! - `PingReq { target, via }`: ask the `via` nodes to ping `target`
//! - `Suspect(id)` / `Dead(id)`: broadcast via gossip to all peers
//! - `RingChanged(ring)`: notify the repair loop

use std::collections::HashMap;
use vstd::prelude::*;
use vstd::string::*;

use crate::gossip::{EventView, MembershipEvent};
use crate::ids;
use crate::ids::format_uuid;
use crate::repair::{RingChange, RingChangeView};
use crate::types::{NodeId, RingView};

verus! {

broadcast use vstd::std_specs::hash::group_hash_axioms;

/// What an action does.
#[verifier::ext_equal]
pub enum ActionView {
    /// Ping the node `target` at `addr`; a reply is a pong from it.
    Ping { target: NodeId, addr: Seq<char> },
    /// Send a gossip message to the node at `addr`.
    Gossip { addr: Seq<char>, payload: Seq<char> },
    /// Tell the repair loop.
    Notify(RingChangeView),
}

/// Something for the caller to send.
#[derive(Debug)]
pub enum Action {
    /// Ping the node `target` at `addr`; a reply is a pong from it.
    Ping { target: NodeId, addr: String },
    /// Send a gossip message to the node at `addr`.
    Gossip { addr: String, payload: String },
    /// Tell the repair loop.
    Notify(RingChange),
}

impl View for Action {
    type V = ActionView;

    open spec fn view(&self) -> ActionView {
        match *self {
            Action::Ping { target, addr } => ActionView::Ping { target, addr: addr@ },
            Action::Gossip { addr, payload } => ActionView::Gossip { addr: addr@, payload: payload@ },
            Action::Notify(change) => ActionView::Notify(change@),
        }
    }
}

/// What each of `actions` does.
pub open spec fn action_views(actions: Seq<Action>) -> Seq<ActionView> {
    actions.map_values(|a: Action| a@)
}

/// The addresses of `peers` as text.
pub open spec fn addresses(peers: Map<NodeId, String>) -> Map<NodeId, Seq<char>> {
    peers.map_values(|a: String| a@)
}

/// The address book that a list of peers gives. Of two entries for one node, the
/// later counts.
pub open spec fn address_book(entries: Seq<(NodeId, String)>) -> Map<NodeId, Seq<char>>
    decreases entries.len(),
{
    if entries.len() == 0 {
        Map::empty()
    } else {
        address_book(entries.drop_last()).insert(entries.last().0, entries.last().1@)
    }
}

/// The same gossip message to each of `nodes` that has an address, in order.
pub open spec fn gossip_to(
    nodes: Seq<NodeId>,
    peers: Map<NodeId, Seq<char>>,
    payload: Seq<char>,
) -> Seq<ActionView>
    decreases nodes.len(),
{
    if nodes.len() == 0 {
        Seq::empty()
    } else {
        let before = gossip_to(nodes.drop_last(), peers, payload);
        if peers.contains_key(nodes.last()) {
            before.push(ActionView::Gossip { addr: peers[nodes.last()], payload })
        } else {
            before
        }
    }
}

/// What an event has a node send, where `order` is the order in which the peers
/// are met.
pub open spec fn actions_for(
    event: EventView,
    peers: Map<NodeId, Seq<char>>,
    order: Seq<NodeId>,
) -> Seq<ActionView> {
    match event {
        EventView::Ping(target) => if peers.contains_key(target) {
            seq![ActionView::Ping { target, addr: peers[target] }]
        } else {
            seq![]
        },
        EventView::PingReq { target, via: proxies } => gossip_to(
            proxies,
            peers,
            "ping-req:"@ + ids::uuid_text(target),
        ),
        EventView::Suspect(node) => gossip_to(order, peers, "suspect:"@ + ids::uuid_text(node)),
        EventView::Dead(node) => gossip_to(order, peers, "dead:"@ + ids::uuid_text(node)),
        EventView::RingChanged(ring) => seq![
            ActionView::Notify(
                RingChangeView {
                    old_version: (ring.version - 1) as u64,
                    new_version: ring.version,
                    dead_nodes: seq![],
                },
            ),
        ],
    }
}

/// The peers to look addresses up in.
pub fn peer_lookup(peer_addrs: Vec<(NodeId, String)>) -> (res: HashMap<NodeId, String>)
    ensures
        addresses(res@) == address_book(peer_addrs@),
{
    let mut res: HashMap<NodeId, String> = HashMap::new();
    assert(addresses(res@) =~= address_book(peer_addrs@.take(0)));
    let mut i: usize = 0;
    while i < peer_addrs.len()
        invariant
            i <= peer_addrs@.len(),
            addresses(res@) == address_book(peer_addrs@.take(i as int)),
        decreases peer_addrs.len() - i,
    {
        let ghost before = res@;
        res.insert(peer_addrs[i].0, peer_addrs[i].1.clone());
        proof {
            assert(peer_addrs@.take(i + 1).drop_last() =~= peer_addrs@.take(i as int));
            assert(addresses(res@) =~= addresses(before).insert(
                peer_addrs@[i as int].0,
                peer_addrs@[i as int].1@,
            ));
        }
        i = i + 1;
    }
    assert(peer_addrs@.take(i as int) =~= peer_addrs@);
    res
}

fn peer_ids(peers: &HashMap<NodeId, String>) -> (res: Vec<NodeId>)
    ensures
        res@.no_duplicates(),
        res@.to_set() == peers@.dom(),
{
    let mut res: Vec<NodeId> = Vec::new();
    for key in iter: peers.keys()
        invariant
            iter.seq().unref().to_set() == peers@.dom(),
            iter.seq().no_duplicates(),
            res@.len() == iter.index(),
            forall|j: int| 0 <= j < res@.len() ==> res@[j] == *iter.seq()[j],
    {
        res.push(*key);
    }
    proof {
        let keys = vstd::std_specs::iter::IteratorSpec::remaining(
            &vstd::std_specs::hash::spec_keys_iter(peers),
        );
        assert(res@ =~= keys.unref());
        assert forall|a: int, b: int| 0 <= a < b < res@.len() implies res@[a] != res@[b] by {
            assert(keys[a] != keys[b]);
        }
    }
    res
}

fn gossip_all(nodes: &Vec<NodeId>, peers: &HashMap<NodeId, String>, payload: &str) -> (res: Vec<Action>)
    ensures
        action_views(res@) == gossip_to(nodes@, addresses(peers@), payload@),
{
    let mut res: Vec<Action> = Vec::new();
    assert(action_views(res@) =~= gossip_to(nodes@.take(0), addresses(peers@), payload@));
    let mut i: usize = 0;
    while i < nodes.len()
        invariant
            i <= nodes@.len(),
            action_views(res@) == gossip_to(nodes@.take(i as int), addresses(peers@), payload@),
        decreases nodes.len() - i,
    {
        let ghost before = res@;
        assert(nodes@.take(i + 1).drop_last() =~= nodes@.take(i as int));
        if let Some(addr) = peers.get(&nodes[i]) {
            let action = Action::Gossip { addr: addr.clone(), payload: payload.to_owned() };
            res.push(action);
            assert(action_views(res@) =~= action_views(before).push(action@));
        }
        i = i + 1;
    }
    assert(nodes@.take(i as int) =~= nodes@);
    res
}

/// What an event has a node send. A broadcast goes to every peer once, in no
/// particular order.
pub fn dispatch(event: MembershipEvent, peers: &HashMap<NodeId, String>) -> (res: Vec<Action>)
    requires
        event matches MembershipEvent::RingChanged(ring) ==> ring.version >= 1,
    ensures
        exists|order: Seq<NodeId>|
            order.no_duplicates() && order.to_set() == peers@.dom() && action_views(res@)
                == #[trigger] actions_for(event@, addresses(peers@), order),
        event matches MembershipEvent::RingChanged(ring) ==> res@.len() == 1 && (
        res@[0] matches Action::Notify(change) && change.new_version == ring.version
            && change.old_version == ring.version - 1),
        event matches MembershipEvent::Ping(target) ==> if peers@.contains_key(target) {
            res@.len() == 1 && (res@[0] matches Action::Ping { target: to, addr } && to == target && addr@
                == peers@[target]@)
        } else {
            res@.len() == 0
        },
{
    let order = peer_ids(peers);
    let ghost book = addresses(peers@);
    let mut res: Vec<Action> = Vec::new();
    match event {
        MembershipEvent::Ping(target) => {
            if let Some(addr) = peers.get(&target) {
                res.push(Action::Ping { target, addr: addr.clone() });
            }
            assert(action_views(res@) =~= actions_for(event@, book, order@));
        },
        MembershipEvent::PingReq { target, via } => {
            let payload = "ping-req:".to_owned().concat(format_uuid(target).as_str());
            res = gossip_all(&via, peers, payload.as_str());
        },
        MembershipEvent::Suspect(node) => {
            let payload = "suspect:".to_owned().concat(format_uuid(node).as_str());
            res = gossip_all(&order, peers, payload.as_str());
        },
        MembershipEvent::Dead(node) => {
            let payload = "dead:".to_owned().concat(format_uuid(node).as_str());
            res = gossip_all(&order, peers, payload.as_str());
        },
        MembershipEvent::RingChanged(ring) => {
            let change = RingChange {
                old_version: ring.version - 1,
                new_version: ring.version,
                dead_nodes: Vec::new(),
            };
            res.push(Action::Notify(change));
            assert(change@.dead_nodes =~= seq![]);
            assert(action_views(res@) =~= actions_for(event@, book, order@));
        },
    }
    assert(action_views(res@) == actions_for(event@, book, order@));
    res
}

/// A suspicion or a death is told to every peer: each address in the book gets
/// the message.
pub proof fn law_broadcast_reaches_every_peer(
    order: Seq<NodeId>,
    peers: Map<NodeId, Seq<char>>,
    payload: Seq<char>,
    peer: NodeId,
)
    requires
        order.to_set() == peers.dom(),
        peers.contains_key(peer),
    ensures
        gossip_to(order, peers, payload).contains(
            (ActionView::Gossip { addr: peers[peer], payload }),
        ),
{
    assert(order.to_set().contains(peer));
    lemma_gossip_reaches(order, peers, payload, peer);
}

proof fn lemma_gossip_reaches(
    nodes: Seq<NodeId>,
    peers: Map<NodeId, Seq<char>>,
    payload: Seq<char>,
    peer: NodeId,
)
    requires
        nodes.contains(peer),
        peers.contains_key(peer),
    ensures
        gossip_to(nodes, peers, payload).contains(
            (ActionView::Gossip { addr: peers[peer], payload }),
        ),
    decreases nodes.len(),
{
    let all = gossip_to(nodes, peers, payload);
    let want = ActionView::Gossip { addr: peers[peer], payload };
    if nodes.last() == peer {
        assert(all.last() == want);
    } else {
        let i = choose|i: int| 0 <= i < nodes.len() && nodes[i] == peer;
        assert(nodes.drop_last()[i] == peer);
        lemma_gossip_reaches(nodes.drop_last(), peers, payload, peer);
        let before = gossip_to(nodes.drop_last(), peers, payload);
        let j = choose|j: int| 0 <= j < before.len() && before[j] == want;
        assert(all[j] == want);
    }
}

/// Of the entries for one node the last counts, and only nodes with an entry have an
/// address.
pub proof fn law_latest_address_counts(entries: Seq<(NodeId, String)>, i: int, n: NodeId)
    requires
        0 <= i < entries.len(),
        forall|j: int| i < j < entries.len() ==> (#[trigger] entries[j]).0 != entries[i].0,
    ensures
        address_book(entries).contains_key(entries[i].0),
        address_book(entries)[entries[i].0] == entries[i].1@,
        address_book(entries).contains_key(n) <==> exists|j: int|
            0 <= j < entries.len() && (#[trigger] entries[j]).0 == n,
    decreases entries.len(),
{
    lemma_address_book_keys(entries, n);
    if i < entries.len() - 1 {
        let rest = entries.drop_last();
        assert forall|j: int| i < j < rest.len() implies (#[trigger] rest[j]).0 != rest[i].0 by {
            assert(entries[j].0 != entries[i].0);
        }
        law_latest_address_counts(rest, i, n);
        assert(entries[entries.len() - 1].0 != entries[i].0);
    }
}

proof fn lemma_address_book_keys(entries: Seq<(NodeId, String)>, n: NodeId)
    ensures
        address_book(entries).contains_key(n) <==> exists|j: int|
            0 <= j < entries.len() && (#[trigger] entries[j]).0 == n,
    decreases entries.len(),
{
    if entries.len() > 0 {
        let rest = entries.drop_last();
        lemma_address_book_keys(rest, n);
        if address_book(rest).contains_key(n) {
            let j = choose|j: int| 0 <= j < rest.len() && (#[trigger] rest[j]).0 == n;
            assert(entries[j].0 == n);
        }
        if entries.last().0 == n {
            assert(entries[entries.len() - 1].0 == n);
        }
        if exists|j: int| 0 <= j < entries.len() && (#[trigger] entries[j]).0 == n {
            let j = choose|j: int| 0 <= j < entries.len() && (#[trigger] entries[j]).0 == n;
            if j < rest.len() {
                assert(rest[j].0 == n);
            }
        }
    }
}

/// A message goes to each of the nodes that has an address, in order, and to no one
/// else, and each gets the same.
pub proof fn law_gossip_goes_to_the_known(
    nodes: Seq<NodeId>,
    peers: Map<NodeId, Seq<char>>,
    payload: Seq<char>,
    known: spec_fn(NodeId) -> bool,
)
    requires
        forall|n: NodeId| #[trigger] known(n) <==> peers.contains_key(n),
    ensures
        gossip_to(nodes, peers, payload) == nodes.filter(known).map_values(
            |n: NodeId| ActionView::Gossip { addr: peers[n], payload },
        ),
    decreases nodes.len(),
{
    reveal(Seq::filter);
    let send = |n: NodeId| ActionView::Gossip { addr: peers[n], payload };
    if nodes.len() == 0 {
        assert(nodes.filter(known).map_values(send) =~= Seq::empty());
    } else {
        let rest = nodes.drop_last();
        law_gossip_goes_to_the_known(rest, peers, payload, known);
        if known(nodes.last()) {
            assert(nodes.filter(known).map_values(send) =~= rest.filter(known).map_values(send).push(
                send(nodes.last()),
            ));
        }
    }
}

/// What each event has a node send: a ping to the node itself, a request to each
/// proxy, a notice of a suspect or of a death to every peer, and of a new ring to the
/// repair loop, with the version before it and its own.
pub proof fn law_what_events_send(
    peers: Map<NodeId, Seq<char>>,
    order: Seq<NodeId>,
    node: NodeId,
    proxies: Seq<NodeId>,
    ring: RingView,
)
    requires
        ring.version >= 1,
    ensures
        peers.contains_key(node) ==> actions_for(EventView::Ping(node), peers, order) == seq![
            ActionView::Ping { target: node, addr: peers[node] },
        ],
        !peers.contains_key(node) ==> actions_for(EventView::Ping(node), peers, order).len() == 0,
        actions_for((EventView::PingReq { target: node, via: proxies }), peers, order) == gossip_to(
            proxies,
            peers,
            "ping-req:"@ + ids::uuid_text(node),
        ),
        actions_for(EventView::Suspect(node), peers, order) == gossip_to(
            order,
            peers,
            "suspect:"@ + ids::uuid_text(node),
        ),
        actions_for(EventView::Dead(node), peers, order) == gossip_to(
            order,
            peers,
            "dead:"@ + ids::uuid_text(node),
        ),
        actions_for(EventView::RingChanged(ring), peers, order).len() == 1,
        ({
            let action = actions_for(EventView::RingChanged(ring), peers, order)[0];
            &&& action is Notify
            &&& action->Notify_0.new_version == ring.version
            &&& action->Notify_0.old_version == ring.version - 1
            &&& action->Notify_0.dead_nodes.len() == 0
        }),
{
}

/// Actions and addresses are seen one by one and in full.
pub proof fn law_actions_are_seen_in_full(
    actions: Seq<Action>,
    i: int,
    peers: Map<NodeId, String>,
    n: NodeId,
)
    ensures
        action_views(actions).len() == actions.len(),
        0 <= i < actions.len() ==> match actions[i] {
            Action::Ping { target, addr } => action_views(actions)[i] == (ActionView::Ping {
                target,
                addr: addr@,
            }),
            Action::Gossip { addr, payload } => action_views(actions)[i] == (ActionView::Gossip {
                addr: addr@,
                payload: payload@,
            }),
            Action::Notify(change) => action_views(actions)[i] == ActionView::Notify(
                (RingChangeView {
                    old_version: change.old_version,
                    new_version: change.new_version,
                    dead_nodes: change.dead_nodes@,
                }),
            ),
        },
        addresses(peers).contains_key(n) <==> peers.contains_key(n),
        peers.contains_key(n) ==> addresses(peers)[n] == peers[n]@,
{
}

} // verus!
