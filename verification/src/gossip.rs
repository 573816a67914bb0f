//! SWIM membership protocol.
//!
//! Detects node failures through direct and indirect probing.
//!
//! The protocol is *tick-driven*: the caller calls [`Swimmer::tick`] at fixed
//! intervals. A tick reads the clock and draws random numbers; what it does
//! with them stands in functions that take the readings and the draws as
//! arguments.
//!
//! # How it works
//!
//! Each tick:
//! 1. Pick a random alive peer to probe (direct ping), if no probe is pending.
//! 2. If no response within a timeout, ask `k` indirect peers to probe
//!    the suspect.
//! 3. If the tick after that still finds no response, mark it as Suspect.
//! 4. If the suspicion is three ticks old, mark it Dead, remove it from the
//!    ring and bump the version.

use std::collections::HashMap;
use std::time::Instant;
use vstd::prelude::*;

use rand::rngs::StdRng;
use rand::{RngCore, SeedableRng};

use crate::membership;
use crate::membership::{Membership, MembershipView, NodeHealth};
use crate::types::{NodeId, Ring, RingView};

verus! {

broadcast use vstd::std_specs::hash::group_hash_axioms;

/// A span of time, or a moment since the swimmer was made, in nanoseconds.
pub type Nanos = u128;

/// The longest span of time that the clock can tell, in nanoseconds.
pub const MAX_SPAN: u128 = 18_446_744_073_709_551_615_999_999_999;

/// `rand::rngs::StdRng`, a generator of random numbers.
#[verifier::external_type_specification]
#[verifier::external_body]
pub struct ExStdRng(StdRng);

/// `std::time::Instant`, a reading of the monotonic clock.
#[verifier::external_type_specification]
#[verifier::external_body]
pub struct ExInstant(Instant);

/// The numbers that a generator holds in store, by the order in which it will
/// draw them.
pub uninterp spec fn upcoming(rng: StdRng) -> Map<nat, u64>;

/// The numbers that a generator seeded with `seed` draws, in order.
pub uninterp spec fn seeded_draws(seed: u64) -> Map<nat, u64>;

/// What is left of `draws` after the first `n`.
pub open spec fn shifted(draws: Map<nat, u64>, n: nat) -> Map<nat, u64> {
    if n == 0 {
        draws
    } else {
        Map::new(|i: nat| true, |i: nat| draws[i + n])
    }
}

/// `StdRng::from_os_rng`: a generator seeded by the operating system. Nothing is
/// claimed of the numbers that it draws.
#[verifier::external_body]
fn rng_from_os() -> (res: StdRng) {
    StdRng::from_os_rng()
}

/// `StdRng::seed_from_u64`: a generator seeded with `seed`. What it draws is a
/// function of the seed alone, for one version of the crate.
#[verifier::external_body]
fn rng_from_seed(seed: u64) -> (res: StdRng)
    ensures
        upcoming(res) == seeded_draws(seed),
{
    StdRng::seed_from_u64(seed)
}

/// `RngCore::next_u64`: takes the next number that the generator holds in store.
#[verifier::external_body]
fn next_u64(rng: &mut StdRng) -> (res: u64)
    ensures
        res == upcoming(*old(rng))[0],
        upcoming(*final(rng)) == shifted(upcoming(*old(rng)), 1),
{
    rng.next_u64()
}

/// `Instant::now`: the current moment.
#[verifier::external_body]
fn clock_start() -> (res: Instant) {
    Instant::now()
}

/// `Instant::elapsed`: the time since `start` in nanoseconds, which is at most
/// what a `Duration` can hold.
#[verifier::external_body]
fn clock_elapsed(start: &Instant) -> (res: Nanos)
    ensures
        res <= MAX_SPAN,
{
    start.elapsed().as_nanos()
}

/// Timing and fan-out of the protocol.
#[derive(Debug, Clone, Copy, PartialEq, Eq, Structural)]
pub struct SwimConfig {
    /// Time between ticks.
    pub probe_interval: Nanos,
    /// How long a direct probe may stay unanswered.
    pub probe_timeout: Nanos,
    /// Indirect probes per suspect.
    pub num_indirect: usize,
    /// The span that three ticks take at the default interval. A suspicion lasts
    /// three ticks, whatever stands here.
    pub suspicion_timeout: Nanos,
}

impl Default for SwimConfig {
    fn default() -> (res: Self)
        ensures
            res == (SwimConfig {
                probe_interval: 1_000_000_000,
                probe_timeout: 1_000_000_000,
                num_indirect: 2,
                suspicion_timeout: 3_000_000_000,
            }),
    {
        Self {
            probe_interval: 1_000_000_000,
            probe_timeout: 1_000_000_000,
            num_indirect: 2,
            suspicion_timeout: 3_000_000_000,
        }
    }
}

/// A probe that has not been answered yet.
#[derive(Debug, Clone, Copy, PartialEq, Eq, Structural)]
pub struct ProbeState {
    /// The node that was pinged.
    pub target: NodeId,
    /// When the direct probe counts as unanswered.
    pub deadline: Nanos,
    /// Whether other peers have been asked to probe the target.
    pub indirect_sent: bool,
}

/// What an event says.
#[verifier::ext_equal]
pub enum EventView {
    /// Send a ping to the node.
    Ping(NodeId),
    /// Ask the nodes in `via` to probe `target`.
    PingReq { target: NodeId, via: Seq<NodeId> },
    /// The node is suspected.
    Suspect(NodeId),
    /// The node is dead.
    Dead(NodeId),
    /// The ring is a new one.
    RingChanged(RingView),
}

/// What a tick asks its caller to do, or tells it.
#[derive(Debug, PartialEq, Eq)]
pub enum MembershipEvent {
    /// Send a ping to the node.
    Ping(NodeId),
    /// Ask the nodes in `via` to probe `target`.
    PingReq { target: NodeId, via: Vec<NodeId> },
    /// The node is suspected.
    Suspect(NodeId),
    /// The node is dead.
    Dead(NodeId),
    /// The ring is a new one.
    RingChanged(Ring),
}

impl View for MembershipEvent {
    type V = EventView;

    open spec fn view(&self) -> EventView {
        match *self {
            MembershipEvent::Ping(n) => EventView::Ping(n),
            MembershipEvent::PingReq { target, via } => EventView::PingReq { target, via: via@ },
            MembershipEvent::Suspect(n) => EventView::Suspect(n),
            MembershipEvent::Dead(n) => EventView::Dead(n),
            MembershipEvent::RingChanged(r) => EventView::RingChanged(r@),
        }
    }
}

impl Clone for MembershipEvent {
    fn clone(&self) -> (res: Self)
        ensures
            res@ == self@,
    {
        match self {
            MembershipEvent::Ping(n) => MembershipEvent::Ping(*n),
            MembershipEvent::PingReq { target, via } => {
                let copy = via.clone();
                assert(copy@ =~= via@);
                MembershipEvent::PingReq { target: *target, via: copy }
            },
            MembershipEvent::Suspect(n) => MembershipEvent::Suspect(*n),
            MembershipEvent::Dead(n) => MembershipEvent::Dead(*n),
            MembershipEvent::RingChanged(r) => MembershipEvent::RingChanged(r.clone()),
        }
    }
}

/// What each of `events` says.
pub open spec fn event_views(events: Seq<MembershipEvent>) -> Seq<EventView> {
    events.map_values(|e: MembershipEvent| e@)
}

/// The position among `len` items that the random number `draw` selects.
pub open spec fn pick(draw: u64, len: nat) -> int {
    (draw as usize) as int % len as int
}

/// The items that `draws` select. Each draw selects among those that are left.
pub open spec fn picks(items: Seq<NodeId>, draws: Seq<u64>) -> Seq<NodeId>
    decreases draws.len(),
{
    if draws.len() == 0 || items.len() == 0 {
        seq![]
    } else {
        let at = pick(draws[0], items.len());
        seq![items[at]] + picks(items.remove(at), draws.skip(1))
    }
}

/// Whether a node is neither `a` nor `b`.
pub open spec fn other_than(a: NodeId, b: NodeId) -> spec_fn(NodeId) -> bool {
    |n: NodeId| n != a && n != b
}

/// What a tick takes from outside: two readings of the clock, and the order in
/// which the nodes that die are met.
pub struct TickInput {
    /// The clock when the pending probe is checked.
    pub now: Nanos,
    /// The nodes that die, in the order in which they are met.
    pub order: Seq<NodeId>,
    /// The clock when a new probe starts.
    pub later: Nanos,
}

/// What a swimmer holds, its clock aside.
#[verifier::ext_equal]
pub struct SwimmerView {
    /// This node.
    pub my_id: NodeId,
    /// The membership as this node sees it.
    pub membership: MembershipView,
    /// Timing and fan-out.
    pub config: SwimConfig,
    /// The addresses of known peers.
    pub peers: Map<NodeId, Seq<char>>,
    /// The probe that has not been answered, if there is one.
    pub pending: Option<ProbeState>,
    /// How many ticks there have been.
    pub tick_count: u64,
    /// The random numbers that are still to be drawn, in order.
    pub luck: Map<nat, u64>,
}

impl SwimmerView {
    /// A swimmer that has not ticked.
    pub open spec fn starting(my_id: NodeId, nodes: Seq<NodeId>, luck: Map<nat, u64>) -> SwimmerView {
        SwimmerView {
            my_id,
            membership: MembershipView::starting(nodes),
            config: SwimConfig {
                probe_interval: 1_000_000_000,
                probe_timeout: 1_000_000_000,
                num_indirect: 2,
                suspicion_timeout: 3_000_000_000,
            },
            peers: Map::empty(),
            pending: None,
            tick_count: 0,
            luck,
        }
    }

    /// The swimmer once `n` random numbers have been drawn.
    pub open spec fn after_draws(self, n: nat) -> SwimmerView {
        SwimmerView { luck: shifted(self.luck, n), ..self }
    }

    /// The next `n` random numbers.
    pub open spec fn next_draws(self, n: nat) -> Seq<u64> {
        Seq::new(n, |i: int| self.luck[i as nat])
    }

    /// The swimmer after a pong from `from`.
    pub open spec fn after_pong(self, from: NodeId) -> SwimmerView {
        SwimmerView {
            pending: match self.pending {
                Some(p) if p.target == from => None,
                other => other,
            },
            ..self
        }
    }

    /// The start of a tick.
    pub open spec fn advance(self) -> SwimmerView {
        SwimmerView { tick_count: (self.tick_count + 1) as u64, ..self }
    }

    /// Whether the pending probe is unanswered past its deadline.
    pub open spec fn overdue(self, now: Nanos) -> bool {
        self.pending is Some && self.pending.unwrap().deadline <= now
    }

    /// The nodes that may be probed: those that are alive and not this one.
    pub open spec fn targets(self) -> Seq<NodeId> {
        self.proxies(self.my_id)
    }

    /// The nodes that may be asked to probe `target`: the other alive peers.
    pub open spec fn proxies(self, target: NodeId) -> Seq<NodeId> {
        self.membership.alive_nodes().filter(other_than(target, self.my_id))
    }

    /// How many random numbers the check of the pending probe takes.
    pub open spec fn draws_needed(self, now: Nanos) -> nat {
        if self.overdue(now) && !self.pending.unwrap().indirect_sent {
            let pool = self.proxies(self.pending.unwrap().target).len();
            if self.config.num_indirect < pool {
                self.config.num_indirect as nat
            } else {
                pool
            }
        } else {
            0
        }
    }

    /// The swimmer after the pending probe was checked: an overdue target goes
    /// to indirect probing first, and under suspicion at the next check.
    pub open spec fn after_probe_check(self, now: Nanos) -> SwimmerView {
        if !self.overdue(now) {
            self
        } else {
            let p = self.pending.unwrap();
            if !p.indirect_sent {
                SwimmerView { pending: Some(ProbeState { indirect_sent: true, ..p }), ..self }
            } else {
                SwimmerView {
                    membership: MembershipView {
                        health: self.membership.health.insert(
                            p.target,
                            NodeHealth::Suspect(self.tick_count),
                        ),
                        ..self.membership
                    },
                    pending: None,
                    ..self
                }
            }
        }
    }

    /// What the check of the pending probe reports.
    pub open spec fn probe_event(self, now: Nanos, draws: Seq<u64>) -> Seq<EventView> {
        if !self.overdue(now) {
            seq![]
        } else {
            let p = self.pending.unwrap();
            if !p.indirect_sent {
                seq![
                    EventView::PingReq {
                        target: p.target,
                        via: picks(self.proxies(p.target), draws),
                    },
                ]
            } else {
                seq![EventView::Suspect(p.target)]
            }
        }
    }

    /// Whether `n` has been under suspicion for three ticks.
    pub open spec fn suspicion_expired(self, n: NodeId) -> bool {
        &&& self.membership.health.contains_key(n)
        &&& self.membership.health[n] is Suspect
        &&& self.membership.health[n]->Suspect_0 + 3 <= self.tick_count
    }

    /// The nodes whose suspicion has expired.
    pub open spec fn expired(self) -> Set<NodeId> {
        self.membership.health.dom().filter(|n: NodeId| self.suspicion_expired(n))
    }

    /// The swimmer after expired suspicions turned into deaths. The ring is kept
    /// if every node of it is dead.
    pub open spec fn after_expiry(self) -> SwimmerView {
        let marked = self.membership.mark_dead(self.expired());
        SwimmerView {
            membership: if self.expired().is_empty() {
                self.membership
            } else if marked.surviving_nodes().len() == 0 {
                marked
            } else {
                marked.drop_dead()
            },
            ..self
        }
    }

    /// What expiry reports, where `order` lists the nodes that die.
    pub open spec fn expiry_events(self, order: Seq<NodeId>) -> Seq<EventView> {
        let dead = order.map_values(|n: NodeId| EventView::Dead(n));
        let marked = self.membership.mark_dead(self.expired());
        if !self.expired().is_empty() && marked.surviving_nodes().len() > 0 {
            dead.push(EventView::RingChanged(marked.drop_dead().ring))
        } else {
            dead
        }
    }

    /// Whether `order` lists the nodes whose suspicion has expired, each once.
    pub open spec fn lists_expired(self, order: Seq<NodeId>) -> bool {
        order.no_duplicates() && order.to_set() == self.expired()
    }

    /// The node that `draw` selects for the next probe: a node that is alive and
    /// not this one, if there is any and no probe is pending.
    pub open spec fn next_target(self, draw: u64) -> Option<NodeId> {
        if self.draws_target() {
            Some(self.targets()[pick(draw, self.targets().len())])
        } else {
            None
        }
    }

    /// The swimmer after the start of a new probe, if it was idle.
    pub open spec fn after_probe_start(self, now: Nanos, draw: u64) -> SwimmerView {
        match self.next_target(draw) {
            Some(target) => SwimmerView {
                pending: Some(
                    ProbeState {
                        target,
                        deadline: (now + self.config.probe_timeout) as u128,
                        indirect_sent: false,
                    },
                ),
                ..self
            },
            None => self,
        }
    }

    /// What the start of a new probe reports.
    pub open spec fn start_event(self, draw: u64) -> Seq<EventView> {
        match self.next_target(draw) {
            Some(target) => seq![EventView::Ping(target)],
            None => seq![],
        }
    }

    /// Whether a number is drawn to choose a target: no probe is pending, and some
    /// other node is alive.
    pub open spec fn draws_target(self) -> bool {
        self.pending is None && self.targets().len() > 0
    }

    /// How many numbers a tick draws to choose proxies.
    pub open spec fn proxy_draws(self, input: TickInput) -> nat {
        self.advance().draws_needed(input.now)
    }

    /// The swimmer in the middle of a tick, when suspicions expire.
    pub open spec fn mid_tick(self, input: TickInput) -> SwimmerView {
        self.advance().after_draws(self.proxy_draws(input)).after_probe_check(input.now)
    }

    /// The swimmer after a tick.
    pub open spec fn ticked(self, input: TickInput) -> SwimmerView {
        let s = self.mid_tick(input).after_expiry();
        if s.draws_target() {
            s.after_draws(1).after_probe_start(input.later, s.luck[0])
        } else {
            s
        }
    }

    /// What a tick reports.
    pub open spec fn tick_events(self, input: TickInput) -> Seq<EventView> {
        let s = self.mid_tick(input).after_expiry();
        self.advance().probe_event(input.now, self.next_draws(self.proxy_draws(input)))
            + self.mid_tick(input).expiry_events(input.order) + s.start_event(s.luck[0])
    }

    /// Whether a tick may take `input` from outside.
    pub open spec fn admits(self, input: TickInput) -> bool {
        &&& input.now <= MAX_SPAN
        &&& input.later <= MAX_SPAN
        &&& self.mid_tick(input).lists_expired(input.order)
    }

    /// The limits within which a tick stays inside the machine's integers.
    pub open spec fn can_tick(self) -> bool {
        &&& self.tick_count < u64::MAX
        &&& self.membership.ring.version < u64::MAX
        &&& self.config.probe_timeout <= MAX_SPAN
    }
}

/// The failure detector of one node.
#[derive(Debug)]
pub struct Swimmer {
    /// This node.
    pub my_id: NodeId,
    /// The membership as this node sees it.
    pub membership: Membership,
    /// Timing and fan-out.
    pub config: SwimConfig,
    /// The addresses of known peers.
    pub peers: HashMap<NodeId, String>,
    /// The probe that has not been answered, if there is one.
    pub pending: Option<ProbeState>,
    /// How many ticks there have been.
    pub tick_count: u64,
    /// The generator of random numbers.
    pub rng: StdRng,
    /// When the clock started. The moments that the swimmer keeps are counted from
    /// here, so it never changes.
    pub epoch: Instant,
}

impl View for Swimmer {
    type V = SwimmerView;

    open spec fn view(&self) -> SwimmerView {
        SwimmerView {
            my_id: self.my_id,
            membership: self.membership@,
            config: self.config,
            peers: self.peers@.map_values(|a: String| a@),
            pending: self.pending,
            tick_count: self.tick_count,
            luck: upcoming(self.rng),
        }
    }
}

impl Swimmer {
    /// A swimmer whose generator the operating system seeds, whatever `_seed` is.
    pub fn new(my_id: NodeId, initial_nodes: Vec<NodeId>, _seed: Option<u64>) -> (res: Self)
        requires
            initial_nodes@.len() > 0,
        ensures
            res@ == SwimmerView::starting(my_id, initial_nodes@, res@.luck),
    {
        Self::with_rng(my_id, initial_nodes, rng_from_os())
    }

    /// A swimmer whose generator is seeded with `seed`.
    pub fn new_seeded(my_id: NodeId, initial_nodes: Vec<NodeId>, seed: u64) -> (res: Self)
        requires
            initial_nodes@.len() > 0,
        ensures
            res@ == SwimmerView::starting(my_id, initial_nodes@, seeded_draws(seed)),
    {
        Self::with_rng(my_id, initial_nodes, rng_from_seed(seed))
    }

    fn with_rng(my_id: NodeId, initial_nodes: Vec<NodeId>, rng: StdRng) -> (res: Self)
        requires
            initial_nodes@.len() > 0,
        ensures
            res@ == SwimmerView::starting(my_id, initial_nodes@, upcoming(rng)),
            res.my_id == my_id,
            res.membership.ring.nodes@ == initial_nodes@,
            res.membership.ring.version == 1,
            res.pending is None,
            res.tick_count == 0,
    {
        let peers: HashMap<NodeId, String> = HashMap::new();
        assert(peers@.map_values(|a: String| a@) =~= Map::empty());
        Self {
            my_id,
            membership: Membership::new(initial_nodes),
            config: SwimConfig::default(),
            peers,
            pending: None,
            tick_count: 0,
            rng,
            epoch: clock_start(),
        }
    }

    /// Records the address of a peer, in place of an earlier one.
    pub fn add_peer(&mut self, id: NodeId, addr: String)
        ensures
            final(self)@ == (SwimmerView { peers: old(self)@.peers.insert(id, addr@), ..old(self)@ }),
            final(self).epoch == old(self).epoch,
    {
        self.peers.insert(id, addr);
        assert(self@.peers =~= old(self)@.peers.insert(id, addr@));
    }

    /// A pong from the node under probe ends the probe. Any other is ignored.
    pub fn on_pong(&mut self, from: NodeId)
        ensures
            final(self)@ == (SwimmerView {
                pending: if old(self)@.pending is Some && old(self)@.pending.unwrap().target == from {
                    None
                } else {
                    old(self)@.pending
                },
                ..old(self)@
            }),
            final(self)@ == old(self)@.after_pong(from),
            final(self).epoch == old(self).epoch,
    {
        if let Some(pend) = self.pending {
            if pend.target == from {
                self.pending = None;
            }
        }
    }

    /// The nodes that may be asked to probe `exclude`, or, for this node itself,
    /// the nodes that may be probed.
    fn proxies(&self, exclude: NodeId) -> (res: Vec<NodeId>)
        ensures
            res@ == self@.proxies(exclude),
    {
        let alive = self.membership.alive_nodes();
        let ghost other = other_than(exclude, self.my_id);
        let mut res: Vec<NodeId> = Vec::new();
        let mut i: usize = 0;
        while i < alive.len()
            invariant
                i <= alive@.len(),
                other == other_than(exclude, self.my_id),
                res@ == alive@.take(i as int).filter(other),
            decreases alive.len() - i,
        {
            proof {
                assert(alive@.take(i + 1) =~= alive@.take(i as int).push(alive@[i as int]));
                alive@.take(i as int).lemma_filter_push(alive@[i as int], other);
            }
            if alive[i] != exclude && alive[i] != self.my_id {
                res.push(alive[i]);
            }
            i = i + 1;
        }
        assert(alive@.take(i as int) =~= alive@);
        res
    }

    /// The item that `draw` selects, if there is any, taken out of `items`.
    fn random_pick(items: &mut Vec<NodeId>, draw: u64) -> (res: Option<NodeId>)
        ensures
            match res {
                Some(item) => {
                    let at = pick(draw, old(items)@.len());
                    &&& old(items)@.len() > 0
                    &&& item == old(items)@[at]
                    &&& final(items)@ == old(items)@.remove(at)
                },
                None => old(items)@.len() == 0 && final(items)@ == old(items)@,
            },
    {
        if items.len() == 0 {
            return None;
        }
        let idx: usize = draw as usize % items.len();
        Some(items.remove(idx))
    }

    /// The proxies that `draws` select for an indirect probe of `exclude`: as many
    /// as there are draws, and no place of the ring twice.
    fn pick_random_peers(&self, exclude: NodeId, draws: &[u64]) -> (res: Vec<NodeId>)
        requires
            draws@.len() <= self@.proxies(exclude).len(),
        ensures
            res@ == picks(self@.proxies(exclude), draws@),
            res@.len() == draws@.len(),
            self@.membership.ring.nodes.no_duplicates() ==> res@.no_duplicates(),
    {
        let mut pool = self.proxies(exclude);
        let mut res: Vec<NodeId> = Vec::new();
        let mut i: usize = 0;
        assert(draws@.skip(0) =~= draws@);
        while i < draws.len()
            invariant
                i <= draws@.len() <= i + pool@.len(),
                picks(self@.proxies(exclude), draws@) == res@ + picks(pool@, draws@.skip(i as int)),
            decreases draws.len() - i,
        {
            let ghost rest = draws@.skip(i as int);
            let ghost before = res@;
            let ghost left = pool@;
            if let Some(node) = Self::random_pick(&mut pool, draws[i]) {
                res.push(node);
                proof {
                    assert(rest[0] == draws@[i as int]);
                    assert(rest.skip(1) =~= draws@.skip(i + 1));
                    assert(picks(left, rest) == seq![node] + picks(pool@, rest.skip(1)));
                    assert(before + (seq![node] + picks(pool@, rest.skip(1))) =~= res@ + picks(
                        pool@,
                        rest.skip(1),
                    ));
                }
            }
            i = i + 1;
        }
        proof {
            assert(res@ + picks(pool@, draws@.skip(i as int)) =~= res@);
            lemma_picks(self@.proxies(exclude), draws@);
            if self@.membership.ring.nodes.no_duplicates() {
                lemma_filter_keeps_distinct(
                    self@.membership.ring.nodes,
                    membership::alive_in(self@.membership.health),
                );
                lemma_filter_keeps_distinct(
                    self@.membership.alive_nodes(),
                    other_than(exclude, self@.my_id),
                );
            }
        }
        res
    }

    /// How many random numbers [`check_probe`](Self::check_probe) takes at `now`.
    pub fn draws_needed(&self, now: Nanos) -> (res: usize)
        ensures
            res == self@.draws_needed(now),
    {
        if let Some(pend) = self.pending {
            if pend.deadline <= now && !pend.indirect_sent {
                let pool = self.proxies(pend.target).len();
                if self.config.num_indirect < pool {
                    return self.config.num_indirect;
                }
                return pool;
            }
        }
        0
    }

    /// Checks the pending probe at the moment `now`, with random numbers to
    /// choose proxies by. A probe that is overdue is handed to proxies; one that
    /// has been and is still unanswered makes the target a suspect.
    pub fn check_probe(&mut self, now: Nanos, draws: &[u64]) -> (res: Option<MembershipEvent>)
        requires
            draws@.len() == old(self)@.draws_needed(now),
        ensures
            final(self)@ == old(self)@.after_probe_check(now),
            final(self).epoch == old(self).epoch,
            match res {
                Some(e) => old(self)@.probe_event(now, draws@) == seq![e@],
                None => old(self)@.probe_event(now, draws@) == Seq::<EventView>::empty(),
            },
            match old(self).pending {
                Some(p) => if now < p.deadline {
                    &&& res is None
                    &&& *final(self) == *old(self)
                } else if !p.indirect_sent {
                    &&& (res matches Some(MembershipEvent::PingReq { target, via: asked }) && target == p.target
                        && asked@ == picks(old(self)@.proxies(p.target), draws@))
                    &&& final(self).pending == Some(
                        (ProbeState { target: p.target, deadline: p.deadline, indirect_sent: true }),
                    )
                    &&& final(self).membership@ == old(self).membership@
                } else {
                    &&& res == Some(MembershipEvent::Suspect(p.target))
                    &&& final(self).pending is None
                    &&& final(self).membership.ring == old(self).membership.ring
                    &&& final(self).membership.health@ == old(self).membership.health@.insert(
                        p.target,
                        NodeHealth::Suspect(old(self).tick_count),
                    )
                },
                None => res is None && *final(self) == *old(self),
            },
    {
        if let Some(pend) = self.pending {
            if pend.deadline <= now {
                if !pend.indirect_sent {
                    let via = self.pick_random_peers(pend.target, draws);
                    self.pending = Some(
                        ProbeState {
                            target: pend.target,
                            deadline: pend.deadline,
                            indirect_sent: true,
                        },
                    );
                    return Some(MembershipEvent::PingReq { target: pend.target, via });
                }
                self.membership.health.insert(pend.target, NodeHealth::Suspect(self.tick_count));
                self.pending = None;
                return Some(MembershipEvent::Suspect(pend.target));
            }
        }
        None
    }

    /// The nodes whose suspicion has expired, each once.
    fn expired_nodes(&self) -> (res: Vec<NodeId>)
        ensures
            self@.lists_expired(res@),
    {
        let known = self.membership.known_nodes();
        let mut res: Vec<NodeId> = Vec::new();
        let mut i: usize = 0;
        while i < known.len()
            invariant
                i <= known@.len(),
                known@.no_duplicates(),
                known@.to_set() == self@.membership.health.dom(),
                res@.no_duplicates(),
                forall|n: NodeId| #[trigger]
                    res@.contains(n) <==> known@.take(i as int).contains(n) && self@.suspicion_expired(n),
            decreases known.len() - i,
        {
            let node = known[i];
            let ghost before = res@;
            proof {
                assert(known@.take(i + 1) =~= known@.take(i as int).push(node));
                assert(known@.to_set().contains(node));
                assert(!known@.take(i as int).contains(node)) by {
                    if known@.take(i as int).contains(node) {
                        let j = choose|j: int| 0 <= j < i && known@.take(i as int)[j] == node;
                        assert(known@[j] == known@[i as int]);
                    }
                }
                assert forall|n: NodeId| known@.take(i + 1).contains(n) <==> known@.take(
                    i as int,
                ).contains(n) || n == node by {
                    let s = known@.take(i as int);
                    if s.contains(n) {
                        let j = choose|j: int| 0 <= j < s.len() && s[j] == n;
                        assert(s.push(node)[j] == n);
                    }
                    assert(s.push(node)[i as int] == node);
                }
            }
            if let Some(NodeHealth::Suspect(generation)) = self.membership.health.get(&node) {
                if self.tick_count >= 3 && *generation <= self.tick_count - 3 {
                    res.push(node);
                    proof {
                        assert(!before.contains(node));
                        assert forall|n: NodeId| #[trigger] res@.contains(n) <==> before.contains(n) || n
                            == node by {
                            if before.contains(n) {
                                let j = choose|j: int| 0 <= j < before.len() && before[j] == n;
                                assert(res@[j] == n);
                            }
                            assert(res@[before.len() as int] == node);
                        }
                        assert forall|a: int, b: int|
                            0 <= a < res@.len() && 0 <= b < res@.len() && a != b implies res@[a] != res@[b] by {
                            if a < before.len() {
                                assert(before.contains(before[a]));
                            }
                            if b < before.len() {
                                assert(before.contains(before[b]));
                            }
                        }
                    }
                }
            }
            i = i + 1;
        }
        proof {
            assert(known@.take(i as int) =~= known@);
            assert forall|n: NodeId| res@.to_set().contains(n) <==> self@.expired().contains(n) by {
                assert(known@.to_set().contains(n) <==> known@.contains(n));
                assert(res@.to_set().contains(n) <==> res@.contains(n));
            }
            assert(res@.to_set() =~= self@.expired());
        }
        res
    }

    /// Turns expired suspicions into deaths and takes the dead off the ring. The
    /// deaths come first, in no particular order; a new ring comes last.
    pub fn expire_suspects(&mut self) -> (res: Vec<MembershipEvent>)
        requires
            !old(self)@.expired().is_empty() && old(self)@.membership.mark_dead(
                old(self)@.expired(),
            ).surviving_nodes().len() > 0 ==> old(self)@.membership.ring.version < u64::MAX,
        ensures
            final(self)@ == old(self)@.after_expiry(),
            final(self).epoch == old(self).epoch,
            exists|order: Seq<NodeId>| #[trigger]
                old(self)@.lists_expired(order) && event_views(res@) == old(self)@.expiry_events(order),
    {
        let dead = self.expired_nodes();
        let ghost order = dead@;
        let mut events: Vec<MembershipEvent> = Vec::new();
        let mut i: usize = 0;
        while i < dead.len()
            invariant
                i <= dead@.len(),
                events@.len() == i,
                forall|j: int| 0 <= j < i ==> (#[trigger] events@[j])@ == EventView::Dead(dead@[j]),
            decreases dead.len() - i,
        {
            events.push(MembershipEvent::Dead(dead[i]));
            i = i + 1;
        }
        proof {
            order.unique_seq_to_set();
            assert(event_views(events@) =~= order.map_values(|n: NodeId| EventView::Dead(n)));
        }
        if dead.len() > 0 {
            if let Ok(ring) = self.membership.rebalance_dead_nodes(dead.as_slice()) {
                let ghost before = events@;
                events.push(MembershipEvent::RingChanged(ring));
                assert(event_views(events@) =~= event_views(before).push(EventView::RingChanged(ring@)));
            }
        }
        assert(old(self)@.lists_expired(order));
        assert(event_views(events@) =~= old(self)@.expiry_events(order));
        events
    }

    /// Starts a probe of the peer that `draw` selects among those alive, if none is
    /// pending.
    pub fn start_probe(&mut self, now: Nanos, draw: u64) -> (res: Option<MembershipEvent>)
        requires
            now + old(self)@.config.probe_timeout <= u128::MAX,
        ensures
            final(self)@ == old(self)@.after_probe_start(now, draw),
            final(self).epoch == old(self).epoch,
            match res {
                Some(e) => old(self)@.start_event(draw) == seq![e@],
                None => old(self)@.start_event(draw) == Seq::<EventView>::empty(),
            },
            match res {
                Some(e) => {
                    &&& old(self).pending is None
                    &&& e is Ping
                    &&& final(self).pending == Some(
                        (ProbeState {
                            target: e->Ping_0,
                            deadline: (now + old(self).config.probe_timeout) as u128,
                            indirect_sent: false,
                        }),
                    )
                    &&& final(self).pending.unwrap().deadline == now + old(self).config.probe_timeout
                },
                None => *final(self) == *old(self),
            },
    {
        if self.pending.is_none() {
            let mut targets = self.proxies(self.my_id);
            if let Some(target) = Self::random_pick(&mut targets, draw) {
                self.pending = Some(
                    ProbeState {
                        target,
                        deadline: now + self.config.probe_timeout,
                        indirect_sent: false,
                    },
                );
                return Some(MembershipEvent::Ping(target));
            }
        }
        None
    }

    /// One step of the protocol. Reads the clock, draws as many random numbers
    /// as the step takes, and reports what happened and what is to be sent.
    #[must_use]
    pub fn tick(&mut self) -> (events: Vec<MembershipEvent>)
        requires
            old(self)@.can_tick(),
        ensures
            exists|input: TickInput| #[trigger]
                old(self)@.admits(input) && final(self)@ == old(self)@.ticked(input) && event_views(events@)
                    == old(self)@.tick_events(input),
            final(self).epoch == old(self).epoch,
            final(self).tick_count == old(self).tick_count + 1,
            final(self).my_id == old(self).my_id,
            final(self).config == old(self).config,
    {
        self.tick_count = self.tick_count + 1;
        let ghost s0 = self@;
        let mut events: Vec<MembershipEvent> = Vec::new();

        let now = clock_elapsed(&self.epoch);
        let wanted = self.draws_needed(now);
        let mut draws: Vec<u64> = Vec::new();
        while draws.len() < wanted
            invariant
                draws@.len() <= wanted,
                wanted == s0.draws_needed(now),
                draws@ == s0.next_draws(draws@.len()),
                self@ == s0.after_draws(draws@.len()),
                self.epoch == old(self).epoch,
            decreases wanted - draws.len(),
        {
            let ghost n = draws@.len();
            draws.push(next_u64(&mut self.rng));
            proof {
                assert(draws@ =~= s0.next_draws(n + 1));
                assert(self@.luck =~= shifted(s0.luck, n + 1));
            }
        }
        if let Some(event) = self.check_probe(now, draws.as_slice()) {
            events.push(event);
        }
        assert(event_views(events@) =~= s0.probe_event(now, draws@));
        let ghost s1 = self@;
        let ghost first = events@;

        let mut expiry = self.expire_suspects();
        let ghost s2 = self@;
        let ghost order = choose|order: Seq<NodeId>| #[trigger]
            s1.lists_expired(order) && event_views(expiry@) == s1.expiry_events(order);
        let ghost middle = expiry@;
        events.append(&mut expiry);
        assert(event_views(events@) =~= event_views(first) + event_views(middle));

        let later = clock_elapsed(&self.epoch);
        if self.pending.is_none() && self.proxies(self.my_id).len() > 0 {
            let draw = next_u64(&mut self.rng);
            let ghost before = events@;
            if let Some(event) = self.start_probe(later, draw) {
                events.push(event);
                assert(event_views(events@) =~= event_views(before).push(event@));
            }
            assert(event_views(events@) =~= event_views(before) + s2.start_event(draw));
        }
        proof {
            let input = TickInput { now, order, later };
            assert(s0 == old(self)@.advance());
            assert(old(self)@.admits(input));
            assert(event_views(events@) =~= old(self)@.tick_events(input));
        }
        events
    }
}

/// The choice takes as many items as there are draws, or all of them, and takes
/// none twice from items that are distinct.
proof fn lemma_picks(items: Seq<NodeId>, draws: Seq<u64>)
    ensures
        picks(items, draws).len() == if draws.len() < items.len() {
            draws.len()
        } else {
            items.len()
        },
        forall|n: NodeId| #[trigger] picks(items, draws).contains(n) ==> items.contains(n),
        items.no_duplicates() ==> picks(items, draws).no_duplicates(),
    decreases draws.len(),
{
    if draws.len() > 0 && items.len() > 0 {
        let at = pick(draws[0], items.len());
        assert(0 <= at < items.len());
        let left = items.remove(at);
        let rest = picks(left, draws.skip(1));
        let all = picks(items, draws);
        lemma_picks(left, draws.skip(1));
        assert(all =~= seq![items[at]] + rest);
        assert forall|n: NodeId| left.contains(n) implies items.contains(n) by {
            let i = choose|i: int| 0 <= i < left.len() && left[i] == n;
            assert(items[if i < at { i } else { i + 1 }] == n);
        }
        assert forall|n: NodeId| #[trigger] all.contains(n) implies items.contains(n) by {
            let i = choose|i: int| 0 <= i < all.len() && all[i] == n;
            if i > 0 {
                assert(rest[i - 1] == n);
                assert(rest.contains(n));
            }
        }
        if items.no_duplicates() {
            assert(left.no_duplicates());
            assert forall|i: int| 0 <= i < rest.len() implies #[trigger] rest[i] != items[at] by {
                assert(rest.contains(rest[i]));
                let j = choose|j: int| 0 <= j < left.len() && left[j] == rest[i];
                assert(left[j] != items[at]);
            }
            assert forall|a: int, b: int| 0 <= a < all.len() && 0 <= b < all.len() && a != b implies all[a]
                != all[b] by {
                if a > 0 {
                    assert(all[a] == rest[a - 1]);
                }
                if b > 0 {
                    assert(all[b] == rest[b - 1]);
                }
            }
        }
    }
}

/// Items that pass a filter are as distinct as they were.
proof fn lemma_filter_keeps_distinct(s: Seq<NodeId>, p: spec_fn(NodeId) -> bool)
    requires
        s.no_duplicates(),
    ensures
        s.filter(p).no_duplicates(),
    decreases s.len(),
{
    reveal(Seq::filter);
    if s.len() > 0 {
        let rest = s.drop_last();
        assert forall|a: int, b: int| 0 <= a < rest.len() && 0 <= b < rest.len() && a != b implies rest[a]
            != rest[b] by {
            assert(s[a] != s[b]);
        }
        lemma_filter_keeps_distinct(rest, p);
        if p(s.last()) {
            let kept = rest.filter(p);
            assert(s.filter(p) == kept.push(s.last()));
            assert forall|i: int| 0 <= i < kept.len() implies #[trigger] kept[i] != s.last() by {
                assert(kept.contains(kept[i]));
                membership::lemma_filter_holds(rest, p, kept[i]);
                let j = choose|j: int| 0 <= j < rest.len() && rest[j] == kept[i];
                assert(s[j] != s[s.len() - 1]);
            }
        }
    }
}

/// The nodes that may be probed are those of the ring that are alive, this one
/// aside.
proof fn lemma_targets(s: SwimmerView, n: NodeId)
    ensures
        s.targets().contains(n) <==> s.membership.ring.nodes.contains(n) && membership::alive_in(
            s.membership.health,
        )(n) && n != s.my_id,
{
    membership::lemma_filter_holds(
        s.membership.ring.nodes,
        membership::alive_in(s.membership.health),
        n,
    );
    membership::lemma_filter_holds(s.membership.alive_nodes(), other_than(s.my_id, s.my_id), n);
}

/// A ping goes to a node of the ring that is alive and is not this one.
pub proof fn law_ping_goes_to_an_alive_peer(s: SwimmerView, draw: u64, n: NodeId)
    requires
        s.start_event(draw).contains(EventView::Ping(n)),
    ensures
        n != s.my_id,
        s.membership.ring.nodes.contains(n),
        membership::alive_in(s.membership.health)(n),
        s.pending is None,
{
    let targets = s.targets();
    assert(s.next_target(draw) == Some(n));
    assert(0 <= pick(draw, targets.len()) < targets.len());
    assert(targets.contains(n));
    lemma_targets(s, n);
}

/// An idle swimmer with an alive peer on its ring pings, whatever the draw.
pub proof fn law_idle_swimmer_pings(s: SwimmerView, draw: u64, peer: NodeId)
    requires
        s.pending is None,
        s.membership.ring.nodes.contains(peer),
        membership::alive_in(s.membership.health)(peer),
        peer != s.my_id,
    ensures
        s.targets().len() > 0,
        s.start_event(draw) == seq![EventView::Ping(s.targets()[pick(draw, s.targets().len())])],
{
    lemma_targets(s, peer);
}

/// A tick of an idle swimmer that has an alive peer on its ring, and no suspect
/// whose time is up, reports one ping to an alive peer and nothing else.
pub proof fn law_idle_tick_pings_one_peer(s: SwimmerView, input: TickInput, peer: NodeId)
    requires
        s.can_tick(),
        s.admits(input),
        s.pending is None,
        s.membership.ring.nodes.contains(peer),
        membership::alive_in(s.membership.health)(peer),
        peer != s.my_id,
        forall|n: NodeId| #[trigger]
            s.membership.health.contains_key(n) ==> (s.membership.health[n] matches NodeHealth::Suspect(
                generation,
            ) ==> s.tick_count + 1 < generation + 3),
    ensures
        ({
            let n = s.targets()[pick(s.luck[0], s.targets().len())];
            &&& s.tick_events(input) == seq![EventView::Ping(n)]
            &&& s.ticked(input).luck == shifted(s.luck, 1)
            &&& n != s.my_id
            &&& s.membership.ring.nodes.contains(n)
            &&& membership::alive_in(s.membership.health)(n)
        }),
{
    let mid = s.mid_tick(input);
    assert(mid.expired() =~= Set::empty());
    assert(input.order.len() == 0) by {
        if input.order.len() > 0 {
            assert(input.order.to_set().contains(input.order[0]));
        }
    }
    let draw = s.luck[0];
    law_idle_swimmer_pings(mid, draw, peer);
    let n = s.targets()[pick(draw, s.targets().len())];
    assert(mid.start_event(draw)[0] == EventView::Ping(n));
    law_ping_goes_to_an_alive_peer(mid, draw, n);
    assert(s.tick_events(input) =~= seq![EventView::Ping(n)]);
}

/// The nodes that are asked to probe `target` are alive, and neither `target`
/// nor this one. There are as many of them as the configuration wants, or as
/// there are candidates, if that is fewer, and none of them is asked twice.
pub proof fn law_proxies_are_alive_peers(
    s: SwimmerView,
    now: Nanos,
    draws: Seq<u64>,
    target: NodeId,
    asked: Seq<NodeId>,
)
    requires
        draws.len() == s.draws_needed(now),
        s.probe_event(now, draws).contains((EventView::PingReq { target, via: asked })),
    ensures
        asked.len() <= s.config.num_indirect,
        asked.len() < s.config.num_indirect ==> asked.len() == s.proxies(target).len(),
        forall|i: int|
            0 <= i < asked.len() ==> (#[trigger] asked[i]) != s.my_id && asked[i] != target
                && membership::alive_in(s.membership.health)(asked[i]),
        s.membership.ring.nodes.no_duplicates() ==> asked.no_duplicates(),
{
    let alive = s.membership.alive_nodes();
    let health = membership::alive_in(s.membership.health);
    let pool = s.proxies(target);
    assert(s.probe_event(now, draws)[0] == EventView::PingReq { target, via: asked });
    assert(asked == picks(pool, draws));
    lemma_picks(pool, draws);
    if s.membership.ring.nodes.no_duplicates() {
        lemma_filter_keeps_distinct(s.membership.ring.nodes, health);
        lemma_filter_keeps_distinct(alive, other_than(target, s.my_id));
    }
    assert forall|i: int| 0 <= i < asked.len() implies (#[trigger] asked[i]) != s.my_id && asked[i] != target
        && health(asked[i]) by {
        assert(asked.contains(asked[i]));
        membership::lemma_filter_holds(alive, other_than(target, s.my_id), asked[i]);
        membership::lemma_filter_holds(s.membership.ring.nodes, health, asked[i]);
    }
}

/// A suspicion lasts three ticks: at the first two the node is still suspected,
/// and at the third it is dead and off the ring, if the ring keeps any node.
/// This holds while the node is not itself under probe.
pub proof fn law_suspicion_lasts_three_ticks(
    s: SwimmerView,
    input: TickInput,
    n: NodeId,
    generation: u64,
)
    requires
        s.can_tick(),
        s.membership.health.contains_key(n),
        s.membership.health[n] == NodeHealth::Suspect(generation),
        s.pending is None || s.pending.unwrap().target != n,
    ensures
        ({
            let after = s.ticked(input);
            &&& after.membership.health.contains_key(n)
            &&& after.pending is None || after.pending.unwrap().target != n
            &&& if s.tick_count + 1 < generation + 3 {
                after.membership.health[n] == NodeHealth::Suspect(generation)
            } else {
                &&& after.membership.health[n] == NodeHealth::Dead(s.membership.ring.version)
                &&& s.mid_tick(input).expired().contains(n)
                &&& s.mid_tick(input).membership.mark_dead(
                    s.mid_tick(input).expired(),
                ).surviving_nodes().len() > 0
                    ==> !after.membership.ring.nodes.contains(n)
            }
        }),
{
    let mid = s.mid_tick(input);
    let done = mid.after_expiry();
    let after = s.ticked(input);
    assert(mid.membership.health.contains_key(n) && mid.membership.health[n] == NodeHealth::Suspect(
        generation,
    ));
    assert(mid.expired().contains(n) <==> s.tick_count + 1 >= generation + 3);
    if mid.expired().contains(n) {
        membership::law_rebalanced_ring(mid.membership, mid.expired());
    }
    if after.pending is Some && after.pending != done.pending {
        let target = after.pending.unwrap().target;
        assert(done.start_event(done.luck[0])[0] == EventView::Ping(target));
        law_ping_goes_to_an_alive_peer(done, done.luck[0], target);
    }
}

/// A peer that stays silent is declared dead within five ticks of its ping
/// running out: the first asks proxies, the second reports a suspect, and the
/// fifth reports a death and takes the peer off the ring, if the ring keeps any
/// node.
pub proof fn law_silent_peer_is_declared_dead(
    s: SwimmerView,
    p: ProbeState,
    i1: TickInput,
    i2: TickInput,
    i3: TickInput,
    i4: TickInput,
    i5: TickInput,
)
    requires
        s.tick_count + 5 <= u64::MAX,
        s.membership.ring.version + 5 <= u64::MAX,
        s.config.probe_timeout <= MAX_SPAN,
        s.pending == Some(p),
        !p.indirect_sent,
        p.deadline <= i1.now,
        p.deadline <= i2.now,
        s.ticked(i1).ticked(i2).ticked(i3).ticked(i4).admits(i5),
    ensures
        ({
            let s1 = s.ticked(i1);
            let s2 = s1.ticked(i2);
            let s4 = s2.ticked(i3).ticked(i4);
            let s5 = s4.ticked(i5);
            let marked = s4.mid_tick(i5).membership.mark_dead(s4.mid_tick(i5).expired());
            &&& s.tick_events(i1)[0] is PingReq && s.tick_events(i1)[0]->target == p.target
            &&& s1.tick_events(i2)[0] == EventView::Suspect(p.target)
            &&& s4.tick_events(i5).contains(EventView::Dead(p.target))
            &&& s5.membership.health.contains_key(p.target)
            &&& s5.membership.health[p.target] == NodeHealth::Dead(s4.membership.ring.version)
            &&& marked.surviving_nodes().len() > 0 ==> !s5.membership.ring.nodes.contains(p.target)
        }),
{
    let n = p.target;
    let s1 = s.ticked(i1);
    let s2 = s1.ticked(i2);
    let s3 = s2.ticked(i3);
    let s4 = s3.ticked(i4);
    let s5 = s4.ticked(i5);
    assert(s.advance().overdue(i1.now));
    assert(s.advance().probe_event(i1.now, s.next_draws(s.proxy_draws(i1))).len() == 1);
    assert(s1.pending == Some(ProbeState { indirect_sent: true, ..p }));
    assert(s1.advance().overdue(i2.now));
    assert(s1.advance().probe_event(i2.now, s1.next_draws(s1.proxy_draws(i2))).len() == 1);
    let mid2 = s1.mid_tick(i2);
    let done2 = mid2.after_expiry();
    assert(mid2.pending is None);
    assert(mid2.membership.health[n] == NodeHealth::Suspect(s2.tick_count));
    assert(!mid2.expired().contains(n));
    assert(done2.membership.health.contains_key(n));
    assert(done2.membership.health[n] == NodeHealth::Suspect(s2.tick_count));
    if s2.pending is Some {
        assert(done2.start_event(done2.luck[0])[0] == EventView::Ping(s2.pending.unwrap().target));
        law_ping_goes_to_an_alive_peer(done2, done2.luck[0], s2.pending.unwrap().target);
    }
    law_suspicion_lasts_three_ticks(s2, i3, n, s2.tick_count);
    law_suspicion_lasts_three_ticks(s3, i4, n, s2.tick_count);
    law_suspicion_lasts_three_ticks(s4, i5, n, s2.tick_count);
    // The order in which the dead are met lists the target, and the events follow it.
    let mid5 = s4.mid_tick(i5);
    assert(i5.order.to_set().contains(n));
    let at = choose|at: int| 0 <= at < i5.order.len() && i5.order[at] == n;
    let first = s4.advance().probe_event(i5.now, s4.next_draws(s4.proxy_draws(i5)));
    assert(mid5.expiry_events(i5.order)[at] == EventView::Dead(n));
    assert(s4.tick_events(i5)[first.len() + at] == EventView::Dead(n));
}

/// A pong from the node under probe clears it: the next tick starts no indirect
/// probe and suspects no one.
pub proof fn law_answered_probe_raises_no_suspicion(s: SwimmerView, input: TickInput)
    requires
        s.pending is None,
    ensures
        s.advance().probe_event(input.now, s.next_draws(s.proxy_draws(input))) == Seq::<EventView>::empty(),
        s.mid_tick(input).membership == s.membership,
{
}

/// A tick that changes the ring leaves no dead node on it, one version on.
/// A tick that reports no new ring keeps the old one.
pub proof fn law_tick_ring(s: SwimmerView, input: TickInput)
    requires
        s.can_tick(),
    ensures
        ({
            let after = s.ticked(input).membership;
            ||| after.ring == s.membership.ring
            ||| {
                &&& after.ring.version == s.membership.ring.version + 1
                &&& after.ring.nodes.len() > 0
                &&& forall|n: NodeId| #[trigger]
                    after.ring.nodes.contains(n) ==> s.membership.ring.nodes.contains(n)
                        && membership::survivor_in(after.health)(n)
                &&& s.mid_tick(input).expiry_events(input.order).contains(
                    EventView::RingChanged(after.ring),
                )
            }
        }),
{
    let mid = s.mid_tick(input);
    let marked = mid.membership.mark_dead(mid.expired());
    if !mid.expired().is_empty() && marked.surviving_nodes().len() > 0 {
        membership::law_rebalanced_ring(mid.membership, mid.expired());
        let events = mid.expiry_events(input.order);
        assert(events.last() == EventView::RingChanged(marked.drop_dead().ring));
        assert(events.contains(events[events.len() - 1]));
    }
}

/// A swimmer without an alive peer, a pending probe or a suspect has nothing to
/// report.
pub proof fn law_lonely_swimmer_is_silent(s: SwimmerView, input: TickInput)
    requires
        s.admits(input),
        s.pending is None,
        forall|n: NodeId| #[trigger]
            s.membership.health.contains_key(n) ==> s.membership.health[n] !is Suspect,
        forall|i: int|
            0 <= i < s.membership.alive_nodes().len() ==> #[trigger] s.membership.alive_nodes()[i]
                == s.my_id,
    ensures
        s.tick_events(input) == Seq::<EventView>::empty(),
{
    let mid = s.mid_tick(input);
    assert(mid.expired() =~= Set::empty());
    assert(input.order.len() == 0) by {
        if input.order.len() > 0 {
            assert(input.order.to_set().contains(input.order[0]));
        }
    }
    let alive = s.membership.alive_nodes();
    if s.targets().len() > 0 {
        let n = s.targets()[0];
        assert(s.targets().contains(n));
        membership::lemma_filter_holds(alive, other_than(s.my_id, s.my_id), n);
        let i = choose|i: int| 0 <= i < alive.len() && alive[i] == n;
        assert(alive[i] == s.my_id);
    }
    assert(s.tick_events(input) =~= Seq::empty());
}

/// Whether ticks that take `inputs` lead through `states` and report `reports`.
pub open spec fn is_run(
    states: Seq<SwimmerView>,
    inputs: Seq<TickInput>,
    reports: Seq<Seq<EventView>>,
) -> bool {
    &&& states.len() == inputs.len() + 1
    &&& reports.len() == inputs.len()
    &&& forall|i: int|
        0 <= i < inputs.len() ==> states[i].ticked(#[trigger] inputs[i]) == states[i + 1] && reports[i]
            == states[i].tick_events(inputs[i])
}

/// Runs are reproducible: two swimmers with the same node, cluster and seed that
/// take the same from outside go through the same states and report the same
/// events.
pub proof fn law_one_seed_gives_one_run(
    my_id: NodeId,
    nodes: Seq<NodeId>,
    seed: u64,
    inputs: Seq<TickInput>,
    a: Seq<SwimmerView>,
    a_reports: Seq<Seq<EventView>>,
    b: Seq<SwimmerView>,
    b_reports: Seq<Seq<EventView>>,
)
    requires
        is_run(a, inputs, a_reports),
        is_run(b, inputs, b_reports),
        a[0] == SwimmerView::starting(my_id, nodes, seeded_draws(seed)),
        b[0] == SwimmerView::starting(my_id, nodes, seeded_draws(seed)),
    ensures
        a == b,
        a_reports == b_reports,
{
    assert forall|i: int| 0 <= i < a.len() implies a[i] == b[i] by {
        lemma_same_states(inputs, a, a_reports, b, b_reports, i as nat);
    }
    assert(a =~= b);
    assert forall|i: int| 0 <= i < a_reports.len() implies a_reports[i] == b_reports[i] by {
        assert(a[i].ticked(inputs[i]) == a[i + 1]);
    }
    assert(a_reports =~= b_reports);
}

proof fn lemma_same_states(
    inputs: Seq<TickInput>,
    a: Seq<SwimmerView>,
    a_reports: Seq<Seq<EventView>>,
    b: Seq<SwimmerView>,
    b_reports: Seq<Seq<EventView>>,
    n: nat,
)
    requires
        is_run(a, inputs, a_reports),
        is_run(b, inputs, b_reports),
        a[0] == b[0],
        n < a.len(),
    ensures
        a[n as int] == b[n as int],
    decreases n,
{
    if n > 0 {
        lemma_same_states(inputs, a, a_reports, b, b_reports, (n - 1) as nat);
        assert(a[n - 1].ticked(inputs[n - 1]) == a[n as int]);
        assert(b[n - 1].ticked(inputs[n - 1]) == b[n as int]);
    }
}

/// A new swimmer has not ticked or pinged, knows its own node and the ring that it was
/// given, with every node alive, and no addresses. It waits a second for a reply and
/// asks two proxies.
pub proof fn law_new_swimmer(my_id: NodeId, nodes: Seq<NodeId>, luck: Map<nat, u64>, n: NodeId)
    ensures
        ({
            let s = SwimmerView::starting(my_id, nodes, luck);
            &&& s.my_id == my_id
            &&& s.membership.ring.nodes == nodes
            &&& s.membership.ring.version == 1
            &&& s.membership.health.contains_key(n) <==> nodes.contains(n)
            &&& nodes.contains(n) ==> s.membership.health[n] == NodeHealth::Alive
            &&& s.pending is None
            &&& s.tick_count == 0
            &&& s.peers.dom().is_empty()
            &&& s.luck == luck
            &&& s.config.probe_interval == 1_000_000_000
            &&& s.config.probe_timeout == 1_000_000_000
            &&& s.config.num_indirect == 2
            &&& s.config.suspicion_timeout == 3_000_000_000
        }),
{
    assert(SwimmerView::starting(my_id, nodes, luck).peers.dom() =~= Set::empty());
}

/// A draw selects a position in range. Small draws select each its own, and draws that
/// differ by the number of items select the same, so every item can be drawn.
pub proof fn law_draws_go_round(draw: u64, next: u64, len: nat)
    requires
        0 < len,
        next == draw + len,
        next <= usize::MAX,
    ensures
        0 <= pick(draw, len) < len,
        draw < len ==> pick(draw, len) == draw,
        pick(next, len) == pick(draw, len),
{
    vstd::arithmetic::div_mod::lemma_mod_add_multiples_vanish(draw as int, len as int);
    if draw < len {
        vstd::arithmetic::div_mod::lemma_small_mod(draw as nat, len);
    }
}

/// Each draw selects among the items that are left.
pub proof fn law_draws_select_among_what_is_left(items: Seq<NodeId>, draws: Seq<u64>)
    ensures
        picks(items, draws).len() == if draws.len() < items.len() {
            draws.len()
        } else {
            items.len()
        },
        items.len() > 0 && draws.len() > 0 ==> picks(items, draws)[0] == items[pick(
            draws[0],
            items.len(),
        )],
        forall|n: NodeId| #[trigger] picks(items, draws).contains(n) ==> items.contains(n),
        items.no_duplicates() ==> picks(items, draws).no_duplicates(),
{
    lemma_picks(items, draws);
}

/// What a tick reports comes in three parts: of the pending probe, of suspicions that
/// expire, and of a new probe.
proof fn lemma_event_parts(s: SwimmerView, input: TickInput, e: EventView)
    ensures
        ({
            let first = s.advance().probe_event(input.now, s.next_draws(s.proxy_draws(input)));
            let middle = s.mid_tick(input).expiry_events(input.order);
            let done = s.mid_tick(input).after_expiry();
            let last = done.start_event(done.luck[0]);
            &&& s.tick_events(input) == first + middle + last
            &&& s.tick_events(input).contains(e) <==> first.contains(e) || middle.contains(e)
                || last.contains(e)
            &&& first.contains(e) ==> first.len() == 1 && first[0] == e && (e is PingReq || e is Suspect)
            &&& middle.contains(e) ==> e is Dead || e is RingChanged
            &&& last.contains(e) ==> last.len() == 1 && last[0] == e && e is Ping
        }),
{
    let first = s.advance().probe_event(input.now, s.next_draws(s.proxy_draws(input)));
    let middle = s.mid_tick(input).expiry_events(input.order);
    let done = s.mid_tick(input).after_expiry();
    let last = done.start_event(done.luck[0]);
    let all = first + middle + last;
    if all.contains(e) {
        let i = choose|i: int| 0 <= i < all.len() && all[i] == e;
        if i < first.len() {
            assert(first[i] == e);
        } else if i < first.len() + middle.len() {
            assert(middle[i - first.len()] == e);
        } else {
            assert(last[i - first.len() - middle.len()] == e);
        }
    }
    if first.contains(e) {
        let i = choose|i: int| 0 <= i < first.len() && first[i] == e;
        assert(all[i] == e);
    }
    if middle.contains(e) {
        let i = choose|i: int| 0 <= i < middle.len() && middle[i] == e;
        assert(all[first.len() + i] == e);
    }
    if last.contains(e) {
        let i = choose|i: int| 0 <= i < last.len() && last[i] == e;
        assert(all[first.len() + middle.len() + i] == e);
    }
}

/// After a tick that reports a ping, the pending probe is of the pinged node, and falls
/// due when the configured timeout has passed since the probe was started, however
/// long the swimmer has been up.
pub proof fn law_ping_falls_due_after_the_timeout(s: SwimmerView, input: TickInput, n: NodeId)
    requires
        s.can_tick(),
        s.admits(input),
        s.tick_events(input).contains(EventView::Ping(n)),
    ensures
        ({
            let pending = s.ticked(input).pending;
            &&& pending is Some
            &&& pending.unwrap().target == n
            &&& pending.unwrap().deadline == input.later + s.config.probe_timeout
            &&& !pending.unwrap().indirect_sent
        }),
{
    lemma_event_parts(s, input, EventView::Ping(n));
    let done = s.mid_tick(input).after_expiry();
    assert(done.start_event(done.luck[0])[0] == EventView::Ping(n));
    assert(done.next_target(done.luck[0]) == Some(n));
}

/// A probe that has not fallen due is left alone, and nobody is pinged, asked or
/// suspected meanwhile.
pub proof fn law_probe_in_time_is_left_alone(s: SwimmerView, input: TickInput, p: ProbeState)
    requires
        s.can_tick(),
        s.admits(input),
        s.pending == Some(p),
        input.now < p.deadline,
    ensures
        s.ticked(input).pending == Some(p),
        forall|e: EventView| #[trigger]
            s.tick_events(input).contains(e) ==> e is Dead || e is RingChanged,
{
    assert forall|e: EventView| #[trigger] s.tick_events(input).contains(e) implies e is Dead
        || e is RingChanged by {
        lemma_event_parts(s, input, e);
    }
}

/// A probe that has fallen due is handed to proxies, which the next random numbers
/// select, and if it has been before, the node is suspected as of this tick.
pub proof fn law_overdue_probe_escalates(s: SwimmerView, input: TickInput, p: ProbeState)
    requires
        s.can_tick(),
        s.admits(input),
        s.pending == Some(p),
        p.deadline <= input.now,
    ensures
        !p.indirect_sent ==> {
            let e = s.tick_events(input)[0];
            let pool = s.proxies(p.target);
            let asked = if s.config.num_indirect < pool.len() {
                s.config.num_indirect as nat
            } else {
                pool.len()
            };
            &&& s.tick_events(input).len() > 0
            &&& e is PingReq
            &&& e->target == p.target
            &&& e->via.len() == asked
            &&& e->via == picks(pool, Seq::new(asked, |i: int| s.luck[i as nat]))
            &&& s.ticked(input).pending == Some((ProbeState { indirect_sent: true, ..p }))
            &&& s.ticked(input).luck == shifted(s.luck, asked)
        },
        p.indirect_sent ==> {
            &&& s.tick_events(input).len() > 0
            &&& s.tick_events(input)[0] == EventView::Suspect(p.target)
            &&& s.ticked(input).membership.health.contains_key(p.target)
            &&& s.ticked(input).membership.health[p.target] == NodeHealth::Suspect(
                (s.tick_count + 1) as u64,
            )
        },
{
    let first = s.advance().probe_event(input.now, s.next_draws(s.proxy_draws(input)));
    assert(first.len() == 1);
    assert(s.tick_events(input)[0] == first[0]);
    if !p.indirect_sent {
        let pool = s.proxies(p.target);
        assert(s.advance().proxies(p.target) == pool);
        let asked = s.proxy_draws(input);
        assert(s.next_draws(asked) =~= Seq::new(asked, |i: int| s.luck[i as nat]));
        lemma_picks(pool, s.next_draws(asked));
    } else {
        let mid = s.mid_tick(input);
        assert(mid.membership.health[p.target] == NodeHealth::Suspect((s.tick_count + 1) as u64));
        assert(!mid.expired().contains(p.target));
    }
}

/// A peer that is pinged and does not answer is handed to proxies at the first tick
/// whose clock is at least the timeout after the ping, and not before.
pub proof fn law_unanswered_ping_goes_to_proxies(
    s: SwimmerView,
    i1: TickInput,
    i2: TickInput,
    n: NodeId,
)
    requires
        s.tick_count + 2 <= u64::MAX,
        s.membership.ring.version + 2 <= u64::MAX,
        s.config.probe_timeout <= MAX_SPAN,
        s.admits(i1),
        s.ticked(i1).admits(i2),
        s.tick_events(i1).contains(EventView::Ping(n)),
    ensures
        if i2.now >= i1.later + s.config.probe_timeout {
            let e = s.ticked(i1).tick_events(i2)[0];
            e is PingReq && e->target == n
        } else {
            s.ticked(i1).ticked(i2).pending == s.ticked(i1).pending && forall|e: EventView| #[trigger]
                s.ticked(i1).tick_events(i2).contains(e) ==> e is Dead || e is RingChanged
        },
{
    let s1 = s.ticked(i1);
    law_ping_falls_due_after_the_timeout(s, i1, n);
    law_tick_ring(s, i1);
    let p = s1.pending.unwrap();
    if i2.now >= p.deadline {
        law_overdue_probe_escalates(s1, i2, p);
    } else {
        law_probe_in_time_is_left_alone(s1, i2, p);
    }
}

/// Whether a tick makes `n` a suspect: it was handed to proxies, and is overdue still.
pub open spec fn turns_suspect(s: SwimmerView, input: TickInput, n: NodeId) -> bool {
    s.pending matches Some(p) && p.target == n && p.indirect_sent && p.deadline <= input.now
}

/// Whether a tick declares `n` dead: it has been a suspect for three ticks.
pub open spec fn turns_dead(s: SwimmerView, input: TickInput, n: NodeId) -> bool {
    &&& !turns_suspect(s, input, n)
    &&& s.membership.health.contains_key(n)
    &&& (s.membership.health[n] matches NodeHealth::Suspect(since) && since + 3 <= s.tick_count + 1)
}

/// What a tick changes of the health of a node: an overdue probe makes its target a
/// suspect, a suspect of three ticks is dead as of the current ring, and everything
/// else that is known stays. The node itself, its configuration and its address book
/// stay as well.
pub proof fn law_what_a_tick_changes(s: SwimmerView, input: TickInput, n: NodeId)
    requires
        s.can_tick(),
        s.admits(input),
    ensures
        ({
            let after = s.ticked(input);
            let health = after.membership.health;
            &&& health.contains_key(n) <==> s.membership.health.contains_key(n) || turns_suspect(
                s,
                input,
                n,
            )
            &&& turns_suspect(s, input, n) ==> health[n] == NodeHealth::Suspect((s.tick_count + 1) as u64)
            &&& turns_dead(s, input, n) ==> health[n] == NodeHealth::Dead(s.membership.ring.version)
            &&& s.membership.health.contains_key(n) && !turns_suspect(s, input, n) && !turns_dead(
                s,
                input,
                n,
            ) ==> health[n] == s.membership.health[n]
            &&& after.tick_count == s.tick_count + 1
            &&& after.my_id == s.my_id
            &&& after.config == s.config
            &&& after.peers == s.peers
        }),
{
    let mid = s.mid_tick(input);
    assert(mid.expired().contains(n) <==> turns_dead(s, input, n));
}

/// A tick reports a suspect or a death exactly when one comes about, and a new ring
/// exactly when some node dies and some node of the ring is left; that is then the
/// ring of the swimmer.
pub proof fn law_what_a_tick_reports(s: SwimmerView, input: TickInput, n: NodeId, ring: RingView)
    requires
        s.can_tick(),
        s.admits(input),
    ensures
        s.tick_events(input).contains(EventView::Suspect(n)) <==> turns_suspect(s, input, n),
        s.tick_events(input).contains(EventView::Dead(n)) <==> turns_dead(s, input, n),
        s.tick_events(input).contains(EventView::RingChanged(ring)) ==> ring == s.ticked(
            input,
        ).membership.ring && ring.version == s.membership.ring.version + 1,
        turns_dead(s, input, n) && s.ticked(input).membership.ring == s.membership.ring
            ==> forall|x: NodeId| #[trigger]
            s.membership.ring.nodes.contains(x) ==> !membership::survivor_in(
                s.ticked(input).membership.health,
            )(x),
        s.ticked(input).membership.ring != s.membership.ring ==> s.tick_events(input).contains(
            EventView::RingChanged(s.ticked(input).membership.ring),
        ),
{
    let mid = s.mid_tick(input);
    let after = s.ticked(input);
    let marked = mid.membership.mark_dead(mid.expired());
    let middle = mid.expiry_events(input.order);
    let dead = input.order.map_values(|x: NodeId| EventView::Dead(x));
    lemma_event_parts(s, input, EventView::Suspect(n));
    lemma_event_parts(s, input, EventView::Dead(n));
    lemma_event_parts(s, input, EventView::RingChanged(ring));
    lemma_event_parts(s, input, EventView::RingChanged(after.membership.ring));
    law_tick_ring(s, input);
    assert(mid.expired().contains(n) <==> turns_dead(s, input, n));
    let first = s.advance().probe_event(input.now, s.next_draws(s.proxy_draws(input)));
    if turns_suspect(s, input, n) {
        assert(first[0] == EventView::Suspect(n));
        assert(first.contains(first[0]));
    }
    if mid.expired().contains(n) {
        assert(input.order.to_set().contains(n));
        let i = choose|i: int| 0 <= i < input.order.len() && input.order[i] == n;
        assert(dead[i] == EventView::Dead(n));
        assert(middle[i] == EventView::Dead(n));
        assert(middle.contains(middle[i]));
    }
    if middle.contains(EventView::Dead(n)) {
        let i = choose|i: int| 0 <= i < middle.len() && middle[i] == EventView::Dead(n);
        assert(i < dead.len());
        assert(input.order[i] == n);
        assert(input.order.to_set().contains(n));
    }
    if middle.contains(EventView::RingChanged(ring)) {
        let i = choose|i: int| 0 <= i < middle.len() && middle[i] == EventView::RingChanged(ring);
        assert(i == dead.len());
        assert(ring == marked.drop_dead().ring);
    }
    if turns_dead(s, input, n) && after.membership.ring == s.membership.ring {
        assert(!mid.expired().is_empty());
        if marked.surviving_nodes().len() > 0 {
            assert(after.membership.ring.version == s.membership.ring.version + 1);
        }
        assert forall|x: NodeId| #[trigger] s.membership.ring.nodes.contains(x) implies !membership::survivor_in(
            after.membership.health,
        )(x) by {
            membership::lemma_filter_holds(
                marked.ring.nodes,
                membership::survivor_in(marked.health),
                x,
            );
        }
    }
}

/// A tick can be made as long as its counters and its deadline fit the machine's
/// integers, and it takes any readings of the clock, and the nodes that it declares
/// dead in any order.
pub proof fn law_when_a_swimmer_can_tick(s: SwimmerView, input: TickInput)
    requires
        s.tick_count < u64::MAX,
    ensures
        s.can_tick() <==> s.tick_count < u64::MAX && s.membership.ring.version < u64::MAX
            && s.config.probe_timeout <= MAX_SPAN,
        s.admits(input) <==> {
            &&& input.now <= MAX_SPAN
            &&& input.later <= MAX_SPAN
            &&& input.order.no_duplicates()
            &&& forall|n: NodeId| #[trigger] input.order.contains(n) <==> turns_dead(s, input, n)
        },
{
    let mid = s.mid_tick(input);
    assert forall|n: NodeId| #[trigger] mid.expired().contains(n) <==> turns_dead(s, input, n) by {}
    let listed = input.order.to_set();
    if forall|n: NodeId| #[trigger] input.order.contains(n) <==> turns_dead(s, input, n) {
        assert forall|n: NodeId| #[trigger] listed.contains(n) <==> mid.expired().contains(n) by {
            assert(input.order.contains(n) <==> turns_dead(s, input, n));
        }
        assert(listed =~= mid.expired());
    }
    if listed == mid.expired() {
        assert forall|n: NodeId| #[trigger] input.order.contains(n) <==> turns_dead(s, input, n) by {
            assert(listed.contains(n) <==> mid.expired().contains(n));
        }
    }
}

/// Every node of the ring that is alive, but for this one, may be probed, and but for
/// the node under probe may be asked to probe it. No other node may.
pub proof fn law_every_alive_peer_takes_part(s: SwimmerView, target: NodeId, n: NodeId)
    ensures
        s.targets().contains(n) <==> s.membership.ring.nodes.contains(n)
            && s.membership.health.contains_key(n) && s.membership.health[n] == NodeHealth::Alive && n
            != s.my_id,
        s.proxies(target).contains(n) <==> s.membership.ring.nodes.contains(n)
            && s.membership.health.contains_key(n) && s.membership.health[n] == NodeHealth::Alive && n
            != s.my_id && n != target,
{
    lemma_targets(s, n);
    membership::lemma_filter_holds(
        s.membership.ring.nodes,
        membership::alive_in(s.membership.health),
        n,
    );
    membership::lemma_filter_holds(s.membership.alive_nodes(), other_than(target, s.my_id), n);
}

/// A swimmer and its events are seen with all that they hold.
pub proof fn law_swimmers_are_seen_in_full(s: Swimmer, events: Seq<MembershipEvent>, i: int, n: NodeId)
    ensures
        s@.my_id == s.my_id,
        s@.membership.ring.nodes == s.membership.ring.nodes@,
        s@.membership.ring.version == s.membership.ring.version,
        s@.membership.health == s.membership.health@,
        s@.config == s.config,
        s@.pending == s.pending,
        s@.tick_count == s.tick_count,
        s@.luck == upcoming(s.rng),
        s@.peers.contains_key(n) <==> s.peers@.contains_key(n),
        s.peers@.contains_key(n) ==> s@.peers[n] == s.peers@[n]@,
        event_views(events).len() == events.len(),
        0 <= i < events.len() ==> match events[i] {
            MembershipEvent::Ping(x) => event_views(events)[i] == EventView::Ping(x),
            MembershipEvent::PingReq { target, via: asked } => event_views(events)[i] == (EventView::PingReq {
                target,
                via: asked@,
            }),
            MembershipEvent::Suspect(x) => event_views(events)[i] == EventView::Suspect(x),
            MembershipEvent::Dead(x) => event_views(events)[i] == EventView::Dead(x),
            MembershipEvent::RingChanged(r) => event_views(events)[i] == EventView::RingChanged(
                (RingView { nodes: r.nodes@, version: r.version }),
            ),
        },
{
}

/// A pong ends the probe of the node that sent it, and no other. The tick after it
/// neither asks proxies nor suspects anyone, however late it comes.
pub proof fn law_pong_ends_the_probe(s: SwimmerView, from: NodeId, input: TickInput)
    requires
        s.can_tick(),
        s.after_pong(from).admits(input),
    ensures
        s.pending is None ==> s.after_pong(from) == s,
        s.pending matches Some(p) ==> {
            &&& p.target == from ==> s.after_pong(from).pending is None
            &&& p.target != from ==> s.after_pong(from) == s
            &&& p.target == from ==> forall|e: EventView| #[trigger]
                s.after_pong(from).tick_events(input).contains(e) ==> !(e is PingReq) && !(e is Suspect)
        },
        s.after_pong(from).membership == s.membership,
        s.after_pong(from).peers == s.peers,
        s.after_pong(from).tick_count == s.tick_count,
        s.after_pong(from).luck == s.luck,
{
    let after = s.after_pong(from);
    if after.pending is None {
        assert forall|e: EventView| #[trigger] after.tick_events(input).contains(e) implies !(e is PingReq)
            && !(e is Suspect) by {
            lemma_event_parts(after, input, e);
        }
    }
}

} // verus!
