//! Clients and nodes together.
//!
//! The sessions of a client, played against the block stores of a list of nodes:
//! what a put leaves on them, what a get finds there, and what a delete removes.

use vstd::prelude::*;

use crate::block;
use crate::client;
use crate::client::{GetView, ObjectMetadataView, PutView};
use crate::erasure;
use crate::mem_store;
use crate::mem_store::Blocks;
use crate::rpc;

verus! {

/// The ID under which shard `i` of the object with contents `data` is stored.
pub open spec fn shard_id(data: Seq<u8>, i: nat) -> Seq<char> {
    block::block_id_text(
        ObjectMetadataView::describing(data).object_id,
        i,
        client::RING_VERSION as nat,
    )
}

/// Whether no store holds anything but the object's own shards under the IDs of
/// the object with contents `data`.
pub open spec fn honest(stores: Seq<Blocks>, data: Seq<u8>, k: nat, m: nat) -> bool {
    forall|j: int, i: nat|
        0 <= j < stores.len() && i < k + m && #[trigger] stores[j].contains_key(shard_id(data, i))
            ==> stores[j][shard_id(data, i)].0 == erasure::code_shards(data, k, m)[i as int]
}

/// Whether some store holds a block with the given ID.
pub open spec fn held(stores: Seq<Blocks>, id: Seq<char>) -> bool {
    exists|j: int| 0 <= j < stores.len() && #[trigger] stores[j].contains_key(id)
}

/// The stores after a put, where `up` says which node takes which block.
pub open spec fn stores_after_put(
    v: PutView,
    stores: Seq<Blocks>,
    up: spec_fn(nat, nat) -> bool,
) -> Seq<Blocks>
    decreases v.blocks.len() - v.shard, v.nodes - v.offset,
{
    if v.done() {
        stores
    } else {
        let ok = up(v.shard, v.node());
        let (shard, meta) = v.blocks[v.shard as int];
        let at = v.node() as int;
        let next = if ok {
            stores.update(
                at,
                mem_store::stored(
                    stores[at],
                    rpc::shard_to_proto(shard),
                    rpc::meta_to_proto(meta),
                ),
            )
        } else {
            stores
        };
        stores_after_put(v.after(ok), next, up)
    }
}

/// What each node gives of each shard, where `down` says which nodes do not
/// respond.
pub open spec fn fetch_from(
    stores: Seq<Blocks>,
    data: Seq<u8>,
    down: spec_fn(nat) -> bool,
) -> spec_fn(nat, nat) -> Option<Seq<u8>> {
    |i: nat, j: nat|
        if j < stores.len() && !down(j) {
            match mem_store::answer(stores[j as int], shard_id(data, i)) {
                Some((shard, _)) => Some(shard.data),
                None => None,
            }
        } else {
            None
        }
}

/// A get asks for the very blocks that a put stores.
pub proof fn law_get_asks_for_what_put_stores(nodes: nat, k: nat, m: nat, data: Seq<u8>, i: nat)
    requires
        i < PutView::starting(nodes, k, m, data).blocks.len() <= 256,
    ensures
        ({
            let object_id = ObjectMetadataView::describing(data).object_id;
            let asked = GetView { shard: i, ..GetView::starting(nodes, k, m, object_id) };
            let block = PutView::starting(nodes, k, m, data).blocks[i as int];
            &&& block.1.block_id == asked.block_id()
            &&& block.1.matches(block.0.data)
        }),
{
}

proof fn lemma_stores_after_put(
    v: PutView,
    stores: Seq<Blocks>,
    up: spec_fn(nat, nat) -> bool,
    data: Seq<u8>,
    k: nat,
    m: nat,
)
    requires
        v.blocks == PutView::starting(v.nodes, k, m, data).blocks,
        v.blocks.len() == k + m <= 256,
        v.offset < v.nodes,
        v.nodes == stores.len(),
        v.shard <= v.blocks.len(),
        honest(stores, data, k, m),
        forall|o: nat| o < v.offset ==> !#[trigger] up(v.shard, client::rotation(v.shard, o, v.nodes)),
    ensures
        ({
            let end = stores_after_put(v, stores, up);
            &&& end.len() == stores.len()
            &&& honest(end, data, k, m)
            &&& forall|id: Seq<char>| held(stores, id) ==> #[trigger] held(end, id)
            &&& forall|i: nat|
                v.shard <= i < k + m && client::stored_somewhere(up, v.nodes)(i) ==> held(
                    end,
                    #[trigger] shard_id(data, i),
                )
        }),
    decreases v.blocks.len() - v.shard, v.nodes - v.offset,
{
    let end = stores_after_put(v, stores, up);
    if !v.done() {
        let ok = up(v.shard, v.node());
        let at = v.node() as int;
        assert(0 <= at < v.nodes);
        let (shard, meta) = v.blocks[v.shard as int];
        let id = shard_id(data, v.shard);
        assert(meta.block_id == id);
        let filled = mem_store::stored(
            stores[at],
            rpc::shard_to_proto(shard),
            rpc::meta_to_proto(meta),
        );
        let next = if ok {
            stores.update(at, filled)
        } else {
            stores
        };
        assert forall|j: int, i: nat|
            0 <= j < next.len() && i < k + m && #[trigger] next[j].contains_key(shard_id(data, i)) implies next[j][shard_id(
            data,
            i,
        )].0 == erasure::code_shards(data, k, m)[i as int] by {
            if ok && j == at {
                if i != v.shard && shard_id(data, i) == id {
                    let object_id = ObjectMetadataView::describing(data).object_id;
                    let version = client::RING_VERSION as nat;
                    block::law_block_id_is_unique(object_id, i, version, object_id, v.shard, version);
                }
                if i != v.shard {
                    assert(stores[j].contains_key(shard_id(data, i)));
                }
            } else {
                assert(stores[j].contains_key(shard_id(data, i)));
            }
        }
        assert forall|x: Seq<char>| held(stores, x) implies #[trigger] held(next, x) by {
            let j = choose|j: int| 0 <= j < stores.len() && #[trigger] stores[j].contains_key(x);
            assert(next[j].contains_key(x));
        }
        if ok {
            assert(next[at].contains_key(id));
            assert(held(next, id));
        } else if v.offset + 1 >= v.nodes {
            assert(!client::stored_somewhere(up, v.nodes)(v.shard)) by {
                if client::stored_somewhere(up, v.nodes)(v.shard) {
                    let j = choose|j: nat| j < v.nodes && #[trigger] up(v.shard, j);
                    let o = client::lemma_rotation_covers(v.shard, j, v.nodes);
                    assert(up(v.shard, client::rotation(v.shard, o, v.nodes)));
                }
            }
        }
        lemma_stores_after_put(v.after(ok), next, up, data, k, m);
        assert forall|x: Seq<char>| held(stores, x) implies #[trigger] held(end, x) by {
            assert(held(next, x));
        }
    }
}

/// What a store gives under the IDs of an object are its shards, as long as it
/// holds nothing else there.
proof fn lemma_honest_fetch(
    stores: Seq<Blocks>,
    data: Seq<u8>,
    k: nat,
    m: nat,
    down: spec_fn(nat) -> bool,
)
    requires
        honest(stores, data, k, m),
    ensures
        forall|i: nat, j: nat|
            i < k + m && (#[trigger] fetch_from(stores, data, down)(i, j)) is Some ==> fetch_from(
                stores,
                data,
                down,
            )(i, j) == Some(erasure::code_shards(data, k, m)[i as int]),
{
    let fetch = fetch_from(stores, data, down);
    assert forall|i: nat, j: nat| i < k + m && (#[trigger] fetch(i, j)) is Some implies fetch(i, j) == Some(
        erasure::code_shards(data, k, m)[i as int],
    ) by {
        assert(stores[j as int].contains_key(shard_id(data, i)));
    }
}

/// What was put is got back: after a put that reached its quorum on nodes that
/// hold nothing foreign under the object's IDs, a get that reaches the nodes
/// recovers the object.
pub proof fn law_put_then_get_recovers_the_object(
    stores: Seq<Blocks>,
    k: nat,
    m: nat,
    data: Seq<u8>,
    up: spec_fn(nat, nat) -> bool,
)
    requires
        stores.len() > 0,
        PutView::starting(stores.len(), k, m, data).blocks.len() == k + m <= 256,
        honest(stores, data, k, m),
        client::put_run(PutView::starting(stores.len(), k, m, data), up).has_quorum(),
    ensures
        ({
            let after = stores_after_put(PutView::starting(stores.len(), k, m, data), stores, up);
            let object_id = client::put_run(
                PutView::starting(stores.len(), k, m, data),
                up,
            ).object.object_id;
            client::get_run(
                GetView::starting(stores.len(), k, m, object_id),
                fetch_from(after, data, |j: nat| false),
            ).recovers(data)
        }),
{
    let start = PutView::starting(stores.len(), k, m, data);
    let after = stores_after_put(start, stores, up);
    let fetch = fetch_from(after, data, |j: nat| false);
    client::law_put_counts_stored_blocks(stores.len(), k, m, data, up);
    lemma_stores_after_put(start, stores, up, data, k, m);
    lemma_honest_fetch(after, data, k, m, |j: nat| false);
    assert forall|i: nat|
        i < k + m && #[trigger] client::stored_somewhere(up, stores.len())(i) implies client::available_somewhere(
        fetch,
        stores.len(),
    )(i) by {
        assert(held(after, shard_id(data, i)));
        let j = choose|j: int| 0 <= j < after.len() && #[trigger] after[j].contains_key(shard_id(data, i));
        assert(fetch(i, j as nat) is Some);
    }
    client::law_get_recovers_what_put_stored(stores.len(), k, m, data, up, fetch);
}

/// An object survives the failure of nodes: whichever nodes are down, a get
/// recovers the object as long as the others hold `k` of its shards.
pub proof fn law_object_survives_node_failures(
    stores: Seq<Blocks>,
    k: nat,
    m: nat,
    data: Seq<u8>,
    down: spec_fn(nat) -> bool,
)
    requires
        stores.len() > 0,
        honest(stores, data, k, m),
        client::tally(
            client::available_somewhere(fetch_from(stores, data, down), stores.len()),
            0,
            k + m,
        ) >= k,
    ensures
        client::get_run(
            GetView::starting(stores.len(), k, m, ObjectMetadataView::describing(data).object_id),
            fetch_from(stores, data, down),
        ).recovers(data),
{
    lemma_honest_fetch(stores, data, k, m, down);
    client::law_get_recovers_from_any_k_shards(
        stores.len(),
        k,
        m,
        data,
        ObjectMetadataView::describing(data).object_id,
        fetch_from(stores, data, down),
    );
}

/// Every node takes every block.
pub open spec fn all_up() -> spec_fn(nat, nat) -> bool {
    |i: nat, j: nat| true
}

/// Whether the node to which a put turns first with a shard is among those that `p`
/// names. The shards go round the nodes.
pub open spec fn first_node(p: spec_fn(nat) -> bool, nodes: nat) -> spec_fn(nat) -> bool {
    |i: nat| p(i % nodes)
}

/// The most shards that one of `nodes` nodes holds when `total` go round.
pub open spec fn most_shards_per_node(total: nat, nodes: nat) -> nat
    recommends
        nodes > 0,
{
    ((total + nodes - 1) / nodes as int) as nat
}

/// With all nodes up, each shard is at the node to which a put turns first with it,
/// and where it was before.
proof fn lemma_put_with_all_up(v: PutView, stores: Seq<Blocks>, data: Seq<u8>, k: nat, m: nat)
    requires
        v.blocks == PutView::starting(v.nodes, k, m, data).blocks,
        v.blocks.len() == k + m <= 256,
        v.offset == 0 < v.nodes,
        v.nodes == stores.len(),
        v.shard <= v.blocks.len(),
    ensures
        ({
            let end = stores_after_put(v, stores, all_up());
            &&& end.len() == stores.len()
            &&& forall|j: int, i: nat|
                0 <= j < stores.len() && i < k + m ==> (#[trigger] end[j].contains_key(shard_id(data, i))
                    <==> stores[j].contains_key(shard_id(data, i)) || (v.shard <= i && j == i
                    % stores.len()))
        }),
    decreases v.blocks.len() - v.shard,
{
    if !v.done() {
        let n = v.nodes;
        let at = v.node() as int;
        vstd::arithmetic::div_mod::lemma_mod_twice(v.shard as int, n as int);
        assert(at == v.shard % n);
        let (shard, meta) = v.blocks[v.shard as int];
        let id = shard_id(data, v.shard);
        assert(meta.block_id == id);
        let next = stores.update(
            at,
            mem_store::stored(
                stores[at],
                rpc::shard_to_proto(shard),
                rpc::meta_to_proto(meta),
            ),
        );
        let end = stores_after_put(v, stores, all_up());
        assert(end == stores_after_put(v.after(true), next, all_up()));
        lemma_put_with_all_up(v.after(true), next, data, k, m);
        assert forall|j: int, i: nat| 0 <= j < stores.len() && i < k + m implies (
        #[trigger] end[j].contains_key(shard_id(data, i)) <==> stores[j].contains_key(shard_id(data, i))
            || (v.shard <= i && j == i % stores.len())) by {
            if i != v.shard && shard_id(data, i) == id {
                let object_id = ObjectMetadataView::describing(data).object_id;
                let version = client::RING_VERSION as nat;
                block::law_block_id_is_unique(object_id, i, version, object_id, v.shard, version);
            }
            assert(next[j].contains_key(shard_id(data, i)) <==> stores[j].contains_key(
                shard_id(data, i),
            ) || (j == at && i == v.shard));
        }
    }
}

proof fn lemma_tally_concat(p: spec_fn(nat) -> bool, lo: nat, mid: nat, hi: nat)
    requires
        lo <= mid <= hi,
    ensures
        client::tally(p, lo, hi) == client::tally(p, lo, mid) + client::tally(p, mid, hi),
    decreases mid - lo,
{
    if lo < mid {
        lemma_tally_concat(p, lo + 1, mid, hi);
    }
}

proof fn lemma_tally_shift(
    p: spec_fn(nat) -> bool,
    q: spec_fn(nat) -> bool,
    by: nat,
    lo: nat,
    hi: nat,
)
    requires
        forall|i: nat| lo <= i < hi ==> #[trigger] p(i) == q(i + by),
    ensures
        client::tally(q, lo + by, hi + by) == client::tally(p, lo, hi),
    decreases hi - lo,
{
    if lo < hi {
        lemma_tally_shift(p, q, by, lo + 1, hi);
        assert(p(lo) == q(lo + by));
    }
}

/// In each round over the nodes, those that `p` names come up once each.
proof fn lemma_tally_rounds(p: spec_fn(nat) -> bool, nodes: nat, rounds: nat)
    requires
        nodes > 0,
    ensures
        client::tally(first_node(p, nodes), 0, rounds * nodes) == rounds * client::tally(p, 0, nodes),
    decreases rounds,
{
    let q = first_node(p, nodes);
    let once = client::tally(p, 0, nodes);
    if rounds == 0 {
        assert(rounds * nodes == 0 && rounds * once == 0) by (nonlinear_arith)
            requires
                rounds == 0,
        ;
    } else {
        let before = (rounds - 1) as nat;
        let start = before * nodes;
        lemma_tally_rounds(p, nodes, before);
        assert(rounds * nodes == start + nodes && rounds * once == before * once + once) by (nonlinear_arith)
            requires
                rounds == before + 1,
                start == before * nodes,
        ;
        lemma_tally_concat(q, 0, start, rounds * nodes);
        assert forall|i: nat| 0 <= i < nodes implies #[trigger] p(i) == q(i + start) by {
            vstd::arithmetic::div_mod::lemma_fundamental_div_mod_converse(
                (i + start) as int,
                nodes as int,
                before as int,
                i as int,
            );
        }
        lemma_tally_shift(p, q, start, 0, nodes);
    }
}

/// An object that was put with all nodes up survives the failure of any nodes that
/// hold no more than `m` of its shards, counting for each the most that one holds.
pub proof fn law_object_survives_failed_nodes(
    stores: Seq<Blocks>,
    k: nat,
    m: nat,
    data: Seq<u8>,
    down: spec_fn(nat) -> bool,
)
    requires
        stores.len() > 0,
        PutView::starting(stores.len(), k, m, data).blocks.len() == k + m <= 256,
        honest(stores, data, k, m),
        client::tally(down, 0, stores.len()) * most_shards_per_node(k + m, stores.len()) <= m,
    ensures
        client::get_run(
            GetView::starting(stores.len(), k, m, ObjectMetadataView::describing(data).object_id),
            fetch_from(
                stores_after_put(PutView::starting(stores.len(), k, m, data), stores, all_up()),
                data,
                down,
            ),
        ).recovers(data),
{
    let n = stores.len();
    let total = k + m;
    let start = PutView::starting(n, k, m, data);
    let after = stores_after_put(start, stores, all_up());
    let fetch = fetch_from(after, data, down);
    let lost = first_node(down, n);
    let left = |i: nat| !lost(i);
    let available = client::available_somewhere(fetch, n);
    lemma_stores_after_put(start, stores, all_up(), data, k, m);
    lemma_put_with_all_up(start, stores, data, k, m);
    assert forall|i: nat| 0 <= i < total && #[trigger] left(i) implies available(i) by {
        let j = i % n;
        assert(after[j as int].contains_key(shard_id(data, i)));
        assert(fetch(i, j) is Some);
    }
    client::lemma_tally_monotone(left, available, 0, total);
    client::lemma_tally_split(lost, 0, total);
    // The shards fill at most so many rounds over the nodes.
    let rounds = most_shards_per_node(total, n);
    vstd::arithmetic::div_mod::lemma_fundamental_div_mod(total + n - 1, n as int);
    assert(total <= rounds * n) by (nonlinear_arith)
        requires
            total + n - 1 == n * rounds + (total + n - 1) % n as int,
            (total + n - 1) % n as int <= n - 1,
    ;
    lemma_tally_rounds(down, n, rounds);
    lemma_tally_concat(lost, 0, total, rounds * n);
    let failed = client::tally(down, 0, n);
    assert(rounds * failed == failed * rounds) by (nonlinear_arith);
    law_object_survives_node_failures(after, k, m, data, down);
}

/// With 3 data and 2 parity shards, an object that was put with all nodes up
/// survives the failure of any 2 of 5 or more nodes, and of any 1 of 3 or 4.
pub proof fn law_default_code_survives_failed_nodes(
    stores: Seq<Blocks>,
    data: Seq<u8>,
    down: spec_fn(nat) -> bool,
)
    requires
        PutView::starting(stores.len(), 3, 2, data).blocks.len() == 5,
        honest(stores, data, 3, 2),
        ({
            let failed = client::tally(down, 0, stores.len());
            stores.len() >= 5 && failed <= 2 || 3 <= stores.len() <= 4 && failed <= 1
        }),
    ensures
        client::get_run(
            GetView::starting(stores.len(), 3, 2, ObjectMetadataView::describing(data).object_id),
            fetch_from(
                stores_after_put(PutView::starting(stores.len(), 3, 2, data), stores, all_up()),
                data,
                down,
            ),
        ).recovers(data),
{
    let n = stores.len();
    let failed = client::tally(down, 0, n);
    if n >= 5 {
        vstd::arithmetic::div_mod::lemma_fundamental_div_mod_converse(
            (n + 4) as int,
            n as int,
            1,
            4,
        );
        assert(most_shards_per_node(5, n) == 1);
        assert(failed * 1 <= 2) by (nonlinear_arith)
            requires
                failed <= 2,
        ;
    } else {
        assert(most_shards_per_node(5, n) == 2) by {
            assert(n == 3 || n == 4);
        }
        assert(failed * 2 <= 2) by (nonlinear_arith)
            requires
                failed <= 1,
        ;
    }
    law_object_survives_failed_nodes(stores, 3, 2, data, down);
}

/// On 3 nodes no more than 1 failure is borne: an object that was put with all nodes
/// up, and that no node held before, is not found once 2 have failed.
pub proof fn law_default_code_needs_two_of_three_nodes(
    stores: Seq<Blocks>,
    data: Seq<u8>,
    down: spec_fn(nat) -> bool,
)
    requires
        stores.len() == 3,
        PutView::starting(3, 3, 2, data).blocks.len() == 5,
        forall|i: nat| i < 5 ==> !held(stores, #[trigger] shard_id(data, i)),
        client::tally(down, 0, 3) >= 2,
    ensures
        ({
            let end = client::get_run(
                GetView::starting(3, 3, 2, ObjectMetadataView::describing(data).object_id),
                fetch_from(
                    stores_after_put(PutView::starting(3, 3, 2, data), stores, all_up()),
                    data,
                    down,
                ),
            );
            end.done() && end.got < end.k
        }),
{
    let start = PutView::starting(3, 3, 2, data);
    let after = stores_after_put(start, stores, all_up());
    let fetch = fetch_from(after, data, down);
    let left = |i: nat| !first_node(down, 3)(i);
    let available = client::available_somewhere(fetch, 3);
    lemma_put_with_all_up(start, stores, data, 3, 2);
    assert forall|i: nat| 0 <= i < 5 && #[trigger] available(i) implies left(i) by {
        let j = choose|j: nat| j < 3 && (#[trigger] fetch(i, j)) is Some;
        assert(after[j as int].contains_key(shard_id(data, i)));
        assert(!held(stores, shard_id(data, i)));
        assert(!stores[j as int].contains_key(shard_id(data, i)));
    }
    client::lemma_tally_monotone(available, left, 0, 5);
    assert(client::tally(left, 0, 5) <= 2) by {
        reveal_with_fuel(client::tally, 6);
    }
    client::law_get_needs_k_shards(
        3,
        3,
        2,
        ObjectMetadataView::describing(data).object_id,
        fetch,
    );
}

/// The stores after each of `requests` has removed its block from its node.
pub open spec fn stores_after_requests(
    stores: Seq<Blocks>,
    requests: Seq<(nat, Seq<char>)>,
) -> Seq<Blocks>
    decreases requests.len(),
{
    if requests.len() == 0 {
        stores
    } else {
        let before = stores_after_requests(stores, requests.drop_last());
        let (node, id) = requests.last();
        before.update(node as int, before[node as int].remove(id))
    }
}

/// The stores after an object with contents `data` was deleted.
pub open spec fn stores_after_delete(stores: Seq<Blocks>, data: Seq<u8>, total: nat) -> Seq<Blocks> {
    stores_after_requests(
        stores,
        client::delete_requests(
            ObjectMetadataView::describing(data).object_id,
            stores.len(),
            total,
        ),
    )
}

/// Requests remove the blocks that they name, each from its node, and no others.
proof fn lemma_stores_after_requests(stores: Seq<Blocks>, requests: Seq<(nat, Seq<char>)>)
    requires
        forall|x: int| 0 <= x < requests.len() ==> (#[trigger] requests[x]).0 < stores.len(),
    ensures
        ({
            let after = stores_after_requests(stores, requests);
            &&& after.len() == stores.len()
            &&& forall|j: int| 0 <= j < stores.len() ==> (#[trigger] after[j]).submap_of(stores[j])
            &&& forall|j: int, id: Seq<char>|
                0 <= j < stores.len() ==> (#[trigger] after[j].contains_key(id) <==> stores[j].contains_key(
                    id,
                ) && !requests.contains((j as nat, id)))
        }),
    decreases requests.len(),
{
    if requests.len() > 0 {
        let rest = requests.drop_last();
        let last = requests.last();
        assert forall|x: int| 0 <= x < rest.len() implies (#[trigger] rest[x]).0 < stores.len() by {
            assert(rest[x] == requests[x]);
        }
        lemma_stores_after_requests(stores, rest);
        assert(requests[requests.len() - 1] == last);
        assert forall|r: (nat, Seq<char>)| #[trigger] requests.contains(r) <==> rest.contains(r) || r
            == last by {
            if requests.contains(r) && r != last {
                let x = choose|x: int| 0 <= x < requests.len() && requests[x] == r;
                assert(rest[x] == r);
            }
            if rest.contains(r) {
                let x = choose|x: int| 0 <= x < rest.len() && rest[x] == r;
                assert(requests[x] == r);
            }
        }
        let before = stores_after_requests(stores, rest);
        let after = stores_after_requests(stores, requests);
        assert forall|j: int, id: Seq<char>| 0 <= j < stores.len() implies (
        #[trigger] after[j].contains_key(id) <==> stores[j].contains_key(id) && !requests.contains(
            (j as nat, id),
        )) by {
            assert(before[j].contains_key(id) <==> stores[j].contains_key(id) && !rest.contains(
                (j as nat, id),
            ));
            assert(requests.contains((j as nat, id)) <==> rest.contains((j as nat, id)) || (j as nat, id)
                == last);
        }
        assert forall|j: int| 0 <= j < stores.len() implies (#[trigger] after[j]).submap_of(stores[j]) by {
            assert(before[j].submap_of(stores[j]));
        }
    }
}

/// A delete leaves no shard of the object on any node, wherever puts had placed
/// them, and touches no other block.
pub proof fn law_delete_removes_the_object_and_no_more(stores: Seq<Blocks>, data: Seq<u8>, total: nat)
    requires
        stores.len() > 0,
    ensures
        ({
            let after = stores_after_delete(stores, data, total);
            &&& after.len() == stores.len()
            &&& forall|i: nat| i < total ==> !held(after, #[trigger] shard_id(data, i))
            &&& forall|j: int| 0 <= j < stores.len() ==> (#[trigger] after[j]).submap_of(stores[j])
            &&& forall|j: int, id: Seq<char>|
                0 <= j < stores.len() && #[trigger] stores[j].contains_key(id) && !after[j].contains_key(id)
                    ==> exists|i: nat| i < total && id == #[trigger] shard_id(data, i)
        }),
{
    let object_id = ObjectMetadataView::describing(data).object_id;
    let requests = client::delete_requests(object_id, stores.len(), total);
    let after = stores_after_delete(stores, data, total);
    client::law_delete_reaches_every_shard_everywhere(object_id, stores.len(), total);
    assert forall|x: int| 0 <= x < requests.len() implies (#[trigger] requests[x]).0 < stores.len() by {
        assert(client::asks_for_a_shard(requests[x], object_id, stores.len(), total));
    }
    lemma_stores_after_requests(stores, requests);
    assert forall|i: nat| i < total implies !held(after, #[trigger] shard_id(data, i)) by {
        assert forall|j: int| 0 <= j < after.len() implies !#[trigger] after[j].contains_key(
            shard_id(data, i),
        ) by {
            assert(client::at_node(j as nat, object_id, i) == (j as nat, shard_id(data, i)));
            assert(requests.contains(client::at_node(j as nat, object_id, i)));
        }
    }
    assert forall|j: int, id: Seq<char>|
        0 <= j < stores.len() && #[trigger] stores[j].contains_key(id) && !after[j].contains_key(id) implies exists|
        i: nat,
    | i < total && id == #[trigger] shard_id(data, i) by {
        let x = choose|x: int| 0 <= x < requests.len() && requests[x] == (j as nat, id);
        assert(client::asks_for_a_shard(requests[x], object_id, stores.len(), total));
        let (i, n) = choose|i: nat, n: nat|
            i < total && n < stores.len() && requests[x] == #[trigger] client::at_node(n, object_id, i);
        assert(id == shard_id(data, i));
    }
}

/// A deleted object is not found, wherever its shards were: the get ends without
/// a shard.
pub proof fn law_deleted_object_is_not_found(
    stores: Seq<Blocks>,
    k: nat,
    m: nat,
    data: Seq<u8>,
    down: spec_fn(nat) -> bool,
)
    requires
        stores.len() > 0,
        k > 0,
    ensures
        ({
            let end = client::get_run(
                GetView::starting(
                    stores.len(),
                    k,
                    m,
                    ObjectMetadataView::describing(data).object_id,
                ),
                fetch_from(stores_after_delete(stores, data, k + m), data, down),
            );
            end.done() && end.got == 0 && end.got < end.k
        }),
{
    let after = stores_after_delete(stores, data, k + m);
    let fetch = fetch_from(after, data, down);
    let available = client::available_somewhere(fetch, stores.len());
    law_delete_removes_the_object_and_no_more(stores, data, k + m);
    assert forall|i: nat| i < k + m implies !#[trigger] available(i) by {
        if available(i) {
            let j = choose|j: nat| j < stores.len() && (#[trigger] fetch(i, j)) is Some;
            assert(after[j as int].contains_key(shard_id(data, i)));
            assert(held(after, shard_id(data, i)));
        }
    }
    lemma_tally_none(available, 0, k + m);
    client::law_get_needs_k_shards(
        stores.len(),
        k,
        m,
        ObjectMetadataView::describing(data).object_id,
        fetch,
    );
}

proof fn lemma_tally_none(p: spec_fn(nat) -> bool, lo: nat, hi: nat)
    requires
        forall|i: nat| lo <= i < hi ==> !#[trigger] p(i),
    ensures
        client::tally(p, lo, hi) == 0,
    decreases hi - lo,
{
    if lo < hi {
        lemma_tally_none(p, lo + 1, hi);
    }
}

} // verus!
