//! Deterministic data placement using rendezvous hashing.
//!
//! Rendezvous hashing maps `(object_key, shard_index)` to a node
//! without any centralized state, making placement predictable and
//! reproducible.
//!
//! # Theory
//! For each `(object_key, shard_index, node_id)` triple we compute a
//! blake3 hash. The node with the highest hash score "wins" that shard.
//! When the ring changes (nodes added/removed), only the shards that
//! hashed to the affected nodes need redistribution.

use vstd::prelude::*;
use vstd::slice::slice_to_vec;
use vstd::string::*;

use crate::error::{CoreError, Result};
use crate::hash;
use crate::hash::blake3_hash;
use crate::text;
use crate::text::{le_u64_prefix, push_decimal, to_be_bytes};
use crate::types::{NodeId, Ring, ShardIndex, StorageClass};

verus! {

/// The text that stands for a shard of an object when nodes are scored:
/// `{object_key}-{shard_index}`.
pub open spec fn shard_key(object_key: Seq<char>, shard_index: nat) -> Seq<char> {
    object_key + seq!['-'] + text::decimal(shard_index)
}

/// The score of `node` for the shard whose text is `key`: the first eight bytes,
/// lowest first, of the digest of the text followed by the sixteen bytes of the
/// node id.
pub open spec fn score(key: Seq<char>, node: NodeId) -> nat {
    text::le_value(
        hash::blake3_digest(vstd::utf8::encode_utf8(key) + text::be_bytes(node as nat, 16)).subrange(0, 8),
    )
}

/// Whether position `i` wins the shard whose text is `key`: no node scores
/// higher, and none before it scores as high.
pub open spec fn wins(key: Seq<char>, nodes: Seq<NodeId>, i: int) -> bool {
    &&& 0 <= i < nodes.len()
    &&& forall|j: int| 0 <= j < nodes.len() ==> score(key, #[trigger] nodes[j]) <= score(key, nodes[i])
    &&& forall|j: int| 0 <= j < i ==> score(key, #[trigger] nodes[j]) < score(key, nodes[i])
}

/// The node that owns shard `shard_index` of `object_key` among `nodes`.
pub open spec fn owner(object_key: Seq<char>, shard_index: nat, nodes: Seq<NodeId>) -> NodeId {
    let key = shard_key(object_key, shard_index);
    nodes[choose|i: int| wins(key, nodes, i)]
}

/// At most one position wins a shard.
proof fn lemma_one_winner(key: Seq<char>, nodes: Seq<NodeId>, i: int, j: int)
    requires
        wins(key, nodes, i),
        wins(key, nodes, j),
    ensures
        i == j,
{
    if i < j {
        assert(score(key, nodes[i]) < score(key, nodes[j]));
        assert(score(key, nodes[j]) <= score(key, nodes[i]));
    } else if j < i {
        assert(score(key, nodes[j]) < score(key, nodes[i]));
        assert(score(key, nodes[i]) <= score(key, nodes[j]));
    }
}

/// Some position of a ring that is not empty wins.
proof fn lemma_some_winner(key: Seq<char>, nodes: Seq<NodeId>) -> (i: int)
    requires
        nodes.len() > 0,
    ensures
        wins(key, nodes, i),
    decreases nodes.len(),
{
    if nodes.len() == 1 {
        0
    } else {
        let rest = nodes.drop_last();
        let b = lemma_some_winner(key, rest);
        let last = nodes.len() - 1;
        assert forall|j: int| 0 <= j < last implies score(key, #[trigger] nodes[j]) <= score(
            key,
            nodes[b],
        ) by {
            assert(rest[j] == nodes[j]);
        }
        if score(key, nodes[last]) > score(key, nodes[b]) {
            last
        } else {
            assert forall|j: int| 0 <= j < b implies score(key, #[trigger] nodes[j]) < score(
                key,
                nodes[b],
            ) by {
                assert(rest[j] == nodes[j]);
            }
            b
        }
    }
}

/// The position that wins is the owner's.
pub proof fn lemma_owner(object_key: Seq<char>, shard_index: nat, nodes: Seq<NodeId>, i: int)
    requires
        wins(shard_key(object_key, shard_index), nodes, i),
    ensures
        owner(object_key, shard_index, nodes) == nodes[i],
{
    let key = shard_key(object_key, shard_index);
    lemma_one_winner(key, nodes, i, choose|j: int| wins(key, nodes, j));
}

/// Compute the rendezvous hash for `(key, node)`.
fn rendezvous_hash(key: &str, node: NodeId) -> (res: u64)
    ensures
        res == score(key@, node),
        res == text::le_value(
            hash::blake3_digest(vstd::utf8::encode_utf8(key@) + text::be_bytes(node as nat, 16)).subrange(
                0,
                8,
            ),
        ),
{
    let mut input = slice_to_vec(key.as_bytes());
    let mut id = to_be_bytes(node, 16);
    let ghost id_bytes = id@;
    input.append(&mut id);
    assert(input@ == vstd::utf8::encode_utf8(key@) + id_bytes);
    le_u64_prefix(&blake3_hash(input.as_slice()))
}

/// Assign a single shard to a node using rendezvous hashing.
///
/// Given `(object_key, shard_index)` and the current ring, returns the
/// node that should own that shard. The result is deterministic:
/// same `(key, shard_index, ring)` gives the same node every time.
pub fn assign_node(object_key: &str, shard_index: ShardIndex, ring: &Ring) -> (res: NodeId)
    requires
        ring@.nodes.len() > 0,
    ensures
        res == owner(object_key@, shard_index as nat, ring@.nodes),
        ring@.nodes.contains(res),
        forall|n: NodeId| #[trigger]
            ring@.nodes.contains(n) ==> digest_number(hashed_bytes(object_key@, shard_index as nat, n))
                <= digest_number(hashed_bytes(object_key@, shard_index as nat, res)),
{
    let ghost key = shard_key(object_key@, shard_index as nat);
    let mut input = object_key.to_owned();
    input.push('-');
    push_decimal(&mut input, shard_index as u64);
    assert(input@ =~= key);

    let mut best: usize = 0;
    let mut best_score: u64 = 0;
    let mut i: usize = 0;
    while i < ring.nodes.len()
        invariant
            0 <= best < ring.nodes@.len(),
            best <= i <= ring.nodes@.len(),
            i > 0 ==> best < i,
            input@ == key,
            forall|j: int| 0 <= j < i ==> score(key, #[trigger] ring.nodes@[j]) <= best_score,
            forall|j: int| 0 <= j < best ==> score(key, #[trigger] ring.nodes@[j]) < best_score,
            i > 0 ==> best_score == score(key, ring.nodes@[best as int]),
            i == 0 ==> best_score == 0,
        decreases ring.nodes.len() - i,
    {
        let score = rendezvous_hash(input.as_str(), ring.nodes[i]);
        if score > best_score {
            best_score = score;
            best = i;
        }
        i = i + 1;
    }
    proof {
        assert(wins(key, ring.nodes@, best as int));
        lemma_owner(object_key@, shard_index as nat, ring.nodes@, best as int);
        law_owner_scores_highest(object_key@, shard_index as nat, ring.nodes@);
    }
    ring.nodes[best]
}

/// Assign all shards of an object to nodes.
///
/// Produces `k+m` assignments via [`assign_node`].
///
/// # Errors
/// - [`CoreError::NoNodesLeft`] if the ring is empty.
pub fn place(object_key: &str, class: StorageClass, ring: &Ring) -> (res: Result<
    Vec<(ShardIndex, NodeId)>,
>)
    requires
        ring@.nodes.len() > 0 ==> class.ec.k + class.ec.m <= 255,
    ensures
        match res {
            Ok(assignments) => {
                &&& ring@.nodes.len() > 0
                &&& assignments@.len() == class.ec.k + class.ec.m
                &&& forall|s: int|
                    0 <= s < assignments@.len() ==> (#[trigger] assignments@[s]).0 == s
                        && assignments@[s].1 == owner(object_key@, s as nat, ring@.nodes)
            },
            Err(e) => ring@.nodes.len() == 0 && e == CoreError::NoNodesLeft,
        },
{
    if ring.nodes.len() == 0 {
        return Err(CoreError::NoNodesLeft);
    }
    let total = class.ec.total_shards();
    let mut assignments: Vec<(ShardIndex, NodeId)> = Vec::with_capacity(total as usize);
    let mut shard: ShardIndex = 0;
    while shard < total
        invariant
            shard <= total,
            ring@.nodes.len() > 0,
            assignments@.len() == shard,
            forall|s: int|
                0 <= s < shard ==> (#[trigger] assignments@[s]).0 == s && assignments@[s].1 == owner(
                    object_key@,
                    s as nat,
                    ring@.nodes,
                ),
        decreases total - shard,
    {
        let node = assign_node(object_key, shard, ring);
        assignments.push((shard, node));
        shard = shard + 1;
    }
    Ok(assignments)
}

/// The owner of a shard is a node of the ring whose score no other exceeds.
pub proof fn law_owner_scores_highest(object_key: Seq<char>, shard_index: nat, nodes: Seq<NodeId>)
    requires
        nodes.len() > 0,
    ensures
        nodes.contains(owner(object_key, shard_index, nodes)),
        forall|n: NodeId| #[trigger]
            nodes.contains(n) ==> score(shard_key(object_key, shard_index), n) <= score(
                shard_key(object_key, shard_index),
                owner(object_key, shard_index, nodes),
            ),
{
    let i = lemma_some_winner(shard_key(object_key, shard_index), nodes);
    lemma_owner(object_key, shard_index, nodes, i);
}

/// A node that joins takes shards over, and no shard moves between the others:
/// the owner in the longer ring is the newcomer or the owner before.
pub proof fn law_joining_node_only_takes(
    object_key: Seq<char>,
    shard_index: nat,
    nodes: Seq<NodeId>,
    newcomer: NodeId,
)
    requires
        nodes.len() > 0,
    ensures
        owner(object_key, shard_index, nodes.push(newcomer)) == newcomer || owner(
            object_key,
            shard_index,
            nodes.push(newcomer),
        ) == owner(object_key, shard_index, nodes),
{
    let key = shard_key(object_key, shard_index);
    let more = nodes.push(newcomer);
    let i = lemma_some_winner(key, more);
    lemma_owner(object_key, shard_index, more, i);
    if i < nodes.len() {
        assert forall|j: int| 0 <= j < nodes.len() implies score(key, #[trigger] nodes[j]) <= score(
            key,
            nodes[i],
        ) by {
            assert(more[j] == nodes[j]);
        }
        assert forall|j: int| 0 <= j < i implies score(key, #[trigger] nodes[j]) < score(
            key,
            nodes[i],
        ) by {
            assert(more[j] == nodes[j]);
        }
        lemma_owner(object_key, shard_index, nodes, i);
    }
}

/// Nodes that leave give up only their own shards: a shard whose owner stays
/// keeps its owner, whichever other nodes are removed.
pub proof fn law_leaving_nodes_only_lose(
    object_key: Seq<char>,
    shard_index: nat,
    nodes: Seq<NodeId>,
    stays: spec_fn(NodeId) -> bool,
)
    requires
        nodes.len() > 0,
        stays(owner(object_key, shard_index, nodes)),
    ensures
        owner(object_key, shard_index, nodes.filter(stays)) == owner(object_key, shard_index, nodes),
{
    let key = shard_key(object_key, shard_index);
    let i = lemma_some_winner(key, nodes);
    lemma_owner(object_key, shard_index, nodes, i);
    let j = lemma_filter_keeps_winner(key, nodes, stays, i);
    lemma_owner(object_key, shard_index, nodes.filter(stays), j);
}

proof fn lemma_filter_keeps_winner(
    key: Seq<char>,
    nodes: Seq<NodeId>,
    stays: spec_fn(NodeId) -> bool,
    i: int,
) -> (j: int)
    requires
        wins(key, nodes, i),
        stays(nodes[i]),
    ensures
        wins(key, nodes.filter(stays), j),
        nodes.filter(stays)[j] == nodes[i],
    decreases nodes.len(),
{
    reveal(Seq::filter);
    let rest = nodes.drop_last();
    let last = nodes.last();
    if i == nodes.len() - 1 {
        // Every node before it scores less, so every one that stays does.
        let kept = rest.filter(stays);
        assert forall|n: int| 0 <= n < kept.len() implies score(key, #[trigger] kept[n]) < score(
            key,
            last,
        ) by {
            rest.lemma_filter_contains_rev(stays, kept[n]);
            assert(kept.contains(kept[n]));
            assert(rest.contains(kept[n]));
            let at = choose|at: int| 0 <= at < rest.len() && rest[at] == kept[n];
            assert(nodes[at] == kept[n]);
        }
        kept.len() as int
    } else {
        assert(wins(key, rest, i)) by {
            assert forall|n: int| 0 <= n < rest.len() implies score(key, #[trigger] rest[n]) <= score(
                key,
                rest[i],
            ) by {
                assert(nodes[n] == rest[n]);
            }
            assert forall|n: int| 0 <= n < i implies score(key, #[trigger] rest[n]) < score(
                key,
                rest[i],
            ) by {
                assert(nodes[n] == rest[n]);
            }
        }
        let j = lemma_filter_keeps_winner(key, rest, stays, i);
        let kept = rest.filter(stays);
        let all = nodes.filter(stays);
        assert forall|n: int| 0 <= n < all.len() implies score(key, #[trigger] all[n]) <= score(
            key,
            all[j],
        ) by {
            if n < kept.len() {
                assert(all[n] == kept[n]);
            } else {
                assert(all[n] == last);
                assert(nodes[nodes.len() - 1] == last);
            }
        }
        assert forall|n: int| 0 <= n < j implies score(key, #[trigger] all[n]) < score(key, all[j]) by {
            assert(all[n] == kept[n]);
        }
        j
    }
}

/// What is hashed to score a node for a shard: the bytes of the object's key, of a
/// dash and of the number of the shard, and then the sixteen bytes of the node id.
pub open spec fn hashed_bytes(object_key: Seq<char>, shard_index: nat, node: NodeId) -> Seq<u8> {
    vstd::utf8::encode_utf8(object_key + seq!['-'] + text::decimal(shard_index)) + text::be_bytes(
        node as nat,
        16,
    )
}

/// The number that the first eight bytes of the digest of `bytes` hold, lowest first.
pub open spec fn digest_number(bytes: Seq<u8>) -> nat {
    text::le_value(hash::blake3_digest(bytes).subrange(0, 8))
}

/// The score of a node for a shard is read off the digest of the whole of the
/// object's key, the number of the shard and the node id, whatever their length.
pub proof fn law_score_is_of_the_whole_key(object_key: Seq<char>, shard_index: nat, node: NodeId)
    ensures
        exists|d: Seq<char>, id: Seq<u8>|
            {
                &&& #[trigger] text::is_numeral(d, shard_index, 1)
                &&& id.len() == 16
                &&& #[trigger] text::be_value(id) == node
                &&& score(shard_key(object_key, shard_index), node) == text::be_value(
                    hash::blake3_digest(
                        vstd::utf8::encode_utf8(object_key + seq!['-'] + d) + id,
                    ).subrange(0, 8).reverse(),
                )
            },
        score(shard_key(object_key, shard_index), node) == digest_number(
            hashed_bytes(object_key, shard_index, node),
        ),
{
    let d = text::decimal(shard_index);
    let id = text::be_bytes(node as nat, 16);
    text::law_renderings_are_numerals(shard_index, 1);
    lemma_node_bytes(node);
    text::law_le_value(
        hash::blake3_digest(vstd::utf8::encode_utf8(object_key + seq!['-'] + d) + id).subrange(0, 8),
    );
    assert(text::is_numeral(d, shard_index, 1));
    assert(text::be_value(id) == node);
}

proof fn lemma_node_bytes(node: NodeId)
    ensures
        text::be_bytes(node as nat, 16).len() == 16,
        text::be_value(text::be_bytes(node as nat, 16)) == node,
{
    assert(vstd::arithmetic::power::pow(256, 16) == 0x1_0000_0000_0000_0000_0000_0000_0000_0000) by {
        reveal_with_fuel(vstd::arithmetic::power::pow, 17);
    }
    text::lemma_be_roundtrip(node as nat, 16);
}

/// Shards are scored each on its own: what is hashed for two shards, for two objects
/// or for two nodes is never the same.
pub proof fn law_hashed_bytes_differ(
    object_a: Seq<char>,
    shard_a: nat,
    node_a: NodeId,
    object_b: Seq<char>,
    shard_b: nat,
    node_b: NodeId,
)
    requires
        hashed_bytes(object_a, shard_a, node_a) == hashed_bytes(object_b, shard_b, node_b),
    ensures
        object_a == object_b,
        shard_a == shard_b,
        node_a == node_b,
{
    let ka = object_a + seq!['-'] + text::decimal(shard_a);
    let kb = object_b + seq!['-'] + text::decimal(shard_b);
    let ua = vstd::utf8::encode_utf8(ka);
    let ub = vstd::utf8::encode_utf8(kb);
    let ia = text::be_bytes(node_a as nat, 16);
    let ib = text::be_bytes(node_b as nat, 16);
    let all = hashed_bytes(object_a, shard_a, node_a);
    lemma_node_bytes(node_a);
    lemma_node_bytes(node_b);
    assert(ua.len() == all.len() - 16 && ub.len() == all.len() - 16);
    assert(ia =~= all.skip(all.len() - 16));
    assert(ib =~= all.skip(all.len() - 16));
    assert(ua =~= all.take(all.len() - 16));
    assert(ub =~= all.take(all.len() - 16));
    vstd::utf8::encode_utf8_decode_utf8(ka);
    vstd::utf8::encode_utf8_decode_utf8(kb);
    assert(ka == kb);
    // The last dash is the one before the number.
    let da = text::decimal(shard_a);
    let db = text::decimal(shard_b);
    text::lemma_decimal_digits(shard_a);
    text::lemma_decimal_digits(shard_b);
    let n = ka.len() as int;
    let la = da.len() as int;
    let lb = db.len() as int;
    assert(ka[n - la - 1] == '-');
    assert(kb[n - lb - 1] == '-');
    if la < lb {
        assert(kb[n - la - 1] == db[lb - la - 1]);
    } else if lb < la {
        assert(ka[n - lb - 1] == da[la - lb - 1]);
    }
    assert(da =~= ka.skip(n - la));
    assert(db =~= kb.skip(n - la));
    text::lemma_decimal_injective(shard_a, shard_b);
    assert(object_a =~= ka.take(n - la - 1));
    assert(object_b =~= kb.take(n - la - 1));
}

/// Of the nodes with the highest score, the first on the ring owns the shard.
pub proof fn law_first_of_the_best_owns(object_key: Seq<char>, shard_index: nat, nodes: Seq<NodeId>)
    requires
        nodes.len() > 0,
    ensures
        exists|i: int|
            {
                &&& 0 <= i < nodes.len()
                &&& #[trigger] nodes[i] == owner(object_key, shard_index, nodes)
                &&& forall|j: int|
                    0 <= j < nodes.len() ==> digest_number(
                        hashed_bytes(object_key, shard_index, #[trigger] nodes[j]),
                    ) <= digest_number(hashed_bytes(object_key, shard_index, nodes[i]))
                &&& forall|j: int|
                    0 <= j < i ==> digest_number(
                        hashed_bytes(object_key, shard_index, #[trigger] nodes[j]),
                    ) < digest_number(hashed_bytes(object_key, shard_index, nodes[i]))
            },
{
    let i = lemma_some_winner(shard_key(object_key, shard_index), nodes);
    lemma_owner(object_key, shard_index, nodes, i);
    assert(nodes[i] == owner(object_key, shard_index, nodes));
}

} // verus!
