# dfs

A distributed, erasure-coded, content-addressed object store, with its logic
verified by Verus.

An object is split into `k` data shards and `m` parity shards (Reed-Solomon over
GF(256)); any `k` of them give it back. Shards are stored as blocks on data nodes,
each with a blake3 checksum. Nodes watch each other with a SWIM failure detector
and keep a versioned ring; rendezvous hashing maps shards to nodes of a ring.

## Layout

- `src/`: the library. Verus proves the contracts of its functions, except those of
  the few that stand for a call into an outside crate (see "What is trusted"). It
  does no I/O: a write to disk is a list of file operations, an operation on several
  nodes is a session of requests and replies, and a tick of the failure detector is
  a list of events.
- `tests/`: tests that run the library, with maps in place of disks and nodes.
- `app/`: the data node binary and the gRPC client around the library.

## What is proved

- Any `k` of the `k + m` shards of a payload that does not end in a zero byte
  decode to that payload. In stripes of a size that `k` divides, whose length is
  known, any payload comes back.
- The owner of a shard has the highest score; a node that joins only takes shards,
  and nodes that leave only lose theirs.
- An idle failure detector with an alive peer pings one at every tick, and asks
  no peer twice to probe for it. A silent peer is suspected, then declared dead and
  taken off the ring within five ticks; a suspicion lasts three ticks; runs with one
  seed are reproducible.
- A write that is cut short leaves each file of a block as it was or as it is to
  be; the block is listed once its metadata is there.
- A put succeeds exactly when at least `k + 1` blocks find a node, and a get then
  gives the object back, also after the loss of any `m` shards. With 3 data and 2
  parity shards, an object put with all nodes up survives the failure of any 2 of 5
  or more nodes, and of any 1 of 3 or 4. A delete removes every shard of the object
  from every node.
- Block IDs, part IDs and frames are unambiguous.

## What is trusted

Digests (`blake3`), hexadecimal text (`hex`), the Reed-Solomon code
(`reed-solomon-erasure`), UUIDs (`uuid`), random numbers (`rand`), the text of a
gRPC status (`tonic`), the clock, and two functions on strings of the standard
library. Each stands behind a function whose contract says what is believed of it.
