//! Block metadata and verification.
//!
//! Each shard stored on a data node is called a *block*. A block has a
//! [`BlockId`] derived from the object it belongs to, a [`BlockMeta`]
//! with checksum and sizing information, and the actual shard data.

use vstd::prelude::*;
use vstd::string::*;

use crate::hash;
use crate::hash::{blake3_hash, same_digest};
use crate::text;
use crate::text::{push_decimal, push_decimal2};
use crate::types::{ObjectId, RingVersion, ShardIndex};

verus! {

/// Identifies a single block (shard) stored on a data node.
///
/// The ID encodes: which object this block belongs to, which shard
/// index it represents, and at which ring version it was placed.
/// Format: `{object_id}-{shard_index:02}-v{ring_version}`
#[derive(Debug, PartialEq, Eq, Hash)]
pub struct BlockId(pub String);

impl View for BlockId {
    type V = Seq<char>;

    open spec fn view(&self) -> Seq<char> {
        self.0@
    }
}

impl Clone for BlockId {
    fn clone(&self) -> (res: Self)
        ensures
            res@ == self@,
    {
        BlockId(self.0.clone())
    }
}

/// The text of a block ID: `{object_id}-{shard_index:02}-v{ring_version}`.
pub open spec fn block_id_text(object_id: Seq<char>, shard_index: nat, ring_version: nat) -> Seq<char> {
    object_id + seq!['-'] + text::decimal2(shard_index) + seq!['-', 'v'] + text::decimal(ring_version)
}

impl BlockId {
    /// Create a block ID from its constituent parts.
    ///
    /// Format: `{object_id}-{shard_index:02}-v{ring_version}`
    pub fn new(object_id: &str, shard_index: ShardIndex, ring_version: RingVersion) -> (res: Self)
        ensures
            res@ == block_id_text(object_id@, shard_index as nat, ring_version as nat),
    {
        let mut out = object_id.to_owned();
        out.push('-');
        push_decimal2(&mut out, shard_index as u64);
        out.push('-');
        out.push('v');
        push_decimal(&mut out, ring_version);
        assert(out@ =~= block_id_text(object_id@, shard_index as nat, ring_version as nat));
        Self(out)
    }

    /// Returns the raw string value.
    #[inline]
    pub fn as_str(&self) -> (res: &str)
        ensures
            res@ == self@,
    {
        self.0.as_str()
    }

    /// The ID as text.
    pub fn to_string(&self) -> (res: String)
        ensures
            res@ == self@,
    {
        self.0.clone()
    }
}

impl AsRef<str> for BlockId {
    fn as_ref(&self) -> (res: &str)
        ensures
            res@ == self@,
    {
        self.0.as_str()
    }
}

/// What block metadata holds.
#[verifier::ext_equal]
pub struct BlockMetaView {
    /// Unique block identifier.
    pub block_id: Seq<char>,
    /// The object this block belongs to.
    pub object_id: Seq<char>,
    /// Which shard in the stripe.
    pub shard_index: ShardIndex,
    /// The ring version at which this block was placed.
    pub ring_version: RingVersion,
    /// Checksum of the shard data.
    pub checksum: Seq<u8>,
    /// Size of the shard data in bytes.
    pub size: u64,
}

/// Metadata describing a single block stored on a data node.
///
/// Block metadata is persisted alongside each block's shard data on disk
/// and includes a blake3 checksum for integrity verification on read.
///
/// # Integrity
/// Call [`BlockMeta::verify`] on read to detect bit-rot or silent
/// corruption before returning data to the client.
#[derive(Debug, PartialEq, Eq)]
pub struct BlockMeta {
    /// Unique block identifier.
    pub block_id: BlockId,
    /// The object this block belongs to.
    pub object_id: ObjectId,
    /// Which shard in the stripe (0..k+m-1).
    pub shard_index: ShardIndex,
    /// The ring version at which this block was placed.
    pub ring_version: RingVersion,
    /// Blake3 checksum of the shard data (32 bytes).
    pub checksum: [u8; 32],
    /// Size of the shard data in bytes.
    pub size: u64,
}

impl View for BlockMeta {
    type V = BlockMetaView;

    open spec fn view(&self) -> BlockMetaView {
        BlockMetaView {
            block_id: self.block_id@,
            object_id: self.object_id@,
            shard_index: self.shard_index,
            ring_version: self.ring_version,
            checksum: self.checksum@,
            size: self.size,
        }
    }
}

impl Clone for BlockMeta {
    fn clone(&self) -> (res: Self)
        ensures
            res@ == self@,
    {
        BlockMeta {
            block_id: self.block_id.clone(),
            object_id: self.object_id.clone(),
            shard_index: self.shard_index,
            ring_version: self.ring_version,
            checksum: self.checksum,
            size: self.size,
        }
    }
}

impl BlockMetaView {
    /// The metadata of shard `shard_index` of `object_id`, holding `data`, as
    /// placed at `ring_version`.
    pub open spec fn describing(
        object_id: Seq<char>,
        shard_index: ShardIndex,
        ring_version: RingVersion,
        data: Seq<u8>,
    ) -> BlockMetaView {
        BlockMetaView {
            block_id: block_id_text(object_id, shard_index as nat, ring_version as nat),
            object_id,
            shard_index,
            ring_version,
            checksum: hash::blake3_digest(data),
            size: data.len() as u64,
        }
    }

    /// Whether `data` is what the checksum was taken of, up to digest equality.
    pub open spec fn matches(self, data: Seq<u8>) -> bool {
        hash::blake3_digest(data) == self.checksum
    }
}

impl BlockMeta {
    /// Create block metadata, computing the checksum from the provided data.
    pub fn new(
        object_id: &str,
        shard_index: ShardIndex,
        ring_version: RingVersion,
        data: &[u8],
    ) -> (res: Self)
        ensures
            res@ == BlockMetaView::describing(object_id@, shard_index, ring_version, data@),
            res@.matches(data@),
            res@.size == data@.len(),
            res.object_id@ == object_id@,
            res.shard_index == shard_index,
            res.ring_version == ring_version,
            res.checksum@ == hash::blake3_digest(data@),
            res.size == data@.len(),
    {
        let checksum = blake3_hash(data);
        Self {
            block_id: BlockId::new(object_id, shard_index, ring_version),
            object_id: object_id.to_owned(),
            shard_index,
            ring_version,
            checksum,
            size: data.len() as u64,
        }
    }

    /// Verify that the given data matches the stored checksum.
    ///
    /// Returns `true` if the data is intact, `false` if corruption is detected.
    pub fn verify(&self, data: &[u8]) -> (res: bool)
        ensures
            res == self@.matches(data@),
            res <==> hash::blake3_digest(data@) == self.checksum@,
    {
        same_digest(&blake3_hash(data), &self.checksum)
    }
}

/// What a shard holds.
#[verifier::ext_equal]
pub struct ShardView {
    /// Position in the stripe.
    pub index: ShardIndex,
    /// The shard data.
    pub data: Seq<u8>,
}

/// An erasure-coded shard ready for storage.
///
/// Contains the shard data along with its index in the stripe.
/// This is the output of [`erasure::encode`](crate::erasure::encode)
/// and the input to [`erasure::decode`](crate::erasure::decode).
#[derive(Debug, PartialEq, Eq)]
pub struct Shard {
    /// Index of this shard in the stripe (0..k+m-1).
    pub index: ShardIndex,
    /// The shard data (all shards in a stripe have the same size after padding).
    pub data: Vec<u8>,
}

impl View for Shard {
    type V = ShardView;

    open spec fn view(&self) -> ShardView {
        ShardView { index: self.index, data: self.data@ }
    }
}

impl Clone for Shard {
    fn clone(&self) -> (res: Self)
        ensures
            res@ == self@,
    {
        let data = self.data.clone();
        assert(data@ =~= self.data@);
        Shard { index: self.index, data }
    }
}

/// A block ID determines the object, the shard and the ring version it was
/// made from: two blocks with different origins never share an ID.
pub proof fn law_block_id_is_unique(
    object_a: Seq<char>,
    shard_a: nat,
    version_a: nat,
    object_b: Seq<char>,
    shard_b: nat,
    version_b: nat,
)
    requires
        block_id_text(object_a, shard_a, version_a) == block_id_text(object_b, shard_b, version_b),
    ensures
        object_a == object_b,
        shard_a == shard_b,
        version_a == version_b,
{
    let da = text::decimal2(shard_a);
    let db = text::decimal2(shard_b);
    let va = text::decimal(version_a);
    let vb = text::decimal(version_b);
    text::lemma_decimal_digits(version_a);
    text::lemma_decimal_digits(version_b);
    text::lemma_decimal_digits(shard_a);
    text::lemma_decimal_digits(shard_b);
    let sa = block_id_text(object_a, shard_a, version_a);
    let sb = block_id_text(object_b, shard_b, version_b);
    let n = sa.len() as int;
    let la = va.len() as int;
    let lb = vb.len() as int;
    // The last non-digit is the letter before the version.
    assert(sa[n - la - 1] == 'v');
    assert(sb[n - lb - 1] == 'v');
    if la < lb {
        assert(sb[n - la - 1] == vb[lb - la - 1]);
    } else if lb < la {
        assert(sa[n - lb - 1] == va[la - lb - 1]);
    }
    assert(la == lb);
    assert(va =~= sa.skip(n - la));
    assert(vb =~= sb.skip(n - la));
    text::lemma_decimal_injective(version_a, version_b);
    // Before it, the last dash is the one before the shard index.
    let ka = da.len() as int;
    let kb = db.len() as int;
    let e = n - la - 2;
    assert(sa[e - ka - 1] == '-');
    assert(sb[e - kb - 1] == '-');
    assert(forall|i: int| 0 <= i < ka ==> sa[e - ka + i] == da[i]);
    assert(forall|i: int| 0 <= i < kb ==> sb[e - kb + i] == db[i]);
    if ka < kb {
        assert(sb[e - kb + (kb - ka - 1)] == db[kb - ka - 1]);
    } else if kb < ka {
        assert(sa[e - ka + (ka - kb - 1)] == da[ka - kb - 1]);
    }
    assert(ka == kb);
    assert(da =~= sa.subrange(e - ka, e));
    assert(db =~= sb.subrange(e - ka, e));
    text::lemma_decimal2_injective(shard_a, shard_b);
    assert(object_a =~= sa.take(e - ka - 1));
    assert(object_b =~= sb.take(e - ka - 1));
}

/// A block ID is the object's ID, a dash, the number of the shard in at least two
/// digits, a dash and a `v`, and the number of the ring version.
pub proof fn law_block_id_format(object_id: Seq<char>, shard_index: nat, ring_version: nat)
    ensures
        exists|d: Seq<char>, v: Seq<char>|
            {
                &&& block_id_text(object_id, shard_index, ring_version) == object_id + seq!['-'] + d
                    + seq!['-', 'v'] + v
                &&& #[trigger] text::is_numeral(d, shard_index, 2)
                &&& #[trigger] text::is_numeral(v, ring_version, 1)
            },
{
    let d = text::decimal2(shard_index);
    let v = text::decimal(ring_version);
    text::law_renderings_are_numerals(shard_index, 2);
    text::law_renderings_are_numerals(ring_version, 1);
    assert(block_id_text(object_id, shard_index, ring_version) == object_id + seq!['-'] + d + seq!['-', 'v']
        + v);
}

/// Metadata accepts exactly the data whose digest is its checksum, all of the data
/// and whatever its length. So it tells apart any two contents with different
/// digests.
pub proof fn law_metadata_accepts_by_digest(meta: BlockMetaView, a: Seq<u8>, b: Seq<u8>)
    ensures
        meta.matches(a) <==> hash::blake3_digest(a) == meta.checksum,
        meta.matches(a) && meta.matches(b) ==> hash::blake3_digest(a) == hash::blake3_digest(b),
        meta.matches(a) && hash::blake3_digest(a) != hash::blake3_digest(b) ==> !meta.matches(b),
{
}

/// Metadata made for some data says whose data it is and how long, and accepts other
/// data only if its digest is the same.
pub proof fn law_metadata_describes_its_data(
    object_id: Seq<char>,
    shard_index: ShardIndex,
    ring_version: RingVersion,
    data: Seq<u8>,
    other: Seq<u8>,
)
    requires
        data.len() <= u64::MAX,
    ensures
        ({
            let meta = BlockMetaView::describing(object_id, shard_index, ring_version, data);
            &&& meta.object_id == object_id
            &&& meta.shard_index == shard_index
            &&& meta.ring_version == ring_version
            &&& meta.block_id == block_id_text(object_id, shard_index as nat, ring_version as nat)
            &&& meta.size == data.len()
            &&& meta.checksum == hash::blake3_digest(data)
            &&& meta.matches(other) <==> hash::blake3_digest(other) == hash::blake3_digest(data)
        }),
{
}

/// A block's metadata and a shard are seen with all that they hold.
pub proof fn law_blocks_are_seen_in_full(id: BlockId, meta: BlockMeta, shard: Shard)
    ensures
        id@ == id.0@,
        meta@.block_id == meta.block_id.0@,
        meta@.object_id == meta.object_id@,
        meta@.shard_index == meta.shard_index,
        meta@.ring_version == meta.ring_version,
        meta@.checksum == meta.checksum@,
        meta@.size == meta.size,
        shard@.index == shard.index,
        shard@.data == shard.data@,
{
}

} // verus!
