//! Data-node storage engine.
//!
//! Decides what is on disk, with the following layout per data directory:
//!
//! ```text
//! {data_dir}/
//!   blocks/
//!     {block_id}.blob    <- shard data (atomic via rename)
//!     {block_id}.meta    <- block metadata (checksummed)
//!   node.id              <- this node's UUID (generated on first start)
//! ```
//!
//! File operations are values here: a write is a list of [`FileOp`]s for the
//! caller to carry out one after the other, and what each does is stated over a
//! map from paths to contents.
//!
//! ## Integrity guarantees
//!
//! - **Atomic writes**: data lands in a `.tmp` file, then is renamed
//!   into place. A partial write never corrupts a valid block.
//! - **Checksum on read**: every [`FsStorage::read_block`] verifies the blake3
//!   checksum of the metadata. A mismatch is an error.
//! - **Crash safety**: the `.blob` and `.meta` files are written
//!   independently; an interrupted write leaves a `.tmp` file that is
//!   cleaned on startup.

use vstd::prelude::*;
use vstd::slice::slice_to_vec;
use vstd::string::*;

use crate::block::{BlockId, BlockMeta, BlockMetaView, Shard, ShardView};
use crate::hash;
use crate::ids;
use crate::ids::{format_uuid, parse_uuid, random_uuid};
use crate::text;
use crate::text::{strip_suffix, text_from_utf8, trim};
use crate::types::NodeId;

verus! {

/// Errors the storage layer can encounter.
#[derive(Debug, PartialEq, Eq)]
pub enum StorageError {
    /// Block not found locally.
    NotFound(BlockId),
    /// The data on disk does not match its checksum.
    ChecksumMismatch(BlockId),
    /// I/O error from the operating system.
    Io(String),
    /// Metadata could not be encoded or decoded.
    Serialization(String),
    /// The node id file is corrupted.
    CorruptNodeId,
}

/// Shorthand for `Result` with [`StorageError`].
pub type Result<T> = std::result::Result<T, StorageError>;

impl StorageError {
    /// The message that describes the error.
    pub open spec fn text(self) -> Seq<char> {
        match self {
            StorageError::NotFound(id) => "block not found: "@ + id@,
            StorageError::ChecksumMismatch(id) => "checksum mismatch for block "@ + id@,
            StorageError::Io(msg) => "io error: "@ + msg@,
            StorageError::Serialization(msg) => "serialization error: "@ + msg@,
            StorageError::CorruptNodeId => "node id file corrupted"@,
        }
    }

    /// The error as a human-readable message.
    pub fn to_string(&self) -> (res: String)
        ensures
            res@ == self.text(),
    {
        let mut out = String::new();
        match self {
            StorageError::NotFound(id) => {
                out.append("block not found: ");
                out.append(id.as_str());
            },
            StorageError::ChecksumMismatch(id) => {
                out.append("checksum mismatch for block ");
                out.append(id.as_str());
            },
            StorageError::Io(msg) => {
                out.append("io error: ");
                out.append(msg.as_str());
            },
            StorageError::Serialization(msg) => {
                out.append("serialization error: ");
                out.append(msg.as_str());
            },
            StorageError::CorruptNodeId => {
                out.append("node id file corrupted");
            },
        }
        assert(out@ =~= self.text());
        out
    }
}

/// The path of `name` in the directory `base`. An absolute name stands for
/// itself; else there is one separator between the two.
pub open spec fn joined(base: Seq<char>, name: Seq<char>) -> Seq<char> {
    if name.len() > 0 && name[0] == '/' {
        name
    } else if base.len() > 0 && base.last() != '/' {
        base + seq!['/'] + name
    } else {
        base + name
    }
}

/// The path of `name` in the directory `base`, as [`joined`] says.
fn join_path(base: &str, name: &str) -> (res: String)
    ensures
        res@ == joined(base@, name@),
{
    if name.unicode_len() > 0 && name.get_char(0) == '/' {
        return name.to_owned();
    }
    let mut out = base.to_owned();
    let n = base.unicode_len();
    if n > 0 && base.get_char(n - 1) != '/' {
        out.push('/');
    }
    out.append(name);
    assert(out@ =~= joined(base@, name@));
    out
}

/// What a file operation does.
#[verifier::ext_equal]
pub enum FileOpView {
    /// Create or replace the file at `path`.
    Write { path: Seq<char>, bytes: Seq<u8> },
    /// Move a file, in place of what is at `to`.
    Rename { from: Seq<char>, to: Seq<char> },
    /// Remove the file at `path`.
    Remove { path: Seq<char> },
}

/// A file operation for the caller to carry out.
#[derive(Debug, PartialEq, Eq)]
pub enum FileOp {
    /// Create or replace the file at `path`.
    Write { path: String, bytes: Vec<u8> },
    /// Move a file, in place of what is at `to`.
    Rename { from: String, to: String },
    /// Remove the file at `path`.
    Remove { path: String },
}

impl View for FileOp {
    type V = FileOpView;

    open spec fn view(&self) -> FileOpView {
        match *self {
            FileOp::Write { path, bytes } => FileOpView::Write { path: path@, bytes: bytes@ },
            FileOp::Rename { from, to } => FileOpView::Rename { from: from@, to: to@ },
            FileOp::Remove { path } => FileOpView::Remove { path: path@ },
        }
    }
}

impl FileOpView {
    /// The file that a failure of the operation may leave behind.
    pub open spec fn leftover(self) -> Seq<char> {
        match self {
            FileOpView::Write { path, .. } => path,
            FileOpView::Rename { from, .. } => from,
            FileOpView::Remove { path } => path,
        }
    }
}

impl FileOp {
    /// The file to remove when the operation failed: the temporary file that a
    /// write may have left unfinished, or that a rename did not move.
    pub fn leftover(&self) -> (res: &String)
        ensures
            res@ == self@.leftover(),
            match *self {
                FileOp::Write { path, .. } => res@ == path@,
                FileOp::Rename { from, .. } => res@ == from@,
                FileOp::Remove { path } => res@ == path@,
            },
    {
        match self {
            FileOp::Write { path, .. } => path,
            FileOp::Rename { from, .. } => from,
            FileOp::Remove { path } => path,
        }
    }
}

/// What each of `ops` does.
pub open spec fn op_views(ops: Seq<FileOp>) -> Seq<FileOpView> {
    ops.map_values(|op: FileOp| op@)
}

/// The files of a node: contents by path.
pub type Files = Map<Seq<char>, Seq<u8>>;

/// The files after an operation that succeeded.
pub open spec fn applied(files: Files, op: FileOpView) -> Files {
    match op {
        FileOpView::Write { path, bytes } => files.insert(path, bytes),
        FileOpView::Rename { from, to } => if files.contains_key(from) {
            files.remove(from).insert(to, files[from])
        } else {
            files
        },
        FileOpView::Remove { path } => files.remove(path),
    }
}

/// The files after all of `ops`.
pub open spec fn applied_all(files: Files, ops: Seq<FileOpView>) -> Files
    decreases ops.len(),
{
    if ops.len() == 0 {
        files
    } else {
        applied(applied_all(files, ops.drop_last()), ops.last())
    }
}

/// Whether a crash while `ops` are carried out can leave `after`: some of them
/// have been done, and the next, if it is a write, may have left anything in
/// its file.
pub open spec fn crash_leaves(files: Files, ops: Seq<FileOpView>, after: Files) -> bool {
    exists|n: int, torn: Seq<u8>| #[trigger] interrupted_at(files, ops, n, torn, after)
}

/// Whether a crash after the first `n` operations, with `torn` in the file that
/// the next one writes, if it is a write that had begun, leaves `after`.
pub open spec fn interrupted_at(
    files: Files,
    ops: Seq<FileOpView>,
    n: int,
    torn: Seq<u8>,
    after: Files,
) -> bool {
    let done = applied_all(files, ops.take(n));
    &&& 0 <= n <= ops.len()
    &&& {
        ||| after == done
        ||| n < ops.len() && ops[n] is Write && after == done.insert(ops[n]->Write_path, torn)
    }
}

/// Whether `path` holds the same in `a` and in `b`.
pub open spec fn same_at(a: Files, b: Files, path: Seq<char>) -> bool {
    &&& a.contains_key(path) == b.contains_key(path)
    &&& a.contains_key(path) ==> a[path] == b[path]
}

/// Where the files of a node lie.
#[verifier::ext_equal]
pub struct FsStorageView {
    /// The data directory.
    pub data_dir: Seq<char>,
    /// The file with the id of the node.
    pub node_id_file: Seq<char>,
}

impl FsStorageView {
    /// The layout of `data_dir`.
    pub open spec fn of(data_dir: Seq<char>) -> FsStorageView {
        FsStorageView { data_dir, node_id_file: joined(data_dir, "node.id"@) }
    }

    /// The directory of the blocks.
    pub open spec fn blocks_dir(self) -> Seq<char> {
        joined(self.data_dir, "blocks"@)
    }

    /// The file with the data of a block.
    pub open spec fn blob_path(self, block_id: Seq<char>) -> Seq<char> {
        joined(self.blocks_dir(), block_id + ".blob"@)
    }

    /// The file with the metadata of a block.
    pub open spec fn meta_path(self, block_id: Seq<char>) -> Seq<char> {
        joined(self.blocks_dir(), block_id + ".meta"@)
    }

    /// The steps that write a block: the data, then the metadata, each by way of
    /// a temporary file.
    pub open spec fn write_steps(
        self,
        block_id: Seq<char>,
        data: Seq<u8>,
        meta_bytes: Seq<u8>,
    ) -> Seq<FileOpView> {
        atomic_write(self.blob_path(block_id), data) + atomic_write(
            self.meta_path(block_id),
            meta_bytes,
        )
    }

    /// The steps that delete a block.
    pub open spec fn delete_steps(self, block_id: Seq<char>) -> Seq<FileOpView> {
        seq![
            FileOpView::Remove { path: self.blob_path(block_id) },
            FileOpView::Remove { path: self.meta_path(block_id) },
        ]
    }
}

/// The temporary file by way of which `path` is written.
pub open spec fn tmp_path(path: Seq<char>) -> Seq<char> {
    path + ".tmp"@
}

/// The steps that write a file atomically.
pub open spec fn atomic_write(path: Seq<char>, bytes: Seq<u8>) -> Seq<FileOpView> {
    seq![
        FileOpView::Write { path: tmp_path(path), bytes },
        FileOpView::Rename { from: tmp_path(path), to: path },
    ]
}

/// Local disk storage for a single data node.
///
/// Every `FsStorage` owns one data directory. Multiple `FsStorage`s on the same
/// machine (with different directories) can serve multiple nodes.
#[derive(Debug)]
pub struct FsStorage {
    /// Root data directory.
    pub data_dir: String,
    /// The file with this node's persistent UUID.
    pub node_id_file: String,
}

impl View for FsStorage {
    type V = FsStorageView;

    open spec fn view(&self) -> FsStorageView {
        FsStorageView { data_dir: self.data_dir@, node_id_file: self.node_id_file@ }
    }
}

impl Clone for FsStorage {
    fn clone(&self) -> (res: Self)
        ensures
            res@ == self@,
    {
        FsStorage { data_dir: self.data_dir.clone(), node_id_file: self.node_id_file.clone() }
    }
}

/// The id that a node id file with the given contents holds, if it holds one:
/// the text, with white space at its ends, of a UUID.
pub open spec fn stored_node_id(bytes: Seq<u8>) -> Option<NodeId> {
    if vstd::utf8::valid_utf8(bytes) {
        ids::parsed_uuid(text::trimmed(vstd::utf8::decode_utf8(bytes)))
    } else {
        None
    }
}

/// The ids of the blocks whose metadata files are among `names`, in the order of
/// `names`.
pub open spec fn listed(names: Seq<Seq<char>>) -> Seq<Seq<char>>
    decreases names.len(),
{
    if names.len() == 0 {
        Seq::empty()
    } else if text::has_suffix(names.last(), ".meta"@) {
        listed(names.drop_last()).push(text::without_suffix(names.last(), ".meta"@))
    } else {
        listed(names.drop_last())
    }
}

/// Those of `names` that end in `.tmp`, in order.
pub open spec fn stale(names: Seq<Seq<char>>) -> Seq<Seq<char>> {
    names.filter(|name: Seq<char>| text::has_suffix(name, ".tmp"@))
}

/// What each of `names` holds.
pub open spec fn name_views(names: Seq<String>) -> Seq<Seq<char>> {
    names.map_values(|name: String| name@)
}

/// What each of `block_ids` holds.
pub open spec fn id_views(block_ids: Seq<BlockId>) -> Seq<Seq<char>> {
    block_ids.map_values(|id: BlockId| id@)
}

impl FsStorage {
    /// The layout of the data directory.
    pub fn new(data_dir: String) -> (res: Self)
        ensures
            res@ == FsStorageView::of(data_dir@),
    {
        let node_id_file = join_path(data_dir.as_str(), "node.id");
        Self { data_dir, node_id_file }
    }

    /// The id that the contents of the node id file hold.
    ///
    /// # Errors
    /// - [`StorageError::CorruptNodeId`] if they are not the text of a UUID.
    pub fn parse_node_id(bytes: Vec<u8>) -> (res: Result<NodeId>)
        ensures
            match res {
                Ok(id) => stored_node_id(bytes@) == Some(id),
                Err(e) => stored_node_id(bytes@) is None && e == StorageError::CorruptNodeId,
            },
            res matches Ok(id) ==> vstd::utf8::valid_utf8(bytes@) && ids::parsed_uuid(
                text::trimmed(vstd::utf8::decode_utf8(bytes@)),
            ) == Some(id),
            res is Err ==> !vstd::utf8::valid_utf8(bytes@) || ids::parsed_uuid(
                text::trimmed(vstd::utf8::decode_utf8(bytes@)),
            ) is None,
    {
        match text_from_utf8(bytes) {
            Some(s) => match parse_uuid(trim(s.as_str())) {
                Some(id) => Ok(id),
                None => Err(StorageError::CorruptNodeId),
            },
            None => Err(StorageError::CorruptNodeId),
        }
    }

    /// The contents of the node id file for `id`. Reading them gives `id` back.
    pub fn node_id_record(id: NodeId) -> (res: String)
        ensures
            res@ == ids::uuid_text(id),
            stored_node_id(vstd::utf8::encode_utf8(res@)) == Some(id),
    {
        let res = format_uuid(id);
        proof {
            vstd::utf8::encode_utf8_valid_utf8(res@);
            vstd::utf8::encode_utf8_decode_utf8(res@);
            ids::lemma_uuid_text_chars(id);
            ids::lemma_uuid_text_len(id);
            assert(text::trimmed(res@) == res@);
        }
        res
    }

    /// The node id, given the contents of the node id file if there is one, and
    /// what is to be written to the file if there is none. The node id is stable
    /// across restarts.
    ///
    /// # Errors
    /// - [`StorageError::CorruptNodeId`] if the file does not hold an id.
    pub fn read_or_create_node_id(contents: Option<Vec<u8>>) -> (res: Result<(NodeId, Option<String>)>)
        ensures
            match contents {
                Some(bytes) => match res {
                    Ok((id, record)) => stored_node_id(bytes@) == Some(id) && record is None,
                    Err(e) => stored_node_id(bytes@) is None && e == StorageError::CorruptNodeId,
                },
                None => {
                    &&& res is Ok
                    &&& (res.unwrap().0 / 0x1000_0000_0000_0000_0000) % 16 == 4
                    &&& res.unwrap().0 != 0
                    &&& res.unwrap().1 is Some
                    &&& res.unwrap().1.unwrap()@ == ids::uuid_text(res.unwrap().0)
                    &&& stored_node_id(vstd::utf8::encode_utf8(res.unwrap().1.unwrap()@)) == Some(
                        res.unwrap().0,
                    )
                },
            },
    {
        match contents {
            Some(bytes) => match Self::parse_node_id(bytes) {
                Ok(id) => Ok((id, None)),
                Err(e) => Err(e),
            },
            None => {
                let id = random_uuid();
                let record = Self::node_id_record(id);
                Ok((id, Some(record)))
            },
        }
    }

    /// Return the `blocks/` subdirectory for inspection.
    pub fn blocks_dir(&self) -> (res: String)
        ensures
            res@ == self@.blocks_dir(),
    {
        join_path(self.data_dir.as_str(), "blocks")
    }

    /// The file with the data of a block.
    pub fn blob_path(&self, block_id: &BlockId) -> (res: String)
        ensures
            res@ == self@.blob_path(block_id@),
    {
        let name = block_id.to_string().concat(".blob");
        join_path(self.blocks_dir().as_str(), name.as_str())
    }

    /// The file with the metadata of a block.
    pub fn meta_path(&self, block_id: &BlockId) -> (res: String)
        ensures
            res@ == self@.meta_path(block_id@),
    {
        let name = block_id.to_string().concat(".meta");
        join_path(self.blocks_dir().as_str(), name.as_str())
    }

    /// The steps that persist a block, atomically committing both data and
    /// metadata, where `meta_bytes` is the encoded metadata.
    ///
    /// # File names created
    /// - `{blocks_dir}/{block_id}.blob`: shard data
    /// - `{blocks_dir}/{block_id}.meta`: encoded [`BlockMeta`]
    pub fn write_block(&self, meta: &BlockMeta, meta_bytes: &[u8], data: &[u8]) -> (res: Vec<FileOp>)
        ensures
            op_views(res@) == self@.write_steps(meta@.block_id, data@, meta_bytes@),
    {
        let mut ops = write_atomic(self.blob_path(&meta.block_id), data);
        let ghost first = ops@;
        let mut more = write_atomic(self.meta_path(&meta.block_id), meta_bytes);
        let ghost second = more@;
        ops.append(&mut more);
        assert(op_views(ops@) =~= op_views(first) + op_views(second));
        ops
    }

    /// The steps that write an already-constructed [`Shard`] with associated
    /// metadata.
    pub fn write_shard(&self, meta: &BlockMeta, meta_bytes: &[u8], shard: &Shard) -> (res: Vec<FileOp>)
        ensures
            op_views(res@) == self@.write_steps(meta@.block_id, shard@.data, meta_bytes@),
    {
        self.write_block(meta, meta_bytes, shard.data.as_slice())
    }

    /// The block that was read from disk, once its checksum is verified.
    ///
    /// # Errors
    /// - [`StorageError::ChecksumMismatch`] if the data differs from what the
    ///   metadata's checksum was taken of, due to bit-rot, manual tampering, or a
    ///   partial write.
    pub fn read_block(meta: BlockMeta, data: Vec<u8>) -> (res: Result<(Shard, BlockMeta)>)
        ensures
            match res {
                Ok((shard, out)) => {
                    &&& meta@.matches(data@)
                    &&& out@ == meta@
                    &&& shard@ == (ShardView { index: meta.shard_index, data: data@ })
                },
                Err(e) => !meta@.matches(data@) && (e matches StorageError::ChecksumMismatch(id) && id@
                    == meta@.block_id),
            },
            res is Ok <==> hash::blake3_digest(data@) == meta.checksum@,
            res matches Ok((shard, out)) ==> {
                &&& shard.data@ == data@
                &&& shard.index == meta.shard_index
                &&& out == meta
            },
    {
        if !meta.verify(data.as_slice()) {
            return Err(StorageError::ChecksumMismatch(meta.block_id));
        }
        let shard = Shard { index: meta.shard_index, data };
        Ok((shard, meta))
    }

    /// The steps that delete a block (both blob and meta files). A step that
    /// fails is ignored.
    pub fn delete_block(&self, block_id: &BlockId) -> (res: Vec<FileOp>)
        ensures
            op_views(res@) == self@.delete_steps(block_id@),
    {
        let mut ops: Vec<FileOp> = Vec::new();
        ops.push(FileOp::Remove { path: self.blob_path(block_id) });
        ops.push(FileOp::Remove { path: self.meta_path(block_id) });
        assert(op_views(ops@) =~= self@.delete_steps(block_id@));
        ops
    }

    /// The block IDs whose metadata is among the files of the `blocks/`
    /// directory.
    pub fn list_blocks(names: &Vec<String>) -> (res: Vec<BlockId>)
        ensures
            id_views(res@) == listed(name_views(names@)),
    {
        let ghost all = name_views(names@);
        let mut res: Vec<BlockId> = Vec::new();
        let mut i: usize = 0;
        while i < names.len()
            invariant
                i <= names@.len(),
                all == name_views(names@),
                id_views(res@) == listed(all.take(i as int)),
            decreases names.len() - i,
        {
            assert(all.take(i + 1).drop_last() =~= all.take(i as int));
            let ghost before = res@;
            if let Some(raw) = strip_suffix(names[i].as_str(), ".meta") {
                res.push(BlockId(raw));
                assert(id_views(res@) =~= id_views(before).push(raw@));
            }
            i = i + 1;
        }
        assert(all.take(i as int) =~= all);
        res
    }

    /// Count the number of stored blocks.
    pub fn block_count(names: &Vec<String>) -> (res: usize)
        ensures
            res == listed(name_views(names@)).len(),
    {
        Self::list_blocks(names).len()
    }
}

/// The steps that write `bytes` to `final_path` atomically: write to
/// `{final_path}.tmp`, then rename.
fn write_atomic(final_path: String, bytes: &[u8]) -> (res: Vec<FileOp>)
    ensures
        op_views(res@) == atomic_write(final_path@, bytes@),
{
    let tmp = final_path.clone().concat(".tmp");
    let mut ops: Vec<FileOp> = Vec::new();
    ops.push(FileOp::Write { path: tmp.clone(), bytes: slice_to_vec(bytes) });
    ops.push(FileOp::Rename { from: tmp, to: final_path });
    assert(op_views(ops@) =~= atomic_write(final_path@, bytes@));
    ops
}

/// The stale `.tmp` files, left from a previous crash, among the files of the
/// `blocks/` directory. They are to be removed at startup before serving
/// requests.
pub fn cleanup_stale_tmp(names: &Vec<String>) -> (res: Vec<String>)
    ensures
        name_views(res@) == stale(name_views(names@)),
{
    let ghost all = name_views(names@);
    let ghost is_tmp = |name: Seq<char>| text::has_suffix(name, ".tmp"@);
    let mut res: Vec<String> = Vec::new();
    let mut i: usize = 0;
    while i < names.len()
        invariant
            i <= names@.len(),
            all == name_views(names@),
            is_tmp == (|name: Seq<char>| text::has_suffix(name, ".tmp"@)),
            name_views(res@) == all.take(i as int).filter(is_tmp),
        decreases names.len() - i,
    {
        let ghost before = res@;
        proof {
            assert(all.take(i + 1) =~= all.take(i as int).push(all[i as int]));
            all.take(i as int).lemma_filter_push(all[i as int], is_tmp);
        }
        if let Some(_) = strip_suffix(names[i].as_str(), ".tmp") {
            res.push(names[i].clone());
            assert(name_views(res@) =~= name_views(before).push(all[i as int]));
        }
        i = i + 1;
    }
    assert(all.take(i as int) =~= all);
    res
}

/// The four files that a write touches are different files.
proof fn lemma_write_paths_differ(s: FsStorageView, block_id: Seq<char>)
    ensures
        ({
            let blob = s.blob_path(block_id);
            let meta = s.meta_path(block_id);
            &&& blob != meta
            &&& tmp_path(blob) != blob && tmp_path(blob) != meta
            &&& tmp_path(meta) != blob && tmp_path(meta) != meta
            &&& tmp_path(blob) != tmp_path(meta)
        }),
{
    reveal_strlit(".blob");
    reveal_strlit(".meta");
    reveal_strlit(".tmp");
    let blob = s.blob_path(block_id);
    let meta = s.meta_path(block_id);
    assert(blob.last() == 'b');
    assert(meta.last() == 'a');
    assert(tmp_path(blob).last() == 'p');
    assert(tmp_path(meta).last() == 'p');
    text::lemma_suffix_added(blob, ".tmp"@);
    text::lemma_suffix_added(meta, ".tmp"@);
}

/// The files after each of the four steps of a write.
#[verifier::spinoff_prover]
proof fn lemma_write_stages(
    s: FsStorageView,
    files: Files,
    block_id: Seq<char>,
    data: Seq<u8>,
    meta_bytes: Seq<u8>,
)
    ensures
        ({
            let ops = s.write_steps(block_id, data, meta_bytes);
            let blob = s.blob_path(block_id);
            let meta = s.meta_path(block_id);
            let f1 = files.insert(tmp_path(blob), data);
            let f2 = f1.remove(tmp_path(blob)).insert(blob, data);
            let f3 = f2.insert(tmp_path(meta), meta_bytes);
            let f4 = f3.remove(tmp_path(meta)).insert(meta, meta_bytes);
            &&& ops.len() == 4
            &&& ops[0] == (FileOpView::Write { path: tmp_path(blob), bytes: data })
            &&& ops[1] is Rename
            &&& ops[2] == (FileOpView::Write { path: tmp_path(meta), bytes: meta_bytes })
            &&& ops[3] is Rename
            &&& applied_all(files, ops.take(0)) == files
            &&& applied_all(files, ops.take(1)) == f1
            &&& applied_all(files, ops.take(2)) == f2
            &&& applied_all(files, ops.take(3)) == f3
            &&& applied_all(files, ops.take(4)) == f4
            &&& applied_all(files, ops) == f4
        }),
{
    let ops = s.write_steps(block_id, data, meta_bytes);
    let blob = s.blob_path(block_id);
    let meta = s.meta_path(block_id);
    assert(ops.len() == 4);
    assert(ops[0] == FileOpView::Write { path: tmp_path(blob), bytes: data });
    assert(ops[1] == FileOpView::Rename { from: tmp_path(blob), to: blob });
    assert(ops[2] == FileOpView::Write { path: tmp_path(meta), bytes: meta_bytes });
    assert(ops[3] == FileOpView::Rename { from: tmp_path(meta), to: meta });
    assert(ops.take(1).drop_last() =~= ops.take(0));
    assert(ops.take(2).drop_last() =~= ops.take(1));
    assert(ops.take(3).drop_last() =~= ops.take(2));
    assert(ops.take(4).drop_last() =~= ops.take(3));
    assert(ops.take(4) =~= ops);
    assert(applied_all(files, ops.take(0)) == files);
    assert(ops.take(1).last() == ops[0]);
    assert(ops.take(2).last() == ops[1]);
    assert(ops.take(3).last() == ops[2]);
    assert(ops.take(4).last() == ops[3]);
    assert(applied_all(files, ops.take(1)) == applied(files, ops[0]));
    assert(applied_all(files, ops.take(2)) == applied(applied_all(files, ops.take(1)), ops[1]));
    assert(applied_all(files, ops.take(3)) == applied(applied_all(files, ops.take(2)), ops[2]));
    assert(applied_all(files, ops.take(4)) == applied(applied_all(files, ops.take(3)), ops[3]));
}

/// A write is atomic: whenever it is cut short, each of the two files of the
/// block holds what it held before or all of what is written, the data is never
/// older than the metadata, and no file but the two temporary ones is touched
/// otherwise.
pub proof fn law_write_is_atomic(
    s: FsStorageView,
    files: Files,
    block_id: Seq<char>,
    data: Seq<u8>,
    meta_bytes: Seq<u8>,
    after: Files,
)
    requires
        crash_leaves(files, s.write_steps(block_id, data, meta_bytes), after),
    ensures
        ({
            let blob = s.blob_path(block_id);
            let meta = s.meta_path(block_id);
            let blob_new = after.contains_key(blob) && after[blob] == data;
            let meta_new = after.contains_key(meta) && after[meta] == meta_bytes;
            &&& same_at(after, files, blob) || blob_new
            &&& same_at(after, files, meta) || (meta_new && blob_new)
            &&& forall|p: Seq<char>|
                p != blob && p != meta && p != tmp_path(blob) && p != tmp_path(meta) ==> #[trigger] same_at(
                    after,
                    files,
                    p,
                )
        }),
{
    let ops = s.write_steps(block_id, data, meta_bytes);
    let (n, torn) = choose|n: int, torn: Seq<u8>| #[trigger]
        interrupted_at(files, ops, n, torn, after);
    lemma_write_paths_differ(s, block_id);
    lemma_write_stages(s, files, block_id, data, meta_bytes);
    assert(n == 0 || n == 1 || n == 2 || n == 3 || n == 4);
}

/// A step that fails leaves no trace once its leftover is removed: the file that
/// was to be written is as it was, there is no temporary file, and every other
/// file is as it was.
pub proof fn law_failed_step_leaves_no_trace(
    path: Seq<char>,
    bytes: Seq<u8>,
    files: Files,
    n: int,
    torn: Seq<u8>,
    after: Files,
)
    requires
        n < atomic_write(path, bytes).len(),
        interrupted_at(files, atomic_write(path, bytes), n, torn, after),
    ensures
        ({
            let cleaned = after.remove(atomic_write(path, bytes)[n].leftover());
            &&& same_at(cleaned, files, path)
            &&& !cleaned.contains_key(tmp_path(path))
            &&& forall|p: Seq<char>| p != tmp_path(path) ==> #[trigger] same_at(cleaned, files, p)
        }),
{
    reveal_strlit(".tmp");
    let ops = atomic_write(path, bytes);
    assert(tmp_path(path).len() == path.len() + 4);
    assert(applied_all(files, ops.take(0)) == files);
    assert(ops.take(1).drop_last() =~= ops.take(0));
    assert(applied_all(files, ops.take(1)) == applied(files, ops[0]));
    assert(n == 0 || n == 1);
}

/// A write that is carried out to the end leaves the data and the metadata in
/// their files, no temporary file, and every other file as it was.
pub proof fn law_write_completes(
    s: FsStorageView,
    files: Files,
    block_id: Seq<char>,
    data: Seq<u8>,
    meta_bytes: Seq<u8>,
)
    ensures
        ({
            let after = applied_all(files, s.write_steps(block_id, data, meta_bytes));
            let blob = s.blob_path(block_id);
            let meta = s.meta_path(block_id);
            &&& after.contains_key(blob) && after[blob] == data
            &&& after.contains_key(meta) && after[meta] == meta_bytes
            &&& !after.contains_key(tmp_path(blob))
            &&& !after.contains_key(tmp_path(meta))
            &&& forall|p: Seq<char>|
                p != blob && p != meta && p != tmp_path(blob) && p != tmp_path(meta) ==> #[trigger] same_at(
                    after,
                    files,
                    p,
                )
        }),
{
    lemma_write_paths_differ(s, block_id);
    lemma_write_stages(s, files, block_id, data, meta_bytes);
}

/// A deleted block has neither of its files, and every other file is as it was.
pub proof fn law_delete_removes_both_files(s: FsStorageView, files: Files, block_id: Seq<char>)
    ensures
        ({
            let after = applied_all(files, s.delete_steps(block_id));
            let blob = s.blob_path(block_id);
            let meta = s.meta_path(block_id);
            &&& !after.contains_key(blob)
            &&& !after.contains_key(meta)
            &&& forall|p: Seq<char>|
                p != blob && p != meta ==> #[trigger] same_at(after, files, p)
        }),
{
    let ops = s.delete_steps(block_id);
    assert(ops.drop_last().drop_last() =~= Seq::<FileOpView>::empty());
    assert(applied_all(files, ops.drop_last().drop_last()) == files);
    assert(applied_all(files, ops.drop_last()) == applied(files, ops[0]));
}

/// A block that was written is listed, under its id.
pub proof fn law_written_block_is_listed(names: Seq<Seq<char>>, block_id: Seq<char>)
    requires
        names.contains(block_id + ".meta"@),
    ensures
        listed(names).contains(block_id),
    decreases names.len(),
{
    text::lemma_suffix_added(block_id, ".meta"@);
    let before = listed(names.drop_last());
    if names.last() == block_id + ".meta"@ {
        assert(listed(names).last() == block_id);
    } else {
        let i = choose|i: int| 0 <= i < names.len() && names[i] == block_id + ".meta"@;
        assert(names.drop_last()[i] == block_id + ".meta"@);
        law_written_block_is_listed(names.drop_last(), block_id);
        let j = choose|j: int| 0 <= j < before.len() && before[j] == block_id;
        assert(listed(names)[j] == block_id);
    }
}

/// A block is listed only if its metadata file is there.
pub proof fn law_listed_block_has_metadata(names: Seq<Seq<char>>, block_id: Seq<char>)
    requires
        listed(names).contains(block_id),
    ensures
        names.contains(block_id + ".meta"@),
    decreases names.len(),
{
    let before = listed(names.drop_last());
    let j = choose|j: int| 0 <= j < listed(names).len() && listed(names)[j] == block_id;
    if text::has_suffix(names.last(), ".meta"@) && j == before.len() {
        assert(names.last() =~= block_id + ".meta"@);
        assert(names[names.len() - 1] == block_id + ".meta"@);
    } else {
        assert(before[j] == block_id);
        law_listed_block_has_metadata(names.drop_last(), block_id);
        let i = choose|i: int|
            0 <= i < names.drop_last().len() && names.drop_last()[i] == block_id + ".meta"@;
        assert(names[i] == block_id + ".meta"@);
    }
}

/// An unfinished file is stale, so it is cleaned up at startup, and it is never
/// taken for the metadata of a block.
pub proof fn law_unfinished_file_is_stale_and_unlisted(path: Seq<char>)
    ensures
        text::has_suffix(tmp_path(path), ".tmp"@),
        !text::has_suffix(tmp_path(path), ".meta"@),
{
    reveal_strlit(".tmp");
    reveal_strlit(".meta");
    text::lemma_suffix_added(path, ".tmp"@);
    if text::has_suffix(tmp_path(path), ".meta"@) {
        let tail = tmp_path(path).skip(tmp_path(path).len() - 5);
        assert(tail.last() == tmp_path(path).last());
    }
}

/// A path is the directory and then the name, with one separator between them, unless
/// there is no directory or the name is absolute.
pub proof fn law_joined_path(base: Seq<char>, name: Seq<char>)
    ensures
        name.len() > 0 && name[0] == '/' ==> joined(base, name) == name,
        !(name.len() > 0 && name[0] == '/') ==> exists|dir: Seq<char>|
            {
                &&& joined(base, name) == #[trigger] (dir + name)
                &&& dir == base || dir == base.push('/')
                &&& base.len() > 0 ==> dir[dir.len() - 1] == '/'
                &&& base.len() == 0 ==> dir.len() == 0
                &&& base.len() > 0 && base[base.len() - 1] == '/' ==> dir == base
            },
{
    if !(name.len() > 0 && name[0] == '/') {
        let dir = if base.len() > 0 && base.last() != '/' {
            base.push('/')
        } else {
            base
        };
        assert(joined(base, name) =~= dir + name);
    }
}

/// The two files of a block are named after its ID, and lie in the directory of the
/// blocks.
pub proof fn law_block_files_are_named_after_the_block(s: FsStorageView, block_id: Seq<char>)
    requires
        block_id.len() > 0 ==> block_id[0] != '/',
    ensures
        exists|dir: Seq<char>|
            {
                &&& s.blob_path(block_id) == #[trigger] (dir + (block_id + ".blob"@))
                &&& s.meta_path(block_id) == dir + (block_id + ".meta"@)
                &&& dir == s.blocks_dir() || dir == s.blocks_dir().push('/')
            },
{
    reveal_strlit(".blob");
    reveal_strlit(".meta");
    let blocks = s.blocks_dir();
    let dir = if blocks.len() > 0 && blocks.last() != '/' {
        blocks.push('/')
    } else {
        blocks
    };
    let blob = block_id + ".blob"@;
    let meta = block_id + ".meta"@;
    assert(blob[0] == if block_id.len() > 0 { block_id[0] } else { '.' });
    assert(meta[0] == if block_id.len() > 0 { block_id[0] } else { '.' });
    assert(s.blob_path(block_id) =~= dir + blob);
    assert(s.meta_path(block_id) =~= dir + meta);
}

/// The directory of the blocks and the file with the node id lie in the data
/// directory.
pub proof fn law_data_directory_layout(data_dir: Seq<char>)
    ensures
        FsStorageView::of(data_dir).data_dir == data_dir,
        FsStorageView::of(data_dir).node_id_file == joined(data_dir, "node.id"@),
        FsStorageView::of(data_dir).blocks_dir() == joined(data_dir, "blocks"@),
{
}

/// No two blocks share a file, so writing or deleting one leaves the others alone.
pub proof fn law_blocks_do_not_share_files(s: FsStorageView, a: Seq<char>, b: Seq<char>)
    requires
        a.len() > 0 ==> a[0] != '/',
        b.len() > 0 ==> b[0] != '/',
    ensures
        s.blob_path(a) == s.blob_path(b) ==> a == b,
        s.meta_path(a) == s.meta_path(b) ==> a == b,
        s.blob_path(a) != s.meta_path(b),
        tmp_path(s.blob_path(a)) == tmp_path(s.blob_path(b)) ==> a == b,
        tmp_path(s.meta_path(a)) == tmp_path(s.meta_path(b)) ==> a == b,
        tmp_path(s.blob_path(a)) != s.blob_path(b) && tmp_path(s.blob_path(a)) != s.meta_path(b),
        tmp_path(s.meta_path(a)) != s.blob_path(b) && tmp_path(s.meta_path(a)) != s.meta_path(b),
        tmp_path(s.blob_path(a)) != tmp_path(s.meta_path(b)),
{
    reveal_strlit(".blob");
    reveal_strlit(".meta");
    reveal_strlit(".tmp");
    let blocks = s.blocks_dir();
    let dir = if blocks.len() > 0 && blocks.last() != '/' {
        blocks.push('/')
    } else {
        blocks
    };
    let ab = a + ".blob"@;
    let bb = b + ".blob"@;
    let am = a + ".meta"@;
    let bm = b + ".meta"@;
    assert(ab[0] == if a.len() > 0 { a[0] } else { '.' });
    assert(bb[0] == if b.len() > 0 { b[0] } else { '.' });
    assert(am[0] == if a.len() > 0 { a[0] } else { '.' });
    assert(bm[0] == if b.len() > 0 { b[0] } else { '.' });
    assert(s.blob_path(a) =~= dir + ab);
    assert(s.blob_path(b) =~= dir + bb);
    assert(s.meta_path(a) =~= dir + am);
    assert(s.meta_path(b) =~= dir + bm);
    lemma_suffix_cancels(s.blob_path(a), s.blob_path(b), ".tmp"@);
    lemma_suffix_cancels(s.meta_path(a), s.meta_path(b), ".tmp"@);
    lemma_suffix_cancels(s.blob_path(a), s.meta_path(b), ".tmp"@);
    if s.blob_path(a) == s.blob_path(b) {
        assert(ab =~= s.blob_path(a).skip(dir.len() as int));
        assert(bb =~= s.blob_path(b).skip(dir.len() as int));
        lemma_suffix_cancels(a, b, ".blob"@);
    }
    if s.meta_path(a) == s.meta_path(b) {
        assert(am =~= s.meta_path(a).skip(dir.len() as int));
        assert(bm =~= s.meta_path(b).skip(dir.len() as int));
        lemma_suffix_cancels(a, b, ".meta"@);
    }
    assert(s.blob_path(a).last() == 'b' && s.blob_path(b).last() == 'b');
    assert(s.meta_path(a).last() == 'a' && s.meta_path(b).last() == 'a');
    assert(tmp_path(s.blob_path(a)).last() == 'p');
    assert(tmp_path(s.meta_path(a)).last() == 'p');
}

proof fn lemma_suffix_cancels(a: Seq<char>, b: Seq<char>, suffix: Seq<char>)
    ensures
        a + suffix == b + suffix ==> a == b,
{
    if a + suffix == b + suffix {
        text::lemma_suffix_added(a, suffix);
        text::lemma_suffix_added(b, suffix);
    }
}

/// The blocks are listed in the order of their metadata files, one for each.
pub proof fn law_one_block_is_listed_per_metadata_file(
    names: Seq<Seq<char>>,
    is_meta: spec_fn(Seq<char>) -> bool,
)
    requires
        forall|name: Seq<char>| #[trigger]
            is_meta(name) <==> exists|id: Seq<char>| name == #[trigger] (id + ".meta"@),
    ensures
        listed(names).len() == names.filter(is_meta).len(),
        forall|i: int|
            0 <= i < listed(names).len() ==> #[trigger] listed(names)[i] + ".meta"@ == names.filter(
                is_meta,
            )[i],
    decreases names.len(),
{
    reveal(Seq::filter);
    if names.len() > 0 {
        let rest = names.drop_last();
        let last = names.last();
        law_one_block_is_listed_per_metadata_file(rest, is_meta);
        text::law_suffix(last, ".meta"@);
        assert(is_meta(last) <==> text::has_suffix(last, ".meta"@));
        assert forall|i: int| 0 <= i < listed(names).len() implies #[trigger] listed(names)[i] + ".meta"@
            == names.filter(is_meta)[i] by {
            if i < listed(rest).len() {
                assert(listed(rest)[i] + ".meta"@ == rest.filter(is_meta)[i]);
            }
        }
    }
}

/// The stale files are those whose names end in `.tmp`.
pub proof fn law_stale_files(names: Seq<Seq<char>>, is_tmp: spec_fn(Seq<char>) -> bool)
    requires
        forall|name: Seq<char>| #[trigger]
            is_tmp(name) <==> exists|rest: Seq<char>| name == #[trigger] (rest + ".tmp"@),
    ensures
        stale(names) == names.filter(is_tmp),
{
    let p = |name: Seq<char>| text::has_suffix(name, ".tmp"@);
    assert forall|name: Seq<char>| #[trigger] p(name) == is_tmp(name) by {
        text::law_suffix(name, ".tmp"@);
    }
    assert(p =~= is_tmp);
}

/// A block is read back only if the digest of all of its data is the checksum that it
/// was written with.
pub proof fn law_block_that_is_read_has_the_digest(
    object_id: Seq<char>,
    shard_index: u8,
    ring_version: u64,
    written: Seq<u8>,
    read: Seq<u8>,
)
    ensures
        BlockMetaView::describing(object_id, shard_index, ring_version, written).matches(read)
            <==> hash::blake3_digest(read) == hash::blake3_digest(written),
{
}

/// Errors say what went wrong, and of which block.
pub proof fn law_storage_error_texts(id: BlockId, msg: String)
    ensures
        StorageError::NotFound(id).text() == "block not found: "@ + id@,
        StorageError::ChecksumMismatch(id).text() == "checksum mismatch for block "@ + id@,
        StorageError::Io(msg).text() == "io error: "@ + msg@,
        StorageError::Serialization(msg).text() == "serialization error: "@ + msg@,
        StorageError::CorruptNodeId.text() == "node id file corrupted"@,
{
}

/// The id file may have white space around the text of the id, and nothing else.
pub proof fn law_node_id_file(bytes: Seq<u8>)
    ensures
        !vstd::utf8::valid_utf8(bytes) ==> stored_node_id(bytes) is None,
        vstd::utf8::valid_utf8(bytes) ==> exists|t: Seq<char>, a: int, b: int| #[trigger]
            text::is_trim_of(vstd::utf8::decode_utf8(bytes), t, a, b) && stored_node_id(bytes)
                == ids::parsed_uuid(t),
{
    if vstd::utf8::valid_utf8(bytes) {
        let s = vstd::utf8::decode_utf8(bytes);
        text::law_trimmed(s);
        let (a, b) = choose|a: int, b: int| text::is_trim_of(s, text::trimmed(s), a, b);
        assert(text::is_trim_of(s, text::trimmed(s), a, b));
    }
}

/// Names, block IDs and file operations are seen one by one and in full.
pub proof fn law_lists_are_seen_in_full(
    names: Seq<String>,
    block_ids: Seq<BlockId>,
    ops: Seq<FileOp>,
    i: int,
)
    ensures
        name_views(names).len() == names.len(),
        0 <= i < names.len() ==> name_views(names)[i] == names[i]@,
        id_views(block_ids).len() == block_ids.len(),
        0 <= i < block_ids.len() ==> id_views(block_ids)[i] == block_ids[i].0@,
        op_views(ops).len() == ops.len(),
        0 <= i < ops.len() ==> match ops[i] {
            FileOp::Write { path, bytes } => op_views(ops)[i] == (FileOpView::Write {
                path: path@,
                bytes: bytes@,
            }),
            FileOp::Rename { from, to } => op_views(ops)[i] == (FileOpView::Rename {
                from: from@,
                to: to@,
            }),
            FileOp::Remove { path } => op_views(ops)[i] == (FileOpView::Remove { path: path@ }),
        },
{
}

/// A file is written by way of the file of the same name with `.tmp` behind it, which is
/// then renamed, so that the file itself is never half written.
pub proof fn law_files_are_replaced_by_renaming(path: Seq<char>, bytes: Seq<u8>, files: Files)
    ensures
        tmp_path(path) == path + ".tmp"@,
        atomic_write(path, bytes).len() == 2,
        atomic_write(path, bytes)[0] == (FileOpView::Write { path: path + ".tmp"@, bytes }),
        atomic_write(path, bytes)[1] == (FileOpView::Rename { from: path + ".tmp"@, to: path }),
        applied_all(files, atomic_write(path, bytes)).contains_key(path),
        applied_all(files, atomic_write(path, bytes))[path] == bytes,
{
    let ops = atomic_write(path, bytes);
    assert(ops.drop_last().drop_last() =~= Seq::<FileOpView>::empty());
    assert(applied_all(files, ops.drop_last().drop_last()) == files);
    assert(applied_all(files, ops.drop_last()) == applied(files, ops[0]));
}

} // verus!
