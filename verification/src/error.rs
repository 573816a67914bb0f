//! Error type of the core layer.

use vstd::prelude::*;
use vstd::string::*;

use crate::hash;
use crate::hash::hex_encode;
use crate::text;
use crate::text::push_decimal;

verus! {

/// Centralized error type for all core operations.
///
/// Errors are categorized by their source layer:
/// - `Encoding` / `Decoding`: erasure coding failures.
/// - `InsufficientShards`: not enough shards to reconstruct.
/// - `ChecksumMismatch`: data corruption detected.
/// - `NoNodesLeft` / `InsufficientNodes`: membership and placement errors.
#[derive(Debug, Clone, PartialEq, Eq)]
pub enum CoreError {
    /// Invalid erasure coding configuration (e.g., k=0 or k+m > 255).
    InvalidErasureConfig { k: u8, m: u8 },
    /// The reed-solomon encoder failed.
    Encoding(String),
    /// The reed-solomon decoder failed.
    Decoding(String),
    /// Insufficient shards available for reconstruction.
    InsufficientShards { have: usize, need: usize },
    /// Data corruption: the stored data does not match its checksum.
    ChecksumMismatch { expected: [u8; 32], actual: [u8; 32] },
    /// Storage I/O error (delegated from the filesystem layer).
    StorageIo(String),
    /// Serialization or deserialization error.
    Serialization(String),
    /// Ring has no nodes (all nodes have failed or been removed).
    NoNodesLeft,
    /// Too few healthy nodes to satisfy placement requirements.
    InsufficientNodes { needed: usize, available: usize },
}

/// Shorthand for `Result` with [`CoreError`].
pub type Result<T> = std::result::Result<T, CoreError>;

impl CoreError {
    /// The message that describes the error.
    pub open spec fn text(self) -> Seq<char> {
        match self {
            CoreError::InvalidErasureConfig { k, m } => "invalid erasure coding config: k="@ + text::decimal(
                k as nat,
            ) + ", m="@ + text::decimal(m as nat),
            CoreError::Encoding(msg) => "encoding failed: "@ + msg@,
            CoreError::Decoding(msg) => "decoding failed: "@ + msg@,
            CoreError::InsufficientShards { have, need } => "insufficient shards: have "@ + text::decimal(
                have as nat,
            ) + ", need "@ + text::decimal(need as nat),
            CoreError::ChecksumMismatch { expected, actual } => "checksum mismatch: expected "@
                + hash::hex_text(expected@) + ", got "@ + hash::hex_text(actual@),
            CoreError::StorageIo(msg) => "storage I/O error: "@ + msg@,
            CoreError::Serialization(msg) => "serialization error: "@ + msg@,
            CoreError::NoNodesLeft => "ring has no nodes left"@,
            CoreError::InsufficientNodes { needed, available } => "need "@ + text::decimal(needed as nat)
                + " nodes but only "@ + text::decimal(available as nat) + " available"@,
        }
    }

    /// The error as a human-readable message.
    pub fn to_string(&self) -> (res: String)
        ensures
            res@ == self.text(),
    {
        let mut out = String::new();
        match self {
            CoreError::InvalidErasureConfig { k, m } => {
                out.append("invalid erasure coding config: k=");
                push_decimal(&mut out, *k as u64);
                out.append(", m=");
                push_decimal(&mut out, *m as u64);
            },
            CoreError::Encoding(msg) => {
                out.append("encoding failed: ");
                out.append(msg.as_str());
            },
            CoreError::Decoding(msg) => {
                out.append("decoding failed: ");
                out.append(msg.as_str());
            },
            CoreError::InsufficientShards { have, need } => {
                out.append("insufficient shards: have ");
                push_decimal(&mut out, *have as u64);
                out.append(", need ");
                push_decimal(&mut out, *need as u64);
            },
            CoreError::ChecksumMismatch { expected, actual } => {
                out.append("checksum mismatch: expected ");
                out.append(hex_encode(expected.as_slice()).as_str());
                out.append(", got ");
                out.append(hex_encode(actual.as_slice()).as_str());
            },
            CoreError::StorageIo(msg) => {
                out.append("storage I/O error: ");
                out.append(msg.as_str());
            },
            CoreError::Serialization(msg) => {
                out.append("serialization error: ");
                out.append(msg.as_str());
            },
            CoreError::NoNodesLeft => {
                out.append("ring has no nodes left");
            },
            CoreError::InsufficientNodes { needed, available } => {
                out.append("need ");
                push_decimal(&mut out, *needed as u64);
                out.append(" nodes but only ");
                push_decimal(&mut out, *available as u64);
                out.append(" available");
            },
        }
        assert(out@ =~= self.text());
        out
    }
}

impl From<CoreError> for String {
    fn from(e: CoreError) -> (res: String)
        ensures
            res@ == e.text(),
    {
        e.to_string()
    }
}

impl vstd::std_specs::convert::FromSpecImpl<CoreError> for String {
    open spec fn obeys_from_spec() -> bool {
        false
    }

    open spec fn from_spec(e: CoreError) -> String {
        arbitrary()
    }
}

/// Errors say what went wrong, with numbers in decimal and digests in hexadecimal.
pub proof fn law_core_error_texts(
    msg: String,
    a: usize,
    b: usize,
    k: u8,
    m: u8,
    expected: [u8; 32],
    actual: [u8; 32],
)
    ensures
        CoreError::Encoding(msg).text() == "encoding failed: "@ + msg@,
        CoreError::Decoding(msg).text() == "decoding failed: "@ + msg@,
        CoreError::StorageIo(msg).text() == "storage I/O error: "@ + msg@,
        CoreError::Serialization(msg).text() == "serialization error: "@ + msg@,
        CoreError::NoNodesLeft.text() == "ring has no nodes left"@,
        (CoreError::ChecksumMismatch { expected, actual }).text() == "checksum mismatch: expected "@
            + hash::hex_text(expected@) + ", got "@ + hash::hex_text(actual@),
        exists|x: Seq<char>, y: Seq<char>|
            #[trigger] text::is_numeral(x, k as nat, 1) && #[trigger] text::is_numeral(y, m as nat, 1)
                && (CoreError::InvalidErasureConfig { k, m }).text()
                == "invalid erasure coding config: k="@ + x + ", m="@ + y,
        exists|x: Seq<char>, y: Seq<char>|
            #[trigger] text::is_numeral(x, a as nat, 1) && #[trigger] text::is_numeral(y, b as nat, 1)
                && (CoreError::InsufficientShards { have: a, need: b }).text()
                == "insufficient shards: have "@ + x + ", need "@ + y,
        exists|x: Seq<char>, y: Seq<char>|
            #[trigger] text::is_numeral(x, a as nat, 1) && #[trigger] text::is_numeral(y, b as nat, 1)
                && (CoreError::InsufficientNodes { needed: a, available: b }).text() == "need "@ + x
                + " nodes but only "@ + y + " available"@,
{
    text::law_renderings_are_numerals(k as nat, 1);
    text::law_renderings_are_numerals(m as nat, 1);
    text::law_renderings_are_numerals(a as nat, 1);
    text::law_renderings_are_numerals(b as nat, 1);
}

} // verus!
