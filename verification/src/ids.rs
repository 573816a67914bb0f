//! Node ids as UUIDs.
//!
//! A node id is the number that the sixteen bytes of a UUID hold. Its text, and
//! the way back from text, come from the `uuid` crate.

use vstd::prelude::*;

use crate::hash;
use crate::text;
use crate::types::NodeId;

verus! {

/// The hyphenated text of a UUID: 32 lower-case hexadecimal digits in groups of
/// 8, 4, 4, 4 and 12.
pub open spec fn uuid_text(id: NodeId) -> Seq<char> {
    let digits = hash::hex_text(text::be_bytes(id as nat, 16));
    digits.subrange(0, 8) + seq!['-'] + digits.subrange(8, 12) + seq!['-'] + digits.subrange(12, 16)
        + seq!['-'] + digits.subrange(16, 20) + seq!['-'] + digits.subrange(20, 32)
}

/// The UUID that a text stands for, if it stands for one.
pub uninterp spec fn parsed_uuid(s: Seq<char>) -> Option<NodeId>;

/// `Uuid::to_string`: the hyphenated text of the id, which parses as the id.
#[verifier::external_body]
pub(crate) fn format_uuid(id: NodeId) -> (res: String)
    ensures
        res@ == uuid_text(id),
        parsed_uuid(res@) == Some(id),
{
    uuid::Uuid::from_u128(id).to_string()
}

/// `Uuid::parse_str`: the UUID that `s` stands for in one of the formats that the
/// crate knows, or nothing.
#[verifier::external_body]
pub(crate) fn parse_uuid(s: &str) -> (res: Option<NodeId>)
    ensures
        res == parsed_uuid(s@),
{
    match uuid::Uuid::parse_str(s) {
        Ok(id) => Some(id.as_u128()),
        Err(_) => None,
    }
}

/// `Uuid::new_v4`: a random id. Its version digit is 4, so it is not nil; nothing
/// else is claimed of it.
#[verifier::external_body]
pub(crate) fn random_uuid() -> (res: NodeId)
    ensures
        (res / 0x1000_0000_0000_0000_0000) % 16 == 4,
{
    uuid::Uuid::new_v4().as_u128()
}

/// The text of an id is 36 characters long.
pub proof fn lemma_uuid_text_len(id: NodeId)
    ensures
        uuid_text(id).len() == 36,
{
    lemma_be_bytes_len(id as nat, 16);
}

/// There are as many digits as asked for.
pub proof fn lemma_be_bytes_len(n: nat, len: nat)
    ensures
        text::be_bytes(n, len).len() == len,
    decreases len,
{
    if len > 0 {
        lemma_be_bytes_len(n / 256, (len - 1) as nat);
    }
}

/// The text of an id holds only lower-case hexadecimal digits and hyphens.
pub proof fn lemma_uuid_text_chars(id: NodeId)
    ensures
        forall|i: int|
            0 <= i < uuid_text(id).len() ==> {
                let c = #[trigger] uuid_text(id)[i];
                ||| c == '-'
                ||| 48 <= c as u32 <= 57
                ||| 97 <= c as u32 <= 102
            },
{
    let bytes = text::be_bytes(id as nat, 16);
    lemma_be_bytes_len(id as nat, 16);
    let digits = hash::hex_text(bytes);
    assert forall|i: int| 0 <= i < 32 implies {
        let c = #[trigger] digits[i];
        ||| 48 <= c as u32 <= 57
        ||| 97 <= c as u32 <= 102
    } by {
        assert(0 <= bytes[i / 2] < 256);
    }
}

} // verus!
