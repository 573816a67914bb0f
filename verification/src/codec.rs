//! The Reed-Solomon code over GF(256).
//!
//! The arithmetic is that of the `reed-solomon-erasure` crate. Parity and
//! reconstruction stay uninterpreted; what the contracts add is when each call
//! succeeds, which shards it leaves alone, and that reconstruction inverts
//! encoding.

use reed_solomon_erasure::galois_8::ReedSolomon;
use vstd::prelude::*;

verus! {

/// The bytes of every slot that holds a shard.
pub type Slots = Seq<Option<Seq<u8>>>;

/// How many of the slots hold a shard.
pub open spec fn present(slots: Slots) -> nat
    decreases slots.len(),
{
    if slots.len() == 0 {
        0
    } else {
        present(slots.drop_last()) + if slots.last() is Some {
            1nat
        } else {
            0nat
        }
    }
}

/// The bytes of each shard.
pub open spec fn bytes_of(shards: Seq<Vec<u8>>) -> Seq<Seq<u8>> {
    shards.map_values(|v: Vec<u8>| v@)
}

/// Whether there are `k` shards, all of one length that is not zero.
pub open spec fn even_shards(data: Seq<Seq<u8>>, k: nat) -> bool {
    &&& data.len() == k
    &&& forall|i: int| 0 <= i < k ==> (#[trigger] data[i]).len() == data[0].len()
    &&& k > 0 ==> data[0].len() > 0
}

/// The reason for which there is no code with `k` data and `m` parity shards,
/// if there is none.
pub open spec fn config_fault(k: nat, m: nat) -> Option<Seq<char>> {
    if k == 0 {
        Some("The number of provided data shards is smaller than the one in codec"@)
    } else if m == 0 {
        Some("The number of provided parity shards is smaller than the one in codec"@)
    } else if k + m > 256 {
        Some("The number of provided shards is greater than the one in codec"@)
    } else {
        None
    }
}

/// The parity shards of `data` in the code with `k` data and `m` parity shards.
pub uninterp spec fn rs_parity(k: nat, m: nat, data: Seq<Seq<u8>>) -> Seq<Seq<u8>>;

/// `ReedSolomon::new` and `ReedSolomon::encode_sep`: computes the parity shards
/// of `data`.
///
/// The code exists, and the call succeeds, unless [`config_fault`] names a
/// reason against it, which is then the error. The `m` parity shards are a
/// function of `k`, `m` and the data shards, and are as long as those.
#[verifier::external_body]
pub(crate) fn rs_encode(k: usize, m: usize, data: &Vec<Vec<u8>>) -> (res: Result<Vec<Vec<u8>>, String>)
    requires
        k + m <= usize::MAX,
        even_shards(bytes_of(data@), k as nat),
    ensures
        match res {
            Ok(parity) => {
                &&& config_fault(k as nat, m as nat) is None
                &&& bytes_of(parity@) == rs_parity(
                    k as nat,
                    m as nat,
                    bytes_of(data@),
                )
                &&& parity@.len() == m
                &&& forall|i: int| 0 <= i < m ==> (#[trigger] parity@[i])@.len() == data@[0]@.len()
            },
            Err(e) => config_fault(k as nat, m as nat) == Some(e@),
        },
{
    let codec = ReedSolomon::new(k, m).map_err(|e| e.to_string())?;
    let mut parity = vec![vec![0u8; data[0].len()]; m];
    codec.encode_sep(data, &mut parity).map_err(|e| e.to_string())?;
    Ok(parity)
}

/// The fault that rules out reconstruction, if there is one: in slot order, the
/// first shard that is empty, or whose length is not that of the shard before
/// it.
pub open spec fn slots_fault(slots: Slots) -> Option<Seq<char>>
    decreases slots.len(),
{
    if slots.len() == 0 {
        None
    } else if slots_fault(slots.drop_last()) is Some {
        slots_fault(slots.drop_last())
    } else {
        match slots.last() {
            Some(s) if s.len() == 0 => Some("The first shard provided is of zero length"@),
            Some(s) if common_len(slots.drop_last()) is Some && common_len(slots.drop_last()) != Some(
                s.len(),
            ) => Some("At least one of the provided shards is not of the correct size"@),
            _ => None,
        }
    }
}

/// The length of the last shard that is present, if one is.
pub open spec fn common_len(slots: Slots) -> Option<nat>
    decreases slots.len(),
{
    if slots.len() == 0 {
        None
    } else {
        match slots.last() {
            Some(s) => Some(s.len()),
            None => common_len(slots.drop_last()),
        }
    }
}

/// Whether every shard that is present is the one that `data` and its parity
/// have there.
pub open spec fn agrees(k: nat, m: nat, data: Seq<Seq<u8>>, slots: Slots) -> bool {
    let code = data + rs_parity(k, m, data);
    &&& even_shards(data, k)
    &&& slots.len() == k + m
    &&& forall|i: int| 0 <= i < k + m && (#[trigger] slots[i]) is Some ==> slots[i] == Some(code[i])
}

/// The data shards that reconstruction finds for `slots`.
pub uninterp spec fn rs_data(k: nat, m: nat, slots: Slots) -> Seq<Seq<u8>>;

/// The bytes of each slot.
pub open spec fn slot_bytes(slots: Seq<Option<Vec<u8>>>) -> Slots {
    slots.map_values(
        |s: Option<Vec<u8>>|
            match s {
                Some(v) => Some(v@),
                None => None,
            },
    )
}

/// `ReedSolomon::new` and `ReedSolomon::reconstruct_data`: fills in the missing
/// data shards.
///
/// The code exists unless [`config_fault`] names a reason against it, which is
/// then the error. With at least `k` shards present the call then succeeds
/// unless [`slots_fault`] names a fault, which is then the error. The data shards
/// it leaves are a function of `k`, `m` and the slots, as long as the shards that
/// were present; those that were present stay as they were, and missing parity
/// stays missing. Where the slots agree with some data and its parity, there is
/// no fault, for all shards of a code are equally long, and the data shards are
/// that data.
#[verifier::external_body]
pub(crate) fn rs_reconstruct(k: usize, m: usize, slots: Vec<Option<Vec<u8>>>) -> (res: Result<
    Vec<Option<Vec<u8>>>,
    String,
>)
    requires
        slots@.len() == k + m,
        present(slot_bytes(slots@)) >= k,
    ensures
        match res {
            Ok(full) => {
                let before = slot_bytes(slots@);
                let after = slot_bytes(full@);
                let data = rs_data(k as nat, m as nat, before);
                &&& config_fault(k as nat, m as nat) is None
                &&& slots_fault(before) is None
                &&& full@.len() == k + m
                &&& data.len() == k
                &&& forall|i: int| 0 <= i < k ==> #[trigger] after[i] == Some(data[i])
                &&& forall|i: int| 0 <= i < k ==> Some((#[trigger] data[i]).len()) == common_len(before)
                &&& forall|i: int| 0 <= i < k + m && (i >= k || before[i] is Some) ==> #[trigger] after[i]
                    == before[i]
                &&& forall|d: Seq<Seq<u8>>| #[trigger]
                    agrees(k as nat, m as nat, d, before) ==> data == d
            },
            Err(e) => if config_fault(k as nat, m as nat) is Some {
                config_fault(k as nat, m as nat) == Some(e@)
            } else {
                &&& slots_fault(slot_bytes(slots@)) == Some(e@)
                &&& forall|d: Seq<Seq<u8>>|
                    !#[trigger] agrees(k as nat, m as nat, d, slot_bytes(slots@))
            },
        },
{
    let codec = ReedSolomon::new(k, m).map_err(|e| e.to_string())?;
    let mut slots = slots;
    codec.reconstruct_data(&mut slots).map_err(|e| e.to_string())?;
    Ok(slots)
}

} // verus!
