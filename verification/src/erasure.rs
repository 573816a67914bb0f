//! Erasure coding engine.
//!
//! Splits data into `k` data shards with `m` parity shards using
//! Reed-Solomon encoding. Any subset of `k` shards (out of `k+m`)
//! is sufficient to reconstruct the original data.
//!
//! # Data flow
//! ```text
//! Write:  plaintext -> pad -> split into k shards -> RS encode -> (k+m) shards
//! Read:   k shards  -> RS reconstruct_data -> concat -> unpad -> original
//! ```
//!
//! Padding: data is zero-padded so its length is a multiple of `k`.
//! Each shard has identical size = `ceil(original_len / k)`.
//! On decode, trailing zeros are stripped (works for payloads that
//! do not end in zero bytes).

use vstd::prelude::*;
use vstd::slice::{slice_subrange, slice_to_vec};

use crate::block::Shard;
use crate::codec;
use crate::codec::{rs_encode, rs_reconstruct};
use crate::error::{CoreError, Result};
use crate::types::{ErasureConfig, ShardIndex};

verus! {

/// The length of each shard of `len` bytes in `k` data shards: the number of
/// bytes divided by `k`, rounded up, but one for an empty payload.
pub open spec fn shard_len(len: nat, k: nat) -> nat {
    if len == 0 {
        1
    } else {
        ((len + k - 1) / k as int) as nat
    }
}

/// `data` followed by the zeros that fill `k` shards.
pub open spec fn padded(data: Seq<u8>, k: nat) -> Seq<u8> {
    Seq::new(
        shard_len(data.len(), k) * k,
        |i: int|
            if i < data.len() {
                data[i]
            } else {
                0u8
            },
    )
}

/// The `k` data shards of `data`: equal consecutive pieces of the padded
/// payload.
pub open spec fn data_shards(data: Seq<u8>, k: nat) -> Seq<Seq<u8>> {
    Seq::new(
        k,
        |i: int|
            padded(data, k).subrange(
                i * shard_len(data.len(), k),
                (i + 1) * shard_len(data.len(), k),
            ),
    )
}

/// The `k + m` shards of `data`: the data shards and then their parity.
pub open spec fn code_shards(data: Seq<u8>, k: nat, m: nat) -> Seq<Seq<u8>> {
    if m == 0 {
        data_shards(data, k)
    } else {
        data_shards(data, k) + codec::rs_parity(k, m, data_shards(data, k))
    }
}

/// The reason for which nothing can be encoded or decoded with `k` data and `m`
/// parity shards, if there is one. Without parity there is nothing to compute,
/// and data is merely split.
pub open spec fn coding_fault(k: nat, m: nat) -> Option<Seq<char>> {
    if k > 0 && m == 0 {
        None
    } else {
        codec::config_fault(k, m)
    }
}

/// Whether `shards` are the shards `code`, numbered in order.
pub open spec fn numbered(shards: Seq<Shard>, code: Seq<Seq<u8>>) -> bool {
    &&& shards.len() == code.len()
    &&& forall|i: int|
        0 <= i < shards.len() ==> (#[trigger] shards[i]).index == i && shards[i].data@ == code[i]
}

/// The pieces of `parts`, one after the other.
pub open spec fn concat(parts: Seq<Seq<u8>>) -> Seq<u8>
    decreases parts.len(),
{
    if parts.len() == 0 {
        Seq::empty()
    } else {
        concat(parts.drop_last()) + parts.last()
    }
}

pub(crate) proof fn lemma_shard_len(len: nat, k: nat)
    requires
        k >= 1,
    ensures
        shard_len(len, k) >= 1,
        len <= shard_len(len, k) * k,
        shard_len(len, k) * k <= len + k,
        len > 0 ==> shard_len(len, k) * k < len + k,
{
    assert(1 * k == k) by (nonlinear_arith);
    if len > 0 {
        let q = (len + k - 1) / k as int;
        vstd::arithmetic::div_mod::lemma_fundamental_div_mod(len + k - 1, k as int);
        let r = (len + k - 1) % k as int;
        assert(len + k - 1 == k * q + r);
        assert(q * k == k * q) by (nonlinear_arith);
        assert(q >= 1) by (nonlinear_arith)
            requires
                len + k - 1 == k * q + r,
                r < k,
                len >= 1,
                k >= 1,
        ;
    }
}

/// Compute padded `Vec<u8>` of size `shard_len * k` from `data`.
fn make_padded(data: &[u8], shard_len: usize, k: usize) -> (res: Vec<u8>)
    requires
        data@.len() <= shard_len * k <= usize::MAX,
    ensures
        res@.len() == shard_len * k,
        res@.take(data@.len() as int) == data@,
        forall|i: int| data@.len() <= i < res@.len() ==> res@[i] == 0,
{
    let mut res: Vec<u8> = Vec::with_capacity(shard_len * k);
    res.extend_from_slice(data);
    assert(res@ =~= data@);
    res.resize(shard_len * k, 0u8);
    assert(res@.take(data@.len() as int) =~= data@);
    res
}

/// Split padded data into `k` pieces of `len` bytes.
fn split_data(whole: &Vec<u8>, len: usize, k: usize) -> (res: Vec<Vec<u8>>)
    requires
        whole@.len() == len * k,
    ensures
        res@.len() == k,
        forall|i: int|
            0 <= i < k ==> (#[trigger] res@[i])@ == whole@.subrange(i * len, (i + 1) * len),
{
    let total: usize = whole.len();
    let mut res: Vec<Vec<u8>> = Vec::with_capacity(k);
    let mut i: usize = 0;
    while i < k
        invariant
            i <= k,
            whole@.len() == total == len * k,
            res@.len() == i,
            forall|j: int|
                0 <= j < i ==> (#[trigger] res@[j])@ == whole@.subrange(j * len, (j + 1) * len),
        decreases k - i,
    {
        assert(0 <= i * len <= (i + 1) * len <= len * k) by (nonlinear_arith)
            requires
                0 <= i < k,
                0 <= len,
        ;
        res.push(slice_to_vec(slice_subrange(whole.as_slice(), i * len, (i + 1) * len)));
        i = i + 1;
    }
    res
}

/// Number the shards of a stripe in order.
fn number_shards(code: Vec<Vec<u8>>) -> (res: Vec<Shard>)
    requires
        code@.len() <= 256,
    ensures
        numbered(res@, codec::bytes_of(code@)),
{
    let ghost total = code@;
    let mut res: Vec<Shard> = Vec::with_capacity(code.len());
    let mut i: usize = 0;
    for data in iter: code
        invariant
            iter.seq() == total,
            total.len() <= 256,
            i == iter.index(),
            res@.len() == i,
            forall|j: int|
                0 <= j < i ==> (#[trigger] res@[j]).index == j && res@[j].data@ == total[j]@,
    {
        assert(i < 256);
        res.push(Shard { index: i as ShardIndex, data });
        i = i + 1;
    }
    res
}

/// `n` divided by `k`, rounded up.
fn div_ceil(n: usize, k: usize) -> (res: usize)
    requires
        k >= 1,
    ensures
        res == (n + k - 1) / k as int,
{
    let q: usize = n / k;
    let r: usize = n % k;
    proof {
        vstd::arithmetic::div_mod::lemma_fundamental_div_mod(n as int, k as int);
        if r == 0 {
            assert(n + k - 1 == q * k + (k - 1)) by (nonlinear_arith)
                requires
                    n == k * q + r,
                    r == 0,
            ;
            vstd::arithmetic::div_mod::lemma_fundamental_div_mod_converse(
                n + k - 1,
                k as int,
                q as int,
                k - 1,
            );
        } else {
            assert(n + k - 1 == (q + 1) * k + (r - 1)) by (nonlinear_arith)
                requires
                    n == k * q + r,
            ;
            vstd::arithmetic::div_mod::lemma_fundamental_div_mod_converse(
                n + k - 1,
                k as int,
                q + 1,
                r - 1,
            );
            assert(q + 1 <= n) by (nonlinear_arith)
                requires
                    n == k * q + r,
                    r >= 1,
                    k >= 1,
                    q >= 0,
            ;
        }
    }
    if r == 0 {
        q
    } else {
        q + 1
    }
}

/// Encode `data` into `k+m` [`Shard`]s.
///
/// Each shard has identical size. The first `k` shards are data shards;
/// the remaining `m` are parity shards.
///
/// # Errors
/// - [`CoreError::Encoding`] if there is no code with `k` data and `m` parity
///   shards.
pub fn encode(data: &[u8], config: &ErasureConfig) -> (res: Result<Vec<Shard>>)
    requires
        config.k >= 1 || data@.len() == 0,
        config.k >= 1 ==> shard_len(data@.len(), config.k as nat) * config.k <= usize::MAX,
    ensures
        match res {
            Ok(shards) => {
                &&& coding_fault(config.k as nat, config.m as nat) is None
                &&& numbered(shards@, code_shards(data@, config.k as nat, config.m as nat))
                &&& shards@.len() == config.k + config.m
                &&& forall|i: int|
                    0 <= i < shards@.len() ==> (#[trigger] shards@[i]).data@.len() == shard_len(
                        data@.len(),
                        config.k as nat,
                    )
            },
            Err(e) => e matches CoreError::Encoding(msg) && coding_fault(
                config.k as nat,
                config.m as nat,
            ) == Some(msg@),
        },
        res is Ok <==> config.k >= 1 && (config.m == 0 || config.k + config.m <= 256),
        res matches Ok(shards) ==> shards@.len() == config.k + config.m && forall|i: int|
            0 <= i < shards@.len() ==> (#[trigger] shards@[i]).index == i && shards@[i].data@
                == code_shards(data@, config.k as nat, config.m as nat)[i],
{
    let k = config.k as usize;
    let m = config.m as usize;
    let n = data.len();
    // A zero-length shard has no code, so an empty payload is one zero byte in
    // each data shard.
    let len: usize = if n == 0 {
        1
    } else {
        div_ceil(n, k)
    };
    proof {
        assert(len == shard_len(n as nat, k as nat));
        if k >= 1 {
            lemma_shard_len(n as nat, k as nat);
        }
        if n == 0 {
            assert(len * k == k) by (nonlinear_arith)
                requires
                    len == 1,
            ;
        }
        assert(n <= len * k <= usize::MAX);
    }
    let whole = make_padded(data, len, k);
    assert(k >= 1 ==> whole@ =~= padded(data@, k as nat));
    let mut shards = split_data(&whole, len, k);
    proof {
        assert(codec::bytes_of(shards@) =~= data_shards(data@, k as nat));
        assert forall|i: int| 0 <= i < k implies (#[trigger] shards@[i])@.len() == len by {
            assert((i + 1) * len == i * len + len) by (nonlinear_arith);
            assert(0 <= i * len <= (i + 1) * len <= len * k) by (nonlinear_arith)
                requires
                    0 <= i < k,
                    0 <= len,
            ;
        }
    }
    let ghost split = shards@;
    if m > 0 || k == 0 {
        match rs_encode(k, m, &shards) {
            Ok(parity) => {
                let mut parity = parity;
                let ghost extra = parity@;
                shards.append(&mut parity);
                assert(codec::bytes_of(shards@) =~= codec::bytes_of(split) + codec::bytes_of(extra));
            },
            Err(e) => {
                return Err(CoreError::Encoding(e));
            },
        }
    }
    assert(codec::bytes_of(shards@) == code_shards(data@, k as nat, m as nat));
    Ok(number_shards(shards))
}

/// Estimate the original data length from padded shards by removing
/// trailing zero bytes.
fn effective_len(data: &[u8]) -> (res: usize)
    ensures
        res == unpadded_len(data@),
{
    let mut n: usize = data.len();
    assert(data@.take(n as int) =~= data@);
    while n > 0 && data[n - 1] == 0
        invariant
            n <= data@.len(),
            unpadded_len(data@.take(n as int)) == unpadded_len(data@),
        decreases n,
    {
        assert(data@.take(n as int).drop_last() =~= data@.take(n - 1));
        n = n - 1;
    }
    n
}

/// The length of `data` without its trailing zero bytes.
pub open spec fn unpadded_len(data: Seq<u8>) -> nat
    decreases data.len(),
{
    if data.len() == 0 || data.last() != 0 {
        data.len()
    } else {
        unpadded_len(data.drop_last())
    }
}

/// `data` without its trailing zero bytes.
pub open spec fn unpadded(data: Seq<u8>) -> Seq<u8> {
    data.take(unpadded_len(data) as int)
}

/// The bytes in each of `total` slots: those of the shard at that position, if
/// there is one.
pub open spec fn slots_of(shards: Seq<Option<Shard>>, total: nat) -> codec::Slots {
    Seq::new(
        total,
        |i: int|
            if i < shards.len() && shards[i] is Some {
                Some(shards[i].unwrap().data@)
            } else {
                None
            },
    )
}

/// The reason for which the slots cannot be decoded although enough of them are
/// filled, if there is one.
pub open spec fn decoding_fault(k: nat, m: nat, slots: codec::Slots) -> Option<Seq<char>> {
    if coding_fault(k, m) is Some {
        coding_fault(k, m)
    } else if m == 0 {
        None
    } else {
        codec::slots_fault(slots)
    }
}

/// The data shards that decoding finds.
pub open spec fn found_shards(k: nat, m: nat, slots: codec::Slots) -> Seq<Seq<u8>> {
    if m == 0 {
        Seq::new(k, |i: int| slots[i].unwrap())
    } else {
        codec::rs_data(k, m, slots)
    }
}

/// Whether every slot that is filled holds the shard of `data` that belongs
/// there.
pub open spec fn holds_shards_of(slots: codec::Slots, data: Seq<u8>, k: nat, m: nat) -> bool {
    &&& slots.len() == k + m
    &&& forall|i: int|
        0 <= i < k + m && (#[trigger] slots[i]) is Some ==> slots[i] == Some(
            code_shards(data, k, m)[i],
        )
}

/// Whether `shards` are shards of `data`, each at its place and some of them missing.
pub open spec fn made_of(shards: Seq<Option<Shard>>, data: Seq<u8>, k: nat, m: nat) -> bool {
    forall|i: int|
        0 <= i < shards.len() && i < k + m && (#[trigger] shards[i]) is Some ==> shards[i].unwrap().data@
            == code_shards(data, k, m)[i]
}

/// Whether the trailing byte of `data`, if there is one, is not zero.
pub open spec fn no_trailing_zero(data: Seq<u8>) -> bool {
    data.len() > 0 ==> data.last() != 0
}

/// The data shards that decoding finds, one after the other, if the slots decode.
pub open spec fn whole_value(k: nat, m: nat, slots: codec::Slots) -> Option<Seq<u8>> {
    if codec::present(slots) < k || decoding_fault(k, m, slots) is Some {
        None
    } else {
        Some(concat(found_shards(k, m, slots)))
    }
}

/// What decoding the given slots without stripping returns.
pub open spec fn whole_result(k: nat, m: nat, slots: codec::Slots, res: Result<Vec<u8>>) -> bool {
    match res {
        Ok(out) => whole_value(k, m, slots) == Some(out@),
        Err(_) => whole_value(k, m, slots) is None && decode_result(k, m, slots, res),
    }
}

/// What `decode` returns for the given slots.
pub open spec fn decode_result(k: nat, m: nat, slots: codec::Slots, res: Result<Vec<u8>>) -> bool {
    if codec::present(slots) < k {
        res matches Err(CoreError::InsufficientShards { have, need }) && have == codec::present(slots)
            && need == k
    } else {
        match decoding_fault(k, m, slots) {
            Some(text) => res matches Err(CoreError::Decoding(msg)) && msg@ == text,
            None => res matches Ok(out) && out@ == unpadded(concat(found_shards(k, m, slots))),
        }
    }
}

/// The data shards of the given shards, one after the other, padding included.
fn decode_whole(shards: Vec<Option<Shard>>, config: &ErasureConfig) -> (res: Result<Vec<u8>>)
    requires
        config.k + config.m <= 255,
    ensures
        whole_result(
            config.k as nat,
            config.m as nat,
            slots_of(shards@, (config.k + config.m) as nat),
            res,
        ),
        config.valid() && codec::present(slots_of(shards@, (config.k + config.m) as nat)) >= config.k
            ==> forall|data: Seq<u8>| #[trigger]
            holds_shards_of(
                slots_of(shards@, (config.k + config.m) as nat),
                data,
                config.k as nat,
                config.m as nat,
            ) ==> (res matches Ok(out) && out@ == padded(data, config.k as nat)),
{
    let total: usize = config.total_shards() as usize;
    let k = config.k as usize;
    let m = config.m as usize;
    let ghost slots = slots_of(shards@, total as nat);
    let bytes = take_bytes(shards, total);
    assert(codec::slot_bytes(bytes@) =~= slots);

    let have = count_present(&bytes);
    if have < k {
        return Err(CoreError::InsufficientShards { have, need: k });
    }
    let full = if m > 0 || k == 0 {
        match rs_reconstruct(k, m, bytes) {
            Ok(full) => full,
            Err(e) => {
                proof {
                    assert forall|data: Seq<u8>| config.valid() implies !#[trigger]
                        holds_shards_of(slots, data, k as nat, m as nat) by {
                        lemma_data_shards_even(data, k as nat);
                        let d = data_shards(data, k as nat);
                        assert(!codec::agrees(k as nat, m as nat, d, slots));
                    }
                }
                return Err(CoreError::Decoding(e));
            },
        }
    } else {
        proof {
            lemma_all_present(slots);
        }
        bytes
    };
    let ghost found = found_shards(k as nat, m as nat, slots);
    assert forall|i: int| 0 <= i < k implies (#[trigger] full@[i]) is Some && full@[i].unwrap()@ == found[i] by {
        assert(codec::slot_bytes(full@)[i] == Some(found[i]));
    }
    let result = join_data(&full, k, Ghost(found));
    proof {
        assert forall|data: Seq<u8>| #[trigger] holds_shards_of(slots, data, k as nat, m as nat) implies result@
            == padded(data, k as nat) by {
            lemma_data_shards_even(data, k as nat);
            let d = data_shards(data, k as nat);
            if m == 0 {
                assert(found =~= d);
            } else {
                assert(codec::agrees(k as nat, m as nat, d, slots));
            }
            lemma_concat_data_shards(data, k as nat);
        }
    }
    Ok(result)
}

/// Decode `shards` back into the original data.
///
/// Missing or unavailable shards should be passed as `None`.
/// At least `config.k` entries must be [`Some`].
/// Shards beyond the `k + m`-th are ignored, and missing ones at the end may be
/// left out. Only missing data shards (indices 0..k-1) are reconstructed.
///
/// Any `k` or more of the shards that [`encode`] makes of a payload that does
/// not end in a zero byte give that payload back.
///
/// # Errors
/// - [`CoreError::InsufficientShards`] if fewer than `k` shards are present.
/// - [`CoreError::Decoding`] if there is no code with `k` data and `m` parity
///   shards, or the shards present do not have one length.
pub fn decode(shards: Vec<Option<Shard>>, config: &ErasureConfig) -> (res: Result<Vec<u8>>)
    requires
        config.k + config.m <= 255,
    ensures
        decode_result(
            config.k as nat,
            config.m as nat,
            slots_of(shards@, (config.k + config.m) as nat),
            res,
        ),
        config.valid() && codec::present(slots_of(shards@, (config.k + config.m) as nat)) >= config.k
            ==> forall|data: Seq<u8>| #[trigger]
            holds_shards_of(
                slots_of(shards@, (config.k + config.m) as nat),
                data,
                config.k as nat,
                config.m as nat,
            ) ==> (res matches Ok(out) && out@ == unpadded(data) && (no_trailing_zero(data) ==> out@
                == data)),
        config.k >= 1 && codec::present(slots_of(shards@, (config.k + config.m) as nat)) >= config.k
            ==> forall|data: Seq<u8>| #[trigger]
            made_of(shards@, data, config.k as nat, config.m as nat) && (data.len() > 0 ==> data[data.len()
                - 1] != 0) ==> (res matches Ok(out) && out@ == data),
        codec::present(slots_of(shards@, (config.k + config.m) as nat)) < config.k ==> (
        res matches Err(CoreError::InsufficientShards { have, need }) && have == codec::present(
            slots_of(shards@, (config.k + config.m) as nat),
        ) && need == config.k),
{
    proof {
        assert forall|data: Seq<u8>| #[trigger]
            made_of(shards@, data, config.k as nat, config.m as nat) implies holds_shards_of(
            slots_of(shards@, (config.k + config.m) as nat),
            data,
            config.k as nat,
            config.m as nat,
        ) by {
            let slots = slots_of(shards@, (config.k + config.m) as nat);
            assert forall|i: int| 0 <= i < config.k + config.m && (#[trigger] slots[i]) is Some implies slots[i]
                == Some(code_shards(data, config.k as nat, config.m as nat)[i]) by {
                assert(shards@[i] is Some);
            }
        }
    }
    let ghost slots = slots_of(shards@, (config.k + config.m) as nat);
    match decode_whole(shards, config) {
        Ok(whole) => {
            let mut result = whole;
            let original_len = effective_len(result.as_slice());
            proof {
                lemma_unpadded_len_bound(whole@);
            }
            result.truncate(original_len);
            proof {
                assert(result@ =~= unpadded(whole@));
                if config.valid() {
                    assert forall|data: Seq<u8>| #[trigger]
                        holds_shards_of(slots, data, config.k as nat, config.m as nat) implies result@
                        == unpadded(data) && (no_trailing_zero(data) ==> result@ == data) by {
                        lemma_padding_is_stripped(data, config.k as nat);
                    }
                }
            }
            Ok(result)
        },
        Err(e) => Err(e),
    }
}

/// The first `k` slots, all filled, one after the other.
fn join_data(full: &Vec<Option<Vec<u8>>>, k: usize, Ghost(found): Ghost<Seq<Seq<u8>>>) -> (res: Vec<u8>)
    requires
        k <= full@.len(),
        found.len() == k,
        forall|i: int|
            0 <= i < k ==> (#[trigger] full@[i]) is Some && full@[i].unwrap()@ == found[i],
    ensures
        res@ == concat(found),
{
    let mut res: Vec<u8> = Vec::new();
    let mut i: usize = 0;
    while i < k
        invariant
            i <= k <= full@.len(),
            found.len() == k,
            forall|j: int|
                0 <= j < k ==> (#[trigger] full@[j]) is Some && full@[j].unwrap()@ == found[j],
            res@ == concat(found.take(i as int)),
        decreases k - i,
    {
        assert(found.take(i + 1).drop_last() =~= found.take(i as int));
        if let Some(part) = &full[i] {
            res.extend_from_slice(part.as_slice());
        }
        assert(res@ =~= concat(found.take(i + 1)));
        i = i + 1;
    }
    assert(found.take(k as int) =~= found);
    res
}

proof fn lemma_unpadded_len_bound(data: Seq<u8>)
    ensures
        unpadded_len(data) <= data.len(),
    decreases data.len(),
{
    if data.len() > 0 {
        lemma_unpadded_len_bound(data.drop_last());
    }
}

/// Slots as many as are present are all filled.
proof fn lemma_all_present(slots: codec::Slots)
    ensures
        codec::present(slots) <= slots.len(),
        codec::present(slots) == slots.len() ==> forall|i: int|
            0 <= i < slots.len() ==> (#[trigger] slots[i]) is Some,
    decreases slots.len(),
{
    if slots.len() > 0 {
        lemma_all_present(slots.drop_last());
        if codec::present(slots) == slots.len() {
            assert forall|i: int| 0 <= i < slots.len() implies (#[trigger] slots[i]) is Some by {
                if i < slots.len() - 1 {
                    assert(slots.drop_last()[i] is Some);
                }
            }
        }
    }
}

/// The data shards of a payload all have the same length, which is not zero.
proof fn lemma_data_shards_even(data: Seq<u8>, k: nat)
    requires
        k >= 1,
    ensures
        codec::even_shards(data_shards(data, k), k),
        forall|i: int|
            0 <= i < k ==> (#[trigger] data_shards(data, k)[i]).len() == shard_len(data.len(), k),
{
    let len = shard_len(data.len(), k);
    lemma_shard_len(data.len(), k);
    assert forall|i: int| 0 <= i < k implies (#[trigger] data_shards(data, k)[i]).len() == len by {
        assert((i + 1) * len == i * len + len) by (nonlinear_arith);
        assert(0 <= i * len <= (i + 1) * len <= len * k) by (nonlinear_arith)
            requires
                0 <= i < k,
                0 <= len,
        ;
    }
}

/// The data shards, one after the other, are the padded payload.
proof fn lemma_concat_data_shards(data: Seq<u8>, k: nat)
    requires
        k >= 1,
    ensures
        concat(data_shards(data, k)) == padded(data, k),
{
    let len = shard_len(data.len(), k);
    lemma_concat_prefix(data, k, k);
    assert(data_shards(data, k).take(k as int) =~= data_shards(data, k));
    assert(padded(data, k).take((len * k) as int) =~= padded(data, k));
    assert(k * len == len * k) by (nonlinear_arith);
}

proof fn lemma_concat_prefix(data: Seq<u8>, k: nat, j: nat)
    requires
        k >= 1,
        j <= k,
    ensures
        concat(data_shards(data, k).take(j as int)) == padded(data, k).take(
            (j * shard_len(data.len(), k)) as int,
        ),
    decreases j,
{
    let len = shard_len(data.len(), k);
    let all = data_shards(data, k);
    let whole = padded(data, k);
    if j == 0 {
        assert(0 * len == 0);
        assert(whole.take(0) =~= Seq::<u8>::empty());
    } else {
        lemma_concat_prefix(data, k, (j - 1) as nat);
        assert(all.take(j as int).drop_last() =~= all.take(j - 1));
        assert(0 <= (j - 1) * len <= j * len <= len * k) by (nonlinear_arith)
            requires
                1 <= j <= k,
                0 <= len,
        ;
        assert(all.take(j as int).last() == whole.subrange((j - 1) * len, (j * len) as int));
        assert(whole.take((j * len) as int) =~= whole.take((j - 1) * len) + whole.subrange(
            (j - 1) * len,
            (j * len) as int,
        ));
    }
}

/// Padding adds nothing but zeros at the end.
proof fn lemma_padding_is_stripped(data: Seq<u8>, k: nat)
    requires
        k >= 1,
    ensures
        unpadded(padded(data, k)) == unpadded(data),
        no_trailing_zero(data) ==> unpadded(data) == data,
{
    lemma_shard_len(data.len(), k);
    lemma_zero_tail(padded(data, k), data.len());
    assert(padded(data, k).take(data.len() as int) =~= data);
    lemma_unpadded_len_bound(data);
    assert(unpadded(padded(data, k)) =~= unpadded(data));
    if no_trailing_zero(data) {
        assert(unpadded(data) =~= data);
    }
}

proof fn lemma_zero_tail(whole: Seq<u8>, n: nat)
    requires
        n <= whole.len(),
        forall|i: int| n <= i < whole.len() ==> whole[i] == 0,
    ensures
        unpadded_len(whole) == unpadded_len(whole.take(n as int)),
    decreases whole.len(),
{
    if whole.len() == n {
        assert(whole.take(n as int) =~= whole);
    } else {
        lemma_zero_tail(whole.drop_last(), n);
        assert(whole.drop_last().take(n as int) =~= whole.take(n as int));
    }
}

/// The bytes in each of `total` slots.
fn take_bytes(shards: Vec<Option<Shard>>, total: usize) -> (res: Vec<Option<Vec<u8>>>)
    ensures
        codec::slot_bytes(res@) == slots_of(shards@, total as nat),
        res@.len() == total,
{
    let ghost given = shards@;
    let mut shards = shards;
    shards.truncate(total);
    let mut res: Vec<Option<Vec<u8>>> = Vec::with_capacity(total);
    for shard in iter: shards
        invariant
            iter.seq() == given.take(if given.len() < total { given.len() as int } else { total as int }),
            res@.len() == iter.index(),
            forall|j: int|
                0 <= j < res@.len() ==> codec::slot_bytes(res@)[j] == slots_of(given, total as nat)[j],
    {
        let slot = match shard {
            Some(s) => Some(s.data),
            None => None,
        };
        res.push(slot);
    }
    while res.len() < total
        invariant
            given.len() <= res@.len() <= total || res@.len() == total,
            forall|j: int|
                0 <= j < res@.len() ==> codec::slot_bytes(res@)[j] == slots_of(given, total as nat)[j],
        decreases total - res.len(),
    {
        res.push(None);
    }
    assert(codec::slot_bytes(res@) =~= slots_of(given, total as nat));
    res
}

/// How many of the slots are filled.
fn count_present(slots: &Vec<Option<Vec<u8>>>) -> (res: usize)
    ensures
        res == codec::present(codec::slot_bytes(slots@)),
{
    let ghost all = codec::slot_bytes(slots@);
    let mut n: usize = 0;
    let mut i: usize = 0;
    while i < slots.len()
        invariant
            n <= i <= slots@.len(),
            all == codec::slot_bytes(slots@),
            n == codec::present(all.take(i as int)),
        decreases slots.len() - i,
    {
        assert(all.take(i + 1).drop_last() =~= all.take(i as int));
        if slots[i].is_some() {
            n = n + 1;
        }
        i = i + 1;
    }
    assert(all.take(i as int) =~= all);
    n
}

/// Stripe configuration for streaming large payloads.
///
/// A stripe is one EC block: `stripe_size` bytes are split into `k` data
/// shards (each `stripe_size / k` bytes), then `m` parity shards are
/// computed. A large file is processed one stripe at a time to keep
/// per-shard sizes under gRPC message limits.
#[derive(Debug, Clone, Copy)]
pub struct StripeConfig {
    /// Desired stripe payload: total bytes per encode call.
    /// Must be evenly divisible by `k`.
    pub stripe_size: usize,
}

impl StripeConfig {
    /// Pick a stripe size such that each shard fits within `max_shard_bytes`.
    pub fn for_shard_limit(max_shard_bytes: usize, k: u8) -> (res: Self)
        requires
            max_shard_bytes * k <= usize::MAX,
        ensures
            res.stripe_size == max_shard_bytes * k,
            k >= 1 && max_shard_bytes >= 1 ==> shard_len(res.stripe_size as nat, k as nat)
                == max_shard_bytes,
    {
        proof {
            if k >= 1 && max_shard_bytes >= 1 {
                law_striped_shards_fit_the_limit(max_shard_bytes as nat, k as nat);
            }
        }
        let stripe_size: usize = max_shard_bytes * (k as usize);
        Self { stripe_size }
    }
}

/// How many stripes of `size` bytes hold `len` bytes.
pub open spec fn stripe_count(len: nat, size: nat) -> nat
    recommends
        size > 0,
{
    ((len + size - 1) / size as int) as nat
}

/// Stripe `j` of `data`: `size` bytes from position `j * size` on, zeros where
/// the data has ended.
pub open spec fn stripe_of(data: Seq<u8>, size: nat, j: int) -> Seq<u8> {
    Seq::new(
        size,
        |i: int|
            if j * size + i < data.len() {
                data[j * size + i]
            } else {
                0u8
            },
    )
}

/// The position at which stripe `j` of `len` bytes of data ends.
pub open spec fn stripe_end(len: nat, size: nat, j: int) -> int {
    if (j + 1) * size < len {
        (j + 1) * size
    } else {
        len as int
    }
}

proof fn lemma_stripe_count(len: nat, size: nat)
    requires
        size > 0,
    ensures
        len <= stripe_count(len, size) * size < len + size,
        len == 0 ==> stripe_count(len, size) == 0,
{
    let n = (len + size - 1) / size as int;
    vstd::arithmetic::div_mod::lemma_fundamental_div_mod(len + size - 1, size as int);
    assert(n * size == size * n) by (nonlinear_arith);
    if len == 0 {
        vstd::arithmetic::div_mod::lemma_basic_div(size - 1, size as int);
    }
}

/// Encode `data` in stripes, returning the shards of each stripe.
///
/// Each stripe contains `k + m` shards; the first `k` are data shards,
/// the last `m` are parity. Where the data ends within the final stripe, the
/// stripe is zero-padded to `stripe_size`.
pub fn encode_striped(data: &[u8], config: &ErasureConfig, stripe: &StripeConfig) -> (res: Vec<
    Vec<Shard>,
>)
    requires
        data@.len() > 0 ==> coding_fault(config.k as nat, config.m as nat) is None,
        data@.len() > 0 ==> shard_len(stripe.stripe_size as nat, config.k as nat) * config.k
            <= usize::MAX,
        stripe.stripe_size > 0,
    ensures
        res@.len() == stripe_count(data@.len(), stripe.stripe_size as nat),
        forall|j: int|
            0 <= j < res@.len() ==> numbered(
                (#[trigger] res@[j])@,
                code_shards(
                    stripe_of(data@, stripe.stripe_size as nat, j),
                    config.k as nat,
                    config.m as nat,
                ),
            ),
        forall|j: int, i: int|
            0 <= j < res@.len() && 0 <= i < config.k + config.m ==> (#[trigger] res@[j]@[i]).data@.len()
                == shard_len(stripe.stripe_size as nat, config.k as nat),
        forall|j: int| 0 <= j < res@.len() ==> (#[trigger] res@[j])@.len() == config.k + config.m,
        forall|j: int, i: int|
            0 <= j < res@.len() && 0 <= i < config.k + config.m ==> (#[trigger] res@[j]@[i]).index == i
                && res@[j]@[i].data@ == code_shards(
                stripe_of(data@, stripe.stripe_size as nat, j),
                config.k as nat,
                config.m as nat,
            )[i],
{
    let size = stripe.stripe_size;
    let n = data.len();
    let mut stripes: Vec<Vec<Shard>> = Vec::new();
    let mut pos: usize = 0;
    proof {
        lemma_stripe_count(n as nat, size as nat);
    }
    while pos < n
        invariant
            n == data@.len(),
            size == stripe.stripe_size,
            size > 0,
            n > 0 ==> shard_len(size as nat, config.k as nat) * config.k <= usize::MAX,
            n > 0 ==> coding_fault(config.k as nat, config.m as nat) is None,
            n <= stripe_count(n as nat, size as nat) * size < n + size,
            stripes@.len() <= stripe_count(n as nat, size as nat),
            if pos < n {
                pos == stripes@.len() * size
            } else {
                stripes@.len() == stripe_count(n as nat, size as nat)
            },
            forall|j: int|
                0 <= j < stripes@.len() ==> numbered(
                    (#[trigger] stripes@[j])@,
                    code_shards(stripe_of(data@, size as nat, j), config.k as nat, config.m as nat),
                ),
            forall|j: int, i: int|
                0 <= j < stripes@.len() && 0 <= i < config.k + config.m ==> (
                #[trigger] stripes@[j]@[i]).data@.len() == shard_len(size as nat, config.k as nat),
            forall|j: int|
                0 <= j < stripes@.len() ==> (#[trigger] stripes@[j])@.len() == config.k + config.m,
        decreases n - pos,
    {
        let ghost j = stripes@.len() as int;
        let end: usize = if n - pos > size {
            pos + size
        } else {
            n
        };
        let mut chunk = slice_to_vec(slice_subrange(data, pos, end));
        chunk.resize(size, 0u8);
        assert(chunk@ =~= stripe_of(data@, size as nat, j)) by {
            assert forall|i: int| 0 <= i < size implies chunk@[i] == stripe_of(data@, size as nat, j)[i] by {
                if i < end - pos {
                    assert(chunk@[i] == data@.subrange(pos as int, end as int)[i]);
                }
            }
        }
        match encode(chunk.as_slice(), config) {
            Ok(shards) => {
                stripes.push(shards);
            },
            Err(_) => {
                assert(false);
            },
        }
        proof {
            let count = stripe_count(n as nat, size as nat) as int;
            assert((j + 1) * size == j * size + size) by (nonlinear_arith);
            if end == n {
                // The stripe that reaches the end of the data is the last one.
                assert(j + 1 == count) by (nonlinear_arith)
                    requires
                        n <= count * size < n + size,
                        j * size < n <= j * size + size,
                        size > 0,
                ;
            } else {
                assert(j + 1 < count) by (nonlinear_arith)
                    requires
                        n <= count * size,
                        (j + 1) * size < n,
                        size > 0,
                ;
            }
        }
        pos = end;
    }
    stripes
}

/// The payload that decoding finds in the slots, if it succeeds.
pub open spec fn decode_value(k: nat, m: nat, slots: codec::Slots) -> Option<Seq<u8>> {
    match whole_value(k, m, slots) {
        Some(whole) => Some(unpadded(whole)),
        None => None,
    }
}

/// The slots of stripe `j`.
pub open spec fn stripe_slots(stripes: Seq<Vec<Option<Shard>>>, total: nat, j: int) -> codec::Slots {
    slots_of(stripes[j]@, total)
}

/// At most the first `n` bytes of `s`.
pub open spec fn at_most(s: Seq<u8>, n: nat) -> Seq<u8> {
    if s.len() <= n {
        s
    } else {
        s.take(n as int)
    }
}

/// Whether the stripes hold enough shards of `data` in stripes of `size` bytes,
/// and none that are not its shards.
pub open spec fn holds_stripes_of(
    stripes: Seq<Vec<Option<Shard>>>,
    data: Seq<u8>,
    size: nat,
    k: nat,
    m: nat,
) -> bool {
    &&& size > 0
    &&& stripes.len() == stripe_count(data.len(), size)
    &&& forall|j: int|
        0 <= j < stripes.len() ==> holds_shards_of(
            #[trigger] stripe_slots(stripes, k + m, j),
            stripe_of(data, size, j),
            k,
            m,
        ) && codec::present(stripe_slots(stripes, k + m, j)) >= k
}

/// Whether the last byte of no stripe of `data` is zero.
pub open spec fn no_stripe_ends_in_zero(data: Seq<u8>, size: nat) -> bool {
    forall|j: int|
        0 <= j < stripe_count(data.len(), size) ==> data[#[trigger] stripe_end(data.len(), size, j) - 1]
            != 0
}

/// Whether `s` holds nothing but zeros from position `n` on.
pub open spec fn zero_from(s: Seq<u8>, n: nat) -> bool {
    forall|i: int| n <= i < s.len() ==> s[i] == 0
}

/// What each stripe decodes to, padding included.
pub open spec fn wholes(stripes: Seq<Vec<Option<Shard>>>, k: nat, m: nat) -> Seq<Seq<u8>> {
    Seq::new(stripes.len(), |j: int| whole_value(k, m, stripe_slots(stripes, k + m, j)).unwrap())
}

/// Whether `parts` look like the stripes of a payload of `len` bytes: they have one
/// length, the payload ends in the last of them, and zeros fill that one.
pub open spec fn fill_stripes(parts: Seq<Seq<u8>>, len: nat) -> bool {
    &&& parts.len() > 0
    &&& forall|j: int| 0 <= j < parts.len() ==> (#[trigger] parts[j]).len() == parts[0].len()
    &&& concat(parts).len() - parts[0].len() < len <= concat(parts).len()
    &&& zero_from(concat(parts), len)
}

/// What the stripes hold of a payload of `len` bytes: the stripes one after the
/// other, up to that length, if they are the stripes of such a payload. If they are
/// not, each is joined without its trailing zeros.
pub open spec fn striped_payload(parts: Seq<Seq<u8>>, len: nat) -> Seq<u8> {
    if fill_stripes(parts, len) {
        at_most(concat(parts), len)
    } else {
        at_most(concat(parts.map_values(|part: Seq<u8>| unpadded(part))), len)
    }
}

/// Whether `data` holds nothing but zeros from position `n` on.
fn is_zero_from(data: &Vec<u8>, n: usize) -> (res: bool)
    ensures
        res == zero_from(data@, n as nat),
{
    let mut i: usize = n;
    while i < data.len()
        invariant
            n <= i,
            forall|j: int| n <= j < i && j < data@.len() ==> data@[j] == 0,
        decreases data.len() - i,
    {
        if data[i] != 0 {
            assert(data@[i as int] != 0);
            return false;
        }
        i = i + 1;
    }
    true
}

/// Decode a list of stripes back into the original data.
///
/// `stripes` is a list where each entry is `Vec<Option<Shard>>` for that stripe.
/// Missing shards in a stripe must be `None`.
///
/// Stripes that hold `k` or more of the shards that [`encode_striped`] makes of
/// some data, in stripes of a size that `k` divides, give that data back. Where
/// `k` does not divide the size, they do if none of them ends in a zero byte.
/// Stripes that are not those of any payload of `original_len` bytes are joined
/// without the zeros at their ends.
pub fn decode_striped(
    stripes: Vec<Vec<Option<Shard>>>,
    config: &ErasureConfig,
    original_len: usize,
) -> (res: Result<Vec<u8>>)
    requires
        config.k + config.m <= 255,
    ensures
        ({
            let k = config.k as nat;
            let m = config.m as nat;
            match res {
                Ok(out) => {
                    &&& forall|j: int|
                        0 <= j < stripes@.len() ==> whole_value(
                            k,
                            m,
                            #[trigger] stripe_slots(stripes@, k + m, j),
                        ) is Some
                    &&& out@ == striped_payload(wholes(stripes@, k, m), original_len as nat)
                },
                Err(e) => exists|j: int|
                    {
                        &&& 0 <= j < stripes@.len()
                        &&& whole_value(k, m, #[trigger] stripe_slots(stripes@, k + m, j)) is None
                        &&& decode_result(k, m, stripe_slots(stripes@, k + m, j), res)
                        &&& forall|i: int|
                            0 <= i < j ==> whole_value(
                                k,
                                m,
                                #[trigger] stripe_slots(stripes@, k + m, i),
                            ) is Some
                    },
            }
        }),
        config.valid() ==> forall|data: Seq<u8>, size: nat| #[trigger]
            holds_stripes_of(stripes@, data, size, config.k as nat, config.m as nat) && (size
                % config.k as nat == 0 || no_stripe_ends_in_zero(data, size)) && original_len == data.len()
                ==> (res matches Ok(out) && out@ == data),
{
    let ghost k = config.k as nat;
    let ghost m = config.m as nat;
    let ghost given = stripes@;
    let ghost parts = wholes(given, k, m);
    let ghost strip = |part: Seq<u8>| unpadded(part);
    let ghost stripped_parts = parts.map_values(strip);
    let mut whole: Vec<u8> = Vec::new();
    let mut stripped: Vec<u8> = Vec::new();
    let mut size: usize = 0;
    let mut even = true;
    let mut any = false;
    for stripe_shards in iter: stripes
        invariant
            iter.seq() == given,
            k == config.k,
            m == config.m,
            k + m <= 255,
            parts == wholes(given, k, m),
            strip == (|part: Seq<u8>| unpadded(part)),
            stripped_parts == parts.map_values(strip),
            forall|j: int|
                0 <= j < iter.index() ==> whole_value(k, m, #[trigger] stripe_slots(given, k + m, j)) is Some,
            whole@ == concat(parts.take(iter.index())),
            stripped@ == concat(stripped_parts.take(iter.index())),
            any == (iter.index() > 0),
            any ==> size == parts[0].len() <= whole@.len(),
            even == (forall|j: int|
                0 <= j < iter.index() ==> (#[trigger] parts[j]).len() == parts[0].len()),
            config.valid() ==> forall|data: Seq<u8>, size: nat, j: int|
                0 <= j < iter.index() && #[trigger] holds_stripes_of(given, data, size, k, m) ==> parts[j]
                    == padded(#[trigger] stripe_of(data, size, j), k),
    {
        let ghost i = iter.index();
        let ghost slots = stripe_slots(given, k + m, i);
        assert(stripe_shards@ == given[i]@);
        match decode_whole(stripe_shards, config) {
            Ok(part) => {
                proof {
                    assert(parts[i] == part@);
                    assert(parts.take(i + 1).drop_last() =~= parts.take(i));
                    assert(parts.take(i + 1).last() == part@);
                    assert(stripped_parts.take(i + 1).drop_last() =~= stripped_parts.take(i));
                    assert(stripped_parts.take(i + 1).last() == unpadded(part@));
                    lemma_unpadded_len_bound(part@);
                }
                if !any {
                    size = part.len();
                    any = true;
                } else if part.len() != size {
                    even = false;
                }
                let len = effective_len(part.as_slice());
                whole.extend_from_slice(part.as_slice());
                stripped.extend_from_slice(slice_subrange(part.as_slice(), 0, len));
                assert(part@.subrange(0, len as int) =~= unpadded(part@));
                assert(whole@ =~= concat(parts.take(i + 1)));
                assert(stripped@ =~= concat(stripped_parts.take(i + 1)));
            },
            Err(e) => {
                proof {
                    assert(whole_value(k, m, slots) is None);
                    if config.valid() {
                        assert forall|data: Seq<u8>, size: nat| !#[trigger]
                            holds_stripes_of(given, data, size, k, m) by {
                            if holds_stripes_of(given, data, size, k, m) {
                                assert(holds_shards_of(slots, stripe_of(data, size, i), k, m));
                            }
                        }
                    }
                }
                return Err(e);
            },
        }
    }
    proof {
        assert(parts.take(given.len() as int) =~= parts);
        assert(stripped_parts.take(given.len() as int) =~= stripped_parts);
    }
    let filled = any && even && whole.len() - size < original_len && original_len <= whole.len()
        && is_zero_from(&whole, original_len);
    assert(filled == fill_stripes(parts, original_len as nat));
    let mut result = if filled {
        whole
    } else {
        stripped
    };
    let ghost chosen = result@;
    result.truncate(original_len);
    proof {
        assert(result@ =~= at_most(chosen, original_len as nat));
        assert(result@ == striped_payload(parts, original_len as nat));
        if config.valid() {
            assert forall|data: Seq<u8>, size: nat| #[trigger]
                holds_stripes_of(given, data, size, k, m) && (size % k == 0 || no_stripe_ends_in_zero(
                    data,
                    size,
                )) && original_len == data.len() implies result@ == data by {
                if size % k == 0 {
                    lemma_even_stripes_join(data, size, k, parts);
                } else {
                    lemma_padded_stripes_join(data, size, k, parts);
                }
            }
        }
    }
    Ok(result)
}

/// Pieces of one length stand one after the other at multiples of it.
proof fn lemma_concat_at(parts: Seq<Seq<u8>>, len: nat)
    requires
        forall|j: int| 0 <= j < parts.len() ==> (#[trigger] parts[j]).len() == len,
    ensures
        concat(parts).len() == parts.len() * len,
        forall|j: int, i: int|
            0 <= j < parts.len() && 0 <= i < len ==> #[trigger] parts[j][i] == concat(parts)[j * len + i],
    decreases parts.len(),
{
    if parts.len() == 0 {
        assert(parts.len() * len == 0) by (nonlinear_arith)
            requires
                parts.len() == 0,
        ;
    } else {
        let rest = parts.drop_last();
        let n = rest.len();
        assert forall|j: int| 0 <= j < rest.len() implies (#[trigger] rest[j]).len() == len by {
            assert(rest[j] == parts[j]);
        }
        lemma_concat_at(rest, len);
        assert(parts.len() * len == n * len + len) by (nonlinear_arith)
            requires
                parts.len() == n + 1,
        ;
        assert forall|j: int, i: int| 0 <= j < parts.len() && 0 <= i < len implies #[trigger] parts[j][i]
            == concat(parts)[j * len + i] by {
            if j < n {
                assert(rest[j][i] == concat(rest)[j * len + i]);
                assert(0 <= j * len + i < n * len) by (nonlinear_arith)
                    requires
                        0 <= j < n,
                        0 <= i < len,
                ;
            }
        }
    }
}

/// Where `k` divides the stripe size, the stripes one after the other are the
/// data, and then zeros.
proof fn lemma_even_stripes_join(data: Seq<u8>, size: nat, k: nat, parts: Seq<Seq<u8>>)
    requires
        size > 0,
        k >= 1,
        size % k == 0,
        parts.len() == stripe_count(data.len(), size),
        forall|j: int| 0 <= j < parts.len() ==> parts[j] == padded(#[trigger] stripe_of(data, size, j), k),
    ensures
        striped_payload(parts, data.len()) == data,
{
    let q = size / k;
    vstd::arithmetic::div_mod::lemma_fundamental_div_mod(size as int, k as int);
    assert(q * k == size) by (nonlinear_arith)
        requires
            size == k * q + 0,
    ;
    vstd::arithmetic::div_mod::lemma_fundamental_div_mod_converse(
        size + k - 1,
        k as int,
        q as int,
        k - 1,
    );
    assert(shard_len(size, k) == q);
    assert forall|j: int| 0 <= j < parts.len() implies (#[trigger] parts[j]) == stripe_of(data, size, j) by {
        assert(padded(stripe_of(data, size, j), k) =~= stripe_of(data, size, j));
    }
    lemma_stripe_count(data.len(), size);
    lemma_concat_at(parts, size);
    let all = concat(parts);
    assert forall|p: int| 0 <= p < all.len() implies #[trigger] all[p] == if p < data.len() {
        data[p]
    } else {
        0u8
    } by {
        let j = p / size as int;
        let i = p % size as int;
        vstd::arithmetic::div_mod::lemma_fundamental_div_mod(p, size as int);
        assert(p == j * size + i) by (nonlinear_arith)
            requires
                p == size * j + i,
        ;
        assert(0 <= j < parts.len()) by (nonlinear_arith)
            requires
                p == j * size + i,
                0 <= p < parts.len() * size,
                0 <= i < size,
        ;
        assert(parts[j][i] == all[p]);
        assert(parts[j] == stripe_of(data, size, j));
    }
    assert(zero_from(all, data.len()));
    assert(at_most(all, data.len()) =~= data);
    if parts.len() == 0 {
        assert(parts.len() * size == 0) by (nonlinear_arith)
            requires
                parts.len() == 0,
        ;
        assert(at_most(Seq::<u8>::empty(), 0) =~= data);
        assert(concat(parts.map_values(|part: Seq<u8>| unpadded(part))) =~= Seq::empty());
    } else {
        assert(fill_stripes(parts, data.len()));
    }
}

/// Where no stripe ends in a zero byte, the data is found also if the stripes are
/// padded.
proof fn lemma_padded_stripes_join(data: Seq<u8>, size: nat, k: nat, parts: Seq<Seq<u8>>)
    requires
        size > 0,
        k >= 1,
        size % k != 0,
        parts.len() == stripe_count(data.len(), size),
        forall|j: int| 0 <= j < parts.len() ==> parts[j] == padded(#[trigger] stripe_of(data, size, j), k),
        no_stripe_ends_in_zero(data, size),
    ensures
        striped_payload(parts, data.len()) == data,
{
    let n = parts.len();
    let len = shard_len(size, k) * k;
    let stripped = parts.map_values(|part: Seq<u8>| unpadded(part));
    lemma_stripe_count(data.len(), size);
    lemma_shard_len(size, k);
    assert(len > size) by {
        if len == size {
            vstd::arithmetic::div_mod::lemma_fundamental_div_mod_converse(
                size as int,
                k as int,
                shard_len(size, k) as int,
                0,
            );
        }
    }
    assert forall|j: int| 0 <= j < n implies stripped[j] == unpadded(#[trigger] stripe_of(data, size, j)) by {
        lemma_padding_is_stripped(stripe_of(data, size, j), k);
    }
    lemma_stripes_join(data, size, stripped);
    assert(at_most(data, data.len()) =~= data);
    assert forall|j: int| 0 <= j < n implies (#[trigger] parts[j]).len() == len by {
        assert(parts[j] == padded(stripe_of(data, size, j), k));
    }
    lemma_concat_at(parts, len);
    let all = concat(parts);
    if n == 0 {
        assert(data.len() == 0) by (nonlinear_arith)
            requires
                data.len() <= n * size,
                n == 0,
        ;
    } else if fill_stripes(parts, data.len()) {
        // The last byte of the data stands in the last stripe.
        let j = n - 1;
        let i = data.len() - 1 - j * size;
        assert(0 <= i < size) by (nonlinear_arith)
            requires
                data.len() <= n * size < data.len() + size,
                j == n - 1,
                i == data.len() - 1 - j * size,
        ;
        assert(stripe_end(data.len(), size, j) == data.len()) by {
            assert((j + 1) * size >= data.len());
        }
        assert(data[data.len() - 1] != 0);
        assert(parts[j][i] == all[j * len + i]);
        assert(parts[j] == padded(stripe_of(data, size, j), k));
        assert(parts[j][i] == data[data.len() - 1]);
        assert(j * len + i < all.len()) by (nonlinear_arith)
            requires
                all.len() == n * len,
                j == n - 1,
                i < len,
        ;
        if j > 0 {
            // There it is beyond the length of the data, for the stripes are padded.
            assert(j * len + i >= data.len()) by (nonlinear_arith)
                requires
                    len >= size + 1,
                    j >= 1,
                    i == data.len() - 1 - j * size,
            ;
            assert(false);
        } else {
            assert(j * size == 0 && 0 * len == 0) by (nonlinear_arith)
                requires
                    j == 0,
            ;
            assert forall|p: int| 0 <= p < data.len() implies all[p] == data[p] by {
                assert(parts[0][p] == all[0 * len + p]);
                assert(parts[0] == padded(stripe_of(data, size, 0), k));
            }
            assert(all.len() == len) by (nonlinear_arith)
                requires
                    all.len() == n * len,
                    n == 1,
            ;
            assert(at_most(all, data.len()) =~= data);
        }
    }
}

/// Where no stripe ends in a zero byte, the unpadded stripes, one after the
/// other, are the data.
proof fn lemma_stripes_join(data: Seq<u8>, size: nat, parts: Seq<Seq<u8>>)
    requires
        size > 0,
        parts.len() == stripe_count(data.len(), size),
        forall|j: int| 0 <= j < parts.len() ==> parts[j] == unpadded(#[trigger] stripe_of(data, size, j)),
        no_stripe_ends_in_zero(data, size),
    ensures
        concat(parts) == data,
{
    lemma_stripe_count(data.len(), size);
    let n = parts.len();
    lemma_stripes_prefix(data, size, parts, n);
    assert(parts.take(n as int) =~= parts);
    if n > 0 {
        assert(data.take(stripe_end(data.len(), size, n - 1)) =~= data);
    } else {
        assert(data =~= Seq::<u8>::empty());
    }
}

proof fn lemma_stripes_prefix(data: Seq<u8>, size: nat, parts: Seq<Seq<u8>>, n: nat)
    requires
        size > 0,
        parts.len() == stripe_count(data.len(), size),
        n <= parts.len(),
        forall|j: int| 0 <= j < parts.len() ==> parts[j] == unpadded(#[trigger] stripe_of(data, size, j)),
        no_stripe_ends_in_zero(data, size),
    ensures
        n > 0 ==> concat(parts.take(n as int)) == data.take(stripe_end(data.len(), size, n - 1)),
        n == 0 ==> concat(parts.take(n as int)) == Seq::<u8>::empty(),
    decreases n,
{
    lemma_stripe_count(data.len(), size);
    if n > 0 {
        let j = n - 1;
        lemma_stripes_prefix(data, size, parts, j as nat);
        assert(parts.take(n as int).drop_last() =~= parts.take(j as int));
        let start = j * size;
        let end = stripe_end(data.len(), size, j);
        let count = parts.len();
        assert((j + 1) * size == j * size + size) by (nonlinear_arith);
        // A stripe starts before the data ends.
        assert(start < data.len()) by (nonlinear_arith)
            requires
                start == j * size,
                j + 1 <= count,
                count * size < data.len() + size,
                size > 0,
        ;
        let whole = stripe_of(data, size, j);
        let part = data.subrange(start, end);
        lemma_zero_tail(whole, part.len());
        assert(whole.take(part.len() as int) =~= part);
        assert(part.last() != 0);
        assert(unpadded(whole) =~= part);
        if j > 0 {
            assert(j - 1 + 1 == j);
            assert(stripe_end(data.len(), size, j - 1) == start);
            assert(data.take(end) =~= data.take(start) + part);
        } else {
            assert(start == 0) by (nonlinear_arith)
                requires
                    start == j * size,
                    j == 0,
            ;
            assert(data.take(end) =~= part);
        }
        assert(concat(parts.take(n as int)) =~= data.take(end));
    }
}

/// Losing shards leaves shards of the same payload: whatever is dropped from the
/// output of [`encode`], what is kept holds shards of the payload, in the sense
/// in which [`decode`] gives it back from any `k` of them.
pub proof fn law_kept_shards_are_shards_of_the_payload(
    data: Seq<u8>,
    k: nat,
    m: nat,
    shards: Seq<Shard>,
    kept: Seq<Option<Shard>>,
)
    requires
        numbered(shards, code_shards(data, k, m)),
        shards.len() == k + m,
        kept.len() <= k + m,
        forall|i: int|
            0 <= i < kept.len() && (#[trigger] kept[i]) is Some ==> kept[i].unwrap()@ == shards[i]@,
    ensures
        holds_shards_of(slots_of(kept, k + m), data, k, m),
{
    let slots = slots_of(kept, k + m);
    assert forall|i: int| 0 <= i < k + m && (#[trigger] slots[i]) is Some implies slots[i] == Some(
        code_shards(data, k, m)[i],
    ) by {
        assert(kept[i] is Some);
        assert(kept[i].unwrap()@.data == shards[i]@.data);
    }
}

/// A stripe holds its chunk of the data: all of it where the chunk is full, and
/// else the chunk followed by zeros. So do its data shards, one after the other.
pub proof fn law_stripe_holds_its_chunk(data: Seq<u8>, size: nat, k: nat, j: int)
    requires
        size > 0,
        k >= 1,
        0 <= j < stripe_count(data.len(), size),
    ensures
        ({
            let stripe = stripe_of(data, size, j);
            let chunk = data.subrange(j * size, stripe_end(data.len(), size, j));
            let joined = concat(data_shards(stripe, k));
            &&& (j + 1) * size <= data.len() ==> stripe == chunk
            &&& 0 < chunk.len() <= size
            &&& stripe.take(chunk.len() as int) == chunk
            &&& zero_from(stripe, chunk.len())
            &&& joined.take(chunk.len() as int) == chunk
            &&& zero_from(joined, chunk.len())
        }),
{
    let n = stripe_count(data.len(), size);
    let stripe = stripe_of(data, size, j);
    let end = stripe_end(data.len(), size, j);
    lemma_stripe_count(data.len(), size);
    assert((j + 1) * size == j * size + size) by (nonlinear_arith);
    assert(0 <= j * size < data.len()) by (nonlinear_arith)
        requires
            0 <= j < n,
            n * size < data.len() + size,
            size > 0,
    ;
    let chunk = data.subrange(j * size, end);
    assert(stripe.take(chunk.len() as int) =~= chunk);
    if (j + 1) * size <= data.len() {
        assert(stripe =~= chunk);
    }
    lemma_shard_len(size, k);
    lemma_concat_data_shards(stripe, k);
    assert(padded(stripe, k).take(chunk.len() as int) =~= chunk);
}

/// Stripes are taken whole only where they are the stripes of a payload of the given
/// length, and then they give that payload.
pub proof fn law_whole_stripes_are_those_of_a_payload(parts: Seq<Seq<u8>>, len: nat)
    requires
        fill_stripes(parts, len),
    ensures
        ({
            let size = parts[0].len();
            let data = striped_payload(parts, len);
            &&& data.len() == len
            &&& size > 0
            &&& parts.len() == stripe_count(len, size)
            &&& forall|j: int| 0 <= j < parts.len() ==> #[trigger] parts[j] == stripe_of(data, size, j)
        }),
{
    let n = parts.len();
    let size = parts[0].len();
    let all = concat(parts);
    let data = striped_payload(parts, len);
    lemma_concat_at(parts, size);
    assert(data =~= all.take(len as int));
    assert(n * size + size == (n + 1) * size && n * size == (n - 1) * size + size) by (nonlinear_arith);
    vstd::arithmetic::div_mod::lemma_fundamental_div_mod_converse(
        len + size - 1,
        size as int,
        n as int,
        len + size - 1 - n * size,
    );
    assert forall|j: int| 0 <= j < n implies #[trigger] parts[j] == stripe_of(data, size, j) by {
        assert forall|i: int| 0 <= i < size implies #[trigger] parts[j][i] == stripe_of(data, size, j)[i] by {
            assert(parts[j][i] == all[j * size + i]);
            assert(0 <= j * size + i < n * size) by (nonlinear_arith)
                requires
                    0 <= j < n,
                    0 <= i < size,
            ;
        }
        assert(parts[j] =~= stripe_of(data, size, j));
    }
}

/// With a stripe size picked for a limit, every shard is just as long as the
/// limit allows.
pub proof fn law_striped_shards_fit_the_limit(max_shard_bytes: nat, k: nat)
    requires
        max_shard_bytes >= 1,
        k >= 1,
    ensures
        shard_len(max_shard_bytes * k, k) == max_shard_bytes,
        (max_shard_bytes * k) % k == 0,
{
    let n = max_shard_bytes * k;
    assert(n >= 1) by (nonlinear_arith)
        requires
            k >= 1,
            max_shard_bytes >= 1,
            n == max_shard_bytes * k,
    ;
    vstd::arithmetic::div_mod::lemma_fundamental_div_mod_converse(
        n + k - 1,
        k as int,
        max_shard_bytes as int,
        k - 1,
    );
    vstd::arithmetic::div_mod::lemma_mod_multiples_basic(max_shard_bytes as int, k as int);
}

/// The shards of a payload hold it byte for byte: the data shards have one length, the
/// least with which they hold it, and one after the other they are the payload and
/// then zeros. The parity shards are those of the data shards.
pub proof fn law_shards_hold_the_payload(data: Seq<u8>, k: nat, m: nat, p: int)
    requires
        k >= 1,
        0 <= p < k * code_shards(data, k, m)[0].len(),
    ensures
        ({
            let code = code_shards(data, k, m);
            let len = code[0].len() as int;
            &&& code.len() >= k
            &&& forall|i: int| 0 <= i < k ==> (#[trigger] code[i]).len() == len
            &&& data.len() <= len * k
            &&& data.len() > 0 ==> (len - 1) * k < data.len()
            &&& data.len() == 0 ==> len == 1
            &&& 0 <= p / len < k
            &&& code[p / len][p % len] == if p < data.len() {
                data[p]
            } else {
                0
            }
            &&& if m == 0 {
                code.len() == k
            } else {
                code.skip(k as int) == codec::rs_parity(k, m, code.take(k as int))
            }
        }),
{
    let code = code_shards(data, k, m);
    let parts = data_shards(data, k);
    let len = shard_len(data.len(), k);
    lemma_shard_len(data.len(), k);
    lemma_data_shards_even(data, k);
    assert(forall|i: int| 0 <= i < k ==> code[i] == parts[i]);
    assert(parts[0].len() == len);
    assert forall|i: int| 0 <= i < k implies (#[trigger] code[i]).len() == len by {
        assert(parts[i].len() == len);
    }
    let i = p / len as int;
    let r = p % len as int;
    vstd::arithmetic::div_mod::lemma_fundamental_div_mod(p, len as int);
    assert(p == i * len + r) by (nonlinear_arith)
        requires
            p == len * i + r,
    ;
    assert(0 <= i < k) by (nonlinear_arith)
        requires
            p == i * len + r,
            0 <= r < len,
            0 <= p < k * len,
    ;
    assert((i + 1) * len == i * len + len) by (nonlinear_arith);
    assert(0 <= i * len && (i + 1) * len <= len * k) by (nonlinear_arith)
        requires
            0 <= i < k,
            0 <= len,
    ;
    assert(parts[i] == padded(data, k).subrange(i * len, (i + 1) * len));
    assert(parts[i][r] == padded(data, k)[p]);
    assert((len - 1) * k == len * k - k) by (nonlinear_arith);
    if m > 0 {
        assert(code.take(k as int) =~= parts);
        assert(code.skip(k as int) =~= codec::rs_parity(k, m, parts));
    }
}

/// A code exists for at least one data shard, and with parity for at most 256 shards.
pub proof fn law_which_codes_exist(k: nat, m: nat)
    ensures
        coding_fault(k, m) is None <==> k >= 1 && (m == 0 || k + m <= 256),
{
}

/// What is stripped is zeros, from the end and up to the last byte that is not zero.
pub proof fn law_only_trailing_zeros_are_stripped(data: Seq<u8>)
    ensures
        unpadded(data).len() <= data.len(),
        unpadded(data) == data.take(unpadded(data).len() as int),
        forall|i: int| unpadded(data).len() <= i < data.len() ==> data[i] == 0,
        unpadded(data).len() > 0 ==> unpadded(data)[unpadded(data).len() - 1] != 0,
    decreases data.len(),
{
    lemma_unpadded_len_bound(data);
    if data.len() > 0 && data.last() == 0 {
        let rest = data.drop_last();
        law_only_trailing_zeros_are_stripped(rest);
        lemma_unpadded_len_bound(rest);
        assert(unpadded(data) =~= unpadded(rest));
        assert forall|i: int| unpadded(data).len() <= i < data.len() implies data[i] == 0 by {
            if i < rest.len() {
                assert(rest[i] == data[i]);
            }
        }
    }
}

/// Pieces are joined in order, with nothing between them.
pub proof fn law_pieces_are_joined_in_order(parts: Seq<Seq<u8>>)
    ensures
        parts.len() == 0 ==> concat(parts).len() == 0,
        parts.len() > 0 ==> concat(parts) == parts[0] + concat(parts.skip(1)),
    decreases parts.len(),
{
    if parts.len() == 1 {
        reveal_with_fuel(concat, 2);
        assert(parts.skip(1) =~= Seq::empty());
        assert(parts.drop_last() =~= Seq::empty());
        assert(concat(parts) =~= parts[0] + concat(parts.skip(1)));
    } else if parts.len() > 1 {
        law_pieces_are_joined_in_order(parts.drop_last());
        assert(parts.drop_last().skip(1) =~= parts.skip(1).drop_last());
        assert(concat(parts) =~= parts[0] + concat(parts.skip(1)));
    }
}

/// Shards are counted by how many slots hold one.
pub proof fn law_present_counts_slots(slots: codec::Slots)
    ensures
        codec::present(slots) == Set::<int>::new(
            |i: int| 0 <= i < slots.len() && slots[i] is Some,
        ).len(),
        Set::<int>::new(|i: int| 0 <= i < slots.len() && slots[i] is Some).finite(),
    decreases slots.len(),
{
    let all = Set::<int>::new(|i: int| 0 <= i < slots.len() && slots[i] is Some);
    if slots.len() == 0 {
        assert(all =~= Set::empty());
    } else {
        let rest = slots.drop_last();
        let before = Set::<int>::new(|i: int| 0 <= i < rest.len() && rest[i] is Some);
        law_present_counts_slots(rest);
        let last = slots.len() - 1;
        if slots.last() is Some {
            assert(all =~= before.insert(last));
        } else {
            assert(all =~= before);
        }
    }
}

/// Slots that hold nothing but shards of a payload, each at its place, are recognised
/// as such.
pub proof fn law_shards_are_recognised(slots: codec::Slots, data: Seq<u8>, k: nat, m: nat)
    requires
        slots.len() == k + m,
        forall|i: int|
            0 <= i < k + m && (#[trigger] slots[i]) is Some ==> slots[i].unwrap() == code_shards(
                data,
                k,
                m,
            )[i],
    ensures
        holds_shards_of(slots, data, k, m),
        (data.len() > 0 ==> data[data.len() - 1] != 0) ==> no_trailing_zero(data),
{
}

/// The stripes of a payload hold it byte for byte, in just as many stripes as it takes:
/// each stripe holds the next bytes, and zeros where the payload has ended.
pub proof fn law_stripes_hold_the_payload(data: Seq<u8>, size: nat, k: nat, m: nat, p: int)
    requires
        size > 0,
        k >= 1,
        0 <= p < stripe_count(data.len(), size) * size,
    ensures
        ({
            let code = code_shards(stripe_of(data, size, p / size as int), k, m);
            let at = p % size as int;
            let len = code[0].len() as int;
            &&& data.len() <= stripe_count(data.len(), size) * size < data.len() + size
            &&& 0 <= p / (size as int) < stripe_count(data.len(), size)
            &&& code[at / len][at % len] == if p < data.len() {
                data[p]
            } else {
                0
            }
        }),
{
    let n = stripe_count(data.len(), size);
    let j = p / size as int;
    let at = p % size as int;
    let stripe = stripe_of(data, size, j);
    lemma_stripe_count(data.len(), size);
    vstd::arithmetic::div_mod::lemma_fundamental_div_mod(p, size as int);
    assert(p == j * size + at) by (nonlinear_arith)
        requires
            p == size * j + at,
    ;
    assert(0 <= j < n) by (nonlinear_arith)
        requires
            p == j * size + at,
            0 <= at < size,
            0 <= p < n * size,
    ;
    lemma_shard_len(size, k);
    lemma_data_shards_even(stripe, k);
    let len = code_shards(stripe, k, m)[0].len();
    assert(code_shards(stripe, k, m)[0] == data_shards(stripe, k)[0]);
    assert(k * len == len * k) by (nonlinear_arith);
    law_shards_hold_the_payload(stripe, k, m, at);
}

/// Stripes that hold enough shards of a payload, and nothing else, are recognised as
/// such.
pub proof fn law_stripes_are_recognised(
    stripes: Seq<Vec<Option<Shard>>>,
    data: Seq<u8>,
    size: nat,
    k: nat,
    m: nat,
)
    requires
        size > 0,
        data.len() <= stripes.len() * size < data.len() + size,
        forall|j: int|
            0 <= j < stripes.len() ==> made_of(
                (#[trigger] stripes[j])@,
                stripe_of(data, size, j),
                k,
                m,
            ) && codec::present(slots_of(stripes[j]@, k + m)) >= k,
    ensures
        holds_stripes_of(stripes, data, size, k, m),
{
    let n = stripe_count(data.len(), size);
    lemma_stripe_count(data.len(), size);
    assert(n == stripes.len()) by (nonlinear_arith)
        requires
            data.len() <= stripes.len() * size < data.len() + size,
            data.len() <= n * size < data.len() + size,
            size > 0,
    ;
    assert forall|j: int| 0 <= j < stripes.len() implies holds_shards_of(
        #[trigger] stripe_slots(stripes, k + m, j),
        stripe_of(data, size, j),
        k,
        m,
    ) && codec::present(stripe_slots(stripes, k + m, j)) >= k by {
        let slots = stripe_slots(stripes, k + m, j);
        let code = code_shards(stripe_of(data, size, j), k, m);
        assert(made_of(stripes[j]@, stripe_of(data, size, j), k, m));
        assert forall|i: int| 0 <= i < k + m && (#[trigger] slots[i]) is Some implies slots[i] == Some(
            code[i],
        ) by {
            assert(stripes[j]@[i] is Some);
        }
    }
}

/// Stripes are joined whole, and cut to the length of the payload, where they have one
/// length, the payload ends in the last of them and zeros fill it. Elsewhere each is
/// joined without the zeros at its end, and the whole is cut to that length.
pub proof fn law_how_stripes_are_joined(parts: Seq<Seq<u8>>, stripped: Seq<Seq<u8>>, len: nat)
    requires
        parts.len() > 0,
        stripped.len() == parts.len(),
        forall|j: int| 0 <= j < parts.len() ==> #[trigger] stripped[j] == unpadded(parts[j]),
    ensures
        ({
            let all = concat(parts);
            let size = parts[0].len();
            let whole = {
                &&& forall|j: int| 0 <= j < parts.len() ==> (#[trigger] parts[j]).len() == size
                &&& (parts.len() - 1) * size < len <= parts.len() * size
                &&& forall|i: int| len <= i < all.len() ==> all[i] == 0
            };
            &&& whole ==> striped_payload(parts, len) == all.take(len as int)
            &&& !whole && concat(stripped).len() <= len ==> striped_payload(parts, len) == concat(stripped)
            &&& !whole && concat(stripped).len() > len ==> striped_payload(parts, len) == concat(
                stripped,
            ).take(len as int)
        }),
{
    let size = parts[0].len();
    assert(parts.map_values(|part: Seq<u8>| unpadded(part)) =~= stripped);
    if forall|j: int| 0 <= j < parts.len() ==> (#[trigger] parts[j]).len() == size {
        lemma_concat_at(parts, size);
        assert((parts.len() - 1) * size == parts.len() * size - size) by (nonlinear_arith);
        assert(concat(parts).take(concat(parts).len() as int) =~= concat(parts));
    }
}

/// A payload of whose stripes none ends in a zero byte is recognised as such: the last
/// byte of each full stripe, and that of the payload.
pub proof fn law_stripe_ends_are_recognised(data: Seq<u8>, size: nat)
    requires
        size > 0,
        data.len() > 0 ==> data[data.len() - 1] != 0,
        forall|p: int|
            0 < p < data.len() && #[trigger] (p % size as int) == 0 ==> data[p - 1] != 0,
    ensures
        no_stripe_ends_in_zero(data, size),
{
    lemma_stripe_count(data.len(), size);
    let n = stripe_count(data.len(), size);
    assert forall|j: int| 0 <= j < n implies data[#[trigger] stripe_end(data.len(), size, j) - 1] != 0 by {
        let p = (j + 1) * size;
        assert(p > 0) by (nonlinear_arith)
            requires
                j >= 0,
                size > 0,
                p == (j + 1) * size,
        ;
        if p < data.len() {
            vstd::arithmetic::div_mod::lemma_mod_multiples_basic(j + 1, size as int);
            assert(p % size as int == 0);
        }
    }
}

} // verus!
