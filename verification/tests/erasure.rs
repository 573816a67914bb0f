//! Erasure coding.

use dfs::block::Shard;
use dfs::erasure::{decode, decode_striped, encode, encode_striped, StripeConfig};
use dfs::error::CoreError;
use dfs::types::ErasureConfig;

const CFG: ErasureConfig = ErasureConfig { k: 3, m: 2 };

#[test]
fn encode_decode_roundtrip_all_shards() {
    let shards = encode(b"hello world this is a test", &CFG).unwrap();
    let all: Vec<Option<Shard>> = shards.iter().map(|s| Some(s.clone())).collect();
    let decoded = decode(all, &CFG).unwrap();
    assert_eq!(&decoded[..], b"hello world this is a test");
}

#[test]
fn decode_with_only_data_shards_drops_parity() {
    let shards = encode(b"data only, ignore parity", &CFG).unwrap();
    let subset: Vec<Option<Shard>> = (0..3).map(|i| Some(shards[i].clone())).collect();
    let decoded = decode(subset, &CFG).unwrap();
    assert_eq!(&decoded[..], b"data only, ignore parity");
}

#[test]
fn decode_with_missing_data_shard_using_parity() {
    let shards = encode(b"missng data shard test", &CFG).unwrap();
    // Drop shard 1 (data shard); keep 0, 2, 3, 4.
    let mut subset = vec![None; 5];
    for i in [0, 2, 3, 4] {
        subset[i] = Some(shards[i].clone());
    }
    let decoded = decode(subset, &CFG).unwrap();
    assert_eq!(&decoded[..], b"missng data shard test");
}

#[test]
fn decode_with_two_missing_reconstructed() {
    let shards = encode(b"two missing still works", &CFG).unwrap();
    // 0 and 2 missing (data), keep 1 (data) + 3, 4 (parity) = 3 shards = k.
    let mut subset = vec![None; 5];
    for i in [1, 3, 4] {
        subset[i] = Some(shards[i].clone());
    }
    let decoded = decode(subset, &CFG).unwrap();
    assert_eq!(&decoded[..], b"two missing still works");
}

#[test]
fn any_three_of_five_shards_decode() {
    let data = b"any k of the k + m shards will do";
    let shards = encode(data, &CFG).unwrap();
    for a in 0..5usize {
        for b in a + 1..5 {
            let mut subset: Vec<Option<Shard>> = shards.iter().map(|s| Some(s.clone())).collect();
            subset[a] = None;
            subset[b] = None;
            assert_eq!(&decode(subset, &CFG).unwrap()[..], data);
        }
    }
}

#[test]
fn decode_with_most_shards_missing_fails() {
    let shards = encode(b"too few to decode", &CFG).unwrap();
    let subset = vec![Some(shards[0].clone()), Some(shards[1].clone())];
    let result = decode(subset, &CFG);
    assert!(matches!(result, Err(CoreError::InsufficientShards { .. })));
}

#[test]
fn too_few_shards_are_counted() {
    let shards = encode(b"too few to decode", &CFG).unwrap();
    let subset = vec![Some(shards[0].clone()), None, Some(shards[2].clone())];
    assert_eq!(decode(subset, &CFG), Err(CoreError::InsufficientShards { have: 2, need: 3 }));
}

#[test]
fn edge_case_single_byte() {
    let cfg = ErasureConfig { k: 4, m: 2 };
    let shards = encode(b"x", &cfg).unwrap();
    let all: Vec<Option<Shard>> = shards.iter().map(|s| Some(s.clone())).collect();
    let decoded = decode(all, &cfg).unwrap();
    assert_eq!(&decoded[..], b"x");
}

#[test]
fn all_shards_same_size() {
    let shards = encode(b"same size test", &CFG).unwrap();
    let sizes: Vec<usize> = shards.iter().map(|s| s.data.len()).collect();
    assert!(sizes.windows(2).all(|w| w[0] == w[1]), "shards must have equal sizes: {sizes:?}");
}

#[test]
fn total_shard_count_matches_config() {
    let cfg = ErasureConfig { k: 7, m: 3 };
    let shards = encode(&[0u8; 1024], &cfg).unwrap();
    assert_eq!(shards.len() as u8, cfg.total_shards());
}

#[test]
fn encode_decode_empty() {
    let cfg = ErasureConfig { k: 2, m: 1 };
    let shards = encode(b"", &cfg).unwrap();
    let all: Vec<Option<Shard>> = shards.iter().map(|s| Some(s.clone())).collect();
    let decoded = decode(all, &cfg).unwrap();
    assert_eq!(&decoded[..], b"");
}

#[test]
fn payload_not_multiple_of_k() {
    let cfg = ErasureConfig { k: 4, m: 2 };
    // 10 bytes give shards of 3 (ceil(10/4)), 12 bytes padded.
    let shards = encode(b"0123456789", &cfg).unwrap();
    assert_eq!(shards.len() as u8, cfg.total_shards());
    for s in &shards {
        assert_eq!(s.data.len(), 3);
    }
    let all: Vec<Option<Shard>> = shards.iter().map(|s| Some(s.clone())).collect();
    let decoded = decode(all, &cfg).unwrap();
    assert_eq!(&decoded[..], b"0123456789");
}

#[test]
fn data_shards_hold_the_padded_payload() {
    let shards = encode(b"abcdefgh", &CFG).unwrap();
    assert_eq!(shards[0], Shard { index: 0, data: b"abc".to_vec() });
    assert_eq!(shards[1], Shard { index: 1, data: b"def".to_vec() });
    assert_eq!(shards[2], Shard { index: 2, data: b"gh\0".to_vec() });
    assert_eq!(shards[3].index, 3);
    assert_eq!(shards[4].index, 4);
}

#[test]
fn parity_of_a_single_data_shard_repeats_it() {
    let cfg = ErasureConfig { k: 1, m: 1 };
    let shards = encode(b"mirror", &cfg).unwrap();
    assert_eq!(shards[1].data, b"mirror".to_vec());
    let only_parity = vec![None, Some(shards[1].clone())];
    assert_eq!(&decode(only_parity, &cfg).unwrap()[..], b"mirror");
}

#[test]
fn no_parity_is_just_splitting() {
    let cfg = ErasureConfig { k: 3, m: 0 };
    let shards = encode(b"abcdefgh", &cfg).unwrap();
    assert_eq!(shards.len(), 3);
    assert_eq!(shards[1].data, b"def".to_vec());
    let all: Vec<Option<Shard>> = shards.iter().map(|s| Some(s.clone())).collect();
    assert_eq!(&decode(all, &cfg).unwrap()[..], b"abcdefgh");
    let missing = vec![Some(shards[0].clone()), None, Some(shards[2].clone())];
    assert_eq!(decode(missing, &cfg), Err(CoreError::InsufficientShards { have: 2, need: 3 }));
}

#[test]
fn trailing_zeros_are_taken_for_padding() {
    let shards = encode(b"ab\0\0", &CFG).unwrap();
    let all: Vec<Option<Shard>> = shards.iter().map(|s| Some(s.clone())).collect();
    assert_eq!(&decode(all, &CFG).unwrap()[..], b"ab");
}

#[test]
fn too_many_shards_for_the_code() {
    let cfg = ErasureConfig { k: 200, m: 100 };
    assert_eq!(
        encode(b"data", &cfg),
        Err(CoreError::Encoding(
            "The number of provided shards is greater than the one in codec".to_string()
        ))
    );
}

#[test]
fn no_data_shards_for_the_code() {
    let cfg = ErasureConfig { k: 0, m: 2 };
    assert_eq!(
        encode(b"", &cfg),
        Err(CoreError::Encoding(
            "The number of provided data shards is smaller than the one in codec".to_string()
        ))
    );
}

#[test]
fn shards_of_different_length_do_not_decode() {
    let shards = vec![
        Some(Shard { index: 0, data: vec![1, 2] }),
        Some(Shard { index: 1, data: vec![3] }),
        None,
        Some(Shard { index: 3, data: vec![4, 5] }),
    ];
    assert_eq!(
        decode(shards, &CFG),
        Err(CoreError::Decoding(
            "At least one of the provided shards is not of the correct size".to_string()
        ))
    );
    let empty = vec![
        Some(Shard { index: 0, data: vec![] }),
        Some(Shard { index: 1, data: vec![3] }),
        None,
        Some(Shard { index: 3, data: vec![4] }),
    ];
    assert_eq!(
        decode(empty, &CFG),
        Err(CoreError::Decoding("The first shard provided is of zero length".to_string()))
    );
}

#[test]
fn large_payload_roundtrip() {
    let cfg = ErasureConfig { k: 10, m: 4 };
    let data: Vec<u8> = (0u8..=255).cycle().take(1_000_000).collect();
    let shards = encode(&data, &cfg).unwrap();
    // Pick exactly k data shards.
    let subset: Vec<Option<Shard>> = shards[..10].iter().map(|s| Some(s.clone())).collect();
    let decoded = decode(subset, &cfg).unwrap();
    assert_eq!(decoded, data);
}

#[test]
fn stripe_size_for_shard_limit() {
    assert_eq!(StripeConfig::for_shard_limit(512, 3).stripe_size, 1536);
}

#[test]
fn encode_striped_roundtrip() {
    let cfg = ErasureConfig { k: 3, m: 2 };
    let stripe = StripeConfig::for_shard_limit(128, 3);
    let data = b"this is a test payload for striped encoding!".to_vec();
    let stripes = encode_striped(&data, &cfg, &stripe);
    let reconstructed: Vec<Vec<Option<Shard>>> =
        stripes.iter().map(|ss| ss.iter().map(|s| Some(s.clone())).collect()).collect();
    let decoded = decode_striped(reconstructed, &cfg, data.len()).unwrap();
    assert_eq!(decoded, data);
}

#[test]
fn every_stripe_has_full_shards() {
    let cfg = ErasureConfig { k: 3, m: 2 };
    let stripe = StripeConfig::for_shard_limit(2, 3);
    let stripes = encode_striped(b"abcdefgh", &cfg, &stripe);
    assert_eq!(stripes.len(), 2);
    assert_eq!(stripes[0][2].data, b"ef".to_vec());
    assert_eq!(stripes[1][0].data, b"gh".to_vec());
    assert_eq!(stripes[1][1].data, b"\0\0".to_vec());
    assert_eq!(stripes[1].len(), 5);
    assert!(stripes.iter().flatten().all(|s| s.data.len() == 2));
}

#[test]
fn no_data_has_no_stripes() {
    let cfg = ErasureConfig { k: 0, m: 0 };
    let stripe = StripeConfig { stripe_size: 4 };
    assert!(encode_striped(b"", &cfg, &stripe).is_empty());
}

#[test]
fn stripes_survive_losses() {
    let cfg = ErasureConfig { k: 3, m: 2 };
    let stripe = StripeConfig::for_shard_limit(2, 3);
    let data = b"abcdefgh".to_vec();
    let stripes = encode_striped(&data, &cfg, &stripe);
    let mut kept: Vec<Vec<Option<Shard>>> =
        stripes.iter().map(|ss| ss.iter().map(|s| Some(s.clone())).collect()).collect();
    kept[0][0] = None;
    kept[0][4] = None;
    kept[1][1] = None;
    kept[1][2] = None;
    assert_eq!(decode_striped(kept, &cfg, data.len()).unwrap(), data);
}

fn through_stripes(data: &[u8], cfg: &ErasureConfig, stripe_size: usize) -> Vec<u8> {
    let stripes = encode_striped(data, cfg, &StripeConfig { stripe_size });
    let kept: Vec<Vec<Option<Shard>>> =
        stripes.into_iter().map(|ss| ss.into_iter().map(Some).collect()).collect();
    decode_striped(kept, cfg, data.len()).unwrap()
}

#[test]
fn zeros_survive_stripes() {
    let cfg = ErasureConfig { k: 2, m: 1 };
    // The first stripe ends in a zero.
    assert_eq!(through_stripes(&[1, 0, 2], &cfg, 2), vec![1, 0, 2]);
    // So does the last one.
    assert_eq!(through_stripes(&[1, 2, 3, 0], &cfg, 2), vec![1, 2, 3, 0]);
    assert_eq!(through_stripes(&[0; 9], &cfg, 4), vec![0; 9]);
    let cfg = ErasureConfig { k: 3, m: 0 };
    assert_eq!(through_stripes(&[7, 0, 0, 0, 0, 0, 0, 8], &cfg, 3), vec![7, 0, 0, 0, 0, 0, 0, 8]);
}

/// One stripe of two data shards and a lost parity shard.
fn stripe_of_two(a: &[u8], b: &[u8]) -> Vec<Option<Shard>> {
    vec![
        Some(Shard { index: 0, data: a.to_vec() }),
        Some(Shard { index: 1, data: b.to_vec() }),
        None,
    ]
}

#[test]
fn stripes_of_no_payload_of_the_length_are_stripped() {
    let cfg = ErasureConfig { k: 2, m: 1 };
    let decoded = |stripes, len| decode_striped(stripes, &cfg, len).unwrap();
    // The stripes hold fewer bytes than asked for.
    assert_eq!(decoded(vec![stripe_of_two(&[1], &[0])], 5), vec![1]);
    // They hold a stripe too many for the length.
    assert_eq!(decoded(vec![stripe_of_two(&[1], &[0]), stripe_of_two(&[0], &[0])], 2), vec![1]);
    // They differ in length.
    assert_eq!(
        decoded(vec![stripe_of_two(&[1], &[0]), stripe_of_two(&[2, 3], &[4, 0])], 6),
        vec![1, 2, 3, 4]
    );
    // They are those of a payload of the length.
    assert_eq!(decoded(vec![stripe_of_two(&[1], &[0])], 2), vec![1, 0]);
    assert_eq!(decoded(vec![stripe_of_two(&[1], &[0])], 1), vec![1]);
    assert_eq!(decoded(vec![], 3), Vec::<u8>::new());
}

#[test]
fn stripes_do_not_tell_their_size() {
    // Padding to whole shards makes the same stripes of two payloads of one length.
    // What comes back is the one in stripes of a size that `k` divides.
    let cfg = ErasureConfig { k: 2, m: 1 };
    let bytes = |data: &[u8], stripe_size| -> Vec<Vec<Vec<u8>>> {
        encode_striped(data, &cfg, &StripeConfig { stripe_size })
            .into_iter()
            .map(|ss| ss.into_iter().map(|s| s.data).collect())
            .collect()
    };
    assert_eq!(bytes(&[1, 2, 3, 4, 0], 3), bytes(&[1, 2, 3, 0, 4], 4));
    assert_eq!(through_stripes(&[1, 2, 3, 0, 4], &cfg, 4), vec![1, 2, 3, 0, 4]);
}

#[test]
fn padded_stripes_are_stripped() {
    let cfg = ErasureConfig { k: 2, m: 1 };
    // Stripes of 3 bytes fill shards of 2 bytes each.
    assert_eq!(through_stripes(&[1, 2, 3, 4, 5], &cfg, 3), vec![1, 2, 3, 4, 5]);
    assert_eq!(through_stripes(&[1, 0, 3], &cfg, 3), vec![1, 0, 3]);
}

#[test]
fn encode_striped_large_payload() {
    let cfg = ErasureConfig { k: 3, m: 2 };
    let stripe = StripeConfig::for_shard_limit(512, 3);
    let data: Vec<u8> = (0u8..=127).cycle().take(100_000).collect();
    let stripes = encode_striped(&data, &cfg, &stripe);
    let reconstructed: Vec<Vec<Option<Shard>>> =
        stripes.iter().map(|ss| ss.iter().map(|s| Some(s.clone())).collect()).collect();
    let decoded = decode_striped(reconstructed, &cfg, data.len()).unwrap();
    assert_eq!(decoded, data);
}
