use std::hash::Hash;

use fuzzy_search::corpus::is_whitespace;
use fuzzy_search::simhash::{
    chars_of, encode, features, hamming_distance, hash_feature, signature_from_hashes, simhash,
    simhash_chars, simhash_iter, Feature,
};
use itertools::Itertools;
use siphasher::sip128::{Hasher128, SipHasher};

#[derive(Hash)]
enum Marker {
    Start(char),
    Middle(char, char),
    End(char),
}

/// The signature computed by feeding each marker to a streaming hasher.
fn streamed_signature(key: u128, word: &str) -> u128 {
    let mut markers: Vec<Marker> = Vec::new();
    for (x, y) in word.chars().tuple_windows::<(char, char)>() {
        markers.push(Marker::Middle(x, y));
    }
    if let Some(c) = word.chars().next() {
        markers.push(Marker::Start(c));
    }
    if let Some(c) = word.chars().last() {
        markers.push(Marker::End(c));
    }
    let mut state = [0i32; 128];
    for marker in markers {
        let mut hasher = SipHasher::new_with_keys((key >> 64) as u64, key as u64);
        marker.hash(&mut hasher);
        let hash = u128::from_le_bytes(hasher.finish128().as_bytes());
        for i in 0..128 {
            if (hash >> i) & 1 == 1 {
                state[i] = state[i].saturating_add(1);
            } else {
                state[i] = state[i].saturating_sub(1);
            }
        }
    }
    let mut sig = 0u128;
    for i in 0..128 {
        if state[i] > 0 {
            sig |= 1u128 << i;
        }
    }
    sig
}

#[test]
fn test_simhash_english() {
    let key = 0x42;

    let hash = simhash(key, "hello");
    let hash2 = simhash(key, "hallo");
    println!("{:?}", hamming_distance(hash, hash2));
    assert!(hamming_distance(hash, hash2) <= 32);

    let hash2 = simhash(key, "simhash");
    assert!(hamming_distance(hash, hash2) > 32);
}

#[test]
fn signature_agrees_with_streaming_hasher() {
    let keys: [u128; 4] = [0, 0x42, u128::MAX, 0x0123_4567_89ab_cdef_fedc_ba98_7654_3210];
    let words = ["a", "ab", "hello", "hallo", "simhash", "Tokio", "tokio", "asyncio", "héllo", "日本語"];
    for key in keys {
        for word in words {
            assert_eq!(simhash(key, word), streamed_signature(key, word), "{key:#x} {word}");
        }
    }
}

#[test]
fn signature_is_deterministic() {
    for key in [0u128, 1, 0x42, u128::MAX] {
        for word in ["x", "hello", "Tokio", "zero-cost"] {
            assert_eq!(simhash(key, word), simhash(key, word));
            assert_eq!(simhash(key, word), simhash_chars(key, &chars_of(word)));
        }
    }
}

#[test]
fn signature_of_empty_word_is_zero() {
    assert_eq!(simhash(0x42, ""), 0);
    assert_eq!(simhash_iter(0x42, &Vec::new()), 0);
}

#[test]
fn features_of_a_word() {
    let feats = features(&vec!['a', 'b', 'c']);
    assert_eq!(format!("{:?}", feats), "[Start(97), Middle(97, 98), Middle(98, 99), End(99)]");
    let feats = features(&vec!['x']);
    assert_eq!(format!("{:?}", feats), "[Start(120), End(120)]");
    let feats = features(&Vec::new());
    assert!(feats.is_empty());
}

#[test]
fn feature_encoding_bytes() {
    assert_eq!(encode(Feature::Start('a' as u32)), vec![0, 0, 0, 0, 0, 0, 0, 0, 0x61, 0, 0, 0]);
    assert_eq!(
        encode(Feature::Middle('a' as u32, '日' as u32)),
        vec![1, 0, 0, 0, 0, 0, 0, 0, 0x61, 0, 0, 0, 0xe5, 0x65, 0, 0]
    );
    assert_eq!(
        encode(Feature::End(0x10ffff)),
        vec![2, 0, 0, 0, 0, 0, 0, 0, 0xff, 0xff, 0x10, 0]
    );
}

#[test]
fn feature_hash_is_the_keyed_digest() {
    let key: u128 = 0x0123_4567_89ab_cdef_fedc_ba98_7654_3210;
    let feature = Feature::Middle('o' as u32, 'k' as u32);
    let digest = SipHasher::new_with_keys(0x0123_4567_89ab_cdef, 0xfedc_ba98_7654_3210)
        .hash(&[1, 0, 0, 0, 0, 0, 0, 0, 0x6f, 0, 0, 0, 0x6b, 0, 0, 0]);
    let expected = (digest.h1 as u128) | ((digest.h2 as u128) << 64);
    assert_eq!(hash_feature(key, feature), expected);
    assert_ne!(hash_feature(key, feature), hash_feature(key ^ 1, feature));
    assert_ne!(hash_feature(key, feature), hash_feature(key ^ (1 << 64), feature));
    assert_ne!(hash_feature(key, feature), hash_feature(key, Feature::Middle('k' as u32, 'o' as u32)));
}

#[test]
fn votes_set_the_bits_with_a_positive_count() {
    assert_eq!(signature_from_hashes(&Vec::new()), 0);
    assert_eq!(signature_from_hashes(&vec![0b1]), 0b1);
    assert_eq!(signature_from_hashes(&vec![0b11, 0b01, 0b00]), 0b01);
    assert_eq!(signature_from_hashes(&vec![u128::MAX]), u128::MAX);
    assert_eq!(signature_from_hashes(&vec![1u128 << 127, 1u128 << 127, 0]), 1u128 << 127);
}

#[test]
fn a_tied_vote_leaves_the_bit_clear() {
    assert_eq!(signature_from_hashes(&vec![0b1, 0b0]), 0);
    assert_eq!(signature_from_hashes(&vec![u128::MAX, 0]), 0);
    assert_eq!(signature_from_hashes(&vec![0b10, 0b01]), 0);
}

#[test]
fn hamming_distance_counts_differing_bits() {
    assert_eq!(hamming_distance(0, 0), 0);
    assert_eq!(hamming_distance(5, 3), 2);
    assert_eq!(hamming_distance(0, u128::MAX), 128);
    assert_eq!(hamming_distance(1u128 << 127, 1), 2);
    assert_eq!(hamming_distance(0x42, 0x42), 0);
}

#[test]
fn white_space_is_the_unicode_property() {
    for x in 0..=0x10ffffu32 {
        if let Some(c) = char::from_u32(x) {
            assert_eq!(is_whitespace(c), c.is_whitespace(), "{x:#x}");
        }
    }
}

#[test]
fn signatures_under_different_keys_are_unrelated() {
    let words = ["hello", "Tokio", "runtime", "asynchronous", "bare-metal", "x", "backpressure"];
    let mut total: u64 = 0;
    let mut count: u64 = 0;
    for _ in 0..100 {
        let k1: u128 = rand::random();
        let k2: u128 = rand::random();
        if k1 == k2 {
            continue;
        }
        for word in words {
            total += hamming_distance(simhash(k1, word), simhash(k2, word)) as u64;
            count += 1;
        }
    }
    let mean = total / count;
    assert!(56 <= mean && mean <= 72, "{mean}");
}

#[test]
fn order_of_the_votes_does_not_matter() {
    let a: Vec<u128> = vec![0b1011, 0b0110, 0b1110, 0b0001, 0b1000];
    let mut b = a.clone();
    b.reverse();
    let mut c = a.clone();
    c.swap(0, 3);
    c.swap(1, 4);
    assert_eq!(signature_from_hashes(&a), 0b1010);
    assert_eq!(signature_from_hashes(&b), 0b1010);
    assert_eq!(signature_from_hashes(&c), 0b1010);
}

#[test]
fn signature_does_not_depend_on_feature_order() {
    let key = 0x42;
    let mut feats = features(&chars_of("backpressure"));
    let forward = simhash_iter(key, &feats);
    feats.reverse();
    assert_eq!(simhash_iter(key, &feats), forward);
    assert_eq!(simhash(key, "backpressure"), forward);
}
