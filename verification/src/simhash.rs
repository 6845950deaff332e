//! The signature engine: a word is cut into features, each feature is hashed
//! under the secret key, and the hashes vote bit by bit on a 128-bit signature.

use itertools::Itertools;
use siphasher::sip128::SipHasher;
use vstd::arithmetic::power2::{lemma2_to64, lemma2_to64_rest, lemma_pow2_adds, lemma_pow2_unfold, pow2};
use vstd::prelude::*;

verus! {

/// One token cut from a word's characters. A character is held as its
/// Unicode scalar value.
#[derive(Clone, Copy, Debug)]
pub enum Feature {
    /// The first character of the word.
    Start(u32),
    /// Two neighbouring characters of the word.
    Middle(u32, u32),
    /// The last character of the word.
    End(u32),
}

/// The 128-bit SipHash-2-4 digest of `msg` under the key halves `k0` and `k1`,
/// as its two 64-bit halves.
pub uninterp spec fn sip128(k0: u64, k1: u64, msg: Seq<u8>) -> (u64, u64);

/// The neighbouring pairs of `chars`, from left to right.
pub open spec fn windows(chars: Seq<char>) -> Seq<(char, char)> {
    Seq::new(
        if chars.len() == 0 { 0 } else { (chars.len() - 1) as nat },
        |i: int| (chars[i], chars[i + 1]),
    )
}

/// The features of a word: its start marker, one middle marker for each pair
/// of neighbours, and its end marker. The empty word has none, and a word of
/// one character has no middle marker.
pub open spec fn features_of(word: Seq<char>) -> Seq<Feature> {
    if word.len() == 0 {
        Seq::empty()
    } else {
        Seq::new(
            word.len() + 1,
            |i: int|
                if i == 0 {
                    Feature::Start(word.first() as u32)
                } else if i < word.len() {
                    Feature::Middle(word[i - 1] as u32, word[i] as u32)
                } else {
                    Feature::End(word.last() as u32)
                },
        )
    }
}

/// The four bytes of `x`, lowest first.
pub open spec fn quad_bytes(x: u32) -> Seq<u8> {
    seq![
        (x & 0xff) as u8,
        ((x >> 8) & 0xff) as u8,
        ((x >> 16) & 0xff) as u8,
        ((x >> 24) & 0xff) as u8,
    ]
}

/// The eight bytes that open a feature's encoding and tell its shape.
pub open spec fn tag_bytes(tag: u8) -> Seq<u8> {
    seq![tag, 0u8, 0u8, 0u8, 0u8, 0u8, 0u8, 0u8]
}

/// The bytes that are hashed for a feature: its tag, then each of its
/// characters as a 32-bit little-endian scalar value. On a 64-bit
/// little-endian machine these are the bytes that a derived `Hash` impl of an
/// enum with these three variants over `char` feeds its hasher.
pub open spec fn encoding(f: Feature) -> Seq<u8> {
    match f {
        Feature::Start(c) => tag_bytes(0) + quad_bytes(c),
        Feature::Middle(a, b) => tag_bytes(1) + quad_bytes(a) + quad_bytes(b),
        Feature::End(c) => tag_bytes(2) + quad_bytes(c),
    }
}

/// The upper half of the key, which seeds the hash first.
pub open spec fn key_high(key: u128) -> u64 {
    (key >> 64) as u64
}

/// The lower half of the key, which seeds the hash second.
pub open spec fn key_low(key: u128) -> u64 {
    (key & 0xffff_ffff_ffff_ffff) as u64
}

/// The 128-bit value whose low half is `h1` and whose high half is `h2`.
pub open spec fn join_halves(h1: u64, h2: u64) -> u128 {
    (h1 as u128) | ((h2 as u128) << 64)
}

/// The keyed 128-bit hash of one feature.
pub open spec fn feature_hash(key: u128, f: Feature) -> u128 {
    let h = sip128(key_high(key), key_low(key), encoding(f));
    join_halves(h.0, h.1)
}

/// Whether bit `i` of `h` is set.
pub open spec fn bit_of(h: u128, i: nat) -> bool {
    (h >> (i as u128)) & 1 == 1
}

/// The vote count of channel `i` after the hashes have voted in order: a set
/// bit adds one, a clear bit takes one away, and the count stays within the
/// bounds of a signed 32-bit integer.
pub open spec fn tally(hashes: Seq<u128>, i: nat) -> int
    decreases hashes.len(),
{
    if hashes.len() == 0 {
        0
    } else {
        let before = tally(hashes.drop_last(), i);
        if bit_of(hashes.last(), i) {
            if before < i32::MAX { before + 1 } else { before }
        } else {
            if before > i32::MIN { before - 1 } else { before }
        }
    }
}

/// The value whose bits below `n` are set where the channel's count is
/// strictly positive, and whose other bits are clear.
pub open spec fn pack(hashes: Seq<u128>, n: nat) -> u128
    decreases n,
{
    if n == 0 {
        0
    } else {
        let low = pack(hashes, (n - 1) as nat);
        if tally(hashes, (n - 1) as nat) > 0 {
            low | (1u128 << ((n - 1) as u128))
        } else {
            low
        }
    }
}

/// The signature that a sequence of feature hashes votes for. A channel whose
/// count ends at zero leaves its bit clear.
pub open spec fn signature_of(hashes: Seq<u128>) -> u128 {
    pack(hashes, 128)
}

/// The signature of a sequence of features under a key.
pub open spec fn spec_simhash_iter(key: u128, features: Seq<Feature>) -> u128 {
    signature_of(features.map_values(|f: Feature| feature_hash(key, f)))
}

/// The signature of a word under a key.
pub open spec fn spec_simhash(key: u128, word: Seq<char>) -> u128 {
    spec_simhash_iter(key, features_of(word))
}

/// Calls `SipHasher::new_with_keys` and `SipHasher::hash` of the crate
/// `siphasher`: the digest of `msg` under the two key halves. The digest is a
/// function of the key and the message alone; nothing else is claimed of it.
#[verifier::external_body]
fn sip_digest(k0: u64, k1: u64, msg: &Vec<u8>) -> (h: (u64, u64))
    ensures
        h == sip128(k0, k1, msg@),
{
    let digest = SipHasher::new_with_keys(k0, k1).hash(msg.as_slice());
    (digest.h1, digest.h2)
}

/// Calls `Itertools::tuple_windows` of the crate `itertools` on the
/// characters: every pair of neighbours, in order; none where there are
/// fewer than two characters.
#[verifier::external_body]
fn char_windows(chars: &Vec<char>) -> (pairs: Vec<(char, char)>)
    ensures
        pairs@ == windows(chars@),
{
    chars.iter().copied().tuple_windows::<(char, char)>().collect()
}

fn push_quad(out: &mut Vec<u8>, x: u32)
    ensures
        final(out)@ == old(out)@ + quad_bytes(x),
{
    assert((x & 0xff) <= 0xff && ((x >> 8) & 0xff) <= 0xff && ((x >> 16) & 0xff) <= 0xff && ((x
        >> 24) & 0xff) <= 0xff) by (bit_vector);
    out.push((x & 0xff) as u8);
    out.push(((x >> 8) & 0xff) as u8);
    out.push(((x >> 16) & 0xff) as u8);
    out.push(((x >> 24) & 0xff) as u8);
    assert(final(out)@ =~= old(out)@ + quad_bytes(x));
}

fn tagged(tag: u8) -> (out: Vec<u8>)
    ensures
        out@ == tag_bytes(tag),
{
    let mut out: Vec<u8> = Vec::new();
    out.push(tag);
    let mut n: usize = 1;
    while n < 8
        invariant
            1 <= n <= 8,
            out.len() == n,
            out[0] == tag,
            forall|k: int| 1 <= k < n ==> out[k] == 0u8,
        decreases 8 - n,
    {
        out.push(0u8);
        n += 1;
    }
    assert(out@ =~= tag_bytes(tag));
    out
}

/// The bytes that stand for a feature when it is hashed.
pub fn encode(f: Feature) -> (out: Vec<u8>)
    ensures
        out@ == encoding(f),
{
    match f {
        Feature::Start(c) => {
            let mut out = tagged(0);
            push_quad(&mut out, c);
            out
        },
        Feature::Middle(a, b) => {
            let mut out = tagged(1);
            push_quad(&mut out, a);
            push_quad(&mut out, b);
            out
        },
        Feature::End(c) => {
            let mut out = tagged(2);
            push_quad(&mut out, c);
            out
        },
    }
}

/// The keyed hash of one feature: the key is split into its two halves, the
/// feature is encoded, and the digest's halves are joined again.
pub fn hash_feature(key: u128, f: Feature) -> (h: u128)
    ensures
        h == feature_hash(key, f),
{
    assert((key >> 64) <= 0xffff_ffff_ffff_ffffu128 && (key & 0xffff_ffff_ffff_ffff)
        <= 0xffff_ffff_ffff_ffffu128) by (bit_vector);
    let k0: u64 = (key >> 64) as u64;
    let k1: u64 = (key & 0xffff_ffff_ffff_ffff) as u64;
    let msg = encode(f);
    let (h1, h2) = sip_digest(k0, k1, &msg);
    (h1 as u128) | ((h2 as u128) << 64)
}

/// Setting bit `i` changes that bit and no other.
proof fn lemma_set_bit(low: u128, i: u128, j: u128)
    requires
        i < 128,
        j < 128,
    ensures
        ((low | (1u128 << i)) >> j) & 1 == 1 <==> (i == j || (low >> j) & 1 == 1),
{
    assert(i < 128 && j < 128 ==> (((low | (1u128 << i)) >> j) & 1 == 1 <==> (i == j || (low >> j)
        & 1 == 1))) by (bit_vector);
}

/// Bit `i` of a signature is set exactly where channel `i` ends with a
/// strictly positive count.
pub proof fn lemma_signature_bits(hashes: Seq<u128>, i: nat)
    requires
        i < 128,
    ensures
        bit_of(signature_of(hashes), i) <==> tally(hashes, i) > 0,
{
    lemma_pack_bits(hashes, 128, i);
}

proof fn lemma_pack_bits(hashes: Seq<u128>, n: nat, i: nat)
    requires
        n <= 128,
        i < 128,
    ensures
        bit_of(pack(hashes, n), i) <==> (i < n && tally(hashes, i) > 0),
    decreases n,
{
    let j: u128 = i as u128;
    if n == 0 {
        assert((0u128 >> j) & 1 == 0) by (bit_vector);
    } else {
        lemma_pack_bits(hashes, (n - 1) as nat, i);
        if tally(hashes, (n - 1) as nat) > 0 {
            lemma_set_bit(pack(hashes, (n - 1) as nat), (n - 1) as u128, j);
        }
    }
}

/// Where nothing votes, no bit is set: the signature of no features, and so
/// of the empty word, is zero.
pub proof fn lemma_no_votes(key: u128)
    ensures
        signature_of(Seq::<u128>::empty()) == 0,
        spec_simhash(key, Seq::<char>::empty()) == 0,
{
    lemma_pack_empty(128);
    assert(features_of(Seq::<char>::empty()).map_values(|f: Feature| feature_hash(key, f))
        =~= Seq::<u128>::empty());
}

proof fn lemma_pack_empty(n: nat)
    ensures
        pack(Seq::<u128>::empty(), n) == 0,
    decreases n,
{
    if n > 0 {
        lemma_pack_empty((n - 1) as nat);
    }
}

/// The number of hashes that have bit `i` set.
pub open spec fn votes_for(hashes: Seq<u128>, i: nat) -> nat
    decreases hashes.len(),
{
    if hashes.len() == 0 {
        0
    } else {
        votes_for(hashes.drop_last(), i) + if bit_of(hashes.last(), i) { 1nat } else { 0nat }
    }
}

/// While there are too few hashes for a count to reach its bounds, the count
/// of a channel is the number of hashes with the bit set less the number of
/// those with the bit clear.
pub proof fn lemma_tally_is_margin(hashes: Seq<u128>, i: nat)
    requires
        hashes.len() <= i32::MAX,
    ensures
        votes_for(hashes, i) <= hashes.len(),
        tally(hashes, i) == 2 * votes_for(hashes, i) - hashes.len(),
    decreases hashes.len(),
{
    if hashes.len() > 0 {
        lemma_tally_is_margin(hashes.drop_last(), i);
    }
}

/// While there are too few hashes for a count to reach its bounds, a bit of
/// the signature is set exactly where more than half of the hashes have it
/// set, so the order of the hashes does not matter.
pub proof fn lemma_signature_is_majority(hashes: Seq<u128>, i: nat)
    requires
        i < 128,
        hashes.len() <= i32::MAX,
    ensures
        bit_of(signature_of(hashes), i) <==> 2 * votes_for(hashes, i) > hashes.len(),
{
    lemma_signature_bits(hashes, i);
    lemma_tally_is_margin(hashes, i);
}

/// The votes of two runs of hashes add up.
pub proof fn lemma_votes_concat(a: Seq<u128>, b: Seq<u128>, i: nat)
    ensures
        votes_for(a + b, i) == votes_for(a, i) + votes_for(b, i),
    decreases b.len(),
{
    if b.len() == 0 {
        assert(a + b =~= a);
    } else {
        assert((a + b).drop_last() =~= a + b.drop_last());
        assert((a + b).last() == b.last());
        lemma_votes_concat(a, b.drop_last(), i);
    }
}

/// The votes do not depend on the order of the hashes.
pub proof fn lemma_votes_permuted(a: Seq<u128>, b: Seq<u128>, i: nat)
    requires
        a.to_multiset() == b.to_multiset(),
    ensures
        votes_for(a, i) == votes_for(b, i),
    decreases a.len(),
{
    a.to_multiset_ensures();
    b.to_multiset_ensures();
    if a.len() == 0 {
        assert(b.len() == 0);
    } else {
        let x = a.last();
        assert(a.contains(x));
        assert(a.to_multiset().count(x) > 0);
        assert(b.to_multiset().count(x) > 0);
        assert(b.contains(x));
        let k = choose|k: int| 0 <= k < b.len() && b[k] == x;
        let front = b.subrange(0, k);
        let back = b.subrange(k + 1, b.len() as int);
        let rest = b.remove(k);
        assert(rest =~= front + back);
        assert(b =~= (front + seq![x]) + back);
        assert(a.drop_last().push(x) =~= a);
        a.drop_last().to_multiset_ensures();
        assert(a.drop_last().to_multiset() =~= a.to_multiset().remove(x));
        assert(rest.to_multiset() == b.to_multiset().remove(x));
        lemma_votes_permuted(a.drop_last(), rest, i);
        lemma_votes_concat(front, back, i);
        lemma_votes_concat(front + seq![x], back, i);
        lemma_votes_concat(front, seq![x], i);
        assert(seq![x].drop_last() =~= Seq::<u128>::empty());
        assert(votes_for(seq![x].drop_last(), i) == 0);
        assert(votes_for(seq![x], i) == if bit_of(x, i) { 1nat } else { 0nat });
    }
}

/// While there are too few hashes for a count to reach its bounds, the bits
/// of the signature do not depend on the order in which the hashes vote.
pub proof fn lemma_order_does_not_matter(a: Seq<u128>, b: Seq<u128>, i: nat)
    requires
        i < 128,
        a.len() <= i32::MAX,
        a.to_multiset() == b.to_multiset(),
    ensures
        bit_of(signature_of(a), i) == bit_of(signature_of(b), i),
{
    a.to_multiset_ensures();
    b.to_multiset_ensures();
    lemma_votes_permuted(a, b, i);
    lemma_signature_is_majority(a, i);
    lemma_signature_is_majority(b, i);
}

/// The signature that the hashes vote for: each hash adds one to the count of
/// every channel whose bit it has set and takes one from every other, with
/// saturation, and the channels that end above zero give the set bits.
pub fn signature_from_hashes(hashes: &Vec<u128>) -> (sig: u128)
    ensures
        sig == signature_of(hashes@),
        forall|i: nat| i < 128 ==> (bit_of(sig, i) <==> tally(hashes@, i) > 0),
{
    let mut state: Vec<i32> = Vec::new();
    let mut i: usize = 0;
    while i < 128
        invariant
            i <= 128,
            state.len() == i,
            forall|k: int| 0 <= k < i ==> state[k] == 0,
        decreases 128 - i,
    {
        state.push(0i32);
        i += 1;
    }
    let mut n: usize = 0;
    assert(hashes@.take(0).len() == 0);
    while n < hashes.len()
        invariant
            n <= hashes.len(),
            state.len() == 128,
            forall|k: int| 0 <= k < 128 ==> state[k] == tally(hashes@.take(n as int), k as nat),
        decreases hashes.len() - n,
    {
        let hash: u128 = hashes[n];
        proof {
            assert(hashes@.take(n + 1).drop_last() =~= hashes@.take(n as int));
            assert(hashes@.take(n + 1).last() == hash);
        }
        let mut i: usize = 0;
        while i < 128
            invariant
                i <= 128,
                n < hashes.len(),
                state.len() == 128,
                hashes@.take(n + 1).drop_last() == hashes@.take(n as int),
                hashes@.take(n + 1).last() == hash,
                forall|k: int|
                    0 <= k < i ==> state[k] == tally(hashes@.take(n + 1), k as nat),
                forall|k: int|
                    i <= k < 128 ==> state[k] == tally(hashes@.take(n as int), k as nat),
            decreases 128 - i,
        {
            let shift: u128 = i as u128;
            let old_count: i32 = state[i];
            let new_count: i32 = if (hash >> shift) & 1 == 1 {
                if old_count < i32::MAX { old_count + 1 } else { old_count }
            } else {
                if old_count > i32::MIN { old_count - 1 } else { old_count }
            };
            state.set(i, new_count);
            i += 1;
        }
        n += 1;
    }
    assert(hashes@.take(n as int) =~= hashes@);
    let mut sig: u128 = 0;
    let mut i: usize = 0;
    while i < 128
        invariant
            i <= 128,
            state.len() == 128,
            forall|k: int| 0 <= k < 128 ==> state[k] == tally(hashes@, k as nat),
            sig == pack(hashes@, i as nat),
        decreases 128 - i,
    {
        if state[i] > 0 {
            let shift: u128 = i as u128;
            sig = sig | (1u128 << shift);
        }
        i += 1;
    }
    proof {
        assert forall|i: nat| i < 128 implies (bit_of(sig, i) <==> tally(hashes@, i) > 0) by {
            lemma_signature_bits(hashes@, i);
        }
    }
    sig
}

/// The signature of a sequence of features under a key: every feature is
/// hashed under the key, and the hashes vote.
pub fn simhash_iter(key: u128, features: &Vec<Feature>) -> (sig: u128)
    ensures
        sig == spec_simhash_iter(key, features@),
{
    let mut hashes: Vec<u128> = Vec::new();
    let mut n: usize = 0;
    while n < features.len()
        invariant
            n <= features.len(),
            hashes.len() == n,
            forall|k: int| 0 <= k < n ==> hashes[k] == feature_hash(key, features[k]),
        decreases features.len() - n,
    {
        hashes.push(hash_feature(key, features[n]));
        n += 1;
    }
    assert(hashes@ =~= features@.map_values(|f: Feature| feature_hash(key, f)));
    signature_from_hashes(&hashes)
}

/// The features of a word, in order.
pub fn features(chars: &Vec<char>) -> (out: Vec<Feature>)
    ensures
        out@ == features_of(chars@),
{
    let mut feats: Vec<Feature> = Vec::new();
    if chars.len() > 0 {
        feats.push(Feature::Start(chars[0] as u32));
        let pairs = char_windows(chars);
        let mut n: usize = 0;
        while n < pairs.len()
            invariant
                n <= pairs.len(),
                pairs@ == windows(chars@),
                chars.len() > 0,
                feats@.len() == n + 1,
                feats@[0] == Feature::Start(chars@[0] as u32),
                forall|k: int|
                    1 <= k <= n ==> #[trigger] feats@[k] == Feature::Middle(
                        chars@[k - 1] as u32,
                        chars@[k] as u32,
                    ),
            decreases pairs.len() - n,
        {
            let p = pairs[n];
            feats.push(Feature::Middle(p.0 as u32, p.1 as u32));
            n += 1;
        }
        feats.push(Feature::End(chars[chars.len() - 1] as u32));
        assert(feats@.len() == chars@.len() + 1);
        assert forall|k: int| 0 <= k < feats@.len() implies feats@[k] == features_of(chars@)[k] by {
            if 1 <= k < chars@.len() {
                assert(feats@[k] == Feature::Middle(chars@[k - 1] as u32, chars@[k] as u32));
            }
        }
    }
    assert(feats@ =~= features_of(chars@));
    feats
}

/// The signature of a word given as its characters.
pub fn simhash_chars(key: u128, chars: &Vec<char>) -> (sig: u128)
    ensures
        sig == spec_simhash(key, chars@),
{
    let feats = features(chars);
    simhash_iter(key, &feats)
}

/// The characters of a string, in order.
pub fn chars_of(word: &str) -> (chars: Vec<char>)
    ensures
        chars@ == word@,
{
    let mut chars: Vec<char> = Vec::new();
    for c in it: word.chars()
        invariant
            it.seq() == word@,
            chars@ == it.seq().take(it.index() as int),
    {
        chars.push(c);
    }
    chars
}

/// The signature of a word under a key: the same key and the same word give
/// the same signature, whoever computes it and when.
pub fn simhash(key: u128, word: &str) -> (sig: u128)
    ensures
        sig == spec_simhash(key, word@),
{
    let chars = chars_of(word);
    simhash_chars(key, &chars)
}

/// The number of set bits of `x`.
pub open spec fn popcount(x: u128) -> nat
    decreases x,
{
    if x == 0 {
        0
    } else {
        (x % 2) as nat + popcount(x / 2)
    }
}

/// A value below the `k`-th power of two has at most `k` set bits.
proof fn lemma_popcount_below(x: u128, k: nat)
    requires
        x < pow2(k),
    ensures
        popcount(x) <= k,
    decreases x,
{
    if x != 0 {
        if k == 0 {
            lemma2_to64();
        } else {
            lemma_pow2_unfold(k);
            lemma_popcount_below(x / 2, (k - 1) as nat);
        }
    }
}

/// A 128-bit value has at most 128 set bits.
pub proof fn lemma_popcount_bound(x: u128)
    ensures
        popcount(x) <= 128,
{
    lemma2_to64_rest();
    lemma_pow2_adds(64, 64);
    assert(pow2(128) == 0x1_0000_0000_0000_0000 * 0x1_0000_0000_0000_0000);
    lemma_popcount_below(x, 128);
}

/// The number of bit positions at which `x` and `y` differ.
pub open spec fn hamming(x: u128, y: u128) -> nat {
    popcount(x ^ y)
}

/// `u128::count_ones` of std returns the number of ones in the binary
/// representation of its argument.
pub assume_specification[ u128::count_ones ](x: u128) -> (n: u32)
    ensures
        n == popcount(x),
;

/// The Hamming distance between two signatures.
pub fn hamming_distance(x: u128, y: u128) -> (d: u32)
    ensures
        d == hamming(x, y),
        d <= 128,
{
    proof {
        lemma_popcount_bound(x ^ y);
    }
    (x ^ y).count_ones()
}

/// A signature lies at distance zero from itself.
pub proof fn lemma_hamming_self(x: u128)
    ensures
        hamming(x, x) == 0,
{
    assert(x ^ x == 0) by (bit_vector);
}

} // verus!
