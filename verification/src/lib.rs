//! Privacy-preserving fuzzy keyword search: keyed similarity-preserving
//! signatures of words, an index from signatures to the lines that hold
//! them, and approximate lookup by Hamming distance.

pub mod corpus;
pub mod simhash;

use crate::corpus::{is_space, is_whitespace, is_word_at, lemma_word_start_unique, line_of};
use crate::simhash::{
    chars_of, hamming, hamming_distance, lemma_hamming_self, simhash, simhash_chars, spec_simhash,
};
use std::collections::{BTreeMap, HashSet};
use vstd::prelude::*;
use vstd::std_specs::iter::IteratorSpec;

verus! {

/// What an index holds: for each signature, the set of lines that hold a
/// word with that signature.
pub open spec fn index_model(index: BTreeMap<u128, HashSet<usize>>) -> Map<u128, Set<usize>> {
    Map::new(|s: u128| index@.contains_key(s), |s: u128| index@[s]@)
}

/// Whether an index lists line `doc` under signature `sig`.
pub open spec fn holds(index: BTreeMap<u128, HashSet<usize>>, sig: u128, doc: usize) -> bool {
    index@.contains_key(sig) && index@[sig]@.contains(doc)
}

/// Every signature of the index lists at least one line.
pub open spec fn no_empty_entry(index: BTreeMap<u128, HashSet<usize>>) -> bool {
    forall|s: u128| #[trigger] index@.contains_key(s) ==> exists|d: usize| holds(index, s, d)
}

/// The lines that an index lists under a signature: none where it does not
/// have the signature.
pub open spec fn listed(index: BTreeMap<u128, HashSet<usize>>, sig: u128) -> Set<usize> {
    if index@.contains_key(sig) {
        index@[sig]@
    } else {
        Set::empty()
    }
}

/// Lists line `doc` under signature `sig`, beside what is listed already.
pub fn add_posting(index: &mut BTreeMap<u128, HashSet<usize>>, sig: u128, doc: usize)
    ensures
        index_model(*final(index)) == index_model(*old(index)).insert(
            sig,
            listed(*old(index), sig).insert(doc),
        ),
        forall|s: u128, d: usize|
            holds(*final(index), s, d) <==> (holds(*old(index), s, d) || (s == sig && d == doc)),
        no_empty_entry(*old(index)) ==> no_empty_entry(*final(index)),
{
    let prior = index.remove(&sig);
    let mut docs = match prior {
        Some(docs) => docs,
        None => HashSet::new(),
    };
    docs.insert(doc);
    index.insert(sig, docs);
    assert(holds(*final(index), sig, doc));
    assert(index_model(*final(index)) =~= index_model(*old(index)).insert(
        sig,
        listed(*old(index), sig).insert(doc),
    ));
    assert(no_empty_entry(*old(index)) ==> no_empty_entry(*final(index))) by {
        if no_empty_entry(*old(index)) {
            assert forall|s: u128| #[trigger] final(index)@.contains_key(s) implies exists|
                d: usize,
            | holds(*final(index), s, d) by {
                if s != sig {
                    assert(old(index)@.contains_key(s));
                    let d = choose|d: usize| holds(*old(index), s, d);
                    assert(holds(*final(index), s, d));
                }
            }
        }
    }
}

/// Whether the corpus holds, on line `doc`, a word whose signature under
/// `key` is `sig`.
pub open spec fn posting(key: u128, text: Seq<char>, sig: u128, doc: usize) -> bool {
    exists|i: int, j: int|
        #[trigger] is_word_at(text, i, j) && spec_simhash(key, text.subrange(i, j)) == sig
            && line_of(text, i) == doc
}

/// The index of a corpus under a key: each signature that a word of the
/// corpus has, with the lines that hold such a word.
pub open spec fn corpus_index(key: u128, text: Seq<char>) -> Map<u128, Set<usize>> {
    Map::new(
        |s: u128| exists|d: usize| posting(key, text, s, d),
        |s: u128| Set::new(|d: usize| posting(key, text, s, d)),
    )
}

/// As `posting`, for the words that end before `bound`.
spec fn posting_before(key: u128, text: Seq<char>, bound: int, sig: u128, doc: usize) -> bool {
    exists|i: int, j: int|
        #[trigger] is_word_at(text, i, j) && j < bound && spec_simhash(key, text.subrange(i, j))
            == sig && line_of(text, i) == doc
}

/// No word ends at `pos` where the character before `pos` is white space or
/// missing, or the character at `pos` belongs to a word.
proof fn lemma_no_word_ends(key: u128, text: Seq<char>, pos: int)
    requires
        0 <= pos <= text.len(),
        (pos == 0 || is_space(text[pos - 1])) || (pos < text.len() && !is_space(text[pos])),
    ensures
        forall|s: u128, d: usize|
            posting_before(key, text, pos + 1, s, d) <==> posting_before(key, text, pos, s, d),
{
    assert forall|s: u128, d: usize| posting_before(key, text, pos + 1, s, d) implies posting_before(
        key,
        text,
        pos,
        s,
        d,
    ) by {
        let (i, j) = choose|i: int, j: int|
            #[trigger] is_word_at(text, i, j) && j < pos + 1 && spec_simhash(
                key,
                text.subrange(i, j),
            ) == s && line_of(text, i) == d;
        if j == pos {
            assert(!is_space(text[pos - 1]));
        }
        assert(is_word_at(text, i, j) && j < pos);
    }
}

/// Where a word ends at `pos`, the words that end up to `pos` are that word
/// and those that end before it.
proof fn lemma_word_ends(key: u128, text: Seq<char>, start: int, pos: int, sig: u128, doc: usize)
    requires
        is_word_at(text, start, pos),
        sig == spec_simhash(key, text.subrange(start, pos)),
        doc == line_of(text, start),
    ensures
        forall|s: u128, d: usize|
            posting_before(key, text, pos + 1, s, d) <==> (posting_before(key, text, pos, s, d) || (
            s == sig && d == doc)),
{
    assert forall|s: u128, d: usize| posting_before(key, text, pos + 1, s, d) implies (
    posting_before(key, text, pos, s, d) || (s == sig && d == doc)) by {
        let (i, j) = choose|i: int, j: int|
            #[trigger] is_word_at(text, i, j) && j < pos + 1 && spec_simhash(
                key,
                text.subrange(i, j),
            ) == s && line_of(text, i) == d;
        if j == pos {
            lemma_word_start_unique(text, i, start, pos);
        } else {
            assert(is_word_at(text, i, j) && j < pos);
        }
    }
    assert(is_word_at(text, start, pos) && pos < pos + 1);
    assert forall|s: u128, d: usize| posting_before(key, text, pos, s, d) implies posting_before(
        key,
        text,
        pos + 1,
        s,
        d,
    ) by {
        let (i, j) = choose|i: int, j: int|
            #[trigger] is_word_at(text, i, j) && j < pos && spec_simhash(
                key,
                text.subrange(i, j),
            ) == s && line_of(text, i) == d;
        assert(is_word_at(text, i, j) && j < pos + 1);
    }
}

/// The line number does not change inside a word.
proof fn lemma_line_in_word(text: Seq<char>, start: int, pos: int)
    requires
        0 <= start <= pos <= text.len(),
        forall|k: int| start <= k < pos ==> !is_space(#[trigger] text[k]),
    ensures
        line_of(text, pos) == line_of(text, start),
    decreases pos - start,
{
    if start < pos {
        assert(!is_space(text[pos - 1]));
        lemma_line_in_word(text, start, pos - 1);
    }
}

/// An index that lists what the corpus holds, and no signature without a
/// line, is the index of the corpus.
proof fn lemma_index_of_postings(index: BTreeMap<u128, HashSet<usize>>, key: u128, text: Seq<char>)
    requires
        no_empty_entry(index),
        forall|s: u128, d: usize|
            holds(index, s, d) <==> posting_before(key, text, text.len() as int + 1, s, d),
    ensures
        index_model(index) == corpus_index(key, text),
{
    assert forall|s: u128, d: usize| posting_before(key, text, text.len() as int + 1, s, d) == posting(
        key,
        text,
        s,
        d,
    ) by {
        if posting(key, text, s, d) {
            let (i, j) = choose|i: int, j: int|
                #[trigger] is_word_at(text, i, j) && spec_simhash(key, text.subrange(i, j)) == s
                    && line_of(text, i) == d;
            assert(is_word_at(text, i, j) && j < text.len() + 1);
        }
    }
    let a = index_model(index);
    let b = corpus_index(key, text);
    assert forall|s: u128| a.contains_key(s) == b.contains_key(s) by {
        if a.contains_key(s) {
            let d = choose|d: usize| holds(index, s, d);
            assert(posting(key, text, s, d));
        }
        if b.contains_key(s) {
            let d = choose|d: usize| posting(key, text, s, d);
            assert(holds(index, s, d));
        }
    }
    assert forall|s: u128| a.contains_key(s) implies a[s] =~= b[s] by {
        assert forall|d: usize| a[s].contains(d) == b[s].contains(d) by {
            assert(a[s].contains(d) == holds(index, s, d));
        }
    }
    assert(a =~= b);
}

/// Builds the index of a corpus under a key. Lines are numbered from zero in
/// the order in which they stand, blank lines included; each word, a maximal
/// run of characters that are not white space, is listed under its signature
/// with the number of its line.
pub fn build_index(hk: u128, messages: &str) -> (index: BTreeMap<u128, HashSet<usize>>)
    ensures
        index_model(index) == corpus_index(hk, messages@),
{
    let text = chars_of(messages);
    let n: usize = text.len();
    let mut index: BTreeMap<u128, HashSet<usize>> = BTreeMap::new();
    let mut word: Vec<char> = Vec::new();
    let mut start: usize = 0;
    let mut line: usize = 0;
    let mut pos: usize = 0;
    assert forall|s: u128, d: usize| !posting_before(hk, text@, 0, s, d) by {}
    while pos < n
        invariant
            n == text.len(),
            text@ == messages@,
            pos <= n,
            line <= pos,
            line == line_of(text@, pos as int),
            start <= pos,
            word@ == text@.subrange(start as int, pos as int),
            forall|k: int| start <= k < pos ==> !is_space(#[trigger] text@[k]),
            start == 0 || is_space(text@[start - 1]),
            no_empty_entry(index),
            forall|s: u128, d: usize|
                holds(index, s, d) <==> posting_before(hk, text@, pos as int, s, d),
        decreases n - pos,
    {
        let c = text[pos];
        if is_whitespace(c) {
            if word.len() > 0 {
                let sig: u128 = simhash_chars(hk, &word);
                proof {
                    lemma_line_in_word(text@, start as int, pos as int);
                    lemma_word_ends(hk, text@, start as int, pos as int, sig, line);
                }
                add_posting(&mut index, sig, line);
                word = Vec::new();
            } else {
                proof {
                    lemma_no_word_ends(hk, text@, pos as int);
                }
            }
            if c == '\n' {
                line = line + 1;
            }
            start = pos + 1;
            assert(text@.subrange(pos + 1, pos + 1) =~= Seq::<char>::empty());
        } else {
            proof {
                lemma_no_word_ends(hk, text@, pos as int);
                assert(text@.subrange(start as int, pos + 1) =~= text@.subrange(
                    start as int,
                    pos as int,
                ).push(c));
            }
            word.push(c);
        }
        pos = pos + 1;
    }
    if word.len() > 0 {
        let sig: u128 = simhash_chars(hk, &word);
        proof {
            lemma_line_in_word(text@, start as int, pos as int);
            lemma_word_ends(hk, text@, start as int, pos as int, sig, line);
        }
        add_posting(&mut index, sig, line);
    } else {
        proof {
            lemma_no_word_ends(hk, text@, pos as int);
        }
    }
    proof {
        lemma_index_of_postings(index, hk, text@);
    }
    index
}

/// The token with which a word is looked up: its signature under the key.
pub fn trapdoor(hk: u128, w: &str) -> (t: u128)
    ensures
        t == spec_simhash(hk, w@),
{
    simhash(hk, w)
}

/// Whether line `doc` is listed under a signature that lies within
/// `threshold` differing bits of the trapdoor `t`.
pub open spec fn matched(m: Map<u128, Set<usize>>, t: u128, threshold: u32, doc: usize) -> bool {
    exists|s: u128| #[trigger] m.contains_key(s) && hamming(s, t) <= threshold && m[s].contains(doc)
}

/// The lines that a lookup returns: those listed under any signature within
/// `threshold` differing bits of the trapdoor. A signature at exactly
/// `threshold` bits counts; one bit further does not.
pub open spec fn search_result(m: Map<u128, Set<usize>>, t: u128, threshold: u32) -> Set<usize> {
    Set::new(|d: usize| matched(m, t, threshold, d))
}

/// Adds the lines of `docs` to `found`.
fn add_all(found: &mut HashSet<usize>, docs: &HashSet<usize>)
    ensures
        final(found)@ == old(found)@.union(docs@),
{
    let ghost before = found@;
    for doc in it: docs.iter()
        invariant
            it.seq() == docs.iter().remaining(),
            it.seq().unref().to_set() == docs@,
            forall|d: usize| before.contains(d) ==> found@.contains(d),
            forall|k: int| 0 <= k < it.index() ==> found@.contains(*#[trigger] it.seq()[k]),
            forall|d: usize| found@.contains(d) ==> before.contains(d) || docs@.contains(d),
    {
        proof {
            let k = it.index();
            assert(it.seq().unref()[k] == *doc);
            assert(it.seq().unref().to_set().contains(*doc));
        }
        found.insert(*doc);
    }
    assert forall|d: usize| docs@.contains(d) implies found@.contains(d) by {
        let all = docs.iter().remaining();
        assert(all.unref().to_set().contains(d));
        let k = choose|k: int| 0 <= k < all.unref().len() && all.unref()[k] == d;
        assert(*all[k] == d);
    }
    assert(found@ =~= before.union(docs@));
}

/// Looks a trapdoor up in an index: the lines listed under any signature
/// that differs from the trapdoor in at most `threshold` bits.
pub fn search_within(map: &BTreeMap<u128, HashSet<usize>>, t: u128, threshold: u32) -> (found:
    HashSet<usize>)
    ensures
        found@ == search_result(index_model(*map), t, threshold),
{
    let mut found: HashSet<usize> = HashSet::new();
    for entry in it: map.iter()
        invariant
            it.seq() == map.iter().remaining(),
            forall|d: usize|
                found@.contains(d) <==> exists|k: int|
                    0 <= k < it.index() && hamming(*(#[trigger] it.seq()[k]).0, t) <= threshold
                        && (*it.seq()[k].1)@.contains(d),
    {
        let (sig, docs) = entry;
        if hamming_distance(*sig, t) <= threshold {
            add_all(&mut found, docs);
        }
    }
    assert forall|d: usize| found@.contains(d) == matched(index_model(*map), t, threshold, d) by {
        let all = map.iter().remaining();
        let m = index_model(*map);
        if found@.contains(d) {
            let k = choose|k: int|
                0 <= k < all.len() && hamming(*(#[trigger] all[k]).0, t) <= threshold && (
                *all[k].1)@.contains(d);
            assert(map@.contains_key(*all[k].0) && map@[*all[k].0] == *all[k].1);
            assert(m.contains_key(*all[k].0));
        }
        if matched(m, t, threshold, d) {
            let s = choose|s: u128| #[trigger]
                m.contains_key(s) && hamming(s, t) <= threshold && m[s].contains(d);
            assert(map@.contains_key(s));
            assert(all.contains((&s, &map@[s])));
            let k = choose|k: int| 0 <= k < all.len() && all[k] == (&s, &map@[s]);
            assert(hamming(*all[k].0, t) <= threshold && (*all[k].1)@.contains(d));
        }
    }
    assert(found@ =~= search_result(index_model(*map), t, threshold));
    found
}

/// Looks a trapdoor up in an index, allowing up to 32 of the 128 bits to
/// differ.
pub fn search(map: &BTreeMap<u128, HashSet<usize>>, t: u128) -> (found: HashSet<usize>)
    ensures
        found@ == search_result(index_model(*map), t, 32),
{
    search_within(map, t, 32)
}

/// A lookup with the trapdoor of a word returns every line on which the
/// word stands in the corpus, whatever the key and the threshold.
pub proof fn lemma_self_match(key: u128, text: Seq<char>, i: int, j: int, threshold: u32)
    requires
        is_word_at(text, i, j),
        text.len() <= usize::MAX,
    ensures
        search_result(
            corpus_index(key, text),
            spec_simhash(key, text.subrange(i, j)),
            threshold,
        ).contains(line_of(text, i) as usize),
{
    let sig = spec_simhash(key, text.subrange(i, j));
    lemma_line_bound(text, i);
    let doc = line_of(text, i) as usize;
    assert(posting(key, text, sig, doc));
    lemma_hamming_self(sig);
    assert(corpus_index(key, text).contains_key(sig));
}

/// A position lies on a line whose number is at most the position.
pub proof fn lemma_line_bound(text: Seq<char>, i: int)
    requires
        0 <= i,
    ensures
        line_of(text, i) <= i,
    decreases i,
{
    if i > 0 {
        lemma_line_bound(text, i - 1);
    }
}

/// A line listed under a signature that differs from the trapdoor in at most
/// `threshold` bits is returned: a distance equal to the threshold matches.
pub proof fn lemma_within_threshold(
    m: Map<u128, Set<usize>>,
    t: u128,
    threshold: u32,
    sig: u128,
    doc: usize,
)
    requires
        m.contains_key(sig),
        m[sig].contains(doc),
        hamming(sig, t) <= threshold,
    ensures
        search_result(m, t, threshold).contains(doc),
{
}

/// A line listed under the trapdoor itself is returned, whatever the
/// threshold.
pub proof fn lemma_exact_match(m: Map<u128, Set<usize>>, t: u128, threshold: u32, doc: usize)
    requires
        m.contains_key(t),
        m[t].contains(doc),
    ensures
        search_result(m, t, threshold).contains(doc),
{
    lemma_hamming_self(t);
}

/// A lookup returns only lines that the index lists.
pub proof fn lemma_result_is_listed(m: Map<u128, Set<usize>>, t: u128, threshold: u32, doc: usize)
    requires
        search_result(m, t, threshold).contains(doc),
    ensures
        exists|s: u128| #[trigger] m.contains_key(s) && m[s].contains(doc),
{
    let s = choose|s: u128| #[trigger]
        m.contains_key(s) && hamming(s, t) <= threshold && m[s].contains(doc);
    assert(m.contains_key(s) && m[s].contains(doc));
}

/// A line is not returned where every signature that lists it differs from
/// the trapdoor in more than `threshold` bits: one bit beyond the threshold
/// does not match.
pub proof fn lemma_beyond_threshold(m: Map<u128, Set<usize>>, t: u128, threshold: u32, doc: usize)
    requires
        forall|s: u128| #[trigger] m.contains_key(s) && m[s].contains(doc) ==> hamming(s, t) > threshold,
    ensures
        !search_result(m, t, threshold).contains(doc),
{
}

/// The empty corpus has the empty index under every key, and a lookup in the
/// empty index returns no line, whatever the trapdoor and the threshold.
pub proof fn lemma_empty_corpus(key: u128, t: u128, threshold: u32)
    ensures
        corpus_index(key, Seq::<char>::empty()) == Map::<u128, Set<usize>>::empty(),
        search_result(Map::<u128, Set<usize>>::empty(), t, threshold) == Set::<usize>::empty(),
{
    let text = Seq::<char>::empty();
    assert forall|s: u128| !corpus_index(key, text).contains_key(s) by {
        assert forall|d: usize| !posting(key, text, s, d) by {
            assert forall|i: int, j: int| !is_word_at(text, i, j) by {}
        }
    }
    assert(corpus_index(key, text) =~= Map::<u128, Set<usize>>::empty());
    assert(search_result(Map::<u128, Set<usize>>::empty(), t, threshold) =~= Set::<usize>::empty());
}

/// Two indexes built from the same key and corpus list the same lines under
/// the same signatures, in whatever order their sets are walked.
pub proof fn lemma_build_idempotent(
    first: BTreeMap<u128, HashSet<usize>>,
    second: BTreeMap<u128, HashSet<usize>>,
    key: u128,
    text: Seq<char>,
)
    requires
        index_model(first) == corpus_index(key, text),
        index_model(second) == corpus_index(key, text),
    ensures
        index_model(first) == index_model(second),
        forall|t: u128, threshold: u32|
            search_result(index_model(first), t, threshold) == search_result(
                index_model(second),
                t,
                threshold,
            ),
{
}

} // verus!
