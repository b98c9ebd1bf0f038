//! What holds of encoding and decoding, for every message and every depth.

use vstd::prelude::*;
use vstd::seq_lib::{lemma_multiset_commutative, to_multiset_build};
use crate::path::{rail_at, zigzag, lemma_rail_in_range, lemma_path_state_by_phase};
use crate::model::{
    bucket, joined, encode_spec, decode_spec, count_on_rail, rail_start, slot, source,
};
use crate::counting::{
    lemma_bucket_push, lemma_encode_at_slot, lemma_joined_len, lemma_rail_start_total,
    lemma_slot_of_source, lemma_slot_in_range, lemma_slot_injective,
};
use crate::cipher::{transform_spec, CipherError, CipherMode};

verus! {

/// The walk of the oscillator is the zig-zag: the two descriptions of the
/// path agree at every position.
pub proof fn law_path_is_zigzag(i: nat, depth: nat)
    ensures
        rail_at(i, depth) == zigzag(i, depth),
    decreases i,
{
    if depth >= 2 {
        lemma_path_state_by_phase(i, depth);
    } else if i > 0 {
        law_path_is_zigzag((i - 1) as nat, depth);
    }
}

/// Encoding and decoding keep the length of the text.
pub proof fn law_length_preserved(m: Seq<char>, depth: nat)
    requires
        depth >= 1,
    ensures
        encode_spec(m, depth).len() == m.len(),
        decode_spec(m, depth).len() == m.len(),
{
    lemma_joined_len(m, depth, depth);
    lemma_rail_start_total(m.len(), depth);
}

/// Decoding an encoded message gives the message back.
pub proof fn law_round_trip(m: Seq<char>, depth: nat)
    requires
        depth >= 1,
    ensures
        decode_spec(encode_spec(m, depth), depth) == m,
{
    law_length_preserved(m, depth);
    let back = decode_spec(encode_spec(m, depth), depth);
    assert forall|i: int| 0 <= i < m.len() implies back[i] == m[i] by {
        lemma_encode_at_slot(m, depth, i as nat);
    }
    assert(back =~= m);
}

/// Each character of the encoded text is the character of the message at
/// that index's source position.
pub proof fn law_encode_reads_sources(m: Seq<char>, depth: nat, k: nat)
    requires
        depth >= 1,
        k < m.len(),
    ensures
        source(k, m.len(), depth) < m.len(),
        encode_spec(m, depth).len() == m.len(),
        encode_spec(m, depth)[k as int] == m[source(k, m.len(), depth) as int],
{
    law_length_preserved(m, depth);
    lemma_slot_of_source(k, m.len(), depth);
    lemma_encode_at_slot(m, depth, source(k, m.len(), depth));
}

/// Slots and sources are inverse to each other: the transform is a
/// permutation of the positions.
pub proof fn law_slot_source_inverse(i: nat, n: nat, depth: nat)
    requires
        depth >= 1,
        i < n,
    ensures
        slot(i, n, depth) < n,
        source(i, n, depth) < n,
        slot(source(i, n, depth), n, depth) == i,
        source(slot(i, n, depth), n, depth) == i,
{
    lemma_slot_in_range(i, n, depth);
    lemma_slot_of_source(i, n, depth);
    let k = slot(i, n, depth);
    let back = source(k, n, depth);
    lemma_slot_of_source(k, n, depth);
    lemma_slot_injective(i, back, n, depth);
}

/// Encoding a decoded text gives the text back: every text is the encoding
/// of exactly one message of its length.
pub proof fn law_encode_after_decode(c: Seq<char>, depth: nat)
    requires
        depth >= 1,
    ensures
        encode_spec(decode_spec(c, depth), depth) == c,
{
    let m = decode_spec(c, depth);
    let again = encode_spec(m, depth);
    law_length_preserved(m, depth);
    assert forall|k: int| 0 <= k < c.len() implies again[k] == c[k] by {
        law_encode_reads_sources(m, depth, k as nat);
        lemma_slot_of_source(k as nat, c.len(), depth);
    }
    assert(again =~= c);
}

/// The decoded text is an anagram of the text it was decoded from.
pub proof fn law_decode_is_anagram(c: Seq<char>, depth: nat)
    requires
        depth >= 1,
    ensures
        decode_spec(c, depth).to_multiset() == c.to_multiset(),
{
    law_encode_after_decode(c, depth);
    law_encode_is_anagram(decode_spec(c, depth), depth);
}

/// With a single rail every position falls on rail 0.
pub proof fn lemma_single_rail(n: nat)
    ensures
        rail_at(n, 1) == 0,
        count_on_rail(n, 1, 0) == n,
    decreases n,
{
    if n > 0 {
        lemma_single_rail((n - 1) as nat);
    }
}

/// With a single rail the one bucket is the message itself.
pub proof fn lemma_single_bucket(m: Seq<char>)
    ensures
        bucket(m, 1, 0) == m,
    decreases m.len(),
{
    if m.len() > 0 {
        lemma_single_bucket(m.drop_last());
        lemma_single_rail((m.len() - 1) as nat);
        assert(m.drop_last().push(m.last()) =~= m);
    }
}

/// At depth 1 encoding and decoding both leave the text as it is.
pub proof fn law_depth_one_identity(m: Seq<char>)
    ensures
        encode_spec(m, 1) == m,
        decode_spec(m, 1) == m,
{
    lemma_single_bucket(m);
    assert(joined(m, 1, 0) =~= Seq::<char>::empty());
    assert(joined(m, 1, 1) =~= m);
    assert(rail_start(m.len(), 1, 0) == 0);
    assert forall|i: int| 0 <= i < m.len() implies decode_spec(m, 1)[i] == m[i] by {
        lemma_single_rail(i as nat);
        assert(slot(i as nat, m.len(), 1) == i);
    }
    assert(decode_spec(m, 1) =~= m);
}

/// One more character at the end of the message adds that character to the
/// buckets joined so far once its rail is among them.
pub proof fn lemma_joined_push(m: Seq<char>, c: char, depth: nat, k: nat)
    ensures
        joined(m.push(c), depth, k).to_multiset() == if rail_at(m.len(), depth) < k {
            joined(m, depth, k).to_multiset().insert(c)
        } else {
            joined(m, depth, k).to_multiset()
        },
    decreases k,
{
    if k > 0 {
        let r = (k - 1) as nat;
        lemma_joined_push(m, c, depth, r);
        lemma_bucket_push(m, c, depth, r);
        lemma_multiset_commutative(joined(m.push(c), depth, r), bucket(m.push(c), depth, r));
        lemma_multiset_commutative(joined(m, depth, r), bucket(m, depth, r));
        to_multiset_build(bucket(m, depth, r), c);
        let grown = joined(m.push(c), depth, k).to_multiset();
        if rail_at(m.len(), depth) < k {
            assert(grown =~= joined(m, depth, k).to_multiset().insert(c));
        } else {
            assert(grown =~= joined(m, depth, k).to_multiset());
        }
    }
}

/// The encoded text is an anagram of the message: it holds the same
/// characters, each as often.
pub proof fn law_encode_is_anagram(m: Seq<char>, depth: nat)
    requires
        depth >= 1,
    ensures
        encode_spec(m, depth).to_multiset() == m.to_multiset(),
    decreases m.len(),
{
    if m.len() == 0 {
        law_length_preserved(m, depth);
        assert(encode_spec(m, depth) =~= m);
    } else {
        let shorter = m.drop_last();
        law_encode_is_anagram(shorter, depth);
        assert(shorter.push(m.last()) =~= m);
        lemma_joined_push(shorter, m.last(), depth, depth);
        lemma_rail_in_range(shorter.len(), depth);
        to_multiset_build(shorter, m.last());
    }
}

/// The outcome of a transform is fixed by the text, the depth and the mode:
/// two outcomes for the same three are the same outcome.
pub proof fn law_deterministic(
    text: Seq<char>,
    depth: nat,
    mode: CipherMode,
    first: Result<Seq<char>, CipherError>,
    second: Result<Seq<char>, CipherError>,
)
    requires
        first == transform_spec(text, depth, mode),
        second == transform_spec(text, depth, mode),
    ensures
        first == second,
{
}

} // verus!
