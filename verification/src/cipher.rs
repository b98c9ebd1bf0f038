//! The executable transform.

use vstd::prelude::*;
use crate::path::{next_rail, path_state, lemma_rail_at_most_position};
use crate::model::{bucket, joined, encode_spec, decode_spec, count_on_rail, rail_start, slot};
use crate::counting::{
    lemma_bucket_push, lemma_count_bound, lemma_joined_deep_rails, lemma_rail_start_monotone,
    lemma_rail_start_total, lemma_slot_in_range,
};
use crate::laws::{
    law_decode_is_anagram, law_depth_one_identity, law_encode_is_anagram, law_length_preserved,
};
use crate::text::{chars_of, string_of};

verus! {

/// Direction of the transform.
#[derive(Debug, Copy, Clone, PartialEq, Eq, Structural)]
pub enum CipherMode {
    Encrypt,
    Decrypt,
}

/// Why a transform was refused.
#[derive(Debug, Copy, Clone, PartialEq, Eq, Structural)]
pub enum CipherError {
    /// The depth was 0: a fence needs at least one rail.
    InvalidParameter,
    /// The depth argument was not a number that could be read.
    ParameterFormat,
}

/// What [`transform`] returns: the encoding or decoding of `text`, or the
/// refusal of a fence without rails.
pub open spec fn transform_spec(text: Seq<char>, depth: nat, mode: CipherMode) -> Result<
    Seq<char>,
    CipherError,
> {
    if depth == 0 {
        Err(CipherError::InvalidParameter)
    } else {
        match mode {
            CipherMode::Encrypt => Ok(encode_spec(text, depth)),
            CipherMode::Decrypt => Ok(decode_spec(text, depth)),
        }
    }
}

/// The number of rails a walk over `n` positions can reach.
pub open spec fn reachable_rails(n: nat, depth: nat) -> nat {
    if depth < n {
        depth
    } else {
        n
    }
}

/// Writes `message` along the zig-zag and reads it off rail by rail.
pub fn encode(message: &[char], depth: usize) -> (res: Result<Vec<char>, CipherError>)
    ensures
        depth == 0 <==> res is Err,
        res matches Err(e) ==> e == CipherError::InvalidParameter,
        res matches Ok(v) ==> {
            &&& v@ == encode_spec(message@, depth as nat)
            &&& v@.len() == message@.len()
            &&& v@.to_multiset() == message@.to_multiset()
            &&& depth == 1 ==> v@ == message@
        },
{
    if depth == 0 {
        return Err(CipherError::InvalidParameter);
    }
    let n: usize = message.len();
    let used: usize = if depth < n { depth } else { n };
    let mut rails: Vec<Vec<char>> = Vec::new();
    while rails.len() < used
        invariant
            rails@.len() <= used,
            forall|r: int| 0 <= r < rails@.len() ==> (#[trigger] rails@[r])@ == Seq::<char>::empty(),
        decreases used - rails@.len(),
    {
        rails.push(Vec::new());
    }
    let mut rail: usize = 0;
    let mut ascending: bool = true;
    let mut i: usize = 0;
    while i < n
        invariant
            i <= n,
            n == message@.len(),
            depth >= 1,
            used as nat == reachable_rails(n as nat, depth as nat),
            rails@.len() == used,
            rail < depth,
            (rail as nat, ascending) == path_state(i as nat, depth as nat),
            forall|r: int|
                0 <= r < used ==> (#[trigger] rails@[r])@ == bucket(
                    message@.take(i as int),
                    depth as nat,
                    r as nat,
                ),
        decreases n - i,
    {
        proof {
            lemma_rail_at_most_position(i as nat, depth as nat);
        }
        let c: char = message[i];
        rails[rail].push(c);
        proof {
            let before = message@.take(i as int);
            assert(message@.take(i + 1) =~= before.push(c));
            assert forall|r: int| 0 <= r < used implies (#[trigger] rails@[r])@ == bucket(
                message@.take(i + 1),
                depth as nat,
                r as nat,
            ) by {
                lemma_bucket_push(before, c, depth as nat, r as nat);
            }
        }
        let next = next_rail(rail, ascending, depth);
        rail = next.0;
        ascending = next.1;
        i += 1;
    }
    assert(message@.take(n as int) =~= message@);
    let mut out: Vec<char> = Vec::new();
    let mut k: usize = 0;
    while k < used
        invariant
            k <= used,
            n == message@.len(),
            used as nat == reachable_rails(n as nat, depth as nat),
            rails@.len() == used,
            out@ == joined(message@, depth as nat, k as nat),
            forall|r: int|
                0 <= r < used ==> (#[trigger] rails@[r])@ == bucket(
                    message@,
                    depth as nat,
                    r as nat,
                ),
        decreases used - k,
    {
        let run = &rails[k];
        let mut j: usize = 0;
        while j < run.len()
            invariant
                j <= run@.len(),
                run@ == bucket(message@, depth as nat, k as nat),
                out@ == joined(message@, depth as nat, k as nat) + run@.take(j as int),
            decreases run@.len() - j,
        {
            out.push(run[j]);
            proof {
                assert(run@.take(j + 1) =~= run@.take(j as int).push(run@[j as int]));
                assert(out@ =~= joined(message@, depth as nat, k as nat) + run@.take(j + 1));
            }
            j += 1;
        }
        assert(run@.take(j as int) =~= run@);
        k += 1;
    }
    proof {
        if used < depth {
            lemma_joined_deep_rails(message@, depth as nat, used as nat, depth as nat);
        }
        law_length_preserved(message@, depth as nat);
        law_encode_is_anagram(message@, depth as nat);
        law_depth_one_identity(message@);
    }
    Ok(out)
}

/// For each rail a walk over `n` positions can reach, how many of the
/// positions fall on it.
pub fn rail_lengths(n: usize, depth: usize) -> (lengths: Vec<usize>)
    ensures
        lengths@.len() == reachable_rails(n as nat, depth as nat),
        forall|r: int|
            0 <= r < lengths@.len() ==> #[trigger] lengths@[r] as nat == count_on_rail(
                n as nat,
                depth as nat,
                r as nat,
            ),
{
    let used: usize = if depth < n { depth } else { n };
    let mut lengths: Vec<usize> = Vec::new();
    if depth == 0 {
        return lengths;
    }
    while lengths.len() < used
        invariant
            lengths@.len() <= used,
            forall|r: int| 0 <= r < lengths@.len() ==> #[trigger] lengths@[r] == 0,
        decreases used - lengths@.len(),
    {
        lengths.push(0);
    }
    let mut rail: usize = 0;
    let mut ascending: bool = true;
    let mut i: usize = 0;
    while i < n
        invariant
            i <= n,
            depth >= 1,
            used as nat == reachable_rails(n as nat, depth as nat),
            lengths@.len() == used,
            rail < depth,
            (rail as nat, ascending) == path_state(i as nat, depth as nat),
            forall|r: int|
                0 <= r < used ==> #[trigger] lengths@[r] as nat == count_on_rail(
                    i as nat,
                    depth as nat,
                    r as nat,
                ),
        decreases n - i,
    {
        proof {
            lemma_rail_at_most_position(i as nat, depth as nat);
            lemma_count_bound(i as nat, depth as nat, rail as nat);
        }
        let seen: usize = lengths[rail];
        lengths.set(rail, seen + 1);
        let next = next_rail(rail, ascending, depth);
        rail = next.0;
        ascending = next.1;
        i += 1;
    }
    lengths
}

/// Reads `message` back from its rails into the order it was written in.
pub fn decode(message: &[char], depth: usize) -> (res: Result<Vec<char>, CipherError>)
    ensures
        depth == 0 <==> res is Err,
        res matches Err(e) ==> e == CipherError::InvalidParameter,
        res matches Ok(v) ==> {
            &&& v@ == decode_spec(message@, depth as nat)
            &&& v@.len() == message@.len()
            &&& v@.to_multiset() == message@.to_multiset()
            &&& depth == 1 ==> v@ == message@
        },
{
    if depth == 0 {
        return Err(CipherError::InvalidParameter);
    }
    let n: usize = message.len();
    let lengths = rail_lengths(n, depth);
    let used: usize = lengths.len();
    // Each rail's run of the text begins where the previous rail's run ends.
    let mut cursors: Vec<usize> = Vec::new();
    let mut start: usize = 0;
    while cursors.len() < used
        invariant
            depth >= 1,
            lengths@.len() == used,
            used as nat == reachable_rails(n as nat, depth as nat),
            cursors@.len() <= used,
            start as nat == rail_start(n as nat, depth as nat, cursors@.len()),
            forall|r: int|
                0 <= r < used ==> #[trigger] lengths@[r] as nat == count_on_rail(
                    n as nat,
                    depth as nat,
                    r as nat,
                ),
            forall|r: int|
                0 <= r < cursors@.len() ==> #[trigger] cursors@[r] as nat == rail_start(
                    n as nat,
                    depth as nat,
                    r as nat,
                ),
        decreases used - cursors@.len(),
    {
        let r: usize = cursors.len();
        proof {
            lemma_rail_start_monotone(n as nat, depth as nat, (r + 1) as nat, depth as nat);
            lemma_rail_start_total(n as nat, depth as nat);
        }
        cursors.push(start);
        start = start + lengths[r];
    }
    let mut out: Vec<char> = Vec::new();
    let mut rail: usize = 0;
    let mut ascending: bool = true;
    let mut i: usize = 0;
    while i < n
        invariant
            i <= n,
            n == message@.len(),
            depth >= 1,
            used as nat == reachable_rails(n as nat, depth as nat),
            cursors@.len() == used,
            rail < depth,
            (rail as nat, ascending) == path_state(i as nat, depth as nat),
            out@.len() == i,
            forall|j: int|
                0 <= j < i ==> #[trigger] out@[j] == message@[slot(
                    j as nat,
                    n as nat,
                    depth as nat,
                ) as int],
            forall|r: int|
                0 <= r < used ==> #[trigger] cursors@[r] as nat == rail_start(
                    n as nat,
                    depth as nat,
                    r as nat,
                ) + count_on_rail(i as nat, depth as nat, r as nat),
        decreases n - i,
    {
        proof {
            lemma_rail_at_most_position(i as nat, depth as nat);
            lemma_slot_in_range(i as nat, n as nat, depth as nat);
        }
        let at: usize = cursors[rail];
        out.push(message[at]);
        cursors.set(rail, at + 1);
        let next = next_rail(rail, ascending, depth);
        rail = next.0;
        ascending = next.1;
        i += 1;
    }
    proof {
        assert(out@ =~= decode_spec(message@, depth as nat));
        law_decode_is_anagram(message@, depth as nat);
        law_depth_one_identity(message@);
    }
    Ok(out)
}

/// Encodes or decodes `text` over `depth` rails, as `mode` says.
pub fn transform(text: &[char], depth: usize, mode: CipherMode) -> (res: Result<
    Vec<char>,
    CipherError,
>)
    ensures
        res is Ok <==> transform_spec(text@, depth as nat, mode) is Ok,
        res matches Ok(v) ==> transform_spec(text@, depth as nat, mode) == Ok::<
            Seq<char>,
            CipherError,
        >(v@),
        res matches Err(e) ==> transform_spec(text@, depth as nat, mode) == Err::<
            Seq<char>,
            CipherError,
        >(e),
        res matches Ok(v) ==> v@.len() == text@.len() && v@.to_multiset() == text@.to_multiset(),
{
    match mode {
        CipherMode::Encrypt => encode(text, depth),
        CipherMode::Decrypt => decode(text, depth),
    }
}

/// Encodes or decodes a string over `depth` rails, character by character.
pub fn rail_fence_cipher(text: &str, depth: usize, mode: CipherMode) -> (res: Result<
    String,
    CipherError,
>)
    ensures
        res is Ok <==> transform_spec(text@, depth as nat, mode) is Ok,
        res matches Ok(s) ==> transform_spec(text@, depth as nat, mode) == Ok::<
            Seq<char>,
            CipherError,
        >(s@),
        res matches Err(e) ==> transform_spec(text@, depth as nat, mode) == Err::<
            Seq<char>,
            CipherError,
        >(e),
        res matches Ok(s) ==> s@.len() == text@.len() && s@.to_multiset() == text@.to_multiset(),
{
    let chars = chars_of(text);
    match transform(chars.as_slice(), depth, mode) {
        Ok(moved) => Ok(string_of(moved.as_slice())),
        Err(e) => Err(e),
    }
}

} // verus!
