//! The cipher as mathematics: buckets, their concatenation, and the slot
//! that each position of a message is moved to.

use vstd::prelude::*;
use crate::path::rail_at;

verus! {

/// The characters of `m` that fall on rail `r`, in message order.
pub open spec fn bucket(m: Seq<char>, depth: nat, r: nat) -> Seq<char>
    decreases m.len(),
{
    if m.len() == 0 {
        Seq::empty()
    } else {
        let earlier = bucket(m.drop_last(), depth, r);
        if rail_at((m.len() - 1) as nat, depth) == r {
            earlier.push(m.last())
        } else {
            earlier
        }
    }
}

/// The buckets of rails `0..k`, one after another.
pub open spec fn joined(m: Seq<char>, depth: nat, k: nat) -> Seq<char>
    decreases k,
{
    if k == 0 {
        Seq::empty()
    } else {
        joined(m, depth, (k - 1) as nat) + bucket(m, depth, (k - 1) as nat)
    }
}

/// The encoded message: all buckets in rail order.
pub open spec fn encode_spec(m: Seq<char>, depth: nat) -> Seq<char> {
    joined(m, depth, depth)
}

/// How many of the first `n` positions fall on rail `r`.
pub open spec fn count_on_rail(n: nat, depth: nat, r: nat) -> nat
    decreases n,
{
    if n == 0 {
        0
    } else {
        let earlier = count_on_rail((n - 1) as nat, depth, r);
        if rail_at((n - 1) as nat, depth) == r {
            earlier + 1
        } else {
            earlier
        }
    }
}

/// Where the run of rail `r` begins in the encoding of a message of length
/// `n`: the number of positions that fall on a rail before `r`.
pub open spec fn rail_start(n: nat, depth: nat, r: nat) -> nat
    decreases r,
{
    if r == 0 {
        0
    } else {
        rail_start(n, depth, (r - 1) as nat) + count_on_rail(n, depth, (r - 1) as nat)
    }
}

/// The index in the encoded text at which position `i` of a message of
/// length `n` is found: the start of its rail's run, plus the number of
/// earlier positions on the same rail.
pub open spec fn slot(i: nat, n: nat, depth: nat) -> nat {
    rail_start(n, depth, rail_at(i, depth)) + count_on_rail(i, depth, rail_at(i, depth))
}

/// The decoded message: position `i` is read from its slot.
pub open spec fn decode_spec(c: Seq<char>, depth: nat) -> Seq<char> {
    Seq::new(c.len(), |i: int| c[slot(i as nat, c.len(), depth) as int])
}

/// The rail whose run holds index `k` of the encoded text, looked for among
/// the rails below `top`: the last of them whose run starts at or before `k`.
pub open spec fn rail_of_slot(k: nat, n: nat, depth: nat, top: nat) -> nat
    decreases top,
{
    if top == 0 {
        0
    } else if rail_start(n, depth, (top - 1) as nat) <= k {
        (top - 1) as nat
    } else {
        rail_of_slot(k, n, depth, (top - 1) as nat)
    }
}

/// Among the first `n` positions, the one on rail `r` that has exactly `j`
/// positions of that rail before it.
pub open spec fn nth_on_rail(j: nat, n: nat, depth: nat, r: nat) -> nat
    decreases n,
{
    if n == 0 {
        0
    } else if rail_at((n - 1) as nat, depth) == r && count_on_rail((n - 1) as nat, depth, r) == j {
        (n - 1) as nat
    } else {
        nth_on_rail(j, (n - 1) as nat, depth, r)
    }
}

/// The position of the message whose character is found at index `k` of the
/// encoded text: the inverse of [`slot`].
pub open spec fn source(k: nat, n: nat, depth: nat) -> nat {
    let r = rail_of_slot(k, n, depth, depth);
    nth_on_rail((k - rail_start(n, depth, r)) as nat, n, depth, r)
}

} // verus!
