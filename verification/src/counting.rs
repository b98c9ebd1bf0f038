//! Facts about rail counts, run starts and slots on which both the
//! executable transform and the laws rest.

use vstd::prelude::*;
use crate::path::{rail_at, lemma_rail_in_range, lemma_rail_at_most_position};
use crate::model::{
    bucket, joined, encode_spec, count_on_rail, rail_start, slot, rail_of_slot, nth_on_rail, source,
};

verus! {

/// A rail holds no more positions than have been walked.
pub proof fn lemma_count_bound(n: nat, depth: nat, r: nat)
    ensures
        count_on_rail(n, depth, r) <= n,
    decreases n,
{
    if n > 0 {
        lemma_count_bound((n - 1) as nat, depth, r);
    }
}

/// Walking further never lowers a rail's count.
pub proof fn lemma_count_monotone(i: nat, n: nat, depth: nat, r: nat)
    requires
        i <= n,
    ensures
        count_on_rail(i, depth, r) <= count_on_rail(n, depth, r),
    decreases n,
{
    if i < n {
        lemma_count_monotone(i, (n - 1) as nat, depth, r);
    }
}

/// A position on rail `r` is counted once the walk has passed it.
pub proof fn lemma_count_passes(i: nat, n: nat, depth: nat, r: nat)
    requires
        i < n,
        rail_at(i, depth) == r,
    ensures
        count_on_rail(i, depth, r) < count_on_rail(n, depth, r),
{
    lemma_count_monotone(i + 1, n, depth, r);
}

/// No position among the first `n` reaches rail `n` or beyond.
pub proof fn lemma_count_deep_rail(n: nat, depth: nat, r: nat)
    requires
        n <= r,
    ensures
        count_on_rail(n, depth, r) == 0,
    decreases n,
{
    if n > 0 {
        lemma_rail_at_most_position((n - 1) as nat, depth);
        lemma_count_deep_rail((n - 1) as nat, depth, r);
    }
}

/// A bucket is as long as its rail's count.
pub proof fn lemma_bucket_len(m: Seq<char>, depth: nat, r: nat)
    ensures
        bucket(m, depth, r).len() == count_on_rail(m.len(), depth, r),
    decreases m.len(),
{
    if m.len() > 0 {
        lemma_bucket_len(m.drop_last(), depth, r);
    }
}

/// Extending a message by one character extends the bucket of that
/// character's rail and leaves the others alone.
pub proof fn lemma_bucket_push(m: Seq<char>, c: char, depth: nat, r: nat)
    ensures
        bucket(m.push(c), depth, r) == if rail_at(m.len(), depth) == r {
            bucket(m, depth, r).push(c)
        } else {
            bucket(m, depth, r)
        },
{
    assert(m.push(c).drop_last() =~= m);
}

/// Position `i` sits in its rail's bucket behind the earlier positions of
/// that rail.
pub proof fn lemma_bucket_index(m: Seq<char>, depth: nat, i: nat)
    requires
        i < m.len(),
    ensures
        count_on_rail(i, depth, rail_at(i, depth)) < bucket(m, depth, rail_at(i, depth)).len(),
        bucket(m, depth, rail_at(i, depth))[count_on_rail(i, depth, rail_at(i, depth)) as int]
            == m[i as int],
    decreases m.len(),
{
    let r = rail_at(i, depth);
    let shorter = m.drop_last();
    lemma_bucket_len(m, depth, r);
    lemma_bucket_len(shorter, depth, r);
    lemma_count_passes(i, m.len(), depth, r);
    if i + 1 < m.len() {
        lemma_bucket_index(shorter, depth, i);
    }
}

/// The buckets of rails `0..k` together are as long as the start of rail `k`.
pub proof fn lemma_joined_len(m: Seq<char>, depth: nat, k: nat)
    ensures
        joined(m, depth, k).len() == rail_start(m.len(), depth, k),
    decreases k,
{
    if k > 0 {
        lemma_joined_len(m, depth, (k - 1) as nat);
        lemma_bucket_len(m, depth, (k - 1) as nat);
    }
}

/// Runs of later rails start no earlier.
pub proof fn lemma_rail_start_monotone(n: nat, depth: nat, a: nat, b: nat)
    requires
        a <= b,
    ensures
        rail_start(n, depth, a) <= rail_start(n, depth, b),
    decreases b,
{
    if a < b {
        lemma_rail_start_monotone(n, depth, a, (b - 1) as nat);
    }
}

/// The `j`-th character of rail `r`'s bucket is found `j` places into that
/// rail's run.
pub proof fn lemma_joined_index(m: Seq<char>, depth: nat, k: nat, r: nat, j: nat)
    requires
        r < k,
        j < count_on_rail(m.len(), depth, r),
    ensures
        rail_start(m.len(), depth, r) + j < joined(m, depth, k).len(),
        joined(m, depth, k)[(rail_start(m.len(), depth, r) + j) as int] == bucket(m, depth, r)[j as int],
    decreases k,
{
    let before = (k - 1) as nat;
    lemma_joined_len(m, depth, before);
    lemma_joined_len(m, depth, k);
    lemma_bucket_len(m, depth, before);
    lemma_bucket_len(m, depth, r);
    if r < before {
        lemma_joined_index(m, depth, before, r, j);
    }
}

/// One more position moves the start of every rail behind its own by one.
pub proof fn lemma_rail_start_step(n: nat, depth: nat, k: nat)
    ensures
        rail_start(n + 1, depth, k) == rail_start(n, depth, k) + if rail_at(n, depth) < k {
            1nat
        } else {
            0nat
        },
    decreases k,
{
    if k > 0 {
        lemma_rail_start_step(n, depth, (k - 1) as nat);
    }
}

/// The runs of all rails together cover the whole text.
pub proof fn lemma_rail_start_total(n: nat, depth: nat)
    requires
        depth >= 1,
    ensures
        rail_start(n, depth, depth) == n,
    decreases n,
{
    if n == 0 {
        lemma_rail_start_empty(depth, depth);
    } else {
        lemma_rail_start_total((n - 1) as nat, depth);
        lemma_rail_start_step((n - 1) as nat, depth, depth);
        lemma_rail_in_range((n - 1) as nat, depth);
    }
}

/// With nothing walked every run starts at 0.
pub proof fn lemma_rail_start_empty(depth: nat, k: nat)
    ensures
        rail_start(0, depth, k) == 0,
    decreases k,
{
    if k > 0 {
        lemma_rail_start_empty(depth, (k - 1) as nat);
    }
}

/// Every position's slot lies inside the text.
pub proof fn lemma_slot_in_range(i: nat, n: nat, depth: nat)
    requires
        i < n,
        depth >= 1,
    ensures
        slot(i, n, depth) < n,
{
    let r = rail_at(i, depth);
    lemma_rail_in_range(i, depth);
    lemma_count_passes(i, n, depth, r);
    lemma_rail_start_monotone(n, depth, r + 1, depth);
    lemma_rail_start_total(n, depth);
}

/// Encoding moves the character at position `i` to that position's slot.
pub proof fn lemma_encode_at_slot(m: Seq<char>, depth: nat, i: nat)
    requires
        i < m.len(),
        depth >= 1,
    ensures
        slot(i, m.len(), depth) < encode_spec(m, depth).len(),
        encode_spec(m, depth)[slot(i, m.len(), depth) as int] == m[i as int],
{
    let r = rail_at(i, depth);
    lemma_rail_in_range(i, depth);
    lemma_bucket_index(m, depth, i);
    lemma_bucket_len(m, depth, r);
    lemma_joined_index(m, depth, depth, r, count_on_rail(i, depth, r));
}

/// A slot lies inside the run of its position's rail.
pub proof fn lemma_slot_in_run(i: nat, n: nat, depth: nat)
    requires
        i < n,
    ensures
        rail_start(n, depth, rail_at(i, depth)) <= slot(i, n, depth),
        slot(i, n, depth) < rail_start(n, depth, rail_at(i, depth) + 1),
{
    lemma_count_passes(i, n, depth, rail_at(i, depth));
}

/// Two different positions never share a slot.
pub proof fn lemma_slot_injective(a: nat, b: nat, n: nat, depth: nat)
    requires
        a < n,
        b < n,
        slot(a, n, depth) == slot(b, n, depth),
    ensures
        a == b,
{
    let ra = rail_at(a, depth);
    let rb = rail_at(b, depth);
    lemma_slot_in_run(a, n, depth);
    lemma_slot_in_run(b, n, depth);
    if ra < rb {
        lemma_rail_start_monotone(n, depth, ra + 1, rb);
    } else if rb < ra {
        lemma_rail_start_monotone(n, depth, rb + 1, ra);
    } else if a < b {
        lemma_count_passes(a, b, depth, ra);
    } else if b < a {
        lemma_count_passes(b, a, depth, ra);
    }
}

/// An index before the start of rail `top` lies in the run of the rail found
/// for it.
pub proof fn lemma_rail_of_slot(k: nat, n: nat, depth: nat, top: nat)
    requires
        k < rail_start(n, depth, top),
    ensures
        rail_of_slot(k, n, depth, top) < top,
        rail_start(n, depth, rail_of_slot(k, n, depth, top)) <= k,
        k < rail_start(n, depth, rail_of_slot(k, n, depth, top)) + count_on_rail(
            n,
            depth,
            rail_of_slot(k, n, depth, top),
        ),
    decreases top,
{
    if top > 0 && rail_start(n, depth, (top - 1) as nat) > k {
        lemma_rail_of_slot(k, n, depth, (top - 1) as nat);
    }
}

/// A rail that holds more than `j` positions has a `j`-th one.
pub proof fn lemma_nth_on_rail(j: nat, n: nat, depth: nat, r: nat)
    requires
        j < count_on_rail(n, depth, r),
    ensures
        nth_on_rail(j, n, depth, r) < n,
        rail_at(nth_on_rail(j, n, depth, r), depth) == r,
        count_on_rail(nth_on_rail(j, n, depth, r), depth, r) == j,
    decreases n,
{
    let last = (n - 1) as nat;
    if !(rail_at(last, depth) == r && count_on_rail(last, depth, r) == j) {
        lemma_nth_on_rail(j, last, depth, r);
    }
}

/// Every index of the encoded text is the slot of its source position.
pub proof fn lemma_slot_of_source(k: nat, n: nat, depth: nat)
    requires
        k < n,
        depth >= 1,
    ensures
        source(k, n, depth) < n,
        slot(source(k, n, depth), n, depth) == k,
{
    lemma_rail_start_total(n, depth);
    lemma_rail_of_slot(k, n, depth, depth);
    let r = rail_of_slot(k, n, depth, depth);
    lemma_nth_on_rail((k - rail_start(n, depth, r)) as nat, n, depth, r);
}

/// Rails at or beyond the message's length stay empty, so leaving them out
/// changes nothing.
pub proof fn lemma_joined_deep_rails(m: Seq<char>, depth: nat, k: nat, l: nat)
    requires
        m.len() <= k <= l,
    ensures
        joined(m, depth, l) == joined(m, depth, k),
    decreases l,
{
    if k < l {
        let before = (l - 1) as nat;
        lemma_joined_deep_rails(m, depth, k, before);
        lemma_count_deep_rail(m.len(), depth, before);
        lemma_bucket_len(m, depth, before);
        assert(joined(m, depth, l) =~= joined(m, depth, before));
    }
}

} // verus!
