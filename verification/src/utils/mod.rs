use vstd::prelude::*;

pub mod data_loader;

verus! {

/// The id after `n`: the counter wraps at the top of `usize`.
pub open spec fn following_id(n: usize) -> usize {
    if n == usize::MAX { 0 } else { (n + 1) as usize }
}

/// Hands out the counter's current value as a fresh id and advances the
/// counter by one, wrapping at the top of `usize`.
pub fn next_id(counter: &mut usize) -> (id: usize)
    ensures
        id == *old(counter),
        *final(counter) == following_id(*old(counter)),
{
    let id = *counter;
    *counter = counter.wrapping_add(1);
    id
}

/// The ids a counter hands out `k` calls after it held `n`.
pub open spec fn id_after(n: usize, k: nat) -> usize
    decreases k,
{
    if k == 0 { n } else { following_id(id_after(n, (k - 1) as nat)) }
}

/// Ids handed out by the same counter within one cycle of `usize` are
/// distinct: the `j`-th and the `k`-th id after the counter held `n` differ
/// whenever `j < k` and at most `usize::MAX` calls separate them.
pub proof fn lemma_ids_distinct(n: usize, j: nat, k: nat)
    requires
        j < k,
        k - j <= usize::MAX,
    ensures
        id_after(n, j) != id_after(n, k),
{
    let d = (k - j) as nat;
    lemma_id_after_add(n, j, d);
    lemma_id_after_small(id_after(n, j), d);
}

/// Counting `j` calls and then `d` more is counting `j + d` calls.
pub proof fn lemma_id_after_add(n: usize, j: nat, d: nat)
    ensures
        id_after(n, j + d) == id_after(id_after(n, j), d),
    decreases d,
{
    if d > 0 {
        lemma_id_after_add(n, j, (d - 1) as nat);
        assert(id_after(n, j + d) == following_id(id_after(n, (j + d - 1) as nat)));
    }
}

/// Fewer than a full cycle of calls lands `d` places on, wrapping once at most.
pub proof fn lemma_id_after_small(x: usize, d: nat)
    requires
        d <= usize::MAX,
    ensures
        id_after(x, d) as int == if x + d <= usize::MAX { x + d } else { x + d - usize::MAX - 1 },
    decreases d,
{
    if d > 0 {
        lemma_id_after_small(x, (d - 1) as nat);
    }
}

} // verus!
