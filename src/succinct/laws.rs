//! What holds of every Poppy index, stated over the contracts of its
//! operations.
use vstd::prelude::*;

use crate::bits::{lemma_rank_monotone, lemma_rank_sum, lemma_select_of, words_bits};
use crate::succinct::poppy::Poppy;
use crate::succinct::{Access, Rank, Select0, Select1};

verus! {

/// The bit at `i` is set exactly when the count of ones grows by one from
/// `i` to `i + 1`.
pub proof fn lemma_access_is_rank_step(p: &Poppy, i: int)
    requires
        0 <= i < p.access_len(),
    ensures
        p.access_spec(i) == (p.rank_spec(true, i + 1) - p.rank_spec(true, i) == 1),
{
}

/// Before any position `i`, the ones and the zeros together number `i`.
pub proof fn lemma_rank1_plus_rank0(p: &Poppy, i: int)
    requires
        0 <= i <= p.rank_len(),
    ensures
        p.rank_spec(true, i) + p.rank_spec(false, i) == i,
{
    lemma_rank_sum(words_bits(p.words()), i);
}

/// The count of ones never decreases as the position grows.
pub proof fn lemma_rank1_monotone(p: &Poppy, i: int, j: int)
    requires
        i < j,
    ensures
        p.rank_spec(true, i) <= p.rank_spec(true, j),
{
    lemma_rank_monotone(words_bits(p.words()), true, i, j);
}

/// The `k`-th one stands at a set bit with exactly `k` ones before it.
pub proof fn lemma_select1_inverts_rank1(p: &Poppy, k: int)
    requires
        0 <= k < p.ones(),
    ensures
        0 <= p.select1_spec(k) < p.access_len(),
        p.access_spec(p.select1_spec(k)) == true,
        p.rank_spec(true, p.select1_spec(k)) == k,
{
    lemma_select_of(words_bits(p.words()), true, k, 0);
}

/// The `k`-th zero stands at a clear bit with exactly `k` zeros before it.
pub proof fn lemma_select0_inverts_rank0(p: &Poppy, k: int)
    requires
        0 <= k < p.zeros(),
    ensures
        0 <= p.select0_spec(k) < p.access_len(),
        p.access_spec(p.select0_spec(k)) == false,
        p.rank_spec(false, p.select0_spec(k)) == k,
{
    lemma_select_of(words_bits(p.words()), false, k, 0);
}

/// The index answers every query as the linear scan over its words does.
pub proof fn lemma_agrees_with_scan(p: &Poppy, v: &Vec<u64>)
    requires
        v@ == p.words(),
        64 * v@.len() <= usize::MAX,
    ensures
        p.access_len() == v.access_len(),
        p.rank_len() == v.rank_len(),
        p.ones() == v.ones(),
        p.zeros() == v.zeros(),
        forall|i: int| 0 <= i < p.access_len() ==> p.access_spec(i) == v.access_spec(i),
        forall|b: bool, i: int| 0 <= i <= p.rank_len() ==> p.rank_spec(b, i) == v.rank_spec(b, i),
        forall|k: int| 0 <= k < p.ones() ==> p.select1_spec(k) == v.select1_spec(k),
        forall|k: int| 0 <= k < p.zeros() ==> p.select0_spec(k) == v.select0_spec(k),
{
}

/// No ones precede position 0, and all of them precede the end.
pub proof fn lemma_rank1_bounds(p: &Poppy)
    ensures
        p.rank_spec(true, 0) == 0,
        p.rank_spec(true, p.rank_len() as int) == p.ones(),
{
}

} // verus!
