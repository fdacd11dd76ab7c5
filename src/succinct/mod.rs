//! Rank, select and access: the traits, their implementations on single
//! words, and a linear-scan reference over sequences of words.
pub mod laws;
pub mod poppy;

pub use poppy::Poppy;

use vstd::bits::{lemma_u64_pow2_no_overflow, lemma_u64_shl_is_mul};
use vstd::prelude::*;
use vstd::std_specs::bits::axiom_u64_trailing_zeros;

use crate::bits::{
    lemma_bit_of_not,
    lemma_bit_of_shift,
    lemma_deposit_select,
    lemma_pop_prefix_bound,
    lemma_popcount_word,
    lemma_rank_sum,
    lemma_select_of,
    lemma_word_mod_64,
    lemma_word_rank,
    lemma_words_rank,
    pop_prefix,
    rank_of,
    select_of,
    word_bits,
    words_bits,
};
use crate::intrinsics::{bzhi64, pdep64};
use crate::util::div_rem;

verus! {

/// Reading the item at a position.
pub trait Access {
    type Item;

    /// The number of positions.
    spec fn access_len(&self) -> nat;

    /// The item at `index`.
    spec fn access_spec(&self, index: int) -> Self::Item;

    fn access(&self, index: usize) -> (r: Self::Item)
        requires
            index < self.access_len(),
        ensures
            r == self.access_spec(index as int),
    ;
}

/// `Access` on a value taken by copy.
pub trait AccessPrim: Access + Sized {
    fn access_prim(self, index: usize) -> (r: Self::Item)
        requires
            index < self.access_len(),
        ensures
            r == self.access_spec(index as int),
    ;
}

pub fn access<T: Access>(x: &T, count: usize) -> (r: T::Item)
    requires
        count < x.access_len(),
    ensures
        r == x.access_spec(count as int),
{
    x.access(count)
}

pub fn access_prim<T: AccessPrim>(x: T, count: usize) -> (r: T::Item)
    requires
        count < x.access_len(),
    ensures
        r == x.access_spec(count as int),
{
    x.access_prim(count)
}

/// Finding the position of the `count`-th (from 0) set bit.
pub trait Select1 {
    /// The number of set bits.
    spec fn ones(&self) -> nat;

    /// The position of the `count`-th set bit.
    spec fn select1_spec(&self, count: int) -> int;

    fn select1(&self, count: usize) -> (r: usize)
        requires
            count < self.ones(),
        ensures
            r == self.select1_spec(count as int),
    ;
}

/// `Select1` on a value taken by copy.
pub trait Select1Prim: Select1 + Sized {
    fn select1_prim(self, count: usize) -> (r: usize)
        requires
            count < self.ones(),
        ensures
            r == self.select1_spec(count as int),
    ;
}

pub fn select1<T: Select1>(x: &T, count: usize) -> (r: usize)
    requires
        count < x.ones(),
    ensures
        r == x.select1_spec(count as int),
{
    x.select1(count)
}

pub fn select1_prim<T: Select1Prim>(x: T, count: usize) -> (r: usize)
    requires
        count < x.ones(),
    ensures
        r == x.select1_spec(count as int),
{
    x.select1_prim(count)
}

/// Finding the position of the `count`-th (from 0) clear bit.
pub trait Select0 {
    /// The number of clear bits.
    spec fn zeros(&self) -> nat;

    /// The position of the `count`-th clear bit.
    spec fn select0_spec(&self, count: int) -> int;

    fn select0(&self, count: usize) -> (r: usize)
        requires
            count < self.zeros(),
        ensures
            r == self.select0_spec(count as int),
    ;
}

/// `Select0` on a value taken by copy.
pub trait Select0Prim: Select0 + Sized {
    fn select0_prim(self, count: usize) -> (r: usize)
        requires
            count < self.zeros(),
        ensures
            r == self.select0_spec(count as int),
    ;
}

pub fn select0<T: Select0>(x: &T, count: usize) -> (r: usize)
    requires
        count < x.zeros(),
    ensures
        r == x.select0_spec(count as int),
{
    x.select0(count)
}

pub fn select0_prim<T: Select0Prim>(x: T, count: usize) -> (r: usize)
    requires
        count < x.zeros(),
    ensures
        r == x.select0_spec(count as int),
{
    x.select0_prim(count)
}

/// Counting the positions before `index` that hold `item`.
pub trait Rank {
    type Item;

    /// The number of positions; `index` ranges over `0 ..= rank_len()`.
    spec fn rank_len(&self) -> nat;

    /// The number of positions before `index` that hold `item`.
    spec fn rank_spec(&self, item: Self::Item, index: int) -> nat;

    fn rank(&self, item: Self::Item, index: usize) -> (r: usize)
        requires
            index <= self.rank_len(),
        ensures
            r == self.rank_spec(item, index as int),
    ;
}

/// `Rank` on a value taken by copy.
pub trait RankPrim: Rank + Sized {
    fn rank_prim(self, item: Self::Item, index: usize) -> (r: usize)
        requires
            index <= self.rank_len(),
        ensures
            r == self.rank_spec(item, index as int),
    ;
}

pub fn rank<T: Rank>(x: &T, item: T::Item, index: usize) -> (r: usize)
    requires
        index <= x.rank_len(),
    ensures
        r == x.rank_spec(item, index as int),
{
    x.rank(item, index)
}

pub fn rank_prim<T: RankPrim>(x: T, item: T::Item, index: usize) -> (r: usize)
    requires
        index <= x.rank_len(),
    ensures
        r == x.rank_spec(item, index as int),
{
    x.rank_prim(item, index)
}

/// Rank over bits: the clear bits (`rank0`) and the set bits (`rank1`)
/// before a position.
pub trait BoolRank: Rank<Item = bool> {
    fn rank0(&self, index: usize) -> (r: usize)
        requires
            index <= self.rank_len(),
        ensures
            r == self.rank_spec(false, index as int),
    {
        self.rank(false, index)
    }

    fn rank1(&self, index: usize) -> (r: usize)
        requires
            index <= self.rank_len(),
        ensures
            r == self.rank_spec(true, index as int),
    {
        self.rank(true, index)
    }
}

/// `BoolRank` on a value taken by copy.
pub trait BoolRankPrim: BoolRank + RankPrim<Item = bool> {
    fn rank0_prim(self, index: usize) -> (r: usize)
        requires
            index <= self.rank_len(),
        ensures
            r == self.rank_spec(false, index as int),
    ;

    fn rank1_prim(self, index: usize) -> (r: usize)
        requires
            index <= self.rank_len(),
        ensures
            r == self.rank_spec(true, index as int),
    ;
}

pub fn rank0<T: BoolRank>(x: &T, index: usize) -> (r: usize)
    requires
        index <= x.rank_len(),
    ensures
        r == x.rank_spec(false, index as int),
{
    x.rank0(index)
}

pub fn rank0_prim<T: BoolRankPrim>(x: T, index: usize) -> (r: usize)
    requires
        index <= x.rank_len(),
    ensures
        r == x.rank_spec(false, index as int),
{
    x.rank0_prim(index)
}

pub fn rank1<T: BoolRank>(x: &T, index: usize) -> (r: usize)
    requires
        index <= x.rank_len(),
    ensures
        r == x.rank_spec(true, index as int),
{
    x.rank1(index)
}

pub fn rank1_prim<T: BoolRankPrim>(x: T, index: usize) -> (r: usize)
    requires
        index <= x.rank_len(),
    ensures
        r == x.rank_spec(true, index as int),
{
    x.rank1_prim(index)
}

/// The clear bits of a word are the set bits of its complement.
proof fn lemma_not_word_rank(w: u64, i: int)
    requires
        0 <= i <= 64,
    ensures
        rank_of(word_bits(!w), true, i) == rank_of(word_bits(w), false, i),
    decreases i,
{
    if i > 0 {
        lemma_not_word_rank(w, i - 1);
        lemma_bit_of_not(w, i - 1);
    }
}

/// Every bit of the all-ones word is set.
proof fn lemma_all_ones_bit(i: int)
    requires
        0 <= i < 64,
    ensures
        word_bits(u64::MAX)[i],
{
    let j = i as u64;
    lemma_bit_of_shift(u64::MAX, j);
    assert((u64::MAX >> j) & 1 == 1) by (bit_vector)
        requires
            j < 64,
    ;
}

/// The all-ones word has `i` ones below bit `i`.
proof fn lemma_all_ones_rank(i: int)
    requires
        0 <= i <= 64,
    ensures
        rank_of(word_bits(u64::MAX), true, i) == i,
    decreases i,
{
    if i > 0 {
        lemma_all_ones_rank(i - 1);
        lemma_all_ones_bit(i - 1);
    }
}

/// The number of set bits of `w` below bit `i`.
fn word_rank1(w: u64, i: usize) -> (r: usize)
    requires
        i <= 64,
    ensures
        r == rank_of(word_bits(w), true, i as int),
{
    proof {
        lemma_word_rank(w, i as int);
    }
    if i == 64 {
        proof {
            lemma_word_mod_64(w);
        }
        w.count_ones() as usize
    } else {
        bzhi64(w, i as u32).count_ones() as usize
    }
}

/// The number of clear bits of `w` below bit `i`.
fn word_rank0(w: u64, i: usize) -> (r: usize)
    requires
        i <= 64,
    ensures
        r == rank_of(word_bits(w), false, i as int),
{
    proof {
        lemma_not_word_rank(w, i as int);
    }
    word_rank1(!w, i)
}

/// Bit `i` of `w`.
fn word_access(w: u64, i: usize) -> (r: bool)
    requires
        i < 64,
    ensures
        r == word_bits(w)[i as int],
{
    let j = i as u64;
    proof {
        lemma_bit_of_shift(w, j);
        assert((w & (1u64 << j)) != 0 <==> (w >> j) & 1 == 1) by (bit_vector)
            requires
                j < 64,
        ;
    }
    (w & (1u64 << j)) != 0
}

/// The position of the `j`-th (from 0) set bit of `w`.
fn word_select1(w: u64, j: usize) -> (r: usize)
    requires
        j < rank_of(word_bits(w), true, 64),
    ensures
        r == select_of(word_bits(w), true, j as int),
        r < 64,
{
    proof {
        lemma_word_rank(w, 64);
        lemma_word_mod_64(w);
        lemma_rank_sum(word_bits(w), 64);
    }
    if w == u64::MAX {
        proof {
            lemma_all_ones_rank(j as int);
            lemma_all_ones_bit(j as int);
            lemma_select_of(word_bits(w), true, j as int, j as int);
        }
        return j;
    }
    let k = j as u64;
    let one = 1u64 << k;
    let d = pdep64(one, w);
    let r = d.trailing_zeros();
    proof {
        lemma_u64_pow2_no_overflow(k as nat);
        lemma_u64_shl_is_mul(1, k);
        let p = lemma_deposit_select(w, k as nat);
        lemma_u64_pow2_no_overflow(p);
        let pp = p as u64;
        lemma_u64_shl_is_mul(1, pp);
        assert(d == 1u64 << pp);
        axiom_u64_trailing_zeros(d);
        assert(forall|t: u64| t < 64 && ((1u64 << pp) >> t) & 1u64 == 1u64 ==> t == pp)
            by (bit_vector)
            requires
                pp < 64,
        ;
        assert(d != 0);
        assert(r == pp);
        lemma_word_rank(w, p as int);
        lemma_select_of(word_bits(w), true, j as int, p as int);
    }
    r as usize
}

/// The position of the `j`-th (from 0) clear bit of `w`.
fn word_select0(w: u64, j: usize) -> (r: usize)
    requires
        j < rank_of(word_bits(w), false, 64),
    ensures
        r == select_of(word_bits(w), false, j as int),
        r < 64,
{
    proof {
        lemma_not_word_rank(w, 64);
    }
    let r = word_select1(!w, j);
    proof {
        lemma_select_of(word_bits(!w), true, j as int, r as int);
        lemma_not_word_rank(w, r as int);
        lemma_bit_of_not(w, r as int);
        lemma_select_of(word_bits(w), false, j as int, r as int);
    }
    r
}

impl Access for u64 {
    type Item = bool;

    open spec fn access_len(&self) -> nat {
        64
    }

    open spec fn access_spec(&self, index: int) -> bool {
        word_bits(*self)[index]
    }

    fn access(&self, index: usize) -> (r: bool) {
        word_access(*self, index)
    }
}

impl AccessPrim for u64 {
    fn access_prim(self, index: usize) -> (r: bool) {
        word_access(self, index)
    }
}

impl Rank for u64 {
    type Item = bool;

    open spec fn rank_len(&self) -> nat {
        64
    }

    open spec fn rank_spec(&self, item: bool, index: int) -> nat {
        rank_of(word_bits(*self), item, index)
    }

    fn rank(&self, item: bool, index: usize) -> (r: usize) {
        if item {
            word_rank1(*self, index)
        } else {
            word_rank0(*self, index)
        }
    }
}

impl RankPrim for u64 {
    fn rank_prim(self, item: bool, index: usize) -> (r: usize) {
        if item {
            word_rank1(self, index)
        } else {
            word_rank0(self, index)
        }
    }
}

impl BoolRank for u64 {
    fn rank0(&self, index: usize) -> (r: usize) {
        word_rank0(*self, index)
    }

    fn rank1(&self, index: usize) -> (r: usize) {
        word_rank1(*self, index)
    }
}

impl BoolRankPrim for u64 {
    fn rank0_prim(self, index: usize) -> (r: usize) {
        word_rank0(self, index)
    }

    fn rank1_prim(self, index: usize) -> (r: usize) {
        word_rank1(self, index)
    }
}

impl Select1 for u64 {
    open spec fn ones(&self) -> nat {
        rank_of(word_bits(*self), true, 64)
    }

    open spec fn select1_spec(&self, count: int) -> int {
        select_of(word_bits(*self), true, count)
    }

    fn select1(&self, count: usize) -> (r: usize) {
        word_select1(*self, count)
    }
}

impl Select1Prim for u64 {
    fn select1_prim(self, count: usize) -> (r: usize) {
        word_select1(self, count)
    }
}

impl Select0 for u64 {
    open spec fn zeros(&self) -> nat {
        rank_of(word_bits(*self), false, 64)
    }

    open spec fn select0_spec(&self, count: int) -> int {
        select_of(word_bits(*self), false, count)
    }

    fn select0(&self, count: usize) -> (r: usize) {
        word_select0(*self, count)
    }
}

impl Select0Prim for u64 {
    fn select0_prim(self, count: usize) -> (r: usize) {
        word_select0(self, count)
    }
}

/// The bit at a position of a word sequence is bit `index % 64` of word
/// `index / 64`.
pub(crate) proof fn lemma_words_access(ws: Seq<u64>, index: int)
    requires
        0 <= index < 64 * ws.len(),
    ensures
        words_bits(ws)[index] == word_bits(ws[index / 64])[index % 64],
{
}

/// The ones of a word sequence before `64 q + s`, for a position `s` in word `q`.
pub(crate) proof fn lemma_words_rank_in_word(ws: Seq<u64>, q: int, s: int)
    requires
        0 <= q < ws.len(),
        0 <= s < 64,
    ensures
        rank_of(words_bits(ws), true, 64 * q + s) == pop_prefix(ws, q) + rank_of(
            word_bits(ws[q]),
            true,
            s,
        ),
{
    lemma_words_rank(ws, 64 * q + s);
    lemma_word_rank(ws[q], s);
    if s == 0 {
        vstd::arithmetic::power2::lemma2_to64();
        assert(ws[q] as nat % 1 == 0);
    }
    assert((64 * q + s) / 64 == q);
    assert((64 * q + s) % 64 == s);
}

/// The clear bits of a word sequence before `64 q + s`.
pub(crate) proof fn lemma_words_rank0_in_word(ws: Seq<u64>, q: int, s: int)
    requires
        0 <= q < ws.len(),
        0 <= s < 64,
    ensures
        rank_of(words_bits(ws), false, 64 * q + s) == (64 * q - pop_prefix(ws, q)) + rank_of(
            word_bits(ws[q]),
            false,
            s,
        ),
{
    lemma_words_rank_in_word(ws, q, s);
    lemma_rank_sum(words_bits(ws), 64 * q + s);
    lemma_rank_sum(word_bits(ws[q]), s);
}

/// The ones of a whole word sequence.
pub(crate) proof fn lemma_words_ones(ws: Seq<u64>)
    ensures
        rank_of(words_bits(ws), true, 64 * ws.len() as int) == pop_prefix(ws, ws.len() as int),
{
    lemma_words_rank(ws, 64 * ws.len() as int);
    assert((64 * ws.len()) / 64 == ws.len());
    assert((64 * ws.len()) % 64 == 0);
}

/// O(1)
impl Access for Vec<u64> {
    type Item = bool;

    open spec fn access_len(&self) -> nat {
        64 * self@.len()
    }

    open spec fn access_spec(&self, index: int) -> bool {
        words_bits(self@)[index]
    }

    fn access(&self, index: usize) -> (r: bool) {
        let (q, r) = div_rem(index, 64);
        proof {
            lemma_words_access(self@, index as int);
        }
        self[q].access(r)
    }
}

/// O(n)
impl Rank for Vec<u64> {
    type Item = bool;

    open spec fn rank_len(&self) -> nat {
        64 * self@.len()
    }

    open spec fn rank_spec(&self, item: bool, index: int) -> nat {
        rank_of(words_bits(self@), item, index)
    }

    fn rank(&self, item: bool, index: usize) -> (r: usize) {
        let j = self.rank1(index);
        if item {
            j
        } else {
            proof {
                lemma_rank_sum(words_bits(self@), index as int);
            }
            index - j
        }
    }
}

/// O(n)
impl BoolRank for Vec<u64> {
    fn rank1(&self, index: usize) -> (r: usize) {
        let (q, r) = div_rem(index, 64);
        let mut a: usize = 0;
        let mut b: usize = 0;
        while b < q
            invariant
                b <= q,
                q == index / 64,
                index <= 64 * self@.len(),
                a == pop_prefix(self@, b as int),
                a <= 64 * b,
            decreases q - b,
        {
            proof {
                lemma_popcount_word(self@[b as int]);
            }
            a = a + self[b].count_ones() as usize;
            b = b + 1;
        }
        if q < self.len() {
            proof {
                lemma_words_rank_in_word(self@, q as int, r as int);
                lemma_rank_sum(word_bits(self@[q as int]), r as int);
            }
            a + self[q].rank1(r)
        } else {
            proof {
                lemma_words_ones(self@);
            }
            a
        }
    }

    fn rank0(&self, index: usize) -> (r: usize) {
        let j = self.rank1(index);
        proof {
            lemma_rank_sum(words_bits(self@), index as int);
        }
        index - j
    }
}

/// O(n); positions must be addressable, so a sequence of more than
/// `usize::MAX` bits offers no select.
impl Select1 for Vec<u64> {
    open spec fn ones(&self) -> nat {
        if 64 * self@.len() <= usize::MAX {
            rank_of(words_bits(self@), true, 64 * self@.len() as int)
        } else {
            0
        }
    }

    open spec fn select1_spec(&self, count: int) -> int {
        select_of(words_bits(self@), true, count)
    }

    fn select1(&self, count: usize) -> (r: usize) {
        proof {
            lemma_words_ones(self@);
        }
        let mut acc: usize = 0;
        let mut q: usize = 0;
        while q < self.len()
            invariant
                q <= self@.len(),
                64 * self@.len() <= usize::MAX,
                acc == pop_prefix(self@, q as int),
                acc <= count,
                count < pop_prefix(self@, self@.len() as int),
            decreases self@.len() - q,
        {
            let w = self[q];
            proof {
                lemma_popcount_word(w);
                lemma_words_ones(self@);
            }
            let d = w.count_ones() as usize;
            if count - acc < d {
                let s = w.select1(count - acc);
                proof {
                    lemma_select_of(word_bits(w), true, (count - acc) as int, s as int);
                    lemma_words_rank_in_word(self@, q as int, s as int);
                    lemma_words_access(self@, 64 * q + s);
                    assert((64 * q + s) / 64 == q);
                    assert((64 * q + s) % 64 == s);
                    lemma_select_of(words_bits(self@), true, count as int, 64 * q + s);
                }
                return 64 * q + s;
            }
            acc = acc + d;
            q = q + 1;
        }
        proof {
            assert(false);
        }
        0
    }
}

/// O(n); positions must be addressable, so a sequence of more than
/// `usize::MAX` bits offers no select.
impl Select0 for Vec<u64> {
    open spec fn zeros(&self) -> nat {
        if 64 * self@.len() <= usize::MAX {
            rank_of(words_bits(self@), false, 64 * self@.len() as int)
        } else {
            0
        }
    }

    open spec fn select0_spec(&self, count: int) -> int {
        select_of(words_bits(self@), false, count)
    }

    fn select0(&self, count: usize) -> (r: usize) {
        proof {
            lemma_words_ones(self@);
            lemma_rank_sum(words_bits(self@), 64 * self@.len() as int);
            lemma_pop_prefix_bound(self@, self@.len() as int);
        }
        let mut acc: usize = 0;
        let mut q: usize = 0;
        while q < self.len()
            invariant
                q <= self@.len(),
                64 * self@.len() <= usize::MAX,
                acc == 64 * q - pop_prefix(self@, q as int),
                acc <= count,
                count < 64 * self@.len() - pop_prefix(self@, self@.len() as int),
            decreases self@.len() - q,
        {
            let w = self[q];
            proof {
                lemma_popcount_word(w);
                lemma_rank_sum(word_bits(w), 64);
                lemma_words_ones(self@);
                lemma_rank_sum(words_bits(self@), 64 * self@.len() as int);
            }
            let d = 64 - w.count_ones() as usize;
            if count - acc < d {
                let s = w.select0(count - acc);
                proof {
                    lemma_select_of(word_bits(w), false, (count - acc) as int, s as int);
                    lemma_words_rank0_in_word(self@, q as int, s as int);
                    lemma_words_access(self@, 64 * q + s);
                    assert((64 * q + s) / 64 == q);
                    assert((64 * q + s) % 64 == s);
                    lemma_select_of(words_bits(self@), false, count as int, 64 * q + s);
                }
                return 64 * q + s;
            }
            acc = acc + d;
            q = q + 1;
        }
        proof {
            assert(false);
        }
        0
    }
}

} // verus!
