//! The mathematical model: words as numbers, bit strings as `Seq<bool>`,
//! and counting over them.
use vstd::arithmetic::div_mod::{lemma_basic_div, lemma_div_denominator, lemma_mod_breakdown};
use vstd::arithmetic::power2::{
    lemma2_to64,
    lemma2_to64_rest,
    lemma_pow2_pos,
    lemma_pow2_strictly_increases,
    lemma_pow2_unfold,
    pow2,
};
use vstd::bits::lemma_u64_shr_is_div;
use vstd::prelude::*;

verus! {

/// The number of ones in the binary representation of `x`.
pub open spec fn popcount(x: nat) -> nat
    decreases x,
{
    if x == 0 {
        0
    } else {
        x % 2 + popcount(x / 2)
    }
}

/// Parallel bit deposit: walking the bits of `mask` from the lowest up, each
/// set bit takes the next low bit of `x`; clear bits of `mask` give zero.
pub open spec fn deposit(x: nat, mask: nat) -> nat
    decreases mask,
{
    if mask == 0 {
        0
    } else if mask % 2 == 1 {
        x % 2 + 2 * deposit(x / 2, mask / 2)
    } else {
        2 * deposit(x, mask / 2)
    }
}

/// Bit `i` of `x`, counted from the least significant bit.
pub open spec fn bit_of(x: nat, i: nat) -> bool {
    (x / pow2(i)) % 2 == 1
}

/// The 64 bits of a word, least significant first.
pub open spec fn word_bits(w: u64) -> Seq<bool> {
    Seq::new(64, |i: int| bit_of(w as nat, i as nat))
}

/// The bits of a sequence of words: word `q` holds positions `64q .. 64q+64`.
pub open spec fn words_bits(ws: Seq<u64>) -> Seq<bool> {
    Seq::new(64 * ws.len(), |i: int| bit_of(ws[i / 64] as nat, (i % 64) as nat))
}

/// The number of positions before `i` that hold `b`.
pub open spec fn rank_of(s: Seq<bool>, b: bool, i: int) -> nat
    decreases i,
{
    if i <= 0 {
        0
    } else {
        rank_of(s, b, i - 1) + if s[i - 1] == b {
            1nat
        } else {
            0nat
        }
    }
}

/// `p` is where the `k`-th (from 0) occurrence of `b` in `s` stands.
pub open spec fn is_select(s: Seq<bool>, b: bool, k: int, p: int) -> bool {
    0 <= p < s.len() && s[p] == b && rank_of(s, b, p) == k
}

/// The position of the `k`-th (from 0) occurrence of `b` in `s`, for
/// `k < rank_of(s, b, s.len())`.
pub open spec fn select_of(s: Seq<bool>, b: bool, k: int) -> int {
    choose|p: int| is_select(s, b, k, p)
}

/// The number of ones in the first `n` words.
pub open spec fn pop_prefix(ws: Seq<u64>, n: int) -> nat
    decreases n,
{
    if n <= 0 {
        0
    } else {
        pop_prefix(ws, n - 1) + popcount(ws[n - 1] as nat)
    }
}

/// A word has at most 64 ones.
pub proof fn lemma_popcount_word(w: u64)
    ensures
        popcount(w as nat) <= 64,
        popcount(w as nat) == rank_of(word_bits(w), true, 64),
{
    lemma_word_rank(w, 64);
    lemma_word_mod_64(w);
    lemma_rank_sum(word_bits(w), 64);
}

/// The ones before position `i` of a word sequence: those of the whole words
/// before it, then those of its own word below it.
pub proof fn lemma_words_rank(ws: Seq<u64>, i: int)
    requires
        0 <= i <= 64 * ws.len(),
    ensures
        rank_of(words_bits(ws), true, i) == pop_prefix(ws, i / 64) + if i % 64 == 0 {
            0nat
        } else {
            popcount(ws[i / 64] as nat % pow2((i % 64) as nat))
        },
    decreases i,
{
    if i > 0 {
        lemma_words_rank(ws, i - 1);
        let q = (i - 1) / 64;
        let r = (i - 1) % 64;
        let x = ws[q] as nat;
        assert(words_bits(ws)[i - 1] == bit_of(x, r as nat));
        lemma_popcount_low_succ(x, r as nat);
        let bit: nat = if bit_of(x, r as nat) {
            1
        } else {
            0
        };
        let a = rank_of(words_bits(ws), true, i);
        let b = rank_of(words_bits(ws), true, i - 1);
        let c = popcount(x % pow2(r as nat));
        let d = popcount(x % pow2((r + 1) as nat));
        let p = pop_prefix(ws, q);
        assert(a == b + bit);
        assert(d == c + bit);
        if r == 0 {
            lemma2_to64();
            assert(x % pow2(r as nat) == 0);
            assert(popcount(0) == 0);
            assert(c == 0);
        }
        assert(b == p + c);
        if r == 63 {
            lemma_word_mod_64(ws[q]);
            assert(pop_prefix(ws, q + 1) == p + popcount(x));
            assert(i / 64 == q + 1 && i % 64 == 0);
            assert(a == p + popcount(x)) by (nonlinear_arith)
                requires
                    a == b + bit,
                    b == p + c,
                    d == c + bit,
                    d == popcount(x),
            ;
        } else {
            assert(i / 64 == q && i % 64 == r + 1);
            assert(a == p + d) by (nonlinear_arith)
                requires
                    a == b + bit,
                    b == p + c,
                    d == c + bit,
            ;
            assert(pop_prefix(ws, i / 64) == p);
            assert(popcount(ws[i / 64] as nat % pow2((i % 64) as nat)) == d);
        }
    }
}

/// The ones of the first `n` words number at most `64 n`.
pub proof fn lemma_pop_prefix_bound(ws: Seq<u64>, n: int)
    requires
        0 <= n <= ws.len(),
    ensures
        pop_prefix(ws, n) <= 64 * n,
    decreases n,
{
    if n > 0 {
        lemma_pop_prefix_bound(ws, n - 1);
        lemma_popcount_word(ws[n - 1]);
    }
}

/// Adding a bit above all the bits of `a` adds that bit to the count.
pub proof fn lemma_popcount_high_bit(a: nat, b: nat, r: nat)
    requires
        a < pow2(r),
        b <= 1,
    ensures
        popcount(a + pow2(r) * b) == popcount(a) + b,
    decreases r,
{
    if r == 0 {
        lemma2_to64();
    } else {
        lemma_pow2_unfold(r);
        let p = pow2((r - 1) as nat);
        lemma_pow2_pos((r - 1) as nat);
        if b == 1 {
            let x = a + pow2(r) * b;
            assert(x == a + 2 * p);
            assert(x % 2 == a % 2);
            assert(x / 2 == a / 2 + p);
            lemma_popcount_high_bit(a / 2, 1, (r - 1) as nat);
            if a == 0 {
                assert(popcount(0) == 0);
            }
        } else {
            assert(a + pow2(r) * b == a);
        }
    }
}

/// `x` modulo `2^(r+1)` splits into `x` modulo `2^r` and bit `r`.
pub proof fn lemma_mod_pow2_succ(x: nat, r: nat)
    ensures
        x % pow2(r + 1) == x % pow2(r) + pow2(r) * ((x / pow2(r)) % 2),
{
    lemma_pow2_pos(r);
    lemma_pow2_unfold(r + 1);
    lemma_mod_breakdown(x as int, pow2(r) as int, 2);
}

/// The count of ones below bit `r+1` is the count below bit `r`, plus bit `r`.
pub proof fn lemma_popcount_low_succ(x: nat, r: nat)
    ensures
        popcount(x % pow2(r + 1)) == popcount(x % pow2(r)) + if bit_of(x, r) {
            1nat
        } else {
            0nat
        },
{
    lemma_pow2_pos(r);
    lemma_mod_pow2_succ(x, r);
    lemma_popcount_high_bit(x % pow2(r), (x / pow2(r)) % 2, r);
}

/// Counting the ones of a word's bits below `i` is taking the popcount of the
/// word modulo `2^i`.
pub proof fn lemma_word_rank(w: u64, i: int)
    requires
        0 <= i <= 64,
    ensures
        rank_of(word_bits(w), true, i) == popcount(w as nat % pow2(i as nat)),
    decreases i,
{
    if i == 0 {
        lemma2_to64();
        assert(w as nat % 1 == 0);
    } else {
        lemma_word_rank(w, i - 1);
        lemma_popcount_low_succ(w as nat, (i - 1) as nat);
    }
}

/// A word is its own remainder modulo `2^64`.
pub proof fn lemma_word_mod_64(w: u64)
    ensures
        w as nat % pow2(64) == w as nat,
{
    lemma2_to64_rest();
}

/// Bit `i` of a word, as the shift-and-mask that code tests.
pub proof fn lemma_bit_of_shift(w: u64, i: u64)
    requires
        i < 64,
    ensures
        bit_of(w as nat, i as nat) == ((w >> i) & 1 == 1),
{
    lemma_u64_shr_is_div(w, i);
    let y = w >> i;
    assert(y & 1 == y % 2) by (bit_vector);
}

/// Bit `i` of the complement of a word is the negation of bit `i`.
pub proof fn lemma_bit_of_not(w: u64, i: int)
    requires
        0 <= i < 64,
    ensures
        bit_of((!w) as nat, i as nat) == !bit_of(w as nat, i as nat),
{
    let j = i as u64;
    lemma_bit_of_shift(w, j);
    lemma_bit_of_shift(!w, j);
    assert(((!w) >> j) & 1 == 1 <==> !((w >> j) & 1 == 1)) by (bit_vector)
        requires
            j < 64,
    ;
}

/// Before position `i`, the positions holding `true` and those holding `false`
/// make up all `i`.
pub proof fn lemma_rank_sum(s: Seq<bool>, i: int)
    requires
        0 <= i <= s.len(),
    ensures
        rank_of(s, true, i) + rank_of(s, false, i) == i,
    decreases i,
{
    if i > 0 {
        lemma_rank_sum(s, i - 1);
    }
}

/// Counts never decrease as the position grows.
pub proof fn lemma_rank_monotone(s: Seq<bool>, b: bool, i: int, j: int)
    requires
        i <= j,
    ensures
        rank_of(s, b, i) <= rank_of(s, b, j),
    decreases j - i,
{
    if i < j {
        lemma_rank_monotone(s, b, i, j - 1);
    }
}

/// Every occurrence below the total count has a position.
pub proof fn lemma_select_exists(s: Seq<bool>, b: bool, k: int, n: int)
    requires
        0 <= k < rank_of(s, b, n),
        n <= s.len(),
    ensures
        exists|p: int| p < n && #[trigger] is_select(s, b, k, p),
    decreases n,
{
    if n > 0 {
        if k < rank_of(s, b, n - 1) {
            lemma_select_exists(s, b, k, n - 1);
            let p = choose|p: int| p < n - 1 && #[trigger] is_select(s, b, k, p);
            assert(p < n && is_select(s, b, k, p));
        } else {
            assert(is_select(s, b, k, n - 1));
        }
    }
}

/// At most one position answers a select.
pub proof fn lemma_select_unique(s: Seq<bool>, b: bool, k: int, p: int, q: int)
    requires
        is_select(s, b, k, p),
        is_select(s, b, k, q),
    ensures
        p == q,
{
    if p < q {
        lemma_rank_monotone(s, b, p + 1, q);
    } else if q < p {
        lemma_rank_monotone(s, b, q + 1, p);
    }
}

/// `select_of` answers every count below the total, and is the only answer.
pub proof fn lemma_select_of(s: Seq<bool>, b: bool, k: int, p: int)
    requires
        0 <= k < rank_of(s, b, s.len() as int),
    ensures
        is_select(s, b, k, select_of(s, b, k)),
        is_select(s, b, k, p) ==> p == select_of(s, b, k),
{
    lemma_select_exists(s, b, k, s.len() as int);
    if is_select(s, b, k, p) {
        lemma_select_unique(s, b, k, p, select_of(s, b, k));
    }
}

/// The position of the `j`-th (from 0) set bit of `m`, counted from the
/// least significant bit.
spec fn low_select(m: nat, j: nat) -> nat
    decreases m,
{
    if m == 0 {
        0
    } else if m % 2 == 1 {
        if j == 0 {
            0
        } else {
            1 + low_select(m / 2, (j - 1) as nat)
        }
    } else {
        1 + low_select(m / 2, j)
    }
}

/// Depositing nothing gives nothing.
proof fn lemma_deposit_zero(m: nat)
    ensures
        deposit(0, m) == 0,
    decreases m,
{
    if m > 0 {
        lemma_deposit_zero(m / 2);
    }
}

/// Shifting a number up by one bit: its count and its bits move with it.
proof fn lemma_double_plus(a: nat, c: nat)
    requires
        c <= 1,
    ensures
        popcount(2 * a + c) == popcount(a) + c,
        (2 * a + c) % 2 == c,
        (2 * a + c) / 2 == a,
{
}

/// Bit `p+1` of `m` is bit `p` of `m / 2`, and the bits of `m` below `p+1`
/// are bit 0 and, above it, the bits of `m / 2` below `p`.
proof fn lemma_halve(m: nat, p: nat)
    ensures
        bit_of(m, p + 1) == bit_of(m / 2, p),
        m % pow2(p + 1) == 2 * ((m / 2) % pow2(p)) + m % 2,
{
    lemma_pow2_pos(p);
    lemma_pow2_unfold(p + 1);
    lemma_div_denominator(m as int, 2, pow2(p) as int);
    lemma_mod_breakdown(m as int, 2, pow2(p) as int);
}

/// Depositing the single bit `2^j` into `m` lands on the `j`-th set bit of `m`.
proof fn lemma_deposit_one(m: nat, j: nat)
    requires
        j < popcount(m),
    ensures
        deposit(pow2(j), m) == pow2(low_select(m, j)),
        bit_of(m, low_select(m, j)),
        popcount(m % pow2(low_select(m, j))) == j,
    decreases m,
{
    let p = low_select(m, j);
    lemma_pow2_pos(j);
    lemma2_to64();
    lemma_double_plus(m / 2, m % 2);
    if j > 0 {
        lemma_pow2_unfold(j);
    }
    if m % 2 == 1 && j == 0 {
        lemma_deposit_zero(m / 2);
        assert(m % pow2(0) == 0);
        assert(m / pow2(0) == m);
    } else {
        let j2: nat = if m % 2 == 1 {
            (j - 1) as nat
        } else {
            j
        };
        lemma_deposit_one(m / 2, j2);
        let p2 = low_select(m / 2, j2);
        assert(p == p2 + 1);
        lemma_halve(m, p2);
        lemma_pow2_unfold(p);
        lemma_double_plus((m / 2) % pow2(p2), m % 2);
        if m % 2 == 1 {
            assert(pow2(j) / 2 == pow2(j2));
            assert(pow2(j) % 2 == 0);
        }
    }
}

/// For `j` below the popcount of a word `w`, `2^j` deposited into `w` is
/// `2^p` for the position `p < 64` of the `j`-th set bit of `w`.
pub proof fn lemma_deposit_select(w: u64, j: nat) -> (p: nat)
    requires
        j < popcount(w as nat),
    ensures
        p < 64,
        deposit(pow2(j), w as nat) == pow2(p),
        bit_of(w as nat, p),
        popcount(w as nat % pow2(p)) == j,
{
    let p = low_select(w as nat, j);
    lemma_deposit_one(w as nat, j);
    lemma_pow2_pos(p);
    lemma2_to64_rest();
    if p >= 64 {
        if p > 64 {
            lemma_pow2_strictly_increases(64, p);
        }
        lemma_basic_div(w as int, pow2(p) as int);
    }
    p
}

} // verus!
