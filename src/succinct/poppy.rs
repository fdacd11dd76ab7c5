//! Poppy: a rank/select index over a bit array, with a three-tier summary.
//!
//! The words are grouped in blocks of 32 (2048 bits), each split into four
//! subblocks of 8 words (512 bits); 2^20 blocks (2^31 bits) make a huge unit.
//! Each huge unit records the ones before it; each block records the ones
//! before it within its unit (which fits 32 bits) and, ten bits each, the
//! ones of its first three subblocks.
use vstd::arithmetic::power2::{lemma2_to64, pow2};
use vstd::prelude::*;

use crate::bits::{
    lemma_pop_prefix_bound,
    lemma_popcount_word,
    lemma_rank_sum,
    lemma_word_rank,
    lemma_words_rank,
    pop_prefix,
    rank_of,
    select_of,
    word_bits,
    words_bits,
};
use crate::bits::{lemma_rank_monotone, lemma_select_of};
use crate::intrinsics::{bextr64, bzhi64};
use crate::succinct::{
    lemma_words_access,
    lemma_words_ones,
    lemma_words_rank0_in_word,
    lemma_words_rank_in_word,
};
use crate::util::binary_search;
use crate::succinct::{Access, BoolRank, Rank, Select0, Select1};

verus! {

/// Words per block.
pub const BLOCK_WORDS: usize = 32;

/// Words per subblock.
pub const SUBBLOCK_WORDS: usize = 8;

/// Blocks per huge unit.
pub const UNIT_BLOCKS: usize = 1048576;

/// Words per huge unit.
pub const UNIT_WORDS: usize = 33554432;

/// Field `j` (0, 1 or 2) of a block's packed subblock counts.
pub open spec fn field(packed: u32, j: int) -> int {
    if j == 0 {
        packed as int % 1024
    } else if j == 1 {
        (packed as int / 1024) % 1024
    } else {
        (packed as int / 1048576) % 1024
    }
}

/// The sum of the first `i` fields.
pub open spec fn fields_before(packed: u32, i: int) -> int {
    (if i > 0 {
        field(packed, 0)
    } else {
        0
    }) + (if i > 1 {
        field(packed, 1)
    } else {
        0
    }) + (if i > 2 {
        field(packed, 2)
    } else {
        0
    })
}

/// A block's summary: the ones before the block within its huge unit, and
/// the ones of subblocks 0, 1 and 2 packed ten bits apiece.
#[derive(Clone, Copy, Debug)]
struct Idx(u32, u32);

impl Idx {
    /// The ones before subblock `i` (0 ..= 3) within the block's huge unit.
    fn base(self, i: u32) -> (r: u32)
        requires
            i <= 3,
            self.1 < 1073741824,
            self.0 + fields_before(self.1, i as int) <= u32::MAX,
        ensures
            r == self.0 + fields_before(self.1, i as int),
    {
        let p = self.1 as u64;
        let m = bzhi64(p, 10 * i);
        let f0 = m & 1023;
        let f1 = bextr64(m, 10, 10);
        let f2 = bextr64(m, 20, 10);
        proof {
            lemma2_to64();
            assert(f0 == m % 1024) by (bit_vector)
                requires
                    f0 == m & 1023,
            ;
            if i == 0 {
                assert(m == 0);
            } else if i == 1 {
                assert(m == p % 1024);
                assert(m / 1024 == 0 && m / 1048576 == 0);
            } else if i == 2 {
                assert(m == p % 1048576);
                assert((p % 1048576) % 1024 == p % 1024) by (bit_vector);
                assert(((p % 1048576) / 1024) % 1024 == (p / 1024) % 1024) by (bit_vector);
                assert(m / 1048576 == 0);
            } else {
                assert(m == p % 1073741824);
                assert(m == p);
            }
        }
        self.0 + (f0 + f1 + f2) as u32
    }
}

/// The ones of words `a .. b`.
pub open spec fn ones_between(ws: Seq<u64>, a: int, b: int) -> int {
    pop_prefix(ws, b) - pop_prefix(ws, a)
}

/// The smaller of two integers.
pub open spec fn min_int(a: int, b: int) -> int {
    if a <= b {
        a
    } else {
        b
    }
}

/// The ones of subblock `j` of block `b`, over the words that exist.
pub open spec fn sub_ones(ws: Seq<u64>, b: int, j: int) -> int {
    ones_between(
        ws,
        min_int(32 * b + 8 * j, ws.len() as int),
        min_int(32 * b + 8 * j + 8, ws.len() as int),
    )
}

/// The first word of the huge unit that holds block `b`.
pub open spec fn unit_first_word(b: int) -> int {
    33554432 * (b / 1048576)
}

/// `e` summarizes block `b` of `ws`.
spec fn block_ok(ws: Seq<u64>, b: int, e: Idx) -> bool {
    &&& e.0 == ones_between(ws, unit_first_word(b), 32 * b)
    &&& e.1 == sub_ones(ws, b, 0) + 1024 * sub_ones(ws, b, 1) + 1048576 * sub_ones(ws, b, 2)
    &&& 0 <= sub_ones(ws, b, 0) <= 512
    &&& 0 <= sub_ones(ws, b, 1) <= 512
    &&& 0 <= sub_ones(ws, b, 2) <= 512
}

/// The ones of a run of words lie between none and 64 per word.
proof fn lemma_ones_between(ws: Seq<u64>, a: int, b: int)
    requires
        0 <= a <= b <= ws.len(),
    ensures
        0 <= ones_between(ws, a, b) <= 64 * (b - a),
    decreases b - a,
{
    if a < b {
        lemma_ones_between(ws, a, b - 1);
        lemma_popcount_word(ws[b - 1]);
    }
}

/// The smaller of two positions.
fn clip(x: usize, end: usize) -> (r: usize)
    ensures
        r == min_int(x as int, end as int),
{
    if x < end {
        x
    } else {
        end
    }
}

/// The ones of words `from .. to`, a run of at most one block.
fn run_ones(raw: &Vec<u64>, from: usize, to: usize) -> (r: u32)
    requires
        from <= to <= raw@.len(),
        to - from <= 32,
    ensures
        r == ones_between(raw@, from as int, to as int),
{
    let mut acc: u32 = 0;
    let mut k: usize = from;
    while k < to
        invariant
            from <= k <= to <= raw@.len(),
            to - from <= 32,
            acc == ones_between(raw@, from as int, k as int),
        decreases to - k,
    {
        proof {
            lemma_ones_between(raw@, from as int, k as int + 1);
        }
        acc = acc + raw[k].count_ones();
        k = k + 1;
    }
    acc
}

/// Appends the summary of the block of `k` words that starts at word `first`
/// (a whole block, or the last, partial one), given the ones `acc` before it
/// within its huge unit; returns the ones up to its end within the unit.
fn summarize_block(raw: &Vec<u64>, first: usize, k: usize, idx: &mut Vec<Idx>, acc: u32) -> (r: u32)
    requires
        first % 32 == 0,
        0 < k <= 32,
        first + k <= raw@.len(),
        k == 32 || first + k == raw@.len(),
        old(idx)@.len() == first / 32,
        acc == ones_between(raw@, unit_first_word(first as int / 32), first as int),
    ensures
        final(idx)@ == old(idx)@.push(final(idx)@.last()),
        block_ok(raw@, first as int / 32, final(idx)@.last()),
        r == ones_between(raw@, unit_first_word(first as int / 32), first + k),
{
    let ghost b: int = first as int / 32;
    let n = raw.len();
    let end = first + k;
    let s0 = run_ones(raw, first, clip(first + 8, end));
    let s1 = run_ones(raw, clip(first + 8, end), clip(first + 16, end));
    let s2 = run_ones(raw, clip(first + 16, end), clip(first + 24, end));
    let s3 = run_ones(raw, clip(first + 24, end), end);
    proof {
        let n = raw@.len() as int;
        assert(end == min_int(first + 32, n));
        assert(32 * b == first);
        assert(unit_first_word(b) <= first);
        assert(first - unit_first_word(b) <= 33554432 - 32);
        lemma_ones_between(raw@, unit_first_word(b), first + k);
        lemma_ones_between(raw@, first as int, min_int(first + 8, end as int));
        lemma_ones_between(raw@, min_int(first + 8, end as int), min_int(first + 16, end as int));
        lemma_ones_between(raw@, min_int(first + 16, end as int), min_int(first + 24, end as int));
        assert(s1 << 10 == s1 * 1024) by (bit_vector)
            requires
                s1 <= 512,
        ;
        assert(s2 << 20 == s2 * 1048576) by (bit_vector)
            requires
                s2 <= 512,
        ;
    }
    idx.push(Idx(acc, s0 + (s1 << 10) + (s2 << 20)));
    acc + s0 + s1 + s2 + s3
}

/// Appends the summaries of the `count` whole blocks that start at block
/// `first_block`, the first block of a huge unit; returns their ones.
fn summarize_unit(raw: &Vec<u64>, first_block: usize, count: usize, idx: &mut Vec<Idx>) -> (r: u32)
    requires
        first_block % 1048576 == 0,
        count <= 1048576,
        32 * (first_block + count) <= raw@.len(),
        old(idx)@.len() == first_block,
        forall|b: int| 0 <= b < first_block ==> block_ok(raw@, b, #[trigger] old(idx)@[b]),
    ensures
        final(idx)@.len() == first_block + count,
        forall|b: int| 0 <= b < first_block + count ==> block_ok(raw@, b, #[trigger] final(idx)@[b]),
        r == ones_between(raw@, 32 * first_block, 32 * (first_block + count)),
{
    let n = raw.len();
    let mut acc: u32 = 0;
    let mut i: usize = first_block;
    while i < first_block + count
        invariant
            n == raw@.len(),
            first_block % 1048576 == 0,
            count <= 1048576,
            32 * (first_block + count) <= raw@.len(),
            first_block <= i <= first_block + count,
            idx@.len() == i,
            forall|b: int| 0 <= b < i ==> block_ok(raw@, b, #[trigger] idx@[b]),
            acc == ones_between(raw@, 32 * first_block, 32 * i),
        decreases first_block + count - i,
    {
        proof {
            assert(unit_first_word(i as int) == 32 * first_block);
        }
        let ghost before = idx@;
        acc = summarize_block(raw, 32 * i, 32, idx, acc);
        proof {
            assert forall|b: int| 0 <= b < i + 1 implies block_ok(raw@, b, #[trigger] idx@[b]) by {
                if b < i {
                    assert(idx@[b] == before[b]);
                }
            }
        }
        i = i + 1;
    }
    acc
}

/// Unpacking the three ten-bit fields of a block summary.
proof fn lemma_unpack(packed: u32, s0: int, s1: int, s2: int)
    requires
        0 <= s0 <= 512,
        0 <= s1 <= 512,
        0 <= s2 <= 512,
        packed == s0 + 1024 * s1 + 1048576 * s2,
    ensures
        field(packed, 0) == s0,
        field(packed, 1) == s1,
        field(packed, 2) == s2,
        packed < 1073741824,
{
    assert(packed as int / 1024 == s1 + 1024 * s2);
    assert(packed as int / 1048576 == s2);
}

/// The ones of the subblocks before subblock `s` of block `b`, all of whose
/// words exist, are the ones from the block's first word to the subblock's.
proof fn lemma_subblocks_before(ws: Seq<u64>, b: int, s: int)
    requires
        0 <= b,
        0 <= s <= 3,
        32 * b + 8 * s <= ws.len(),
    ensures
        (if s > 0 {
            sub_ones(ws, b, 0)
        } else {
            0
        }) + (if s > 1 {
            sub_ones(ws, b, 1)
        } else {
            0
        }) + (if s > 2 {
            sub_ones(ws, b, 2)
        } else {
            0
        }) == ones_between(ws, 32 * b, 32 * b + 8 * s),
{
}

/// The occurrences of `b` in the first `wd` words.
pub open spec fn rank_words(ws: Seq<u64>, b: bool, wd: int) -> nat {
    rank_of(words_bits(ws), b, 64 * wd)
}

/// The occurrences of `b` in subblock `j` of block `bi`, over the words that
/// exist.
pub open spec fn sub_count(ws: Seq<u64>, b: bool, bi: int, j: int) -> int {
    rank_words(ws, b, min_int(32 * bi + 8 * j + 8, ws.len() as int)) - rank_words(
        ws,
        b,
        min_int(32 * bi + 8 * j, ws.len() as int),
    )
}

/// Whole words hold ones as their popcounts say, and zeros in the rest.
proof fn lemma_rank_words(ws: Seq<u64>, b: bool, wd: int)
    requires
        0 <= wd <= ws.len(),
    ensures
        rank_words(ws, b, wd) == if b {
            pop_prefix(ws, wd) as int
        } else {
            64 * wd - pop_prefix(ws, wd)
        },
{
    if wd < ws.len() {
        lemma_words_rank_in_word(ws, wd, 0);
    } else {
        lemma_words_ones(ws);
    }
    lemma_rank_sum(words_bits(ws), 64 * wd);
}

/// The occurrences of `b` before bit `s` of word `p`.
proof fn lemma_rank_words_in_word(ws: Seq<u64>, b: bool, p: int, s: int)
    requires
        0 <= p < ws.len(),
        0 <= s <= 64,
    ensures
        rank_of(words_bits(ws), b, 64 * p + s) == rank_words(ws, b, p) + rank_of(
            word_bits(ws[p]),
            b,
            s,
        ),
{
    lemma_rank_words(ws, b, p);
    if s < 64 {
        if b {
            lemma_words_rank_in_word(ws, p, s);
        } else {
            lemma_words_rank0_in_word(ws, p, s);
        }
    } else {
        lemma_rank_words(ws, b, p + 1);
        lemma_popcount_word(ws[p]);
        lemma_rank_sum(word_bits(ws[p]), 64);
    }
}

/// The occurrences of `b` grow with the number of words.
proof fn lemma_rank_words_monotone(ws: Seq<u64>, b: bool, x: int, y: int)
    requires
        x <= y,
    ensures
        rank_words(ws, b, x) <= rank_words(ws, b, y),
{
    lemma_rank_monotone(words_bits(ws), b, 64 * x, 64 * y);
}

/// Finds the subblock of a block that holds the `i`-th occurrence, given the
/// occurrences `c0`, `c1`, `c2` in its first three subblocks: returns the
/// occurrences before that subblock, and its number.
fn select_block(c0: usize, c1: usize, c2: usize, i: usize) -> (r: (usize, usize))
    requires
        c0 <= 512,
        c1 <= 512,
        c2 <= 512,
    ensures
        r.1 <= 3,
        r.0 == (if r.1 > 0 {
            c0
        } else {
            0
        }) + (if r.1 > 1 {
            c1
        } else {
            0
        }) + (if r.1 > 2 {
            c2
        } else {
            0
        }),
        r.0 <= i,
        r.1 == 0 ==> i < c0,
        r.1 == 1 ==> i < c0 + c1,
        r.1 == 2 ==> i < c0 + c1 + c2,
{
    let t0 = c0;
    if t0 > i {
        return (0, 0);
    }
    let t1 = t0 + c1;
    if t1 > i {
        return (t0, 1);
    }
    let t2 = t1 + c2;
    if t2 > i {
        return (t1, 2);
    }
    (t2, 3)
}

/// How `n` words fall into huge units, blocks and words.
proof fn lemma_layout(n: int)
    requires
        n >= 0,
    ensures
        n / 32 == 1048576 * (n / 33554432) + (n % 33554432) / 32,
        (n / 32) % 1048576 == (n % 33554432) / 32,
        n % 32 == (n % 33554432) % 32,
        (n + 31) / 32 == n / 32 + if n % 32 == 0 {
            0int
        } else {
            1int
        },
        (n + 33554431) / 33554432 == n / 33554432 + if n % 33554432 == 0 {
            0int
        } else {
            1int
        },
{
    let q = n / 33554432;
    let rem = n % 33554432;
    assert(n == 33554432 * q + rem);
    assert(n / 32 == 1048576 * q + rem / 32);
}

/// A compact rank/select index: about 3% of the bits it indexes, O(1) rank
/// and O(log n) select.
pub struct Poppy {
    huge: Vec<usize>,
    idx: Vec<Idx>,
    raw: Vec<u64>,
}

impl Poppy {
    /// The summaries agree with the words.
    #[verifier::type_invariant]
    spec fn inv(self) -> bool {
        let n = self.raw@.len() as int;
        &&& 64 * n <= usize::MAX
        &&& self.huge@.len() == (n + 33554431) / 33554432
        &&& self.idx@.len() == (n + 31) / 32
        &&& forall|h: int|
            0 <= h < self.huge@.len() ==> #[trigger] self.huge@[h] == pop_prefix(
                self.raw@,
                33554432 * h,
            )
        &&& forall|b: int| 0 <= b < self.idx@.len() ==> block_ok(self.raw@, b, #[trigger] self.idx@[b])
    }

    /// The indexed words.
    pub closed spec fn words(&self) -> Seq<u64> {
        self.raw@
    }

    /// The ones before bit `i`: the ones before its huge unit, before its
    /// subblock within the unit, before its word within the subblock, and
    /// before it within its word.
    #[verifier::rlimit(30)]
    fn ones_before(&self, i: usize) -> (r: usize)
        requires
            i < 64 * self.words().len(),
        ensures
            r == rank_of(words_bits(self.words()), true, i as int),
    {
        proof {
            use_type_invariant(self);
            lemma2_to64();
        }
        let ghost ws = self.raw@;
        let ghost n = ws.len() as int;
        let ghost q = i as int / 64;
        let w = (i / 512) * SUBBLOCK_WORDS;
        let z = bextr64(i as u64, 6, 3) as usize;
        let b = i / 2048;
        let s = bextr64(i as u64, 9, 2) as u32;
        let e = self.idx[b];
        proof {
            assert(w + z == q);
            assert(32 * b + 8 * s == w);
            assert(b < self.idx@.len());
            assert(block_ok(ws, b as int, e));
            assert(b as int / 1048576 == i as int / 2147483648);
            lemma_unpack(e.1, sub_ones(ws, b as int, 0), sub_ones(ws, b as int, 1), sub_ones(ws, b as int, 2));
            lemma_subblocks_before(ws, b as int, s as int);
            let u = unit_first_word(b as int);
            assert(u <= w);
            assert(q - u < 33554432);
            lemma_ones_between(ws, u, q);
            lemma_ones_between(ws, u, w as int);
            lemma_ones_between(ws, w as int, q);
            lemma_ones_between(ws, 0, u);
        }
        let r = run_ones(&self.raw, w, w + z);
        let h = i / 2147483648;
        let sub_base = e.base(s);
        let in_word = self.raw[w + z].rank1(i % 64);
        proof {
            lemma_word_rank(ws[q], i as int % 64);
            lemma_words_rank(ws, i as int);
            if i % 64 == 0 {
                assert(ws[q] as nat % pow2(0) == 0);
            }
            lemma_rank_sum(words_bits(ws), i as int);
        }
        self.huge[h] + (sub_base + r) as usize + in_word
    }

    /// The occurrences of `b` before huge unit `h`.
    fn unit_count(&self, b: bool, h: usize) -> (r: usize)
        requires
            h < self.huge@.len(),
        ensures
            r == rank_words(self.words(), b, 33554432 * h),
            33554432 * h < self.words().len(),
    {
        proof {
            use_type_invariant(self);
            lemma_rank_words(self.raw@, b, 33554432 * h);
            lemma_pop_prefix_bound(self.raw@, 33554432 * h);
        }
        if b {
            self.huge[h]
        } else {
            h * 2147483648 - self.huge[h]
        }
    }

    /// The occurrences of `b` before block `bi`, within its huge unit.
    fn block_count(&self, b: bool, bi: usize) -> (r: usize)
        requires
            bi < self.idx@.len(),
        ensures
            r == rank_words(self.words(), b, 32 * bi) - rank_words(
                self.words(),
                b,
                unit_first_word(bi as int),
            ),
            32 * bi < self.words().len(),
    {
        proof {
            use_type_invariant(self);
            let ws = self.raw@;
            let u = unit_first_word(bi as int);
            assert(32 * bi - u == 32 * (bi % 1048576));
            lemma_rank_words(ws, b, 32 * bi);
            lemma_rank_words(ws, b, u);
            lemma_ones_between(ws, u, 32 * bi);
        }
        let e = self.idx[bi];
        if b {
            e.0 as usize
        } else {
            2048 * (bi % UNIT_BLOCKS) - e.0 as usize
        }
    }

    /// The occurrences of `b` in subblocks 0, 1 and 2 of block `bi`.
    fn subblock_counts(&self, b: bool, bi: usize) -> (r: (usize, usize, usize))
        requires
            bi < self.idx@.len(),
        ensures
            r.0 == sub_count(self.words(), b, bi as int, 0),
            r.1 == sub_count(self.words(), b, bi as int, 1),
            r.2 == sub_count(self.words(), b, bi as int, 2),
            r.0 <= 512,
            r.1 <= 512,
            r.2 <= 512,
    {
        proof {
            use_type_invariant(self);
            lemma2_to64();
        }
        let ghost ws = self.raw@;
        let n = self.raw.len();
        let e = self.idx[bi];
        let m = e.1 as u64;
        let f0 = m & 1023;
        let f1 = bextr64(m, 10, 10);
        let f2 = bextr64(m, 20, 10);
        let first = 32 * bi;
        let a0 = clip(first, n);
        let a1 = clip(first + 8, n);
        let a2 = clip(first + 16, n);
        let a3 = clip(first + 24, n);
        proof {
            assert(f0 == m % 1024) by (bit_vector)
                requires
                    f0 == m & 1023,
            ;
            lemma_unpack(
                e.1,
                sub_ones(ws, bi as int, 0),
                sub_ones(ws, bi as int, 1),
                sub_ones(ws, bi as int, 2),
            );
            assert(block_ok(ws, bi as int, e));
            lemma_ones_between(ws, a0 as int, a1 as int);
            lemma_ones_between(ws, a1 as int, a2 as int);
            lemma_ones_between(ws, a2 as int, a3 as int);
            lemma_rank_words(ws, b, a0 as int);
            lemma_rank_words(ws, b, a1 as int);
            lemma_rank_words(ws, b, a2 as int);
            lemma_rank_words(ws, b, a3 as int);
        }
        if b {
            (f0 as usize, f1 as usize, f2 as usize)
        } else {
            (
                64 * (a1 - a0) - f0 as usize,
                64 * (a2 - a1) - f1 as usize,
                64 * (a3 - a2) - f2 as usize,
            )
        }
    }

    /// The last huge unit with at most `k` occurrences of `b` before it.
    fn find_unit(&self, b: bool, k: usize) -> (h: usize)
        requires
            k < rank_words(self.words(), b, self.words().len() as int),
        ensures
            h < self.huge@.len(),
            rank_words(self.words(), b, 33554432 * h) <= k,
            k < rank_words(
                self.words(),
                b,
                min_int(33554432 * (h + 1), self.words().len() as int),
            ),
    {
        proof {
            use_type_invariant(self);
        }
        let ghost ws = self.raw@;
        let ghost n = ws.len() as int;
        let nh = self.huge.len();
        proof {
            if n == 0 {
                assert(rank_words(ws, b, 0) == 0);
            }
        }
        let pu = |m: usize| -> (t: bool)
            requires
                m < self.huge@.len(),
            ensures
                t == (rank_words(self.raw@, b, 33554432 * m) > k),
            { self.unit_count(b, m) > k };
        proof {
            assert forall|x: usize, y: usize|
                1 <= x <= y < nh && call_ensures(pu, (x,), true) && call_ensures(pu, (y,), false)
                    implies false by {
                lemma_rank_words_monotone(ws, b, 33554432 * x, 33554432 * y);
            }
        }
        let h = binary_search(1, nh, pu) - 1;
        proof {
            if h + 1 >= nh {
                assert(min_int(33554432 * (h + 1), n) == n);
            }
        }
        h
    }

    /// The last block of huge unit `h` with at most `k` occurrences of `b`
    /// before it, where the unit holds the `k`-th occurrence and `i` are the
    /// occurrences before it from the unit's start.
    fn find_block(&self, b: bool, h: usize, k: usize, i: usize) -> (bi: usize)
        requires
            h < self.huge@.len(),
            i + rank_words(self.words(), b, 33554432 * h) == k,
            k < rank_words(
                self.words(),
                b,
                min_int(33554432 * (h + 1), self.words().len() as int),
            ),
        ensures
            bi < self.idx@.len(),
            unit_first_word(bi as int) == 33554432 * h,
            rank_words(self.words(), b, 32 * bi) <= k,
            k < rank_words(self.words(), b, min_int(32 * bi + 32, self.words().len() as int)),
    {
        proof {
            use_type_invariant(self);
        }
        let ghost ws = self.raw@;
        let ghost n = ws.len() as int;
        let nb = self.idx.len();
        let ub = h * UNIT_BLOCKS;
        let eb = clip((h + 1) * UNIT_BLOCKS, nb);
        let pb = |m: usize| -> (t: bool)
            requires
                m < self.idx@.len(),
            ensures
                t == (rank_words(self.raw@, b, 32 * m) - rank_words(
                    self.raw@,
                    b,
                    unit_first_word(m as int),
                ) > i),
            { self.block_count(b, m) > i };
        proof {
            assert(33554432 * h < n);
            assert forall|x: usize, y: usize|
                ub + 1 <= x <= y < eb && call_ensures(pb, (x,), true) && call_ensures(
                    pb,
                    (y,),
                    false,
                ) implies false by {
                assert(unit_first_word(x as int) == unit_first_word(y as int));
                lemma_rank_words_monotone(ws, b, 32 * x, 32 * y);
            }
        }
        let bi = binary_search(ub + 1, eb, pb) - 1;
        proof {
            assert(unit_first_word(bi as int) == 33554432 * h);
            if bi + 1 < eb {
                assert(32 * (bi + 1) <= n);
            } else {
                lemma_rank_words_monotone(
                    ws,
                    b,
                    min_int(33554432 * (h + 1), n),
                    min_int(32 * (bi + 1), n),
                );
            }
        }
        bi
    }

    /// The position of the `k`-th (from 0) occurrence of `b`: binary search
    /// over the huge units, then over the blocks of the unit found, then a
    /// choice among four subblocks, then a scan of at most eight words.
    fn select_bit(&self, b: bool, k: usize) -> (r: usize)
        requires
            k < rank_words(self.words(), b, self.words().len() as int),
        ensures
            r == select_of(words_bits(self.words()), b, k as int),
    {
        proof {
            use_type_invariant(self);
        }
        let ghost ws = self.raw@;
        let ghost n = ws.len() as int;
        let h = self.find_unit(b, k);
        let o = self.unit_count(b, h);
        let bi = self.find_block(b, h, k, k - o);
        let o = o + self.block_count(b, bi);
        let (c0, c1, c2) = self.subblock_counts(b, bi);
        let (sd, si) = select_block(c0, c1, c2, k - o);
        let start = 32 * bi + 8 * si;
        proof {
            if start > n {
                lemma_rank_words_monotone(ws, b, n, start as int);
            }
            assert(start <= n);
            assert(o + sd == rank_words(ws, b, start as int));
            if start == n {
                assert(false);
            }
        }
        let end = clip(start + 8, self.raw.len());
        proof {
            if si == 3 {
                assert(end == min_int(32 * bi + 32, n));
            }
        }
        self.scan_words(b, k, start, end, o + sd)
    }

    /// The position of the `k`-th occurrence of `b`, which lies in words
    /// `start .. end`, given the `o` occurrences before `start`.
    fn scan_words(&self, b: bool, k: usize, start: usize, end: usize, o: usize) -> (r: usize)
        requires
            start < end <= self.words().len(),
            o == rank_words(self.words(), b, start as int),
            o <= k < rank_words(self.words(), b, end as int),
        ensures
            r == select_of(words_bits(self.words()), b, k as int),
    {
        proof {
            use_type_invariant(self);
            lemma_rank_words_monotone(self.raw@, b, end as int, self.raw@.len() as int);
        }
        let ghost ws = self.raw@;
        let ghost n = ws.len() as int;
        let mut o = o;
        let mut i = k - o;
        let mut p = start;
        loop
            invariant
                ws == self.raw@,
                n == ws.len(),
                64 * n <= usize::MAX,
                start <= p < end <= n,
                o == rank_words(ws, b, p as int),
                o + i == k,
                k < rank_words(ws, b, end as int),
                k < rank_words(ws, b, n),
            decreases end - p,
        {
            let w = self.raw[p];
            proof {
                lemma_rank_words_in_word(ws, b, p as int, 64);
                lemma_popcount_word(w);
                lemma_rank_sum(word_bits(w), 64);
            }
            let d = if b {
                w.count_ones() as usize
            } else {
                64 - w.count_ones() as usize
            };
            if d > i {
                let s = if b {
                    w.select1(i)
                } else {
                    w.select0(i)
                };
                proof {
                    lemma_select_of(word_bits(w), b, i as int, s as int);
                    lemma_rank_words_in_word(ws, b, p as int, s as int);
                    lemma_words_access(ws, 64 * p + s);
                    assert((64 * p + s) / 64 == p);
                    assert((64 * p + s) % 64 == s);
                    assert(words_bits(ws).len() == 64 * n);
                    lemma_select_of(words_bits(ws), b, k as int, 64 * p + s);
                }
                return 64 * p + s;
            }
            proof {
                if p + 1 == end {
                    assert(false);
                }
            }
            o = o + d;
            i = i - d;
            p = p + 1;
        }
    }

    /// Builds the index over `raw` in one pass. Every block's count within its
    /// huge unit stays below 2^31, so the 32-bit fields cannot overflow.
    pub fn new(raw: Vec<u64>) -> (p: Poppy)
        requires
            64 * raw@.len() <= usize::MAX,
        ensures
            p.words() == raw@,
    {
        let n = raw.len();
        let mut idx: Vec<Idx> = Vec::new();
        let mut big: Vec<usize> = Vec::new();
        let hq = n / UNIT_WORDS;
        let mut ha: usize = 0;
        let mut h: usize = 0;
        while h < hq
            invariant
                n == raw@.len(),
                64 * n <= usize::MAX,
                hq == n / 33554432,
                h <= hq,
                big@.len() == h,
                idx@.len() == 1048576 * h,
                ha == pop_prefix(raw@, 33554432 * h),
                forall|j: int| 0 <= j < h ==> #[trigger] big@[j] == pop_prefix(raw@, 33554432 * j),
                forall|b: int| 0 <= b < idx@.len() ==> block_ok(raw@, b, #[trigger] idx@[b]),
            decreases hq - h,
        {
            proof {
                lemma_pop_prefix_bound(raw@, 33554432 * (h + 1));
            }
            big.push(ha);
            let a = summarize_unit(&raw, h * UNIT_BLOCKS, UNIT_BLOCKS, &mut idx);
            ha = ha + a as usize;
            h = h + 1;
        }
        proof {
            lemma2_to64();
            lemma_layout(n as int);
        }
        if bzhi64(n as u64, 25) != 0 {
            big.push(ha);
            let c = bextr64(n as u64, 5, 20) as usize;
            let a = summarize_unit(&raw, hq * UNIT_BLOCKS, c, &mut idx);
            let r = n % BLOCK_WORDS;
            if r != 0 {
                summarize_block(&raw, n - r, r, &mut idx, a);
            }
        }
        Poppy { huge: big, idx, raw }
    }

    /// The number of indexed words.
    pub fn len(&self) -> (r: usize)
        ensures
            r == self.words().len(),
    {
        self.raw.len()
    }

    /// Gives back the indexed words.
    pub fn into_words(self) -> (r: Vec<u64>)
        ensures
            r@ == self.words(),
    {
        self.raw
    }
}

/// O(log n)
impl Select1 for Poppy {
    open spec fn ones(&self) -> nat {
        rank_of(words_bits(self.words()), true, 64 * self.words().len() as int)
    }

    open spec fn select1_spec(&self, count: int) -> int {
        select_of(words_bits(self.words()), true, count)
    }

    fn select1(&self, count: usize) -> (r: usize) {
        self.select_bit(true, count)
    }
}

/// O(log n)
impl Select0 for Poppy {
    open spec fn zeros(&self) -> nat {
        rank_of(words_bits(self.words()), false, 64 * self.words().len() as int)
    }

    open spec fn select0_spec(&self, count: int) -> int {
        select_of(words_bits(self.words()), false, count)
    }

    fn select0(&self, count: usize) -> (r: usize) {
        self.select_bit(false, count)
    }
}

/// O(1)
impl Access for Poppy {
    type Item = bool;

    open spec fn access_len(&self) -> nat {
        64 * self.words().len()
    }

    open spec fn access_spec(&self, index: int) -> bool {
        words_bits(self.words())[index]
    }

    fn access(&self, index: usize) -> (r: bool) {
        self.raw.access(index)
    }
}

/// O(1)
impl Rank for Poppy {
    type Item = bool;

    open spec fn rank_len(&self) -> nat {
        64 * self.words().len()
    }

    open spec fn rank_spec(&self, item: bool, index: int) -> nat {
        rank_of(words_bits(self.words()), item, index)
    }

    fn rank(&self, item: bool, index: usize) -> (r: usize) {
        let j = self.rank1(index);
        if item {
            j
        } else {
            proof {
                lemma_rank_sum(words_bits(self.words()), index as int);
            }
            index - j
        }
    }
}

/// O(1)
impl BoolRank for Poppy {
    fn rank1(&self, index: usize) -> (r: usize) {
        proof {
            use_type_invariant(self);
        }
        if index < 64 * self.raw.len() {
            self.ones_before(index)
        } else if index == 0 {
            0
        } else {
            let k = index - 1;
            let before = self.ones_before(k);
            proof {
                lemma_rank_sum(words_bits(self.words()), index as int);
            }
            if self.raw.access(k) {
                before + 1
            } else {
                before
            }
        }
    }

    fn rank0(&self, index: usize) -> (r: usize) {
        let j = self.rank1(index);
        proof {
            lemma_rank_sum(words_bits(self.words()), index as int);
        }
        index - j
    }
}

} // verus!
