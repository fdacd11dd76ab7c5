use poppy::succinct::{Access, BoolRank, Poppy, Rank, Select0, Select1};

/// A deterministic stream of words.
fn words(n: usize, seed: u64) -> Vec<u64> {
    let mut x = seed;
    (0..n)
        .map(|i| {
            x = x.wrapping_mul(6364136223846793005).wrapping_add(1442695040888963407);
            match i % 5 {
                0 => 0,
                1 => u64::MAX,
                2 => x & (x >> 7),
                _ => x,
            }
        })
        .collect()
}

/// Checks the index against the linear scan at every position and count.
fn check_against_scan(v: Vec<u64>) {
    let p = Poppy::new(v.clone());
    let bits = 64 * v.len();
    let mut ones = 0usize;
    for i in 0..=bits {
        let r = p.rank1(i);
        assert_eq!(r, ones, "rank1({})", i);
        assert_eq!(r, v.rank1(i));
        assert_eq!(p.rank0(i), i - r);
        assert_eq!(p.rank(false, i), v.rank0(i));
        if i < bits {
            let b = p.access(i);
            assert_eq!(b, v.access(i));
            if b {
                assert_eq!(p.select1(ones), i);
                ones += 1;
            } else {
                assert_eq!(p.select0(i - ones), i);
            }
        }
    }
    for k in 0..ones {
        assert_eq!(p.select1(k), v.select1(k));
    }
    for k in 0..(bits - ones) {
        assert_eq!(p.select0(k), v.select0(k));
    }
}

#[test]
fn literal_example_00101() {
    let p = Poppy::new(vec![0b00101]);
    assert_eq!(p.rank1(3), 2);
    assert_eq!(p.select1(1), 2);
    assert!(p.access(2));
    assert!(!p.access(1));
}

#[test]
fn literal_example_11101() {
    let p = Poppy::new(vec![0b11101]);
    assert_eq!(p.rank1(1), 1);
}

#[test]
fn rank_bounds() {
    for n in [0usize, 1, 2, 31, 32, 33, 65] {
        let v = words(n, 7);
        let total: usize = v.iter().map(|w| w.count_ones() as usize).sum();
        let p = Poppy::new(v);
        assert_eq!(p.rank1(0), 0);
        assert_eq!(p.rank1(64 * n), total);
        assert_eq!(p.rank0(64 * n), 64 * n - total);
    }
}

#[test]
fn empty_index() {
    let p = Poppy::new(Vec::new());
    assert_eq!(p.len(), 0);
    assert_eq!(p.rank1(0), 0);
    assert_eq!(p.rank0(0), 0);
}

#[test]
fn agrees_with_scan_one_word() {
    check_against_scan(words(1, 1));
}

#[test]
fn agrees_with_scan_partial_block() {
    check_against_scan(words(13, 2));
}

#[test]
fn agrees_with_scan_whole_blocks() {
    check_against_scan(words(64, 3));
}

#[test]
fn agrees_with_scan_many_blocks() {
    check_against_scan(words(32 * 9 + 17, 4));
}

#[test]
fn agrees_with_scan_sparse() {
    let mut v = vec![0u64; 200];
    v[0] = 1;
    v[37] = 1 << 40;
    v[199] = 1 << 63;
    check_against_scan(v);
}

#[test]
fn agrees_with_scan_dense() {
    let mut v = vec![u64::MAX; 100];
    v[50] = 0;
    v[99] = !(1 << 5);
    check_against_scan(v);
}

#[test]
fn relations_between_operations() {
    let v = words(300, 11);
    let p = Poppy::new(v);
    let bits = 64 * p.len();
    let total = p.rank1(bits);
    for i in 0..bits {
        let step = p.rank1(i + 1) - p.rank1(i);
        assert_eq!(p.access(i), step == 1);
        assert_eq!(p.rank1(i) + p.rank0(i), i);
        assert!(p.rank1(i) <= p.rank1(i + 1));
    }
    for k in (0..total).step_by(7) {
        let s = p.select1(k);
        assert!(p.access(s));
        assert_eq!(p.rank1(s), k);
    }
    for k in (0..(bits - total)).step_by(7) {
        let s = p.select0(k);
        assert!(!p.access(s));
        assert_eq!(p.rank0(s), k);
    }
}

#[test]
fn one_bit_per_block() {
    let blocks = 70;
    let mut v = vec![0u64; 32 * blocks];
    for b in 0..blocks {
        v[32 * b + (b % 32)] = 1 << (b % 64);
    }
    let p = Poppy::new(v);
    for b in 0..blocks {
        let pos = 64 * (32 * b + (b % 32)) + (b % 64);
        assert_eq!(p.select1(b), pos);
        assert_eq!(p.rank1(pos), b);
        assert_eq!(p.rank1(pos + 1), b + 1);
    }
}

#[test]
fn into_words_gives_back_input() {
    let v = words(40, 5);
    let p = Poppy::new(v.clone());
    assert_eq!(p.into_words(), v);
}

#[test]
fn crosses_huge_unit_boundary() {
    let unit = 1usize << 25;
    let mut v = vec![0u64; unit + 1];
    v[0] = 1;
    v[unit - 1] = 1 << 63;
    v[unit] = 0b10_0001;
    let p = Poppy::new(v);
    let edge = 64 * unit;
    assert_eq!(p.rank1(0), 0);
    assert_eq!(p.rank1(1), 1);
    assert_eq!(p.rank1(edge - 1), 1);
    assert_eq!(p.rank1(edge), 2);
    assert_eq!(p.rank1(edge + 1), 3);
    assert_eq!(p.rank1(edge + 6), 4);
    assert_eq!(p.rank1(edge + 64), 4);
    assert_eq!(p.rank0(edge + 64), edge + 60);
    assert_eq!(p.select1(0), 0);
    assert_eq!(p.select1(1), edge - 1);
    assert_eq!(p.select1(2), edge);
    assert_eq!(p.select1(3), edge + 5);
    assert_eq!(p.select0(0), 1);
    assert_eq!(p.select0(edge - 3), edge - 2);
    assert_eq!(p.select0(edge - 2), edge + 1);
    assert_eq!(p.select0(edge + 59), edge + 63);
    assert!(p.access(edge - 1));
    assert!(!p.access(edge - 2));
    assert!(p.access(edge + 5));
}

#[test]
fn one_bit_per_block_across_huge_unit() {
    let blocks = (1usize << 20) + 2;
    let mut v = vec![0u64; 32 * blocks];
    for b in 0..blocks {
        v[32 * b + (b % 32)] = 1 << (b % 64);
    }
    let p = Poppy::new(v);
    for b in 0..blocks {
        let pos = 64 * (32 * b + (b % 32)) + (b % 64);
        assert_eq!(p.select1(b), pos, "block {}", b);
    }
    let unit_blocks = 1usize << 20;
    for b in [0usize, 1, unit_blocks - 1, unit_blocks, unit_blocks + 1] {
        let pos = 64 * (32 * b + (b % 32)) + (b % 64);
        assert_eq!(p.rank1(pos), b);
        assert_eq!(p.rank1(pos + 1), b + 1);
        let mut next_zero = pos + 1;
        while p.access(next_zero) {
            next_zero += 1;
        }
        assert_eq!(p.select0(pos - b), next_zero);
    }
}
