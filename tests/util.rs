use poppy::util::{binary_search, div_rem};

#[test]
fn div_rem_splits() {
    assert_eq!(div_rem(130, 64), (2, 2));
    assert_eq!(div_rem(0, 7), (0, 0));
    assert_eq!(div_rem(63, 64), (0, 63));
}

/// The first index at or after `lo` where `v[i] > t`, by a plain scan.
fn first_above(v: &[usize], lo: usize, hi: usize, t: usize) -> usize {
    (lo..hi).find(|&i| v[i] > t).unwrap_or(hi)
}

#[test]
fn binary_search_matches_scan() {
    let v: Vec<usize> = (0..300).map(|i| i / 3).collect();
    for lo in [0usize, 1, 5, 64, 150] {
        for hi in [lo, lo + 1, lo + 2, 200, 300] {
            if hi < lo || hi > v.len() {
                continue;
            }
            for t in [0usize, 1, 17, 50, 66, 99, 100, 500] {
                let got = binary_search(lo, hi, |m| v[m] > t);
                assert_eq!(got, first_above(&v, lo, hi, t), "lo {} hi {} t {}", lo, hi, t);
            }
        }
    }
}

#[test]
fn binary_search_empty_and_never() {
    assert_eq!(binary_search(4, 4, |_| true), 4);
    assert_eq!(binary_search(0, 10, |_| false), 10);
    assert_eq!(binary_search(0, 10, |_| true), 0);
    assert_eq!(binary_search(3, 1000, |m| m >= 999), 999);
}
