use poppy::succinct::{
    access, access_prim, rank, rank0, rank0_prim, rank1, rank1_prim, rank_prim, select0,
    select0_prim, select1, select1_prim, Access, BoolRank, Rank, Select0, Select1,
};

#[test]
fn word_rank1_counts_low_bits() {
    let w: u64 = 0b1011_0110;
    assert_eq!(w.rank1(0), 0);
    assert_eq!(w.rank1(1), 0);
    assert_eq!(w.rank1(2), 1);
    assert_eq!(w.rank1(3), 2);
    assert_eq!(w.rank1(8), 5);
    assert_eq!(w.rank1(64), 5);
    assert_eq!(u64::MAX.rank1(64), 64);
    assert_eq!(u64::MAX.rank1(63), 63);
}

#[test]
fn word_rank0_counts_low_clear_bits() {
    let w: u64 = 0b1011_0110;
    assert_eq!(w.rank0(0), 0);
    assert_eq!(w.rank0(1), 1);
    assert_eq!(w.rank0(8), 3);
    assert_eq!(w.rank0(64), 59);
    assert_eq!(0u64.rank0(64), 64);
}

#[test]
fn word_rank_with_item() {
    let w: u64 = 0b1011_0110;
    assert_eq!(w.rank(true, 5), 3);
    assert_eq!(w.rank(false, 5), 2);
    assert_eq!(rank(&w, true, 8), 5);
    assert_eq!(rank_prim(w, false, 8), 3);
}

#[test]
fn word_access_reads_bits() {
    let w: u64 = 0b1011_0110;
    assert!(!w.access(0));
    assert!(w.access(1));
    assert!(w.access(2));
    assert!(!w.access(3));
    assert!(w.access(7));
    assert!(!w.access(63));
    assert!((1u64 << 63).access(63));
    assert!(access(&w, 4));
    assert!(!access_prim(w, 6));
}

#[test]
fn word_select1_finds_set_bits() {
    let w: u64 = 0b1011_0110;
    assert_eq!(w.select1(0), 1);
    assert_eq!(w.select1(1), 2);
    assert_eq!(w.select1(2), 4);
    assert_eq!(w.select1(3), 5);
    assert_eq!(w.select1(4), 7);
    assert_eq!((1u64 << 63).select1(0), 63);
    assert_eq!(u64::MAX.select1(63), 63);
    assert_eq!(select1(&w, 2), 4);
    assert_eq!(select1_prim(w, 4), 7);
}

#[test]
fn word_select0_finds_clear_bits() {
    let w: u64 = 0b1011_0110;
    assert_eq!(w.select0(0), 0);
    assert_eq!(w.select0(1), 3);
    assert_eq!(w.select0(2), 6);
    assert_eq!(w.select0(3), 8);
    assert_eq!(0u64.select0(63), 63);
    assert_eq!((u64::MAX >> 1).select0(0), 63);
    assert_eq!(select0(&w, 1), 3);
    assert_eq!(select0_prim(w, 2), 6);
}

#[test]
fn word_free_functions_forward() {
    let w: u64 = 0xF0F0;
    assert_eq!(rank1(&w, 16), 8);
    assert_eq!(rank0(&w, 16), 8);
    assert_eq!(rank1_prim(w, 8), 4);
    assert_eq!(rank0_prim(w, 8), 4);
}

#[test]
fn word_select_then_rank_round_trip() {
    let w: u64 = 0x8421_0000_F00F_1234;
    let ones = w.count_ones() as usize;
    for k in 0..ones {
        let p = w.select1(k);
        assert!(w.access(p));
        assert_eq!(w.rank1(p), k);
    }
    for k in 0..(64 - ones) {
        let p = w.select0(k);
        assert!(!w.access(p));
        assert_eq!(w.rank0(p), k);
    }
}

#[test]
fn scan_reference_over_words() {
    let v: Vec<u64> = vec![0b101, 0, u64::MAX, 1 << 63];
    assert_eq!(v.rank1(0), 0);
    assert_eq!(v.rank1(3), 2);
    assert_eq!(v.rank1(64), 2);
    assert_eq!(v.rank1(128), 2);
    assert_eq!(v.rank1(192), 66);
    assert_eq!(v.rank1(256), 67);
    assert_eq!(v.rank0(256), 189);
    assert_eq!(v.rank(false, 64), 62);
    assert!(v.access(2));
    assert!(!v.access(64));
    assert!(v.access(255));
    assert_eq!(v.select1(0), 0);
    assert_eq!(v.select1(1), 2);
    assert_eq!(v.select1(2), 128);
    assert_eq!(v.select1(66), 255);
    assert_eq!(v.select0(0), 1);
    assert_eq!(v.select0(1), 3);
    assert_eq!(v.select0(62), 64);
}
