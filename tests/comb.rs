use maniac::{CombSorter, Sorter};

#[test]
fn comb_rejects_factor_at_most_eleven_ninths() {
    assert!(CombSorter::with_shrink_factor(11, 9).is_none());
    assert!(CombSorter::with_shrink_factor(1, 1).is_none());
    assert!(CombSorter::with_shrink_factor(13, 0).is_none());
    assert!(CombSorter::with_shrink_factor(0, 0).is_none());
}

#[test]
fn comb_accepts_factor_above_eleven_ninths() {
    assert!(CombSorter::with_shrink_factor(13, 10).is_some());
    assert!(CombSorter::with_shrink_factor(5, 4).is_some());
    assert!(CombSorter::with_shrink_factor(2, 1).is_some());
}

#[test]
fn comb_with_other_factors_sorts() {
    for (num, den) in [(5u64, 4u64), (2, 1), (3, 1), (100, 1)] {
        let sorter = CombSorter::with_shrink_factor(num, den).unwrap();
        let mut data: Vec<i64> = (0..200).map(|i| (i * 7919) % 211 - 100).collect();
        let mut expected = data.clone();
        expected.sort();
        sorter.sort(&mut data);
        assert_eq!(data, expected);
    }
}

#[test]
fn comb_rule_of_eleven_lengths() {
    // Lengths whose first gaps land on 9 or 10.
    for len in 1..60usize {
        let mut data: Vec<usize> = (0..len).rev().collect();
        CombSorter::default().sort(&mut data);
        let expected: Vec<usize> = (0..len).collect();
        assert_eq!(data, expected);
    }
}

#[test]
fn comb_default_factor_is_thirteen_tenths() {
    assert_eq!(CombSorter::default().shrink_factor(), (13, 10));
    let sorter = CombSorter::with_shrink_factor(7, 5).unwrap();
    assert_eq!(sorter.shrink_factor(), (7, 5));
}
