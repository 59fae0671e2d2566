use maniac::{
    BubbleSorter, CocktailShakerSorter, CombSorter, GnomeSorter, InsertionSorter, Method,
    Optimization, Sorter, StandardSorter,
};

fn sorted_input() -> [i32; 18] {
    [0, 1, 2, 3, 4, 5, 6, 7, 8, 9, 10, 11, 12, 13, 14, 15, 16, 17]
}

#[test]
fn debug() {
    let expected = sorted_input();
    let mut slice = sorted_input();
    BubbleSorter { optimization: Optimization::FullPass }.sort(&mut slice);
    CocktailShakerSorter.sort(&mut slice);
    CombSorter::default().sort(&mut slice);
    GnomeSorter.sort(&mut slice);
    InsertionSorter { method: Method::RotateUnstable }.sort(&mut slice);
    StandardSorter.sort(&mut slice);
    assert_eq!(slice, expected);
}
