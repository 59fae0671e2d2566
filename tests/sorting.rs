use maniac::{
    BubbleSorter, CocktailShakerSorter, CombSorter, GnomeSorter, InsertionSorter, Method,
    Optimization, Sorter, StandardSorter,
};
use std::fmt::Debug;

/// Sorts `data` with `sorter`, checks the result against `expected` and
/// against the standard library's sort, and returns it.
fn run_sort<T: Ord + Debug + Clone, S: Sorter<T>>(sorter: S, mut data: Vec<T>, expected: Vec<T>) -> Vec<T> {
    let mut oracle = data.clone();
    oracle.sort();
    assert_eq!(oracle, expected);

    sorter.sort(&mut data);
    assert_eq!(data, expected);
    data
}

#[test]
fn bubble_new_len_empty_slice() {
    run_sort(BubbleSorter { optimization: Optimization::NewLen }, Vec::<i32>::new(), Vec::<i32>::new());
}

#[test]
fn bubble_new_len_single_element() {
    run_sort(BubbleSorter { optimization: Optimization::NewLen }, vec![42], vec![42]);
}

#[test]
fn bubble_new_len_already_sorted() {
    run_sort(BubbleSorter { optimization: Optimization::NewLen }, vec![1, 2, 3, 4, 5], vec![1, 2, 3, 4, 5]);
}

#[test]
fn bubble_new_len_reverse_sorted() {
    run_sort(BubbleSorter { optimization: Optimization::NewLen }, vec![5, 4, 3, 2, 1], vec![1, 2, 3, 4, 5]);
}

#[test]
fn bubble_new_len_duplicates() {
    run_sort(BubbleSorter { optimization: Optimization::NewLen }, vec![3, 1, 2, 3, 2, 1], vec![1, 1, 2, 2, 3, 3]);
}

#[test]
fn bubble_new_len_strings() {
    run_sort(BubbleSorter { optimization: Optimization::NewLen }, vec!["z", "d", "q", "a"], vec!["a", "d", "q", "z"]);
}

#[test]
fn bubble_len_minus_one_empty_slice() {
    run_sort(BubbleSorter { optimization: Optimization::LenMinusOne }, Vec::<i32>::new(), Vec::<i32>::new());
}

#[test]
fn bubble_len_minus_one_single_element() {
    run_sort(BubbleSorter { optimization: Optimization::LenMinusOne }, vec![42], vec![42]);
}

#[test]
fn bubble_len_minus_one_already_sorted() {
    run_sort(BubbleSorter { optimization: Optimization::LenMinusOne }, vec![1, 2, 3, 4, 5], vec![1, 2, 3, 4, 5]);
}

#[test]
fn bubble_len_minus_one_reverse_sorted() {
    run_sort(BubbleSorter { optimization: Optimization::LenMinusOne }, vec![5, 4, 3, 2, 1], vec![1, 2, 3, 4, 5]);
}

#[test]
fn bubble_len_minus_one_duplicates() {
    run_sort(BubbleSorter { optimization: Optimization::LenMinusOne }, vec![3, 1, 2, 3, 2, 1], vec![1, 1, 2, 2, 3, 3]);
}

#[test]
fn bubble_len_minus_one_strings() {
    run_sort(BubbleSorter { optimization: Optimization::LenMinusOne }, vec!["z", "d", "q", "a"], vec!["a", "d", "q", "z"]);
}

#[test]
fn bubble_full_pass_empty_slice() {
    run_sort(BubbleSorter { optimization: Optimization::FullPass }, Vec::<i32>::new(), Vec::<i32>::new());
}

#[test]
fn bubble_full_pass_single_element() {
    run_sort(BubbleSorter { optimization: Optimization::FullPass }, vec![42], vec![42]);
}

#[test]
fn bubble_full_pass_already_sorted() {
    run_sort(BubbleSorter { optimization: Optimization::FullPass }, vec![1, 2, 3, 4, 5], vec![1, 2, 3, 4, 5]);
}

#[test]
fn bubble_full_pass_reverse_sorted() {
    run_sort(BubbleSorter { optimization: Optimization::FullPass }, vec![5, 4, 3, 2, 1], vec![1, 2, 3, 4, 5]);
}

#[test]
fn bubble_full_pass_duplicates() {
    run_sort(BubbleSorter { optimization: Optimization::FullPass }, vec![3, 1, 2, 3, 2, 1], vec![1, 1, 2, 2, 3, 3]);
}

#[test]
fn bubble_full_pass_strings() {
    run_sort(BubbleSorter { optimization: Optimization::FullPass }, vec!["z", "d", "q", "a"], vec!["a", "d", "q", "z"]);
}

#[test]
fn cocktail_empty_slice() {
    run_sort(CocktailShakerSorter, Vec::<i32>::new(), Vec::<i32>::new());
}

#[test]
fn cocktail_single_element() {
    run_sort(CocktailShakerSorter, vec![42], vec![42]);
}

#[test]
fn cocktail_already_sorted() {
    run_sort(CocktailShakerSorter, vec![1, 2, 3, 4, 5], vec![1, 2, 3, 4, 5]);
}

#[test]
fn cocktail_reverse_sorted() {
    run_sort(CocktailShakerSorter, vec![5, 4, 3, 2, 1], vec![1, 2, 3, 4, 5]);
}

#[test]
fn cocktail_duplicates() {
    run_sort(CocktailShakerSorter, vec![3, 1, 2, 3, 2, 1], vec![1, 1, 2, 2, 3, 3]);
}

#[test]
fn cocktail_strings() {
    run_sort(CocktailShakerSorter, vec!["z", "d", "q", "a"], vec!["a", "d", "q", "z"]);
}

#[test]
fn comb_empty_slice() {
    run_sort(CombSorter::default(), Vec::<i32>::new(), Vec::<i32>::new());
}

#[test]
fn comb_single_element() {
    run_sort(CombSorter::default(), vec![42], vec![42]);
}

#[test]
fn comb_already_sorted() {
    run_sort(CombSorter::default(), vec![1, 2, 3, 4, 5], vec![1, 2, 3, 4, 5]);
}

#[test]
fn comb_reverse_sorted() {
    run_sort(CombSorter::default(), vec![5, 4, 3, 2, 1], vec![1, 2, 3, 4, 5]);
}

#[test]
fn comb_duplicates() {
    run_sort(CombSorter::default(), vec![3, 1, 2, 3, 2, 1], vec![1, 1, 2, 2, 3, 3]);
}

#[test]
fn comb_strings() {
    run_sort(CombSorter::default(), vec!["z", "d", "q", "a"], vec!["a", "d", "q", "z"]);
}

#[test]
fn gnome_empty_slice() {
    run_sort(GnomeSorter, Vec::<i32>::new(), Vec::<i32>::new());
}

#[test]
fn gnome_single_element() {
    run_sort(GnomeSorter, vec![42], vec![42]);
}

#[test]
fn gnome_already_sorted() {
    run_sort(GnomeSorter, vec![1, 2, 3, 4, 5], vec![1, 2, 3, 4, 5]);
}

#[test]
fn gnome_reverse_sorted() {
    run_sort(GnomeSorter, vec![5, 4, 3, 2, 1], vec![1, 2, 3, 4, 5]);
}

#[test]
fn gnome_duplicates() {
    run_sort(GnomeSorter, vec![3, 1, 2, 3, 2, 1], vec![1, 1, 2, 2, 3, 3]);
}

#[test]
fn gnome_strings() {
    run_sort(GnomeSorter, vec!["z", "d", "q", "a"], vec!["a", "d", "q", "z"]);
}

#[test]
fn insertion_rotate_stable_empty_slice() {
    run_sort(InsertionSorter::default(), Vec::<i32>::new(), Vec::<i32>::new());
}

#[test]
fn insertion_rotate_stable_single_element() {
    run_sort(InsertionSorter::default(), vec![42], vec![42]);
}

#[test]
fn insertion_rotate_stable_already_sorted() {
    run_sort(InsertionSorter::default(), vec![1, 2, 3, 4, 5], vec![1, 2, 3, 4, 5]);
}

#[test]
fn insertion_rotate_stable_reverse_sorted() {
    run_sort(InsertionSorter::default(), vec![5, 4, 3, 2, 1], vec![1, 2, 3, 4, 5]);
}

#[test]
fn insertion_rotate_stable_duplicates() {
    run_sort(InsertionSorter::default(), vec![3, 1, 2, 3, 2, 1], vec![1, 1, 2, 2, 3, 3]);
}

#[test]
fn insertion_rotate_stable_strings() {
    run_sort(InsertionSorter::default(), vec!["z", "d", "q", "a"], vec!["a", "d", "q", "z"]);
}

#[test]
fn insertion_rotate_unstable_empty_slice() {
    run_sort(InsertionSorter { method: Method::RotateUnstable }, Vec::<i32>::new(), Vec::<i32>::new());
}

#[test]
fn insertion_rotate_unstable_single_element() {
    run_sort(InsertionSorter { method: Method::RotateUnstable }, vec![42], vec![42]);
}

#[test]
fn insertion_rotate_unstable_already_sorted() {
    run_sort(InsertionSorter { method: Method::RotateUnstable }, vec![1, 2, 3, 4, 5], vec![1, 2, 3, 4, 5]);
}

#[test]
fn insertion_rotate_unstable_reverse_sorted() {
    run_sort(InsertionSorter { method: Method::RotateUnstable }, vec![5, 4, 3, 2, 1], vec![1, 2, 3, 4, 5]);
}

#[test]
fn insertion_rotate_unstable_duplicates() {
    run_sort(InsertionSorter { method: Method::RotateUnstable }, vec![3, 1, 2, 3, 2, 1], vec![1, 1, 2, 2, 3, 3]);
}

#[test]
fn insertion_rotate_unstable_strings() {
    run_sort(InsertionSorter { method: Method::RotateUnstable }, vec!["z", "d", "q", "a"], vec!["a", "d", "q", "z"]);
}

#[test]
fn insertion_swap_empty_slice() {
    run_sort(InsertionSorter { method: Method::Swap }, Vec::<i32>::new(), Vec::<i32>::new());
}

#[test]
fn insertion_swap_single_element() {
    run_sort(InsertionSorter { method: Method::Swap }, vec![42], vec![42]);
}

#[test]
fn insertion_swap_already_sorted() {
    run_sort(InsertionSorter { method: Method::Swap }, vec![1, 2, 3, 4, 5], vec![1, 2, 3, 4, 5]);
}

#[test]
fn insertion_swap_reverse_sorted() {
    run_sort(InsertionSorter { method: Method::Swap }, vec![5, 4, 3, 2, 1], vec![1, 2, 3, 4, 5]);
}

#[test]
fn insertion_swap_duplicates() {
    run_sort(InsertionSorter { method: Method::Swap }, vec![3, 1, 2, 3, 2, 1], vec![1, 1, 2, 2, 3, 3]);
}

#[test]
fn insertion_swap_strings() {
    run_sort(InsertionSorter { method: Method::Swap }, vec!["z", "d", "q", "a"], vec!["a", "d", "q", "z"]);
}

#[test]
fn standard_empty_slice() {
    run_sort(StandardSorter, Vec::<i32>::new(), Vec::<i32>::new());
}

#[test]
fn standard_single_element() {
    run_sort(StandardSorter, vec![42], vec![42]);
}

#[test]
fn standard_already_sorted() {
    run_sort(StandardSorter, vec![1, 2, 3, 4, 5], vec![1, 2, 3, 4, 5]);
}

#[test]
fn standard_reverse_sorted() {
    run_sort(StandardSorter, vec![5, 4, 3, 2, 1], vec![1, 2, 3, 4, 5]);
}

#[test]
fn standard_duplicates() {
    run_sort(StandardSorter, vec![3, 1, 2, 3, 2, 1], vec![1, 1, 2, 2, 3, 3]);
}

#[test]
fn standard_strings() {
    run_sort(StandardSorter, vec!["z", "d", "q", "a"], vec!["a", "d", "q", "z"]);
}

#[test]
fn bubble_new_len_longer_input() {
    let data = vec![9, -3, 7, 7, 0, 12, -8, 5, 3, 3, 100, -1, 4, 2, 11, 10, 6, 1, 8, -5, 0, 13];
    let mut expected = data.clone();
    expected.sort();
    run_sort(BubbleSorter { optimization: Optimization::NewLen }, data, expected);
}

#[test]
fn bubble_len_minus_one_longer_input() {
    let data = vec![9, -3, 7, 7, 0, 12, -8, 5, 3, 3, 100, -1, 4, 2, 11, 10, 6, 1, 8, -5, 0, 13];
    let mut expected = data.clone();
    expected.sort();
    run_sort(BubbleSorter { optimization: Optimization::LenMinusOne }, data, expected);
}

#[test]
fn bubble_full_pass_longer_input() {
    let data = vec![9, -3, 7, 7, 0, 12, -8, 5, 3, 3, 100, -1, 4, 2, 11, 10, 6, 1, 8, -5, 0, 13];
    let mut expected = data.clone();
    expected.sort();
    run_sort(BubbleSorter { optimization: Optimization::FullPass }, data, expected);
}

#[test]
fn cocktail_longer_input() {
    let data = vec![9, -3, 7, 7, 0, 12, -8, 5, 3, 3, 100, -1, 4, 2, 11, 10, 6, 1, 8, -5, 0, 13];
    let mut expected = data.clone();
    expected.sort();
    run_sort(CocktailShakerSorter, data, expected);
}

#[test]
fn comb_longer_input() {
    let data = vec![9, -3, 7, 7, 0, 12, -8, 5, 3, 3, 100, -1, 4, 2, 11, 10, 6, 1, 8, -5, 0, 13];
    let mut expected = data.clone();
    expected.sort();
    run_sort(CombSorter::default(), data, expected);
}

#[test]
fn gnome_longer_input() {
    let data = vec![9, -3, 7, 7, 0, 12, -8, 5, 3, 3, 100, -1, 4, 2, 11, 10, 6, 1, 8, -5, 0, 13];
    let mut expected = data.clone();
    expected.sort();
    run_sort(GnomeSorter, data, expected);
}

#[test]
fn insertion_rotate_stable_longer_input() {
    let data = vec![9, -3, 7, 7, 0, 12, -8, 5, 3, 3, 100, -1, 4, 2, 11, 10, 6, 1, 8, -5, 0, 13];
    let mut expected = data.clone();
    expected.sort();
    run_sort(InsertionSorter::default(), data, expected);
}

#[test]
fn insertion_rotate_unstable_longer_input() {
    let data = vec![9, -3, 7, 7, 0, 12, -8, 5, 3, 3, 100, -1, 4, 2, 11, 10, 6, 1, 8, -5, 0, 13];
    let mut expected = data.clone();
    expected.sort();
    run_sort(InsertionSorter { method: Method::RotateUnstable }, data, expected);
}

#[test]
fn insertion_swap_longer_input() {
    let data = vec![9, -3, 7, 7, 0, 12, -8, 5, 3, 3, 100, -1, 4, 2, 11, 10, 6, 1, 8, -5, 0, 13];
    let mut expected = data.clone();
    expected.sort();
    run_sort(InsertionSorter { method: Method::Swap }, data, expected);
}

#[test]
fn standard_longer_input() {
    let data = vec![9, -3, 7, 7, 0, 12, -8, 5, 3, 3, 100, -1, 4, 2, 11, 10, 6, 1, 8, -5, 0, 13];
    let mut expected = data.clone();
    expected.sort();
    run_sort(StandardSorter, data, expected);
}
