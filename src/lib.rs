//! In-place comparison sorts behind one common `Sorter` contract: bubble,
//! cocktail-shaker, comb, gnome and insertion sort, and a baseline that calls
//! the standard library's sort.
use vstd::laws_cmp::obeys_cmp;
use vstd::prelude::*;

pub mod arrange;
pub mod bubble_sorter;
pub mod cocktail_shaker_sorter;
pub mod comb_sorter;
pub mod gnome_sorter;
pub mod insertion_sorter;
pub mod order;
pub mod standard_sorter;

pub use bubble_sorter::{BubbleSorter, Optimization};
pub use cocktail_shaker_sorter::CocktailShakerSorter;
pub use comb_sorter::CombSorter;
pub use gnome_sorter::GnomeSorter;
pub use insertion_sorter::{InsertionSorter, Method};
pub use standard_sorter::StandardSorter;
use order::sorted;

verus! {

/// A sorting strategy. Its configuration is consumed by the call.
pub trait Sorter<T> where T: Ord {
    /// Sorts `slice` in ascending order, in place. The result holds the same
    /// elements as the input, and a slice of at most one element is left as
    /// it is.
    fn sort(self, slice: &mut [T])
        requires
            obeys_cmp::<T>(),
        ensures
            sorted(final(slice)@),
            final(slice)@.to_multiset() == old(slice)@.to_multiset(),
            old(slice)@.len() <= 1 ==> final(slice)@ == old(slice)@,
    ;
}

} // verus!
