//! The cartesian product of lists of vertex sets.

use vstd::prelude::*;
use itertools::Itertools;
use crate::bitset::Bitset128;

verus! {

/// The number of ways to pick one entry from each list, the lists having
/// the lengths `lens`.
pub open spec fn product_size(lens: Seq<nat>) -> nat
    decreases lens.len(),
{
    if lens.len() == 0 {
        1
    } else {
        product_size(lens.drop_last()) * lens.last()
    }
}

/// The place in list `i` of the entry that pick number `t` takes from it.
/// The picks are counted with the last list running fastest.
pub open spec fn product_digit(lens: Seq<nat>, t: nat, i: int) -> nat
    decreases lens.len(),
{
    if lens.len() == 0 || lens.last() == 0 {
        0
    } else if i == lens.len() - 1 {
        t % lens.last()
    } else {
        product_digit(lens.drop_last(), t / lens.last(), i)
    }
}

/// The lengths of the lists.
pub open spec fn lengths_of(lists: Seq<Vec<Bitset128>>) -> Seq<nat> {
    Seq::new(lists.len(), |i: int| lists[i]@.len())
}

/// Whether `picks` holds every way to pick one entry from each list, in
/// the order in which the last list runs fastest.
pub open spec fn is_product(picks: Seq<Vec<Bitset128>>, lists: Seq<Vec<Bitset128>>) -> bool {
    &&& picks.len() == product_size(lengths_of(lists))
    &&& forall|t: int| 0 <= t < picks.len() ==> (#[trigger] picks[t])@.len() == lists.len()
    &&& forall|t: int, i: int|
        0 <= t < picks.len() && 0 <= i < lists.len() ==> #[trigger] picks[t]@[i] == lists[i]@[product_digit(
            lengths_of(lists),
            t as nat,
            i,
        ) as int]
}

/// `Itertools::multi_cartesian_product` over the lists, gathered: every way
/// to pick one entry from each list, the picks from the last list changing
/// fastest.  No list gives the one pick of nothing.
#[verifier::external_body]
pub(crate) fn cartesian_product(lists: Vec<Vec<Bitset128>>) -> (picks: Vec<Vec<Bitset128>>)
    ensures
        is_product(picks@, lists@),
{
    lists.into_iter().map(|l| l.into_iter()).multi_cartesian_product().collect()
}

} // verus!
