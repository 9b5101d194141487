//! The order of keys and the sorts that the canonical form rests on.

use vstd::prelude::*;
use std::cmp::Ordering;
use std::cmp::Reverse;
use crate::bitset::Bitset128;

verus! {

/// Whether `a` and `b` agree before place `k`, and there `a` is smaller or
/// ends while `b` goes on.
pub open spec fn first_below_at(a: Seq<usize>, b: Seq<usize>, k: int) -> bool {
    &&& 0 <= k <= a.len()
    &&& k <= b.len()
    &&& forall|j: int| 0 <= j < k ==> a[j] == b[j]
    &&& (k == a.len() && k < b.len()) || (k < a.len() && k < b.len() && a[k] < b[k])
}

/// Whether `a` comes before `b` in the order of the dictionary: at the first
/// place where they differ `a` is smaller, or `a` ends there and `b` goes on.
pub open spec fn lex_less(a: Seq<usize>, b: Seq<usize>) -> bool {
    exists|k: int| first_below_at(a, b, k)
}

/// Whether `p` is a rearrangement of the places `0 .. n`.
pub open spec fn is_rearrangement(p: Seq<int>, n: nat) -> bool {
    &&& p.len() == n
    &&& forall|i: int| 0 <= i < n ==> 0 <= #[trigger] p[i] < n
    &&& forall|i: int, j: int| 0 <= i < j < n ==> p[i] != p[j]
}

/// A rearrangement of `0 .. n` leaves no place out.
pub proof fn lemma_rearrangement_onto(p: Seq<int>, n: nat, e: int)
    requires
        is_rearrangement(p, n),
        0 <= e < n,
    ensures
        exists|j: int| 0 <= j < n && p[j] == e,
{
    let all = Set::new(|x: int| 0 <= x < n);
    vstd::set_lib::lemma_int_range(0, n as int);
    assert(all =~= vstd::set_lib::set_int_range(0, n as int));
    assert(p.no_duplicates());
    p.unique_seq_to_set();
    assert(p.to_set().subset_of(all)) by {
        assert forall|x: int| p.to_set().contains(x) implies all.contains(x) by {
            let j = choose|j: int| 0 <= j < p.len() && p[j] == x;
        }
    }
    vstd::set_lib::lemma_subset_equality(p.to_set(), all);
    assert(p.to_set().contains(e));
}

/// Compares two keys in the order of the dictionary.
pub fn lex_cmp(a: &Vec<usize>, b: &Vec<usize>) -> (r: Ordering)
    ensures
        r is Less <==> lex_less(a@, b@),
        r is Equal <==> a@ == b@,
        r is Greater <==> lex_less(b@, a@),
{
    let mut i: usize = 0;
    while i < a.len() && i < b.len()
        invariant
            i <= a@.len(),
            i <= b@.len(),
            forall|j: int| 0 <= j < i ==> a@[j] == b@[j],
        decreases a@.len() - i,
    {
        if a[i] < b[i] {
            proof {
                lemma_lex_first(a@, b@, i);
            }
            return Ordering::Less;
        }
        if a[i] > b[i] {
            proof {
                lemma_lex_first(b@, a@, i);
            }
            return Ordering::Greater;
        }
        i = i + 1;
    }
    if i < b.len() {
        proof {
            lemma_lex_first(a@, b@, i);
        }
        Ordering::Less
    } else if i < a.len() {
        proof {
            lemma_lex_first(b@, a@, i);
        }
        Ordering::Greater
    } else {
        proof {
            assert(a@ =~= b@);
            lemma_lex_irreflexive(a@);
        }
        Ordering::Equal
    }
}

/// No key comes before itself.
pub proof fn lemma_lex_irreflexive(a: Seq<usize>)
    ensures
        !lex_less(a, a),
{
}

/// Where two keys agree up to place `k` and the first is smaller or ends
/// there, it comes first, the second does not, and they differ.
proof fn lemma_lex_first(a: Seq<usize>, b: Seq<usize>, k: usize)
    requires
        first_below_at(a, b, k as int),
    ensures
        lex_less(a, b),
        !lex_less(b, a),
        a != b,
{
    if lex_less(b, a) {
        let m = choose|m: int| first_below_at(b, a, m);
        if m < k {
            assert(a[m] == b[m]);
        } else if m > k {
            assert(b[k as int] == a[k as int]);
        }
    }
}

/// Whether `new` holds the edges of `old` in falling order of size, edge
/// `p[i]` of `old` at place `i`, and edges of one size in their old order.
pub open spec fn is_sorted_by_size(new: Seq<Bitset128>, old: Seq<Bitset128>, p: Seq<int>) -> bool {
    &&& is_rearrangement(p, old.len())
    &&& new.len() == old.len()
    &&& forall|i: int| 0 <= i < new.len() ==> #[trigger] new[i] == old[p[i]]
    &&& forall|i: int, j: int|
        0 <= i < j < new.len() ==> new[i]@.len() > new[j]@.len() || (new[i]@.len() == new[j]@.len()
            && p[i] < p[j])
}

/// `slice::sort_by_cached_key`, with the size of an edge as its key, the
/// largest first: afterwards the edges stand in falling order of size, each
/// old edge at one new place, and edges of one size in their old order.
#[verifier::external_body]
pub(crate) fn sort_by_size(edges: &mut Vec<Bitset128>)
    ensures
        exists|p: Seq<int>| is_sorted_by_size(final(edges)@, old(edges)@, p),
{
    edges.sort_by_cached_key(|e| Reverse(e.len()));
}

/// Whether `v` holds each of `0 .. v.len()` once.
pub open spec fn is_permutation(v: Seq<usize>) -> bool {
    &&& forall|i: int| 0 <= i < v.len() ==> (#[trigger] v[i]) < v.len()
    &&& forall|i: int, j: int| 0 <= i < j < v.len() ==> v[i] != v[j]
}

/// A permutation leaves no index out.
pub proof fn lemma_permutation_onto(v: Seq<usize>, e: int)
    requires
        is_permutation(v),
        0 <= e < v.len(),
    ensures
        exists|j: int| 0 <= j < v.len() && v[j] == e,
{
    let p = Seq::new(v.len(), |i: int| v[i] as int);
    lemma_rearrangement_onto(p, v.len(), e);
    let j = choose|j: int| 0 <= j < v.len() && p[j] == e;
    assert(v[j] == e);
}

/// Whether `new` holds the numbers of `old` in rising order, number `p[i]`
/// of `old` at place `i`.
pub open spec fn is_sorted_keys(new: Seq<usize>, old: Seq<usize>, p: Seq<int>) -> bool {
    &&& is_rearrangement(p, old.len())
    &&& new.len() == old.len()
    &&& forall|i: int| 0 <= i < new.len() ==> #[trigger] new[i] == old[p[i]]
    &&& forall|i: int, j: int| 0 <= i < j < new.len() ==> new[i] <= new[j]
}

/// `slice::sort_unstable` on numbers: afterwards they stand in rising order,
/// each old one at one new place.
#[verifier::external_body]
pub(crate) fn sort_keys(key: &mut Vec<usize>)
    ensures
        exists|p: Seq<int>| is_sorted_keys(final(key)@, old(key)@, p),
{
    key.sort_unstable();
}

/// Whether `new` is `old` with the places `start .. end` rearranged so that
/// the keys of the entries there never fall: entry `p[i]` of `old` stands at
/// place `i`.
pub open spec fn is_sorted_block(
    new: Seq<usize>,
    old: Seq<usize>,
    start: usize,
    end: usize,
    keys: Seq<Vec<usize>>,
    p: Seq<int>,
) -> bool {
    &&& is_rearrangement(p, old.len())
    &&& new.len() == old.len()
    &&& forall|i: int| 0 <= i < new.len() ==> #[trigger] new[i] == old[p[i]]
    &&& forall|i: int| 0 <= i < new.len() && !(start <= i < end) ==> #[trigger] p[i] == i
    &&& forall|i: int| start <= i < end ==> start <= #[trigger] p[i] < end
    &&& forall|i: int, j: int|
        start <= i < j < end ==> !lex_less(
            keys[#[trigger] new[j] as int]@,
            keys[#[trigger] new[i] as int]@,
        )
}

/// `slice::sort_unstable_by` on the places `start .. end`, which hold indices
/// into `keys`, by the dictionary order of the keys: afterwards the keys of
/// the entries there never fall, each old entry stands at one new place, and
/// the other places are as they were.
#[verifier::external_body]
pub(crate) fn sort_block(permutation: &mut Vec<usize>, start: usize, end: usize, keys: &Vec<Vec<usize>>)
    requires
        start <= end <= old(permutation)@.len(),
        forall|i: int| start <= i < end ==> (#[trigger] old(permutation)@[i]) < keys@.len(),
    ensures
        exists|p: Seq<int>|
            is_sorted_block(final(permutation)@, old(permutation)@, start, end, keys@, p),
{
    permutation[start..end].sort_unstable_by(|a, b| lex_cmp(&keys[*a], &keys[*b]));
}

/// Rearranging a permutation gives a permutation.
pub proof fn lemma_rearranged_permutation(new: Seq<usize>, old: Seq<usize>, p: Seq<int>)
    requires
        is_permutation(old),
        is_rearrangement(p, old.len()),
        new.len() == old.len(),
        forall|i: int| 0 <= i < new.len() ==> #[trigger] new[i] == old[p[i]],
    ensures
        is_permutation(new),
{
    assert forall|i: int, j: int| 0 <= i < j < new.len() implies new[i] != new[j] by {
        assert(p[i] != p[j]);
        if p[i] < p[j] {
            assert(old[p[i]] != old[p[j]]);
        } else {
            assert(old[p[j]] != old[p[i]]);
        }
    }
}

} // verus!
