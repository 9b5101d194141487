//! What a set of vertices has to offer, whatever holds its members.

use vstd::prelude::*;
use core::ops::Range;
use crate::bitset::{is_initial_run, is_listing, remapped, within, Bitset128};

verus! {

/// A set of vertex indices.
pub trait VertexSet: Sized {
    /// The members.
    spec fn members(&self) -> Set<nat>;

    /// Whether the index can be a member.
    spec fn fits(value: usize) -> bool;

    /// The largest number of places that a relabelling can name.
    spec fn room() -> nat;

    /// The empty set.
    fn empty() -> (s: Self)
        ensures
            s.members() == Set::<nat>::empty(),
    ;

    /// The set of the indices in `vec`.
    fn from_slice(vec: &[usize]) -> (s: Self)
        requires
            forall|k: int| 0 <= k < vec@.len() ==> Self::fits(#[trigger] vec@[k]),
        ensures
            forall|i: nat| s.members().contains(i) <==> exists|k: int| 0 <= k < vec@.len() && vec@[k] == i,
    ;

    /// Adds `value` to the set.
    fn insert(&mut self, value: usize)
        requires
            Self::fits(value),
        ensures
            final(self).members() == old(self).members().insert(value as nat),
    ;

    /// The number of members.
    fn len(&self) -> (n: usize)
        ensures
            self.members().finite(),
            n == self.members().len(),
    ;

    /// Whether the set has no member.
    fn is_empty(&self) -> (b: bool)
        ensures
            b == (self.members() == Set::<nat>::empty()),
    ;

    /// The members in rising order.
    fn to_vec(&self) -> (v: Vec<usize>)
        ensures
            is_listing(v@, self.members()),
            v@.len() == self.members().len(),
    ;

    /// Whether `element` is a member.
    fn contains(&self, element: &usize) -> (b: bool)
        ensures
            b == self.members().contains(*element as nat),
    ;

    /// Adds every member of `other` to the set.
    fn union(&mut self, other: &Self)
        ensures
            final(self).members() == old(self).members().union(other.members()),
    ;

    /// The members that are not in `other`.
    fn minus(&self, other: &Self) -> (d: Self)
        ensures
            d.members() == self.members().difference(other.members()),
    ;

    /// Whether every member is a member of `other`.
    fn is_subset(&self, other: &Self) -> (b: bool)
        ensures
            b == self.members().subset_of(other.members()),
    ;

    /// Whether some member is a member of `other`.
    fn intersects(&self, other: &Self) -> (b: bool)
        ensures
            b == !self.members().disjoint(other.members()),
    ;

    /// Relabels the members: position `new` is a member afterwards where
    /// `permutation[new]` was one before.
    fn apply_node_map(&mut self, permutation: &[usize])
        requires
            permutation@.len() <= Self::room(),
        ensures
            final(self).members() == remapped(old(self).members(), permutation@),
    ;

    /// Whether the members are exactly `0, 1, ..., k - 1` for some `k`.
    fn is_flattened(&self) -> (b: bool)
        ensures
            b == is_initial_run(self.members()),
    ;

    /// Cuts the set along index ranges: the result holds, for each range, the
    /// members that lie in it.
    fn partition(&self, partitions: &[Range<usize>]) -> (p: Vec<Self>)
        requires
            forall|k: int|
                0 <= k < partitions@.len() ==> (#[trigger] partitions@[k]).start <= partitions@[k].end
                    <= Self::room(),
        ensures
            p@.len() == partitions@.len(),
            forall|k: int|
                0 <= k < p@.len() ==> (#[trigger] p@[k]).members() == within(
                    self.members(),
                    partitions@[k].start as int,
                    partitions@[k].end as int,
                ),
    ;

    /// Removes the largest member and returns it; `None` for the empty set.
    fn pop(&mut self) -> (r: Option<usize>)
        ensures
            r is None <==> old(self).members() == Set::<nat>::empty(),
            r is None ==> final(self).members() == old(self).members(),
            r matches Some(v) ==> {
                &&& old(self).members().contains(v as nat)
                &&& forall|i: nat| old(self).members().contains(i) ==> i <= v
                &&& final(self).members() == old(self).members().remove(v as nat)
            },
    ;
}

impl VertexSet for Bitset128 {
    open spec fn members(&self) -> Set<nat> {
        self@
    }

    open spec fn fits(value: usize) -> bool {
        value < 128
    }

    open spec fn room() -> nat {
        128
    }

    fn empty() -> (s: Self) {
        Bitset128::default()
    }

    fn from_slice(vec: &[usize]) -> (s: Self) {
        Bitset128::from_slice(vec)
    }

    fn insert(&mut self, value: usize) {
        Bitset128::insert(self, value)
    }

    fn len(&self) -> (n: usize) {
        Bitset128::len(self)
    }

    fn is_empty(&self) -> (b: bool) {
        Bitset128::is_empty(self)
    }

    fn to_vec(&self) -> (v: Vec<usize>) {
        Bitset128::to_vec(self)
    }

    fn contains(&self, element: &usize) -> (b: bool) {
        Bitset128::contains(self, element)
    }

    fn union(&mut self, other: &Self) {
        Bitset128::union(self, other)
    }

    fn minus(&self, other: &Self) -> (d: Self) {
        Bitset128::minus(self, other)
    }

    fn is_subset(&self, other: &Self) -> (b: bool) {
        Bitset128::is_subset(self, other)
    }

    fn intersects(&self, other: &Self) -> (b: bool) {
        Bitset128::intersects(self, other)
    }

    fn apply_node_map(&mut self, permutation: &[usize]) {
        Bitset128::apply_node_map(self, permutation)
    }

    fn is_flattened(&self) -> (b: bool) {
        Bitset128::is_flattened(self)
    }

    fn partition(&self, partitions: &[Range<usize>]) -> (p: Vec<Self>) {
        Bitset128::partition(self, partitions)
    }

    fn pop(&mut self) -> (r: Option<usize>) {
        Bitset128::pop(self)
    }
}

} // verus!
