//! The dense vertex set: up to 128 vertices in one machine word.

use vstd::prelude::*;
use core::ops::Range;
use crate::bits::{
    bit_at, bit_count, bits_below, is_low_run, lemma_bit_and, lemma_bit_and_not,
    lemma_bit_count_clear, lemma_bit_count_is_len, lemma_bit_or,
    lemma_bit_range, lemma_bit_single, lemma_bit_zero, lemma_bits_zero,
    lemma_low_run, lemma_low_run_count, next_word, range_mask,
};

verus! {

/// A set of vertex indices below 128, held as a bit mask.
#[derive(Clone, Copy, Debug, Hash, PartialOrd, Ord)]
pub struct Bitset128(pub u128);

impl View for Bitset128 {
    type V = Set<nat>;

    open spec fn view(&self) -> Set<nat> {
        bits_below(self.0, 128)
    }
}

/// Whether `v` lists the members of `s` in rising order, each once.
pub open spec fn is_listing(v: Seq<usize>, s: Set<nat>) -> bool {
    &&& forall|i: int, j: int| 0 <= i < j < v.len() ==> v[i] < v[j]
    &&& forall|i: int| 0 <= i < v.len() ==> s.contains(#[trigger] v[i] as nat)
    &&& forall|x: nat| s.contains(x) ==> exists|i: int| 0 <= i < v.len() && v[i] == x
}

/// Whether the members of `s` are exactly `0, 1, ..., k - 1` for some `k`.
pub open spec fn is_initial_run(s: Set<nat>) -> bool {
    forall|i: nat| s.contains(i) <==> i < s.len()
}

/// The members of `s` that lie in `start <= i < end`.
pub open spec fn within(s: Set<nat>, start: int, end: int) -> Set<nat> {
    Set::new(|i: nat| s.contains(i) && start <= i < end)
}

/// The image of `s` under the relabelling that gives position `new` the
/// vertex `map[new]`.
pub open spec fn remapped(s: Set<nat>, map: Seq<usize>) -> Set<nat> {
    Set::new(|new: nat| new < map.len() && s.contains(map[new as int] as nat))
}

impl PartialEq for Bitset128 {
    fn eq(&self, other: &Self) -> (b: bool)
    {
        self.0 == other.0
    }
}

impl Eq for Bitset128 {}

impl vstd::std_specs::cmp::PartialEqSpecImpl for Bitset128 {
    open spec fn obeys_eq_spec() -> bool {
        true
    }

    open spec fn eq_spec(&self, other: &Self) -> bool {
        self.0 == other.0
    }
}

impl Default for Bitset128 {
    /// The empty set.
    fn default() -> (s: Self)
        ensures
            s.0 == 0,
            s@ == Set::<nat>::empty(),
    {
        let s = Bitset128(0);
        proof {
            s.lemma_view();
            assert forall|i: nat| !s@.contains(i) by {
                lemma_bit_zero(i as u128);
            }
            assert(s@ =~= Set::<nat>::empty());
        }
        s
    }
}

impl Bitset128 {
    /// What membership means for the mask: the members are the positions of
    /// the set bits, there are at most 128 of them, and two sets with the same
    /// members have the same mask.
    pub proof fn lemma_view(&self)
        ensures
            self@.finite(),
            self@.len() == bit_count(self.0, 128),
            self@.len() <= 128,
            forall|i: nat| self@.contains(i) <==> i < 128 && bit_at(self.0, i as u128),
            forall|i: nat| self@.contains(i) ==> i < 128,
    {
        lemma_bit_count_is_len(self.0, 128);
        crate::bits::lemma_bit_count_monotone(self.0, 0, 128);
    }

    /// Two sets have the same members exactly where their masks are the
    /// same.
    pub proof fn lemma_same_members(&self, other: Self)
        ensures
            (self@ == other@) <==> self.0 == other.0,
    {
        self.lemma_view();
        other.lemma_view();
        if self@ == other@ {
            assert forall|i: u128| i < 128 implies bit_at(self.0, i) == bit_at(other.0, i) by {
                assert(self@.contains(i as nat) == other@.contains(i as nat));
            }
            crate::bits::lemma_bits_equal(self.0, other.0);
        }
    }

    /// The set whose members are the positions of the set bits of `bits`.
    pub fn new(bits: u128) -> (s: Self)
        ensures
            s.0 == bits,
    {
        Bitset128(bits)
    }

    /// The set of the indices in `vec`.
    pub fn from_slice(vec: &[usize]) -> (s: Self)
        requires
            forall|k: int| 0 <= k < vec@.len() ==> vec@[k] < 128,
        ensures
            forall|i: nat| s@.contains(i) <==> exists|k: int| 0 <= k < vec@.len() && vec@[k] == i,
    {
        let mut set = Bitset128::default();
        let mut k: usize = 0;
        while k < vec.len()
            invariant
                k <= vec@.len(),
                forall|k: int| 0 <= k < vec@.len() ==> vec@[k] < 128,
                forall|i: nat|
                    set@.contains(i) <==> exists|j: int| 0 <= j < k && vec@[j] == i,
            decreases vec@.len() - k,
        {
            let ghost before = set@;
            set.insert(vec[k]);
            k = k + 1;
            assert forall|i: nat| set@.contains(i) <==> exists|j: int|
                0 <= j < k && vec@[j] == i by {
                if set@.contains(i) {
                    if before.contains(i) {
                        let j = choose|j: int| 0 <= j < k - 1 && vec@[j] == i;
                        assert(0 <= j < k && vec@[j] == i);
                    } else {
                        assert(vec@[k - 1] == i);
                    }
                }
                if exists|j: int| 0 <= j < k && vec@[j] == i {
                    let j = choose|j: int| 0 <= j < k && vec@[j] == i;
                    if j < k - 1 {
                        assert(before.contains(i));
                    }
                }
            }
        }
        set
    }

    /// Adds `value` to the set.
    pub fn insert(&mut self, value: usize)
        requires
            value < 128,
        ensures
            final(self)@ == old(self)@.insert(value as nat),
    {
        let ghost before = *self;
        self.0 = self.0 | (1u128 << (value as u128));
        proof {
            assert forall|i: nat| self@.contains(i) == before@.insert(value as nat).contains(
                i,
            ) by {
                lemma_bit_or(before.0, 1u128 << (value as u128), i as u128);
                lemma_bit_single(value as u128, i as u128);
            }
            assert(self@ =~= before@.insert(value as nat));
        }
    }

    /// The number of members.
    pub fn len(&self) -> (n: usize)
        ensures
            self@.finite(),
            n == self@.len(),
            n <= 128,
    {
        proof {
            self.lemma_view();
        }
        self.0.count_ones() as usize
    }

    /// Whether the set has no member.
    pub fn is_empty(&self) -> (b: bool)
        ensures
            b == (self@ == Set::<nat>::empty()),
            b == (self.0 == 0),
    {
        proof {
            if self.0 == 0 {
                assert forall|i: nat| !self@.contains(i) by {
                    lemma_bit_zero(i as u128);
                }
                assert(self@ =~= Set::<nat>::empty());
            } else if self@ == Set::<nat>::empty() {
                assert forall|i: u128| i < 128 implies !bit_at(self.0, i) by {
                    assert(!self@.contains(i as nat));
                }
                lemma_bits_zero(self.0);
            }
        }
        self.0 == 0
    }

    /// A cursor over the members, lowest first.
    pub fn iter(&self) -> (it: Bitset128Iter)
        ensures
            it@ == self@,
            it.bits == self.0,
    {
        Bitset128Iter { bits: self.0 }
    }

    /// The members in rising order.
    pub fn to_vec(&self) -> (v: Vec<usize>)
        ensures
            is_listing(v@, self@),
            v@.len() == self@.len(),
    {
        self.iter().collect()
    }

    /// Whether `element` is a member.
    pub fn contains(&self, element: &usize) -> (b: bool)
        ensures
            b == self@.contains(*element as nat),
    {
        *element < 128 && (self.0 >> (*element as u128)) & 1 == 1
    }

    /// Adds every member of `other` to the set.
    pub fn union(&mut self, other: &Self)
        ensures
            final(self)@ == old(self)@.union(other@),
    {
        let ghost before = *self;
        self.0 = self.0 | other.0;
        proof {
            assert forall|i: nat| self@.contains(i) == before@.union(other@).contains(i) by {
                lemma_bit_or(before.0, other.0, i as u128);
            }
            assert(self@ =~= before@.union(other@));
        }
    }

    /// The members that are not in `other`.
    pub fn minus(&self, other: &Self) -> (d: Self)
        ensures
            d@ == self@.difference(other@),
    {
        let d = Bitset128(self.0 & !other.0);
        proof {
            assert forall|i: nat| d@.contains(i) == self@.difference(other@).contains(i) by {
                lemma_bit_and_not(self.0, other.0, i as u128);
            }
            assert(d@ =~= self@.difference(other@));
        }
        d
    }

    /// The members that are also in `other`.
    pub fn intersection(&self, other: &Self) -> (d: Self)
        ensures
            d@ == self@.intersect(other@),
    {
        let d = Bitset128(self.0 & other.0);
        proof {
            assert forall|i: nat| d@.contains(i) == self@.intersect(other@).contains(i) by {
                lemma_bit_and(self.0, other.0, i as u128);
            }
            assert(d@ =~= self@.intersect(other@));
        }
        d
    }

    /// Whether every member is a member of `other`.
    pub fn is_subset(&self, other: &Self) -> (b: bool)
        ensures
            b == self@.subset_of(other@),
    {
        let d = self.minus(other);
        let b = d.is_empty();
        proof {
            if b {
                assert forall|i: nat| self@.contains(i) implies other@.contains(i) by {
                    assert(!d@.contains(i));
                }
            } else {
                if self@.subset_of(other@) {
                    assert(d@ =~= Set::<nat>::empty());
                }
            }
        }
        b
    }

    /// Whether some member is a member of `other`.
    pub fn intersects(&self, other: &Self) -> (b: bool)
        ensures
            b == !self@.disjoint(other@),
    {
        let d = self.intersection(other);
        let b = !d.is_empty();
        proof {
            if !b {
                assert forall|i: nat| !(self@.contains(i) && other@.contains(i)) by {
                    assert(!d@.contains(i));
                }
            } else {
                if self@.disjoint(other@) {
                    assert(d@ =~= Set::<nat>::empty());
                }
            }
        }
        b
    }

    /// Relabels the members: position `new` is a member afterwards where
    /// `permutation[new]` was one before.
    pub fn apply_node_map(&mut self, permutation: &[usize])
        requires
            permutation@.len() <= 128,
        ensures
            final(self)@ == remapped(old(self)@, permutation@),
    {
        let ghost before = *self;
        let mut new_bits = Bitset128(0);
        proof {
            assert forall|i: nat| !new_bits@.contains(i) by {
                lemma_bit_zero(i as u128);
            }
        }
        let mut new_idx: usize = 0;
        while new_idx < permutation.len()
            invariant
                new_idx <= permutation@.len() <= 128,
                *self == before,
                forall|i: nat|
                    new_bits@.contains(i) <==> i < new_idx && before@.contains(
                        permutation@[i as int] as nat,
                    ),
            decreases permutation@.len() - new_idx,
        {
            let old_idx = permutation[new_idx];
            if self.contains(&old_idx) {
                new_bits.insert(new_idx);
            }
            new_idx = new_idx + 1;
        }
        self.0 = new_bits.0;
        proof {
            assert(self@ =~= remapped(before@, permutation@));
        }
    }

    /// Whether the members are exactly `0, 1, ..., k - 1` for some `k`.
    pub fn is_flattened(&self) -> (b: bool)
        ensures
            b == is_initial_run(self@),
    {
        let b = self.0 & self.0.wrapping_add(1) == 0;
        proof {
            self.lemma_view();
            assert(self.0.wrapping_add(1) == next_word(self.0));
            lemma_low_run(self.0);
            if b {
                assert forall|i: nat| self@.contains(i) <==> i < self@.len() by {
                    if i < 128 {
                        lemma_low_run_count(self.0, i as u128);
                    }
                }
            }
            if is_initial_run(self@) {
                assert forall|i: u128, j: u128| i < j < 128 && bit_at(self.0, j) implies bit_at(
                    self.0,
                    i,
                ) by {
                    assert(self@.contains(j as nat));
                    assert(self@.contains(i as nat));
                }
                assert(is_low_run(self.0));
            }
        }
        b
    }

    /// Cuts the set along index ranges: the result holds, for each range, the
    /// members that lie in it.
    pub fn partition(&self, partitions: &[Range<usize>]) -> (p: Vec<Self>)
        requires
            forall|k: int|
                0 <= k < partitions@.len() ==> (#[trigger] partitions@[k]).start
                    <= partitions@[k].end <= 128,
        ensures
            p@.len() == partitions@.len(),
            forall|k: int|
                0 <= k < p@.len() ==> (#[trigger] p@[k])@ == within(
                    self@,
                    partitions@[k].start as int,
                    partitions@[k].end as int,
                ),
    {
        let mut p: Vec<Self> = Vec::with_capacity(partitions.len());
        let mut k: usize = 0;
        while k < partitions.len()
            invariant
                k <= partitions@.len(),
                p@.len() == k,
                forall|k: int|
                    0 <= k < partitions@.len() ==> (#[trigger] partitions@[k]).start
                        <= partitions@[k].end <= 128,
                forall|j: int|
                    0 <= j < k ==> (#[trigger] p@[j])@ == within(
                        self@,
                        partitions@[j].start as int,
                        partitions@[j].end as int,
                    ),
            decreases partitions@.len() - k,
        {
            let start = partitions[k].start;
            let end = partitions[k].end;
            let mask: u128 = if start >= 128 {
                0
            } else if end - start == 128 {
                u128::MAX
            } else {
                let len: u128 = (end - start) as u128;
                assert((1u128 << len) >= 1) by (bit_vector)
                    requires
                        len < 128,
                ;
                ((1u128 << len) - 1) << (start as u128)
            };
            let part = Bitset128(self.0 & mask);
            proof {
                assert(mask == range_mask(start as u128, end as u128));
                assert forall|i: nat|
                    part@.contains(i) == within(self@, start as int, end as int).contains(i) by {
                    if i < 128 {
                        lemma_bit_and(self.0, mask, i as u128);
                        lemma_bit_range(start as u128, end as u128, i as u128);
                    }
                }
                assert(part@ =~= within(self@, start as int, end as int));
            }
            p.push(part);
            k = k + 1;
        }
        p
    }

    /// Removes the largest member and returns it; `None` for the empty set.
    pub fn pop(&mut self) -> (r: Option<usize>)
        ensures
            r is None <==> old(self)@ == Set::<nat>::empty(),
            r is None ==> *final(self) == *old(self),
            r matches Some(v) ==> {
                &&& old(self)@.contains(v as nat)
                &&& forall|i: nat| old(self)@.contains(i) ==> i <= v
                &&& final(self)@ == old(self)@.remove(v as nat)
            },
    {
        if self.is_empty() {
            return None;
        }
        let ghost before = *self;
        let val: usize = 127 - self.0.leading_zeros() as usize;
        self.0 = self.0 & !(1u128 << (val as u128));
        proof {
            assert forall|i: nat| self@.contains(i) == before@.remove(val as nat).contains(i) by {
                lemma_bit_and_not(before.0, 1u128 << (val as u128), i as u128);
                lemma_bit_single(val as u128, i as u128);
            }
            assert(self@ =~= before@.remove(val as nat));
            assert forall|i: nat| before@.contains(i) implies i <= val by {
                if i > val {
                    assert(!bit_at(before.0, i as u128));
                }
            }
        }
        Some(val)
    }
}

/// A cursor over the members of a dense set, lowest first.
pub struct Bitset128Iter {
    pub bits: u128,
}

impl View for Bitset128Iter {
    type V = Set<nat>;

    /// The members not yet handed out.
    open spec fn view(&self) -> Set<nat> {
        bits_below(self.bits, 128)
    }
}

impl Bitset128Iter {
    /// Hands out the lowest member left and drops it; `None` when none is left.
    pub fn next(&mut self) -> (r: Option<usize>)
        ensures
            r is None <==> old(self)@ == Set::<nat>::empty(),
            r is None ==> *final(self) == *old(self),
            r matches Some(v) ==> {
                &&& old(self)@.contains(v as nat)
                &&& forall|i: nat| old(self)@.contains(i) ==> v <= i
                &&& final(self)@ == old(self)@.remove(v as nat)
                &&& bit_count(final(self).bits, 128) + 1 == bit_count(old(self).bits, 128)
            },
    {
        let ghost before = *self;
        if self.bits == 0 {
            proof {
                assert forall|i: nat| !self@.contains(i) by {
                    lemma_bit_zero(i as u128);
                }
                assert(self@ =~= Set::<nat>::empty());
            }
            return None;
        }
        let tz: usize = self.bits.trailing_zeros() as usize;
        self.bits = self.bits & !(1u128 << (tz as u128));
        proof {
            assert(before@.contains(tz as nat));
            assert forall|i: nat| self@.contains(i) == before@.remove(tz as nat).contains(i) by {
                lemma_bit_and_not(before.bits, 1u128 << (tz as u128), i as u128);
                lemma_bit_single(tz as u128, i as u128);
            }
            assert(self@ =~= before@.remove(tz as nat));
            assert forall|i: nat| before@.contains(i) implies tz <= i by {
                if i < tz {
                    assert(!bit_at(before.bits, i as u128));
                }
            }
            lemma_bit_count_clear(before.bits, tz as u128, 128);
        }
        Some(tz)
    }

    /// The members left, in rising order.
    pub fn collect(self) -> (v: Vec<usize>)
        ensures
            is_listing(v@, self@),
            v@.len() == self@.len(),
    {
        let mut it = self;
        let mut v: Vec<usize> = Vec::new();
        proof {
            lemma_bit_count_is_len(self.bits, 128);
        }
        loop
            invariant
                v@.len() + bit_count(it.bits, 128) == bit_count(self.bits, 128),
                forall|i: int, j: int| 0 <= i < j < v@.len() ==> v@[i] < v@[j],
                forall|i: int| 0 <= i < v@.len() ==> self@.contains(#[trigger] v@[i] as nat),
                forall|i: int, x: nat| 0 <= i < v@.len() && it@.contains(x) ==> v@[i] < x,
                forall|x: nat|
                    self@.contains(x) ==> it@.contains(x) || exists|i: int|
                        0 <= i < v@.len() && v@[i] == x,
                forall|x: nat| it@.contains(x) ==> self@.contains(x),
            decreases bit_count(it.bits, 128),
        {
            let ghost prev = v@;
            let ghost left = it@;
            match it.next() {
                None => {
                    proof {
                        lemma_bit_count_is_len(it.bits, 128);
                        lemma_bit_count_is_len(self.bits, 128);
                    }
                    return v;
                },
                Some(x) => {
                    v.push(x);
                    proof {
                        assert forall|y: nat| self@.contains(y) implies it@.contains(y)
                            || exists|i: int| 0 <= i < v@.len() && v@[i] == y by {
                            if left.contains(y) {
                                if y == x {
                                    assert(v@[v@.len() - 1] == y);
                                }
                            } else {
                                let i = choose|i: int| 0 <= i < prev.len() && prev[i] == y;
                                assert(v@[i] == y);
                            }
                        }
                    }
                },
            }
        }
    }
}

} // verus!
