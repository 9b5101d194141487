//! Sets of vertices as sorted lists of indices, for hypergraphs of more than
//! 128 vertices.

use vstd::prelude::*;
use std::cmp::Ordering;
use crate::order::{first_below_at, is_permutation, lemma_permutation_onto, lex_less};

verus! {

/// Whether the list rises strictly.
pub open spec fn is_rising(v: Seq<usize>) -> bool {
    forall|i: int, j: int| 0 <= i < j < v.len() ==> v[i] < v[j]
}

/// Whether `a` comes before `b` where the shorter list comes first and
/// lists of one length stand in the order of the dictionary.
pub open spec fn shorter_or_less(a: Seq<usize>, b: Seq<usize>) -> bool {
    a.len() < b.len() || (a.len() == b.len() && lex_less(a, b))
}

/// Compares two lists: the shorter comes first, and lists of one length
/// stand in the order of the dictionary.
pub fn compare_sorted(vec1: &[usize], vec2: &[usize]) -> (r: Ordering)
    ensures
        r is Less <==> shorter_or_less(vec1@, vec2@),
        r is Equal <==> vec1@ == vec2@,
        r is Greater <==> shorter_or_less(vec2@, vec1@),
{
    if vec1.len() < vec2.len() {
        return Ordering::Less;
    }
    if vec1.len() > vec2.len() {
        return Ordering::Greater;
    }
    let mut i: usize = 0;
    while i < vec1.len()
        invariant
            i <= vec1@.len(),
            vec1@.len() == vec2@.len(),
            forall|j: int| 0 <= j < i ==> vec1@[j] == vec2@[j],
        decreases vec1@.len() - i,
    {
        if vec1[i] < vec2[i] {
            proof {
                lemma_first_difference(vec1@, vec2@, i);
            }
            return Ordering::Less;
        }
        if vec1[i] > vec2[i] {
            proof {
                lemma_first_difference(vec2@, vec1@, i);
            }
            return Ordering::Greater;
        }
        i = i + 1;
    }
    proof {
        assert(vec1@ =~= vec2@);
        crate::order::lemma_lex_irreflexive(vec1@);
    }
    Ordering::Equal
}

/// Lists of one length that agree up to a place where the first is smaller
/// stand in that order, and not in the other.
proof fn lemma_first_difference(a: Seq<usize>, b: Seq<usize>, k: usize)
    requires
        a.len() == b.len(),
        k < a.len(),
        forall|j: int| 0 <= j < k ==> a[j] == b[j],
        a[k as int] < b[k as int],
    ensures
        lex_less(a, b),
        !lex_less(b, a),
        a != b,
{
    assert(first_below_at(a, b, k as int));
    if lex_less(b, a) {
        let m = choose|m: int| first_below_at(b, a, m);
        if m < k {
            assert(a[m] == b[m]);
        } else if m > k {
            assert(b[k as int] == a[k as int]);
        }
    }
}

/// The inverse of a permutation: the place of `i` in it at place `i`.
pub fn inverse_permutation(refrences: Vec<usize>) -> (perm: Vec<usize>)
    requires
        is_permutation(refrences@),
    ensures
        perm@.len() == refrences@.len(),
        forall|i: int| 0 <= i < refrences@.len() ==> perm@[#[trigger] refrences@[i] as int] == i,
        is_permutation(perm@),
{
    let n = refrences.len();
    let mut perm: Vec<usize> = Vec::with_capacity(n);
    let mut i: usize = 0;
    while i < n
        invariant
            i <= n,
            perm@.len() == i,
        decreases n - i,
    {
        perm.push(0);
        i = i + 1;
    }
    let mut i: usize = 0;
    while i < n
        invariant
            i <= n,
            n == refrences@.len(),
            perm@.len() == n,
            is_permutation(refrences@),
            forall|j: int| 0 <= j < i ==> perm@[#[trigger] refrences@[j] as int] == j,
        decreases n - i,
    {
        perm.set(refrences[i], i);
        i = i + 1;
    }
    proof {
        assert forall|j: int| 0 <= j < perm@.len() implies (#[trigger] perm@[j]) < perm@.len() by {
            lemma_permutation_onto(refrences@, j);
            let i = choose|i: int| 0 <= i < refrences@.len() && refrences@[i] == j;
            assert(perm@[refrences@[i] as int] == i);
        }
        assert forall|a: int, b: int| 0 <= a < b < perm@.len() implies perm@[a] != perm@[b] by {
            lemma_permutation_onto(refrences@, a);
            lemma_permutation_onto(refrences@, b);
            let x = choose|x: int| 0 <= x < refrences@.len() && refrences@[x] == a;
            let y = choose|y: int| 0 <= y < refrences@.len() && refrences@[y] == b;
            assert(perm@[refrences@[x] as int] == x);
            assert(perm@[refrences@[y] as int] == y);
        }
    }
    perm
}

/// Whether every entry of the rising list `a` is an entry of the rising
/// list `b`.
pub fn is_subset(a: &[usize], b: &[usize]) -> (r: bool)
    requires
        is_rising(a@),
        is_rising(b@),
    ensures
        r == (forall|i: int| 0 <= i < a@.len() ==> b@.contains(#[trigger] a@[i])),
{
    let mut i: usize = 0;
    let mut j: usize = 0;
    while i < a.len() && j < b.len()
        invariant
            i <= a@.len(),
            j <= b@.len(),
            is_rising(a@),
            is_rising(b@),
            forall|x: int| 0 <= x < i ==> b@.contains(#[trigger] a@[x]),
            forall|y: int| 0 <= y < j && i < a@.len() ==> (#[trigger] b@[y]) < a@[i as int],
        decreases a@.len() - i + b@.len() - j,
    {
        if a[i] < b[j] {
            proof {
                assert(!b@.contains(a@[i as int])) by {
                    if b@.contains(a@[i as int]) {
                        let y = choose|y: int| 0 <= y < b@.len() && b@[y] == a@[i as int];
                        if y < j {
                            assert(b@[y] < a@[i as int]);
                        } else if y > j {
                            assert(b@[j as int] < b@[y]);
                        }
                    }
                }
            }
            return false;
        } else if a[i] == b[j] {
            proof {
                assert(b@[j as int] == a@[i as int]);
                if i + 1 < a@.len() {
                    assert(a@[i as int] < a@[i + 1]);
                    assert forall|y: int| 0 <= y < j + 1 implies (#[trigger] b@[y]) < a@[i + 1] by {
                        if y < j {
                            assert(b@[y] < a@[i as int]);
                        }
                    }
                }
            }
            i = i + 1;
            j = j + 1;
        } else {
            j = j + 1;
        }
    }
    proof {
        if i < a@.len() {
            assert(!b@.contains(a@[i as int])) by {
                if b@.contains(a@[i as int]) {
                    let y = choose|y: int| 0 <= y < b@.len() && b@[y] == a@[i as int];
                    assert(b@[y] < a@[i as int]);
                }
            }
        }
    }
    i == a.len()
}

/// Whether the two rising lists have an entry in common.
pub fn have_common_element(a: &[usize], b: &[usize]) -> (r: bool)
    requires
        is_rising(a@),
        is_rising(b@),
    ensures
        r == (exists|i: int| 0 <= i < a@.len() && b@.contains(#[trigger] a@[i])),
{
    let mut i: usize = 0;
    let mut j: usize = 0;
    while i < a.len() && j < b.len()
        invariant
            i <= a@.len(),
            j <= b@.len(),
            is_rising(a@),
            is_rising(b@),
            forall|x: int| 0 <= x < i ==> !b@.contains(#[trigger] a@[x]),
            forall|y: int| 0 <= y < j && i < a@.len() ==> (#[trigger] b@[y]) < a@[i as int],
        decreases a@.len() - i + b@.len() - j,
    {
        if a[i] < b[j] {
            proof {
                assert(!b@.contains(a@[i as int])) by {
                    if b@.contains(a@[i as int]) {
                        let y = choose|y: int| 0 <= y < b@.len() && b@[y] == a@[i as int];
                        if y < j {
                            assert(b@[y] < a@[i as int]);
                        } else if y > j {
                            assert(b@[j as int] < b@[y]);
                        }
                    }
                }
                if i + 1 < a@.len() {
                    assert(a@[i as int] < a@[i + 1]);
                    assert forall|y: int| 0 <= y < j implies (#[trigger] b@[y]) < a@[i + 1] by {
                        assert(b@[y] < a@[i as int]);
                    }
                }
            }
            i = i + 1;
        } else if a[i] > b[j] {
            j = j + 1;
        } else {
            proof {
                assert(b@[j as int] == a@[i as int]);
                assert(b@.contains(a@[i as int]));
            }
            return true;
        }
    }
    proof {
        assert forall|x: int| 0 <= x < a@.len() implies !b@.contains(#[trigger] a@[x]) by {
            if x >= i {
                if b@.contains(a@[x]) {
                    let y = choose|y: int| 0 <= y < b@.len() && b@[y] == a@[x];
                    assert(b@[y] < a@[i as int]);
                    if x > i {
                        assert(a@[i as int] < a@[x]);
                    }
                }
            }
        }
    }
    false
}

/// Appends to `buff` the union of what it holds and of `other`: the
/// entries of both in one run, an entry that stands at the head of both
/// taken once.  Of two rising lists the union rises too.
pub fn union_append(buff: &mut Vec<usize>, other: &[usize])
    ensures
        final(buff)@.len() >= old(buff)@.len(),
        final(buff)@.take(old(buff)@.len() as int) == old(buff)@,
        forall|x: usize|
            #![trigger final(buff)@.skip(old(buff)@.len() as int).contains(x)]
            #![trigger old(buff)@.contains(x)]
            #![trigger other@.contains(x)]
            final(buff)@.skip(old(buff)@.len() as int).contains(x) <==> (old(buff)@.contains(x)
                || other@.contains(x)),
        is_rising(old(buff)@) && is_rising(other@) ==> is_rising(
            final(buff)@.skip(old(buff)@.len() as int),
        ),
{
    let ghost first = buff@;
    let n = buff.len();
    let mut i: usize = 0;
    let mut j: usize = 0;
    while i < n || j < other.len()
        invariant
            i <= n,
            j <= other@.len(),
            n == first.len(),
            buff@.len() >= n,
            buff@.take(n as int) == first,
            forall|x: int| 0 <= x < i ==> buff@.skip(n as int).contains(#[trigger] first[x]),
            forall|y: int| 0 <= y < j ==> buff@.skip(n as int).contains(#[trigger] other@[y]),
            forall|k: int|
                0 <= k < buff@.len() - n ==> first.contains(#[trigger] buff@.skip(n as int)[k])
                    || other@.contains(buff@.skip(n as int)[k]),
            is_rising(first) && is_rising(other@) ==> {
                &&& is_rising(buff@.skip(n as int))
                &&& forall|k: int|
                    0 <= k < buff@.len() - n && i < n ==> (#[trigger] buff@.skip(n as int)[k])
                        < first[i as int]
                &&& forall|k: int|
                    0 <= k < buff@.len() - n && j < other@.len() ==> (#[trigger] buff@.skip(n as int)[k])
                        < other@[j as int]
            },
        decreases n - i + other@.len() - j,
    {
        let ghost before = buff@;
        let ghost tail = buff@.skip(n as int);
        let ghost i0 = i;
        let ghost j0 = j;
        let pushed: usize;
        if i < n && j < other.len() {
            let x = buff[i];
            let y = other[j];
            proof {
                assert(buff@.take(n as int)[i as int] == first[i as int]);
            }
            if x < y {
                pushed = x;
                i = i + 1;
            } else if x > y {
                pushed = y;
                j = j + 1;
            } else {
                pushed = x;
                i = i + 1;
                j = j + 1;
            }
        } else if i < n {
            proof {
                assert(buff@.take(n as int)[i as int] == first[i as int]);
            }
            pushed = buff[i];
            i = i + 1;
        } else {
            pushed = other[j];
            j = j + 1;
        }
        buff.push(pushed);
        proof {
            let grown = buff@.skip(n as int);
            assert(grown =~= tail.push(pushed));
            assert(buff@.take(n as int) =~= before.take(n as int));
            assert forall|x: int| 0 <= x < i implies grown.contains(#[trigger] first[x]) by {
                if x < i0 {
                    let k = choose|k: int| 0 <= k < tail.len() && tail[k] == first[x];
                    assert(grown[k] == first[x]);
                } else {
                    assert(grown[grown.len() - 1] == first[x]);
                }
            }
            assert forall|y: int| 0 <= y < j implies grown.contains(#[trigger] other@[y]) by {
                if y < j0 {
                    let k = choose|k: int| 0 <= k < tail.len() && tail[k] == other@[y];
                    assert(grown[k] == other@[y]);
                } else {
                    assert(grown[grown.len() - 1] == other@[y]);
                }
            }
            assert forall|k: int| 0 <= k < grown.len() implies first.contains(#[trigger] grown[k])
                || other@.contains(grown[k]) by {
                if k < tail.len() {
                    assert(grown[k] == tail[k]);
                } else {
                    if i > i0 {
                        assert(first[i0 as int] == pushed);
                    } else {
                        assert(other@[j0 as int] == pushed);
                    }
                }
            }
            if is_rising(first) && is_rising(other@) {
                assert forall|a: int, b: int| 0 <= a < b < grown.len() implies grown[a] < grown[b] by {
                    assert(grown[a] == tail[a]);
                    if b < tail.len() {
                        assert(grown[b] == tail[b]);
                    }
                }
                assert forall|k: int| 0 <= k < grown.len() && i < n implies (#[trigger] grown[k])
                    < first[i as int] by {
                    if k < tail.len() {
                        assert(grown[k] == tail[k]);
                    }
                    if i > i0 {
                        assert(first[i0 as int] < first[i as int]);
                    }
                }
                assert forall|k: int| 0 <= k < grown.len() && j < other@.len() implies (
                #[trigger] grown[k]) < other@[j as int] by {
                    if k < tail.len() {
                        assert(grown[k] == tail[k]);
                    }
                    if j > j0 {
                        assert(other@[j0 as int] < other@[j as int]);
                    }
                }
            }
        }
    }
    proof {
        let tail = buff@.skip(n as int);
        assert forall|x: usize| tail.contains(x) <==> (first.contains(x) || other@.contains(x)) by {
            if tail.contains(x) {
                let k = choose|k: int| 0 <= k < tail.len() && tail[k] == x;
                assert(first.contains(tail[k]) || other@.contains(tail[k]));
            }
            if first.contains(x) {
                let a = choose|a: int| 0 <= a < first.len() && first[a] == x;
                assert(tail.contains(first[a]));
            }
            if other@.contains(x) {
                let b = choose|b: int| 0 <= b < other@.len() && other@[b] == x;
                assert(tail.contains(other@[b]));
            }
        }
    }
}

} // verus!
