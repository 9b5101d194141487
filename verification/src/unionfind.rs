//! The disjoint sets by which the vertices of a hypergraph are grouped into
//! connected components.

use vstd::prelude::*;
use union_find::QuickUnionUf;
use union_find::UnionByRank;
use union_find::UnionFind;

verus! {

/// `union_find::QuickUnionUf`, disjoint sets over the keys `0 .. len`.
#[verifier::external_type_specification]
#[verifier::external_body]
#[verifier::reject_recursive_types(V)]
pub struct ExQuickUnionUf<V>(QuickUnionUf<V>);

/// `union_find::UnionByRank`, the weight by which two sets are joined.
#[verifier::external_type_specification]
#[verifier::external_body]
pub struct ExUnionByRank(UnionByRank);

/// For each key, the key that stands for its set.
pub uninterp spec fn uf_roots(uf: QuickUnionUf<UnionByRank>) -> Seq<usize>;

/// Whether `new` is what `old` becomes when the sets of `a` and `b` are
/// joined: the keys of both sets stand under one of the two old roots, and
/// every other key under the root it had.
pub open spec fn is_merge(new: Seq<usize>, old: Seq<usize>, a: int, b: int) -> bool {
    &&& new.len() == old.len()
    &&& new[a] == old[a] || new[a] == old[b]
    &&& forall|x: int|
        0 <= x < old.len() ==> #[trigger] new[x] == if old[x] == old[a] || old[x] == old[b] {
            new[a]
        } else {
            old[x]
        }
}

/// `UnionFind::new` for `QuickUnionUf<UnionByRank>`: `len` sets of one key
/// each, every key its own root.
#[verifier::external_body]
pub(crate) fn uf_new(len: usize) -> (uf: QuickUnionUf<UnionByRank>)
    ensures
        uf_roots(uf).len() == len,
        forall|i: int| 0 <= i < len ==> #[trigger] uf_roots(uf)[i] == i,
{
    QuickUnionUf::new(len)
}

/// `UnionFind::union` for `QuickUnionUf<UnionByRank>`: joins the sets of the
/// two keys, and says whether they were two sets.
#[verifier::external_body]
pub(crate) fn uf_union(uf: &mut QuickUnionUf<UnionByRank>, key0: usize, key1: usize) -> (joined: bool)
    requires
        key0 < uf_roots(*old(uf)).len(),
        key1 < uf_roots(*old(uf)).len(),
    ensures
        joined == (uf_roots(*old(uf))[key0 as int] != uf_roots(*old(uf))[key1 as int]),
        is_merge(uf_roots(*final(uf)), uf_roots(*old(uf)), key0 as int, key1 as int),
{
    uf.union(key0, key1)
}

/// `UnionFind::find` for `QuickUnionUf<UnionByRank>`: the root of the set of
/// `key`.  The sets stay as they are.
#[verifier::external_body]
pub(crate) fn uf_find(uf: &mut QuickUnionUf<UnionByRank>, key: usize) -> (root: usize)
    requires
        key < uf_roots(*old(uf)).len(),
    ensures
        root == uf_roots(*old(uf))[key as int],
        root < uf_roots(*old(uf)).len(),
        uf_roots(*final(uf)) == uf_roots(*old(uf)),
{
    uf.find(key)
}

} // verus!
