//! Dropping the edges that say nothing: the empty ones and those that lie
//! inside another edge.

use vstd::prelude::*;
use vstd::set_lib::{lemma_len_subset, lemma_subset_equality};
use crate::bitset::Bitset128;
use crate::hypergraph::{edge_sets, is_flat, is_reduced, StructuredHypergraph};
use crate::order::{is_sorted_by_size, lemma_rearrangement_onto, sort_by_size};
use crate::relabel::{
    composed, identity, is_piece, lemma_piece_of_itself, lemma_pulled_back_subset,
    lemma_relabelling_piece, lemma_relabelling_reduced, pulled_back, reaches,
};

verus! {

/// Whether edge `e` is not empty and lies inside no edge but those equal to it.
pub open spec fn is_maximal(edges: Seq<Set<nat>>, e: int) -> bool {
    &&& edges[e] != Set::<nat>::empty()
    &&& forall|f: int|
        0 <= f < edges.len() && edges[e].subset_of(#[trigger] edges[f]) ==> edges[f].subset_of(
            edges[e],
        )
}

/// Whether every edge that is not empty lies inside one of the edges at the
/// places `idx`.
pub open spec fn all_inside(edges: Seq<Set<nat>>, idx: Seq<int>) -> bool {
    forall|e: int|
        0 <= e < edges.len() && #[trigger] edges[e] != Set::<nat>::empty() ==> exists|a: int|
            0 <= a < idx.len() && edges[e].subset_of(edges[#[trigger] idx[a]])
}

/// Whether the places `idx` pick out of `edges` one copy of each maximal
/// edge, and nothing else.
pub open spec fn picks_maximal(edges: Seq<Set<nat>>, idx: Seq<int>) -> bool {
    &&& forall|a: int| 0 <= a < idx.len() ==> 0 <= #[trigger] idx[a] < edges.len()
    &&& forall|a: int| 0 <= a < idx.len() ==> is_maximal(edges, #[trigger] idx[a])
    &&& forall|a: int, b: int|
        0 <= a < idx.len() && 0 <= b < idx.len() && a != b ==> !edges[#[trigger] idx[a]].subset_of(
            edges[#[trigger] idx[b]],
        )
    &&& all_inside(edges, idx)
}

/// Whether `e` lies inside one of the edges of `kept`.
fn is_covered(e: &Bitset128, kept: &Vec<Bitset128>) -> (b: bool)
    ensures
        b == exists|a: int| 0 <= a < kept@.len() && e@.subset_of(#[trigger] kept@[a]@),
{
    let mut a: usize = 0;
    while a < kept.len()
        invariant
            a <= kept@.len(),
            forall|c: int| 0 <= c < a ==> !e@.subset_of(#[trigger] kept@[c]@),
        decreases kept@.len() - a,
    {
        if e.is_subset(&kept[a]) {
            return true;
        }
        a = a + 1;
    }
    false
}

/// Whether the sizes of the edges never rise along the list.
pub open spec fn sizes_fall(edges: Seq<Set<nat>>) -> bool {
    forall|i: int, j: int| 0 <= i < j < edges.len() ==> (#[trigger] edges[i]).len() >= (
    #[trigger] edges[j]).len()
}

/// Whether edge `e` lies inside an edge that was picked at or before it.
pub open spec fn inside_earlier(edges: Seq<Set<nat>>, idx: Seq<int>, e: int) -> bool {
    exists|a: int| 0 <= a < idx.len() && #[trigger] idx[a] <= e && edges[e].subset_of(edges[idx[a]])
}

/// What holds of the places `idx` picked among the first `i` edges.
pub open spec fn pass_inv(edges: Seq<Set<nat>>, idx: Seq<int>, i: int) -> bool {
    &&& forall|a: int| 0 <= a < idx.len() ==> 0 <= #[trigger] idx[a] < i
    &&& forall|a: int, b: int| 0 <= a < b < idx.len() ==> #[trigger] idx[a] < #[trigger] idx[b]
    &&& forall|a: int| 0 <= a < idx.len() ==> edges[#[trigger] idx[a]] != Set::<nat>::empty()
    &&& forall|a: int, b: int|
        0 <= a < b < idx.len() ==> !edges[#[trigger] idx[b]].subset_of(edges[#[trigger] idx[a]])
    &&& forall|e: int|
        0 <= e < i && edges[e] != Set::<nat>::empty() ==> #[trigger] inside_earlier(edges, idx, e)
}

/// Keeping an edge that is not empty and lies inside none kept before
/// keeps what holds of the places picked.
proof fn lemma_pass_keep(edges: Seq<Set<nat>>, idx: Seq<int>, i: int)
    requires
        0 <= i < edges.len(),
        pass_inv(edges, idx, i),
        edges[i] != Set::<nat>::empty(),
        forall|a: int| 0 <= a < idx.len() ==> !edges[i].subset_of(edges[#[trigger] idx[a]]),
    ensures
        pass_inv(edges, idx.push(i), i + 1),
{
    let next = idx.push(i);
    assert forall|e: int|
        0 <= e < i + 1 && edges[e] != Set::<nat>::empty() implies #[trigger] inside_earlier(
        edges,
        next,
        e,
    ) by {
        if e < i {
            assert(inside_earlier(edges, idx, e));
            let a = choose|a: int|
                0 <= a < idx.len() && #[trigger] idx[a] <= e && edges[e].subset_of(edges[idx[a]]);
            assert(next[a] == idx[a]);
        } else {
            assert(next[next.len() - 1] == e);
        }
    }
    assert forall|a: int, b: int| 0 <= a < b < next.len() implies !edges[#[trigger] next[b]].subset_of(
        edges[#[trigger] next[a]],
    ) by {
        assert(next[a] == idx[a]);
        if b < idx.len() {
            assert(next[b] == idx[b]);
        }
    }
    assert forall|a: int, b: int| 0 <= a < b < next.len() implies #[trigger] next[a]
        < #[trigger] next[b] by {
        assert(next[a] == idx[a]);
        if b < idx.len() {
            assert(next[b] == idx[b]);
        }
    }
}

/// Passing over an edge that is empty or lies inside one kept before keeps
/// what holds of the places picked.
proof fn lemma_pass_skip(edges: Seq<Set<nat>>, idx: Seq<int>, i: int)
    requires
        0 <= i < edges.len(),
        pass_inv(edges, idx, i),
        edges[i] == Set::<nat>::empty() || exists|a: int|
            0 <= a < idx.len() && edges[i].subset_of(edges[#[trigger] idx[a]]),
    ensures
        pass_inv(edges, idx, i + 1),
{
    assert forall|e: int|
        0 <= e < i + 1 && edges[e] != Set::<nat>::empty() implies #[trigger] inside_earlier(
        edges,
        idx,
        e,
    ) by {
        if e == i {
            let a = choose|a: int|
                0 <= a < idx.len() && edges[i].subset_of(edges[#[trigger] idx[a]]);
            assert(idx[a] <= e);
        }
    }
}

/// Goes through edges that stand in falling order of size and keeps each one
/// that is not empty and lies inside none kept before it.  What is kept is
/// one copy of each maximal edge.
pub(crate) fn keep_maximal(sorted: &Vec<Bitset128>) -> (r: (Vec<Bitset128>, Ghost<Seq<int>>))
    requires
        sizes_fall(edge_sets(sorted@)),
    ensures
        r.0@.len() == r.1@.len(),
        r.0@.len() <= sorted@.len(),
        forall|a: int|
            0 <= a < r.0@.len() ==> 0 <= #[trigger] r.1@[a] < sorted@.len() && r.0@[a]
                == sorted@[r.1@[a]],
        picks_maximal(edge_sets(sorted@), r.1@),
        is_reduced(edge_sets(r.0@)),
{
    let ghost edges = edge_sets(sorted@);
    let mut kept: Vec<Bitset128> = Vec::new();
    let ghost mut idx: Seq<int> = Seq::empty();
    let mut i: usize = 0;
    while i < sorted.len()
        invariant
            i <= sorted@.len(),
            edges == edge_sets(sorted@),
            kept@.len() == idx.len(),
            kept@.len() <= i,
            pass_inv(edges, idx, i as int),
            forall|a: int| 0 <= a < idx.len() ==> #[trigger] kept@[a] == sorted@[idx[a]],
        decreases sorted@.len() - i,
    {
        let e = sorted[i];
        let empty = e.is_empty();
        let covered = is_covered(&e, &kept);
        proof {
            assert(edges[i as int] == e@);
            if covered {
                let a = choose|a: int| 0 <= a < kept@.len() && e@.subset_of(#[trigger] kept@[a]@);
                assert(kept@[a] == sorted@[idx[a]]);
                assert(edges[i as int].subset_of(edges[idx[a]]));
            } else {
                assert forall|a: int| 0 <= a < idx.len() implies !edges[i as int].subset_of(
                    edges[#[trigger] idx[a]],
                ) by {
                    assert(kept@[a] == sorted@[idx[a]]);
                    assert(!e@.subset_of(kept@[a]@));
                }
            }
        }
        if !empty && !covered {
            kept.push(e);
            proof {
                lemma_pass_keep(edges, idx, i as int);
                idx = idx.push(i as int);
            }
        } else {
            proof {
                lemma_pass_skip(edges, idx, i as int);
            }
        }
        i = i + 1;
    }
    proof {
        assert forall|e: int| 0 <= e < edges.len() implies (#[trigger] edges[e]).finite() by {
            sorted@[e].lemma_view();
        }
        lemma_kept_maximal(edges, idx);
        let small = edge_sets(kept@);
        assert forall|a: int, b: int|
            0 <= a < small.len() && 0 <= b < small.len() && a != b implies !(#[trigger] small[a]).subset_of(
            #[trigger] small[b],
        ) by {
            assert(kept@[a] == sorted@[idx[a]]);
            assert(kept@[b] == sorted@[idx[b]]);
            assert(!edges[idx[a]].subset_of(edges[idx[b]]));
        }
        assert forall|a: int| 0 <= a < small.len() implies #[trigger] small[a] != Set::<
            nat,
        >::empty() by {
            assert(kept@[a] == sorted@[idx[a]]);
            assert(is_maximal(edges, idx[a]));
        }
    }
    (kept, Ghost(idx))
}

/// What the pass over the sorted edges leaves is one copy of each maximal
/// edge.
proof fn lemma_kept_maximal(edges: Seq<Set<nat>>, idx: Seq<int>)
    requires
        sizes_fall(edges),
        forall|e: int| 0 <= e < edges.len() ==> (#[trigger] edges[e]).finite(),
        pass_inv(edges, idx, edges.len() as int),
    ensures
        picks_maximal(edges, idx),
{
    assert forall|a: int, b: int|
        0 <= a < idx.len() && 0 <= b < idx.len() && a != b implies !edges[#[trigger] idx[a]].subset_of(
        edges[#[trigger] idx[b]],
    ) by {
        if a < b && edges[idx[a]].subset_of(edges[idx[b]]) {
            lemma_len_subset(edges[idx[a]], edges[idx[b]]);
            assert(edges[idx[a]].len() >= edges[idx[b]].len());
            lemma_subset_equality(edges[idx[a]], edges[idx[b]]);
        }
    }
    assert forall|a: int| 0 <= a < idx.len() implies is_maximal(edges, #[trigger] idx[a]) by {
        let e = idx[a];
        assert forall|f: int|
            0 <= f < edges.len() && edges[e].subset_of(#[trigger] edges[f]) implies edges[f].subset_of(
            edges[e],
        ) by {
            if !edges[f].subset_of(edges[e]) {
                lemma_len_subset(edges[e], edges[f]);
                if edges[e].len() == edges[f].len() {
                    lemma_subset_equality(edges[e], edges[f]);
                }
                assert(f < e);
                assert(edges[f] != Set::<nat>::empty()) by {
                    if edges[f] == Set::<nat>::empty() {
                        assert(edges[e] =~= Set::<nat>::empty());
                    }
                }
                assert(inside_earlier(edges, idx, f));
                let c = choose|c: int|
                    0 <= c < idx.len() && #[trigger] idx[c] <= f && edges[f].subset_of(edges[idx[c]]);
                assert(c < a) by {
                    if c > a {
                        assert(idx[a] < idx[c]);
                    }
                }
                assert(edges[idx[a]].subset_of(edges[idx[c]]));
            }
        }
    }
    assert forall|e: int|
        0 <= e < edges.len() && #[trigger] edges[e] != Set::<nat>::empty() implies exists|a: int|
        0 <= a < idx.len() && edges[e].subset_of(edges[#[trigger] idx[a]]) by {
        assert(inside_earlier(edges, idx, e));
        let a = choose|a: int|
            0 <= a < idx.len() && #[trigger] idx[a] <= e && edges[e].subset_of(edges[idx[a]]);
        assert(edges[e].subset_of(edges[idx[a]]));
    }
}

/// Picking the maximal edges of a piece picks those of the whole.
proof fn lemma_picks_through(
    cur: Seq<Set<nat>>,
    cur_nodes: Seq<usize>,
    origin: Seq<nat>,
    p: Seq<int>,
    idx: Seq<int>,
    edges: Seq<Set<nat>>,
    nodes: Seq<usize>,
)
    requires
        is_piece(cur, cur_nodes, origin, p, edges, nodes),
        crate::order::is_rearrangement(p, edges.len()),
        picks_maximal(cur, idx),
    ensures
        picks_maximal(edges, Seq::new(idx.len(), |a: int| p[idx[a]])),
{
    let src = Seq::new(idx.len(), |a: int| p[idx[a]]);
    assert forall|j: int, k: int| 0 <= j < cur.len() && 0 <= k < cur.len() implies (cur[j].subset_of(
        cur[k],
    ) <==> edges[p[j]].subset_of(edges[p[k]])) && (cur[j] == Set::<nat>::empty() <==> edges[p[j]]
        == Set::<nat>::empty()) by {
        lemma_pulled_back_subset(origin, edges[p[j]], edges[p[k]]);
    }
    assert forall|a: int| 0 <= a < src.len() implies is_maximal(edges, #[trigger] src[a]) by {
        let s = idx[a];
        assert(is_maximal(cur, s));
        assert forall|f: int|
            0 <= f < edges.len() && edges[src[a]].subset_of(#[trigger] edges[f]) implies edges[f].subset_of(
            edges[src[a]],
        ) by {
            lemma_rearrangement_onto(p, edges.len(), f);
            let j = choose|j: int| 0 <= j < edges.len() && p[j] == f;
            assert(cur[s].subset_of(cur[j]));
        }
    }
    assert forall|a: int, b: int|
        0 <= a < src.len() && 0 <= b < src.len() && a != b implies !edges[#[trigger] src[a]].subset_of(
        edges[#[trigger] src[b]],
    ) by {
        assert(!cur[idx[a]].subset_of(cur[idx[b]]));
    }
    assert forall|e: int|
        0 <= e < edges.len() && #[trigger] edges[e] != Set::<nat>::empty() implies exists|a: int|
        0 <= a < src.len() && edges[e].subset_of(edges[#[trigger] src[a]]) by {
        lemma_rearrangement_onto(p, edges.len(), e);
        let j = choose|j: int| 0 <= j < edges.len() && p[j] == e;
        lemma_pulled_back_subset(origin, edges[p[j]], edges[p[j]]);
        assert(cur[j] == pulled_back(origin, edges[p[j]]));
        assert(cur[j] != Set::<nat>::empty());
        let a = choose|a: int| 0 <= a < idx.len() && cur[j].subset_of(cur[#[trigger] idx[a]]);
        assert(edges[e].subset_of(edges[src[a]]));
    }
}

impl StructuredHypergraph {
    /// Drops the empty edges and those that lie inside another edge, keeps one
    /// copy of each of the others, largest first, and renumbers the vertices
    /// that are left.  Returns where each vertex and each edge came from.
    pub(crate) fn remove_redundant_hyperedges(&mut self) -> (prov: Ghost<(Seq<nat>, Seq<int>)>)
        requires
            old(self).labelled(),
        ensures
            is_piece(
                final(self).edges(),
                final(self).nodes@,
                prov@.0,
                prov@.1,
                old(self).edges(),
                old(self).nodes@,
            ),
            picks_maximal(old(self).edges(), prov@.1),
            is_flat(final(self).edges(), final(self).nodes@.len()),
            is_reduced(final(self).edges()),
            final(self).nodes@.len() <= 128,
            final(self).node_structure_partitions == old(self).node_structure_partitions,
            final(self).edge_structure_partitions == old(self).edge_structure_partitions,
    {
        let ghost edges0 = self.edges();
        let ghost nodes0 = self.nodes@;
        let map1 = self.flatten();
        let ghost edges1 = self.edges();
        let ghost nodes1 = self.nodes@;
        let ghost origin1 = composed(identity(nodes0.len()), map1@);
        let ghost src1 = Seq::new(edges0.len(), |k: int| k);
        proof {
            lemma_piece_of_itself(edges0, nodes0);
            lemma_relabelling_piece(
                map1@,
                edges0,
                nodes0,
                edges1,
                nodes1,
                identity(nodes0.len()),
                src1,
                edges0,
                nodes0,
            );
        }
        let ghost unsorted = self.hyperedges@;
        sort_by_size(&mut self.hyperedges);
        let ghost p = choose|p: Seq<int>| is_sorted_by_size(self.hyperedges@, unsorted, p);
        let ghost edges2 = self.edges();
        proof {
            assert forall|i: int, j: int| 0 <= i < j < edges2.len() implies (#[trigger] edges2[i]).len()
                >= (#[trigger] edges2[j]).len() by {}
            assert forall|k: int| 0 <= k < edges2.len() implies {
                &&& 0 <= #[trigger] p[k] < edges0.len()
                &&& edges2[k] == pulled_back(origin1, edges0[p[k]])
                &&& reaches(origin1, edges0[p[k]])
            } by {
                assert(self.hyperedges@[k] == unsorted[p[k]]);
                assert(edges1[p[k]] == pulled_back(origin1, edges0[src1[p[k]]]));
            }
            assert(is_piece(edges2, nodes1, origin1, p, edges0, nodes0));
        }
        let (kept, idx) = keep_maximal(&self.hyperedges);
        let ghost src3 = Seq::new(idx@.len(), |a: int| p[idx@[a]]);
        proof {
            lemma_picks_through(edges2, nodes1, origin1, p, idx@, edges0, nodes0);
        }
        self.hyperedges = kept;
        let ghost edges3 = self.edges();
        proof {
            assert forall|k: int| 0 <= k < edges3.len() implies {
                &&& 0 <= #[trigger] src3[k] < edges0.len()
                &&& edges3[k] == pulled_back(origin1, edges0[src3[k]])
                &&& reaches(origin1, edges0[src3[k]])
            } by {
                assert(edges3[k] == edges2[idx@[k]]);
                assert(0 <= p[idx@[k]] < edges0.len());
            }
            assert(is_piece(edges3, nodes1, origin1, src3, edges0, nodes0));
            assert(self.labelled()) by {
                assert forall|e: int, v: nat|
                    0 <= e < edges3.len() && #[trigger] edges3[e].contains(v) implies v
                    < nodes1.len() by {
                    assert(edges3[e] == pulled_back(origin1, edges0[src3[e]]));
                }
            }
        }
        let map2 = self.flatten();
        proof {
            lemma_relabelling_piece(
                map2@,
                edges3,
                nodes1,
                self.edges(),
                self.nodes@,
                origin1,
                src3,
                edges0,
                nodes0,
            );
            lemma_relabelling_reduced(map2@, edges3, self.edges());
        }
        Ghost((composed(origin1, map2@), src3))
    }
}

} // verus!
