//! Splitting a hypergraph into its connected components.

use vstd::prelude::*;
use std::collections::HashMap;
use union_find::QuickUnionUf;
use union_find::UnionByRank;
use crate::bitset::is_listing;
use crate::hypergraph::{
    copy_of, edge_sets, is_closed, is_connected, is_flat, is_reduced, used_vertices,
    StructuredHypergraph,
};
use crate::relabel::{
    composed, identity, is_piece, lemma_relabelling_connected, lemma_relabelling_piece,
    lemma_relabelling_reduced, lemma_reordered_piece, pulled_back, reaches,
};
use crate::sorter::StructuralHypergraphSorter;
use crate::unionfind::{is_merge, uf_find, uf_new, uf_roots, uf_union};

verus! {

/// Whether all vertices of each of the first `upto` edges stand under one root.
pub open spec fn edges_joined(roots: Seq<usize>, edges: Seq<Set<nat>>, upto: int) -> bool {
    forall|e: int, v: nat, w: nat|
        0 <= e < upto && #[trigger] edges[e].contains(v) && #[trigger] edges[e].contains(w)
            ==> roots[v as int] == roots[w as int]
}

/// Whether `t` holds, of the keys under each root, all or none.
pub open spec fn respects(roots: Seq<usize>, t: Set<nat>) -> bool {
    forall|x: int, y: int|
        0 <= x < roots.len() && 0 <= y < roots.len() && #[trigger] roots[x] == #[trigger] roots[y]
            ==> (t.contains(x as nat) <==> t.contains(y as nat))
}

/// Whether the sets are no coarser than the edges ask for: whatever is
/// closed under the edges holds, of the keys under each root, all or none.
pub open spec fn only_linked(roots: Seq<usize>, edges: Seq<Set<nat>>) -> bool {
    forall|t: Set<nat>| #[trigger] is_closed(edges, t) ==> respects(roots, t)
}

/// Whether all vertices of edge `e` stand under the root `r`.
pub open spec fn under(roots: Seq<usize>, edges: Seq<Set<nat>>, e: int, r: usize) -> bool {
    forall|v: nat| #[trigger] edges[e].contains(v) ==> roots[v as int] == r
}

/// Whether `list` holds, in rising order, those of the first `upto` edges
/// that stand under the root `r`.
pub open spec fn is_bucket(
    list: Seq<usize>,
    roots: Seq<usize>,
    edges: Seq<Set<nat>>,
    r: usize,
    upto: int,
) -> bool {
    &&& forall|i: int, j: int| 0 <= i < j < list.len() ==> list[i] < list[j]
    &&& forall|i: int| 0 <= i < list.len() ==> (#[trigger] list[i]) < upto && under(roots, edges, list[i] as int, r)
    &&& forall|e: int|
        0 <= e < upto && #[trigger] under(roots, edges, e, r) ==> exists|i: int|
            0 <= i < list.len() && list[i] == e
}

/// Whether `buckets` groups the first `upto` edges by the root they stand
/// under: one non-empty list for each root that some edge stands under.
pub open spec fn is_grouping(
    buckets: Map<usize, Vec<usize>>,
    roots: Seq<usize>,
    edges: Seq<Set<nat>>,
    upto: int,
) -> bool {
    &&& forall|r: usize| #[trigger]
        buckets.contains_key(r) ==> r < roots.len() && buckets[r]@.len() >= 1 && is_bucket(
            buckets[r]@,
            roots,
            edges,
            r,
            upto,
        )
    &&& forall|e: int, r: usize|
        0 <= e < upto && #[trigger] under(roots, edges, e, r) ==> buckets.contains_key(r)
}

/// Joining two vertices of one edge keeps the sets no coarser than the
/// edges ask for, and keeps together what stood together.
proof fn lemma_join_step(
    new: Seq<usize>,
    old: Seq<usize>,
    a: int,
    b: int,
    edges: Seq<Set<nat>>,
    e: int,
)
    requires
        is_merge(new, old, a, b),
        0 <= a < old.len(),
        0 <= b < old.len(),
        0 <= e < edges.len(),
        edges[e].contains(a as nat),
        edges[e].contains(b as nat),
        only_linked(old, edges),
    ensures
        only_linked(new, edges),
        new[a] == new[b],
        forall|x: int, y: int|
            0 <= x < old.len() && 0 <= y < old.len() && old[x] == old[y] ==> new[x] == new[y],
{
    assert(new[b] == new[a]);
    assert forall|t: Set<nat>| #[trigger] is_closed(edges, t) implies respects(new, t) by {
        assert(respects(old, t));
        assert(t.contains(a as nat) <==> t.contains(b as nat));
        assert forall|x: int, y: int|
            0 <= x < new.len() && 0 <= y < new.len() && #[trigger] new[x] == #[trigger] new[y] implies (
        t.contains(x as nat) <==> t.contains(y as nat)) by {
            let mx = old[x] == old[a] || old[x] == old[b];
            let my = old[y] == old[a] || old[y] == old[b];
            assert(new[x] == if mx { new[a] } else { old[x] });
            assert(new[y] == if my { new[a] } else { old[y] });
            if mx {
                assert(t.contains(x as nat) <==> t.contains(a as nat));
            }
            if my {
                assert(t.contains(y as nat) <==> t.contains(a as nat));
            }
            if mx && !my {
                // the root of y is the winner, so y stood with a or with b
                assert(old[y] == new[a]);
            }
            if my && !mx {
                assert(old[x] == new[a]);
            }
        }
    }
}

impl StructuredHypergraph {
    /// Joins, edge by edge, the vertices of each edge into one set.
    pub(crate) fn link_edges(&self) -> (uf: QuickUnionUf<UnionByRank>)
        requires
            self.labelled(),
        ensures
            uf_roots(uf).len() == self.nodes@.len(),
            edges_joined(uf_roots(uf), self.edges(), self.hyperedges@.len() as int),
            only_linked(uf_roots(uf), self.edges()),
    {
        let n = self.nodes.len();
        let mut uf = uf_new(n);
        let ghost edges = self.edges();
        proof {
            assert forall|t: Set<nat>| #[trigger] is_closed(edges, t) implies respects(
                uf_roots(uf),
                t,
            ) by {}
        }
        let mut e: usize = 0;
        while e < self.hyperedges.len()
            invariant
                e <= self.hyperedges@.len(),
                edges == self.edges(),
                n == self.nodes@.len(),
                self.labelled(),
                uf_roots(uf).len() == n,
                edges_joined(uf_roots(uf), edges, e as int),
                only_linked(uf_roots(uf), edges),
            decreases self.hyperedges@.len() - e,
        {
            let members = self.hyperedges[e].to_vec();
            if members.len() > 0 {
                let first = members[0];
                let mut k: usize = 1;
                proof {
                    assert(edges[e as int].contains(members@[0] as nat));
                }
                while k < members.len()
                    invariant
                        1 <= k <= members@.len(),
                        e < self.hyperedges@.len(),
                        edges == self.edges(),
                        n == self.nodes@.len(),
                        self.labelled(),
                        first == members@[0],
                        first < n,
                        is_listing(members@, edges[e as int]),
                        uf_roots(uf).len() == n,
                        edges_joined(uf_roots(uf), edges, e as int),
                        only_linked(uf_roots(uf), edges),
                        forall|j: int|
                            0 <= j < k ==> uf_roots(uf)[#[trigger] members@[j] as int] == uf_roots(
                                uf,
                            )[first as int],
                    decreases members@.len() - k,
                {
                    let node = members[k];
                    let ghost old_roots = uf_roots(uf);
                    proof {
                        assert(edges[e as int].contains(members@[k as int] as nat));
                    }
                    uf_union(&mut uf, first, node);
                    proof {
                        lemma_join_step(
                            uf_roots(uf),
                            old_roots,
                            first as int,
                            node as int,
                            edges,
                            e as int,
                        );
                        assert forall|j: int| 0 <= j < k + 1 implies uf_roots(
                            uf,
                        )[#[trigger] members@[j] as int] == uf_roots(uf)[first as int] by {
                            assert(edges[e as int].contains(members@[j] as nat));
                            if j < k {
                                assert(old_roots[members@[j] as int] == old_roots[first as int]);
                            }
                        }
                        assert(edges_joined(uf_roots(uf), edges, e as int)) by {
                            assert forall|f: int, v: nat, w: nat|
                                0 <= f < e && #[trigger] edges[f].contains(v) && #[trigger] edges[f].contains(
                                    w,
                                ) implies uf_roots(uf)[v as int] == uf_roots(uf)[w as int] by {
                                assert(old_roots[v as int] == old_roots[w as int]);
                            }
                        }
                    }
                    k = k + 1;
                }
            }
            proof {
                let roots = uf_roots(uf);
                assert forall|f: int, v: nat, w: nat|
                    0 <= f < e + 1 && #[trigger] edges[f].contains(v) && #[trigger] edges[f].contains(
                        w,
                    ) implies roots[v as int] == roots[w as int] by {
                    if f == e {
                        let i = choose|i: int| 0 <= i < members@.len() && members@[i] == v;
                        let j = choose|j: int| 0 <= j < members@.len() && members@[j] == w;
                        assert(roots[members@[i] as int] == roots[members@[0] as int]);
                        assert(roots[members@[j] as int] == roots[members@[0] as int]);
                    }
                }
            }
            e = e + 1;
        }
        uf
    }

    /// Groups the edges by the root that their vertices stand under.
    pub(crate) fn group_edges(&self, uf: &mut QuickUnionUf<UnionByRank>) -> (buckets: HashMap<
        usize,
        Vec<usize>,
    >)
        requires
            self.labelled(),
            is_reduced(self.edges()),
            uf_roots(*old(uf)).len() == self.nodes@.len(),
            edges_joined(uf_roots(*old(uf)), self.edges(), self.hyperedges@.len() as int),
        ensures
            uf_roots(*final(uf)) == uf_roots(*old(uf)),
            is_grouping(buckets@, uf_roots(*old(uf)), self.edges(), self.hyperedges@.len() as int),
    {
        broadcast use vstd::std_specs::hash::group_hash_axioms;

        let ghost roots = uf_roots(*uf);
        let ghost edges = self.edges();
        let mut buckets: HashMap<usize, Vec<usize>> = HashMap::with_capacity(2);
        let mut e: usize = 0;
        while e < self.hyperedges.len()
            invariant
                e <= self.hyperedges@.len(),
                edges == self.edges(),
                self.labelled(),
                is_reduced(edges),
                roots == uf_roots(*uf),
                roots.len() == self.nodes@.len(),
                edges_joined(roots, edges, self.hyperedges@.len() as int),
                is_grouping(buckets@, roots, edges, e as int),
            decreases self.hyperedges@.len() - e,
        {
            let members = self.hyperedges[e].to_vec();
            proof {
                assert(edges[e as int] != Set::<nat>::empty());
                if members@.len() == 0 {
                    assert(edges[e as int] =~= Set::<nat>::empty());
                }
                assert(edges[e as int].contains(members@[0] as nat));
            }
            let representative = members[0];
            let root = uf_find(uf, representative);
            let ghost before = buckets@;
            let mut list: Vec<usize> = match buckets.get(&root) {
                Some(v) => v.clone(),
                None => Vec::new(),
            };
            let ghost had = list@;
            proof {
                if before.contains_key(root) {
                    assert(had =~= before[root]@);
                }
                assert(under(roots, edges, e as int, root));
            }
            list.push(e);
            buckets.insert(root, list);
            proof {
                lemma_grouping_step(before, buckets@, roots, edges, e as int, root, had);
            }
            e = e + 1;
        }
        buckets
    }
}

/// Putting the next edge into the list of its root keeps the grouping.
proof fn lemma_grouping_step(
    before: Map<usize, Vec<usize>>,
    after: Map<usize, Vec<usize>>,
    roots: Seq<usize>,
    edges: Seq<Set<nat>>,
    e: int,
    root: usize,
    had: Seq<usize>,
)
    requires
        0 <= e < edges.len(),
        is_grouping(before, roots, edges, e),
        root < roots.len(),
        under(roots, edges, e, root),
        edges[e] != Set::<nat>::empty(),
        before.contains_key(root) ==> had == before[root]@,
        !before.contains_key(root) ==> had.len() == 0,
        after.dom() == before.dom().insert(root),
        after[root]@ == had.push(e as usize),
        forall|r: usize| r != root && before.contains_key(r) ==> after[r] == before[r],
        e <= usize::MAX,
    ensures
        is_grouping(after, roots, edges, e + 1),
{
    let v = choose|v: nat| edges[e].contains(v);
    if forall|v: nat| !edges[e].contains(v) {
        assert(edges[e] =~= Set::<nat>::empty());
    }
    assert(edges[e].contains(v));
    assert forall|r: usize| #[trigger] after.contains_key(r) implies r < roots.len() && after[r]@.len()
        >= 1 && is_bucket(after[r]@, roots, edges, r, e + 1) by {
        if r == root {
            let list = after[r]@;
            if before.contains_key(root) {
                assert(is_bucket(had, roots, edges, r, e));
            }
            assert forall|i: int, j: int| 0 <= i < j < list.len() implies list[i] < list[j] by {
                assert(list[i] == had[i]);
                assert(had[i] < e);
            }
            assert forall|i: int| 0 <= i < list.len() implies (#[trigger] list[i]) < e + 1 && under(
                roots,
                edges,
                list[i] as int,
                r,
            ) by {
                if i < had.len() {
                    assert(list[i] == had[i]);
                }
            }
            assert forall|f: int| 0 <= f < e + 1 && #[trigger] under(roots, edges, f, r) implies exists|
                i: int,
            | 0 <= i < list.len() && list[i] == f by {
                if f < e {
                    assert(before.contains_key(r));
                    let i = choose|i: int| 0 <= i < had.len() && had[i] == f;
                    assert(list[i] == f);
                } else {
                    assert(list[list.len() - 1] == f);
                }
            }
        } else {
            assert(before.contains_key(r));
            let list = before[r]@;
            assert(is_bucket(list, roots, edges, r, e));
            assert(!under(roots, edges, e, r)) by {
                assert(roots[v as int] == root);
            }
        }
    }
    assert forall|f: int, r: usize| 0 <= f < e + 1 && #[trigger] under(roots, edges, f, r) implies after.contains_key(
        r,
    ) by {
        if f == e {
            assert(roots[v as int] == root);
            assert(r == root);
        } else {
            assert(before.contains_key(r));
        }
    }
}

/// Whether the hypergraphs `parts` are the connected components of the
/// hypergraph `(edges, nodes)`: each is a position in canonical shape and a
/// piece of the whole, under the origins `provs[c].0` of its vertices and
/// `provs[c].1` of its edges; no two share a vertex; and each edge of the
/// whole is the edge of one of them.
pub open spec fn is_split(
    parts: Seq<StructuredHypergraph>,
    provs: Seq<(Seq<nat>, Seq<int>)>,
    edges: Seq<Set<nat>>,
    nodes: Seq<usize>,
) -> bool {
    &&& provs.len() == parts.len()
    &&& forall|c: int|
        0 <= c < parts.len() ==> {
            &&& (#[trigger] parts[c]).wf()
            &&& parts[c].nodes@.len() >= 1
            &&& is_piece(parts[c].edges(), parts[c].nodes@, provs[c].0, provs[c].1, edges, nodes)
        }
    &&& forall|c: int, d: int, i: int, j: int|
        0 <= c < d < parts.len() && 0 <= i < provs[c].0.len() && 0 <= j < provs[d].0.len()
            ==> #[trigger] provs[c].0[i] != #[trigger] provs[d].0[j]
    &&& forall|e: int| 0 <= e < edges.len() ==> #[trigger] placed(provs, e)
}

/// Whether `e` is among the origins `src`.
pub open spec fn holds_edge(src: Seq<int>, e: int) -> bool {
    exists|k: int| 0 <= k < src.len() && src[k] == e
}

/// Whether edge `e` of the whole is the edge of some part.
pub open spec fn placed(provs: Seq<(Seq<nat>, Seq<int>)>, e: int) -> bool {
    exists|c: int| 0 <= c < provs.len() && #[trigger] holds_edge(provs[c].1, e)
}

/// The edges under one root make a connected hypergraph.
proof fn lemma_bucket_connected(
    sub: Seq<Set<nat>>,
    bucket: Seq<usize>,
    roots: Seq<usize>,
    edges: Seq<Set<nat>>,
    r: usize,
)
    requires
        is_bucket(bucket, roots, edges, r, edges.len() as int),
        sub.len() == bucket.len(),
        forall|j: int| 0 <= j < bucket.len() ==> #[trigger] sub[j] == edges[bucket[j] as int],
        crate::hypergraph::edges_within(edges, roots.len()),
        edges_joined(roots, edges, edges.len() as int),
        only_linked(roots, edges),
    ensures
        is_connected(sub),
        forall|v: nat| used_vertices(sub).contains(v) ==> roots[v as int] == r,
{
    assert forall|v: nat| used_vertices(sub).contains(v) implies roots[v as int] == r by {
        let j = choose|j: int| 0 <= j < sub.len() && #[trigger] sub[j].contains(v);
        assert(under(roots, edges, bucket[j] as int, r));
        assert(edges[bucket[j] as int].contains(v));
    }
    assert forall|s: Set<nat>, v: nat, w: nat|
        #[trigger] is_closed(sub, s) && used_vertices(sub).contains(v) && #[trigger] s.contains(v)
            && #[trigger] used_vertices(sub).contains(w) implies s.contains(w) by {
        let t = Set::new(|x: nat| s.contains(x) || (x < roots.len() && roots[x as int] != r));
        assert forall|e: int, x: nat, y: nat|
            0 <= e < edges.len() && #[trigger] edges[e].contains(x) && #[trigger] edges[e].contains(y)
                && t.contains(x) implies t.contains(y) by {
            assert(roots[x as int] == roots[y as int]);
            if roots[x as int] == r {
                assert forall|z: nat| #[trigger] edges[e].contains(z) implies roots[z as int] == r by {
                    assert(roots[z as int] == roots[x as int]);
                }
                assert(under(roots, edges, e, r));
                let j = choose|j: int| 0 <= j < bucket.len() && bucket[j] == e;
                assert(sub[j].contains(x) && sub[j].contains(y));
            }
        }
        assert(is_closed(edges, t));
        assert(respects(roots, t));
        assert(roots[v as int] == r && roots[w as int] == r);
        let jv = choose|j: int| 0 <= j < sub.len() && #[trigger] sub[j].contains(v);
        let jw = choose|j: int| 0 <= j < sub.len() && #[trigger] sub[j].contains(w);
        assert(edges[bucket[jv] as int].contains(v));
        assert(edges[bucket[jw] as int].contains(w));
        assert(t.contains(v));
        assert(roots[v as int] == roots[w as int]);
        assert(t.contains(w));
    }
}

impl StructuredHypergraph {
    /// Makes the connected component of the edges in `bucket`, which are
    /// those that stand under the root `r`, and puts it in canonical order.
    pub(crate) fn build_part(
        &self,
        bucket: &Vec<usize>,
        Ghost(roots): Ghost<Seq<usize>>,
        Ghost(r): Ghost<usize>,
    ) -> (res: (StructuredHypergraph, Ghost<(Seq<nat>, Seq<int>)>))
        requires
            self.nodes@.len() <= 128,
            is_flat(self.edges(), self.nodes@.len()),
            is_reduced(self.edges()),
            roots.len() == self.nodes@.len(),
            edges_joined(roots, self.edges(), self.hyperedges@.len() as int),
            only_linked(roots, self.edges()),
            bucket@.len() >= 1,
            is_bucket(bucket@, roots, self.edges(), r, self.hyperedges@.len() as int),
        ensures
            res.0.wf(),
            res.0.nodes@.len() >= 1,
            is_piece(res.0.edges(), res.0.nodes@, res.1@.0, res.1@.1, self.edges(), self.nodes@),
            forall|i: int| 0 <= i < res.1@.0.len() ==> roots[#[trigger] res.1@.0[i] as int] == r,
            forall|j: int| 0 <= j < bucket@.len() ==> holds_edge(res.1@.1, #[trigger] bucket@[j] as int),
    {
        let ghost edges = self.edges();
        let ghost nodes = self.nodes@;
        let mut picked: Vec<crate::bitset::Bitset128> = Vec::with_capacity(bucket.len());
        let mut j: usize = 0;
        while j < bucket.len()
            invariant
                j <= bucket@.len(),
                picked@.len() == j,
                forall|i: int| 0 <= i < bucket@.len() ==> (#[trigger] bucket@[i]) < self.hyperedges@.len(),
                forall|i: int| 0 <= i < j ==> #[trigger] picked@[i] == self.hyperedges@[bucket@[i] as int],
            decreases bucket@.len() - j,
        {
            picked.push(self.hyperedges[bucket[j]]);
            j = j + 1;
        }
        let mut part = StructuredHypergraph {
            hyperedges: picked,
            nodes: self.nodes.clone(),
            node_structure_partitions: Vec::new(),
            edge_structure_partitions: Vec::new(),
        };
        let ghost sub = part.edges();
        let ghost src0 = Seq::new(bucket@.len(), |j: int| bucket@[j] as int);
        proof {
            assert(part.nodes@ =~= nodes);
            assert forall|j: int| 0 <= j < bucket@.len() implies #[trigger] sub[j] == edges[bucket@[j] as int] by {}
            assert(crate::hypergraph::edges_within(edges, nodes.len())) by {
                assert forall|e: int, v: nat| 0 <= e < edges.len() && #[trigger] edges[e].contains(
                    v,
                ) implies v < nodes.len() by {
                    assert(used_vertices(edges).contains(v));
                }
            }
            lemma_bucket_connected(sub, bucket@, roots, edges, r);
            assert(is_reduced(sub)) by {
                assert forall|a: int, b: int|
                    0 <= a < sub.len() && 0 <= b < sub.len() && a != b implies !(#[trigger] sub[a]).subset_of(
                    #[trigger] sub[b],
                ) by {
                    if a < b {
                        assert(bucket@[a] < bucket@[b]);
                    } else {
                        assert(bucket@[b] < bucket@[a]);
                    }
                    assert(!edges[bucket@[a] as int].subset_of(edges[bucket@[b] as int]));
                }
                assert forall|a: int| 0 <= a < sub.len() implies #[trigger] sub[a] != Set::<
                    nat,
                >::empty() by {
                    assert(edges[bucket@[a] as int] != Set::<nat>::empty());
                }
            }
            assert(is_piece(sub, nodes, identity(nodes.len()), src0, edges, nodes)) by {
                let origin = identity(nodes.len());
                assert forall|k: int| 0 <= k < sub.len() implies {
                    &&& 0 <= #[trigger] src0[k] < edges.len()
                    &&& sub[k] == pulled_back(origin, edges[src0[k]])
                    &&& reaches(origin, edges[src0[k]])
                } by {
                    let big = edges[src0[k]];
                    assert forall|v: nat| big.contains(v) implies exists|i: int|
                        0 <= i < origin.len() && origin[i] == v by {
                        assert(origin[v as int] == v);
                    }
                    assert(sub[k] =~= pulled_back(origin, big));
                }
            }
        }
        let map = part.flatten();
        let ghost flat = part.edges();
        let ghost flat_nodes = part.nodes@;
        let ghost origin1 = composed(identity(nodes.len()), map@);
        proof {
            lemma_relabelling_reduced(map@, sub, flat);
            lemma_relabelling_connected(map@, sub, flat);
            lemma_relabelling_piece(
                map@,
                sub,
                nodes,
                flat,
                flat_nodes,
                identity(nodes.len()),
                src0,
                edges,
                nodes,
            );
            assert(flat_nodes.len() >= 1) by {
                assert(sub[0] != Set::<nat>::empty());
                if forall|v: nat| !sub[0].contains(v) {
                    assert(sub[0] =~= Set::<nat>::empty());
                }
                let v = choose|v: nat| sub[0].contains(v);
                let i = choose|i: int| 0 <= i < map@.len() && map@[i] == v;
            }
            assert(part.labelled()) by {
                assert forall|e: int, v: nat| 0 <= e < flat.len() && #[trigger] flat[e].contains(
                    v,
                ) implies v < flat_nodes.len() by {
                    assert(used_vertices(flat).contains(v));
                }
            }
            assert forall|i: int| 0 <= i < origin1.len() implies roots[#[trigger] origin1[i] as int]
                == r by {
                assert(used_vertices(sub).contains(map@[i] as nat));
            }
        }
        let sorter = StructuralHypergraphSorter::new(part);
        let (g, maps) = sorter.sort_tracked();
        let ghost node_map = maps@.0;
        let ghost edge_map = maps@.1;
        let ghost src = Seq::new(edge_map.len(), |k: int| src0[edge_map[k] as int]);
        proof {
            lemma_reordered_piece(
                g.edges(),
                g.nodes@,
                flat,
                flat_nodes,
                node_map,
                edge_map,
                origin1,
                src0,
                edges,
                nodes,
            );
            let origin = composed(origin1, node_map);
            assert forall|i: int| 0 <= i < origin.len() implies roots[#[trigger] origin[i] as int]
                == r by {
                assert(origin[i] == origin1[node_map[i] as int]);
            }
            assert forall|j: int| 0 <= j < bucket@.len() implies holds_edge(
                src,
                #[trigger] bucket@[j] as int,
            ) by {
                crate::order::lemma_permutation_onto(edge_map, j);
                let k = choose|k: int| 0 <= k < edge_map.len() && edge_map[k] == j;
                assert(src[k] == bucket@[j]);
            }
        }
        (g, Ghost((composed(origin1, node_map), src)))
    }

    /// Splits a hypergraph without needless edges into its connected
    /// components, each in canonical order.  Returns, with each component,
    /// where its vertices and edges came from.
    #[verifier::rlimit(40)]
    pub(crate) fn get_parts(self) -> (res: (
        Vec<StructuredHypergraph>,
        Ghost<Seq<(Seq<nat>, Seq<int>)>>,
    ))
        requires
            self.nodes@.len() <= 128,
            is_flat(self.edges(), self.nodes@.len()),
            is_reduced(self.edges()),
        ensures
            is_split(res.0@, res.1@, self.edges(), self.nodes@),
    {
        broadcast use vstd::std_specs::hash::group_hash_axioms;

        let ghost edges = self.edges();
        let ghost nodes = self.nodes@;
        proof {
            assert(self.labelled()) by {
                assert forall|e: int, v: nat| 0 <= e < edges.len() && #[trigger] edges[e].contains(
                    v,
                ) implies v < nodes.len() by {
                    assert(used_vertices(edges).contains(v));
                }
            }
        }
        let mut uf = self.link_edges();
        let buckets = self.group_edges(&mut uf);
        let ghost roots = uf_roots(uf);
        let n = self.nodes.len();
        let mut parts: Vec<StructuredHypergraph> = Vec::new();
        let ghost mut provs: Seq<(Seq<nat>, Seq<int>)> = Seq::empty();
        let ghost mut part_roots: Seq<usize> = Seq::empty();
        let mut r: usize = 0;
        while r < n
            invariant
                r <= n,
                n == self.nodes@.len(),
                n <= 128,
                edges == self.edges(),
                nodes == self.nodes@,
                is_flat(edges, nodes.len()),
                is_reduced(edges),
                roots.len() == n,
                edges_joined(roots, edges, edges.len() as int),
                only_linked(roots, edges),
                is_grouping(buckets@, roots, edges, edges.len() as int),
                provs.len() == parts@.len(),
                part_roots.len() == parts@.len(),
                forall|c: int|
                    0 <= c < parts@.len() ==> {
                        &&& (#[trigger] parts@[c]).wf()
                        &&& parts@[c].nodes@.len() >= 1
                        &&& is_piece(
                            parts@[c].edges(),
                            parts@[c].nodes@,
                            provs[c].0,
                            provs[c].1,
                            edges,
                            nodes,
                        )
                    },
                forall|c: int| 0 <= c < part_roots.len() ==> (#[trigger] part_roots[c]) < r,
                forall|c: int, i: int|
                    0 <= c < provs.len() && 0 <= i < provs[c].0.len() ==> roots[#[trigger] provs[c].0[i] as int]
                        == part_roots[c],
                forall|c: int, d: int| 0 <= c < d < part_roots.len() ==> part_roots[c] < part_roots[d],
                forall|c: int, e: int|
                    0 <= c < provs.len() && 0 <= e < edges.len() && under(roots, edges, e, part_roots[c])
                        ==> #[trigger] holds_edge(provs[c].1, e),
                forall|q: usize|
                    q < r && buckets@.contains_key(q) ==> exists|c: int|
                        0 <= c < part_roots.len() && #[trigger] part_roots[c] == q,
            decreases n - r,
        {
            let ghost before_roots = part_roots;
            match buckets.get(&r) {
                Some(bucket) => {
                    assert(buckets@.contains_key(r));
                    assert(bucket@ == buckets@[r]@);
                    let (g, prov) = self.build_part(bucket, Ghost(roots), Ghost(r));
                    parts.push(g);
                    proof {
                        provs = provs.push(prov@);
                        part_roots = part_roots.push(r);
                        assert forall|c: int, e: int|
                            0 <= c < provs.len() && 0 <= e < edges.len() && under(
                                roots,
                                edges,
                                e,
                                part_roots[c],
                            ) implies #[trigger] holds_edge(provs[c].1, e) by {
                            if c == provs.len() - 1 {
                                let j = choose|j: int| 0 <= j < bucket@.len() && bucket@[j] == e;
                                assert(holds_edge(prov@.1, bucket@[j] as int));
                            }
                        }
                        assert forall|q: usize| q < r + 1 && buckets@.contains_key(q) implies exists|
                            c: int,
                        | 0 <= c < part_roots.len() && #[trigger] part_roots[c] == q by {
                            if q < r {
                                let c = choose|c: int|
                                    0 <= c < before_roots.len() && #[trigger] before_roots[c] == q;
                                assert(part_roots[c] == q);
                            } else {
                                assert(part_roots[part_roots.len() - 1] == q);
                            }
                        }
                    }
                },
                None => {
                    assert(!buckets@.contains_key(r));
                },
            }
            r = r + 1;
        }
        proof {
            assert forall|e: int| 0 <= e < edges.len() implies #[trigger] placed(provs, e) by {
                assert(edges[e] != Set::<nat>::empty());
                if forall|v: nat| !edges[e].contains(v) {
                    assert(edges[e] =~= Set::<nat>::empty());
                }
                let v = choose|v: nat| edges[e].contains(v);
                assert(used_vertices(edges).contains(v));
                let q = roots[v as int];
                assert forall|w: nat| #[trigger] edges[e].contains(w) implies roots[w as int] == q by {}
                assert(under(roots, edges, e, q));
                assert(buckets@.contains_key(q));
                let c = choose|c: int| 0 <= c < part_roots.len() && #[trigger] part_roots[c] == q;
                assert(holds_edge(provs[c].1, e));
            }
            assert forall|c: int, d: int, i: int, j: int|
                0 <= c < d < parts@.len() && 0 <= i < provs[c].0.len() && 0 <= j < provs[d].0.len() implies #[trigger] provs[c].0[i]
                != #[trigger] provs[d].0[j] by {
                assert(roots[provs[c].0[i] as int] == part_roots[c]);
                assert(roots[provs[d].0[j] as int] == part_roots[d]);
            }
        }
        (parts, Ghost(provs))
    }
}

} // verus!
