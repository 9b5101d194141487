//! The search for a mirror symmetry: a pairing of the vertices that lets the
//! second player answer every move by its mirror image.

use vstd::prelude::*;
use std::collections::HashSet;
use crate::bitset::{is_listing, remapped};
use crate::game::TakingGame;
use crate::hypergraph::{is_edge_listing, is_partition, StructuredHypergraph};
use crate::sorter::in_block;

verus! {

/// Whether some edge holds both `v` and `w`.
pub open spec fn adjacent(edges: Seq<Set<nat>>, v: nat, w: nat) -> bool {
    exists|e: int| 0 <= e < edges.len() && #[trigger] edges[e].contains(v) && edges[e].contains(w)
}

/// Whether `v` and `w` lie in one block.
pub open spec fn same_block(parts: Seq<usize>, v: int, w: int) -> bool {
    exists|b: int| #[trigger] in_block(parts, b, v) && in_block(parts, b, w)
}

/// Whether every block holds an even number of places.
pub open spec fn blocks_even(parts: Seq<usize>) -> bool {
    forall|b: int| 0 <= b < parts.len() - 1 ==> (#[trigger] parts[b + 1] - parts[b]) % 2 == 0
}

/// Whether `nbs[v]` holds the vertices that share an edge with `v`.
pub open spec fn is_neighbourhoods(nbs: Seq<HashSet<usize>>, edges: Seq<Set<nat>>, n: nat) -> bool {
    &&& nbs.len() == n
    &&& forall|v: int, w: usize|
        0 <= v < n ==> (#[trigger] nbs[v]@.contains(w) <==> adjacent(edges, v as nat, w as nat))
}

/// The number of vertices without a partner.
pub open spec fn unmatched(p: Seq<Option<usize>>) -> nat
    decreases p.len(),
{
    if p.len() == 0 {
        0
    } else {
        unmatched(p.drop_last()) + if p.last() is None { 1nat } else { 0nat }
    }
}

/// Giving a partner to a vertex that had none leaves one vertex less without.
pub proof fn lemma_unmatched_update(p: Seq<Option<usize>>, i: int, c: usize)
    requires
        0 <= i < p.len(),
        p[i] is None,
    ensures
        unmatched(p.update(i, Some(c))) + 1 == unmatched(p),
    decreases p.len(),
{
    let q = p.update(i, Some(c));
    if i == p.len() - 1 {
        assert(q.drop_last() =~= p.drop_last());
    } else {
        lemma_unmatched_update(p.drop_last(), i, c);
        assert(q.drop_last() =~= p.drop_last().update(i, Some(c)));
    }
}

/// Where every vertex has a partner, none is without.
pub proof fn lemma_unmatched_some(p: Seq<Option<usize>>, i: int)
    requires
        0 <= i < p.len(),
        p[i] is None,
    ensures
        unmatched(p) > 0,
    decreases p.len(),
{
    if i < p.len() - 1 {
        lemma_unmatched_some(p.drop_last(), i);
    }
}

/// The first vertex without a partner.
pub fn find_unmatched_node(symmetries: &Vec<Option<usize>>) -> (r: Option<usize>)
    ensures
        r matches Some(v) ==> v < symmetries@.len() && symmetries@[v as int] is None && forall|x: int|
            0 <= x < v ==> symmetries@[x] is Some,
        r is None ==> forall|x: int| 0 <= x < symmetries@.len() ==> symmetries@[x] is Some,
{
    let mut v: usize = 0;
    while v < symmetries.len()
        invariant
            v <= symmetries@.len(),
            forall|x: int| 0 <= x < v ==> symmetries@[x] is Some,
        decreases symmetries@.len() - v,
    {
        if symmetries[v].is_none() {
            return Some(v);
        }
        v = v + 1;
    }
    None
}

/// Whether `s` is one of the edges.
pub open spec fn is_edge(edges: Seq<Set<nat>>, s: Set<nat>) -> bool {
    exists|f: int| 0 <= f < edges.len() && #[trigger] edges[f] == s
}

impl StructuredHypergraph {
    /// Whether `v` and `c` may be partners, whatever the other pairs are:
    /// two vertices of one block that share no edge.
    pub open spec fn pair_ok(&self, v: int, c: int) -> bool {
        &&& 0 <= v < self.nodes@.len()
        &&& 0 <= c < self.nodes@.len()
        &&& v != c
        &&& same_block(self.node_structure_partitions@, v, c)
        &&& !adjacent(self.edges(), v as nat, c as nat)
    }

    /// Whether the partners of the vertices of every edge are the vertices
    /// of an edge.  As each vertex is the partner of its partner, the
    /// partners of the vertices of an edge are the vertices whose partner
    /// is in the edge.
    pub open spec fn maps_edges(&self, sigma: Seq<usize>) -> bool {
        forall|e: int|
            0 <= e < self.edges().len() ==> is_edge(self.edges(), remapped(#[trigger] self.edges()[e], sigma))
    }

    /// Whether `sigma` is a mirror of the position: it pairs the vertices,
    /// each with one of its block that shares no edge with it; where `u`
    /// shares an edge with `v` and was paired before `v`, the partners of
    /// the two share an edge too; and the partners of the vertices of an
    /// edge are the vertices of an edge.  The pairs are made in the order
    /// of their smaller vertex, so `u` was paired before `v` where `u` or
    /// its partner is below `v`, the smaller vertex of its pair.
    pub open spec fn is_mirror(&self, sigma: Seq<usize>) -> bool {
        &&& self.maps_edges(sigma)
        &&& sigma.len() == self.nodes@.len()
        &&& forall|v: int|
            0 <= v < sigma.len() ==> (#[trigger] sigma[v]) < sigma.len() && sigma[sigma[v] as int] == v
                && self.pair_ok(v, sigma[v] as int)
        &&& forall|v: int, u: int|
            0 <= v < sigma.len() && 0 <= u < sigma.len() && v < sigma[v] && #[trigger] adjacent(
                self.edges(),
                v as nat,
                u as nat,
            ) && (u < v || sigma[u] < v) ==> adjacent(
                self.edges(),
                sigma[v] as nat,
                sigma[u] as nat,
            )
    }

    /// Whether the numbers of vertices and of edges are even, and so is the
    /// size of every block of both partitions.
    pub open spec fn parities_even(&self) -> bool {
        &&& self.nodes@.len() % 2 == 0
        &&& self.hyperedges@.len() % 2 == 0
        &&& blocks_even(self.edge_structure_partitions@)
        &&& blocks_even(self.node_structure_partitions@)
    }

    /// Whether the search for a mirror succeeds.
    pub open spec fn has_symmetry(&self) -> bool {
        self.parities_even() && exists|sigma: Seq<usize>| self.is_mirror(sigma)
    }

    /// What holds of the pairs made so far.
    pub open spec fn partial_ok(&self, p: Seq<Option<usize>>) -> bool {
        &&& p.len() == self.nodes@.len()
        &&& forall|v: int|
            0 <= v < p.len() ==> (#[trigger] p[v] matches Some(c) ==> c < p.len() && p[c as int]
                == Some(v as usize) && self.pair_ok(v, c as int))
        &&& forall|v: int, x: int|
            0 <= x < v < p.len() ==> (#[trigger] p[v] matches Some(c) ==> v < c ==> #[trigger] p[x] is Some)
        &&& forall|v: int, u: int|
            0 <= v < p.len() && 0 <= u < p.len() && #[trigger] adjacent(
                self.edges(),
                v as nat,
                u as nat,
            ) ==> (p[v] matches Some(c) ==> (p[u] matches Some(w) ==> (v < c && (u < v || w < v)
                ==> adjacent(self.edges(), c as nat, w as nat))))
    }

    /// Whether `c` may be paired with `v`, the first vertex without partner,
    /// given the pairs made so far.
    pub open spec fn valid_match(&self, v: int, c: int, p: Seq<Option<usize>>) -> bool {
        &&& v != c
        &&& p[c] is None
        &&& !adjacent(self.edges(), v as nat, c as nat)
        &&& forall|u: int|
            0 <= u < p.len() && #[trigger] adjacent(self.edges(), v as nat, u as nat) ==> (
            p[u] matches Some(w) ==> adjacent(self.edges(), c as nat, w as nat))
    }
}

/// Whether `sigma` keeps the pairs made so far.
pub open spec fn extends(sigma: Seq<usize>, p: Seq<Option<usize>>) -> bool {
    forall|v: int| 0 <= v < p.len() ==> (#[trigger] p[v] matches Some(c) ==> sigma[v] == c)
}

/// The pairs made so far, and `v` with `c`.
pub open spec fn with_pair(p: Seq<Option<usize>>, v: int, c: int) -> Seq<Option<usize>> {
    p.update(v, Some(c as usize)).update(c, Some(v as usize))
}

/// When every vertex has its partner and the partners of the vertices of
/// each edge are an edge, the pairs are a mirror.
proof fn lemma_full_is_mirror(g: StructuredHypergraph, p: Seq<Option<usize>>, sigma: Seq<usize>)
    requires
        g.partial_ok(p),
        g.maps_edges(sigma),
        sigma.len() == p.len(),
        forall|v: int| 0 <= v < p.len() ==> p[v] == Some(#[trigger] sigma[v]),
    ensures
        g.is_mirror(sigma),
        extends(sigma, p),
{
    assert forall|v: int| 0 <= v < sigma.len() implies (#[trigger] sigma[v]) < sigma.len()
        && sigma[sigma[v] as int] == v && g.pair_ok(v, sigma[v] as int) by {
        assert(p[v] == Some(sigma[v]));
        assert(p[sigma[v] as int] == Some(sigma[sigma[v] as int]));
    }
    assert forall|v: int, u: int|
        0 <= v < sigma.len() && 0 <= u < sigma.len() && v < sigma[v] && #[trigger] adjacent(
            g.edges(),
            v as nat,
            u as nat,
        ) && (u < v || sigma[u] < v) implies adjacent(
        g.edges(),
        sigma[v] as nat,
        sigma[u] as nat,
    ) by {
        assert(p[v] == Some(sigma[v]));
        assert(p[u] == Some(sigma[u]));
    }
}

/// Pairing the first vertex without partner with a valid candidate keeps
/// what holds of the pairs.
proof fn lemma_pair_step(g: StructuredHypergraph, p: Seq<Option<usize>>, v: int, c: int)
    requires
        g.partial_ok(p),
        0 <= v < p.len(),
        0 <= c < p.len(),
        p[v] is None,
        forall|x: int| 0 <= x < v ==> p[x] is Some,
        same_block(g.node_structure_partitions@, v, c),
        g.valid_match(v, c, p),
    ensures
        g.partial_ok(with_pair(p, v, c)),
        v < c,
        unmatched(with_pair(p, v, c)) + 2 == unmatched(p),
{
    let q = with_pair(p, v, c);
    assert(v < c) by {
        if c < v {
            assert(p[c] is Some);
        }
    }
    lemma_unmatched_update(p, v, c as usize);
    lemma_unmatched_update(p.update(v, Some(c as usize)), c, v as usize);
    assert forall|a: int| 0 <= a < q.len() implies (#[trigger] q[a] matches Some(d) ==> d < q.len()
        && q[d as int] == Some(a as usize) && g.pair_ok(a, d as int)) by {
        if a != v && a != c {
            assert(q[a] == p[a]);
            if p[a] is Some {
                let d = p[a]->0;
                assert(p[d as int] == Some(a as usize));
                assert(d != v && d != c);
            }
        } else {
            assert(!adjacent(g.edges(), c as nat, v as nat)) by {
                if adjacent(g.edges(), c as nat, v as nat) {
                    let e = choose|e: int|
                        0 <= e < g.edges().len() && #[trigger] g.edges()[e].contains(c as nat)
                            && g.edges()[e].contains(v as nat);
                    assert(g.edges()[e].contains(v as nat) && g.edges()[e].contains(c as nat));
                }
            }
            let b = choose|b: int| #[trigger]
                in_block(g.node_structure_partitions@, b, v) && in_block(
                    g.node_structure_partitions@,
                    b,
                    c,
                );
            assert(in_block(g.node_structure_partitions@, b, c) && in_block(
                g.node_structure_partitions@,
                b,
                v,
            ));
        }
    }
    assert forall|a: int, x: int| 0 <= x < a < q.len() implies (#[trigger] q[a] matches Some(d) ==> a
        < d ==> #[trigger] q[x] is Some) by {
        if q[a] is Some && a < q[a]->0 {
            if a == v {
                assert(p[x] is Some);
            } else if a == c {
            } else {
                assert(q[a] == p[a]);
                assert(p[x] is Some);
            }
        }
    }
    assert forall|a: int, u: int|
        0 <= a < q.len() && 0 <= u < q.len() && #[trigger] adjacent(g.edges(), a as nat, u as nat) implies (
    q[a] matches Some(d) ==> (q[u] matches Some(w) ==> (a < d && (u < a || w < a) ==> adjacent(
        g.edges(),
        d as nat,
        w as nat,
    )))) by {
        if q[a] is Some && q[u] is Some && a < q[a]->0 && (u < a || q[u]->0 < a) {
            if a == v {
                // u is neither v nor c: both lie at or above v
                assert(u != v && u != c);
                assert(q[u] == p[u]);
            } else if a == c {
            } else {
                assert(q[a] == p[a]);
                // a is the smaller vertex of an old pair, so v lies above it
                assert(a < v) by {
                    if v < a {
                        assert(p[v] is Some);
                    }
                }
                assert(u != v && u != c) by {
                    if u == v {
                        assert(q[u]->0 == c);
                    }
                    if u == c {
                        assert(q[u]->0 == v);
                    }
                }
                assert(q[u] == p[u]);
            }
        }
    }
}

/// A mirror that keeps the pairs made so far pairs the first vertex without
/// partner with a valid candidate of its block, and keeps that pair too.
proof fn lemma_mirror_step(g: StructuredHypergraph, p: Seq<Option<usize>>, sigma: Seq<usize>, v: int)
    requires
        g.partial_ok(p),
        g.is_mirror(sigma),
        extends(sigma, p),
        0 <= v < p.len(),
        p[v] is None,
        forall|x: int| 0 <= x < v ==> p[x] is Some,
    ensures
        g.valid_match(v, sigma[v] as int, p),
        same_block(g.node_structure_partitions@, v, sigma[v] as int),
        extends(sigma, with_pair(p, v, sigma[v] as int)),
{
    let c = sigma[v] as int;
    assert(g.pair_ok(v, c));
    assert(sigma[c] == v);
    assert(p[c] is None) by {
        if p[c] is Some {
            assert(sigma[c] == p[c]->0);
            assert(p[v] == Some(c as usize));
        }
    }
    assert(v < c) by {
        if c < v {
            assert(p[c] is Some);
        }
    }
    assert forall|u: int| 0 <= u < p.len() && #[trigger] adjacent(g.edges(), v as nat, u as nat) implies (
    p[u] matches Some(w) ==> adjacent(g.edges(), c as nat, w as nat)) by {
        if p[u] is Some {
            let w = p[u]->0;
            assert(sigma[u] == w);
            assert(p[w as int] == Some(u as usize));
            assert(u < v || w < v) by {
                if u < w {
                    if v < u {
                        assert(p[v] is Some);
                    }
                } else {
                    if v < w {
                        assert(p[v] is Some);
                    }
                }
            }
        }
    }
    let q = with_pair(p, v, c);
    assert forall|a: int| 0 <= a < q.len() implies (#[trigger] q[a] matches Some(d) ==> sigma[a] == d) by {
        if a != v && a != c {
            assert(q[a] == p[a]);
        }
    }
}

/// Whether `w` is among the first `k` entries of `v`.
pub open spec fn among(v: Seq<usize>, k: int, w: usize) -> bool {
    exists|j: int| 0 <= j < k && v[j] == w
}

/// Whether every block holds an even number of places.
pub fn all_blocks_even(parts: &Vec<usize>) -> (b: bool)
    requires
        forall|i: int, j: int| 0 <= i < j < parts@.len() ==> parts@[i] <= parts@[j],
    ensures
        b == blocks_even(parts@),
{
    let mut i: usize = 1;
    while i < parts.len()
        invariant
            1 <= i,
            forall|i: int, j: int| 0 <= i < j < parts@.len() ==> parts@[i] <= parts@[j],
            forall|b: int| 0 <= b < i - 1 && b < parts@.len() - 1 ==> (#[trigger] parts@[b + 1] - parts@[b]) % 2 == 0,
        decreases parts@.len() - i,
    {
        if (parts[i] - parts[i - 1]) % 2 != 0 {
            proof {
                let b = i - 1;
                assert((parts@[b + 1] - parts@[b]) % 2 != 0);
            }
            return false;
        }
        i = i + 1;
    }
    true
}

impl TakingGame {
    /// Builds, for each vertex, the set of the vertices that share an edge
    /// with it.
    pub fn get_neighbourhoods(&self) -> (nbs: Vec<HashSet<usize>>)
        requires
            self.graph.labelled(),
        ensures
            is_neighbourhoods(nbs@, self.graph.edges(), self.graph.nodes@.len()),
    {
        broadcast use vstd::std_specs::hash::group_hash_axioms;

        let ghost edges = self.graph.edges();
        let n = self.graph.nr_nodes();
        let dual = self.graph.dual();
        let mut nbs: Vec<HashSet<usize>> = Vec::with_capacity(n);
        let mut node: usize = 0;
        while node < n
            invariant
                node <= n,
                n == self.graph.nodes@.len(),
                edges == self.graph.edges(),
                self.graph.labelled(),
                crate::hypergraph::is_dual(dual@, edges, n as nat),
                nbs@.len() == node,
                forall|v: int, w: usize|
                    0 <= v < node ==> (#[trigger] nbs@[v]@.contains(w) <==> adjacent(
                        edges,
                        v as nat,
                        w as nat,
                    )),
            decreases n - node,
        {
            let mut set: HashSet<usize> = HashSet::new();
            let list = &dual[node];
            let mut i: usize = 0;
            proof {
                assert(is_edge_listing(list@, edges, node as nat));
            }
            while i < list.len()
                invariant
                    i <= list@.len(),
                    node < n,
                    n == self.graph.nodes@.len(),
                    edges == self.graph.edges(),
                    is_edge_listing(list@, edges, node as nat),
                    forall|w: usize|
                        set@.contains(w) <==> exists|j: int|
                            0 <= j < i && edges[#[trigger] list@[j] as int].contains(w as nat),
                decreases list@.len() - i,
            {
                let e = list[i];
                let members = self.graph.hyperedges[e].to_vec();
                let ghost start = set@;
                let mut k: usize = 0;
                while k < members.len()
                    invariant
                        k <= members@.len(),
                        e < edges.len(),
                        is_listing(members@, edges[e as int]),
                        forall|w: usize| #[trigger] set@.contains(w) ==> start.contains(w) || among(members@, k as int, w),
                        forall|w: usize| #[trigger] start.contains(w) ==> set@.contains(w),
                        forall|j: int| 0 <= j < k ==> set@.contains(#[trigger] members@[j]),
                    decreases members@.len() - k,
                {
                    let ghost before = set@;
                    set.insert(members[k]);
                    k = k + 1;
                    proof {
                        assert(set@ == before.insert(members@[k - 1]));
                        assert forall|w: usize| #[trigger] set@.contains(w) implies start.contains(w)
                            || among(members@, k as int, w) by {
                            if w == members@[k - 1] {
                                assert(0 <= k - 1 < k && members@[k - 1] == w);
                            } else if !start.contains(w) {
                                assert(among(members@, k - 1, w));
                                let j = choose|j: int| 0 <= j < k - 1 && members@[j] == w;
                                assert(0 <= j < k && members@[j] == w);
                            }
                        }
                    }
                }
                proof {
                    assert forall|w: usize| set@.contains(w) <==> exists|j: int|
                        0 <= j < i + 1 && edges[#[trigger] list@[j] as int].contains(w as nat) by {
                        if set@.contains(w) {
                            if start.contains(w) {
                                let j = choose|j: int|
                                    0 <= j < i && edges[#[trigger] list@[j] as int].contains(w as nat);
                                assert(0 <= j < i + 1 && edges[list@[j] as int].contains(w as nat));
                            } else {
                                assert(among(members@, k as int, w));
                                let j = choose|j: int| 0 <= j < k && members@[j] == w;
                                assert(edges[e as int].contains(members@[j] as nat));
                                assert(edges[list@[i as int] as int].contains(w as nat));
                            }
                        }
                        if exists|j: int|
                            0 <= j < i + 1 && edges[#[trigger] list@[j] as int].contains(w as nat) {
                            let j = choose|j: int|
                                0 <= j < i + 1 && edges[#[trigger] list@[j] as int].contains(w as nat);
                            if j == i {
                                let x = choose|x: int| 0 <= x < members@.len() && members@[x] == w as nat;
                                assert(members@[x] == w);
                                assert(set@.contains(members@[x]));
                            } else {
                                assert(start.contains(w));
                            }
                        }
                    }
                }
                i = i + 1;
            }
            proof {
                assert forall|w: usize| set@.contains(w) <==> adjacent(edges, node as nat, w as nat) by {
                    if set@.contains(w) {
                        let j = choose|j: int|
                            0 <= j < list@.len() && edges[#[trigger] list@[j] as int].contains(w as nat);
                        assert(edges[list@[j] as int].contains(node as nat));
                    }
                    if adjacent(edges, node as nat, w as nat) {
                        let e = choose|e: int|
                            0 <= e < edges.len() && #[trigger] edges[e].contains(node as nat)
                                && edges[e].contains(w as nat);
                        let j = choose|j: int| 0 <= j < list@.len() && list@[j] == e;
                        assert(edges[list@[j] as int].contains(w as nat));
                    }
                }
            }
            nbs.push(set);
            node = node + 1;
        }
        nbs
    }

    /// Checks whether `candidate` may be paired with `node`: the two differ,
    /// the candidate has no partner, they share no edge, and the partner of
    /// every vertex that shares an edge with `node` shares one with
    /// `candidate`.
    pub fn is_valid_match(
        &self,
        node: usize,
        candidate: usize,
        symmetries: &Vec<Option<usize>>,
        neighbourhoods: &Vec<HashSet<usize>>,
    ) -> (b: bool)
        requires
            self.graph.partial_ok(symmetries@),
            is_neighbourhoods(neighbourhoods@, self.graph.edges(), self.graph.nodes@.len()),
            node < symmetries@.len(),
            candidate < symmetries@.len(),
        ensures
            b == self.graph.valid_match(node as int, candidate as int, symmetries@),
    {
        broadcast use vstd::std_specs::hash::group_hash_axioms;

        if node == candidate || symmetries[candidate].is_some() {
            return false;
        }
        if neighbourhoods[node].contains(&candidate) {
            return false;
        }
        let n = symmetries.len();
        let mut neighbour: usize = 0;
        while neighbour < n
            invariant
                neighbour <= n,
                n == symmetries@.len(),
                node < n,
                candidate < n,
                self.graph.partial_ok(symmetries@),
                is_neighbourhoods(neighbourhoods@, self.graph.edges(), self.graph.nodes@.len()),
                forall|u: int|
                    0 <= u < neighbour && #[trigger] adjacent(
                        self.graph.edges(),
                        node as nat,
                        u as nat,
                    ) ==> (symmetries@[u] matches Some(w) ==> adjacent(
                        self.graph.edges(),
                        candidate as nat,
                        w as nat,
                    )),
            decreases n - neighbour,
        {
            if neighbourhoods[node].contains(&neighbour) {
                match symmetries[neighbour] {
                    Some(mapped) => {
                        if !neighbourhoods[candidate].contains(&mapped) {
                            proof {
                                assert(adjacent(
                                    self.graph.edges(),
                                    node as nat,
                                    neighbour as nat,
                                ));
                            }
                            return false;
                        }
                    },
                    None => {},
                }
            }
            neighbour = neighbour + 1;
        }
        true
    }

    /// Finds the candidates for `node`: the vertices of its block that may be
    /// paired with it, in rising order.
    pub fn find_valid_candidates(
        &self,
        node: usize,
        symmetries: &Vec<Option<usize>>,
        neighbourhoods: &Vec<HashSet<usize>>,
    ) -> (cands: Vec<usize>)
        requires
            self.wf(),
            self.graph.partial_ok(symmetries@),
            is_neighbourhoods(neighbourhoods@, self.graph.edges(), self.graph.nodes@.len()),
            node < symmetries@.len(),
        ensures
            forall|i: int, j: int| 0 <= i < j < cands@.len() ==> cands@[i] < cands@[j],
            forall|i: int|
                0 <= i < cands@.len() ==> (#[trigger] cands@[i]) < symmetries@.len() && same_block(
                    self.graph.node_structure_partitions@,
                    node as int,
                    cands@[i] as int,
                ) && self.graph.valid_match(node as int, cands@[i] as int, symmetries@),
            forall|c: int|
                0 <= c < symmetries@.len() && same_block(
                    self.graph.node_structure_partitions@,
                    node as int,
                    c,
                ) && #[trigger] self.graph.valid_match(node as int, c, symmetries@) ==> exists|i: int|
                    0 <= i < cands@.len() && cands@[i] == c,
    {
        let parts = &self.graph.node_structure_partitions;
        let ghost ps = parts@;
        let n = symmetries.len();
        // the block of the vertex
        let blocks = parts.len();
        let mut b: usize = 0;
        while parts[b + 1] <= node
            invariant
                ps == parts@,
                blocks == ps.len(),
                is_partition(ps, n as nat),
                node < n,
                b + 1 < ps.len(),
                ps[b as int] <= node,
            decreases ps.len() - b,
        {
            proof {
                if b + 2 >= ps.len() {
                    assert(ps[b + 1] == n);
                }
            }
            b = b + 1;
        }
        let start = parts[b];
        let end = parts[b + 1];
        proof {
            assert(in_block(ps, b as int, node as int));
            assert(end <= n) by {
                if b + 1 < ps.len() - 1 {
                    assert(ps[b + 1] < ps[ps.len() - 1]);
                }
            }
            // a place lies in one block only
            assert forall|c: int| same_block(ps, node as int, c) implies start <= c < end by {
                let d = choose|d: int| #[trigger] in_block(ps, d, node as int) && in_block(ps, d, c);
                if d < b {
                    assert(ps[d + 1] <= ps[b as int]) by {
                        if d + 1 < b {
                            assert(ps[d + 1] < ps[b as int]);
                        }
                    }
                } else if d > b {
                    assert(ps[b + 1] <= ps[d]) by {
                        if b + 1 < d {
                            assert(ps[b + 1] < ps[d]);
                        }
                    }
                }
            }
        }
        let mut cands: Vec<usize> = Vec::new();
        let mut cand: usize = start;
        while cand < end
            invariant
                start <= cand <= end,
                end <= n,
                n == symmetries@.len(),
                node < n,
                ps == self.graph.node_structure_partitions@,
                in_block(ps, b as int, node as int),
                start == ps[b as int],
                end == ps[b + 1],
                self.graph.partial_ok(symmetries@),
                is_neighbourhoods(neighbourhoods@, self.graph.edges(), self.graph.nodes@.len()),
                forall|i: int, j: int| 0 <= i < j < cands@.len() ==> cands@[i] < cands@[j],
                forall|i: int| 0 <= i < cands@.len() ==> (#[trigger] cands@[i]) < cand,
                forall|i: int|
                    0 <= i < cands@.len() ==> (#[trigger] cands@[i]) < symmetries@.len() && same_block(
                        ps,
                        node as int,
                        cands@[i] as int,
                    ) && self.graph.valid_match(node as int, cands@[i] as int, symmetries@),
                forall|c: int|
                    start <= c < cand && #[trigger] self.graph.valid_match(
                        node as int,
                        c,
                        symmetries@,
                    ) ==> exists|i: int| 0 <= i < cands@.len() && cands@[i] == c,
            decreases end - cand,
        {
            let ghost before = cands@;
            let valid = self.is_valid_match(node, cand, symmetries, neighbourhoods);
            if valid {
                cands.push(cand);
                proof {
                    assert(in_block(ps, b as int, cand as int));
                }
            }
            proof {
                assert forall|c: int|
                    start <= c < cand + 1 && #[trigger] self.graph.valid_match(
                        node as int,
                        c,
                        symmetries@,
                    ) implies exists|i: int| 0 <= i < cands@.len() && cands@[i] == c by {
                    if c < cand {
                        let i = choose|i: int| 0 <= i < before.len() && before[i] == c;
                        assert(cands@[i] == c);
                    } else {
                        assert(cands@[cands@.len() - 1] == c);
                    }
                }
            }
            cand = cand + 1;
        }
        cands
    }

    /// Whether the partners of the vertices of every edge are the vertices
    /// of an edge.
    pub fn maps_edges_to_edges(&self, sigma: &Vec<usize>) -> (b: bool)
        requires
            sigma@.len() <= 128,
        ensures
            b == self.graph.maps_edges(sigma@),
    {
        let ghost edges = self.graph.edges();
        let m = self.graph.hyperedges.len();
        let mut e: usize = 0;
        while e < m
            invariant
                e <= m,
                m == self.graph.hyperedges@.len(),
                edges == self.graph.edges(),
                sigma@.len() <= 128,
                forall|j: int| 0 <= j < e ==> is_edge(edges, remapped(#[trigger] edges[j], sigma@)),
            decreases m - e,
        {
            let mut image = self.graph.hyperedges[e];
            image.apply_node_map(sigma.as_slice());
            let mut found = false;
            let mut f: usize = 0;
            while f < m && !found
                invariant
                    f <= m,
                    m == self.graph.hyperedges@.len(),
                    edges == self.graph.edges(),
                    found ==> is_edge(edges, image@),
                    !found ==> forall|j: int| 0 <= j < f ==> #[trigger] edges[j] != image@,
                decreases m - f + if found { 0int } else { 1int },
            {
                proof {
                    image.lemma_same_members(self.graph.hyperedges@[f as int]);
                }
                if self.graph.hyperedges[f].0 == image.0 {
                    proof {
                        assert(edges[f as int] == image@);
                    }
                    found = true;
                } else {
                    f = f + 1;
                }
            }
            if !found {
                proof {
                    assert(!is_edge(edges, remapped(edges[e as int], sigma@)));
                }
                return false;
            }
            e = e + 1;
        }
        true
    }

    /// Pairs the vertices that have no partner yet, the first one with each
    /// of its candidates in turn, and hands back the first pairing of all
    /// vertices that comes of it whose partners of the vertices of each
    /// edge are an edge.
    pub fn generate_symmetry_from_sets_of_candidates(
        &self,
        symmetries: &mut Vec<Option<usize>>,
        neighbourhoods: &Vec<HashSet<usize>>,
    ) -> (res: Option<Vec<usize>>)
        requires
            self.wf(),
            self.graph.partial_ok(old(symmetries)@),
            is_neighbourhoods(neighbourhoods@, self.graph.edges(), self.graph.nodes@.len()),
        ensures
            res matches Some(sigma) ==> self.graph.is_mirror(sigma@) && extends(
                sigma@,
                old(symmetries)@,
            ),
            res is None ==> final(symmetries)@ == old(symmetries)@,
            res is None ==> forall|sigma: Seq<usize>|
                !(#[trigger] self.graph.is_mirror(sigma) && extends(sigma, old(symmetries)@)),
        decreases unmatched(old(symmetries)@),
    {
        let ghost start = symmetries@;
        match find_unmatched_node(symmetries) {
            Some(node) => {
                let candidates = self.find_valid_candidates(node, symmetries, neighbourhoods);
                let mut i: usize = 0;
                while i < candidates.len()
                    invariant
                        i <= candidates@.len(),
                        symmetries@ == start,
                        start == old(symmetries)@,
                        self.wf(),
                        self.graph.partial_ok(start),
                        is_neighbourhoods(
                            neighbourhoods@,
                            self.graph.edges(),
                            self.graph.nodes@.len(),
                        ),
                        node < start.len(),
                        start[node as int] is None,
                        forall|x: int| 0 <= x < node ==> start[x] is Some,
                        forall|j: int|
                            0 <= j < candidates@.len() ==> (#[trigger] candidates@[j]) < start.len()
                                && same_block(
                                self.graph.node_structure_partitions@,
                                node as int,
                                candidates@[j] as int,
                            ) && self.graph.valid_match(node as int, candidates@[j] as int, start),
                        forall|j: int, sigma: Seq<usize>|
                            0 <= j < i && #[trigger] self.graph.is_mirror(sigma) && extends(
                                sigma,
                                start,
                            ) ==> sigma[node as int] != #[trigger] candidates@[j],
                    decreases candidates@.len() - i,
                {
                    let cand = candidates[i];
                    symmetries.set(node, Some(cand));
                    symmetries.set(cand, Some(node));
                    proof {
                        assert(symmetries@ == with_pair(start, node as int, cand as int));
                        lemma_pair_step(self.graph, start, node as int, cand as int);
                    }
                    let ghost paired = symmetries@;
                    match self.generate_symmetry_from_sets_of_candidates(symmetries, neighbourhoods) {
                        Some(result) => {
                            proof {
                                assert forall|v: int| 0 <= v < start.len() implies (
                                #[trigger] start[v] matches Some(c) ==> result@[v] == c) by {
                                    if start[v] is Some {
                                        assert(v != node);
                                        assert(v != cand);
                                        assert(paired[v] == start[v]);
                                    }
                                }
                            }
                            return Some(result);
                        },
                        None => {},
                    }
                    symmetries.set(node, None);
                    symmetries.set(cand, None);
                    proof {
                        assert(symmetries@ =~= start);
                        assert forall|j: int, sigma: Seq<usize>|
                            0 <= j < i + 1 && #[trigger] self.graph.is_mirror(sigma) && extends(
                                sigma,
                                start,
                            ) implies sigma[node as int] != #[trigger] candidates@[j] by {
                            if j == i && sigma[node as int] == cand {
                                lemma_mirror_step(self.graph, start, sigma, node as int);
                                assert(extends(sigma, paired));
                            }
                        }
                    }
                    i = i + 1;
                }
                proof {
                    assert forall|sigma: Seq<usize>|
                        !(#[trigger] self.graph.is_mirror(sigma) && extends(sigma, start)) by {
                        if self.graph.is_mirror(sigma) && extends(sigma, start) {
                            lemma_mirror_step(self.graph, start, sigma, node as int);
                            let c = sigma[node as int] as int;
                            assert(self.graph.valid_match(node as int, c, start));
                            let j = choose|j: int| 0 <= j < candidates@.len() && candidates@[j] == c;
                            assert(sigma[node as int] != candidates@[j]);
                        }
                    }
                }
                None
            },
            None => {
                let mut result: Vec<usize> = Vec::with_capacity(symmetries.len());
                let mut v: usize = 0;
                while v < symmetries.len()
                    invariant
                        v <= symmetries@.len(),
                        symmetries@ == start,
                        start == old(symmetries)@,
                        result@.len() == v,
                        forall|x: int| 0 <= x < start.len() ==> start[x] is Some,
                        forall|x: int| 0 <= x < v ==> start[x] == Some(#[trigger] result@[x]),
                    decreases symmetries@.len() - v,
                {
                    result.push(symmetries[v].unwrap());
                    v = v + 1;
                }
                if self.maps_edges_to_edges(&result) {
                    proof {
                        lemma_full_is_mirror(self.graph, start, result@);
                    }
                    Some(result)
                } else {
                    proof {
                        assert forall|sigma: Seq<usize>|
                            !(#[trigger] self.graph.is_mirror(sigma) && extends(sigma, start)) by {
                            if self.graph.is_mirror(sigma) && extends(sigma, start) {
                                assert forall|x: int| 0 <= x < start.len() implies sigma[x] == result@[x] by {
                                    assert(start[x] == Some(result@[x]));
                                }
                                assert(sigma =~= result@);
                            }
                        }
                    }
                    None
                }
            },
        }
    }

    /// Searches for a mirror of the position.  Returns the partner of each
    /// vertex where there is one; none where the numbers of vertices or edges,
    /// or the size of a block, are odd, or no pairing of the vertices is a
    /// mirror.
    pub fn find_symmetry(&self) -> (res: Option<Vec<usize>>)
        requires
            self.wf(),
        ensures
            res is Some <==> self.graph.has_symmetry(),
            res matches Some(sigma) ==> self.graph.is_mirror(sigma@),
    {
        let n = self.graph.nr_nodes();
        proof {
            assert(self.graph.labelled()) by {
                assert forall|e: int, v: nat|
                    0 <= e < self.graph.edges().len() && #[trigger] self.graph.edges()[e].contains(
                        v,
                    ) implies v < n by {
                    assert(crate::hypergraph::used_vertices(self.graph.edges()).contains(v));
                }
            }
        }
        if n % 2 == 0 && self.graph.hyperedges.len() % 2 == 0 && all_blocks_even(
            &self.graph.edge_structure_partitions,
        ) && all_blocks_even(&self.graph.node_structure_partitions) {
            let neighbourhoods = self.get_neighbourhoods();
            let mut symmetries: Vec<Option<usize>> = Vec::with_capacity(n);
            let mut v: usize = 0;
            while v < n
                invariant
                    v <= n,
                    symmetries@.len() == v,
                    forall|x: int| 0 <= x < v ==> symmetries@[x] is None,
                decreases n - v,
            {
                symmetries.push(None);
                v = v + 1;
            }
            let ghost none = symmetries@;
            let res = self.generate_symmetry_from_sets_of_candidates(&mut symmetries, &neighbourhoods);
            proof {
                if res is None {
                    assert forall|sigma: Seq<usize>| !self.graph.is_mirror(sigma) by {
                        if self.graph.is_mirror(sigma) {
                            assert(extends(sigma, none));
                        }
                    }
                }
            }
            res
        } else {
            None
        }
    }
}

} // verus!
