//! The hypergraph of a position: its edges as dense vertex sets, the labels
//! of its vertices and the two structural partitions.

use vstd::prelude::*;
use core::ops::Range;
use crate::bitset::{is_listing, remapped, Bitset128};
use crate::relabel::{is_relabelling, lemma_relabelling_flat};

verus! {

/// Why a hypergraph could not be built.
#[derive(Clone, Copy, Debug, PartialEq, Eq, Structural)]
pub enum GameError {
    /// A vertex index does not fit the dense vertex set.
    TooLarge,
    /// The labels do not reach every vertex that the edges use.
    IllConfigured,
}

/// A hypergraph with labelled vertices.
///
/// `hyperedges[e]` is the vertex set of edge `e`, over the vertex indices
/// `0 .. nodes.len()`; `nodes[v]` is the label under which vertex `v` came
/// in.  The two partition vectors hold the block boundaries of the structural
/// partitions of the vertices and of the edges.
#[derive(Debug)]
pub struct StructuredHypergraph {
    pub hyperedges: Vec<Bitset128>,
    pub nodes: Vec<usize>,
    pub node_structure_partitions: Vec<usize>,
    pub edge_structure_partitions: Vec<usize>,
}

impl PartialEq for StructuredHypergraph {
    /// Two hypergraphs are equal where their edges are: in canonical shape
    /// the edges tell all.
    fn eq(&self, other: &Self) -> (b: bool)
    {
        same_edges(&self.hyperedges, &other.hyperedges)
    }
}

impl Eq for StructuredHypergraph {}

impl vstd::std_specs::cmp::PartialEqSpecImpl for StructuredHypergraph {
    open spec fn obeys_eq_spec() -> bool {
        true
    }

    open spec fn eq_spec(&self, other: &Self) -> bool {
        self.hyperedges@ == other.hyperedges@
    }
}

impl core::hash::Hash for StructuredHypergraph {
    /// `Hash::hash` of the list of edges: equal hypergraphs feed the hasher
    /// alike.
    #[verifier::external_body]
    fn hash<H: core::hash::Hasher>(&self, state: &mut H) {
        self.hyperedges.hash(state);
    }
}

impl Clone for StructuredHypergraph {
    fn clone(&self) -> (g: Self)
        ensures
            g.hyperedges@ == self.hyperedges@,
            g.nodes@ == self.nodes@,
            g.node_structure_partitions@ == self.node_structure_partitions@,
            g.edge_structure_partitions@ == self.edge_structure_partitions@,
    {
        self.duplicate()
    }
}

/// Whether two lists of edges are the same.
pub fn same_edges(a: &Vec<Bitset128>, b: &Vec<Bitset128>) -> (r: bool)
    ensures
        r == (a@ == b@),
{
    if a.len() != b.len() {
        return false;
    }
    let mut i: usize = 0;
    while i < a.len()
        invariant
            i <= a@.len(),
            a@.len() == b@.len(),
            forall|j: int| 0 <= j < i ==> a@[j] == b@[j],
        decreases a@.len() - i,
    {
        if a[i].0 != b[i].0 {
            return false;
        }
        i = i + 1;
    }
    proof {
        assert(a@ =~= b@);
    }
    true
}

/// The vertex sets of a list of edges.
pub open spec fn edge_sets(edges: Seq<Bitset128>) -> Seq<Set<nat>> {
    Seq::new(edges.len(), |e: int| edges[e]@)
}

/// The vertices that some edge holds.
pub open spec fn used_vertices(edges: Seq<Set<nat>>) -> Set<nat> {
    Set::new(|v: nat| exists|e: int| 0 <= e < edges.len() && #[trigger] edges[e].contains(v))
}

/// Whether every vertex of every edge is below `n`.
pub open spec fn edges_within(edges: Seq<Set<nat>>, n: nat) -> bool {
    forall|e: int, v: nat| 0 <= e < edges.len() && #[trigger] edges[e].contains(v) ==> v < n
}

/// Whether the vertices in use are exactly `0 .. n`.
pub open spec fn is_flat(edges: Seq<Set<nat>>, n: nat) -> bool {
    forall|v: nat| v < n <==> used_vertices(edges).contains(v)
}

/// Whether no edge is empty and no edge lies inside another one.
pub open spec fn is_reduced(edges: Seq<Set<nat>>) -> bool {
    &&& forall|e: int| 0 <= e < edges.len() ==> #[trigger] edges[e] != Set::<nat>::empty()
    &&& forall|e: int, f: int|
        0 <= e < edges.len() && 0 <= f < edges.len() && e != f ==> !(#[trigger] edges[e]).subset_of(
            #[trigger] edges[f],
        )
}

/// Whether `s` holds, of every edge, all its vertices or none.
pub open spec fn is_closed(edges: Seq<Set<nat>>, s: Set<nat>) -> bool {
    forall|e: int, v: nat, w: nat|
        0 <= e < edges.len() && #[trigger] edges[e].contains(v) && #[trigger] edges[e].contains(w)
            && s.contains(v) ==> s.contains(w)
}

/// Whether the edges link all vertices in use: a set that holds one of them
/// and is closed under the edges holds them all.
pub open spec fn is_connected(edges: Seq<Set<nat>>) -> bool {
    forall|s: Set<nat>, v: nat, w: nat|
        #[trigger] is_closed(edges, s) && used_vertices(edges).contains(v) && #[trigger] s.contains(
            v,
        ) && #[trigger] used_vertices(edges).contains(w) ==> s.contains(w)
}

/// Whether `parts` holds the block boundaries of an ordered partition of
/// `0 .. n` into non-empty ranges.  Nothing is partitioned by no boundary.
pub open spec fn is_partition(parts: Seq<usize>, n: nat) -> bool {
    if n == 0 {
        parts.len() == 0
    } else {
        &&& parts.len() >= 2
        &&& parts[0] == 0
        &&& parts[parts.len() - 1] == n
        &&& forall|i: int, j: int| 0 <= i < j < parts.len() ==> parts[i] < parts[j]
    }
}

impl StructuredHypergraph {
    /// The vertex sets of the edges.
    pub open spec fn edges(&self) -> Seq<Set<nat>> {
        edge_sets(self.hyperedges@)
    }

    /// Whether every vertex of every edge has a label.
    pub open spec fn labelled(&self) -> bool {
        edges_within(self.edges(), self.nodes@.len())
    }

    /// Whether this is a position in canonical shape: at most 128 vertices,
    /// all in use, no empty edge and none inside another, connected, both
    /// structural partitions in order, the edges of one block with equally
    /// many vertices in each block of vertices, the vertices of one block
    /// in equally many edges, and the blocks and the order inside them
    /// those of the canonical shape.
    pub open spec fn wf(&self) -> bool {
        &&& self.nodes@.len() <= 128
        &&& is_flat(self.edges(), self.nodes@.len())
        &&& is_reduced(self.edges())
        &&& is_connected(self.edges())
        &&& is_partition(self.node_structure_partitions@, self.nodes@.len())
        &&& is_partition(self.edge_structure_partitions@, self.hyperedges@.len())
        &&& crate::classes::classes_agree(self.edges(), self.node_structure_partitions@, self.edge_structure_partitions@)
        &&& crate::classes::degrees_agree(self.edges(), self.node_structure_partitions@)
        &&& crate::canon::in_canonical_order(
            self.edges(),
            self.nodes@.len(),
            self.node_structure_partitions@,
            self.edge_structure_partitions@,
        )
    }

    /// In a position every vertex of every edge has a label.
    pub proof fn lemma_labelled(&self)
        requires
            is_flat(self.edges(), self.nodes@.len()),
        ensures
            self.labelled(),
    {
        assert forall|e: int, v: nat|
            0 <= e < self.edges().len() && #[trigger] self.edges()[e].contains(v) implies v
            < self.nodes@.len() by {
            assert(used_vertices(self.edges()).contains(v));
        }
    }

    /// Returns the number of vertices.
    pub fn nr_nodes(&self) -> (n: usize)
        ensures
            n == self.nodes@.len(),
    {
        self.nodes.len()
    }

    /// Returns the labels of the vertices.
    pub fn nodes(&self) -> (l: &[usize])
        ensures
            l@ == self.nodes@,
    {
        self.nodes.as_slice()
    }

    /// Returns true if the hypergraph has no vertex.
    pub fn is_empty(&self) -> (b: bool)
        ensures
            b == (self.nodes@.len() == 0),
    {
        self.nodes.len() == 0
    }

    /// Returns the edges.
    pub fn hyperedges(&self) -> (e: &[Bitset128])
        ensures
            e@ == self.hyperedges@,
    {
        self.hyperedges.as_slice()
    }

    /// Returns the blocks of the edge partition as index ranges.
    pub fn get_edge_partitions(&self) -> (r: Vec<Range<usize>>)
        ensures
            r@ == blocks_of(self.edge_structure_partitions@),
    {
        ranges_of(&self.edge_structure_partitions)
    }

    /// Returns the blocks of the vertex partition as index ranges.
    pub fn get_node_partitions(&self) -> (r: Vec<Range<usize>>)
        ensures
            r@ == blocks_of(self.node_structure_partitions@),
    {
        ranges_of(&self.node_structure_partitions)
    }

    /// A copy of the hypergraph.
    pub fn duplicate(&self) -> (g: Self)
        ensures
            g.hyperedges@ == self.hyperedges@,
            g.nodes@ == self.nodes@,
            g.node_structure_partitions@ == self.node_structure_partitions@,
            g.edge_structure_partitions@ == self.edge_structure_partitions@,
    {
        let g = StructuredHypergraph {
            hyperedges: copy_of(&self.hyperedges),
            nodes: self.nodes.clone(),
            node_structure_partitions: self.node_structure_partitions.clone(),
            edge_structure_partitions: self.edge_structure_partitions.clone(),
        };
        proof {
            assert(g.nodes@ =~= self.nodes@);
            assert(g.node_structure_partitions@ =~= self.node_structure_partitions@);
            assert(g.edge_structure_partitions@ =~= self.edge_structure_partitions@);
        }
        g
    }

    /// The set of the vertices that the edges use.
    pub fn used_nodes(&self) -> (all: Bitset128)
        ensures
            all@ == used_vertices(self.edges()),
    {
        all_nodes_of(&self.hyperedges)
    }

    /// Renumbers the vertices: new vertex `i` is old vertex `map[i]`, with its
    /// label, and each edge holds the new vertices whose old ones it held.
    pub fn apply_node_map(&mut self, map: &[usize])
        requires
            map@.len() <= 128,
            forall|i: int| 0 <= i < map@.len() ==> map@[i] < old(self).nodes@.len(),
        ensures
            final(self).hyperedges@.len() == old(self).hyperedges@.len(),
            forall|e: int|
                0 <= e < old(self).hyperedges@.len() ==> #[trigger] final(self).edges()[e]
                    == remapped(old(self).edges()[e], map@),
            final(self).nodes@.len() == map@.len(),
            forall|i: int|
                0 <= i < map@.len() ==> #[trigger] final(self).nodes@[i] == old(self).nodes@[map@[i] as int],
            final(self).node_structure_partitions == old(self).node_structure_partitions,
            final(self).edge_structure_partitions == old(self).edge_structure_partitions,
    {
        let ghost before = *self;
        let mut e: usize = 0;
        while e < self.hyperedges.len()
            invariant
                e <= self.hyperedges@.len(),
                map@.len() <= 128,
                self.hyperedges@.len() == before.hyperedges@.len(),
                self.nodes == before.nodes,
                self.node_structure_partitions == before.node_structure_partitions,
                self.edge_structure_partitions == before.edge_structure_partitions,
                forall|f: int|
                    0 <= f < e ==> (#[trigger] self.hyperedges@[f])@ == remapped(
                        before.hyperedges@[f]@,
                        map@,
                    ),
                forall|f: int|
                    e <= f < self.hyperedges@.len() ==> #[trigger] self.hyperedges@[f]
                        == before.hyperedges@[f],
            decreases self.hyperedges@.len() - e,
        {
            let mut edge = self.hyperedges[e];
            edge.apply_node_map(map);
            self.hyperedges.set(e, edge);
            e = e + 1;
        }
        let mut labels: Vec<usize> = Vec::with_capacity(map.len());
        let mut i: usize = 0;
        while i < map.len()
            invariant
                i <= map@.len(),
                labels@.len() == i,
                self.nodes == before.nodes,
                forall|i: int| 0 <= i < map@.len() ==> map@[i] < before.nodes@.len(),
                forall|j: int| 0 <= j < i ==> #[trigger] labels@[j] == before.nodes@[map@[j] as int],
            decreases map@.len() - i,
        {
            labels.push(self.nodes[map[i]]);
            i = i + 1;
        }
        self.nodes = labels;
    }

    /// Reorders the edges: new edge `i` is old edge `map[i]`.
    pub fn apply_edge_map(&mut self, map: &[usize])
        requires
            forall|i: int| 0 <= i < map@.len() ==> map@[i] < old(self).hyperedges@.len(),
            forall|i: int, j: int| 0 <= i < j < map@.len() ==> map@[i] != map@[j],
        ensures
            final(self).hyperedges@.len() == map@.len(),
            forall|i: int|
                0 <= i < map@.len() ==> #[trigger] final(self).hyperedges@[i]
                    == old(self).hyperedges@[map@[i] as int],
            final(self).nodes == old(self).nodes,
            final(self).node_structure_partitions == old(self).node_structure_partitions,
            final(self).edge_structure_partitions == old(self).edge_structure_partitions,
    {
        let mut edges: Vec<Bitset128> = Vec::with_capacity(map.len());
        let mut i: usize = 0;
        while i < map.len()
            invariant
                i <= map@.len(),
                edges@.len() == i,
                forall|i: int| 0 <= i < map@.len() ==> map@[i] < self.hyperedges@.len(),
                forall|j: int| 0 <= j < i ==> #[trigger] edges@[j] == self.hyperedges@[map@[j] as int],
            decreases map@.len() - i,
        {
            edges.push(self.hyperedges[map[i]]);
            i = i + 1;
        }
        self.hyperedges = edges;
    }

    /// Renumbers the vertices in use as `0, 1, ...`, in their old order, and
    /// drops the labels of the others.  Returns the old number of each vertex.
    pub(crate) fn flatten(&mut self) -> (map: Ghost<Seq<usize>>)
        requires
            old(self).labelled(),
        ensures
            is_relabelling(map@, old(self).edges(), final(self).edges()),
            is_listing(map@, used_vertices(old(self).edges())),
            final(self).nodes@.len() == map@.len(),
            map@.len() == used_vertices(old(self).edges()).len(),
            map@.len() <= 128,
            forall|i: int|
                0 <= i < map@.len() ==> (#[trigger] map@[i]) < old(self).nodes@.len() && final(self).nodes@[i] == old(self).nodes@[map@[i] as int],
            is_flat(final(self).edges(), final(self).nodes@.len()),
            final(self).node_structure_partitions == old(self).node_structure_partitions,
            final(self).edge_structure_partitions == old(self).edge_structure_partitions,
    {
        let ghost before = *self;
        let all_nodes = self.used_nodes();
        let count = all_nodes.len();
        let ghost map: Seq<usize>;
        proof {
            assert forall|v: nat| all_nodes@.contains(v) implies v < self.nodes@.len() by {
                let e = choose|e: int|
                    0 <= e < self.edges().len() && #[trigger] self.edges()[e].contains(v);
            }
        }
        if all_nodes.is_flattened() {
            proof {
                assert(count <= self.nodes@.len()) by {
                    if count > 0 {
                        assert(all_nodes@.contains((count - 1) as nat));
                    }
                }
            }
            self.nodes.truncate(count);
            proof {
                map = Seq::new(count as nat, |i: int| i as usize);
                assert forall|e: int| 0 <= e < before.edges().len() implies #[trigger] self.edges()[e]
                    == remapped(before.edges()[e], map) by {
                    let s = before.edges()[e];
                    assert forall|v: nat| s.contains(v) implies v < count by {
                        assert(all_nodes@.contains(v));
                    }
                    assert(s =~= remapped(s, map));
                }
                assert forall|e: int, v: nat|
                    0 <= e < before.edges().len() && #[trigger] before.edges()[e].contains(
                        v,
                    ) implies exists|i: int| 0 <= i < map.len() && map[i] == v by {
                    assert(all_nodes@.contains(v));
                    assert(map[v as int] == v);
                }
                assert forall|i: int| 0 <= i < map.len() implies used_vertices(
                    before.edges(),
                ).contains(#[trigger] map[i] as nat) by {
                    assert(all_nodes@.contains(i as nat));
                }
                assert forall|x: nat| all_nodes@.contains(x) implies exists|i: int|
                    0 <= i < map.len() && map[i] == x by {
                    assert(map[x as int] == x);
                }
            }
        } else {
            let node_map = all_nodes.to_vec();
            self.apply_node_map(node_map.as_slice());
            proof {
                map = node_map@;
                assert forall|e: int, v: nat|
                    0 <= e < before.edges().len() && #[trigger] before.edges()[e].contains(
                        v,
                    ) implies exists|i: int| 0 <= i < map.len() && map[i] == v by {
                    assert(all_nodes@.contains(v));
                }
            }
        }
        proof {
            lemma_relabelling_flat(map, before.edges(), self.edges());
        }
        Ghost(map)
    }

    /// Renumbers the vertices in use as `0, 1, ...`, in their old order, and
    /// drops the labels of the others.
    pub fn flatten_nodes(&mut self)
        requires
            old(self).labelled(),
        ensures
            exists|map: Seq<usize>|
                {
                    &&& #[trigger] is_relabelling(map, old(self).edges(), final(self).edges())
                    &&& is_listing(map, used_vertices(old(self).edges()))
                    &&& final(self).nodes@.len() == map.len()
                    &&& forall|i: int|
                        0 <= i < map.len() ==> (#[trigger] map[i]) < old(self).nodes@.len()
                            && final(self).nodes@[i] == old(self).nodes@[map[i] as int]
                },
            is_flat(final(self).edges(), final(self).nodes@.len()),
            final(self).nodes@.len() == used_vertices(old(self).edges()).len(),
    {
        let map = self.flatten();
    }

    /// For each vertex, the indices of the edges that hold it, in rising order.
    pub fn dual(&self) -> (d: Vec<Vec<usize>>)
        requires
            self.labelled(),
        ensures
            is_dual(d@, self.edges(), self.nodes@.len()),
    {
        let n = self.nodes.len();
        let mut dual: Vec<Vec<usize>> = Vec::new();
        let mut v: usize = 0;
        while v < n
            invariant
                v <= n,
                dual@.len() == v,
                forall|w: int| 0 <= w < v ==> (#[trigger] dual@[w])@.len() == 0,
            decreases n - v,
        {
            dual.push(Vec::new());
            v = v + 1;
        }
        let mut i: usize = 0;
        while i < self.hyperedges.len()
            invariant
                i <= self.hyperedges@.len(),
                n == self.nodes@.len(),
                self.labelled(),
                is_dual(dual@, self.edges().take(i as int), n as nat),
            decreases self.hyperedges@.len() - i,
        {
            let members = self.hyperedges[i].to_vec();
            let ghost before = dual@;
            let mut k: usize = 0;
            while k < members.len()
                invariant
                    k <= members@.len(),
                    i < self.hyperedges@.len(),
                    n == self.nodes@.len(),
                    self.labelled(),
                    is_listing(members@, self.hyperedges@[i as int]@),
                    is_dual(before, self.edges().take(i as int), n as nat),
                    dual@.len() == n,
                    forall|w: int|
                        0 <= w < n ==> (#[trigger] dual@[w])@ == if exists|j: int|
                            0 <= j < k && members@[j] == w {
                            before[w]@.push(i)
                        } else {
                            before[w]@
                        },
                decreases members@.len() - k,
            {
                let node = members[k];
                assert(self.edges()[i as int].contains(node as nat));
                let mut list = dual[node].clone();
                list.push(i);
                dual.set(node, list);
                k = k + 1;
                assert forall|w: int| 0 <= w < n implies (#[trigger] dual@[w])@ == if exists|
                    j: int,
                | 0 <= j < k && members@[j] == w {
                    before[w]@.push(i)
                } else {
                    before[w]@
                } by {
                    if w == node {
                        assert(members@[k - 1] == w);
                        assert(!exists|j: int| 0 <= j < k - 1 && members@[j] == w);
                    } else {
                        if exists|j: int| 0 <= j < k && members@[j] == w {
                            let j = choose|j: int| 0 <= j < k && members@[j] == w;
                            assert(0 <= j < k - 1 && members@[j] == w);
                        }
                    }
                }
            }
            proof {
                let grown = self.edges().take(i + 1);
                let short = self.edges().take(i as int);
                assert forall|w: int| 0 <= w < n implies is_edge_listing(
                    #[trigger] dual@[w]@,
                    grown,
                    w as nat,
                ) by {
                    assert(is_edge_listing(before[w]@, short, w as nat));
                    assert(grown[i as int] == self.edges()[i as int]);
                    assert forall|e: int| 0 <= e < i implies grown[e] == short[e] by {}
                    let list = dual@[w]@;
                    let was = before[w]@;
                    let held = exists|j: int| 0 <= j < k && members@[j] == w;
                    if held {
                        let j = choose|j: int| 0 <= j < k && members@[j] == w;
                        assert(self.edges()[i as int].contains(members@[j] as nat));
                    } else {
                        assert(!self.edges()[i as int].contains(w as nat));
                    }
                    assert forall|a: int| 0 <= a < list.len() implies (#[trigger] list[a])
                        < grown.len() && grown[list[a] as int].contains(w as nat) by {
                        if a < was.len() {
                            assert(was[a] < short.len());
                            assert(short[was[a] as int].contains(w as nat));
                        }
                    }
                    assert forall|a: int, b: int| 0 <= a < b < list.len() implies list[a]
                        < list[b] by {
                        assert(was[a] < short.len());
                    }
                    assert forall|e: int|
                        0 <= e < grown.len() && #[trigger] grown[e].contains(
                            w as nat,
                        ) implies exists|a: int| 0 <= a < list.len() && list[a] == e by {
                        if e < i {
                            assert(short[e].contains(w as nat));
                            let a = choose|a: int| 0 <= a < was.len() && was[a] == e;
                            assert(list[a] == e);
                        } else {
                            assert(list[list.len() - 1] == e);
                        }
                    }
                }
            }
            i = i + 1;
        }
        proof {
            assert(self.edges().take(i as int) =~= self.edges());
        }
        dual
    }
}

/// Whether `list` holds, in rising order, the indices of the edges that hold
/// vertex `v`.
pub open spec fn is_edge_listing(list: Seq<usize>, edges: Seq<Set<nat>>, v: nat) -> bool {
    &&& forall|i: int, j: int| 0 <= i < j < list.len() ==> list[i] < list[j]
    &&& forall|i: int|
        0 <= i < list.len() ==> (#[trigger] list[i]) < edges.len() && edges[list[i] as int].contains(
            v,
        )
    &&& forall|e: int|
        0 <= e < edges.len() && #[trigger] edges[e].contains(v) ==> exists|i: int|
            0 <= i < list.len() && list[i] == e
}

/// Whether `d` is the dual of `edges` over `n` vertices: one rising list of
/// edge indices for each vertex.
pub open spec fn is_dual(d: Seq<Vec<usize>>, edges: Seq<Set<nat>>, n: nat) -> bool {
    &&& d.len() == n
    &&& forall|v: int| 0 <= v < n ==> is_edge_listing(#[trigger] d[v]@, edges, v as nat)
}

/// The set of the vertices that the edges use.
pub fn all_nodes_of(edges: &Vec<Bitset128>) -> (all: Bitset128)
ensures
    all@ == used_vertices(edge_sets(edges@)),
{
    let mut all = Bitset128::default();
    let mut i: usize = 0;
    while i < edges.len()
        invariant
            i <= edges@.len(),
            all@ == used_vertices(edge_sets(edges@).take(i as int)),
        decreases edges@.len() - i,
    {
        let ghost before = all@;
        all.union(&edges[i]);
        proof {
            let short = edge_sets(edges@).take(i as int);
            let grown = edge_sets(edges@).take(i + 1);
            assert forall|v: nat| all@.contains(v) == used_vertices(grown).contains(v) by {
                if before.contains(v) {
                    let e = choose|e: int| 0 <= e < short.len() && #[trigger] short[e].contains(v);
                    assert(grown[e].contains(v));
                }
                if edges@[i as int]@.contains(v) {
                    assert(grown[i as int].contains(v));
                }
                if used_vertices(grown).contains(v) {
                    let e = choose|e: int| 0 <= e < grown.len() && #[trigger] grown[e].contains(v);
                    if e < i {
                        assert(short[e].contains(v));
                    }
                }
            }
            assert(all@ =~= used_vertices(grown));
        }
        i = i + 1;
    }
    proof {
        assert(edge_sets(edges@).take(i as int) =~= edge_sets(edges@));
    }
    all
}

/// A copy of a list of edges.
pub fn copy_of(edges: &Vec<Bitset128>) -> (c: Vec<Bitset128>)
    ensures
        c@ == edges@,
{
    let mut c: Vec<Bitset128> = Vec::with_capacity(edges.len());
    let mut i: usize = 0;
    while i < edges.len()
        invariant
            i <= edges@.len(),
            c@ == edges@.take(i as int),
        decreases edges@.len() - i,
    {
        c.push(edges[i]);
        i = i + 1;
    }
    proof {
        assert(edges@.take(i as int) =~= edges@);
    }
    c
}

/// The index ranges between neighbouring boundaries.
pub open spec fn blocks_of(parts: Seq<usize>) -> Seq<Range<usize>> {
    Seq::new(
        if parts.len() == 0 {
            0
        } else {
            (parts.len() - 1) as nat
        },
        |i: int| Range { start: parts[i], end: parts[i + 1] },
    )
}

/// Turns block boundaries into index ranges.
pub fn ranges_of(parts: &Vec<usize>) -> (r: Vec<Range<usize>>)
    ensures
        r@ == blocks_of(parts@),
{
    let mut r: Vec<Range<usize>> = Vec::new();
    let mut i: usize = 1;
    while i < parts.len()
        invariant
            1 <= i,
            parts@.len() > 0 ==> i <= parts@.len(),
            parts@.len() > 0 ==> r@.len() == i - 1,
            parts@.len() == 0 ==> r@.len() == 0,
            forall|j: int|
                0 <= j < r@.len() ==> #[trigger] r@[j] == (Range {
                    start: parts@[j],
                    end: parts@[j + 1],
                }),
        decreases parts@.len() - i,
    {
        r.push(parts[i - 1]..parts[i]);
        i = i + 1;
    }
    proof {
        assert(r@ =~= blocks_of(parts@));
    }
    r
}

} // verus!
