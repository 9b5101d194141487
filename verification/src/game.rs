//! The taking game: a position together with what the game asks of it.

use vstd::prelude::*;
use crate::bitset::Bitset128;
use crate::construct::{edges_minus, plain_positions_of, positions_of};
use crate::hypergraph::{
    edge_sets, edges_within, is_dual, same_edges, GameError, StructuredHypergraph,
};

verus! {

/// A position of the taking game: a connected hypergraph in canonical shape.
/// A move takes a non-empty set of vertices out of one edge.
#[derive(Debug)]
pub struct TakingGame {
    pub graph: StructuredHypergraph,
}

impl PartialEq for TakingGame {
    /// Two games are equal where their hypergraphs are.
    fn eq(&self, other: &Self) -> (b: bool)
    {
        same_edges(&self.graph.hyperedges, &other.graph.hyperedges)
    }
}

impl Eq for TakingGame {}

impl vstd::std_specs::cmp::PartialEqSpecImpl for TakingGame {
    open spec fn obeys_eq_spec() -> bool {
        true
    }

    open spec fn eq_spec(&self, other: &Self) -> bool {
        self.graph.hyperedges@ == other.graph.hyperedges@
    }
}

impl core::hash::Hash for TakingGame {
    /// Feeds the hasher as the hypergraph does: equal games feed it alike.
    fn hash<H: core::hash::Hasher>(&self, state: &mut H) {
        self.graph.hash(state);
    }
}

impl Default for TakingGame {
    /// The position without vertices and edges.
    fn default() -> (g: Self)
        ensures
            g.wf(),
            g.graph.nodes@.len() == 0,
            g.graph.hyperedges@.len() == 0,
    {
        TakingGame::empty()
    }
}

impl Clone for TakingGame {
    fn clone(&self) -> (g: Self)
        ensures
            g.graph.hyperedges@ == self.graph.hyperedges@,
            g.graph.nodes@ == self.graph.nodes@,
            g.graph.node_structure_partitions@ == self.graph.node_structure_partitions@,
            g.graph.edge_structure_partitions@ == self.graph.edge_structure_partitions@,
    {
        TakingGame { graph: self.graph.duplicate() }
    }
}

/// The set of the indices in `v`.
pub open spec fn index_set(v: Seq<usize>) -> Set<nat> {
    Set::new(|i: nat| exists|k: int| 0 <= k < v.len() && v[k] == i)
}

/// The vertex sets of edges given as lists of indices.
pub open spec fn index_sets(edges: Seq<Vec<usize>>) -> Seq<Set<nat>> {
    Seq::new(edges.len(), |e: int| index_set(edges[e]@))
}

/// Whether every index fits the dense vertex set.
pub open spec fn all_fit(edges: Seq<Vec<usize>>) -> bool {
    forall|e: int, k: int| 0 <= e < edges.len() && 0 <= k < edges[e]@.len() ==> #[trigger] edges[e]@[k] < 128
}

/// The hypergraphs of a list of games.
pub open spec fn graphs_of(games: Seq<TakingGame>) -> Seq<StructuredHypergraph> {
    Seq::new(games.len(), |c: int| games[c].graph)
}

/// Turns edges given as lists of indices into dense sets; `None` where an
/// index does not fit.
pub fn to_dense(edges: &Vec<Vec<usize>>) -> (r: Option<Vec<Bitset128>>)
    ensures
        r is Some <==> all_fit(edges@),
        r matches Some(dense) ==> edge_sets(dense@) == index_sets(edges@),
{
    let mut dense: Vec<Bitset128> = Vec::with_capacity(edges.len());
    let mut e: usize = 0;
    while e < edges.len()
        invariant
            e <= edges@.len(),
            dense@.len() == e,
            forall|f: int, k: int| 0 <= f < e && 0 <= k < edges@[f]@.len() ==> #[trigger] edges@[f]@[k] < 128,
            forall|f: int| 0 <= f < e ==> (#[trigger] dense@[f])@ == index_set(edges@[f]@),
        decreases edges@.len() - e,
    {
        let edge = &edges[e];
        let mut k: usize = 0;
        while k < edge.len()
            invariant
                k <= edge@.len(),
                e < edges@.len(),
                edge@ == edges@[e as int]@,
                forall|j: int| 0 <= j < k ==> #[trigger] edge@[j] < 128,
            decreases edge@.len() - k,
        {
            if edge[k] >= 128 {
                proof {
                    assert(edges@[e as int]@[k as int] >= 128);
                }
                return None;
            }
            k = k + 1;
        }
        let set = Bitset128::from_slice(edge.as_slice());
        proof {
            assert(set@ =~= index_set(edge@));
        }
        dense.push(set);
        e = e + 1;
    }
    proof {
        assert(edge_sets(dense@) =~= index_sets(edges@));
    }
    Some(dense)
}

/// Makes a game of each hypergraph, in order.
pub fn games_from(graphs: Vec<StructuredHypergraph>) -> (games: Vec<TakingGame>)
    ensures
        graphs_of(games@) == graphs@,
{
    let mut graphs = graphs;
    let ghost all = graphs@;
    let mut back: Vec<StructuredHypergraph> = Vec::with_capacity(graphs.len());
    while graphs.len() > 0
        invariant
            graphs@.len() + back@.len() == all.len(),
            forall|i: int| 0 <= i < graphs@.len() ==> graphs@[i] == all[i],
            forall|i: int| 0 <= i < back@.len() ==> back@[i] == all[all.len() - 1 - i],
        decreases graphs@.len(),
    {
        let g = graphs.pop().unwrap();
        back.push(g);
    }
    let mut games: Vec<TakingGame> = Vec::with_capacity(back.len());
    while back.len() > 0
        invariant
            games@.len() + back@.len() == all.len(),
            forall|i: int| 0 <= i < back@.len() ==> back@[i] == all[all.len() - 1 - i],
            forall|i: int| 0 <= i < games@.len() ==> games@[i].graph == all[i],
        decreases back@.len(),
    {
        let g = back.pop().unwrap();
        games.push(TakingGame { graph: g });
    }
    proof {
        assert(graphs_of(games@) =~= all);
    }
    games
}

impl TakingGame {
    /// Whether this is a position in canonical shape.
    pub open spec fn wf(&self) -> bool {
        self.graph.wf()
    }

    /// The position without vertices and edges.
    pub fn empty() -> (g: Self)
        ensures
            g.wf(),
            g.graph.nodes@.len() == 0,
            g.graph.hyperedges@.len() == 0,
    {
        let g = TakingGame {
            graph: StructuredHypergraph {
                hyperedges: Vec::new(),
                nodes: Vec::new(),
                node_structure_partitions: Vec::new(),
                edge_structure_partitions: Vec::new(),
            },
        };
        proof {
            assert(g.graph.edges() =~= Seq::<Set<nat>>::empty());
            reveal(crate::canon::in_canonical_order);
            assert(crate::canon::keeps_blocks(Seq::<usize>::empty(), g.graph.edge_structure_partitions@));
            assert(crate::canon::vertices_in_order_by(
                g.graph.edges(),
                g.graph.node_structure_partitions@,
                Seq::<usize>::empty(),
            ));
        }
        g
    }

    /// The positions of the game on the hypergraph with the given edges,
    /// whose vertices are labelled by their own numbers.  An index from 128
    /// on does not fit the dense vertex set.
    pub fn from_hyperedges(edges: Vec<Vec<usize>>) -> (res: Result<Vec<Self>, GameError>)
        ensures
            res is Err <==> !all_fit(edges@),
            res matches Err(e) ==> e == GameError::TooLarge,
            res matches Ok(games) ==> plain_positions_of(graphs_of(games@), index_sets(edges@)),
    {
        match to_dense(&edges) {
            None => Err(GameError::TooLarge),
            Some(dense) => {
                let graphs = StructuredHypergraph::from_hyperedges(dense);
                let games = games_from(graphs);
                Ok(games)
            },
        }
    }

    /// The same as `from_hyperedges`.
    pub fn from_hyperesges(edges: Vec<Vec<usize>>) -> (res: Result<Vec<Self>, GameError>)
        ensures
            res is Err <==> !all_fit(edges@),
            res matches Err(e) ==> e == GameError::TooLarge,
            res matches Ok(games) ==> plain_positions_of(graphs_of(games@), index_sets(edges@)),
    {
        Self::from_hyperedges(edges)
    }

    /// The positions of the game on the hypergraph with the given edges,
    /// whose vertex `v` carries the label `nodes[v]`.  An index from 128 on
    /// does not fit the dense vertex set; failing that, every vertex of every
    /// edge must have a label.
    pub fn from_hyperedges_with_nodes(edges: Vec<Vec<usize>>, nodes: Vec<usize>) -> (res: Result<
        Vec<Self>,
        GameError,
    >)
        ensures
            res is Err <==> !all_fit(edges@) || !edges_within(index_sets(edges@), nodes@.len()),
            res matches Err(e) ==> (e == GameError::TooLarge <==> !all_fit(edges@)),
            res matches Err(e) ==> (e == GameError::IllConfigured <==> all_fit(edges@)),
            res matches Ok(games) ==> positions_of(graphs_of(games@), index_sets(edges@), nodes@),
    {
        match to_dense(&edges) {
            None => Err(GameError::TooLarge),
            Some(dense) => match StructuredHypergraph::from_hyperedges_with_nodes(dense, nodes) {
                Ok(graphs) => Ok(games_from(graphs)),
                Err(e) => Err(e),
            },
        }
    }

    /// Returns the number of vertices.
    pub fn nr_nodes(&self) -> (n: usize)
        ensures
            n == self.graph.nodes@.len(),
    {
        self.graph.nr_nodes()
    }

    /// Returns the labels of the vertices.
    pub fn nodes(&self) -> (l: &[usize])
        ensures
            l@ == self.graph.nodes@,
    {
        self.graph.nodes()
    }

    /// For each vertex, the indices of the edges that hold it, in rising order.
    pub fn hypergraph_dual(&self) -> (d: Vec<Vec<usize>>)
        requires
            self.graph.labelled(),
        ensures
            is_dual(d@, self.graph.edges(), self.graph.nodes@.len()),
    {
        self.graph.dual()
    }

    /// The positions that are left when the vertices in `mask` are taken away.
    pub fn with_nodes_removed(&self, mask: Bitset128) -> (games: Vec<Self>)
        requires
            self.graph.labelled(),
        ensures
            positions_of(graphs_of(games@), edges_minus(self.graph.edges(), mask@), self.graph.nodes@),
    {
        games_from(self.graph.minus(mask))
    }
}

} // verus!
