//! Building positions: from raw edges, and from a position by taking
//! vertices away.

use vstd::prelude::*;
use crate::bitset::Bitset128;
use crate::components::{holds_edge, is_split, placed};
use crate::hypergraph::{
    all_nodes_of, edge_sets, edges_within, used_vertices, GameError, StructuredHypergraph,
};
use crate::reduce::{all_inside, is_maximal, picks_maximal};
use crate::order::{is_rearrangement, lemma_rearrangement_onto};
use crate::relabel::{is_injective, is_piece, lemma_piece_of_piece, pulled_back, reaches};

verus! {

/// Whether the hypergraphs `parts` are the positions that the hypergraph
/// `(edges, nodes)` falls into.
///
/// Each part is a position in canonical shape.  Vertex `i` of part `c` is
/// vertex `provs[c].0[i]` of the whole and carries its label; edge `k` of
/// part `c` is edge `provs[c].1[k]` of the whole, which is a maximal edge.
/// No two parts share a vertex, and every edge of the whole that is not
/// empty lies inside an edge of some part.
pub open spec fn is_construction(
    parts: Seq<StructuredHypergraph>,
    provs: Seq<(Seq<nat>, Seq<int>)>,
    edges: Seq<Set<nat>>,
    nodes: Seq<usize>,
) -> bool {
    &&& provs.len() == parts.len()
    &&& forall|c: int|
        0 <= c < parts.len() ==> {
            &&& (#[trigger] parts[c]).wf()
            &&& parts[c].nodes@.len() >= 1
            &&& is_piece(parts[c].edges(), parts[c].nodes@, provs[c].0, provs[c].1, edges, nodes)
        }
    &&& forall|c: int, k: int|
        0 <= c < provs.len() && 0 <= k < provs[c].1.len() ==> is_maximal(edges, #[trigger] provs[c].1[k])
    &&& forall|c: int, d: int, i: int, j: int|
        0 <= c < d < parts.len() && 0 <= i < provs[c].0.len() && 0 <= j < provs[d].0.len()
            ==> #[trigger] provs[c].0[i] != #[trigger] provs[d].0[j]
    &&& forall|e: int|
        0 <= e < edges.len() && edges[e] != Set::<nat>::empty() ==> #[trigger] lies_in_part(
            provs,
            edges,
            e,
        )
}

/// Whether edge `e` of the whole lies inside an edge of some part.
pub open spec fn lies_in_part(provs: Seq<(Seq<nat>, Seq<int>)>, edges: Seq<Set<nat>>, e: int) -> bool {
    exists|c: int, k: int|
        0 <= c < provs.len() && 0 <= k < provs[c].1.len() && edges[e].subset_of(
            edges[#[trigger] provs[c].1[k]],
        )
}

/// Whether `parts` are the positions that the hypergraph `(edges, nodes)`
/// falls into, under some account of where their vertices and edges came
/// from.
pub open spec fn positions_of(
    parts: Seq<StructuredHypergraph>,
    edges: Seq<Set<nat>>,
    nodes: Seq<usize>,
) -> bool {
    exists|provs: Seq<(Seq<nat>, Seq<int>)>| is_construction(parts, provs, edges, nodes)
}

/// The edges without the vertices in `removed`.
pub open spec fn edges_minus(edges: Seq<Set<nat>>, removed: Set<nat>) -> Seq<Set<nat>> {
    Seq::new(edges.len(), |e: int| edges[e].difference(removed))
}

/// The labels `0, 1, ..., n - 1`.
pub open spec fn plain_labels(n: nat) -> Seq<usize> {
    Seq::new(n, |i: int| i as usize)
}

/// Whether `parts` are the positions that the hypergraph with the edges
/// `edges` falls into, its vertices labelled by their own numbers.
pub open spec fn plain_positions_of(parts: Seq<StructuredHypergraph>, edges: Seq<Set<nat>>) -> bool {
    exists|n: nat|
        n <= 128 && edges_within(edges, n) && #[trigger] positions_of(parts, edges, plain_labels(n))
}

/// The origins of the parts of a piece, seen from the whole.
spec fn through(
    provs: Seq<(Seq<nat>, Seq<int>)>,
    origin: Seq<nat>,
    src: Seq<int>,
) -> Seq<(Seq<nat>, Seq<int>)> {
    Seq::new(
        provs.len(),
        |c: int|
            (
                Seq::new(provs[c].0.len(), |i: int| origin[provs[c].0[i] as int]),
                Seq::new(provs[c].1.len(), |k: int| src[provs[c].1[k]]),
            ),
    )
}

/// The components of what is left of a hypergraph, once its needless edges
/// are gone, are the positions that it falls into.
proof fn lemma_split_of_reduced(
    parts: Seq<StructuredHypergraph>,
    provs: Seq<(Seq<nat>, Seq<int>)>,
    cur: Seq<Set<nat>>,
    cur_nodes: Seq<usize>,
    origin: Seq<nat>,
    src: Seq<int>,
    edges: Seq<Set<nat>>,
    nodes: Seq<usize>,
)
    requires
        is_split(parts, provs, cur, cur_nodes),
        is_piece(cur, cur_nodes, origin, src, edges, nodes),
        picks_maximal(edges, src),
    ensures
        is_construction(parts, through(provs, origin, src), edges, nodes),
{
    let all = through(provs, origin, src);
    assert forall|c: int| 0 <= c < parts.len() implies {
        &&& (#[trigger] parts[c]).wf()
        &&& parts[c].nodes@.len() >= 1
        &&& is_piece(parts[c].edges(), parts[c].nodes@, all[c].0, all[c].1, edges, nodes)
    } by {
        lemma_piece_of_piece(
            parts[c].edges(),
            parts[c].nodes@,
            provs[c].0,
            provs[c].1,
            cur,
            cur_nodes,
            origin,
            src,
            edges,
            nodes,
        );
    }
    assert forall|c: int, k: int| 0 <= c < all.len() && 0 <= k < all[c].1.len() implies is_maximal(
        edges,
        #[trigger] all[c].1[k],
    ) by {
        assert(is_piece(parts[c].edges(), parts[c].nodes@, provs[c].0, provs[c].1, cur, cur_nodes));
        let a = provs[c].1[k];
        assert(0 <= a < cur.len());
        assert(is_maximal(edges, src[a]));
    }
    assert forall|c: int, d: int, i: int, j: int|
        0 <= c < d < parts.len() && 0 <= i < all[c].0.len() && 0 <= j < all[d].0.len() implies #[trigger] all[c].0[i]
        != #[trigger] all[d].0[j] by {
        assert(is_piece(parts[c].edges(), parts[c].nodes@, provs[c].0, provs[c].1, cur, cur_nodes));
        assert(is_piece(parts[d].edges(), parts[d].nodes@, provs[d].0, provs[d].1, cur, cur_nodes));
        let x = provs[c].0[i];
        let y = provs[d].0[j];
        assert(x != y);
        assert(x < cur_nodes.len() && y < cur_nodes.len());
        if x < y {
            assert(origin[x as int] != origin[y as int]);
        } else {
            assert(origin[y as int] != origin[x as int]);
        }
    }
    assert forall|e: int| 0 <= e < edges.len() && edges[e] != Set::<nat>::empty() implies #[trigger] lies_in_part(
        all,
        edges,
        e,
    ) by {
        assert(all_inside(edges, src));
        let a = choose|a: int| 0 <= a < src.len() && edges[e].subset_of(edges[#[trigger] src[a]]);
        assert(placed(provs, a));
        let c = choose|c: int| 0 <= c < provs.len() && #[trigger] holds_edge(provs[c].1, a);
        let k = choose|k: int| 0 <= k < provs[c].1.len() && provs[c].1[k] == a;
        assert(all[c].1[k] == src[a]);
    }
}

/// Every vertex that the edges use is a vertex of exactly one position, and
/// each position is connected.
pub proof fn lemma_split_is_exhaustive(
    parts: Seq<StructuredHypergraph>,
    provs: Seq<(Seq<nat>, Seq<int>)>,
    edges: Seq<Set<nat>>,
    nodes: Seq<usize>,
    v: nat,
)
    requires
        is_construction(parts, provs, edges, nodes),
        used_vertices(edges).contains(v),
    ensures
        exists|c: int, i: int|
            0 <= c < parts.len() && 0 <= i < provs[c].0.len() && #[trigger] provs[c].0[i] == v,
        forall|c: int, d: int, i: int, j: int|
            0 <= c < parts.len() && 0 <= d < parts.len() && 0 <= i < provs[c].0.len() && 0 <= j
                < provs[d].0.len() && #[trigger] provs[c].0[i] == v && #[trigger] provs[d].0[j] == v
                ==> c == d && i == j,
        forall|c: int| 0 <= c < parts.len() ==> crate::hypergraph::is_connected(#[trigger] parts[c].edges()),
{
    let e = choose|e: int| 0 <= e < edges.len() && #[trigger] edges[e].contains(v);
    assert(edges[e] != Set::<nat>::empty());
    assert(lies_in_part(provs, edges, e));
    let (c, k) = choose|c: int, k: int|
        0 <= c < provs.len() && 0 <= k < provs[c].1.len() && edges[e].subset_of(
            edges[#[trigger] provs[c].1[k]],
        );
    assert(parts[c].wf());
    assert(crate::relabel::reaches(provs[c].0, edges[provs[c].1[k]]));
    let i = choose|i: int| 0 <= i < provs[c].0.len() && provs[c].0[i] == v;
    assert(provs[c].0[i] == v);
    assert forall|c: int, d: int, i: int, j: int|
        0 <= c < parts.len() && 0 <= d < parts.len() && 0 <= i < provs[c].0.len() && 0 <= j
            < provs[d].0.len() && #[trigger] provs[c].0[i] == v && #[trigger] provs[d].0[j]
            == v implies c == d && i == j by {
        assert(parts[c].wf());
        assert(parts[d].wf());
        if c < d {
            assert(provs[c].0[i] != provs[d].0[j]);
        } else if d < c {
            assert(provs[d].0[j] != provs[c].0[i]);
        } else if i < j {
            assert(provs[c].0[i] != provs[c].0[j]);
        } else if j < i {
            assert(provs[c].0[j] != provs[c].0[i]);
        }
    }
    assert forall|c: int| 0 <= c < parts.len() implies crate::hypergraph::is_connected(
        #[trigger] parts[c].edges(),
    ) by {
        assert(parts[c].wf());
    }
}

/// The set of the new names of the vertices in `s`, where vertex `v` gets
/// the name `pi[v]`.
pub open spec fn renamed(pi: Seq<nat>, s: Set<nat>) -> Set<nat> {
    Set::new(|w: nat| exists|v: nat| s.contains(v) && v < pi.len() && pi[v as int] == w)
}

/// Whether the hypergraph `(b, b_nodes)` is the hypergraph `(a, a_nodes)`
/// with other names for its vertices and its edges in another order:
/// vertex `v` of the one is vertex `pi[v]` of the other and has its label,
/// and edge `j` of the other is edge `tau[j]` of the one.
pub open spec fn is_renaming(
    pi: Seq<nat>,
    tau: Seq<int>,
    a: Seq<Set<nat>>,
    a_nodes: Seq<usize>,
    b: Seq<Set<nat>>,
    b_nodes: Seq<usize>,
) -> bool {
    &&& edges_within(a, a_nodes.len())
    &&& pi.len() == a_nodes.len()
    &&& is_injective(pi)
    &&& forall|v: int|
        0 <= v < pi.len() ==> (#[trigger] pi[v]) < b_nodes.len() && b_nodes[pi[v] as int] == a_nodes[v]
    &&& b.len() == a.len()
    &&& is_rearrangement(tau, a.len())
    &&& forall|j: int| 0 <= j < b.len() ==> #[trigger] b[j] == renamed(pi, a[tau[j]])
}

/// The place of edge `e` in the other order.
pub open spec fn place_of(tau: Seq<int>, e: int) -> int {
    choose|j: int| 0 <= j < tau.len() && tau[j] == e
}

/// Edges lie inside one another as their renamed copies do.
proof fn lemma_renamed_subset(pi: Seq<nat>, e: Set<nat>, f: Set<nat>)
    requires
        is_injective(pi),
        forall|v: nat| e.contains(v) ==> v < pi.len(),
        forall|v: nat| f.contains(v) ==> v < pi.len(),
    ensures
        renamed(pi, e).subset_of(renamed(pi, f)) <==> e.subset_of(f),
        renamed(pi, e) == Set::<nat>::empty() <==> e == Set::<nat>::empty(),
{
    if renamed(pi, e).subset_of(renamed(pi, f)) {
        assert forall|v: nat| e.contains(v) implies f.contains(v) by {
            assert(renamed(pi, e).contains(pi[v as int]));
            let u = choose|u: nat| f.contains(u) && u < pi.len() && pi[u as int] == pi[v as int];
            if u < v {
                assert(pi[u as int] != pi[v as int]);
            } else if v < u {
                assert(pi[v as int] != pi[u as int]);
            }
        }
    }
    if renamed(pi, e) == Set::<nat>::empty() {
        assert forall|v: nat| !e.contains(v) by {
            if e.contains(v) {
                assert(renamed(pi, e).contains(pi[v as int]));
            }
        }
        assert(e =~= Set::<nat>::empty());
    }
    if e == Set::<nat>::empty() {
        assert(renamed(pi, e) =~= Set::<nat>::empty());
    }
}

/// What a hypergraph falls into does not depend on the names of its
/// vertices nor on the order of its edges: the positions of the one are
/// positions of the other.
pub proof fn lemma_positions_of_renamed(
    parts: Seq<StructuredHypergraph>,
    pi: Seq<nat>,
    tau: Seq<int>,
    a: Seq<Set<nat>>,
    a_nodes: Seq<usize>,
    b: Seq<Set<nat>>,
    b_nodes: Seq<usize>,
)
    requires
        is_renaming(pi, tau, a, a_nodes, b, b_nodes),
        positions_of(parts, a, a_nodes),
    ensures
        positions_of(parts, b, b_nodes),
{
    let provs = choose|provs: Seq<(Seq<nat>, Seq<int>)>| is_construction(parts, provs, a, a_nodes);
    let moved = Seq::new(
        provs.len(),
        |c: int|
            (
                Seq::new(provs[c].0.len(), |i: int| pi[provs[c].0[i] as int]),
                Seq::new(provs[c].1.len(), |k: int| place_of(tau, provs[c].1[k])),
            ),
    );
    assert forall|e: int| 0 <= e < a.len() implies 0 <= place_of(tau, e) < b.len() && tau[place_of(
        tau,
        e,
    )] == e by {
        lemma_rearrangement_onto(tau, a.len(), e);
    }
    assert forall|c: int| 0 <= c < parts.len() implies {
        &&& (#[trigger] parts[c]).wf()
        &&& parts[c].nodes@.len() >= 1
        &&& is_piece(parts[c].edges(), parts[c].nodes@, moved[c].0, moved[c].1, b, b_nodes)
    } by {
        let origin = provs[c].0;
        let src = provs[c].1;
        let cur = parts[c].edges();
        assert(is_piece(cur, parts[c].nodes@, origin, src, a, a_nodes));
        let o = moved[c].0;
        assert forall|i: int, j: int| 0 <= i < j < o.len() implies o[i] != o[j] by {
            assert(origin[i] != origin[j]);
            assert(origin[i] < a_nodes.len() && origin[j] < a_nodes.len());
            if origin[i] < origin[j] {
                assert(pi[origin[i] as int] != pi[origin[j] as int]);
            } else {
                assert(pi[origin[j] as int] != pi[origin[i] as int]);
            }
        }
        assert forall|i: int| 0 <= i < o.len() implies (#[trigger] o[i]) < b_nodes.len()
            && parts[c].nodes@[i] == b_nodes[o[i] as int] by {
            assert(origin[i] < a_nodes.len());
        }
        assert forall|k: int| 0 <= k < cur.len() implies {
            &&& 0 <= #[trigger] moved[c].1[k] < b.len()
            &&& cur[k] == pulled_back(o, b[moved[c].1[k]])
            &&& reaches(o, b[moved[c].1[k]])
        } by {
            let e = src[k];
            let j = place_of(tau, e);
            assert(0 <= e < a.len());
            assert(b[j] == renamed(pi, a[e]));
            assert(cur[k] == pulled_back(origin, a[e]));
            assert forall|i: nat| cur[k].contains(i) == pulled_back(o, b[j]).contains(i) by {
                if i < origin.len() {
                    assert(origin[i as int] < a_nodes.len());
                    if a[e].contains(origin[i as int]) {
                        assert(renamed(pi, a[e]).contains(pi[origin[i as int] as int]));
                    }
                    if b[j].contains(o[i as int]) {
                        let v = choose|v: nat|
                            a[e].contains(v) && v < pi.len() && pi[v as int] == o[i as int];
                        let u = origin[i as int];
                        if u < v {
                            assert(pi[u as int] != pi[v as int]);
                        } else if v < u {
                            assert(pi[v as int] != pi[u as int]);
                        }
                    }
                }
            }
            assert(cur[k] =~= pulled_back(o, b[j]));
            assert forall|w: nat| b[j].contains(w) implies exists|i: int|
                0 <= i < o.len() && o[i] == w by {
                let v = choose|v: nat| a[e].contains(v) && v < pi.len() && pi[v as int] == w;
                let i = choose|i: int| 0 <= i < origin.len() && origin[i] == v;
                assert(o[i] == w);
            }
        }
    }
    assert forall|c: int, k: int| 0 <= c < moved.len() && 0 <= k < moved[c].1.len() implies is_maximal(
        b,
        #[trigger] moved[c].1[k],
    ) by {
        assert(is_piece(parts[c].edges(), parts[c].nodes@, provs[c].0, provs[c].1, a, a_nodes));
        let e = provs[c].1[k];
        let j = place_of(tau, e);
        assert(is_maximal(a, e));
        assert(b[j] == renamed(pi, a[tau[j]]));
        lemma_renamed_subset(pi, a[e], a[e]);
        assert forall|f: int| 0 <= f < b.len() && b[j].subset_of(#[trigger] b[f]) implies b[f].subset_of(
            b[j],
        ) by {
            assert(b[f] == renamed(pi, a[tau[f]]));
            lemma_renamed_subset(pi, a[e], a[tau[f]]);
            lemma_renamed_subset(pi, a[tau[f]], a[e]);
            assert(a[tau[j]].subset_of(a[tau[f]]));
        }
    }
    assert forall|c: int, d: int, i: int, j: int|
        0 <= c < d < parts.len() && 0 <= i < moved[c].0.len() && 0 <= j < moved[d].0.len() implies #[trigger] moved[c].0[i]
        != #[trigger] moved[d].0[j] by {
        assert(is_piece(parts[c].edges(), parts[c].nodes@, provs[c].0, provs[c].1, a, a_nodes));
        assert(is_piece(parts[d].edges(), parts[d].nodes@, provs[d].0, provs[d].1, a, a_nodes));
        let x = provs[c].0[i];
        let y = provs[d].0[j];
        assert(x != y);
        assert(x < a_nodes.len() && y < a_nodes.len());
        if x < y {
            assert(pi[x as int] != pi[y as int]);
        } else {
            assert(pi[y as int] != pi[x as int]);
        }
    }
    assert forall|e: int| 0 <= e < b.len() && b[e] != Set::<nat>::empty() implies #[trigger] lies_in_part(
        moved,
        b,
        e,
    ) by {
        let t = tau[e];
        assert(0 <= t < a.len());
        assert(b[e] == renamed(pi, a[t]));
        lemma_renamed_subset(pi, a[t], a[t]);
        assert(a[t] != Set::<nat>::empty());
        assert(lies_in_part(provs, a, t));
        let (c, k) = choose|c: int, k: int|
            0 <= c < provs.len() && 0 <= k < provs[c].1.len() && a[t].subset_of(
                a[#[trigger] provs[c].1[k]],
            );
        assert(is_piece(parts[c].edges(), parts[c].nodes@, provs[c].0, provs[c].1, a, a_nodes));
        let s = provs[c].1[k];
        let j = place_of(tau, s);
        assert(moved[c].1[k] == j);
        assert(b[j] == renamed(pi, a[tau[j]]));
        lemma_renamed_subset(pi, a[t], a[tau[j]]);
        assert(b[e].subset_of(b[moved[c].1[k]]));
    }
    assert(is_construction(parts, moved, b, b_nodes));
}

/// A position holds no more vertices than the edges it was built from use,
/// and fewer than there are labels where some labelled vertex is in no edge.
pub proof fn lemma_part_is_smaller(
    parts: Seq<StructuredHypergraph>,
    provs: Seq<(Seq<nat>, Seq<int>)>,
    edges: Seq<Set<nat>>,
    nodes: Seq<usize>,
    v: nat,
    c: int,
)
    requires
        is_construction(parts, provs, edges, nodes),
        v < nodes.len(),
        !used_vertices(edges).contains(v),
        0 <= c < parts.len(),
    ensures
        parts[c].nodes@.len() < nodes.len(),
{
    let origin = provs[c].0;
    let part = parts[c];
    assert(part.wf());
    let room = vstd::set_lib::set_int_range(0, nodes.len() as int).remove(v as int);
    vstd::set_lib::lemma_int_range(0, nodes.len() as int);
    let places = Seq::new(origin.len(), |i: int| origin[i] as int);
    assert(places.no_duplicates());
    places.unique_seq_to_set();
    assert(places.to_set().subset_of(room)) by {
        assert forall|x: int| places.to_set().contains(x) implies room.contains(x) by {
            let i = choose|i: int| 0 <= i < places.len() && places[i] == x;
            assert(origin[i] < nodes.len());
            assert(used_vertices(part.edges()).contains(i as nat));
            let k = choose|k: int|
                0 <= k < part.edges().len() && #[trigger] part.edges()[k].contains(i as nat);
            assert(part.edges()[k] == crate::relabel::pulled_back(origin, edges[provs[c].1[k]]));
            assert(edges[provs[c].1[k]].contains(origin[i]));
        }
    }
    vstd::set_lib::lemma_len_subset(places.to_set(), room);
}

impl StructuredHypergraph {
    /// The positions of the hypergraph with the edges `hyperedges`, whose
    /// vertex `v` carries the label `nodes[v]`: the connected components of
    /// its maximal edges, each in canonical order.  Where a vertex of some
    /// edge has no label, nothing is built.
    pub fn from_hyperedges_with_nodes(hyperedges: Vec<Bitset128>, nodes: Vec<usize>) -> (res: Result<
        Vec<StructuredHypergraph>,
        GameError,
    >)
        ensures
            res is Err <==> !edges_within(edge_sets(hyperedges@), nodes@.len()),
            res matches Err(e) ==> e == GameError::IllConfigured,
            res matches Ok(parts) ==> positions_of(parts@, edge_sets(hyperedges@), nodes@),
    {
        let ghost edges = edge_sets(hyperedges@);
        let ghost labels = nodes@;
        let mut g = StructuredHypergraph {
            hyperedges,
            edge_structure_partitions: Vec::new(),
            node_structure_partitions: Vec::new(),
            nodes,
        };
        let mut all = g.used_nodes();
        match all.pop() {
            Some(largest) => {
                if largest >= g.nodes.len() {
                    proof {
                        let e = choose|e: int|
                            0 <= e < edges.len() && #[trigger] edges[e].contains(largest as nat);
                    }
                    return Err(GameError::IllConfigured);
                }
                proof {
                    assert forall|e: int, v: nat| 0 <= e < edges.len() && #[trigger] edges[e].contains(
                        v,
                    ) implies v < labels.len() by {
                        assert(used_vertices(edges).contains(v));
                    }
                }
            },
            None => {
                proof {
                    assert forall|e: int, v: nat| 0 <= e < edges.len() && #[trigger] edges[e].contains(
                        v,
                    ) implies v < labels.len() by {
                        assert(used_vertices(edges).contains(v));
                    }
                }
            },
        }
        let prov = g.remove_redundant_hyperedges();
        let ghost cur = g.edges();
        let ghost cur_nodes = g.nodes@;
        let (parts, provs) = g.get_parts();
        proof {
            lemma_split_of_reduced(parts@, provs@, cur, cur_nodes, prov@.0, prov@.1, edges, labels);
        }
        Ok(parts)
    }

    /// The positions of the hypergraph with the edges `hyperedges`, whose
    /// vertices are labelled by their own numbers.
    pub fn from_hyperedges(hyperedges: Vec<Bitset128>) -> (parts: Vec<StructuredHypergraph>)
        ensures
            plain_positions_of(parts@, edge_sets(hyperedges@)),
    {
        let ghost edges = edge_sets(hyperedges@);
        let mut all = all_nodes_of(&hyperedges);
        let max_node: usize = match all.pop() {
            Some(largest) => {
                proof {
                    let e = choose|e: int| 0 <= e < edges.len() && #[trigger] edges[e].contains(largest as nat);
                    hyperedges@[e].lemma_view();
                }
                largest + 1
            },
            None => 0,
        };
        let mut nodes: Vec<usize> = Vec::with_capacity(max_node);
        let mut i: usize = 0;
        while i < max_node
            invariant
                i <= max_node,
                nodes@.len() == i,
                forall|j: int| 0 <= j < i ==> nodes@[j] == j,
            decreases max_node - i,
        {
            nodes.push(i);
            i = i + 1;
        }
        proof {
            assert(nodes@ =~= plain_labels(max_node as nat));
            assert forall|e: int, v: nat| 0 <= e < edges.len() && #[trigger] edges[e].contains(
                v,
            ) implies v < max_node by {
                assert(used_vertices(edges).contains(v));
            }
        }
        match Self::from_hyperedges_with_nodes(hyperedges, nodes) {
            Ok(parts) => {
                proof {
                    assert(positions_of(parts@, edges, plain_labels(max_node as nat)));
                }
                parts
            },
            Err(_) => Vec::new(),
        }
    }

    /// The positions that are left when the vertices in `nodes` are taken
    /// away: each edge loses them, and what remains is built anew.
    pub fn minus(&self, nodes: Bitset128) -> (parts: Vec<StructuredHypergraph>)
        requires
            self.labelled(),
        ensures
            positions_of(parts@, edges_minus(self.edges(), nodes@), self.nodes@),
    {
        let mut rest: Vec<Bitset128> = Vec::with_capacity(self.hyperedges.len());
        let mut e: usize = 0;
        while e < self.hyperedges.len()
            invariant
                e <= self.hyperedges@.len(),
                rest@.len() == e,
                forall|f: int| 0 <= f < e ==> (#[trigger] rest@[f])@ == self.edges()[f].difference(nodes@),
            decreases self.hyperedges@.len() - e,
        {
            rest.push(self.hyperedges[e].minus(&nodes));
            e = e + 1;
        }
        proof {
            assert(edge_sets(rest@) =~= edges_minus(self.edges(), nodes@));
        }
        let labels = self.nodes.clone();
        proof {
            assert(labels@ =~= self.nodes@);
        }
        match Self::from_hyperedges_with_nodes(rest, labels) {
            Ok(parts) => parts,
            Err(_) => Vec::new(),
        }
    }
}

} // verus!
