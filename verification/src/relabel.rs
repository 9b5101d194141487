//! How a hypergraph keeps its shape when its vertices are renumbered, and how
//! a renumbered piece stays tied to the vertices it came from.

use vstd::prelude::*;
use crate::bitset::remapped;
use crate::hypergraph::{is_closed, is_connected, is_flat, is_reduced, used_vertices};
use crate::order::{is_permutation, lemma_permutation_onto};

verus! {

/// The vertices whose origin lies in `edge`.
pub open spec fn pulled_back(origin: Seq<nat>, edge: Set<nat>) -> Set<nat> {
    Set::new(|i: nat| i < origin.len() && edge.contains(origin[i as int]))
}

/// Whether no two vertices have the same origin.
pub open spec fn is_injective(origin: Seq<nat>) -> bool {
    forall|i: int, j: int| 0 <= i < j < origin.len() ==> origin[i] != origin[j]
}

/// Whether every vertex of `edge` is the origin of some vertex.
pub open spec fn reaches(origin: Seq<nat>, edge: Set<nat>) -> bool {
    forall|v: nat| edge.contains(v) ==> exists|i: int| 0 <= i < origin.len() && origin[i] == v
}

/// Whether the edges `cur` over the labels `cur_nodes` are a piece of the
/// hypergraph `(edges, nodes)`: vertex `i` of the piece is vertex `origin[i]`
/// of the whole and carries its label, and edge `k` of the piece is edge
/// `src[k]` of the whole, all of whose vertices the piece holds.
pub open spec fn is_piece(
    cur: Seq<Set<nat>>,
    cur_nodes: Seq<usize>,
    origin: Seq<nat>,
    src: Seq<int>,
    edges: Seq<Set<nat>>,
    nodes: Seq<usize>,
) -> bool {
    &&& origin.len() == cur_nodes.len()
    &&& is_injective(origin)
    &&& forall|i: int|
        0 <= i < origin.len() ==> (#[trigger] origin[i]) < nodes.len() && cur_nodes[i]
            == nodes[origin[i] as int]
    &&& src.len() == cur.len()
    &&& forall|k: int|
        0 <= k < cur.len() ==> {
            &&& 0 <= #[trigger] src[k] < edges.len()
            &&& cur[k] == pulled_back(origin, edges[src[k]])
            &&& reaches(origin, edges[src[k]])
        }
}

/// Edges that the origins reach lie inside one another as their pieces do.
pub proof fn lemma_pulled_back_subset(origin: Seq<nat>, e: Set<nat>, f: Set<nat>)
    requires
        reaches(origin, e),
    ensures
        pulled_back(origin, e).subset_of(pulled_back(origin, f)) <==> e.subset_of(f),
        pulled_back(origin, e) == Set::<nat>::empty() <==> e == Set::<nat>::empty(),
{
    if pulled_back(origin, e).subset_of(pulled_back(origin, f)) {
        assert forall|v: nat| e.contains(v) implies f.contains(v) by {
            let i = choose|i: int| 0 <= i < origin.len() && origin[i] == v;
            assert(pulled_back(origin, e).contains(i as nat));
        }
    }
    if pulled_back(origin, e) == Set::<nat>::empty() {
        assert forall|v: nat| !e.contains(v) by {
            if e.contains(v) {
                let i = choose|i: int| 0 <= i < origin.len() && origin[i] == v;
                assert(pulled_back(origin, e).contains(i as nat));
            }
        }
        assert(e =~= Set::<nat>::empty());
    }
    if e == Set::<nat>::empty() {
        assert(pulled_back(origin, e) =~= Set::<nat>::empty());
    }
}

/// A hypergraph whose vertices all have labels is a piece of itself.
pub proof fn lemma_piece_of_itself(edges: Seq<Set<nat>>, nodes: Seq<usize>)
    requires
        crate::hypergraph::edges_within(edges, nodes.len()),
    ensures
        is_piece(edges, nodes, identity(nodes.len()), Seq::new(edges.len(), |k: int| k), edges, nodes),
{
    let origin = identity(nodes.len());
    let src = Seq::new(edges.len(), |k: int| k);
    assert forall|k: int| 0 <= k < edges.len() implies {
        &&& 0 <= #[trigger] src[k] < edges.len()
        &&& edges[k] == pulled_back(origin, edges[src[k]])
        &&& reaches(origin, edges[src[k]])
    } by {
        assert forall|v: nat| edges[k].contains(v) implies exists|i: int|
            0 <= i < origin.len() && origin[i] == v by {
            assert(origin[v as int] == v);
        }
        assert(edges[k] =~= pulled_back(origin, edges[k]));
    }
}

/// The origin of each new vertex, where new vertex `i` is old vertex `map[i]`.
pub open spec fn composed(origin: Seq<nat>, map: Seq<usize>) -> Seq<nat> {
    Seq::new(map.len(), |i: int| origin[map[i] as int])
}

/// The origins of vertices that are numbered as they came in.
pub open spec fn identity(n: nat) -> Seq<nat> {
    Seq::new(n, |i: int| i as nat)
}

/// Whether `map` renumbers the vertices of `old` into `new`: new vertex `i`
/// is old vertex `map[i]`, no old vertex is taken twice, and the vertices
/// taken are exactly those that the old edges use.
pub open spec fn is_relabelling(map: Seq<usize>, old: Seq<Set<nat>>, new: Seq<Set<nat>>) -> bool {
    &&& forall|i: int, j: int| 0 <= i < j < map.len() ==> map[i] != map[j]
    &&& new.len() == old.len()
    &&& forall|e: int| 0 <= e < old.len() ==> #[trigger] new[e] == remapped(old[e], map)
    &&& forall|e: int, v: nat|
        0 <= e < old.len() && #[trigger] old[e].contains(v) ==> exists|i: int|
            0 <= i < map.len() && map[i] == v
    &&& forall|i: int| 0 <= i < map.len() ==> used_vertices(old).contains(#[trigger] map[i] as nat)
}

/// A renumbered hypergraph uses exactly the vertices `0 .. map.len()`.
pub proof fn lemma_relabelling_flat(map: Seq<usize>, old: Seq<Set<nat>>, new: Seq<Set<nat>>)
    requires
        is_relabelling(map, old, new),
    ensures
        is_flat(new, map.len()),
{
    assert forall|v: nat| v < map.len() <==> used_vertices(new).contains(v) by {
        if v < map.len() {
            let w = map[v as int] as nat;
            assert(used_vertices(old).contains(w));
            let e = choose|e: int| 0 <= e < old.len() && #[trigger] old[e].contains(w);
            assert(new[e].contains(v));
        }
        if used_vertices(new).contains(v) {
            let e = choose|e: int| 0 <= e < new.len() && #[trigger] new[e].contains(v);
            assert(new[e] == remapped(old[e], map));
        }
    }
}

/// Renumbering keeps edges non-empty and keeps them from lying inside one
/// another.
pub proof fn lemma_relabelling_reduced(map: Seq<usize>, old: Seq<Set<nat>>, new: Seq<Set<nat>>)
    requires
        is_relabelling(map, old, new),
        is_reduced(old),
    ensures
        is_reduced(new),
{
    assert forall|e: int| 0 <= e < new.len() implies #[trigger] new[e] != Set::<nat>::empty() by {
        assert(old[e] != Set::<nat>::empty());
        if forall|v: nat| !old[e].contains(v) {
            assert(old[e] =~= Set::<nat>::empty());
        }
        let v = choose|v: nat| old[e].contains(v);
        let i = choose|i: int| 0 <= i < map.len() && map[i] == v;
        assert(new[e] == remapped(old[e], map));
        assert(new[e].contains(i as nat));
    }
    assert forall|e: int, f: int|
        0 <= e < new.len() && 0 <= f < new.len() && e != f implies !(#[trigger] new[e]).subset_of(
        #[trigger] new[f],
    ) by {
        assert(!old[e].subset_of(old[f]));
        let v = choose|v: nat| old[e].contains(v) && !old[f].contains(v);
        let i = choose|i: int| 0 <= i < map.len() && map[i] == v;
        assert(new[e] == remapped(old[e], map));
        assert(new[f] == remapped(old[f], map));
        assert(new[e].contains(i as nat));
        assert(!new[f].contains(i as nat));
    }
}

/// Renumbering keeps a hypergraph connected.
pub proof fn lemma_relabelling_connected(map: Seq<usize>, old: Seq<Set<nat>>, new: Seq<Set<nat>>)
    requires
        is_relabelling(map, old, new),
        is_connected(old),
    ensures
        is_connected(new),
{
    assert forall|s: Set<nat>, v: nat, w: nat|
        #[trigger] is_closed(new, s) && used_vertices(new).contains(v) && #[trigger] s.contains(v)
            && #[trigger] used_vertices(new).contains(w) implies s.contains(w) by {
        lemma_relabelling_flat(map, old, new);
        let t = Set::new(|x: nat| exists|i: int| 0 <= i < map.len() && map[i] == x && s.contains(i as nat));
        assert forall|e: int, x: nat, y: nat|
            0 <= e < old.len() && #[trigger] old[e].contains(x) && #[trigger] old[e].contains(y)
                && t.contains(x) implies t.contains(y) by {
            let i = choose|i: int| 0 <= i < map.len() && map[i] == x && s.contains(i as nat);
            let j = choose|j: int| 0 <= j < map.len() && map[j] == y;
            assert(new[e] == remapped(old[e], map));
            assert(new[e].contains(i as nat));
            assert(new[e].contains(j as nat));
            assert(s.contains(j as nat));
        }
        assert(is_closed(old, t));
        let x = map[v as int] as nat;
        let y = map[w as int] as nat;
        assert(t.contains(x));
        assert(used_vertices(old).contains(x));
        assert(used_vertices(old).contains(y));
        assert(t.contains(y));
        let j = choose|j: int| 0 <= j < map.len() && map[j] == y && s.contains(j as nat);
        assert(j == w);
    }
}

/// A renumbered piece is a piece still, under the composed origins.
pub proof fn lemma_relabelling_piece(
    map: Seq<usize>,
    old: Seq<Set<nat>>,
    old_nodes: Seq<usize>,
    new: Seq<Set<nat>>,
    new_nodes: Seq<usize>,
    origin: Seq<nat>,
    src: Seq<int>,
    edges: Seq<Set<nat>>,
    nodes: Seq<usize>,
)
    requires
        is_piece(old, old_nodes, origin, src, edges, nodes),
        is_relabelling(map, old, new),
        new_nodes.len() == map.len(),
        forall|i: int|
            0 <= i < map.len() ==> (#[trigger] map[i]) < old_nodes.len() && new_nodes[i]
                == old_nodes[map[i] as int],
    ensures
        is_piece(new, new_nodes, composed(origin, map), src, edges, nodes),
{
    let o = composed(origin, map);
    assert forall|k: int| 0 <= k < new.len() implies {
        &&& 0 <= #[trigger] src[k] < edges.len()
        &&& new[k] == pulled_back(o, edges[src[k]])
        &&& reaches(o, edges[src[k]])
    } by {
        let big = edges[src[k]];
        assert(old[k] == pulled_back(origin, big));
        assert(new[k] == remapped(old[k], map));
        assert(new[k] =~= pulled_back(o, big));
        assert forall|v: nat| big.contains(v) implies exists|i: int|
            0 <= i < o.len() && o[i] == v by {
            let j = choose|j: int| 0 <= j < origin.len() && origin[j] == v;
            assert(old[k].contains(j as nat));
            let i = choose|i: int| 0 <= i < map.len() && map[i] == j;
            assert(o[i] == v);
        }
    }
}

/// The edges of `edges` in the order `edge_map`.
pub open spec fn reordered(edges: Seq<Set<nat>>, edge_map: Seq<usize>) -> Seq<Set<nat>> {
    Seq::new(edge_map.len(), |k: int| edges[edge_map[k] as int])
}

/// Putting the edges into another order changes nothing about the
/// hypergraph that they make.
pub proof fn lemma_reordered_edges(edges: Seq<Set<nat>>, edge_map: Seq<usize>, n: nat)
    requires
        is_permutation(edge_map),
        edge_map.len() == edges.len(),
    ensures
        used_vertices(reordered(edges, edge_map)) == used_vertices(edges),
        is_flat(edges, n) ==> is_flat(reordered(edges, edge_map), n),
        is_reduced(edges) ==> is_reduced(reordered(edges, edge_map)),
        is_connected(edges) ==> is_connected(reordered(edges, edge_map)),
{
    let new = reordered(edges, edge_map);
    assert forall|v: nat| used_vertices(new).contains(v) == used_vertices(edges).contains(v) by {
        if used_vertices(new).contains(v) {
            let k = choose|k: int| 0 <= k < new.len() && #[trigger] new[k].contains(v);
            assert(edges[edge_map[k] as int].contains(v));
        }
        if used_vertices(edges).contains(v) {
            let e = choose|e: int| 0 <= e < edges.len() && #[trigger] edges[e].contains(v);
            lemma_permutation_onto(edge_map, e);
            let k = choose|k: int| 0 <= k < edge_map.len() && edge_map[k] == e;
            assert(new[k].contains(v));
        }
    }
    assert(used_vertices(new) =~= used_vertices(edges));
    if is_reduced(edges) {
        assert forall|e: int, f: int|
            0 <= e < new.len() && 0 <= f < new.len() && e != f implies !(#[trigger] new[e]).subset_of(
            #[trigger] new[f],
        ) by {
            assert(edge_map[e] != edge_map[f]);
            assert(!edges[edge_map[e] as int].subset_of(edges[edge_map[f] as int]));
        }
        assert forall|e: int| 0 <= e < new.len() implies #[trigger] new[e] != Set::<nat>::empty() by {
            assert(edges[edge_map[e] as int] != Set::<nat>::empty());
        }
    }
    if is_connected(edges) {
        assert forall|s: Set<nat>, v: nat, w: nat|
            #[trigger] is_closed(new, s) && used_vertices(new).contains(v) && #[trigger] s.contains(
                v,
            ) && #[trigger] used_vertices(new).contains(w) implies s.contains(w) by {
            assert forall|e: int, x: nat, y: nat|
                0 <= e < edges.len() && #[trigger] edges[e].contains(x) && #[trigger] edges[e].contains(
                    y,
                ) && s.contains(x) implies s.contains(y) by {
                lemma_permutation_onto(edge_map, e);
                let k = choose|k: int| 0 <= k < edge_map.len() && edge_map[k] == e;
                assert(new[k].contains(x) && new[k].contains(y));
            }
            assert(is_closed(edges, s));
        }
    }
}

/// A hypergraph whose edges are put into another order and whose vertices
/// are renumbered by a permutation keeps its shape, and stays the piece it
/// was.
pub proof fn lemma_reordered_piece(
    new: Seq<Set<nat>>,
    new_nodes: Seq<usize>,
    cur: Seq<Set<nat>>,
    cur_nodes: Seq<usize>,
    node_map: Seq<usize>,
    edge_map: Seq<usize>,
    origin: Seq<nat>,
    src: Seq<int>,
    edges: Seq<Set<nat>>,
    nodes: Seq<usize>,
)
    requires
        is_permutation(node_map),
        node_map.len() == cur_nodes.len(),
        is_permutation(edge_map),
        edge_map.len() == cur.len(),
        new_nodes.len() == node_map.len(),
        forall|i: int| 0 <= i < node_map.len() ==> #[trigger] new_nodes[i] == cur_nodes[node_map[i] as int],
        new.len() == edge_map.len(),
        forall|k: int|
            0 <= k < edge_map.len() ==> #[trigger] new[k] == remapped(cur[edge_map[k] as int], node_map),
        is_flat(cur, cur_nodes.len()),
        is_reduced(cur),
        is_connected(cur),
        is_piece(cur, cur_nodes, origin, src, edges, nodes),
    ensures
        is_flat(new, new_nodes.len()),
        is_reduced(new),
        is_connected(new),
        is_piece(
            new,
            new_nodes,
            composed(origin, node_map),
            Seq::new(edge_map.len(), |k: int| src[edge_map[k] as int]),
            edges,
            nodes,
        ),
{
    let mid = reordered(cur, edge_map);
    let mid_src = Seq::new(edge_map.len(), |k: int| src[edge_map[k] as int]);
    lemma_reordered_edges(cur, edge_map, cur_nodes.len());
    assert(is_relabelling(node_map, mid, new)) by {
        assert forall|e: int, v: nat| 0 <= e < mid.len() && #[trigger] mid[e].contains(v) implies exists|
            i: int,
        | 0 <= i < node_map.len() && node_map[i] == v by {
            assert(used_vertices(mid).contains(v));
            lemma_permutation_onto(node_map, v as int);
        }
        assert forall|i: int| 0 <= i < node_map.len() implies used_vertices(mid).contains(
            #[trigger] node_map[i] as nat,
        ) by {}
        assert forall|e: int| 0 <= e < mid.len() implies #[trigger] new[e] == remapped(mid[e], node_map) by {}
    }
    lemma_relabelling_flat(node_map, mid, new);
    lemma_relabelling_reduced(node_map, mid, new);
    lemma_relabelling_connected(node_map, mid, new);
    assert(is_piece(mid, cur_nodes, origin, mid_src, edges, nodes)) by {
        assert forall|k: int| 0 <= k < mid.len() implies {
            &&& 0 <= #[trigger] mid_src[k] < edges.len()
            &&& mid[k] == pulled_back(origin, edges[mid_src[k]])
            &&& reaches(origin, edges[mid_src[k]])
        } by {
            let e = edge_map[k] as int;
            assert(0 <= src[e] < edges.len());
        }
    }
    lemma_relabelling_piece(node_map, mid, cur_nodes, new, new_nodes, origin, mid_src, edges, nodes);
}

/// A piece of a piece is a piece of the whole.
pub proof fn lemma_piece_of_piece(
    a: Seq<Set<nat>>,
    a_nodes: Seq<usize>,
    o1: Seq<nat>,
    s1: Seq<int>,
    b: Seq<Set<nat>>,
    b_nodes: Seq<usize>,
    o2: Seq<nat>,
    s2: Seq<int>,
    c: Seq<Set<nat>>,
    c_nodes: Seq<usize>,
)
    requires
        is_piece(a, a_nodes, o1, s1, b, b_nodes),
        is_piece(b, b_nodes, o2, s2, c, c_nodes),
    ensures
        is_piece(
            a,
            a_nodes,
            Seq::new(o1.len(), |i: int| o2[o1[i] as int]),
            Seq::new(s1.len(), |k: int| s2[s1[k]]),
            c,
            c_nodes,
        ),
{
    let o = Seq::new(o1.len(), |i: int| o2[o1[i] as int]);
    let s = Seq::new(s1.len(), |k: int| s2[s1[k]]);
    assert forall|i: int| 0 <= i < o.len() implies (#[trigger] o[i]) < c_nodes.len() && a_nodes[i]
        == c_nodes[o[i] as int] by {
        assert(o1[i] < b_nodes.len());
        assert(o2[o1[i] as int] < c_nodes.len());
    }
    assert forall|i: int, j: int| 0 <= i < j < o.len() implies o[i] != o[j] by {
        assert(o1[i] != o1[j]);
        assert(o1[i] < b_nodes.len() && o1[j] < b_nodes.len());
        if o1[i] < o1[j] {
            assert(o2[o1[i] as int] != o2[o1[j] as int]);
        } else {
            assert(o2[o1[j] as int] != o2[o1[i] as int]);
        }
    }
    assert forall|k: int| 0 <= k < a.len() implies {
        &&& 0 <= #[trigger] s[k] < c.len()
        &&& a[k] == pulled_back(o, c[s[k]])
        &&& reaches(o, c[s[k]])
    } by {
        let mid = s1[k];
        assert(0 <= mid < b.len());
        assert(0 <= s2[mid] < c.len());
        let big = c[s2[mid]];
        assert(a[k] == pulled_back(o1, b[mid]));
        assert(b[mid] == pulled_back(o2, big));
        assert forall|i: nat| a[k].contains(i) == pulled_back(o, big).contains(i) by {
            if i < o1.len() {
                assert(o1[i as int] < b_nodes.len());
            }
        }
        assert(a[k] =~= pulled_back(o, big));
        assert forall|v: nat| big.contains(v) implies exists|i: int| 0 <= i < o.len() && o[i] == v by {
            let j = choose|j: int| 0 <= j < o2.len() && o2[j] == v;
            assert(b[mid].contains(j as nat));
            let i = choose|i: int| 0 <= i < o1.len() && o1[i] == j as nat;
            assert(o[i] == v);
        }
    }
}

} // verus!
