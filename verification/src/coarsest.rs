//! Why the structural classes are the coarsest ones: whatever colours the
//! vertices and the edges so that entries of one colour see the same
//! colours equally often, gives entries of one colour one class.

use vstd::prelude::*;
use vstd::set_lib::{
    lemma_int_range, lemma_map_size, lemma_set_disjoint_lens, lemma_set_empty_equivalency_len,
    lemma_set_subset_finite, set_int_range,
};
use crate::bitset::remapped;
use crate::canon::{edges_coloured, lemma_colour_block, lemma_counts_fix_key, lemma_node_key_counts};
use crate::classes::{coloured, edges_at, lemma_key_counts, places_of};
use crate::hypergraph::{is_dual, is_edge_listing, is_partition};
use crate::order::{is_permutation, is_sorted_keys, lemma_permutation_onto};
use crate::sorter::{colours_of, is_edge_key, is_key};
use crate::stable::{is_colouring, refines, separates, views_of};
use crate::symmetry::same_block;

verus! {

/// The members of `x` with the colour `c`.
pub open spec fn class_of<A>(x: Set<A>, colour: spec_fn(A) -> int, c: int) -> Set<A> {
    Set::new(|a: A| x.contains(a) && colour(a) == c)
}

/// The members of `x` with the coarse colour `d` and a fine colour below
/// `t`.
pub open spec fn part_below<A>(
    x: Set<A>,
    fine: spec_fn(A) -> int,
    coarse: spec_fn(A) -> int,
    d: int,
    t: int,
) -> Set<A> {
    Set::new(|a: A| x.contains(a) && coarse(a) == d && fine(a) < t)
}

proof fn lemma_coarser_below<A>(
    x: Set<A>,
    y: Set<A>,
    fine: spec_fn(A) -> int,
    coarse: spec_fn(A) -> int,
    d: int,
    t: int,
)
    requires
        x.finite(),
        y.finite(),
        forall|a: A, b: A|
            #![trigger fine(a), fine(b)]
            (x.contains(a) || y.contains(a)) && (x.contains(b) || y.contains(b)) && fine(a) == fine(b)
                ==> coarse(a) == coarse(b),
        forall|a: A| x.contains(a) || y.contains(a) ==> #[trigger] fine(a) >= 0,
        forall|c: int| #[trigger] class_of(x, fine, c).len() == class_of(y, fine, c).len(),
        t >= 0,
    ensures
        part_below(x, fine, coarse, d, t).finite(),
        part_below(y, fine, coarse, d, t).finite(),
        part_below(x, fine, coarse, d, t).len() == part_below(y, fine, coarse, d, t).len(),
    decreases t,
{
    let px = part_below(x, fine, coarse, d, t);
    let py = part_below(y, fine, coarse, d, t);
    assert(px.subset_of(x));
    assert(py.subset_of(y));
    lemma_set_subset_finite(x, px);
    lemma_set_subset_finite(y, py);
    if t == 0 {
        assert(px =~= Set::<A>::empty());
        assert(py =~= Set::<A>::empty());
    } else {
        lemma_coarser_below(x, y, fine, coarse, d, t - 1);
        let px0 = part_below(x, fine, coarse, d, t - 1);
        let py0 = part_below(y, fine, coarse, d, t - 1);
        let cx = class_of(x, fine, t - 1);
        let cy = class_of(y, fine, t - 1);
        assert(cx.subset_of(x));
        assert(cy.subset_of(y));
        lemma_set_subset_finite(x, cx);
        lemma_set_subset_finite(y, cy);
        lemma_set_empty_equivalency_len(cx);
        lemma_set_empty_equivalency_len(cy);
        assert(cx.len() == cy.len());
        if cx.len() == 0 {
            assert(px =~= px0) by {
                assert forall|a: A| px.contains(a) implies px0.contains(a) by {
                    if fine(a) == t - 1 {
                        assert(cx.contains(a));
                    }
                }
            }
            assert(py =~= py0) by {
                assert forall|a: A| py.contains(a) implies py0.contains(a) by {
                    if fine(a) == t - 1 {
                        assert(cy.contains(a));
                    }
                }
            }
        } else {
            let a0 = choose|a: A| cx.contains(a);
            let b0 = choose|b: A| cy.contains(b);
            assert(fine(a0) == fine(b0));
            assert(coarse(a0) == coarse(b0));
            if coarse(a0) == d {
                assert(px =~= px0 + cx) by {
                    assert forall|a: A| cx.contains(a) implies px.contains(a) by {
                        assert(fine(a) == fine(a0));
                    }
                }
                assert(py =~= py0 + cy) by {
                    assert forall|a: A| cy.contains(a) implies py.contains(a) by {
                        assert(fine(a) == fine(b0));
                    }
                }
                assert(px0.disjoint(cx));
                assert(py0.disjoint(cy));
                lemma_set_disjoint_lens(px0, cx);
                lemma_set_disjoint_lens(py0, cy);
            } else {
                assert(px =~= px0) by {
                    assert forall|a: A| px.contains(a) implies px0.contains(a) by {
                        if fine(a) == t - 1 {
                            assert(fine(a) == fine(a0));
                        }
                    }
                }
                assert(py =~= py0) by {
                    assert forall|a: A| py.contains(a) implies py0.contains(a) by {
                        if fine(a) == t - 1 {
                            assert(fine(a) == fine(b0));
                        }
                    }
                }
            }
        }
    }
}

/// Two sets that hold each fine colour equally often hold each coarse
/// colour equally often.
pub proof fn lemma_coarser_counts<A>(
    x: Set<A>,
    y: Set<A>,
    fine: spec_fn(A) -> int,
    coarse: spec_fn(A) -> int,
    d: int,
    top: int,
)
    requires
        x.finite(),
        y.finite(),
        forall|a: A, b: A|
            #![trigger fine(a), fine(b)]
            (x.contains(a) || y.contains(a)) && (x.contains(b) || y.contains(b)) && fine(a) == fine(b)
                ==> coarse(a) == coarse(b),
        forall|a: A| x.contains(a) || y.contains(a) ==> 0 <= #[trigger] fine(a) < top,
        forall|c: int| #[trigger] class_of(x, fine, c).len() == class_of(y, fine, c).len(),
    ensures
        class_of(x, coarse, d).len() == class_of(y, coarse, d).len(),
{
    if top >= 0 {
        lemma_coarser_below(x, y, fine, coarse, d, top);
        assert(class_of(x, coarse, d) =~= part_below(x, fine, coarse, d, top));
        assert(class_of(y, coarse, d) =~= part_below(y, fine, coarse, d, top));
    } else {
        assert(class_of(x, coarse, d) =~= Set::<A>::empty()) by {
            assert forall|a: A| !x.contains(a) by {
                if x.contains(a) {
                    assert(0 <= fine(a) < top);
                }
            }
        }
        assert(class_of(y, coarse, d) =~= Set::<A>::empty()) by {
            assert forall|a: A| !y.contains(a) by {
                if y.contains(a) {
                    assert(0 <= fine(a) < top);
                }
            }
        }
    }
}

/// The colour that the list gives a vertex.
pub open spec fn vertex_colour(colour: Seq<usize>) -> spec_fn(nat) -> int {
    |v: nat| colour[v as int] as int
}

/// The colour that the list gives an edge.
pub open spec fn edge_colour(colour: Seq<usize>) -> spec_fn(int) -> int {
    |e: int| colour[e] as int
}

/// Whether the colours are balanced: edges of one colour hold equally many
/// vertices of each colour, and vertices of one colour lie in equally many
/// edges of each colour.
pub open spec fn balanced(edges: Seq<Set<nat>>, n: nat, node_colour: Seq<usize>, edge_colour: Seq<usize>) -> bool {
    &&& node_colour.len() == n
    &&& edge_colour.len() == edges.len()
    &&& forall|k: int, l: int, c: int|
        #![trigger coloured(edges[k], node_colour, c), coloured(edges[l], node_colour, c)]
        0 <= k < edges.len() && 0 <= l < edges.len() && edge_colour[k] == edge_colour[l] ==> coloured(
            edges[k],
            node_colour,
            c,
        ).len() == coloured(edges[l], node_colour, c).len()
    &&& forall|i: int, j: int, c: int|
        #![trigger edges_coloured(edges, i as nat, edge_colour, c), edges_coloured(edges, j as nat, edge_colour, c)]
        0 <= i < n && 0 <= j < n && node_colour[i] == node_colour[j] ==> edges_coloured(
            edges,
            i as nat,
            edge_colour,
            c,
        ).len() == edges_coloured(edges, j as nat, edge_colour, c).len()
}

/// Whether every balanced colouring is finer than the two colourings.
pub open spec fn coarsest(edges: Seq<Set<nat>>, n: nat, node_colour: Seq<usize>, edge_colour: Seq<usize>) -> bool {
    forall|qn: Seq<usize>, qe: Seq<usize>| #[trigger]
        balanced(edges, n, qn, qe) ==> refines(qn, node_colour) && refines(qe, edge_colour)
}

/// Whether the blocks are the coarsest balanced ones: whatever balanced
/// colours the vertices and the edges are given, vertices of one colour lie
/// in one block, and so do edges of one colour.
pub open spec fn coarsest_blocks(
    edges: Seq<Set<nat>>,
    n: nat,
    node_parts: Seq<usize>,
    edge_parts: Seq<usize>,
) -> bool {
    forall|qn: Seq<usize>, qe: Seq<usize>| #[trigger]
        balanced(edges, n, qn, qe) ==> {
            &&& forall|i: int, j: int|
                #![trigger qn[i], qn[j]]
                0 <= i < n && 0 <= j < n && qn[i] == qn[j] ==> same_block(node_parts, i, j)
            &&& forall|k: int, l: int|
                #![trigger qe[k], qe[l]]
                0 <= k < edges.len() && 0 <= l < edges.len() && qe[k] == qe[l] ==> same_block(edge_parts, k, l)
        }
}

/// A set of numbers below `n` is finite.
pub proof fn lemma_below_finite(s: Set<nat>, n: nat)
    requires
        forall|v: nat| s.contains(v) ==> v < n,
    ensures
        s.finite(),
{
    let all = Set::new(|i: nat| i < n);
    let ints = set_int_range(0, n as int);
    lemma_int_range(0, n as int);
    let h = |i: int| i as nat;
    assert(ints.map(h) =~= all) by {
        assert forall|i: nat| all.contains(i) implies ints.map(h).contains(i) by {
            assert(ints.contains(i as int) && h(i as int) == i);
        }
    }
    vstd::set_lib::lemma_map_size_bound(ints, all, h);
    assert(s.subset_of(all));
    lemma_set_subset_finite(all, s);
}

/// The edges at a vertex are finite in number.
pub proof fn lemma_edges_at_finite(edges: Seq<Set<nat>>, v: nat)
    ensures
        edges_at(edges, v).finite(),
{
    lemma_int_range(0, edges.len() as int);
    assert(edges_at(edges, v).subset_of(set_int_range(0, edges.len() as int)));
    lemma_set_subset_finite(set_int_range(0, edges.len() as int), edges_at(edges, v));
}

/// Two edges that hold each fine colour of vertices equally often hold
/// each coarse colour equally often.
pub proof fn lemma_coarser_vertex_counts(
    x: Set<nat>,
    y: Set<nat>,
    fine: Seq<usize>,
    coarse: Seq<usize>,
    d: int,
)
    requires
        refines(fine, coarse),
        forall|v: nat| x.contains(v) || y.contains(v) ==> v < fine.len(),
        forall|c: int| #[trigger] coloured(x, fine, c).len() == coloured(y, fine, c).len(),
    ensures
        coloured(x, coarse, d).len() == coloured(y, coarse, d).len(),
{
    let f = vertex_colour(fine);
    let g = vertex_colour(coarse);
    lemma_below_finite(x, fine.len());
    lemma_below_finite(y, fine.len());
    assert forall|c: int| #[trigger] class_of(x, f, c).len() == class_of(y, f, c).len() by {
        assert(class_of(x, f, c) =~= coloured(x, fine, c));
        assert(class_of(y, f, c) =~= coloured(y, fine, c));
    }
    assert forall|a: nat, b: nat|
        #![trigger f(a), f(b)]
        (x.contains(a) || y.contains(a)) && (x.contains(b) || y.contains(b)) && f(a) == f(b) implies g(a) == g(
        b,
    ) by {
        assert(fine[a as int] == fine[b as int]);
    }
    lemma_coarser_counts(x, y, f, g, d, usize::MAX as int + 1);
    assert(class_of(x, g, d) =~= coloured(x, coarse, d));
    assert(class_of(y, g, d) =~= coloured(y, coarse, d));
}

/// Two vertices that lie in edges of each fine colour equally often lie
/// in edges of each coarse colour equally often.
pub proof fn lemma_coarser_edge_counts(
    edges: Seq<Set<nat>>,
    v: nat,
    w: nat,
    fine: Seq<usize>,
    coarse: Seq<usize>,
    d: int,
)
    requires
        refines(fine, coarse),
        fine.len() == edges.len(),
        forall|c: int| #[trigger] edges_coloured(edges, v, fine, c).len() == edges_coloured(edges, w, fine, c).len(),
    ensures
        edges_coloured(edges, v, coarse, d).len() == edges_coloured(edges, w, coarse, d).len(),
{
    let f = edge_colour(fine);
    let g = edge_colour(coarse);
    let x = edges_at(edges, v);
    let y = edges_at(edges, w);
    lemma_edges_at_finite(edges, v);
    lemma_edges_at_finite(edges, w);
    assert forall|c: int| #[trigger] class_of(x, f, c).len() == class_of(y, f, c).len() by {
        assert(class_of(x, f, c) =~= edges_coloured(edges, v, fine, c));
        assert(class_of(y, f, c) =~= edges_coloured(edges, w, fine, c));
    }
    assert forall|a: int, b: int|
        #![trigger f(a), f(b)]
        (x.contains(a) || y.contains(a)) && (x.contains(b) || y.contains(b)) && f(a) == f(b) implies g(a) == g(
        b,
    ) by {
        assert(fine[a] == fine[b]);
    }
    lemma_coarser_counts(x, y, f, g, d, usize::MAX as int + 1);
    assert(class_of(x, g, d) =~= edges_coloured(edges, v, coarse, d));
    assert(class_of(y, g, d) =~= edges_coloured(edges, w, coarse, d));
}

/// Two vertices with one colour of a balanced colouring get the same key.
proof fn lemma_node_pair_coarsest(
    edges: Seq<Set<nat>>,
    n: nat,
    dual: Seq<Vec<usize>>,
    keys: Seq<Vec<usize>>,
    edge_col: Seq<usize>,
    qn: Seq<usize>,
    qe: Seq<usize>,
    x: int,
    y: int,
)
    requires
        is_dual(dual, edges, n),
        keys.len() == n,
        edge_col.len() == edges.len(),
        forall|v: int| 0 <= v < n ==> is_key(#[trigger] keys[v]@, dual[v]@, edge_col),
        balanced(edges, n, qn, qe),
        refines(qe, edge_col),
        0 <= x < n,
        0 <= y < n,
        qn[x] == qn[y],
    ensures
        keys[x]@ == keys[y]@,
{
    let kx = keys[x]@;
    let ky = keys[y]@;
    assert(is_edge_listing(dual[x]@, edges, x as nat));
    assert(is_edge_listing(dual[y]@, edges, y as nat));
    assert forall|c: int| #[trigger] edges_coloured(edges, x as nat, qe, c).len() == edges_coloured(
        edges,
        y as nat,
        qe,
        c,
    ).len() by {
        let a = edges_coloured(edges, x as nat, qe, c);
        let b = edges_coloured(edges, y as nat, qe, c);
    }
    assert forall|d: usize| places_of(kx, d as int).len() == #[trigger] places_of(ky, d as int).len() by {
        lemma_coarser_edge_counts(edges, x as nat, y as nat, qe, edge_col, d as int);
        lemma_node_key_counts(kx, dual[x]@, edges, x as nat, edge_col, d as int);
        lemma_node_key_counts(ky, dual[y]@, edges, y as nat, edge_col, d as int);
    }
    let px = choose|p: Seq<int>| #[trigger] is_sorted_keys(kx, colours_of(dual[x]@, edge_col), p);
    let py = choose|p: Seq<int>| #[trigger] is_sorted_keys(ky, colours_of(dual[y]@, edge_col), p);
    lemma_counts_fix_key(kx, ky);
}

/// Two edges with one colour of a balanced colouring get the same key.
proof fn lemma_edge_pair_coarsest(
    edges: Seq<Set<nat>>,
    n: nat,
    keys: Seq<Vec<usize>>,
    node_col: Seq<usize>,
    qn: Seq<usize>,
    qe: Seq<usize>,
    x: int,
    y: int,
)
    requires
        forall|e: int, v: nat| 0 <= e < edges.len() && #[trigger] edges[e].contains(v) ==> v < n,
        keys.len() == edges.len(),
        node_col.len() == n,
        forall|e: int| 0 <= e < edges.len() ==> is_edge_key(#[trigger] keys[e]@, edges[e], node_col),
        balanced(edges, n, qn, qe),
        refines(qn, node_col),
        0 <= x < edges.len(),
        0 <= y < edges.len(),
        qe[x] == qe[y],
    ensures
        keys[x]@ == keys[y]@,
{
    let kx = keys[x]@;
    let ky = keys[y]@;
    assert forall|c: int| #[trigger] coloured(edges[x], qn, c).len() == coloured(edges[y], qn, c).len() by {
        let a = coloured(edges[x], qn, c);
        let b = coloured(edges[y], qn, c);
    }
    assert forall|d: usize| places_of(kx, d as int).len() == #[trigger] places_of(ky, d as int).len() by {
        lemma_coarser_vertex_counts(edges[x], edges[y], qn, node_col, d as int);
        lemma_key_counts(kx, edges[x], node_col, d as int);
        lemma_key_counts(ky, edges[y], node_col, d as int);
    }
    let mx = choose|members: Seq<usize>|
        #[trigger] crate::bitset::is_listing(members, edges[x]) && is_key(kx, members, node_col);
    let my = choose|members: Seq<usize>|
        #[trigger] crate::bitset::is_listing(members, edges[y]) && is_key(ky, members, node_col);
    let px = choose|p: Seq<int>| #[trigger] is_sorted_keys(kx, colours_of(mx, node_col), p);
    let py = choose|p: Seq<int>| #[trigger] is_sorted_keys(ky, colours_of(my, node_col), p);
    lemma_counts_fix_key(kx, ky);
}

/// Refining the vertices by their keys keeps the colourings coarsest.
pub proof fn lemma_nodes_stay_coarsest(
    edges: Seq<Set<nat>>,
    n: nat,
    dual: Seq<Vec<usize>>,
    keys: Seq<Vec<usize>>,
    node_before: Seq<usize>,
    node_after: Seq<usize>,
    edge_col: Seq<usize>,
)
    requires
        is_dual(dual, edges, n),
        keys.len() == n,
        edge_col.len() == edges.len(),
        node_after.len() == n,
        forall|v: int| 0 <= v < n ==> is_key(#[trigger] keys[v]@, dual[v]@, edge_col),
        separates(node_after, views_of(keys)),
        coarsest(edges, n, node_before, edge_col),
    ensures
        coarsest(edges, n, node_after, edge_col),
{
    let kv = views_of(keys);
    assert forall|qn: Seq<usize>, qe: Seq<usize>| #[trigger] balanced(edges, n, qn, qe) implies refines(
        qn,
        node_after,
    ) && refines(qe, edge_col) by {
        assert(refines(qn, node_before) && refines(qe, edge_col));
        assert forall|x: int, y: int|
            #![trigger qn[x], qn[y]]
            0 <= x < qn.len() && 0 <= y < qn.len() && qn[x] == qn[y] implies node_after[x] == node_after[y] by {
            lemma_node_pair_coarsest(edges, n, dual, keys, edge_col, qn, qe, x, y);
            assert(kv[x] == kv[y]);
        }
    }
}

/// Refining the edges by their keys keeps the colourings coarsest.
pub proof fn lemma_edges_stay_coarsest(
    edges: Seq<Set<nat>>,
    n: nat,
    keys: Seq<Vec<usize>>,
    node_col: Seq<usize>,
    edge_before: Seq<usize>,
    edge_after: Seq<usize>,
)
    requires
        forall|e: int, v: nat| 0 <= e < edges.len() && #[trigger] edges[e].contains(v) ==> v < n,
        keys.len() == edges.len(),
        node_col.len() == n,
        edge_after.len() == edges.len(),
        forall|e: int| 0 <= e < edges.len() ==> is_edge_key(#[trigger] keys[e]@, edges[e], node_col),
        separates(edge_after, views_of(keys)),
        coarsest(edges, n, node_col, edge_before),
    ensures
        coarsest(edges, n, node_col, edge_after),
{
    let kv = views_of(keys);
    assert forall|qn: Seq<usize>, qe: Seq<usize>| #[trigger] balanced(edges, n, qn, qe) implies refines(
        qn,
        node_col,
    ) && refines(qe, edge_after) by {
        assert(refines(qn, node_col) && refines(qe, edge_before));
        assert forall|x: int, y: int|
            #![trigger qe[x], qe[y]]
            0 <= x < qe.len() && 0 <= y < qe.len() && qe[x] == qe[y] implies edge_after[x] == edge_after[y] by {
            lemma_edge_pair_coarsest(edges, n, keys, node_col, qn, qe, x, y);
            assert(kv[x] == kv[y]);
        }
    }
}

/// Colourings that give all vertices one colour and all edges one colour
/// are coarsest.
pub proof fn lemma_one_colour_coarsest(edges: Seq<Set<nat>>, n: nat, node_col: Seq<usize>, edge_col: Seq<usize>)
    requires
        node_col.len() == n,
        edge_col.len() == edges.len(),
        forall|x: int, y: int| 0 <= x < n && 0 <= y < n ==> node_col[x] == node_col[y],
        forall|x: int, y: int| 0 <= x < edges.len() && 0 <= y < edges.len() ==> edge_col[x] == edge_col[y],
    ensures
        coarsest(edges, n, node_col, edge_col),
{
}

/// The place at which the order holds the entry `x`.
pub open spec fn place_in(order: Seq<usize>, x: int) -> int {
    choose|i: int| 0 <= i < order.len() && order[i] == x
}

/// The colours of the places, given to the entries that stand there.
pub open spec fn carried(colour: Seq<usize>, order: Seq<usize>) -> Seq<usize> {
    Seq::new(order.len(), |x: int| colour[place_in(order, x)])
}

/// The entry at a place is given the colour of the place.
pub proof fn lemma_carried(colour: Seq<usize>, order: Seq<usize>, i: int)
    requires
        is_permutation(order),
        0 <= i < order.len(),
    ensures
        carried(colour, order)[order[i] as int] == colour[i],
        place_in(order, order[i] as int) == i,
{
    let x = order[i] as int;
    let j = place_in(order, x);
    if j < i {
        assert(order[j] != order[i]);
    } else if i < j {
        assert(order[i] != order[j]);
    }
}

/// A renumbered edge holds as many vertices of each colour as the edge it
/// came from.
pub proof fn lemma_relabel_coloured(
    new: Set<nat>,
    old: Set<nat>,
    node_map: Seq<usize>,
    colour: Seq<usize>,
    c: int,
)
    requires
        is_permutation(node_map),
        colour.len() == node_map.len(),
        new == remapped(old, node_map),
        forall|v: nat| old.contains(v) ==> v < node_map.len(),
    ensures
        coloured(new, colour, c).finite(),
        coloured(new, colour, c).len() == coloured(old, carried(colour, node_map), c).len(),
{
    let x = coloured(new, colour, c);
    let y = coloured(old, carried(colour, node_map), c);
    lemma_below_finite(x, node_map.len());
    let f = |i: nat| node_map[i as int] as nat;
    assert(x.map(f) =~= y) by {
        assert forall|v: nat| y.contains(v) implies x.map(f).contains(v) by {
            lemma_permutation_onto(node_map, v as int);
            let i = choose|i: int| 0 <= i < node_map.len() && node_map[i] == v;
            lemma_carried(colour, node_map, i);
            assert(x.contains(i as nat) && f(i as nat) == v);
        }
        assert forall|v: nat| x.map(f).contains(v) implies y.contains(v) by {
            let i = choose|i: nat| x.contains(i) && f(i) == v;
            lemma_carried(colour, node_map, i as int);
        }
    }
    assert(vstd::relations::injective_on(f, x)) by {
        assert forall|a: nat, b: nat| x.contains(a) && x.contains(b) && #[trigger] f(a) == #[trigger] f(
            b,
        ) implies a == b by {
            if a < b {
                assert(node_map[a as int] != node_map[b as int]);
            } else if b < a {
                assert(node_map[b as int] != node_map[a as int]);
            }
        }
    }
    lemma_map_size(x, y, f);
}

/// A renumbered vertex lies in as many edges of each colour as the vertex
/// it came from.
pub proof fn lemma_relabel_edges_coloured(
    new: Seq<Set<nat>>,
    edges: Seq<Set<nat>>,
    node_map: Seq<usize>,
    edge_map: Seq<usize>,
    colour: Seq<usize>,
    i: int,
    c: int,
)
    requires
        is_permutation(node_map),
        is_permutation(edge_map),
        edges.len() == edge_map.len(),
        new.len() == edges.len(),
        colour.len() == edges.len(),
        forall|k: int| 0 <= k < new.len() ==> #[trigger] new[k] == remapped(edges[edge_map[k] as int], node_map),
        0 <= i < node_map.len(),
    ensures
        edges_coloured(new, i as nat, colour, c).finite(),
        edges_coloured(new, i as nat, colour, c).len() == edges_coloured(
            edges,
            node_map[i] as nat,
            carried(colour, edge_map),
            c,
        ).len(),
{
    let x = edges_coloured(new, i as nat, colour, c);
    let y = edges_coloured(edges, node_map[i] as nat, carried(colour, edge_map), c);
    lemma_int_range(0, new.len() as int);
    assert(x.subset_of(set_int_range(0, new.len() as int)));
    lemma_set_subset_finite(set_int_range(0, new.len() as int), x);
    let f = |k: int| edge_map[k] as int;
    assert(x.map(f) =~= y) by {
        assert forall|e: int| y.contains(e) implies x.map(f).contains(e) by {
            lemma_permutation_onto(edge_map, e);
            let k = choose|k: int| 0 <= k < edge_map.len() && edge_map[k] == e;
            lemma_carried(colour, edge_map, k);
            assert(new[k] == remapped(edges[edge_map[k] as int], node_map));
            assert(x.contains(k) && f(k) == e);
        }
        assert forall|e: int| x.map(f).contains(e) implies y.contains(e) by {
            let k = choose|k: int| x.contains(k) && f(k) == e;
            lemma_carried(colour, edge_map, k);
            assert(new[k] == remapped(edges[edge_map[k] as int], node_map));
        }
    }
    assert(vstd::relations::injective_on(f, x)) by {
        assert forall|a: int, b: int| x.contains(a) && x.contains(b) && #[trigger] f(a) == #[trigger] f(
            b,
        ) implies a == b by {
            if a < b {
                assert(edge_map[a] != edge_map[b]);
            } else if b < a {
                assert(edge_map[b] != edge_map[a]);
            }
        }
    }
    lemma_map_size(x, y, f);
}

/// Colours that are balanced on the renumbered edges are balanced on the
/// edges they came from, carried to them.
pub proof fn lemma_carried_balanced(
    new: Seq<Set<nat>>,
    edges: Seq<Set<nat>>,
    node_map: Seq<usize>,
    edge_map: Seq<usize>,
    qn: Seq<usize>,
    qe: Seq<usize>,
)
    requires
        is_permutation(node_map),
        is_permutation(edge_map),
        edges.len() == edge_map.len(),
        new.len() == edges.len(),
        forall|e: int, v: nat| 0 <= e < edges.len() && #[trigger] edges[e].contains(v) ==> v < node_map.len(),
        forall|k: int| 0 <= k < new.len() ==> #[trigger] new[k] == remapped(edges[edge_map[k] as int], node_map),
        balanced(new, node_map.len(), qn, qe),
    ensures
        balanced(edges, node_map.len(), carried(qn, node_map), carried(qe, edge_map)),
{
    let n = node_map.len();
    let pn = carried(qn, node_map);
    let pe = carried(qe, edge_map);
    assert forall|e: int, f: int, c: int|
        #![trigger coloured(edges[e], pn, c), coloured(edges[f], pn, c)]
        0 <= e < edges.len() && 0 <= f < edges.len() && pe[e] == pe[f] implies coloured(edges[e], pn, c).len()
        == coloured(edges[f], pn, c).len() by {
        lemma_permutation_onto(edge_map, e);
        lemma_permutation_onto(edge_map, f);
        let k = choose|k: int| 0 <= k < edge_map.len() && edge_map[k] == e;
        let l = choose|l: int| 0 <= l < edge_map.len() && edge_map[l] == f;
        lemma_carried(qe, edge_map, k);
        lemma_carried(qe, edge_map, l);
        lemma_relabel_coloured(new[k], edges[e], node_map, qn, c);
        lemma_relabel_coloured(new[l], edges[f], node_map, qn, c);
        assert(coloured(new[k], qn, c).len() == coloured(new[l], qn, c).len());
    }
    assert forall|v: int, w: int, c: int|
        #![trigger edges_coloured(edges, v as nat, pe, c), edges_coloured(edges, w as nat, pe, c)]
        0 <= v < n && 0 <= w < n && pn[v] == pn[w] implies edges_coloured(edges, v as nat, pe, c).len()
        == edges_coloured(edges, w as nat, pe, c).len() by {
        lemma_permutation_onto(node_map, v);
        lemma_permutation_onto(node_map, w);
        let i = choose|i: int| 0 <= i < node_map.len() && node_map[i] == v;
        let j = choose|j: int| 0 <= j < node_map.len() && node_map[j] == w;
        lemma_carried(qn, node_map, i);
        lemma_carried(qn, node_map, j);
        lemma_relabel_edges_coloured(new, edges, node_map, edge_map, qe, i, c);
        lemma_relabel_edges_coloured(new, edges, node_map, edge_map, qe, j, c);
        assert(edges_coloured(new, i as nat, qe, c).len() == edges_coloured(new, j as nat, qe, c).len());
    }
}

/// Coarsest colourings give coarsest blocks once the edges and the
/// vertices are renumbered by an order whose blocks have these colours.
pub proof fn lemma_coarsest_blocks(
    new: Seq<Set<nat>>,
    edges: Seq<Set<nat>>,
    node_parts: Seq<usize>,
    edge_parts: Seq<usize>,
    node_col: Seq<usize>,
    edge_col: Seq<usize>,
    node_map: Seq<usize>,
    edge_map: Seq<usize>,
)
    requires
        node_map.len() >= 1,
        edge_map.len() >= 1,
        is_partition(node_parts, node_map.len()),
        is_partition(edge_parts, edge_map.len()),
        is_permutation(node_map),
        is_permutation(edge_map),
        edges.len() == edge_map.len(),
        new.len() == edges.len(),
        forall|e: int, v: nat| 0 <= e < edges.len() && #[trigger] edges[e].contains(v) ==> v < node_map.len(),
        forall|k: int| 0 <= k < new.len() ==> #[trigger] new[k] == remapped(edges[edge_map[k] as int], node_map),
        is_colouring(node_col, node_map, node_parts),
        is_colouring(edge_col, edge_map, edge_parts),
        coarsest(edges, node_map.len(), node_col, edge_col),
    ensures
        coarsest_blocks(new, node_map.len(), node_parts, edge_parts),
{
    let n = node_map.len();
    assert forall|qn: Seq<usize>, qe: Seq<usize>| #[trigger] balanced(new, n, qn, qe) implies {
        &&& forall|i: int, j: int|
            #![trigger qn[i], qn[j]]
            0 <= i < n && 0 <= j < n && qn[i] == qn[j] ==> same_block(node_parts, i, j)
        &&& forall|k: int, l: int|
            #![trigger qe[k], qe[l]]
            0 <= k < new.len() && 0 <= l < new.len() && qe[k] == qe[l] ==> same_block(edge_parts, k, l)
    } by {
        let pn = carried(qn, node_map);
        let pe = carried(qe, edge_map);
        lemma_carried_balanced(new, edges, node_map, edge_map, qn, qe);
        assert(refines(pn, node_col) && refines(pe, edge_col));
        assert forall|i: int, j: int|
            #![trigger qn[i], qn[j]]
            0 <= i < n && 0 <= j < n && qn[i] == qn[j] implies same_block(node_parts, i, j) by {
            lemma_carried(qn, node_map, i);
            lemma_carried(qn, node_map, j);
            let x = node_map[i] as int;
            let y = node_map[j] as int;
            assert(pn[x] == pn[y]);
            assert(node_col[x] == node_col[y]);
            lemma_colour_block(node_col, node_map, node_parts, i, j);
        }
        assert forall|k: int, l: int|
            #![trigger qe[k], qe[l]]
            0 <= k < new.len() && 0 <= l < new.len() && qe[k] == qe[l] implies same_block(edge_parts, k, l) by {
            lemma_carried(qe, edge_map, k);
            lemma_carried(qe, edge_map, l);
            let x = edge_map[k] as int;
            let y = edge_map[l] as int;
            assert(pe[x] == pe[y]);
            assert(edge_col[x] == edge_col[y]);
            lemma_colour_block(edge_col, edge_map, edge_parts, k, l);
        }
    }
}

/// The places `0 .. n` in their own order.
pub open spec fn in_place(n: nat) -> Seq<usize> {
    Seq::new(n, |i: int| i as usize)
}

/// The blocks of a position in canonical shape colour its vertices and
/// edges in a balanced way.
#[verifier::rlimit(40)]
pub proof fn lemma_blocks_balanced(g: crate::hypergraph::StructuredHypergraph)
    requires
        g.wf(),
        g.nodes@.len() >= 1,
        g.hyperedges@.len() >= 1,
    ensures
        balanced(
            g.edges(),
            g.nodes@.len(),
            crate::stable::colouring_of(in_place(g.nodes@.len()), g.node_structure_partitions@),
            crate::stable::colouring_of(in_place(g.hyperedges@.len()), g.edge_structure_partitions@),
        ),
        is_colouring(
            crate::stable::colouring_of(in_place(g.nodes@.len()), g.node_structure_partitions@),
            in_place(g.nodes@.len()),
            g.node_structure_partitions@,
        ),
        is_colouring(
            crate::stable::colouring_of(in_place(g.hyperedges@.len()), g.edge_structure_partitions@),
            in_place(g.hyperedges@.len()),
            g.edge_structure_partitions@,
        ),
{
    reveal(crate::canon::in_canonical_order);
    let edges = g.edges();
    let n = g.nodes@.len();
    let m = g.hyperedges@.len();
    let np = g.node_structure_partitions@;
    let ep = g.edge_structure_partitions@;
    let qn = crate::stable::colouring_of(in_place(n), np);
    let qe = crate::stable::colouring_of(in_place(m), ep);
    crate::stable::lemma_colouring_of(in_place(n), np);
    crate::stable::lemma_colouring_of(in_place(m), ep);
    assert(crate::util::is_rising(np));
    assert(crate::util::is_rising(ep));
    assert forall|k: int, l: int, c: int|
        #![trigger coloured(edges[k], qn, c), coloured(edges[l], qn, c)]
        0 <= k < m && 0 <= l < m && qe[k] == qe[l] implies coloured(edges[k], qn, c).len() == coloured(
        edges[l],
        qn,
        c,
    ).len() by {
        lemma_colour_block(qe, in_place(m), ep, k, l);
        assert(crate::canon::same_vertex_counts(edges, np, k, l));
        assert forall|v: nat| edges[k].contains(v) || edges[l].contains(v) implies v < n by {
            assert(crate::hypergraph::used_vertices(edges).contains(v));
        }
        if 0 <= c < np.len() - 1 {
            assert(crate::canon::vertices_in(edges, np, k, c) == crate::canon::vertices_in(edges, np, l, c));
            lemma_block_members(edges[k], qn, np, n, c);
            lemma_block_members(edges[l], qn, np, n, c);
        } else {
            lemma_no_members(edges[k], qn, np, n, c);
            lemma_no_members(edges[l], qn, np, n, c);
        }
    }
    assert forall|i: int, j: int, c: int|
        #![trigger edges_coloured(edges, i as nat, qe, c), edges_coloured(edges, j as nat, qe, c)]
        0 <= i < n && 0 <= j < n && qn[i] == qn[j] implies edges_coloured(edges, i as nat, qe, c).len()
        == edges_coloured(edges, j as nat, qe, c).len() by {
        lemma_colour_block(qn, in_place(n), np, i, j);
        assert(crate::canon::same_edge_counts(edges, ep, i, j));
        if 0 <= c < ep.len() - 1 {
            assert(crate::canon::edges_in(edges, ep, i, c) == crate::canon::edges_in(edges, ep, j, c));
            lemma_block_edges(edges, i as nat, qe, ep, c);
            lemma_block_edges(edges, j as nat, qe, ep, c);
        } else {
            lemma_no_edges(edges, i as nat, qe, ep, c);
            lemma_no_edges(edges, j as nat, qe, ep, c);
        }
    }
}

/// The vertices of an edge with the colour of a block are its vertices at
/// the places of the block.
proof fn lemma_block_members(edge: Set<nat>, qn: Seq<usize>, np: Seq<usize>, n: nat, c: int)
    requires
        is_colouring(qn, in_place(n), np),
        crate::util::is_rising(np),
        forall|v: nat| edge.contains(v) ==> v < n,
        0 <= c < np.len() - 1,
    ensures
        coloured(edge, qn, c) == crate::bitset::within(edge, np[c] as int, np[c + 1] as int),
{
    assert forall|v: nat| edge.contains(v) implies (qn[v as int] == c <==> np[c] <= v < np[c + 1]) by {
        crate::canon::lemma_colour_range(qn, in_place(n), np, v as int, c);
    }
    assert(coloured(edge, qn, c) =~= crate::bitset::within(edge, np[c] as int, np[c + 1] as int));
}

/// No vertex of an edge has a colour that is no block.
proof fn lemma_no_members(edge: Set<nat>, qn: Seq<usize>, np: Seq<usize>, n: nat, c: int)
    requires
        is_colouring(qn, in_place(n), np),
        forall|v: nat| edge.contains(v) ==> v < n,
        !(0 <= c < np.len() - 1),
    ensures
        coloured(edge, qn, c) == Set::<nat>::empty(),
{
    assert forall|v: nat| !coloured(edge, qn, c).contains(v) by {
        if edge.contains(v) {
            assert(crate::sorter::in_block(np, qn[in_place(n)[v as int] as int] as int, v as int));
        }
    }
    assert(coloured(edge, qn, c) =~= Set::<nat>::empty());
}

/// The edges at a vertex with the colour of a block are its edges at the
/// places of the block.
proof fn lemma_block_edges(edges: Seq<Set<nat>>, v: nat, qe: Seq<usize>, ep: Seq<usize>, c: int)
    requires
        is_colouring(qe, in_place(edges.len()), ep),
        crate::util::is_rising(ep),
        0 <= c < ep.len() - 1,
    ensures
        edges_coloured(edges, v, qe, c) == crate::canon::edges_between(edges, v, ep[c] as int, ep[c + 1] as int),
{
    assert forall|e: int| 0 <= e < edges.len() implies (qe[e] == c <==> ep[c] <= e < ep[c + 1]) by {
        crate::canon::lemma_colour_range(qe, in_place(edges.len()), ep, e, c);
    }
    assert(edges_coloured(edges, v, qe, c) =~= crate::canon::edges_between(
        edges,
        v,
        ep[c] as int,
        ep[c + 1] as int,
    ));
}

/// No edge has a colour that is no block.
proof fn lemma_no_edges(edges: Seq<Set<nat>>, v: nat, qe: Seq<usize>, ep: Seq<usize>, c: int)
    requires
        is_colouring(qe, in_place(edges.len()), ep),
        !(0 <= c < ep.len() - 1),
    ensures
        edges_coloured(edges, v, qe, c) == Set::<int>::empty(),
{
    assert forall|e: int| !edges_coloured(edges, v, qe, c).contains(e) by {
        if 0 <= e < edges.len() {
            assert(crate::sorter::in_block(ep, qe[in_place(edges.len())[e] as int] as int, e));
        }
    }
    assert(edges_coloured(edges, v, qe, c) =~= Set::<int>::empty());
}

/// Each boundary of the blocks `a` is a boundary of the blocks `b`, where
/// places in one block of `b` lie in one block of `a`.
proof fn lemma_boundaries_inside(a: Seq<usize>, b: Seq<usize>, n: nat, c: int)
    requires
        n >= 1,
        is_partition(a, n),
        is_partition(b, n),
        forall|i: int, j: int| 0 <= i < n && 0 <= j < n && same_block(b, i, j) ==> #[trigger] same_block(a, i, j),
        0 <= c < a.len(),
    ensures
        crate::stable::stands_in(b, a[c]),
{
    if c == 0 {
        assert(b[0] == a[0]);
    } else if c == a.len() - 1 {
        assert(b[b.len() - 1] == a[c]);
    } else {
        let p = a[c] as int;
        assert(a[0] < a[c]);
        assert(a[c] < a[a.len() - 1]);
        assert(a[c - 1] < a[c]);
        assert(a[c] < a[c + 1]);
        let d = crate::stable::lemma_block_of(b, n, p);
        if b[d] != p {
            assert(crate::sorter::in_block(b, d, p - 1));
            assert(same_block(b, p - 1, p));
            assert(same_block(a, p - 1, p));
            let x = choose|x: int| #[trigger] crate::sorter::in_block(a, x, p - 1) && crate::sorter::in_block(a, x, p);
            assert(crate::sorter::in_block(a, c - 1, p - 1));
            assert(crate::sorter::in_block(a, c, p));
            crate::classes::lemma_one_block(a, x, c - 1, p - 1);
            crate::classes::lemma_one_block(a, x, c, p);
        }
    }
}

/// Two positions in canonical shape with the same edges have the same
/// blocks of vertices and the same blocks of edges: the edges fix the
/// structural classes.
#[verifier::rlimit(40)]
pub proof fn lemma_edges_fix_classes(
    g: crate::hypergraph::StructuredHypergraph,
    h: crate::hypergraph::StructuredHypergraph,
)
    requires
        g.wf(),
        h.wf(),
        g.hyperedges@ == h.hyperedges@,
    ensures
        g.node_structure_partitions@ == h.node_structure_partitions@,
        g.edge_structure_partitions@ == h.edge_structure_partitions@,
{
    crate::nimber::lemma_same_edges_same_size(g, h);
    let n = g.nodes@.len();
    let m = g.hyperedges@.len();
    let edges = g.edges();
    assert(h.edges() == edges);
    if m == 0 {
        assert(n == 0) by {
            if n > 0 {
                assert(crate::hypergraph::used_vertices(edges).contains(0nat));
            }
        }
        assert(g.node_structure_partitions@ =~= h.node_structure_partitions@);
        assert(g.edge_structure_partitions@ =~= h.edge_structure_partitions@);
    } else {
        assert(n >= 1) by {
            if n == 0 {
                assert forall|v: nat| !edges[0].contains(v) by {
                    if edges[0].contains(v) {
                        assert(crate::hypergraph::used_vertices(edges).contains(v));
                    }
                }
                assert(edges[0] =~= Set::<nat>::empty());
            }
        }
        lemma_finer_blocks(g, h);
        lemma_finer_blocks(h, g);
        let gn = g.node_structure_partitions@;
        let hn = h.node_structure_partitions@;
        let ge = g.edge_structure_partitions@;
        let he = h.edge_structure_partitions@;
        assert forall|c: int| 0 <= c < gn.len() implies crate::stable::stands_in(hn, #[trigger] gn[c]) by {
            lemma_boundaries_inside(gn, hn, n, c);
        }
        assert forall|c: int| 0 <= c < hn.len() implies crate::stable::stands_in(gn, #[trigger] hn[c]) by {
            lemma_boundaries_inside(hn, gn, n, c);
        }
        assert forall|c: int| 0 <= c < ge.len() implies crate::stable::stands_in(he, #[trigger] ge[c]) by {
            lemma_boundaries_inside(ge, he, m, c);
        }
        assert forall|c: int| 0 <= c < he.len() implies crate::stable::stands_in(ge, #[trigger] he[c]) by {
            lemma_boundaries_inside(he, ge, m, c);
        }
        crate::stable::lemma_rising_inside(gn, hn);
        crate::stable::lemma_rising_inside(hn, gn);
        crate::stable::lemma_rising_inside(ge, he);
        crate::stable::lemma_rising_inside(he, ge);
    }
}

/// Of two positions in canonical shape with the same edges, places in one
/// block of the one lie in one block of the other.
proof fn lemma_finer_blocks(g: crate::hypergraph::StructuredHypergraph, h: crate::hypergraph::StructuredHypergraph)
    requires
        g.wf(),
        h.wf(),
        g.edges() == h.edges(),
        g.nodes@.len() == h.nodes@.len(),
        g.hyperedges@.len() == h.hyperedges@.len(),
        g.nodes@.len() >= 1,
        g.hyperedges@.len() >= 1,
    ensures
        forall|i: int, j: int|
            0 <= i < g.nodes@.len() && 0 <= j < g.nodes@.len() && same_block(g.node_structure_partitions@, i, j)
                ==> #[trigger] same_block(h.node_structure_partitions@, i, j),
        forall|k: int, l: int|
            0 <= k < g.hyperedges@.len() && 0 <= l < g.hyperedges@.len() && same_block(
                g.edge_structure_partitions@,
                k,
                l,
            ) ==> #[trigger] same_block(h.edge_structure_partitions@, k, l),
{
    reveal(crate::canon::in_canonical_order);
    let n = g.nodes@.len();
    let m = g.hyperedges@.len();
    let qn = crate::stable::colouring_of(in_place(n), g.node_structure_partitions@);
    let qe = crate::stable::colouring_of(in_place(m), g.edge_structure_partitions@);
    lemma_blocks_balanced(g);
    assert(balanced(h.edges(), n, qn, qe));
    assert(crate::util::is_rising(g.node_structure_partitions@));
    assert(crate::util::is_rising(g.edge_structure_partitions@));
    assert forall|i: int, j: int|
        0 <= i < n && 0 <= j < n && same_block(g.node_structure_partitions@, i, j) implies #[trigger] same_block(
        h.node_structure_partitions@,
        i,
        j,
    ) by {
        lemma_colour_block(qn, in_place(n), g.node_structure_partitions@, i, j);
        assert(qn[i] == qn[j]);
    }
    assert forall|k: int, l: int|
        0 <= k < m && 0 <= l < m && same_block(g.edge_structure_partitions@, k, l) implies #[trigger] same_block(
        h.edge_structure_partitions@,
        k,
        l,
    ) by {
        lemma_colour_block(qe, in_place(m), g.edge_structure_partitions@, k, l);
        assert(qe[k] == qe[l]);
    }
}

} // verus!
