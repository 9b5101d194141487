//! What the structural classes of a position in canonical shape are: two
//! edges lie in one block exactly where they hold equally many vertices of
//! each block of vertices, and two vertices lie in one block exactly where
//! they lie in equally many edges of each block of edges.

use vstd::prelude::*;
use vstd::relations::{sorted_by, total_ordering};
use vstd::seq_lib::lemma_sorted_unique;
use vstd::set_lib::{lemma_int_range, lemma_map_size, set_int_range};
use crate::bitset::{remapped, within};
use crate::classes::{
    coloured, lemma_key_counts, lemma_one_block, lemma_places_finite, lemma_relabel_counts, places_of,
};
use crate::hypergraph::{is_dual, is_edge_listing, is_partition};
use crate::order::{
    lex_less, is_permutation, is_sorted_keys, lemma_permutation_onto, lemma_rearrangement_onto,
};
use crate::sorter::{colours_of, holds_blocks, in_block, is_edge_key, is_key};
use crate::stable::{
    is_colouring, lemma_colouring_stays, separates, uniform, views_of,
};
use crate::symmetry::same_block;
use crate::util::is_rising;

verus! {

/// The edges at the places `lo .. hi` that hold the vertex `v`.
pub open spec fn edges_between(edges: Seq<Set<nat>>, v: nat, lo: int, hi: int) -> Set<int> {
    Set::new(|k: int| lo <= k < hi && 0 <= k < edges.len() && edges[k].contains(v))
}

/// The edges of colour `c` that hold the vertex `v`.
pub open spec fn edges_coloured(edges: Seq<Set<nat>>, v: nat, colour: Seq<usize>, c: int) -> Set<int> {
    Set::new(|e: int| 0 <= e < edges.len() && e < colour.len() && edges[e].contains(v) && colour[e] == c)
}

/// The number of vertices of block `c` in the edge at place `k`.
pub open spec fn vertices_in(edges: Seq<Set<nat>>, node_parts: Seq<usize>, k: int, c: int) -> nat {
    within(edges[k], node_parts[c] as int, node_parts[c + 1] as int).len()
}

/// The number of edges of block `c` that hold the vertex at place `i`.
pub open spec fn edges_in(edges: Seq<Set<nat>>, edge_parts: Seq<usize>, i: int, c: int) -> nat {
    edges_between(edges, i as nat, edge_parts[c] as int, edge_parts[c + 1] as int).len()
}

/// Whether the edges at the places `k` and `l` hold equally many vertices
/// of each block of vertices.
pub open spec fn same_vertex_counts(edges: Seq<Set<nat>>, node_parts: Seq<usize>, k: int, l: int) -> bool {
    forall|c: int|
        0 <= c < node_parts.len() - 1 ==> #[trigger] vertices_in(edges, node_parts, k, c) == vertices_in(
            edges,
            node_parts,
            l,
            c,
        )
}

/// Whether the vertices at the places `i` and `j` lie in equally many
/// edges of each block of edges.
pub open spec fn same_edge_counts(edges: Seq<Set<nat>>, edge_parts: Seq<usize>, i: int, j: int) -> bool {
    forall|c: int|
        0 <= c < edge_parts.len() - 1 ==> #[trigger] edges_in(edges, edge_parts, i, c) == edges_in(
            edges,
            edge_parts,
            j,
            c,
        )
}

/// Whether the blocks are the structural classes of each other: two edges
/// lie in one block exactly where they hold equally many vertices of each
/// block of vertices, and two of the `n` vertices lie in one block exactly
/// where they lie in equally many edges of each block of edges.
pub open spec fn classes_stable(
    edges: Seq<Set<nat>>,
    n: nat,
    node_parts: Seq<usize>,
    edge_parts: Seq<usize>,
) -> bool {
    &&& forall|k: int, l: int|
        0 <= k < edges.len() && 0 <= l < edges.len() ==> (same_block(edge_parts, k, l) <==> #[trigger] same_vertex_counts(
            edges,
            node_parts,
            k,
            l,
        ))
    &&& forall|i: int, j: int|
        0 <= i < n && 0 <= j < n ==> (same_block(node_parts, i, j) <==> #[trigger] same_edge_counts(
            edges,
            edge_parts,
            i,
            j,
        ))
}

/// Whether the blocks and the order inside them are those of the canonical
/// shape.  The blocks are the structural classes: two edges lie in one
/// block exactly where they hold equally many vertices of each block of
/// vertices, and two vertices lie in one block exactly where they lie in
/// equally many edges of each block of edges.  No coarser blocks do so:
/// whatever balanced colours the vertices and the edges are given, entries
/// of one colour lie in one block.  The vertices stand by their degree,
/// those in fewer edges first.  Inside each block the edges stand in the
/// order of their keys, the key of an edge being the places of its
/// vertices, counted from the end, in rising order; and the vertices stand
/// in the order of theirs, the key of a vertex being the ranks of its
/// edges, which are their places counted from the end but for a
/// rearrangement inside each block of edges.
#[verifier::opaque]
pub open spec fn in_canonical_order(
    edges: Seq<Set<nat>>,
    n: nat,
    node_parts: Seq<usize>,
    edge_parts: Seq<usize>,
) -> bool {
    &&& classes_stable(edges, n, node_parts, edge_parts)
    &&& crate::coarsest::coarsest_blocks(edges, n, node_parts, edge_parts)
    &&& degrees_rise(edges, n)
    &&& edges_in_order(edges, n, edge_parts)
    &&& vertices_in_order(edges, node_parts, edge_parts)
}

/// A list holds a number as often as it has places that hold it.
pub proof fn lemma_count_places(key: Seq<usize>, c: usize)
    ensures
        key.to_multiset().count(c) == places_of(key, c as int).len(),
    decreases key.len(),
{
    broadcast use vstd::multiset::group_multiset_axioms;
    broadcast use vstd::seq_lib::group_to_multiset_ensures;

    if key.len() == 0 {
        assert(places_of(key, c as int) =~= Set::<int>::empty());
    } else {
        let rest = key.drop_last();
        let last = key.last();
        lemma_count_places(rest, c);
        lemma_places_finite(rest, c as int);
        assert(key =~= rest.push(last));
        vstd::seq_lib::to_multiset_build(rest, last);
        if last == c {
            assert(places_of(key, c as int) =~= places_of(rest, c as int).insert(key.len() - 1));
        } else {
            assert(places_of(key, c as int) =~= places_of(rest, c as int));
        }
    }
}

/// Two rising lists that hold each number equally often are the same.
pub proof fn lemma_counts_fix_key(a: Seq<usize>, b: Seq<usize>)
    requires
        forall|i: int, j: int| 0 <= i < j < a.len() ==> a[i] <= a[j],
        forall|i: int, j: int| 0 <= i < j < b.len() ==> b[i] <= b[j],
        forall|c: usize| places_of(a, c as int).len() == #[trigger] places_of(b, c as int).len(),
    ensures
        a == b,
{
    broadcast use vstd::multiset::group_multiset_axioms;

    assert forall|c: usize| a.to_multiset().count(c) == b.to_multiset().count(c) by {
        lemma_count_places(a, c);
        lemma_count_places(b, c);
    }
    assert(a.to_multiset() =~= b.to_multiset());
    let leq = |x: usize, y: usize| x <= y;
    assert(sorted_by(a, leq));
    assert(sorted_by(b, leq));
    assert(total_ordering(leq));
    lemma_sorted_unique(a, b, leq);
}

/// A key holds no number that is not the colour of one of its items.
pub proof fn lemma_no_other_colour(key: Seq<usize>, items: Seq<usize>, colour: Seq<usize>, top: int, c: int)
    requires
        is_key(key, items, colour),
        forall|j: int| 0 <= j < items.len() ==> colour[#[trigger] items[j] as int] < top,
        c >= top,
    ensures
        places_of(key, c).len() == 0,
{
    let cols = colours_of(items, colour);
    let p = choose|p: Seq<int>| #[trigger] is_sorted_keys(key, cols, p);
    assert forall|i: int| !places_of(key, c).contains(i) by {
        if 0 <= i < key.len() {
            assert(key[i] == cols[p[i]]);
            assert(colour[items[p[i]] as int] < top);
        }
    }
    assert(places_of(key, c) =~= Set::<int>::empty());
}

/// The key of a vertex holds each colour as often as the vertex lies in
/// edges of that colour.
pub proof fn lemma_node_key_counts(
    key: Seq<usize>,
    list: Seq<usize>,
    edges: Seq<Set<nat>>,
    v: nat,
    colour: Seq<usize>,
    c: int,
)
    requires
        is_key(key, list, colour),
        is_edge_listing(list, edges, v),
        colour.len() == edges.len(),
    ensures
        edges_coloured(edges, v, colour, c).finite(),
        edges_coloured(edges, v, colour, c).len() == places_of(key, c).len(),
{
    let cols = colours_of(list, colour);
    let p = choose|p: Seq<int>| #[trigger] is_sorted_keys(key, cols, p);
    let x = places_of(key, c);
    let y = places_of(cols, c);
    let z = edges_coloured(edges, v, colour, c);
    lemma_places_finite(key, c);
    lemma_places_finite(cols, c);
    let f = |i: int| p[i];
    assert(x.map(f) =~= y) by {
        assert forall|j: int| y.contains(j) implies x.map(f).contains(j) by {
            lemma_rearrangement_onto(p, cols.len(), j);
            let i = choose|i: int| 0 <= i < cols.len() && p[i] == j;
            assert(key[i] == cols[p[i]]);
            assert(x.contains(i) && f(i) == j);
        }
        assert forall|j: int| x.map(f).contains(j) implies y.contains(j) by {
            let i = choose|i: int| x.contains(i) && f(i) == j;
            assert(key[i] == cols[p[i]]);
        }
    }
    assert(vstd::relations::injective_on(f, x)) by {
        assert forall|a: int, b: int| x.contains(a) && x.contains(b) && #[trigger] f(a) == #[trigger] f(
            b,
        ) implies a == b by {
            if a < b {
                assert(p[a] != p[b]);
            } else if b < a {
                assert(p[b] != p[a]);
            }
        }
    }
    lemma_map_size(x, y, f);
    let g = |j: int| list[j] as int;
    assert(y.map(g) =~= z) by {
        assert forall|e: int| z.contains(e) implies y.map(g).contains(e) by {
            let j = choose|j: int| 0 <= j < list.len() && list[j] == e;
            assert(cols[j] == colour[list[j] as int]);
            assert(y.contains(j) && g(j) == e);
        }
        assert forall|e: int| y.map(g).contains(e) implies z.contains(e) by {
            let j = choose|j: int| y.contains(j) && g(j) == e;
            assert(cols[j] == colour[list[j] as int]);
            assert(list[j] < edges.len());
        }
    }
    assert(vstd::relations::injective_on(g, y)) by {
        assert forall|a: int, b: int| y.contains(a) && y.contains(b) && #[trigger] g(a) == #[trigger] g(
            b,
        ) implies a == b by {
            if a < b {
                assert(list[a] < list[b]);
            } else if b < a {
                assert(list[b] < list[a]);
            }
        }
    }
    lemma_map_size(y, z, g);
}

/// A renumbered vertex lies in as many edges of a range of places as it
/// lay in edges of the colour that the edges at these places have.
pub proof fn lemma_relabel_edge_counts(
    new: Seq<Set<nat>>,
    edges: Seq<Set<nat>>,
    node_map: Seq<usize>,
    edge_map: Seq<usize>,
    colour: Seq<usize>,
    i: int,
    lo: int,
    hi: int,
    c: int,
)
    requires
        is_permutation(node_map),
        is_permutation(edge_map),
        edges.len() == edge_map.len(),
        new.len() == edges.len(),
        colour.len() == edges.len(),
        forall|k: int| 0 <= k < new.len() ==> #[trigger] new[k] == remapped(edges[edge_map[k] as int], node_map),
        forall|k: int| 0 <= k < edge_map.len() ==> (colour[#[trigger] edge_map[k] as int] == c <==> lo <= k < hi),
        0 <= i < node_map.len(),
    ensures
        edges_between(new, i as nat, lo, hi).finite(),
        edges_between(new, i as nat, lo, hi).len() == edges_coloured(edges, node_map[i] as nat, colour, c).len(),
{
    let x = edges_between(new, i as nat, lo, hi);
    let y = edges_coloured(edges, node_map[i] as nat, colour, c);
    lemma_int_range(0, new.len() as int);
    assert(x.subset_of(set_int_range(0, new.len() as int)));
    vstd::set_lib::lemma_set_subset_finite(set_int_range(0, new.len() as int), x);
    let f = |k: int| edge_map[k] as int;
    assert(x.map(f) =~= y) by {
        assert forall|e: int| y.contains(e) implies x.map(f).contains(e) by {
            lemma_permutation_onto(edge_map, e);
            let k = choose|k: int| 0 <= k < edge_map.len() && edge_map[k] == e;
            assert(new[k] == remapped(edges[edge_map[k] as int], node_map));
            assert(colour[edge_map[k] as int] == c);
            assert(x.contains(k) && f(k) == e);
        }
        assert forall|e: int| x.map(f).contains(e) implies y.contains(e) by {
            let k = choose|k: int| x.contains(k) && f(k) == e;
            assert(new[k] == remapped(edges[edge_map[k] as int], node_map));
            assert(colour[edge_map[k] as int] == c);
        }
    }
    assert(vstd::relations::injective_on(f, x)) by {
        assert forall|a: int, b: int| x.contains(a) && x.contains(b) && #[trigger] f(a) == #[trigger] f(
            b,
        ) implies a == b by {
            if a < b {
                assert(edge_map[a] != edge_map[b]);
            } else if b < a {
                assert(edge_map[b] != edge_map[a]);
            }
        }
    }
    lemma_map_size(x, y, f);
}

/// The entry at a place has the colour `c` exactly where the place lies in
/// block `c`.
pub proof fn lemma_colour_range(colour: Seq<usize>, order: Seq<usize>, parts: Seq<usize>, i: int, c: int)
    requires
        is_colouring(colour, order, parts),
        is_rising(parts),
        0 <= i < order.len(),
        0 <= c < parts.len() - 1,
    ensures
        colour[order[i] as int] == c <==> parts[c] <= i < parts[c + 1],
{
    assert(in_block(parts, colour[order[i] as int] as int, i));
    if parts[c] <= i < parts[c + 1] {
        assert(in_block(parts, c, i));
        lemma_one_block(parts, c, colour[order[i] as int] as int, i);
    }
}

/// Two places lie in one block exactly where their entries have one colour.
pub proof fn lemma_colour_block(colour: Seq<usize>, order: Seq<usize>, parts: Seq<usize>, i: int, j: int)
    requires
        is_colouring(colour, order, parts),
        is_rising(parts),
        0 <= i < order.len(),
        0 <= j < order.len(),
    ensures
        same_block(parts, i, j) <==> colour[order[i] as int] == colour[order[j] as int],
{
    let a = colour[order[i] as int] as int;
    let b = colour[order[j] as int] as int;
    assert(in_block(parts, a, i));
    assert(in_block(parts, b, j));
    if same_block(parts, i, j) {
        let d = choose|d: int| #[trigger] in_block(parts, d, i) && in_block(parts, d, j);
        lemma_one_block(parts, a, d, i);
        lemma_one_block(parts, b, d, j);
    }
}

/// The key of an edge is a rising list of block numbers of vertices.
proof fn lemma_edge_key_shape(
    key: Seq<usize>,
    edge: Set<nat>,
    colour: Seq<usize>,
    order: Seq<usize>,
    parts: Seq<usize>,
    c: int,
)
    requires
        is_edge_key(key, edge, colour),
        is_colouring(colour, order, parts),
        is_permutation(order),
        forall|v: nat| edge.contains(v) ==> v < order.len(),
        c >= parts.len() - 1,
    ensures
        forall|i: int, j: int| 0 <= i < j < key.len() ==> key[i] <= key[j],
        places_of(key, c).len() == 0,
{
    let members = choose|members: Seq<usize>|
        #[trigger] crate::bitset::is_listing(members, edge) && is_key(key, members, colour);
    let p = choose|p: Seq<int>| #[trigger] is_sorted_keys(key, colours_of(members, colour), p);
    assert forall|j: int| 0 <= j < members.len() implies colour[#[trigger] members[j] as int] < parts.len() - 1 by {
        assert(edge.contains(members[j] as nat));
        let i = crate::stable::lemma_colour_place(colour, order, parts, members[j] as int);
    }
    lemma_no_other_colour(key, members, colour, parts.len() - 1, c);
}

/// The key of a vertex is a rising list of block numbers of edges.
proof fn lemma_node_key_shape(
    key: Seq<usize>,
    list: Seq<usize>,
    edges: Seq<Set<nat>>,
    v: nat,
    colour: Seq<usize>,
    order: Seq<usize>,
    parts: Seq<usize>,
    c: int,
)
    requires
        is_key(key, list, colour),
        is_edge_listing(list, edges, v),
        is_colouring(colour, order, parts),
        is_permutation(order),
        order.len() == edges.len(),
        c >= parts.len() - 1,
    ensures
        forall|i: int, j: int| 0 <= i < j < key.len() ==> key[i] <= key[j],
        places_of(key, c).len() == 0,
{
    let p = choose|p: Seq<int>| #[trigger] is_sorted_keys(key, colours_of(list, colour), p);
    assert forall|j: int| 0 <= j < list.len() implies colour[#[trigger] list[j] as int] < parts.len() - 1 by {
        let i = crate::stable::lemma_colour_place(colour, order, parts, list[j] as int);
    }
    lemma_no_other_colour(key, list, colour, parts.len() - 1, c);
}

/// Two edges of a position in canonical order lie in one block exactly
/// where they hold equally many vertices of each block.
pub proof fn lemma_edge_pair_counts(
    new: Seq<Set<nat>>,
    edges: Seq<Set<nat>>,
    node_parts: Seq<usize>,
    edge_parts: Seq<usize>,
    node_colour: Seq<usize>,
    edge_colour: Seq<usize>,
    keys: Seq<Vec<usize>>,
    node_map: Seq<usize>,
    edge_map: Seq<usize>,
    k: int,
    l: int,
)
    requires
        node_map.len() >= 1,
        edge_map.len() >= 1,
        is_partition(node_parts, node_map.len()),
        is_partition(edge_parts, edge_map.len()),
        edges.len() == edge_map.len(),
        forall|e: int, v: nat| 0 <= e < edges.len() && #[trigger] edges[e].contains(v) ==> v < node_map.len(),
        is_permutation(node_map),
        is_permutation(edge_map),
        is_colouring(node_colour, node_map, node_parts),
        is_colouring(edge_colour, edge_map, edge_parts),
        keys.len() == edge_map.len(),
        forall|e: int| 0 <= e < edges.len() ==> is_edge_key(#[trigger] keys[e]@, edges[e], node_colour),
        separates(edge_colour, views_of(keys)),
        uniform(edge_colour, views_of(keys)),
        new.len() == edges.len(),
        forall|k: int| 0 <= k < new.len() ==> #[trigger] new[k] == remapped(edges[edge_map[k] as int], node_map),
        0 <= k < edge_map.len(),
        0 <= l < edge_map.len(),
    ensures
        same_block(edge_parts, k, l) <==> same_vertex_counts(new, node_parts, k, l),
{
    let x = edge_map[k] as int;
    let y = edge_map[l] as int;
    let kv = views_of(keys);
    let kx = keys[x]@;
    let ky = keys[y]@;
    assert(kv[x] == kx && kv[y] == ky);
    assert(is_rising(node_parts));
    assert(is_rising(edge_parts));
    lemma_colour_block(edge_colour, edge_map, edge_parts, k, l);
    assert(same_block(edge_parts, k, l) <==> kx == ky);
    assert forall|c: int| 0 <= c < node_parts.len() - 1 implies #[trigger] vertices_in(new, node_parts, k, c)
        == places_of(kx, c).len() && vertices_in(new, node_parts, l, c) == places_of(ky, c).len() by {
        let lo = node_parts[c] as int;
        let hi = node_parts[c + 1] as int;
        assert forall|i: int| 0 <= i < node_map.len() implies (node_colour[#[trigger] node_map[i] as int] == c
            <==> lo <= i < hi) by {
            lemma_colour_range(node_colour, node_map, node_parts, i, c);
        }
        lemma_key_counts(kx, edges[x], node_colour, c);
        lemma_key_counts(ky, edges[y], node_colour, c);
        lemma_relabel_counts(new[k], edges[x], node_map, node_colour, lo, hi, c);
        lemma_relabel_counts(new[l], edges[y], node_map, node_colour, lo, hi, c);
    }
    if same_vertex_counts(new, node_parts, k, l) {
        assert forall|c: usize| places_of(kx, c as int).len() == #[trigger] places_of(ky, c as int).len() by {
            if c < node_parts.len() - 1 {
                assert(vertices_in(new, node_parts, k, c as int) == vertices_in(new, node_parts, l, c as int));
            } else {
                lemma_edge_key_shape(kx, edges[x], node_colour, node_map, node_parts, c as int);
                lemma_edge_key_shape(ky, edges[y], node_colour, node_map, node_parts, c as int);
            }
        }
        lemma_edge_key_shape(kx, edges[x], node_colour, node_map, node_parts, node_parts.len() as int);
        lemma_edge_key_shape(ky, edges[y], node_colour, node_map, node_parts, node_parts.len() as int);
        lemma_counts_fix_key(kx, ky);
    }
}

/// Two vertices of a position in canonical order lie in one block exactly
/// where they lie in equally many edges of each block.
pub proof fn lemma_node_pair_counts(
    new: Seq<Set<nat>>,
    edges: Seq<Set<nat>>,
    node_parts: Seq<usize>,
    edge_parts: Seq<usize>,
    node_colour: Seq<usize>,
    edge_colour: Seq<usize>,
    keys: Seq<Vec<usize>>,
    dual: Seq<Vec<usize>>,
    node_map: Seq<usize>,
    edge_map: Seq<usize>,
    i: int,
    j: int,
)
    requires
        node_map.len() >= 1,
        edge_map.len() >= 1,
        is_partition(node_parts, node_map.len()),
        is_partition(edge_parts, edge_map.len()),
        edges.len() == edge_map.len(),
        is_dual(dual, edges, node_map.len()),
        is_permutation(node_map),
        is_permutation(edge_map),
        is_colouring(node_colour, node_map, node_parts),
        is_colouring(edge_colour, edge_map, edge_parts),
        keys.len() == node_map.len(),
        forall|v: int| 0 <= v < node_map.len() ==> is_key(#[trigger] keys[v]@, dual[v]@, edge_colour),
        separates(node_colour, views_of(keys)),
        uniform(node_colour, views_of(keys)),
        new.len() == edges.len(),
        forall|k: int| 0 <= k < new.len() ==> #[trigger] new[k] == remapped(edges[edge_map[k] as int], node_map),
        0 <= i < node_map.len(),
        0 <= j < node_map.len(),
    ensures
        same_block(node_parts, i, j) <==> same_edge_counts(new, edge_parts, i, j),
{
    let x = node_map[i] as int;
    let y = node_map[j] as int;
    let kv = views_of(keys);
    let kx = keys[x]@;
    let ky = keys[y]@;
    assert(kv[x] == kx && kv[y] == ky);
    assert(is_rising(node_parts));
    assert(is_rising(edge_parts));
    lemma_colour_block(node_colour, node_map, node_parts, i, j);
    assert(same_block(node_parts, i, j) <==> kx == ky);
    assert(is_edge_listing(dual[x]@, edges, x as nat));
    assert(is_edge_listing(dual[y]@, edges, y as nat));
    assert forall|c: int| 0 <= c < edge_parts.len() - 1 implies #[trigger] edges_in(new, edge_parts, i, c)
        == places_of(kx, c).len() && edges_in(new, edge_parts, j, c) == places_of(ky, c).len() by {
        let lo = edge_parts[c] as int;
        let hi = edge_parts[c + 1] as int;
        assert forall|k: int| 0 <= k < edge_map.len() implies (edge_colour[#[trigger] edge_map[k] as int] == c
            <==> lo <= k < hi) by {
            lemma_colour_range(edge_colour, edge_map, edge_parts, k, c);
        }
        lemma_node_key_counts(kx, dual[x]@, edges, x as nat, edge_colour, c);
        lemma_node_key_counts(ky, dual[y]@, edges, y as nat, edge_colour, c);
        lemma_relabel_edge_counts(new, edges, node_map, edge_map, edge_colour, i, lo, hi, c);
        lemma_relabel_edge_counts(new, edges, node_map, edge_map, edge_colour, j, lo, hi, c);
    }
    if same_edge_counts(new, edge_parts, i, j) {
        assert forall|c: usize| places_of(kx, c as int).len() == #[trigger] places_of(ky, c as int).len() by {
            if c < edge_parts.len() - 1 {
                assert(edges_in(new, edge_parts, i, c as int) == edges_in(new, edge_parts, j, c as int));
            } else {
                lemma_node_key_shape(kx, dual[x]@, edges, x as nat, edge_colour, edge_map, edge_parts, c as int);
                lemma_node_key_shape(ky, dual[y]@, edges, y as nat, edge_colour, edge_map, edge_parts, c as int);
            }
        }
        lemma_node_key_shape(kx, dual[x]@, edges, x as nat, edge_colour, edge_map, edge_parts, edge_parts.len() as int);
        lemma_node_key_shape(ky, dual[y]@, edges, y as nat, edge_colour, edge_map, edge_parts, edge_parts.len() as int);
        lemma_counts_fix_key(kx, ky);
    }
}

/// Stable classes stay stable when the edges and the vertices are put into
/// an order that keeps the blocks and are renumbered by it.
pub proof fn lemma_classes_stable(
    new: Seq<Set<nat>>,
    edges: Seq<Set<nat>>,
    node_parts: Seq<usize>,
    edge_parts: Seq<usize>,
    node_colour: Seq<usize>,
    edge_colour: Seq<usize>,
    node_keys: Seq<Vec<usize>>,
    edge_keys: Seq<Vec<usize>>,
    dual: Seq<Vec<usize>>,
    nodes_then: Seq<usize>,
    edges_then: Seq<usize>,
    node_map: Seq<usize>,
    edge_map: Seq<usize>,
)
    requires
        node_map.len() >= 1,
        edge_map.len() >= 1,
        is_partition(node_parts, node_map.len()),
        is_partition(edge_parts, edge_map.len()),
        edges.len() == edge_map.len(),
        forall|e: int, v: nat| 0 <= e < edges.len() && #[trigger] edges[e].contains(v) ==> v < node_map.len(),
        is_dual(dual, edges, node_map.len()),
        is_permutation(node_map),
        is_permutation(edge_map),
        nodes_then.len() == node_map.len(),
        edges_then.len() == edge_map.len(),
        is_colouring(node_colour, nodes_then, node_parts),
        is_colouring(edge_colour, edges_then, edge_parts),
        holds_blocks(node_map, nodes_then, node_parts),
        holds_blocks(edge_map, edges_then, edge_parts),
        node_keys.len() == node_map.len(),
        edge_keys.len() == edge_map.len(),
        forall|v: int| 0 <= v < node_map.len() ==> is_key(#[trigger] node_keys[v]@, dual[v]@, edge_colour),
        forall|e: int| 0 <= e < edges.len() ==> is_edge_key(#[trigger] edge_keys[e]@, edges[e], node_colour),
        separates(node_colour, views_of(node_keys)),
        uniform(node_colour, views_of(node_keys)),
        separates(edge_colour, views_of(edge_keys)),
        uniform(edge_colour, views_of(edge_keys)),
        new.len() == edges.len(),
        forall|k: int| 0 <= k < new.len() ==> #[trigger] new[k] == remapped(edges[edge_map[k] as int], node_map),
    ensures
        classes_stable(new, node_map.len(), node_parts, edge_parts),
{
    assert(is_rising(node_parts));
    assert(is_rising(edge_parts));
    lemma_colouring_stays(node_colour, node_map, nodes_then, node_parts);
    lemma_colouring_stays(edge_colour, edge_map, edges_then, edge_parts);
    assert forall|k: int, l: int| 0 <= k < new.len() && 0 <= l < new.len() implies (same_block(edge_parts, k, l)
        <==> #[trigger] same_vertex_counts(new, node_parts, k, l)) by {
        lemma_edge_pair_counts(
            new,
            edges,
            node_parts,
            edge_parts,
            node_colour,
            edge_colour,
            edge_keys,
            node_map,
            edge_map,
            k,
            l,
        );
    }
    assert forall|i: int, j: int| 0 <= i < node_map.len() && 0 <= j < node_map.len() implies (same_block(
        node_parts,
        i,
        j,
    ) <==> #[trigger] same_edge_counts(new, edge_parts, i, j)) by {
        lemma_node_pair_counts(
            new,
            edges,
            node_parts,
            edge_parts,
            node_colour,
            edge_colour,
            node_keys,
            dual,
            node_map,
            edge_map,
            i,
            j,
        );
    }
}

/// Whether `key` holds the places of the vertices of the edge, counted from
/// the end of the `n` places, in rising order.
pub open spec fn is_order_key(key: Seq<usize>, edge: Set<nat>, n: nat) -> bool {
    exists|members: Seq<usize>| #[trigger] is_order_key_of(key, members, edge, n)
}

/// Whether `key` holds the places `members` of the vertices of the edge,
/// counted from the end of the `n` places, the last member first.
pub open spec fn is_order_key_of(key: Seq<usize>, members: Seq<usize>, edge: Set<nat>, n: nat) -> bool {
    &&& crate::bitset::is_listing(members, edge)
    &&& key.len() == members.len()
    &&& forall|j: int| 0 <= j < key.len() ==> #[trigger] key[j] == n - 1 - members[members.len() - 1 - j]
}

/// Whether the edges stand inside each block in the order of their keys:
/// of two edges of one block, the key of the later one does not come before
/// that of the earlier one in the order of the dictionary.
pub open spec fn edges_in_order(edges: Seq<Set<nat>>, n: nat, edge_parts: Seq<usize>) -> bool {
    forall|b: int, k: int, l: int, first: Seq<usize>, second: Seq<usize>|
        #![trigger in_block(edge_parts, b, k), in_block(edge_parts, b, l), is_order_key(first, edges[k], n), is_order_key(second, edges[l], n)]
        in_block(edge_parts, b, k) && in_block(edge_parts, b, l) && k < l && is_order_key(first, edges[k], n)
            && is_order_key(second, edges[l], n) ==> !lex_less(second, first)
}

/// The key by which an edge was put in its place holds the places of its
/// vertices, counted from the end.
#[verifier::rlimit(40)]
pub proof fn lemma_order_key(
    key: Seq<usize>,
    old: Set<nat>,
    new: Set<nat>,
    node_map: Seq<usize>,
    rank: Seq<usize>,
    other: Seq<usize>,
)
    requires
        is_permutation(node_map),
        rank.len() == node_map.len(),
        forall|i: int| 0 <= i < node_map.len() ==> rank[#[trigger] node_map[i] as int] == node_map.len() - 1 - i,
        forall|v: nat| old.contains(v) ==> v < node_map.len(),
        new == remapped(old, node_map),
        is_edge_key(key, old, rank),
        is_order_key(other, new, node_map.len()),
    ensures
        key == other,
{
    let n = node_map.len();
    let members = choose|members: Seq<usize>| #[trigger] is_order_key_of(other, members, new, n);
    let r = members.len() as int;
    let listed = choose|listed: Seq<usize>|
        #[trigger] crate::bitset::is_listing(listed, old) && is_key(key, listed, rank);
    let p = choose|p: Seq<int>| #[trigger] is_sorted_keys(key, colours_of(listed, rank), p);
    assert forall|c: usize| places_of(key, c as int).len() == #[trigger] places_of(other, c as int).len() by {
        lemma_key_counts(key, old, rank, c as int);
        let x = coloured(old, rank, c as int);
        let y = places_of(other, c as int);
        if c < n && new.contains((n - 1 - c) as nat) {
            let i = (n - 1 - c) as int;
            let v = node_map[i] as nat;
            assert(x =~= set![v]) by {
                assert forall|w: nat| x.contains(w) implies w == v by {
                    lemma_permutation_onto(node_map, w as int);
                    let t = choose|t: int| 0 <= t < node_map.len() && node_map[t] == w;
                    assert(rank[node_map[t] as int] == n - 1 - t);
                }
                assert(rank[node_map[i] as int] == c);
            }
            let t = choose|t: int| 0 <= t < members.len() && members[t] == i as nat;
            let j = r - 1 - t;
            assert(y =~= set![j]) by {
                assert forall|u: int| y.contains(u) implies u == j by {
                    assert(other[u] == n - 1 - members[r - 1 - u]);
                    let a = r - 1 - u;
                    if a < t {
                        assert(members[a] < members[t]);
                    } else if t < a {
                        assert(members[t] < members[a]);
                    }
                }
                assert(other[j] == n - 1 - members[r - 1 - j]);
            }
        } else {
            assert(x =~= Set::<nat>::empty()) by {
                assert forall|w: nat| !x.contains(w) by {
                    if x.contains(w) {
                        lemma_permutation_onto(node_map, w as int);
                        let t = choose|t: int| 0 <= t < node_map.len() && node_map[t] == w;
                        assert(rank[node_map[t] as int] == n - 1 - t);
                        assert(new.contains(t as nat));
                    }
                }
            }
            assert(y =~= Set::<int>::empty()) by {
                assert forall|u: int| !y.contains(u) by {
                    if y.contains(u) {
                        assert(other[u] == n - 1 - members[r - 1 - u]);
                        assert(new.contains(members[r - 1 - u] as nat));
                    }
                }
            }
        }
    }
    assert forall|i: int, j: int| 0 <= i < j < other.len() implies other[i] <= other[j] by {
        assert(other[i] == n - 1 - members[r - 1 - i]);
        assert(other[j] == n - 1 - members[r - 1 - j]);
        assert(members[r - 1 - j] < members[r - 1 - i]);
        assert(new.contains(members[r - 1 - i] as nat));
    }
    lemma_counts_fix_key(key, other);
}

/// Edges that stand inside each block in the order of the keys by which
/// they were sorted stand in order once they are renumbered.
pub proof fn lemma_edges_in_order(
    new: Seq<Set<nat>>,
    edges: Seq<Set<nat>>,
    edge_parts: Seq<usize>,
    rank: Seq<usize>,
    keys: Seq<Vec<usize>>,
    node_map: Seq<usize>,
    edge_map: Seq<usize>,
)
    requires
        edge_map.len() >= 1,
        is_partition(edge_parts, edge_map.len()),
        edges.len() == edge_map.len(),
        forall|e: int, v: nat| 0 <= e < edges.len() && #[trigger] edges[e].contains(v) ==> v < node_map.len(),
        is_permutation(node_map),
        is_permutation(edge_map),
        rank.len() == node_map.len(),
        forall|i: int| 0 <= i < node_map.len() ==> rank[#[trigger] node_map[i] as int] == node_map.len() - 1 - i,
        keys.len() == edge_map.len(),
        forall|e: int| 0 <= e < edges.len() ==> is_edge_key(#[trigger] keys[e]@, edges[e], rank),
        crate::sorter::blocks_sorted(edge_map, edge_parts, keys),
        new.len() == edges.len(),
        forall|k: int| 0 <= k < new.len() ==> #[trigger] new[k] == remapped(edges[edge_map[k] as int], node_map),
    ensures
        edges_in_order(new, node_map.len(), edge_parts),
{
    let n = node_map.len();
    assert forall|b: int, k: int, l: int, first: Seq<usize>, second: Seq<usize>|
        #![trigger in_block(edge_parts, b, k), in_block(edge_parts, b, l), is_order_key(first, new[k], n), is_order_key(second, new[l], n)]
        in_block(edge_parts, b, k) && in_block(edge_parts, b, l) && k < l && is_order_key(first, new[k], n)
            && is_order_key(second, new[l], n) implies !lex_less(second, first) by {
        assert(l < edge_map.len()) by {
            if b + 1 < edge_parts.len() - 1 {
                assert(edge_parts[b + 1] < edge_parts[edge_parts.len() - 1]);
            }
        }
        let x = edge_map[k] as int;
        let y = edge_map[l] as int;
        lemma_order_key(keys[x]@, edges[x], new[k], node_map, rank, first);
        lemma_order_key(keys[y]@, edges[y], new[l], node_map, rank, second);
    }
}

/// The vertices of a position with one edge are one block: they all lie
/// in that edge and in no other.
pub proof fn lemma_one_edge_one_block(g: crate::hypergraph::StructuredHypergraph)
    requires
        g.wf(),
        g.hyperedges@.len() == 1,
    ensures
        g.node_structure_partitions@.len() == 2,
        forall|i: int, j: int|
            0 <= i < g.nodes@.len() && 0 <= j < g.nodes@.len() ==> same_block(g.node_structure_partitions@, i, j),
{
    reveal(in_canonical_order);
    let edges = g.edges();
    let n = g.nodes@.len();
    let parts = g.node_structure_partitions@;
    let eparts = g.edge_structure_partitions@;
    assert(n >= 1) by {
        if n == 0 {
            assert forall|v: nat| !edges[0].contains(v) by {
                if edges[0].contains(v) {
                    assert(crate::hypergraph::used_vertices(edges).contains(v));
                }
            }
            assert(edges[0] =~= Set::<nat>::empty());
        }
    }
    assert(eparts.len() == 2) by {
        if eparts.len() > 2 {
            assert(eparts[0] < eparts[1]);
            assert(eparts[1] < eparts[eparts.len() - 1]);
        }
    }
    assert forall|i: int, j: int| 0 <= i < n && 0 <= j < n implies same_block(parts, i, j) by {
        assert(crate::hypergraph::used_vertices(edges).contains(i as nat));
        assert(crate::hypergraph::used_vertices(edges).contains(j as nat));
        assert(edges[0].contains(i as nat));
        assert(edges[0].contains(j as nat));
        assert forall|c: int| 0 <= c < eparts.len() - 1 implies #[trigger] edges_in(edges, eparts, i, c) == edges_in(
            edges,
            eparts,
            j,
            c,
        ) by {
            assert(edges_between(edges, i as nat, eparts[c] as int, eparts[c + 1] as int) =~= edges_between(
                edges,
                j as nat,
                eparts[c] as int,
                eparts[c + 1] as int,
            ));
        }
        assert(same_edge_counts(edges, eparts, i, j));
    }
    if parts.len() > 2 {
        assert(parts[0] < parts[1]);
        assert(parts[1] < parts[parts.len() - 1]);
        let p = parts[1] as int;
        assert(same_block(parts, p - 1, p));
        let b = choose|b: int| #[trigger] in_block(parts, b, p - 1) && in_block(parts, b, p);
        assert(in_block(parts, 0, p - 1));
        assert(in_block(parts, 1, p)) by {
            assert(parts[1] < parts[2]);
        }
        lemma_one_block(parts, b, 0, p - 1);
        lemma_one_block(parts, b, 1, p);
    }
}

/// A hypergraph without vertices or without edges is in order as it
/// stands, with one block for what it has and none for what it lacks.
#[verifier::rlimit(40)]
pub proof fn lemma_nothing_to_sort(
    g: crate::hypergraph::StructuredHypergraph,
    node_map: Seq<usize>,
    edge_map: Seq<usize>,
)
    requires
        g.labelled(),
        g.nodes@.len() == 0 || g.hyperedges@.len() == 0,
        g.nodes@.len() <= usize::MAX,
        g.hyperedges@.len() <= usize::MAX,
        node_map == Seq::new(g.nodes@.len(), |i: int| i as usize),
        edge_map == Seq::new(g.hyperedges@.len(), |i: int| i as usize),
        is_partition(g.node_structure_partitions@, g.nodes@.len()),
        is_partition(g.edge_structure_partitions@, g.hyperedges@.len()),
        g.node_structure_partitions@.len() <= 2,
        g.edge_structure_partitions@.len() <= 2,
    ensures
        crate::sorter::is_reordering(g, g, node_map, edge_map),
        crate::classes::classes_agree(g.edges(), g.node_structure_partitions@, g.edge_structure_partitions@),
        crate::classes::degrees_agree(g.edges(), g.node_structure_partitions@),
        in_canonical_order(
            g.edges(),
            g.nodes@.len(),
            g.node_structure_partitions@,
            g.edge_structure_partitions@,
        ),
{
    reveal(in_canonical_order);
    let edges = g.edges();
    let n = g.nodes@.len();
    let m = g.hyperedges@.len();
    let rank = Seq::new(m, |k: int| (m - 1 - k) as usize);
    assert(keeps_blocks(rank, g.edge_structure_partitions@));
    assert(vertices_in_order_by(edges, g.node_structure_partitions@, rank)) by {
        assert forall|b: int, i: int, j: int, first: Seq<usize>, second: Seq<usize>|
            #![trigger in_block(g.node_structure_partitions@, b, i), in_block(g.node_structure_partitions@, b, j), is_vertex_key(first, edges, i as nat, rank), is_vertex_key(second, edges, j as nat, rank)]
            in_block(g.node_structure_partitions@, b, i) && in_block(g.node_structure_partitions@, b, j) && i < j
                && is_vertex_key(first, edges, i as nat, rank) && is_vertex_key(
                second,
                edges,
                j as nat,
                rank,
            ) implies !lex_less(second, first) by {
            let list = choose|list: Seq<usize>|
                #[trigger] is_edge_listing(list, edges, j as nat) && is_key(second, list, rank);
            let p = choose|p: Seq<int>| #[trigger] is_sorted_keys(second, colours_of(list, rank), p);
            if list.len() > 0 {
                assert(list[0] < edges.len());
            }
            if lex_less(second, first) {
                let at = choose|at: int| crate::order::first_below_at(second, first, at);
                let other = choose|other: Seq<usize>|
                    #[trigger] is_edge_listing(other, edges, i as nat) && is_key(first, other, rank);
                let q = choose|q: Seq<int>| #[trigger] is_sorted_keys(first, colours_of(other, rank), q);
                if other.len() > 0 {
                    assert(other[0] < edges.len());
                }
            }
        }
    }
    assert forall|i: int, j: int| 0 <= i < j < n implies (#[trigger] crate::classes::edges_at(edges, i as nat)).len()
        <= (#[trigger] crate::classes::edges_at(edges, j as nat)).len() by {
        assert(crate::classes::edges_at(edges, i as nat) =~= crate::classes::edges_at(edges, j as nat));
    }
    let node_parts = g.node_structure_partitions@;
    let edge_parts = g.edge_structure_partitions@;
    assert forall|k: int| 0 <= k < edge_map.len() implies #[trigger] edges[k] == remapped(
        edges[edge_map[k] as int],
        node_map,
    ) by {
        assert(edges[k] =~= remapped(edges[k], node_map)) by {
            assert forall|v: nat| edges[k].contains(v) implies remapped(edges[k], node_map).contains(v) by {
                assert(v < n);
            }
        }
    }
    assert forall|i: int, j: int| 0 <= i < n && 0 <= j < n implies same_block(node_parts, i, j) by {
        assert(in_block(node_parts, 0, i) && in_block(node_parts, 0, j));
    }
    assert forall|k: int, l: int| 0 <= k < m && 0 <= l < m implies same_block(edge_parts, k, l) by {
        assert(in_block(edge_parts, 0, k) && in_block(edge_parts, 0, l));
    }
    assert forall|c: int, i: int, j: int|
        #![trigger in_block(node_parts, c, i), in_block(node_parts, c, j)]
        in_block(node_parts, c, i) && in_block(node_parts, c, j) implies crate::classes::edges_at(
        edges,
        i as nat,
    ).len() == crate::classes::edges_at(edges, j as nat).len() by {
        assert(crate::classes::edges_at(edges, i as nat) =~= crate::classes::edges_at(edges, j as nat));
    }
    assert forall|k: int, l: int| 0 <= k < edges.len() && 0 <= l < edges.len() implies (same_block(
        edge_parts,
        k,
        l,
    ) <==> #[trigger] same_vertex_counts(edges, node_parts, k, l)) by {}
    assert forall|i: int, j: int| 0 <= i < n && 0 <= j < n implies (same_block(node_parts, i, j)
        <==> #[trigger] same_edge_counts(edges, edge_parts, i, j)) by {}
    assert forall|b: int, k: int, l: int, first: Seq<usize>, second: Seq<usize>|
        #![trigger in_block(edge_parts, b, k), in_block(edge_parts, b, l), is_order_key(first, edges[k], n), is_order_key(second, edges[l], n)]
        in_block(edge_parts, b, k) && in_block(edge_parts, b, l) && k < l && is_order_key(first, edges[k], n)
            && is_order_key(second, edges[l], n) implies !lex_less(second, first) by {
        let members = choose|members: Seq<usize>| #[trigger] is_order_key_of(second, members, edges[l], n);
        if members.len() > 0 {
            assert(edges[l].contains(members[0] as nat));
            assert(members[0] < n);
        }
        if lex_less(second, first) {
            let at = choose|at: int| crate::order::first_below_at(second, first, at);
            let others = choose|others: Seq<usize>| #[trigger] is_order_key_of(first, others, edges[k], n);
            if others.len() > 0 {
                assert(edges[k].contains(others[0] as nat));
                assert(others[0] < n);
            }
        }
    }
}

/// Whether the entries of the order stand by the length of their lists:
/// no entry has a shorter list than an entry before it.
pub open spec fn lengths_rise(order: Seq<usize>, lists: Seq<Vec<usize>>) -> bool {
    forall|i: int, j: int|
        0 <= i < j < order.len() ==> (#[trigger] lists[order[i] as int])@.len() <= (#[trigger] lists[order[j] as int])@.len()
}

/// Whether the vertices stand by their degree: no vertex lies in fewer
/// edges than a vertex before it.
pub open spec fn degrees_rise(edges: Seq<Set<nat>>, n: nat) -> bool {
    forall|i: int, j: int|
        0 <= i < j < n ==> (#[trigger] crate::classes::edges_at(edges, i as nat)).len() <= (
        #[trigger] crate::classes::edges_at(edges, j as nat)).len()
}

/// Of two keys that hold one number as often as their lists are long, the
/// one that does not come first belongs to a list that is no shorter.
proof fn lemma_pair_by_length(
    kx: Seq<usize>,
    ky: Seq<usize>,
    lx: Seq<usize>,
    ly: Seq<usize>,
    colour: Seq<usize>,
    c: usize,
)
    requires
        is_key(kx, lx, colour),
        is_key(ky, ly, colour),
        forall|t: int| 0 <= t < lx.len() ==> colour[#[trigger] lx[t] as int] == c,
        forall|t: int| 0 <= t < ly.len() ==> colour[#[trigger] ly[t] as int] == c,
        !lex_less(ky, kx),
    ensures
        lx.len() <= ly.len(),
{
    let px = choose|p: Seq<int>| #[trigger] is_sorted_keys(kx, colours_of(lx, colour), p);
    let py = choose|p: Seq<int>| #[trigger] is_sorted_keys(ky, colours_of(ly, colour), p);
    if ly.len() < lx.len() {
        let k = ly.len() as int;
        assert forall|t: int| 0 <= t < k implies ky[t] == kx[t] by {
            assert(ky[t] == colours_of(ly, colour)[py[t]]);
            assert(kx[t] == colours_of(lx, colour)[px[t]]);
            assert(colour[ly[py[t]] as int] == c);
            assert(colour[lx[px[t]] as int] == c);
        }
        assert(crate::order::first_below_at(ky, kx, k));
    }
}

/// Whether the keys of the entries never fall along the order.
pub open spec fn keys_rise(order: Seq<usize>, keys: Seq<Vec<usize>>) -> bool {
    forall|i: int, j: int|
        0 <= i < j < order.len() ==> !lex_less((#[trigger] keys[order[j] as int])@, (#[trigger] keys[order[i] as int])@)
}

/// Entries sorted by keys that hold one number as often as their list is
/// long stand by the length of their lists.
#[verifier::rlimit(40)]
pub proof fn lemma_sorted_by_length(
    order: Seq<usize>,
    keys: Seq<Vec<usize>>,
    lists: Seq<Vec<usize>>,
    colour: Seq<usize>,
    c: usize,
)
    requires
        keys_rise(order, keys),
        forall|i: int| 0 <= i < order.len() ==> (#[trigger] order[i]) < order.len(),
        keys.len() == order.len(),
        lists.len() == order.len(),
        forall|v: int| 0 <= v < order.len() ==> is_key(#[trigger] keys[v]@, lists[v]@, colour),
        forall|v: int, t: int|
            0 <= v < order.len() && 0 <= t < lists[v]@.len() ==> colour[#[trigger] lists[v]@[t] as int] == c,
    ensures
        lengths_rise(order, lists),
{
    assert forall|i: int, j: int| 0 <= i < j < order.len() implies (#[trigger] lists[order[i] as int])@.len() <= (
    #[trigger] lists[order[j] as int])@.len() by {
        let x = order[i] as int;
        let y = order[j] as int;
        assert(!lex_less(keys[order[j] as int]@, keys[order[i] as int]@));
        lemma_pair_by_length(keys[x]@, keys[y]@, lists[x]@, lists[y]@, colour, c);
    }
}

/// Entries that stand by the length of their lists still do so when they
/// are put into an order that keeps blocks whose entries have one key.
pub proof fn lemma_lengths_stay(
    order: Seq<usize>,
    before: Seq<usize>,
    parts: Seq<usize>,
    keys: Seq<Vec<usize>>,
    lists: Seq<Vec<usize>>,
    colour: Seq<usize>,
)
    requires
        is_permutation(before),
        is_permutation(order),
        order.len() == before.len(),
        order.len() >= 1,
        is_partition(parts, order.len()),
        is_colouring(colour, before, parts),
        holds_blocks(order, before, parts),
        keys.len() == order.len(),
        lists.len() == order.len(),
        forall|v: int| 0 <= v < order.len() ==> (#[trigger] keys[v])@.len() == lists[v]@.len(),
        uniform(colour, views_of(keys)),
        lengths_rise(before, lists),
    ensures
        lengths_rise(order, lists),
{
    let kv = views_of(keys);
    assert(is_rising(parts));
    lemma_colouring_stays(colour, order, before, parts);
    assert forall|i: int| 0 <= i < order.len() implies (#[trigger] lists[order[i] as int])@.len()
        == lists[before[i] as int]@.len() by {
        let x = order[i] as int;
        let y = before[i] as int;
        assert(in_block(parts, colour[order[i] as int] as int, i));
        assert(in_block(parts, colour[before[i] as int] as int, i));
        lemma_one_block(parts, colour[x] as int, colour[y] as int, i);
        assert(kv[x] == kv[y]);
    }
    assert forall|i: int, j: int| 0 <= i < j < order.len() implies (#[trigger] lists[order[i] as int])@.len() <= (
    #[trigger] lists[order[j] as int])@.len() by {
        assert(lists[before[i] as int]@.len() <= lists[before[j] as int]@.len());
    }
}

/// Vertices that stand by the length of the lists of their edges stand by
/// their degree once they are renumbered.
pub proof fn lemma_degrees_rise(
    new: Seq<Set<nat>>,
    edges: Seq<Set<nat>>,
    dual: Seq<Vec<usize>>,
    node_map: Seq<usize>,
    edge_map: Seq<usize>,
)
    requires
        is_permutation(node_map),
        is_permutation(edge_map),
        edges.len() == edge_map.len(),
        new.len() == edges.len(),
        is_dual(dual, edges, node_map.len()),
        forall|k: int| 0 <= k < new.len() ==> #[trigger] new[k] == remapped(edges[edge_map[k] as int], node_map),
        lengths_rise(node_map, dual),
    ensures
        degrees_rise(new, node_map.len()),
{
    assert forall|i: int, j: int| 0 <= i < j < node_map.len() implies (#[trigger] crate::classes::edges_at(
        new,
        i as nat,
    )).len() <= (#[trigger] crate::classes::edges_at(new, j as nat)).len() by {
        let v = node_map[i] as int;
        let w = node_map[j] as int;
        crate::classes::lemma_relabel_degree(new, edges, node_map, edge_map, i);
        crate::classes::lemma_relabel_degree(new, edges, node_map, edge_map, j);
        crate::classes::lemma_degree_is_listed(dual[v]@, edges, v as nat);
        crate::classes::lemma_degree_is_listed(dual[w]@, edges, w as nat);
        assert(dual[node_map[i] as int]@.len() <= dual[node_map[j] as int]@.len());
    }
}

/// Whether `rank` gives the entry at place `p` of the order the rank
/// `len - 1 - p`: its place counted from the end.
pub open spec fn is_ranking(rank: Seq<usize>, order: Seq<usize>) -> bool {
    &&& rank.len() == order.len()
    &&& forall|p: int| 0 <= p < order.len() ==> rank[#[trigger] order[p] as int] == order.len() - 1 - p
}

/// Whether the ranks are those of the places of the edges, counted from
/// the end, but for a rearrangement inside each block: each edge has a rank
/// of its own, which is the rank of a place of its block.
pub open spec fn keeps_blocks(rank: Seq<usize>, edge_parts: Seq<usize>) -> bool {
    &&& forall|k: int| 0 <= k < rank.len() ==> (#[trigger] rank[k]) < rank.len()
    &&& forall|k: int, l: int| 0 <= k < l < rank.len() ==> rank[k] != rank[l]
    &&& forall|b: int, k: int|
        #![trigger in_block(edge_parts, b, k), rank[k]]
        in_block(edge_parts, b, k) && k < rank.len() ==> in_block(edge_parts, b, rank.len() - 1 - rank[k])
}

/// Whether `key` holds the ranks of the edges of the vertex `v`, in rising
/// order.
pub open spec fn is_vertex_key(key: Seq<usize>, edges: Seq<Set<nat>>, v: nat, rank: Seq<usize>) -> bool {
    exists|list: Seq<usize>| #[trigger] is_edge_listing(list, edges, v) && is_key(key, list, rank)
}

/// Whether the vertices stand inside each block in the order of their
/// keys under the ranks `rank` of the edges.
pub open spec fn vertices_in_order_by(edges: Seq<Set<nat>>, node_parts: Seq<usize>, rank: Seq<usize>) -> bool {
    forall|b: int, i: int, j: int, first: Seq<usize>, second: Seq<usize>|
        #![trigger in_block(node_parts, b, i), in_block(node_parts, b, j), is_vertex_key(first, edges, i as nat, rank), is_vertex_key(second, edges, j as nat, rank)]
        in_block(node_parts, b, i) && in_block(node_parts, b, j) && i < j && is_vertex_key(
            first,
            edges,
            i as nat,
            rank,
        ) && is_vertex_key(second, edges, j as nat, rank) ==> !lex_less(second, first)
}

/// Whether the vertices stand inside each block in the order of their
/// keys, the key of a vertex being the ranks of its edges in rising order.
/// The rank of an edge is its place counted from the end, but for a
/// rearrangement of the ranks inside each block of edges: the vertices are
/// put in order before the edges are put in order for the last time.
pub open spec fn vertices_in_order(edges: Seq<Set<nat>>, node_parts: Seq<usize>, edge_parts: Seq<usize>) -> bool {
    exists|rank: Seq<usize>|
        rank.len() == edges.len() && keeps_blocks(rank, edge_parts) && #[trigger] vertices_in_order_by(
            edges,
            node_parts,
            rank,
        )
}

/// The key by which a vertex was put in its place holds the ranks of its
/// edges.
proof fn lemma_vertex_key(
    new: Seq<Set<nat>>,
    edges: Seq<Set<nat>>,
    dual: Seq<Vec<usize>>,
    key: Seq<usize>,
    rank_then: Seq<usize>,
    rank: Seq<usize>,
    node_map: Seq<usize>,
    edge_map: Seq<usize>,
    i: int,
    other: Seq<usize>,
)
    requires
        is_permutation(node_map),
        is_permutation(edge_map),
        edges.len() == edge_map.len(),
        new.len() == edges.len(),
        is_dual(dual, edges, node_map.len()),
        forall|k: int| 0 <= k < new.len() ==> #[trigger] new[k] == remapped(edges[edge_map[k] as int], node_map),
        rank_then.len() == edges.len(),
        rank.len() == edges.len(),
        forall|k: int| 0 <= k < edge_map.len() ==> #[trigger] rank[k] == rank_then[edge_map[k] as int],
        0 <= i < node_map.len(),
        is_key(key, dual[node_map[i] as int]@, rank_then),
        is_vertex_key(other, new, i as nat, rank),
    ensures
        key == other,
{
    let v = node_map[i] as int;
    let list = choose|list: Seq<usize>| #[trigger] is_edge_listing(list, new, i as nat) && is_key(other, list, rank);
    assert(is_edge_listing(dual[v]@, edges, v as nat));
    let carried = crate::coarsest::carried(rank, edge_map);
    assert(carried =~= rank_then) by {
        assert forall|e: int| 0 <= e < edges.len() implies carried[e] == rank_then[e] by {
            lemma_permutation_onto(edge_map, e);
            let k = choose|k: int| 0 <= k < edge_map.len() && edge_map[k] == e;
            crate::coarsest::lemma_carried(rank, edge_map, k);
        }
    }
    assert forall|c: usize| places_of(key, c as int).len() == #[trigger] places_of(other, c as int).len() by {
        lemma_node_key_counts(other, list, new, i as nat, rank, c as int);
        crate::coarsest::lemma_relabel_edges_coloured(new, edges, node_map, edge_map, rank, i, c as int);
        lemma_node_key_counts(key, dual[v]@, edges, v as nat, rank_then, c as int);
    }
    let p = choose|p: Seq<int>| #[trigger] is_sorted_keys(key, colours_of(dual[v]@, rank_then), p);
    let q = choose|q: Seq<int>| #[trigger] is_sorted_keys(other, colours_of(list, rank), q);
    lemma_counts_fix_key(key, other);
}

/// Vertices that stand inside each block in the order of the keys by which
/// they were sorted stand in order once they are renumbered.
#[verifier::rlimit(40)]
pub proof fn lemma_vertices_in_order(
    new: Seq<Set<nat>>,
    edges: Seq<Set<nat>>,
    node_parts: Seq<usize>,
    edge_parts: Seq<usize>,
    dual: Seq<Vec<usize>>,
    keys: Seq<Vec<usize>>,
    rank_then: Seq<usize>,
    edges_then: Seq<usize>,
    node_map: Seq<usize>,
    edge_map: Seq<usize>,
)
    requires
        node_map.len() >= 1,
        edge_map.len() >= 1,
        is_partition(node_parts, node_map.len()),
        is_partition(edge_parts, edge_map.len()),
        is_permutation(node_map),
        is_permutation(edge_map),
        is_permutation(edges_then),
        edges_then.len() == edge_map.len(),
        edges.len() == edge_map.len(),
        new.len() == edges.len(),
        is_dual(dual, edges, node_map.len()),
        forall|k: int| 0 <= k < new.len() ==> #[trigger] new[k] == remapped(edges[edge_map[k] as int], node_map),
        is_ranking(rank_then, edges_then),
        holds_blocks(edge_map, edges_then, edge_parts),
        keys.len() == node_map.len(),
        forall|v: int| 0 <= v < node_map.len() ==> is_key(#[trigger] keys[v]@, dual[v]@, rank_then),
        crate::sorter::blocks_sorted(node_map, node_parts, keys),
    ensures
        vertices_in_order(new, node_parts, edge_parts),
{
    let m = edge_map.len();
    let n = node_map.len();
    let rank = Seq::new(m, |k: int| rank_then[edge_map[k] as int]);
    assert(keeps_blocks(rank, edge_parts)) by {
        assert forall|k: int| 0 <= k < rank.len() implies (#[trigger] rank[k]) < rank.len() by {
            lemma_permutation_onto(edges_then, edge_map[k] as int);
            let p = choose|p: int| 0 <= p < edges_then.len() && edges_then[p] == edge_map[k] as int;
            assert(rank_then[edges_then[p] as int] == m - 1 - p);
        }
        assert forall|k: int, l: int| 0 <= k < l < rank.len() implies rank[k] != rank[l] by {
            lemma_permutation_onto(edges_then, edge_map[k] as int);
            lemma_permutation_onto(edges_then, edge_map[l] as int);
            let p = choose|p: int| 0 <= p < edges_then.len() && edges_then[p] == edge_map[k] as int;
            let q = choose|q: int| 0 <= q < edges_then.len() && edges_then[q] == edge_map[l] as int;
            assert(rank_then[edges_then[p] as int] == m - 1 - p);
            assert(rank_then[edges_then[q] as int] == m - 1 - q);
            assert(edge_map[k] != edge_map[l]);
        }
        assert forall|b: int, k: int|
            #![trigger in_block(edge_parts, b, k), rank[k]]
            in_block(edge_parts, b, k) && k < rank.len() implies in_block(edge_parts, b, rank.len() - 1 - rank[k]) by {
            assert(crate::sorter::stands_in_block(edges_then, edge_parts, b, edge_map[k]));
            let j = choose|j: int| in_block(edge_parts, b, j) && edges_then[j] == edge_map[k];
            assert(j < m) by {
                if b + 1 < edge_parts.len() - 1 {
                    assert(edge_parts[b + 1] < edge_parts[edge_parts.len() - 1]);
                }
            }
            assert(rank_then[edges_then[j] as int] == m - 1 - j);
        }
    }
    assert(vertices_in_order_by(new, node_parts, rank)) by {
        assert forall|b: int, i: int, j: int, first: Seq<usize>, second: Seq<usize>|
            #![trigger in_block(node_parts, b, i), in_block(node_parts, b, j), is_vertex_key(first, new, i as nat, rank), is_vertex_key(second, new, j as nat, rank)]
            in_block(node_parts, b, i) && in_block(node_parts, b, j) && i < j && is_vertex_key(
                first,
                new,
                i as nat,
                rank,
            ) && is_vertex_key(second, new, j as nat, rank) implies !lex_less(second, first) by {
            assert(j < n) by {
                if b + 1 < node_parts.len() - 1 {
                    assert(node_parts[b + 1] < node_parts[node_parts.len() - 1]);
                }
            }
            let v = node_map[i] as int;
            let w = node_map[j] as int;
            lemma_vertex_key(new, edges, dual, keys[v]@, rank_then, rank, node_map, edge_map, i, first);
            lemma_vertex_key(new, edges, dual, keys[w]@, rank_then, rank, node_map, edge_map, j, second);
        }
    }
}

} // verus!
