//! What the structural classes say: edges of one class hold equally many
//! vertices of each class of vertices.

use vstd::prelude::*;
use vstd::set_lib::{lemma_int_range, lemma_map_size, set_int_range};
use crate::bitset::{is_listing, remapped, within};
use crate::order::{is_permutation, is_rearrangement, is_sorted_keys, lemma_permutation_onto, lemma_rearrangement_onto};
use crate::hypergraph::{is_dual, is_edge_listing, is_partition};
use crate::sorter::{
    colours_of, holds_blocks, in_block, is_boundary, is_edge_key, is_key, keys_differ_at,
    stands_in_block,
};

verus! {

/// The vertices of the edge that have the colour `c`.
pub open spec fn coloured(edge: Set<nat>, colour: Seq<usize>, c: int) -> Set<nat> {
    Set::new(|v: nat| edge.contains(v) && v < colour.len() && colour[v as int] == c)
}

/// The places at which the key holds `c`.
pub open spec fn places_of(key: Seq<usize>, c: int) -> Set<int> {
    Set::new(|i: int| 0 <= i < key.len() && key[i] == c)
}

/// The places at which a key holds a colour are finite in number.
pub proof fn lemma_places_finite(key: Seq<usize>, c: int)
    ensures
        places_of(key, c).finite(),
{
    lemma_int_range(0, key.len() as int);
    assert(places_of(key, c).subset_of(set_int_range(0, key.len() as int)));
    vstd::set_lib::lemma_set_subset_finite(set_int_range(0, key.len() as int), places_of(key, c));
}

/// The key of an edge holds each colour as often as the edge has vertices
/// of that colour.
pub proof fn lemma_key_counts(key: Seq<usize>, edge: Set<nat>, colour: Seq<usize>, c: int)
    requires
        is_edge_key(key, edge, colour),
        forall|v: nat| edge.contains(v) ==> v < colour.len(),
    ensures
        coloured(edge, colour, c).finite(),
        coloured(edge, colour, c).len() == places_of(key, c).len(),
{
    let members = choose|members: Seq<usize>|
        #[trigger] is_listing(members, edge) && is_key(key, members, colour);
    let cols = colours_of(members, colour);
    let p = choose|p: Seq<int>| #[trigger] is_sorted_keys(key, cols, p);
    let x = places_of(key, c);
    let y = places_of(cols, c);
    let v = coloured(edge, colour, c);
    lemma_places_finite(key, c);
    lemma_places_finite(cols, c);
    let f = |i: int| p[i];
    assert(x.map(f) =~= y) by {
        assert forall|j: int| y.contains(j) implies x.map(f).contains(j) by {
            lemma_rearrangement_onto(p, cols.len(), j);
            let i = choose|i: int| 0 <= i < cols.len() && p[i] == j;
            assert(key[i] == cols[p[i]]);
            assert(x.contains(i) && f(i) == j);
        }
        assert forall|j: int| x.map(f).contains(j) implies y.contains(j) by {
            let i = choose|i: int| x.contains(i) && f(i) == j;
            assert(key[i] == cols[p[i]]);
        }
    }
    assert(vstd::relations::injective_on(f, x)) by {
        assert forall|a: int, b: int| x.contains(a) && x.contains(b) && #[trigger] f(a) == #[trigger] f(
            b,
        ) implies a == b by {
            if a < b {
                assert(p[a] != p[b]);
            } else if b < a {
                assert(p[b] != p[a]);
            }
        }
    }
    lemma_map_size(x, y, f);
    let g = |j: int| members[j] as nat;
    assert(y.map(g) =~= v) by {
        assert forall|w: nat| v.contains(w) implies y.map(g).contains(w) by {
            let j = choose|j: int| 0 <= j < members.len() && members[j] == w;
            assert(cols[j] == colour[members[j] as int]);
            assert(y.contains(j) && g(j) == w);
        }
        assert forall|w: nat| y.map(g).contains(w) implies v.contains(w) by {
            let j = choose|j: int| y.contains(j) && g(j) == w;
            assert(cols[j] == colour[members[j] as int]);
            assert(edge.contains(members[j] as nat));
        }
    }
    assert(vstd::relations::injective_on(g, y)) by {
        assert forall|a: int, b: int| y.contains(a) && y.contains(b) && #[trigger] g(a) == #[trigger] g(
            b,
        ) implies a == b by {
            if a < b {
                assert(members[a] < members[b]);
            } else if b < a {
                assert(members[b] < members[a]);
            }
        }
    }
    lemma_map_size(y, v, g);
}

/// A renumbered edge holds as many vertices in a range of places as the edge
/// has vertices of the colour that the vertices at these places have.
pub proof fn lemma_relabel_counts(
    new: Set<nat>,
    old: Set<nat>,
    perm: Seq<usize>,
    colour: Seq<usize>,
    lo: int,
    hi: int,
    c: int,
)
    requires
        is_permutation(perm),
        new == remapped(old, perm),
        forall|v: nat| old.contains(v) ==> v < perm.len(),
        colour.len() == perm.len(),
        forall|i: int| 0 <= i < perm.len() ==> (colour[#[trigger] perm[i] as int] == c <==> lo <= i < hi),
    ensures
        within(new, lo, hi).finite(),
        within(new, lo, hi).len() == coloured(old, colour, c).len(),
{
    let x = within(new, lo, hi);
    let y = coloured(old, colour, c);
    let all = Set::new(|i: nat| i < perm.len());
    assert(all.finite()) by {
        let ints = set_int_range(0, perm.len() as int);
        lemma_int_range(0, perm.len() as int);
        let h = |i: int| i as nat;
        assert(ints.map(h) =~= all) by {
            assert forall|i: nat| all.contains(i) implies ints.map(h).contains(i) by {
                assert(ints.contains(i as int) && h(i as int) == i);
            }
        }
        vstd::set_lib::lemma_map_size_bound(ints, all, h);
    }
    assert(x.subset_of(all));
    vstd::set_lib::lemma_set_subset_finite(all, x);
    let f = |i: nat| perm[i as int] as nat;
    assert(x.map(f) =~= y) by {
        assert forall|v: nat| y.contains(v) implies x.map(f).contains(v) by {
            lemma_permutation_onto(perm, v as int);
            let i = choose|i: int| 0 <= i < perm.len() && perm[i] == v;
            assert(colour[perm[i] as int] == c);
            assert(x.contains(i as nat) && f(i as nat) == v);
        }
        assert forall|v: nat| x.map(f).contains(v) implies y.contains(v) by {
            let i = choose|i: nat| x.contains(i) && f(i) == v;
            assert(colour[perm[i as int] as int] == c);
        }
    }
    assert(vstd::relations::injective_on(f, x)) by {
        assert forall|a: nat, b: nat| x.contains(a) && x.contains(b) && #[trigger] f(a) == #[trigger] f(
            b,
        ) implies a == b by {
            if a < b {
                assert(perm[a as int] != perm[b as int]);
            } else if b < a {
                assert(perm[b as int] != perm[a as int]);
            }
        }
    }
    lemma_map_size(x, y, f);
}

/// A place lies in one block only.
pub proof fn lemma_one_block(parts: Seq<usize>, a: int, b: int, i: int)
    requires
        forall|x: int, y: int| 0 <= x < y < parts.len() ==> parts[x] < parts[y],
        in_block(parts, a, i),
        in_block(parts, b, i),
    ensures
        a == b,
{
    if a < b {
        if a + 1 < b {
            assert(parts[a + 1] < parts[b]);
        }
    } else if b < a {
        if b + 1 < a {
            assert(parts[b + 1] < parts[a]);
        }
    }
}

/// Where the blocks are the runs of equal keys, the entries of one block
/// have one key.
pub proof fn lemma_block_has_one_key(
    parts: Seq<usize>,
    order: Seq<usize>,
    keys: Seq<Vec<usize>>,
    b: int,
    i: int,
    j: int,
)
    requires
        forall|x: int, y: int| 0 <= x < y < parts.len() ==> parts[x] < parts[y],
        parts.len() >= 1 ==> parts[parts.len() - 1] <= order.len(),
        forall|k: int| 1 <= k < order.len() ==> (#[trigger] is_boundary(parts, k) <==> keys_differ_at(order, keys, k)),
        in_block(parts, b, i),
        in_block(parts, b, j),
        i <= j,
    ensures
        keys[order[i] as int]@ == keys[order[j] as int]@,
    decreases j - i,
{
    if i < j {
        lemma_block_has_one_key(parts, order, keys, b, i, j - 1);
        assert(!is_boundary(parts, j)) by {
            if is_boundary(parts, j) {
                let x = choose|x: int| 0 <= x < parts.len() && parts[x] == j;
                if x <= b {
                    if x < b {
                        assert(parts[x] < parts[b]);
                    }
                } else {
                    if b + 1 < x {
                        assert(parts[b + 1] < parts[x]);
                    }
                }
            }
        }
        assert(j < order.len()) by {
            if b + 1 < parts.len() - 1 {
                assert(parts[b + 1] < parts[parts.len() - 1]);
            }
        }
        assert(!keys_differ_at(order, keys, j));
    }
}

/// Whether the edges of one block hold equally many vertices of each block
/// of vertices.
pub open spec fn classes_agree(edges: Seq<Set<nat>>, node_parts: Seq<usize>, edge_parts: Seq<usize>) -> bool {
    forall|b: int, k: int, l: int, c: int|
        #![trigger in_block(edge_parts, b, k), in_block(edge_parts, b, l), in_block(node_parts, c, node_parts[c] as int)]
        in_block(edge_parts, b, k) && in_block(edge_parts, b, l) && in_block(
            node_parts,
            c,
            node_parts[c] as int,
        ) ==> within(edges[k], node_parts[c] as int, node_parts[c + 1] as int).len() == within(
            edges[l],
            node_parts[c] as int,
            node_parts[c + 1] as int,
        ).len()
}

/// The vertex at a place has the colour of the block of the place, also
/// after the vertices are put into another order that keeps the blocks.
proof fn lemma_place_colour(
    node_parts: Seq<usize>,
    colour: Seq<usize>,
    nodes_then: Seq<usize>,
    node_map: Seq<usize>,
    i: int,
    c: int,
)
    requires
        node_map.len() >= 1,
        is_partition(node_parts, node_map.len()),
        colour.len() == node_map.len(),
        is_permutation(nodes_then),
        forall|i: int|
            0 <= i < node_map.len() ==> in_block(
                node_parts,
                colour[#[trigger] nodes_then[i] as int] as int,
                i,
            ),
        holds_blocks(node_map, nodes_then, node_parts),
        0 <= i < node_map.len(),
        0 <= c < node_parts.len() - 1,
    ensures
        colour[node_map[i] as int] == c <==> node_parts[c] <= i < node_parts[c + 1],
{
    let n = node_map.len() as int;
    let d = colour[nodes_then[i] as int] as int;
    assert(in_block(node_parts, d, i));
    assert(stands_in_block(nodes_then, node_parts, d, node_map[i]));
    let j = choose|j: int| in_block(node_parts, d, j) && nodes_then[j] == node_map[i];
    assert(j < n) by {
        if d + 1 < node_parts.len() - 1 {
            assert(node_parts[d + 1] < node_parts[node_parts.len() - 1]);
        }
    }
    assert(in_block(node_parts, colour[nodes_then[j] as int] as int, j));
    lemma_one_block(node_parts, d, colour[nodes_then[j] as int] as int, j);
    if node_parts[c] <= i < node_parts[c + 1] {
        assert(in_block(node_parts, c, i));
        lemma_one_block(node_parts, c, d, i);
    }
}

/// Once the classes are settled, putting the edges and the vertices into
/// an order that keeps the blocks gives classes that agree.
pub proof fn lemma_classes_agree(
    new: Seq<Set<nat>>,
    edges: Seq<Set<nat>>,
    node_parts: Seq<usize>,
    edge_parts: Seq<usize>,
    colour: Seq<usize>,
    class_keys: Seq<Vec<usize>>,
    nodes_then: Seq<usize>,
    edges_then: Seq<usize>,
    node_map: Seq<usize>,
    edge_map: Seq<usize>,
)
    requires
        node_map.len() >= 1,
        edge_map.len() >= 1,
        is_partition(node_parts, node_map.len()),
        is_partition(edge_parts, edge_map.len()),
        edges.len() == edge_map.len(),
        forall|e: int, v: nat| 0 <= e < edges.len() && #[trigger] edges[e].contains(v) ==> v < node_map.len(),
        colour.len() == node_map.len(),
        class_keys.len() == edge_map.len(),
        is_permutation(nodes_then),
        is_permutation(edges_then),
        is_permutation(node_map),
        is_permutation(edge_map),
        forall|i: int|
            0 <= i < node_map.len() ==> in_block(
                node_parts,
                colour[#[trigger] nodes_then[i] as int] as int,
                i,
            ),
        forall|e: int| 0 <= e < edges.len() ==> is_edge_key(#[trigger] class_keys[e]@, edges[e], colour),
        forall|i: int|
            1 <= i < edge_map.len() ==> (#[trigger] is_boundary(edge_parts, i) <==> keys_differ_at(
                edges_then,
                class_keys,
                i,
            )),
        holds_blocks(node_map, nodes_then, node_parts),
        holds_blocks(edge_map, edges_then, edge_parts),
        new.len() == edges.len(),
        forall|k: int| 0 <= k < new.len() ==> #[trigger] new[k] == remapped(edges[edge_map[k] as int], node_map),
    ensures
        classes_agree(new, node_parts, edge_parts),
{
    assert forall|b: int, k: int, l: int, c: int|
        #![trigger in_block(edge_parts, b, k), in_block(edge_parts, b, l), in_block(node_parts, c, node_parts[c] as int)]
        in_block(edge_parts, b, k) && in_block(edge_parts, b, l) && in_block(
            node_parts,
            c,
            node_parts[c] as int,
        ) implies within(new[k], node_parts[c] as int, node_parts[c + 1] as int).len() == within(
        new[l],
        node_parts[c] as int,
        node_parts[c + 1] as int,
    ).len() by {
        let m = edge_map.len() as int;
        assert(k < m && l < m) by {
            if b + 1 < edge_parts.len() - 1 {
                assert(edge_parts[b + 1] < edge_parts[edge_parts.len() - 1]);
            }
        }
        assert(stands_in_block(edges_then, edge_parts, b, edge_map[k]));
        assert(stands_in_block(edges_then, edge_parts, b, edge_map[l]));
        let x = choose|x: int| in_block(edge_parts, b, x) && edges_then[x] == edge_map[k];
        let y = choose|y: int| in_block(edge_parts, b, y) && edges_then[y] == edge_map[l];
        if x <= y {
            lemma_block_has_one_key(edge_parts, edges_then, class_keys, b, x, y);
        } else {
            lemma_block_has_one_key(edge_parts, edges_then, class_keys, b, y, x);
        }
        let ek = edge_map[k] as int;
        let el = edge_map[l] as int;
        lemma_key_counts(class_keys[ek]@, edges[ek], colour, c);
        lemma_key_counts(class_keys[el]@, edges[el], colour, c);
        let lo = node_parts[c] as int;
        let hi = node_parts[c + 1] as int;
        assert forall|i: int| 0 <= i < node_map.len() implies (colour[#[trigger] node_map[i] as int] == c
            <==> lo <= i < hi) by {
            lemma_place_colour(node_parts, colour, nodes_then, node_map, i, c);
        }
        lemma_relabel_counts(new[k], edges[ek], node_map, colour, lo, hi, c);
        lemma_relabel_counts(new[l], edges[el], node_map, colour, lo, hi, c);
    }
}

/// The edges that hold the vertex.
pub open spec fn edges_at(edges: Seq<Set<nat>>, v: nat) -> Set<int> {
    Set::new(|e: int| 0 <= e < edges.len() && edges[e].contains(v))
}

/// Whether the vertices of one block lie in equally many edges.
pub open spec fn degrees_agree(edges: Seq<Set<nat>>, node_parts: Seq<usize>) -> bool {
    forall|c: int, i: int, j: int|
        #![trigger in_block(node_parts, c, i), in_block(node_parts, c, j)]
        in_block(node_parts, c, i) && in_block(node_parts, c, j) ==> edges_at(edges, i as nat).len()
            == edges_at(edges, j as nat).len()
}

/// A vertex lies in as many edges as the list of its edges is long.
pub proof fn lemma_degree_is_listed(list: Seq<usize>, edges: Seq<Set<nat>>, v: nat)
    requires
        is_edge_listing(list, edges, v),
    ensures
        edges_at(edges, v).finite(),
        edges_at(edges, v).len() == list.len(),
{
    let x = set_int_range(0, list.len() as int);
    let y = edges_at(edges, v);
    lemma_int_range(0, list.len() as int);
    let f = |i: int| list[i] as int;
    assert(x.map(f) =~= y) by {
        assert forall|e: int| y.contains(e) implies x.map(f).contains(e) by {
            let i = choose|i: int| 0 <= i < list.len() && list[i] == e;
            assert(x.contains(i) && f(i) == e);
        }
        assert forall|e: int| x.map(f).contains(e) implies y.contains(e) by {
            let i = choose|i: int| x.contains(i) && f(i) == e;
            assert(list[i] < edges.len());
        }
    }
    assert(vstd::relations::injective_on(f, x)) by {
        assert forall|a: int, b: int| x.contains(a) && x.contains(b) && #[trigger] f(a) == #[trigger] f(
            b,
        ) implies a == b by {
            if a < b {
                assert(list[a] < list[b]);
            } else if b < a {
                assert(list[b] < list[a]);
            }
        }
    }
    lemma_map_size(x, y, f);
}

/// A renumbered vertex lies in as many edges as it did.
pub proof fn lemma_relabel_degree(
    new: Seq<Set<nat>>,
    edges: Seq<Set<nat>>,
    node_map: Seq<usize>,
    edge_map: Seq<usize>,
    i: int,
)
    requires
        is_permutation(node_map),
        is_permutation(edge_map),
        edges.len() == edge_map.len(),
        new.len() == edges.len(),
        forall|k: int| 0 <= k < new.len() ==> #[trigger] new[k] == remapped(edges[edge_map[k] as int], node_map),
        0 <= i < node_map.len(),
    ensures
        edges_at(new, i as nat).finite(),
        edges_at(new, i as nat).len() == edges_at(edges, node_map[i] as nat).len(),
{
    let x = edges_at(new, i as nat);
    let y = edges_at(edges, node_map[i] as nat);
    lemma_int_range(0, new.len() as int);
    assert(x.subset_of(set_int_range(0, new.len() as int)));
    vstd::set_lib::lemma_set_subset_finite(set_int_range(0, new.len() as int), x);
    let f = |k: int| edge_map[k] as int;
    assert(x.map(f) =~= y) by {
        assert forall|e: int| y.contains(e) implies x.map(f).contains(e) by {
            lemma_permutation_onto(edge_map, e);
            let k = choose|k: int| 0 <= k < edge_map.len() && edge_map[k] == e;
            assert(new[k] == remapped(edges[edge_map[k] as int], node_map));
            assert(x.contains(k) && f(k) == e);
        }
        assert forall|e: int| x.map(f).contains(e) implies y.contains(e) by {
            let k = choose|k: int| x.contains(k) && f(k) == e;
            assert(new[k] == remapped(edges[edge_map[k] as int], node_map));
        }
    }
    assert(vstd::relations::injective_on(f, x)) by {
        assert forall|a: int, b: int| x.contains(a) && x.contains(b) && #[trigger] f(a) == #[trigger] f(
            b,
        ) implies a == b by {
            if a < b {
                assert(edge_map[a] != edge_map[b]);
            } else if b < a {
                assert(edge_map[b] != edge_map[a]);
            }
        }
    }
    lemma_map_size(x, y, f);
}

/// Once the classes are settled, putting the edges and the vertices into
/// an order that keeps the blocks gives vertices whose degrees agree.
pub proof fn lemma_degrees_agree(
    new: Seq<Set<nat>>,
    edges: Seq<Set<nat>>,
    node_parts: Seq<usize>,
    node_keys: Seq<Vec<usize>>,
    dual: Seq<Vec<usize>>,
    nodes_then: Seq<usize>,
    node_map: Seq<usize>,
    edge_map: Seq<usize>,
)
    requires
        node_map.len() >= 1,
        is_partition(node_parts, node_map.len()),
        is_dual(dual, edges, node_map.len()),
        node_keys.len() == node_map.len(),
        forall|v: int| 0 <= v < node_map.len() ==> (#[trigger] node_keys[v])@.len() == dual[v]@.len(),
        forall|i: int|
            1 <= i < node_map.len() ==> (#[trigger] is_boundary(node_parts, i) <==> keys_differ_at(
                nodes_then,
                node_keys,
                i,
            )),
        is_permutation(nodes_then),
        nodes_then.len() == node_map.len(),
        is_permutation(node_map),
        is_permutation(edge_map),
        holds_blocks(node_map, nodes_then, node_parts),
        edges.len() == edge_map.len(),
        new.len() == edges.len(),
        forall|k: int| 0 <= k < new.len() ==> #[trigger] new[k] == remapped(edges[edge_map[k] as int], node_map),
    ensures
        degrees_agree(new, node_parts),
{
    assert forall|c: int, i: int, j: int|
        #![trigger in_block(node_parts, c, i), in_block(node_parts, c, j)]
        in_block(node_parts, c, i) && in_block(node_parts, c, j) implies edges_at(new, i as nat).len()
        == edges_at(new, j as nat).len() by {
        let n = node_map.len() as int;
        assert(i < n && j < n) by {
            if c + 1 < node_parts.len() - 1 {
                assert(node_parts[c + 1] < node_parts[node_parts.len() - 1]);
            }
        }
        assert(stands_in_block(nodes_then, node_parts, c, node_map[i]));
        assert(stands_in_block(nodes_then, node_parts, c, node_map[j]));
        let x = choose|x: int| in_block(node_parts, c, x) && nodes_then[x] == node_map[i];
        let y = choose|y: int| in_block(node_parts, c, y) && nodes_then[y] == node_map[j];
        if x <= y {
            lemma_block_has_one_key(node_parts, nodes_then, node_keys, c, x, y);
        } else {
            lemma_block_has_one_key(node_parts, nodes_then, node_keys, c, y, x);
        }
        let v = node_map[i] as int;
        let w = node_map[j] as int;
        assert(node_keys[v]@.len() == node_keys[w]@.len());
        lemma_degree_is_listed(dual[v]@, edges, v as nat);
        lemma_degree_is_listed(dual[w]@, edges, w as nat);
        lemma_relabel_degree(new, edges, node_map, edge_map, i);
        lemma_relabel_degree(new, edges, node_map, edge_map, j);
    }
}

} // verus!
