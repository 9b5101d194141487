//! The upper bound of the nimber: what the search finds for a position is
//! never more than the number of its vertices, and zero where the position
//! has a mirror.

use vstd::prelude::*;
use vstd::set_lib::{lemma_int_range, lemma_len_subset, lemma_set_disjoint_lens, set_int_range};
use crate::construct::{edges_minus, is_construction, positions_of};
use crate::game::{graphs_of, TakingGame};
use crate::hypergraph::{blocks_of, used_vertices, StructuredHypergraph};
use crate::moves::{
    choice, classes_of, is_left_of, is_shapes_by_class, is_shapes_of_edge, is_split_shapes, joined,
    move_count, removal, without_top,
};
use crate::nimber::{
    has_edges, is_key_value, is_mex, is_search, is_sum_of, is_sum_value, is_value,
    lemma_same_edges_same_size, one_for_each, one_per_game, size_bound, xor_all,
};

verus! {

/// The sum of the numbers.
pub open spec fn sum_all(ws: Seq<usize>) -> nat
    decreases ws.len(),
{
    if ws.len() == 0 {
        0
    } else {
        sum_all(ws.drop_last()) + ws.last() as nat
    }
}

/// The number of vertices of all the positions together.
pub open spec fn total_nodes(parts: Seq<StructuredHypergraph>) -> nat
    decreases parts.len(),
{
    if parts.len() == 0 {
        0
    } else {
        total_nodes(parts.drop_last()) + parts.last().nodes@.len()
    }
}

/// The nim-sum of numbers is no more than their sum.
pub proof fn lemma_xor_below_sum(ws: Seq<usize>)
    requires
        sum_all(ws) <= 0x1000,
    ensures
        xor_all(ws) <= sum_all(ws),
    decreases ws.len(),
{
    if ws.len() > 0 {
        lemma_xor_below_sum(ws.drop_last());
        let x = xor_all(ws.drop_last());
        let y = ws.last();
        assert(x ^ y <= x + y) by (bit_vector)
            requires
                x <= 0x1000usize,
                y <= 0x1000usize,
        ;
    }
}

/// Numbers that are each no more than the number of vertices of their
/// position are together no more than the number of all vertices.
pub proof fn lemma_sum_below_total(ws: Seq<usize>, parts: Seq<StructuredHypergraph>)
    requires
        ws.len() == parts.len(),
        forall|c: int| 0 <= c < ws.len() ==> #[trigger] ws[c] <= parts[c].nodes@.len(),
    ensures
        sum_all(ws) <= total_nodes(parts),
    decreases ws.len(),
{
    if ws.len() > 0 {
        lemma_sum_below_total(ws.drop_last(), parts.drop_last());
        assert(ws.last() == ws[ws.len() - 1]);
    }
}

/// The vertices of the whole that the first `upto` parts came from.
pub open spec fn origins_upto(provs: Seq<(Seq<nat>, Seq<int>)>, upto: int) -> Set<int> {
    Set::new(|x: int| exists|c: int, i: int| 0 <= c < upto && 0 <= i < provs[c].0.len() && #[trigger] provs[c].0[i] == x)
}

proof fn lemma_origins_count(
    parts: Seq<StructuredHypergraph>,
    provs: Seq<(Seq<nat>, Seq<int>)>,
    edges: Seq<Set<nat>>,
    nodes: Seq<usize>,
    v: nat,
    upto: int,
)
    requires
        is_construction(parts, provs, edges, nodes),
        v < nodes.len(),
        !used_vertices(edges).contains(v),
        0 <= upto <= parts.len(),
    ensures
        origins_upto(provs, upto).finite(),
        origins_upto(provs, upto).len() == total_nodes(parts.take(upto)),
        origins_upto(provs, upto).subset_of(set_int_range(0, nodes.len() as int).remove(v as int)),
    decreases upto,
{
    let room = set_int_range(0, nodes.len() as int).remove(v as int);
    lemma_int_range(0, nodes.len() as int);
    if upto == 0 {
        assert(origins_upto(provs, 0) =~= Set::<int>::empty());
        assert(parts.take(0) =~= Seq::<StructuredHypergraph>::empty());
    } else {
        let c = upto - 1;
        lemma_origins_count(parts, provs, edges, nodes, v, c);
        let before = origins_upto(provs, c);
        let origin = provs[c].0;
        let part = parts[c];
        assert(part.wf());
        let places = Seq::new(origin.len(), |i: int| origin[i] as int);
        assert(places.no_duplicates());
        places.unique_seq_to_set();
        let mine = places.to_set();
        assert(mine.subset_of(room)) by {
            assert forall|x: int| mine.contains(x) implies room.contains(x) by {
                let i = choose|i: int| 0 <= i < places.len() && places[i] == x;
                assert(origin[i] < nodes.len());
                assert(used_vertices(part.edges()).contains(i as nat));
                let k = choose|k: int| 0 <= k < part.edges().len() && #[trigger] part.edges()[k].contains(i as nat);
                let e = provs[c].1[k];
                assert(edges[e].contains(origin[i]));
                assert(used_vertices(edges).contains(origin[i]));
            }
        }
        assert(before.disjoint(mine)) by {
            assert forall|x: int| !(before.contains(x) && mine.contains(x)) by {
                if before.contains(x) && mine.contains(x) {
                    let (d, j) = choose|d: int, j: int|
                        0 <= d < c && 0 <= j < provs[d].0.len() && #[trigger] provs[d].0[j] == x;
                    let i = choose|i: int| 0 <= i < places.len() && places[i] == x;
                    assert(provs[d].0[j] != provs[c].0[i]);
                }
            }
        }
        assert(origins_upto(provs, upto) =~= before + mine) by {
            assert forall|x: int| mine.contains(x) implies origins_upto(provs, upto).contains(x) by {
                let i = choose|i: int| 0 <= i < places.len() && places[i] == x;
                assert(provs[c].0[i] == x);
            }
            assert forall|x: int| origins_upto(provs, upto).contains(x) implies (before + mine).contains(x) by {
                let (d, j) = choose|d: int, j: int|
                    0 <= d < upto && 0 <= j < provs[d].0.len() && #[trigger] provs[d].0[j] == x;
                if d == c {
                    assert(places[j] == x);
                }
            }
        }
        lemma_set_disjoint_lens(before, mine);
        assert(parts.take(upto).drop_last() =~= parts.take(c));
        assert(parts.take(upto).last() == part);
    }
}

/// The positions that a hypergraph falls into have together fewer vertices
/// than there are labels, where some labelled vertex is in no edge.
pub proof fn lemma_parts_total(
    parts: Seq<StructuredHypergraph>,
    provs: Seq<(Seq<nat>, Seq<int>)>,
    edges: Seq<Set<nat>>,
    nodes: Seq<usize>,
    v: nat,
)
    requires
        is_construction(parts, provs, edges, nodes),
        v < nodes.len(),
        !used_vertices(edges).contains(v),
    ensures
        total_nodes(parts) < nodes.len(),
{
    lemma_origins_count(parts, provs, edges, nodes, v, parts.len() as int);
    lemma_int_range(0, nodes.len() as int);
    let room = set_int_range(0, nodes.len() as int).remove(v as int);
    lemma_len_subset(origins_upto(provs, parts.len() as int), room);
    assert(parts.take(parts.len() as int) =~= parts);
}

/// What is left of a class without its largest members holds no vertex
/// that the class does not hold, and all but those taken away.
proof fn lemma_without_top(s: Set<nat>, j: nat)
    requires
        s.finite(),
    ensures
        without_top(s, j).finite(),
        without_top(s, j).subset_of(s),
        without_top(s, j).len() + j >= s.len(),
    decreases j,
{
    if j > 0 {
        lemma_without_top(s, (j - 1) as nat);
    }
}

/// A choice but the first takes some vertex of the class, and no choice
/// takes a vertex from elsewhere.
proof fn lemma_choice(s: Set<nat>, d: nat)
    requires
        s.finite(),
        d <= s.len(),
    ensures
        choice(s, d).subset_of(s),
        d >= 1 ==> choice(s, d) != Set::<nat>::empty(),
{
    if d >= 1 {
        if d >= s.len() {
            assert(s.len() >= 1);
            if s =~= Set::<nat>::empty() {
            }
        } else {
            lemma_without_top(s, d);
            assert(without_top(s, d).len() >= 1);
            if without_top(s, d) =~= Set::<nat>::empty() {
            }
        }
    }
}

/// A move but the first takes some vertex, and every move takes vertices
/// of the classes only.
pub proof fn lemma_removal_takes(parts: Seq<Set<nat>>, t: nat, whole: Set<nat>)
    requires
        forall|i: int| 0 <= i < parts.len() ==> (#[trigger] parts[i]).subset_of(whole),
        forall|i: int| 0 <= i < parts.len() ==> (#[trigger] parts[i]).finite(),
        t < move_count(parts),
    ensures
        removal(parts, t).subset_of(whole),
        t >= 1 ==> removal(parts, t) != Set::<nat>::empty(),
    decreases parts.len(),
{
    if parts.len() > 0 {
        let last = parts.last();
        let l = last.len() + 1;
        let rest = parts.drop_last();
        assert(last == parts[parts.len() - 1]);
        assert forall|i: int| 0 <= i < rest.len() implies (#[trigger] rest[i]).subset_of(whole) && rest[i].finite() by {
            assert(rest[i] == parts[i]);
        }
        assert(t / l < move_count(rest)) by (nonlinear_arith)
            requires
                t < move_count(rest) * l,
                l > 0,
        ;
        lemma_removal_takes(rest, t / l, whole);
        assert(t % l <= last.len()) by (nonlinear_arith)
            requires
                l == last.len() + 1,
        ;
        lemma_choice(last, t % l);
        if t >= 1 {
            if t % l >= 1 {
                let taken = choice(last, t % l);
                if forall|x: nat| !taken.contains(x) {
                    assert(taken =~= Set::<nat>::empty());
                }
                let x = choose|x: nat| taken.contains(x);
                assert(removal(parts, t).contains(x));
            } else {
                vstd::arithmetic::div_mod::lemma_fundamental_div_mod(t as int, l as int);
                assert(t / l >= 1) by (nonlinear_arith)
                    requires
                        t >= 1,
                        t % l == 0,
                        l > 0,
                        t == l * (t / l) + t % l,
                ;
                let taken = removal(rest, t / l);
                if forall|x: nat| !taken.contains(x) {
                    assert(taken =~= Set::<nat>::empty());
                }
                let x = choose|x: nat| taken.contains(x);
                assert(removal(parts, t).contains(x));
            }
        }
    }
}

/// Each entry of lists put one after the other is an entry of one of them.
pub proof fn lemma_joined_entry(chunks: Seq<Seq<Vec<TakingGame>>>, k: int) -> (at: (int, int))
    requires
        0 <= k < joined(chunks).len(),
    ensures
        0 <= at.0 < chunks.len(),
        0 <= at.1 < chunks[at.0].len(),
        joined(chunks)[k] == chunks[at.0][at.1],
    decreases chunks.len(),
{
    let first = joined(chunks.drop_last());
    if k < first.len() {
        let at = lemma_joined_entry(chunks.drop_last(), k);
        at
    } else {
        (chunks.len() - 1, k - first.len())
    }
}

/// What a representative move leaves has fewer vertices in all than the
/// position, and each position left is in canonical shape.
#[verifier::rlimit(40)]
pub proof fn lemma_move_is_smaller(g: StructuredHypergraph, moves: Seq<Vec<TakingGame>>, k: int)
    requires
        g.wf(),
        is_split_shapes(moves, g),
        0 <= k < moves.len(),
    ensures
        total_nodes(graphs_of(moves[k]@)) < g.nodes@.len(),
        forall|c: int| 0 <= c < moves[k]@.len() ==> (#[trigger] moves[k]@[c]).graph.wf(),
{
    let chunks = choose|chunks: Seq<Seq<Vec<TakingGame>>>| #[trigger]
        is_shapes_by_class(chunks, g) && moves == joined(chunks);
    let (b, j) = lemma_joined_entry(chunks, k);
    let eparts = g.edge_structure_partitions@;
    let e = blocks_of(eparts)[b].start as int;
    let n = g.nodes@.len();
    assert(is_shapes_of_edge(chunks[b], g, e));
    let classes = classes_of(g, e);
    let removed = removal(classes, (j + 1) as nat);
    assert(is_left_of(chunks[b][j]@, g, removed));
    let games = moves[k]@;
    let rest = edges_minus(g.edges(), removed);
    let labels = choose|labels: Seq<usize>|
        labels.len() == g.nodes@.len() && #[trigger] positions_of(graphs_of(games), rest, labels);
    let provs = choose|provs: Seq<(Seq<nat>, Seq<int>)>| is_construction(graphs_of(games), provs, rest, labels);
    assert(0 <= e < g.hyperedges@.len()) by {
        assert(eparts[b] < eparts[b + 1]);
        if b + 1 < eparts.len() - 1 {
            assert(eparts[b + 1] < eparts[eparts.len() - 1]);
        }
    }
    let whole = g.edges()[e];
    assert forall|v: nat| whole.contains(v) implies v < n by {
        assert(used_vertices(g.edges()).contains(v));
    }
    crate::coarsest::lemma_below_finite(whole, n);
    assert forall|i: int| 0 <= i < classes.len() implies (#[trigger] classes[i]).subset_of(whole)
        && classes[i].finite() by {
        vstd::set_lib::lemma_set_subset_finite(whole, classes[i]);
    }
    lemma_removal_takes(classes, (j + 1) as nat, whole);
    if forall|v: nat| !removed.contains(v) {
        assert(removed =~= Set::<nat>::empty());
    }
    let v = choose|v: nat| removed.contains(v);
    assert(whole.contains(v));
    assert(!used_vertices(rest).contains(v));
    lemma_parts_total(graphs_of(games), provs, rest, labels, v);
    assert forall|c: int| 0 <= c < games.len() implies (#[trigger] games[c]).graph.wf() by {
        assert(graphs_of(games)[c].wf());
    }
}

/// What the search finds for a position is no more than the number of its
/// vertices.
#[verifier::rlimit(40)]
pub proof fn lemma_value_below_size(g: StructuredHypergraph, n: usize)
    requires
        g.wf(),
        is_value(g, n),
    ensures
        n <= g.nodes@.len(),
    decreases g.nodes@.len(),
{
    if !g.has_symmetry() {
        let size = g.nodes@.len();
        let (moves, vals) = choose|moves: Seq<Vec<TakingGame>>, vals: Seq<usize>|
            #[trigger] one_for_each(moves, vals) && is_search(g, moves, vals, n);
        assert forall|k: int| 0 <= k < moves.len() implies #[trigger] vals[k] < size by {
            let games = moves[k]@;
            lemma_move_is_smaller(g, moves, k);
            assert(is_sum_value(games, vals[k]));
            let ws = choose|ws: Seq<usize>| #[trigger] one_per_game(games, ws) && is_sum_of(games, ws, vals[k]);
            assert forall|c: int| 0 <= c < ws.len() implies #[trigger] ws[c] <= graphs_of(games)[c].nodes@.len() by {
                let key = games[c].graph.hyperedges@;
                assert(is_key_value(key, ws[c], size_bound(games)));
                let h = choose|h: StructuredHypergraph|
                    #[trigger] has_edges(h, key) && h.nodes@.len() <= size_bound(games) && is_value(h, ws[c]);
                lemma_value_below_size(h, ws[c]);
                lemma_same_edges_same_size(h, games[c].graph);
            }
            lemma_sum_below_total(ws, graphs_of(games));
            lemma_xor_below_sum(ws);
        }
        if n > size {
            let x = size as usize;
            assert(vals.contains(x));
            let k = choose|k: int| 0 <= k < vals.len() && vals[k] == x;
            assert(vals[k] < size);
        }
    }
}

/// What the search finds for a position is no more than the upper bound of
/// its nimber: zero where the position has a mirror, else the number of
/// its vertices.
pub proof fn lemma_value_below_bound(g: StructuredHypergraph, n: usize)
    requires
        g.wf(),
        is_value(g, n),
    ensures
        n <= if g.has_symmetry() {
            0usize
        } else {
            g.nodes@.len() as usize
        },
{
    lemma_value_below_size(g, n);
}

/// Two positions in canonical shape with the same edges have the same
/// mirrors.
pub proof fn lemma_edges_fix_mirrors(g: StructuredHypergraph, h: StructuredHypergraph)
    requires
        g.wf(),
        h.wf(),
        g.hyperedges@ == h.hyperedges@,
    ensures
        g.has_symmetry() == h.has_symmetry(),
{
    crate::coarsest::lemma_edges_fix_classes(g, h);
    lemma_same_edges_same_size(g, h);
    assert(g.edges() == h.edges());
    assert forall|sigma: Seq<usize>| g.is_mirror(sigma) == h.is_mirror(sigma) by {
        assert forall|v: int, c: int| g.pair_ok(v, c) == h.pair_ok(v, c) by {}
    }
    if g.has_symmetry() {
        let sigma = choose|sigma: Seq<usize>| g.is_mirror(sigma);
        assert(h.is_mirror(sigma));
    }
    if h.has_symmetry() {
        let sigma = choose|sigma: Seq<usize>| h.is_mirror(sigma);
        assert(g.is_mirror(sigma));
    }
}

/// What the search finds for a position depends on its edges alone: it
/// finds the same for every position in canonical shape with these edges,
/// whatever labels the vertices bear.
#[verifier::rlimit(40)]
pub proof fn lemma_value_by_edges(g: StructuredHypergraph, h: StructuredHypergraph, n: usize)
    requires
        g.wf(),
        h.wf(),
        g.hyperedges@ == h.hyperedges@,
        is_value(h, n),
    ensures
        is_value(g, n),
{
    crate::coarsest::lemma_edges_fix_classes(g, h);
    lemma_same_edges_same_size(g, h);
    lemma_edges_fix_mirrors(g, h);
    assert(g.edges() == h.edges());
    if !h.has_symmetry() {
        let (moves, vals) = choose|moves: Seq<Vec<TakingGame>>, vals: Seq<usize>|
            #[trigger] one_for_each(moves, vals) && is_search(h, moves, vals, n);
        let chunks = choose|chunks: Seq<Seq<Vec<TakingGame>>>| #[trigger]
            is_shapes_by_class(chunks, h) && moves == joined(chunks);
        assert forall|b: int| 0 <= b < chunks.len() implies is_shapes_of_edge(
            #[trigger] chunks[b],
            g,
            blocks_of(g.edge_structure_partitions@)[b].start as int,
        ) by {
            let e = blocks_of(h.edge_structure_partitions@)[b].start as int;
            assert(is_shapes_of_edge(chunks[b], h, e));
            assert(classes_of(g, e) =~= classes_of(h, e));
            assert forall|k: int| 0 <= k < chunks[b].len() implies is_left_of(
                (#[trigger] chunks[b][k])@,
                g,
                removal(classes_of(g, e), (k + 1) as nat),
            ) by {
                assert(is_left_of(chunks[b][k]@, h, removal(classes_of(h, e), (k + 1) as nat)));
            }
        }
        assert(is_shapes_by_class(chunks, g) && moves == joined(chunks));
        assert(is_split_shapes(moves, g));
        assert(is_search(h, moves, vals, n));
        assert(vals.len() == moves.len());
        assert(is_mex(vals, n));
        assert forall|k: int| 0 <= k < moves.len() implies size_bound(moves[k]@) < g.nodes@.len() && is_sum_value(
            moves[k]@,
            #[trigger] vals[k],
        ) by {
            assert(is_sum_value(moves[k]@, vals[k]));
            assert(size_bound(moves[k]@) < h.nodes@.len());
        }
        assert forall|k: int| 0 <= k < moves.len() implies size_bound((#[trigger] moves[k])@) < g.nodes@.len() by {
            assert(is_sum_value(moves[k]@, vals[k]));
        }
        assert(is_search(g, moves, vals, n));
        assert(one_for_each(moves, vals) && is_search(g, moves, vals, n));
    }
}

/// What is found for the edges of a position is what the search finds for
/// the position.
pub proof fn lemma_key_value_is_value(g: StructuredHypergraph, n: usize, bound: nat)
    requires
        g.wf(),
        is_key_value(g.hyperedges@, n, bound),
    ensures
        is_value(g, n),
{
    let h = choose|h: StructuredHypergraph|
        #[trigger] has_edges(h, g.hyperedges@) && h.nodes@.len() <= bound && is_value(h, n);
    lemma_value_by_edges(g, h, n);
}

} // verus!
