//! What a nimber is: the least number that no move leads to, where a sum of
//! positions counts as the nim-sum of their nimbers.

use vstd::prelude::*;
use crate::game::TakingGame;
use crate::hypergraph::StructuredHypergraph;
use crate::moves::is_split_shapes;
use crate::order::{is_sorted_keys, lemma_rearrangement_onto, sort_keys};

verus! {

/// Whether `m` is the least number that is not among `values`.
pub open spec fn is_mex(values: Seq<usize>, m: usize) -> bool {
    &&& !values.contains(m)
    &&& forall|x: usize| x < m ==> values.contains(x)
}

/// The nim-sum of the numbers.
pub open spec fn xor_all(ws: Seq<usize>) -> usize
    decreases ws.len(),
{
    if ws.len() == 0 {
        0
    } else {
        xor_all(ws.drop_last()) ^ ws.last()
    }
}

/// The largest number of vertices of a game in the list.
pub open spec fn size_bound(games: Seq<TakingGame>) -> nat
    decreases games.len(),
{
    if games.len() == 0 {
        0
    } else if size_bound(games.drop_last()) >= games.last().graph.nodes@.len() {
        size_bound(games.drop_last())
    } else {
        games.last().graph.nodes@.len()
    }
}

/// Whether `n` is a nimber of the position `g` as the search finds it: zero
/// where the position has a mirror, and else the least number that is not
/// the nimber of what some representative move leads to.
pub open spec fn is_value(g: StructuredHypergraph, n: usize) -> bool
    decreases g.nodes@.len(), 1nat,
{
    if g.has_symmetry() {
        n == 0
    } else {
        exists|moves: Seq<Vec<TakingGame>>, vals: Seq<usize>|
            #[trigger] one_for_each(moves, vals) && is_search(g, moves, vals, n)
    }
}

/// Whether there is one number for each move.
pub open spec fn one_for_each(moves: Seq<Vec<TakingGame>>, vals: Seq<usize>) -> bool {
    vals.len() == moves.len()
}

/// Whether there is one number for each game.
pub open spec fn one_per_game(games: Seq<TakingGame>, ws: Seq<usize>) -> bool {
    ws.len() == games.len()
}

/// Whether `g` is a position with the edges `key`.
pub open spec fn has_edges(g: StructuredHypergraph, key: Seq<crate::bitset::Bitset128>) -> bool {
    g.wf() && g.hyperedges@ == key
}

/// Whether `moves` holds what the representative moves of `g` lead to,
/// `vals` a nimber of each, and `n` is the least number not among them.
pub open spec fn is_search(
    g: StructuredHypergraph,
    moves: Seq<Vec<TakingGame>>,
    vals: Seq<usize>,
    n: usize,
) -> bool
    decreases g.nodes@.len(), 0nat,
{
    &&& is_split_shapes(moves, g)
    &&& vals.len() == moves.len()
    &&& forall|k: int|
        0 <= k < moves.len() ==> size_bound(moves[k]@) < g.nodes@.len() && is_sum_value(
            moves[k]@,
            #[trigger] vals[k],
        )
    &&& is_mex(vals, n)
}

/// Whether `v` is a nimber of the sum of the games: the nim-sum of nimbers
/// of the games.  A game counts as any position with the same edges.
pub open spec fn is_sum_value(games: Seq<TakingGame>, v: usize) -> bool
    decreases size_bound(games), 4nat,
{
    exists|ws: Seq<usize>| #[trigger] one_per_game(games, ws) && is_sum_of(games, ws, v)
}

/// Whether `ws` holds a nimber of each game and `v` is their nim-sum.
pub open spec fn is_sum_of(games: Seq<TakingGame>, ws: Seq<usize>, v: usize) -> bool
    decreases size_bound(games), 3nat,
{
    &&& ws.len() == games.len()
    &&& forall|c: int|
        0 <= c < games.len() ==> is_key_value(
            (#[trigger] games[c]).graph.hyperedges@,
            ws[c],
            size_bound(games),
        )
    &&& v == xor_all(ws)
}

/// Whether `n` is a nimber of a position with the edges `key` and at most
/// `bound` vertices.
pub open spec fn is_key_value(key: Seq<crate::bitset::Bitset128>, n: usize, bound: nat) -> bool
    decreases bound, 2nat,
{
    exists|g: StructuredHypergraph|
        #[trigger] has_edges(g, key) && g.nodes@.len() <= bound && is_value(g, n)
}

/// No game of the list has more vertices than the bound says.
pub proof fn lemma_size_bound(games: Seq<TakingGame>, c: int)
    requires
        0 <= c < games.len(),
    ensures
        games[c].graph.nodes@.len() <= size_bound(games),
    decreases games.len(),
{
    if c < games.len() - 1 {
        lemma_size_bound(games.drop_last(), c);
    }
}

/// Games that all have fewer than `b` vertices stay below `b` together.
pub proof fn lemma_size_bound_below(games: Seq<TakingGame>, b: nat)
    requires
        b >= 1,
        forall|c: int| 0 <= c < games.len() ==> (#[trigger] games[c]).graph.nodes@.len() < b,
    ensures
        size_bound(games) < b,
    decreases games.len(),
{
    if games.len() > 0 {
        assert forall|c: int| 0 <= c < games.len() - 1 implies (#[trigger] games.drop_last()[c]).graph.nodes@.len()
            < b by {
            assert(games.drop_last()[c] == games[c]);
        }
        lemma_size_bound_below(games.drop_last(), b);
        assert(games.last() == games[games.len() - 1]);
    }
}

/// Two positions with the same edges have the same number of vertices.
pub proof fn lemma_same_edges_same_size(g: StructuredHypergraph, h: StructuredHypergraph)
    requires
        g.wf(),
        h.wf(),
        g.hyperedges@ == h.hyperedges@,
    ensures
        g.nodes@.len() == h.nodes@.len(),
{
    let a = g.nodes@.len();
    let b = h.nodes@.len();
    assert(g.edges() == h.edges());
    if a < b {
        assert(crate::hypergraph::used_vertices(h.edges()).contains(a));
    } else if b < a {
        assert(crate::hypergraph::used_vertices(g.edges()).contains(b));
    }
}

/// The position without vertices has a mirror: nothing is to be paired.
pub proof fn lemma_empty_has_symmetry(g: StructuredHypergraph)
    requires
        g.wf(),
        g.nodes@.len() == 0,
    ensures
        g.has_symmetry(),
{
    assert(g.hyperedges@.len() == 0) by {
        if g.hyperedges@.len() > 0 {
            assert(g.edges()[0] != Set::<nat>::empty());
            if forall|v: nat| !g.edges()[0].contains(v) {
                assert(g.edges()[0] =~= Set::<nat>::empty());
            }
            let v = choose|v: nat| g.edges()[0].contains(v);
            assert(crate::hypergraph::used_vertices(g.edges()).contains(v));
        }
    }
    assert(g.is_mirror(Seq::<usize>::empty()));
}

/// The nim-sum of two lists put together is the nim-sum of their nim-sums.
pub proof fn lemma_xor_concat(a: Seq<usize>, b: Seq<usize>)
    ensures
        xor_all(a + b) == xor_all(a) ^ xor_all(b),
    decreases b.len(),
{
    if b.len() == 0 {
        assert(a + b =~= a);
        let x = xor_all(a);
        assert(x ^ 0usize == x) by (bit_vector);
    } else {
        lemma_xor_concat(a, b.drop_last());
        assert((a + b).drop_last() =~= a + b.drop_last());
        assert((a + b).last() == b.last());
        let x = xor_all(a);
        let y = xor_all(b.drop_last());
        let z = b.last();
        assert((x ^ y) ^ z == x ^ (y ^ z)) by (bit_vector);
    }
}

/// The nim-sum of the numbers.
pub fn nim_sum(ws: &Vec<usize>) -> (v: usize)
    ensures
        v == xor_all(ws@),
{
    let mut v: usize = 0;
    let mut i: usize = 0;
    while i < ws.len()
        invariant
            i <= ws@.len(),
            v == xor_all(ws@.take(i as int)),
        decreases ws@.len() - i,
    {
        v = v ^ ws[i];
        proof {
            assert(ws@.take(i + 1).drop_last() =~= ws@.take(i as int));
        }
        i = i + 1;
    }
    proof {
        assert(ws@.take(i as int) =~= ws@);
    }
    v
}

/// The least number that is not among `values`.
pub fn mex(values: &Vec<usize>) -> (m: usize)
    ensures
        is_mex(values@, m),
{
    let mut sorted: Vec<usize> = Vec::with_capacity(values.len());
    let mut i: usize = 0;
    while i < values.len()
        invariant
            i <= values@.len(),
            sorted@ == values@.take(i as int),
        decreases values@.len() - i,
    {
        sorted.push(values[i]);
        i = i + 1;
    }
    proof {
        assert(values@.take(i as int) =~= values@);
    }
    sort_keys(&mut sorted);
    let ghost p = choose|p: Seq<int>| is_sorted_keys(sorted@, values@, p);
    proof {
        assert forall|x: usize| values@.contains(x) <==> sorted@.contains(x) by {
            if values@.contains(x) {
                let j = choose|j: int| 0 <= j < values@.len() && values@[j] == x;
                lemma_rearrangement_onto(p, values@.len(), j);
                let k = choose|k: int| 0 <= k < values@.len() && p[k] == j;
                assert(sorted@[k] == x);
            }
            if sorted@.contains(x) {
                let k = choose|k: int| 0 <= k < sorted@.len() && sorted@[k] == x;
                assert(values@[p[k]] == x);
            }
        }
    }
    let mut m: usize = 0;
    let mut k: usize = 0;
    while k < sorted.len()
        invariant
            k <= sorted@.len(),
            m <= k,
            forall|i: int, j: int| 0 <= i < j < sorted@.len() ==> sorted@[i] <= sorted@[j],
            forall|x: usize| values@.contains(x) <==> sorted@.contains(x),
            forall|x: usize| x < m ==> sorted@.contains(x),
            forall|j: int| 0 <= j < k ==> (#[trigger] sorted@[j]) < m,
        decreases sorted@.len() - k,
    {
        if sorted[k] == m {
            proof {
                assert forall|x: usize| x < m + 1 implies sorted@.contains(x) by {
                    if x == m {
                        assert(sorted@[k as int] == x);
                    }
                }
            }
            m = m + 1;
        } else if sorted[k] > m {
            proof {
                assert(!sorted@.contains(m)) by {
                    if sorted@.contains(m) {
                        let j = choose|j: int| 0 <= j < sorted@.len() && sorted@[j] == m;
                        if j < k {
                            assert(sorted@[j] < m);
                        } else if j > k {
                            assert(sorted@[k as int] <= sorted@[j]);
                        }
                    }
                }
            }
            return m;
        }
        k = k + 1;
    }
    proof {
        assert(!sorted@.contains(m)) by {
            if sorted@.contains(m) {
                let j = choose|j: int| 0 <= j < sorted@.len() && sorted@[j] == m;
                assert(sorted@[j] < m);
            }
        }
    }
    m
}

/// A position that has a mirror has the nimber zero.
pub proof fn lemma_symmetry_gives_zero(g: StructuredHypergraph, n: usize)
    requires
        g.has_symmetry(),
        is_value(g, n),
    ensures
        n == 0,
{
}

/// The nimber of a position without mirror is the least number that is not
/// the nimber of what one of its representative moves leads to.
pub proof fn lemma_value_is_mex(g: StructuredHypergraph, n: usize)
    requires
        !g.has_symmetry(),
        is_value(g, n),
    ensures
        exists|moves: Seq<Vec<TakingGame>>, vals: Seq<usize>|
            #[trigger] one_for_each(moves, vals) && is_split_shapes(moves, g) && (forall|k: int|
                0 <= k < moves.len() ==> is_sum_value(moves[k]@, #[trigger] vals[k])) && is_mex(vals, n),
{
    let (moves, vals) = choose|moves: Seq<Vec<TakingGame>>, vals: Seq<usize>|
        #[trigger] one_for_each(moves, vals) && is_search(g, moves, vals, n);
    assert(one_for_each(moves, vals) && is_split_shapes(moves, g) && (forall|k: int|
        0 <= k < moves.len() ==> is_sum_value(moves[k]@, #[trigger] vals[k])) && is_mex(vals, n));
}

/// A nimber of a position with at most `small` vertices is one with at
/// most `large`.
pub proof fn lemma_key_value_grows(key: Seq<crate::bitset::Bitset128>, n: usize, small: nat, large: nat)
    requires
        small <= large,
        is_key_value(key, n, small),
    ensures
        is_key_value(key, n, large),
{
    let g = choose|g: StructuredHypergraph|
        #[trigger] has_edges(g, key) && g.nodes@.len() <= small && is_value(g, n);
    assert(has_edges(g, key) && g.nodes@.len() <= large && is_value(g, n));
}

/// The bound of two lists put together is the larger of their bounds.
pub proof fn lemma_size_bound_concat(a: Seq<TakingGame>, b: Seq<TakingGame>)
    ensures
        size_bound(a + b) >= size_bound(a),
        size_bound(a + b) >= size_bound(b),
    decreases b.len(),
{
    if b.len() == 0 {
        assert(a + b =~= a);
    } else {
        lemma_size_bound_concat(a, b.drop_last());
        assert((a + b).drop_last() =~= a + b.drop_last());
        assert((a + b).last() == b.last());
    }
}

/// The nimber of two sums of positions put together is the nim-sum of the
/// nimbers of the two.
pub proof fn lemma_sum_of_sums(a: Seq<TakingGame>, x: usize, b: Seq<TakingGame>, y: usize)
    requires
        is_sum_value(a, x),
        is_sum_value(b, y),
    ensures
        is_sum_value(a + b, x ^ y),
{
    let wa = choose|ws: Seq<usize>| #[trigger] one_per_game(a, ws) && is_sum_of(a, ws, x);
    let wb = choose|ws: Seq<usize>| #[trigger] one_per_game(b, ws) && is_sum_of(b, ws, y);
    let all = a + b;
    let ws = wa + wb;
    lemma_size_bound_concat(a, b);
    lemma_xor_concat(wa, wb);
    assert forall|c: int| 0 <= c < all.len() implies is_key_value(
        (#[trigger] all[c]).graph.hyperedges@,
        ws[c],
        size_bound(all),
    ) by {
        if c < a.len() {
            assert(all[c] == a[c]);
            lemma_key_value_grows(a[c].graph.hyperedges@, wa[c], size_bound(a), size_bound(all));
        } else {
            let d = c - a.len();
            assert(all[c] == b[d]);
            assert(ws[c] == wb[d]);
            lemma_key_value_grows(b[d].graph.hyperedges@, wb[d], size_bound(b), size_bound(all));
        }
    }
    assert(one_per_game(all, ws));
    assert(is_sum_of(all, ws, x ^ y));
}

} // verus!
