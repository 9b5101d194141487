//! The moves of a position: one for each edge class and each way to say how
//! many vertices of each vertex class are taken from the edge.

use vstd::prelude::*;
use crate::bitset::{within, Bitset128};
use crate::construct::{edges_minus, is_construction, lemma_part_is_smaller, positions_of};
use crate::game::{graphs_of, TakingGame};
use crate::hypergraph::{blocks_of, is_partition, used_vertices, StructuredHypergraph};
use crate::product::{cartesian_product, is_product, lengths_of, product_digit, product_size};

verus! {

/// The largest member of `s`.
pub open spec fn top_of(s: Set<nat>) -> nat {
    choose|m: nat| s.contains(m) && forall|x: nat| s.contains(x) ==> x <= m
}

/// The set `s` without its `j` largest members.
pub open spec fn without_top(s: Set<nat>, j: nat) -> Set<nat>
    decreases j,
{
    if j == 0 {
        s
    } else {
        let r = without_top(s, (j - 1) as nat);
        r.remove(top_of(r))
    }
}

/// The vertices taken from the class `s` by choice number `d`: none for
/// the first choice, all for the last, and for a choice in between all but
/// the `d` largest.
pub open spec fn choice(s: Set<nat>, d: nat) -> Set<nat> {
    if d == 0 {
        Set::empty()
    } else if d >= s.len() {
        s
    } else {
        without_top(s, d)
    }
}

/// The number of ways to make one choice in each class, the empty move
/// counted in.
pub open spec fn move_count(parts: Seq<Set<nat>>) -> nat
    decreases parts.len(),
{
    if parts.len() == 0 {
        1
    } else {
        move_count(parts.drop_last()) * (parts.last().len() + 1)
    }
}

/// The vertices taken by move number `t`, where the choices in the last
/// class change fastest.
pub open spec fn removal(parts: Seq<Set<nat>>, t: nat) -> Set<nat>
    decreases parts.len(),
{
    if parts.len() == 0 {
        Set::empty()
    } else {
        let l = parts.last().len() + 1;
        removal(parts.drop_last(), t / l).union(choice(parts.last(), t % l))
    }
}

/// The number of choices in each class.
pub open spec fn choices_in(parts: Seq<Set<nat>>) -> Seq<nat> {
    Seq::new(parts.len(), |i: int| parts[i].len() + 1)
}

/// The union of the sets.
pub open spec fn union_of(sets: Seq<Set<nat>>) -> Set<nat>
    decreases sets.len(),
{
    if sets.len() == 0 {
        Set::empty()
    } else {
        union_of(sets.drop_last()).union(sets.last())
    }
}

/// The choices in one class: `choice(part, d)` at place `d`.
pub fn removals_of_part(part: Bitset128) -> (list: Vec<Bitset128>)
    ensures
        list@.len() == part@.len() + 1,
        forall|d: int|
            0 <= d < list@.len() ==> (#[trigger] list@[d])@ == choice(part@, d as nat) && list@[d]@.subset_of(
                part@,
            ) && (d >= 1 ==> list@[d]@ != Set::<nat>::empty()),
{
    let n = part.len();
    let mut rest = part;
    let mut list: Vec<Bitset128> = Vec::with_capacity(n + 1);
    list.push(rest);
    let mut j: usize = 0;
    while j < n
        invariant
            j <= n <= 128,
            n == part@.len(),
            part@.finite(),
            list@.len() == j + 1,
            rest == list@[j as int],
            rest@ == without_top(part@, j as nat),
            rest@.len() == n - j,
            rest@.finite(),
            forall|d: int|
                0 <= d <= j ==> (#[trigger] list@[d])@ == without_top(part@, d as nat) && list@[d]@.subset_of(
                    part@,
                ) && list@[d]@.len() == n - d,
        decreases n - j,
    {
        let ghost before = rest@;
        let top = rest.pop();
        proof {
            if top is None {
                assert(before.len() == 0);
            }
            let v = top->0 as nat;
            let m = top_of(before);
            assert(before.contains(v) && forall|x: nat| before.contains(x) ==> x <= v);
            assert(m == v);
            rest.lemma_view();
            assert(rest@ == before.remove(v));
            assert(rest@.len() == before.len() - 1);
            assert(without_top(part@, (j + 1) as nat) == before.remove(top_of(before)));
        }
        let ghost grown = list@;
        list.push(rest);
        j = j + 1;
        proof {
            assert forall|d: int| 0 <= d <= j implies (#[trigger] list@[d])@ == without_top(
                part@,
                d as nat,
            ) && list@[d]@.subset_of(part@) && list@[d]@.len() == n - d by {
                if d < j {
                    assert(list@[d] == grown[d]);
                } else {
                    assert(list@[d] == rest);
                    assert(before == without_top(part@, (j - 1) as nat));
                    assert(without_top(part@, j as nat) == before.remove(top_of(before)));
                }
            }
        }
    }
    let last = list.len() - 1;
    let first = list[0];
    let end = list[last];
    list.set(0, end);
    list.set(last, first);
    proof {
        assert forall|d: int| 0 <= d < list@.len() implies (#[trigger] list@[d])@ == choice(
            part@,
            d as nat,
        ) && list@[d]@.subset_of(part@) && (d >= 1 ==> list@[d]@ != Set::<nat>::empty()) by {
            if d == 0 {
                assert(end@.len() == 0);
                assert(end@ =~= Set::<nat>::empty());
            } else if d == last {
                assert(first@ == part@);
                assert(part@.len() >= 1);
            } else {
                assert(list@[d]@.len() == n - d);
            }
        }
    }
    list
}

/// The sizes and the product agree on the number of moves.
proof fn lemma_move_count(parts: Seq<Set<nat>>, lens: Seq<nat>)
    requires
        lens.len() == parts.len(),
        forall|i: int| 0 <= i < parts.len() ==> #[trigger] lens[i] == parts[i].len() + 1,
    ensures
        product_size(lens) == move_count(parts),
    decreases parts.len(),
{
    if parts.len() > 0 {
        lemma_move_count(parts.drop_last(), lens.drop_last());
    }
}

/// The union of the choices that pick number `t` takes is what move number
/// `t` takes.
proof fn lemma_removal(parts: Seq<Set<nat>>, lens: Seq<nat>, t: nat, taken: Seq<Set<nat>>)
    requires
        lens.len() == parts.len(),
        forall|i: int| 0 <= i < parts.len() ==> #[trigger] lens[i] == parts[i].len() + 1,
        taken.len() == parts.len(),
        forall|i: int|
            0 <= i < parts.len() ==> #[trigger] taken[i] == choice(parts[i], product_digit(lens, t, i)),
    ensures
        union_of(taken) == removal(parts, t),
    decreases parts.len(),
{
    if parts.len() > 0 {
        let l = lens.last();
        let short = taken.drop_last();
        assert forall|i: int| 0 <= i < parts.len() - 1 implies #[trigger] short[i] == choice(
            parts.drop_last()[i],
            product_digit(lens.drop_last(), t / l, i),
        ) by {
            assert(short[i] == taken[i]);
        }
        lemma_removal(parts.drop_last(), lens.drop_last(), t / l, short);
        assert(taken.last() == taken[parts.len() - 1]);
    }
}

/// Whether `taken` may be what move number `t` takes from class `i`: a
/// part of the class, empty for the first choice and for no other.
pub open spec fn is_choice_at(parts: Seq<Set<nat>>, t: nat, i: int, taken: Set<nat>) -> bool {
    let d = product_digit(choices_in(parts), t, i);
    &&& 0 <= d <= parts[i].len()
    &&& taken.subset_of(parts[i])
    &&& (d >= 1 ==> taken != Set::<nat>::empty())
    &&& (d == 0 ==> taken == Set::<nat>::empty())
}

/// A move other than the first takes some vertex, and every move takes
/// vertices of the classes only.
proof fn lemma_removal_bounds(parts: Seq<Set<nat>>, t: nat, whole: Set<nat>, taken: Seq<Set<nat>>)
    requires
        forall|i: int| 0 <= i < parts.len() ==> (#[trigger] parts[i]).subset_of(whole),
        forall|i: int| 0 <= i < parts.len() ==> (#[trigger] parts[i]).finite(),
        t < move_count(parts),
        taken.len() == parts.len(),
        forall|i: int| 0 <= i < parts.len() ==> is_choice_at(parts, t, i, #[trigger] taken[i]),
    ensures
        union_of(taken).subset_of(whole),
        t >= 1 ==> union_of(taken) != Set::<nat>::empty(),
        t == 0 ==> union_of(taken) == Set::<nat>::empty(),
    decreases parts.len(),
{
    if parts.len() > 0 {
        let lens = choices_in(parts);
        let l = lens.last();
        let short = taken.drop_last();
        let fewer = parts.drop_last();
        let lens2 = choices_in(fewer);
        assert(lens.drop_last() =~= lens2);
        assert(t / l < move_count(fewer)) by {
            vstd::arithmetic::div_mod::lemma_fundamental_div_mod(t as int, l as int);
            let q = (t / l) as int;
            let c = move_count(fewer) as int;
            if q >= c {
                assert(q * (l as int) >= c * (l as int)) by (nonlinear_arith)
                    requires
                        q >= c,
                        l >= 1,
                ;
                assert(l * q == q * l) by (nonlinear_arith);
            }
        }
        assert forall|i: int| 0 <= i < fewer.len() implies is_choice_at(
            fewer,
            t / l,
            i,
            #[trigger] short[i],
        ) by {
            assert(short[i] == taken[i]);
            assert(is_choice_at(parts, t, i, taken[i]));
            assert(fewer[i] == parts[i]);
            assert(lens.len() > 0 && lens.last() >= 1);
            assert(product_digit(lens, t, i) == product_digit(lens.drop_last(), t / l, i));
        }
        assert forall|i: int| 0 <= i < fewer.len() implies (#[trigger] fewer[i]).subset_of(whole) by {
            assert(fewer[i] == parts[i]);
        }
        assert forall|i: int| 0 <= i < fewer.len() implies (#[trigger] fewer[i]).finite() by {
            assert(fewer[i] == parts[i]);
        }
        lemma_removal_bounds(fewer, t / l, whole, short);
        let i = parts.len() - 1;
        assert(taken.last() == taken[i]);
        assert(product_digit(lens, t, i) == t % l);
        assert(is_choice_at(parts, t, i, taken[i]));
        if t >= 1 {
            if t % l >= 1 {
                if forall|x: nat| !taken[i].contains(x) {
                    assert(taken[i] =~= Set::<nat>::empty());
                }
                let x = choose|x: nat| taken[i].contains(x);
                assert(union_of(taken).contains(x));
            } else {
                vstd::arithmetic::div_mod::lemma_fundamental_div_mod(t as int, l as int);
                assert(t / l >= 1) by {
                    if t / l == 0 {
                        assert(l * (t / l) == 0) by (nonlinear_arith)
                            requires
                                t / l == 0,
                        ;
                    }
                }
                let u = union_of(short);
                if forall|x: nat| !u.contains(x) {
                    assert(u =~= Set::<nat>::empty());
                }
                let x = choose|x: nat| u.contains(x);
                assert(union_of(taken).contains(x));
            }
        } else {
            assert(0int / (l as int) == 0 && 0int % (l as int) == 0) by (nonlinear_arith)
                requires
                    l >= 1,
            ;
            assert(t / l == 0 && t % l == 0);
            assert(union_of(short) == Set::<nat>::empty());
            assert(taken[i] == Set::<nat>::empty());
            assert(union_of(taken) =~= Set::<nat>::empty());
        }
    }
}

/// Each list having an entry, every pick takes from each list an entry
/// that is there.
proof fn lemma_digit_bound(lens: Seq<nat>, t: nat, i: int)
    requires
        0 <= i < lens.len(),
        forall|j: int| 0 <= j < lens.len() ==> #[trigger] lens[j] >= 1,
    ensures
        product_digit(lens, t, i) < lens[i],
    decreases lens.len(),
{
    if i < lens.len() - 1 {
        lemma_digit_bound(lens.drop_last(), t / lens.last(), i);
    }
}

/// The classes of the vertices of edge `e`: what the edge holds of each
/// block of the vertex partition.
pub open spec fn classes_of(g: StructuredHypergraph, e: int) -> Seq<Set<nat>> {
    Seq::new(
        blocks_of(g.node_structure_partitions@).len(),
        |i: int|
            within(
                g.edges()[e],
                blocks_of(g.node_structure_partitions@)[i].start as int,
                blocks_of(g.node_structure_partitions@)[i].end as int,
            ),
    )
}

/// Whether `games` are the positions that are left of `g` when the
/// vertices in `removed` are taken away.
pub open spec fn is_successor(games: Seq<TakingGame>, g: StructuredHypergraph, removed: Set<nat>) -> bool {
    positions_of(graphs_of(games), edges_minus(g.edges(), removed), g.nodes@)
}

/// Whether `moves` holds what the moves in edge `e` lead to, one entry for
/// each way to make a choice in each class of its vertices but the way that
/// takes nothing, in the order of the moves.
pub open spec fn is_moves_of_edge(moves: Seq<Vec<TakingGame>>, g: StructuredHypergraph, e: int) -> bool {
    &&& moves.len() + 1 == move_count(classes_of(g, e))
    &&& forall|k: int|
        0 <= k < moves.len() ==> is_successor(
            (#[trigger] moves[k])@,
            g,
            removal(classes_of(g, e), (k + 1) as nat),
        )
}

/// Whether every position in `moves` is in canonical shape and has fewer
/// vertices than `g`.
pub open spec fn all_smaller(moves: Seq<Vec<TakingGame>>, g: StructuredHypergraph) -> bool {
    forall|k: int, c: int|
        0 <= k < moves.len() && 0 <= c < moves[k]@.len() ==> (#[trigger] moves[k]@[c]).wf()
            && moves[k]@[c].graph.nodes@.len() < g.nodes@.len()
}

/// Whether `games` are the positions that are left of `g` when the
/// vertices in `removed` are taken away, whatever labels their vertices
/// bear.
pub open spec fn is_left_of(games: Seq<TakingGame>, g: StructuredHypergraph, removed: Set<nat>) -> bool {
    exists|labels: Seq<usize>|
        labels.len() == g.nodes@.len() && #[trigger] positions_of(
            graphs_of(games),
            edges_minus(g.edges(), removed),
            labels,
        )
}

/// Whether `moves` holds what the moves in edge `e` leave, one entry for
/// each way to make a choice in each class of its vertices but the way that
/// takes nothing, in the order of the moves, whatever labels the vertices
/// bear.
pub open spec fn is_shapes_of_edge(moves: Seq<Vec<TakingGame>>, g: StructuredHypergraph, e: int) -> bool {
    &&& moves.len() + 1 == move_count(classes_of(g, e))
    &&& forall|k: int|
        0 <= k < moves.len() ==> is_left_of((#[trigger] moves[k])@, g, removal(classes_of(g, e), (k + 1) as nat))
}

/// The lists one after the other.
pub open spec fn joined(chunks: Seq<Seq<Vec<TakingGame>>>) -> Seq<Vec<TakingGame>>
    decreases chunks.len(),
{
    if chunks.len() == 0 {
        Seq::empty()
    } else {
        joined(chunks.drop_last()) + chunks.last()
    }
}

/// Whether `chunks` holds, for each block of the edge partition, what the
/// moves in the first edge of the block lead to.
pub open spec fn is_moves_by_class(chunks: Seq<Seq<Vec<TakingGame>>>, g: StructuredHypergraph) -> bool {
    &&& chunks.len() == blocks_of(g.edge_structure_partitions@).len()
    &&& forall|b: int|
        0 <= b < chunks.len() ==> is_moves_of_edge(
            #[trigger] chunks[b],
            g,
            blocks_of(g.edge_structure_partitions@)[b].start as int,
        )
}

/// Whether `chunks` holds, for each block of the edge partition, what the
/// moves in the first edge of the block leave, whatever labels the vertices
/// bear.
pub open spec fn is_shapes_by_class(chunks: Seq<Seq<Vec<TakingGame>>>, g: StructuredHypergraph) -> bool {
    &&& chunks.len() == blocks_of(g.edge_structure_partitions@).len()
    &&& forall|b: int|
        0 <= b < chunks.len() ==> is_shapes_of_edge(
            #[trigger] chunks[b],
            g,
            blocks_of(g.edge_structure_partitions@)[b].start as int,
        )
}

/// Whether `moves` holds what the representative moves leave, whatever
/// labels the vertices bear: for each block of the edge partition in turn,
/// the moves in its first edge.
pub open spec fn is_split_shapes(moves: Seq<Vec<TakingGame>>, g: StructuredHypergraph) -> bool {
    exists|chunks: Seq<Seq<Vec<TakingGame>>>| #[trigger]
        is_shapes_by_class(chunks, g) && moves == joined(chunks)
}

/// What the representative moves lead to is what they leave.
pub proof fn lemma_moves_have_shapes(moves: Seq<Vec<TakingGame>>, g: StructuredHypergraph)
    requires
        is_split_moves(moves, g),
    ensures
        is_split_shapes(moves, g),
{
    let chunks = choose|chunks: Seq<Seq<Vec<TakingGame>>>| #[trigger]
        is_moves_by_class(chunks, g) && moves == joined(chunks);
    assert forall|b: int| 0 <= b < chunks.len() implies is_shapes_of_edge(
        #[trigger] chunks[b],
        g,
        blocks_of(g.edge_structure_partitions@)[b].start as int,
    ) by {
        let e = blocks_of(g.edge_structure_partitions@)[b].start as int;
        assert(is_moves_of_edge(chunks[b], g, e));
        assert forall|k: int| 0 <= k < chunks[b].len() implies is_left_of(
            (#[trigger] chunks[b][k])@,
            g,
            removal(classes_of(g, e), (k + 1) as nat),
        ) by {
            assert(is_successor(chunks[b][k]@, g, removal(classes_of(g, e), (k + 1) as nat)));
            assert(g.nodes@.len() == g.nodes@.len() && positions_of(
                graphs_of(chunks[b][k]@),
                edges_minus(g.edges(), removal(classes_of(g, e), (k + 1) as nat)),
                g.nodes@,
            ));
        }
    }
    assert(is_shapes_by_class(chunks, g) && moves == joined(chunks));
}

/// Whether `moves` holds what the representative moves lead to: for each
/// block of the edge partition in turn, the moves in its first edge.
pub open spec fn is_split_moves(moves: Seq<Vec<TakingGame>>, g: StructuredHypergraph) -> bool {
    exists|chunks: Seq<Seq<Vec<TakingGame>>>| #[trigger]
        is_moves_by_class(chunks, g) && moves == joined(chunks)
}

/// The vertex sets of a pick.
pub open spec fn views_of(pick: Seq<Bitset128>) -> Seq<Set<nat>> {
    Seq::new(pick.len(), |i: int| pick[i]@)
}

/// The union of the sets of a pick.
pub fn union_all(pick: &Vec<Bitset128>) -> (all: Bitset128)
    ensures
        all@ == union_of(views_of(pick@)),
{
    let mut all = Bitset128::default();
    let mut i: usize = 0;
    while i < pick.len()
        invariant
            i <= pick@.len(),
            all@ == union_of(views_of(pick@).take(i as int)),
        decreases pick@.len() - i,
    {
        all.union(&pick[i]);
        proof {
            let grown = views_of(pick@).take(i + 1);
            assert(grown.drop_last() =~= views_of(pick@).take(i as int));
            assert(grown.last() == pick@[i as int]@);
        }
        i = i + 1;
    }
    proof {
        assert(views_of(pick@).take(i as int) =~= views_of(pick@));
    }
    all
}

impl TakingGame {
    /// An upper bound of the nimber: zero where the position has a mirror,
    /// else the number of its vertices.
    pub fn get_max_nimber(&self) -> (r: Option<usize>)
        requires
            self.wf(),
        ensures
            r == Some(
                if self.graph.has_symmetry() {
                    0usize
                } else {
                    self.graph.nodes@.len() as usize
                },
            ),
    {
        match self.find_symmetry() {
            Some(_) => Some(0),
            None => Some(self.graph.nr_nodes()),
        }
    }

    /// What the moves in the edge `hyperedge` lead to.  The vertices of the
    /// edge fall into classes by the vertex partition; a move is told by how
    /// many vertices it takes from each class.
    pub fn get_moves_of_edge(&self, hyperedge: usize) -> (moves: Vec<Vec<TakingGame>>)
        requires
            self.wf(),
            hyperedge < self.graph.hyperedges@.len(),
        ensures
            is_moves_of_edge(moves@, self.graph, hyperedge as int),
            all_smaller(moves@, self.graph),
    {
        let ghost g = self.graph;
        let ghost classes = classes_of(g, hyperedge as int);
        let ghost n = g.nodes@.len();
        let blocks = self.graph.get_node_partitions();
        let edge = self.graph.hyperedges[hyperedge];
        proof {
            let ps = g.node_structure_partitions@;
            assert(g.edges()[hyperedge as int] != Set::<nat>::empty());
            assert(n > 0) by {
                if forall|v: nat| !g.edges()[hyperedge as int].contains(v) {
                    assert(g.edges()[hyperedge as int] =~= Set::<nat>::empty());
                }
                let v = choose|v: nat| g.edges()[hyperedge as int].contains(v);
                assert(used_vertices(g.edges()).contains(v));
            }
            assert forall|k: int| 0 <= k < blocks@.len() implies (#[trigger] blocks@[k]).start
                <= blocks@[k].end <= 128 by {
                assert(ps[k] < ps[k + 1]);
                if k + 1 < ps.len() - 1 {
                    assert(ps[k + 1] < ps[ps.len() - 1]);
                }
            }
        }
        let parts = edge.partition(blocks.as_slice());
        let mut lists: Vec<Vec<Bitset128>> = Vec::with_capacity(parts.len());
        let mut i: usize = 0;
        while i < parts.len()
            invariant
                i <= parts@.len(),
                lists@.len() == i,
                forall|j: int|
                    0 <= j < i ==> (#[trigger] lists@[j])@.len() == parts@[j]@.len() + 1 && forall|d: int|
                        0 <= d < lists@[j]@.len() ==> (#[trigger] lists@[j]@[d])@ == choice(
                            parts@[j]@,
                            d as nat,
                        ) && lists@[j]@[d]@.subset_of(parts@[j]@) && (d >= 1 ==> lists@[j]@[d]@
                            != Set::<nat>::empty()),
            decreases parts@.len() - i,
        {
            lists.push(removals_of_part(parts[i]));
            i = i + 1;
        }
        let ghost lens = lengths_of(lists@);
        let ghost all_lists = lists@;
        proof {
            assert(classes.len() == parts@.len());
            assert forall|j: int| 0 <= j < classes.len() implies #[trigger] classes[j] == parts@[j]@ by {}
            assert forall|j: int| 0 <= j < classes.len() implies #[trigger] lens[j] == classes[j].len()
                + 1 by {
                assert(lists@[j]@.len() == parts@[j]@.len() + 1);
            }
            lemma_move_count(classes, lens);
        }
        let picks = cartesian_product(lists);
        let mut moves: Vec<Vec<TakingGame>> = Vec::new();
        let mut t: usize = 1;
        while t < picks.len()
            invariant
                1 <= t,
                picks@.len() >= 1 ==> t <= picks@.len(),
                picks@.len() >= 1 ==> moves@.len() == t - 1,
                picks@.len() == 0 ==> moves@.len() == 0,
                g == self.graph,
                self.wf(),
                hyperedge < g.hyperedges@.len(),
                n == g.nodes@.len(),
                classes == classes_of(g, hyperedge as int),
                classes.len() == parts@.len(),
                forall|j: int| 0 <= j < classes.len() ==> #[trigger] classes[j] == parts@[j]@,
                lens == lengths_of(all_lists),
                all_lists.len() == parts@.len(),
                forall|j: int| 0 <= j < classes.len() ==> #[trigger] lens[j] == classes[j].len() + 1,
                forall|j: int|
                    0 <= j < all_lists.len() ==> (#[trigger] all_lists[j])@.len() == parts@[j]@.len() + 1
                        && forall|d: int|
                        0 <= d < all_lists[j]@.len() ==> (#[trigger] all_lists[j]@[d])@ == choice(
                            parts@[j]@,
                            d as nat,
                        ) && all_lists[j]@[d]@.subset_of(parts@[j]@) && (d >= 1 ==> all_lists[j]@[d]@
                            != Set::<nat>::empty()),
                is_product(picks@, all_lists),
                picks@.len() == move_count(classes),
                forall|k: int|
                    0 <= k < moves@.len() ==> is_successor(
                        (#[trigger] moves@[k])@,
                        g,
                        removal(classes, (k + 1) as nat),
                    ),
                all_smaller(moves@, g),
            decreases picks@.len() - t,
        {
            let mask = union_all(&picks[t]);
            let ghost taken = views_of(picks@[t as int]@);
            proof {
                assert forall|j: int| 0 <= j < classes.len() implies #[trigger] taken[j] == choice(
                    classes[j],
                    product_digit(lens, t as nat, j),
                ) && is_choice_at(classes, t as nat, j, taken[j]) by {
                    lemma_digit_bound(lens, t as nat, j);
                    let d = product_digit(lens, t as nat, j) as int;
                    assert(picks@[t as int]@[j] == all_lists[j]@[d]);
                    assert(all_lists[j]@[d]@ == choice(parts@[j]@, d as nat));
                    assert(choices_in(classes) =~= lens);
                    if d == 0 {
                    }
                }
                lemma_removal(classes, lens, t as nat, taken);
                assert forall|j: int| 0 <= j < classes.len() implies (#[trigger] classes[j]).subset_of(
                    g.edges()[hyperedge as int],
                ) by {}
                assert forall|j: int| 0 <= j < classes.len() implies (#[trigger] classes[j]).finite() by {
                    parts@[j].lemma_view();
                }
                lemma_removal_bounds(classes, t as nat, g.edges()[hyperedge as int], taken);
            }
            proof {
                g.lemma_labelled();
            }
            let successor = self.with_nodes_removed(mask);
            proof {
                assert(is_successor(successor@, g, removal(classes, t as nat)));
                if forall|v: nat| !mask@.contains(v) {
                    assert(mask@ =~= Set::<nat>::empty());
                }
                let v = choose|v: nat| mask@.contains(v);
                assert(g.edges()[hyperedge as int].contains(v));
                assert(used_vertices(g.edges()).contains(v));
                let rest = edges_minus(g.edges(), mask@);
                assert(!used_vertices(rest).contains(v)) by {
                    if used_vertices(rest).contains(v) {
                        let e = choose|e: int| 0 <= e < rest.len() && #[trigger] rest[e].contains(v);
                    }
                }
                let provs = choose|provs: Seq<(Seq<nat>, Seq<int>)>|
                    is_construction(graphs_of(successor@), provs, rest, g.nodes@);
                assert forall|c: int| 0 <= c < successor@.len() implies (#[trigger] successor@[c]).wf()
                    && successor@[c].graph.nodes@.len() < g.nodes@.len() by {
                    lemma_part_is_smaller(graphs_of(successor@), provs, rest, g.nodes@, v, c);
                    assert(graphs_of(successor@)[c] == successor@[c].graph);
                    assert(graphs_of(successor@)[c].wf());
                }
            }
            let ghost before = moves@;
            moves.push(successor);
            proof {
                assert forall|k: int, c: int|
                    0 <= k < moves@.len() && 0 <= c < moves@[k]@.len() implies (#[trigger] moves@[k]@[c]).wf()
                    && moves@[k]@[c].graph.nodes@.len() < g.nodes@.len() by {
                    if k < before.len() {
                        assert(moves@[k] == before[k]);
                        assert(before[k]@[c].wf());
                    }
                }
                assert forall|k: int| 0 <= k < moves@.len() implies is_successor(
                    (#[trigger] moves@[k])@,
                    g,
                    removal(classes, (k + 1) as nat),
                ) by {
                    if k < before.len() {
                        assert(moves@[k] == before[k]);
                    }
                }
            }
            t = t + 1;
        }
        proof {
            assert(move_count(classes) >= 1) by {
                lemma_count_positive(classes);
            }
        }
        moves
    }

    /// What the representative moves lead to: the moves in the first edge
    /// of each block of the edge partition.
    pub fn get_split_moves(&self) -> (moves: Vec<Vec<TakingGame>>)
        requires
            self.wf(),
        ensures
            is_split_moves(moves@, self.graph),
            all_smaller(moves@, self.graph),
    {
        let ghost g = self.graph;
        let mut moves: Vec<Vec<TakingGame>> = Vec::new();
        let ghost mut chunks: Seq<Seq<Vec<TakingGame>>> = Seq::empty();
        if self.graph.is_empty() {
            proof {
                assert(g.hyperedges@.len() == 0) by {
                    if g.hyperedges@.len() > 0 {
                        assert(g.edges()[0] != Set::<nat>::empty());
                        if forall|v: nat| !g.edges()[0].contains(v) {
                            assert(g.edges()[0] =~= Set::<nat>::empty());
                        }
                        let v = choose|v: nat| g.edges()[0].contains(v);
                        assert(used_vertices(g.edges()).contains(v));
                    }
                }
                assert(is_moves_by_class(chunks, g));
                assert(moves@ =~= joined(chunks));
            }
            return moves;
        }
        let blocks = self.graph.get_edge_partitions();
        let mut b: usize = 0;
        while b < blocks.len()
            invariant
                b <= blocks@.len(),
                g == self.graph,
                self.wf(),
                blocks@ == blocks_of(g.edge_structure_partitions@),
                chunks.len() == b,
                forall|c: int|
                    0 <= c < b ==> is_moves_of_edge(#[trigger] chunks[c], g, blocks@[c].start as int),
                moves@ == joined(chunks),
                all_smaller(moves@, g),
            decreases blocks@.len() - b,
        {
            let first = blocks[b].start;
            proof {
                let ps = g.edge_structure_partitions@;
                assert(g.hyperedges@.len() > 0) by {
                    if g.hyperedges@.len() == 0 {
                        assert(ps.len() == 0);
                    }
                }
                assert(ps[b as int] < ps[b + 1]);
                if b + 1 < ps.len() - 1 {
                    assert(ps[b + 1] < ps[ps.len() - 1]);
                }
            }
            let mut of_edge = self.get_moves_of_edge(first);
            let ghost added = of_edge@;
            let ghost before = moves@;
            moves.append(&mut of_edge);
            proof {
                let grown = chunks.push(added);
                assert(grown.drop_last() =~= chunks);
                assert(joined(grown) == joined(chunks) + added);
                chunks = grown;
                assert forall|k: int, c: int|
                    0 <= k < moves@.len() && 0 <= c < moves@[k]@.len() implies (#[trigger] moves@[k]@[c]).wf()
                    && moves@[k]@[c].graph.nodes@.len() < g.nodes@.len() by {
                    if k < before.len() {
                        assert(moves@[k] == before[k]);
                        assert(before[k]@[c].wf());
                    } else {
                        assert(moves@[k] == added[k - before.len()]);
                        assert(added[k - before.len()]@[c].wf());
                    }
                }
            }
            b = b + 1;
        }
        proof {
            assert(is_moves_by_class(chunks, g));
        }
        moves
    }
}

/// There is at least the move that takes nothing.
proof fn lemma_count_positive(parts: Seq<Set<nat>>)
    ensures
        move_count(parts) >= 1,
    decreases parts.len(),
{
    if parts.len() > 0 {
        lemma_count_positive(parts.drop_last());
        let a = move_count(parts.drop_last());
        let l = parts.last().len() + 1;
        assert(a * l >= 1) by (nonlinear_arith)
            requires
                a >= 1,
                l >= 1,
        ;
    }
}

} // verus!
