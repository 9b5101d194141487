//! Builders of the edge lists of well-known games.

use vstd::prelude::*;
use crate::game::{all_fit, graphs_of, index_sets, TakingGame};
use crate::chance::random_between;
use crate::construct::plain_positions_of;
use crate::hypergraph::GameError;
use crate::order::{is_sorted_keys, lemma_rearrangement_onto, sort_keys};

verus! {

/// A list of hyperedges, each a list of vertex indices, from which games are
/// built.
#[derive(Debug)]
pub struct Builder {
    pub hyperedges: Vec<Vec<usize>>,
}

/// Whether `v` is an index in some edge.
pub open spec fn occurs(edges: Seq<Vec<usize>>, v: usize) -> bool {
    exists|e: int, k: int| 0 <= e < edges.len() && 0 <= k < edges[e]@.len() && #[trigger] edges[e]@[k] == v
}

/// Whether `nodes` lists the indices in the edges in rising order, each once.
pub open spec fn is_node_list(nodes: Seq<usize>, edges: Seq<Vec<usize>>) -> bool {
    &&& forall|i: int, j: int| 0 <= i < j < nodes.len() ==> nodes[i] < nodes[j]
    &&& forall|i: int| 0 <= i < nodes.len() ==> occurs(edges, #[trigger] nodes[i])
    &&& forall|v: usize| occurs(edges, v) ==> nodes.contains(v)
}

/// Whether `m` is the largest index in the edges, or zero where there is none.
pub open spec fn is_max_node(m: usize, edges: Seq<Vec<usize>>) -> bool {
    &&& forall|e: int, k: int| 0 <= e < edges.len() && 0 <= k < edges[e]@.len() ==> #[trigger] edges[e]@[k] <= m
    &&& m == 0 || occurs(edges, m)
}

/// The list `start, start + 1, ..., start + len - 1`.
pub open spec fn run(start: int, len: nat) -> Seq<usize> {
    Seq::new(len, |i: int| (start + i) as usize)
}

/// The list `edge` with `shift` added to each index.
pub open spec fn shifted(edge: Seq<usize>, shift: int) -> Seq<usize> {
    Seq::new(edge.len(), |i: int| (edge[i] + shift) as usize)
}

/// The list `node, node + step, ..., node + (len - 1) * step`.
pub open spec fn strided(node: int, step: int, len: nat) -> Seq<usize> {
    Seq::new(len, |i: int| (node + i * step) as usize)
}

/// Two largest indices of the same edges are the same.
pub proof fn lemma_max_node_unique(a: usize, b: usize, edges: Seq<Vec<usize>>)
    requires
        is_max_node(a, edges),
        is_max_node(b, edges),
    ensures
        a == b,
{
    if a != 0 {
        let (e, k) = choose|e: int, k: int|
            0 <= e < edges.len() && 0 <= k < edges[e]@.len() && #[trigger] edges[e]@[k] == a;
        assert(edges[e]@[k] <= b);
    }
    if b != 0 {
        let (e, k) = choose|e: int, k: int|
            0 <= e < edges.len() && 0 <= k < edges[e]@.len() && #[trigger] edges[e]@[k] == b;
        assert(edges[e]@[k] <= a);
    }
}

/// The largest index in the edges, or zero where there is none.
pub open spec fn max_node_of(edges: Seq<Vec<usize>>) -> usize {
    choose|m: usize| is_max_node(m, edges)
}

/// Whether `new` is what extruding `old` by `l` layers gives: the edges of
/// `old`; then a copy of each edge in each layer, layer `o` shifted by `o`
/// times the number of vertices in a layer; then for each vertex of a layer
/// the edge through its copies in all layers.  A layer has the vertices
/// `0 .. shift`.
pub open spec fn is_extrusion(new: Seq<Vec<usize>>, old: Seq<Vec<usize>>, shift: int, l: int) -> bool {
    &&& new.len() == old.len() + old.len() * l + shift
    &&& forall|i: int| 0 <= i < old.len() ==> (#[trigger] new[i])@ == old[i]@
    &&& forall|e: int, o: int|
        0 <= e < old.len() && 0 <= o < l ==> (#[trigger] new[old.len() + e * l + o])@ == shifted(
            old[e]@,
            o * shift,
        )
    &&& forall|v: int|
        0 <= v < shift ==> (#[trigger] new[old.len() + old.len() * l + v])@ == strided(v, shift, l as nat)
}

/// Whether `new` is `first` with `second` beside it: the edges of `first`,
/// then those of `second` with their indices shifted past those of `first`.
pub open spec fn is_sum(new: Seq<Vec<usize>>, first: Seq<Vec<usize>>, second: Seq<Vec<usize>>, shift: int) -> bool {
    &&& new.len() == first.len() + second.len()
    &&& forall|i: int| 0 <= i < first.len() ==> (#[trigger] new[i])@ == first[i]@
    &&& forall|i: int|
        0 <= i < second.len() ==> (#[trigger] new[first.len() + i])@ == shifted(second[i]@, shift)
}

/// Whether `new` is `first` fully connected to `second`: the two side by
/// side, and then an edge of two vertices for each vertex of the one and
/// each vertex of the other.
pub open spec fn is_full_connection(
    new: Seq<Vec<usize>>,
    first: Seq<Vec<usize>>,
    second: Seq<Vec<usize>>,
    first_nodes: Seq<usize>,
    second_nodes: Seq<usize>,
    shift: int,
) -> bool {
    &&& new.len() == first.len() + second.len() + first_nodes.len() * second_nodes.len()
    &&& forall|i: int| 0 <= i < first.len() ==> (#[trigger] new[i])@ == first[i]@
    &&& forall|i: int|
        0 <= i < second.len() ==> (#[trigger] new[first.len() + i])@ == shifted(second[i]@, shift)
    &&& forall|a: int, b: int|
        0 <= a < first_nodes.len() && 0 <= b < second_nodes.len() ==> (#[trigger] new[first.len()
            + second.len() + a * second_nodes.len() + b])@ == seq![
            first_nodes[a],
            (second_nodes[b] + shift) as usize,
        ]
}

/// A copy of the edge with `shift` added to each index.
pub fn shift_edge(edge: &Vec<usize>, shift: usize) -> (r: Vec<usize>)
    requires
        forall|k: int| 0 <= k < edge@.len() ==> #[trigger] edge@[k] + shift <= usize::MAX,
    ensures
        r@ == shifted(edge@, shift as int),
{
    let mut r: Vec<usize> = Vec::with_capacity(edge.len());
    let mut k: usize = 0;
    while k < edge.len()
        invariant
            k <= edge@.len(),
            r@.len() == k,
            forall|k: int| 0 <= k < edge@.len() ==> #[trigger] edge@[k] + shift <= usize::MAX,
            forall|j: int| 0 <= j < k ==> r@[j] == edge@[j] + shift,
        decreases edge@.len() - k,
    {
        r.push(edge[k] + shift);
        k = k + 1;
    }
    proof {
        assert(r@ =~= shifted(edge@, shift as int));
    }
    r
}

/// A copy of the edges.
pub fn copy_edges(edges: &Vec<Vec<usize>>) -> (r: Vec<Vec<usize>>)
    ensures
        r@.len() == edges@.len(),
        forall|e: int| 0 <= e < edges@.len() ==> (#[trigger] r@[e])@ == edges@[e]@,
{
    let mut r: Vec<Vec<usize>> = Vec::with_capacity(edges.len());
    let mut e: usize = 0;
    while e < edges.len()
        invariant
            e <= edges@.len(),
            r@.len() == e,
            forall|f: int| 0 <= f < e ==> (#[trigger] r@[f])@ == edges@[f]@,
        decreases edges@.len() - e,
    {
        let copy = shift_edge(&edges[e], 0);
        proof {
            assert(copy@ =~= edges@[e as int]@);
        }
        r.push(copy);
        e = e + 1;
    }
    r
}

impl Builder {
    /// The indices in the edges, in rising order, each once.
    pub fn get_nodes(&self) -> (nodes: Vec<usize>)
        ensures
            is_node_list(nodes@, self.hyperedges@),
    {
        let ghost edges = self.hyperedges@;
        let mut all: Vec<usize> = Vec::new();
        let mut e: usize = 0;
        while e < self.hyperedges.len()
            invariant
                e <= self.hyperedges@.len(),
                edges == self.hyperedges@,
                forall|i: int| 0 <= i < all@.len() ==> occurs(edges, #[trigger] all@[i]),
                forall|f: int, k: int|
                    0 <= f < e && 0 <= k < edges[f]@.len() ==> all@.contains(#[trigger] edges[f]@[k]),
            decreases self.hyperedges@.len() - e,
        {
            let edge = &self.hyperedges[e];
            let mut k: usize = 0;
            while k < edge.len()
                invariant
                    k <= edge@.len(),
                    e < edges.len(),
                    edge@ == edges[e as int]@,
                    forall|i: int| 0 <= i < all@.len() ==> occurs(edges, #[trigger] all@[i]),
                    forall|f: int, j: int|
                        0 <= f < e && 0 <= j < edges[f]@.len() ==> all@.contains(#[trigger] edges[f]@[j]),
                    forall|j: int| 0 <= j < k ==> all@.contains(#[trigger] edge@[j]),
                decreases edge@.len() - k,
            {
                let ghost before = all@;
                all.push(edge[k]);
                proof {
                    assert(all@[all@.len() - 1] == edge@[k as int]);
                    assert(edges[e as int]@[k as int] == edge@[k as int]);
                    assert forall|x: usize| before.contains(x) implies all@.contains(x) by {
                        let i = choose|i: int| 0 <= i < before.len() && before[i] == x;
                        assert(all@[i] == x);
                    }
                }
                k = k + 1;
            }
            e = e + 1;
        }
        let ghost raw = all@;
        sort_keys(&mut all);
        let ghost p = choose|p: Seq<int>| is_sorted_keys(all@, raw, p);
        proof {
            assert forall|x: usize| raw.contains(x) implies all@.contains(x) by {
                let j = choose|j: int| 0 <= j < raw.len() && raw[j] == x;
                lemma_rearrangement_onto(p, raw.len(), j);
                let i = choose|i: int| 0 <= i < raw.len() && p[i] == j;
                assert(all@[i] == x);
            }
            assert forall|i: int| 0 <= i < all@.len() implies occurs(edges, #[trigger] all@[i]) by {
                assert(all@[i] == raw[p[i]]);
            }
        }
        // keep the first of each run of equal indices
        let mut nodes: Vec<usize> = Vec::new();
        let mut i: usize = 0;
        while i < all.len()
            invariant
                i <= all@.len(),
                forall|a: int, b: int| 0 <= a < b < all@.len() ==> all@[a] <= all@[b],
                forall|a: int| 0 <= a < all@.len() ==> occurs(edges, #[trigger] all@[a]),
                forall|a: int, b: int| 0 <= a < b < nodes@.len() ==> nodes@[a] < nodes@[b],
                forall|a: int| 0 <= a < nodes@.len() ==> occurs(edges, #[trigger] nodes@[a]),
                forall|a: int| 0 <= a < i ==> nodes@.contains(#[trigger] all@[a]),
                i > 0 ==> nodes@.len() > 0 && nodes@[nodes@.len() - 1] == all@[i - 1],
                i == 0 ==> nodes@.len() == 0,
            decreases all@.len() - i,
        {
            let ghost before = nodes@;
            if i == 0 || all[i] != all[i - 1] {
                nodes.push(all[i]);
                proof {
                    assert(nodes@[nodes@.len() - 1] == all@[i as int]);
                    assert forall|x: usize| before.contains(x) implies nodes@.contains(x) by {
                        let a = choose|a: int| 0 <= a < before.len() && before[a] == x;
                        assert(nodes@[a] == x);
                    }
                    if i > 0 {
                        assert(all@[i - 1] <= all@[i as int]);
                    }
                }
            } else {
                proof {
                    assert(nodes@.contains(all@[i - 1]));
                }
            }
            i = i + 1;
        }
        proof {
            assert forall|v: usize| occurs(edges, v) implies nodes@.contains(v) by {
                let (f, k) = choose|f: int, k: int|
                    0 <= f < edges.len() && 0 <= k < edges[f]@.len() && #[trigger] edges[f]@[k] == v;
                assert(raw.contains(edges[f]@[k]));
                assert(all@.contains(v));
                let a = choose|a: int| 0 <= a < all@.len() && all@[a] == v;
                assert(nodes@.contains(all@[a]));
            }
        }
        nodes
    }

    /// The largest index in the edges, or zero where there is none.
    pub fn get_max_node(&self) -> (m: usize)
        ensures
            is_max_node(m, self.hyperedges@),
    {
        let mut nodes = self.get_nodes();
        let ghost list = nodes@;
        match nodes.pop() {
            Some(m) => {
                proof {
                    assert(list[list.len() - 1] == m);
                    assert forall|e: int, k: int|
                        0 <= e < self.hyperedges@.len() && 0 <= k < self.hyperedges@[e]@.len() implies #[trigger] self.hyperedges@[e]@[k]
                        <= m by {
                        let v = self.hyperedges@[e]@[k];
                        assert(occurs(self.hyperedges@, v));
                        assert(list.contains(v));
                        let i = choose|i: int| 0 <= i < list.len() && list[i] == v;
                        if i < list.len() - 1 {
                            assert(list[i] < list[list.len() - 1]);
                        }
                    }
                }
                m
            },
            None => {
                proof {
                    assert forall|e: int, k: int|
                        0 <= e < self.hyperedges@.len() && 0 <= k < self.hyperedges@[e]@.len() implies #[trigger] self.hyperedges@[e]@[k]
                        <= 0 by {
                        let v = self.hyperedges@[e]@[k];
                        assert(occurs(self.hyperedges@, v));
                        assert(list.contains(v));
                    }
                }
                0
            },
        }
    }

    /// The builder of the given edges.
    pub fn from_hyperedges(hyperedges: Vec<Vec<usize>>) -> (b: Builder)
        ensures
            b.hyperedges == hyperedges,
    {
        Builder { hyperedges }
    }

    /// One empty edge: no vertex at all.
    pub fn empty() -> (b: Builder)
        ensures
            b.hyperedges@.len() == 1,
            b.hyperedges@[0]@ == Seq::<usize>::empty(),
    {
        let mut edges: Vec<Vec<usize>> = Vec::new();
        edges.push(Vec::new());
        Builder::from_hyperedges(edges)
    }

    /// One edge with the one vertex 0.
    pub fn unit() -> (b: Builder)
        ensures
            b.hyperedges@.len() == 1,
            b.hyperedges@[0]@ == seq![0usize],
    {
        let mut edge: Vec<usize> = Vec::new();
        edge.push(0);
        let mut edges: Vec<Vec<usize>> = Vec::new();
        edges.push(edge);
        Builder::from_hyperedges(edges)
    }

    /// A heap of `size` tokens: one edge with the vertices `0 .. size`.
    pub fn heap(size: usize) -> (b: Builder)
        ensures
            b.hyperedges@.len() == 1,
            b.hyperedges@[0]@ == run(0, size as nat),
    {
        let mut edge: Vec<usize> = Vec::with_capacity(size);
        let mut i: usize = 0;
        while i < size
            invariant
                i <= size,
                edge@.len() == i,
                forall|j: int| 0 <= j < i ==> edge@[j] == j,
            decreases size - i,
        {
            edge.push(i);
            i = i + 1;
        }
        proof {
            assert(edge@ =~= run(0, size as nat));
        }
        let mut edges: Vec<Vec<usize>> = Vec::new();
        edges.push(edge);
        Builder::from_hyperedges(edges)
    }

    /// A row of `size` pins for Kayles: an edge for each two neighbours.
    /// No pin gives `empty()`, one pin `unit()`.
    pub fn kayles(size: usize) -> (b: Builder)
        ensures
            size == 0 ==> b.hyperedges@.len() == 1 && b.hyperedges@[0]@ == Seq::<usize>::empty(),
            size == 1 ==> b.hyperedges@.len() == 1 && b.hyperedges@[0]@ == seq![0usize],
            size >= 2 ==> b.hyperedges@.len() == size - 1 && forall|i: int|
                0 <= i < size - 1 ==> (#[trigger] b.hyperedges@[i])@ == seq![i as usize, (i + 1) as usize],
    {
        if size == 0 {
            return Builder::empty();
        }
        if size == 1 {
            return Builder::unit();
        }
        let mut hyperedges: Vec<Vec<usize>> = Vec::new();
        let mut i: usize = 1;
        while i < size
            invariant
                1 <= i <= size,
                hyperedges@.len() == i - 1,
                forall|j: int|
                    0 <= j < i - 1 ==> (#[trigger] hyperedges@[j])@ == seq![j as usize, (j + 1) as usize],
            decreases size - i,
        {
            let mut edge: Vec<usize> = Vec::new();
            edge.push(i - 1);
            edge.push(i);
            proof {
                assert(edge@ =~= seq![(i - 1) as usize, i as usize]);
            }
            hyperedges.push(edge);
            i = i + 1;
        }
        Builder::from_hyperedges(hyperedges)
    }

    /// Puts `other` beside the edges: its indices are shifted past the
    /// largest index here.
    pub fn sum(self, other: Builder) -> (b: Builder)
        requires
            max_node_of(self.hyperedges@) + 1 + max_node_of(other.hyperedges@) <= usize::MAX,
        ensures
            is_sum(
                b.hyperedges@,
                self.hyperedges@,
                other.hyperedges@,
                max_node_of(self.hyperedges@) + 1,
            ),
    {
        let ghost first = self.hyperedges@;
        let ghost second = other.hyperedges@;
        let top = self.get_max_node();
        let other_top = other.get_max_node();
        proof {
            lemma_max_node_unique(top, max_node_of(first), first);
            lemma_max_node_unique(other_top, max_node_of(second), second);
        }
        let shift = top + 1;
        let mut edges = self.hyperedges;
        let mut i: usize = 0;
        while i < other.hyperedges.len()
            invariant
                i <= second.len(),
                second == other.hyperedges@,
                is_max_node(other_top, second),
                shift + other_top <= usize::MAX,
                edges@.len() == first.len() + i,
                forall|j: int| 0 <= j < first.len() ==> (#[trigger] edges@[j])@ == first[j]@,
                forall|j: int|
                    0 <= j < i ==> (#[trigger] edges@[first.len() + j])@ == shifted(
                        second[j]@,
                        shift as int,
                    ),
            decreases second.len() - i,
        {
            proof {
                assert forall|k: int| 0 <= k < second[i as int]@.len() implies #[trigger] second[i as int]@[k]
                    + shift <= usize::MAX by {
                    assert(second[i as int]@[k] <= other_top);
                }
            }
            edges.push(shift_edge(&other.hyperedges[i], shift));
            i = i + 1;
        }
        Builder { hyperedges: edges }
    }

    /// Fully connects the edges to those of `other`: puts `other` beside
    /// them and adds an edge of two vertices for each vertex here and each
    /// vertex of `other`.
    pub fn fully_connect(self, other: &Builder) -> (b: Builder)
        requires
            max_node_of(self.hyperedges@) + 1 + max_node_of(other.hyperedges@) <= usize::MAX,
        ensures
            exists|first_nodes: Seq<usize>, second_nodes: Seq<usize>|
                is_node_list(first_nodes, self.hyperedges@) && is_node_list(
                    second_nodes,
                    other.hyperedges@,
                ) && #[trigger] is_full_connection(
                    b.hyperedges@,
                    self.hyperedges@,
                    other.hyperedges@,
                    first_nodes,
                    second_nodes,
                    max_node_of(self.hyperedges@) + 1,
                ),
    {
        let ghost first = self.hyperedges@;
        let ghost second = other.hyperedges@;
        let self_nodes = self.get_nodes();
        let other_nodes = other.get_nodes();
        let top = self.get_max_node();
        let other_top = other.get_max_node();
        proof {
            lemma_max_node_unique(top, max_node_of(first), first);
            lemma_max_node_unique(other_top, max_node_of(second), second);
        }
        let shift = top + 1;
        let mut edges = self.hyperedges;
        let mut i: usize = 0;
        while i < other.hyperedges.len()
            invariant
                i <= second.len(),
                second == other.hyperedges@,
                is_max_node(other_top, second),
                shift + other_top <= usize::MAX,
                edges@.len() == first.len() + i,
                forall|j: int| 0 <= j < first.len() ==> (#[trigger] edges@[j])@ == first[j]@,
                forall|j: int|
                    0 <= j < i ==> (#[trigger] edges@[first.len() + j])@ == shifted(
                        second[j]@,
                        shift as int,
                    ),
            decreases second.len() - i,
        {
            proof {
                assert forall|k: int| 0 <= k < second[i as int]@.len() implies #[trigger] second[i as int]@[k]
                    + shift <= usize::MAX by {
                    assert(second[i as int]@[k] <= other_top);
                }
            }
            edges.push(shift_edge(&other.hyperedges[i], shift));
            i = i + 1;
        }
        let ghost base = first.len() + second.len();
        let ghost width = other_nodes@.len() as int;
        let mut a: usize = 0;
        while a < self_nodes.len()
            invariant
                a <= self_nodes@.len(),
                base == first.len() + second.len(),
                width == other_nodes@.len(),
                is_node_list(other_nodes@, second),
                is_max_node(other_top, second),
                shift + other_top <= usize::MAX,
                edges@.len() == base + a * width,
                forall|j: int| 0 <= j < first.len() ==> (#[trigger] edges@[j])@ == first[j]@,
                forall|j: int|
                    0 <= j < second.len() ==> (#[trigger] edges@[first.len() + j])@ == shifted(
                        second[j]@,
                        shift as int,
                    ),
                forall|x: int, y: int|
                    0 <= x < a && 0 <= y < width ==> (#[trigger] edges@[base + x * width + y])@ == seq![
                        self_nodes@[x],
                        (other_nodes@[y] + shift) as usize,
                    ],
            decreases self_nodes@.len() - a,
        {
            let mut b: usize = 0;
            while b < other_nodes.len()
                invariant
                    b <= other_nodes@.len(),
                    a < self_nodes@.len(),
                    base == first.len() + second.len(),
                    width == other_nodes@.len(),
                    is_node_list(other_nodes@, second),
                    is_max_node(other_top, second),
                    shift + other_top <= usize::MAX,
                    edges@.len() == base + a * width + b,
                    forall|j: int| 0 <= j < first.len() ==> (#[trigger] edges@[j])@ == first[j]@,
                    forall|j: int|
                        0 <= j < second.len() ==> (#[trigger] edges@[first.len() + j])@ == shifted(
                            second[j]@,
                            shift as int,
                        ),
                    forall|x: int, y: int|
                        0 <= x < a && 0 <= y < width ==> (#[trigger] edges@[base + x * width + y])@ == seq![
                            self_nodes@[x],
                            (other_nodes@[y] + shift) as usize,
                        ],
                    forall|y: int|
                        0 <= y < b ==> (#[trigger] edges@[base + a * width + y])@ == seq![
                            self_nodes@[a as int],
                            (other_nodes@[y] + shift) as usize,
                        ],
                decreases other_nodes@.len() - b,
            {
                proof {
                    let v = other_nodes@[b as int];
                    assert(occurs(second, v));
                    let (e, k) = choose|e: int, k: int|
                        0 <= e < second.len() && 0 <= k < second[e]@.len() && #[trigger] second[e]@[k] == v;
                    assert(second[e]@[k] <= other_top);
                }
                let mut pair: Vec<usize> = Vec::new();
                pair.push(self_nodes[a]);
                pair.push(other_nodes[b] + shift);
                proof {
                    assert(pair@ =~= seq![self_nodes@[a as int], (other_nodes@[b as int] + shift) as usize]);
                }
                let ghost before = edges@;
                edges.push(pair);
                proof {
                    assert forall|x: int, y: int| 0 <= x < a && 0 <= y < width implies (
                    #[trigger] edges@[base + x * width + y])@ == seq![
                        self_nodes@[x],
                        (other_nodes@[y] + shift) as usize,
                    ] by {
                        assert(x * width + y < a * width) by (nonlinear_arith)
                            requires
                                0 <= x < a,
                                0 <= y < width,
                        ;
                        assert(edges@[base + x * width + y] == before[base + x * width + y]);
                    }
                }
                b = b + 1;
            }
            proof {
                assert((a + 1) * width == a * width + width) by (nonlinear_arith);
                assert forall|x: int, y: int| 0 <= x < a + 1 && 0 <= y < width implies (
                #[trigger] edges@[base + x * width + y])@ == seq![
                    self_nodes@[x],
                    (other_nodes@[y] + shift) as usize,
                ] by {}
            }
            a = a + 1;
        }
        let b = Builder { hyperedges: edges };
        proof {
            assert(is_full_connection(
                b.hyperedges@,
                first,
                second,
                self_nodes@,
                other_nodes@,
                shift as int,
            ));
        }
        b
    }

    /// Connects one new vertex to every vertex.
    pub fn connect_unit_to_all(self) -> (b: Builder)
        requires
            max_node_of(self.hyperedges@) + 1 <= usize::MAX,
        ensures
            exists|first_nodes: Seq<usize>, second_nodes: Seq<usize>, unit: Seq<Vec<usize>>|
                unit.len() == 1 && unit[0]@ == seq![0usize] && is_node_list(
                    first_nodes,
                    self.hyperedges@,
                ) && is_node_list(second_nodes, unit) && #[trigger] is_full_connection(
                    b.hyperedges@,
                    self.hyperedges@,
                    unit,
                    first_nodes,
                    second_nodes,
                    max_node_of(self.hyperedges@) + 1,
                ),
    {
        let unit = Builder::unit();
        proof {
            lemma_unit_max(unit.hyperedges@);
        }
        self.fully_connect(&unit)
    }
}

impl Builder {
    /// Extrudes the edges into `l` layers: keeps the edges, adds a copy of
    /// each edge in each layer, and adds for each vertex of a layer the edge
    /// through its copies in all layers.  A layer has the vertices from 0 to
    /// the largest index.
    pub fn extrude(self, l: usize) -> (b: Builder)
        requires
            max_node_of(self.hyperedges@) + 1 <= usize::MAX,
            (max_node_of(self.hyperedges@) + 1) * l <= usize::MAX,
        ensures
            is_extrusion(
                b.hyperedges@,
                self.hyperedges@,
                max_node_of(self.hyperedges@) + 1,
                l as int,
            ),
    {
        let ghost old = self.hyperedges@;
        let old_hyperedges = copy_edges(&self.hyperedges);
        let top = self.get_max_node();
        proof {
            lemma_max_node_unique(top, max_node_of(old), old);
        }
        let shift = top + 1;
        let m = old_hyperedges.len();
        let ghost width = l as int;
        let mut edges = self.hyperedges;
        let mut e: usize = 0;
        while e < m
            invariant
                e <= m,
                m == old.len(),
                width == l,
                shift == top + 1,
                shift * l <= usize::MAX,
                is_max_node(top, old),
                old_hyperedges@.len() == m,
                forall|i: int| 0 <= i < m ==> (#[trigger] old_hyperedges@[i])@ == old[i]@,
                edges@.len() == m + e * width,
                forall|i: int| 0 <= i < m ==> (#[trigger] edges@[i])@ == old[i]@,
                forall|x: int, o: int|
                    0 <= x < e && 0 <= o < width ==> (#[trigger] edges@[m + x * width + o])@ == shifted(
                        old[x]@,
                        o * shift,
                    ),
            decreases m - e,
        {
            let mut offset: usize = 0;
            while offset < l
                invariant
                    offset <= l,
                    e < m,
                    m == old.len(),
                    width == l,
                    shift == top + 1,
                    shift * l <= usize::MAX,
                    is_max_node(top, old),
                    old_hyperedges@.len() == m,
                    forall|i: int| 0 <= i < m ==> (#[trigger] old_hyperedges@[i])@ == old[i]@,
                    edges@.len() == m + e * width + offset,
                    forall|i: int| 0 <= i < m ==> (#[trigger] edges@[i])@ == old[i]@,
                    forall|x: int, o: int|
                        0 <= x < e && 0 <= o < width ==> (#[trigger] edges@[m + x * width + o])@
                            == shifted(old[x]@, o * shift),
                    forall|o: int|
                        0 <= o < offset ==> (#[trigger] edges@[m + e * width + o])@ == shifted(
                            old[e as int]@,
                            o * shift,
                        ),
                decreases l - offset,
            {
                proof {
                    assert(offset * shift + shift <= shift * l) by (nonlinear_arith)
                        requires
                            offset < l,
                            shift >= 0,
                    ;
                }
                let by = offset * shift;
                proof {
                    assert forall|k: int| 0 <= k < old_hyperedges@[e as int]@.len() implies #[trigger] old_hyperedges@[e as int]@[k]
                        + by <= usize::MAX by {
                        assert(old[e as int]@[k] <= top);
                    }
                }
                let new_edge = shift_edge(&old_hyperedges[e], by);
                let ghost before = edges@;
                edges.push(new_edge);
                proof {
                    assert forall|x: int, o: int| 0 <= x < e && 0 <= o < width implies (
                    #[trigger] edges@[m + x * width + o])@ == shifted(old[x]@, o * shift) by {
                        assert(x * width + o < e * width) by (nonlinear_arith)
                            requires
                                0 <= x < e,
                                0 <= o < width,
                        ;
                        assert(edges@[m + x * width + o] == before[m + x * width + o]);
                    }
                }
                offset = offset + 1;
            }
            proof {
                assert((e + 1) * width == e * width + width) by (nonlinear_arith);
                assert forall|x: int, o: int| 0 <= x < e + 1 && 0 <= o < width implies (
                #[trigger] edges@[m + x * width + o])@ == shifted(old[x]@, o * shift) by {}
            }
            e = e + 1;
        }
        let ghost base = m + m * width;
        let mut node: usize = 0;
        while node < shift
            invariant
                node <= shift,
                m == old.len(),
                width == l,
                base == m + m * width,
                shift * l <= usize::MAX,
                edges@.len() == base + node,
                forall|i: int| 0 <= i < m ==> (#[trigger] edges@[i])@ == old[i]@,
                forall|x: int, o: int|
                    0 <= x < m && 0 <= o < width ==> (#[trigger] edges@[m + x * width + o])@ == shifted(
                        old[x]@,
                        o * shift,
                    ),
                forall|v: int|
                    0 <= v < node ==> (#[trigger] edges@[base + v])@ == strided(v, shift as int, l as nat),
            decreases shift - node,
        {
            let mut new_set: Vec<usize> = Vec::with_capacity(l);
            let mut offset: usize = 0;
            while offset < l
                invariant
                    offset <= l,
                    node < shift,
                    shift * l <= usize::MAX,
                    new_set@.len() == offset,
                    forall|o: int| 0 <= o < offset ==> new_set@[o] == node + o * shift,
                decreases l - offset,
            {
                proof {
                    assert(offset * shift + shift <= shift * l) by (nonlinear_arith)
                        requires
                            offset < l,
                            shift >= 0,
                    ;
                }
                new_set.push(node + offset * shift);
                offset = offset + 1;
            }
            proof {
                assert(new_set@ =~= strided(node as int, shift as int, l as nat));
            }
            let ghost before = edges@;
            edges.push(new_set);
            proof {
                assert forall|x: int, o: int| 0 <= x < m && 0 <= o < width implies (
                #[trigger] edges@[m + x * width + o])@ == shifted(old[x]@, o * shift) by {
                    assert(x * width + o < m * width) by (nonlinear_arith)
                        requires
                            0 <= x < m,
                            0 <= o < width,
                    ;
                    assert(edges@[m + x * width + o] == before[m + x * width + o]);
                }
            }
            node = node + 1;
        }
        Builder { hyperedges: edges }
    }

    /// The triangular board of side `l`: for each `i` below `l` the three
    /// lines of `l - i` fields that run in the three directions of the board.
    pub fn triangle(l: usize) -> (b: Builder)
        requires
            l * l <= usize::MAX,
        ensures
            b.hyperedges@.len() == 3 * l,
            forall|i: int|
                0 <= i < l ==> (#[trigger] b.hyperedges@[3 * i])@ == strided(i, l as int, (l - i) as nat),
            forall|i: int|
                0 <= i < l ==> (#[trigger] b.hyperedges@[3 * i + 1])@ == run(i * l, (l - i) as nat),
            forall|i: int|
                0 <= i < l ==> (#[trigger] b.hyperedges@[3 * i + 2])@ == strided(
                    l - 1 - i,
                    l - 1,
                    (l - i) as nat,
                ),
    {
        let mut hyperedges: Vec<Vec<usize>> = Vec::new();
        let mut i: usize = 0;
        while i < l
            invariant
                i <= l,
                l * l <= usize::MAX,
                hyperedges@.len() == 3 * i,
                forall|x: int|
                    0 <= x < i ==> (#[trigger] hyperedges@[3 * x])@ == strided(x, l as int, (l - x) as nat),
                forall|x: int|
                    0 <= x < i ==> (#[trigger] hyperedges@[3 * x + 1])@ == run(x * l, (l - x) as nat),
                forall|x: int|
                    0 <= x < i ==> (#[trigger] hyperedges@[3 * x + 2])@ == strided(
                        l - 1 - x,
                        l - 1,
                        (l - x) as nat,
                    ),
            decreases l - i,
        {
            let mut h1: Vec<usize> = Vec::new();
            let mut h2: Vec<usize> = Vec::new();
            let mut h3: Vec<usize> = Vec::new();
            let mut j: usize = 0;
            while j < l - i
                invariant
                    i < l,
                    j <= l - i,
                    l * l <= usize::MAX,
                    h1@.len() == j,
                    h2@.len() == j,
                    h3@.len() == j,
                    forall|y: int| 0 <= y < j ==> h1@[y] == i + y * l,
                    forall|y: int| 0 <= y < j ==> h2@[y] == i * l + y,
                    forall|y: int| 0 <= y < j ==> h3@[y] == l - 1 - i + y * (l - 1),
                decreases l - i - j,
            {
                proof {
                    assert(i + j * l < l * l && j + i * l < l * l && l - 1 - i + j * (l - 1) < l * l
                        && j * l < l * l && i * l < l * l && j * (l - 1) < l * l) by (nonlinear_arith)
                        requires
                            i < l,
                            j < l - i,
                    ;
                }
                h1.push(i + j * l);
                h2.push(j + i * l);
                h3.push(l - 1 - i + j * (l - 1));
                j = j + 1;
            }
            proof {
                assert(h1@ =~= strided(i as int, l as int, (l - i) as nat));
                assert(h2@ =~= run(i * l, (l - i) as nat));
                assert(h3@ =~= strided(l - 1 - i, l - 1, (l - i) as nat));
            }
            let ghost before = hyperedges@;
            hyperedges.push(h1);
            hyperedges.push(h2);
            hyperedges.push(h3);
            proof {
                assert forall|x: int| 0 <= x < i + 1 implies (#[trigger] hyperedges@[3 * x])@ == strided(
                    x,
                    l as int,
                    (l - x) as nat,
                ) by {
                    if x < i {
                        assert(hyperedges@[3 * x] == before[3 * x]);
                    }
                }
                assert forall|x: int| 0 <= x < i + 1 implies (#[trigger] hyperedges@[3 * x + 1])@ == run(
                    x * l,
                    (l - x) as nat,
                ) by {
                    if x < i {
                        assert(hyperedges@[3 * x + 1] == before[3 * x + 1]);
                    }
                }
                assert forall|x: int| 0 <= x < i + 1 implies (#[trigger] hyperedges@[3 * x + 2])@
                    == strided(l - 1 - x, l - 1, (l - x) as nat) by {
                    if x < i {
                        assert(hyperedges@[3 * x + 2] == before[3 * x + 2]);
                    }
                }
            }
            i = i + 1;
        }
        Builder::from_hyperedges(hyperedges)
    }
}

/// The product of the lengths.
pub open spec fn product_of(lengths: Seq<usize>) -> nat
    decreases lengths.len(),
{
    if lengths.len() == 0 {
        1
    } else {
        product_of(lengths.drop_last()) * (lengths.last() as nat)
    }
}

/// Whether `edges` are those of the cuboid with the given side lengths:
/// the unit, extruded along one side after the other.
pub open spec fn is_cuboid(edges: Seq<Vec<usize>>, lengths: Seq<usize>) -> bool
    decreases lengths.len(),
{
    if lengths.len() == 0 {
        edges.len() == 1 && edges[0]@ == seq![0usize]
    } else {
        exists|prev: Seq<Vec<usize>>|
            #[trigger] is_extrusion(
                edges,
                prev,
                product_of(lengths.drop_last()) as int,
                lengths.last() as int,
            ) && is_cuboid(prev, lengths.drop_last())
    }
}

/// The list of `dim` times the length `l`.
pub open spec fn equal_sides(dim: nat, l: usize) -> Seq<usize> {
    Seq::new(dim, |i: int| l)
}

/// The product of `dim` sides of length `l` is `l` times that of one side
/// less.
pub proof fn lemma_equal_sides(dim: nat, l: usize)
    ensures
        product_of(equal_sides(dim, l)) == if dim == 0 {
            1
        } else {
            product_of(equal_sides((dim - 1) as nat, l)) * l
        },
{
    if dim > 0 {
        assert(equal_sides(dim, l).drop_last() =~= equal_sides((dim - 1) as nat, l));
    }
}

/// Whether every index in the edges is below 128.
pub proof fn lemma_small_fits(m: usize, edges: Seq<Vec<usize>>)
    requires
        is_max_node(m, edges),
        m < 128,
    ensures
        all_fit(edges),
{
}

/// The largest index of a heap of `size` tokens is `size - 1`.
pub proof fn lemma_heap_max(edges: Seq<Vec<usize>>, size: usize)
    requires
        size >= 1,
        edges.len() == 1,
        edges[0]@ == run(0, size as nat),
    ensures
        is_max_node((size - 1) as usize, edges),
        max_node_of(edges) == size - 1,
{
    assert(edges[0]@[size - 1] == size - 1);
    assert(occurs(edges, (size - 1) as usize));
    assert(is_max_node((size - 1) as usize, edges));
    lemma_max_node_unique((size - 1) as usize, max_node_of(edges), edges);
}

/// The largest index of two games side by side is that of the second,
/// shifted.
pub proof fn lemma_sum_max(
    new: Seq<Vec<usize>>,
    first: Seq<Vec<usize>>,
    second: Seq<Vec<usize>>,
    a: usize,
    b: usize,
)
    requires
        is_max_node(a, first),
        is_max_node(b, second),
        occurs(second, b),
        a + 1 + b <= usize::MAX,
        is_sum(new, first, second, a + 1),
    ensures
        is_max_node((a + 1 + b) as usize, new),
        max_node_of(new) == a + 1 + b,
        occurs(new, (a + 1 + b) as usize),
{
    let top = (a + 1 + b) as usize;
    assert forall|e: int, k: int| 0 <= e < new.len() && 0 <= k < new[e]@.len() implies #[trigger] new[e]@[k]
        <= top by {
        if e < first.len() {
            assert(new[e]@ == first[e]@);
            assert(first[e]@[k] <= a);
        } else {
            let i = e - first.len();
            assert(new[first.len() + i]@ == shifted(second[i]@, a + 1));
            assert(second[i]@[k] <= b);
        }
    }
    let (e, k) = choose|e: int, k: int|
        0 <= e < second.len() && 0 <= k < second[e]@.len() && #[trigger] second[e]@[k] == b;
    assert(new[first.len() + e]@ == shifted(second[e]@, a + 1));
    assert(new[first.len() + e]@[k] == top);
    assert(occurs(new, top));
    assert(is_max_node(top, new));
    lemma_max_node_unique(top, max_node_of(new), new);
}

/// Whether `edges` are those of the tetrahedron of dimension `dim`: the
/// unit, with a new vertex connected to all vertices `dim` times.
pub open spec fn is_tetrahedron(edges: Seq<Vec<usize>>, dim: nat) -> bool
    decreases dim,
{
    if dim == 0 {
        edges.len() == 1 && edges[0]@ == seq![0usize]
    } else {
        exists|prev: Seq<Vec<usize>>, unit: Seq<Vec<usize>>, first_nodes: Seq<usize>, second_nodes: Seq<usize>|
            #[trigger] is_full_connection(edges, prev, unit, first_nodes, second_nodes, dim as int)
                && unit.len() == 1 && unit[0]@ == seq![0usize] && is_node_list(first_nodes, prev)
                && is_node_list(second_nodes, unit) && is_tetrahedron(prev, (dim - 1) as nat)
    }
}

/// How often the list holds the index `v`.
pub open spec fn times_in(list: Seq<usize>, v: usize) -> nat
    decreases list.len(),
{
    if list.len() == 0 {
        0
    } else {
        times_in(list.drop_last(), v) + if list.last() == v {
            1nat
        } else {
            0nat
        }
    }
}

/// How often the edges hold the index `v`, all edges taken together.
pub open spec fn occurrences(edges: Seq<Vec<usize>>, v: usize) -> nat
    decreases edges.len(),
{
    if edges.len() == 0 {
        0
    } else {
        occurrences(edges.drop_last(), v) + times_in(edges.last()@, v)
    }
}

/// Empty edges hold no index.
pub proof fn lemma_no_occurrences(edges: Seq<Vec<usize>>, v: usize)
    requires
        forall|e: int| 0 <= e < edges.len() ==> (#[trigger] edges[e])@.len() == 0,
    ensures
        occurrences(edges, v) == 0,
    decreases edges.len(),
{
    if edges.len() > 0 {
        lemma_no_occurrences(edges.drop_last(), v);
    }
}

/// An index added to one edge occurs once more, and no other index does.
pub proof fn lemma_occurrences_push(was: Seq<Vec<usize>>, now: Seq<Vec<usize>>, at: int, node: usize, v: usize)
    requires
        now.len() == was.len(),
        0 <= at < was.len(),
        now[at]@ == was[at]@.push(node),
        forall|e: int| 0 <= e < was.len() && e != at ==> now[e]@ == was[e]@,
    ensures
        occurrences(now, v) == occurrences(was, v) + if v == node {
            1nat
        } else {
            0nat
        },
    decreases was.len(),
{
    let last = was.len() - 1;
    if at == last {
        lemma_same_occurrences(was.drop_last(), now.drop_last(), v);
        assert(now.last()@.drop_last() =~= was.last()@);
    } else {
        lemma_occurrences_push(was.drop_last(), now.drop_last(), at, node, v);
        assert(now.last()@ == was.last()@);
    }
}

/// Lists of the same edges hold each index equally often.
pub proof fn lemma_same_occurrences(a: Seq<Vec<usize>>, b: Seq<Vec<usize>>, v: usize)
    requires
        a.len() == b.len(),
        forall|e: int| 0 <= e < a.len() ==> a[e]@ == b[e]@,
    ensures
        occurrences(a, v) == occurrences(b, v),
    decreases a.len(),
{
    if a.len() > 0 {
        lemma_same_occurrences(a.drop_last(), b.drop_last(), v);
        assert(a.last()@ == b.last()@);
    }
}

/// The product of lengths that are not zero is not zero, and that of the
/// first of them is no larger than that of all.
pub proof fn lemma_product_grows(lengths: Seq<usize>, i: int)
    requires
        0 <= i <= lengths.len(),
        forall|j: int| 0 <= j < lengths.len() ==> #[trigger] lengths[j] >= 1,
    ensures
        1 <= product_of(lengths.take(i)) <= product_of(lengths),
    decreases lengths.len() - i,
{
    if i == lengths.len() {
        assert(lengths.take(i) =~= lengths);
        lemma_product_positive(lengths);
    } else {
        lemma_product_grows(lengths, i + 1);
        let next = lengths.take(i + 1);
        assert(next.drop_last() =~= lengths.take(i));
        assert(next.last() == lengths[i]);
        lemma_product_positive(lengths.take(i));
        let a = product_of(lengths.take(i));
        let b = lengths[i] as nat;
        assert(a <= a * b) by (nonlinear_arith)
            requires
                b >= 1,
        ;
    }
}

/// The product of lengths that are not zero is not zero.
pub proof fn lemma_product_positive(lengths: Seq<usize>)
    requires
        forall|j: int| 0 <= j < lengths.len() ==> #[trigger] lengths[j] >= 1,
    ensures
        product_of(lengths) >= 1,
    decreases lengths.len(),
{
    if lengths.len() > 0 {
        assert forall|j: int| 0 <= j < lengths.len() - 1 implies #[trigger] lengths.drop_last()[j]
            >= 1 by {
            assert(lengths.drop_last()[j] == lengths[j]);
        }
        lemma_product_positive(lengths.drop_last());
        let a = product_of(lengths.drop_last());
        let b = lengths.last() as nat;
        assert(a * b >= 1) by (nonlinear_arith)
            requires
                a >= 1,
                b >= 1,
        ;
    }
}

/// Extruding edges over the vertices `0 .. shift` into `l` layers gives
/// edges over the vertices `0 .. shift * l`.
pub proof fn lemma_extrusion_max(new: Seq<Vec<usize>>, old: Seq<Vec<usize>>, shift: int, l: int)
    requires
        is_extrusion(new, old, shift, l),
        shift >= 1,
        l >= 1,
        shift * l <= usize::MAX,
        is_max_node((shift - 1) as usize, old),
    ensures
        is_max_node((shift * l - 1) as usize, new),
{
    let m = old.len() as int;
    let top = (shift * l - 1) as usize;
    assert(shift * l >= shift) by (nonlinear_arith)
        requires
            shift >= 1,
            l >= 1,
    ;
    assert forall|e: int, k: int| 0 <= e < new.len() && 0 <= k < new[e]@.len() implies #[trigger] new[e]@[k]
        <= top by {
        if e < m {
            assert(new[e]@ == old[e]@);
            assert(old[e]@[k] <= shift - 1);
        } else if e < m + m * l {
            let d = e - m;
            let x = d / l;
            let o = d % l;
            vstd::arithmetic::div_mod::lemma_fundamental_div_mod(d, l);
            vstd::arithmetic::div_mod::lemma_div_pos_is_pos(d, l);
            assert(l * x == x * l) by (nonlinear_arith);
            assert(x < m) by {
                if x >= m {
                    assert(x * l >= m * l) by (nonlinear_arith)
                        requires
                            x >= m,
                            l >= 1,
                    ;
                }
            }
            assert(new[m + x * l + o]@ == shifted(old[x]@, o * shift));
            assert(old[x]@[k] <= shift - 1);
            assert(o * shift + shift <= shift * l) by (nonlinear_arith)
                requires
                    0 <= o < l,
                    shift >= 0,
            ;
        } else {
            let v = e - m - m * l;
            assert(new[m + m * l + v]@ == strided(v, shift, l as nat));
            assert(k * shift + shift <= shift * l) by (nonlinear_arith)
                requires
                    0 <= k < l,
                    shift >= 0,
            ;
        }
    }
    let last = m + m * l + (shift - 1);
    assert(new[last]@ == strided(shift - 1, shift, l as nat));
    assert((l - 1) * shift + shift == shift * l) by (nonlinear_arith);
    assert(new[last]@[l - 1] == top);
    assert(m * l >= 0) by (nonlinear_arith)
        requires
            m >= 0,
            l >= 0,
    ;
    assert(occurs(new, top));
}

/// Connecting a new vertex to the vertices `0 .. shift` gives the vertices
/// `0 .. shift + 1`.
pub proof fn lemma_connection_max(
    new: Seq<Vec<usize>>,
    first: Seq<Vec<usize>>,
    unit: Seq<Vec<usize>>,
    first_nodes: Seq<usize>,
    second_nodes: Seq<usize>,
    shift: int,
)
    requires
        is_full_connection(new, first, unit, first_nodes, second_nodes, shift),
        unit.len() == 1,
        unit[0]@ == seq![0usize],
        is_node_list(first_nodes, first),
        is_node_list(second_nodes, unit),
        1 <= shift <= usize::MAX,
        is_max_node((shift - 1) as usize, first),
    ensures
        is_max_node(shift as usize, new),
{
    let m = first.len() as int;
    let w = second_nodes.len() as int;
    assert forall|b: int| 0 <= b < w implies #[trigger] second_nodes[b] == 0 by {
        assert(occurs(unit, second_nodes[b]));
    }
    assert forall|e: int, k: int| 0 <= e < new.len() && 0 <= k < new[e]@.len() implies #[trigger] new[e]@[k]
        <= shift by {
        if e < m {
            assert(new[e]@ == first[e]@);
            assert(first[e]@[k] <= shift - 1);
        } else if e < m + 1 {
            assert(new[m + 0]@ == shifted(unit[0]@, shift));
        } else {
            let d = e - m - 1;
            if w > 0 {
                let a = d / w;
                let b = d % w;
                vstd::arithmetic::div_mod::lemma_fundamental_div_mod(d, w);
                vstd::arithmetic::div_mod::lemma_div_pos_is_pos(d, w);
                assert(w * a == a * w) by (nonlinear_arith);
                assert(a < first_nodes.len()) by {
                    if a >= first_nodes.len() {
                        assert(a * w >= first_nodes.len() * w) by (nonlinear_arith)
                            requires
                                a >= first_nodes.len(),
                                w >= 1,
                        ;
                    }
                }
                assert(new[m + 1 + a * w + b]@ == seq![first_nodes[a], (second_nodes[b] + shift) as usize]);
                assert(occurs(first, first_nodes[a]));
                let (f, j) = choose|f: int, j: int|
                    0 <= f < first.len() && 0 <= j < first[f]@.len() && #[trigger] first[f]@[j]
                        == first_nodes[a];
                assert(first[f]@[j] <= shift - 1);
            } else {
                assert(first_nodes.len() * w == 0) by (nonlinear_arith)
                    requires
                        w == 0,
                ;
            }
        }
    }
    assert(new[m + 0]@ == shifted(unit[0]@, shift));
    assert(new[m]@[0] == shift);
    assert(first_nodes.len() * w >= 0) by (nonlinear_arith)
        requires
            w >= 0,
    ;
    assert(occurs(new, shift as usize));
}

impl Builder {
    /// The cuboid with the given side lengths: the unit, extruded along one
    /// side after the other.  A side of length zero gives `empty()`.
    pub fn hyper_cuboid(lengths: Vec<usize>) -> (b: Builder)
        requires
            product_of(lengths@) <= usize::MAX,
        ensures
            lengths@.contains(0) ==> b.hyperedges@.len() == 1 && b.hyperedges@[0]@ == Seq::<
                usize,
            >::empty(),
            !lengths@.contains(0) ==> is_cuboid(b.hyperedges@, lengths@) && is_max_node(
                (product_of(lengths@) - 1) as usize,
                b.hyperedges@,
            ),
    {
        let mut i: usize = 0;
        while i < lengths.len()
            invariant
                i <= lengths@.len(),
                forall|j: int| 0 <= j < i ==> lengths@[j] != 0,
            decreases lengths@.len() - i,
        {
            if lengths[i] == 0 {
                return Builder::empty();
            }
            i = i + 1;
        }
        proof {
            assert(!lengths@.contains(0)) by {
                if lengths@.contains(0) {
                    let j = choose|j: int| 0 <= j < lengths@.len() && lengths@[j] == 0;
                }
            }
        }
        let mut g = Builder::unit();
        proof {
            lemma_unit_max(g.hyperedges@);
            assert(lengths@.take(0) =~= Seq::<usize>::empty());
        }
        let mut k: usize = 0;
        while k < lengths.len()
            invariant
                k <= lengths@.len(),
                product_of(lengths@) <= usize::MAX,
                forall|j: int| 0 <= j < lengths@.len() ==> #[trigger] lengths@[j] >= 1,
                is_cuboid(g.hyperedges@, lengths@.take(k as int)),
                product_of(lengths@.take(k as int)) >= 1,
                is_max_node((product_of(lengths@.take(k as int)) - 1) as usize, g.hyperedges@),
            decreases lengths@.len() - k,
        {
            let length = lengths[k];
            let ghost prev = g.hyperedges@;
            let ghost sofar = product_of(lengths@.take(k as int));
            proof {
                lemma_product_grows(lengths@, k as int);
                lemma_product_grows(lengths@, k + 1);
                let next = lengths@.take(k + 1);
                assert(next.drop_last() =~= lengths@.take(k as int));
                assert(next.last() == length);
                lemma_max_node_unique((sofar - 1) as usize, max_node_of(prev), prev);
            }
            g = g.extrude(length);
            proof {
                lemma_extrusion_max(g.hyperedges@, prev, sofar as int, length as int);
            }
            k = k + 1;
        }
        proof {
            assert(lengths@.take(k as int) =~= lengths@);
        }
        g
    }

    /// The board of `x` by `y` fields, with its rows and columns as edges.
    pub fn rect(x: usize, y: usize) -> (b: Builder)
        requires
            x * y <= usize::MAX,
        ensures
            x == 0 || y == 0 ==> b.hyperedges@.len() == 1 && b.hyperedges@[0]@ == Seq::<usize>::empty(),
            x != 0 && y != 0 ==> is_cuboid(b.hyperedges@, seq![x, y]) && is_max_node(
                (x * y - 1) as usize,
                b.hyperedges@,
            ),
    {
        let mut lengths: Vec<usize> = Vec::new();
        lengths.push(x);
        lengths.push(y);
        proof {
            let s = lengths@;
            assert(s =~= seq![x, y]);
            assert(s.drop_last() =~= seq![x]);
            assert(s.drop_last().drop_last() =~= Seq::<usize>::empty());
            assert(product_of(s.drop_last().drop_last()) == 1);
            assert(product_of(s.drop_last()) == 1 * x);
            assert(product_of(s) == (1 * x) * y);
            assert((1 * x) * y == x * y) by (nonlinear_arith);
            if x == 0 {
                assert(s[0] == 0);
            }
            if y == 0 {
                assert(s[1] == 0);
            }
            if x != 0 && y != 0 {
                assert(!s.contains(0)) by {
                    if s.contains(0) {
                        let j = choose|j: int| 0 <= j < s.len() && s[j] == 0;
                    }
                }
            }
        }
        Self::hyper_cuboid(lengths)
    }

    /// The cube of dimension `dim` with sides of length `l`.
    pub fn hyper_cube(dim: usize, l: usize) -> (b: Builder)
        requires
            product_of(equal_sides(dim as nat, l)) <= usize::MAX,
        ensures
            dim > 0 && l == 0 ==> b.hyperedges@.len() == 1 && b.hyperedges@[0]@ == Seq::<usize>::empty(),
            dim == 0 || l != 0 ==> is_cuboid(b.hyperedges@, equal_sides(dim as nat, l)) && is_max_node(
                (product_of(equal_sides(dim as nat, l)) - 1) as usize,
                b.hyperedges@,
            ),
    {
        let mut lengths: Vec<usize> = Vec::with_capacity(dim);
        let mut i: usize = 0;
        while i < dim
            invariant
                i <= dim,
                lengths@.len() == i,
                forall|j: int| 0 <= j < i ==> lengths@[j] == l,
            decreases dim - i,
        {
            lengths.push(l);
            i = i + 1;
        }
        proof {
            let s = lengths@;
            assert(s =~= equal_sides(dim as nat, l));
            if dim > 0 && l == 0 {
                assert(s[0] == 0);
            }
            if dim == 0 || l != 0 {
                assert(!s.contains(0)) by {
                    if s.contains(0) {
                        let j = choose|j: int| 0 <= j < s.len() && s[j] == 0;
                    }
                }
            }
        }
        Self::hyper_cuboid(lengths)
    }

    /// The tetrahedron of dimension `dim`: the unit, with a new vertex
    /// connected to all vertices `dim` times.
    pub fn hyper_tetrahedron(dim: usize) -> (b: Builder)
        requires
            dim < usize::MAX,
        ensures
            is_tetrahedron(b.hyperedges@, dim as nat),
            is_max_node(dim, b.hyperedges@),
    {
        let mut g = Builder::unit();
        proof {
            lemma_unit_max(g.hyperedges@);
        }
        let mut k: usize = 0;
        while k < dim
            invariant
                k <= dim < usize::MAX,
                is_tetrahedron(g.hyperedges@, k as nat),
                is_max_node(k, g.hyperedges@),
            decreases dim - k,
        {
            let ghost prev = g.hyperedges@;
            proof {
                lemma_max_node_unique(k, max_node_of(prev), prev);
            }
            g = g.connect_unit_to_all();
            proof {
                let (first_nodes, second_nodes, unit) = choose|
                    first_nodes: Seq<usize>,
                    second_nodes: Seq<usize>,
                    unit: Seq<Vec<usize>>,
                |
                    unit.len() == 1 && unit[0]@ == seq![0usize] && is_node_list(first_nodes, prev)
                        && is_node_list(second_nodes, unit) && #[trigger] is_full_connection(
                        g.hyperedges@,
                        prev,
                        unit,
                        first_nodes,
                        second_nodes,
                        max_node_of(prev) + 1,
                    );
                lemma_connection_max(g.hyperedges@, prev, unit, first_nodes, second_nodes, k + 1);
                assert(is_full_connection(g.hyperedges@, prev, unit, first_nodes, second_nodes, k + 1));
                assert(is_tetrahedron(g.hyperedges@, (k + 1) as nat));
            }
            k = k + 1;
        }
        g
    }

    /// A random game: `set_count` edges over the vertices `0 .. node_count`,
    /// each vertex put into edges picked at random, a number of times picked
    /// at random from `min_sets_per_node .. max_sets_per_node`.
    pub fn rand(
        node_count: usize,
        set_count: usize,
        min_sets_per_node: usize,
        max_sets_per_node: usize,
    ) -> (b: Builder)
        requires
            node_count > 0 ==> min_sets_per_node < max_sets_per_node,
            node_count > 0 && max_sets_per_node > 1 ==> set_count > 0,
        ensures
            b.hyperedges@.len() == set_count,
            forall|e: int, k: int|
                0 <= e < b.hyperedges@.len() && 0 <= k < b.hyperedges@[e]@.len() ==> #[trigger] b.hyperedges@[e]@[k]
                    < node_count,
            forall|v: usize|
                v < node_count ==> min_sets_per_node <= #[trigger] occurrences(b.hyperedges@, v)
                    < max_sets_per_node,
    {
        let mut hyperedges: Vec<Vec<usize>> = Vec::with_capacity(set_count);
        let mut i: usize = 0;
        while i < set_count
            invariant
                i <= set_count,
                hyperedges@.len() == i,
                forall|e: int| 0 <= e < i ==> (#[trigger] hyperedges@[e])@.len() == 0,
            decreases set_count - i,
        {
            hyperedges.push(Vec::new());
            i = i + 1;
        }
        proof {
            assert forall|v: usize| occurrences(hyperedges@, v) == 0 by {
                lemma_no_occurrences(hyperedges@, v);
            }
        }
        let mut node: usize = 0;
        while node < node_count
            invariant
                node <= node_count,
                node_count > 0 ==> min_sets_per_node < max_sets_per_node,
                node_count > 0 && max_sets_per_node > 1 ==> set_count > 0,
                hyperedges@.len() == set_count,
                forall|e: int, k: int|
                    0 <= e < hyperedges@.len() && 0 <= k < hyperedges@[e]@.len() ==> #[trigger] hyperedges@[e]@[k]
                        < node_count,
                forall|v: usize|
                    v < node ==> min_sets_per_node <= #[trigger] occurrences(hyperedges@, v) < max_sets_per_node,
                forall|v: usize| v >= node ==> #[trigger] occurrences(hyperedges@, v) == 0,
            decreases node_count - node,
        {
            let times = random_between(min_sets_per_node, max_sets_per_node);
            let ghost before = hyperedges@;
            let mut t: usize = 0;
            while t < times
                invariant
                    t <= times,
                    times < max_sets_per_node,
                    node < node_count,
                    occurrences(hyperedges@, node) == t,
                    forall|v: usize| v != node ==> #[trigger] occurrences(hyperedges@, v) == occurrences(before, v),
                    node_count > 0 && max_sets_per_node > 1 ==> set_count > 0,
                    hyperedges@.len() == set_count,
                    forall|e: int, k: int|
                        0 <= e < hyperedges@.len() && 0 <= k < hyperedges@[e]@.len() ==> #[trigger] hyperedges@[e]@[k]
                            < node_count,
                decreases times - t,
            {
                let at = random_between(0, set_count);
                let mut edge = shift_edge(&hyperedges[at], 0);
                let ghost was = hyperedges@;
                proof {
                    assert(edge@ =~= was[at as int]@);
                }
                edge.push(node);
                hyperedges.set(at, edge);
                proof {
                    assert forall|v: usize| #[trigger] occurrences(hyperedges@, v) == occurrences(was, v) + if v
                        == node {
                        1nat
                    } else {
                        0nat
                    } by {
                        lemma_occurrences_push(was, hyperedges@, at as int, node, v);
                    }
                    assert forall|e: int, k: int|
                        0 <= e < hyperedges@.len() && 0 <= k < hyperedges@[e]@.len() implies #[trigger] hyperedges@[e]@[k]
                        < node_count by {
                        if e == at {
                            if k < was[at as int]@.len() {
                                assert(hyperedges@[e]@[k] == was[e]@[k]);
                            }
                        } else {
                            assert(hyperedges@[e] == was[e]);
                        }
                    }
                }
                t = t + 1;
            }
            node = node + 1;
        }
        Builder::from_hyperedges(hyperedges)
    }

    /// The positions of the game on the edges.
    pub fn build(self) -> (res: Result<Vec<TakingGame>, GameError>)
        ensures
            res is Err <==> !all_fit(self.hyperedges@),
            res matches Err(e) ==> e == GameError::TooLarge,
            res matches Ok(games) ==> plain_positions_of(graphs_of(games@), index_sets(self.hyperedges@)),
    {
        TakingGame::from_hyperesges(self.hyperedges)
    }

    /// The position with the most vertices among those of the game on the
    /// edges, the last of them where there are several; none where the game
    /// has no position.
    pub fn build_one(self) -> (res: Result<Option<TakingGame>, GameError>)
        ensures
            res is Err <==> !all_fit(self.hyperedges@),
            res matches Err(e) ==> e == GameError::TooLarge,
            res matches Ok(Some(g)) ==> g.wf() && g.graph.nodes@.len() >= 1,
            res matches Ok(one) ==> exists|games: Seq<TakingGame>|
                #[trigger] plain_positions_of(graphs_of(games), index_sets(self.hyperedges@))
                    && is_largest_of(one, games),
    {
        match self.build() {
            Err(e) => Err(e),
            Ok(games) => {
                let ghost all = games@;
                let mut games = games;
                if games.len() == 0 {
                    proof {
                        assert(is_largest_of(None, all));
                    }
                    return Ok(None);
                }
                let mut best: usize = 0;
                let mut i: usize = 1;
                while i < games.len()
                    invariant
                        1 <= i <= games@.len(),
                        games@ == all,
                        best < i,
                        forall|j: int| 0 <= j < i ==> (#[trigger] all[j]).graph.nodes@.len() <= all[best as int].graph.nodes@.len(),
                        forall|j: int| best < j < i ==> (#[trigger] all[j]).graph.nodes@.len() < all[best as int].graph.nodes@.len(),
                    decreases games@.len() - i,
                {
                    if games[i].nr_nodes() >= games[best].nr_nodes() {
                        best = i;
                    }
                    i = i + 1;
                }
                let one = games.swap_remove(best);
                proof {
                    assert(one == all[best as int]);
                    assert(is_largest_of(Some(one), all));
                    lemma_positions_wf(all, index_sets(self.hyperedges@), best as int);
                }
                Ok(Some(one))
            },
        }
    }
}

/// Whether `one` is the game with the most vertices in the list, the last
/// of them where there are several, and none where the list is empty.
pub open spec fn is_largest_of(one: Option<TakingGame>, games: Seq<TakingGame>) -> bool {
    match one {
        None => games.len() == 0,
        Some(g) => exists|best: int|
            {
                &&& 0 <= best < games.len()
                &&& g == #[trigger] games[best]
                &&& forall|j: int| 0 <= j < games.len() ==> (#[trigger] games[j]).graph.nodes@.len() <= g.graph.nodes@.len()
                &&& forall|j: int| best < j < games.len() ==> (#[trigger] games[j]).graph.nodes@.len() < g.graph.nodes@.len()
            },
    }
}

/// The positions that a hypergraph falls into are in canonical shape.
pub proof fn lemma_positions_wf(games: Seq<TakingGame>, edges: Seq<Set<nat>>, c: int)
    requires
        plain_positions_of(graphs_of(games), edges),
        0 <= c < games.len(),
    ensures
        games[c].wf(),
        games[c].graph.nodes@.len() >= 1,
{
    let n = choose|n: nat|
        n <= 128 && crate::hypergraph::edges_within(edges, n) && #[trigger] crate::construct::positions_of(
            graphs_of(games),
            edges,
            crate::construct::plain_labels(n),
        );
    let provs = choose|provs: Seq<(Seq<nat>, Seq<int>)>|
        crate::construct::is_construction(graphs_of(games), provs, edges, crate::construct::plain_labels(n));
    assert(graphs_of(games)[c].wf());
}

/// The largest index of the one edge with the one vertex 0 is 0.
pub proof fn lemma_unit_max(unit: Seq<Vec<usize>>)
    requires
        unit.len() == 1,
        unit[0]@ == seq![0usize],
    ensures
        max_node_of(unit) == 0,
        is_max_node(0, unit),
{
    assert(is_max_node(0, unit));
    lemma_max_node_unique(0, max_node_of(unit), unit);
}

} // verus!
