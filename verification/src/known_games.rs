//! Games of which the nimber or the symmetry is known, to hold the search
//! against.

use vstd::prelude::*;
use crate::builder::{
    equal_sides, is_cuboid, is_largest_of, is_max_node, is_sum, is_tetrahedron, lemma_equal_sides,
    lemma_heap_max, lemma_max_node_unique, lemma_positions_wf, lemma_small_fits, lemma_sum_max,
    max_node_of, occurs, run, Builder,
};
use crate::construct::{is_construction, lies_in_part, plain_labels, positions_of};
use crate::hypergraph::edges_within;
use crate::construct::plain_positions_of;
use crate::game::{all_fit, graphs_of, index_sets, TakingGame};
use crate::hypergraph::{same_edges, GameError};

verus! {

/// A game with what is known of it.
pub struct KnownGame {
    pub parts: Vec<TakingGame>,
    pub symmetry: Option<bool>,
    pub nimber: Option<usize>,
}

/// The number of games in the list with the edges of `g`.
pub open spec fn copies(parts: Seq<TakingGame>, g: TakingGame) -> nat
    decreases parts.len(),
{
    if parts.len() == 0 {
        0
    } else {
        copies(parts.drop_last(), g) + if parts.last().graph.hyperedges@ == g.graph.hyperedges@ {
            1nat
        } else {
            0nat
        }
    }
}

/// Whether part `i` counts: it is the first with its edges, and the parts
/// with its edges are odd in number.  Two equal parts cancel each other.
pub open spec fn counts(parts: Seq<TakingGame>, i: int) -> bool {
    &&& copies(parts.take(i), parts[i]) == 0
    &&& copies(parts, parts[i]) % 2 == 1
}

/// Whether every part among the first `upto` that counts has a mirror.
pub open spec fn mirrored_upto(parts: Seq<TakingGame>, upto: int) -> bool {
    forall|i: int| 0 <= i < upto && #[trigger] counts(parts, i) ==> parts[i].graph.has_symmetry()
}

/// Whether every part that counts has a mirror.
pub open spec fn all_mirrored(parts: Seq<TakingGame>) -> bool {
    mirrored_upto(parts, parts.len() as int)
}

/// The number of games among the first `upto` with the edges of `g`.
pub fn count_copies(parts: &Vec<TakingGame>, upto: usize, g: &TakingGame) -> (n: usize)
    requires
        upto <= parts@.len(),
    ensures
        n == copies(parts@.take(upto as int), *g),
        n <= upto,
{
    let mut n: usize = 0;
    let mut j: usize = 0;
    while j < upto
        invariant
            j <= upto <= parts@.len(),
            n <= j,
            n == copies(parts@.take(j as int), *g),
        decreases upto - j,
    {
        proof {
            assert(parts@.take(j + 1).drop_last() =~= parts@.take(j as int));
        }
        if same_edges(&parts[j].graph.hyperedges, &g.graph.hyperedges) {
            n = n + 1;
        }
        j = j + 1;
    }
    n
}

impl KnownGame {
    /// Whether the parts are positions in canonical shape.
    pub open spec fn wf(&self) -> bool {
        forall|c: int| 0 <= c < self.parts@.len() ==> (#[trigger] self.parts@[c]).wf()
    }

    /// The game that the builder builds, with nothing known of it.
    pub fn from_builder(b: Builder) -> (res: Result<Self, GameError>)
        ensures
            res is Err <==> !all_fit(b.hyperedges@),
            res matches Err(e) ==> e == GameError::TooLarge,
            res matches Ok(k) ==> k.wf() && k.symmetry is None && k.nimber is None
                && plain_positions_of(graphs_of(k.parts@), index_sets(b.hyperedges@)),
    {
        let ghost edges = index_sets(b.hyperedges@);
        match b.build() {
            Err(e) => Err(e),
            Ok(parts) => {
                proof {
                    assert forall|c: int| 0 <= c < parts@.len() implies (#[trigger] parts@[c]).wf() by {
                        lemma_positions_wf(parts@, edges, c);
                    }
                }
                Ok(KnownGame { parts, symmetry: None, nimber: None })
            },
        }
    }

    /// The same game, known to have the nimber `nimber`.
    pub fn nimber(self, nimber: usize) -> (k: Self)
        ensures
            k.parts == self.parts,
            k.symmetry == self.symmetry,
            k.nimber == Some(nimber),
    {
        let mut k = self;
        k.nimber = Some(nimber);
        k
    }

    /// The same game, known to have a mirror.
    pub fn symmetric(self) -> (k: Self)
        ensures
            k.parts == self.parts,
            k.symmetry == Some(true),
            k.nimber == self.nimber,
    {
        let mut k = self;
        k.symmetry = Some(true);
        k
    }

    /// The same game, known to have no mirror.
    pub fn not_symmetric(self) -> (k: Self)
        ensures
            k.parts == self.parts,
            k.symmetry == Some(false),
            k.nimber == self.nimber,
    {
        let mut k = self;
        k.symmetry = Some(false);
        k
    }

    /// Whether `nimber` agrees with what is known of the nimber.
    pub fn check_nimber(&self, nimber: usize) -> (b: bool)
        ensures
            b == (self.nimber is None || self.nimber == Some(nimber)),
    {
        match self.nimber {
            Some(n) => n == nimber,
            None => true,
        }
    }

    /// Whether the search for a mirror agrees with what is known of the
    /// symmetry: the game counts as symmetric where every part has a mirror,
    /// two equal parts cancelling each other.
    pub fn check_symmetry(&self) -> (b: bool)
        requires
            self.wf(),
        ensures
            b == (self.symmetry matches Some(s) ==> s == all_mirrored(self.parts@)),
    {
        match self.symmetry {
            None => true,
            Some(symmetry) => {
                let mut all: bool = true;
                let n = self.parts.len();
                let mut i: usize = 0;
                while i < n
                    invariant
                        i <= n,
                        n == self.parts@.len(),
                        self.wf(),
                        all == mirrored_upto(self.parts@, i as int),
                    decreases n - i,
                {
                    let earlier = count_copies(&self.parts, i, &self.parts[i]);
                    let total = count_copies(&self.parts, n, &self.parts[i]);
                    proof {
                        assert(self.parts@.take(n as int) =~= self.parts@);
                    }
                    let ghost was = all;
                    let mut fine: bool = true;
                    if earlier == 0 && total % 2 == 1 {
                        fine = self.parts[i].find_symmetry().is_some();
                        if !fine {
                            all = false;
                        }
                    }
                    i = i + 1;
                    proof {
                        let parts = self.parts@;
                        assert(fine == (counts(parts, i - 1) ==> parts[i - 1].graph.has_symmetry()));
                        if was && fine {
                            assert(mirrored_upto(parts, i as int));
                        }
                        if mirrored_upto(parts, i as int) {
                            assert(mirrored_upto(parts, i - 1));
                        }
                    }
                }
                symmetry == all
            },
        }
    }

    /// The positions of the game.
    pub fn get_parts(&self) -> (p: &[TakingGame])
        ensures
            p@ == self.parts@,
    {
        self.parts.as_slice()
    }
}

/// The shapes of the games in the lists.
pub enum Shape {
    /// A board, cube or cuboid with these sides.
    Cuboid(Seq<usize>),
    /// One heap of so many tokens.
    Heap(nat),
    /// Three heaps side by side: the first beside the sum of the other two.
    Heaps(nat, nat, nat),
    /// A tetrahedron of this dimension.
    Tetrahedron(nat),
}

/// Whether `edges` is one heap of `size` tokens.
pub open spec fn is_heap(edges: Seq<Vec<usize>>, size: nat) -> bool {
    edges.len() == 1 && edges[0]@ == run(0, size)
}

/// Whether `edges` is a heap of `a` tokens beside a heap of `b` tokens
/// beside one of `c` tokens: the first summed with the sum of the others.
pub open spec fn is_three_heaps(edges: Seq<Vec<usize>>, a: nat, b: nat, c: nat) -> bool {
    exists|first: Seq<Vec<usize>>, second: Seq<Vec<usize>>, third: Seq<Vec<usize>>, rest: Seq<Vec<usize>>|
        #![trigger is_sum(edges, first, rest, a as int), is_sum(rest, second, third, b as int)]
        {
            &&& is_heap(first, a)
            &&& is_heap(second, b)
            &&& is_heap(third, c)
            &&& is_sum(rest, second, third, b as int)
            &&& is_sum(edges, first, rest, a as int)
        }
}

/// Whether `edges` are the edges that a builder gives to a game of this
/// shape.
pub open spec fn has_shape(edges: Seq<Vec<usize>>, shape: Shape) -> bool {
    match shape {
        Shape::Cuboid(sides) => is_cuboid(edges, sides),
        Shape::Heap(size) => is_heap(edges, size),
        Shape::Heaps(a, b, c) => is_three_heaps(edges, a, b, c),
        Shape::Tetrahedron(dim) => is_tetrahedron(edges, dim),
    }
}

/// Whether `parts` are the positions that a game of this shape falls into.
pub open spec fn is_built(parts: Seq<TakingGame>, shape: Shape) -> bool {
    exists|edges: Seq<Vec<usize>>| #[trigger]
        has_shape(edges, shape) && plain_positions_of(graphs_of(parts), index_sets(edges))
}

/// Whether `g` is the largest of the positions that a game of this shape
/// falls into, the first of them among equals.
pub open spec fn is_largest_built(g: TakingGame, shape: Shape) -> bool {
    exists|games: Seq<TakingGame>| #[trigger] is_built(games, shape) && is_largest_of(Some(g), games)
}

/// The shapes of the games in the list of known games, in order.
pub open spec fn known_shapes() -> Seq<Shape> {
    seq![
        Shape::Cuboid(seq![1usize, 3usize]),
        Shape::Cuboid(seq![4usize, 1usize]),
        Shape::Heap(100),
        Shape::Heap(101),
        Shape::Heaps(16, 8, 7),
        Shape::Cuboid(seq![2usize, 2usize]),
        Shape::Cuboid(seq![3usize, 3usize]),
        Shape::Cuboid(seq![3usize, 4usize]),
        Shape::Cuboid(seq![4usize, 4usize]),
        Shape::Cuboid(seq![5usize, 4usize]),
        Shape::Cuboid(equal_sides(3, 2)),
        Shape::Cuboid(seq![5usize, 5usize]),
        Shape::Tetrahedron(10),
    ]
}

/// What is known of the games in the list of known games, in order: the
/// nimber and whether there is a mirror.
pub open spec fn known_facts() -> Seq<(Option<usize>, Option<bool>)> {
    seq![
        (Some(3usize), Some(false)),
        (Some(4usize), Some(false)),
        (Some(100usize), Some(false)),
        (Some(101usize), Some(false)),
        (Some(31usize), Some(false)),
        (Some(0usize), Some(true)),
        (Some(0usize), Some(false)),
        (None, Some(false)),
        (Some(0usize), Some(true)),
        (None, Some(false)),
        (Some(0usize), Some(true)),
        (Some(0usize), Some(false)),
        (None, Some(false)),
    ]
}

/// Adds to the list the game that the builder builds, with what is known
/// of it.
fn add_known(
    list: &mut Vec<KnownGame>,
    b: Builder,
    nimber: Option<usize>,
    symmetry: Option<bool>,
    Ghost(top): Ghost<usize>,
    Ghost(shapes): Ghost<Seq<Shape>>,
)
    requires
        is_max_node(top, b.hyperedges@),
        top < 128,
        forall|i: int| 0 <= i < old(list)@.len() ==> (#[trigger] old(list)@[i]).wf(),
        old(list)@.len() < shapes.len(),
        has_shape(b.hyperedges@, shapes[old(list)@.len() as int]),
        forall|i: int| 0 <= i < old(list)@.len() ==> is_built((#[trigger] old(list)@[i]).parts@, shapes[i]),
    ensures
        forall|i: int| 0 <= i < final(list)@.len() ==> is_built((#[trigger] final(list)@[i]).parts@, shapes[i]),
        final(list)@.len() == old(list)@.len() + 1,
        forall|i: int| 0 <= i < old(list)@.len() ==> final(list)@[i] == old(list)@[i],
        forall|i: int| 0 <= i < final(list)@.len() ==> (#[trigger] final(list)@[i]).wf(),
        final(list)@[old(list)@.len() as int].nimber == nimber,
        final(list)@[old(list)@.len() as int].symmetry == symmetry,
        plain_positions_of(
            graphs_of(final(list)@[old(list)@.len() as int].parts@),
            index_sets(b.hyperedges@),
        ),
{
    proof {
        lemma_small_fits(top, b.hyperedges@);
    }
    match KnownGame::from_builder(b) {
        Ok(k) => {
            let mut k = k;
            k.nimber = nimber;
            k.symmetry = symmetry;
            list.push(k);
        },
        Err(_) => {},
    }
}

/// The list of the known games: boards, heaps, a sum of heaps, a cube and a
/// tetrahedron, each with what is known of it.
pub fn get_known_games() -> (list: Vec<KnownGame>)
    ensures
        list@.len() == 13,
        forall|i: int| 0 <= i < 13 ==> (#[trigger] list@[i]).wf(),
        forall|i: int|
            0 <= i < 13 ==> (#[trigger] list@[i]).nimber == known_facts()[i].0 && list@[i].symmetry
                == known_facts()[i].1,
        forall|i: int| 0 <= i < 13 ==> is_built((#[trigger] list@[i]).parts@, known_shapes()[i]),
{
    let ghost shapes = known_shapes();
    let mut list: Vec<KnownGame> = Vec::new();
    add_known(&mut list, Builder::rect(1, 3), Some(3), Some(false), Ghost(2), Ghost(shapes));
    add_known(&mut list, Builder::rect(4, 1), Some(4), Some(false), Ghost(3), Ghost(shapes));
    let heap100 = Builder::heap(100);
    proof {
        lemma_heap_max(heap100.hyperedges@, 100);
    }
    add_known(&mut list, heap100, Some(100), Some(false), Ghost(99), Ghost(shapes));
    let heap101 = Builder::heap(101);
    proof {
        lemma_heap_max(heap101.hyperedges@, 101);
    }
    add_known(&mut list, heap101, Some(101), Some(false), Ghost(100), Ghost(shapes));
    let heap16 = Builder::heap(16);
    let heap8 = Builder::heap(8);
    let heap7 = Builder::heap(7);
    let ghost e16 = heap16.hyperedges@;
    let ghost e8 = heap8.hyperedges@;
    let ghost e7 = heap7.hyperedges@;
    proof {
        lemma_heap_max(e16, 16);
        lemma_heap_max(e8, 8);
        lemma_heap_max(e7, 7);
    }
    let small = heap8.sum(heap7);
    let ghost es = small.hyperedges@;
    proof {
        assert(e7[0]@[6] == 6);
        lemma_sum_max(es, e8, e7, 7, 6);
    }
    let heaps = heap16.sum(small);
    proof {
        lemma_sum_max(heaps.hyperedges@, e16, es, 15, 14);
        lemma_max_node_unique(7, max_node_of(e8), e8);
        lemma_max_node_unique(15, max_node_of(e16), e16);
        assert(is_sum(es, e8, e7, 8int));
        assert(is_sum(heaps.hyperedges@, e16, es, 16int));
        assert(is_heap(e16, 16) && is_heap(e8, 8) && is_heap(e7, 7));
        assert(is_sum(heaps.hyperedges@, e16, es, 16nat as int) && is_sum(es, e8, e7, 8nat as int));
        assert(is_three_heaps(heaps.hyperedges@, 16, 8, 7));
        assert(has_shape(heaps.hyperedges@, Shape::Heaps(16, 8, 7)));
    }
    add_known(&mut list, heaps, Some(31), Some(false), Ghost(30), Ghost(shapes));
    add_known(&mut list, Builder::rect(2, 2), Some(0), Some(true), Ghost(3), Ghost(shapes));
    add_known(&mut list, Builder::rect(3, 3), Some(0), Some(false), Ghost(8), Ghost(shapes));
    add_known(&mut list, Builder::rect(3, 4), None, Some(false), Ghost(11), Ghost(shapes));
    add_known(&mut list, Builder::rect(4, 4), Some(0), Some(true), Ghost(15), Ghost(shapes));
    add_known(&mut list, Builder::rect(5, 4), None, Some(false), Ghost(19), Ghost(shapes));
    proof {
        lemma_equal_sides(3, 2);
        lemma_equal_sides(2, 2);
        lemma_equal_sides(1, 2);
        lemma_equal_sides(0, 2);
    }
    add_known(&mut list, Builder::hyper_cube(3, 2), Some(0), Some(true), Ghost(7), Ghost(shapes));
    add_known(&mut list, Builder::rect(5, 5), Some(0), Some(false), Ghost(24), Ghost(shapes));
    add_known(&mut list, Builder::hyper_tetrahedron(10), None, Some(false), Ghost(10), Ghost(shapes));
    list
}

/// The shapes of the sample games, in order.
pub open spec fn sample_shapes() -> Seq<Shape> {
    seq![
        Shape::Cuboid(seq![1usize, 3usize]),
        Shape::Cuboid(seq![4usize, 1usize]),
        Shape::Cuboid(seq![100usize, 1usize]),
        Shape::Cuboid(seq![1usize, 101usize]),
        Shape::Cuboid(seq![2usize, 2usize]),
        Shape::Cuboid(seq![3usize, 3usize]),
        Shape::Cuboid(seq![3usize, 4usize]),
        Shape::Cuboid(seq![4usize, 4usize]),
        Shape::Cuboid(seq![5usize, 4usize]),
        Shape::Cuboid(equal_sides(3, 2)),
        Shape::Cuboid(seq![5usize, 5usize]),
    ]
}

/// What is known of the sample games, in order: the nimber and whether
/// there is a mirror.
pub open spec fn sample_facts() -> Seq<(Option<usize>, Option<bool>)> {
    seq![
        (Some(3usize), Some(false)),
        (Some(4usize), Some(false)),
        (Some(100usize), Some(false)),
        (Some(101usize), Some(false)),
        (Some(0usize), Some(true)),
        (Some(0usize), Some(false)),
        (None, Some(false)),
        (Some(0usize), Some(true)),
        (None, Some(false)),
        (Some(0usize), Some(true)),
        (Some(0usize), Some(false)),
    ]
}

/// A hypergraph with an edge that is not empty falls into some position.
proof fn lemma_some_position(games: Seq<TakingGame>, edges: Seq<Vec<usize>>, v: usize)
    requires
        plain_positions_of(graphs_of(games), index_sets(edges)),
        occurs(edges, v),
    ensures
        games.len() >= 1,
{
    let sets = index_sets(edges);
    let n = choose|n: nat|
        n <= 128 && edges_within(sets, n) && #[trigger] positions_of(
            graphs_of(games),
            sets,
            plain_labels(n),
        );
    let provs = choose|provs: Seq<(Seq<nat>, Seq<int>)>|
        is_construction(graphs_of(games), provs, sets, plain_labels(n));
    let (e, k) = choose|e: int, k: int|
        0 <= e < edges.len() && 0 <= k < edges[e]@.len() && #[trigger] edges[e]@[k] == v;
    assert(sets[e].contains(v as nat));
    assert(sets[e] != Set::<nat>::empty());
    assert(lies_in_part(provs, sets, e));
}

/// Adds to the list the largest position of the game that the builder
/// builds, with what is known of it.
fn add_sample(
    list: &mut Vec<(TakingGame, Option<usize>, Option<bool>)>,
    b: Builder,
    nimber: Option<usize>,
    symmetry: Option<bool>,
    Ghost(top): Ghost<usize>,
    Ghost(shapes): Ghost<Seq<Shape>>,
)
    requires
        is_max_node(top, b.hyperedges@),
        1 <= top < 128,
        forall|i: int| 0 <= i < old(list)@.len() ==> (#[trigger] old(list)@[i]).0.wf(),
        old(list)@.len() < shapes.len(),
        has_shape(b.hyperedges@, shapes[old(list)@.len() as int]),
        forall|i: int| 0 <= i < old(list)@.len() ==> is_largest_built((#[trigger] old(list)@[i]).0, shapes[i]),
    ensures
        forall|i: int| 0 <= i < final(list)@.len() ==> is_largest_built((#[trigger] final(list)@[i]).0, shapes[i]),
        final(list)@.len() == old(list)@.len() + 1,
        forall|i: int| 0 <= i < old(list)@.len() ==> final(list)@[i] == old(list)@[i],
        forall|i: int| 0 <= i < final(list)@.len() ==> (#[trigger] final(list)@[i]).0.wf(),
        final(list)@[old(list)@.len() as int].1 == nimber,
        final(list)@[old(list)@.len() as int].2 == symmetry,
{
    proof {
        lemma_small_fits(top, b.hyperedges@);
    }
    let ghost edges = b.hyperedges@;
    match b.build_one() {
        Ok(Some(game)) => {
            proof {
                let games = choose|games: Seq<TakingGame>|
                    #[trigger] plain_positions_of(graphs_of(games), index_sets(edges))
                        && is_largest_of(Some(game), games);
                assert(is_built(games, shapes[list@.len() as int]));
            }
            list.push((game, nimber, symmetry));
        },
        Ok(None) => {
            proof {
                let games = choose|games: Seq<TakingGame>|
                    #[trigger] plain_positions_of(graphs_of(games), index_sets(edges))
                        && is_largest_of(None, games);
                lemma_some_position(games, edges, top);
            }
        },
        Err(_) => {},
    }
}

/// Sample games for measurements: boards and a cube, each with its nimber
/// and whether it has a mirror, as far as they are known.
pub fn get_test_games() -> (list: Vec<(TakingGame, Option<usize>, Option<bool>)>)
    ensures
        list@.len() == 11,
        forall|i: int| 0 <= i < 11 ==> (#[trigger] list@[i]).0.wf(),
        forall|i: int|
            0 <= i < 11 ==> (#[trigger] list@[i]).1 == sample_facts()[i].0 && list@[i].2
                == sample_facts()[i].1,
        forall|i: int| 0 <= i < 11 ==> is_largest_built((#[trigger] list@[i]).0, sample_shapes()[i]),
{
    let ghost shapes = sample_shapes();
    let mut list: Vec<(TakingGame, Option<usize>, Option<bool>)> = Vec::new();
    add_sample(&mut list, Builder::rect(1, 3), Some(3), Some(false), Ghost(2), Ghost(shapes));
    add_sample(&mut list, Builder::rect(4, 1), Some(4), Some(false), Ghost(3), Ghost(shapes));
    add_sample(&mut list, Builder::rect(100, 1), Some(100), Some(false), Ghost(99), Ghost(shapes));
    add_sample(&mut list, Builder::rect(1, 101), Some(101), Some(false), Ghost(100), Ghost(shapes));
    add_sample(&mut list, Builder::rect(2, 2), Some(0), Some(true), Ghost(3), Ghost(shapes));
    add_sample(&mut list, Builder::rect(3, 3), Some(0), Some(false), Ghost(8), Ghost(shapes));
    add_sample(&mut list, Builder::rect(3, 4), None, Some(false), Ghost(11), Ghost(shapes));
    add_sample(&mut list, Builder::rect(4, 4), Some(0), Some(true), Ghost(15), Ghost(shapes));
    add_sample(&mut list, Builder::rect(5, 4), None, Some(false), Ghost(19), Ghost(shapes));
    proof {
        lemma_equal_sides(3, 2);
        lemma_equal_sides(2, 2);
        lemma_equal_sides(1, 2);
        lemma_equal_sides(0, 2);
    }
    add_sample(&mut list, Builder::hyper_cube(3, 2), Some(0), Some(true), Ghost(7), Ghost(shapes));
    add_sample(&mut list, Builder::rect(5, 5), Some(0), Some(false), Ghost(24), Ghost(shapes));
    list
}

} // verus!
