//! What a picture of a hypergraph shows: a column for each vertex and a row
//! for each edge.

use vstd::prelude::*;
use crate::hypergraph::StructuredHypergraph;

verus! {

/// The number of decimal digits of `n`.
pub open spec fn digits_of(n: nat) -> nat
    decreases n,
{
    if n < 10 {
        1
    } else {
        1 + digits_of(n / 10)
    }
}

/// A number has no more digits than it counts, and one at least.
pub proof fn lemma_digits_bound(n: nat)
    ensures
        1 <= digits_of(n),
        n >= 1 ==> digits_of(n) <= n,
    decreases n,
{
    if n >= 10 {
        lemma_digits_bound(n / 10);
    }
}

/// The number of decimal digits of `n`.
pub fn digits(n: usize) -> (d: usize)
    ensures
        d == digits_of(n as nat),
{
    let mut rest = n;
    let mut d: usize = 1;
    while rest >= 10
        invariant
            1 <= d,
            d + digits_of(rest as nat) == 1 + digits_of(n as nat),
        decreases rest,
    {
        proof {
            lemma_digits_bound(n as nat);
            lemma_digits_bound((rest / 10) as nat);
        }
        rest = rest / 10;
        d = d + 1;
    }
    d
}

/// Whether `m` is the largest label, or zero where there is none.
pub open spec fn is_largest_label(m: usize, nodes: Seq<usize>) -> bool {
    &&& forall|i: int| 0 <= i < nodes.len() ==> nodes[i] <= m
    &&& nodes.len() == 0 ==> m == 0
    &&& nodes.len() > 0 ==> nodes.contains(m)
}

impl StructuredHypergraph {
    /// The rows of the picture: for each edge, under each vertex its label
    /// where the edge holds the vertex, and nothing where it does not.
    pub fn rows(&self) -> (r: Vec<Vec<Option<usize>>>)
        ensures
            r@.len() == self.hyperedges@.len(),
            forall|e: int| 0 <= e < r@.len() ==> (#[trigger] r@[e])@.len() == self.nodes@.len(),
            forall|e: int, i: int|
                0 <= e < r@.len() && 0 <= i < self.nodes@.len() ==> #[trigger] r@[e]@[i] == if self.edges()[e].contains(
                    i as nat,
                ) {
                    Some(self.nodes@[i])
                } else {
                    None
                },
    {
        let mut rows: Vec<Vec<Option<usize>>> = Vec::with_capacity(self.hyperedges.len());
        let mut e: usize = 0;
        while e < self.hyperedges.len()
            invariant
                e <= self.hyperedges@.len(),
                rows@.len() == e,
                forall|f: int| 0 <= f < e ==> (#[trigger] rows@[f])@.len() == self.nodes@.len(),
                forall|f: int, i: int|
                    0 <= f < e && 0 <= i < self.nodes@.len() ==> #[trigger] rows@[f]@[i] == if self.edges()[f].contains(
                        i as nat,
                    ) {
                        Some(self.nodes@[i])
                    } else {
                        None
                    },
            decreases self.hyperedges@.len() - e,
        {
            let mut row: Vec<Option<usize>> = Vec::with_capacity(self.nodes.len());
            let mut i: usize = 0;
            while i < self.nodes.len()
                invariant
                    i <= self.nodes@.len(),
                    e < self.hyperedges@.len(),
                    row@.len() == i,
                    forall|j: int|
                        0 <= j < i ==> #[trigger] row@[j] == if self.edges()[e as int].contains(j as nat) {
                            Some(self.nodes@[j])
                        } else {
                            None
                        },
                decreases self.nodes@.len() - i,
            {
                if self.hyperedges[e].contains(&i) {
                    row.push(Some(self.nodes[i]));
                } else {
                    row.push(None);
                }
                i = i + 1;
            }
            rows.push(row);
            e = e + 1;
        }
        rows
    }

    /// The width of a column of the picture: wide enough for the largest
    /// label, and three at least.
    pub fn column_width(&self) -> (w: usize)
        ensures
            exists|m: usize|
                #[trigger] is_largest_label(m, self.nodes@) && w == if digits_of(m as nat) >= 3 {
                    digits_of(m as nat)
                } else {
                    3
                },
    {
        let mut max_node: usize = 0;
        let mut i: usize = 0;
        while i < self.nodes.len()
            invariant
                i <= self.nodes@.len(),
                forall|j: int| 0 <= j < i ==> self.nodes@[j] <= max_node,
                i == 0 ==> max_node == 0,
                i > 0 ==> exists|j: int| 0 <= j < i && self.nodes@[j] == max_node,
            decreases self.nodes@.len() - i,
        {
            if self.nodes[i] > max_node || i == 0 {
                max_node = self.nodes[i];
            }
            i = i + 1;
            proof {
                if self.nodes@[i - 1] == max_node {
                    assert(0 <= i - 1 < i && self.nodes@[i - 1] == max_node);
                } else {
                    let j = choose|j: int| 0 <= j < i - 1 && self.nodes@[j] == max_node;
                    assert(0 <= j < i && self.nodes@[j] == max_node);
                }
            }
        }
        proof {
            if self.nodes@.len() > 0 {
                let j = choose|j: int| 0 <= j < self.nodes@.len() && self.nodes@[j] == max_node;
                assert(self.nodes@[j] == max_node);
            }
            assert(is_largest_label(max_node, self.nodes@));
        }
        let d = digits(max_node);
        if d >= 3 {
            d
        } else {
            3
        }
    }
}

} // verus!
