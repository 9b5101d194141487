//! Why refining the classes by keys ends in classes that are stable: each
//! round cuts the blocks of the round before into smaller ones, so the number
//! of blocks stays the same only where no block has changed.

use vstd::prelude::*;
use vstd::relations::{sorted_by, total_ordering};
use vstd::seq_lib::lemma_sorted_unique;
use crate::bitset::is_listing;
use crate::classes::{lemma_block_has_one_key, lemma_one_block};
use crate::hypergraph::is_partition;
use crate::order::{
    first_below_at, is_permutation, is_rearrangement, is_sorted_keys, lemma_permutation_onto, lex_less,
};
use crate::sorter::{
    colours_of, holds_blocks, in_block, is_boundary, is_edge_key, is_key, is_sorted_within,
    keys_differ_at, lemma_sorted_holds_blocks, stands_in_block,
};
use crate::util::is_rising;

verus! {

/// Whether `colour` gives each entry of `order` the block of its place.
pub open spec fn is_colouring(colour: Seq<usize>, order: Seq<usize>, parts: Seq<usize>) -> bool {
    &&& colour.len() == order.len()
    &&& forall|i: int| 0 <= i < order.len() ==> in_block(parts, colour[#[trigger] order[i] as int] as int, i)
}

/// Whether entries with the same key have the same colour.
pub open spec fn separates(colour: Seq<usize>, keys: Seq<Seq<usize>>) -> bool {
    forall|x: int, y: int|
        #![trigger keys[x], keys[y]]
        0 <= x < colour.len() && 0 <= y < colour.len() && keys[x] == keys[y] ==> colour[x] == colour[y]
}

/// Whether entries with the same colour have the same key.
pub open spec fn uniform(colour: Seq<usize>, keys: Seq<Seq<usize>>) -> bool {
    forall|x: int, y: int|
        #![trigger keys[x], keys[y]]
        0 <= x < colour.len() && 0 <= y < colour.len() && colour[x] == colour[y] ==> keys[x] == keys[y]
}

/// Whether entries with the same colour in `fine` have the same colour in
/// `coarse`.
pub open spec fn refines(fine: Seq<usize>, coarse: Seq<usize>) -> bool {
    &&& fine.len() == coarse.len()
    &&& forall|x: int, y: int|
        #![trigger fine[x], fine[y]]
        0 <= x < fine.len() && 0 <= y < fine.len() && fine[x] == fine[y] ==> coarse[x] == coarse[y]
}

/// The keys as lists of numbers.
pub open spec fn views_of(keys: Seq<Vec<usize>>) -> Seq<Seq<usize>> {
    Seq::new(keys.len(), |x: int| keys[x]@)
}

proof fn lemma_lex_agree(a: Seq<usize>, b: Seq<usize>, k: int)
    requires
        !lex_less(a, b),
        !lex_less(b, a),
        0 <= k <= a.len(),
        k <= b.len(),
        forall|j: int| 0 <= j < k ==> a[j] == b[j],
    ensures
        a == b,
    decreases a.len() - k,
{
    if k == a.len() {
        if k < b.len() {
            assert(first_below_at(a, b, k));
        }
        assert(a =~= b);
    } else if k == b.len() {
        assert(first_below_at(b, a, k));
    } else if a[k] < b[k] {
        assert(first_below_at(a, b, k));
    } else if b[k] < a[k] {
        assert(first_below_at(b, a, k));
    } else {
        lemma_lex_agree(a, b, k + 1);
    }
}

/// Of two different keys one comes before the other.
pub proof fn lemma_lex_total(a: Seq<usize>, b: Seq<usize>)
    requires
        !lex_less(a, b),
        !lex_less(b, a),
    ensures
        a == b,
{
    lemma_lex_agree(a, b, 0);
}

/// A rearranged list holds each number as often as the list it came from.
pub proof fn lemma_rearranged_multiset(new: Seq<usize>, old: Seq<usize>, p: Seq<int>)
    requires
        is_rearrangement(p, old.len()),
        new.len() == old.len(),
        forall|i: int| 0 <= i < new.len() ==> #[trigger] new[i] == old[p[i]],
    ensures
        new.to_multiset() == old.to_multiset(),
    decreases new.len(),
{
    broadcast use vstd::multiset::group_multiset_axioms;
    broadcast use vstd::seq_lib::group_to_multiset_ensures;

    if new.len() == 0 {
        assert(new =~= old);
    } else {
        let n = new.len() as int;
        let j = p[n - 1];
        let fewer = new.drop_last();
        let others = old.remove(j);
        let places = Seq::new(
            (n - 1) as nat,
            |i: int|
                if p[i] < j {
                    p[i]
                } else {
                    p[i] - 1
                },
        );
        assert forall|i: int| 0 <= i < n - 1 implies 0 <= #[trigger] places[i] < n - 1 by {
            assert(p[i] != p[n - 1]);
        }
        assert forall|a: int, b: int| 0 <= a < b < n - 1 implies places[a] != places[b] by {
            assert(p[a] != p[b]);
            assert(p[a] != p[n - 1]);
            assert(p[b] != p[n - 1]);
        }
        assert forall|i: int| 0 <= i < fewer.len() implies #[trigger] fewer[i] == others[places[i]] by {
            assert(new[i] == old[p[i]]);
            assert(p[i] != p[n - 1]);
        }
        lemma_rearranged_multiset(fewer, others, places);
        assert(new =~= fewer.push(new[n - 1]));
        vstd::seq_lib::to_multiset_build(fewer, new[n - 1]);
        vstd::seq_lib::to_multiset_remove(old, j);
        assert(old.contains(old[j]));
        assert(new[n - 1] == old[j]);
        assert(new.to_multiset() =~= old.to_multiset());
    }
}

/// Where the colours are made coarser, entries with the same key keep the
/// same key.
pub proof fn lemma_coarser_key(
    kx1: Seq<usize>,
    ky1: Seq<usize>,
    kx0: Seq<usize>,
    ky0: Seq<usize>,
    items_x: Seq<usize>,
    items_y: Seq<usize>,
    fine: Seq<usize>,
    coarse: Seq<usize>,
)
    requires
        is_key(kx1, items_x, fine),
        is_key(ky1, items_y, fine),
        is_key(kx0, items_x, coarse),
        is_key(ky0, items_y, coarse),
        refines(fine, coarse),
        forall|j: int| 0 <= j < items_x.len() ==> (#[trigger] items_x[j]) < fine.len(),
        forall|j: int| 0 <= j < items_y.len() ==> (#[trigger] items_y[j]) < fine.len(),
        kx1 == ky1,
    ensures
        kx0 == ky0,
{
    let cx1 = colours_of(items_x, fine);
    let cy1 = colours_of(items_y, fine);
    let cx0 = colours_of(items_x, coarse);
    let cy0 = colours_of(items_y, coarse);
    let px = choose|p: Seq<int>| #[trigger] is_sorted_keys(kx1, cx1, p);
    let py = choose|p: Seq<int>| #[trigger] is_sorted_keys(ky1, cy1, p);
    let qx = choose|p: Seq<int>| #[trigger] is_sorted_keys(kx0, cx0, p);
    let qy = choose|p: Seq<int>| #[trigger] is_sorted_keys(ky0, cy0, p);
    let s = Seq::new(kx1.len(), |i: int| cx0[px[i]]);
    assert forall|i: int| 0 <= i < s.len() implies #[trigger] s[i] == cy0[py[i]] by {
        let a = items_x[px[i]] as int;
        let b = items_y[py[i]] as int;
        assert(kx1[i] == cx1[px[i]]);
        assert(ky1[i] == cy1[py[i]]);
        assert(fine[a] == fine[b]);
        assert(coarse[a] == coarse[b]);
    }
    lemma_rearranged_multiset(s, cx0, px);
    lemma_rearranged_multiset(s, cy0, py);
    lemma_rearranged_multiset(kx0, cx0, qx);
    lemma_rearranged_multiset(ky0, cy0, qy);
    let leq = |a: usize, b: usize| a <= b;
    assert(sorted_by(kx0, leq));
    assert(sorted_by(ky0, leq));
    assert(total_ordering(leq));
    lemma_sorted_unique(kx0, ky0, leq);
}

/// Whether `v` is one of the numbers in `b`.
pub open spec fn stands_in(b: Seq<usize>, v: usize) -> bool {
    exists|y: int| 0 <= y < b.len() && b[y] == v
}

proof fn lemma_embed_low(a: Seq<usize>, b: Seq<usize>, i: int) -> (j: int)
    requires
        is_rising(a),
        is_rising(b),
        forall|x: int| 0 <= x < a.len() ==> stands_in(b, #[trigger] a[x]),
        0 <= i < a.len(),
    ensures
        i <= j < b.len(),
        b[j] == a[i],
    decreases i,
{
    let j = choose|y: int| 0 <= y < b.len() && b[y] == a[i];
    if i > 0 {
        let j0 = lemma_embed_low(a, b, i - 1);
        assert(a[i - 1] < a[i]);
        if j < j0 {
            assert(b[j] < b[j0]);
        }
    }
    j
}

proof fn lemma_embed_high(a: Seq<usize>, b: Seq<usize>, i: int) -> (j: int)
    requires
        is_rising(a),
        is_rising(b),
        forall|x: int| 0 <= x < a.len() ==> stands_in(b, #[trigger] a[x]),
        0 <= i < a.len(),
        a.len() == b.len(),
    ensures
        0 <= j <= i,
        b[j] == a[i],
    decreases a.len() - i,
{
    let j = choose|y: int| 0 <= y < b.len() && b[y] == a[i];
    if i + 1 < a.len() {
        let j1 = lemma_embed_high(a, b, i + 1);
        assert(a[i] < a[i + 1]);
        if j1 < j {
            assert(b[j1] < b[j]);
        }
    }
    j
}

/// A rising list whose numbers all stand in another rising list is no
/// longer than that one, and where it is as long it is the same list.
pub proof fn lemma_rising_inside(a: Seq<usize>, b: Seq<usize>)
    requires
        is_rising(a),
        is_rising(b),
        forall|x: int| 0 <= x < a.len() ==> stands_in(b, #[trigger] a[x]),
    ensures
        a.len() <= b.len(),
        a.len() == b.len() ==> a == b,
{
    if a.len() > 0 {
        let j = lemma_embed_low(a, b, a.len() - 1);
    }
    if a.len() == b.len() {
        assert forall|i: int| 0 <= i < a.len() implies a[i] == b[i] by {
            let j = lemma_embed_low(a, b, i);
            let k = lemma_embed_high(a, b, i);
            if k < j {
                assert(b[k] < b[j]);
            }
        }
        assert(a =~= b);
    }
}

/// A set has one listing only.
pub proof fn lemma_one_listing(a: Seq<usize>, b: Seq<usize>, s: Set<nat>)
    requires
        is_listing(a, s),
        is_listing(b, s),
    ensures
        a == b,
{
    assert forall|x: int| 0 <= x < a.len() implies stands_in(b, #[trigger] a[x]) by {
        assert(s.contains(a[x] as nat));
        let y = choose|y: int| 0 <= y < b.len() && b[y] == a[x] as nat;
        assert(b[y] == a[x]);
    }
    assert forall|x: int| 0 <= x < b.len() implies stands_in(a, #[trigger] b[x]) by {
        assert(s.contains(b[x] as nat));
        let y = choose|y: int| 0 <= y < a.len() && a[y] == b[x] as nat;
        assert(a[y] == b[x]);
    }
    lemma_rising_inside(a, b);
    lemma_rising_inside(b, a);
}

/// Where the colours of the vertices are made coarser, edges with the same
/// key keep the same key.
pub proof fn lemma_coarser_edge_key(
    kx1: Seq<usize>,
    ky1: Seq<usize>,
    kx0: Seq<usize>,
    ky0: Seq<usize>,
    x: Set<nat>,
    y: Set<nat>,
    fine: Seq<usize>,
    coarse: Seq<usize>,
)
    requires
        is_edge_key(kx1, x, fine),
        is_edge_key(ky1, y, fine),
        is_edge_key(kx0, x, coarse),
        is_edge_key(ky0, y, coarse),
        refines(fine, coarse),
        forall|v: nat| x.contains(v) || y.contains(v) ==> v < fine.len(),
        kx1 == ky1,
    ensures
        kx0 == ky0,
{
    let mx1 = choose|members: Seq<usize>| #[trigger] is_listing(members, x) && is_key(kx1, members, fine);
    let my1 = choose|members: Seq<usize>| #[trigger] is_listing(members, y) && is_key(ky1, members, fine);
    let mx0 = choose|members: Seq<usize>| #[trigger] is_listing(members, x) && is_key(kx0, members, coarse);
    let my0 = choose|members: Seq<usize>| #[trigger] is_listing(members, y) && is_key(ky0, members, coarse);
    lemma_one_listing(mx1, mx0, x);
    lemma_one_listing(my1, my0, y);
    assert forall|j: int| 0 <= j < mx1.len() implies (#[trigger] mx1[j]) < fine.len() by {
        assert(x.contains(mx1[j] as nat));
    }
    assert forall|j: int| 0 <= j < my1.len() implies (#[trigger] my1[j]) < fine.len() by {
        assert(y.contains(my1[j] as nat));
    }
    lemma_coarser_key(kx1, ky1, kx0, ky0, mx1, my1, fine, coarse);
}

/// Each place lies in a block.
pub proof fn lemma_block_of(parts: Seq<usize>, n: nat, i: int) -> (b: int)
    requires
        is_partition(parts, n),
        0 <= i < n,
    ensures
        in_block(parts, b, i),
{
    lemma_block_below(parts, n, i, parts.len() - 2)
}

proof fn lemma_block_below(parts: Seq<usize>, n: nat, i: int, top: int) -> (b: int)
    requires
        is_partition(parts, n),
        0 <= i < n,
        0 <= top < parts.len() - 1,
        i < parts[top + 1],
    ensures
        in_block(parts, b, i),
    decreases top,
{
    if parts[top] <= i {
        top
    } else {
        lemma_block_below(parts, n, i, top - 1)
    }
}

/// The colour of an entry is the block of its place.
pub proof fn lemma_colour_place(colour: Seq<usize>, order: Seq<usize>, parts: Seq<usize>, x: int) -> (i: int)
    requires
        is_colouring(colour, order, parts),
        is_permutation(order),
        0 <= x < order.len(),
    ensures
        0 <= i < order.len(),
        order[i] == x,
        in_block(parts, colour[x] as int, i),
{
    lemma_permutation_onto(order, x);
    let i = choose|i: int| 0 <= i < order.len() && order[i] == x;
    assert(in_block(parts, colour[order[i] as int] as int, i));
    i
}

/// The blocks give the entries one colouring only.
pub proof fn lemma_one_colouring(a: Seq<usize>, b: Seq<usize>, order: Seq<usize>, parts: Seq<usize>)
    requires
        is_colouring(a, order, parts),
        is_colouring(b, order, parts),
        is_permutation(order),
        is_rising(parts),
    ensures
        a == b,
{
    assert forall|x: int| 0 <= x < a.len() implies a[x] == b[x] by {
        let i = lemma_colour_place(a, order, parts, x);
        assert(in_block(parts, b[order[i] as int] as int, i));
        lemma_one_block(parts, a[x] as int, b[x] as int, i);
    }
    assert(a =~= b);
}

/// Where each block holds what it held, the colours stay.
pub proof fn lemma_colouring_stays(colour: Seq<usize>, new: Seq<usize>, old: Seq<usize>, parts: Seq<usize>)
    requires
        is_colouring(colour, old, parts),
        holds_blocks(new, old, parts),
        is_partition(parts, old.len()),
        is_rising(parts),
    ensures
        is_colouring(colour, new, parts),
{
    assert forall|i: int| 0 <= i < new.len() implies in_block(
        parts,
        colour[#[trigger] new[i] as int] as int,
        i,
    ) by {
        let b = lemma_block_of(parts, old.len(), i);
        assert(stands_in_block(old, parts, b, new[i]));
        let j = choose|j: int| in_block(parts, b, j) && old[j] == new[i];
        assert(0 <= j < old.len()) by {
            if b + 1 < parts.len() - 1 {
                assert(parts[b + 1] < parts[parts.len() - 1]);
            }
        }
        assert(in_block(parts, colour[old[j] as int] as int, j));
        lemma_one_block(parts, colour[old[j] as int] as int, b, j);
    }
}

/// Whether the entry `x` stands at a place of block `c`.
pub open spec fn has_colour(order: Seq<usize>, parts: Seq<usize>, x: int, c: usize) -> bool {
    exists|i: int| 0 <= i < order.len() && order[i] == x && #[trigger] in_block(parts, c as int, i)
}

/// The colouring that the blocks give the entries.
pub open spec fn colouring_of(order: Seq<usize>, parts: Seq<usize>) -> Seq<usize> {
    Seq::new(order.len(), |x: int| choose|c: usize| has_colour(order, parts, x, c))
}

/// The blocks give the entries a colouring.
pub proof fn lemma_colouring_of(order: Seq<usize>, parts: Seq<usize>)
    requires
        is_permutation(order),
        is_partition(parts, order.len()),
    ensures
        is_colouring(colouring_of(order, parts), order, parts),
{
    let colour = colouring_of(order, parts);
    assert(is_rising(parts)) by {
        if order.len() == 0 {
        }
    }
    assert forall|i: int| 0 <= i < order.len() implies in_block(
        parts,
        colour[#[trigger] order[i] as int] as int,
        i,
    ) by {
        let x = order[i] as int;
        let b = lemma_block_of(parts, order.len(), i);
        crate::sorter::lemma_rising_bound(parts, b);
        let bu = b as usize;
        assert(in_block(parts, bu as int, i));
        assert(has_colour(order, parts, x, bu));
        let c = choose|c: usize| has_colour(order, parts, x, c);
        let k = choose|k: int| 0 <= k < order.len() && order[k] == x && #[trigger] in_block(parts, c as int, k);
        if k != i {
            if k < i {
                assert(order[k] != order[i]);
            } else {
                assert(order[i] != order[k]);
            }
        }
    }
}

/// Entries of one new block have one key.
proof fn lemma_refined_uniform(
    order1: Seq<usize>,
    parts1: Seq<usize>,
    keys: Seq<Vec<usize>>,
    col1: Seq<usize>,
    x: int,
    y: int,
)
    requires
        is_permutation(order1),
        keys.len() == order1.len(),
        is_partition(parts1, order1.len()),
        is_colouring(col1, order1, parts1),
        forall|i: int|
            1 <= i < order1.len() ==> (#[trigger] is_boundary(parts1, i) <==> keys_differ_at(order1, keys, i)),
        0 <= x < order1.len(),
        0 <= y < order1.len(),
        col1[x] == col1[y],
    ensures
        keys[x]@ == keys[y]@,
{
    let i = lemma_colour_place(col1, order1, parts1, x);
    let j = lemma_colour_place(col1, order1, parts1, y);
    if i <= j {
        lemma_block_has_one_key(parts1, order1, keys, col1[x] as int, i, j);
    } else {
        lemma_block_has_one_key(parts1, order1, keys, col1[x] as int, j, i);
    }
}

/// Entries with one key that stood in one block stand in one new block.
proof fn lemma_refined_separates(
    order1: Seq<usize>,
    parts0: Seq<usize>,
    parts1: Seq<usize>,
    keys: Seq<Vec<usize>>,
    col0: Seq<usize>,
    col1: Seq<usize>,
    x: int,
    y: int,
)
    requires
        is_permutation(order1),
        keys.len() == order1.len(),
        is_partition(parts0, order1.len()),
        is_partition(parts1, order1.len()),
        is_colouring(col0, order1, parts0),
        is_colouring(col1, order1, parts1),
        forall|b: int, s: int, t: int|
            #[trigger] in_block(parts0, b, s) && #[trigger] in_block(parts0, b, t) && s < t ==> !lex_less(
                keys[order1[t] as int]@,
                keys[order1[s] as int]@,
            ),
        forall|k: int|
            1 <= k < order1.len() ==> (#[trigger] is_boundary(parts1, k) <==> keys_differ_at(order1, keys, k)),
        0 <= x < order1.len(),
        0 <= y < order1.len(),
        keys[x]@ == keys[y]@,
        col0[x] == col0[y],
    ensures
        col1[x] == col1[y],
{
    let i = lemma_colour_place(col1, order1, parts1, x);
    let j = lemma_colour_place(col1, order1, parts1, y);
    if i <= j {
        lemma_same_run(order1, parts0, parts1, keys, col0, col1, i, j);
    } else {
        lemma_same_run(order1, parts0, parts1, keys, col0, col1, j, i);
    }
}

/// Each boundary of before is a boundary after the round.
proof fn lemma_refined_boundary(
    order1: Seq<usize>,
    parts0: Seq<usize>,
    parts1: Seq<usize>,
    keys: Seq<Vec<usize>>,
    col0: Seq<usize>,
    c: int,
)
    requires
        order1.len() >= 1,
        keys.len() == order1.len(),
        is_permutation(order1),
        is_partition(parts0, order1.len()),
        is_partition(parts1, order1.len()),
        is_colouring(col0, order1, parts0),
        forall|k: int|
            1 <= k < order1.len() ==> (#[trigger] is_boundary(parts1, k) <==> keys_differ_at(order1, keys, k)),
        separates(col0, views_of(keys)),
        0 <= c < parts0.len(),
    ensures
        stands_in(parts1, parts0[c]),
{
    let kv = views_of(keys);
    if c == 0 {
        assert(parts1[0] == parts0[0]);
    } else if c == parts0.len() - 1 {
        assert(parts1[parts1.len() - 1] == parts0[c]);
    } else {
        let p = parts0[c] as int;
        assert(parts0[0] < parts0[c]);
        assert(parts0[c] < parts0[parts0.len() - 1]);
        assert(parts0[c - 1] < parts0[c]);
        assert(parts0[c] < parts0[c + 1]);
        assert(in_block(parts0, c - 1, p - 1));
        assert(in_block(parts0, c, p));
        let x = order1[p - 1] as int;
        let y = order1[p] as int;
        assert(in_block(parts0, col0[order1[p - 1] as int] as int, p - 1));
        assert(in_block(parts0, col0[order1[p] as int] as int, p));
        lemma_one_block(parts0, col0[x] as int, c - 1, p - 1);
        lemma_one_block(parts0, col0[y] as int, c, p);
        assert(kv[x] != kv[y]);
        assert(keys_differ_at(order1, keys, p));
        assert(is_boundary(parts1, p));
        let d = choose|d: int| 0 <= d < parts1.len() && parts1[d] == p;
        assert(parts1[d] == parts0[c]);
    }
}

/// One round of refinement.  The entries stood in `order0`, cut into the
/// blocks `parts0`; they were sorted by their keys inside each block, which
/// gave `order1`, and cut anew into the runs of equal keys, `parts1`.  Where
/// entries with the same key stood in the same block before, the new blocks
/// are the classes of the keys, each lies inside a block of before, and
/// there are as many as before only where nothing has changed.
#[verifier::rlimit(40)]
pub proof fn lemma_refined(
    order0: Seq<usize>,
    order1: Seq<usize>,
    parts0: Seq<usize>,
    parts1: Seq<usize>,
    keys: Seq<Vec<usize>>,
    col0: Seq<usize>,
    col1: Seq<usize>,
)
    requires
        order0.len() >= 1,
        is_permutation(order0),
        is_permutation(order1),
        order1.len() == order0.len(),
        keys.len() == order0.len(),
        is_partition(parts0, order0.len()),
        is_partition(parts1, order0.len()),
        is_colouring(col0, order0, parts0),
        is_colouring(col1, order1, parts1),
        is_sorted_within(order1, order0, parts0, keys),
        forall|i: int|
            1 <= i < order1.len() ==> (#[trigger] is_boundary(parts1, i) <==> keys_differ_at(order1, keys, i)),
        separates(col0, views_of(keys)),
    ensures
        separates(col1, views_of(keys)),
        uniform(col1, views_of(keys)),
        refines(col1, col0),
        is_colouring(col0, order1, parts0),
        parts0.len() <= parts1.len(),
        parts0.len() == parts1.len() ==> parts1 == parts0 && col1 == col0,
{
    let n = order0.len() as int;
    let kv = views_of(keys);
    assert(is_rising(parts0));
    assert(is_rising(parts1));
    lemma_sorted_holds_blocks(order1, order0, parts0, keys);
    lemma_colouring_stays(col0, order1, order0, parts0);
    assert forall|x: int, y: int|
        #![trigger kv[x], kv[y]]
        0 <= x < n && 0 <= y < n && col1[x] == col1[y] implies kv[x] == kv[y] by {
        lemma_refined_uniform(order1, parts1, keys, col1, x, y);
    }
    assert forall|x: int, y: int|
        #![trigger kv[x], kv[y]]
        0 <= x < n && 0 <= y < n && kv[x] == kv[y] implies col1[x] == col1[y] by {
        assert(col0[x] == col0[y]);
        lemma_refined_separates(order1, parts0, parts1, keys, col0, col1, x, y);
    }
    assert forall|x: int, y: int|
        #![trigger col1[x], col1[y]]
        0 <= x < n && 0 <= y < n && col1[x] == col1[y] implies col0[x] == col0[y] by {
        lemma_refined_uniform(order1, parts1, keys, col1, x, y);
        assert(kv[x] == kv[y]);
    }
    assert forall|c: int| 0 <= c < parts0.len() implies stands_in(parts1, #[trigger] parts0[c]) by {
        lemma_refined_boundary(order1, parts0, parts1, keys, col0, c);
    }
    lemma_rising_inside(parts0, parts1);
    if parts0.len() == parts1.len() {
        lemma_one_colouring(col1, col0, order1, parts1);
    }
}

/// Entries between two entries with the same key, inside one block that is
/// sorted by the keys, stand in one run of equal keys.
#[verifier::rlimit(40)]
proof fn lemma_same_run(
    order1: Seq<usize>,
    parts0: Seq<usize>,
    parts1: Seq<usize>,
    keys: Seq<Vec<usize>>,
    col0: Seq<usize>,
    col1: Seq<usize>,
    i: int,
    j: int,
)
    requires
        is_permutation(order1),
        keys.len() == order1.len(),
        is_partition(parts0, order1.len()),
        is_partition(parts1, order1.len()),
        is_colouring(col0, order1, parts0),
        is_colouring(col1, order1, parts1),
        forall|b: int, s: int, t: int|
            #[trigger] in_block(parts0, b, s) && #[trigger] in_block(parts0, b, t) && s < t ==> !lex_less(
                keys[order1[t] as int]@,
                keys[order1[s] as int]@,
            ),
        forall|k: int|
            1 <= k < order1.len() ==> (#[trigger] is_boundary(parts1, k) <==> keys_differ_at(order1, keys, k)),
        0 <= i <= j < order1.len(),
        keys[order1[i] as int]@ == keys[order1[j] as int]@,
        col0[order1[i] as int] == col0[order1[j] as int],
    ensures
        col1[order1[i] as int] == col1[order1[j] as int],
    decreases j - i,
{
    if i < j {
        let b0 = col0[order1[i] as int] as int;
        assert(in_block(parts0, col0[order1[i] as int] as int, i));
        assert(in_block(parts0, col0[order1[j] as int] as int, j));
        assert(in_block(parts0, col0[order1[j - 1] as int] as int, j - 1));
        assert(in_block(parts0, b0, j - 1));
        lemma_one_block(parts0, col0[order1[j - 1] as int] as int, b0, j - 1);
        let ki = keys[order1[i] as int]@;
        let kt = keys[order1[j - 1] as int]@;
        if i < j - 1 {
            assert(!lex_less(kt, ki));
        }
        assert(!lex_less(ki, kt));
        if i < j - 1 {
            lemma_lex_total(ki, kt);
        }
        lemma_same_run(order1, parts0, parts1, keys, col0, col1, i, j - 1);
        assert(!keys_differ_at(order1, keys, j));
        assert(!is_boundary(parts1, j));
        let b1 = col1[order1[j - 1] as int] as int;
        assert(in_block(parts1, col1[order1[j - 1] as int] as int, j - 1));
        assert(in_block(parts1, col1[order1[j] as int] as int, j));
        let b2 = col1[order1[j] as int] as int;
        if b1 != b2 {
            assert(parts1[b2] <= j);
            if parts1[b2] == j {
                assert(is_boundary(parts1, j));
            } else {
                assert(in_block(parts1, b2, j - 1));
                lemma_one_block(parts1, b1, b2, j - 1);
            }
        }
    }
}

} // verus!
