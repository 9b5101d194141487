//! The canonical order of a hypergraph: structural classes of vertices and
//! edges by colour refinement, then a fixed order inside each class.

use vstd::prelude::*;
use crate::bitset::remapped;
use crate::hypergraph::{is_dual, is_partition, StructuredHypergraph};
use crate::coarsest::{
    coarsest, lemma_edges_stay_coarsest, lemma_nodes_stay_coarsest, lemma_one_colour_coarsest,
};
use crate::stable::{
    colouring_of, is_colouring, lemma_coarser_edge_key, lemma_coarser_key, lemma_colour_place,
    lemma_colouring_of, lemma_one_colouring, lemma_refined, refines, separates, uniform, views_of,
};
use crate::order::{
    is_permutation, is_rearrangement, is_sorted_block, is_sorted_keys, lemma_permutation_onto,
    lemma_rearranged_permutation, lex_less, sort_block, sort_keys,
};

verus! {

/// The largest number of rounds spent on the order inside the classes.
pub const MAX_ITER: usize = 128;

/// The colours of `items`, in the order of the items.
pub open spec fn colours_of(items: Seq<usize>, colour: Seq<usize>) -> Seq<usize> {
    Seq::new(items.len(), |j: int| colour[items[j] as int])
}

/// Whether `key` holds the colours of `items`, in rising order.
pub open spec fn is_key(key: Seq<usize>, items: Seq<usize>, colour: Seq<usize>) -> bool {
    exists|p: Seq<int>| #[trigger] is_sorted_keys(key, colours_of(items, colour), p)
}

/// Whether `key` holds the colours of the vertices of `edge`, in rising order.
pub open spec fn is_edge_key(key: Seq<usize>, edge: Set<nat>, colour: Seq<usize>) -> bool {
    exists|members: Seq<usize>|
        #[trigger] crate::bitset::is_listing(members, edge) && is_key(key, members, colour)
}

/// Whether the block boundaries `parts` end at a place above zero and cut
/// what lies below it into non-empty ranges.
pub open spec fn is_cut(parts: Seq<usize>) -> bool {
    parts.len() >= 2 && is_partition(parts, parts[parts.len() - 1] as nat)
}

/// A partition of `0 .. n` has at most `n` blocks.
pub proof fn lemma_partition_len(parts: Seq<usize>, n: nat)
    requires
        n > 0,
        is_partition(parts, n),
    ensures
        parts.len() <= n + 1,
{
    lemma_rising_bound(parts, parts.len() - 1);
}

/// The entry at place `i` of a strictly rising list is at least `i`.
pub proof fn lemma_rising_bound(parts: Seq<usize>, i: int)
    requires
        0 <= i < parts.len(),
        forall|i: int, j: int| 0 <= i < j < parts.len() ==> parts[i] < parts[j],
    ensures
        parts[i] >= i,
    decreases i,
{
    if i > 0 {
        lemma_rising_bound(parts, i - 1);
    }
}

/// Whether two keys are the same.
pub fn keys_equal(a: &Vec<usize>, b: &Vec<usize>) -> (r: bool)
    ensures
        r == (a@ == b@),
{
    if a.len() != b.len() {
        return false;
    }
    let mut i: usize = 0;
    while i < a.len()
        invariant
            i <= a@.len(),
            a@.len() == b@.len(),
            forall|j: int| 0 <= j < i ==> a@[j] == b@[j],
        decreases a@.len() - i,
    {
        if a[i] != b[i] {
            return false;
        }
        i = i + 1;
    }
    proof {
        assert(a@ =~= b@);
    }
    true
}

/// The permutation that leaves everything in place.
pub fn identity_map(n: usize) -> (v: Vec<usize>)
    ensures
        v@.len() == n,
        forall|i: int| 0 <= i < n ==> v@[i] == i,
        is_permutation(v@),
{
    let mut v: Vec<usize> = Vec::with_capacity(n);
    let mut i: usize = 0;
    while i < n
        invariant
            i <= n,
            v@.len() == i,
            forall|j: int| 0 <= j < i ==> v@[j] == j,
        decreases n - i,
    {
        v.push(i);
        i = i + 1;
    }
    v
}

/// The first keys: one number for each size, the smaller the larger the size.
pub fn get_initial_keys(sizes: &Vec<usize>) -> (keys: Vec<Vec<usize>>)
    ensures
        keys@.len() == sizes@.len(),
        forall|i: int|
            0 <= i < sizes@.len() ==> (#[trigger] keys@[i])@ == seq![(usize::MAX - sizes@[i]) as usize],
{
    let mut keys: Vec<Vec<usize>> = Vec::with_capacity(sizes.len());
    let mut i: usize = 0;
    while i < sizes.len()
        invariant
            i <= sizes@.len(),
            keys@.len() == i,
            forall|j: int|
                0 <= j < i ==> (#[trigger] keys@[j])@ == seq![(usize::MAX - sizes@[j]) as usize],
        decreases sizes@.len() - i,
    {
        let mut k: Vec<usize> = Vec::new();
        k.push(usize::MAX - sizes[i]);
        proof {
            assert(k@ =~= seq![(usize::MAX - sizes@[i as int]) as usize]);
        }
        keys.push(k);
        i = i + 1;
    }
    keys
}

/// Sets `key` to the colours of `items`, in rising order.
pub fn make_key(items: &Vec<usize>, colour: &Vec<usize>, key: &mut Vec<usize>)
    requires
        forall|j: int| 0 <= j < items@.len() ==> (#[trigger] items@[j]) < colour@.len(),
    ensures
        is_key(final(key)@, items@, colour@),
        final(key)@.len() == items@.len(),
{
    key.clear();
    let mut j: usize = 0;
    while j < items.len()
        invariant
            j <= items@.len(),
            key@.len() == j,
            forall|j: int| 0 <= j < items@.len() ==> (#[trigger] items@[j]) < colour@.len(),
            forall|i: int| 0 <= i < j ==> key@[i] == colour@[items@[i] as int],
        decreases items@.len() - j,
    {
        key.push(colour[items[j]]);
        j = j + 1;
    }
    let ghost raw = key@;
    sort_keys(key);
    proof {
        assert(raw =~= colours_of(items@, colour@));
        let p = choose|p: Seq<int>| is_sorted_keys(key@, raw, p);
        assert(is_sorted_keys(key@, colours_of(items@, colour@), p));
    }
}

/// Whether `i` is one of the boundaries.
pub open spec fn is_boundary(parts: Seq<usize>, i: int) -> bool {
    exists|b: int| 0 <= b < parts.len() && parts[b] == i
}

/// Whether the entries at the places `i - 1` and `i` differ in their keys.
pub open spec fn keys_differ_at(permutation: Seq<usize>, keys: Seq<Vec<usize>>, i: int) -> bool {
    keys[permutation[i - 1] as int]@ != keys[permutation[i] as int]@
}

/// Sets `partitions` to the boundaries of the runs of equal keys along
/// `permutation`: a block ends wherever two neighbours differ in their keys.
pub fn refine_partitions_by_key(
    partitions: &mut Vec<usize>,
    permutation: &Vec<usize>,
    keys: &Vec<Vec<usize>>,
)
    requires
        keys@.len() >= 1,
        permutation@.len() == keys@.len(),
        forall|i: int| 0 <= i < permutation@.len() ==> (#[trigger] permutation@[i]) < keys@.len(),
    ensures
        is_partition(final(partitions)@, keys@.len()),
        forall|i: int|
            1 <= i < keys@.len() ==> (#[trigger] is_boundary(final(partitions)@, i) <==> keys_differ_at(
                permutation@,
                keys@,
                i,
            )),
{
    partitions.clear();
    partitions.push(0);
    let n = keys.len();
    let mut i: usize = 1;
    while i < n
        invariant
            1 <= i <= n,
            n == keys@.len(),
            permutation@.len() == keys@.len(),
            forall|i: int| 0 <= i < permutation@.len() ==> (#[trigger] permutation@[i]) < keys@.len(),
            partitions@.len() >= 1,
            partitions@[0] == 0,
            forall|a: int, b: int| 0 <= a < b < partitions@.len() ==> partitions@[a] < partitions@[b],
            forall|a: int| 0 <= a < partitions@.len() ==> (#[trigger] partitions@[a]) < i,
            forall|j: int|
                1 <= j < i ==> (#[trigger] is_boundary(partitions@, j) <==> keys_differ_at(
                    permutation@,
                    keys@,
                    j,
                )),
        decreases n - i,
    {
        let ghost before = partitions@;
        let differ = !keys_equal(&keys[permutation[i - 1]], &keys[permutation[i]]);
        if differ {
            partitions.push(i);
        }
        proof {
            assert forall|j: int| 1 <= j < i + 1 implies (#[trigger] is_boundary(partitions@, j)
                <==> keys_differ_at(permutation@, keys@, j)) by {
                if j < i {
                    if is_boundary(before, j) {
                        let b = choose|b: int| 0 <= b < before.len() && before[b] == j;
                        assert(partitions@[b] == j);
                    }
                    if is_boundary(partitions@, j) {
                        let b = choose|b: int| 0 <= b < partitions@.len() && partitions@[b] == j;
                        assert(b < before.len());
                        assert(before[b] == j);
                    }
                } else {
                    if differ {
                        assert(partitions@[partitions@.len() - 1] == j);
                    } else {
                        assert forall|b: int| 0 <= b < partitions@.len() implies partitions@[b]
                            != j by {
                            assert(partitions@[b] < i);
                        }
                    }
                }
            }
        }
        i = i + 1;
    }
    let ghost before = partitions@;
    partitions.push(n);
    proof {
        assert forall|i: int| 1 <= i < keys@.len() implies (#[trigger] is_boundary(partitions@, i)
            <==> keys_differ_at(permutation@, keys@, i)) by {
            if is_boundary(before, i) {
                let b = choose|b: int| 0 <= b < before.len() && before[b] == i;
                assert(partitions@[b] == i);
            }
            if is_boundary(partitions@, i) {
                let b = choose|b: int| 0 <= b < partitions@.len() && partitions@[b] == i;
                assert(b < before.len());
                assert(before[b] == i);
            }
        }
    }
}

/// Whether place `i` lies in block `b`.
pub open spec fn in_block(parts: Seq<usize>, b: int, i: int) -> bool {
    0 <= b < parts.len() - 1 && parts[b] <= i < parts[b + 1]
}

/// Whether, inside each block, `new` holds the entries of `old` in an order
/// in which their keys never fall.
pub open spec fn is_sorted_within(
    new: Seq<usize>,
    old: Seq<usize>,
    parts: Seq<usize>,
    keys: Seq<Vec<usize>>,
) -> bool {
    &&& new.len() == old.len()
    &&& forall|b: int, i: int, j: int|
        #[trigger] in_block(parts, b, i) && #[trigger] in_block(parts, b, j) && i < j ==> !lex_less(
            keys[new[j] as int]@,
            keys[new[i] as int]@,
        )
    &&& forall|b: int, i: int| #[trigger]
        in_block(parts, b, i) ==> exists|j: int| in_block(parts, b, j) && new[i] == old[j]
}

/// What holds while the blocks are sorted one after the other: the first
/// `b` blocks are in order and hold what they held, the others are untouched.
pub open spec fn sorted_up_to(
    cur: Seq<usize>,
    old: Seq<usize>,
    parts: Seq<usize>,
    keys: Seq<Vec<usize>>,
    b: int,
) -> bool {
    &&& cur.len() == old.len()
    &&& forall|i: int| parts[b] <= i < cur.len() ==> #[trigger] cur[i] == old[i]
    &&& forall|c: int, i: int, j: int|
        #[trigger] in_block(parts, c, i) && #[trigger] in_block(parts, c, j) && i < j && c < b
            ==> !lex_less(keys[cur[j] as int]@, keys[cur[i] as int]@)
    &&& forall|c: int, i: int| #[trigger]
        in_block(parts, c, i) && c < b ==> exists|j: int| in_block(parts, c, j) && cur[i] == old[j]
}

/// Sorting the next block keeps what holds of the blocks sorted before.
proof fn lemma_sorted_step(
    cur: Seq<usize>,
    before: Seq<usize>,
    old: Seq<usize>,
    parts: Seq<usize>,
    keys: Seq<Vec<usize>>,
    b: int,
    p: Seq<int>,
)
    requires
        0 <= b < parts.len() - 1,
        is_partition(parts, old.len()),
        old.len() >= 1,
        sorted_up_to(before, old, parts, keys, b),
        is_sorted_block(cur, before, parts[b], parts[b + 1], keys, p),
    ensures
        sorted_up_to(cur, old, parts, keys, b + 1),
{
    let start = parts[b];
    let end = parts[b + 1];
    assert forall|c: int, i: int| #[trigger] in_block(parts, c, i) && c < b implies i < parts[b] by {
        if c + 1 < b {
            assert(parts[c + 1] < parts[b]);
        }
    }
    assert forall|c: int, i: int, j: int|
        #[trigger] in_block(parts, c, i) && #[trigger] in_block(parts, c, j) && i < j && c < b
            + 1 implies !lex_less(keys[cur[j] as int]@, keys[cur[i] as int]@) by {
        if c < b {
            assert(i < parts[b] && j < parts[b]);
            assert(p[i] == i && p[j] == j);
            assert(cur[i] == before[p[i]]);
            assert(cur[j] == before[p[j]]);
        }
    }
    assert forall|c: int, i: int| #[trigger] in_block(parts, c, i) && c < b + 1 implies exists|j: int|
        in_block(parts, c, j) && cur[i] == old[j] by {
        if c < b {
            assert(i < parts[b]);
            assert(p[i] == i);
            assert(cur[i] == before[p[i]]);
            let j = choose|j: int| in_block(parts, c, j) && before[i] == old[j];
            assert(in_block(parts, c, j) && cur[i] == old[j]);
        } else {
            assert(cur[i] == before[p[i]]);
            assert(start <= p[i] < end);
            assert(before[p[i]] == old[p[i]]);
            assert(in_block(parts, c, p[i]));
        }
    }
    assert forall|i: int| parts[b + 1] <= i < cur.len() implies #[trigger] cur[i] == old[i] by {
        assert(p[i] == i);
        assert(cur[i] == before[p[i]]);
    }
}

/// Sorts the entries of `permutation` inside each block by their keys.
pub fn sort_partitions_by_key(
    partitions: &Vec<usize>,
    permutation: &mut Vec<usize>,
    keys: &Vec<Vec<usize>>,
)
    requires
        old(permutation)@.len() >= 1,
        is_partition(partitions@, old(permutation)@.len()),
        is_permutation(old(permutation)@),
        old(permutation)@.len() == keys@.len(),
    ensures
        is_permutation(final(permutation)@),
        is_sorted_within(final(permutation)@, old(permutation)@, partitions@, keys@),
{
    let ghost start_perm = permutation@;
    let ghost parts = partitions@;
    let mut b: usize = 0;
    while b < partitions.len() - 1
        invariant
            b <= partitions@.len() - 1,
            parts == partitions@,
            start_perm.len() >= 1,
            start_perm.len() == keys@.len(),
            is_partition(parts, start_perm.len()),
            is_permutation(permutation@),
            sorted_up_to(permutation@, start_perm, parts, keys@, b as int),
        decreases partitions@.len() - 1 - b,
    {
        let start = partitions[b];
        let end = partitions[b + 1];
        let ghost before = permutation@;
        proof {
            assert(parts[b as int] < parts[b + 1]);
            assert(parts[b + 1] <= parts[parts.len() - 1]) by {
                if b + 1 < parts.len() - 1 {
                    assert(parts[b + 1] < parts[parts.len() - 1]);
                }
            }
            assert forall|i: int| start <= i < end implies (#[trigger] permutation@[i]) < keys@.len() by {}
        }
        sort_block(permutation, start, end, keys);
        proof {
            let p = choose|p: Seq<int>| is_sorted_block(permutation@, before, start, end, keys@, p);
            lemma_rearranged_permutation(permutation@, before, p);
            lemma_sorted_step(permutation@, before, start_perm, parts, keys@, b as int, p);
        }
        b = b + 1;
    }
}

/// Sets `buff[i]` to the index of the block that holds place `i`.
pub fn fill_partition_map(buff: &mut Vec<usize>, partitions: &Vec<usize>)
    requires
        is_cut(partitions@),
    ensures
        final(buff)@.len() == partitions@[partitions@.len() - 1],
        forall|i: int|
            0 <= i < final(buff)@.len() ==> (#[trigger] final(buff)@[i]) + 1 < partitions@.len()
                && partitions@[final(buff)@[i] as int] <= i < partitions@[final(buff)@[i] + 1],
{
    let n = partitions[partitions.len() - 1];
    let blocks = partitions.len();
    buff.resize(n, 0);
    let mut p: usize = 1;
    let mut i: usize = 0;
    while i < n
        invariant
            i <= n,
            blocks == partitions@.len(),
            p < blocks,
            n == partitions@[partitions@.len() - 1],
            is_cut(partitions@),
            buff@.len() == n,
            1 <= p < partitions@.len(),
            partitions@[p - 1] <= i,
            i <= partitions@[p as int],
            forall|j: int|
                0 <= j < i ==> (#[trigger] buff@[j]) + 1 < partitions@.len() && partitions@[buff@[j] as int]
                    <= j < partitions@[buff@[j] + 1],
        decreases n - i,
    {
        if partitions[p] == i {
            proof {
                if p + 1 >= partitions@.len() {
                    assert(partitions@[p as int] == n);
                }
            }
            p = p + 1;
            proof {
                assert(partitions@[p - 1] < partitions@[p as int]);
            }
        }
        buff.set(i, p - 1);
        i = i + 1;
    }
}

/// Sets `buff` to the inverse of `permutation`.
pub fn fill_inv_permutation(buff: &mut Vec<usize>, permutation: &Vec<usize>)
    requires
        is_permutation(permutation@),
    ensures
        final(buff)@.len() == permutation@.len(),
        forall|i: int| 0 <= i < permutation@.len() ==> final(buff)@[#[trigger] permutation@[i] as int] == i,
        forall|j: int| 0 <= j < final(buff)@.len() ==> (#[trigger] final(buff)@[j]) < permutation@.len(),
{
    buff.resize(permutation.len(), 0);
    let mut i: usize = 0;
    while i < permutation.len()
        invariant
            i <= permutation@.len(),
            buff@.len() == permutation@.len(),
            is_permutation(permutation@),
            forall|j: int| 0 <= j < i ==> buff@[#[trigger] permutation@[j] as int] == j,
        decreases permutation@.len() - i,
    {
        buff.set(permutation[i], i);
        i = i + 1;
    }
    proof {
        assert forall|j: int| 0 <= j < buff@.len() implies (#[trigger] buff@[j]) < permutation@.len() by {
            lemma_permutation_onto(permutation@, j);
            let i = choose|i: int| 0 <= i < permutation@.len() && permutation@[i] == j;
            assert(buff@[permutation@[i] as int] == i);
        }
    }
}

/// Moves each entry of `buff_in` to the place that `permutation` names for it.
pub fn apply_inv_permutation(buff_in: &Vec<usize>, buff_out: &mut Vec<usize>, permutation: &Vec<usize>)
    requires
        is_permutation(permutation@),
        buff_in@.len() == permutation@.len(),
    ensures
        final(buff_out)@.len() == buff_in@.len(),
        forall|i: int|
            0 <= i < permutation@.len() ==> final(buff_out)@[#[trigger] permutation@[i] as int]
                == buff_in@[i],
{
    buff_out.resize(buff_in.len(), 0);
    let mut i: usize = 0;
    while i < permutation.len()
        invariant
            i <= permutation@.len(),
            buff_out@.len() == permutation@.len(),
            buff_in@.len() == permutation@.len(),
            is_permutation(permutation@),
            forall|j: int| 0 <= j < i ==> buff_out@[#[trigger] permutation@[j] as int] == buff_in@[j],
        decreases permutation@.len() - i,
    {
        buff_out.set(permutation[i], buff_in[i]);
        i = i + 1;
    }
}

/// Sets `dst` to a copy of `src`.
pub fn copy_into(dst: &mut Vec<usize>, src: &Vec<usize>)
    ensures
        final(dst)@ == src@,
{
    dst.clear();
    let mut i: usize = 0;
    while i < src.len()
        invariant
            i <= src@.len(),
            dst@ == src@.take(i as int),
        decreases src@.len() - i,
    {
        dst.push(src[i]);
        i = i + 1;
    }
    proof {
        assert(src@.take(i as int) =~= src@);
    }
}

/// Turns ranks around: the rank `r` among `len` becomes `len - 1 - r`.
pub fn reverse_ranks(ranks: &mut Vec<usize>, len: usize)
    requires
        forall|j: int| 0 <= j < old(ranks)@.len() ==> (#[trigger] old(ranks)@[j]) < len,
    ensures
        final(ranks)@.len() == old(ranks)@.len(),
        forall|j: int|
            0 <= j < old(ranks)@.len() ==> (#[trigger] final(ranks)@[j]) == len - 1 - old(ranks)@[j],
{
    let ghost before = ranks@;
    let mut j: usize = 0;
    while j < ranks.len()
        invariant
            j <= ranks@.len(),
            ranks@.len() == before.len(),
            forall|i: int| 0 <= i < before.len() ==> (#[trigger] before[i]) < len,
            forall|i: int| 0 <= i < j ==> (#[trigger] ranks@[i]) == len - 1 - before[i],
            forall|i: int| j <= i < ranks@.len() ==> (#[trigger] ranks@[i]) == before[i],
        decreases ranks@.len() - j,
    {
        let r = ranks[j];
        assert(before[j as int] < len);
        ranks.set(j, len - 1 - r);
        j = j + 1;
    }
}

/// Whether the keys of the entries never fall inside a block.
pub open spec fn blocks_sorted(order: Seq<usize>, parts: Seq<usize>, keys: Seq<Vec<usize>>) -> bool {
    forall|b: int, i: int, j: int|
        #[trigger] in_block(parts, b, i) && #[trigger] in_block(parts, b, j) && i < j ==> !lex_less(
            keys[order[j] as int]@,
            keys[order[i] as int]@,
        )
}

/// Whether `x` stands in `old` at a place of block `b`.
pub open spec fn stands_in_block(old: Seq<usize>, parts: Seq<usize>, b: int, x: usize) -> bool {
    exists|j: int| in_block(parts, b, j) && old[j] == x
}

/// Whether each block holds in `new` what it holds in `old`.
pub open spec fn holds_blocks(new: Seq<usize>, old: Seq<usize>, parts: Seq<usize>) -> bool {
    &&& new.len() == old.len()
    &&& forall|b: int, i: int|
        #![trigger in_block(parts, b, i), new[i]]
        in_block(parts, b, i) ==> stands_in_block(old, parts, b, new[i])
}

/// What a block holds of what it held of what it held, it holds of that.
pub proof fn lemma_holds_blocks(a: Seq<usize>, b: Seq<usize>, c: Seq<usize>, parts: Seq<usize>)
    requires
        holds_blocks(a, b, parts),
        holds_blocks(b, c, parts),
    ensures
        holds_blocks(a, c, parts),
{
    assert forall|k: int, i: int|
        #![trigger in_block(parts, k, i), a[i]]
        in_block(parts, k, i) implies stands_in_block(c, parts, k, a[i]) by {
        assert(stands_in_block(b, parts, k, a[i]));
        let x = choose|x: int| in_block(parts, k, x) && b[x] == a[i];
        assert(stands_in_block(c, parts, k, b[x]));
    }
}

/// Blocks that are sorted hold what they held.
pub proof fn lemma_sorted_holds_blocks(
    new: Seq<usize>,
    old: Seq<usize>,
    parts: Seq<usize>,
    keys: Seq<Vec<usize>>,
)
    requires
        is_sorted_within(new, old, parts, keys),
    ensures
        holds_blocks(new, old, parts),
{
    assert forall|k: int, i: int|
        #![trigger in_block(parts, k, i), new[i]]
        in_block(parts, k, i) implies stands_in_block(old, parts, k, new[i]) by {
        let j = choose|j: int| in_block(parts, k, j) && new[i] == old[j];
        assert(in_block(parts, k, j) && old[j] == new[i]);
    }
}

/// Blocks hold what they hold.
pub proof fn lemma_holds_own_blocks(a: Seq<usize>, parts: Seq<usize>)
    ensures
        holds_blocks(a, a, parts),
{
    assert forall|k: int, i: int|
        #![trigger in_block(parts, k, i), a[i]]
        in_block(parts, k, i) implies stands_in_block(a, parts, k, a[i]) by {
        assert(in_block(parts, k, i) && a[i] == a[i]);
    }
}

/// The state of the search for the canonical order of one hypergraph.
///
/// `node_map` and `edge_map` hold the order found so far: place `i` holds
/// the vertex, or the edge, that will get the number `i`.  The blocks of the
/// two partitions of the hypergraph are ranges of places.
pub struct StructuralHypergraphSorter {
    pub node_map: Vec<usize>,
    pub edge_map: Vec<usize>,
    pub temp_buffer: Vec<usize>,
    pub key_map_buffer: Vec<usize>,
    pub node_keys: Vec<Vec<usize>>,
    pub edge_keys: Vec<Vec<usize>>,
    pub dual: Vec<Vec<usize>>,
    pub hypergraph: StructuredHypergraph,
}

/// Whether `new` is `old` with its edges in the order `edge_map` and its
/// vertices in the order `node_map`.
pub open spec fn is_reordering(
    new: StructuredHypergraph,
    old: StructuredHypergraph,
    node_map: Seq<usize>,
    edge_map: Seq<usize>,
) -> bool {
    &&& is_permutation(node_map)
    &&& node_map.len() == old.nodes@.len()
    &&& is_permutation(edge_map)
    &&& edge_map.len() == old.hyperedges@.len()
    &&& new.nodes@.len() == node_map.len()
    &&& forall|i: int| 0 <= i < node_map.len() ==> #[trigger] new.nodes@[i] == old.nodes@[node_map[i] as int]
    &&& new.hyperedges@.len() == edge_map.len()
    &&& forall|k: int|
        0 <= k < edge_map.len() ==> #[trigger] new.edges()[k] == remapped(
            old.edges()[edge_map[k] as int],
            node_map,
        )
}

impl StructuralHypergraphSorter {
    /// The number of vertices.
    pub open spec fn n(&self) -> nat {
        self.hypergraph.nodes@.len()
    }

    /// The number of edges.
    pub open spec fn m(&self) -> nat {
        self.hypergraph.hyperedges@.len()
    }

    /// What holds from the start: the two orders are permutations, there is
    /// a key for each vertex and each edge, and the dual is that of the
    /// hypergraph.
    pub open spec fn base_inv(&self) -> bool {
        &&& 1 <= self.n() <= 128
        &&& 1 <= self.m()
        &&& self.hypergraph.labelled()
        &&& is_permutation(self.node_map@)
        &&& self.node_map@.len() == self.n()
        &&& is_permutation(self.edge_map@)
        &&& self.edge_map@.len() == self.m()
        &&& self.node_keys@.len() == self.n()
        &&& self.edge_keys@.len() == self.m()
        &&& is_dual(self.dual@, self.hypergraph.edges(), self.n())
    }

    /// What the search starts from: at most 128 vertices, each vertex of
    /// each edge with a label, the two orders permutations, a key for each
    /// vertex and each edge, and the dual that of the hypergraph.
    pub open spec fn ready(&self) -> bool {
        &&& self.n() <= 128
        &&& self.hypergraph.labelled()
        &&& is_permutation(self.node_map@)
        &&& self.node_map@.len() == self.n()
        &&& is_permutation(self.edge_map@)
        &&& self.edge_map@.len() == self.m()
        &&& self.node_keys@.len() == self.n()
        &&& self.edge_keys@.len() == self.m()
        &&& is_dual(self.dual@, self.hypergraph.edges(), self.n())
    }

    /// What holds once the partitions are set: `base_inv`, and both
    /// partitions cut their places into non-empty blocks.
    pub open spec fn inv(&self) -> bool {
        &&& self.base_inv()
        &&& is_partition(self.hypergraph.node_structure_partitions@, self.n())
        &&& is_partition(self.hypergraph.edge_structure_partitions@, self.m())
    }

    /// Whether the two states are about the same hypergraph.
    pub open spec fn same_graph(&self, other: &Self) -> bool {
        &&& self.hypergraph.hyperedges@ == other.hypergraph.hyperedges@
        &&& self.hypergraph.nodes@ == other.hypergraph.nodes@
        &&& self.dual@ == other.dual@
    }

    /// Whether the two states hold the same partitions.
    pub open spec fn same_parts(&self, other: &Self) -> bool {
        &&& self.hypergraph.node_structure_partitions@ == other.hypergraph.node_structure_partitions@
        &&& self.hypergraph.edge_structure_partitions@ == other.hypergraph.edge_structure_partitions@
    }

    /// What the classes mean once they are settled: `key_map_buffer` holds
    /// for each vertex the block of its place; the key of an edge holds the
    /// blocks of its vertices, in rising order; and the blocks of the edges
    /// are the runs of equal keys.  So the edges of one block hold equally
    /// many vertices of each block of vertices.  The key of a vertex has an
    /// entry for each of its edges, and the blocks of the vertices are the
    /// runs of equal keys.  So the vertices of one block lie in equally many
    /// edges.
    pub open spec fn classes_settled(&self) -> bool {
        &&& self.key_map_buffer@.len() == self.n()
        &&& forall|i: int|
            0 <= i < self.n() ==> in_block(
                self.hypergraph.node_structure_partitions@,
                self.key_map_buffer@[#[trigger] self.node_map@[i] as int] as int,
                i,
            )
        &&& forall|e: int|
            0 <= e < self.m() ==> is_edge_key(
                #[trigger] self.edge_keys@[e]@,
                self.hypergraph.edges()[e],
                self.key_map_buffer@,
            )
        &&& forall|i: int|
            1 <= i < self.m() ==> (#[trigger] is_boundary(
                self.hypergraph.edge_structure_partitions@,
                i,
            ) <==> keys_differ_at(self.edge_map@, self.edge_keys@, i))
        &&& forall|v: int| 0 <= v < self.n() ==> (#[trigger] self.node_keys@[v])@.len() == self.dual@[v]@.len()
        &&& forall|i: int|
            1 <= i < self.n() ==> (#[trigger] is_boundary(
                self.hypergraph.node_structure_partitions@,
                i,
            ) <==> keys_differ_at(self.node_map@, self.node_keys@, i))
    }

    /// The colour of each vertex: the block of its place.
    pub open spec fn node_colours(&self) -> Seq<usize> {
        colouring_of(self.node_map@, self.hypergraph.node_structure_partitions@)
    }

    /// The colour of each edge: the block of its place.
    pub open spec fn edge_colours(&self) -> Seq<usize> {
        colouring_of(self.edge_map@, self.hypergraph.edge_structure_partitions@)
    }

    /// Whether neither partition is cut yet.
    pub open spec fn undivided(&self) -> bool {
        &&& self.hypergraph.node_structure_partitions@.len() == 2
        &&& self.hypergraph.edge_structure_partitions@.len() == 2
    }

    /// Whether the classes are stable: the key of a vertex holds the
    /// colours of its edges and the key of an edge the colours of its
    /// vertices, in rising order, and on both sides two entries have the
    /// same colour exactly where they have the same key.  So refining once
    /// more would change nothing.
    pub open spec fn classes_stable(&self) -> bool {
        &&& forall|v: int|
            0 <= v < self.n() ==> is_key(#[trigger] self.node_keys@[v]@, self.dual@[v]@, self.edge_colours())
        &&& forall|e: int|
            0 <= e < self.m() ==> is_edge_key(
                #[trigger] self.edge_keys@[e]@,
                self.hypergraph.edges()[e],
                self.node_colours(),
            )
        &&& separates(self.node_colours(), views_of(self.node_keys@))
        &&& uniform(self.node_colours(), views_of(self.node_keys@))
        &&& separates(self.edge_colours(), views_of(self.edge_keys@))
        &&& uniform(self.edge_colours(), views_of(self.edge_keys@))
    }

    /// What holds between two rounds of refinement: the keys of the
    /// vertices hold the colours `edge_before` of their edges, the keys of
    /// the edges the colours `node_before` of their vertices, entries with
    /// the same key have the same colour, the colours of now are finer than
    /// those that the keys were made of, and the vertices stand by their
    /// degree.
    pub open spec fn refining(&self, edge_before: Seq<usize>, node_before: Seq<usize>) -> bool {
        &&& forall|v: int|
            0 <= v < self.n() ==> is_key(#[trigger] self.node_keys@[v]@, self.dual@[v]@, edge_before)
        &&& separates(self.node_colours(), views_of(self.node_keys@))
        &&& refines(self.edge_colours(), edge_before)
        &&& forall|e: int|
            0 <= e < self.m() ==> is_edge_key(
                #[trigger] self.edge_keys@[e]@,
                self.hypergraph.edges()[e],
                node_before,
            )
        &&& separates(self.edge_colours(), views_of(self.edge_keys@))
        &&& refines(self.node_colours(), node_before)
        &&& uniform(self.node_colours(), views_of(self.node_keys@))
        &&& crate::canon::lengths_rise(self.node_map@, self.dual@)
    }

    /// What the order inside the classes is once it is settled:
    /// `key_map_buffer` holds for each vertex its place, counted from the
    /// end; the key of an edge holds these places of its vertices, in rising
    /// order; and inside each block the edges stand in the order of their
    /// keys, and the vertices in the order of theirs.
    pub open spec fn order_settled(&self) -> bool {
        &&& self.key_map_buffer@.len() == self.n()
        &&& forall|i: int|
            0 <= i < self.n() ==> self.key_map_buffer@[#[trigger] self.node_map@[i] as int] == self.n()
                - 1 - i
        &&& forall|e: int|
            0 <= e < self.m() ==> is_edge_key(
                #[trigger] self.edge_keys@[e]@,
                self.hypergraph.edges()[e],
                self.key_map_buffer@,
            )
        &&& blocks_sorted(
            self.edge_map@,
            self.hypergraph.edge_structure_partitions@,
            self.edge_keys@,
        )
        &&& blocks_sorted(
            self.node_map@,
            self.hypergraph.node_structure_partitions@,
            self.node_keys@,
        )
    }

    /// What the keys of the vertices are once the order is settled: the
    /// ranks of their edges, in rising order, where `rank` gives each edge
    /// its place in the order `edges_then`, counted from the end.  That is
    /// the order of the edges before they were last put in order; the order
    /// of now holds in each block what that order held there.
    pub open spec fn nodes_settled(&self, edges_then: Seq<usize>, rank: Seq<usize>) -> bool {
        &&& is_permutation(edges_then)
        &&& edges_then.len() == self.m()
        &&& holds_blocks(self.edge_map@, edges_then, self.hypergraph.edge_structure_partitions@)
        &&& crate::canon::is_ranking(rank, edges_then)
        &&& forall|v: int| 0 <= v < self.n() ==> is_key(#[trigger] self.node_keys@[v]@, self.dual@[v]@, rank)
    }

    /// Whether each block of both orders holds in `self` what it holds in
    /// `other`.
    pub open spec fn same_blocks(&self, other: &Self) -> bool {
        &&& holds_blocks(
            self.node_map@,
            other.node_map@,
            other.hypergraph.node_structure_partitions@,
        )
        &&& holds_blocks(
            self.edge_map@,
            other.edge_map@,
            other.hypergraph.edge_structure_partitions@,
        )
    }

    /// The number of blocks of both partitions, and two.
    pub open spec fn boundaries(&self) -> nat {
        self.hypergraph.node_structure_partitions@.len()
            + self.hypergraph.edge_structure_partitions@.len()
    }

    /// Starts the search: every vertex and edge in its place, and as first
    /// keys the number of edges at a vertex and the size of an edge.
    pub fn new(hypergraph: StructuredHypergraph) -> (s: Self)
        requires
            hypergraph.labelled(),
            hypergraph.nodes@.len() <= 128,
        ensures
            s.ready(),
            s.hypergraph == hypergraph,
            forall|i: int| 0 <= i < s.n() ==> s.node_map@[i] == i,
            forall|i: int| 0 <= i < s.m() ==> s.edge_map@[i] == i,
            forall|v: int|
                0 <= v < s.n() ==> (#[trigger] s.node_keys@[v])@ == seq![(usize::MAX - s.dual@[v]@.len()) as usize],
            forall|e: int|
                0 <= e < s.m() ==> (#[trigger] s.edge_keys@[e])@ == seq![(usize::MAX
                    - hypergraph.edges()[e].len()) as usize],
    {
        let n = hypergraph.nodes.len();
        let m = hypergraph.hyperedges.len();
        let buffsize = if n > m { n } else { m };
        let dual = hypergraph.dual();
        let mut degrees: Vec<usize> = Vec::with_capacity(n);
        let mut v: usize = 0;
        while v < n
            invariant
                v <= n,
                n == dual@.len(),
                degrees@.len() == v,
                forall|w: int| 0 <= w < v ==> degrees@[w] == dual@[w]@.len(),
            decreases n - v,
        {
            degrees.push(dual[v].len());
            v = v + 1;
        }
        let mut sizes: Vec<usize> = Vec::with_capacity(m);
        let mut e: usize = 0;
        while e < m
            invariant
                e <= m,
                m == hypergraph.hyperedges@.len(),
                sizes@.len() == e,
                forall|f: int| 0 <= f < e ==> sizes@[f] == hypergraph.edges()[f].len(),
            decreases m - e,
        {
            sizes.push(hypergraph.hyperedges[e].len());
            e = e + 1;
        }
        StructuralHypergraphSorter {
            node_map: identity_map(n),
            edge_map: identity_map(m),
            temp_buffer: Vec::with_capacity(buffsize),
            key_map_buffer: Vec::with_capacity(buffsize),
            node_keys: get_initial_keys(&degrees),
            edge_keys: get_initial_keys(&sizes),
            dual,
            hypergraph,
        }
    }

    /// Sets the key of each edge to the colours of its vertices, in rising
    /// order; `key_map_buffer` holds the colour of each vertex.
    pub fn build_edge_keys(&mut self)
        requires
            old(self).inv(),
            old(self).key_map_buffer@.len() >= old(self).n(),
        ensures
            final(self).inv(),
            final(self).same_graph(old(self)),
            final(self).same_parts(old(self)),
            final(self).node_map@ == old(self).node_map@,
            final(self).edge_map@ == old(self).edge_map@,
            final(self).key_map_buffer@ == old(self).key_map_buffer@,
            final(self).node_keys@ == old(self).node_keys@,
            forall|e: int|
                0 <= e < final(self).m() ==> is_edge_key(
                    #[trigger] final(self).edge_keys@[e]@,
                    final(self).hypergraph.edges()[e],
                    final(self).key_map_buffer@,
                ),
    {
        let ghost before = *self;
        let m = self.hypergraph.hyperedges.len();
        let mut e: usize = 0;
        while e < m
            invariant
                e <= m,
                m == self.m(),
                self.inv(),
                self.same_graph(&before),
                self.same_parts(&before),
                self.node_map@ == before.node_map@,
                self.edge_map@ == before.edge_map@,
                self.key_map_buffer@ == before.key_map_buffer@,
                self.node_keys@ == before.node_keys@,
                self.key_map_buffer@.len() >= self.n(),
                forall|f: int|
                    0 <= f < e ==> is_edge_key(
                        #[trigger] self.edge_keys@[f]@,
                        self.hypergraph.edges()[f],
                        self.key_map_buffer@,
                    ),
            decreases m - e,
        {
            let members = self.hypergraph.hyperedges[e].to_vec();
            let mut key: Vec<usize> = Vec::new();
            proof {
                assert forall|j: int| 0 <= j < members@.len() implies (#[trigger] members@[j])
                    < self.key_map_buffer@.len() by {
                    assert(self.hypergraph.edges()[e as int].contains(members@[j] as nat));
                }
            }
            make_key(&members, &self.key_map_buffer, &mut key);
            self.edge_keys.set(e, key);
            proof {
                assert(crate::bitset::is_listing(members@, self.hypergraph.edges()[e as int])
                    && is_key(self.edge_keys@[e as int]@, members@, self.key_map_buffer@));
            }
            e = e + 1;
        }
    }

    /// Sets the key of each vertex to the colours of its edges, in rising
    /// order; `key_map_buffer` holds the colour of each edge.
    pub fn build_node_keys(&mut self)
        requires
            old(self).inv(),
            old(self).key_map_buffer@.len() >= old(self).m(),
        ensures
            final(self).inv(),
            final(self).same_graph(old(self)),
            final(self).same_parts(old(self)),
            final(self).node_map@ == old(self).node_map@,
            final(self).edge_map@ == old(self).edge_map@,
            final(self).key_map_buffer@ == old(self).key_map_buffer@,
            final(self).edge_keys@ == old(self).edge_keys@,
            forall|v: int|
                0 <= v < final(self).n() ==> is_key(
                    #[trigger] final(self).node_keys@[v]@,
                    final(self).dual@[v]@,
                    final(self).key_map_buffer@,
                ) && final(self).node_keys@[v]@.len() == final(self).dual@[v]@.len(),
    {
        let ghost before = *self;
        let n = self.hypergraph.nodes.len();
        let mut v: usize = 0;
        while v < n
            invariant
                v <= n,
                n == self.n(),
                self.inv(),
                self.same_graph(&before),
                self.same_parts(&before),
                self.node_map@ == before.node_map@,
                self.edge_map@ == before.edge_map@,
                self.key_map_buffer@ == before.key_map_buffer@,
                self.edge_keys@ == before.edge_keys@,
                self.key_map_buffer@.len() >= self.m(),
                forall|w: int|
                    0 <= w < v ==> is_key(
                        #[trigger] self.node_keys@[w]@,
                        self.dual@[w]@,
                        self.key_map_buffer@,
                    ) && self.node_keys@[w]@.len() == self.dual@[w]@.len(),
            decreases n - v,
        {
            let mut key: Vec<usize> = Vec::new();
            proof {
                assert(crate::hypergraph::is_edge_listing(
                    self.dual@[v as int]@,
                    self.hypergraph.edges(),
                    v as nat,
                ));
            }
            make_key(&self.dual[v], &self.key_map_buffer, &mut key);
            self.node_keys.set(v, key);
            v = v + 1;
        }
    }

    /// Sorts the edges inside each block by their keys.
    pub fn sort_edges(&mut self)
        requires
            old(self).inv(),
        ensures
            final(self).inv(),
            final(self).same_graph(old(self)),
            final(self).same_parts(old(self)),
            final(self).node_map@ == old(self).node_map@,
            final(self).edge_keys@ == old(self).edge_keys@,
            final(self).node_keys@ == old(self).node_keys@,
            final(self).key_map_buffer@ == old(self).key_map_buffer@,
            is_sorted_within(
                final(self).edge_map@,
                old(self).edge_map@,
                old(self).hypergraph.edge_structure_partitions@,
                old(self).edge_keys@,
            ),
    {
        sort_partitions_by_key(
            &self.hypergraph.edge_structure_partitions,
            &mut self.edge_map,
            &self.edge_keys,
        );
    }

    /// Cuts the edges into the runs of equal keys.
    pub fn refine_edges(&mut self)
        requires
            old(self).inv(),
        ensures
            final(self).inv(),
            final(self).same_graph(old(self)),
            final(self).node_map@ == old(self).node_map@,
            final(self).edge_map@ == old(self).edge_map@,
            final(self).hypergraph.node_structure_partitions@ == old(
                self,
            ).hypergraph.node_structure_partitions@,
            final(self).edge_keys@ == old(self).edge_keys@,
            final(self).node_keys@ == old(self).node_keys@,
            final(self).key_map_buffer@ == old(self).key_map_buffer@,
            forall|i: int|
                1 <= i < final(self).m() ==> (#[trigger] is_boundary(
                    final(self).hypergraph.edge_structure_partitions@,
                    i,
                ) <==> keys_differ_at(final(self).edge_map@, final(self).edge_keys@, i)),
    {
        refine_partitions_by_key(
            &mut self.hypergraph.edge_structure_partitions,
            &self.edge_map,
            &self.edge_keys,
        );
    }

    /// Sorts the vertices inside each block by their keys.
    pub fn sort_nodes(&mut self)
        requires
            old(self).inv(),
        ensures
            final(self).inv(),
            final(self).same_graph(old(self)),
            final(self).same_parts(old(self)),
            final(self).edge_map@ == old(self).edge_map@,
            final(self).node_keys@ == old(self).node_keys@,
            final(self).edge_keys@ == old(self).edge_keys@,
            is_sorted_within(
                final(self).node_map@,
                old(self).node_map@,
                old(self).hypergraph.node_structure_partitions@,
                old(self).node_keys@,
            ),
    {
        sort_partitions_by_key(
            &self.hypergraph.node_structure_partitions,
            &mut self.node_map,
            &self.node_keys,
        );
    }

    /// Cuts the vertices into the runs of equal keys.
    pub fn refine_nodes(&mut self)
        requires
            old(self).inv(),
        ensures
            final(self).inv(),
            final(self).same_graph(old(self)),
            final(self).node_map@ == old(self).node_map@,
            final(self).edge_map@ == old(self).edge_map@,
            final(self).hypergraph.edge_structure_partitions@ == old(
                self,
            ).hypergraph.edge_structure_partitions@,
            final(self).node_keys@ == old(self).node_keys@,
            final(self).edge_keys@ == old(self).edge_keys@,
            forall|i: int|
                1 <= i < final(self).n() ==> (#[trigger] is_boundary(
                    final(self).hypergraph.node_structure_partitions@,
                    i,
                ) <==> keys_differ_at(final(self).node_map@, final(self).node_keys@, i)),
    {
        refine_partitions_by_key(
            &mut self.hypergraph.node_structure_partitions,
            &self.node_map,
            &self.node_keys,
        );
    }

    /// The colourings of a state are colourings.
    pub proof fn lemma_colours(&self)
        requires
            self.inv(),
        ensures
            is_colouring(self.node_colours(), self.node_map@, self.hypergraph.node_structure_partitions@),
            is_colouring(self.edge_colours(), self.edge_map@, self.hypergraph.edge_structure_partitions@),
            self.node_colours().len() == self.n(),
            self.edge_colours().len() == self.m(),
    {
        lemma_partition_len(self.hypergraph.node_structure_partitions@, self.n());
        lemma_partition_len(self.hypergraph.edge_structure_partitions@, self.m());
        lemma_colouring_of(self.node_map@, self.hypergraph.node_structure_partitions@);
        lemma_colouring_of(self.edge_map@, self.hypergraph.edge_structure_partitions@);
    }

    /// While neither partition is cut, the colourings are coarsest.
    pub proof fn lemma_undivided_coarsest(&self)
        requires
            self.inv(),
            self.undivided(),
        ensures
            coarsest(self.hypergraph.edges(), self.n(), self.node_colours(), self.edge_colours()),
    {
        self.lemma_colours();
        let ncol = self.node_colours();
        let ecol = self.edge_colours();
        assert forall|x: int, y: int| 0 <= x < self.n() && 0 <= y < self.n() implies ncol[x] == ncol[y] by {
            let i = lemma_colour_place(ncol, self.node_map@, self.hypergraph.node_structure_partitions@, x);
            let j = lemma_colour_place(ncol, self.node_map@, self.hypergraph.node_structure_partitions@, y);
        }
        assert forall|x: int, y: int| 0 <= x < self.m() && 0 <= y < self.m() implies ecol[x] == ecol[y] by {
            let i = lemma_colour_place(ecol, self.edge_map@, self.hypergraph.edge_structure_partitions@, x);
            let j = lemma_colour_place(ecol, self.edge_map@, self.hypergraph.edge_structure_partitions@, y);
        }
        lemma_one_colour_coarsest(self.hypergraph.edges(), self.n(), ncol, ecol);
    }

    /// What a round of refinement does to the vertices.  `self` is the
    /// state before the round and `after` the state once the vertices are
    /// sorted by their new keys and cut into the runs of equal keys.
    #[verifier::rlimit(40)]
    pub proof fn lemma_node_round(
        &self,
        after: &Self,
        fresh: bool,
        edge_before: Seq<usize>,
        node_before: Seq<usize>,
    )
        requires
            self.inv(),
            after.inv(),
            after.same_graph(self),
            after.edge_map@ == self.edge_map@,
            after.hypergraph.edge_structure_partitions@ == self.hypergraph.edge_structure_partitions@,
            after.edge_keys@ == self.edge_keys@,
            forall|v: int|
                0 <= v < self.n() ==> is_key(#[trigger] after.node_keys@[v]@, self.dual@[v]@, self.edge_colours()),
            is_sorted_within(
                after.node_map@,
                self.node_map@,
                self.hypergraph.node_structure_partitions@,
                after.node_keys@,
            ),
            forall|i: int|
                1 <= i < after.n() ==> (#[trigger] is_boundary(after.hypergraph.node_structure_partitions@, i)
                    <==> keys_differ_at(after.node_map@, after.node_keys@, i)),
            fresh ==> self.undivided(),
            !fresh ==> self.refining(edge_before, node_before),
        ensures
            separates(after.node_colours(), views_of(after.node_keys@)),
            uniform(after.node_colours(), views_of(after.node_keys@)),
            refines(after.node_colours(), self.node_colours()),
            !fresh ==> refines(after.node_colours(), node_before),
            crate::canon::lengths_rise(after.node_map@, after.dual@),
            after.edge_colours() == self.edge_colours(),
            self.hypergraph.node_structure_partitions@.len() <= after.hypergraph.node_structure_partitions@.len(),
            self.hypergraph.node_structure_partitions@.len() == after.hypergraph.node_structure_partitions@.len()
                ==> after.hypergraph.node_structure_partitions@ == self.hypergraph.node_structure_partitions@
                && after.node_colours() == self.node_colours(),
    {
        self.lemma_colours();
        after.lemma_colours();
        let col0 = self.node_colours();
        let col1 = after.node_colours();
        self.lemma_node_keys_separate(after.node_keys@, fresh, edge_before, node_before);
        lemma_refined(
            self.node_map@,
            after.node_map@,
            self.hypergraph.node_structure_partitions@,
            after.hypergraph.node_structure_partitions@,
            after.node_keys@,
            col0,
            col1,
        );
        if !fresh {
            assert forall|x: int, y: int|
                #![trigger col1[x], col1[y]]
                0 <= x < col1.len() && 0 <= y < col1.len() && col1[x] == col1[y] implies node_before[x]
                == node_before[y] by {
                assert(col0[x] == col0[y]);
            }
        }
        self.lemma_round_by_degree(after, fresh, edge_before, node_before);
    }

    /// Vertices with the same new key stood in the same block before.
    proof fn lemma_node_keys_separate(
        &self,
        keys: Seq<Vec<usize>>,
        fresh: bool,
        edge_before: Seq<usize>,
        node_before: Seq<usize>,
    )
        requires
            self.inv(),
            keys.len() == self.n(),
            forall|v: int| 0 <= v < self.n() ==> is_key(#[trigger] keys[v]@, self.dual@[v]@, self.edge_colours()),
            fresh ==> self.undivided(),
            !fresh ==> self.refining(edge_before, node_before),
        ensures
            separates(self.node_colours(), views_of(keys)),
    {
        self.lemma_colours();
        let col0 = self.node_colours();
        let kv = views_of(keys);
        let parts0 = self.hypergraph.node_structure_partitions@;
        assert forall|x: int, y: int|
            #![trigger kv[x], kv[y]]
            0 <= x < col0.len() && 0 <= y < col0.len() && kv[x] == kv[y] implies col0[x] == col0[y] by {
            if fresh {
                let i = lemma_colour_place(col0, self.node_map@, parts0, x);
                let j = lemma_colour_place(col0, self.node_map@, parts0, y);
            } else {
                self.lemma_node_pair(keys, edge_before, x, y);
                let kv0 = views_of(self.node_keys@);
                assert(kv0[x] == kv0[y]);
            }
        }
    }

    /// Two vertices with the same new key had the same key before.
    proof fn lemma_node_pair(&self, keys: Seq<Vec<usize>>, edge_before: Seq<usize>, x: int, y: int)
        requires
            is_dual(self.dual@, self.hypergraph.edges(), self.n()),
            self.edge_colours().len() == self.m(),
            self.node_keys@.len() == self.n(),
            keys.len() == self.n(),
            0 <= x < self.n(),
            0 <= y < self.n(),
            is_key(keys[x]@, self.dual@[x]@, self.edge_colours()),
            is_key(keys[y]@, self.dual@[y]@, self.edge_colours()),
            is_key(self.node_keys@[x]@, self.dual@[x]@, edge_before),
            is_key(self.node_keys@[y]@, self.dual@[y]@, edge_before),
            refines(self.edge_colours(), edge_before),
            keys[x]@ == keys[y]@,
        ensures
            self.node_keys@[x]@ == self.node_keys@[y]@,
    {
        assert forall|k: int| 0 <= k < self.dual@[x]@.len() implies (#[trigger] self.dual@[x]@[k])
            < self.edge_colours().len() by {
            assert(crate::hypergraph::is_edge_listing(self.dual@[x]@, self.hypergraph.edges(), x as nat));
        }
        assert forall|k: int| 0 <= k < self.dual@[y]@.len() implies (#[trigger] self.dual@[y]@[k])
            < self.edge_colours().len() by {
            assert(crate::hypergraph::is_edge_listing(self.dual@[y]@, self.hypergraph.edges(), y as nat));
        }
        lemma_coarser_key(
            keys[x]@,
            keys[y]@,
            self.node_keys@[x]@,
            self.node_keys@[y]@,
            self.dual@[x]@,
            self.dual@[y]@,
            self.edge_colours(),
            edge_before,
        );
    }

    /// After a round of refinement the vertices stand by their degree.
    proof fn lemma_round_by_degree(
        &self,
        after: &Self,
        fresh: bool,
        edge_before: Seq<usize>,
        node_before: Seq<usize>,
    )
        requires
            self.inv(),
            after.inv(),
            after.same_graph(self),
            forall|v: int|
                0 <= v < self.n() ==> is_key(#[trigger] after.node_keys@[v]@, self.dual@[v]@, self.edge_colours()),
            is_sorted_within(
                after.node_map@,
                self.node_map@,
                self.hypergraph.node_structure_partitions@,
                after.node_keys@,
            ),
            fresh ==> self.undivided(),
            !fresh ==> self.refining(edge_before, node_before),
        ensures
            crate::canon::lengths_rise(after.node_map@, after.dual@),
    {
        self.lemma_colours();
        let parts0 = self.hypergraph.node_structure_partitions@;
        if fresh {
            let ecol = self.edge_colours();
            let c = ecol[0];
            assert forall|v: int, t: int|
                0 <= v < self.n() && 0 <= t < self.dual@[v]@.len() implies ecol[#[trigger] self.dual@[v]@[t] as int]
                == c by {
                assert(crate::hypergraph::is_edge_listing(self.dual@[v]@, self.hypergraph.edges(), v as nat));
                let e = self.dual@[v]@[t] as int;
                let i = lemma_colour_place(ecol, self.edge_map@, self.hypergraph.edge_structure_partitions@, e);
                let j = lemma_colour_place(ecol, self.edge_map@, self.hypergraph.edge_structure_partitions@, 0);
            }
            assert(crate::canon::keys_rise(after.node_map@, after.node_keys@)) by {
                assert forall|i: int, j: int| 0 <= i < j < after.node_map@.len() implies !lex_less(
                    (#[trigger] after.node_keys@[after.node_map@[j] as int])@,
                    (#[trigger] after.node_keys@[after.node_map@[i] as int])@,
                ) by {
                    assert(in_block(parts0, 0, i));
                    assert(in_block(parts0, 0, j));
                }
            }
            crate::canon::lemma_sorted_by_length(after.node_map@, after.node_keys@, self.dual@, ecol, c);
        } else {
            lemma_sorted_holds_blocks(after.node_map@, self.node_map@, parts0, after.node_keys@);
            assert forall|v: int| 0 <= v < self.n() implies (#[trigger] self.node_keys@[v])@.len()
                == self.dual@[v]@.len() by {
                let p = choose|p: Seq<int>|
                    #[trigger] is_sorted_keys(
                        self.node_keys@[v]@,
                        colours_of(self.dual@[v]@, edge_before),
                        p,
                    );
            }
            crate::canon::lemma_lengths_stay(
                after.node_map@,
                self.node_map@,
                parts0,
                self.node_keys@,
                self.dual@,
                self.node_colours(),
            );
        }
    }

    /// Edges with the same new key stood in the same block before.
    proof fn lemma_edge_keys_separate(&self, keys: Seq<Vec<usize>>, fresh: bool, node_before: Seq<usize>)
        requires
            self.inv(),
            keys.len() == self.m(),
            forall|e: int|
                0 <= e < self.m() ==> is_edge_key(
                    #[trigger] keys[e]@,
                    self.hypergraph.edges()[e],
                    self.node_colours(),
                ),
            fresh ==> self.hypergraph.edge_structure_partitions@.len() == 2,
            !fresh ==> {
                &&& forall|e: int|
                    0 <= e < self.m() ==> is_edge_key(
                        #[trigger] self.edge_keys@[e]@,
                        self.hypergraph.edges()[e],
                        node_before,
                    )
                &&& separates(self.edge_colours(), views_of(self.edge_keys@))
                &&& refines(self.node_colours(), node_before)
            },
        ensures
            separates(self.edge_colours(), views_of(keys)),
    {
        self.lemma_colours();
        let col0 = self.edge_colours();
        let kv = views_of(keys);
        let parts0 = self.hypergraph.edge_structure_partitions@;
        let edges = self.hypergraph.edges();
        assert forall|x: int, y: int|
            #![trigger kv[x], kv[y]]
            0 <= x < col0.len() && 0 <= y < col0.len() && kv[x] == kv[y] implies col0[x] == col0[y] by {
            if fresh {
                let i = lemma_colour_place(col0, self.edge_map@, parts0, x);
                let j = lemma_colour_place(col0, self.edge_map@, parts0, y);
            } else {
                self.lemma_edge_pair(keys, node_before, x, y);
                let kv0 = views_of(self.edge_keys@);
                assert(kv0[x] == kv0[y]);
            }
        }
    }

    /// Two edges with the same new key had the same key before.
    proof fn lemma_edge_pair(&self, keys: Seq<Vec<usize>>, node_before: Seq<usize>, x: int, y: int)
        requires
            self.hypergraph.labelled(),
            self.node_colours().len() == self.n(),
            self.edge_keys@.len() == self.m(),
            keys.len() == self.m(),
            0 <= x < self.m(),
            0 <= y < self.m(),
            is_edge_key(keys[x]@, self.hypergraph.edges()[x], self.node_colours()),
            is_edge_key(keys[y]@, self.hypergraph.edges()[y], self.node_colours()),
            is_edge_key(self.edge_keys@[x]@, self.hypergraph.edges()[x], node_before),
            is_edge_key(self.edge_keys@[y]@, self.hypergraph.edges()[y], node_before),
            refines(self.node_colours(), node_before),
            keys[x]@ == keys[y]@,
        ensures
            self.edge_keys@[x]@ == self.edge_keys@[y]@,
    {
        let edges = self.hypergraph.edges();
        lemma_coarser_edge_key(
            keys[x]@,
            keys[y]@,
            self.edge_keys@[x]@,
            self.edge_keys@[y]@,
            edges[x],
            edges[y],
            self.node_colours(),
            node_before,
        );
    }

    /// What a round of refinement does to the edges.  `self` is the state
    /// once the vertices are refined and `after` the state once the edges
    /// are sorted by their new keys and cut into the runs of equal keys.
    #[verifier::rlimit(40)]
    pub proof fn lemma_edge_round(&self, after: &Self, fresh: bool, node_before: Seq<usize>)
        requires
            self.inv(),
            after.inv(),
            after.same_graph(self),
            after.node_map@ == self.node_map@,
            after.hypergraph.node_structure_partitions@ == self.hypergraph.node_structure_partitions@,
            after.node_keys@ == self.node_keys@,
            forall|e: int|
                0 <= e < self.m() ==> is_edge_key(
                    #[trigger] after.edge_keys@[e]@,
                    self.hypergraph.edges()[e],
                    self.node_colours(),
                ),
            is_sorted_within(
                after.edge_map@,
                self.edge_map@,
                self.hypergraph.edge_structure_partitions@,
                after.edge_keys@,
            ),
            forall|i: int|
                1 <= i < after.m() ==> (#[trigger] is_boundary(after.hypergraph.edge_structure_partitions@, i)
                    <==> keys_differ_at(after.edge_map@, after.edge_keys@, i)),
            fresh ==> self.hypergraph.edge_structure_partitions@.len() == 2,
            !fresh ==> {
                &&& forall|e: int|
                    0 <= e < self.m() ==> is_edge_key(
                        #[trigger] self.edge_keys@[e]@,
                        self.hypergraph.edges()[e],
                        node_before,
                    )
                &&& separates(self.edge_colours(), views_of(self.edge_keys@))
                &&& refines(self.node_colours(), node_before)
            },
        ensures
            separates(after.edge_colours(), views_of(after.edge_keys@)),
            uniform(after.edge_colours(), views_of(after.edge_keys@)),
            refines(after.edge_colours(), self.edge_colours()),
            after.node_colours() == self.node_colours(),
            self.hypergraph.edge_structure_partitions@.len() <= after.hypergraph.edge_structure_partitions@.len(),
            self.hypergraph.edge_structure_partitions@.len() == after.hypergraph.edge_structure_partitions@.len()
                ==> after.hypergraph.edge_structure_partitions@ == self.hypergraph.edge_structure_partitions@
                && after.edge_colours() == self.edge_colours(),
    {
        self.lemma_colours();
        after.lemma_colours();
        self.lemma_edge_keys_separate(after.edge_keys@, fresh, node_before);
        lemma_refined(
            self.edge_map@,
            after.edge_map@,
            self.hypergraph.edge_structure_partitions@,
            after.hypergraph.edge_structure_partitions@,
            after.edge_keys@,
            self.edge_colours(),
            after.edge_colours(),
        );
    }

    /// Refines both partitions in turn, the vertices by the classes of their
    /// edges and the edges by the classes of their vertices, as long as the
    /// number of classes grows.  Begun with both partitions uncut, it ends
    /// with classes that are stable.
    #[verifier::rlimit(40)]
    pub fn build_structural_eq_classes(&mut self)
        requires
            old(self).inv(),
        ensures
            final(self).inv(),
            final(self).same_graph(old(self)),
            final(self).classes_settled(),
            old(self).undivided() ==> final(self).classes_stable(),
            old(self).undivided() ==> coarsest(
                final(self).hypergraph.edges(),
                final(self).n(),
                final(self).node_colours(),
                final(self).edge_colours(),
            ),
            old(self).undivided() ==> crate::canon::lengths_rise(final(self).node_map@, final(self).dual@),
    {
        let ghost begun = old(self).undivided();
        proof {
            if begun {
                self.lemma_undivided_coarsest();
            }
        }
        let ghost fresh = true;
        let ghost edge_before: Seq<usize> = Seq::empty();
        let ghost node_before: Seq<usize> = Seq::empty();
        loop
            invariant
                self.inv(),
                self.same_graph(old(self)),
                begun == old(self).undivided(),
                begun && fresh ==> self.undivided(),
                begun && !fresh ==> self.refining(edge_before, node_before),
                begun ==> coarsest(self.hypergraph.edges(), self.n(), self.node_colours(), self.edge_colours()),
            decreases self.n() + self.m() + 2 - self.boundaries(),
        {
            let ghost start = *self;
            let old_partition_count: u128 = self.hypergraph.node_structure_partitions.len() as u128
                + self.hypergraph.edge_structure_partitions.len() as u128;

            fill_partition_map(&mut self.temp_buffer, &self.hypergraph.edge_structure_partitions);
            apply_inv_permutation(&self.temp_buffer, &mut self.key_map_buffer, &self.edge_map);
            proof {
                start.lemma_colours();
                assert forall|i: int| 0 <= i < self.m() implies in_block(
                    self.hypergraph.edge_structure_partitions@,
                    self.key_map_buffer@[#[trigger] self.edge_map@[i] as int] as int,
                    i,
                ) by {
                    assert(self.key_map_buffer@[self.edge_map@[i] as int] == self.temp_buffer@[i]);
                }
                lemma_one_colouring(
                    self.key_map_buffer@,
                    start.edge_colours(),
                    self.edge_map@,
                    self.hypergraph.edge_structure_partitions@,
                );
            }
            self.build_node_keys();
            self.sort_nodes();
            self.refine_nodes();
            let ghost mid = *self;
            proof {
                if begun {
                    start.lemma_node_round(&mid, fresh, edge_before, node_before);
                    lemma_nodes_stay_coarsest(
                        start.hypergraph.edges(),
                        start.n(),
                        start.dual@,
                        mid.node_keys@,
                        start.node_colours(),
                        mid.node_colours(),
                        start.edge_colours(),
                    );
                }
            }

            fill_partition_map(&mut self.temp_buffer, &self.hypergraph.node_structure_partitions);
            apply_inv_permutation(&self.temp_buffer, &mut self.key_map_buffer, &self.node_map);
            proof {
                mid.lemma_colours();
                assert forall|i: int| 0 <= i < self.n() implies in_block(
                    self.hypergraph.node_structure_partitions@,
                    self.key_map_buffer@[#[trigger] self.node_map@[i] as int] as int,
                    i,
                ) by {
                    assert(self.key_map_buffer@[self.node_map@[i] as int] == self.temp_buffer@[i]);
                }
                lemma_one_colouring(
                    self.key_map_buffer@,
                    mid.node_colours(),
                    self.node_map@,
                    self.hypergraph.node_structure_partitions@,
                );
            }
            self.build_edge_keys();
            self.sort_edges();
            self.refine_edges();

            let partition_count: u128 = self.hypergraph.node_structure_partitions.len() as u128
                + self.hypergraph.edge_structure_partitions.len() as u128;
            proof {
                lemma_partition_len(self.hypergraph.node_structure_partitions@, self.n());
                lemma_partition_len(self.hypergraph.edge_structure_partitions@, self.m());
                if begun {
                    mid.lemma_edge_round(self, fresh, node_before);
                    self.lemma_colours();
                    lemma_edges_stay_coarsest(
                        mid.hypergraph.edges(),
                        mid.n(),
                        self.edge_keys@,
                        mid.node_colours(),
                        mid.edge_colours(),
                        self.edge_colours(),
                    );
                    if partition_count > old_partition_count {
                        edge_before = start.edge_colours();
                        node_before = mid.node_colours();
                        fresh = false;
                        self.lemma_colours();
                        let col = self.node_colours();
                        assert(refines(col, node_before));
                    }
                }
            }
            if partition_count <= old_partition_count {
                return;
            }
        }
    }

    /// Settles the order inside the classes: sorts the vertices by the places
    /// of their edges and the edges by the places of their vertices, until
    /// nothing moves or the rounds are used up.
    #[verifier::rlimit(40)]
    pub fn sort_canonically(&mut self)
        requires
            old(self).inv(),
        ensures
            final(self).inv(),
            final(self).same_graph(old(self)),
            final(self).same_parts(old(self)),
            final(self).same_blocks(old(self)),
            final(self).order_settled(),
            exists|edges_then: Seq<usize>, rank: Seq<usize>| #[trigger] final(self).nodes_settled(edges_then, rank),
    {
        let mut round: usize = 0;
        proof {
            lemma_holds_own_blocks(self.node_map@, self.hypergraph.node_structure_partitions@);
            lemma_holds_own_blocks(self.edge_map@, self.hypergraph.edge_structure_partitions@);
        }
        while round < MAX_ITER
            invariant
                self.inv(),
                self.same_graph(old(self)),
                self.same_parts(old(self)),
                self.same_blocks(old(self)),
                round > 0 ==> self.order_settled(),
                round > 0 ==> exists|edges_then: Seq<usize>, rank: Seq<usize>| #[trigger]
                    self.nodes_settled(edges_then, rank),
            decreases MAX_ITER - round,
        {
            let ghost nodes_before = self.node_map@;
            let ghost edges_before = self.edge_map@;
            fill_inv_permutation(&mut self.key_map_buffer, &self.edge_map);
            reverse_ranks(&mut self.key_map_buffer, self.edge_map.len());
            copy_into(&mut self.temp_buffer, &self.node_map);
            let ghost rank = self.key_map_buffer@;
            proof {
                assert forall|p: int| 0 <= p < self.m() implies rank[#[trigger] self.edge_map@[p] as int] == self.m()
                    - 1 - p by {}
            }
            self.build_node_keys();
            let ghost node_keys_then = self.node_keys@;
            self.sort_nodes();
            let node_perm_unchanged = keys_equal(&self.temp_buffer, &self.node_map);

            fill_inv_permutation(&mut self.key_map_buffer, &self.node_map);
            reverse_ranks(&mut self.key_map_buffer, self.node_map.len());
            copy_into(&mut self.temp_buffer, &self.edge_map);
            proof {
                assert forall|i: int| 0 <= i < self.n() implies self.key_map_buffer@[#[trigger] self.node_map@[i] as int]
                    == self.n() - 1 - i by {}
            }
            self.build_edge_keys();
            self.sort_edges();
            let edge_perm_unchanged = keys_equal(&self.temp_buffer, &self.edge_map);
            proof {
                lemma_sorted_holds_blocks(
                    self.node_map@,
                    nodes_before,
                    self.hypergraph.node_structure_partitions@,
                    node_keys_then,
                );
                lemma_sorted_holds_blocks(
                    self.edge_map@,
                    edges_before,
                    self.hypergraph.edge_structure_partitions@,
                    self.edge_keys@,
                );
                lemma_holds_blocks(
                    self.node_map@,
                    nodes_before,
                    old(self).node_map@,
                    self.hypergraph.node_structure_partitions@,
                );
                lemma_holds_blocks(
                    self.edge_map@,
                    edges_before,
                    old(self).edge_map@,
                    self.hypergraph.edge_structure_partitions@,
                );
                assert(self.nodes_settled(edges_before, rank));
            }
            if edge_perm_unchanged && node_perm_unchanged {
                return;
            }
            round = round + 1;
        }
    }

    /// Finds the canonical order and hands back the hypergraph in it, with
    /// the order of the vertices and that of the edges.
    #[verifier::rlimit(40)]
    pub(crate) fn sort_tracked(self) -> (r: (StructuredHypergraph, Ghost<(Seq<usize>, Seq<usize>)>))
        requires
            self.ready(),
        ensures
            is_reordering(r.0, self.hypergraph, r.1@.0, r.1@.1),
            is_partition(r.0.node_structure_partitions@, self.n()),
            is_partition(r.0.edge_structure_partitions@, self.m()),
            crate::classes::classes_agree(
                r.0.edges(),
                r.0.node_structure_partitions@,
                r.0.edge_structure_partitions@,
            ),
            crate::classes::degrees_agree(r.0.edges(), r.0.node_structure_partitions@),
            crate::canon::in_canonical_order(
                r.0.edges(),
                self.n(),
                r.0.node_structure_partitions@,
                r.0.edge_structure_partitions@,
            ),
    {
        let ghost before = self;
        let mut s = self;
        let m = s.hypergraph.hyperedges.len();
        let n = s.hypergraph.nodes.len();
        if n == 0 || m == 0 {
            let mut edge_parts: Vec<usize> = Vec::new();
            if m > 0 {
                edge_parts.push(0);
                edge_parts.push(m);
            }
            let mut node_parts: Vec<usize> = Vec::new();
            if n > 0 {
                node_parts.push(0);
                node_parts.push(n);
            }
            s.hypergraph.edge_structure_partitions = edge_parts;
            s.hypergraph.node_structure_partitions = node_parts;
            let ghost node_map = Seq::new(n as nat, |i: int| i as usize);
            let ghost edge_map = Seq::new(m as nat, |i: int| i as usize);
            proof {
                assert(s.hypergraph.edges() == before.hypergraph.edges());
                crate::canon::lemma_nothing_to_sort(s.hypergraph, node_map, edge_map);
            }
            return (s.hypergraph, Ghost((node_map, edge_map)));
        }
        let mut edge_parts: Vec<usize> = Vec::new();
        edge_parts.push(0);
        edge_parts.push(m);
        let mut node_parts: Vec<usize> = Vec::new();
        node_parts.push(0);
        node_parts.push(n);
        s.hypergraph.edge_structure_partitions = edge_parts;
        s.hypergraph.node_structure_partitions = node_parts;
        proof {
            assert(s.hypergraph.edges() == before.hypergraph.edges());
        }

        s.sort_edges();
        s.sort_nodes();

        s.build_structural_eq_classes();
        let ghost colour = s.key_map_buffer@;
        let ghost class_keys = s.edge_keys@;
        let ghost degree_keys = s.node_keys@;
        let ghost nodes_then = s.node_map@;
        let ghost edges_then = s.edge_map@;
        let ghost settled = s;
        s.sort_canonically();
        let ghost (edges_before, rank_then) = choose|edges_then: Seq<usize>, rank: Seq<usize>| #[trigger]
            s.nodes_settled(edges_then, rank);
        let ghost order_keys = s.node_keys@;

        let ghost graph = s.hypergraph;
        s.hypergraph.apply_edge_map(s.edge_map.as_slice());
        let ghost shuffled = s.hypergraph;
        s.hypergraph.apply_node_map(s.node_map.as_slice());
        proof {
            assert forall|k: int| 0 <= k < s.edge_map@.len() implies #[trigger] s.hypergraph.edges()[k]
                == remapped(before.hypergraph.edges()[s.edge_map@[k] as int], s.node_map@) by {
                assert(shuffled.hyperedges@[k] == graph.hyperedges@[s.edge_map@[k] as int]);
                assert(shuffled.edges()[k] == before.hypergraph.edges()[s.edge_map@[k] as int]);
            }
            crate::classes::lemma_classes_agree(
                s.hypergraph.edges(),
                before.hypergraph.edges(),
                s.hypergraph.node_structure_partitions@,
                s.hypergraph.edge_structure_partitions@,
                colour,
                class_keys,
                nodes_then,
                edges_then,
                s.node_map@,
                s.edge_map@,
            );
            crate::classes::lemma_degrees_agree(
                s.hypergraph.edges(),
                before.hypergraph.edges(),
                s.hypergraph.node_structure_partitions@,
                degree_keys,
                s.dual@,
                nodes_then,
                s.node_map@,
                s.edge_map@,
            );
            settled.lemma_colours();
            crate::canon::lemma_classes_stable(
                s.hypergraph.edges(),
                before.hypergraph.edges(),
                s.hypergraph.node_structure_partitions@,
                s.hypergraph.edge_structure_partitions@,
                settled.node_colours(),
                settled.edge_colours(),
                settled.node_keys@,
                settled.edge_keys@,
                s.dual@,
                nodes_then,
                edges_then,
                s.node_map@,
                s.edge_map@,
            );
            crate::stable::lemma_colouring_stays(
                settled.node_colours(),
                s.node_map@,
                nodes_then,
                s.hypergraph.node_structure_partitions@,
            );
            crate::stable::lemma_colouring_stays(
                settled.edge_colours(),
                s.edge_map@,
                edges_then,
                s.hypergraph.edge_structure_partitions@,
            );
            assert forall|v: int| 0 <= v < settled.n() implies (#[trigger] settled.node_keys@[v])@.len()
                == settled.dual@[v]@.len() by {
                let p = choose|p: Seq<int>|
                    #[trigger] is_sorted_keys(
                        settled.node_keys@[v]@,
                        colours_of(settled.dual@[v]@, settled.edge_colours()),
                        p,
                    );
            }
            crate::canon::lemma_lengths_stay(
                s.node_map@,
                nodes_then,
                s.hypergraph.node_structure_partitions@,
                settled.node_keys@,
                s.dual@,
                settled.node_colours(),
            );
            crate::canon::lemma_degrees_rise(
                s.hypergraph.edges(),
                before.hypergraph.edges(),
                s.dual@,
                s.node_map@,
                s.edge_map@,
            );
            crate::coarsest::lemma_coarsest_blocks(
                s.hypergraph.edges(),
                before.hypergraph.edges(),
                s.hypergraph.node_structure_partitions@,
                s.hypergraph.edge_structure_partitions@,
                settled.node_colours(),
                settled.edge_colours(),
                s.node_map@,
                s.edge_map@,
            );
            crate::canon::lemma_vertices_in_order(
                s.hypergraph.edges(),
                before.hypergraph.edges(),
                s.hypergraph.node_structure_partitions@,
                s.hypergraph.edge_structure_partitions@,
                s.dual@,
                order_keys,
                rank_then,
                edges_before,
                s.node_map@,
                s.edge_map@,
            );
            crate::canon::lemma_edges_in_order(
                s.hypergraph.edges(),
                before.hypergraph.edges(),
                s.hypergraph.edge_structure_partitions@,
                s.key_map_buffer@,
                s.edge_keys@,
                s.node_map@,
                s.edge_map@,
            );
            reveal(crate::canon::in_canonical_order);
        }
        (s.hypergraph, Ghost((s.node_map@, s.edge_map@)))
    }

    /// Finds the canonical order and hands back the hypergraph in it.
    pub fn sort(self) -> (g: StructuredHypergraph)
        requires
            self.ready(),
        ensures
            exists|node_map: Seq<usize>, edge_map: Seq<usize>| #[trigger]
                is_reordering(g, self.hypergraph, node_map, edge_map),
            is_partition(g.node_structure_partitions@, self.n()),
            is_partition(g.edge_structure_partitions@, self.m()),
            crate::classes::classes_agree(
                g.edges(),
                g.node_structure_partitions@,
                g.edge_structure_partitions@,
            ),
            crate::classes::degrees_agree(g.edges(), g.node_structure_partitions@),
            crate::canon::in_canonical_order(
                g.edges(),
                self.n(),
                g.node_structure_partitions@,
                g.edge_structure_partitions@,
            ),
    {
        let (g, maps) = self.sort_tracked();
        g
    }
}

} // verus!
