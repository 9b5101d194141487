//! The evaluator: a search for nimbers that remembers what it has found and
//! can be called off.

use vstd::prelude::*;
use std::collections::HashMap;
use std::sync::atomic::AtomicBool;
use std::sync::Arc;
use crate::bitset::Bitset128;
use crate::game::TakingGame;
use crate::hypergraph::{copy_of, same_edges, StructuredHypergraph};
use crate::moves::{all_smaller, is_split_moves};
use crate::signal::StopSignal;
use crate::nimber::{
    has_edges, is_key_value, is_search, is_sum_of, is_sum_value, is_value, lemma_empty_has_symmetry,
    lemma_same_edges_same_size, lemma_size_bound, lemma_size_bound_below, mex, nim_sum,
    one_for_each, one_per_game, size_bound,
};

verus! {

/// One thing remembered: the edges of a position and its nimber.
pub struct CacheEntry {
    pub key: Vec<Bitset128>,
    pub value: usize,
}

/// A search for nimbers with its memory.  What it finds for a position
/// depends on the edges of the position alone, so it is remembered by them.
///
/// `entries` holds what was found, in the order in which it was found, each
/// position once.  `index` leads from the hash of the edges of a position to
/// the places in `entries` of the positions with that hash.  `cancel` holds
/// the flag by which the search is called off, and counts how often the
/// search has found the flag set.
pub struct Evaluator {
    pub entries: Vec<CacheEntry>,
    pub index: HashMap<u128, Vec<usize>>,
    pub cancel: StopSignal,
}

/// The number that the hash starts from.
pub const HASH_START: u128 = 0x6c62272e07bb014262b821756295c58d;

/// The number by which the hash is multiplied at each step.
pub const HASH_STEP: u128 = 0x0000000001000000000000000000013b;

/// The hash of a list of edges.
pub open spec fn hash_of(key: Seq<Bitset128>) -> u128
    decreases key.len(),
{
    if key.len() == 0 {
        HASH_START
    } else {
        (hash_of(key.drop_last()) ^ key.last().0).wrapping_mul(HASH_STEP)
    }
}

/// Computes the hash of a list of edges.
pub fn hash_edges(key: &Vec<Bitset128>) -> (h: u128)
    ensures
        h == hash_of(key@),
{
    let mut h: u128 = HASH_START;
    let mut i: usize = 0;
    while i < key.len()
        invariant
            i <= key@.len(),
            h == hash_of(key@.take(i as int)),
        decreases key@.len() - i,
    {
        h = (h ^ key[i].0).wrapping_mul(HASH_STEP);
        proof {
            assert(key@.take(i + 1).drop_last() =~= key@.take(i as int));
        }
        i = i + 1;
    }
    proof {
        assert(key@.take(i as int) =~= key@);
    }
    h
}

/// Whether `n` is remembered as the nimber of the edges `key`.
pub open spec fn holds(entries: Seq<CacheEntry>, key: Seq<Bitset128>, n: usize) -> bool {
    exists|i: int| 0 <= i < entries.len() && (#[trigger] entries[i]).key@ == key && entries[i].value == n
}

/// Whether anything is remembered of the edges `key`.
pub open spec fn knows(entries: Seq<CacheEntry>, key: Seq<Bitset128>) -> bool {
    exists|i: int| 0 <= i < entries.len() && (#[trigger] entries[i]).key@ == key
}

/// Whether `i` is in the list.
pub open spec fn lists(bucket: Seq<usize>, i: int) -> bool {
    exists|j: int| 0 <= j < bucket.len() && bucket[j] == i
}

/// Whether `n` is a nimber of some position with the edges `key`.
pub open spec fn is_nimber_of_edges(key: Seq<Bitset128>, n: usize) -> bool {
    exists|g: StructuredHypergraph| g.wf() && g.hyperedges@ == key && #[trigger] is_value(g, n)
}

impl Evaluator {
    /// Whether the memory is in order: no position is remembered twice, the
    /// index leads to every entry and to entries only, and what is
    /// remembered of a position is a nimber of it.
    pub open spec fn inv(&self) -> bool {
        &&& forall|i: int, j: int|
            0 <= i < j < self.entries@.len() ==> (#[trigger] self.entries@[i]).key@ != (
            #[trigger] self.entries@[j]).key@
        &&& forall|i: int|
            0 <= i < self.entries@.len() ==> self.index@.contains_key(
                hash_of((#[trigger] self.entries@[i]).key@),
            ) && lists(self.index@[hash_of(self.entries@[i].key@)]@, i)
        &&& forall|h: u128, j: int|
            self.index@.contains_key(h) && 0 <= j < self.index@[h]@.len() ==> (
            #[trigger] self.index@[h]@[j]) < self.entries@.len()
        &&& forall|i: int|
            0 <= i < self.entries@.len() ==> is_nimber_of_edges(
                (#[trigger] self.entries@[i]).key@,
                self.entries@[i].value,
            )
    }

    /// Whether the memory `self` holds all that `before` held, in place.
    pub open spec fn keeps(&self, before: &Self) -> bool {
        &&& before.entries@.len() <= self.entries@.len()
        &&& forall|i: int| 0 <= i < before.entries@.len() ==> #[trigger] self.entries@[i] == before.entries@[i]
    }

    /// An evaluator that remembers nothing and is not called off.
    pub fn new() -> (e: Self)
        ensures
            e.inv(),
            e.entries@.len() == 0,
    {
        Evaluator {
            entries: Vec::new(),
            index: HashMap::new(),
            cancel: StopSignal::new(),
        }
    }

    /// The number of positions whose nimber is remembered.
    pub fn get_cache_size(&self) -> (n: usize)
        ensures
            n == self.entries@.len(),
    {
        self.entries.len()
    }

    /// The flag by which the search is called off: once it is set, the
    /// search gives no further answer.
    pub fn get_cancel_flag(&self) -> (flag: Arc<AtomicBool>)
        ensures
            flag == self.cancel.flag(),
    {
        self.cancel.handle()
    }

    /// Whether the search has been called off.
    pub fn is_cancelled(&self) -> (b: bool) {
        self.cancel.is_set()
    }

    /// Looks whether the search has been called off, and counts it if so.
    pub fn poll(&mut self) -> (b: bool)
        ensures
            final(self).entries == old(self).entries,
            final(self).index == old(self).index,
            final(self).cancel.flag() == old(self).cancel.flag(),
            final(self).cancel.stops() == old(self).cancel.stops() + if b { 1nat } else { 0nat },
    {
        self.cancel.poll()
    }

    /// What is remembered of the edges `key`.
    pub fn lookup(&self, key: &Vec<Bitset128>) -> (r: Option<usize>)
        requires
            self.inv(),
        ensures
            r matches Some(n) ==> holds(self.entries@, key@, n),
            r is None ==> !knows(self.entries@, key@),
    {
        broadcast use vstd::std_specs::hash::group_hash_axioms;

        let h = hash_edges(key);
        match self.index.get(&h) {
            Some(bucket) => {
                let mut j: usize = 0;
                while j < bucket.len()
                    invariant
                        j <= bucket@.len(),
                        self.inv(),
                        self.index@.contains_key(h),
                        bucket@ == self.index@[h]@,
                        forall|k: int| 0 <= k < j ==> self.entries@[bucket@[k] as int].key@ != key@,
                    decreases bucket@.len() - j,
                {
                    let i = bucket[j];
                    if same_edges(&self.entries[i].key, key) {
                        return Some(self.entries[i].value);
                    }
                    j = j + 1;
                }
                proof {
                    if knows(self.entries@, key@) {
                        let i = choose|i: int|
                            0 <= i < self.entries@.len() && (#[trigger] self.entries@[i]).key@ == key@;
                        assert(lists(self.index@[hash_of(self.entries@[i].key@)]@, i));
                        let k = choose|k: int| 0 <= k < bucket@.len() && bucket@[k] == i;
                        assert(self.entries@[bucket@[k] as int].key@ != key@);
                    }
                }
                None
            },
            None => {
                proof {
                    if knows(self.entries@, key@) {
                        let i = choose|i: int|
                            0 <= i < self.entries@.len() && (#[trigger] self.entries@[i]).key@ == key@;
                        assert(self.index@.contains_key(hash_of(self.entries@[i].key@)));
                    }
                }
                None
            },
        }
    }

    /// Remembers `value` as the nimber of the edges `key`.
    pub fn store(&mut self, key: Vec<Bitset128>, value: usize)
        requires
            old(self).inv(),
            !knows(old(self).entries@, key@),
            is_nimber_of_edges(key@, value),
        ensures
            final(self).inv(),
            final(self).keeps(old(self)),
            final(self).entries@.len() == old(self).entries@.len() + 1,
            final(self).cancel.stops() == old(self).cancel.stops(),
            holds(final(self).entries@, key@, value),
    {
        broadcast use vstd::std_specs::hash::group_hash_axioms;

        let ghost before = *self;
        let ghost k = key@;
        let h = hash_edges(&key);
        let place = self.entries.len();
        let mut bucket: Vec<usize> = match self.index.get(&h) {
            Some(b) => b.clone(),
            None => Vec::new(),
        };
        let ghost had = bucket@;
        proof {
            if before.index@.contains_key(h) {
                assert(had =~= before.index@[h]@);
            }
        }
        bucket.push(place);
        self.index.insert(h, bucket);
        self.entries.push(CacheEntry { key, value });
        proof {
            let entries = self.entries@;
            assert(entries[place as int].key@ == k);
            assert forall|i: int, j: int| 0 <= i < j < entries.len() implies (#[trigger] entries[i]).key@
                != (#[trigger] entries[j]).key@ by {
                assert(entries[i] == before.entries@[i]);
                if j < place {
                    assert(entries[j] == before.entries@[j]);
                }
            }
            assert forall|i: int| 0 <= i < entries.len() implies self.index@.contains_key(
                hash_of((#[trigger] entries[i]).key@),
            ) && lists(self.index@[hash_of(entries[i].key@)]@, i) by {
                let hi = hash_of(entries[i].key@);
                if i < place {
                    assert(entries[i] == before.entries@[i]);
                    assert(lists(before.index@[hi]@, i));
                    let j = choose|j: int|
                        0 <= j < before.index@[hi]@.len() && before.index@[hi]@[j] == i;
                    if hi == h {
                        assert(self.index@[hi]@[j] == i);
                    } else {
                        assert(self.index@[hi] == before.index@[hi]);
                    }
                } else {
                    assert(self.index@[h]@[had.len() as int] == i);
                }
            }
            assert forall|x: u128, j: int|
                self.index@.contains_key(x) && 0 <= j < self.index@[x]@.len() implies (
            #[trigger] self.index@[x]@[j]) < entries.len() by {
                if x == h {
                    if j < had.len() {
                        assert(before.index@.contains_key(h));
                        assert(before.index@[h]@[j] < before.entries@.len());
                    }
                } else {
                    assert(before.index@.contains_key(x));
                    assert(self.index@[x] == before.index@[x]);
                    assert(before.index@[x]@[j] < before.entries@.len());
                }
            }
            assert forall|i: int| 0 <= i < entries.len() implies is_nimber_of_edges(
                (#[trigger] entries[i]).key@,
                entries[i].value,
            ) by {
                if i < place {
                    assert(entries[i] == before.entries@[i]);
                }
            }
        }
    }

    /// The nimber of the position, and nothing exactly where the search
    /// finds itself called off on the way.  What is found is remembered.
    pub fn get_nimber(&mut self, game: &TakingGame) -> (r: Option<usize>)
        requires
            old(self).inv(),
            game.wf(),
        ensures
            final(self).inv(),
            final(self).keeps(old(self)),
            r matches Some(n) ==> is_value(game.graph, n) && is_key_value(
                game.graph.hyperedges@,
                n,
                game.graph.nodes@.len(),
            ) && holds(final(self).entries@, game.graph.hyperedges@, n),
            r is Some ==> final(self).cancel.stops() == old(self).cancel.stops(),
            r is None ==> final(self).cancel.stops() == old(self).cancel.stops() + 1,
            forall|n: usize|
                holds(old(self).entries@, game.graph.hyperedges@, n) && r is Some ==> r == Some(n),
            knows(old(self).entries@, game.graph.hyperedges@) ==> final(self).entries@ == old(self).entries@,
            !knows(old(self).entries@, game.graph.hyperedges@) && game.graph.has_symmetry() && r is Some
                ==> r == Some(0usize),
        decreases game.graph.nodes@.len(), 1nat,
    {
        let cancelled = self.poll();
        self.get_nimber_unless(cancelled, game)
    }

    /// The nimber of the position, unless `cancelled` says that the search
    /// was called off when it was asked.  What is remembered of the position
    /// is the answer; else zero where the position has a mirror; else the
    /// least number that is not the nimber of what a representative move
    /// leads to.
    pub fn get_nimber_unless(&mut self, cancelled: bool, game: &TakingGame) -> (r: Option<usize>)
        requires
            old(self).inv(),
            game.wf(),
        ensures
            final(self).inv(),
            final(self).keeps(old(self)),
            cancelled ==> r is None && final(self).entries@ == old(self).entries@ && final(self).cancel.stops()
                == old(self).cancel.stops(),
            !cancelled && r is Some ==> final(self).cancel.stops() == old(self).cancel.stops(),
            !cancelled && r is None ==> final(self).cancel.stops() == old(self).cancel.stops() + 1,
            r matches Some(n) ==> is_value(game.graph, n) && is_key_value(
                game.graph.hyperedges@,
                n,
                game.graph.nodes@.len(),
            ) && holds(final(self).entries@, game.graph.hyperedges@, n),
            !cancelled ==> forall|n: usize|
                holds(old(self).entries@, game.graph.hyperedges@, n) ==> r == Some(n),
            !cancelled && knows(old(self).entries@, game.graph.hyperedges@) ==> final(self).entries@
                == old(self).entries@,
            !cancelled && !knows(old(self).entries@, game.graph.hyperedges@)
                && game.graph.has_symmetry() ==> r == Some(0usize),
        decreases game.graph.nodes@.len(), 0nat,
    {
        let ghost g = game.graph;
        if cancelled {
            return None;
        }
        match self.lookup(&game.graph.hyperedges) {
            Some(n) => {
                proof {
                    self.lemma_known(g, n);
                    crate::bound::lemma_key_value_is_value(g, n, g.nodes@.len());
                    assert forall|m: usize| holds(self.entries@, g.hyperedges@, m) implies m == n by {
                        self.lemma_one_value(g.hyperedges@, m, n);
                    }
                }
                return Some(n);
            },
            None => {},
        }
        proof {
            assert(!knows(self.entries@, g.hyperedges@));
            assert forall|n: usize| !holds(self.entries@, g.hyperedges@, n) by {
                if holds(self.entries@, g.hyperedges@, n) {
                    let i = choose|i: int|
                        0 <= i < self.entries@.len() && (#[trigger] self.entries@[i]).key@
                            == g.hyperedges@ && self.entries@[i].value == n;
                    assert(knows(self.entries@, g.hyperedges@));
                }
            }
        }
        let bound = game.get_max_nimber();
        if bound == Some(0) {
            proof {
                if !g.has_symmetry() {
                    lemma_empty_has_symmetry(g);
                }
                assert(is_value(g, 0));
                assert(has_edges(g, g.hyperedges@));
            }
            self.store(copy_of(&game.graph.hyperedges), 0);
            return Some(0);
        }
        proof {
            if g.nodes@.len() == 0 {
                lemma_empty_has_symmetry(g);
            }
        }
        let moves = game.get_split_moves();
        proof {
            assert forall|j: int| 0 <= j < moves@.len() implies size_bound((#[trigger] moves@[j])@)
                < g.nodes@.len() by {
                assert forall|c: int| 0 <= c < moves@[j]@.len() implies (#[trigger] moves@[j]@[c]).graph.nodes@.len()
                    < g.nodes@.len() by {
                    assert(moves@[j]@[c].wf());
                }
                lemma_size_bound_below(moves@[j]@, g.nodes@.len());
            }
        }
        let mut values: Vec<usize> = Vec::with_capacity(moves.len());
        let mut k: usize = 0;
        while k < moves.len()
            invariant
                k <= moves@.len(),
                values@.len() == k,
                self.inv(),
                self.keeps(old(self)),
                self.cancel.stops() == old(self).cancel.stops(),
                !knows(old(self).entries@, g.hyperedges@),
                !cancelled,
                !g.has_symmetry(),
                g == game.graph,
                game.wf(),
                g.nodes@.len() >= 1,
                is_split_moves(moves@, g),
                all_smaller(moves@, g),
                forall|j: int| 0 <= j < moves@.len() ==> size_bound((#[trigger] moves@[j])@) < g.nodes@.len(),
                forall|j: int| 0 <= j < k ==> is_sum_value(moves@[j]@, #[trigger] values@[j]),
            decreases moves@.len() - k,
        {
            let ghost found = values@;
            match self.get_nimber_of_games(&moves[k]) {
                Some(v) => {
                    values.push(v);
                },
                None => {
                    return None;
                },
            }
            k = k + 1;
            proof {
                assert forall|j: int| 0 <= j < k implies is_sum_value(
                    moves@[j]@,
                    #[trigger] values@[j],
                ) by {
                    if j < k - 1 {
                        assert(values@[j] == found[j]);
                    }
                }
            }
        }
        let n = mex(&values);
        proof {
            crate::moves::lemma_moves_have_shapes(moves@, g);
            assert(one_for_each(moves@, values@));
            assert(is_search(g, moves@, values@, n));
            assert(!g.has_symmetry());
            assert(is_value(g, n));
            assert(has_edges(g, g.hyperedges@));
        }
        match self.lookup(&game.graph.hyperedges) {
            Some(known) => {
                proof {
                    self.lemma_known(g, known);
                    crate::bound::lemma_key_value_is_value(g, known, g.nodes@.len());
                }
                Some(known)
            },
            None => {
                self.store(copy_of(&game.graph.hyperedges), n);
                Some(n)
            },
        }
    }

    /// The nimber of the sum of the games: the nim-sum of their nimbers.
    /// Nothing exactly where the search finds itself called off on the way.
    pub fn get_nimber_of_games(&mut self, games: &Vec<TakingGame>) -> (r: Option<usize>)
        requires
            old(self).inv(),
            forall|c: int| 0 <= c < games@.len() ==> (#[trigger] games@[c]).wf(),
        ensures
            final(self).inv(),
            final(self).keeps(old(self)),
            r matches Some(v) ==> is_sum_value(games@, v),
            r is Some ==> final(self).cancel.stops() == old(self).cancel.stops(),
            r is None ==> final(self).cancel.stops() == old(self).cancel.stops() + 1,
        decreases size_bound(games@), 2nat,
    {
        if self.poll() {
            return None;
        }
        let mut ws: Vec<usize> = Vec::with_capacity(games.len());
        let mut c: usize = 0;
        while c < games.len()
            invariant
                c <= games@.len(),
                ws@.len() == c,
                self.inv(),
                self.keeps(old(self)),
                self.cancel.stops() == old(self).cancel.stops(),
                forall|c: int| 0 <= c < games@.len() ==> (#[trigger] games@[c]).wf(),
                forall|d: int|
                    0 <= d < c ==> is_key_value(
                        (#[trigger] games@[d]).graph.hyperedges@,
                        ws@[d],
                        size_bound(games@),
                    ),
            decreases games@.len() - c,
        {
            proof {
                lemma_size_bound(games@, c as int);
            }
            match self.get_nimber(&games[c]) {
                Some(w) => {
                    proof {
                        let key = games@[c as int].graph.hyperedges@;
                        let h = choose|h: StructuredHypergraph|
                            #[trigger] has_edges(h, key) && h.nodes@.len()
                                <= games@[c as int].graph.nodes@.len() && is_value(h, w);
                        assert(has_edges(h, key) && h.nodes@.len() <= size_bound(games@) && is_value(
                            h,
                            w,
                        ));
                    }
                    ws.push(w);
                },
                None => {
                    return None;
                },
            }
            c = c + 1;
        }
        let v = nim_sum(&ws);
        proof {
            assert(one_per_game(games@, ws@));
            assert(is_sum_of(games@, ws@, v));
        }
        Some(v)
    }

    /// What is remembered of a position is a nimber of it.
    pub proof fn lemma_known(&self, g: StructuredHypergraph, n: usize)
        requires
            self.inv(),
            g.wf(),
            holds(self.entries@, g.hyperedges@, n),
        ensures
            is_key_value(g.hyperedges@, n, g.nodes@.len()),
    {
        let i = choose|i: int|
            0 <= i < self.entries@.len() && (#[trigger] self.entries@[i]).key@ == g.hyperedges@
                && self.entries@[i].value == n;
        assert(is_nimber_of_edges(self.entries@[i].key@, self.entries@[i].value));
        let h = choose|h: StructuredHypergraph|
            h.wf() && h.hyperedges@ == g.hyperedges@ && #[trigger] is_value(h, n);
        lemma_same_edges_same_size(g, h);
        assert(has_edges(h, g.hyperedges@));
    }

    /// Of a position one nimber is remembered, not two.
    pub proof fn lemma_one_value(&self, key: Seq<Bitset128>, m: usize, n: usize)
        requires
            self.inv(),
            holds(self.entries@, key, m),
            holds(self.entries@, key, n),
        ensures
            m == n,
    {
        let i = choose|i: int|
            0 <= i < self.entries@.len() && (#[trigger] self.entries@[i]).key@ == key
                && self.entries@[i].value == m;
        let j = choose|j: int|
            0 <= j < self.entries@.len() && (#[trigger] self.entries@[j]).key@ == key
                && self.entries@[j].value == n;
        if i < j {
            assert(self.entries@[i].key@ != self.entries@[j].key@);
        } else if j < i {
            assert(self.entries@[j].key@ != self.entries@[i].key@);
        }
    }
}

} // verus!
