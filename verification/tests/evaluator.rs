use std::sync::atomic::Ordering;
use taking_game::bitset::Bitset128;
use taking_game::builder::Builder;
use taking_game::evaluator::Evaluator;
use taking_game::game::TakingGame;
use taking_game::nimber::{mex, nim_sum};

fn one(b: Builder) -> TakingGame {
    b.build_one().unwrap().unwrap()
}

fn one_or_empty(b: Builder) -> TakingGame {
    b.build_one().unwrap().unwrap_or(TakingGame::empty())
}

#[test]
fn unit_nimber() {
    let g = one(Builder::unit());
    let mut evaluator = Evaluator::new();
    let nimber = evaluator.get_nimber(&g);
    assert_eq!(nimber, Some(1));
}

#[test]
fn heap_nimbers() {
    let mut evaluator = Evaluator::new();
    for i in 1..=100 {
        let g = one(Builder::heap(i));
        let nimber = evaluator.get_nimber(&g);
        assert_eq!(nimber, Some(i));
    }
    assert_eq!(evaluator.get_cache_size(), 100);
}

#[test]
fn kayle_nimbers() {
    let kayle_nimbers: [[usize; 2]; 10] =
        [[1, 1], [2, 2], [3, 3], [4, 1], [5, 4], [7, 2], [8, 1], [9, 4], [10, 2], [15, 7]];
    let mut evaluator = Evaluator::new();
    for [i, ecpected_nimber] in kayle_nimbers {
        let g = one(Builder::kayles(i));
        let nimber = evaluator.get_nimber(&g);
        assert_eq!(nimber, Some(ecpected_nimber));
    }
}

#[test]
fn squares() {
    let mut evaluator = Evaluator::new();
    for i in 2..=6 {
        let g = one(Builder::rect(i, i));
        let nimber = evaluator.get_nimber(&g);
        assert_eq!(nimber, Some(0));
    }
}

#[test]
fn impartial_test_nimber_heaps() {
    let mut eval = Evaluator::new();

    for size in [0, 1, 2, 5, 10, 50] {
        let g = one_or_empty(Builder::heap(size));
        assert_eq!(eval.get_nimber(&g), Some(size));
    }
}

#[test]
fn test_s() {
    let mut eval = Evaluator::new();
    let g = one(Builder::from_hyperedges(vec![vec![0, 1], vec![1, 2], vec![2, 3]]));
    assert_eq!(eval.get_nimber(&g), Some(1));
}

#[test]
fn test_w() {
    let mut eval = Evaluator::new();
    let g = one(Builder::from_hyperedges(vec![vec![0, 1], vec![1, 2], vec![2, 3], vec![3, 4]]));
    assert_eq!(eval.get_nimber(&g), Some(4));
}

#[test]
fn testaalksdf() {
    let mut eval = Evaluator::new();
    let g = one(Builder::from_hyperedges(vec![
        vec![0, 1, 2, 3, 4, 5, 6, 7],
        vec![0, 8, 9, 10, 11, 12, 13, 14],
    ]));
    assert_eq!(eval.get_nimber(&g), Some(15));
}

#[test]
fn impartial_test_kayles() {
    let mut eval = Evaluator::new();
    for (size, nimber) in [0, 1, 2, 3, 1, 4, 3, 2, 1, 4, 2, 6].into_iter().enumerate() {
        let g = one_or_empty(Builder::kayles(size));
        assert_eq!(eval.get_nimber(&g), Some(nimber));
    }
}

#[test]
fn impartial_test_many() {
    let mut eval = Evaluator::new();
    let g = one(Builder::hyper_cube(2, 4));
    assert_eq!(eval.get_nimber(&g), Some(0));
    let g = one(Builder::rect(1, 2));
    assert_eq!(eval.get_nimber(&g), Some(2));
    let g = one(Builder::hyper_cube(2, 3));
    assert_eq!(eval.get_nimber(&g), Some(0));
    let g = one(Builder::kayles(40));
    assert_eq!(eval.get_nimber(&g), Some(1));
    let g = one(Builder::hyper_tetrahedron(2));
    assert_eq!(eval.get_nimber(&g), Some(0));
    let g = one(Builder::hyper_cuboid(vec![2, 2, 3]));
    assert_eq!(eval.get_nimber(&g), Some(0));
}

#[test]
fn test_many() {
    let mut eval = Evaluator::new();
    let g = one(Builder::hyper_cube(2, 4));
    assert_eq!(eval.get_nimber(&g), Some(0));
    let g = one(Builder::rect(1, 2));
    assert_eq!(eval.get_nimber(&g), Some(2));
    let g = one(Builder::hyper_cube(2, 3));
    assert_eq!(eval.get_nimber(&g), Some(0));
    let g = one(Builder::kayles(40));
    assert_eq!(eval.get_nimber(&g), Some(1));
    let g = one(Builder::hyper_tetrahedron(2));
    assert_eq!(eval.get_nimber(&g), Some(0));
    let g = one(Builder::hyper_cuboid(vec![2, 2, 3]));
    assert_eq!(eval.get_nimber(&g), Some(0));
}

#[test]
fn test_nimber_heaps() {
    let mut eval = Evaluator::new();

    for size in [0, 1, 2, 5, 10, 50] {
        let g = one_or_empty(Builder::heap(size));
        assert_eq!(eval.get_nimber(&g), Some(size));
    }
}

#[test]
fn other_known_values() {
    let mut eval = Evaluator::new();
    assert_eq!(eval.get_nimber(&one(Builder::rect(1, 10))), Some(10));
    assert_eq!(eval.get_nimber(&one(Builder::hyper_tetrahedron(10))), Some(2));
    assert_eq!(eval.get_nimber(&one(Builder::rect(3, 4))), Some(4));
}

#[test]
fn heaps_of_some_sizes() {
    let mut eval = Evaluator::new();
    for k in [1, 3, 4, 100, 101] {
        let edge: Vec<usize> = (0..k).collect();
        let g = TakingGame::from_hyperedges(vec![edge]).unwrap().remove(0);
        assert_eq!(eval.get_nimber(&g), Some(k));
    }
}

#[test]
fn two_by_two_grid_is_lost() {
    let g = TakingGame::from_hyperedges(vec![vec![0, 1], vec![2, 3], vec![0, 2], vec![1, 3]])
        .unwrap()
        .remove(0);
    assert!(g.find_symmetry().is_some());
    let mut eval = Evaluator::new();
    assert_eq!(eval.get_nimber(&g), Some(0));
    // a mirror settles it without a look at any move
    assert_eq!(eval.get_cache_size(), 1);
}

#[test]
fn three_by_three_grid_is_lost() {
    let edges = vec![
        vec![0, 1, 2],
        vec![3, 4, 5],
        vec![6, 7, 8],
        vec![0, 3, 6],
        vec![1, 4, 7],
        vec![2, 5, 8],
    ];
    let g = TakingGame::from_hyperedges(edges).unwrap().remove(0);
    assert!(g.find_symmetry().is_none());
    let mut eval = Evaluator::new();
    assert_eq!(eval.get_nimber(&g), Some(0));
}

#[test]
fn kayles_chain_of_nine() {
    let edges: Vec<Vec<usize>> = (0..8).map(|i| vec![i, i + 1]).collect();
    let g = TakingGame::from_hyperedges(edges).unwrap().remove(0);
    let mut eval = Evaluator::new();
    assert_eq!(eval.get_nimber(&g), Some(4));
}

#[test]
fn l_shape_is_the_mex_of_its_moves() {
    let g = TakingGame::from_hyperedges(vec![vec![0, 1], vec![1, 2]]).unwrap().remove(0);
    let moves = g.get_split_moves();
    let mut counts: Vec<usize> = moves.iter().map(|m| m.len()).collect();
    counts.sort();
    assert_eq!(counts, vec![1, 1, 2]);
    let mut eval = Evaluator::new();
    let values: Vec<usize> = moves.iter().map(|m| eval.get_nimber_of_games(m).unwrap()).collect();
    let expected = mex(&values);
    assert_eq!(eval.get_nimber(&g), Some(expected));
    assert_eq!(expected, 3);
}

#[test]
fn removal_that_splits() {
    let g = TakingGame::from_hyperedges(vec![vec![0, 2], vec![1, 2]]).unwrap().remove(0);
    let at = g.nodes().iter().position(|&n| n == 2).unwrap();
    let parts = g.with_nodes_removed(Bitset128::from_slice(&[at]));
    assert_eq!(parts.len(), 2);
    let mut labels: Vec<Vec<usize>> = parts.iter().map(|p| p.nodes().to_vec()).collect();
    labels.sort();
    assert_eq!(labels, vec![vec![0], vec![1]]);
    let mut eval = Evaluator::new();
    for p in &parts {
        assert_eq!(p.graph.hyperedges, vec![Bitset128(1)]);
        assert_eq!(eval.get_nimber(p), Some(1));
    }
    assert_eq!(eval.get_nimber_of_games(&parts), Some(0));
}

#[test]
fn same_heap_twice_adds_nothing() {
    let mut eval = Evaluator::new();
    let g = one(Builder::heap(7));
    assert_eq!(eval.get_nimber(&g), Some(7));
    let size = eval.get_cache_size();
    assert_eq!(size, 7);
    assert_eq!(eval.get_nimber(&g), Some(7));
    assert_eq!(eval.get_cache_size(), size);
}

#[test]
fn cache_only_grows() {
    let mut eval = Evaluator::new();
    let mut last = 0;
    for size in [3, 1, 6, 2, 6, 9] {
        let g = one(Builder::kayles(size));
        let first = eval.get_nimber(&g);
        assert!(eval.get_cache_size() >= last);
        last = eval.get_cache_size();
        assert_eq!(eval.get_nimber(&g), first);
        assert_eq!(eval.get_cache_size(), last);
    }
}

#[test]
fn sums_are_nim_sums() {
    let mut eval = Evaluator::new();
    let a = Builder::heap(5).sum(Builder::kayles(5)).build().unwrap();
    assert_eq!(a.len(), 2);
    let x = eval.get_nimber(&a[0]).unwrap();
    let y = eval.get_nimber(&a[1]).unwrap();
    assert_eq!(eval.get_nimber_of_games(&a), Some(x ^ y));
    assert_eq!(x ^ y, 5 ^ 4);
    let three = Builder::heap(16).sum(Builder::heap(8).sum(Builder::heap(7))).build().unwrap();
    assert_eq!(eval.get_nimber_of_games(&three), Some(31));
    assert_eq!(eval.get_nimber_of_games(&Vec::new()), Some(0));
}

#[test]
fn called_off_search_gives_nothing() {
    let mut eval = Evaluator::new();
    let g = one(Builder::heap(4));
    assert_eq!(eval.get_nimber_unless(true, &g), None);
    assert_eq!(eval.get_cache_size(), 0);
    assert_eq!(eval.get_nimber_unless(false, &g), Some(4));
    let flag = eval.get_cancel_flag();
    assert!(!eval.is_cancelled());
    flag.store(true, Ordering::Relaxed);
    assert!(eval.is_cancelled());
    let size = eval.get_cache_size();
    assert_eq!(eval.get_nimber(&g), None);
    assert_eq!(eval.get_nimber(&one(Builder::heap(9))), None);
    assert_eq!(eval.get_nimber_of_games(&vec![g]), None);
    assert_eq!(eval.get_cache_size(), size);
    flag.store(false, Ordering::Relaxed);
    assert_eq!(eval.get_nimber(&one(Builder::heap(9))), Some(9));
}

#[test]
fn mex_and_nim_sum() {
    assert_eq!(mex(&vec![]), 0);
    assert_eq!(mex(&vec![1, 2, 3]), 0);
    assert_eq!(mex(&vec![3, 0, 1, 1, 0, 5]), 2);
    assert_eq!(mex(&vec![2, 1, 0]), 3);
    assert_eq!(nim_sum(&vec![]), 0);
    assert_eq!(nim_sum(&vec![5, 3, 6]), 0);
    assert_eq!(nim_sum(&vec![16, 8, 7]), 31);
}

#[test]
fn empty_game_has_nimber_zero() {
    let mut eval = Evaluator::new();
    assert_eq!(eval.get_nimber(&TakingGame::empty()), Some(0));
    assert_eq!(eval.lookup(&vec![]), Some(0));
    assert_eq!(eval.lookup(&vec![Bitset128(1)]), None);
}

#[test]
fn what_is_remembered_is_given_again_and_nothing_added() {
    let g = one_or_empty(Builder::rect(2, 3));
    let mut eval = Evaluator::new();
    let first = eval.get_nimber(&g).unwrap();
    let size = eval.get_cache_size();
    assert!(size > 0);
    for _ in 0..3 {
        assert_eq!(eval.get_nimber(&g), Some(first));
        assert_eq!(eval.get_cache_size(), size);
    }
}

#[test]
fn labels_do_not_change_the_nimber() {
    let edges = vec![vec![0, 1, 2], vec![2, 3], vec![3, 4], vec![4, 0]];
    let plain = TakingGame::from_hyperedges(edges.clone()).unwrap();
    let labelled =
        TakingGame::from_hyperedges_with_nodes(edges, vec![9, 8, 7, 6, 5]).unwrap();
    let mut left = Evaluator::new();
    let mut right = Evaluator::new();
    assert_eq!(left.get_nimber(&plain[0]), right.get_nimber(&labelled[0]));
}
