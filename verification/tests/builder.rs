use taking_game::builder::Builder;
use taking_game::hypergraph::GameError;
use taking_game::known_games::{get_known_games, get_test_games, KnownGame};

#[test]
fn test_empty_unit_heap() {
    let empty = Builder::empty();
    assert_eq!(empty.hyperedges, vec![Vec::<usize>::new()]);
    assert_eq!(empty.get_nodes(), Vec::<usize>::new());

    let unit = Builder::unit();
    assert_eq!(unit.hyperedges, vec![vec![0]]);
    assert_eq!(unit.get_nodes(), vec![0]);

    let heap = Builder::heap(3);
    assert_eq!(heap.hyperedges, vec![vec![0, 1, 2]]);
    assert_eq!(heap.get_nodes(), vec![0, 1, 2]);
}

#[test]
fn mod_test_kayles() {
    let g0 = Builder::kayles(0);
    assert_eq!(g0.hyperedges, vec![Vec::<usize>::new()]);

    let g1 = Builder::kayles(1);
    assert_eq!(g1.hyperedges, vec![vec![0]]);

    let g3 = Builder::kayles(3);
    assert_eq!(g3.hyperedges, vec![vec![0, 1], vec![1, 2]]);
    let nodes: Vec<usize> = g3.get_nodes();
    assert_eq!(nodes, vec![0, 1, 2]);
}

#[test]
fn test_connect_unit_to_all() {
    let base = Builder::unit();
    let g = base.connect_unit_to_all();
    let nodes = g.get_nodes();
    assert!(nodes.len() >= 2);
    for e in &g.hyperedges {
        assert!(!e.is_empty());
    }
    assert_eq!(g.hyperedges, vec![vec![0], vec![1], vec![0, 1]]);
}

#[test]
fn test_fully_connect() {
    let a = Builder::unit();
    let b = Builder::heap(2);
    let max_node_a = a.get_max_node();
    let c = a.fully_connect(&b);
    let nodes = c.get_nodes();
    assert!(nodes.len() >= 3); // 1 from a, 2 from b
                               // Each node from a should be connected to each node from b
    let max_node_b = b.get_max_node();
    for e in &c.hyperedges {
        for &n in e {
            assert!(n <= max_node_a + max_node_b + 1);
        }
    }
    assert_eq!(c.hyperedges, vec![vec![0], vec![1, 2], vec![0, 1], vec![0, 2]]);
}

#[test]
fn test_extrude() {
    let base = Builder::unit();
    let extruded = base.extrude(3);
    let nodes = extruded.get_nodes();
    assert!(nodes.len() > 1);
    // All layers contain at least the first node
    for i in 0..3 {
        assert!(nodes.contains(&(i)));
    }
    assert_eq!(extruded.hyperedges, vec![vec![0], vec![0], vec![1], vec![2], vec![0, 1, 2]]);
}

#[test]
fn test_triangle_rect_hypercube() {
    let tri = Builder::triangle(3);
    assert!(!tri.hyperedges.is_empty());

    let rect = Builder::rect(2, 3);
    assert!(!rect.hyperedges.is_empty());

    let cube = Builder::hyper_cube(2, 2);
    assert!(!cube.hyperedges.is_empty());
}

#[test]
fn test_hyper_tetrahedron() {
    let tet = Builder::hyper_tetrahedron(2);
    assert!(!tet.hyperedges.is_empty());
    assert!(!tet.get_nodes().is_empty());
}

#[test]
fn test_get_max_node() {
    let c = Builder::from_hyperedges(vec![vec![1, 2], vec![3]]);
    assert_eq!(c.get_max_node(), 3);

    let empty = Builder::empty();
    assert_eq!(empty.get_max_node(), 0);
}

#[test]
fn test_build_and_build_one() {
    let c = Builder::unit();
    let games = c.build().unwrap();
    assert!(!games.is_empty());
    let c = Builder::unit();
    let one_game = c.build_one().unwrap();
    assert!(one_game.is_some());
    assert_eq!(one_game.unwrap().nr_nodes(), 1);
}

#[test]
fn test_rand() {
    let r = Builder::rand(5, 3, 1, 3);
    let nodes = r.get_nodes();
    assert!(nodes.len() <= 5);
    assert!(r.hyperedges.len() == 3);
    for e in &r.hyperedges {
        for &n in e {
            assert!(n < 5);
        }
    }
}

#[test]
fn triangle_of_side_three() {
    let tri = Builder::triangle(3);
    assert_eq!(
        tri.hyperedges,
        vec![
            vec![0, 3, 6],
            vec![0, 1, 2],
            vec![2, 4, 6],
            vec![1, 4],
            vec![3, 4],
            vec![1, 3],
            vec![2],
            vec![6],
            vec![0],
        ]
    );
}

#[test]
fn rect_two_by_three() {
    let rect = Builder::rect(2, 3);
    assert_eq!(rect.get_max_node(), 5);
    assert_eq!(rect.get_nodes(), vec![0, 1, 2, 3, 4, 5]);
    assert_eq!(
        rect.hyperedges,
        vec![
            vec![0],
            vec![0],
            vec![1],
            vec![0, 1],
            vec![0],
            vec![2],
            vec![4],
            vec![0],
            vec![2],
            vec![4],
            vec![1],
            vec![3],
            vec![5],
            vec![0, 1],
            vec![2, 3],
            vec![4, 5],
            vec![0, 2, 4],
            vec![1, 3, 5],
        ]
    );
    assert_eq!(Builder::rect(0, 3).hyperedges, vec![Vec::<usize>::new()]);
    assert_eq!(Builder::hyper_cuboid(vec![]).hyperedges, vec![vec![0]]);
    assert_eq!(Builder::hyper_cube(3, 0).hyperedges, vec![Vec::<usize>::new()]);
}

#[test]
fn sum_puts_the_second_beside_the_first() {
    let s = Builder::heap(2).sum(Builder::kayles(3));
    assert_eq!(s.hyperedges, vec![vec![0, 1], vec![2, 3], vec![3, 4]]);
    let games = s.build().unwrap();
    assert_eq!(games.len(), 2);
}

#[test]
fn nodes_of_unsorted_edges() {
    let b = Builder::from_hyperedges(vec![vec![9, 3, 3], vec![], vec![7, 3, 1]]);
    assert_eq!(b.get_nodes(), vec![1, 3, 7, 9]);
    assert_eq!(b.get_max_node(), 9);
}

#[test]
fn build_refuses_what_does_not_fit() {
    assert_eq!(Builder::heap(129).build().err(), Some(GameError::TooLarge));
    assert_eq!(Builder::rect(16, 16).build_one().err(), Some(GameError::TooLarge));
    assert_eq!(Builder::hyper_cube(2, 32).build_one().err(), Some(GameError::TooLarge));
    assert!(Builder::heap(128).build().is_ok());
    assert!(Builder::empty().build_one().unwrap().is_none());
    assert!(KnownGame::from_builder(Builder::from_hyperedges(vec![vec![128]])).is_err());
}

#[test]
fn build_one_takes_the_largest() {
    let b = Builder::from_hyperedges(vec![vec![0, 1], vec![2, 3, 4], vec![5]]);
    let g = b.build_one().unwrap().unwrap();
    assert_eq!(g.nr_nodes(), 3);
    assert_eq!(g.nodes().to_vec(), vec![2, 3, 4]);
}

#[test]
fn known_games_agree_with_the_symmetry_search() {
    let known = get_known_games();
    assert_eq!(known.len(), 13);
    for k in &known {
        assert!(k.check_symmetry());
        assert!(!k.get_parts().is_empty());
    }
    assert!(known[0].check_nimber(3));
    assert!(!known[0].check_nimber(4));
    assert!(known[7].check_nimber(17));
    // three heaps side by side
    assert_eq!(known[4].get_parts().len(), 3);
}

#[test]
fn equal_parts_cancel_in_the_symmetry_check() {
    // two heaps of three have no mirror each, but cancel each other
    let twice = KnownGame::from_builder(Builder::heap(3).sum(Builder::heap(3))).unwrap();
    assert!(twice.symmetric().check_symmetry());
    let twice = KnownGame::from_builder(Builder::heap(3).sum(Builder::heap(3))).unwrap();
    assert!(!twice.not_symmetric().check_symmetry());
    let once = KnownGame::from_builder(Builder::heap(3)).unwrap();
    assert!(once.check_symmetry());
    let once = KnownGame::from_builder(Builder::heap(3)).unwrap().nimber(3);
    assert!(!once.symmetric().check_symmetry());
}

#[test]
fn sample_games_agree_with_the_symmetry_search() {
    let samples = get_test_games();
    assert_eq!(samples.len(), 11);
    for (game, _, symmetry) in &samples {
        assert_eq!(Some(game.find_symmetry().is_some()), *symmetry);
    }
    assert_eq!(samples[2].0.nr_nodes(), 100);
    assert_eq!(samples[2].1, Some(100));
    assert_eq!(samples[10].0.nr_nodes(), 25);
    assert_eq!(samples[6].1, None);
}

#[test]
fn a_random_game_holds_each_vertex_often_enough() {
    for round in 0..20usize {
        let nodes = 3 + round;
        let sets = 2 + round % 5;
        let least = 1 + round % 3;
        let most = least + 1 + round % 4;
        let b = Builder::rand(nodes, sets, least, most);
        assert_eq!(b.hyperedges.len(), sets);
        for v in 0..nodes {
            let times: usize = b
                .hyperedges
                .iter()
                .map(|e| e.iter().filter(|&&x| x == v).count())
                .sum();
            assert!(least <= times && times < most);
        }
        for e in &b.hyperedges {
            assert!(e.iter().all(|&x| x < nodes));
        }
    }
}

#[test]
fn the_lists_hold_the_games_of_their_shapes() {
    let samples = get_test_games();
    assert_eq!(samples[0].0, Builder::rect(1, 3).build_one().unwrap().unwrap());
    assert_eq!(samples[2].0, Builder::rect(100, 1).build_one().unwrap().unwrap());
    assert_eq!(samples[4].0, Builder::rect(2, 2).build_one().unwrap().unwrap());
    assert_eq!(samples[9].0, Builder::hyper_cube(3, 2).build_one().unwrap().unwrap());
    assert_eq!(samples[10].0, Builder::rect(5, 5).build_one().unwrap().unwrap());
    let known = get_known_games();
    assert_eq!(known[2].get_parts().to_vec(), Builder::heap(100).build().unwrap());
    assert_eq!(
        known[4].get_parts().to_vec(),
        Builder::heap(16).sum(Builder::heap(8).sum(Builder::heap(7))).build().unwrap()
    );
    assert_eq!(known[12].get_parts().to_vec(), Builder::hyper_tetrahedron(10).build().unwrap());
}
