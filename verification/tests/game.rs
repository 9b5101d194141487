use taking_game::bitset::Bitset128;
use taking_game::builder::Builder;
use taking_game::game::TakingGame;
use taking_game::hypergraph::{GameError, StructuredHypergraph};

fn one(b: Builder) -> TakingGame {
    b.build_one().unwrap().unwrap()
}

#[test]
fn symmetries_test_rect_4_8() {
    let g = one(Builder::rect(4, 8));
    assert!(g.find_symmetry().is_some());
}

#[test]
fn symmetries_test_hypercube_2_2() {
    let g = one(Builder::hyper_cube(2, 2));
    assert!(g.find_symmetry().is_some());
}

#[test]
fn symmetries_test_hypercube_2_4() {
    let g = one(Builder::hyper_cube(2, 4));
    assert!(g.find_symmetry().is_some());
}

#[test]
fn test_hypercube_4_2() {
    let g = one(Builder::hyper_cube(4, 2));
    assert!(g.find_symmetry().is_some());
}

#[test]
fn test_hypercube_7_2() {
    let g = one(Builder::hyper_cube(7, 2));
    assert!(g.find_symmetry().is_some());
}

#[test]
fn test_hypercube_2_7() {
    let g = one(Builder::hyper_cube(2, 7));
    assert!(g.find_symmetry().is_none());
}

#[test]
fn symmetries_test_hypercube_3_3() {
    let g = one(Builder::hyper_cube(3, 3));
    assert!(g.find_symmetry().is_none());
}

#[test]
fn symmetries_test_hypertetrahedron_16() {
    let g = one(Builder::hyper_tetrahedron(15));
    assert!(g.find_symmetry().is_none());
}

#[test]
fn impartial_test_simple_move_generation() {
    let g = one(Builder::from_hyperedges(vec![(0..5).collect()]));
    assert_eq!(g.get_split_moves().len(), 5);
}

#[test]
fn impartial_test_empty_game_move_generation() {
    let g = TakingGame::empty();
    assert_eq!(g.get_split_moves(), Vec::<Vec<TakingGame>>::new());
}

#[test]
fn impartial_test_unit_move_generation() {
    let g = one(Builder::unit());
    assert_eq!(g.get_split_moves(), vec![Vec::<TakingGame>::new()])
}

#[test]
fn test_split_node_remove() {
    let g = one(Builder::from_hyperedges(vec![vec![0, 2], vec![1, 2]]));
    let at = g.nodes().iter().position(|&n| n == 2).unwrap();
    let with_node_removed = g.with_nodes_removed(Bitset128::from_slice(&[at]));
    assert_eq!(with_node_removed.len(), 2);
}

#[test]
fn impartial_test_l_move_generation() {
    let g = Builder::from_hyperedges(vec![vec![0, 1], vec![1, 2]]);
    let mut splits: Vec<usize> = one(g).get_split_moves().iter().map(|split| split.len()).collect();
    splits.sort();
    assert_eq!(splits, vec![1, 1, 2]);
}

#[test]
fn test_kayles_16() {
    let g = one(Builder::kayles(9));
    let _move = g.with_nodes_removed(Bitset128(16));
    let mut moves: Vec<Vec<usize>> = g
        .get_split_moves()
        .iter()
        .map(|m| m.iter().flat_map(|s| s.nodes().to_vec()).collect())
        .collect();
    moves.iter_mut().for_each(|m| m.sort());
    assert!(!moves.is_empty());
}

#[test]
fn test_max_nimber_empty_and_unit() {
    assert!(Builder::empty().build_one().unwrap().is_none());

    let unit = one(Builder::unit());
    assert_eq!(unit.get_max_nimber(), Some(1));
}

#[test]
fn test_with_nodes_removed_basic() {
    let game = one(Builder::heap(3));
    let mut mask = Bitset128::default();
    mask.union(&Bitset128::from_slice(&[0])); // remove node 0
    let with_one_removed = game.with_nodes_removed(mask);
    assert_eq!(with_one_removed.len(), 1);
    assert_eq!(with_one_removed[0].nr_nodes(), 2);
}

#[test]
fn test_split_moves_single_edge() {
    // Graph with a single hyperedge of 5 nodes
    let g = one(Builder::from_hyperedges(vec![(0..5).collect()]));
    let moves = g.get_split_moves();

    // There should be 5 possible moves (removing 1..5 nodes),
    // each yielding exactly 1 connected component
    assert_eq!(moves.len(), 5);
}

#[test]
fn test_split_moves_two_edges() {
    let g = one(Builder::from_hyperedges(vec![(0..=4).collect(), (4..8).collect()]));
    let moves = g.get_split_moves();

    // Moves exist on each hyperedge independently
    assert!(!moves.is_empty());
    // Each move yields components, either 1 or 2
    assert!(moves.iter().all(|comp| !comp.is_empty() && comp.len() <= 2));
}

#[test]
fn test_split_moves_edge_overlap() {
    // Graph: edges overlap on one node
    let g = one(Builder::from_hyperedges(vec![vec![0, 1], vec![1, 2]]));
    let moves = g.get_split_moves();

    // Moves should still be non-empty
    assert!(!moves.is_empty());

    // At least some moves should result in multiple components
    assert!(moves.iter().any(|comp| comp.len() > 1));
}

#[test]
fn test_flatten() {
    let g = TakingGame::from_hyperedges(vec![vec![3, 5, 28]]).unwrap().into_iter().next().unwrap();
    assert_eq!(g.graph.hyperedges, vec![Bitset128(7)]);
    assert_eq!(g.graph.nodes, vec![3, 5, 28]);
}

#[test]
fn test_remove_redundant() {
    let g = one(Builder::from_hyperedges(vec![
        vec![1, 2, 3],
        vec![1, 2, 3],
        vec![1],
        vec![2, 3],
        vec![],
    ]));
    assert_eq!(g.graph.hyperedges, vec![Bitset128(7)]);
}

#[test]
fn test_basic_label_preservation() {
    let g = TakingGame::from_hyperedges_with_nodes(vec![vec![1, 3]], vec![0, 10, 0, 30])
        .unwrap()
        .into_iter()
        .next()
        .unwrap();
    assert_eq!(g.graph.hyperedges, vec![Bitset128(3)]);
    assert_eq!(g.graph.nodes, vec![10, 30]);
}

#[test]
fn new_test_split() {
    let splits = TakingGame::from_hyperedges(vec![vec![0], vec![1], Vec::new()]).unwrap();
    assert_eq!(splits.len(), 2);
    assert_eq!(splits[0].graph.nodes.len(), 1);
    assert_eq!(splits[1].graph.nodes.len(), 1);
}

#[test]
fn new_test_canonization() {
    let game1 = TakingGame::from_hyperedges(vec![vec![5, 2, 4], vec![0, 4], vec![0, 2]]).unwrap();
    let game2 = TakingGame::from_hyperedges(vec![vec![8, 1, 3], vec![3, 5], vec![1, 5]]).unwrap();
    assert_eq!(game1, game2); // should be true due to canonization
    let game1 = TakingGame::from_hyperedges(vec![vec![2, 4], vec![0, 4], vec![0, 2]]).unwrap();
    let game2 = TakingGame::from_hyperedges(vec![vec![1, 3], vec![3, 5], vec![1, 5]]).unwrap();
    assert_eq!(game1, game2);
}

#[test]
fn new_test_empty_game() {
    let empty_game = TakingGame::empty();
    assert_eq!(empty_game.graph.nodes.len(), 0);
    assert!(empty_game.graph.hyperedges.is_empty());
    assert_eq!(empty_game.nr_nodes(), 0);
}

#[test]
fn new_test_node_label_preservation_structured_example() {
    // Construct a game with uniquely identifiable nodes by membership profile
    let original_sets = vec![
        vec![10, 50],    // Set 0
        vec![50, 20, 3], // Set 1
        vec![20, 3, 4],  // Set 2
    ];

    // Create the canonicalized parent game
    let game = TakingGame::from_hyperedges(original_sets.clone()).unwrap().into_iter().next().unwrap();

    let mut new_node_10: usize = 0;
    let mut new_node_20: usize = 0;
    let mut new_node_50: usize = 0;

    let dual = game.hypergraph_dual();
    let edges = &game.graph.hyperedges;

    for (i, in_edges) in dual.iter().enumerate() {
        if in_edges.len() == 1 && edges[in_edges[0]].len() == 2 {
            new_node_10 = i;
        }
        // 20 is the only one in two sets of size 3
        if in_edges.len() == 2 && edges[in_edges[0]].len() == 3 && edges[in_edges[1]].len() == 3 {
            new_node_20 = i;
        }
        // 50 is the only node that is on two sets and a set that has size 2
        if in_edges.len() == 2 && (edges[in_edges[0]].len() == 2 || edges[in_edges[1]].len() == 2) {
            new_node_50 = i;
        }
    }

    assert_eq!(game.graph.nodes[new_node_10], 10);
    assert_eq!(game.graph.nodes[new_node_20], 20);
    assert_eq!(game.graph.nodes[new_node_50], 50);
}

#[test]
fn new_test_node_label_preservation_from_parent_structured_example() {
    // Construct a game with uniquely identifiable nodes by membership profile
    let original_sets = vec![
        vec![99, 10, 50],         // Set 0
        vec![50, 100, 20, 3, 99], // Set 1
        vec![20, 3, 4, 100],      // Set 2
    ];

    // Create the canonicalized parent game
    let parent_game =
        TakingGame::from_hyperedges(original_sets.clone()).unwrap().into_iter().next().unwrap();

    let mut new_hyperedges = parent_game.graph.hyperedges.clone();

    let new_node_99: u128 = 1 << parent_game.graph.nodes.iter().position(|n| *n == 99).unwrap();
    let new_node_100: u128 = 1 << parent_game.graph.nodes.iter().position(|n| *n == 100).unwrap();
    for e in new_hyperedges.iter_mut() {
        if new_node_99 & e.0 != 0 {
            e.0 &= !new_node_99;
        }
        if new_node_100 & e.0 != 0 {
            e.0 &= !new_node_100;
        }
    }
    let game = StructuredHypergraph::from_hyperedges_with_nodes(
        new_hyperedges,
        parent_game.graph.nodes.clone(),
    )
    .unwrap()
    .into_iter()
    .next()
    .unwrap();

    let mut new_node_10: usize = 0;
    let mut new_node_20: usize = 0;
    let mut new_node_50: usize = 0;

    let dual = game.dual();
    let edges = &game.hyperedges;

    for (i, in_edges) in dual.iter().enumerate() {
        // 10 is the only node that is in one set  and a set that has size 2
        if in_edges.len() == 1 && edges[in_edges[0]].len() == 2 {
            new_node_10 = i;
        }
        // 20 is the only one in two sets of size 3
        if in_edges.len() == 2 && edges[in_edges[0]].len() == 3 && edges[in_edges[1]].len() == 3 {
            new_node_20 = i;
        }
        // 50 is the only node that is on two sets and a set that has size 2
        if in_edges.len() == 2 && (edges[in_edges[0]].len() == 2 || edges[in_edges[1]].len() == 2) {
            new_node_50 = i;
        }
    }

    assert_eq!(game.nodes[new_node_10], 10);
    assert_eq!(game.nodes[new_node_20], 20);
    assert_eq!(game.nodes[new_node_50], 50);
}

#[test]
fn indices_from_128_on_are_refused() {
    assert_eq!(TakingGame::from_hyperedges(vec![vec![0, 128]]).err(), Some(GameError::TooLarge));
    assert_eq!(TakingGame::from_hyperesges(vec![vec![1000]]).err(), Some(GameError::TooLarge));
    assert!(TakingGame::from_hyperesges(vec![vec![127]]).is_ok());
    assert_eq!(
        TakingGame::from_hyperedges_with_nodes(vec![vec![0, 200]], vec![0]).err(),
        Some(GameError::TooLarge)
    );
    assert_eq!(
        TakingGame::from_hyperedges_with_nodes(vec![vec![0, 2]], vec![5, 6]).err(),
        Some(GameError::IllConfigured)
    );
}

#[test]
fn two_by_two_grid_has_a_mirror() {
    let g = TakingGame::from_hyperedges(vec![vec![0, 1], vec![2, 3], vec![0, 2], vec![1, 3]])
        .unwrap()
        .remove(0);
    let sigma = g.find_symmetry().unwrap();
    assert_eq!(sigma.len(), 4);
    for v in 0..4 {
        // an involution without fixed point that leaves no vertex in its edges
        assert_eq!(sigma[sigma[v]], v);
        assert!(sigma[v] != v);
        for e in &g.graph.hyperedges {
            assert!(!(e.contains(&v) && e.contains(&sigma[v])));
        }
    }
    assert_eq!(g.get_max_nimber(), Some(0));
}

#[test]
fn three_by_three_grid_has_no_mirror() {
    let g = one(Builder::rect(3, 3));
    assert!(g.find_symmetry().is_none());
    assert_eq!(g.get_max_nimber(), Some(9));
}

#[test]
fn moves_of_an_edge_count_the_choices() {
    // one edge of five and one of two that share a vertex: the shared vertex
    // is a class of its own
    let g = one(Builder::from_hyperedges(vec![vec![0, 1, 2, 3, 4], vec![4, 5]]));
    let moves: usize = (0..g.graph.hyperedges.len()).map(|e| g.get_moves_of_edge(e).len()).sum();
    // (4 + 1) * (1 + 1) - 1 in the large edge, (1 + 1) * (1 + 1) - 1 in the small one
    assert_eq!(moves, 9 + 3);
    assert_eq!(g.get_split_moves().len(), 12);
    for m in g.get_split_moves() {
        for part in m {
            assert!(part.nr_nodes() < g.nr_nodes());
        }
    }
}

#[test]
fn neighbourhoods_of_a_path() {
    let g = one(Builder::kayles(3));
    let nbs = g.get_neighbourhoods();
    let mut sizes: Vec<usize> = nbs.iter().map(|s| s.len()).collect();
    sizes.sort();
    assert_eq!(sizes, vec![2, 2, 3]);
    for (v, s) in nbs.iter().enumerate() {
        assert!(s.contains(&v));
    }
}

#[test]
fn clone_is_equal() {
    let g = one(Builder::rect(2, 3));
    let h = g.clone();
    assert_eq!(g, h);
    assert_eq!(g.graph.nodes, h.graph.nodes);
    assert_eq!(g.graph.node_structure_partitions, h.graph.node_structure_partitions);
}

#[test]
fn equal_games_hash_alike() {
    let mut seen = std::collections::HashSet::new();
    for edges in [
        vec![vec![5, 2, 4], vec![0, 4], vec![0, 2]],
        vec![vec![8, 1, 3], vec![3, 5], vec![1, 5]],
        vec![vec![0, 1]],
    ] {
        for g in TakingGame::from_hyperedges(edges).unwrap() {
            seen.insert(g);
        }
    }
    assert_eq!(seen.len(), 2);
}

#[test]
fn a_mirror_maps_every_edge_to_an_edge() {
    let boards = vec![
        one(Builder::rect(2, 2)),
        one(Builder::rect(4, 4)),
        one(Builder::hyper_cube(3, 2)),
    ];
    for g in boards {
        let sigma = g.find_symmetry().expect("these boards have a mirror");
        assert!(g.maps_edges_to_edges(&sigma));
        for (v, &w) in sigma.iter().enumerate() {
            assert_ne!(v, w);
            assert_eq!(sigma[w], v);
        }
    }
}

#[test]
fn a_pairing_that_moves_an_edge_off_the_edges_is_no_mirror() {
    let g = one(Builder::from_hyperedges(vec![vec![0, 1, 2], vec![2, 3]]));
    assert_eq!(g.nr_nodes(), 4);
    assert!(!g.maps_edges_to_edges(&vec![1, 0, 3, 2]));
    assert!(!g.maps_edges_to_edges(&vec![2, 3, 0, 1]));
    assert!(!g.maps_edges_to_edges(&vec![3, 2, 1, 0]));
    assert!(g.find_symmetry().is_none());
}

#[test]
fn the_vertices_of_one_edge_are_one_block() {
    for size in 1..20usize {
        let g = one(Builder::heap(size));
        assert_eq!(g.graph.get_node_partitions().len(), 1);
        assert_eq!(g.graph.get_edge_partitions().len(), 1);
        assert_eq!(g.get_split_moves().len(), size);
    }
}

#[test]
fn the_edges_fix_the_blocks_whatever_the_labels() {
    let edges = vec![vec![0, 1], vec![1, 2], vec![2, 3], vec![3, 4], vec![1, 5]];
    let plain = TakingGame::from_hyperedges(edges.clone()).unwrap();
    let labelled =
        TakingGame::from_hyperedges_with_nodes(edges.clone(), vec![50, 40, 30, 20, 10, 0]).unwrap();
    assert_eq!(plain.len(), 1);
    assert_eq!(labelled.len(), 1);
    assert_eq!(plain[0].graph.hyperedges, labelled[0].graph.hyperedges);
    assert_eq!(
        plain[0].graph.node_structure_partitions,
        labelled[0].graph.node_structure_partitions
    );
    assert_eq!(
        plain[0].graph.edge_structure_partitions,
        labelled[0].graph.edge_structure_partitions
    );
}

#[test]
fn the_search_stays_below_the_upper_bound() {
    let games = vec![
        one(Builder::heap(5)),
        one(Builder::kayles(6)),
        one(Builder::rect(2, 3)),
        one(Builder::rect(3, 3)),
        one(Builder::triangle(3)),
        one(Builder::hyper_tetrahedron(3)),
    ];
    let mut eval = taking_game::evaluator::Evaluator::new();
    for g in games {
        let n = eval.get_nimber(&g).unwrap();
        assert!(n <= g.get_max_nimber().unwrap());
        assert!(n <= g.nr_nodes());
    }
}

fn degree(g: &TakingGame, v: usize) -> usize {
    g.graph.hyperedges.iter().filter(|e| e.contains(&v)).count()
}

#[test]
fn the_vertices_stand_by_their_degree() {
    let games = vec![
        one(Builder::rect(3, 4)),
        one(Builder::triangle(4)),
        one(Builder::kayles(7)),
        one(Builder::hyper_tetrahedron(4)),
        one(Builder::from_hyperedges(vec![vec![0, 1], vec![1, 2], vec![1, 3, 4], vec![4, 5]])),
    ];
    for g in games {
        for v in 1..g.nr_nodes() {
            assert!(degree(&g, v - 1) <= degree(&g, v));
        }
    }
}

#[test]
fn vertices_of_one_block_lie_in_as_many_edges_of_each_block() {
    let g = one(Builder::from_hyperedges(vec![
        vec![0, 1],
        vec![1, 2],
        vec![2, 3],
        vec![3, 4],
        vec![4, 5],
        vec![5, 6],
        vec![6, 7],
        vec![7, 8],
    ]));
    let node_blocks = g.graph.get_node_partitions();
    let edge_blocks = g.graph.get_edge_partitions();
    assert_eq!(node_blocks.len(), 5);
    assert_eq!(edge_blocks.len(), 4);
    for block in &node_blocks {
        for eb in &edge_blocks {
            let counts: Vec<usize> = block
                .clone()
                .map(|v| eb.clone().filter(|&k| g.graph.hyperedges[k].contains(&v)).count())
                .collect();
            assert!(counts.iter().all(|&c| c == counts[0]));
        }
    }
    assert_eq!(g.get_split_moves().len(), 12);
}

#[test]
fn an_angle_of_two_edges_has_one_shape() {
    let inputs = vec![
        vec![vec![0, 1], vec![1, 2]],
        vec![vec![1, 2], vec![0, 1]],
        vec![vec![0, 2], vec![2, 1]],
        vec![vec![5, 9], vec![9, 7]],
    ];
    for edges in inputs {
        let g = one(Builder::from_hyperedges(edges));
        assert_eq!(g.graph.hyperedges, vec![Bitset128(0b110), Bitset128(0b101)]);
        assert_eq!(g.graph.node_structure_partitions, vec![0, 2, 3]);
        assert_eq!(g.graph.edge_structure_partitions, vec![0, 2]);
        assert_eq!(g.get_split_moves().len(), 3);
    }
}
