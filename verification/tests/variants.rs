use taking_game::builder::Builder;
use taking_game::game::TakingGame;

fn one(b: Builder) -> TakingGame {
    b.build_one().unwrap().unwrap()
}

#[test]
fn test_rect_4_8() {
    let g = one(Builder::rect(4, 8));
    assert!(g.find_symmetry().is_some());
}

#[test]
fn test_hypercube_2_2() {
    let g = Builder::hyper_cube(2, 2).build().unwrap().remove(0);
    assert!(g.find_symmetry().is_some());
}

#[test]
fn test_hypercube_2_4() {
    let g = Builder::hyper_cube(2, 4).build().unwrap().remove(0);
    assert!(g.find_symmetry().is_some());
}

#[test]
fn test_hypercube_3_3() {
    let g = Builder::hyper_cube(3, 3).build().unwrap().remove(0);
    assert!(g.find_symmetry().is_none());
}

#[test]
fn test_hypertetrahedron_16() {
    let g = Builder::hyper_tetrahedron(15).build().unwrap().remove(0);
    assert!(g.find_symmetry().is_none());
}

#[test]
fn test_simple_move_generation() {
    let g = TakingGame::from_hyperedges(vec![(0..5).collect()]).unwrap().into_iter().next().unwrap();
    assert_eq!(g.get_split_moves().len(), 5);
}

#[test]
fn test_empty_game_move_generation() {
    let g = TakingGame::empty();
    assert_eq!(g.get_split_moves(), Vec::<Vec<TakingGame>>::new());
}

#[test]
fn test_unit_move_generation() {
    let g = Builder::unit().build().unwrap().remove(0);
    assert_eq!(g.get_split_moves(), vec![Vec::<TakingGame>::new()])
}

#[test]
fn test_l_move_generation() {
    let g = one(Builder::from_hyperedges(vec![vec![0, 1], vec![1, 2]]));
    let mut moves: Vec<usize> = g.get_split_moves().iter().map(|m| m.len()).collect();
    moves.sort();
    assert_eq!(moves, vec![1, 1, 2])
}

#[test]
fn test_kayles() {
    let g = one(Builder::kayles(9));
    let mut moves: Vec<Vec<usize>> = g
        .get_split_moves()
        .iter()
        .map(|m| m.iter().flat_map(|s| s.graph.nodes.clone()).collect())
        .collect();
    moves.iter_mut().for_each(|m| m.sort());
    for m in &moves {
        assert!(m.len() < 9);
    }
}

#[test]
fn test_split() {
    let splits = TakingGame::from_hyperesges(vec![vec![0], vec![1], Vec::new()]).unwrap();
    assert_eq!(splits.len(), 2);
    assert_eq!(splits[0].nodes().len(), 1);
    assert_eq!(splits[1].nodes().len(), 1);
}

#[test]
fn test_canonization() {
    let game1 = TakingGame::from_hyperedges(vec![vec![2, 4], vec![0, 4], vec![0, 2]]).unwrap();
    let game2 = TakingGame::from_hyperedges(vec![vec![1, 3], vec![3, 5], vec![1, 5]]).unwrap();
    assert_eq!(game1, game2); // should be true due to canonization
}

#[test]
fn test_empty_game() {
    let empty_game = TakingGame::empty();
    assert_eq!(empty_game.graph.nodes.len(), 0);
    assert!(empty_game.graph.hyperedges.is_empty());
    assert!(empty_game.graph.hyperedges.is_empty());
}

#[test]
fn test_node_label_preservation_structured_example() {
    // Construct a game with uniquely identifiable nodes by membership profile
    let original_sets = vec![
        vec![10, 50],    // Set 0
        vec![50, 20, 3], // Set 1
        vec![20, 3, 4],  // Set 2
    ];

    // Create the canonicalized parent game
    let game = TakingGame::from_hyperedges(original_sets.clone()).unwrap().into_iter().next().unwrap();

    let mut new_node_10: usize = 0;
    let mut new_node_20: usize = 0;
    let mut new_node_50: usize = 0;

    let dual = game.hypergraph_dual();
    let hyperedges: Vec<Vec<usize>> = game.graph.hyperedges.iter().map(|e| e.to_vec()).collect();

    for (i, edges) in dual.iter().enumerate() {
        if edges.len() == 1 && hyperedges[edges[0]].len() == 2 {
            new_node_10 = i;
        }
        // 20 is the only one in two sets of size 3
        if edges.len() == 2 && hyperedges[edges[0]].len() == 3 && hyperedges[edges[1]].len() == 3 {
            new_node_20 = i;
        }
        // 50 is the only node that is on two sets and a set that has size 2
        if edges.len() == 2 && (hyperedges[edges[0]].len() == 2 || hyperedges[edges[1]].len() == 2) {
            new_node_50 = i;
        }
    }

    assert_eq!(game.graph.nodes[new_node_10], 10);
    assert_eq!(game.graph.nodes[new_node_20], 20);
    assert_eq!(game.graph.nodes[new_node_50], 50);
}

#[test]
fn test_node_label_preservation_from_parent_structured_example() {
    // Construct a game with uniquely identifiable nodes by membership profile
    let original_sets = vec![
        vec![99, 10, 50],         // Set 0
        vec![50, 100, 20, 3, 99], // Set 1
        vec![20, 3, 4, 100],      // Set 2
    ];

    // Create the canonicalized parent game
    let parent_game =
        TakingGame::from_hyperedges(original_sets.clone()).unwrap().into_iter().next().unwrap();

    let mut new_hyperedges: Vec<Vec<usize>> =
        parent_game.graph.hyperedges.iter().map(|e| e.to_vec()).collect();

    let new_node_99: usize = parent_game.graph.nodes.iter().position(|n| *n == 99).unwrap();
    let new_node_100: usize = parent_game.graph.nodes.iter().position(|n| *n == 100).unwrap();
    for e in &mut new_hyperedges.iter_mut() {
        if let Ok(index) = e.binary_search(&new_node_99) {
            e.remove(index);
        }
        if let Ok(index) = e.binary_search(&new_node_100) {
            e.remove(index);
        }
    }
    let game = TakingGame::from_hyperedges_with_nodes(new_hyperedges, parent_game.graph.nodes.clone())
        .unwrap()
        .into_iter()
        .next()
        .unwrap();

    let mut new_node_10: usize = 0;
    let mut new_node_20: usize = 0;
    let mut new_node_50: usize = 0;

    let dual = game.hypergraph_dual();
    let hyperedges: Vec<Vec<usize>> = game.graph.hyperedges.iter().map(|e| e.to_vec()).collect();

    for (i, edges) in dual.iter().enumerate() {
        // 10 is the only node that is in one set  and a set that has size 2
        if edges.len() == 1 && hyperedges[edges[0]].len() == 2 {
            new_node_10 = i;
        }
        // 20 is the only one in two sets of size 3
        if edges.len() == 2 && hyperedges[edges[0]].len() == 3 && hyperedges[edges[1]].len() == 3 {
            new_node_20 = i;
        }
        // 50 is the only node that is on two sets and a set that has size 2
        if edges.len() == 2 && (hyperedges[edges[0]].len() == 2 || hyperedges[edges[1]].len() == 2) {
            new_node_50 = i;
        }
    }

    assert_eq!(game.graph.nodes[new_node_10], 10);
    assert_eq!(game.graph.nodes[new_node_20], 20);
    assert_eq!(game.graph.nodes[new_node_50], 50);
}
