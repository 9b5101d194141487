use taking_game::bitset::Bitset128;
use taking_game::hypergraph::{GameError, StructuredHypergraph};
use taking_game::sorter::StructuralHypergraphSorter;

#[test]
fn test_from_hyperedges_basic() {
    let edges = vec![Bitset128::from_slice(&[0, 1]), Bitset128::from_slice(&[1, 2])];
    let graphs = StructuredHypergraph::from_hyperedges(edges);
    assert_eq!(graphs.len(), 1);
    let g = &graphs[0];
    assert_eq!(g.nr_nodes(), 3);
    assert_eq!(g.hyperedges().len(), 2);
}

#[test]
fn test_remove_redundant_hyperedges() {
    let edges = vec![
        Bitset128::from_slice(&[0, 1]),
        Bitset128::from_slice(&[0, 1, 2]), // superset
        Bitset128::from_slice(&[2, 3]),
    ];
    let graphs = StructuredHypergraph::from_hyperedges(edges);
    assert_eq!(graphs.len(), 1);
    for g in graphs {
        for e in g.hyperedges() {
            // no edge is subset of another inside a component
            for f in g.hyperedges() {
                if e != f {
                    assert!(!e.is_subset(f));
                }
            }
        }
    }
}

#[test]
fn test_flatten_nodes() {
    let edges = vec![Bitset128::from_slice(&[2, 4]), Bitset128::from_slice(&[4, 6])];
    let mut g = StructuredHypergraph {
        hyperedges: edges.clone(),
        nodes: (0..=6).collect(),
        node_structure_partitions: vec![],
        edge_structure_partitions: vec![],
    };
    g.flatten_nodes();
    // node indices should now be 0,1,2
    for edge in &g.hyperedges {
        for node in edge.to_vec() {
            assert!(node < g.nr_nodes());
        }
    }
    assert_eq!(g.nodes, vec![2, 4, 6]);
    assert_eq!(g.hyperedges, vec![Bitset128(0b011), Bitset128(0b110)]);
}

#[test]
fn test_get_parts() {
    let edges = vec![
        Bitset128::from_slice(&[0, 1]),
        Bitset128::from_slice(&[1, 2]),
        Bitset128::from_slice(&[3, 4]),
    ];
    let g = StructuredHypergraph::from_hyperedges(edges);
    // Should split into 2 components
    assert_eq!(g.len(), 2);
    let sizes: Vec<usize> = g.iter().map(|h| h.nr_nodes()).collect();
    assert!(sizes.contains(&3)); // nodes 0,1,2
    assert!(sizes.contains(&2)); // nodes 3,4
}

#[test]
fn structured_hypergraph_test_canonization() {
    let edges = vec![Bitset128::from_slice(&[0, 1]), Bitset128::from_slice(&[1, 2])];
    let g1 = StructuredHypergraph::from_hyperedges(edges);
    let edges = vec![Bitset128::from_slice(&[0, 3]), Bitset128::from_slice(&[3, 2])];
    let g2 = StructuredHypergraph::from_hyperedges(edges);
    let edges = vec![
        Bitset128::from_slice(&[9, 4]),
        Bitset128::from_slice(&[4, 2]),
        Bitset128::from_slice(&[9]),
        Bitset128::from_slice(&[2, 4]),
    ];
    let g3 = StructuredHypergraph::from_hyperedges(edges);
    assert_eq!(g1, g2);
    assert_eq!(g1, g3);
    assert_eq!(g2, g3);
}

#[test]
fn test_dual() {
    let edges = vec![Bitset128::from_slice(&[0, 1]), Bitset128::from_slice(&[1, 2])];
    let g = StructuredHypergraph::from_hyperedges(edges.clone());
    let dual = g[0].dual();
    // dual should map nodes to incident hyperedges
    assert_eq!(dual.len(), 3); // 3 nodes
    assert_eq!(dual[0], vec![1]);
    assert_eq!(dual[1], vec![0]);
    assert_eq!(dual[2], vec![0, 1]);
}

#[test]
fn structured_hypergraph_test_apply_node_map() {
    let edges = vec![Bitset128::from_slice(&[0, 2]), Bitset128::from_slice(&[1, 2])];
    let mut g = StructuredHypergraph::from_hyperedges(edges.clone())[0].clone();
    g.apply_node_map(&[2, 0, 1]); // permute nodes
    let all_nodes: Vec<usize> = g.hyperedges().iter().flat_map(|e| e.to_vec()).collect();
    assert_eq!(all_nodes.len(), g.hyperedges().iter().map(|e| e.len()).sum());
    assert!(all_nodes.iter().all(|&n| n < g.nr_nodes()));
}

#[test]
fn test_minus_splits_components() {
    let edges = vec![Bitset128::from_slice(&[0, 1]), Bitset128::from_slice(&[1, 2])];
    let g = StructuredHypergraph::from_hyperedges(edges.clone())[0].clone();

    // Remove node 1
    let comps = g.minus(Bitset128::from_slice(&[g.nodes.iter().position(|&n| n == 1).unwrap()]));

    // Should split into two components: {0} and {2}
    assert_eq!(comps.len(), 2);
    let node_sets: Vec<Vec<usize>> = comps.iter().map(|c| c.nodes.to_vec()).collect();

    assert!(node_sets.contains(&vec![0]));
    assert!(node_sets.contains(&vec![2]));
}

#[test]
fn test_minus_remove_all_nodes() {
    let edges = vec![Bitset128::from_slice(&[0, 1, 2])];
    let g = StructuredHypergraph::from_hyperedges(edges.clone())[0].clone();

    let comps = g.minus(Bitset128::from_slice(&[0, 1, 2]));

    // Removing all nodes should yield no components
    assert!(comps.is_empty());
}

#[test]
fn test_minus_noop() {
    let edges = vec![Bitset128::from_slice(&[0, 1]), Bitset128::from_slice(&[1, 2])];
    let g = StructuredHypergraph::from_hyperedges(edges.clone())[0].clone();

    let other = g.minus(Bitset128::default())[0].clone();
    assert_eq!(g, other);
}

#[test]
fn labels_that_do_not_reach_are_refused() {
    let edges = vec![Bitset128::from_slice(&[0, 3])];
    let res = StructuredHypergraph::from_hyperedges_with_nodes(edges, vec![7, 8, 9]);
    assert_eq!(res.err(), Some(GameError::IllConfigured));
    let edges = vec![Bitset128::from_slice(&[0, 3])];
    let res = StructuredHypergraph::from_hyperedges_with_nodes(edges, vec![7, 8, 9, 10]);
    let parts = res.unwrap();
    assert_eq!(parts.len(), 1);
    assert_eq!(parts[0].nodes, vec![7, 10]);
}

#[test]
fn no_edges_give_no_position() {
    assert!(StructuredHypergraph::from_hyperedges(vec![]).is_empty());
    assert!(StructuredHypergraph::from_hyperedges(vec![Bitset128(0), Bitset128(0)]).is_empty());
}

#[test]
fn every_vertex_lies_in_one_component() {
    // vertices 0..=9 but 5, in three components
    let raw: Vec<Vec<usize>> =
        vec![vec![0, 1], vec![1, 2], vec![3, 4], vec![4, 6, 7], vec![8, 9], vec![9], vec![]];
    let edges: Vec<Bitset128> = raw.iter().map(|e| Bitset128::from_slice(e)).collect();
    let parts = StructuredHypergraph::from_hyperedges(edges);
    assert_eq!(parts.len(), 3);
    let mut seen: Vec<usize> = parts.iter().flat_map(|p| p.nodes.clone()).collect();
    seen.sort();
    assert_eq!(seen, vec![0, 1, 2, 3, 4, 6, 7, 8, 9]);
    for p in &parts {
        // renumbered without gaps, and every edge within the vertices
        let n = p.nr_nodes();
        let mut all = Bitset128::default();
        for e in p.hyperedges() {
            all.union(e);
        }
        assert_eq!(all.to_vec(), (0..n).collect::<Vec<usize>>());
        assert_eq!(*p.node_structure_partitions.first().unwrap(), 0);
        assert_eq!(*p.node_structure_partitions.last().unwrap(), n);
        assert_eq!(*p.edge_structure_partitions.last().unwrap(), p.hyperedges().len());
    }
}

#[test]
fn partitions_come_as_ranges() {
    let edges = vec![Bitset128::from_slice(&[0, 1, 2]), Bitset128::from_slice(&[2, 3])];
    let g = StructuredHypergraph::from_hyperedges(edges).remove(0);
    let node_blocks = g.get_node_partitions();
    let edge_blocks = g.get_edge_partitions();
    assert_eq!(node_blocks.first().unwrap().start, 0);
    assert_eq!(node_blocks.last().unwrap().end, 4);
    for w in node_blocks.windows(2) {
        assert_eq!(w[0].end, w[1].start);
    }
    assert_eq!(edge_blocks.len(), 2);
    assert!(!g.is_empty());
}

#[test]
fn sorter_gives_the_order_of_the_constructor() {
    let g = StructuredHypergraph {
        hyperedges: vec![Bitset128::from_slice(&[0, 1]), Bitset128::from_slice(&[1, 2, 3])],
        nodes: vec![10, 11, 12, 13],
        node_structure_partitions: vec![],
        edge_structure_partitions: vec![],
    };
    let sorted = StructuralHypergraphSorter::new(g.clone()).sort();
    let built = StructuredHypergraph::from_hyperedges_with_nodes(g.hyperedges.clone(), g.nodes.clone())
        .unwrap()
        .remove(0);
    assert_eq!(sorted, built);
    assert_eq!(sorted.nodes, built.nodes);
    let mut labels = sorted.nodes.clone();
    labels.sort();
    assert_eq!(labels, vec![10, 11, 12, 13]);
    // the larger edge comes first
    assert_eq!(sorted.hyperedges[0].len(), 3);
}

#[test]
fn classes_agree_on_counts() {
    let raw: Vec<Vec<usize>> = vec![
        vec![0, 1, 2, 3],
        vec![4, 5, 6, 7],
        vec![8, 9, 10, 11],
        vec![0, 4, 8],
        vec![1, 5, 9],
        vec![2, 6, 10],
        vec![3, 7, 11],
        vec![0, 12],
    ];
    let edges: Vec<Bitset128> = raw.iter().map(|e| Bitset128::from_slice(e)).collect();
    let g = StructuredHypergraph::from_hyperedges(edges).remove(0);
    let node_blocks = g.get_node_partitions();
    let dual = g.dual();
    for block in g.get_edge_partitions() {
        for k in block.clone() {
            let parts_first = g.hyperedges[block.start].partition(&node_blocks);
            let parts = g.hyperedges[k].partition(&node_blocks);
            for c in 0..node_blocks.len() {
                assert_eq!(parts[c].len(), parts_first[c].len());
            }
        }
    }
    for block in node_blocks {
        for v in block.clone() {
            assert_eq!(dual[v].len(), dual[block.start].len());
        }
    }
    // the vertex of degree one at the tail stands alone in its block
    assert!(g.get_node_partitions().iter().any(|b| b.len() == 1));
}

#[test]
fn picture_rows_and_width() {
    let g = StructuredHypergraph::from_hyperedges_with_nodes(
        vec![Bitset128::from_slice(&[0, 1]), Bitset128::from_slice(&[1, 2])],
        vec![7, 1234, 50],
    )
    .unwrap()
    .remove(0);
    assert_eq!(g.column_width(), 4);
    let rows = g.rows();
    assert_eq!(rows.len(), 2);
    for (e, row) in rows.iter().enumerate() {
        assert_eq!(row.len(), 3);
        for (i, cell) in row.iter().enumerate() {
            let held = g.hyperedges[e].contains(&i);
            assert_eq!(*cell, if held { Some(g.nodes[i]) } else { None });
        }
    }
    let small = StructuredHypergraph::from_hyperedges(vec![Bitset128::from_slice(&[0])]).remove(0);
    assert_eq!(small.column_width(), 3);
    assert_eq!(taking_game::picture::digits(0), 1);
    assert_eq!(taking_game::picture::digits(9), 1);
    assert_eq!(taking_game::picture::digits(10), 2);
    assert_eq!(taking_game::picture::digits(99999), 5);
}

#[test]
fn a_hypergraph_without_vertices_sorts_to_itself() {
    let empty = StructuredHypergraph {
        hyperedges: Vec::new(),
        nodes: Vec::new(),
        node_structure_partitions: Vec::new(),
        edge_structure_partitions: Vec::new(),
    };
    let sorted = StructuralHypergraphSorter::new(empty).sort();
    assert!(sorted.hyperedges.is_empty());
    assert!(sorted.nodes.is_empty());
    assert!(sorted.node_structure_partitions.is_empty());
    assert!(sorted.edge_structure_partitions.is_empty());
}

#[test]
fn labels_without_edges_sort_to_one_block() {
    let bare = StructuredHypergraph {
        hyperedges: Vec::new(),
        nodes: vec![7, 8, 9],
        node_structure_partitions: Vec::new(),
        edge_structure_partitions: Vec::new(),
    };
    let sorted = StructuralHypergraphSorter::new(bare).sort();
    assert_eq!(sorted.nodes, vec![7, 8, 9]);
    assert_eq!(sorted.node_structure_partitions, vec![0, 3]);
    assert!(sorted.edge_structure_partitions.is_empty());
}
