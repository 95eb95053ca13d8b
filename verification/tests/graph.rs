use fba_quorum_analyzer::simulation::quorum_set_configurators::graph::Graph;

fn sorted_degrees(graph: Graph) -> Vec<usize> {
    let mut result: Vec<usize> = graph.outlinks.into_iter().map(|x| x.len()).collect();
    result.sort();
    result
}

#[test]
fn full_mesh() {
    let expected = Graph {
        outlinks: vec![vec![1, 2, 3], vec![0, 2, 3], vec![0, 1, 3], vec![0, 1, 2]],
    };
    let actual = Graph::new_full_mesh(4);
    assert_eq!(expected, actual);
}

#[test]
fn scale_free_graph_interconnects_m0_fully() {
    let (n, m0, m) = (23, 8, 2);
    let graph = Graph::new_random_scale_free(n, m0, m);

    assert!((0..m0).all(|i| (0..i)
        .chain(i + 1..m0)
        .all(|j| graph.outlinks[j].iter().any(|&x| x == i))));
}

#[test]
fn scale_free_graph_has_sane_number_of_edges() {
    let (n, m0, m) = (23, 3, 2);
    let graph = Graph::new_random_scale_free(n, m0, m);

    let expected = (m0 * (m0 - 1)) / 2 + (n - m0) * m;
    let actual: usize = graph.outlinks.into_iter().map(|x| x.len()).sum::<usize>() / 2;
    assert_eq!(expected, actual);
}

#[test]
fn scale_free_graph_doesnt_panic_on_exotic_m_values() {
    let (n, m0, m) = (40, 4, 4);
    Graph::new_random_scale_free(n, m0, m);
}

#[test]
fn graph_shuffle_shuffles() {
    let (n, m0, m) = (23, 3, 2);
    let graph = Graph::new_random_scale_free(n, m0, m);
    let shuffled = graph.clone().shuffled();
    assert_ne!(graph, shuffled);
}

#[test]
fn graph_shuffle_preserves_degrees() {
    let (n, m0, m) = (23, 3, 2);
    let graph = Graph::new_random_scale_free(n, m0, m);
    let shuffled = graph.clone().shuffled();

    assert_eq!(sorted_degrees(graph), sorted_degrees(shuffled));
}

#[test]
fn node_degrees_undirected() {
    let (n, m0, m) = (23, 3, 2);
    let graph = Graph::new_random_scale_free(n, m0, m);
    assert!(graph.is_undirected());

    let expected: Vec<usize> = graph.outlinks.iter().map(|x| x.len()).collect();

    assert_eq!(expected, graph.get_in_degrees());
    assert_eq!(expected, graph.get_out_degrees());
}

#[test]
fn node_degrees_directed() {
    let graph = Graph::new(vec![vec![1, 2], vec![2], vec![]]);
    assert!(!graph.is_undirected());
    assert_eq!(vec![0, 1, 2], graph.get_in_degrees());
    assert_eq!(vec![2, 1, 0], graph.get_out_degrees());
}

#[test]
fn new_keeps_the_links_it_is_given() {
    let outlinks = vec![vec![1], vec![0, 2], vec![1]];
    let graph = Graph::new(outlinks.clone());
    assert_eq!(outlinks, graph.outlinks);
}

#[test]
fn full_mesh_is_undirected_with_all_edges() {
    for n in 0..7usize {
        let graph = Graph::new_full_mesh(n);
        assert_eq!(n, graph.outlinks.len());
        assert!(graph.is_undirected());
        let links: usize = graph.outlinks.iter().map(|x| x.len()).sum();
        assert_eq!(n * n.saturating_sub(1), links);
        assert_eq!(n * n.saturating_sub(1) / 2, links / 2);
    }
}

#[test]
fn full_mesh_of_one_node_has_no_links() {
    let expected = Graph {
        outlinks: vec![vec![]],
    };
    assert_eq!(expected, Graph::new_full_mesh(1));
}

#[test]
fn link_to_a_missing_node_is_not_undirected() {
    let graph = Graph::new(vec![vec![5]]);
    assert!(!graph.is_undirected());
}

#[test]
fn one_way_link_is_not_undirected() {
    let graph = Graph::new(vec![vec![1], vec![]]);
    assert!(!graph.is_undirected());
    let both = Graph::new(vec![vec![1], vec![0]]);
    assert!(both.is_undirected());
}

#[test]
fn in_degrees_count_repeated_links() {
    let graph = Graph::new(vec![vec![1, 1, 2], vec![1], vec![0, 1]]);
    assert_eq!(vec![1, 4, 1], graph.get_in_degrees());
    assert_eq!(vec![3, 1, 2], graph.get_out_degrees());
}

#[test]
fn scale_free_graph_is_undirected_without_loops() {
    let (n, m0, m) = (30, 5, 3);
    let graph = Graph::new_random_scale_free(n, m0, m);
    assert_eq!(n, graph.outlinks.len());
    assert!(graph.is_undirected());
    for (i, links) in graph.outlinks.iter().enumerate() {
        assert!(links.iter().all(|&j| j != i && j < n));
        if i >= m0 {
            assert!(links.len() >= m);
        }
    }
    let links: usize = graph.outlinks.iter().map(|x| x.len()).sum();
    assert_eq!(m0 * (m0 - 1) + 2 * (n - m0) * m, links);
}

#[test]
fn scale_free_graph_of_the_first_nodes_only_is_a_full_mesh() {
    let graph = Graph::new_random_scale_free(4, 4, 2);
    assert_eq!(Graph::new_full_mesh(4), graph);
    let single = Graph::new_random_scale_free(1, 1, 1);
    assert_eq!(Graph::new_full_mesh(1), single);
}

#[test]
fn scale_free_graph_after_a_single_first_node() {
    let expected = Graph::new(vec![vec![1], vec![0]]);
    assert_eq!(expected, Graph::new_random_scale_free(2, 1, 1));
    let (n, m0, m) = (12, 1, 1);
    let graph = Graph::new_random_scale_free(n, m0, m);
    assert!(graph.is_undirected());
    let links: usize = graph.outlinks.iter().map(|x| x.len()).sum();
    assert_eq!(m0 * (m0 - 1) / 2 + (n - m0) * m, links / 2);
    for i in 1..n {
        assert!(graph.outlinks[i][0] < i);
    }
}

#[test]
fn scale_free_graph_lists_own_links_first_and_later_ones_in_order() {
    let (n, m0, m) = (25, 4, 2);
    let graph = Graph::new_random_scale_free(n, m0, m);
    let mesh = Graph::new_full_mesh(m0);
    for (a, links) in graph.outlinks.iter().enumerate() {
        let own = if a < m0 { m0 - 1 } else { m };
        if a < m0 {
            assert_eq!(mesh.outlinks[a], links[..own].to_vec());
        } else {
            assert!(links[..own].iter().all(|&j| j < a));
        }
        let later = &links[own..];
        assert!(later.iter().all(|&j| j > a && j >= m0));
        assert!(later.windows(2).all(|pair| pair[0] < pair[1]));
    }
    assert_eq!(Graph::new_full_mesh(3), Graph::new_random_scale_free(3, 3, 1));
}

#[test]
fn shuffled_graph_is_the_same_graph_under_other_names() {
    let graph = Graph::new(vec![vec![1, 2, 3], vec![0], vec![0], vec![0], vec![]]);
    let shuffled = graph.clone().shuffled();
    assert_eq!(5, shuffled.outlinks.len());
    assert!(shuffled.is_undirected());
    assert_eq!(sorted_degrees(graph.clone()), sorted_degrees(shuffled.clone()));
    let hub = shuffled
        .outlinks
        .iter()
        .position(|links| links.len() == 3)
        .unwrap();
    for &leaf in &shuffled.outlinks[hub] {
        assert_eq!(vec![hub], shuffled.outlinks[leaf]);
    }
    let mut in_degrees = shuffled.get_in_degrees();
    in_degrees.sort();
    assert_eq!(vec![0, 1, 1, 1, 3], in_degrees);
}

#[test]
fn small_world_graph_has_sane_number_of_edges() {
    let (n, k, beta) = (100, 10, (1, 20));
    let graph = Graph::new_random_small_world(n, k, beta.0, beta.1);

    let expected = n * k / 2;
    let actual: usize = graph.outlinks.into_iter().map(|x| x.len()).sum::<usize>() / 2;
    assert_eq!(expected, actual);
}

#[test]
fn small_world_graph_with_big_k_has_sane_number_of_edges() {
    let (n, k, beta) = (80, 78, (1, 20));
    let graph = Graph::new_random_small_world(n, k, beta.0, beta.1);

    let expected = n * k / 2;
    let actual: usize = graph.outlinks.into_iter().map(|x| x.len()).sum::<usize>() / 2;
    assert_eq!(expected, actual);
}

#[test]
fn small_world_graph_is_random() {
    let (n, k, beta) = (100, 10, (1, 20));
    let graph1 = Graph::new_random_small_world(n, k, beta.0, beta.1);
    let graph2 = Graph::new_random_small_world(n, k, beta.0, beta.1);
    assert_ne!(graph1, graph2);
}

#[test]
fn small_world_graph_with_big_k_is_random() {
    let (n, k, beta) = (120, 110, (1, 20));
    let graph1 = Graph::new_random_small_world(n, k, beta.0, beta.1);
    let graph2 = Graph::new_random_small_world(n, k, beta.0, beta.1);
    assert_ne!(graph1, graph2);
}

#[test]
fn small_world_graph_without_rewiring_is_the_ring() {
    let expected = Graph {
        outlinks: vec![
            vec![1, 2, 4, 5],
            vec![0, 2, 3, 5],
            vec![0, 1, 3, 4],
            vec![1, 2, 4, 5],
            vec![0, 2, 3, 5],
            vec![0, 1, 3, 4],
        ],
    };
    assert_eq!(expected, Graph::new_random_small_world(6, 4, 0, 1));
    let unlinked = Graph {
        outlinks: vec![vec![], vec![], vec![]],
    };
    assert_eq!(unlinked, Graph::new_random_small_world(3, 0, 1, 2));
}

#[test]
fn small_world_graph_rewired_throughout_keeps_its_shape() {
    let (n, k) = (30, 6);
    let graph = Graph::new_random_small_world(n, k, 1, 1);
    assert_eq!(n, graph.outlinks.len());
    assert!(graph.is_undirected());
    for (i, links) in graph.outlinks.iter().enumerate() {
        assert!(links.iter().all(|&j| j != i && j < n));
        assert!(links.windows(2).all(|pair| pair[0] < pair[1]));
    }
    let links: usize = graph.outlinks.iter().map(|x| x.len()).sum();
    assert_eq!(n * k, links);
    assert_ne!(Graph::new_random_small_world(n, k, 0, 1), graph);
    assert_eq!(graph.get_out_degrees(), graph.get_in_degrees());
}

#[test]
fn well_formed_graphs_and_checked_in_degrees() {
    let graph = Graph::new(vec![vec![1, 2], vec![2], vec![]]);
    assert!(graph.is_well_formed());
    assert_eq!(Some(vec![0, 1, 2]), graph.checked_in_degrees());
    let broken = Graph::new(vec![vec![1, 3], vec![2], vec![]]);
    assert!(!broken.is_well_formed());
    assert_eq!(None, broken.checked_in_degrees());
    let none = Graph::new(vec![]);
    assert!(none.is_well_formed());
    assert_eq!(Some(vec![]), none.checked_in_degrees());
}

#[test]
fn renamed_graph_moves_every_node_to_its_image() {
    let graph = Graph::new(vec![vec![1, 2], vec![2], vec![], vec![0, 0]]);
    let renamed = graph.clone().renamed(&vec![2, 0, 3, 1]);
    let expected = Graph::new(vec![vec![3], vec![2, 2], vec![0, 3], vec![]]);
    assert_eq!(expected, renamed);
    assert_eq!(graph, graph.clone().renamed(&vec![0, 1, 2, 3]));
}

#[test]
fn renamed_graph_keeps_in_degrees_and_symmetry() {
    let graph = Graph::new(vec![vec![1, 2], vec![2], vec![], vec![0, 0]]);
    let permutation = vec![2, 0, 3, 1];
    let renamed = graph.clone().renamed(&permutation);
    let before = graph.get_in_degrees();
    let after = renamed.get_in_degrees();
    for (node, &image) in permutation.iter().enumerate() {
        assert_eq!(before[node], after[image]);
    }
    assert!(!renamed.is_undirected());
    let ring = Graph::new_random_small_world(5, 2, 0, 1);
    let shuffled = ring.clone().shuffled();
    assert!(shuffled.is_undirected());
    let mut in_degrees = shuffled.get_in_degrees();
    in_degrees.sort();
    assert_eq!(vec![2, 2, 2, 2, 2], in_degrees);
}
