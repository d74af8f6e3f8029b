use voxircle::sparse_graph::SparseGraph;

fn small_graph() -> SparseGraph {
    SparseGraph::new(5, vec![[0, 1], [0, 2], [0, 3], [2, 3], [2, 4]])
}

#[test]
fn dfs_test() {
    let graph = small_graph();

    println!("{:?}", graph.dfs(&0, |_i| false));
}

#[test]
fn longest_path_from_test() {
    let graph = small_graph();

    println!("{:?}", graph.longest_path_from_start(&0, &|_| true));
    assert_eq!(
        graph.longest_path_from_start(&0, &|_| true).unwrap(),
        (vec![0, 3, 2, 4], 4)
    );

    println!();

    println!("Longest odd-length path");
    println!(
        "{:?}",
        graph.longest_path_from_start(&0, &|p: &Vec<usize>| p.len() % 2 == 1)
    );

    assert_eq!(
        graph
            .longest_path_from_start(&0, &|p: &Vec<usize>| p.len() % 2 == 1)
            .unwrap(),
        (vec![0, 2, 3,], 3)
    );

    println!();

    println!("Longest path ending in 2");
    println!(
        "{:?}",
        graph.longest_path_from_start(&0, &|p: &Vec<usize>| p.last().is_some_and(|i| *i == 2))
    );
    assert_eq!(
        graph
            .longest_path_from_start(&0, &|p: &Vec<usize>| p.last().is_some_and(|i| *i == 2))
            .unwrap(),
        (vec![0, 3, 2], 3)
    );
}

#[test]
fn longest_cycle_test() {
    let graph = small_graph();

    println!("{:?}", graph.longest_cycle_starting_at(&4));
    assert_eq!(graph.longest_cycle_starting_at(&4), vec![4]); // edge point
    assert_eq!(graph.longest_cycle_starting_at(&132), vec![132]); // outside of graph, no edges
    assert_eq!(graph.longest_cycle_starting_at(&0), vec![0, 2, 3]); // note ascending order
    assert_eq!(graph.longest_cycle_starting_at(&2), vec![2, 0, 3]);

    // basepoint-independent longest cycle
    assert_eq!(graph.longest_cycle(), vec![0, 2, 3]);

    let graph = SparseGraph::new(6, vec![[0, 1], [1, 2], [2, 3], [3, 4], [4, 5]]);
    assert_eq!(graph.longest_cycle(), vec![0]);

    // circle graph with attachment
    let graph = SparseGraph::new(
        8,
        vec![
            [0, 1],
            [1, 2],
            [2, 3],
            [3, 4],
            [4, 5],
            [5, 0], // end of circle (size 6)
            [0, 6],
            [6, 7],
        ],
    );
    assert_eq!(graph.longest_cycle(), vec![0, 1, 2, 3, 4, 5]);

    // figure 8 graph (6 nodes)
    let graph = SparseGraph::new(
        6,
        vec![[0, 1], [1, 2], [3, 4], [4, 5], [0, 3], [1, 4], [2, 5]],
    );
    assert_eq!(graph.longest_cycle(), vec![0, 1, 2, 5, 4, 3]);
}

#[test]
fn dfs_finds_first_satisfying_vertex() {
    let graph = small_graph();
    // the start itself is checked first
    assert_eq!(graph.dfs(&0, |i| *i == 0), Some(0));
    // 4 is reachable through 2
    assert_eq!(graph.dfs(&0, |i| *i == 4), Some(4));
    // 7 is not in the graph
    assert_eq!(graph.dfs(&0, |i| *i == 7), None);
    // a vertex outside every edge reaches only itself
    assert_eq!(graph.dfs(&9, |i| *i == 0), None);
}

#[test]
fn neighbors_and_degree_follow_edges() {
    let graph = SparseGraph::new(3, vec![[0, 1], [1, 1], [2, 0]]);
    assert_eq!(graph.get_neighbors(&0), vec![1, 2]);
    assert_eq!(graph.get_neighbors(&1), vec![0, 1]);
    assert_eq!(graph.get_degree(&2), 1);
    assert_eq!(graph.get_nr_verts(), 3);
    assert_eq!(graph.get_edges(), &vec![[0, 1], [1, 1], [2, 0]]);
}

#[test]
fn edges_can_be_edited_in_place() {
    let mut graph = SparseGraph::new(3, vec![[0, 1]]);
    graph.get_edges_mut().push([1, 2]);
    graph.get_edges_mut().push([2, 0]);
    assert_eq!(graph.longest_cycle(), vec![0, 1, 2]);
}
