use algorithms::graph::Graph;

#[test]
fn test_bfs_all_nodes_visited() {
    let mut graph = Graph::new(5);
    graph.add_edge(0, 1);
    graph.add_edge(0, 4);
    graph.add_edge(1, 2);
    graph.add_edge(1, 3);
    graph.add_edge(1, 4);
    graph.add_edge(2, 3);
    graph.add_edge(3, 4);

    let visited_order = graph.bfs_with_return(0);
    assert_eq!(visited_order, vec![0, 1, 4, 2, 3]);
}

#[test]
fn test_bfs_different_start() {
    let mut graph = Graph::new(3);
    graph.add_edge(0, 1);
    graph.add_edge(1, 2);

    let visited_order = graph.bfs_with_return(2);
    assert_eq!(visited_order, vec![2, 1, 0]);
}

#[test]
fn test_bfs_with_cycle() {
    let mut graph = Graph::new(3);
    graph.add_edge(0, 1);
    graph.add_edge(1, 2);
    graph.add_edge(2, 0);

    let visited_order = graph.bfs_with_return(0);
    assert_eq!(visited_order, vec![0, 1, 2]);
}

#[test]
fn test_bfs_single_node() {
    let mut graph = Graph::new(1);

    let visited_order = graph.bfs_with_return(0);
    assert_eq!(visited_order, vec![0]);
}

#[test]
fn test_bfs_disconnected_component() {
    let mut graph = Graph::new(4);
    graph.add_edge(0, 1);
    graph.add_edge(2, 3);

    let visited_order = graph.bfs_with_return(0);
    assert_eq!(visited_order, vec![0, 1]);
}

#[test]
fn test_bfs_self_loop() {
    let mut graph = Graph::new(2);
    graph.add_edge(0, 0);
    graph.add_edge(0, 1);

    let visited_order = graph.bfs_with_return(0);
    assert_eq!(visited_order, vec![0, 1]);
}
