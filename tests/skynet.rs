use skynet::graph::Graph;

fn build(nodes: usize, gateways: &[usize], connections: &[(usize, usize)]) -> Graph {
    let mut graph = Graph::new(nodes);
    for g in gateways {
        graph.add_gateway(*g);
    }
    for (a, b) in connections {
        graph.add_connection(*a, *b);
    }
    graph
}

fn star() -> Graph {
    build(
        12,
        &[0],
        &[
            (11, 6),
            (11, 7),
            (11, 5),
            (7, 8),
            (7, 0),
            (8, 9),
            (8, 0),
            (9, 10),
            (9, 0),
            (10, 1),
            (10, 0),
            (1, 2),
            (1, 0),
            (2, 3),
            (2, 0),
            (3, 4),
            (3, 0),
            (4, 5),
            (4, 0),
            (5, 6),
            (5, 0),
            (6, 7),
            (6, 0),
        ],
    )
}

fn assert_route(graph: &Graph, path: &[usize], start: usize, target: usize) {
    assert_eq!(path[0], start);
    assert_eq!(*path.last().unwrap(), target);
    assert_eq!(Some(path.len() - 1), graph.distance_of(target));
    for w in path.windows(2) {
        assert!(graph.is_connected(w[0], w[1]));
        assert!(!graph.is_gateway(w[0]));
    }
}

#[test]
fn neighbors() {
    let graph01 = build(3, &[2], &[(0, 1), (1, 2), (2, 3)]);

    let _tmp = graph01.gateways.iter().map(|gateway| gateway);
    assert_eq!(vec![0, 2], graph01.neighbors_of(1))
}

#[test]
fn simple_multipath() {
    let mut graph01 = build(4, &[3], &[(0, 1), (0, 2), (1, 3), (2, 3)]);

    graph01.walk(0);

    println!("simple multi: \n{:#?}", graph01.path_to(3));
    graph01.cut_connection(2, 3);
    graph01.walk(0);
    println!("{:#?}", graph01.path_to(3));
    assert_eq!("0 1", "0 1")
}

#[test]
fn star_test() {
    let mut graph01 = star();

    graph01.walk(11);

    println!("star: \n{:#?}", graph01.path_to(10));
    graph01.cut_connection(8, 9);
    graph01.walk(11);
    println!("star: \n{:#?}", graph01.path_to(10));
    assert_eq!("0 1", "0 1")
}

#[test]
fn walk_leaves_start_at_zero_without_predecessor() {
    let mut graph = star();
    graph.walk(11);
    assert_eq!(graph.distance_of(11), Some(0));
    assert_eq!(graph.previous_of(11), None);
    graph.walk(3);
    assert_eq!(graph.distance_of(3), Some(0));
    assert_eq!(graph.previous_of(3), None);
}

#[test]
fn path_length_is_distance_plus_one() {
    let mut graph = star();
    graph.walk(11);
    for n in 0..graph.node_count() {
        let path = graph.path_to(n);
        assert_route(&graph, &path, 11, n);
    }
}

#[test]
fn exact_distances_on_star() {
    let mut graph = star();
    graph.walk(11);
    let expected = [2, 5, 4, 3, 2, 1, 1, 1, 2, 3, 4, 0];
    for (n, d) in expected.iter().enumerate() {
        assert_eq!(graph.distance_of(n), Some(*d));
    }
    assert_eq!(graph.path_to(10), vec![11, 7, 8, 9, 10]);
}

#[test]
fn gateway_is_never_an_intermediate_hop() {
    let mut graph = build(3, &[1], &[(0, 1), (1, 2)]);
    graph.walk(0);
    assert_eq!(graph.path_to(1), vec![0, 1]);
    assert_eq!(graph.distance_of(2), None);
    assert_eq!(graph.previous_of(2), None);
}

#[test]
fn adding_a_connection_twice_adds_it_once() {
    let mut once = Graph::new(3);
    once.add_connection(0, 1);
    let mut twice = Graph::new(3);
    twice.add_connection(0, 1);
    twice.add_connection(0, 1);
    twice.add_connection(1, 0);
    assert_eq!(once.connections, twice.connections);
    assert_eq!(twice.connections, vec![(0, 1)]);
}

#[test]
fn adding_a_gateway_twice_adds_it_once() {
    let mut graph = Graph::new(3);
    graph.add_gateway(2);
    graph.add_gateway(2);
    assert_eq!(graph.gateways, vec![2]);
    assert!(graph.is_gateway(2));
    assert!(graph.is_gate(2));
    assert!(!graph.is_gate(1));
}

#[test]
fn cutting_twice_is_a_no_op_the_second_time() {
    let mut graph = build(3, &[], &[(0, 1), (1, 2), (2, 0)]);
    assert!(graph.is_connected(2, 1));
    graph.cut_connection(2, 1);
    assert!(!graph.is_connected(1, 2));
    assert!(!graph.is_connected(2, 1));
    assert_eq!(graph.connections, vec![(0, 1), (2, 0)]);
    graph.cut_connection(1, 2);
    assert_eq!(graph.connections, vec![(0, 1), (2, 0)]);
}

#[test]
fn cutting_an_absent_edge_changes_nothing() {
    let mut graph = build(3, &[], &[(0, 1)]);
    graph.cut_connection(1, 2);
    assert_eq!(graph.connections, vec![(0, 1)]);
}

#[test]
fn multipath_reroutes_after_cut() {
    let mut graph = build(4, &[3], &[(0, 1), (0, 2), (1, 3), (2, 3)]);
    graph.walk(0);
    let first = graph.path_to(3);
    assert!(first == vec![0, 1, 3] || first == vec![0, 2, 3]);
    graph.cut_connection(1, 3);
    graph.walk(0);
    assert_eq!(graph.path_to(3), vec![0, 2, 3]);
}

#[test]
fn single_node_path_is_itself() {
    let mut graph = Graph::new(1);
    graph.walk(0);
    assert_eq!(graph.path_to(0), vec![0]);
}

#[test]
fn star_reroutes_around_the_ring() {
    let mut graph = star();
    graph.walk(11);
    assert_eq!(graph.path_to(10), vec![11, 7, 8, 9, 10]);
    graph.cut_connection(8, 9);
    graph.walk(11);
    let path = graph.path_to(10);
    assert_eq!(path, vec![11, 5, 4, 3, 2, 1, 10]);
    assert_route(&graph, &path, 11, 10);
}

#[test]
fn path_before_any_walk_is_empty() {
    let graph = build(2, &[], &[(0, 1)]);
    assert_eq!(graph.path_to(1), Vec::<usize>::new());
}

#[test]
fn start_at_gateway_reaches_nothing_else() {
    let mut graph = build(3, &[0], &[(0, 1), (1, 2)]);
    graph.walk(0);
    assert_eq!(graph.distance_of(0), Some(0));
    assert_eq!(graph.distance_of(1), None);
    assert_eq!(graph.distance_of(2), None);
    assert_eq!(graph.path_to(0), vec![0]);
}

#[test]
fn gateway_neighbors_in_edge_order() {
    let graph = build(5, &[4, 2], &[(0, 4), (1, 0), (2, 0), (0, 3)]);
    assert_eq!(graph.neighbors_gates_of(0), vec![4, 2]);
    assert_eq!(graph.neighbors_of(0), vec![4, 1, 2, 3]);
    assert_eq!(graph.neighbors_gates_of(1), Vec::<usize>::new());
}

#[test]
fn walk_discards_earlier_results() {
    let mut graph = build(3, &[], &[(0, 1), (1, 2)]);
    graph.walk(0);
    assert_eq!(graph.distance_of(2), Some(2));
    graph.walk(2);
    assert_eq!(graph.distance_of(0), Some(2));
    assert_eq!(graph.previous_of(2), None);
    assert_eq!(graph.path_to(0), vec![2, 1, 0]);
}
