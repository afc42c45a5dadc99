use algo_lib::dijkstra::{dijkstra, Edge};

#[test]
fn dijkstra_test() {
    let mut graph = vec![vec![]; 5];
    let data = vec![(0, 1, 5), (0, 3, 3), (0, 2, 1), (1, 2, 2), (3, 4, 1)];

    for d in data {
        graph[d.0].push(Edge::new(d.1, d.2));
        graph[d.1].push(Edge::new(d.0, d.2));
    }

    let dist = dijkstra(&graph, 0);
    let acc = vec![0, 3, 1, 3, 4];
    for i in 0..5 {
        assert_eq!(dist[i], acc[i]);
    }
}

#[test]
fn dijkstra_unreachable_vertex() {
    let mut graph = vec![vec![]; 3];
    graph[0].push(Edge::new(1, 7));
    let dist = dijkstra(&graph, 0);
    assert_eq!(dist, vec![0, 7, i64::MAX]);
}

#[test]
fn dijkstra_directed_and_zero_weights() {
    let mut graph = vec![vec![]; 4];
    graph[1].push(Edge::new(0, 1));
    graph[1].push(Edge::new(2, 0));
    graph[2].push(Edge::new(3, 4));
    graph[1].push(Edge::new(3, 9));
    let dist = dijkstra(&graph, 1);
    assert_eq!(dist, vec![1, 0, 0, 4]);
}

#[test]
fn dijkstra_large_weights() {
    let mut graph = vec![vec![]; 3];
    graph[0].push(Edge::new(1, 4_000_000_000_000_000_000));
    graph[1].push(Edge::new(2, 5_000_000_000_000_000_000));
    let dist = dijkstra(&graph, 0);
    assert_eq!(dist, vec![0, 4_000_000_000_000_000_000, 9_000_000_000_000_000_000]);
}
